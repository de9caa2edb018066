//! Hypergraph functors: structure-preserving maps between hypergraph
//! categories, and the functor on cospans induced by a map of labels.
use vstd::prelude::*;

use crate::cospan::{glued_label, is_pushout_quotient, leg_is_identity, Cospan};
use crate::errors::CatgraphError;
use crate::hypergraph_category::HypergraphCategory;
use crate::label::Label;

verus! {

/// A strong symmetric monoidal functor between hypergraph categories that
/// preserves the Frobenius structure. `accepts` and `accepts_mor` tell on
/// which labels and morphisms the functor is defined.
pub trait HypergraphFunctor<L1: Label, L2: Label, Src: HypergraphCategory<L1>, Tgt: HypergraphCategory<L2>>: Sized {
    spec fn accepts(&self, x: L1) -> bool;

    spec fn accepts_mor(&self, f: &Src) -> bool;

    /// The image of a label.
    fn map_ob(&self, x: L1) -> L2
        requires
            <Self as HypergraphFunctor<L1, L2, Src, Tgt>>::accepts(self, x),
    ;

    /// The image of a morphism.
    fn map_mor(&self, f: &Src) -> Result<Tgt, CatgraphError>
        requires
            <Self as HypergraphFunctor<L1, L2, Src, Tgt>>::accepts_mor(self, f),
    ;
}

/// The functor on cospans that relabels every apex element and keeps the legs.
pub struct RelabelingFunctor<F> {
    relabel: F,
}

impl<F> RelabelingFunctor<F> {
    /// The relabelling function.
    pub closed spec fn function(&self) -> F {
        self.relabel
    }

    pub fn new(relabel: F) -> (r: Self)
        ensures
            r.function() == relabel,
    {
        Self { relabel }
    }
}

/// `b` is `a` with every apex label replaced by one that `f` can give for it.
pub open spec fn relabels<L1: Label, L2: Label, F: Fn(L1) -> L2>(a: Cospan<L1>, b: Cospan<L2>, f: F) -> bool {
    &&& b.left_map() == a.left_map()
    &&& b.right_map() == a.right_map()
    &&& b.apex().len() == a.apex().len()
    &&& forall|i: int| 0 <= i < a.apex().len() ==> f.ensures((a.apex()[i],), #[trigger] b.apex()[i])
}

impl<L1: Label, L2: Label, F: Fn(L1) -> L2> HypergraphFunctor<L1, L2, Cospan<L1>, Cospan<L2>> for RelabelingFunctor<F> {
    open spec fn accepts(&self, x: L1) -> bool {
        self.function().requires((x,))
    }

    open spec fn accepts_mor(&self, f: &Cospan<L1>) -> bool {
        forall|i: int| 0 <= i < f.apex().len() ==> self.function().requires((#[trigger] f.apex()[i],))
    }

    fn map_ob(&self, x: L1) -> (r: L2)
        ensures
            self.function().ensures((x,), r),
    {
        (self.relabel)(x)
    }

    /// The cospan with the same legs and every apex label relabelled.
    fn map_mor(&self, f: &Cospan<L1>) -> (r: Result<Cospan<L2>, CatgraphError>)
        ensures
            r matches Ok(c) && relabels(*f, c, self.function()) && c.left_flag() == leg_is_identity(
                f.left_map(),
                f.apex().len(),
            ) && c.right_flag() == leg_is_identity(f.right_map(), f.apex().len()),
    {
        let old_middle = f.middle();
        let mut new_middle: Vec<L2> = Vec::with_capacity(old_middle.len());
        let mut i: usize = 0;
        while i < old_middle.len()
            invariant
                i <= old_middle@.len(),
                old_middle@ == f.apex(),
                forall|j: int| 0 <= j < f.apex().len() ==> self.function().requires((#[trigger] f.apex()[j],)),
                new_middle@.len() == i,
                forall|j: int| 0 <= j < i ==> self.function().ensures((f.apex()[j],), #[trigger] new_middle@[j]),
            decreases old_middle@.len() - i,
        {
            let y = (self.relabel)(old_middle[i]);
            new_middle.push(y);
            i = i + 1;
        }
        let left = crate::utils::copy_vec(f.left_to_middle());
        let right = crate::utils::copy_vec(f.right_to_middle());
        let c = Cospan::new(left, right, new_middle);
        Ok(c)
    }
}

/// Relabelling commutes with composition: when `c` is the pushout composite of
/// `f` and `g`, and `f2`, `g2`, `c2` relabel them by a function `r` that gives
/// one label for each label, `c2` is the composite of `f2` and `g2`.
pub proof fn law_relabel_preserves_composite<L1: Label, L2: Label>(
    f: Cospan<L1>,
    g: Cospan<L1>,
    c: Cospan<L1>,
    f2: Cospan<L2>,
    g2: Cospan<L2>,
    c2: Cospan<L2>,
    r: spec_fn(L1) -> L2,
)
    requires
        f.is_composite(&g, &c),
        f2.left_map() == f.left_map() && f2.right_map() == f.right_map() && f2.apex() == f.apex().map_values(r),
        g2.left_map() == g.left_map() && g2.right_map() == g.right_map() && g2.apex() == g.apex().map_values(r),
        c2.left_map() == c.left_map() && c2.right_map() == c.right_map() && c2.apex() == c.apex().map_values(r),
    ensures
        f2.is_composite(&g2, &c2),
{
    let m1 = f.apex().len();
    let total = m1 + g.apex().len();
    let q = choose|q: Seq<usize>|
        {
            &&& is_pushout_quotient(q, c.apex().len(), f.right_map(), g.left_map(), m1, total)
            &&& forall|x: int|
                0 <= x < total ==> c.apex()[#[trigger] q[x] as int] == glued_label(f.apex(), g.apex(), x)
            &&& c.left_map() == Seq::new(f.left_map().len(), |i: int| q[f.left_map()[i] as int])
            &&& c.right_map() == Seq::new(g.right_map().len(), |j: int| q[m1 + g.right_map()[j]])
        };
    assert forall|x: int| 0 <= x < total implies c2.apex()[#[trigger] q[x] as int] == glued_label(
        f2.apex(),
        g2.apex(),
        x,
    ) by {
        assert(c.apex()[q[x] as int] == glued_label(f.apex(), g.apex(), x));
        assert(q[x] < c.apex().len());
    }
    assert(f2.apex().len() == m1);
    assert(g2.apex().len() == g.apex().len());
    assert(c2.apex().len() == c.apex().len());
    assert(is_pushout_quotient(q, c2.apex().len(), f2.right_map(), g2.left_map(), m1, total));
    assert(c2.left_map() == Seq::new(f2.left_map().len(), |i: int| q[f2.left_map()[i] as int]));
    assert(c2.right_map() == Seq::new(g2.right_map().len(), |j: int| q[m1 + g2.right_map()[j]]));
}

} // verus!
