//! Cospan-algebras: lax symmetric monoidal functors from labelled cospans to
//! sets, given element-wise.
//!
//! An algebra sends each word of labels `x` to a set `a(x)`; `elem_type`
//! names the word whose set an element lies in. A cospan `c: m → p ← n` acts
//! on elements of `a(m)`, giving elements of `a(n)`; two elements combine into
//! an element of the concatenated word, and `unit` is the element of `a([])`.
use vstd::prelude::*;

use crate::category::{Composable, ComposableMutating, HasIdentity};
use crate::cospan::{shifted, Cospan};
use crate::errors::CatgraphError;
use crate::finset::{fin_codomain, image_bound, lemma_image_bound, max_value, Decomposition};
use crate::frobenius::{
    diagram_cod, diagram_dom, frob_append, frob_compose_layers, frob_monoidal, identity_ops, lemma_cloned_words,
    lemma_identity_ops, FrobeniusMorphism, FrobeniusOperation,
};
use crate::frobenius_permutation::{decomposition_diagram, flipped_diagram, from_decomposition, keep};
use crate::compact_closed::{cloned_diagram, composes_to};
use crate::label::{labels_equal, Label};
use crate::monoidal::Monoidal;

verus! {

/// A lax symmetric monoidal functor from cospans labelled by `Lambda`,
/// operating on elements.
///
/// `weight` measures how much room an element takes; an action or a product
/// whose total weight would pass `usize::MAX` cannot be carried out.
pub trait CospanAlgebra<Lambda: Label>: Sized {
    type Elem;

    /// The word `x` with `e ∈ a(x)`.
    spec fn elem_type(&self, e: &Self::Elem) -> Seq<Lambda>;

    /// The room `e` takes.
    spec fn weight(&self, e: &Self::Elem) -> nat;

    /// `r` is the action of `cospan` on `e`.
    spec fn acts(&self, cospan: Cospan<Lambda>, e: Self::Elem, r: Self::Elem) -> bool;

    /// `r` is the product of `a` and `b`.
    spec fn tensors(&self, a: Self::Elem, b: Self::Elem, r: Self::Elem) -> bool;

    /// `e` is the element of `a([])` that `unit` gives.
    spec fn is_unit(&self, e: Self::Elem) -> bool;

    /// The action of `cospan` on an element of `a(dom(cospan))`; it fails
    /// exactly when the element lies elsewhere or the room runs out.
    fn map_cospan(&self, cospan: &Cospan<Lambda>, element: &Self::Elem) -> (r: Result<
        Self::Elem,
        CatgraphError,
    >)
        ensures
            r is Ok <==> (<Self as CospanAlgebra<Lambda>>::elem_type(self, element) == cospan.dom() && <Self as CospanAlgebra<Lambda>>::weight(self, element)
                + cospan.apex().len() <= usize::MAX),
            r matches Ok(x) ==> <Self as CospanAlgebra<Lambda>>::elem_type(self, &x) == cospan.cod(),
            r matches Ok(x) ==> <Self as CospanAlgebra<Lambda>>::weight(self, &x) <= <Self as CospanAlgebra<Lambda>>::weight(self, element)
                + cospan.apex().len(),
            r matches Ok(x) ==> <Self as CospanAlgebra<Lambda>>::acts(self, *cospan, *element, x),
    ;

    /// The coherence map `a(x) × a(y) → a(x ⊕ y)`.
    fn lax_monoidal(&self, a: &Self::Elem, b: &Self::Elem) -> (r: Self::Elem)
        ensures
            <Self as CospanAlgebra<Lambda>>::weight(self, a) + <Self as CospanAlgebra<Lambda>>::weight(self, b) <= usize::MAX ==> <Self as CospanAlgebra<Lambda>>::elem_type(self, &r) == <Self as CospanAlgebra<Lambda>>::elem_type(self, a)
                + <Self as CospanAlgebra<Lambda>>::elem_type(self, b) && <Self as CospanAlgebra<Lambda>>::weight(self, &r) == <Self as CospanAlgebra<Lambda>>::weight(self, a) + <Self as CospanAlgebra<Lambda>>::weight(self, b),
            <Self as CospanAlgebra<Lambda>>::tensors(self, *a, *b, r),
    ;

    /// The element of `a([])`.
    fn unit(&self) -> (r: <Self as CospanAlgebra<Lambda>>::Elem)
        ensures
            <Self as CospanAlgebra<Lambda>>::elem_type(self, &r) == Seq::<Lambda>::empty(),
            <Self as CospanAlgebra<Lambda>>::weight(self, &r) == 0,
            <Self as CospanAlgebra<Lambda>>::is_unit(self, r),
    ;
}

/// The partition algebra: `a(x)` is the set of cospans `[] → x`, each a way to
/// partition `x` into labelled groups. Cospans act by composition.
pub struct PartitionAlgebra;

impl Default for PartitionAlgebra {
    fn default() -> (r: Self)
        ensures
            r == PartitionAlgebra,
    {
        PartitionAlgebra
    }
}

impl<Lambda: Label> CospanAlgebra<Lambda> for PartitionAlgebra {
    type Elem = Cospan<Lambda>;

    open spec fn elem_type(&self, e: &Cospan<Lambda>) -> Seq<Lambda> {
        e.cod()
    }

    open spec fn weight(&self, e: &Cospan<Lambda>) -> nat {
        e.apex().len()
    }

    /// The pushout composite `e ; cospan`.
    open spec fn acts(&self, cospan: Cospan<Lambda>, e: Cospan<Lambda>, r: Cospan<Lambda>) -> bool {
        e.is_composite(&cospan, &r) && r.dom() == e.dom()
    }

    /// The disjoint union: the legs of `b` follow those of `a`, shifted past
    /// the apex of `a`.
    open spec fn tensors(&self, a: Cospan<Lambda>, b: Cospan<Lambda>, r: Cospan<Lambda>) -> bool {
        a.apex().len() + b.apex().len() <= usize::MAX ==> {
            &&& r.left_map() == a.left_map() + shifted(b.left_map(), a.apex().len())
            &&& r.right_map() == a.right_map() + shifted(b.right_map(), a.apex().len())
            &&& r.apex() == a.apex() + b.apex()
        }
    }

    /// The empty cospan.
    open spec fn is_unit(&self, e: Cospan<Lambda>) -> bool {
        e.left_map().len() == 0 && e.right_map().len() == 0 && e.apex().len() == 0
    }

    /// The composite `element ; cospan`.
    fn map_cospan(&self, cospan: &Cospan<Lambda>, element: &Cospan<Lambda>) -> (r: Result<
        Cospan<Lambda>,
        CatgraphError,
    >)
        ensures
            r matches Ok(c) ==> element.is_composite(cospan, &c) && c.dom() == element.dom(),
    {
        element.compose(cospan)
    }

    /// The tensor product `a ⊗ b`.
    fn lax_monoidal(&self, a: &Cospan<Lambda>, b: &Cospan<Lambda>) -> (r: Cospan<Lambda>)
        ensures
            a.apex().len() + b.apex().len() <= usize::MAX ==> r.dom() == a.dom() + b.dom() && r.apex()
                == a.apex() + b.apex(),
    {
        let mut result = a.clone();
        result.monoidal(b.clone());
        result
    }

    /// The empty cospan.
    fn unit(&self) -> (r: Cospan<Lambda>) {
        let r = Cospan::empty();
        assert(r.cod() =~= Seq::<Lambda>::empty());
        assert(r.dom() =~= Seq::<Lambda>::empty());
        r
    }
}

/// The name algebra, whose elements are named morphisms `[] → x` of a
/// hypergraph category with black boxes labelled by `BlackBoxLabel`.
pub struct NameAlgebra<BlackBoxLabel> {
    _phantom: core::marker::PhantomData<BlackBoxLabel>,
}

impl<BlackBoxLabel> NameAlgebra<BlackBoxLabel> {
    pub fn new() -> (r: Self) {
        Self { _phantom: core::marker::PhantomData }
    }
}

impl<BlackBoxLabel: Clone> NameAlgebra<BlackBoxLabel> {
    /// The element of `a([])`: the identity on the empty word, one empty layer.
    pub fn unit<Lambda: Label>(&self) -> (r: FrobeniusMorphism<Lambda, BlackBoxLabel>)
        ensures
            r.diagram() == seq![Seq::<FrobeniusOperation<Lambda, BlackBoxLabel>>::empty()],
    {
        let e: Vec<Lambda> = Vec::new();
        let r = FrobeniusMorphism::identity(&e);
        assert(r.diagram()[0] =~= Seq::<FrobeniusOperation<Lambda, BlackBoxLabel>>::empty());
        assert(r.diagram() =~= seq![Seq::<FrobeniusOperation<Lambda, BlackBoxLabel>>::empty()]);
        r
    }

    /// The two named morphisms side by side (copies of both).
    pub fn lax_monoidal<Lambda: Label>(
        &self,
        a: &FrobeniusMorphism<Lambda, BlackBoxLabel>,
        b: &FrobeniusMorphism<Lambda, BlackBoxLabel>,
    ) -> (r: FrobeniusMorphism<Lambda, BlackBoxLabel>)
        ensures
            exists|ac: Seq<Seq<FrobeniusOperation<Lambda, BlackBoxLabel>>>, bc: Seq<Seq<FrobeniusOperation<Lambda, BlackBoxLabel>>>|
                #![trigger cloned_diagram(a.diagram(), ac), cloned_diagram(b.diagram(), bc)]
                cloned_diagram(a.diagram(), ac) && cloned_diagram(b.diagram(), bc) && r.diagram() == frob_monoidal(
                    ac,
                    bc,
                ),
    {
        let mut result = a.clone();
        let ghost ac = result.diagram();
        let other = b.clone();
        let ghost bc = other.diagram();
        result.monoidal(other);
        assert(cloned_diagram(a.diagram(), ac) && cloned_diagram(b.diagram(), bc));
        result
    }

    /// The action of a cospan on a named morphism: a copy of the element
    /// composed with the Frobenius diagram of the cospan. Fails when building
    /// that diagram or the composition does.
    pub fn map_cospan<Lambda: Label>(
        &self,
        cospan: &Cospan<Lambda>,
        element: &FrobeniusMorphism<Lambda, BlackBoxLabel>,
    ) -> (r: Result<FrobeniusMorphism<Lambda, BlackBoxLabel>, CatgraphError>)
        ensures
            r matches Ok(m) ==> exists|cd: Seq<Seq<FrobeniusOperation<Lambda, BlackBoxLabel>>>, ec: Seq<Seq<FrobeniusOperation<Lambda, BlackBoxLabel>>>|
                #![trigger cospan_frobenius(*cospan, cd), cloned_diagram(element.diagram(), ec)]
                cospan_frobenius(*cospan, cd) && cloned_diagram(element.diagram(), ec) && composes_to(
                    ec,
                    cd,
                    true,
                    m.diagram(),
                ),
            cospan.dom() == cospan.cod() && cospan.left_map() == cospan.right_map() ==> (r is Ok <==> element.cod()
                == cospan.dom()),
    {
        let cospan_morph: FrobeniusMorphism<Lambda, BlackBoxLabel> = match cospan_to_frobenius(cospan) {
            Ok(m) => m,
            Err(e) => {
                return Err(e);
            },
        };
        let ghost cd = cospan_morph.diagram();
        let mut result = element.clone();
        let ghost ec = result.diagram();
        proof {
            assert(cloned_diagram(element.diagram(), ec));
            if ec.len() > 0 {
                lemma_cloned_words(element.diagram().last(), ec.last());
            }
            assert(diagram_cod(ec) == element.cod());
            if cospan.dom() == cospan.cod() && cospan.left_map() == cospan.right_map() {
                lemma_identity_seam::<Lambda, BlackBoxLabel>(ec, cospan.dom());
            }
        }
        match result.compose(cospan_morph) {
            Ok(()) => {},
            Err(e) => {
                return Err(e);
            },
        }
        assert(cospan_frobenius(*cospan, cd) && cloned_diagram(element.diagram(), ec));
        assert(composes_to(ec, cd, true, result.diagram()));
        Ok(result)
    }
}

/// Composing after one layer of identities on `d` starts at `d` and goes
/// through exactly when the diagram ends at `d`.
proof fn lemma_identity_seam<L: Label, B>(ec: Seq<Seq<FrobeniusOperation<L, B>>>, d: Seq<L>)
    ensures
        diagram_dom(seq![identity_ops::<L, B>(d)]) == d,
        diagram_cod(ec) == d ==> frob_compose_layers(ec, seq![identity_ops::<L, B>(d)]).1,
{
    lemma_identity_ops::<L, B>(d);
    let os = seq![identity_ops::<L, B>(d)];
    assert(os.drop_first() =~= Seq::<Seq<FrobeniusOperation<L, B>>>::empty());
    if diagram_cod(ec) == d {
        assert(frob_append(ec, os[0]).1);
        assert(frob_compose_layers(frob_append(ec, os[0]).0, os.drop_first()).1);
    }
}

impl<BlackBoxLabel> Default for NameAlgebra<BlackBoxLabel> {
    fn default() -> (r: Self) {
        Self::new()
    }
}


/// The codomain elements of a leg into an apex of `middle_len` elements
/// beyond its largest image.
fn leftover(map: &[usize], middle_len: usize) -> (r: usize)
    requires
        forall|i: int| 0 <= i < map@.len() ==> map@[i] < middle_len,
    ensures
        fin_codomain(map@, r as nat) == middle_len,
{
    proof {
        lemma_image_bound(map@);
    }
    match max_value(map) {
        None => middle_len,
        Some(max_idx) => {
            proof {
                let j = choose|j: int| 0 <= j < map@.len() && map@[j] + 1 == image_bound(map@);
            }
            middle_len.saturating_sub(max_idx + 1)
        },
    }
}

/// `d` is the Frobenius diagram of the cospan `c` that
/// `cospan_to_frobenius` builds: for a cospan whose legs and boundaries
/// agree, the identity layer on its domain; otherwise the diagram of the
/// decomposition of the left leg from `X` to `M`, composed with the diagram
/// of the decomposition of the right leg from `Y` to `M` turned upside down.
pub open spec fn cospan_frobenius<L: Label, B>(c: Cospan<L>, d: Seq<Seq<FrobeniusOperation<L, B>>>) -> bool {
    if c.dom() == c.cod() && c.left_map() == c.right_map() {
        d == seq![identity_ops::<L, B>(c.dom())]
    } else {
        exists|
            dl: Decomposition,
            ld: Seq<Seq<FrobeniusOperation<L, B>>>,
            dr: Decomposition,
            rd: Seq<Seq<FrobeniusOperation<L, B>>>,
            rdf: Seq<Seq<FrobeniusOperation<L, B>>>,
        |
            #![trigger dl.is_decomposition_of(c.left_map(), c.apex().len()), dr.is_decomposition_of(c.right_map(), c.apex().len()), flipped_diagram(rd, rdf), decomposition_diagram(ld, dl, c.dom(), c.apex())]
            {
                &&& dl.is_decomposition_of(c.left_map(), c.apex().len())
                &&& decomposition_diagram(ld, dl, c.dom(), c.apex())
                &&& dr.is_decomposition_of(c.right_map(), c.apex().len())
                &&& decomposition_diagram(rd, dr, c.cod(), c.apex())
                &&& flipped_diagram(rd, rdf)
                &&& d == frob_compose_layers(ld, rdf).0
            }
    }
}

/// `ld` and `rdf` are the two leg diagrams that `cospan_to_frobenius`
/// composes for `c`: the diagram of the decomposition of the left leg from
/// `X` to `M`, and the diagram of the decomposition of the right leg from
/// `Y` to `M` turned upside down.
pub open spec fn leg_diagrams<L: Label, B>(
    c: Cospan<L>,
    ld: Seq<Seq<FrobeniusOperation<L, B>>>,
    rdf: Seq<Seq<FrobeniusOperation<L, B>>>,
) -> bool {
    exists|dl: Decomposition, dr: Decomposition, rd: Seq<Seq<FrobeniusOperation<L, B>>>|
        #![trigger dl.is_decomposition_of(c.left_map(), c.apex().len()), dr.is_decomposition_of(c.right_map(), c.apex().len()), flipped_diagram(rd, rdf)]
        {
            &&& dl.is_decomposition_of(c.left_map(), c.apex().len())
            &&& decomposition_diagram(ld, dl, c.dom(), c.apex())
            &&& dr.is_decomposition_of(c.right_map(), c.apex().len())
            &&& decomposition_diagram(rd, dr, c.cod(), c.apex())
            &&& flipped_diagram(rd, rdf)
        }
}

/// The Frobenius diagram of a cospan `X → M ← Y`: the left leg as the
/// diagram of its decomposition from `X` to `M`, then the right leg's
/// diagram from `Y` to `M` turned upside down, composed. A cospan whose
/// legs and boundaries agree gives the identity on its domain.
pub fn cospan_to_frobenius<Lambda: Label, B: Clone>(cospan: &Cospan<Lambda>) -> (r: Result<
    FrobeniusMorphism<Lambda, B>,
    CatgraphError,
>)
    ensures
        cospan.dom() == cospan.cod() && cospan.left_map() == cospan.right_map() ==> r is Ok,
        r matches Ok(m) ==> cospan_frobenius(*cospan, m.diagram()),
        r is Err ==> !(cospan.dom() == cospan.cod() && cospan.left_map() == cospan.right_map()) && exists|
            ld: Seq<Seq<FrobeniusOperation<Lambda, B>>>,
            rdf: Seq<Seq<FrobeniusOperation<Lambda, B>>>,
        | #[trigger] leg_diagrams(*cospan, ld, rdf) && !(diagram_cod(ld) == diagram_dom(rdf) && frob_compose_layers(
            ld,
            rdf,
        ).1),
{
    let domain = cospan.domain();
    let codomain = cospan.codomain();
    let middle = cospan.middle();
    let middle_len = middle.len();
    let left_map_ref = cospan.left_to_middle();
    let right_map_ref = cospan.right_to_middle();
    let _ok = cospan.valid();
    if labels_equal(domain.as_slice(), codomain.as_slice()) && labels_equal(left_map_ref, right_map_ref) {
        let r = FrobeniusMorphism::identity(&domain);
        return Ok(r);
    }
    let left_map = crate::utils::copy_vec(left_map_ref);
    let left_leftover = leftover(left_map.as_slice(), middle_len);
    let ghost lm = left_map@;
    let left_decomp = match Decomposition::try_from((left_map, left_leftover)) {
        Ok(d) => d,
        Err(e) => {
            let s = String::from_str("left leg decomposition failed: ");
            let s = s.concat(e.message().as_str());
            return Err(CatgraphError::Composition { message: s });
        },
    };
    let ghost dl = left_decomp;
    proof {
        assert(forall|i: int| 0 <= i < domain@.len() ==> #[trigger] middle@[dl.map()[i] as int] == domain@[i]);
    }
    let left_morph: FrobeniusMorphism<Lambda, B> = match from_decomposition(left_decomp, domain.as_slice(), middle) {
        Ok(m) => m,
        Err(e) => {
            return Err(e);
        },
    };
    let right_map = crate::utils::copy_vec(right_map_ref);
    let right_leftover = leftover(right_map.as_slice(), middle_len);
    let right_decomp = match Decomposition::try_from((right_map, right_leftover)) {
        Ok(d) => d,
        Err(e) => {
            let s = String::from_str("right leg decomposition failed: ");
            let s = s.concat(e.message().as_str());
            return Err(CatgraphError::Composition { message: s });
        },
    };
    let ghost dr = right_decomp;
    proof {
        assert(forall|i: int| 0 <= i < codomain@.len() ==> #[trigger] middle@[dr.map()[i] as int] == codomain@[i]);
    }
    let mut right_morph: FrobeniusMorphism<Lambda, B> = match from_decomposition(
        right_decomp,
        codomain.as_slice(),
        middle,
    ) {
        Ok(m) => m,
        Err(e) => {
            return Err(e);
        },
    };
    let ghost rd = right_morph.diagram();
    right_morph.hflip(&keep);
    let ghost rdf = right_morph.diagram();
    let ghost ld = left_morph.diagram();
    let mut result = left_morph;
    match result.compose(right_morph) {
        Ok(()) => {},
        Err(e) => {
            proof {
                assert(flipped_diagram(rd, rdf));
                assert(leg_diagrams(*cospan, ld, rdf));
            }
            return Err(e);
        },
    }
    proof {
        assert(flipped_diagram(rd, rdf));
    }
    Ok(result)
}
} // verus!
