//! The hypergraph category `H_A` of a cospan-algebra `A`.
//!
//! A morphism `X → Y` of `H_A` is an element of `A(X ⊕ Y)`. Composition acts
//! with the composition cospan on the product of two elements; the identity
//! and the Frobenius generators are images of structural cospans out of `∅`.
use vstd::prelude::*;

use std::sync::Arc;

use crate::category::{Composable, HasIdentity};
use crate::cospan::{leg_labels, Cospan};
use crate::cospan_algebra::CospanAlgebra;
use crate::errors::CatgraphError;
use crate::hypergraph_category::HypergraphCategory;
use crate::label::{labels_equal, labels_text, Label};
use crate::monoidal::{Monoidal, SymmetricMonoidalMorphism};
use crate::permutation::{perm_apply, perm_inv, perm_len, perm_permute, perm_values, permuted};
use crate::utils::{copy_vec, push_range, range_seq};

use permutations::Permutation;

verus! {

/// `e` is the action, on the unit of `alg`, of a cospan with the given legs
/// and apex.
pub open spec fn acted_on_unit<A: CospanAlgebra<L>, L: Label>(
    alg: A,
    left: Seq<usize>,
    right: Seq<usize>,
    apex: Seq<L>,
    e: A::Elem,
) -> bool {
    exists|s: Cospan<L>, u: A::Elem|
        #![trigger alg.acts(s, u, e)]
        s.left_map() == left && s.right_map() == right && s.apex() == apex && alg.is_unit(u) && alg.acts(s, u, e)
}

/// `e` is the action, on the product of `a` and `b` in `alg`, of a cospan
/// with the given legs and apex.
pub open spec fn acted_on_product<A: CospanAlgebra<L>, L: Label>(
    alg: A,
    a: A::Elem,
    b: A::Elem,
    left: Seq<usize>,
    right: Seq<usize>,
    apex: Seq<L>,
    e: A::Elem,
) -> bool {
    exists|s: Cospan<L>, p: A::Elem|
        #![trigger alg.acts(s, p, e)]
        s.left_map() == left && s.right_map() == right && s.apex() == apex && alg.tensors(a, b, p) && alg.acts(
            s,
            p,
            e,
        )
}

/// A second handle on the same shared value.
#[verifier::external_body]
fn share<T>(a: &Arc<T>) -> (r: Arc<T>)
    ensures
        r == *a,
{
    Arc::clone(a)
}

/// The concatenation of three label slices.
fn concat3<Lambda: Label>(x: &[Lambda], y: &[Lambda], z: &[Lambda]) -> (r: Vec<Lambda>)
    requires
        x@.len() + y@.len() + z@.len() <= usize::MAX,
    ensures
        r@ == x@ + y@ + z@,
{
    let mut r = copy_vec(x);
    let mut b = copy_vec(y);
    r.append(&mut b);
    let mut c = copy_vec(z);
    r.append(&mut c);
    r
}

/// The left leg of the composition cospan for words of lengths `m`, `n`, `k`.
pub open spec fn comp_left_leg(m: int, n: int, k: int) -> Seq<usize> {
    range_seq(0, m + n) + range_seq(m, m + n) + range_seq(m + n, m + n + k)
}

/// The right leg of the composition cospan for words of lengths `m`, `n`, `k`.
pub open spec fn comp_right_leg(m: int, n: int, k: int) -> Seq<usize> {
    range_seq(0, m) + range_seq(m + n, m + n + k)
}

/// The composition cospan `comp^Y_{X,Z}`: domain `X ⊕ Y ⊕ Y ⊕ Z`, apex
/// `X ⊕ Y ⊕ Z`, codomain `X ⊕ Z`. Both copies of `Y` go to the same apex
/// elements; `X` and `Z` pass through.
pub fn comp_cospan<Lambda: Label>(x: &[Lambda], y: &[Lambda], z: &[Lambda]) -> (r: Cospan<Lambda>)
    requires
        x@.len() + 2 * y@.len() + z@.len() <= usize::MAX,
    ensures
        r.apex() == x@ + y@ + z@,
        r.left_map() == comp_left_leg(x@.len() as int, y@.len() as int, z@.len() as int),
        r.right_map() == comp_right_leg(x@.len() as int, y@.len() as int, z@.len() as int),
        r.dom() == x@ + y@ + y@ + z@,
        r.cod() == x@ + z@,
{
    let m = x.len();
    let n = y.len();
    let k = z.len();
    let middle = concat3(x, y, z);
    let mut left: Vec<usize> = Vec::new();
    push_range(&mut left, 0, m + n);
    push_range(&mut left, m, m + n);
    push_range(&mut left, m + n, m + n + k);
    let mut right: Vec<usize> = Vec::new();
    push_range(&mut right, 0, m);
    push_range(&mut right, m + n, m + n + k);
    let r = Cospan::new(left, right, middle);
    proof {
        let ap = x@ + y@ + z@;
        assert(r.dom() =~= x@ + y@ + y@ + z@) by {
            assert forall|i: int| 0 <= i < r.dom().len() implies r.dom()[i] == (x@ + y@ + y@ + z@)[i] by {
                if i < m + n {
                } else if i < m + 2 * n {
                    assert(r.left_map()[i] == m + (i - m - n));
                } else {
                    assert(r.left_map()[i] == m + n + (i - m - 2 * n));
                }
            }
        }
        assert(r.cod() =~= x@ + z@) by {
            assert forall|i: int| 0 <= i < r.cod().len() implies r.cod()[i] == (x@ + z@)[i] by {
                if i >= m {
                    assert(r.right_map()[i] == m + n + (i - m));
                }
            }
        }
    }
    r
}

/// A morphism `X → Y` of `H_A`: an element of `A(X ⊕ Y)`.
pub struct CospanAlgebraMorphism<A: CospanAlgebra<Lambda>, Lambda: Label> {
    algebra: Arc<A>,
    element: A::Elem,
    domain: Vec<Lambda>,
    codomain: Vec<Lambda>,
}

impl<A: CospanAlgebra<Lambda>, Lambda: Label> CospanAlgebraMorphism<A, Lambda> {
    /// The algebra.
    pub closed spec fn alg(&self) -> A {
        *self.algebra
    }

    /// The element.
    pub closed spec fn elem(&self) -> A::Elem {
        self.element
    }

    /// The domain `X`.
    pub closed spec fn dom(&self) -> Seq<Lambda> {
        self.domain@
    }

    /// The codomain `Y`.
    pub closed spec fn cod(&self) -> Seq<Lambda> {
        self.codomain@
    }

    /// The element lies in `A(X ⊕ Y)`.
    pub open spec fn well_typed(&self) -> bool {
        self.alg().elem_type(&self.elem()) == self.dom() + self.cod()
    }

    /// The morphism given by an element of `A(domain ⊕ codomain)`.
    pub fn new(algebra: Arc<A>, element: A::Elem, domain: Vec<Lambda>, codomain: Vec<Lambda>) -> (r: Self)
        ensures
            r.alg() == *algebra,
            r.elem() == element,
            r.dom() == domain@,
            r.cod() == codomain@,
    {
        Self { algebra, element, domain, codomain }
    }

    /// `result` is `self ⊗ other`: its words are those of the two side by
    /// side, and its element is the product of the two elements, moved by the
    /// interchange cospan from `W ⊕ X ⊕ Y ⊕ Z` to `W ⊕ Y ⊕ X ⊕ Z` unless `X`
    /// or `Y` is empty.
    pub open spec fn tensored(&self, other: &Self, result: &Self) -> bool {
        &&& result.dom() == self.dom() + other.dom()
        &&& result.cod() == self.cod() + other.cod()
        &&& result.alg() == self.alg()
        &&& if self.cod().len() == 0 || other.dom().len() == 0 {
            self.alg().tensors(self.elem(), other.elem(), result.elem())
        } else {
            acted_on_product(
                self.alg(),
                self.elem(),
                other.elem(),
                interchange_leg(
                    self.dom().len() as int,
                    self.cod().len() as int,
                    other.dom().len() as int,
                    other.cod().len() as int,
                ),
                range_seq(
                    0,
                    (self.dom().len() + self.cod().len() + other.dom().len() + other.cod().len()) as int,
                ),
                self.dom() + other.dom() + self.cod() + other.cod(),
                result.elem(),
            )
        }
    }

    /// The element of `A(X ⊕ Y)`.
    pub fn element(&self) -> (r: &A::Elem)
        ensures
            *r == self.elem(),
    {
        &self.element
    }

    /// The algebra.
    pub fn algebra(&self) -> (r: &Arc<A>)
        ensures
            **r == self.alg(),
    {
        &self.algebra
    }

    /// The identity on `X`: the image of the unit under the cup cospan
    /// `∅ → X ⊕ X` that joins each label of `X` with its copy. When `X ⊕ X`
    /// is too long to store, the element is the unit.
    pub fn identity_in(algebra: Arc<A>, on_this: &[Lambda]) -> (r: Self)
        ensures
            r.alg() == *algebra,
            r.dom() == on_this@,
            r.cod() == on_this@,
            on_this@.len() + on_this@.len() <= usize::MAX ==> r.well_typed(),
            on_this@.len() + on_this@.len() <= usize::MAX ==> acted_on_unit(
                r.alg(),
                Seq::empty(),
                range_seq(0, on_this@.len() as int) + range_seq(0, on_this@.len() as int),
                on_this@,
                r.elem(),
            ),
            on_this@.len() + on_this@.len() > usize::MAX ==> r.alg().is_unit(r.elem()),
    {
        let n = on_this.len();
        let u = algebra.unit();
        if n > usize::MAX - n {
            return Self { algebra, element: u, domain: copy_vec(on_this), codomain: copy_vec(on_this) };
        }
        let mut right: Vec<usize> = Vec::new();
        push_range(&mut right, 0, n);
        push_range(&mut right, 0, n);
        let middle = copy_vec(on_this);
        let cup_s = Cospan::new(Vec::new(), right, middle);
        proof {
            assert(cup_s.dom() =~= Seq::<Lambda>::empty());
            assert(cup_s.cod() =~= on_this@ + on_this@) by {
                assert forall|i: int| 0 <= i < cup_s.cod().len() implies cup_s.cod()[i] == (on_this@ + on_this@)[i] by {
                    if i >= n {
                        assert(cup_s.right_map()[i] == i - n);
                    }
                }
            }
        }
        let element = algebra.map_cospan(&cup_s, &u).unwrap();
        assert(cup_s.left_map() =~= Seq::<usize>::empty());
        assert(algebra.acts(cup_s, u, element));
        Self { algebra, element, domain: copy_vec(on_this), codomain: copy_vec(on_this) }
    }

    /// The image of the unit under a cospan `s: ∅ → X ⊕ Y`.
    fn structural_from_cospan(algebra: &Arc<A>, s: &Cospan<Lambda>, domain: Vec<Lambda>, codomain: Vec<Lambda>) -> (r: Self)
        requires
            s.dom() == Seq::<Lambda>::empty(),
            s.cod() == domain@ + codomain@,
        ensures
            r.alg() == **algebra,
            r.dom() == domain@,
            r.cod() == codomain@,
            r.well_typed(),
            r.alg().weight(&r.elem()) <= s.apex().len(),
            acted_on_unit(r.alg(), s.left_map(), s.right_map(), s.apex(), r.elem()),
    {
        let u = algebra.unit();
        let apex_len = s.middle().len();
        assert(algebra.elem_type(&u) == s.dom());
        assert(algebra.weight(&u) + s.apex().len() <= usize::MAX);
        let element = algebra.map_cospan(s, &u).unwrap();
        assert(algebra.acts(*s, u, element));
        Self { algebra: share(algebra), element, domain, codomain }
    }

    /// The unit `η: [] → [z]`.
    pub fn unit_in(algebra: Arc<A>, z: Lambda) -> (r: Self)
        ensures
            r.alg() == *algebra,
            r.dom() == Seq::<Lambda>::empty(),
            r.cod() == seq![z],
            r.well_typed(),
            r.alg().weight(&r.elem()) <= 1,
            acted_on_unit(r.alg(), Seq::empty(), seq![0usize], seq![z], r.elem()),
    {
        let s = point_cospan(z, 1);
        assert(s.left_map() =~= Seq::<usize>::empty());
        assert(s.right_map() =~= seq![0usize]);
        assert(s.apex() =~= seq![z]);
        let mut cod = Vec::new();
        cod.push(z);
        let dom: Vec<Lambda> = Vec::new();
        assert(s.cod() =~= dom@ + cod@);
        Self::structural_from_cospan(&algebra, &s, dom, cod)
    }

    /// The counit `ε: [z] → []`.
    pub fn counit_in(algebra: Arc<A>, z: Lambda) -> (r: Self)
        ensures
            r.alg() == *algebra,
            r.dom() == seq![z],
            r.cod() == Seq::<Lambda>::empty(),
            r.well_typed(),
            r.alg().weight(&r.elem()) <= 1,
            acted_on_unit(r.alg(), Seq::empty(), seq![0usize], seq![z], r.elem()),
    {
        let s = point_cospan(z, 1);
        assert(s.left_map() =~= Seq::<usize>::empty());
        assert(s.right_map() =~= seq![0usize]);
        assert(s.apex() =~= seq![z]);
        let mut dom = Vec::new();
        dom.push(z);
        let cod: Vec<Lambda> = Vec::new();
        assert(s.cod() =~= dom@ + cod@);
        Self::structural_from_cospan(&algebra, &s, dom, cod)
    }

    /// The multiplication `μ: [z, z] → [z]`.
    pub fn multiplication_in(algebra: Arc<A>, z: Lambda) -> (r: Self)
        ensures
            r.alg() == *algebra,
            r.dom() == seq![z, z],
            r.cod() == seq![z],
            r.well_typed(),
            r.alg().weight(&r.elem()) <= 3,
            acted_on_unit(r.alg(), Seq::empty(), seq![0usize, 0usize, 0usize], seq![z, z, z], r.elem()),
    {
        let s = point_cospan(z, 3);
        assert(s.left_map() =~= Seq::<usize>::empty());
        assert(s.right_map() =~= seq![0usize, 0usize, 0usize]);
        assert(s.apex() =~= seq![z, z, z]);
        let mut dom = Vec::new();
        dom.push(z);
        dom.push(z);
        let mut cod = Vec::new();
        cod.push(z);
        assert(s.cod() =~= dom@ + cod@);
        Self::structural_from_cospan(&algebra, &s, dom, cod)
    }

    /// The comultiplication `δ: [z] → [z, z]`.
    pub fn comultiplication_in(algebra: Arc<A>, z: Lambda) -> (r: Self)
        ensures
            r.alg() == *algebra,
            r.dom() == seq![z],
            r.cod() == seq![z, z],
            r.well_typed(),
            r.alg().weight(&r.elem()) <= 3,
            acted_on_unit(r.alg(), Seq::empty(), seq![0usize, 0usize, 0usize], seq![z, z, z], r.elem()),
    {
        let s = point_cospan(z, 3);
        assert(s.left_map() =~= Seq::<usize>::empty());
        assert(s.right_map() =~= seq![0usize, 0usize, 0usize]);
        assert(s.apex() =~= seq![z, z, z]);
        let mut dom = Vec::new();
        dom.push(z);
        let mut cod = Vec::new();
        cod.push(z);
        cod.push(z);
        assert(s.cod() =~= dom@ + cod@);
        Self::structural_from_cospan(&algebra, &s, dom, cod)
    }
}

/// The cospan `∅ → [z; k]` whose codomain elements all go to the first of
/// `k` apex elements labelled `z`.
fn point_cospan<Lambda: Label>(z: Lambda, k: usize) -> (r: Cospan<Lambda>)
    requires
        1 <= k <= 3,
    ensures
        r.dom() == Seq::<Lambda>::empty(),
        r.left_map() == Seq::<usize>::empty(),
        r.cod() == Seq::new(k as nat, |i: int| z),
        r.apex() == Seq::new(k as nat, |i: int| z),
        r.right_map() == Seq::new(k as nat, |i: int| 0usize),
{
    let mut right: Vec<usize> = Vec::new();
    let mut middle: Vec<Lambda> = Vec::new();
    let mut i: usize = 0;
    while i < k
        invariant
            i <= k <= 3,
            right@ == Seq::new(i as nat, |j: int| 0usize),
            middle@ == Seq::new(i as nat, |j: int| z),
        decreases k - i,
    {
        right.push(0);
        middle.push(z);
        i = i + 1;
        assert(right@ =~= Seq::new(i as nat, |j: int| 0usize));
        assert(middle@ =~= Seq::new(i as nat, |j: int| z));
    }
    let r = Cospan::new(Vec::new(), right, middle);
    assert(r.left_map() =~= Seq::<usize>::empty());
    assert(r.dom() =~= Seq::<Lambda>::empty());
    assert(r.cod() =~= Seq::new(k as nat, |j: int| z));
    r
}

impl<A: CospanAlgebra<Lambda>, Lambda: Label> Composable<Vec<Lambda>> for CospanAlgebraMorphism<A, Lambda> {
    /// `self ; other`: the product of the two elements, acted on by the
    /// composition cospan. Fails when the codomain of `self` is not the
    /// domain of `other`, when the words involved cannot be stored, or when
    /// the algebra cannot act.
    fn compose(&self, other: &Self) -> (r: Result<Self, CatgraphError>)
        ensures
            r matches Ok(c) ==> {
                &&& c.alg() == self.alg()
                &&& c.dom() == self.dom()
                &&& c.cod() == other.cod()
                &&& c.well_typed()
                &&& self.cod() == other.dom()
                &&& acted_on_product(
                    self.alg(),
                    self.elem(),
                    other.elem(),
                    comp_left_leg(self.dom().len() as int, self.cod().len() as int, other.cod().len() as int),
                    comp_right_leg(self.dom().len() as int, self.cod().len() as int, other.cod().len() as int),
                    self.dom() + self.cod() + other.cod(),
                    c.elem(),
                )
            },
            self.cod() != other.dom() ==> (r matches Err(CatgraphError::CompositionLabelMismatch { index, .. })
                && index == 0),
            self.cod() == other.dom() && self.dom().len() + 2 * self.cod().len() + other.cod().len() > usize::MAX
                ==> (r matches Err(e) && e is Composition),
            ({
                let w = self.alg().weight(&self.elem()) + self.alg().weight(&other.elem());
                &&& self.cod() == other.dom()
                &&& self.dom().len() + 2 * self.cod().len() + other.cod().len() <= usize::MAX
                &&& w <= usize::MAX
            }) ==> (r is Ok <==> ({
                let w = self.alg().weight(&self.elem()) + self.alg().weight(&other.elem());
                &&& self.alg().elem_type(&self.elem()) + self.alg().elem_type(&other.elem()) == self.dom()
                    + self.cod() + self.cod() + other.cod()
                &&& w + self.dom().len() + self.cod().len() + other.cod().len() <= usize::MAX
            })),
            ({
                let w = self.alg().weight(&self.elem()) + self.alg().weight(&other.elem());
                &&& self.cod() == other.dom()
                &&& self.alg() == other.alg()
                &&& self.well_typed()
                &&& other.well_typed()
                &&& self.dom().len() + 2 * self.cod().len() + other.cod().len() <= usize::MAX
                &&& w + self.dom().len() + self.cod().len() + other.cod().len() <= usize::MAX
            }) ==> r is Ok,
    {
        if !labels_equal(self.codomain.as_slice(), other.domain.as_slice()) {
            return Err(CatgraphError::CompositionLabelMismatch {
                index: 0,
                expected: labels_text(self.codomain.as_slice()),
                actual: labels_text(other.domain.as_slice()),
            });
        }
        let wl = self.domain.len();
        let xl = self.codomain.len();
        let zl = other.codomain.len();
        if xl > usize::MAX - wl || xl > usize::MAX - wl - xl || zl > usize::MAX - wl - 2 * xl {
            return Err(CatgraphError::Composition {
                message: String::from_str("composite interface too large"),
            });
        }
        let combined = self.algebra.lax_monoidal(&self.element, &other.element);
        let comp = comp_cospan(self.domain.as_slice(), self.codomain.as_slice(), other.codomain.as_slice());
        proof {
            assert(self.dom() + self.cod() + (other.dom() + other.cod()) =~= self.dom() + self.cod()
                + self.cod() + other.cod());
        }
        let result = match self.algebra.map_cospan(&comp, &combined) {
            Ok(e) => e,
            Err(e) => {
                return Err(e);
            },
        };
        assert(self.alg().acts(comp, combined, result));
        Ok(Self {
            algebra: share(&self.algebra),
            element: result,
            domain: copy_vec(self.domain.as_slice()),
            codomain: copy_vec(other.codomain.as_slice()),
        })
    }

    fn domain(&self) -> (r: Vec<Lambda>)
        ensures
            r@ == self.dom(),
    {
        copy_vec(self.domain.as_slice())
    }

    fn codomain(&self) -> (r: Vec<Lambda>)
        ensures
            r@ == self.cod(),
    {
        copy_vec(self.codomain.as_slice())
    }
}

impl<A: CospanAlgebra<Lambda> + Default, Lambda: Label> HasIdentity<Vec<Lambda>> for CospanAlgebraMorphism<
    A,
    Lambda,
> {
    /// The identity in the default algebra.
    fn identity(on_this: &Vec<Lambda>) -> (r: Self)
        ensures
            r.dom() == on_this@,
            r.cod() == on_this@,
            on_this@.len() + on_this@.len() <= usize::MAX ==> r.well_typed(),
    {
        Self::identity_in(Arc::new(A::default()), on_this.as_slice())
    }
}

impl<A: CospanAlgebra<Lambda> + Default, Lambda: Label> SymmetricMonoidalMorphism<Lambda> for CospanAlgebraMorphism<
    A,
    Lambda,
> {
    open spec fn permutable(&self, p: Seq<usize>, of_codomain: bool) -> bool {
        p.len() == (if of_codomain {
            self.cod().len()
        } else {
            self.dom().len()
        })
    }

    /// The word `types` twice over must fit in memory.
    open spec fn permutation_fits(p: Seq<usize>, types: Seq<Lambda>) -> bool {
        types.len() + types.len() <= usize::MAX
    }

    /// Reorders the labels of that side by `p`; the element is kept.
    fn permute_side(&mut self, p: &Permutation, of_codomain: bool)
        ensures
            final(self).alg() == old(self).alg(),
            final(self).elem() == old(self).elem(),
            of_codomain ==> final(self).cod() == permuted(old(self).cod(), perm_values(*p)) && final(self).dom()
                == old(self).dom(),
            !of_codomain ==> final(self).dom() == permuted(old(self).dom(), perm_values(*p)) && final(self).cod()
                == old(self).cod(),
    {
        if of_codomain {
            let permuted_side = perm_permute(p, self.codomain.as_slice());
            self.codomain = permuted_side;
        } else {
            let permuted_side = perm_permute(p, self.domain.as_slice());
            self.domain = permuted_side;
        }
    }

    /// The permutation morphism in the default algebra. With `types` on the
    /// domain the codomain is `types` reordered by `p`, and the other way
    /// round otherwise. Its element is the image of the unit under the
    /// cospan `∅ → X ⊕ Y` whose apex is `X ⊕ Y`, with `X` sent identically
    /// and codomain position `j` sent to apex position `|X| + p⁻¹(j)`; so
    /// the element lies over `X` followed by `Y` reordered by `p⁻¹`. Fails
    /// when `p` and `types` differ in length.
    fn from_permutation(p: Permutation, types: &[Lambda], types_as_on_domain: bool) -> (r: Result<Self, CatgraphError>)
        ensures
            r is Ok <==> perm_values(p).len() == types@.len(),
            r matches Err(e) ==> e == (CatgraphError::CompositionSizeMismatch {
                expected: types@.len() as usize,
                actual: perm_values(p).len() as usize,
            }),
            r matches Ok(m) ==> {
                let pv = perm_values(p);
                let n = types@.len() as int;
                let t = m.alg().elem_type(&m.elem());
                &&& types_as_on_domain ==> m.dom() == types@ && m.cod() == permuted(types@, pv)
                &&& !types_as_on_domain ==> m.dom() == permuted(types@, pv) && m.cod() == types@
                &&& t.len() == n + n
                &&& t.subrange(0, n) == m.dom()
                &&& forall|i: int| 0 <= i < n ==> t[n + #[trigger] pv[i]] == m.cod()[i]
            },
    {
        let plen = perm_len(&p);
        if plen != types.len() {
            return Err(CatgraphError::CompositionSizeMismatch { expected: types.len(), actual: plen });
        }
        let algebra = Arc::new(A::default());
        let moved = perm_permute(&p, types);
        let (domain, codomain) = if types_as_on_domain {
            (copy_vec(types), moved)
        } else {
            (moved, copy_vec(types))
        };
        let n = types.len();
        let mut middle = copy_vec(domain.as_slice());
        let mut tail = copy_vec(codomain.as_slice());
        middle.append(&mut tail);
        let q = perm_inv(&p);
        let qn = perm_len(&q);
        let mut right: Vec<usize> = Vec::new();
        push_range(&mut right, 0, n);
        let mut i: usize = 0;
        while i < n
            invariant
                i <= n,
                n == types@.len(),
                n + n <= usize::MAX,
                qn == n,
                crate::permutation::is_permutation_of(perm_values(q), qn as nat),
                right@.len() == n + i,
                forall|k: int| 0 <= k < n ==> right@[k] == k,
                forall|k: int| 0 <= k < i ==> right@[n + k] == n + perm_values(q)[k],
            decreases n - i,
        {
            let j = perm_apply(&q, i);
            right.push(n + j);
            i = i + 1;
        }
        proof {
            assert(middle@.len() == n + n);
            assert forall|k: int| 0 <= k < right@.len() implies right@[k] < n + n by {
                if k >= n {
                    assert(right@[n + (k - n)] == n + perm_values(q)[k - n]);
                }
            }
        }
        let s = Cospan::new(Vec::new(), right, middle);
        let u = algebra.unit();
        proof {
            assert(s.dom() =~= Seq::<Lambda>::empty());
        }
        let element = algebra.map_cospan(&s, &u).unwrap();
        proof {
            let pv = perm_values(p);
            let qv = perm_values(q);
            let t = s.cod();
            assert(t.subrange(0, n as int) =~= domain@);
            assert forall|i: int| 0 <= i < n implies t[n + #[trigger] pv[i]] == codomain@[i] by {
                assert(qv[pv[i] as int] == i);
            }
        }
        Ok(Self { algebra, element, domain, codomain })
    }
}

/// The left leg of the interchange cospan `W ⊕ X ⊕ Y ⊕ Z → W ⊕ Y ⊕ X ⊕ Z`.
pub open spec fn interchange_leg(wl: int, xl: int, yl: int, zl: int) -> Seq<usize> {
    range_seq(0, wl) + range_seq(wl + yl, wl + yl + xl) + range_seq(wl, wl + yl)
        + range_seq(wl + yl + xl, wl + xl + yl + zl)
}

impl<A: CospanAlgebra<Lambda>, Lambda: Label> Monoidal for CospanAlgebraMorphism<A, Lambda> {
    /// `f ⊗ g` for `f: W → X` and `g: Y → Z`: the product of the elements lies
    /// in `A(W ⊕ X ⊕ Y ⊕ Z)`; the interchange cospan moves it to
    /// `A(W ⊕ Y ⊕ X ⊕ Z)` (nothing moves when `X` or `Y` is empty). The result
    /// goes `W ⊕ Y → X ⊕ Z`. When the words cannot be stored or the algebra
    /// cannot act, `self` is left unchanged.
    #[verifier::spinoff_prover]
    #[verifier::rlimit(40)]
    fn monoidal(&mut self, other: Self)
        ensures
            old(self).tensored(&other, &*final(self)) || *final(self) == *old(self),
            old(self).dom().len() + old(self).cod().len() + other.dom().len() + other.cod().len() > usize::MAX
                ==> *final(self) == *old(self),
            old(self).dom().len() + old(self).cod().len() + other.dom().len() + other.cod().len() <= usize::MAX && (
            old(self).cod().len() == 0 || other.dom().len() == 0) ==> old(self).tensored(&other, &*final(self)),
            ({
                let w = old(self).alg().weight(&old(self).elem()) + old(self).alg().weight(&other.elem());
                let t = old(self).dom().len() + old(self).cod().len() + other.dom().len() + other.cod().len();
                &&& old(self).well_typed()
                &&& other.well_typed()
                &&& old(self).alg() == other.alg()
                &&& t <= usize::MAX
                &&& w + t <= usize::MAX
            }) ==> old(self).tensored(&other, &*final(self)) && final(self).well_typed(),
    {
        let wl = self.domain.len();
        let xl = self.codomain.len();
        let yl = other.domain.len();
        let zl = other.codomain.len();
        if xl > usize::MAX - wl || yl > usize::MAX - wl - xl || zl > usize::MAX - wl - xl - yl {
            return ;
        }
        let total = wl + xl + yl + zl;
        let combined = self.algebra.lax_monoidal(&self.element, &other.element);
        let ghost ew = self.dom();
        let ghost ex = self.cod();
        let ghost ey = other.dom();
        let ghost ez = other.cod();
        let new_element;
        if xl == 0 || yl == 0 {
            if xl == 0 {
                assert(ex =~= Seq::<Lambda>::empty());
            } else {
                assert(ey =~= Seq::<Lambda>::empty());
            }
            assert(ew + ex + (ey + ez) =~= ew + ey + (ex + ez));
            new_element = combined;
        } else {
            let mut left: Vec<usize> = Vec::new();
            push_range(&mut left, 0, wl);
            push_range(&mut left, wl + yl, wl + yl + xl);
            push_range(&mut left, wl, wl + yl);
            push_range(&mut left, wl + yl + xl, total);
            let mut right: Vec<usize> = Vec::new();
            push_range(&mut right, 0, total);
            let mut middle = copy_vec(self.domain.as_slice());
            let mut b = copy_vec(other.domain.as_slice());
            middle.append(&mut b);
            let mut c = copy_vec(self.codomain.as_slice());
            middle.append(&mut c);
            let mut d = copy_vec(other.codomain.as_slice());
            middle.append(&mut d);
            let interchange = Cospan::new(left, right, middle);
            proof {
                let mid = ew + ey + ex + ez;
                assert(interchange.apex() =~= mid);
                assert(interchange.left_map() =~= interchange_leg(wl as int, xl as int, yl as int, zl as int));
                assert(interchange.dom() =~= ew + ex + (ey + ez)) by {
                    assert forall|i: int| 0 <= i < interchange.dom().len() implies interchange.dom()[i]
                        == (ew + ex + (ey + ez))[i] by {
                        if i < wl {
                        } else if i < wl + xl {
                            assert(interchange.left_map()[i] == wl + yl + (i - wl));
                        } else if i < wl + xl + yl {
                            assert(interchange.left_map()[i] == wl + (i - wl - xl));
                        } else {
                            assert(interchange.left_map()[i] == i);
                        }
                    }
                }
                assert(interchange.cod() =~= ew + ey + (ex + ez)) by {
                    assert forall|i: int| 0 <= i < interchange.cod().len() implies interchange.cod()[i]
                        == (ew + ey + (ex + ez))[i] by {
                        assert(interchange.right_map()[i] == i);
                    }
                }
            }
            match self.algebra.map_cospan(&interchange, &combined) {
                Ok(e) => {
                    assert(interchange.right_map() =~= range_seq(0, total as int));
                    assert(self.alg().acts(interchange, combined, e));
                    new_element = e;
                },
                Err(_) => {
                    return ;
                },
            }
        }
        let mut domain = copy_vec(self.domain.as_slice());
        let mut od = copy_vec(other.domain.as_slice());
        domain.append(&mut od);
        let mut codomain = copy_vec(self.codomain.as_slice());
        let mut oc = copy_vec(other.codomain.as_slice());
        codomain.append(&mut oc);
        *self = Self { algebra: share(&self.algebra), element: new_element, domain, codomain };
    }
}

impl<A: CospanAlgebra<Lambda> + Default, Lambda: Label> HypergraphCategory<Lambda> for CospanAlgebraMorphism<
    A,
    Lambda,
> {
    fn unit(z: Lambda) -> (r: Self)
        ensures
            r.dom() == Seq::<Lambda>::empty(),
            r.cod() == seq![z],
            r.well_typed(),
    {
        Self::unit_in(Arc::new(A::default()), z)
    }

    fn counit(z: Lambda) -> (r: Self)
        ensures
            r.dom() == seq![z],
            r.cod() == Seq::<Lambda>::empty(),
            r.well_typed(),
    {
        Self::counit_in(Arc::new(A::default()), z)
    }

    fn multiplication(z: Lambda) -> (r: Self)
        ensures
            r.dom() == seq![z, z],
            r.cod() == seq![z],
            r.well_typed(),
    {
        Self::multiplication_in(Arc::new(A::default()), z)
    }

    fn comultiplication(z: Lambda) -> (r: Self)
        ensures
            r.dom() == seq![z],
            r.cod() == seq![z, z],
            r.well_typed(),
    {
        Self::comultiplication_in(Arc::new(A::default()), z)
    }

    /// `η ; δ: [] → [z, z]`, both over one default algebra.
    fn cup(z: Lambda) -> (r: Result<Self, CatgraphError>)
        ensures
            r matches Ok(c) && c.dom() == Seq::<Lambda>::empty() && c.cod() == seq![z, z] && c.well_typed(),
    {
        let algebra = Arc::new(A::default());
        let first = Self::unit_in(share(&algebra), z);
        let second = Self::comultiplication_in(algebra, z);
        first.compose(&second)
    }

    /// `μ ; ε: [z, z] → []`, both over one default algebra.
    fn cap(z: Lambda) -> (r: Result<Self, CatgraphError>)
        ensures
            r matches Ok(c) && c.dom() == seq![z, z] && c.cod() == Seq::<Lambda>::empty() && c.well_typed(),
    {
        let algebra = Arc::new(A::default());
        let first = Self::multiplication_in(share(&algebra), z);
        let second = Self::counit_in(algebra, z);
        first.compose(&second)
    }
}

} // verus!
