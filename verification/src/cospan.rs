//! Cospans of finite sets with labelled apex elements.
//!
//! A cospan `X → M ← Y` is stored as the two leg maps into the apex `M` and the
//! labels of the apex. The domain and codomain labels are read off through the
//! legs. Composition is the pushout: the apex of `f ; g` is the disjoint union of
//! both apexes glued along the shared interface.
use vstd::prelude::*;

use crate::category::{Composable, HasIdentity};
use crate::errors::CatgraphError;
use crate::label::{labels_equal, Label};
use crate::monoidal::{Monoidal, MonoidalMorphism, SymmetricMonoidalMorphism};
use crate::permutation::{perm_len, perm_permute, perm_values, permuted};
use crate::utils::{is_identity_seq, range_seq, represents_id, copy_vec, push_range};

use permutations::Permutation;

verus! {

/// Every leg index points into the apex.
pub open spec fn legs_in_bounds(left: Seq<usize>, right: Seq<usize>, apex_len: nat) -> bool {
    &&& forall|i: int| 0 <= i < left.len() ==> left[i] < apex_len
    &&& forall|i: int| 0 <= i < right.len() ==> right[i] < apex_len
}

/// The labels read through a leg.
pub open spec fn leg_labels<L>(leg: Seq<usize>, apex: Seq<L>) -> Seq<L> {
    Seq::new(leg.len(), |i: int| apex[leg[i] as int])
}

/// The leg is an identity onto the whole apex.
pub open spec fn leg_is_identity(leg: Seq<usize>, apex_len: nat) -> bool {
    is_identity_seq(leg) && leg.len() == apex_len
}

/// A cospan of finite sets `X → M ← Y` with labelled apex `M`.
pub struct Cospan<Lambda: Label> {
    left: Vec<usize>,
    right: Vec<usize>,
    middle: Vec<Lambda>,
    is_left_id: bool,
    is_right_id: bool,
}

impl<Lambda: Label> Cospan<Lambda> {
    #[verifier::type_invariant]
    spec fn well_formed(&self) -> bool {
        legs_in_bounds(self.left@, self.right@, self.middle@.len())
    }

    /// The left leg: domain element `i` goes to apex element `left_map()[i]`.
    pub closed spec fn left_map(&self) -> Seq<usize> {
        self.left@
    }

    /// The right leg: codomain element `j` goes to apex element `right_map()[j]`.
    pub closed spec fn right_map(&self) -> Seq<usize> {
        self.right@
    }

    /// The labels of the apex.
    pub closed spec fn apex(&self) -> Seq<Lambda> {
        self.middle@
    }

    /// The stored flag telling whether the left leg is an identity.
    pub closed spec fn left_flag(&self) -> bool {
        self.is_left_id
    }

    /// The stored flag telling whether the right leg is an identity.
    pub closed spec fn right_flag(&self) -> bool {
        self.is_right_id
    }

    /// The domain labels.
    pub open spec fn dom(&self) -> Seq<Lambda> {
        leg_labels(self.left_map(), self.apex())
    }

    /// The codomain labels.
    pub open spec fn cod(&self) -> Seq<Lambda> {
        leg_labels(self.right_map(), self.apex())
    }

    /// The legs of a cospan always point into its apex.
    pub fn valid(&self) -> (b: bool)
        ensures
            b,
            legs_in_bounds(self.left_map(), self.right_map(), self.apex().len()),
    {
        proof {
            use_type_invariant(self);
        }
        true
    }

    /// Checks the cospan's consistency. The legs always point into the apex;
    /// the identity flags are checked against the legs when `check_id_strong`
    /// holds, or when `check_id_weak` holds and the flag claims an identity.
    /// Those checks are owed by the caller: a flag that lies there is excluded.
    pub fn assert_valid(&self, check_id_strong: bool, check_id_weak: bool)
        requires
            (check_id_strong || (check_id_weak && self.left_flag())) ==> self.left_flag()
                == leg_is_identity(self.left_map(), self.apex().len()),
            (check_id_strong || (check_id_weak && self.right_flag())) ==> self.right_flag()
                == leg_is_identity(self.right_map(), self.apex().len()),
    {
        proof {
            use_type_invariant(self);
        }
        if check_id_strong || (check_id_weak && self.is_left_id) {
            let _is_left_really_id = self.left.len() == self.middle.len() && represents_id(
                &self.left,
            );
        }
        if check_id_strong || (check_id_weak && self.is_right_id) {
            let _is_right_really_id = self.right.len() == self.middle.len() && represents_id(
                &self.right,
            );
        }
    }

    /// The cospan with the given legs and apex labels. The identity flags are
    /// set exactly when a leg is the identity onto the whole apex.
    pub fn new(left: Vec<usize>, right: Vec<usize>, middle: Vec<Lambda>) -> (r: Self)
        requires
            legs_in_bounds(left@, right@, middle@.len()),
        ensures
            r.left_map() == left@,
            r.right_map() == right@,
            r.apex() == middle@,
            r.left_flag() == leg_is_identity(left@, middle@.len()),
            r.right_flag() == leg_is_identity(right@, middle@.len()),
    {
        let is_left_id = left.len() == middle.len() && represents_id(&left);
        let is_right_id = right.len() == middle.len() && represents_id(&right);
        Self { left, right, middle, is_left_id, is_right_id }
    }

    /// The cospan `∅ → ∅ ← ∅`.
    pub fn empty() -> (r: Self)
        ensures
            r.left_map() == Seq::<usize>::empty(),
            r.right_map() == Seq::<usize>::empty(),
            r.apex() == Seq::<Lambda>::empty(),
            r.left_flag(),
            r.right_flag(),
    {
        Self {
            left: Vec::new(),
            right: Vec::new(),
            middle: Vec::new(),
            is_left_id: true,
            is_right_id: true,
        }
    }

    pub fn left_to_middle(&self) -> (r: &[usize])
        ensures
            r@ == self.left_map(),
            legs_in_bounds(self.left_map(), self.right_map(), self.apex().len()),
    {
        proof {
            use_type_invariant(self);
        }
        self.left.as_slice()
    }

    pub fn right_to_middle(&self) -> (r: &[usize])
        ensures
            r@ == self.right_map(),
            legs_in_bounds(self.left_map(), self.right_map(), self.apex().len()),
    {
        proof {
            use_type_invariant(self);
        }
        self.right.as_slice()
    }

    pub fn middle(&self) -> (r: &[Lambda])
        ensures
            r@ == self.apex(),
            legs_in_bounds(self.left_map(), self.right_map(), self.apex().len()),
    {
        proof {
            use_type_invariant(self);
        }
        self.middle.as_slice()
    }

    /// Whether the apex is empty; the legs then are empty too.
    pub fn is_empty(&self) -> (b: bool)
        ensures
            b == (self.apex().len() == 0),
            b ==> self.left_map().len() == 0 && self.right_map().len() == 0,
    {
        proof {
            use_type_invariant(self);
            if self.middle@.len() == 0 {
                if self.left@.len() > 0 {
                    assert(self.left@[0] < self.middle@.len());
                }
                if self.right@.len() > 0 {
                    assert(self.right@[0] < self.middle@.len());
                }
            }
        }
        self.middle.is_empty()
    }

    pub fn is_left_identity(&self) -> (b: bool)
        ensures
            b == self.left_flag(),
    {
        self.is_left_id
    }

    pub fn is_right_identity(&self) -> (b: bool)
        ensures
            b == self.right_flag(),
    {
        self.is_right_id
    }
}

/// The labels read through a leg, computed.
fn read_leg<Lambda: Label>(leg: &[usize], apex: &[Lambda]) -> (r: Vec<Lambda>)
    requires
        forall|i: int| 0 <= i < leg@.len() ==> leg@[i] < apex@.len(),
    ensures
        r@ == leg_labels(leg@, apex@),
{
    let mut r: Vec<Lambda> = Vec::with_capacity(leg.len());
    let mut i: usize = 0;
    while i < leg.len()
        invariant
            i <= leg@.len(),
            forall|j: int| 0 <= j < leg@.len() ==> leg@[j] < apex@.len(),
            r@ == leg_labels(leg@.subrange(0, i as int), apex@),
        decreases leg@.len() - i,
    {
        r.push(apex[leg[i]]);
        i = i + 1;
        assert(r@ =~= leg_labels(leg@.subrange(0, i as int), apex@));
    }
    assert(leg@.subrange(0, i as int) =~= leg@);
    r
}

impl<Lambda: Label> HasIdentity<Vec<Lambda>> for Cospan<Lambda> {
    fn identity(on_this: &Vec<Lambda>) -> (r: Self)
        ensures
            r.left_map() == range_seq(0, on_this@.len() as int),
            r.right_map() == range_seq(0, on_this@.len() as int),
            r.apex() == on_this@,
            r.left_flag(),
            r.right_flag(),
    {
        let mut left: Vec<usize> = Vec::new();
        push_range(&mut left, 0, on_this.len());
        let mut right: Vec<usize> = Vec::new();
        push_range(&mut right, 0, on_this.len());
        Self {
            left,
            right,
            middle: copy_vec(on_this.as_slice()),
            is_left_id: true,
            is_right_id: true,
        }
    }
}

/// The label of element `x` of the disjoint union of the apexes `a` and `b`.
pub open spec fn glued_label<L>(a: Seq<L>, b: Seq<L>, x: int) -> L {
    if x < a.len() {
        a[x]
    } else {
        b[x - a.len()]
    }
}

/// A function on the disjoint union of two apexes (the second shifted by `m1`)
/// that agrees on the two images of each interface element.
pub open spec fn respects_interface(
    f: spec_fn(int) -> int,
    right: Seq<usize>,
    left: Seq<usize>,
    m1: nat,
) -> bool {
    forall|i: int| 0 <= i < right.len() ==> f(#[trigger] right[i] as int) == f(m1 + left[i])
}

/// Some element of the disjoint union is sent to class `k`.
pub open spec fn class_hit(q: Seq<usize>, total: nat, k: int) -> bool {
    exists|x: int| 0 <= x < total && q[x] == k
}

/// `q` is the quotient map of the disjoint union of two apexes (of total size
/// `total`, the second shifted by `m1`) onto `n` classes that glues the images
/// of each interface element, and glues nothing that some interface-respecting
/// function separates: the pushout of finite sets.
pub open spec fn is_pushout_quotient(
    q: Seq<usize>,
    n: nat,
    right: Seq<usize>,
    left: Seq<usize>,
    m1: nat,
    total: nat,
) -> bool {
    &&& q.len() == total
    &&& forall|x: int| 0 <= x < total ==> q[x] < n
    &&& forall|k: int| 0 <= k < n ==> #[trigger] class_hit(q, total, k)
    &&& forall|i: int| 0 <= i < right.len() ==> q[#[trigger] right[i] as int] == q[m1 + left[i]]
    &&& forall|f: spec_fn(int) -> int|
        respects_interface(f, right, left, m1) ==> forall|x: int, y: int|
            0 <= x < total && 0 <= y < total && #[trigger] q[x] == #[trigger] q[y] ==> f(x) == f(y)
}

impl<Lambda: Label> Cospan<Lambda> {
    /// `result` is the pushout composite of `self` and `other`: its apex is the
    /// quotient of the two apexes that glues the two images of each interface
    /// element and nothing more, with classes numbered in order of their first
    /// element; the legs are the old legs followed by the quotient map.
    pub open spec fn is_composite(&self, other: &Self, result: &Self) -> bool {
        let m1 = self.apex().len();
        let total = m1 + other.apex().len();
        exists|q: Seq<usize>|
            {
                &&& is_pushout_quotient(
                    q,
                    result.apex().len(),
                    self.right_map(),
                    other.left_map(),
                    m1,
                    total,
                )
                &&& forall|x: int|
                    0 <= x < total ==> result.apex()[#[trigger] q[x] as int] == glued_label(
                        self.apex(),
                        other.apex(),
                        x,
                    )
                &&& result.left_map() == Seq::new(
                    self.left_map().len(),
                    |i: int| q[self.left_map()[i] as int],
                )
                &&& result.right_map() == Seq::new(
                    other.right_map().len(),
                    |j: int| q[m1 + other.right_map()[j]],
                )
            }
    }
}

/// The error reported when two label sequences of an interface differ.
fn interface_mismatch<Lambda: Label>(l: &[Lambda], r: &[Lambda]) -> (e: CatgraphError)
    ensures
        e matches CatgraphError::Composition { message } && message@ == (if l@.len() != r@.len() {
            "Mismatch in cardinalities of common interface"@
        } else {
            "Mismatch in labels of common interface"@
        }),
{
    if l.len() != r.len() {
        CatgraphError::Composition {
            message: String::from_str("Mismatch in cardinalities of common interface"),
        }
    } else {
        CatgraphError::Composition {
            message: String::from_str("Mismatch in labels of common interface"),
        }
    }
}

impl<Lambda: Label> Composable<Vec<Lambda>> for Cospan<Lambda> {
    fn composable(&self, other: &Self) -> (r: Result<(), CatgraphError>)
        ensures
            r is Ok <==> self.cod() == other.dom(),
            r is Err ==> r->Err_0 is Composition,
    {
        let c = self.codomain();
        let d = other.domain();
        if labels_equal(c.as_slice(), d.as_slice()) {
            Ok(())
        } else {
            Err(interface_mismatch(c.as_slice(), d.as_slice()))
        }
    }

    /// Pushout composition. Fails when the codomain of `self` differs from the
    /// domain of `other` (or when the two apexes together exceed `usize::MAX`
    /// elements).
    fn compose(&self, other: &Self) -> (r: Result<Self, CatgraphError>)
        ensures
            r is Ok <==> (self.cod() == other.dom() && self.apex().len() + other.apex().len()
                <= usize::MAX),
            r matches Ok(c) ==> self.is_composite(other, &c),
            r matches Ok(c) ==> c.dom() == self.dom() && c.cod() == other.cod(),
            r matches Ok(c) ==> c.apex().len() <= self.apex().len() + other.apex().len(),
            r is Err ==> r->Err_0 is Composition,
    {
        proof {
            use_type_invariant(self);
            use_type_invariant(other);
        }
        match self.composable(other) {
            Ok(()) => {},
            Err(e) => {
                return Err(e);
            },
        }
        let m1 = self.middle.len();
        let m2 = other.middle.len();
        if m1 > usize::MAX - m2 {
            return Err(CatgraphError::Composition {
                message: String::from_str("apex of the composite overflows usize"),
            });
        }
        let total = m1 + m2;
        let ghost sa = self.middle@;
        let ghost oa = other.middle@;
        let ghost sr = self.right@;
        let ghost ol = other.left@;
        assert(sr.len() == ol.len()) by {
            assert(self.cod().len() == other.dom().len());
        }
        // comp[x] is the representative of the class of x.
        let mut comp: Vec<usize> = Vec::new();
        push_range(&mut comp, 0, total);
        let n_joins = self.right.len();
        let mut i: usize = 0;
        while i < n_joins
            invariant
                n_joins == sr.len(),
                sr.len() == ol.len(),
                sr == self.right@,
                ol == other.left@,
                sa == self.middle@,
                oa == other.middle@,
                m1 == sa.len(),
                total == m1 + oa.len(),
                legs_in_bounds(self.left@, sr, m1 as nat),
                legs_in_bounds(ol, other.right@, oa.len()),
                self.cod() == other.dom(),
                i <= n_joins,
                comp@.len() == total,
                forall|x: int| 0 <= x < total ==> comp@[x] < total,
                forall|x: int| 0 <= x < total ==> glued_label(sa, oa, comp@[x] as int) == glued_label(sa, oa, x),
                forall|j: int| 0 <= j < i ==> comp@[sr[j] as int] == comp@[m1 + ol[j]],
                forall|f: spec_fn(int) -> int|
                    respects_interface(f, sr, ol, m1 as nat) ==> forall|x: int, y: int|
                        0 <= x < total && 0 <= y < total && #[trigger] comp@[x] == #[trigger] comp@[y]
                            ==> f(x) == f(y),
            decreases n_joins - i,
        {
            let a = comp[self.right[i]];
            let b = comp[m1 + other.left[i]];
            proof {
                assert(self.cod()[i as int] == other.dom()[i as int]);
                assert(glued_label(sa, oa, sr[i as int] as int) == sa[sr[i as int] as int]);
                assert(glued_label(sa, oa, m1 + ol[i as int]) == oa[ol[i as int] as int]);
            }
            if a != b {
                let ghost before = comp@;
                let mut x: usize = 0;
                while x < total
                    invariant
                        comp@.len() == total,
                        before.len() == total,
                        x <= total,
                        a < total,
                        forall|y: int| 0 <= y < x ==> comp@[y] == (if before[y] == b { a } else { before[y] }),
                        forall|y: int| x <= y < total ==> comp@[y] == before[y],
                    decreases total - x,
                {
                    if comp[x] == b {
                        comp.set(x, a);
                    }
                    x = x + 1;
                }
                proof {
                    assert(glued_label(sa, oa, a as int) == glued_label(sa, oa, b as int));
                    assert forall|y: int| 0 <= y < total implies comp@[y] < total by {
                        assert(comp@[y] == (if before[y] == b { a } else { before[y] }));
                    }
                    assert forall|y: int| 0 <= y < total implies glued_label(sa, oa, comp@[y] as int)
                        == glued_label(sa, oa, y) by {
                        assert(comp@[y] == (if before[y] == b { a } else { before[y] }));
                    }
                    assert forall|j: int| 0 <= j < i + 1 implies comp@[sr[j] as int] == comp@[m1 + ol[j]] by {
                        if j < i {
                            assert(before[sr[j] as int] == before[m1 + ol[j]]);
                        }
                    }
                    assert forall|f: spec_fn(int) -> int|
                        respects_interface(f, sr, ol, m1 as nat) implies forall|x: int, y: int|
                            0 <= x < total && 0 <= y < total && #[trigger] comp@[x] == #[trigger] comp@[y]
                                ==> f(x) == f(y) by {
                        assert(f(sr[i as int] as int) == f(m1 + ol[i as int]));
                        assert forall|x: int, y: int|
                            0 <= x < total && 0 <= y < total && #[trigger] comp@[x] == #[trigger] comp@[y]
                                implies f(x) == f(y) by {
                            if before[x] == b && before[y] != b {
                                assert(before[y] == a);
                                assert(before[x] == before[m1 + ol[i as int]]);
                                assert(before[y] == before[sr[i as int] as int]);
                            } else if before[x] != b && before[y] == b {
                                assert(before[x] == a);
                                assert(before[y] == before[m1 + ol[i as int]]);
                                assert(before[x] == before[sr[i as int] as int]);
                            } else {
                                assert(before[x] == before[y]);
                            }
                        }
                    }
                }
            }
            i = i + 1;
        }
        // Number the classes in order of their first element.
        let mut class_index: Vec<Option<usize>> = Vec::new();
        let mut k: usize = 0;
        while k < total
            invariant
                k <= total,
                class_index@ == Seq::new(k as nat, |j: int| None::<usize>),
            decreases total - k,
        {
            class_index.push(None);
            k = k + 1;
            assert(class_index@ =~= Seq::new(k as nat, |j: int| None::<usize>));
        }
        let mut new_middle: Vec<Lambda> = Vec::new();
        let mut q: Vec<usize> = Vec::new();
        let ghost mut firsts: Seq<int> = Seq::empty();
        let mut x: usize = 0;
        while x < total
            invariant
                comp@.len() == total,
                class_index@.len() == total,
                m1 == sa.len(),
                total == m1 + oa.len(),
                sa == self.middle@,
                oa == other.middle@,
                forall|y: int| 0 <= y < total ==> comp@[y] < total,
                forall|y: int| 0 <= y < total ==> glued_label(sa, oa, comp@[y] as int) == glued_label(sa, oa, y),
                x <= total,
                q@.len() == x,
                new_middle@.len() <= x,
                firsts.len() == new_middle@.len(),
                forall|t: int| 0 <= t < firsts.len() ==> 0 <= #[trigger] firsts[t] < x,
                forall|t: int| 0 <= t < firsts.len() ==> q@[firsts[t]] == t,
                forall|t: int| 0 <= t < firsts.len() ==> new_middle@[t] == glued_label(sa, oa, #[trigger] firsts[t]),
                forall|t: int|
                    0 <= t < firsts.len() ==> class_index@[comp@[#[trigger] firsts[t]] as int]
                        == Some(t as usize),
                forall|r: int|
                    0 <= r < total ==> (#[trigger] class_index@[r] matches Some(t) ==> t < firsts.len()
                        && comp@[firsts[t as int]] == r),
                forall|y: int| 0 <= y < x ==> class_index@[comp@[y] as int] == Some(#[trigger] q@[y]),
            decreases total - x,
        {
            let r = comp[x];
            match class_index[r] {
                Some(t) => {
                    q.push(t);
                },
                None => {
                    let t = new_middle.len();
                    let label = if x < m1 {
                        self.middle[x]
                    } else {
                        other.middle[x - m1]
                    };
                    new_middle.push(label);
                    class_index.set(r, Some(t));
                    q.push(t);
                    proof {
                        firsts = firsts.push(x as int);
                    }
                },
            }
            x = x + 1;
        }
        let ghost qs = q@;
        let mut new_left: Vec<usize> = Vec::with_capacity(self.left.len());
        let mut j: usize = 0;
        while j < self.left.len()
            invariant
                j <= self.left@.len(),
                q@ == qs,
                qs.len() == total,
                total == m1 + oa.len(),
                m1 == sa.len(),
                sa == self.middle@,
                legs_in_bounds(self.left@, self.right@, m1 as nat),
                new_middle@.len() <= total,
                new_left@ == Seq::new(j as nat, |i: int| qs[self.left@[i] as int]),
            decreases self.left@.len() - j,
        {
            new_left.push(q[self.left[j]]);
            j = j + 1;
            assert(new_left@ =~= Seq::new(j as nat, |i: int| qs[self.left@[i] as int]));
        }
        let mut new_right: Vec<usize> = Vec::with_capacity(other.right.len());
        let mut j: usize = 0;
        while j < other.right.len()
            invariant
                j <= other.right@.len(),
                q@ == qs,
                qs.len() == total,
                total == m1 + oa.len(),
                oa == other.middle@,
                legs_in_bounds(other.left@, other.right@, oa.len()),
                new_middle@.len() <= total,
                new_right@ == Seq::new(j as nat, |i: int| qs[m1 + other.right@[i]]),
            decreases other.right@.len() - j,
        {
            new_right.push(q[m1 + other.right[j]]);
            j = j + 1;
            assert(new_right@ =~= Seq::new(j as nat, |i: int| qs[m1 + other.right@[i]]));
        }
        proof {
            let n = new_middle@.len();
            assert forall|y: int| 0 <= y < total implies qs[y] < n by {
                assert(class_index@[comp@[y] as int] == Some(qs[y]));
            }
            assert forall|y: int, z: int| 0 <= y < total && 0 <= z < total && qs[y] == qs[z] implies comp@[y]
                == comp@[z] by {
                assert(class_index@[comp@[y] as int] == Some(qs[y]));
                assert(class_index@[comp@[z] as int] == Some(qs[z]));
            }
            assert forall|y: int| 0 <= y < total implies new_middle@[#[trigger] qs[y] as int] == glued_label(sa, oa, y) by {
                let t = qs[y] as int;
                assert(class_index@[comp@[y] as int] == Some(qs[y]));
                assert(comp@[firsts[t]] == comp@[y]);
                assert(glued_label(sa, oa, comp@[firsts[t]] as int) == glued_label(sa, oa, firsts[t]));
            }
            assert forall|t: int| 0 <= t < n implies #[trigger] class_hit(qs, total as nat, t) by {
                assert(qs[firsts[t]] == t);
            }
            assert forall|jj: int| 0 <= jj < sr.len() implies qs[#[trigger] sr[jj] as int] == qs[m1 + ol[jj]] by {
                assert(comp@[sr[jj] as int] == comp@[m1 + ol[jj]]);
                assert(class_index@[comp@[sr[jj] as int] as int] == Some(qs[sr[jj] as int]));
                assert(class_index@[comp@[m1 + ol[jj]] as int] == Some(qs[m1 + ol[jj]]));
            }
        }
        let result = Self {
            left: new_left,
            right: new_right,
            middle: new_middle,
            is_left_id: false,
            is_right_id: false,
        };
        proof {
            assert(is_pushout_quotient(qs, result.apex().len(), sr, ol, m1 as nat, total as nat));
            assert(self.is_composite(other, &result));
            assert(result.dom() =~= self.dom());
            assert(result.cod() =~= other.cod());
        }
        Ok(result)
    }

    fn domain(&self) -> (r: Vec<Lambda>)
        ensures
            r@ == self.dom(),
    {
        proof {
            use_type_invariant(self);
        }
        read_leg(self.left.as_slice(), self.middle.as_slice())
    }

    fn codomain(&self) -> (r: Vec<Lambda>)
        ensures
            r@ == self.cod(),
    {
        proof {
            use_type_invariant(self);
        }
        read_leg(self.right.as_slice(), self.middle.as_slice())
    }
}

/// `leg` with every index shifted up by `shift`.
pub open spec fn shifted(leg: Seq<usize>, shift: nat) -> Seq<usize> {
    Seq::new(leg.len(), |i: int| (leg[i] + shift) as usize)
}

/// Appends `leg` shifted by `shift` to `v`.
fn push_shifted(v: &mut Vec<usize>, leg: &[usize], shift: usize, bound: usize)
    requires
        forall|i: int| 0 <= i < leg@.len() ==> leg@[i] < bound,
        shift + bound <= usize::MAX,
    ensures
        final(v)@ == old(v)@ + shifted(leg@, shift as nat),
{
    let ghost v0 = v@;
    let mut i: usize = 0;
    while i < leg.len()
        invariant
            i <= leg@.len(),
            forall|j: int| 0 <= j < leg@.len() ==> leg@[j] < bound,
            shift + bound <= usize::MAX,
            v@ == v0 + shifted(leg@.subrange(0, i as int), shift as nat),
        decreases leg@.len() - i,
    {
        v.push(leg[i] + shift);
        i = i + 1;
        assert(v@ =~= v0 + shifted(leg@.subrange(0, i as int), shift as nat));
    }
    assert(leg@.subrange(0, i as int) =~= leg@);
}

impl<Lambda: Label> Monoidal for Cospan<Lambda> {
    /// Disjoint union: the legs and apex of `other` are placed after those of
    /// `self`. When the joint apex would exceed `usize::MAX` elements, `self`
    /// is left unchanged.
    fn monoidal(&mut self, other: Self)
        ensures
            old(self).apex().len() + other.apex().len() <= usize::MAX ==> {
                &&& final(self).left_map() == old(self).left_map() + shifted(
                    other.left_map(),
                    old(self).apex().len(),
                )
                &&& final(self).right_map() == old(self).right_map() + shifted(
                    other.right_map(),
                    old(self).apex().len(),
                )
                &&& final(self).apex() == old(self).apex() + other.apex()
                &&& final(self).left_flag() == (old(self).left_flag() && other.left_flag())
                &&& final(self).right_flag() == (old(self).right_flag() && other.right_flag())
                &&& final(self).dom() == old(self).dom() + other.dom()
                &&& final(self).cod() == old(self).cod() + other.cod()
            },
            old(self).apex().len() + other.apex().len() > usize::MAX ==> *final(self) == *old(self),
    {
        proof {
            use_type_invariant(&*self);
            use_type_invariant(&other);
        }
        let shift = self.middle.len();
        let m2 = other.middle.len();
        if shift > usize::MAX - m2 {
            return ;
        }
        let ghost old_self = *self;
        let mut left = copy_vec(self.left.as_slice());
        push_shifted(&mut left, other.left.as_slice(), shift, m2);
        let mut right = copy_vec(self.right.as_slice());
        push_shifted(&mut right, other.right.as_slice(), shift, m2);
        let mut middle = copy_vec(self.middle.as_slice());
        let mut om = copy_vec(other.middle.as_slice());
        middle.append(&mut om);
        let is_left_id = self.is_left_id && other.is_left_id;
        let is_right_id = self.is_right_id && other.is_right_id;
        *self = Self { left, right, middle, is_left_id, is_right_id };
        proof {
            assert(self.dom() =~= old_self.dom() + other.dom());
            assert(self.cod() =~= old_self.cod() + other.cod());
        }
    }
}

impl<Lambda: Label> MonoidalMorphism<Vec<Lambda>> for Cospan<Lambda> {

}

impl<Lambda: Label> crate::hypergraph_category::HypergraphCategory<Lambda> for Cospan<Lambda> {
    /// `∅ → [z]`.
    fn unit(z: Lambda) -> (r: Self)
        ensures
            r.dom() == Seq::<Lambda>::empty(),
            r.cod() == seq![z],
            r.apex() == seq![z],
    {
        let mut right: Vec<usize> = Vec::new();
        right.push(0);
        let mut middle: Vec<Lambda> = Vec::new();
        middle.push(z);
        let r = Self::new(Vec::new(), right, middle);
        assert(r.dom() =~= Seq::<Lambda>::empty());
        assert(r.cod() =~= seq![z]);
        r
    }

    /// `[z] → ∅`.
    fn counit(z: Lambda) -> (r: Self)
        ensures
            r.dom() == seq![z],
            r.cod() == Seq::<Lambda>::empty(),
            r.apex() == seq![z],
    {
        let mut left: Vec<usize> = Vec::new();
        left.push(0);
        let mut middle: Vec<Lambda> = Vec::new();
        middle.push(z);
        let r = Self::new(left, Vec::new(), middle);
        assert(r.cod() =~= Seq::<Lambda>::empty());
        assert(r.dom() =~= seq![z]);
        r
    }

    /// `[z, z] → [z]`, merging both inputs.
    fn multiplication(z: Lambda) -> (r: Self)
        ensures
            r.dom() == seq![z, z],
            r.cod() == seq![z],
            r.apex() == seq![z],
    {
        let mut left: Vec<usize> = Vec::new();
        left.push(0);
        left.push(0);
        let mut right: Vec<usize> = Vec::new();
        right.push(0);
        let mut middle: Vec<Lambda> = Vec::new();
        middle.push(z);
        let r = Self::new(left, right, middle);
        assert(r.dom() =~= seq![z, z]);
        assert(r.cod() =~= seq![z]);
        r
    }

    /// `[z] → [z, z]`, copying the input.
    fn comultiplication(z: Lambda) -> (r: Self)
        ensures
            r.dom() == seq![z],
            r.cod() == seq![z, z],
            r.apex() == seq![z],
    {
        let mut left: Vec<usize> = Vec::new();
        left.push(0);
        let mut right: Vec<usize> = Vec::new();
        right.push(0);
        right.push(0);
        let mut middle: Vec<Lambda> = Vec::new();
        middle.push(z);
        let r = Self::new(left, right, middle);
        assert(r.dom() =~= seq![z]);
        assert(r.cod() =~= seq![z, z]);
        r
    }

    /// `∅ → [z, z]`: the unit followed by the comultiplication.
    fn cup(z: Lambda) -> (r: Result<Self, CatgraphError>)
        ensures
            r matches Ok(c) && c.dom() == Seq::<Lambda>::empty() && c.cod() == seq![z, z],
    {
        let u = Self::unit(z);
        let d = Self::comultiplication(z);
        u.compose(&d)
    }

    /// `[z, z] → ∅`: the multiplication followed by the counit.
    fn cap(z: Lambda) -> (r: Result<Self, CatgraphError>)
        ensures
            r matches Ok(c) && c.dom() == seq![z, z] && c.cod() == Seq::<Lambda>::empty(),
    {
        let m = Self::multiplication(z);
        let e = Self::counit(z);
        m.compose(&e)
    }
}

impl<Lambda: Label> SymmetricMonoidalMorphism<Lambda> for Cospan<Lambda> {
    open spec fn permutable(&self, p: Seq<usize>, of_codomain: bool) -> bool {
        p.len() == (if of_codomain {
            self.right_map().len()
        } else {
            self.left_map().len()
        })
    }

    open spec fn permutation_fits(p: Seq<usize>, types: Seq<Lambda>) -> bool {
        p.len() == types.len()
    }

    /// Reorders the leg of that side by `p` (boundary element `i` now goes
    /// where element `p(i)` went) and clears its identity flag.
    fn permute_side(&mut self, p: &Permutation, of_codomain: bool)
        ensures
            final(self).apex() == old(self).apex(),
            of_codomain ==> {
                &&& final(self).right_map() == permuted(old(self).right_map(), perm_values(*p))
                &&& final(self).left_map() == old(self).left_map()
                &&& !final(self).right_flag()
                &&& final(self).left_flag() == old(self).left_flag()
            },
            !of_codomain ==> {
                &&& final(self).left_map() == permuted(old(self).left_map(), perm_values(*p))
                &&& final(self).right_map() == old(self).right_map()
                &&& !final(self).left_flag()
                &&& final(self).right_flag() == old(self).right_flag()
            },
    {
        let _len = perm_len(p);
        proof {
            use_type_invariant(&*self);
            crate::permutation::lemma_permuted_in_bounds(
                if of_codomain {
                    self.right@
                } else {
                    self.left@
                },
                perm_values(*p),
                self.middle@.len(),
            );
        }
        if of_codomain {
            let right = perm_permute(p, self.right.as_slice());
            *self = Self {
                left: copy_vec(self.left.as_slice()),
                right,
                middle: copy_vec(self.middle.as_slice()),
                is_left_id: self.is_left_id,
                is_right_id: false,
            };
        } else {
            let left = perm_permute(p, self.left.as_slice());
            *self = Self {
                left,
                right: copy_vec(self.right.as_slice()),
                middle: copy_vec(self.middle.as_slice()),
                is_left_id: false,
                is_right_id: self.is_right_id,
            };
        }
    }

    /// The cospan of the permutation: apex `types`, the side that holds
    /// `types` is the identity leg (with its flag set) and the other leg is
    /// `p` itself, so that element `i` there carries `types[p(i)]`.
    fn from_permutation(p: Permutation, types: &[Lambda], types_as_on_domain: bool) -> (r: Result<Self, CatgraphError>)
        ensures
            r matches Ok(c) && {
                &&& c.apex() == types@
                &&& types_as_on_domain ==> {
                    &&& c.left_map() == range_seq(0, types@.len() as int)
                    &&& c.right_map() == perm_values(p)
                    &&& c.left_flag() && !c.right_flag()
                }
                &&& !types_as_on_domain ==> {
                    &&& c.left_map() == perm_values(p)
                    &&& c.right_map() == range_seq(0, types@.len() as int)
                    &&& !c.left_flag() && c.right_flag()
                }
            },
    {
        let n = types.len();
        let _len = perm_len(&p);
        let mut ids: Vec<usize> = Vec::new();
        push_range(&mut ids, 0, n);
        let moved = perm_permute(&p, ids.as_slice());
        proof {
            assert(moved@ =~= perm_values(p));
        }
        if types_as_on_domain {
            Ok(Self { left: ids, right: moved, middle: copy_vec(types), is_left_id: true, is_right_id: false })
        } else {
            Ok(Self { left: moved, right: ids, middle: copy_vec(types), is_left_id: false, is_right_id: true })
        }
    }
}

impl<Lambda: Label> Clone for Cospan<Lambda> {
    fn clone(&self) -> (r: Self)
        ensures
            r.left_map() == self.left_map(),
            r.right_map() == self.right_map(),
            r.apex() == self.apex(),
            r.left_flag() == self.left_flag(),
            r.right_flag() == self.right_flag(),
    {
        proof {
            use_type_invariant(self);
        }
        Self {
            left: copy_vec(self.left.as_slice()),
            right: copy_vec(self.right.as_slice()),
            middle: copy_vec(self.middle.as_slice()),
            is_left_id: self.is_left_id,
            is_right_id: self.is_right_id,
        }
    }
}

} // verus!
