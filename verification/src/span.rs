//! Spans of finite sets (the dual of cospans) and the [`Rel`] relation algebra.
//!
//! A span `X ← M → Y` is stored as the list of its apex elements, each given as
//! the pair of its images in the labelled domain `X` and codomain `Y`; the two
//! images of an apex element carry the same label. Composition is the pullback.
use vstd::prelude::*;

use crate::category::{Composable, HasIdentity};
use crate::errors::CatgraphError;
use crate::label::{label_text, labels_equal, Label};
use crate::monoidal::{Monoidal, MonoidalMorphism, SymmetricMonoidalMorphism};
use crate::permutation::{perm_apply, perm_inv, perm_len, perm_permute, perm_values, permuted};
use crate::utils::{copy_vec, is_identity_seq, no_duplicates, pairs_unique, range_seq, represents_id};

use permutations::Permutation;

verus! {

/// A value on the left or on the right side of a span.
#[derive(Debug, PartialEq, Eq)]
pub enum Either<L, R> {
    Left(L),
    Right(R),
}

/// Every pair points into the boundary sets and links equal labels.
pub open spec fn pairs_valid<L>(left: Seq<L>, right: Seq<L>, middle: Seq<(usize, usize)>) -> bool {
    forall|k: int|
        0 <= k < middle.len() ==> {
            &&& (#[trigger] middle[k]).0 < left.len()
            &&& middle[k].1 < right.len()
            &&& left[middle[k].0 as int] == right[middle[k].1 as int]
        }
}

/// The first components of the pairs.
pub open spec fn firsts(middle: Seq<(usize, usize)>) -> Seq<usize> {
    Seq::new(middle.len(), |k: int| middle[k].0)
}

/// The second components of the pairs.
pub open spec fn seconds(middle: Seq<(usize, usize)>) -> Seq<usize> {
    Seq::new(middle.len(), |k: int| middle[k].1)
}

/// The pairs `(p.0, q.1)` for the `q` of `g` with `q.0 == p.1`, in the order of `g`.
pub open spec fn pullback_row(p: (usize, usize), g: Seq<(usize, usize)>) -> Seq<(usize, usize)>
    decreases g.len(),
{
    if g.len() == 0 {
        Seq::empty()
    } else {
        pullback_row(p, g.drop_last()) + if g.last().0 == p.1 {
            seq![(p.0, g.last().1)]
        } else {
            Seq::empty()
        }
    }
}

/// The apex of the pullback of two spans: for each pair of `f` in order, the
/// pairs of `g` that start where it ends.
pub open spec fn pullback_pairs(f: Seq<(usize, usize)>, g: Seq<(usize, usize)>) -> Seq<
    (usize, usize),
>
    decreases f.len(),
{
    if f.len() == 0 {
        Seq::empty()
    } else {
        pullback_pairs(f.drop_last(), g) + pullback_row(f.last(), g)
    }
}

/// The pairs with each component shifted.
pub open spec fn shift_pairs(m: Seq<(usize, usize)>, ls: nat, rs: nat) -> Seq<(usize, usize)> {
    Seq::new(m.len(), |k: int| ((m[k].0 + ls) as usize, (m[k].1 + rs) as usize))
}

/// The pairs with their components swapped.
pub open spec fn swap_pairs(m: Seq<(usize, usize)>) -> Seq<(usize, usize)> {
    Seq::new(m.len(), |k: int| (m[k].1, m[k].0))
}

/// A span of finite sets with labelled domain and codomain.
pub struct Span<Lambda: Label> {
    middle: Vec<(usize, usize)>,
    left: Vec<Lambda>,
    right: Vec<Lambda>,
    is_left_id: bool,
    is_right_id: bool,
}

impl<Lambda: Label> Span<Lambda> {
    #[verifier::type_invariant]
    spec fn well_formed(&self) -> bool {
        &&& pairs_valid(self.left@, self.right@, self.middle@)
        &&& self.is_left_id ==> is_identity_seq(firsts(self.middle@))
        &&& self.is_right_id ==> is_identity_seq(seconds(self.middle@))
    }

    /// Domain labels.
    pub closed spec fn lefts(&self) -> Seq<Lambda> {
        self.left@
    }

    /// Codomain labels.
    pub closed spec fn rights(&self) -> Seq<Lambda> {
        self.right@
    }

    /// The apex elements, each as the pair of its domain and codomain images.
    pub closed spec fn pairs(&self) -> Seq<(usize, usize)> {
        self.middle@
    }

    /// The stored flag telling whether the left leg is an identity.
    pub closed spec fn left_flag(&self) -> bool {
        self.is_left_id
    }

    /// The stored flag telling whether the right leg is an identity.
    pub closed spec fn right_flag(&self) -> bool {
        self.is_right_id
    }

    /// The pairs always point into the boundaries and link equal labels.
    pub fn valid(&self) -> (b: bool)
        ensures
            b,
            pairs_valid(self.lefts(), self.rights(), self.pairs()),
    {
        proof {
            use_type_invariant(self);
        }
        true
    }

    /// Checks the identity flags against the legs: when `check_id_strong` holds,
    /// or `check_id_weak` holds and a flag is set, that flag must tell the
    /// truth, which the caller owes. The leg bounds and the label agreement
    /// always hold.
    pub fn assert_valid(&self, check_id_strong: bool, check_id_weak: bool)
        requires
            (check_id_strong || (check_id_weak && self.left_flag())) ==> self.left_flag()
                == is_identity_seq(firsts(self.pairs())),
            (check_id_strong || (check_id_weak && self.right_flag())) ==> self.right_flag()
                == is_identity_seq(seconds(self.pairs())),
    {
        proof {
            use_type_invariant(self);
        }
        if check_id_strong || (check_id_weak && self.is_left_id) {
            let l = self.middle_to_left();
            let _is_left_really_id = represents_id(l.as_slice());
        }
        if check_id_strong || (check_id_weak && self.is_right_id) {
            let r = self.middle_to_right();
            let _is_right_really_id = represents_id(r.as_slice());
        }
    }

    /// The span with the given boundaries and apex pairs; each identity flag
    /// is set when that leg sends apex element `k` to `k`.
    pub fn new(left: Vec<Lambda>, right: Vec<Lambda>, middle: Vec<(usize, usize)>) -> (r: Self)
        requires
            pairs_valid(left@, right@, middle@),
        ensures
            r.lefts() == left@,
            r.rights() == right@,
            r.pairs() == middle@,
            r.left_flag() == is_identity_seq(firsts(middle@)),
            r.right_flag() == is_identity_seq(seconds(middle@)),
    {
        let l = pair_firsts(middle.as_slice());
        let r = pair_seconds(middle.as_slice());
        let is_left_id = represents_id(l.as_slice());
        let is_right_id = represents_id(r.as_slice());
        Self { middle, left, right, is_left_id, is_right_id }
    }

    pub fn left(&self) -> (r: &[Lambda])
        ensures
            r@ == self.lefts(),
    {
        self.left.as_slice()
    }

    pub fn right(&self) -> (r: &[Lambda])
        ensures
            r@ == self.rights(),
    {
        self.right.as_slice()
    }

    pub fn middle_pairs(&self) -> (r: &[(usize, usize)])
        ensures
            r@ == self.pairs(),
            pairs_valid(self.lefts(), self.rights(), self.pairs()),
    {
        proof {
            use_type_invariant(self);
        }
        self.middle.as_slice()
    }

    /// The stored flag; when set, the left leg is the identity `0, 1, 2, …`.
    pub fn is_left_identity(&self) -> (b: bool)
        ensures
            b == self.left_flag(),
            b ==> is_identity_seq(firsts(self.pairs())),
    {
        proof {
            use_type_invariant(self);
        }
        self.is_left_id
    }

    /// The stored flag; when set, the right leg is the identity `0, 1, 2, …`.
    pub fn is_right_identity(&self) -> (b: bool)
        ensures
            b == self.right_flag(),
            b ==> is_identity_seq(seconds(self.pairs())),
    {
        proof {
            use_type_invariant(self);
        }
        self.is_right_id
    }

    pub fn middle_to_left(&self) -> (r: Vec<usize>)
        ensures
            r@ == firsts(self.pairs()),
    {
        pair_firsts(self.middle.as_slice())
    }

    pub fn middle_to_right(&self) -> (r: Vec<usize>)
        ensures
            r@ == seconds(self.pairs()),
    {
        pair_seconds(self.middle.as_slice())
    }

    /// Adds a boundary element with the given label; `Left` adds to the domain,
    /// `Right` to the codomain. Returns its index.
    pub fn add_boundary_node(&mut self, new_boundary: Either<Lambda, Lambda>) -> (r: Either<usize, usize>)
        ensures
            final(self).pairs() == old(self).pairs(),
            final(self).left_flag() == old(self).left_flag(),
            final(self).right_flag() == old(self).right_flag(),
            new_boundary matches Either::Left(z) ==> final(self).lefts() == old(self).lefts().push(z)
                && final(self).rights() == old(self).rights() && r == Either::<usize, usize>::Left(
                old(self).lefts().len() as usize,
            ),
            new_boundary matches Either::Right(z) ==> final(self).rights() == old(self).rights().push(z)
                && final(self).lefts() == old(self).lefts() && r == Either::<usize, usize>::Right(
                old(self).rights().len() as usize,
            ),
    {
        proof {
            use_type_invariant(&*self);
        }
        let ghost old_self = *self;
        match new_boundary {
            Either::Left(z) => {
                let mut left = copy_vec(self.left.as_slice());
                left.push(z);
                let n = left.len() - 1;
                proof {
                    assert forall|k: int| 0 <= k < self.middle@.len() implies left@[self.middle@[k].0 as int]
                        == self.left@[self.middle@[k].0 as int] by {}
                }
                *self = Self {
                    middle: copy_vec(self.middle.as_slice()),
                    left,
                    right: copy_vec(self.right.as_slice()),
                    is_left_id: self.is_left_id,
                    is_right_id: self.is_right_id,
                };
                Either::Left(n)
            },
            Either::Right(z) => {
                let mut right = copy_vec(self.right.as_slice());
                right.push(z);
                let n = right.len() - 1;
                proof {
                    assert forall|k: int| 0 <= k < self.middle@.len() implies right@[self.middle@[k].1 as int]
                        == self.right@[self.middle@[k].1 as int] by {}
                }
                *self = Self {
                    middle: copy_vec(self.middle.as_slice()),
                    left: copy_vec(self.left.as_slice()),
                    right,
                    is_left_id: self.is_left_id,
                    is_right_id: self.is_right_id,
                };
                Either::Right(n)
            },
        }
    }

    /// Adds an apex element sent to domain element `new_middle.0` and codomain
    /// element `new_middle.1`, returning its index; fails when their labels differ.
    pub fn add_middle(&mut self, new_middle: (usize, usize)) -> (r: Result<usize, CatgraphError>)
        requires
            new_middle.0 < old(self).lefts().len(),
            new_middle.1 < old(self).rights().len(),
        ensures
            final(self).lefts() == old(self).lefts(),
            final(self).rights() == old(self).rights(),
            r is Ok <==> old(self).lefts()[new_middle.0 as int] == old(self).rights()[new_middle.1 as int],
            r is Ok ==> final(self).pairs() == old(self).pairs().push(new_middle) && !final(self).left_flag()
                && !final(self).right_flag() && r->Ok_0 == old(self).pairs().len(),
            r is Err ==> *final(self) == *old(self) && (r matches Err(CatgraphError::Composition { message })
                && "Mismatched lambda values "@.is_prefix_of(message@)),
    {
        proof {
            use_type_invariant(&*self);
        }
        let type_left = self.left[new_middle.0];
        let type_right = self.right[new_middle.1];
        if !type_left.same_label(&type_right) {
            let head = String::from_str("Mismatched lambda values ");
            let message = head.concat(label_text(&type_left).as_str());
            let message = message.concat(" and ");
            let message = message.concat(label_text(&type_right).as_str());
            assert(message@.subrange(0, head@.len() as int) =~= head@);
            return Err(CatgraphError::Composition { message });
        }
        let mut middle = copy_vec(self.middle.as_slice());
        middle.push(new_middle);
        let n = middle.len() - 1;
        *self = Self {
            middle,
            left: copy_vec(self.left.as_slice()),
            right: copy_vec(self.right.as_slice()),
            is_left_id: false,
            is_right_id: false,
        };
        Ok(n)
    }

    /// Applies `f` to every boundary label, each domain label then each
    /// codomain label in order. The two labels an apex element links must
    /// stay equal, as the span's validity asks: on those labels `f` gives one
    /// result for each input.
    pub fn map<F, Mu: Label>(&self, f: F) -> (r: Span<Mu>)
        where
            F: Fn(Lambda) -> Mu,
        requires
            forall|i: int| 0 <= i < self.lefts().len() ==> f.requires((#[trigger] self.lefts()[i],)),
            forall|i: int| 0 <= i < self.rights().len() ==> f.requires((#[trigger] self.rights()[i],)),
            forall|k: int, y1: Mu, y2: Mu|
                #![trigger self.pairs()[k], f.ensures((self.lefts()[self.pairs()[k].0 as int],), y1), f.ensures((self.lefts()[self.pairs()[k].0 as int],), y2)]
                0 <= k < self.pairs().len() && f.ensures((self.lefts()[self.pairs()[k].0 as int],), y1)
                    && f.ensures((self.lefts()[self.pairs()[k].0 as int],), y2) ==> y1 == y2,
        ensures
            r.lefts().len() == self.lefts().len(),
            r.rights().len() == self.rights().len(),
            forall|i: int| 0 <= i < self.lefts().len() ==> f.ensures((self.lefts()[i],), #[trigger] r.lefts()[i]),
            forall|i: int| 0 <= i < self.rights().len() ==> f.ensures((self.rights()[i],), #[trigger] r.rights()[i]),
            r.pairs() == self.pairs(),
            r.left_flag() == is_identity_seq(firsts(self.pairs())),
            r.right_flag() == is_identity_seq(seconds(self.pairs())),
    {
        proof {
            use_type_invariant(self);
        }
        proof {
            assert forall|i: int| 0 <= i < self.left@.len() implies f.requires((#[trigger] self.left@[i],)) by {
                assert(self.lefts()[i] == self.left@[i]);
            }
            assert forall|i: int| 0 <= i < self.right@.len() implies f.requires((#[trigger] self.right@[i],)) by {
                assert(self.rights()[i] == self.right@[i]);
            }
        }
        let left = map_labels(self.left.as_slice(), &f);
        let right = map_labels(self.right.as_slice(), &f);
        proof {
            assert forall|k: int| 0 <= k < self.middle@.len() implies left@[self.middle@[k].0 as int]
                == right@[self.middle@[k].1 as int] by {
                let a = self.middle@[k].0 as int;
                let b = self.middle@[k].1 as int;
                assert(self.left@[a] == self.right@[b]);
                assert(f.ensures((self.left@[a],), left@[a]));
                assert(f.ensures((self.right@[b],), right@[b]));
                assert(self.pairs()[k] == self.middle@[k]);
                assert(f.ensures((self.lefts()[self.pairs()[k].0 as int],), left@[a]));
                assert(f.ensures((self.lefts()[self.pairs()[k].0 as int],), right@[b]));
            }
        }
        Span::new(left, right, copy_vec(self.middle.as_slice()))
    }

    /// True when no apex pair occurs twice: the span is a relation.
    pub fn is_jointly_injective(&self) -> (b: bool)
        ensures
            b == no_duplicates(self.pairs()),
    {
        pairs_unique(self.middle.as_slice())
    }

    /// Swaps domain and codomain.
    pub fn dagger(&self) -> (r: Self)
        ensures
            r.lefts() == self.rights(),
            r.rights() == self.lefts(),
            r.pairs() == swap_pairs(self.pairs()),
            r.left_flag() == is_identity_seq(seconds(self.pairs())),
            r.right_flag() == is_identity_seq(firsts(self.pairs())),
    {
        proof {
            use_type_invariant(self);
        }
        let mut m: Vec<(usize, usize)> = Vec::with_capacity(self.middle.len());
        let mut k: usize = 0;
        while k < self.middle.len()
            invariant
                k <= self.middle@.len(),
                m@ == swap_pairs(self.middle@.subrange(0, k as int)),
            decreases self.middle@.len() - k,
        {
            let (z, w) = self.middle[k];
            m.push((w, z));
            k = k + 1;
            assert(m@ =~= swap_pairs(self.middle@.subrange(0, k as int)));
        }
        assert(self.middle@.subrange(0, k as int) =~= self.middle@);
        assert(firsts(m@) =~= seconds(self.middle@));
        assert(seconds(m@) =~= firsts(self.middle@));
        Self::new(copy_vec(self.right.as_slice()), copy_vec(self.left.as_slice()), m)
    }
}

fn pair_firsts(m: &[(usize, usize)]) -> (r: Vec<usize>)
    ensures
        r@ == firsts(m@),
{
    let mut r: Vec<usize> = Vec::with_capacity(m.len());
    let mut k: usize = 0;
    while k < m.len()
        invariant
            k <= m@.len(),
            r@ == firsts(m@.subrange(0, k as int)),
        decreases m@.len() - k,
    {
        r.push(m[k].0);
        k = k + 1;
        assert(r@ =~= firsts(m@.subrange(0, k as int)));
    }
    assert(m@.subrange(0, k as int) =~= m@);
    r
}

fn pair_seconds(m: &[(usize, usize)]) -> (r: Vec<usize>)
    ensures
        r@ == seconds(m@),
{
    let mut r: Vec<usize> = Vec::with_capacity(m.len());
    let mut k: usize = 0;
    while k < m.len()
        invariant
            k <= m@.len(),
            r@ == seconds(m@.subrange(0, k as int)),
        decreases m@.len() - k,
    {
        r.push(m[k].1);
        k = k + 1;
        assert(r@ =~= seconds(m@.subrange(0, k as int)));
    }
    assert(m@.subrange(0, k as int) =~= m@);
    r
}

fn map_labels<Lambda: Label, Mu: Label, F: Fn(Lambda) -> Mu>(v: &[Lambda], f: &F) -> (r: Vec<Mu>)
    requires
        forall|i: int| 0 <= i < v@.len() ==> f.requires((#[trigger] v@[i],)),
    ensures
        r@.len() == v@.len(),
        forall|i: int| 0 <= i < v@.len() ==> f.ensures((v@[i],), #[trigger] r@[i]),
{
    let mut r: Vec<Mu> = Vec::with_capacity(v.len());
    let mut k: usize = 0;
    while k < v.len()
        invariant
            k <= v@.len(),
            forall|i: int| 0 <= i < v@.len() ==> f.requires((#[trigger] v@[i],)),
            r@.len() == k,
            forall|i: int| 0 <= i < k ==> f.ensures((v@[i],), #[trigger] r@[i]),
        decreases v@.len() - k,
    {
        let y = f(v[k]);
        r.push(y);
        k = k + 1;
    }
    r
}

pub proof fn lemma_pullback_pairs_step(f: Seq<(usize, usize)>, g: Seq<(usize, usize)>, a: int)
    requires
        0 <= a < f.len(),
    ensures
        pullback_pairs(f.subrange(0, a + 1), g) == pullback_pairs(f.subrange(0, a), g) + pullback_row(
            f[a],
            g,
        ),
{
    assert(f.subrange(0, a + 1).drop_last() =~= f.subrange(0, a));
}

pub proof fn lemma_pullback_row_step(p: (usize, usize), g: Seq<(usize, usize)>, b: int)
    requires
        0 <= b < g.len(),
    ensures
        pullback_row(p, g.subrange(0, b + 1)) == pullback_row(p, g.subrange(0, b)) + if g[b].0 == p.1 {
            seq![(p.0, g[b].1)]
        } else {
            Seq::empty()
        },
{
    assert(g.subrange(0, b + 1).drop_last() =~= g.subrange(0, b));
}

impl<Lambda: Label> HasIdentity<Vec<Lambda>> for Span<Lambda> {
    fn identity(on_this: &Vec<Lambda>) -> (r: Self)
        ensures
            r.lefts() == on_this@,
            r.rights() == on_this@,
            r.pairs() == Seq::new(on_this@.len(), |i: int| (i as usize, i as usize)),
            r.left_flag(),
            r.right_flag(),
    {
        let n = on_this.len();
        let mut m: Vec<(usize, usize)> = Vec::with_capacity(n);
        let mut k: usize = 0;
        while k < n
            invariant
                k <= n,
                n == on_this@.len(),
                m@ == Seq::new(k as nat, |i: int| (i as usize, i as usize)),
            decreases n - k,
        {
            m.push((k, k));
            k = k + 1;
            assert(m@ =~= Seq::new(k as nat, |i: int| (i as usize, i as usize)));
        }
        Self {
            middle: m,
            left: copy_vec(on_this.as_slice()),
            right: copy_vec(on_this.as_slice()),
            is_left_id: true,
            is_right_id: true,
        }
    }
}

impl<Lambda: Label> Composable<Vec<Lambda>> for Span<Lambda> {
    fn composable(&self, other: &Self) -> (r: Result<(), CatgraphError>)
        ensures
            r is Ok <==> self.rights() == other.lefts(),
            r is Err ==> r->Err_0 is Composition,
    {
        if labels_equal(self.right.as_slice(), other.left.as_slice()) {
            Ok(())
        } else if self.right.len() != other.left.len() {
            Err(CatgraphError::Composition {
                message: String::from_str("Mismatch in cardinalities of common interface"),
            })
        } else {
            Err(CatgraphError::Composition {
                message: String::from_str("Mismatch in labels of common interface"),
            })
        }
    }

    /// Pullback composition: an apex element of the composite is a pair of apex
    /// elements of `self` and `other` that meet in the shared interface.
    fn compose(&self, other: &Self) -> (r: Result<Self, CatgraphError>)
        ensures
            r is Ok <==> self.rights() == other.lefts(),
            r matches Ok(c) ==> {
                &&& c.lefts() == self.lefts()
                &&& c.rights() == other.rights()
                &&& c.pairs() == pullback_pairs(self.pairs(), other.pairs())
                &&& c.left_flag() == (c.pairs().len() == 0)
                &&& c.right_flag() == (c.pairs().len() == 0)
            },
            r is Err ==> r->Err_0 is Composition,
    {
        proof {
            use_type_invariant(self);
            use_type_invariant(other);
        }
        match self.composable(other) {
            Ok(()) => {},
            Err(e) => {
                return Err(e);
            },
        }
        let mut answer = Self::new(
            copy_vec(self.left.as_slice()),
            copy_vec(other.right.as_slice()),
            Vec::new(),
        );
        let ghost f = self.middle@;
        let ghost g = other.middle@;
        let mut a: usize = 0;
        while a < self.middle.len()
            invariant
                f == self.middle@,
                g == other.middle@,
                self.right@ == other.left@,
                pairs_valid(self.left@, self.right@, f),
                pairs_valid(other.left@, other.right@, g),
                a <= f.len(),
                answer.lefts() == self.left@,
                answer.rights() == other.right@,
                answer.pairs() == pullback_pairs(f.subrange(0, a as int), g),
                answer.left_flag() == (answer.pairs().len() == 0),
                answer.right_flag() == (answer.pairs().len() == 0),
            decreases f.len() - a,
        {
            let (sl, sr) = self.middle[a];
            let mut b: usize = 0;
            while b < other.middle.len()
                invariant
                    f == self.middle@,
                    g == other.middle@,
                    self.right@ == other.left@,
                    pairs_valid(self.left@, self.right@, f),
                    pairs_valid(other.left@, other.right@, g),
                    a < f.len(),
                    (sl, sr) == f[a as int],
                    b <= g.len(),
                    answer.lefts() == self.left@,
                    answer.rights() == other.right@,
                    answer.pairs() == pullback_pairs(f.subrange(0, a as int), g) + pullback_row(
                        f[a as int],
                        g.subrange(0, b as int),
                    ),
                    answer.left_flag() == (answer.pairs().len() == 0),
                    answer.right_flag() == (answer.pairs().len() == 0),
                decreases g.len() - b,
            {
                let (ol, or) = other.middle[b];
                proof {
                    lemma_pullback_row_step(f[a as int], g, b as int);
                }
                if sr == ol {
                    proof {
                        assert(self.left@[sl as int] == self.right@[sr as int]);
                        assert(other.left@[ol as int] == other.right@[or as int]);
                    }
                    let mid_added = answer.add_middle((sl, or));
                    match mid_added {
                        Ok(_) => {},
                        Err(z) => {
                            return Err(z);
                        },
                    }
                }
                b = b + 1;
            }
            proof {
                assert(g.subrange(0, b as int) =~= g);
                lemma_pullback_pairs_step(f, g, a as int);
            }
            a = a + 1;
        }
        assert(f.subrange(0, a as int) =~= f);
        Ok(answer)
    }

    fn domain(&self) -> (r: Vec<Lambda>)
        ensures
            r@ == self.lefts(),
    {
        copy_vec(self.left.as_slice())
    }

    fn codomain(&self) -> (r: Vec<Lambda>)
        ensures
            r@ == self.rights(),
    {
        copy_vec(self.right.as_slice())
    }
}

impl<Lambda: Label> Monoidal for Span<Lambda> {
    /// Disjoint union: the boundaries of `other` follow those of `self` and its
    /// pairs are shifted accordingly. When a joint boundary would exceed
    /// `usize::MAX` elements, `self` is left unchanged.
    fn monoidal(&mut self, other: Self)
        ensures
            old(self).lefts().len() + other.lefts().len() <= usize::MAX && old(self).rights().len()
                + other.rights().len() <= usize::MAX ==> {
                &&& final(self).lefts() == old(self).lefts() + other.lefts()
                &&& final(self).rights() == old(self).rights() + other.rights()
                &&& final(self).pairs() == old(self).pairs() + shift_pairs(
                    other.pairs(),
                    old(self).lefts().len(),
                    old(self).rights().len(),
                )
                &&& final(self).left_flag() == is_identity_seq(firsts(final(self).pairs()))
                &&& final(self).right_flag() == is_identity_seq(seconds(final(self).pairs()))
            },
            !(old(self).lefts().len() + other.lefts().len() <= usize::MAX && old(self).rights().len()
                + other.rights().len() <= usize::MAX) ==> *final(self) == *old(self),
    {
        proof {
            use_type_invariant(&*self);
            use_type_invariant(&other);
        }
        let left_shift = self.left.len();
        let right_shift = self.right.len();
        if left_shift > usize::MAX - other.left.len() || right_shift > usize::MAX - other.right.len() {
            return ;
        }
        let ghost old_self = *self;
        let mut middle = copy_vec(self.middle.as_slice());
        let mut k: usize = 0;
        while k < other.middle.len()
            invariant
                k <= other.middle@.len(),
                pairs_valid(other.left@, other.right@, other.middle@),
                left_shift + other.left@.len() <= usize::MAX,
                right_shift + other.right@.len() <= usize::MAX,
                middle@ == old_self.middle@ + shift_pairs(
                    other.middle@.subrange(0, k as int),
                    left_shift as nat,
                    right_shift as nat,
                ),
            decreases other.middle@.len() - k,
        {
            let (v1, v2) = other.middle[k];
            middle.push((v1 + left_shift, v2 + right_shift));
            k = k + 1;
            assert(middle@ =~= old_self.middle@ + shift_pairs(
                other.middle@.subrange(0, k as int),
                left_shift as nat,
                right_shift as nat,
            ));
        }
        assert(other.middle@.subrange(0, k as int) =~= other.middle@);
        let mut left = copy_vec(self.left.as_slice());
        let mut ol = copy_vec(other.left.as_slice());
        left.append(&mut ol);
        let mut right = copy_vec(self.right.as_slice());
        let mut or = copy_vec(other.right.as_slice());
        right.append(&mut or);
        proof {
            assert forall|j: int| 0 <= j < middle@.len() implies {
                &&& (#[trigger] middle@[j]).0 < left@.len()
                &&& middle@[j].1 < right@.len()
                &&& left@[middle@[j].0 as int] == right@[middle@[j].1 as int]
            } by {
                if j >= old_self.middle@.len() {
                    let kk = j - old_self.middle@.len();
                    assert(other.left@[other.middle@[kk].0 as int] == other.right@[other.middle@[kk].1 as int]);
                }
            }
        }
        let l = pair_firsts(middle.as_slice());
        let r = pair_seconds(middle.as_slice());
        let is_left_id = represents_id(l.as_slice());
        let is_right_id = represents_id(r.as_slice());
        *self = Self { middle, left, right, is_left_id, is_right_id };
    }
}

impl<Lambda: Label> MonoidalMorphism<Vec<Lambda>> for Span<Lambda> {

}

/// The pairs with each codomain image `b` moved to `p[b]`.
pub open spec fn repoint_seconds(m: Seq<(usize, usize)>, p: Seq<usize>) -> Seq<(usize, usize)> {
    Seq::new(m.len(), |k: int| (m[k].0, p[m[k].1 as int]))
}

/// The pairs with each domain image `a` moved to `p[a]`.
pub open spec fn repoint_firsts(m: Seq<(usize, usize)>, p: Seq<usize>) -> Seq<(usize, usize)> {
    Seq::new(m.len(), |k: int| (p[m[k].0 as int], m[k].1))
}

/// The pairs `(i, p[i])`, or `(p[i], i)` when `flip` holds, for `i < p.len()`.
pub open spec fn graph_pairs(p: Seq<usize>, flip: bool) -> Seq<(usize, usize)> {
    Seq::new(
        p.len(),
        |i: int|
            if flip {
                (p[i], i as usize)
            } else {
                (i as usize, p[i])
            },
    )
}

/// The pairs with the second (or first) component sent through `p`.
fn repoint(m: &[(usize, usize)], p: &Permutation, of_codomain: bool, bound: usize) -> (r: Vec<(usize, usize)>)
    requires
        perm_values(*p).len() == bound,
        forall|k: int|
            0 <= k < m@.len() ==> (if of_codomain {
                (#[trigger] m@[k]).1 < bound
            } else {
                m@[k].0 < bound
            }),
    ensures
        r@ == (if of_codomain {
            repoint_seconds(m@, perm_values(*p))
        } else {
            repoint_firsts(m@, perm_values(*p))
        }),
{
    let mut r: Vec<(usize, usize)> = Vec::with_capacity(m.len());
    let mut k: usize = 0;
    while k < m.len()
        invariant
            k <= m@.len(),
            perm_values(*p).len() == bound,
            forall|j: int|
                0 <= j < m@.len() ==> (if of_codomain {
                    (#[trigger] m@[j]).1 < bound
                } else {
                    m@[j].0 < bound
                }),
            r@ == (if of_codomain {
                repoint_seconds(m@.subrange(0, k as int), perm_values(*p))
            } else {
                repoint_firsts(m@.subrange(0, k as int), perm_values(*p))
            }),
        decreases m@.len() - k,
    {
        let (a, b) = m[k];
        assert(m@[k as int] == (a, b));
        if of_codomain {
            let b2 = perm_apply(p, b);
            r.push((a, b2));
        } else {
            let a2 = perm_apply(p, a);
            r.push((a2, b));
        }
        k = k + 1;
        proof {
            if of_codomain {
                assert(r@ =~= repoint_seconds(m@.subrange(0, k as int), perm_values(*p)));
            } else {
                assert(r@ =~= repoint_firsts(m@.subrange(0, k as int), perm_values(*p)));
            }
        }
    }
    proof {
        assert(m@.subrange(0, k as int) =~= m@);
    }
    r
}

/// The pairs `(i, p(i))`, or `(p(i), i)` when `flip` holds.
fn graph_of(p: &Permutation, flip: bool) -> (r: Vec<(usize, usize)>)
    ensures
        r@ == graph_pairs(perm_values(*p), flip),
{
    let n = perm_len(p);
    let mut r: Vec<(usize, usize)> = Vec::with_capacity(n);
    let mut i: usize = 0;
    while i < n
        invariant
            i <= n,
            n == perm_values(*p).len(),
            r@ == graph_pairs(perm_values(*p).subrange(0, i as int), flip),
        decreases n - i,
    {
        let j = perm_apply(p, i);
        if flip {
            r.push((j, i));
        } else {
            r.push((i, j));
        }
        i = i + 1;
        assert(r@ =~= graph_pairs(perm_values(*p).subrange(0, i as int), flip));
    }
    assert(perm_values(*p).subrange(0, i as int) =~= perm_values(*p));
    r
}

impl<Lambda: Label> SymmetricMonoidalMorphism<Lambda> for Span<Lambda> {
    /// The permutation has the length of that side, and moving the apex
    /// images along it keeps the labels of each pair equal.
    open spec fn permutable(&self, p: Seq<usize>, of_codomain: bool) -> bool {
        if of_codomain {
            &&& p.len() == self.rights().len()
            &&& pairs_valid(self.lefts(), permuted(self.rights(), p), repoint_seconds(self.pairs(), p))
        } else {
            &&& p.len() == self.lefts().len()
            &&& pairs_valid(permuted(self.lefts(), p), self.rights(), repoint_firsts(self.pairs(), p))
        }
    }

    open spec fn permutation_fits(p: Seq<usize>, types: Seq<Lambda>) -> bool {
        p.len() == types.len()
    }

    /// Reorders that side by `p` and sends each apex image `b` there to
    /// `p(b)`; the identity flag of that side is cleared.
    fn permute_side(&mut self, p: &Permutation, of_codomain: bool)
        ensures
            of_codomain ==> {
                &&& final(self).lefts() == old(self).lefts()
                &&& final(self).rights() == permuted(old(self).rights(), perm_values(*p))
                &&& final(self).pairs() == repoint_seconds(old(self).pairs(), perm_values(*p))
                &&& final(self).left_flag() == old(self).left_flag()
                &&& !final(self).right_flag()
            },
            !of_codomain ==> {
                &&& final(self).lefts() == permuted(old(self).lefts(), perm_values(*p))
                &&& final(self).rights() == old(self).rights()
                &&& final(self).pairs() == repoint_firsts(old(self).pairs(), perm_values(*p))
                &&& !final(self).left_flag()
                &&& final(self).right_flag() == old(self).right_flag()
            },
    {
        proof {
            use_type_invariant(&*self);
        }
        if of_codomain {
            let right = perm_permute(p, self.right.as_slice());
            let middle = repoint(self.middle.as_slice(), p, true, self.right.len());
            let left = copy_vec(self.left.as_slice());
            assert(firsts(middle@) =~= firsts(self.middle@));
            *self = Self { middle, left, right, is_left_id: self.is_left_id, is_right_id: false };
        } else {
            let left = perm_permute(p, self.left.as_slice());
            let middle = repoint(self.middle.as_slice(), p, false, self.left.len());
            let right = copy_vec(self.right.as_slice());
            assert(seconds(middle@) =~= seconds(self.middle@));
            *self = Self { middle, left, right, is_left_id: false, is_right_id: self.is_right_id };
        }
    }

    /// The span of the permutation: with `types` on the domain, the apex
    /// pairs are `(i, p(i))` and codomain position `p(i)` carries
    /// `types[i]`; with `types` on the codomain, the pairs are `(p(i), i)`
    /// and domain position `p(i)` carries `types[i]`. Only the flag of the
    /// side that holds `types` is set.
    fn from_permutation(p: Permutation, types: &[Lambda], types_as_on_domain: bool) -> (r: Result<Self, CatgraphError>)
        ensures
            r matches Ok(s) && {
                let pv = perm_values(p);
                let n = types@.len();
                &&& s.pairs() == graph_pairs(pv, !types_as_on_domain)
                &&& types_as_on_domain ==> {
                    &&& s.lefts() == types@
                    &&& s.rights().len() == n
                    &&& forall|i: int| 0 <= i < n ==> s.rights()[#[trigger] pv[i] as int] == types@[i]
                    &&& s.left_flag() && !s.right_flag()
                }
                &&& !types_as_on_domain ==> {
                    &&& s.rights() == types@
                    &&& s.lefts().len() == n
                    &&& forall|i: int| 0 <= i < n ==> s.lefts()[#[trigger] pv[i] as int] == types@[i]
                    &&& !s.left_flag() && s.right_flag()
                }
            },
    {
        let n = perm_len(&p);
        let q = perm_inv(&p);
        let moved = perm_permute(&q, types);
        let middle = graph_of(&p, !types_as_on_domain);
        proof {
            let pv = perm_values(p);
            let qv = perm_values(q);
            assert forall|i: int| 0 <= i < n implies moved@[#[trigger] pv[i] as int] == types@[i] by {
                assert(qv[pv[i] as int] == i);
            }
        }
        if types_as_on_domain {
            Ok(Self { middle, left: copy_vec(types), right: moved, is_left_id: true, is_right_id: false })
        } else {
            Ok(Self { middle, left: moved, right: copy_vec(types), is_left_id: false, is_right_id: true })
        }
    }
}

impl<Lambda: Label> Clone for Span<Lambda> {
    fn clone(&self) -> (r: Self)
        ensures
            r.lefts() == self.lefts(),
            r.rights() == self.rights(),
            r.pairs() == self.pairs(),
            r.left_flag() == self.left_flag(),
            r.right_flag() == self.right_flag(),
    {
        proof {
            use_type_invariant(self);
        }
        Self {
            middle: copy_vec(self.middle.as_slice()),
            left: copy_vec(self.left.as_slice()),
            right: copy_vec(self.right.as_slice()),
            is_left_id: self.is_left_id,
            is_right_id: self.is_right_id,
        }
    }
}

/// The pairs of `o` that do not occur in `s`, in the order of `o`.
pub open spec fn pairs_not_in(o: Seq<(usize, usize)>, s: Seq<(usize, usize)>) -> Seq<(usize, usize)>
    decreases o.len(),
{
    if o.len() == 0 {
        Seq::empty()
    } else {
        pairs_not_in(o.drop_last(), s) + if s.contains(o.last()) {
            Seq::empty()
        } else {
            seq![o.last()]
        }
    }
}

/// Every pair `(x, y)` of `[0, n) × [0, m)` outside `s` links equal labels, so
/// the complement can be formed.
pub open spec fn complement_ok<L>(left: Seq<L>, right: Seq<L>, s: Seq<(usize, usize)>) -> bool {
    forall|x: int, y: int|
        0 <= x < left.len() && 0 <= y < right.len() && !s.contains((x as usize, y as usize))
            ==> #[trigger] left[x] == #[trigger] right[y]
}

/// Every diagonal pair `(i, i)` for `i < n` is in `s`.
pub open spec fn reflexive_pairs(s: Seq<(usize, usize)>, n: nat) -> bool {
    forall|i: int| 0 <= i < n ==> #[trigger] s.contains((i as usize, i as usize))
}

/// No diagonal pair `(i, i)` for `i < n` is in `s`.
pub open spec fn irreflexive_pairs(s: Seq<(usize, usize)>, n: nat) -> bool {
    forall|i: int| 0 <= i < n ==> !#[trigger] s.contains((i as usize, i as usize))
}

/// With each pair of `s`, its swap is in `s`.
pub open spec fn symmetric_pairs(s: Seq<(usize, usize)>) -> bool {
    forall|p: (usize, usize)| #[trigger] s.contains(p) ==> s.contains((p.1, p.0))
}

/// A pair of `s` whose swap is in `s` is diagonal.
pub open spec fn antisymmetric_pairs(s: Seq<(usize, usize)>) -> bool {
    forall|p: (usize, usize)| #[trigger] s.contains(p) && s.contains((p.1, p.0)) ==> p.0 == p.1
}

/// With `(a, b)` and `(b, c)` in `s`, `(a, c)` is in `s`.
pub open spec fn transitive_pairs(s: Seq<(usize, usize)>) -> bool {
    forall|p: (usize, usize), q: (usize, usize)|
        #[trigger] s.contains(p) && #[trigger] s.contains(q) && p.1 == q.0 ==> s.contains((p.0, q.1))
}

/// The pairs `(x, y)` with `y < m` that are not in `s`, in increasing `y`.
pub open spec fn complement_row(x: nat, m: nat, s: Seq<(usize, usize)>) -> Seq<(usize, usize)>
    decreases m,
{
    if m == 0 {
        Seq::empty()
    } else {
        complement_row(x, (m - 1) as nat, s) + if s.contains((x as usize, (m - 1) as usize)) {
            Seq::empty()
        } else {
            seq![(x as usize, (m - 1) as usize)]
        }
    }
}

/// The pairs of `[0, n) × [0, m)` that are not in `s`, in lexicographic order.
pub open spec fn complement_pairs(n: nat, m: nat, s: Seq<(usize, usize)>) -> Seq<(usize, usize)>
    decreases n,
{
    if n == 0 {
        Seq::empty()
    } else {
        complement_pairs((n - 1) as nat, m, s) + complement_row((n - 1) as nat, m, s)
    }
}

/// The diagonal pairs `(i, i)` for `i < n`.
pub open spec fn diagonal_pairs(n: nat) -> Seq<(usize, usize)> {
    Seq::new(n, |i: int| (i as usize, i as usize))
}

/// Decides whether a pair occurs in a slice of pairs.
pub fn contains_pair(v: &[(usize, usize)], p: (usize, usize)) -> (b: bool)
    ensures
        b == v@.contains(p),
{
    let mut k: usize = 0;
    while k < v.len()
        invariant
            k <= v@.len(),
            forall|j: int| 0 <= j < k ==> v@[j] != p,
        decreases v@.len() - k,
    {
        if v[k].0 == p.0 && v[k].1 == p.1 {
            return true;
        }
        k = k + 1;
    }
    false
}

pub proof fn lemma_pullback_row_contains(p: (usize, usize), g: Seq<(usize, usize)>, r: (usize, usize))
    ensures
        pullback_row(p, g).contains(r) <==> exists|j: int|
            0 <= j < g.len() && g[j].0 == p.1 && r == (p.0, #[trigger] g[j].1),
    decreases g.len(),
{
    if g.len() > 0 {
        lemma_pullback_row_contains(p, g.drop_last(), r);
        let tail = if g.last().0 == p.1 {
            seq![(p.0, g.last().1)]
        } else {
            Seq::<(usize, usize)>::empty()
        };
        let a = pullback_row(p, g.drop_last());
        if (a + tail).contains(r) {
            let k = choose|k: int| 0 <= k < (a + tail).len() && (a + tail)[k] == r;
            if k < a.len() {
                assert(a[k] == r);
                let j = choose|j: int|
                    0 <= j < g.drop_last().len() && g.drop_last()[j].0 == p.1 && r == (p.0, #[trigger] g.drop_last()[j].1);
                assert(g[j] == g.drop_last()[j]);
            } else {
                assert(g[g.len() - 1].1 == r.1);
            }
        }
        if exists|j: int| 0 <= j < g.len() && g[j].0 == p.1 && r == (p.0, #[trigger] g[j].1) {
            let j = choose|j: int| 0 <= j < g.len() && g[j].0 == p.1 && r == (p.0, #[trigger] g[j].1);
            if j < g.len() - 1 {
                assert(g.drop_last()[j] == g[j]);
                assert(a.contains(r));
                let k = choose|k: int| 0 <= k < a.len() && a[k] == r;
                assert((a + tail)[k] == r);
            } else {
                assert((a + tail)[a.len() as int] == r);
            }
        }
    }
}

/// The pullback contains `(a, c)` exactly when some pair of `f` ends where some
/// pair of `g` starts, the first starting at `a` and the second ending at `c`.
pub proof fn lemma_pullback_contains(f: Seq<(usize, usize)>, g: Seq<(usize, usize)>, r: (usize, usize))
    ensures
        pullback_pairs(f, g).contains(r) <==> exists|i: int, j: int|
            0 <= i < f.len() && 0 <= j < g.len() && #[trigger] f[i].1 == #[trigger] g[j].0 && r == (
                f[i].0,
                g[j].1,
            ),
    decreases f.len(),
{
    if f.len() > 0 {
        lemma_pullback_contains(f.drop_last(), g, r);
        lemma_pullback_row_contains(f.last(), g, r);
        let a = pullback_pairs(f.drop_last(), g);
        let b = pullback_row(f.last(), g);
        if (a + b).contains(r) {
            let k = choose|k: int| 0 <= k < (a + b).len() && (a + b)[k] == r;
            if k < a.len() {
                assert(a[k] == r);
                let (i, j) = choose|i: int, j: int|
                    0 <= i < f.drop_last().len() && 0 <= j < g.len() && #[trigger] f.drop_last()[i].1
                        == #[trigger] g[j].0 && r == (f.drop_last()[i].0, g[j].1);
                assert(f[i] == f.drop_last()[i]);
            } else {
                assert(b[k - a.len()] == r);
                assert(b.contains(r));
                let j = choose|j: int| 0 <= j < g.len() && g[j].0 == f.last().1 && r == (f.last().0, #[trigger] g[j].1);
                assert(f[f.len() - 1].1 == g[j].0);
            }
        }
        if exists|i: int, j: int|
            0 <= i < f.len() && 0 <= j < g.len() && #[trigger] f[i].1 == #[trigger] g[j].0 && r == (f[i].0, g[j].1) {
            let (i, j) = choose|i: int, j: int|
                0 <= i < f.len() && 0 <= j < g.len() && #[trigger] f[i].1 == #[trigger] g[j].0 && r == (f[i].0, g[j].1);
            if i < f.len() - 1 {
                assert(f.drop_last()[i] == f[i]);
                assert(a.contains(r));
                let k = choose|k: int| 0 <= k < a.len() && a[k] == r;
                assert((a + b)[k] == r);
            } else {
                assert(g[j].0 == f.last().1);
                assert(b.contains(r));
                let k = choose|k: int| 0 <= k < b.len() && b[k] == r;
                assert((a + b)[a.len() + k] == r);
            }
        }
    }
}

/// The row `x` of the complement holds exactly the pairs `(x, y)`, `y < m`, outside `s`.
pub proof fn lemma_complement_row_contains(x: nat, m: nat, s: Seq<(usize, usize)>, p: (usize, usize))
    requires
        x <= usize::MAX,
        m <= usize::MAX + 1,
    ensures
        complement_row(x, m, s).contains(p) <==> (p.0 == x && p.1 < m && !s.contains(p)),
    decreases m,
{
    if m > 0 {
        let m1 = (m - 1) as nat;
        lemma_complement_row_contains(x, m1, s, p);
        let a = complement_row(x, m1, s);
        let q = (x as usize, m1 as usize);
        let t = if s.contains(q) {
            Seq::<(usize, usize)>::empty()
        } else {
            seq![q]
        };
        assert(complement_row(x, m, s) == a + t);
        if (a + t).contains(p) {
            let k = choose|k: int| 0 <= k < (a + t).len() && #[trigger] (a + t)[k] == p;
            if k < a.len() {
                assert(a[k] == p);
            } else {
                assert(t[k - a.len()] == p);
            }
        }
        if p.0 == x && p.1 < m && !s.contains(p) {
            if p.1 < m1 {
                let k = choose|k: int| 0 <= k < a.len() && #[trigger] a[k] == p;
                assert((a + t)[k] == p);
            } else {
                assert(p == q);
                assert((a + t)[a.len() as int] == p);
            }
        }
    }
}

/// The complement holds exactly the pairs of `[0, n) × [0, m)` outside `s`.
pub proof fn lemma_complement_contains(n: nat, m: nat, s: Seq<(usize, usize)>, p: (usize, usize))
    requires
        n <= usize::MAX + 1,
        m <= usize::MAX + 1,
    ensures
        complement_pairs(n, m, s).contains(p) <==> (p.0 < n && p.1 < m && !s.contains(p)),
    decreases n,
{
    if n > 0 {
        let n1 = (n - 1) as nat;
        lemma_complement_contains(n1, m, s, p);
        lemma_complement_row_contains(n1, m, s, p);
        let a = complement_pairs(n1, m, s);
        let t = complement_row(n1, m, s);
        if (a + t).contains(p) {
            let k = choose|k: int| 0 <= k < (a + t).len() && #[trigger] (a + t)[k] == p;
            if k < a.len() {
                assert(a[k] == p);
            } else {
                assert(t[k - a.len()] == p);
            }
        }
        if p.0 < n && p.1 < m && !s.contains(p) {
            if p.0 < n1 {
                let k = choose|k: int| 0 <= k < a.len() && #[trigger] a[k] == p;
                assert((a + t)[k] == p);
            } else {
                let k = choose|k: int| 0 <= k < t.len() && #[trigger] t[k] == p;
                assert((a + t)[a.len() + k] == p);
            }
        }
    }
}

/// The diagonal holds exactly the pairs `(i, i)` with `i < n`.
pub proof fn lemma_diagonal_contains(n: nat, p: (usize, usize))
    ensures
        diagonal_pairs(n).contains(p) <==> (p.0 == p.1 && p.0 < n),
{
    if p.0 == p.1 && p.0 < n {
        assert(diagonal_pairs(n)[p.0 as int] == p);
    }
}

/// The swapped pairs hold `p` exactly when `s` holds the swap of `p`.
pub proof fn lemma_swap_contains(s: Seq<(usize, usize)>, p: (usize, usize))
    ensures
        swap_pairs(s).contains(p) <==> s.contains((p.1, p.0)),
{
    if swap_pairs(s).contains(p) {
        let k = choose|k: int| 0 <= k < swap_pairs(s).len() && #[trigger] swap_pairs(s)[k] == p;
        assert(s[k] == (p.1, p.0));
    }
    if s.contains((p.1, p.0)) {
        let k = choose|k: int| 0 <= k < s.len() && #[trigger] s[k] == (p.1, p.0);
        assert(swap_pairs(s)[k] == p);
    }
}

/// Complementing twice within `[0, n) × [0, m)` gives back the pairs of a
/// relation whose pairs lie in that box.
pub proof fn law_complement_involution(n: nat, m: nat, s: Seq<(usize, usize)>)
    requires
        n <= usize::MAX,
        m <= usize::MAX,
        forall|k: int| 0 <= k < s.len() ==> (#[trigger] s[k]).0 < n && s[k].1 < m,
    ensures
        forall|p: (usize, usize)|
            #[trigger] complement_pairs(n, m, complement_pairs(n, m, s)).contains(p) <==> s.contains(p),
{
    assert forall|p: (usize, usize)|
        #[trigger] complement_pairs(n, m, complement_pairs(n, m, s)).contains(p) <==> s.contains(p) by {
        lemma_complement_contains(n, m, complement_pairs(n, m, s), p);
        lemma_complement_contains(n, m, s, p);
        if s.contains(p) {
            let k = choose|k: int| 0 <= k < s.len() && #[trigger] s[k] == p;
        }
    }
}

/// The dagger is an involution: swapping the legs twice gives back the
/// boundaries and the pairs of the span, in order.
pub proof fn law_span_dagger_involution<L>(left: Seq<L>, right: Seq<L>, pairs: Seq<(usize, usize)>)
    ensures
        swap_pairs(swap_pairs(pairs)) == pairs,
        pairs_valid(left, right, pairs) ==> pairs_valid(right, left, swap_pairs(pairs)),
{
    assert(swap_pairs(swap_pairs(pairs)) =~= pairs);
}

/// A row over a concatenation is the concatenation of the rows.
pub proof fn lemma_row_concat(p: (usize, usize), a: Seq<(usize, usize)>, b: Seq<(usize, usize)>)
    ensures
        pullback_row(p, a + b) == pullback_row(p, a) + pullback_row(p, b),
    decreases b.len(),
{
    if b.len() == 0 {
        assert(a + b =~= a);
        assert(pullback_row(p, a) + pullback_row(p, b) =~= pullback_row(p, a));
    } else {
        lemma_row_concat(p, a, b.drop_last());
        assert((a + b).drop_last() =~= a + b.drop_last());
        assert((a + b).last() == b.last());
        let t = if b.last().0 == p.1 {
            seq![(p.0, b.last().1)]
        } else {
            Seq::<(usize, usize)>::empty()
        };
        assert(pullback_row(p, a) + pullback_row(p, b.drop_last()) + t =~= pullback_row(p, a) + (
        pullback_row(p, b.drop_last()) + t));
    }
}

/// The pullback of a concatenation on the left is the concatenation of the pullbacks.
pub proof fn lemma_pullback_concat(a: Seq<(usize, usize)>, b: Seq<(usize, usize)>, h: Seq<(usize, usize)>)
    ensures
        pullback_pairs(a + b, h) == pullback_pairs(a, h) + pullback_pairs(b, h),
    decreases b.len(),
{
    if b.len() == 0 {
        assert(a + b =~= a);
        assert(pullback_pairs(a, h) + pullback_pairs(b, h) =~= pullback_pairs(a, h));
    } else {
        lemma_pullback_concat(a, b.drop_last(), h);
        assert((a + b).drop_last() =~= a + b.drop_last());
        assert((a + b).last() == b.last());
        assert(pullback_pairs(a, h) + pullback_pairs(b.drop_last(), h) + pullback_row(b.last(), h)
            =~= pullback_pairs(a, h) + (pullback_pairs(b.drop_last(), h) + pullback_row(b.last(), h)));
    }
}

/// Following a row by another row: the pairs of `row(y, h)` that start at
/// `x.1` are all of them when `y.0 == x.1`, and none otherwise.
pub proof fn lemma_row_of_row(x: (usize, usize), y: (usize, usize), h: Seq<(usize, usize)>)
    ensures
        pullback_row(x, pullback_row(y, h)) == if y.0 == x.1 {
            pullback_row((x.0, y.1), h)
        } else {
            Seq::empty()
        },
    decreases h.len(),
{
    if h.len() > 0 {
        lemma_row_of_row(x, y, h.drop_last());
        let a = pullback_row(y, h.drop_last());
        let t = if h.last().0 == y.1 {
            seq![(y.0, h.last().1)]
        } else {
            Seq::<(usize, usize)>::empty()
        };
        lemma_row_concat(x, a, t);
        if h.last().0 == y.1 {
            assert(pullback_row(x, t) =~= pullback_row(x, t.drop_last()) + if t.last().0 == x.1 {
                seq![(x.0, t.last().1)]
            } else {
                Seq::empty()
            });
            assert(t.drop_last() =~= Seq::<(usize, usize)>::empty());
        } else {
            assert(pullback_row(x, t) =~= Seq::<(usize, usize)>::empty());
        }
        if y.0 != x.1 {
            assert(Seq::<(usize, usize)>::empty() + pullback_row(x, t) =~= Seq::<(usize, usize)>::empty());
        }
    }
}

/// Composing a row with a span: the pullback of `row(x, g)` with `h` is the
/// row of `x` in the pullback of `g` with `h`.
pub proof fn lemma_pullback_of_row(x: (usize, usize), g: Seq<(usize, usize)>, h: Seq<(usize, usize)>)
    ensures
        pullback_pairs(pullback_row(x, g), h) == pullback_row(x, pullback_pairs(g, h)),
    decreases g.len(),
{
    if g.len() > 0 {
        let y = g.last();
        lemma_pullback_of_row(x, g.drop_last(), h);
        let a = pullback_row(x, g.drop_last());
        let t = if y.0 == x.1 {
            seq![(x.0, y.1)]
        } else {
            Seq::<(usize, usize)>::empty()
        };
        lemma_pullback_concat(a, t, h);
        lemma_row_concat(x, pullback_pairs(g.drop_last(), h), pullback_row(y, h));
        lemma_row_of_row(x, y, h);
        if y.0 == x.1 {
            assert(t.drop_last() =~= Seq::<(usize, usize)>::empty());
            assert(t.last() == (x.0, y.1));
            assert(pullback_pairs(t.drop_last(), h) == Seq::<(usize, usize)>::empty());
            assert(Seq::<(usize, usize)>::empty() + pullback_row((x.0, y.1), h) =~= pullback_row((x.0, y.1), h));
            assert(pullback_pairs(t, h) =~= pullback_row((x.0, y.1), h));
        } else {
            assert(pullback_pairs(t, h) =~= Seq::<(usize, usize)>::empty());
        }
    }
}

/// Composition of spans is associative: the apex pairs of `(f ; g) ; h` and
/// of `f ; (g ; h)` are the same sequence.
pub proof fn law_span_compose_assoc(f: Seq<(usize, usize)>, g: Seq<(usize, usize)>, h: Seq<(usize, usize)>)
    ensures
        pullback_pairs(pullback_pairs(f, g), h) == pullback_pairs(f, pullback_pairs(g, h)),
    decreases f.len(),
{
    if f.len() > 0 {
        law_span_compose_assoc(f.drop_last(), g, h);
        lemma_pullback_concat(pullback_pairs(f.drop_last(), g), pullback_row(f.last(), g), h);
        lemma_pullback_of_row(f.last(), g, h);
    }
}

/// Composing with the identity on the right leaves the apex pairs unchanged.
pub proof fn law_span_compose_identity_right(f: Seq<(usize, usize)>, m: nat)
    requires
        m <= usize::MAX + 1,
        forall|k: int| 0 <= k < f.len() ==> (#[trigger] f[k]).1 < m,
    ensures
        pullback_pairs(f, diagonal_pairs(m)) == f,
    decreases f.len(),
{
    if f.len() > 0 {
        law_span_compose_identity_right(f.drop_last(), m);
        let p = f.last();
        assert(p.1 < m);
        lemma_row_diagonal(p, m);
        assert(f.drop_last() + seq![p] =~= f);
    }
}

/// The row of `p` in the diagonal of size `m > p.1` is `[p]`.
pub proof fn lemma_row_diagonal(p: (usize, usize), m: nat)
    requires
        m <= usize::MAX + 1,
        p.1 < m,
    ensures
        pullback_row(p, diagonal_pairs(m)) == seq![p],
{
    lemma_row_diagonal_prefix(p, m, m);
    assert(diagonal_pairs(m).subrange(0, m as int) =~= diagonal_pairs(m));
}

proof fn lemma_row_diagonal_prefix(p: (usize, usize), m: nat, k: nat)
    requires
        m <= usize::MAX + 1,
        p.1 < m,
        k <= m,
    ensures
        pullback_row(p, diagonal_pairs(m).subrange(0, k as int)) == if p.1 < k {
            seq![p]
        } else {
            Seq::empty()
        },
    decreases k,
{
    if k > 0 {
        lemma_row_diagonal_prefix(p, m, (k - 1) as nat);
        let d = diagonal_pairs(m);
        assert(d.subrange(0, k as int).drop_last() =~= d.subrange(0, k - 1));
        assert(d.subrange(0, k as int).last() == ((k - 1) as usize, (k - 1) as usize));
        if p.1 < k - 1 {
            assert(seq![p] + Seq::<(usize, usize)>::empty() =~= seq![p]);
        } else if p.1 == k - 1 {
            assert(Seq::<(usize, usize)>::empty() + seq![(p.0, (k - 1) as usize)] =~= seq![p]);
        }
    } else {
        assert(diagonal_pairs(m).subrange(0, 0) =~= Seq::<(usize, usize)>::empty());
    }
}

/// Composing with the identity on the left keeps the same apex pairs (the
/// pullback lists them grouped by domain element).
pub proof fn law_span_compose_identity_left(g: Seq<(usize, usize)>, n: nat, r: (usize, usize))
    requires
        forall|k: int| 0 <= k < g.len() ==> (#[trigger] g[k]).0 < n,
    ensures
        pullback_pairs(diagonal_pairs(n), g).contains(r) <==> g.contains(r),
{
    lemma_pullback_contains(diagonal_pairs(n), g, r);
    let d = diagonal_pairs(n);
    if g.contains(r) {
        let j = choose|j: int| 0 <= j < g.len() && #[trigger] g[j] == r;
        let i = g[j].0 as int;
        assert(d[i].1 == g[j].0);
    }
    if exists|i: int, j: int| 0 <= i < d.len() && 0 <= j < g.len() && #[trigger] d[i].1 == #[trigger] g[j].0 && r == (
        d[i].0,
        g[j].1,
    ) {
        let (i, j) = choose|i: int, j: int|
            0 <= i < d.len() && 0 <= j < g.len() && #[trigger] d[i].1 == #[trigger] g[j].0 && r == (d[i].0, g[j].1);
        assert(g[j] == r);
    }
}

/// The number of times `x` occurs in `s`.
pub open spec fn occurrences<T>(s: Seq<T>, x: T) -> nat
    decreases s.len(),
{
    if s.len() == 0 {
        0
    } else {
        occurrences(s.drop_last(), x) + if s.last() == x {
            1nat
        } else {
            0nat
        }
    }
}

/// Occurrences add up over a concatenation.
pub proof fn lemma_occurrences_concat<T>(a: Seq<T>, b: Seq<T>, x: T)
    ensures
        occurrences(a + b, x) == occurrences(a, x) + occurrences(b, x),
    decreases b.len(),
{
    if b.len() == 0 {
        assert(a + b =~= a);
    } else {
        lemma_occurrences_concat(a, b.drop_last(), x);
        assert((a + b).drop_last() =~= a + b.drop_last());
    }
}

/// A pair whose first component is not below `n` does not occur among pairs
/// whose first components all are.
proof fn lemma_occurrences_out_of_range(g: Seq<(usize, usize)>, n: nat, r: (usize, usize))
    requires
        forall|k: int| 0 <= k < g.len() ==> (#[trigger] g[k]).0 < n,
        r.0 >= n,
    ensures
        occurrences(g, r) == 0,
    decreases g.len(),
{
    if g.len() > 0 {
        assert(g.last() == g[g.len() - 1]);
        lemma_occurrences_out_of_range(g.drop_last(), n, r);
    }
}

/// The row of the diagonal pair `(i, i)` holds the pairs of `g` that start
/// at `i`, each as often as in `g`.
proof fn lemma_row_diagonal_counts(i: usize, g: Seq<(usize, usize)>, r: (usize, usize))
    ensures
        occurrences(pullback_row((i, i), g), r) == if r.0 == i {
            occurrences(g, r)
        } else {
            0
        },
    decreases g.len(),
{
    if g.len() > 0 {
        lemma_row_diagonal_counts(i, g.drop_last(), r);
        let extra = if g.last().0 == i {
            seq![(i, g.last().1)]
        } else {
            Seq::<(usize, usize)>::empty()
        };
        assert(pullback_row((i, i), g) == pullback_row((i, i), g.drop_last()) + extra);
        lemma_occurrences_concat(pullback_row((i, i), g.drop_last()), extra, r);
        if g.last().0 == i {
            assert(seq![(i, g.last().1)].drop_last() =~= Seq::<(usize, usize)>::empty());
            assert((i, g.last().1) == g.last());
            assert(extra.drop_last() =~= Seq::<(usize, usize)>::empty());
            assert(occurrences(extra.drop_last(), r) == 0);
            assert(extra.last() == g.last());
            assert(occurrences(extra, r) == if g.last() == r { 1nat } else { 0nat });
        } else {
            assert(occurrences(extra, r) == 0);
            assert(g.last() == r ==> r.0 != i);
        }
    }
}

/// The composite with the identity on the first `k` domain elements holds
/// the pairs of `g` that start below `k`, each as often as in `g`.
proof fn lemma_diagonal_prefix_counts(k: nat, g: Seq<(usize, usize)>, r: (usize, usize))
    requires
        k <= usize::MAX + 1,
    ensures
        occurrences(pullback_pairs(diagonal_pairs(k), g), r) == if r.0 < k {
            occurrences(g, r)
        } else {
            0
        },
    decreases k,
{
    if k > 0 {
        let d = diagonal_pairs(k);
        assert(d.drop_last() =~= diagonal_pairs((k - 1) as nat));
        assert(d.last() == ((k - 1) as usize, (k - 1) as usize));
        lemma_diagonal_prefix_counts((k - 1) as nat, g, r);
        lemma_row_diagonal_counts((k - 1) as usize, g, r);
        lemma_occurrences_concat(pullback_pairs(d.drop_last(), g), pullback_row(d.last(), g), r);
    }
}

/// Composing with the identity on the left keeps the apex pairs, each as
/// many times as before: the composite lists the same multiset of pairs.
pub proof fn law_span_compose_identity_left_counts(g: Seq<(usize, usize)>, n: nat, r: (usize, usize))
    requires
        n <= usize::MAX + 1,
        forall|k: int| 0 <= k < g.len() ==> (#[trigger] g[k]).0 < n,
    ensures
        occurrences(pullback_pairs(diagonal_pairs(n), g), r) == occurrences(g, r),
{
    lemma_diagonal_prefix_counts(n, g, r);
    if r.0 >= n {
        lemma_occurrences_out_of_range(g, n, r);
    }
}

/// A prefix one longer contains `p` exactly when the shorter one does or the
/// added element is `p`.
pub proof fn lemma_prefix_contains<T>(s: Seq<T>, k: int, p: T)
    requires
        0 <= k < s.len(),
    ensures
        s.subrange(0, k + 1).contains(p) <==> (s.subrange(0, k).contains(p) || s[k] == p),
{
    if s.subrange(0, k).contains(p) {
        let j = choose|j: int| 0 <= j < k && #[trigger] s.subrange(0, k)[j] == p;
        assert(s.subrange(0, k + 1)[j] == p);
    }
    if s.subrange(0, k + 1).contains(p) {
        let j = choose|j: int| 0 <= j < k + 1 && #[trigger] s.subrange(0, k + 1)[j] == p;
        if j < k {
            assert(s.subrange(0, k)[j] == p);
        }
    }
    if s[k] == p {
        assert(s.subrange(0, k + 1)[k] == p);
    }
}

/// A relation: a span whose apex pairs are meant to be distinct, i.e. a subset of
/// domain × codomain.
pub struct Rel<Lambda: Label>(Span<Lambda>);

impl<Lambda: Label> Rel<Lambda> {
    /// The underlying span.
    pub closed spec fn span(&self) -> Span<Lambda> {
        self.0
    }

    /// The underlying span.
    pub fn as_span(&self) -> (r: &Span<Lambda>)
        ensures
            *r == self.span(),
    {
        &self.0
    }

    /// The relation of a span; fails when some pair occurs twice.
    pub fn new(x: Span<Lambda>) -> (r: Result<Self, CatgraphError>)
        ensures
            r is Ok <==> no_duplicates(x.pairs()),
            r matches Ok(rel) ==> rel.span() == x,
            r is Err ==> r->Err_0 is Relation,
    {
        if !x.is_jointly_injective() {
            return Err(CatgraphError::Relation {
                message: String::from_str("span is not jointly injective, cannot form a relation"),
            });
        }
        Ok(Self(x))
    }

    /// The relation of a span, without checking that its pairs are distinct.
    pub fn new_unchecked(x: Span<Lambda>) -> (r: Self)
        ensures
            r.span() == x,
    {
        Self(x)
    }

    fn dims_equal(&self, other: &Self) -> (b: bool)
        ensures
            b == (self.span().lefts() == other.span().lefts() && self.span().rights()
                == other.span().rights()),
    {
        labels_equal(self.0.left(), other.0.left()) && labels_equal(self.0.right(), other.0.right())
    }

    /// True when every pair of `other` is a pair of `self`; fails when the
    /// domains or codomains differ.
    pub fn subsumes(&self, other: &Rel<Lambda>) -> (r: Result<bool, CatgraphError>)
        ensures
            r is Ok <==> (self.span().lefts() == other.span().lefts() && self.span().rights()
                == other.span().rights()),
            r matches Ok(b) ==> b == forall|p: (usize, usize)|
                #[trigger] other.span().pairs().contains(p) ==> self.span().pairs().contains(p),
            r is Err ==> r->Err_0 is Relation,
    {
        if !self.dims_equal(other) {
            return Err(CatgraphError::Relation {
                message: String::from_str("domain/codomain mismatch"),
            });
        }
        let sp = self.0.middle_pairs();
        let op = other.0.middle_pairs();
        let mut k: usize = 0;
        while k < op.len()
            invariant
                k <= op@.len(),
                sp@ == self.span().pairs(),
                op@ == other.span().pairs(),
                forall|j: int| 0 <= j < k ==> sp@.contains(#[trigger] op@[j]),
                self.span().lefts() == other.span().lefts(),
                self.span().rights() == other.span().rights(),
            decreases op@.len() - k,
        {
            if !contains_pair(sp, op[k]) {
                assert(op@.contains(op@[k as int]));
                return Ok(false);
            }
            k = k + 1;
        }
        proof {
            assert forall|p: (usize, usize)| #[trigger] op@.contains(p) implies sp@.contains(p) by {
                let j = choose|j: int| 0 <= j < op@.len() && op@[j] == p;
                assert(sp@.contains(op@[j]));
            }
        }
        Ok(true)
    }

    /// Union: the pairs of `self` followed by the pairs of `other` not already in
    /// `self`; fails when the domains or codomains differ.
    pub fn union(&self, other: &Self) -> (r: Result<Self, CatgraphError>)
        ensures
            r is Ok <==> (self.span().lefts() == other.span().lefts() && self.span().rights()
                == other.span().rights()),
            r matches Ok(u) ==> u.span().lefts() == self.span().lefts() && u.span().rights()
                == self.span().rights() && u.span().pairs() == self.span().pairs() + pairs_not_in(
                other.span().pairs(),
                self.span().pairs(),
            ),
            r is Err ==> r->Err_0 is Relation,
    {
        if !self.dims_equal(other) {
            return Err(CatgraphError::Relation {
                message: String::from_str("domain/codomain mismatch"),
            });
        }
        let sp = self.0.middle_pairs();
        let op = other.0.middle_pairs();
        let mut ret_val = self.0.clone();
        let mut k: usize = 0;
        while k < op.len()
            invariant
                k <= op@.len(),
                sp@ == self.span().pairs(),
                op@ == other.span().pairs(),
                pairs_valid(other.span().lefts(), other.span().rights(), op@),
                other.span().lefts() == self.span().lefts(),
                other.span().rights() == self.span().rights(),
                ret_val.lefts() == self.span().lefts(),
                ret_val.rights() == self.span().rights(),
                ret_val.pairs() == sp@ + pairs_not_in(op@.subrange(0, k as int), sp@),
            decreases op@.len() - k,
        {
            let (x, y) = op[k];
            proof {
                assert(op@.subrange(0, k + 1).drop_last() =~= op@.subrange(0, k as int));
            }
            if !contains_pair(sp, (x, y)) {
                let added = ret_val.add_middle((x, y));
                assert(added is Ok);
            }
            k = k + 1;
        }
        assert(op@.subrange(0, k as int) =~= op@);
        Ok(Self(ret_val))
    }

    /// Intersection: the distinct pairs common to both; fails when the domains
    /// or codomains differ.
    pub fn intersection(&self, other: &Self) -> (r: Result<Self, CatgraphError>)
        ensures
            r is Ok <==> (self.span().lefts() == other.span().lefts() && self.span().rights()
                == other.span().rights()),
            r matches Ok(u) ==> {
                &&& u.span().lefts() == self.span().lefts()
                &&& u.span().rights() == self.span().rights()
                &&& no_duplicates(u.span().pairs())
                &&& forall|p: (usize, usize)|
                    #[trigger] u.span().pairs().contains(p) <==> self.span().pairs().contains(p)
                        && other.span().pairs().contains(p)
            },
            r is Err ==> r->Err_0 is Relation,
    {
        if !self.dims_equal(other) {
            return Err(CatgraphError::Relation {
                message: String::from_str("domain/codomain mismatch"),
            });
        }
        let sp = self.0.middle_pairs();
        let op = other.0.middle_pairs();
        let mut ret_val = Span::new(self.0.domain(), self.0.codomain(), Vec::new());
        let mut k: usize = 0;
        while k < sp.len()
            invariant
                k <= sp@.len(),
                sp@ == self.span().pairs(),
                op@ == other.span().pairs(),
                pairs_valid(self.span().lefts(), self.span().rights(), sp@),
                ret_val.lefts() == self.span().lefts(),
                ret_val.rights() == self.span().rights(),
                no_duplicates(ret_val.pairs()),
                forall|p: (usize, usize)|
                    #[trigger] ret_val.pairs().contains(p) <==> (sp@.subrange(0, k as int).contains(p)
                        && op@.contains(p)),
            decreases sp@.len() - k,
        {
            let (x, y) = sp[k];
            let ghost before = ret_val.pairs();
            if contains_pair(op, (x, y)) && !contains_pair(ret_val.middle_pairs(), (x, y)) {
                let added = ret_val.add_middle((x, y));
                assert(added is Ok);
                proof {
                    assert forall|a: int, c: int| 0 <= a < c < ret_val.pairs().len() implies ret_val.pairs()[a]
                        != ret_val.pairs()[c] by {
                        if c == before.len() {
                            assert(!before.contains((x, y)));
                            assert(before[a] == ret_val.pairs()[a]);
                        }
                    }
                }
            }
            proof {
                assert forall|p: (usize, usize)|
                    #[trigger] ret_val.pairs().contains(p) <==> (sp@.subrange(0, k + 1).contains(p)
                        && op@.contains(p)) by {
                    lemma_prefix_contains(sp@, k as int, p);
                    if ret_val.pairs().contains(p) && !before.contains(p) {
                        assert(ret_val.pairs()[before.len() as int] == p);
                    }
                    if before.contains(p) {
                        let j = choose|j: int| 0 <= j < before.len() && before[j] == p;
                        assert(ret_val.pairs()[j] == p);
                    }
                    if p == (x, y) && op@.contains(p) && !before.contains(p) {
                        assert(ret_val.pairs()[before.len() as int] == p);
                    }
                }
            }
            k = k + 1;
        }
        assert(sp@.subrange(0, k as int) =~= sp@);
        Ok(Self(ret_val))
    }

    /// True when the domain and codomain labels are the same.
    pub fn is_homogeneous(&self) -> (b: bool)
        ensures
            b == (self.span().lefts() == self.span().rights()),
    {
        labels_equal(self.0.left(), self.0.right())
    }

    /// Complement: the pairs of domain × codomain not in `self`, in
    /// lexicographic order; fails at the first such pair whose labels differ.
    pub fn complement(&self) -> (r: Result<Self, CatgraphError>)
        ensures
            r is Ok <==> complement_ok(self.span().lefts(), self.span().rights(), self.span().pairs()),
            r matches Ok(c) ==> {
                &&& c.span().lefts() == self.span().lefts()
                &&& c.span().rights() == self.span().rights()
                &&& c.span().pairs() == complement_pairs(
                    self.span().lefts().len(),
                    self.span().rights().len(),
                    self.span().pairs(),
                )
                &&& c.span().left_flag() == (c.span().pairs().len() == 0)
                &&& c.span().right_flag() == (c.span().pairs().len() == 0)
            },
            r is Err ==> r->Err_0 is Composition,
    {
        let n = self.0.left().len();
        let m = self.0.right().len();
        let sp = self.0.middle_pairs();
        let ghost lv = self.span().lefts();
        let ghost rv = self.span().rights();
        let mut ret_val = Span::new(self.0.domain(), self.0.codomain(), Vec::new());
        let mut x: usize = 0;
        while x < n
            invariant
                n == lv.len(),
                m == rv.len(),
                x <= n,
                sp@ == self.span().pairs(),
                lv == self.span().lefts(),
                rv == self.span().rights(),
                ret_val.lefts() == lv,
                ret_val.rights() == rv,
                ret_val.pairs() == complement_pairs(x as nat, m as nat, sp@),
                ret_val.left_flag() == (ret_val.pairs().len() == 0),
                ret_val.right_flag() == (ret_val.pairs().len() == 0),
                forall|a: int, b: int|
                    0 <= a < x && 0 <= b < m && !sp@.contains((a as usize, b as usize)) ==> #[trigger] lv[a]
                        == #[trigger] rv[b],
            decreases n - x,
        {
            let mut y: usize = 0;
            while y < m
                invariant
                    n == lv.len(),
                    m == rv.len(),
                    x < n,
                    y <= m,
                    sp@ == self.span().pairs(),
                    lv == self.span().lefts(),
                    rv == self.span().rights(),
                    ret_val.lefts() == lv,
                    ret_val.rights() == rv,
                    ret_val.pairs() == complement_pairs(x as nat, m as nat, sp@) + complement_row(
                        x as nat,
                        y as nat,
                        sp@,
                    ),
                    ret_val.left_flag() == (ret_val.pairs().len() == 0),
                    ret_val.right_flag() == (ret_val.pairs().len() == 0),
                    forall|a: int, b: int|
                        0 <= a < x && 0 <= b < m && !sp@.contains((a as usize, b as usize)) ==> #[trigger] lv[a]
                            == #[trigger] rv[b],
                    forall|b: int|
                        0 <= b < y && !sp@.contains((x as usize, b as usize)) ==> lv[x as int]
                            == #[trigger] rv[b],
                decreases m - y,
            {
                let ghost before = ret_val.pairs();
                assert(complement_row(x as nat, (y + 1) as nat, sp@) == complement_row(x as nat, y as nat, sp@)
                    + if sp@.contains((x, y)) {
                    Seq::<(usize, usize)>::empty()
                } else {
                    seq![(x, y)]
                });
                if !contains_pair(sp, (x, y)) {
                    match ret_val.add_middle((x, y)) {
                        Ok(_) => {},
                        Err(e) => {
                            assert(!(lv[x as int] == rv[y as int]));
                            return Err(e);
                        },
                    }
                    assert(ret_val.pairs() =~= before + seq![(x, y)]);
                } else {
                    assert(before + Seq::<(usize, usize)>::empty() =~= before);
                }
                y = y + 1;
            }
            assert(complement_pairs((x + 1) as nat, m as nat, sp@) == complement_pairs(x as nat, m as nat, sp@)
                + complement_row(x as nat, m as nat, sp@));
            x = x + 1;
        }
        Ok(Self(ret_val))
    }

    /// True when every diagonal pair `(i, i)` of the domain is in the relation.
    pub fn is_reflexive(&self) -> (b: bool)
        requires
            self.span().lefts() == self.span().rights(),
        ensures
            b == reflexive_pairs(self.span().pairs(), self.span().lefts().len()),
    {
        let d = self.0.domain();
        let identity_rel = Self::new_unchecked(Span::<Lambda>::identity(&d));
        let r = self.subsumes(&identity_rel);
        let ghost n = self.span().lefts().len();
        let ghost s = self.span().pairs();
        proof {
            assert(identity_rel.span().pairs() =~= diagonal_pairs(n));
            if forall|p: (usize, usize)| #[trigger] diagonal_pairs(n).contains(p) ==> s.contains(p) {
                assert forall|i: int| 0 <= i < n implies #[trigger] s.contains((i as usize, i as usize)) by {
                    lemma_diagonal_contains(n, (i as usize, i as usize));
                }
            }
            if reflexive_pairs(s, n) {
                assert forall|p: (usize, usize)| #[trigger] diagonal_pairs(n).contains(p) implies s.contains(p) by {
                    lemma_diagonal_contains(n, p);
                    assert(s.contains((p.0 as int as usize, p.0 as int as usize)));
                }
            }
        }
        r.unwrap()
    }

    /// True when no diagonal pair is in the relation and the complement can
    /// be formed; false when the complement cannot be formed.
    pub fn is_irreflexive(&self) -> (b: bool)
        requires
            complement_ok(self.span().lefts(), self.span().rights(), self.span().pairs()) ==> self.span().lefts()
                == self.span().rights(),
        ensures
            b == (complement_ok(self.span().lefts(), self.span().rights(), self.span().pairs())
                && irreflexive_pairs(self.span().pairs(), self.span().lefts().len())),
    {
        match self.complement() {
            Ok(c) => {
                let b = c.is_reflexive();
                let len = self.0.left().len();
                let ghost n = self.span().lefts().len();
                assert(n == len);
                let ghost s = self.span().pairs();
                proof {
                    assert forall|i: int| 0 <= i < n implies (#[trigger] c.span().pairs().contains(
                        (i as usize, i as usize),
                    ) <==> !s.contains((i as usize, i as usize))) by {
                        lemma_complement_contains(n, n, s, (i as usize, i as usize));
                    }
                    assert(c.span().pairs() == complement_pairs(n, n, s));
                    if irreflexive_pairs(s, n) {
                        assert forall|i: int| 0 <= i < n implies #[trigger] c.span().pairs().contains(
                            (i as usize, i as usize),
                        ) by {
                            assert(!s.contains((i as usize, i as usize)));
                        }
                    }
                    if reflexive_pairs(c.span().pairs(), n) {
                        assert forall|i: int| 0 <= i < n implies !#[trigger] s.contains((i as usize, i as usize)) by {
                            assert(c.span().pairs().contains((i as usize, i as usize)));
                        }
                    }
                }
                b
            },
            Err(_) => false,
        }
    }

    /// True when the swap of every pair is in the relation.
    pub fn is_symmetric(&self) -> (b: bool)
        requires
            self.span().lefts() == self.span().rights(),
        ensures
            b == symmetric_pairs(self.span().pairs()),
    {
        let dagger = Self::new_unchecked(self.0.dagger());
        let r = self.subsumes(&dagger);
        let ghost s = self.span().pairs();
        proof {
            assert forall|p: (usize, usize)| #[trigger] swap_pairs(s).contains(p) <==> s.contains((p.1, p.0)) by {
                lemma_swap_contains(s, p);
            }
            if symmetric_pairs(s) {
                assert forall|p: (usize, usize)| #[trigger] swap_pairs(s).contains(p) implies s.contains(p) by {
                    assert(s.contains((p.1, p.0)));
                }
            }
            if forall|p: (usize, usize)| #[trigger] swap_pairs(s).contains(p) ==> s.contains(p) {
                assert forall|p: (usize, usize)| #[trigger] s.contains(p) implies s.contains((p.1, p.0)) by {
                    assert(swap_pairs(s).contains((p.1, p.0)));
                }
            }
        }
        r.unwrap()
    }

    /// True when a pair and its swap are both in the relation only on the diagonal.
    pub fn is_antisymmetric(&self) -> (b: bool)
        requires
            self.span().lefts() == self.span().rights(),
        ensures
            b == antisymmetric_pairs(self.span().pairs()),
    {
        proof {
            use_type_invariant(&self.0);
        }
        let dagger = Self::new_unchecked(self.0.dagger());
        let intersect = self.intersection(&dagger).unwrap();
        let d = self.0.domain();
        let identity_rel = Self::new_unchecked(Span::<Lambda>::identity(&d));
        let r = identity_rel.subsumes(&intersect);
        let ghost n = self.span().lefts().len();
        let ghost s = self.span().pairs();
        let ghost t = intersect.span().pairs();
        proof {
            assert(identity_rel.span().pairs() =~= diagonal_pairs(n));
            assert forall|p: (usize, usize)| #[trigger] t.contains(p) <==> (s.contains(p) && s.contains((p.1, p.0))) by {
                lemma_swap_contains(s, p);
            }
            if antisymmetric_pairs(s) {
                assert forall|p: (usize, usize)| #[trigger] t.contains(p) implies diagonal_pairs(n).contains(p) by {
                    lemma_diagonal_contains(n, p);
                    assert(s.contains(p));
                    let k = choose|k: int| 0 <= k < s.len() && #[trigger] s[k] == p;
                    assert(s[k].0 < n);
                }
            }
            if forall|p: (usize, usize)| #[trigger] t.contains(p) ==> diagonal_pairs(n).contains(p) {
                assert forall|p: (usize, usize)| #[trigger] s.contains(p) && s.contains((p.1, p.0)) implies p.0 == p.1 by {
                    assert(t.contains(p));
                    lemma_diagonal_contains(n, p);
                }
            }
        }
        r.unwrap()
    }

    /// True when the relation contains its composite with itself.
    pub fn is_transitive(&self) -> (b: bool)
        requires
            self.span().lefts() == self.span().rights(),
        ensures
            b == transitive_pairs(self.span().pairs()),
    {
        let twice = Self::new_unchecked(self.0.compose(&self.0).unwrap());
        let r = self.subsumes(&twice);
        let ghost s = self.span().pairs();
        let ghost t = twice.span().pairs();
        proof {
            assert(t == pullback_pairs(s, s));
            if transitive_pairs(s) {
                assert forall|q: (usize, usize)| #[trigger] t.contains(q) implies s.contains(q) by {
                    lemma_pullback_contains(s, s, q);
                    let (i, j) = choose|i: int, j: int|
                        0 <= i < s.len() && 0 <= j < s.len() && #[trigger] s[i].1 == #[trigger] s[j].0 && q == (
                            s[i].0,
                            s[j].1,
                        );
                    assert(s.contains(s[i]));
                    assert(s.contains(s[j]));
                }
            }
            if forall|q: (usize, usize)| #[trigger] t.contains(q) ==> s.contains(q) {
                assert forall|p: (usize, usize), q: (usize, usize)|
                    #[trigger] s.contains(p) && #[trigger] s.contains(q) && p.1 == q.0 implies s.contains((p.0, q.1)) by {
                    let i = choose|i: int| 0 <= i < s.len() && #[trigger] s[i] == p;
                    let j = choose|j: int| 0 <= j < s.len() && #[trigger] s[j] == q;
                    lemma_pullback_contains(s, s, (p.0, q.1));
                    assert(s[i].1 == s[j].0);
                }
            }
        }
        r.unwrap()
    }

    /// True when the relation is homogeneous, reflexive, symmetric and transitive.
    pub fn is_equivalence_rel(&self) -> (b: bool)
        ensures
            b == (self.span().lefts() == self.span().rights() && reflexive_pairs(
                self.span().pairs(),
                self.span().lefts().len(),
            ) && symmetric_pairs(self.span().pairs()) && transitive_pairs(self.span().pairs())),
    {
        self.is_homogeneous() && self.is_reflexive() && self.is_symmetric() && self.is_transitive()
    }

    /// True when the relation is homogeneous, reflexive, antisymmetric and transitive.
    pub fn is_partial_order(&self) -> (b: bool)
        ensures
            b == (self.span().lefts() == self.span().rights() && reflexive_pairs(
                self.span().pairs(),
                self.span().lefts().len(),
            ) && antisymmetric_pairs(self.span().pairs()) && transitive_pairs(self.span().pairs())),
    {
        self.is_homogeneous() && self.is_reflexive() && self.is_antisymmetric() && self.is_transitive()
    }
}

impl<Lambda: Label> HasIdentity<Vec<Lambda>> for Rel<Lambda> {
    fn identity(on_this: &Vec<Lambda>) -> (r: Self)
        ensures
            r.span().lefts() == on_this@,
            r.span().rights() == on_this@,
            r.span().pairs() == diagonal_pairs(on_this@.len()),
            r.span().left_flag(),
            r.span().right_flag(),
    {
        let sp = Span::<Lambda>::identity(on_this);
        assert(sp.pairs() =~= diagonal_pairs(on_this@.len()));
        Self(sp)
    }
}

impl<Lambda: Label> Composable<Vec<Lambda>> for Rel<Lambda> {
    /// Relational composition: the pullback of the underlying spans.
    fn compose(&self, other: &Self) -> (r: Result<Self, CatgraphError>)
        ensures
            r is Ok <==> self.span().rights() == other.span().lefts(),
            r matches Ok(c) ==> {
                &&& c.span().lefts() == self.span().lefts()
                &&& c.span().rights() == other.span().rights()
                &&& c.span().pairs() == pullback_pairs(self.span().pairs(), other.span().pairs())
            },
            r is Err ==> r->Err_0 is Composition,
    {
        match self.0.compose(&other.0) {
            Ok(x) => Ok(Self(x)),
            Err(e) => Err(e),
        }
    }

    fn domain(&self) -> (r: Vec<Lambda>)
        ensures
            r@ == self.span().lefts(),
    {
        self.0.domain()
    }

    fn codomain(&self) -> (r: Vec<Lambda>)
        ensures
            r@ == self.span().rights(),
    {
        self.0.codomain()
    }

    fn composable(&self, other: &Self) -> (r: Result<(), CatgraphError>)
        ensures
            r is Ok <==> self.span().rights() == other.span().lefts(),
            r is Err ==> r->Err_0 is Composition,
    {
        self.0.composable(&other.0)
    }
}

impl<Lambda: Label> Monoidal for Rel<Lambda> {
    /// Disjoint union of relations, as for spans.
    fn monoidal(&mut self, other: Self)
        ensures
            old(self).span().lefts().len() + other.span().lefts().len() <= usize::MAX
                && old(self).span().rights().len() + other.span().rights().len() <= usize::MAX ==> {
                &&& final(self).span().lefts() == old(self).span().lefts() + other.span().lefts()
                &&& final(self).span().rights() == old(self).span().rights() + other.span().rights()
                &&& final(self).span().pairs() == old(self).span().pairs() + shift_pairs(
                    other.span().pairs(),
                    old(self).span().lefts().len(),
                    old(self).span().rights().len(),
                )
            },
            !(old(self).span().lefts().len() + other.span().lefts().len() <= usize::MAX
                && old(self).span().rights().len() + other.span().rights().len() <= usize::MAX)
                ==> final(self).span() == old(self).span(),
    {
        self.0.monoidal(other.0);
    }
}

impl<Lambda: Label> MonoidalMorphism<Vec<Lambda>> for Rel<Lambda> {

}

} // verus!
