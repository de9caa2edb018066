//! Finite set morphisms and their factorization into order-preserving parts.
//!
//! A [`FinSetMorphism`] is a map `{0,…,n-1} → {0,…,m-1}` stored as
//! `(map, extra_codomain)` where `codomain = max(map) + 1 + extra`.
//! [`OrderPresSurj`] and [`OrderPresInj`] store order-preserving surjections and
//! injections in run-length form.
use vstd::prelude::*;

use crate::category::{Composable, HasIdentity};
use crate::errors::CatgraphError;
use crate::monoidal::{Monoidal, MonoidalMorphism};
use crate::utils::{push_range, range_seq};
use vstd::string::to_string_from_display_ensures;
use crate::permutation::{
    is_permutation_of, perm_apply, perm_clone, perm_identity, perm_inv, perm_len, perm_mul, perm_transposition,
    perm_try_from, perm_values, permuted,
};
use crate::monoidal::SymmetricMonoidalDiscreteMorphism;

use permutations::Permutation;

verus! {

/// A finite set map: `map[i]` is the image of element `i`.
pub type FinSetMap = Vec<usize>;

/// A finite set morphism `(map, extra_codomain)`; its codomain is
/// `max(map) + 1 + extra_codomain` (or `extra_codomain` when `map` is empty).
pub type FinSetMorphism = (Vec<usize>, usize);

/// The least bound above every value of the sequence: `max + 1`, or `0` when empty.
pub open spec fn image_bound(s: Seq<usize>) -> nat
    decreases s.len(),
{
    if s.len() == 0 {
        0
    } else {
        let b = image_bound(s.drop_last());
        if s.last() + 1 > b {
            (s.last() + 1) as nat
        } else {
            b
        }
    }
}

/// The codomain size of the finite set morphism `(map, extra)`.
pub open spec fn fin_codomain(map: Seq<usize>, extra: nat) -> nat {
    extra + image_bound(map)
}

/// The map of the composite `f ; g`: first `f`, then `g`.
pub open spec fn compose_maps(f: Seq<usize>, g: Seq<usize>) -> Seq<usize> {
    Seq::new(f.len(), |s: int| g[f[s] as int])
}

/// The map of `f ⊗ g`: `g`'s values are shifted past the codomain of `f`.
pub open spec fn tensor_maps(f: Seq<usize>, g: Seq<usize>, shift: nat) -> Seq<usize> {
    f + Seq::new(g.len(), |i: int| (g[i] + shift) as usize)
}

/// `image_bound` bounds every value, and is attained by the largest one.
pub proof fn lemma_image_bound(s: Seq<usize>)
    ensures
        forall|i: int| 0 <= i < s.len() ==> s[i] < image_bound(s),
        s.len() > 0 ==> exists|i: int| 0 <= i < s.len() && s[i] + 1 == image_bound(s),
        s.len() == 0 ==> image_bound(s) == 0,
    decreases s.len(),
{
    if s.len() > 0 {
        lemma_image_bound(s.drop_last());
        assert forall|i: int| 0 <= i < s.len() implies s[i] < image_bound(s) by {
            if i < s.len() - 1 {
                assert(s[i] == s.drop_last()[i]);
            }
        }
        if s.drop_last().len() > 0 && s.last() + 1 <= image_bound(s.drop_last()) {
            let i = choose|i: int|
                0 <= i < s.drop_last().len() && s.drop_last()[i] + 1 == image_bound(s.drop_last());
            assert(s[i] + 1 == image_bound(s));
        } else {
            assert(s[s.len() - 1] + 1 == image_bound(s));
        }
    }
}

/// A bound above every value that is attained is the image bound.
pub proof fn lemma_image_bound_char(s: Seq<usize>, b: nat)
    requires
        forall|i: int| 0 <= i < s.len() ==> s[i] < b,
        s.len() > 0 ==> exists|i: int| 0 <= i < s.len() && s[i] + 1 == b,
        s.len() == 0 ==> b == 0,
    ensures
        image_bound(s) == b,
{
    lemma_image_bound(s);
    if s.len() > 0 {
        let i = choose|i: int| 0 <= i < s.len() && s[i] + 1 == b;
        let j = choose|j: int| 0 <= j < s.len() && s[j] + 1 == image_bound(s);
        assert(s[i] < image_bound(s));
        assert(s[j] < b);
    }
}

/// The largest value of a slice, if any.
pub fn max_value(v: &[usize]) -> (r: Option<usize>)
    ensures
        r is None <==> v@.len() == 0,
        r matches Some(m) ==> m + 1 == image_bound(v@),
{
    if v.len() == 0 {
        return None;
    }
    let mut m: usize = v[0];
    let mut i: usize = 1;
    while i < v.len()
        invariant
            1 <= i <= v@.len(),
            forall|j: int| 0 <= j < i ==> v@[j] <= m,
            exists|j: int| 0 <= j < i && v@[j] == m,
        decreases v@.len() - i,
    {
        if v[i] > m {
            m = v[i];
        }
        i = i + 1;
    }
    proof {
        lemma_image_bound_char(v@, (m + 1) as nat);
    }
    Some(m)
}

/// The codomain of a finite set morphism, when it fits in a `usize`.
pub fn finset_codomain_checked(f: &FinSetMorphism) -> (r: Option<usize>)
    ensures
        r matches Some(c) ==> c == fin_codomain(f.0@, f.1 as nat),
        r is None ==> fin_codomain(f.0@, f.1 as nat) > usize::MAX,
{
    match max_value(&f.0) {
        None => {
            proof {
                lemma_image_bound(f.0@);
            }
            Some(f.1)
        },
        Some(m) => {
            if m == usize::MAX {
                None
            } else {
                f.1.checked_add(m + 1)
            }
        },
    }
}

/// The message of a codomain/domain mismatch: both sizes written in decimal
/// (as `usize`'s `Display` writes them) inside a fixed sentence.
pub open spec fn mismatch_message(codomain: usize, domain: usize, m: Seq<char>) -> bool {
    exists|a: String, b: String|
        #![trigger to_string_from_display_ensures::<usize>(&codomain, a), to_string_from_display_ensures::<usize>(&domain, b)]
        to_string_from_display_ensures::<usize>(&codomain, a)
            && to_string_from_display_ensures::<usize>(&domain, b) && m == "Not composable. The codomain of self was "@
            + a@ + ". The domain of other was "@ + b@
}

/// The error reported when the codomain of `self` differs from the domain of `other`.
pub fn mismatch_error(codomain: usize, domain: usize) -> (e: CatgraphError)
    ensures
        e matches CatgraphError::Composition { message } && mismatch_message(
            codomain,
            domain,
            message@,
        ),
{
    let cs = codomain.to_string();
    let ds = domain.to_string();
    let s = String::from_str("Not composable. The codomain of self was ");
    let s = s.concat(cs.as_str());
    let s = s.concat(". The domain of other was ");
    let s = s.concat(ds.as_str());
    assert(mismatch_message(codomain, domain, s@));
    CatgraphError::Composition { message: s }
}

impl HasIdentity<usize> for FinSetMorphism {
    fn identity(on_this: &usize) -> (r: Self)
        ensures
            r.0@ == range_seq(0, *on_this as int),
            r.1 == 0,
    {
        let mut v: Vec<usize> = Vec::new();
        push_range(&mut v, 0, *on_this);
        assert(v@ =~= range_seq(0, *on_this as int));
        (v, 0)
    }
}

impl Monoidal for FinSetMorphism {
    /// `self ⊗ other`; when the combined codomain would not fit in a `usize`,
    /// `self` is left unchanged.
    fn monoidal(&mut self, other: Self)
        ensures
            fin_codomain(old(self).0@, old(self).1 as nat) + fin_codomain(other.0@, other.1 as nat)
                <= usize::MAX ==> {
                &&& final(self).0@ == tensor_maps(
                    old(self).0@,
                    other.0@,
                    fin_codomain(old(self).0@, old(self).1 as nat),
                )
                &&& final(self).1 == if other.0@.len() == 0 {
                    old(self).1 + other.1
                } else {
                    other.1 as int
                }
            },
            fin_codomain(old(self).0@, old(self).1 as nat) + fin_codomain(other.0@, other.1 as nat)
                > usize::MAX ==> *final(self) == *old(self),
    {
        let c1 = finset_codomain_checked(self);
        let c2 = finset_codomain_checked(&other);
        let (self_codomain, _total) = match (c1, c2) {
            (Some(a), Some(b)) => {
                if a > usize::MAX - b {
                    return ;
                }
                (a, a + b)
            },
            _ => {
                return ;
            },
        };
        proof {
            lemma_image_bound(other.0@);
            lemma_image_bound(self.0@);
        }
        let ghost old_extra = self.1;
        let other_empty = other.0.len() == 0;
        let ghost old_map = self.0@;
        let mut i: usize = 0;
        while i < other.0.len()
            invariant
                0 <= i <= other.0@.len(),
                forall|j: int| 0 <= j < other.0@.len() ==> other.0@[j] < image_bound(other.0@),
                self_codomain + image_bound(other.0@) <= usize::MAX,
                self.1 == old_extra,
                self.0@ == tensor_maps(old_map, other.0@.subrange(0, i as int), self_codomain as nat),
            decreases other.0@.len() - i,
        {
            self.0.push(other.0[i] + self_codomain);
            i = i + 1;
            assert(self.0@ =~= tensor_maps(
                old_map,
                other.0@.subrange(0, i as int),
                self_codomain as nat,
            ));
        }
        assert(other.0@.subrange(0, i as int) =~= other.0@);
        if other_empty {
            self.1 = self.1 + other.1;
        } else {
            self.1 = other.1;
        }
    }
}

impl Composable<usize> for FinSetMorphism {
    fn composable(&self, other: &Self) -> (r: Result<(), CatgraphError>)
        ensures
            r is Ok <==> fin_codomain(self.0@, self.1 as nat) == other.0@.len(),
            r is Err ==> r->Err_0 is Composition,
    {
        match finset_codomain_checked(self) {
            Some(c) => {
                if c == other.0.len() {
                    Ok(())
                } else {
                    Err(mismatch_error(c, other.0.len()))
                }
            },
            None => Err(mismatch_error(usize::MAX, other.0.len())),
        }
    }

    fn compose(&self, other: &Self) -> (r: Result<Self, CatgraphError>)
        ensures
            r is Ok <==> fin_codomain(self.0@, self.1 as nat) == other.0@.len(),
            r matches Ok(c) ==> c.0@ == compose_maps(self.0@, other.0@),
            r matches Ok(c) ==> fin_codomain(other.0@, other.1 as nat) <= usize::MAX ==> fin_codomain(
                c.0@,
                c.1 as nat,
            ) == fin_codomain(other.0@, other.1 as nat),
            r is Err ==> r->Err_0 is Composition,
    {
        match self.composable(other) {
            Ok(()) => {},
            Err(e) => {
                return Err(e);
            },
        }
        proof {
            lemma_image_bound(self.0@);
            lemma_image_bound(other.0@);
        }
        let mut composite: Vec<usize> = Vec::with_capacity(self.0.len());
        let mut s: usize = 0;
        while s < self.0.len()
            invariant
                0 <= s <= self.0@.len(),
                forall|j: int| 0 <= j < self.0@.len() ==> self.0@[j] < other.0@.len(),
                composite@ == compose_maps(self.0@.subrange(0, s as int), other.0@),
            decreases self.0@.len() - s,
        {
            composite.push(other.0[self.0[s]]);
            s = s + 1;
            assert(composite@ =~= compose_maps(self.0@.subrange(0, s as int), other.0@));
        }
        assert(self.0@.subrange(0, s as int) =~= self.0@);
        let other_codomain = other.codomain();
        let ret = match max_value(&composite) {
            Some(max_val) => {
                proof {
                    lemma_image_bound(composite@);
                    let j = choose|j: int|
                        0 <= j < composite@.len() && composite@[j] + 1 == image_bound(composite@);
                    assert(composite@[j] == other.0@[self.0@[j] as int]);
                }
                if max_val < usize::MAX {
                    other_codomain.saturating_sub(max_val + 1)
                } else {
                    0
                }
            },
            None => other_codomain,
        };
        proof {
            lemma_image_bound(composite@);
        }
        Ok((composite, ret))
    }

    fn domain(&self) -> (r: usize)
        ensures
            r == self.0@.len(),
    {
        self.0.len()
    }

    /// The codomain size; saturates at `usize::MAX` when it does not fit.
    fn codomain(&self) -> (r: usize)
        ensures
            fin_codomain(self.0@, self.1 as nat) <= usize::MAX ==> r == fin_codomain(
                self.0@,
                self.1 as nat,
            ),
            fin_codomain(self.0@, self.1 as nat) > usize::MAX ==> r == usize::MAX,
    {
        match finset_codomain_checked(self) {
            Some(c) => c,
            None => usize::MAX,
        }
    }
}

impl MonoidalMorphism<usize> for FinSetMorphism {

}


/// Sum of `c[i] + 1` over the first `k` entries: the number of domain elements
/// sent into the first `k` codomain elements by the surjection with counts `c`.
pub open spec fn psum(c: Seq<usize>, k: int) -> nat
    decreases k,
{
    if k <= 0 {
        0
    } else {
        psum(c, k - 1) + (c[k - 1] + 1) as nat
    }
}

/// The domain size of the order-preserving surjection with counts `c`.
pub open spec fn surj_domain(c: Seq<usize>) -> nat {
    psum(c, c.len() as int)
}

/// The map of the order-preserving surjection whose codomain element `t` has
/// `c[t] + 1` preimages, restricted to the first `k` codomain elements.
pub open spec fn surj_map_prefix(c: Seq<usize>, k: int) -> Seq<usize>
    decreases k,
{
    if k <= 0 {
        Seq::empty()
    } else {
        surj_map_prefix(c, k - 1) + Seq::new((c[k - 1] + 1) as nat, |j: int| (k - 1) as usize)
    }
}

/// The map of the order-preserving surjection with counts `c`.
pub open spec fn surj_map(c: Seq<usize>) -> Seq<usize> {
    surj_map_prefix(c, c.len() as int)
}

/// The number of preimages of block `k` of `g` under the composite of the
/// surjections with counts `f` and `g`.
pub open spec fn surj_block(f: Seq<usize>, g: Seq<usize>, k: int) -> int {
    psum(f, psum(g, k + 1) as int) - psum(f, psum(g, k) as int)
}

pub proof fn lemma_psum_mono(c: Seq<usize>, a: int, b: int)
    requires
        a <= b,
    ensures
        psum(c, a) <= psum(c, b),
        0 <= a < b <= c.len() ==> psum(c, a) + b - a <= psum(c, b),
    decreases b - a,
{
    if a < b {
        lemma_psum_mono(c, a, b - 1);
    }
}

pub proof fn lemma_surj_map_prefix_len(c: Seq<usize>, k: int)
    requires
        0 <= k <= c.len(),
    ensures
        surj_map_prefix(c, k).len() == psum(c, k),
        forall|i: int| 0 <= i < psum(c, k) ==> surj_map_prefix(c, k)[i] < k,
    decreases k,
{
    if k > 0 {
        lemma_surj_map_prefix_len(c, k - 1);
    }
}

/// The entries of `surj_map` that lie inside block `t`.
pub proof fn lemma_surj_map_block(c: Seq<usize>, k: int, t: int, i: int)
    requires
        0 <= t < k <= c.len(),
        c.len() <= usize::MAX,
        psum(c, t) <= i < psum(c, t + 1),
    ensures
        surj_map_prefix(c, k)[i] == t,
    decreases k,
{
    lemma_surj_map_prefix_len(c, k - 1);
    let prev = surj_map_prefix(c, k - 1);
    let last = Seq::new((c[k - 1] + 1) as nat, |j: int| (k - 1) as usize);
    assert(surj_map_prefix(c, k) == prev + last);
    if t < k - 1 {
        lemma_psum_mono(c, t + 1, k - 1);
        lemma_surj_map_block(c, k - 1, t, i);
        assert((prev + last)[i] == prev[i]);
    } else {
        assert((prev + last)[i] == last[i - prev.len()]);
    }
}

/// An order-preserving surjection in **FinSet**, stored as preimage cardinalities
/// minus one: codomain element `i` has exactly `preimage_card_minus_1[i] + 1` preimages.
#[derive(Debug, Clone, PartialEq, Eq, Default)]
pub struct OrderPresSurj {
    preimage_card_minus_1: Vec<usize>,
}

impl View for OrderPresSurj {
    type V = Seq<usize>;

    closed spec fn view(&self) -> Seq<usize> {
        self.preimage_card_minus_1@
    }
}

impl OrderPresSurj {
    /// The surjection with the given preimage cardinalities minus one.
    pub fn from_counts(counts: Vec<usize>) -> (r: Self)
        ensures
            r@ == counts@,
    {
        Self { preimage_card_minus_1: counts }
    }

    /// The domain size when it fits in a `usize`.
    pub fn domain_checked(&self) -> (r: Option<usize>)
        ensures
            r matches Some(d) ==> d == surj_domain(self@),
            r is None ==> surj_domain(self@) > usize::MAX,
    {
        let c = &self.preimage_card_minus_1;
        let mut total: usize = 0;
        let mut i: usize = 0;
        while i < c.len()
            invariant
                i <= c@.len(),
                total == psum(c@, i as int),
                c@ == self@,
            decreases c@.len() - i,
        {
            proof {
                lemma_psum_mono(c@, i + 1, c@.len() as int);
            }
            if c[i] >= usize::MAX - total {
                return None;
            }
            total = total + c[i] + 1;
            i = i + 1;
        }
        Some(total)
    }

    /// The map of this surjection as an ordinary finite set morphism.
    pub fn to_ordinary(&self) -> (r: FinSetMorphism)
        ensures
            r.0@ == surj_map(self@),
            r.1 == 0,
    {
        let c = &self.preimage_card_minus_1;
        let mut answer: Vec<usize> = Vec::new();
        let mut t: usize = 0;
        while t < c.len()
            invariant
                t <= c@.len(),
                c@ == self@,
                answer@ == surj_map_prefix(c@, t as int),
            decreases c@.len() - t,
        {
            let ghost before = answer@;
            answer.push(t);
            let mut k: usize = 0;
            while k < c[t]
                invariant
                    t < c@.len(),
                    k <= c@[t as int],
                    answer@ == before + Seq::new((k + 1) as nat, |j: int| t),
                decreases c@[t as int] - k,
            {
                answer.push(t);
                k = k + 1;
                assert(answer@ =~= before + Seq::new((k + 1) as nat, |j: int| t));
            }
            assert(answer@ =~= surj_map_prefix(c@, t + 1));
            t = t + 1;
        }
        (answer, 0)
    }

    /// The image of a domain element.
    pub fn apply(&self, test_pt: usize) -> (r: usize)
        requires
            test_pt < surj_domain(self@),
        ensures
            r == surj_map(self@)[test_pt as int],
    {
        proof {
            lemma_surj_map_prefix_len(self@, self@.len() as int);
        }
        let ord = self.to_ordinary();
        ord.0[test_pt]
    }

    /// Returns the preimage cardinality of each codomain element.
    pub fn preimage_cardinalities(&self) -> (r: Vec<usize>)
        requires
            forall|i: int| 0 <= i < self@.len() ==> self@[i] < usize::MAX,
        ensures
            r@ == Seq::new(self@.len(), |i: int| (self@[i] + 1) as usize),
    {
        let c = &self.preimage_card_minus_1;
        let mut r: Vec<usize> = Vec::new();
        let mut i: usize = 0;
        while i < c.len()
            invariant
                i <= c@.len(),
                c@ == self@,
                forall|j: int| 0 <= j < self@.len() ==> self@[j] < usize::MAX,
                r@ == Seq::new(i as nat, |j: int| (self@[j] + 1) as usize),
            decreases c@.len() - i,
        {
            r.push(c[i] + 1);
            i = i + 1;
            assert(r@ =~= Seq::new(i as nat, |j: int| (self@[j] + 1) as usize));
        }
        r
    }
}

impl<const N: usize> From<[usize; N]> for OrderPresSurj {
    /// The surjection whose counts are the entries of the array.
    fn from(value: [usize; N]) -> (r: Self)
        ensures
            r@ == value@,
    {
        let mut v: Vec<usize> = Vec::new();
        let mut i: usize = 0;
        while i < N
            invariant
                i <= N,
                value@.len() == N,
                v@ == value@.subrange(0, i as int),
            decreases N - i,
        {
            v.push(value[i]);
            i = i + 1;
            assert(v@ =~= value@.subrange(0, i as int));
        }
        assert(v@ =~= value@);
        Self { preimage_card_minus_1: v }
    }
}

impl<const N: usize> vstd::std_specs::convert::FromSpecImpl<[usize; N]> for OrderPresSurj {
    open spec fn obeys_from_spec() -> bool {
        false
    }

    open spec fn from_spec(v: [usize; N]) -> Self {
        arbitrary()
    }
}

impl HasIdentity<usize> for OrderPresSurj {
    fn identity(on_this: &usize) -> (r: Self)
        ensures
            r@ == Seq::new(*on_this as nat, |i: int| 0usize),
    {
        let mut v: Vec<usize> = Vec::new();
        let mut i: usize = 0;
        while i < *on_this
            invariant
                i <= *on_this,
                v@ == Seq::new(i as nat, |j: int| 0usize),
            decreases *on_this - i,
        {
            v.push(0);
            i = i + 1;
            assert(v@ =~= Seq::new(i as nat, |j: int| 0usize));
        }
        Self { preimage_card_minus_1: v }
    }
}

impl Monoidal for OrderPresSurj {
    fn monoidal(&mut self, other: Self)
        ensures
            final(self)@ == old(self)@ + other@,
    {
        let mut o = other.preimage_card_minus_1;
        self.preimage_card_minus_1.append(&mut o);
    }
}

impl Composable<usize> for OrderPresSurj {
    fn composable(&self, other: &Self) -> (r: Result<(), CatgraphError>)
        ensures
            r is Ok <==> self@.len() == surj_domain(other@),
            r is Err ==> r->Err_0 is Composition,
    {
        match other.domain_checked() {
            Some(d) => {
                if self.preimage_card_minus_1.len() == d {
                    Ok(())
                } else {
                    Err(mismatch_error(self.preimage_card_minus_1.len(), d))
                }
            },
            None => Err(mismatch_error(self.preimage_card_minus_1.len(), usize::MAX)),
        }
    }

    /// Composite surjection: block `k` of `other` collects the preimages of the
    /// codomain elements of `self` that `other` sends to `k`. A block whose size
    /// does not fit in a `usize` is reported as a composition error.
    fn compose(&self, other: &Self) -> (r: Result<Self, CatgraphError>)
        ensures
            r is Ok <==> (self@.len() == surj_domain(other@) && forall|k: int|
                0 <= k < other@.len() ==> #[trigger] surj_block(self@, other@, k) <= usize::MAX),
            r matches Ok(c) ==> c@.len() == other@.len() && forall|k: int|
                0 <= k < other@.len() ==> #[trigger] c@[k] + 1 == surj_block(self@, other@, k),
            r is Err ==> r->Err_0 is Composition,
    {
        match self.composable(other) {
            Ok(()) => {},
            Err(e) => {
                return Err(e);
            },
        }
        let f = &self.preimage_card_minus_1;
        let g = &other.preimage_card_minus_1;
        let codomain = g.len();
        let mut answer: Vec<usize> = Vec::with_capacity(codomain);
        let _flen = f.len();
        let mut self_idx: usize = 0;
        let mut idx: usize = 0;
        while idx < codomain
            invariant
                codomain == g@.len(),
                f@ == self@,
                g@ == other@,
                f@.len() == surj_domain(g@),
                f@.len() <= usize::MAX,
                idx <= codomain,
                self_idx == psum(g@, idx as int),
                answer@.len() == idx,
                forall|k: int| 0 <= k < idx ==> #[trigger] surj_block(f@, g@, k) <= usize::MAX,
                forall|k: int| 0 <= k < idx ==> #[trigger] answer@[k] + 1 == surj_block(f@, g@, k),
            decreases codomain - idx,
        {
            proof {
                lemma_psum_mono(g@, idx + 1, g@.len() as int);
                assert(psum(g@, idx + 1) == psum(g@, idx as int) + g@[idx as int] + 1);
            }
            let how_many_mid = g[idx] + 1;
            let ghost flen = f.len();
            let mut sum: usize = 0;
            let mut j: usize = 0;
            while j < how_many_mid
                invariant
                    f@ == self@,
                    g@ == other@,
                    idx < g@.len(),
                    self_idx == psum(g@, idx as int),
                    self_idx + how_many_mid == psum(g@, idx + 1),
                    self_idx + how_many_mid <= f@.len(),
                    f@.len() <= usize::MAX,
                    j <= how_many_mid,
                    sum + how_many_mid <= usize::MAX,
                    sum + j == psum(f@, self_idx + j) - psum(f@, self_idx as int),
                decreases how_many_mid - j,
            {
                proof {
                    lemma_psum_mono(f@, self_idx as int, self_idx + j);
                    assert(psum(f@, self_idx + j + 1) == psum(f@, self_idx + j) + f@[self_idx + j] + 1);
                }
                if f[self_idx + j] > usize::MAX - sum || f[self_idx + j] + sum > usize::MAX
                    - how_many_mid {
                    proof {
                        lemma_psum_mono(f@, self_idx + j + 1, self_idx + how_many_mid);
                        assert(surj_block(f@, g@, idx as int) > usize::MAX);
                    }
                    return Err(CatgraphError::Composition {
                        message: String::from_str("preimage cardinality overflows usize"),
                    });
                }
                sum = sum + f[self_idx + j];
                j = j + 1;
            }
            let preimage_card_cur = sum + how_many_mid;
            answer.push(preimage_card_cur - 1);
            self_idx = self_idx + how_many_mid;
            idx = idx + 1;
        }
        Ok(Self { preimage_card_minus_1: answer })
    }

    /// The domain size; saturates at `usize::MAX` when it does not fit.
    fn domain(&self) -> (r: usize)
        ensures
            surj_domain(self@) <= usize::MAX ==> r == surj_domain(self@),
            surj_domain(self@) > usize::MAX ==> r == usize::MAX,
    {
        match self.domain_checked() {
            Some(d) => d,
            None => usize::MAX,
        }
    }

    fn codomain(&self) -> (r: usize)
        ensures
            r == self@.len(),
    {
        self.preimage_card_minus_1.len()
    }
}

impl MonoidalMorphism<usize> for OrderPresSurj {

}


/// The sequence is sorted in non-decreasing order.
pub open spec fn is_sorted_seq(s: Seq<usize>) -> bool {
    forall|i: int, j: int| 0 <= i <= j < s.len() ==> s[i] <= s[j]
}

/// Every element below the image bound is hit: the map is onto its codomain
/// `{0, …, max}`.
pub open spec fn is_surjective_seq(s: Seq<usize>) -> bool {
    forall|t: int| 0 <= t < image_bound(s) ==> #[trigger] hits(s, t)
}

/// Some element is sent to `t`.
pub open spec fn hits(s: Seq<usize>, t: int) -> bool {
    exists|i: int| 0 <= i < s.len() && s[i] == t
}

/// Decides whether a slice is sorted in non-decreasing order.
pub fn is_sorted_slice(v: &[usize]) -> (b: bool)
    ensures
        b == is_sorted_seq(v@),
{
    if v.len() == 0 {
        return true;
    }
    let mut i: usize = 1;
    while i < v.len()
        invariant
            1 <= i <= v@.len(),
            forall|a: int, c: int| 0 <= a <= c < i ==> v@[a] <= v@[c],
        decreases v@.len() - i,
    {
        if v[i - 1] > v[i] {
            return false;
        }
        i = i + 1;
    }
    true
}

/// Decides whether the map `v` hits every element of `{0, …, max(v)}`.
pub fn is_surjective(v: &[usize]) -> (b: bool)
    ensures
        b == is_surjective_seq(v@),
{
    let n = v.len();
    let Some(max_val) = max_value(v) else {
        proof {
            lemma_image_bound(v@);
        }
        return true;
    };
    proof {
        lemma_image_bound(v@);
    }
    if max_val == usize::MAX || n < max_val + 1 {
        proof {
            if is_surjective_seq(v@) {
                lemma_surjective_needs_len(v@);
            }
        }
        return false;
    }
    let mut seen: Vec<bool> = Vec::new();
    let mut k: usize = 0;
    while k < max_val + 1
        invariant
            k <= max_val + 1,
            max_val < usize::MAX,
            seen@ == Seq::new(k as nat, |j: int| false),
        decreases max_val + 1 - k,
    {
        seen.push(false);
        k = k + 1;
        assert(seen@ =~= Seq::new(k as nat, |j: int| false));
    }
    assert(seen@.len() == max_val + 1);
    let mut i: usize = 0;
    while i < v.len()
        invariant
            i <= v@.len(),
            seen@.len() == max_val + 1,
            max_val + 1 == image_bound(v@),
            forall|j: int| 0 <= j < v@.len() ==> v@[j] < image_bound(v@),
            forall|t: int| 0 <= t <= max_val ==> (seen@[t] <==> exists|j: int| 0 <= j < i && v@[j] == t),
        decreases v@.len() - i,
    {
        let ghost old_seen = seen@;
        seen.set(v[i], true);
        proof {
            assert forall|t: int| 0 <= t <= max_val implies (seen@[t] <==> exists|j: int|
                0 <= j < i + 1 && v@[j] == t) by {
                if seen@[t] && t != v@[i as int] {
                    assert(old_seen[t]);
                }
                if t == v@[i as int] {
                    assert(v@[i as int] == t);
                }
            }
        }
        i = i + 1;
    }
    let mut t: usize = 0;
    while t < max_val + 1
        invariant
            seen@.len() == max_val + 1,
            max_val < usize::MAX,
            max_val + 1 == image_bound(v@),
            forall|u: int| 0 <= u <= max_val ==> (seen@[u] <==> exists|j: int| 0 <= j < v@.len() && v@[j] == u),
            t <= max_val + 1,
            forall|u: int| 0 <= u < t ==> seen@[u],
        decreases max_val + 1 - t,
    {
        if !seen[t] {
            proof {
                assert(!hits(v@, t as int));
            }
            return false;
        }
        t = t + 1;
    }
    proof {
        assert forall|u: int| 0 <= u < image_bound(v@) implies #[trigger] hits(v@, u) by {
            assert(seen@[u]);
        }
    }
    true
}

/// A map onto `{0, …, max}` has at least `max + 1` elements.
pub proof fn lemma_surjective_needs_len(v: Seq<usize>)
    requires
        is_surjective_seq(v),
        v.len() <= usize::MAX,
    ensures
        image_bound(v) <= v.len(),
{
    let f = |t: int| choose|i: int| 0 <= i < v.len() && v[i] == t;
    assert forall|a: int| 0 <= a < image_bound(v) implies 0 <= #[trigger] f(a) < v.len() && v[f(a)]
        == a by {
        assert(hits(v, a));
    }
    let idx = Seq::new(image_bound(v), |t: int| f(t) as usize);
    assert forall|a: int, c: int| 0 <= a < c < idx.len() implies idx[a] != idx[c] by {
        assert(v[f(a)] == a);
        assert(v[f(c)] == c);
    }
    assert forall|a: int| 0 <= a < idx.len() implies idx[a] < v.len() by {
        assert(0 <= f(a) < v.len());
    }
    lemma_pigeonhole(idx, v.len() as nat);
}

/// Pigeonhole: a duplicate-free sequence of values below `m` has at most `m` entries.
pub proof fn lemma_pigeonhole(s: Seq<usize>, m: nat)
    requires
        forall|a: int, c: int| 0 <= a < c < s.len() ==> s[a] != s[c],
        forall|a: int| 0 <= a < s.len() ==> s[a] < m,
    ensures
        s.len() <= m,
{
    let t = s.map_values(|x: usize| x as int);
    assert(t.no_duplicates()) by {
        assert forall|a: int, c: int| 0 <= a < t.len() && 0 <= c < t.len() && a != c implies t[a]
            != t[c] by {
            if a < c {
                assert(s[a] != s[c]);
            } else {
                assert(s[c] != s[a]);
            }
        }
    }
    t.unique_seq_to_set();
    vstd::set_lib::lemma_int_range(0, m as int);
    assert(t.to_set().subset_of(vstd::set_lib::set_int_range(0, m as int))) by {
        assert forall|x: int| t.to_set().contains(x) implies vstd::set_lib::set_int_range(
            0,
            m as int,
        ).contains(x) by {
            let a = choose|a: int| 0 <= a < t.len() && t[a] == x;
        }
    }
    vstd::set_lib::lemma_len_subset(t.to_set(), vstd::set_lib::set_int_range(0, m as int));
}

/// Decides whether the map `v` is injective.
pub fn is_injective(v: &[usize]) -> (b: bool)
    ensures
        b == crate::utils::no_duplicates(v@),
{
    let Some(max_val) = max_value(v) else {
        return true;
    };
    proof {
        lemma_image_bound(v@);
    }
    if max_val < usize::MAX && v.len() > max_val + 1 {
        proof {
            if crate::utils::no_duplicates(v@) {
                lemma_pigeonhole(v@, (max_val + 1) as nat);
            }
        }
        return false;
    }
    crate::utils::is_unique(v)
}

/// A sorted map onto `{0, …, max}` starts at `0` and never steps up by more than one.
pub proof fn lemma_sorted_surjective_steps(v: Seq<usize>)
    requires
        is_sorted_seq(v),
        is_surjective_seq(v),
    ensures
        v.len() > 0 ==> v[0] == 0,
        forall|i: int| 1 <= i < v.len() ==> #[trigger] v[i] <= v[i - 1] + 1 && v[i - 1] <= v[i],
{
    lemma_image_bound(v);
    if v.len() > 0 {
        assert(hits(v, 0));
    }
    assert forall|i: int| 1 <= i < v.len() implies #[trigger] v[i] <= v[i - 1] + 1 && v[i - 1]
        <= v[i] by {
        if v[i] > v[i - 1] + 1 {
            let t = v[i - 1] + 1;
            assert(v[i] < image_bound(v));
            assert(hits(v, t));
            let j = choose|j: int| 0 <= j < v.len() && v[j] == t;
            if j <= i - 1 {
                assert(v[j] <= v[i - 1]);
            } else {
                assert(v[i] <= v[j]);
            }
        }
    }
}

/// `surj_map_prefix` only reads the first `k` counts.
pub proof fn lemma_surj_map_prefix_push(c: Seq<usize>, x: usize, k: int)
    requires
        0 <= k <= c.len(),
    ensures
        surj_map_prefix(c.push(x), k) == surj_map_prefix(c, k),
    decreases k,
{
    if k > 0 {
        lemma_surj_map_prefix_push(c, x, k - 1);
        assert(c.push(x)[k - 1] == c[k - 1]);
    }
}

pub proof fn lemma_surj_map_push(c: Seq<usize>, x: usize)
    ensures
        surj_map(c.push(x)) == surj_map(c) + Seq::new((x + 1) as nat, |j: int| c.len() as usize),
{
    lemma_surj_map_prefix_push(c, x, c.len() as int);
    assert(c.push(x)[c.len() as int] == x);
}

/// Starting a new block of the run-length encoding appends the next codomain element.
pub proof fn lemma_surj_run_new(c: Seq<usize>, cnt: usize, prefix: Seq<usize>, val: usize)
    requires
        surj_map(c.push(cnt)) == prefix,
        val == c.len() + 1,
    ensures
        surj_map(c.push(cnt).push(0)) == prefix.push(val),
{
    lemma_surj_map_push(c.push(cnt), 0);
    assert(surj_map(c.push(cnt).push(0)) =~= prefix.push(val));
}

/// Growing the last block of the run-length encoding repeats the last codomain element.
pub proof fn lemma_surj_run_same(c: Seq<usize>, cnt: usize, prefix: Seq<usize>, val: usize)
    requires
        surj_map(c.push(cnt)) == prefix,
        val == c.len(),
        cnt < usize::MAX,
    ensures
        surj_map(c.push((cnt + 1) as usize)) == prefix.push(val),
{
    lemma_surj_map_push(c, cnt);
    lemma_surj_map_push(c, (cnt + 1) as usize);
    assert(surj_map(c.push((cnt + 1) as usize)) =~= prefix.push(val));
}

/// The run-length counts (minus one) of a non-empty map that starts at `0` and
/// steps up by at most one.
fn run_length_counts(v: &Vec<usize>) -> (counts: Vec<usize>)
    requires
        v@.len() > 0,
        v@[0] == 0,
        forall|i: int| 1 <= i < v@.len() ==> #[trigger] v@[i] <= v@[i - 1] + 1 && v@[i - 1] <= v@[i],
    ensures
        surj_map(counts@) == v@,
{
    let mut cur_i: usize = 0;
    let mut count_of_cur_i: usize = 1;
    let mut preimage_card_minus_1: Vec<usize> = Vec::with_capacity(v.len());
    let mut idx: usize = 1;
    assert(surj_map(preimage_card_minus_1@.push(0)) =~= v@.subrange(0, 1)) by {
        lemma_surj_map_push(preimage_card_minus_1@, 0);
    }
    while idx < v.len()
        invariant
            1 <= idx <= v@.len(),
            v@.len() > 0,
            v@[0] == 0,
            forall|i: int| 1 <= i < v@.len() ==> #[trigger] v@[i] <= v@[i - 1] + 1 && v@[i - 1] <= v@[i],
            cur_i == v@[idx - 1],
            preimage_card_minus_1@.len() == cur_i,
            1 <= count_of_cur_i <= idx,
            surj_map(preimage_card_minus_1@.push((count_of_cur_i - 1) as usize)) == v@.subrange(
                0,
                idx as int,
            ),
        decreases v@.len() - idx,
    {
        let cur_v = v[idx];
        assert(v@[idx as int] <= v@[idx - 1] + 1);
        assert(v@[idx - 1] <= v@[idx as int]);
        assert(v@.subrange(0, idx + 1) =~= v@.subrange(0, idx as int).push(cur_v));
        if cur_v > cur_i {
            proof {
                lemma_surj_run_new(
                    preimage_card_minus_1@,
                    (count_of_cur_i - 1) as usize,
                    v@.subrange(0, idx as int),
                    cur_v,
                );
            }
            preimage_card_minus_1.push(count_of_cur_i - 1);
            cur_i = cur_v;
            count_of_cur_i = 1;
        } else {
            proof {
                lemma_surj_run_same(
                    preimage_card_minus_1@,
                    (count_of_cur_i - 1) as usize,
                    v@.subrange(0, idx as int),
                    cur_v,
                );
            }
            count_of_cur_i = count_of_cur_i + 1;
        }
        idx = idx + 1;
    }
    preimage_card_minus_1.push(count_of_cur_i - 1);
    assert(v@.subrange(0, idx as int) =~= v@);
    preimage_card_minus_1
}

impl OrderPresSurj {
    /// Converts a finite set morphism into an order-preserving surjection; fails
    /// unless the map is sorted, onto `{0, …, max}` and has no extra codomain.
    #[verifier::rlimit(40)]
    pub fn from_finset(v_mor: FinSetMorphism) -> (r: Result<Self, TryFromSurjError>)
        ensures
            r is Ok <==> (v_mor.1 == 0 && is_sorted_seq(v_mor.0@) && is_surjective_seq(v_mor.0@)),
            r matches Ok(s) ==> surj_map(s@) == v_mor.0@,
    {
        if v_mor.1 > 0 {
            return Err(TryFromSurjError);
        }
        let v = v_mor.0;
        if !is_sorted_slice(&v) || !is_surjective(&v) {
            return Err(TryFromSurjError);
        }
        if v.len() == 0 {
            let r = Self { preimage_card_minus_1: Vec::new() };
            assert(surj_map(r@) =~= v@);
            return Ok(r);
        }
        proof {
            lemma_sorted_surjective_steps(v@);
        }
        let preimage_card_minus_1 = run_length_counts(&v);
        Ok(Self { preimage_card_minus_1 })
    }
}

/// Error converting a [`FinSetMorphism`] to an [`OrderPresSurj`]:
/// the map is not order-preserving or not surjective.
#[derive(Clone, Copy, Debug, PartialEq)]
pub struct TryFromSurjError;

impl TryFromSurjError {
    /// The text describing this error.
    pub fn message(&self) -> (s: String)
        ensures
            s@ == "ill-formed slice to order preserving surjection conversion attempted"@,
    {
        String::from_str("ill-formed slice to order preserving surjection conversion attempted")
    }
}

impl vstd::std_specs::convert::TryFromSpecImpl<FinSetMorphism> for OrderPresSurj {
    open spec fn obeys_try_from_spec() -> bool {
        false
    }

    open spec fn try_from_spec(v: FinSetMorphism) -> Result<Self, TryFromSurjError> {
        arbitrary()
    }
}

impl TryFrom<FinSetMorphism> for OrderPresSurj {
    type Error = TryFromSurjError;

    fn try_from(v_mor: FinSetMorphism) -> (r: Result<Self, TryFromSurjError>)
        ensures
            r is Ok <==> (v_mor.1 == 0 && is_sorted_seq(v_mor.0@) && is_surjective_seq(v_mor.0@)),
            r matches Ok(s) ==> surj_map(s@) == v_mor.0@,
    {
        Self::from_finset(v_mor)
    }
}


/// One step of decoding the alternating run lengths of an order-preserving
/// injection: an identity run at an even position appends consecutive targets,
/// a gap at an odd position skips targets and records them as trailing codomain.
pub open spec fn inj_step(st: (Seq<usize>, nat, nat), x: usize, even: bool) -> (Seq<usize>, nat, nat) {
    if even {
        (st.0 + range_seq(st.1 as int, st.1 + x), st.1 + x as nat, 0)
    } else {
        (st.0, st.1 + x as nat, x as nat)
    }
}

/// Decodes alternating identity/gap run lengths into `(map, codomain, extra)`.
pub open spec fn inj_state(c: Seq<usize>) -> (Seq<usize>, nat, nat)
    decreases c.len(),
{
    if c.len() == 0 {
        (Seq::empty(), 0, 0)
    } else {
        inj_step(inj_state(c.drop_last()), c.last(), (c.len() - 1) % 2 == 0)
    }
}

/// The map of the order-preserving injection with run lengths `c`.
pub open spec fn inj_map(c: Seq<usize>) -> Seq<usize> {
    inj_state(c).0
}

/// The sum of all run lengths: the codomain size of the injection.
pub open spec fn inj_codomain(c: Seq<usize>) -> nat {
    inj_state(c).1
}

/// The trailing gap after the last identity run (`0` if the runs end with an identity run).
pub open spec fn inj_extra(c: Seq<usize>) -> nat {
    inj_state(c).2
}

/// The sum of the identity runs: the domain size of the injection.
pub open spec fn inj_domain(c: Seq<usize>) -> nat {
    inj_map(c).len()
}

/// The run lengths are the canonical ones: every identity run after the
/// first and every gap is nonempty, so the identity runs are the maximal
/// blocks of consecutive targets; the first run is empty only when a gap
/// follows it.
pub open spec fn canonical_runs(c: Seq<usize>) -> bool {
    &&& forall|j: int| 0 < j < c.len() ==> #[trigger] c[j] > 0
    &&& c.len() == 1 ==> c[0] > 0
}

/// Strictly increasing sequence.
pub open spec fn strictly_increasing(s: Seq<usize>) -> bool {
    forall|i: int, j: int| 0 <= i < j < s.len() ==> s[i] < s[j]
}

pub proof fn lemma_inj_state_push(c: Seq<usize>, x: usize)
    ensures
        inj_state(c.push(x)) == inj_step(inj_state(c), x, c.len() % 2 == 0),
{
    assert(c.push(x).drop_last() =~= c);
}

pub proof fn lemma_inj_state_prefix(c: Seq<usize>, i: int)
    requires
        0 <= i < c.len(),
    ensures
        inj_state(c.subrange(0, i + 1)) == inj_step(inj_state(c.subrange(0, i)), c[i], i % 2 == 0),
{
    assert(c.subrange(0, i + 1) =~= c.subrange(0, i).push(c[i]));
    lemma_inj_state_push(c.subrange(0, i), c[i]);
}

/// The decoded map is strictly increasing and stays below the codomain size.
pub proof fn lemma_inj_map_increasing(c: Seq<usize>)
    requires
        inj_codomain(c) <= usize::MAX,
    ensures
        strictly_increasing(inj_map(c)),
        forall|i: int| 0 <= i < inj_map(c).len() ==> inj_map(c)[i] < inj_codomain(c),
        inj_extra(c) <= inj_codomain(c),
        inj_map(c).len() > 0 ==> inj_map(c).last() + 1 + inj_extra(c) <= inj_codomain(c),
    decreases c.len(),
{
    if c.len() > 0 {
        lemma_inj_map_increasing(c.drop_last());
        let st = inj_state(c.drop_last());
        if (c.len() - 1) % 2 == 0 {
            let a = st.0 + range_seq(st.1 as int, st.1 + c.last());
            let r = range_seq(st.1 as int, st.1 + c.last());
            assert forall|i: int, j: int| 0 <= i < j < a.len() implies a[i] < a[j] by {
                if j >= st.0.len() && i < st.0.len() {
                    assert(st.0[i] < st.1);
                    assert(a[j] == r[j - st.0.len()]);
                } else if i >= st.0.len() {
                    assert(a[j] == r[j - st.0.len()]);
                    assert(a[i] == r[i - st.0.len()]);
                }
            }
            assert forall|i: int| 0 <= i < a.len() implies a[i] < st.1 + c.last() by {
                if i >= st.0.len() {
                    assert(a[i] == r[i - st.0.len()]);
                }
            }
        }
    }
}

/// An order-preserving injection in **FinSet**, stored as alternating run lengths
/// `[identity, gap, identity, gap, …]`.
#[derive(Debug, Clone, PartialEq, Eq)]
pub struct OrderPresInj {
    counts_iden_unit_alternating: Vec<usize>,
}

impl View for OrderPresInj {
    type V = Seq<usize>;

    closed spec fn view(&self) -> Seq<usize> {
        self.counts_iden_unit_alternating@
    }
}

impl OrderPresInj {
    /// The injection with the given alternating run lengths.
    pub fn from_counts(counts: Vec<usize>) -> (r: Self)
        ensures
            r@ == counts@,
    {
        Self { counts_iden_unit_alternating: counts }
    }

    /// The codomain size (sum of all runs) when it fits in a `usize`.
    pub fn codomain_checked(&self) -> (r: Option<usize>)
        ensures
            r matches Some(d) ==> d == inj_codomain(self@),
            r is None ==> inj_codomain(self@) > usize::MAX,
    {
        let c = &self.counts_iden_unit_alternating;
        let mut total: usize = 0;
        let mut i: usize = 0;
        while i < c.len()
            invariant
                i <= c@.len(),
                c@ == self@,
                total == inj_state(c@.subrange(0, i as int)).1,
            decreases c@.len() - i,
        {
            proof {
                lemma_inj_state_prefix(c@, i as int);
            }
            if c[i] > usize::MAX - total {
                proof {
                    lemma_inj_codomain_grows(c@, i + 1);
                }
                return None;
            }
            total = total + c[i];
            i = i + 1;
        }
        assert(c@.subrange(0, i as int) =~= c@);
        Some(total)
    }

    /// The domain size (sum of the identity runs) when it fits in a `usize`.
    pub fn domain_checked(&self) -> (r: Option<usize>)
        ensures
            r matches Some(d) ==> d == inj_domain(self@),
            r is None ==> inj_domain(self@) > usize::MAX,
    {
        let c = &self.counts_iden_unit_alternating;
        let mut total: usize = 0;
        let mut i: usize = 0;
        while i < c.len()
            invariant
                i <= c@.len(),
                c@ == self@,
                total == inj_state(c@.subrange(0, i as int)).0.len(),
            decreases c@.len() - i,
        {
            proof {
                lemma_inj_state_prefix(c@, i as int);
            }
            if i % 2 == 0 {
                if c[i] > usize::MAX - total {
                    proof {
                        lemma_inj_domain_grows(c@, i + 1);
                    }
                    return None;
                }
                total = total + c[i];
            }
            i = i + 1;
        }
        assert(c@.subrange(0, i as int) =~= c@);
        Some(total)
    }

    /// The map of this injection as an ordinary finite set morphism, with the
    /// trailing gap as extra codomain.
    pub fn to_ordinary(&self) -> (r: FinSetMorphism)
        requires
            inj_codomain(self@) <= usize::MAX,
        ensures
            r.0@ == inj_map(self@),
            r.1 == inj_extra(self@),
    {
        let c = &self.counts_iden_unit_alternating;
        let mut answer: Vec<usize> = Vec::new();
        let mut cur_target: usize = 0;
        let mut codomain_minus_greatest_range: usize = 0;
        let mut n: usize = 0;
        while n < c.len()
            invariant
                n <= c@.len(),
                c@ == self@,
                inj_codomain(c@) <= usize::MAX,
                inj_state(c@.subrange(0, n as int)) == (
                    answer@,
                    cur_target as nat,
                    codomain_minus_greatest_range as nat,
                ),
            decreases c@.len() - n,
        {
            proof {
                lemma_inj_state_prefix(c@, n as int);
                lemma_inj_codomain_grows(c@, n + 1);
            }
            let v = c[n];
            if n % 2 == 0 {
                codomain_minus_greatest_range = 0;
                let ghost before = answer@;
                push_range(&mut answer, cur_target, cur_target + v);
                cur_target = cur_target + v;
            } else {
                codomain_minus_greatest_range = v;
                cur_target = cur_target + v;
            }
            n = n + 1;
        }
        assert(c@.subrange(0, n as int) =~= c@);
        (answer, codomain_minus_greatest_range)
    }

    /// The image of a domain element.
    pub fn apply(&self, test_pt: usize) -> (r: usize)
        requires
            inj_codomain(self@) <= usize::MAX,
            test_pt < inj_domain(self@),
        ensures
            r == inj_map(self@)[test_pt as int],
    {
        let ord = self.to_ordinary();
        ord.0[test_pt]
    }

    /// Returns the alternating identity/gap run-length encoding.
    pub fn iden_unit_counts(&self) -> (r: Vec<usize>)
        ensures
            r@ == self@,
    {
        crate::utils::copy_vec(&self.counts_iden_unit_alternating)
    }
}

/// The codomain size only grows along prefixes.
pub proof fn lemma_inj_codomain_grows(c: Seq<usize>, k: int)
    requires
        0 <= k <= c.len(),
    ensures
        inj_state(c.subrange(0, k)).1 <= inj_codomain(c),
    decreases c.len() - k,
{
    if k < c.len() {
        lemma_inj_state_prefix(c, k);
        lemma_inj_codomain_grows(c, k + 1);
    } else {
        assert(c.subrange(0, k) =~= c);
    }
}

/// The domain size only grows along prefixes.
pub proof fn lemma_inj_domain_grows(c: Seq<usize>, k: int)
    requires
        0 <= k <= c.len(),
    ensures
        inj_state(c.subrange(0, k)).0.len() <= inj_domain(c),
    decreases c.len() - k,
{
    if k < c.len() {
        lemma_inj_state_prefix(c, k);
        lemma_inj_domain_grows(c, k + 1);
    } else {
        assert(c.subrange(0, k) =~= c);
    }
}

impl HasIdentity<usize> for OrderPresInj {
    fn identity(on_this: &usize) -> (r: Self)
        ensures
            r@ == seq![*on_this],
    {
        let mut v: Vec<usize> = Vec::new();
        v.push(*on_this);
        Self { counts_iden_unit_alternating: v }
    }
}

impl Monoidal for OrderPresInj {
    /// Concatenates the run lengths, inserting an empty gap first when `self`
    /// ends with an identity run.
    fn monoidal(&mut self, other: Self)
        ensures
            final(self)@ == (if old(self)@.len() % 2 == 1 {
                old(self)@.push(0)
            } else {
                old(self)@
            }) + other@,
    {
        if self.counts_iden_unit_alternating.len() % 2 == 1 {
            self.counts_iden_unit_alternating.push(0);
        }
        let mut o = other.counts_iden_unit_alternating;
        self.counts_iden_unit_alternating.append(&mut o);
    }
}

impl Composable<usize> for OrderPresInj {
    fn composable(&self, other: &Self) -> (r: Result<(), CatgraphError>)
        ensures
            r is Ok <==> (inj_codomain(self@) <= usize::MAX && inj_codomain(self@) == inj_domain(
                other@,
            )),
            r is Err ==> r->Err_0 is Composition,
    {
        match (self.codomain_checked(), other.domain_checked()) {
            (Some(c), Some(d)) => {
                if c == d {
                    Ok(())
                } else {
                    Err(mismatch_error(c, d))
                }
            },
            (Some(c), None) => Err(mismatch_error(c, usize::MAX)),
            (None, Some(d)) => Err(mismatch_error(usize::MAX, d)),
            (None, None) => Err(mismatch_error(usize::MAX, usize::MAX)),
        }
    }

    /// Composite of order-preserving injections, computed through their
    /// ordinary maps. Fails when the codomain of `other` does not fit in a
    /// `usize`, or when the codomain of `self` as an ordinary map differs from
    /// the domain of `other`.
    fn compose(&self, other: &Self) -> (r: Result<Self, CatgraphError>)
        ensures
            r is Ok <==> (inj_codomain(self@) <= usize::MAX && inj_codomain(self@) == inj_domain(
                other@,
            ) && inj_codomain(other@) <= usize::MAX && fin_codomain(inj_map(self@), inj_extra(self@))
                == inj_domain(other@)),
            r matches Ok(c) ==> inj_map(c@) == compose_maps(inj_map(self@), inj_map(other@)),
            r is Err ==> r->Err_0 is Composition,
    {
        match self.composable(other) {
            Ok(()) => {},
            Err(e) => {
                return Err(e);
            },
        }
        if other.codomain_checked().is_none() {
            return Err(CatgraphError::Composition {
                message: String::from_str("codomain of other overflows usize"),
            });
        }
        let ord_self = self.to_ordinary();
        let ord_other = other.to_ordinary();
        let composite = match ord_self.compose(&ord_other) {
            Ok(c) => c,
            Err(e) => {
                return Err(e);
            },
        };
        proof {
            lemma_inj_map_increasing(self@);
            lemma_inj_map_increasing(other@);
            lemma_image_bound(inj_map(other@));
            let m = composite.0@;
            assert forall|i: int, j: int| 0 <= i < j < m.len() implies m[i] < m[j] by {
                assert(inj_map(self@)[i] < inj_map(self@)[j]);
            }
            assert forall|i: int| 0 <= i < m.len() implies m[i] < usize::MAX by {
                assert(inj_map(other@)[inj_map(self@)[i] as int] < inj_codomain(other@));
            }
        }
        match Self::from_finset(composite) {
            Ok(c) => Ok(c),
            Err(_) => Err(CatgraphError::Composition { message: String::from_str("???") }),
        }
    }

    /// The domain size; saturates at `usize::MAX` when it does not fit.
    fn domain(&self) -> (r: usize)
        ensures
            inj_domain(self@) <= usize::MAX ==> r == inj_domain(self@),
            inj_domain(self@) > usize::MAX ==> r == usize::MAX,
    {
        match self.domain_checked() {
            Some(d) => d,
            None => usize::MAX,
        }
    }

    /// The codomain size; saturates at `usize::MAX` when it does not fit.
    fn codomain(&self) -> (r: usize)
        ensures
            inj_codomain(self@) <= usize::MAX ==> r == inj_codomain(self@),
            inj_codomain(self@) > usize::MAX ==> r == usize::MAX,
    {
        match self.codomain_checked() {
            Some(d) => d,
            None => usize::MAX,
        }
    }
}

impl MonoidalMorphism<usize> for OrderPresInj {

}

/// Error converting a [`FinSetMorphism`] to an [`OrderPresInj`]:
/// the map is not order-preserving or not injective.
#[derive(Clone, Copy, Debug, PartialEq)]
pub struct TryFromInjError;

impl TryFromInjError {
    /// The text describing this error.
    pub fn message(&self) -> (s: String)
        ensures
            s@ == "ill-formed slice to order preserving injection conversion attempted"@,
    {
        String::from_str("ill-formed slice to order preserving injection conversion attempted")
    }
}

pub proof fn lemma_inj_new_run(counts: Seq<usize>, cur: usize, gap: usize, prefix: Seq<usize>, p: usize, val: usize)
    requires
        counts.len() % 2 == 0,
        inj_state(counts.push(cur)) == (prefix, p as nat, 0nat),
        val == p + gap,
        val < usize::MAX,
    ensures
        inj_state(counts.push(cur).push(gap).push(1)) == (prefix.push(val), (val + 1) as nat, 0nat),
{
    lemma_inj_state_push(counts, cur);
    lemma_inj_state_push(counts.push(cur), gap);
    lemma_inj_state_push(counts.push(cur).push(gap), 1);
    assert(range_seq(val as int, val + 1) =~= seq![val]);
}

pub proof fn lemma_inj_same_run(counts: Seq<usize>, cur: usize, prefix: Seq<usize>, p: usize)
    requires
        counts.len() % 2 == 0,
        inj_state(counts.push(cur)) == (prefix, p as nat, 0nat),
        p < usize::MAX,
        cur < usize::MAX,
    ensures
        inj_state(counts.push((cur + 1) as usize)) == (prefix.push(p), (p + 1) as nat, 0nat),
{
    lemma_inj_state_push(counts, cur);
    lemma_inj_state_push(counts, (cur + 1) as usize);
    let st = inj_state(counts);
    assert(range_seq(st.1 as int, st.1 + cur + 1) =~= range_seq(st.1 as int, st.1 + cur).push(p));
}

impl OrderPresInj {
    /// Converts a finite set morphism into an order-preserving injection; fails
    /// unless the map is sorted and injective. A map that contains `usize::MAX`
    /// is refused as well.
    pub fn from_finset(v_mor: FinSetMorphism) -> (r: Result<Self, TryFromInjError>)
        ensures
            r is Ok <==> (is_sorted_seq(v_mor.0@) && crate::utils::no_duplicates(v_mor.0@) && forall|
                i: int,
            | 0 <= i < v_mor.0@.len() ==> v_mor.0@[i] < usize::MAX),
            r matches Ok(s) ==> inj_map(s@) == v_mor.0@ && inj_extra(s@) == v_mor.1,
            r matches Ok(s) ==> inj_codomain(s@) == fin_codomain(v_mor.0@, v_mor.1 as nat),
            r matches Ok(s) ==> canonical_runs(s@),
    {
        let v = v_mor.0;
        if !is_sorted_slice(&v) || !is_injective(&v) {
            return Err(TryFromInjError);
        }
        let n = v.len();
        if n > 0 && v[n - 1] == usize::MAX {
            return Err(TryFromInjError);
        }
        proof {
            assert forall|i: int| 0 <= i < v@.len() implies v@[i] < usize::MAX by {
                assert(v@[i] <= v@[n - 1]);
            }
        }
        if n == 0 {
            let mut c: Vec<usize> = Vec::new();
            if v_mor.1 > 0 {
                c.push(0);
                c.push(v_mor.1);
                proof {
                    lemma_inj_state_push(seq![], 0);
                    assert(seq![0usize].push(v_mor.1) =~= seq![0usize, v_mor.1]);
                    lemma_inj_state_push(seq![0usize], v_mor.1);
                }
            }
            let r = Self { counts_iden_unit_alternating: c };
            assert(inj_map(r@) =~= v@);
            proof {
                lemma_image_bound(v@);
            }
            return Ok(r);
        }
        let mut previous_entry_plus_1: usize = 0;
        let mut cur_consecutive: usize = 0;
        let mut counts: Vec<usize> = Vec::new();
        let mut i: usize = 0;
        proof {
            lemma_inj_state_push(seq![], 0);
            assert(inj_state(counts@.push(0)) =~= (v@.subrange(0, 0), 0nat, 0nat));
        }
        while i < n
            invariant
                n == v@.len(),
                i <= n,
                is_sorted_seq(v@),
                crate::utils::no_duplicates(v@),
                forall|j: int| 0 <= j < n ==> v@[j] < usize::MAX,
                counts@.len() % 2 == 0,
                forall|j: int| 0 < j < counts@.len() ==> #[trigger] counts@[j] > 0,
                i == 0 ==> counts@.len() == 0,
                cur_consecutive <= i,
                i > 0 ==> cur_consecutive > 0,
                i > 0 ==> previous_entry_plus_1 == v@[i - 1] + 1,
                i == 0 ==> previous_entry_plus_1 == 0,
                inj_state(counts@.push(cur_consecutive)) == (
                    v@.subrange(0, i as int),
                    previous_entry_plus_1 as nat,
                    0nat,
                ),
            decreases n - i,
        {
            let cur_v = v[i];
            if i > 0 {
                assert(v@[i - 1] <= v@[i as int]);
                assert(v@[i - 1] != v@[i as int]);
            }
            assert(v@.subrange(0, i + 1) =~= v@.subrange(0, i as int).push(cur_v));
            if cur_v == previous_entry_plus_1 {
                proof {
                    lemma_inj_same_run(
                        counts@,
                        cur_consecutive,
                        v@.subrange(0, i as int),
                        previous_entry_plus_1,
                    );
                }
                cur_consecutive = cur_consecutive + 1;
            } else {
                proof {
                    lemma_inj_new_run(
                        counts@,
                        cur_consecutive,
                        (cur_v - previous_entry_plus_1) as usize,
                        v@.subrange(0, i as int),
                        previous_entry_plus_1,
                        cur_v,
                    );
                }
                let ghost c0 = counts@;
                assert(cur_v > previous_entry_plus_1);
                assert(counts@.len() > 0 ==> i > 0);
                counts.push(cur_consecutive);
                counts.push(cur_v - previous_entry_plus_1);
                assert forall|j: int| 0 < j < counts@.len() implies #[trigger] counts@[j] > 0 by {
                    if j < c0.len() {
                        assert(counts@[j] == c0[j]);
                    }
                }
                cur_consecutive = 1;
            }
            previous_entry_plus_1 = cur_v + 1;
            i = i + 1;
        }
        assert(v@.subrange(0, i as int) =~= v@);
        let ghost before = counts@;
        counts.push(cur_consecutive);
        proof {
            assert forall|j: int| 0 <= j < v@.len() implies #[trigger] v@[j] < v@[n - 1] + 1 by {
                assert(v@[j] <= v@[n - 1]);
            }
            lemma_image_bound_char(v@, (v@[n - 1] + 1) as nat);
        }
        if v_mor.1 > 0 {
            proof {
                lemma_inj_state_push(counts@, v_mor.1);
            }
            counts.push(v_mor.1);
        }
        Ok(Self { counts_iden_unit_alternating: counts })
    }
}

impl vstd::std_specs::convert::TryFromSpecImpl<FinSetMorphism> for OrderPresInj {
    open spec fn obeys_try_from_spec() -> bool {
        false
    }

    open spec fn try_from_spec(v: FinSetMorphism) -> Result<Self, TryFromInjError> {
        arbitrary()
    }
}

impl TryFrom<FinSetMorphism> for OrderPresInj {
    type Error = TryFromInjError;

    fn try_from(v_mor: FinSetMorphism) -> (r: Result<Self, TryFromInjError>)
        ensures
            r is Ok <==> (is_sorted_seq(v_mor.0@) && crate::utils::no_duplicates(v_mor.0@) && forall|
                i: int,
            | 0 <= i < v_mor.0@.len() ==> v_mor.0@[i] < usize::MAX),
            r matches Ok(s) ==> inj_map(s@) == v_mor.0@ && inj_extra(s@) == v_mor.1,
            r matches Ok(s) ==> inj_codomain(s@) == fin_codomain(v_mor.0@, v_mor.1 as nat),
            r matches Ok(s) ==> canonical_runs(s@),
    {
        Self::from_finset(v_mor)
    }
}


/// The epi-mono factorization of a map into a surjection and an injection:
/// consecutive equal values of `v` are sent to the same index of `inj`.
pub open spec fn epi_mono_parts(v: Seq<usize>, surj: Seq<usize>, inj: Seq<usize>) -> bool {
    &&& surj.len() == v.len()
    &&& v.len() == 0 ==> inj.len() == 0
    &&& v.len() > 0 ==> surj[0] == 0 && inj.len() == surj.last() + 1
    &&& forall|i: int|
        1 <= i < v.len() ==> #[trigger] surj[i] == if v[i] == v[i - 1] {
            surj[i - 1] as int
        } else {
            surj[i - 1] + 1
        }
    &&& compose_maps(surj, inj) == v
}

/// Factors a map into an order-preserving surjection onto the runs of equal
/// consecutive values, followed by the map that sends each run to its value.
pub fn monotone_epi_mono_fact(v: FinSetMap) -> (r: (FinSetMap, FinSetMap))
    ensures
        epi_mono_parts(v@, r.0@, r.1@),
{
    if v.len() == 0 {
        let r: (FinSetMap, FinSetMap) = (Vec::new(), Vec::new());
        assert(compose_maps(r.0@, r.1@) =~= v@);
        return r;
    }
    let n = v.len();
    let mut surj_part: Vec<usize> = Vec::with_capacity(n);
    let mut inj_part: Vec<usize> = Vec::with_capacity(n);
    let mut current_image_number: usize = 0;
    let mut current_image_number_in_tgt: usize = v[0];
    surj_part.push(current_image_number);
    inj_part.push(v[0]);
    let mut cur_index: usize = 1;
    while cur_index < n
        invariant
            n == v@.len(),
            1 <= cur_index <= n,
            surj_part@.len() == cur_index,
            surj_part@[0] == 0,
            current_image_number == surj_part@[cur_index - 1],
            current_image_number < cur_index,
            inj_part@.len() == current_image_number + 1,
            current_image_number_in_tgt == v@[cur_index - 1],
            inj_part@[current_image_number as int] == current_image_number_in_tgt,
            forall|i: int|
                1 <= i < cur_index ==> #[trigger] surj_part@[i] == if v@[i] == v@[i - 1] {
                    surj_part@[i - 1] as int
                } else {
                    surj_part@[i - 1] + 1
                },
            forall|i: int| 0 <= i < cur_index ==> surj_part@[i] <= current_image_number,
            forall|i: int| 0 <= i < cur_index ==> inj_part@[#[trigger] surj_part@[i] as int] == v@[i],
        decreases n - cur_index,
    {
        let cur_item = v[cur_index];
        if cur_item == current_image_number_in_tgt {
            surj_part.push(current_image_number);
        } else {
            current_image_number = current_image_number + 1;
            current_image_number_in_tgt = cur_item;
            surj_part.push(current_image_number);
            inj_part.push(cur_item);
        }
        cur_index = cur_index + 1;
    }
    assert(compose_maps(surj_part@, inj_part@) =~= v@);
    (surj_part, inj_part)
}

/// Error converting a [`FinSetMorphism`] to a [`Decomposition`]:
/// the epi-mono factorization could not be computed.
#[derive(Clone, Copy, Debug, PartialEq)]
pub struct TryFromFinSetError;

impl TryFromFinSetError {
    /// The text describing this error.
    pub fn message(&self) -> (s: String)
        ensures
            s@ == "ill-formed slice to order preserving map conversion attempted"@,
    {
        String::from_str("ill-formed slice to order preserving map conversion attempted")
    }
}

/// Composition of finite set maps is associative.
pub proof fn law_finset_compose_assoc(f: Seq<usize>, g: Seq<usize>, h: Seq<usize>)
    requires
        forall|i: int| 0 <= i < f.len() ==> f[i] < g.len(),
        forall|i: int| 0 <= i < g.len() ==> g[i] < h.len(),
    ensures
        compose_maps(compose_maps(f, g), h) == compose_maps(f, compose_maps(g, h)),
{
    assert(compose_maps(compose_maps(f, g), h) =~= compose_maps(f, compose_maps(g, h)));
}

/// The identity map is a left and right unit for composition of finite set maps.
pub proof fn law_finset_identity(f: Seq<usize>, n: nat, m: nat)
    requires
        f.len() == n,
        forall|i: int| 0 <= i < f.len() ==> f[i] < m,
        n <= usize::MAX,
        m <= usize::MAX,
    ensures
        compose_maps(range_seq(0, n as int), f) == f,
        compose_maps(f, range_seq(0, m as int)) == f,
{
    assert(compose_maps(range_seq(0, n as int), f) =~= f);
    assert(compose_maps(f, range_seq(0, m as int)) =~= f);
}

/// Prefix sums of a composite surjection are the prefix sums of the first
/// factor taken at the prefix sums of the second.
pub proof fn lemma_surj_compose_psum(f: Seq<usize>, g: Seq<usize>, r: Seq<usize>, k: int)
    requires
        r.len() == g.len(),
        forall|j: int| 0 <= j < g.len() ==> #[trigger] r[j] + 1 == surj_block(f, g, j),
        0 <= k <= g.len(),
    ensures
        psum(r, k) == psum(f, psum(g, k) as int),
    decreases k,
{
    if k > 0 {
        lemma_surj_compose_psum(f, g, r, k - 1);
        assert(r[k - 1] + 1 == surj_block(f, g, k - 1));
    }
}

/// The element `i` lies in block `surj_map(c)[i]`.
pub proof fn lemma_surj_map_in_block(c: Seq<usize>, i: int)
    requires
        0 <= i < surj_domain(c),
        c.len() <= usize::MAX,
    ensures
        0 <= surj_map(c)[i] < c.len(),
        psum(c, surj_map(c)[i] as int) <= i < psum(c, surj_map(c)[i] + 1),
{
    lemma_surj_map_prefix_len(c, c.len() as int);
    let t = choose_block(c, i, c.len() as int);
    lemma_surj_map_block(c, c.len() as int, t, i);
}

/// The block of `c` among the first `k` that contains `i`.
pub proof fn choose_block(c: Seq<usize>, i: int, k: int) -> (t: int)
    requires
        0 <= k <= c.len(),
        0 <= i < psum(c, k),
    ensures
        0 <= t < k,
        psum(c, t) <= i < psum(c, t + 1),
    decreases k,
{
    if i < psum(c, k - 1) {
        choose_block(c, i, k - 1)
    } else {
        k - 1
    }
}

/// Composing order-preserving surjections agrees with composing their maps.
pub proof fn law_surj_compose_map(f: Seq<usize>, g: Seq<usize>, r: Seq<usize>)
    requires
        f.len() == surj_domain(g),
        f.len() <= usize::MAX,
        g.len() <= usize::MAX,
        r.len() == g.len(),
        forall|j: int| 0 <= j < g.len() ==> #[trigger] r[j] + 1 == surj_block(f, g, j),
    ensures
        surj_map(r) == compose_maps(surj_map(f), surj_map(g)),
{
    lemma_surj_compose_psum(f, g, r, g.len() as int);
    lemma_surj_map_prefix_len(f, f.len() as int);
    lemma_surj_map_prefix_len(r, r.len() as int);
    assert forall|i: int| 0 <= i < surj_map(r).len() implies surj_map(r)[i] == compose_maps(
        surj_map(f),
        surj_map(g),
    )[i] by {
        lemma_surj_map_in_block(f, i);
        let j = surj_map(f)[i] as int;
        lemma_surj_map_in_block(g, j);
        let k = surj_map(g)[j] as int;
        lemma_psum_mono(f, psum(g, k) as int, j);
        lemma_psum_mono(f, j + 1, psum(g, k + 1) as int);
        lemma_surj_compose_psum(f, g, r, k);
        lemma_surj_compose_psum(f, g, r, k + 1);
        lemma_surj_map_block(r, r.len() as int, k, i);
    }
    assert(surj_map(r) =~= compose_maps(surj_map(f), surj_map(g)));
}


/// Position `a` comes before position `b` when sorting `v` stably: a smaller
/// value, or an equal value at an earlier position.
pub open spec fn key_less(v: Seq<usize>, a: int, b: int) -> bool {
    v[a] < v[b] || (v[a] == v[b] && a < b)
}

/// `a` lists the positions of `v` sorted by value, equal values in the order
/// of their positions.
pub open spec fn stably_sorts(v: Seq<usize>, a: Seq<usize>) -> bool {
    &&& is_permutation_of(a, v.len())
    &&& forall|i: int, j: int| 0 <= i < j < a.len() ==> key_less(v, #[trigger] a[i] as int, #[trigger] a[j] as int)
}

/// Exchanging two entries of a permutation keeps it a permutation.
proof fn lemma_swap_permutation(a: Seq<usize>, n: nat, i: int, j: int)
    requires
        is_permutation_of(a, n),
        0 <= i < n,
        0 <= j < n,
    ensures
        is_permutation_of(a.update(i, a[j]).update(j, a[i]), n),
{
    let b = a.update(i, a[j]).update(j, a[i]);
    assert forall|p: int, q: int| 0 <= p < q < n implies b[p] != b[q] by {
        let sp = if p == j {
            i
        } else if p == i {
            j
        } else {
            p
        };
        let sq = if q == j {
            i
        } else if q == i {
            j
        } else {
            q
        };
        assert(b[p] == a[sp]);
        assert(b[q] == a[sq]);
        if sp < sq {
            assert(a[sp] != a[sq]);
        } else {
            assert(a[sq] != a[sp]);
        }
    }
}

/// The entries of `x` at the positions `a`, in order.
fn gather(x: &[usize], a: &[usize]) -> (r: Vec<usize>)
    requires
        forall|i: int| 0 <= i < a@.len() ==> a@[i] < x@.len(),
    ensures
        r@ == permuted(x@, a@),
{
    let mut r: Vec<usize> = Vec::with_capacity(a.len());
    let mut i: usize = 0;
    while i < a.len()
        invariant
            i <= a@.len(),
            forall|k: int| 0 <= k < a@.len() ==> a@[k] < x@.len(),
            r@ == permuted(x@, a@.subrange(0, i as int)),
        decreases a@.len() - i,
    {
        r.push(x[a[i]]);
        i = i + 1;
        assert(r@ =~= permuted(x@, a@.subrange(0, i as int)));
    }
    assert(a@.subrange(0, i as int) =~= a@);
    r
}

/// Sorts `x` stably and returns the permutation `p` with `x_sorted[i] ==
/// x[p(i)]`: `p` lists the old positions in sorted order.
pub fn permutation_sort(x: &mut Vec<usize>) -> (r: Permutation)
    ensures
        stably_sorts(old(x)@, perm_values(r)),
        final(x)@ == permuted(old(x)@, perm_values(r)),
        is_sorted_seq(final(x)@),
{
    let n = x.len();
    let ghost v = x@;
    let mut a: Vec<usize> = Vec::new();
    push_range(&mut a, 0, n);
    let mut i: usize = 0;
    while i < n
        invariant
            v == x@,
            n == v.len(),
            i <= n,
            is_permutation_of(a@, n as nat),
            forall|k: int| i <= k < n ==> a@[k] == k,
            forall|p: int, q: int| 0 <= p < q < i ==> key_less(v, #[trigger] a@[p] as int, #[trigger] a@[q] as int),
        decreases n - i,
    {
        let mut j: usize = i;
        proof {
            assert forall|p: int| 0 <= p < i implies a@[p] < i by {
                if a@[p] >= i {
                    assert(a@[a@[p] as int] == a@[p]);
                }
            }
        }
        while j > 0 && x[a[j - 1]] > x[a[j]]
            invariant
                v == x@,
                n == v.len(),
                j <= i < n,
                is_permutation_of(a@, n as nat),
                a@[j as int] == i,
                forall|k: int| i < k < n ==> a@[k] == k,
                forall|p: int| 0 <= p <= i && p != j ==> a@[p] < i,
                forall|p: int, q: int|
                    0 <= p < q <= i && p != j && q != j ==> key_less(v, #[trigger] a@[p] as int, #[trigger] a@[q] as int),
                forall|q: int| j < q <= i ==> key_less(v, i as int, #[trigger] a@[q] as int),
            decreases j,
        {
            let ghost before = a@;
            let t = a[j - 1];
            let u = a[j];
            a.set(j - 1, u);
            a.set(j, t);
            proof {
                assert(a@ == before.update(j - 1, before[j as int]).update(j as int, before[j - 1]));
                lemma_swap_permutation(before, n as nat, j - 1, j as int);
                assert(key_less(v, i as int, t as int));
            }
            j = j - 1;
        }
        proof {
            assert forall|p: int, q: int| 0 <= p < q < i + 1 implies key_less(v, #[trigger] a@[p] as int, #[trigger] a@[q] as int) by {
                if q == j && p < j {
                    assert(key_less(v, a@[p] as int, a@[j - 1] as int) || p == j - 1);
                    assert(key_less(v, a@[j - 1] as int, i as int));
                }
            }
        }
        i = i + 1;
    }
    let ghost aa = a@;
    let sorted = gather(x.as_slice(), a.as_slice());
    proof {
        assert forall|p: int, q: int| 0 <= p <= q < n implies sorted@[p] <= sorted@[q] by {
            if p < q {
                assert(key_less(v, aa[p] as int, aa[q] as int));
            }
        }
    }
    *x = sorted;
    let r = perm_try_from(a);
    match r {
        Some(p) => p,
        None => {
            proof {
                assert(false);
            }
            perm_identity(n)
        },
    }
}

/// The images of the permutation built from the cycle `c[k..]` on `n`
/// elements: the cycle of the tail, followed by the exchange of `c[k]` and
/// `c[k + 1]`; the identity for fewer than two entries.
pub open spec fn cycle_images(n: nat, c: Seq<usize>, k: int) -> Seq<usize>
    decreases c.len() - k,
{
    if c.len() - k < 2 {
        Seq::new(n, |i: int| i as usize)
    } else {
        let rest = cycle_images(n, c, k + 1);
        Seq::new(
            n,
            |i: int|
                if rest[i] == c[k] {
                    c[k + 1]
                } else if rest[i] == c[k + 1] {
                    c[k]
                } else {
                    rest[i]
                },
        )
    }
}

/// No entry of `c[k..]` occurs twice.
pub open spec fn distinct_from(c: Seq<usize>, k: int) -> bool {
    forall|i: int, j: int| k <= i < j < c.len() ==> c[i] != c[j]
}

/// For distinct entries, the cycle `c[k..]` sends each entry to the next, the
/// last back to `c[k]`, and fixes every other element.
pub proof fn lemma_cycle_images(n: nat, c: Seq<usize>, k: int)
    requires
        0 <= k <= c.len(),
        n <= usize::MAX,
        forall|i: int| 0 <= i < c.len() ==> c[i] < n,
        distinct_from(c, k),
    ensures
        cycle_images(n, c, k).len() == n,
        c.len() - k >= 2 ==> forall|i: int| k <= i < c.len() - 1 ==> cycle_images(n, c, k)[#[trigger] c[i] as int] == c[i + 1],
        c.len() - k >= 2 ==> cycle_images(n, c, k)[c[c.len() - 1] as int] == c[k],
        forall|x: int|
            0 <= x < n && (forall|i: int| k <= i < c.len() ==> c[i] != x) ==> cycle_images(n, c, k)[x] == x,
    decreases c.len() - k,
{
    if c.len() - k >= 2 {
        lemma_cycle_images(n, c, k + 1);
        let rest = cycle_images(n, c, k + 1);
        let r = cycle_images(n, c, k);
        assert(rest[c[k] as int] == c[k]) by {
            if c.len() - (k + 1) >= 2 {
                assert forall|i: int| k + 1 <= i < c.len() implies c[i] != c[k] by {
                    assert(c[k] != c[i]);
                }
            }
        }
        assert forall|i: int| k <= i < c.len() - 1 implies r[#[trigger] c[i] as int] == c[i + 1] by {
            if i > k {
                if c.len() - (k + 1) >= 2 {
                    assert(rest[c[i] as int] == c[i + 1]);
                    assert(c[i + 1] != c[k]);
                    assert(c[i + 1] != c[k + 1]);
                }
            }
        }
        if c.len() - (k + 1) >= 2 {
            assert(rest[c[c.len() - 1] as int] == c[k + 1]);
        }
        assert forall|x: int|
            0 <= x < n && (forall|i: int| k <= i < c.len() ==> c[i] != x) implies r[x] == x by {
            assert(c[k] != x);
            assert(c[k + 1] != x);
            assert(rest[x] == x);
        }
    }
}

/// The permutation built from the cycle `cycle[k..]`.
fn from_cycle_from(n: usize, cycle: &[usize], k: usize) -> (r: Permutation)
    requires
        k <= cycle@.len(),
        forall|i: int| 0 <= i < cycle@.len() ==> cycle@[i] < n,
    ensures
        perm_values(r) == cycle_images(n as nat, cycle@, k as int),
    decreases cycle@.len() - k,
{
    if cycle.len() - k < 2 {
        return perm_identity(n);
    }
    let part1 = perm_transposition(n, cycle[k], cycle[k + 1]);
    let rest = from_cycle_from(n, cycle, k + 1);
    let _len = perm_len(&rest);
    let r = perm_mul(rest, part1);
    proof {
        assert(perm_values(r) =~= cycle_images(n as nat, cycle@, k as int));
    }
    r
}

/// The permutation of `n` elements given by one cycle in cycle notation: for
/// distinct entries, `[a, b, c]` sends `a` to `b`, `b` to `c`, `c` to `a`
/// and fixes everything else; fewer than two entries give the identity.
pub fn from_cycle(n: usize, cycle: &[usize]) -> (r: Permutation)
    requires
        forall|i: int| 0 <= i < cycle@.len() ==> cycle@[i] < n,
    ensures
        perm_values(r) == cycle_images(n as nat, cycle@, 0),
        distinct_from(cycle@, 0) && cycle@.len() >= 2 ==> {
            &&& forall|i: int| 0 <= i < cycle@.len() - 1 ==> perm_values(r)[#[trigger] cycle@[i] as int] == cycle@[i + 1]
            &&& perm_values(r)[cycle@[cycle@.len() - 1] as int] == cycle@[0]
        },
        distinct_from(cycle@, 0) ==> forall|x: int|
            0 <= x < n && (forall|i: int| 0 <= i < cycle@.len() ==> cycle@[i] != x) ==> perm_values(r)[x] == x,
{
    let r = from_cycle_from(n, cycle, 0);
    proof {
        if distinct_from(cycle@, 0) {
            lemma_cycle_images(n as nat, cycle@, 0);
        }
    }
    r
}

/// The surjection with `n` blocks of one element each is the identity.
proof fn lemma_surj_zeros(n: nat, k: int)
    requires
        0 <= k <= n,
        n <= usize::MAX,
    ensures
        surj_map_prefix(Seq::new(n, |i: int| 0usize), k) == Seq::new(k as nat, |i: int| i as usize),
        psum(Seq::new(n, |i: int| 0usize), k) == k,
    decreases k,
{
    if k > 0 {
        lemma_surj_zeros(n, k - 1);
        assert(surj_map_prefix(Seq::new(n, |i: int| 0usize), k) =~= Seq::new(k as nat, |i: int| i as usize));
    }
}

/// The epi-mono factorization of a map of finite sets, `f = ι ∘ π ∘ σ`: a
/// permutation `σ` of the domain, an order-preserving surjection `π`, and an
/// order-preserving injection `ι` into the codomain.
pub struct Decomposition {
    permutation_part: Permutation,
    order_preserving_surjection: OrderPresSurj,
    order_preserving_injection: OrderPresInj,
}

impl Decomposition {
    /// The three parts fit together and the codomain fits in a `usize`.
    #[verifier::type_invariant]
    pub closed spec fn parts_fit(&self) -> bool {
        &&& is_permutation_of(perm_values(self.permutation_part), surj_domain(self.order_preserving_surjection@))
        &&& self.order_preserving_surjection@.len() == inj_domain(self.order_preserving_injection@)
        &&& inj_codomain(self.order_preserving_injection@) <= usize::MAX
    }

    /// The images of the permutation part.
    pub closed spec fn perm(&self) -> Seq<usize> {
        perm_values(self.permutation_part)
    }

    /// The counts of the surjection part.
    pub closed spec fn surj(&self) -> Seq<usize> {
        self.order_preserving_surjection@
    }

    /// The run lengths of the injection part.
    pub closed spec fn inj(&self) -> Seq<usize> {
        self.order_preserving_injection@
    }

    /// The map `x ↦ ι(π(σ(x)))`.
    pub open spec fn map(&self) -> Seq<usize> {
        Seq::new(self.perm().len(), |x: int| inj_map(self.inj())[surj_map(self.surj())[self.perm()[x] as int] as int])
    }

    /// The size of the codomain.
    pub open spec fn cod_size(&self) -> nat {
        inj_codomain(self.inj())
    }

    /// The three parts fit together, and every image lies in the codomain.
    pub(crate) proof fn lemma_parts(&self)
        requires
            self.parts_fit(),
        ensures
            is_permutation_of(self.perm(), surj_domain(self.surj())),
            self.surj().len() == inj_domain(self.inj()),
            self.cod_size() <= usize::MAX,
            surj_map(self.surj()).len() == surj_domain(self.surj()),
            forall|x: int| 0 <= x < self.perm().len() ==> #[trigger] self.map()[x] < self.cod_size(),
    {
        lemma_surj_map_prefix_len(self.surj(), self.surj().len() as int);
        lemma_inj_map_increasing(self.inj());
        assert forall|x: int| 0 <= x < self.perm().len() implies #[trigger] self.map()[x] < self.cod_size() by {
            let y = surj_map(self.surj())[self.perm()[x] as int];
            assert(y < self.surj().len());
        }
    }

    /// The image of a domain element: `ι(π(σ(x)))`.
    pub fn apply(&self, test_pt: usize) -> (r: usize)
        requires
            test_pt < self.perm().len(),
        ensures
            r == self.map()[test_pt as int],
    {
        proof {
            use_type_invariant(self);
            self.lemma_parts();
            lemma_surj_map_prefix_len(self.surj(), self.surj().len() as int);
        }
        let dest_after_perm = perm_apply(&self.permutation_part, test_pt);
        let dest_after_surj = self.order_preserving_surjection.apply(dest_after_perm);
        self.order_preserving_injection.apply(dest_after_surj)
    }

    /// The map as an ordinary finite set morphism, its codomain kept.
    pub fn to_ordinary(&self) -> (r: FinSetMorphism)
        ensures
            r.0@ == self.map(),
            fin_codomain(r.0@, r.1 as nat) == self.cod_size(),
    {
        proof {
            use_type_invariant(self);
            self.lemma_parts();
        }
        let wanted_codomain = self.codomain();
        let n = perm_len(&self.permutation_part);
        let mut map_part: Vec<usize> = Vec::with_capacity(n);
        let mut z: usize = 0;
        while z < n
            invariant
                z <= n,
                n == self.perm().len(),
                map_part@ == self.map().subrange(0, z as int),
            decreases n - z,
        {
            let y = self.apply(z);
            map_part.push(y);
            z = z + 1;
            assert(map_part@ =~= self.map().subrange(0, z as int));
        }
        assert(map_part@ =~= self.map());
        proof {
            lemma_image_bound(map_part@);
        }
        match max_value(&map_part) {
            Some(max_val) => {
                proof {
                    let j = choose|j: int| 0 <= j < map_part@.len() && map_part@[j] + 1 == image_bound(map_part@);
                    assert(self.map()[j] < self.cod_size());
                }
                let leftover_needed = wanted_codomain.saturating_sub(max_val + 1);
                (map_part, leftover_needed)
            },
            None => (map_part, wanted_codomain),
        }
    }

    /// The parts `(σ, π, ι)`.
    pub fn get_parts(&self) -> (r: (&Permutation, &OrderPresSurj, &OrderPresInj))
        ensures
            perm_values(*r.0) == self.perm(),
            r.1@ == self.surj(),
            r.2@ == self.inj(),
    {
        (&self.permutation_part, &self.order_preserving_surjection, &self.order_preserving_injection)
    }
}

impl HasIdentity<usize> for Decomposition {
    /// The identity on `n` elements: all three parts are identities.
    fn identity(on_this: &usize) -> (r: Self)
        ensures
            r.perm() == Seq::new(*on_this as nat, |i: int| i as usize),
            r.surj() == Seq::new(*on_this as nat, |i: int| 0usize),
            r.inj() == seq![*on_this],
            r.map() == Seq::new(*on_this as nat, |i: int| i as usize),
            r.cod_size() == *on_this,
    {
        let n = *on_this;
        let permutation_part = perm_identity(n);
        let order_preserving_surjection = OrderPresSurj::identity(on_this);
        let order_preserving_injection = OrderPresInj::identity(on_this);
        proof {
            lemma_surj_zeros(n as nat, n as int);
            let c = seq![n];
            assert(c =~= Seq::<usize>::empty().push(n));
            lemma_inj_state_push(Seq::<usize>::empty(), n);
            assert(inj_state(Seq::<usize>::empty()) == (Seq::<usize>::empty(), 0nat, 0nat));
            assert(inj_map(c) =~= range_seq(0, n as int));
        }
        let r = Self { permutation_part, order_preserving_surjection, order_preserving_injection };
        assert(r.map() =~= Seq::new(n as nat, |i: int| i as usize));
        r
    }
}

impl Composable<usize> for Decomposition {
    /// The composite map, decomposed afresh (see `is_decomposition_of`);
    /// fails when the codomain of `self` is not the domain of `other`.
    fn compose(&self, other: &Self) -> (r: Result<Self, CatgraphError>)
        ensures
            r is Ok <==> self.cod_size() == other.perm().len(),
            r matches Err(e) ==> e is Composition,
            r matches Ok(d) ==> d.is_decomposition_of(compose_maps(self.map(), other.map()), other.cod_size()),
    {
        proof {
            use_type_invariant(self);
            use_type_invariant(other);
            self.lemma_parts();
            other.lemma_parts();
        }
        let sc = self.codomain();
        let od = other.domain();
        if sc != od {
            return Err(mismatch_error(sc, od));
        }
        let other_codomain = other.codomain();
        let ord_self = self.to_ordinary();
        let ord_other = other.to_ordinary();
        let composite = match ord_self.compose(&ord_other) {
            Ok(c) => c,
            Err(e) => {
                return Err(e);
            },
        };
        proof {
            lemma_image_bound(composite.0@);
            lemma_image_bound(ord_self.0@);
            assert forall|i: int| 0 <= i < composite.0@.len() implies composite.0@[i] < other_codomain by {
                assert(composite.0@[i] == other.map()[self.map()[i] as int]);
            }
        }
        let leftover_needed = match max_value(&composite.0) {
            Some(max_val) => {
                proof {
                    let j = choose|j: int|
                        0 <= j < composite.0@.len() && composite.0@[j] + 1 == image_bound(composite.0@);
                }
                other_codomain.saturating_sub(max_val + 1)
            },
            None => other_codomain,
        };
        let v = composite.0;
        Ok(Self::decompose(v, leftover_needed))
    }

    fn domain(&self) -> (r: usize)
        ensures
            r == self.perm().len(),
    {
        perm_len(&self.permutation_part)
    }

    fn codomain(&self) -> (r: usize)
        ensures
            r == self.cod_size(),
    {
        proof {
            use_type_invariant(self);
        }
        self.order_preserving_injection.codomain()
    }
}

/// The prefix condition of a map that starts at `0` and steps up by at most one.
pub open spec fn unit_steps(s: Seq<usize>) -> bool {
    &&& s.len() > 0 ==> s[0] == 0
    &&& forall|i: int| 1 <= i < s.len() ==> #[trigger] s[i] == s[i - 1] || s[i] == s[i - 1] + 1
}

/// Such a map is sorted.
proof fn lemma_unit_steps_sorted(s: Seq<usize>)
    requires
        unit_steps(s),
    ensures
        is_sorted_seq(s),
    decreases s.len(),
{
    if s.len() > 0 {
        let p = s.drop_last();
        assert(unit_steps(p)) by {
            assert forall|i: int| 1 <= i < p.len() implies #[trigger] p[i] == p[i - 1] || p[i] == p[i - 1] + 1 by {
                assert(s[i] == s[i - 1] || s[i] == s[i - 1] + 1);
            }
        }
        lemma_unit_steps_sorted(p);
        let n = s.len() as int;
        assert forall|i: int, j: int| 0 <= i <= j < s.len() implies s[i] <= s[j] by {
            if j == n - 1 && i < j {
                assert(p[i] <= p[n - 2]);
                assert(s[n - 1] == s[n - 2] || s[n - 1] == s[n - 2] + 1);
            } else if j < n - 1 {
                assert(p[i] <= p[j]);
            }
        }
    }
}

/// Such a map hits every value up to its last.
proof fn lemma_unit_steps_hits(s: Seq<usize>)
    requires
        unit_steps(s),
    ensures
        s.len() > 0 ==> forall|t: int| 0 <= t <= s.last() ==> #[trigger] hits(s, t),
    decreases s.len(),
{
    if s.len() > 1 {
        let p = s.drop_last();
        assert(unit_steps(p)) by {
            assert forall|i: int| 1 <= i < p.len() implies #[trigger] p[i] == p[i - 1] || p[i] == p[i - 1] + 1 by {
                assert(s[i] == s[i - 1] || s[i] == s[i - 1] + 1);
            }
        }
        lemma_unit_steps_hits(p);
        let n = s.len() as int;
        assert forall|t: int| 0 <= t <= s.last() implies #[trigger] hits(s, t) by {
            if t == s.last() {
                assert(s[n - 1] == t);
            } else {
                assert(s[n - 1] == s[n - 2] || s[n - 1] == s[n - 2] + 1);
                assert(hits(p, t));
                let i = choose|i: int| 0 <= i < p.len() && p[i] == t;
                assert(s[i] == t);
            }
        }
    } else if s.len() == 1 {
        assert(hits(s, 0));
    }
}

/// A map that starts at `0` and steps up by at most one is sorted, hits
/// every value up to its last, and so is onto its image bound.
proof fn lemma_unit_steps(s: Seq<usize>)
    requires
        unit_steps(s),
    ensures
        is_sorted_seq(s),
        s.len() > 0 ==> forall|t: int| 0 <= t <= s.last() ==> #[trigger] hits(s, t),
        s.len() > 0 ==> image_bound(s) == s.last() + 1,
        s.len() == 0 ==> image_bound(s) == 0,
        is_surjective_seq(s),
{
    lemma_unit_steps_sorted(s);
    lemma_unit_steps_hits(s);
    lemma_image_bound(s);
    if s.len() > 0 {
        let n = s.len() as int;
        assert forall|i: int| 0 <= i < s.len() implies #[trigger] s[i] < s.last() + 1 by {
            assert(s[i] <= s[n - 1]);
        }
        lemma_image_bound_char(s, (s.last() + 1) as nat);
        assert forall|t: int| 0 <= t < image_bound(s) implies #[trigger] hits(s, t) by {
            assert(t <= s.last());
        }
    }
}

/// Within a run of equal values of a sorted map, the factorization keeps the
/// same block.
proof fn lemma_equal_run(v: Seq<usize>, e: Seq<usize>, m: Seq<usize>, i: int, j: int)
    requires
        is_sorted_seq(v),
        epi_mono_parts(v, e, m),
        0 <= i <= j < v.len(),
        v[i] == v[j],
    ensures
        e[i] == e[j],
    decreases j - i,
{
    if i < j {
        assert(v[i] <= v[j - 1] <= v[j]);
        assert(e[j] == e[j - 1]);
        lemma_equal_run(v, e, m, i, j - 1);
    }
}

/// Block `t` holds a position `i` of `v` whose value is `m[t]`.
spec fn block_value(v: Seq<usize>, e: Seq<usize>, m: Seq<usize>, t: int) -> bool {
    exists|i: int| 0 <= i < v.len() && e[i] == t && m[t] == v[i]
}

/// The injection part of the factorization of a sorted map is strictly
/// increasing and has the same image bound as the map.
proof fn lemma_monic_part(v: Seq<usize>, e: Seq<usize>, m: Seq<usize>)
    requires
        is_sorted_seq(v),
        epi_mono_parts(v, e, m),
    ensures
        is_sorted_seq(m),
        crate::utils::no_duplicates(m),
        image_bound(m) == image_bound(v),
        unit_steps(e),
        is_sorted_seq(e),
        is_surjective_seq(e),
        v.len() > 0 ==> m.len() == e.last() + 1,
        v.len() > 0 ==> image_bound(e) == m.len(),
        v.len() == 0 ==> m.len() == 0,
{
    lemma_unit_steps(e);
    lemma_image_bound(v);
    if v.len() > 0 {
        assert forall|t: int| 0 <= t < m.len() implies #[trigger] block_value(v, e, m, t) by {
            assert(hits(e, t));
            let i = choose|i: int| 0 <= i < e.len() && e[i] == t;
            assert(compose_maps(e, m)[i] == v[i]);
        }
        assert forall|a: int, b: int| 0 <= a < b < m.len() implies m[a] < m[b] by {
            assert(block_value(v, e, m, a));
            assert(block_value(v, e, m, b));
            let i = choose|i: int| 0 <= i < v.len() && e[i] == a && m[a] == v[i];
            let j = choose|j: int| 0 <= j < v.len() && e[j] == b && m[b] == v[j];
            if j <= i {
                assert(e[j] <= e[i]);
            }
            assert(v[i] <= v[j]);
            if v[i] == v[j] {
                lemma_equal_run(v, e, m, i, j);
            }
        }
        let k = choose|k: int| 0 <= k < v.len() && v[k] + 1 == image_bound(v);
        assert(compose_maps(e, m)[k] == v[k]);
        assert forall|t: int| 0 <= t < m.len() implies m[t] < image_bound(v) by {
            assert(block_value(v, e, m, t));
            let i = choose|i: int| 0 <= i < v.len() && e[i] == t && m[t] == v[i];
        }
        assert(e[k] <= e.last());
        lemma_image_bound_char(m, image_bound(v));
    }
}

/// A surjection with some blocks sends its last element to the last block.
proof fn lemma_surj_last(c: Seq<usize>)
    requires
        c.len() <= usize::MAX,
    ensures
        surj_map(c).len() == 0 <==> c.len() == 0,
        c.len() > 0 ==> surj_map(c).last() == c.len() - 1,
{
    lemma_surj_map_prefix_len(c, c.len() as int);
    if c.len() > 0 {
        let k = c.len() as int;
        lemma_psum_mono(c, 0, k - 1);
        lemma_surj_map_prefix_len(c, k - 1);
        let prev = surj_map_prefix(c, k - 1);
        let last = Seq::new((c[k - 1] + 1) as nat, |j: int| (k - 1) as usize);
        assert(surj_map(c) == prev + last);
        assert((prev + last).last() == last.last());
    }
}

/// `s` ranks the positions of `v` by value, equal values by position.
pub open spec fn ranks(v: Seq<usize>, s: Seq<usize>) -> bool {
    forall|x: int, y: int|
        0 <= x < v.len() && 0 <= y < v.len() && key_less(v, x, y) ==> #[trigger] s[x] < #[trigger] s[y]
}

/// For a sorted map the identity ranks the positions.
proof fn lemma_sorted_ranks(v: Seq<usize>, id: Seq<usize>)
    requires
        is_sorted_seq(v),
        id == Seq::new(v.len(), |i: int| i as usize),
        v.len() <= usize::MAX,
    ensures
        ranks(v, id),
        image_bound(v) == image_bound(v),
        v == permuted(v, id),
        forall|x: int| 0 <= x < v.len() ==> #[trigger] v[id[x] as int] == v[x],
        is_permutation_of(id, v.len()),
{
    assert(v =~= permuted(v, id));
    assert forall|x: int, y: int|
        0 <= x < v.len() && 0 <= y < v.len() && key_less(v, x, y) implies #[trigger] id[x] < #[trigger] id[y] by {
        if y < x {
            assert(v[y] <= v[x]);
        }
    }
}

/// The inverse of the stable sorting order ranks the positions, and reading
/// the sorted map at the ranks gives the map back.
proof fn lemma_sort_ranks(v: Seq<usize>, a: Seq<usize>, s: Seq<usize>)
    requires
        stably_sorts(v, a),
        is_permutation_of(s, v.len()),
        forall|i: int| 0 <= i < a.len() ==> s[#[trigger] a[i] as int] == i,
    ensures
        ranks(v, s),
        forall|x: int| 0 <= x < v.len() ==> #[trigger] permuted(v, a)[s[x] as int] == v[x],
        image_bound(permuted(v, a)) == image_bound(v),
{
    let n = v.len();
    lemma_image_bound(v);
    if n > 0 {
        let j = choose|j: int| 0 <= j < v.len() && v[j] + 1 == image_bound(v);
        let w = permuted(v, a);
        assert forall|i: int| 0 <= i < w.len() implies #[trigger] w[i] < image_bound(v) by {
            assert(w[i] == v[a[i] as int]);
        }
        assert(a[s[j] as int] == j) by {
            let i = s[j] as int;
            assert(s[a[i] as int] == i);
            if a[i] != j {
                if a[i] < j {
                    assert(s[a[i] as int] != s[j]);
                } else {
                    assert(s[j] != s[a[i] as int]);
                }
            }
        }
        assert(w[s[j] as int] + 1 == image_bound(v));
        lemma_image_bound_char(w, image_bound(v));
    } else {
        lemma_image_bound(permuted(v, a));
    }
    assert forall|x: int| 0 <= x < n implies #[trigger] a[s[x] as int] == x by {
        let i = s[x] as int;
        assert(s[a[i] as int] == i);
        if a[i] != x {
            if a[i] < x {
                assert(s[a[i] as int] != s[x]);
            } else {
                assert(s[x] != s[a[i] as int]);
            }
        }
    }
    assert forall|x: int| 0 <= x < n implies #[trigger] permuted(v, a)[s[x] as int] == v[x] by {
        assert(a[s[x] as int] == x);
    }
    assert forall|x: int, y: int| 0 <= x < n && 0 <= y < n && key_less(v, x, y) implies #[trigger] s[x]
        < #[trigger] s[y] by {
        assert(a[s[x] as int] == x);
        assert(a[s[y] as int] == y);
        if s[y] < s[x] {
            assert(key_less(v, a[s[y] as int] as int, a[s[x] as int] as int));
        } else if s[y] == s[x] {
            if x < y {
                assert(s[x] != s[y]);
            } else if y < x {
                assert(s[y] != s[x]);
            }
        }
    }
}

/// Reading the sorted map's factorization at the ranks gives the map back.
proof fn lemma_read_back(v0: Seq<usize>, vs: Seq<usize>, sv: Seq<usize>, e: Seq<usize>, m: Seq<usize>)
    requires
        is_permutation_of(sv, v0.len()),
        vs.len() == v0.len(),
        forall|x: int| 0 <= x < v0.len() ==> #[trigger] vs[sv[x] as int] == v0[x],
        e.len() == vs.len(),
        compose_maps(e, m) == vs,
    ensures
        Seq::new(v0.len(), |x: int| m[e[sv[x] as int] as int]) == v0,
{
    assert forall|x: int| 0 <= x < v0.len() implies #[trigger] m[e[sv[x] as int] as int] == v0[x] by {
        let i = sv[x] as int;
        assert(0 <= i < v0.len());
        assert(vs[i] == v0[x]);
        assert(compose_maps(e, m)[i] == m[e[i] as int]);
    }
    assert(Seq::new(v0.len(), |x: int| m[e[sv[x] as int] as int]) =~= v0);
}

impl Decomposition {
    /// `self` is the decomposition of the map `v` into `cod` elements that
    /// conversion from an ordinary map gives: it computes `v`, and its
    /// permutation ranks the domain by value, equal values by position.
    pub open spec fn is_decomposition_of(&self, v: Seq<usize>, cod: nat) -> bool {
        &&& self.map() == v
        &&& self.cod_size() == cod
        &&& ranks(v, self.perm())
    }

    /// Decomposes the map `v` with `extra` elements of codomain past its
    /// largest value: sort the domain stably (no permutation when already
    /// sorted), then factor the sorted map into a surjection onto its runs
    /// and an injection onto their values.
    #[verifier::spinoff_prover]
    #[verifier::rlimit(40)]
    fn decompose(v: Vec<usize>, extra: usize) -> (r: Self)
        requires
            fin_codomain(v@, extra as nat) <= usize::MAX,
        ensures
            r.is_decomposition_of(v@, fin_codomain(v@, extra as nat)),
    {
        let ghost v0 = v@;
        let n = v.len();
        let mut v = v;
        let permutation_part = if is_sorted_slice(&v) {
            let id = perm_identity(n);
            proof {
                lemma_sorted_ranks(v0, perm_values(id));
            }
            id
        } else {
            let a = permutation_sort(&mut v);
            let sigma = perm_inv(&a);
            let _na = perm_len(&a);
            let _ns = perm_len(&sigma);
            proof {
                lemma_sort_ranks(v0, perm_values(a), perm_values(sigma));
            }
            sigma
        };
        let ghost sv = perm_values(permutation_part);
        let _len = perm_len(&permutation_part);
        assert(is_sorted_seq(v@));
        assert(v@.len() == n);
        assert(is_permutation_of(sv, n as nat));
        assert(forall|x: int| 0 <= x < n ==> #[trigger] v@[sv[x] as int] == v0[x]);
        assert(ranks(v0, sv));
        assert(image_bound(v@) == image_bound(v0));
        let ghost vs = v@;
        let (epic_part, monic_part) = monotone_epi_mono_fact(v);
        let ghost e = epic_part@;
        let ghost m = monic_part@;
        proof {
            lemma_monic_part(vs, e, m);
            lemma_image_bound(m);
            lemma_read_back(v0, vs, sv, e, m);
        }
        let order_preserving_surjection = match OrderPresSurj::from_finset((epic_part, 0)) {
            Ok(s) => s,
            Err(_) => {
                proof {
                    assert(false);
                }
                OrderPresSurj::from_counts(Vec::new())
            },
        };
        let order_preserving_injection = match OrderPresInj::from_finset((monic_part, extra)) {
            Ok(s) => s,
            Err(_) => {
                proof {
                    assert(false);
                }
                OrderPresInj::from_counts(Vec::new())
            },
        };
        let _blocks = order_preserving_surjection.codomain();
        proof {
            let c = order_preserving_surjection@;
            lemma_surj_last(c);
            lemma_surj_map_prefix_len(c, c.len() as int);
            assert(surj_domain(c) == n);
            assert(c.len() == inj_domain(order_preserving_injection@)) by {
                if n > 0 {
                    assert(surj_map(c).last() == e.last());
                }
            }
            assert(inj_codomain(order_preserving_injection@) == extra + image_bound(v0));
        }
        let r = Self { permutation_part, order_preserving_surjection, order_preserving_injection };
        assert(r.map() == Seq::new(n as nat, |x: int| m[e[sv[x] as int] as int]));
        r
    }
}

/// Counts after the first `k` entries of a concatenation.
proof fn lemma_psum_concat(a: Seq<usize>, b: Seq<usize>, k: int)
    requires
        0 <= k <= b.len(),
    ensures
        psum(a + b, a.len() + k) == psum(a, a.len() as int) + psum(b, k),
    decreases k,
{
    if k == 0 {
        lemma_psum_prefix(a, b, a.len() as int);
    } else {
        lemma_psum_concat(a, b, k - 1);
        assert((a + b)[a.len() + k - 1] == b[k - 1]);
    }
}

/// The first `k` counts of `a + b` are those of `a`, for `k <= a.len()`.
proof fn lemma_psum_prefix(a: Seq<usize>, b: Seq<usize>, k: int)
    requires
        0 <= k <= a.len(),
    ensures
        psum(a + b, k) == psum(a, k),
    decreases k,
{
    if k > 0 {
        lemma_psum_prefix(a, b, k - 1);
        assert((a + b)[k - 1] == a[k - 1]);
    }
}

/// Run lengths after an even number of runs decode side by side.
proof fn lemma_inj_concat(a: Seq<usize>, b: Seq<usize>)
    requires
        a.len() % 2 == 0,
    ensures
        inj_state(a + b).0.len() == inj_state(a).0.len() + inj_state(b).0.len(),
        inj_state(a + b).1 == inj_state(a).1 + inj_state(b).1,
    decreases b.len(),
{
    if b.len() == 0 {
        assert(a + b =~= a);
    } else {
        lemma_inj_concat(a, b.drop_last());
        assert((a + b).drop_last() =~= a + b.drop_last());
        assert((a + b).last() == b.last());
    }
}

/// Closing an odd number of runs with an empty gap changes nothing decoded.
proof fn lemma_inj_pad(a: Seq<usize>)
    requires
        a.len() % 2 == 1,
    ensures
        inj_state(a.push(0)).0 == inj_state(a).0,
        inj_state(a.push(0)).1 == inj_state(a).1,
{
    lemma_inj_state_push(a, 0);
}

/// The images of `b` moved past the first `shift` elements.
pub open spec fn shift_all(b: Seq<usize>, shift: nat) -> Seq<usize> {
    Seq::new(b.len(), |i: int| (b[i] + shift) as usize)
}

impl Monoidal for Decomposition {
    /// Places the two decompositions side by side, part by part: the
    /// permutations next to each other, the surjections' counts
    /// concatenated, and the injections' runs concatenated (after an empty
    /// gap when the first ends with an identity run). When the domain or the
    /// codomain of the result would not fit in a `usize`, `self` is kept.
    fn monoidal(&mut self, other: Self)
        ensures
            old(self).perm().len() + other.perm().len() <= usize::MAX && old(self).cod_size() + other.cod_size()
                <= usize::MAX ==> {
                &&& final(self).perm() == old(self).perm() + shift_all(other.perm(), old(self).perm().len())
                &&& final(self).surj() == old(self).surj() + other.surj()
                &&& final(self).inj() == (if old(self).inj().len() % 2 == 1 {
                    old(self).inj().push(0)
                } else {
                    old(self).inj()
                }) + other.inj()
            },
            !(old(self).perm().len() + other.perm().len() <= usize::MAX && old(self).cod_size()
                + other.cod_size() <= usize::MAX) ==> *final(self) == *old(self),
    {
        proof {
            use_type_invariant(&*self);
            use_type_invariant(&other);
        }
        let self_len = self.domain();
        let other_len = other.domain();
        let self_cod = self.codomain();
        let other_cod = other.codomain();
        if self_len > usize::MAX - other_len || self_cod > usize::MAX - other_cod {
            return ;
        }
        let ghost a = self.perm();
        let ghost b = other.perm();
        let mut underlying: Vec<usize> = Vec::with_capacity(self_len + other_len);
        let mut idx: usize = 0;
        while idx < self_len
            invariant
                idx <= self_len,
                self_len == a.len(),
                a == perm_values(self.permutation_part),
                underlying@ == a.subrange(0, idx as int),
            decreases self_len - idx,
        {
            underlying.push(perm_apply(&self.permutation_part, idx));
            idx = idx + 1;
            assert(underlying@ =~= a.subrange(0, idx as int));
        }
        let mut jdx: usize = 0;
        while jdx < other_len
            invariant
                jdx <= other_len,
                other_len == b.len(),
                self_len == a.len(),
                self_len + other_len <= usize::MAX,
                b == perm_values(other.permutation_part),
                is_permutation_of(b, other_len as nat),
                underlying@ == a + shift_all(b.subrange(0, jdx as int), self_len as nat),
            decreases other_len - jdx,
        {
            let y = perm_apply(&other.permutation_part, jdx);
            underlying.push(y + self_len);
            jdx = jdx + 1;
            assert(underlying@ =~= a + shift_all(b.subrange(0, jdx as int), self_len as nat));
        }
        assert(b.subrange(0, jdx as int) =~= b);
        let ghost u = underlying@;
        proof {
            let la = self_len as int;
            assert forall|p: int, q: int| 0 <= p < q < u.len() implies u[p] != u[q] by {
                if q < la {
                    assert(a[p] != a[q]);
                } else if p >= la {
                    assert(b[p - la] != b[q - la]);
                } else {
                    assert(a[p] < la);
                }
            }
        }
        let permutation_part = match perm_try_from(underlying) {
            Some(p) => p,
            None => {
                proof {
                    assert(false);
                }
                perm_identity(0)
            },
        };
        let mut whole = Self::identity(&0);
        std::mem::swap(&mut whole, self);
        let Self { permutation_part: _, order_preserving_surjection, order_preserving_injection } = whole;
        let Self {
            permutation_part: _,
            order_preserving_surjection: other_surjection,
            order_preserving_injection: other_injection,
        } = other;
        let ghost s1 = order_preserving_surjection@;
        let ghost s2 = other_surjection@;
        let ghost i1 = order_preserving_injection@;
        let ghost i2 = other_injection@;
        let mut surj = order_preserving_surjection;
        surj.monoidal(other_surjection);
        let mut inj = order_preserving_injection;
        inj.monoidal(other_injection);
        proof {
            lemma_psum_concat(s1, s2, s2.len() as int);
            let i1p = if i1.len() % 2 == 1 {
                i1.push(0)
            } else {
                i1
            };
            if i1.len() % 2 == 1 {
                lemma_inj_pad(i1);
            }
            lemma_inj_concat(i1p, i2);
        }
        *self = Self { permutation_part, order_preserving_surjection: surj, order_preserving_injection: inj };
    }
}

impl MonoidalMorphism<usize> for Decomposition {

}

impl SymmetricMonoidalDiscreteMorphism<usize> for Decomposition {
    open spec fn permutable(&self, p: Seq<usize>, of_codomain: bool) -> bool {
        p.len() == (if of_codomain {
            self.cod_size()
        } else {
            self.perm().len()
        })
    }

    open spec fn permutation_fits(p: Seq<usize>, types: usize) -> bool {
        p.len() == types
    }

    /// On the domain, precomposes with `p`: the new map sends `i` where the
    /// old one sent `p(i)`, and only the permutation part changes. On the
    /// codomain, postcomposes with `p⁻¹` and decomposes the result afresh:
    /// the new map sends `i` to the element that `p` sends to the old image.
    fn permute_side(&mut self, p: &Permutation, of_codomain: bool)
        ensures
            !of_codomain ==> {
                &&& final(self).perm() == permuted(old(self).perm(), perm_values(*p))
                &&& final(self).surj() == old(self).surj()
                &&& final(self).inj() == old(self).inj()
                &&& final(self).map() == permuted(old(self).map(), perm_values(*p))
            },
            of_codomain ==> {
                &&& final(self).map().len() == old(self).map().len()
                &&& forall|x: int|
                    0 <= x < old(self).map().len() ==> perm_values(*p)[#[trigger] final(self).map()[x] as int]
                        == old(self).map()[x]
                &&& final(self).cod_size() == old(self).cod_size()
                &&& ranks(final(self).map(), final(self).perm())
            },
    {
        proof {
            use_type_invariant(&*self);
            self.lemma_parts();
        }
        let n = perm_len(p);
        if !of_codomain {
            let q = perm_clone(p);
            let sigma = perm_clone(&self.permutation_part);
            let new_sigma = perm_mul(q, sigma);
            let _ = perm_len(&new_sigma);
            proof {
                assert(perm_values(new_sigma) =~= permuted(old(self).perm(), perm_values(*p)));
            }
            let mut whole = Self::identity(&0);
            std::mem::swap(&mut whole, self);
            let Self { permutation_part: _, order_preserving_surjection, order_preserving_injection } = whole;
            *self = Self { permutation_part: new_sigma, order_preserving_surjection, order_preserving_injection };
            proof {
                assert(self.map() =~= permuted(old(self).map(), perm_values(*p)));
            }
        } else {
            let q = perm_inv(p);
            let _ = perm_len(&q);
            let ghost qv = perm_values(q);
            let ghost pv = perm_values(*p);
            proof {
                assert forall|y: int| 0 <= y < n implies #[trigger] pv[qv[y] as int] == y by {
                    let i = qv[y] as int;
                    assert(qv[pv[i] as int] == i);
                    if pv[i] != y {
                        if pv[i] < y {
                            assert(qv[pv[i] as int] != qv[y]);
                        } else {
                            assert(qv[y] != qv[pv[i] as int]);
                        }
                    }
                }
            }
            let p_decompose = Self::from_permutation(q, n, true);
            let composed = self.compose(&p_decompose);
            match composed {
                Ok(d) => {
                    *self = d;
                    proof {
                        let om = old(self).map();
                        assert forall|x: int| 0 <= x < om.len() implies pv[#[trigger] self.map()[x] as int] == om[x] by {
                            assert(self.map()[x] == qv[om[x] as int]);
                        }
                    }
                },
                Err(_) => {
                    proof {
                        assert(false);
                    }
                },
            }
        }
    }

    /// The decomposition whose permutation part is `p`, with identity
    /// surjection and injection on `types` elements.
    fn from_permutation(p: Permutation, types: usize, types_as_on_domain: bool) -> (r: Self)
        ensures
            r.perm() == perm_values(p),
            r.surj() == Seq::new(types as nat, |i: int| 0usize),
            r.inj() == seq![types],
            r.map() == perm_values(p),
            r.cod_size() == types,
    {
        let _ = perm_len(&p);
        let order_preserving_surjection = OrderPresSurj::identity(&types);
        let order_preserving_injection = OrderPresInj::identity(&types);
        proof {
            lemma_surj_zeros(types as nat, types as int);
            let c = seq![types];
            assert(c =~= Seq::<usize>::empty().push(types));
            lemma_inj_state_push(Seq::<usize>::empty(), types);
            assert(inj_state(Seq::<usize>::empty()) == (Seq::<usize>::empty(), 0nat, 0nat));
            assert(inj_map(c) =~= range_seq(0, types as int));
        }
        let r = Self { permutation_part: p, order_preserving_surjection, order_preserving_injection };
        assert(r.map() =~= perm_values(p));
        r
    }
}

impl vstd::std_specs::convert::TryFromSpecImpl<FinSetMorphism> for Decomposition {
    open spec fn obeys_try_from_spec() -> bool {
        false
    }

    open spec fn try_from_spec(v: FinSetMorphism) -> Result<Self, TryFromFinSetError> {
        arbitrary()
    }
}

impl TryFrom<FinSetMorphism> for Decomposition {
    type Error = TryFromFinSetError;

    /// The decomposition of the map (see `is_decomposition_of`). A map whose
    /// codomain does not fit in a `usize` is refused.
    fn try_from(v_mor: FinSetMorphism) -> (r: Result<Self, TryFromFinSetError>)
        ensures
            r is Ok <==> fin_codomain(v_mor.0@, v_mor.1 as nat) <= usize::MAX,
            r matches Ok(d) ==> d.is_decomposition_of(v_mor.0@, fin_codomain(v_mor.0@, v_mor.1 as nat)),
    {
        match finset_codomain_checked(&v_mor) {
            None => Err(TryFromFinSetError),
            Some(_) => Ok(Self::decompose(v_mor.0, v_mor.1)),
        }
    }
}
} // verus!
