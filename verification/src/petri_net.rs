//! Place/transition Petri nets with labelled places.
//!
//! A Petri net has places, which hold tokens, and transitions, which consume
//! tokens from their input places and produce tokens in their output places.
//! Each arc carries a decimal weight; firing a transition subtracts its input
//! weights from the marking and then adds its output weights. Markings keep
//! only the places with a nonzero count.
//!
//! Token counts and weights are decimal numbers `mantissa · 10^(-scale)`, as
//! `rust_decimal` represents them; their sums, differences and comparisons
//! are computed by `rust_decimal`.
use vstd::prelude::*;

use std::collections::HashMap;

use rust_decimal::Decimal;

use crate::cospan::{leg_is_identity, Cospan};
use crate::errors::CatgraphError;
use crate::label::Label;

verus! {

broadcast use vstd::std_specs::hash::group_hash_axioms;

/// The largest magnitude of a decimal mantissa: `2^96 - 1`.
pub open spec fn max_mantissa() -> int {
    0xFFFF_FFFF_FFFF_FFFF_FFFF_FFFFint
}

/// The largest decimal scale.
pub open spec fn max_scale() -> nat {
    28
}

/// A mantissa and a scale that describe a decimal number.
pub open spec fn decimal_fits(m: i128, s: u32) -> bool {
    -max_mantissa() <= m <= max_mantissa() && s <= max_scale()
}

/// `10^n`.
pub open spec fn pow10(n: nat) -> int
    decreases n,
{
    if n == 0 {
        1
    } else {
        10 * pow10((n - 1) as nat)
    }
}

/// The number `am · 10^(-a_s)` is at most `bm · 10^(-b_s)`.
pub open spec fn decimal_le(am: int, a_s: nat, bm: int, b_s: nat) -> bool {
    am * pow10(b_s) <= bm * pow10(a_s)
}

/// The name of `Decimal::checked_add` on two decimals given by their parts:
/// the parts of the sum, or `None` where the sum overflows.
pub uninterp spec fn decimal_checked_add(am: i128, a_s: u32, bm: i128, b_s: u32) -> Option<(i128, u32)>;

/// The name of `Decimal::checked_sub` on two decimals given by their parts:
/// the parts of the difference, or `None` where it overflows.
pub uninterp spec fn decimal_checked_sub(am: i128, a_s: u32, bm: i128, b_s: u32) -> Option<(i128, u32)>;

#[verifier::external_type_specification]
#[verifier::external_body]
pub struct ExDecimal(rust_decimal::Decimal);

/// `Decimal::mantissa` and `Decimal::scale`: a decimal's mantissa has at most
/// 96 bits and its scale is at most 28.
#[verifier::external_body]
fn decimal_parts(d: &Decimal) -> (r: (i128, u32))
    ensures
        decimal_fits(r.0, r.1),
{
    (d.mantissa(), d.scale())
}

/// `Decimal::checked_add` on the decimals with the given parts.
#[verifier::external_body]
fn decimal_add_parts(am: i128, a_s: u32, bm: i128, b_s: u32) -> (r: Option<(i128, u32)>)
    requires
        decimal_fits(am, a_s),
        decimal_fits(bm, b_s),
    ensures
        r == decimal_checked_add(am, a_s, bm, b_s),
        r matches Some(p) ==> decimal_fits(p.0, p.1),
{
    let a = Decimal::from_i128_with_scale(am, a_s);
    let b = Decimal::from_i128_with_scale(bm, b_s);
    match a.checked_add(b) {
        Some(d) => Some((d.mantissa(), d.scale())),
        None => None,
    }
}

/// `Decimal::checked_sub` on the decimals with the given parts.
#[verifier::external_body]
fn decimal_sub_parts(am: i128, a_s: u32, bm: i128, b_s: u32) -> (r: Option<(i128, u32)>)
    requires
        decimal_fits(am, a_s),
        decimal_fits(bm, b_s),
    ensures
        r == decimal_checked_sub(am, a_s, bm, b_s),
        r matches Some(p) ==> decimal_fits(p.0, p.1),
{
    let a = Decimal::from_i128_with_scale(am, a_s);
    let b = Decimal::from_i128_with_scale(bm, b_s);
    match a.checked_sub(b) {
        Some(d) => Some((d.mantissa(), d.scale())),
        None => None,
    }
}

/// `<=` on the decimals with the given parts: `Decimal` orders by numeric
/// value.
#[verifier::external_body]
fn decimal_le_parts(am: i128, a_s: u32, bm: i128, b_s: u32) -> (r: bool)
    requires
        decimal_fits(am, a_s),
        decimal_fits(bm, b_s),
    ensures
        r == decimal_le(am as int, a_s as nat, bm as int, b_s as nat),
{
    Decimal::from_i128_with_scale(am, a_s) <= Decimal::from_i128_with_scale(bm, b_s)
}

/// A token count or arc weight: the decimal number `mantissa · 10^(-scale)`.
#[derive(Clone, Copy, Debug)]
pub struct Weight {
    mantissa: i128,
    scale: u32,
}

impl Weight {
    #[verifier::type_invariant]
    spec fn fits(&self) -> bool {
        decimal_fits(self.mantissa, self.scale)
    }

    /// The mantissa.
    pub closed spec fn m(&self) -> i128 {
        self.mantissa
    }

    /// The scale: the number of decimal digits after the point.
    pub closed spec fn s(&self) -> u32 {
        self.scale
    }

    /// The weight is `0`.
    pub open spec fn is_zero_spec(&self) -> bool {
        self.m() == 0
    }

    /// `self` is at most `other` as numbers.
    pub open spec fn le_spec(&self, other: Weight) -> bool {
        decimal_le(self.m() as int, self.s() as nat, other.m() as int, other.s() as nat)
    }

    /// `self` and `other` are the same number.
    pub open spec fn same_value(&self, other: Weight) -> bool {
        self.le_spec(other) && other.le_spec(*self)
    }

    /// The weight of a `Decimal`, with its mantissa and scale.
    pub fn from_decimal(d: Decimal) -> (r: Weight) {
        let (mantissa, scale) = decimal_parts(&d);
        Weight { mantissa, scale }
    }

    /// `0`.
    pub fn zero() -> (r: Weight)
        ensures
            r.m() == 0 && r.s() == 0,
    {
        Weight { mantissa: 0, scale: 0 }
    }

    /// The whole number `n`.
    pub fn from_count(n: u64) -> (r: Weight)
        ensures
            r.m() == n && r.s() == 0,
    {
        assert(n <= max_mantissa());
        Weight { mantissa: n as i128, scale: 0 }
    }

    pub fn mantissa(&self) -> (r: i128)
        ensures
            r == self.m(),
    {
        self.mantissa
    }

    pub fn scale(&self) -> (r: u32)
        ensures
            r == self.s(),
    {
        self.scale
    }

    /// Whether the weight is `0`.
    pub fn is_zero(&self) -> (b: bool)
        ensures
            b == self.is_zero_spec(),
    {
        self.mantissa == 0
    }

    /// `self <= other` as numbers.
    pub fn le(&self, other: &Weight) -> (b: bool)
        ensures
            b == self.le_spec(*other),
    {
        proof {
            use_type_invariant(self);
            use_type_invariant(other);
        }
        decimal_le_parts(self.mantissa, self.scale, other.mantissa, other.scale)
    }

    /// The sum, computed by `Decimal::checked_add`; `None` on overflow.
    pub fn checked_add(&self, other: &Weight) -> (r: Option<Weight>)
        ensures
            decimal_checked_add(self.m(), self.s(), other.m(), other.s()) matches Some(p) ==> (r matches Some(
                w,
            ) && w.m() == p.0 && w.s() == p.1),
            decimal_checked_add(self.m(), self.s(), other.m(), other.s()) is None ==> r is None,
    {
        proof {
            use_type_invariant(self);
            use_type_invariant(other);
        }
        match decimal_add_parts(self.mantissa, self.scale, other.mantissa, other.scale) {
            Some((mantissa, scale)) => Some(Weight { mantissa, scale }),
            None => None,
        }
    }

    /// The difference, computed by `Decimal::checked_sub`; `None` on overflow.
    pub fn checked_sub(&self, other: &Weight) -> (r: Option<Weight>)
        ensures
            decimal_checked_sub(self.m(), self.s(), other.m(), other.s()) matches Some(p) ==> (r matches Some(
                w,
            ) && w.m() == p.0 && w.s() == p.1),
            decimal_checked_sub(self.m(), self.s(), other.m(), other.s()) is None ==> r is None,
    {
        proof {
            use_type_invariant(self);
            use_type_invariant(other);
        }
        match decimal_sub_parts(self.mantissa, self.scale, other.mantissa, other.scale) {
            Some((mantissa, scale)) => Some(Weight { mantissa, scale }),
            None => None,
        }
    }
}

impl PartialEq for Weight {
    fn eq(&self, other: &Self) -> (r: bool) {
        self.le(other) && other.le(self)
    }
}

impl vstd::std_specs::cmp::PartialEqSpecImpl for Weight {
    open spec fn obeys_eq_spec() -> bool {
        true
    }

    open spec fn eq_spec(&self, other: &Self) -> bool {
        self.same_value(*other)
    }
}

/// The weight `0`.
pub closed spec fn zero_weight() -> Weight {
    Weight { mantissa: 0, scale: 0 }
}

/// The map of the pairs with a nonzero count, a later pair for a place
/// replacing an earlier one.
pub open spec fn nonzero_pairs(pairs: Seq<(usize, Weight)>) -> Map<usize, Weight>
    decreases pairs.len(),
{
    if pairs.len() == 0 {
        Map::empty()
    } else {
        let m = nonzero_pairs(pairs.drop_last());
        let (p, c) = pairs.last();
        if c.is_zero_spec() {
            m
        } else {
            m.insert(p, c)
        }
    }
}

/// The map with the count of `p` set to `c`, dropped when `c` is `0`.
pub open spec fn set_count(m: Map<usize, Weight>, p: usize, c: Weight) -> Map<usize, Weight> {
    if c.is_zero_spec() {
        m.remove(p)
    } else {
        m.insert(p, c)
    }
}

/// The count of place `p` in a map of counts: `0` where it has no entry.
pub open spec fn count_in(m: Map<usize, Weight>, p: usize) -> Weight {
    if m.contains_key(p) {
        m[p]
    } else {
        zero_weight()
    }
}

/// Two maps of counts hold the same places, with equal numbers.
pub open spec fn same_counts(a: Map<usize, Weight>, b: Map<usize, Weight>) -> bool {
    &&& a.dom() == b.dom()
    &&& forall|p: usize| #[trigger] a.contains_key(p) ==> a[p].same_value(b[p])
}

/// A distribution of tokens over places, holding only the places with a
/// nonzero count.
#[derive(Debug)]
pub struct Marking {
    tokens: HashMap<usize, Weight>,
}

impl Marking {
    #[verifier::type_invariant]
    spec fn nonzero(&self) -> bool {
        forall|p: usize| #[trigger] self.tokens@.contains_key(p) ==> !self.tokens@[p].is_zero_spec()
    }

    /// The counts of the places with a nonzero count.
    pub closed spec fn counts(&self) -> Map<usize, Weight> {
        self.tokens@
    }

    /// The count of place `p`.
    pub open spec fn count(&self, p: usize) -> Weight {
        count_in(self.counts(), p)
    }

    /// The empty marking.
    pub fn new() -> (r: Self)
        ensures
            r.counts() == Map::<usize, Weight>::empty(),
    {
        Self { tokens: HashMap::new() }
    }

    /// The marking of the given `(place, count)` pairs; pairs with count `0`
    /// are dropped, and a later pair for a place replaces an earlier one.
    pub fn from_vec(pairs: Vec<(usize, Weight)>) -> (r: Self)
        ensures
            r.counts() == nonzero_pairs(pairs@),
    {
        let mut tokens: HashMap<usize, Weight> = HashMap::new();
        let mut i: usize = 0;
        while i < pairs.len()
            invariant
                i <= pairs@.len(),
                tokens@ == nonzero_pairs(pairs@.subrange(0, i as int)),
                forall|p: usize| #[trigger] tokens@.contains_key(p) ==> !tokens@[p].is_zero_spec(),
            decreases pairs@.len() - i,
        {
            let (p, c) = pairs[i];
            assert(pairs@.subrange(0, i + 1).drop_last() =~= pairs@.subrange(0, i as int));
            if !c.is_zero() {
                tokens.insert(p, c);
            }
            i = i + 1;
        }
        assert(pairs@.subrange(0, i as int) =~= pairs@);
        Self { tokens }
    }

    /// Sets the count of `place`; a count of `0` removes the place.
    pub fn set(&mut self, place: usize, count: Weight)
        ensures
            final(self).counts() == set_count(old(self).counts(), place, count),
    {
        proof {
            use_type_invariant(&*self);
        }
        let mut tokens = self.tokens.clone();
        if count.is_zero() {
            tokens.remove(&place);
        } else {
            tokens.insert(place, count);
        }
        *self = Self { tokens };
    }

    /// The count of `place` (`0` where it holds no tokens).
    pub fn get(&self, place: usize) -> (r: Weight)
        ensures
            r == self.count(place),
    {
        match self.tokens.get(&place) {
            Some(c) => *c,
            None => Weight::zero(),
        }
    }

    /// The places with a nonzero count, and their counts.
    pub fn tokens(&self) -> (r: &HashMap<usize, Weight>)
        ensures
            r@ == self.counts(),
    {
        &self.tokens
    }
}

impl Default for Marking {
    fn default() -> (r: Self)
        ensures
            r.counts() == Map::<usize, Weight>::empty(),
    {
        Self::new()
    }
}

impl Clone for Marking {
    fn clone(&self) -> (r: Self)
        ensures
            r.counts() == self.counts(),
    {
        proof {
            use_type_invariant(self);
        }
        Self { tokens: self.tokens.clone() }
    }
}

impl PartialEq for Marking {
    fn eq(&self, other: &Self) -> (r: bool) {
        proof {
            use_type_invariant(self);
            use_type_invariant(other);
        }
        if self.tokens.len() != other.tokens.len() {
            return false;
        }
        let ghost mut seen: Set<usize> = Set::empty();
        for k in it: self.tokens.keys()
            invariant
                self.tokens@.dom().len() == other.tokens@.dom().len(),
                self.tokens@.dom().finite(),
                it.seq().len() == self.tokens@.dom().len(),
                it.seq().unref().to_set() == self.tokens@.dom(),
                it.seq().no_duplicates(),
                seen.finite(),
                seen.len() == it.index(),
                forall|j: int| 0 <= j < it.index() ==> seen.contains(*#[trigger] it.seq()[j]),
                forall|p: usize| #[trigger] seen.contains(p) ==> exists|j: int| 0 <= j < it.index() && *it.seq()[j] == p,
                forall|p: usize|
                    #[trigger] seen.contains(p) ==> other.tokens@.contains_key(p) && self.tokens@.contains_key(p)
                        && self.tokens@[p].same_value(other.tokens@[p]),
        {
            assert(it.seq().unref()[it.index()] == *it.seq()[it.index()]);
            assert(it.seq().unref().to_set().contains(*k));
            assert(self.tokens@.contains_key(*k));
            assert(!seen.contains(*k)) by {
                if seen.contains(*k) {
                    let j = choose|j: int| 0 <= j < it.index() && *it.seq()[j] == *k;
                    assert(it.seq()[j] == it.seq()[it.index()]);
                }
            }
            let mine = match self.tokens.get(k) {
                Some(v) => *v,
                None => Weight::zero(),
            };
            match other.tokens.get(k) {
                Some(theirs) => {
                    if !mine.le(theirs) || !theirs.le(&mine) {
                        return false;
                    }
                },
                None => {
                    return false;
                },
            }
            proof {
                seen = seen.insert(*k);
            }
        }
        proof {
            assert(seen.subset_of(self.tokens@.dom()));
            vstd::set_lib::lemma_subset_equality(seen, self.tokens@.dom());
            assert(seen.subset_of(other.tokens@.dom()));
            vstd::set_lib::lemma_subset_equality(self.tokens@.dom(), other.tokens@.dom());
        }
        true
    }
}

impl vstd::std_specs::cmp::PartialEqSpecImpl for Marking {
    open spec fn obeys_eq_spec() -> bool {
        true
    }

    open spec fn eq_spec(&self, other: &Self) -> bool {
        same_counts(self.counts(), other.counts())
    }
}

/// The weight with the given parts.
pub closed spec fn weight_of(p: (i128, u32)) -> Weight {
    Weight { mantissa: p.0, scale: p.1 }
}

/// The parts of `weight_of(p)` are those of `p`.
pub proof fn lemma_weight_of(p: (i128, u32))
    ensures
        weight_of(p).m() == p.0,
        weight_of(p).s() == p.1,
{
}

/// A transition: the places it consumes from and produces into, each arc
/// with its weight.
#[derive(Debug)]
pub struct Transition {
    pre: Vec<(usize, Weight)>,
    post: Vec<(usize, Weight)>,
}

impl Transition {
    /// The input arcs `(place, weight)`.
    pub closed spec fn inputs(&self) -> Seq<(usize, Weight)> {
        self.pre@
    }

    /// The output arcs `(place, weight)`.
    pub closed spec fn outputs(&self) -> Seq<(usize, Weight)> {
        self.post@
    }

    /// The transition with the given input and output arcs.
    pub fn new(pre: Vec<(usize, Weight)>, post: Vec<(usize, Weight)>) -> (r: Self)
        ensures
            r.inputs() == pre@,
            r.outputs() == post@,
    {
        Self { pre, post }
    }

    pub fn pre(&self) -> (r: &[(usize, Weight)])
        ensures
            r@ == self.inputs(),
    {
        self.pre.as_slice()
    }

    pub fn post(&self) -> (r: &[(usize, Weight)])
        ensures
            r@ == self.outputs(),
    {
        self.post.as_slice()
    }
}

impl Clone for Transition {
    fn clone(&self) -> (r: Self)
        ensures
            r.inputs() == self.inputs(),
            r.outputs() == self.outputs(),
    {
        Self { pre: crate::utils::copy_vec(self.pre.as_slice()), post: crate::utils::copy_vec(self.post.as_slice()) }
    }
}

/// Every input arc of `t` finds at least its weight in the counts `m`.
pub open spec fn is_enabled(t: Transition, m: Map<usize, Weight>) -> bool {
    forall|k: int| 0 <= k < t.inputs().len() ==> #[trigger] t.inputs()[k].1.le_spec(count_in(m, t.inputs()[k].0))
}

/// The counts after each arc in turn subtracts (or adds) its weight at its
/// place, through `Decimal::checked_sub` (or `checked_add`); `None` as soon
/// as one of them overflows.
pub open spec fn apply_arcs(m: Map<usize, Weight>, arcs: Seq<(usize, Weight)>, subtract: bool) -> Option<
    Map<usize, Weight>,
>
    decreases arcs.len(),
{
    if arcs.len() == 0 {
        Some(m)
    } else {
        match apply_arcs(m, arcs.drop_last(), subtract) {
            None => None,
            Some(m1) => {
                let (p, w) = arcs.last();
                let c = count_in(m1, p);
                let r = if subtract {
                    decimal_checked_sub(c.m(), c.s(), w.m(), w.s())
                } else {
                    decimal_checked_add(c.m(), c.s(), w.m(), w.s())
                };
                match r {
                    None => None,
                    Some(x) => Some(set_count(m1, p, weight_of(x))),
                }
            },
        }
    }
}

/// The counts after firing `t`: its inputs subtracted, then its outputs
/// added; `None` where an operation overflows.
pub open spec fn fired(m: Map<usize, Weight>, t: Transition) -> Option<Map<usize, Weight>> {
    match apply_arcs(m, t.inputs(), true) {
        None => None,
        Some(m1) => apply_arcs(m1, t.outputs(), false),
    }
}

/// The text of a number as `Display` shows it. Nothing is claimed of the
/// text.
#[verifier::external_body]
fn number_text(n: usize) -> String {
    n.to_string()
}

/// Applies the arcs to the marking in turn.
fn apply_arcs_exec(marking: &mut Marking, arcs: &[(usize, Weight)], subtract: bool) -> (ok: bool)
    ensures
        apply_arcs(old(marking).counts(), arcs@, subtract) matches Some(m) ==> ok && final(marking).counts() == m,
        apply_arcs(old(marking).counts(), arcs@, subtract) is None ==> !ok,
{
    let ghost m0 = marking.counts();
    let mut i: usize = 0;
    while i < arcs.len()
        invariant
            i <= arcs@.len(),
            m0 == old(marking).counts(),
            apply_arcs(m0, arcs@.subrange(0, i as int), subtract) == Some(marking.counts()),
        decreases arcs@.len() - i,
    {
        let (p, w) = arcs[i];
        let c = marking.get(p);
        let r = if subtract {
            c.checked_sub(&w)
        } else {
            c.checked_add(&w)
        };
        assert(arcs@.subrange(0, i + 1).drop_last() =~= arcs@.subrange(0, i as int));
        match r {
            None => {
                proof {
                    assert(arcs@.subrange(0, i + 1).last() == (p, w));
                    assert(apply_arcs(m0, arcs@.subrange(0, i + 1), subtract) is None);
                    lemma_apply_none(m0, arcs@, subtract, i + 1);
                }
                return false;
            },
            Some(v) => {
                marking.set(p, v);
            },
        }
        i = i + 1;
    }
    assert(arcs@.subrange(0, i as int) =~= arcs@);
    true
}

/// Once a prefix of the arcs overflows, so do all longer prefixes.
proof fn lemma_apply_none(m: Map<usize, Weight>, arcs: Seq<(usize, Weight)>, subtract: bool, k: int)
    requires
        0 <= k <= arcs.len(),
        apply_arcs(m, arcs.subrange(0, k), subtract) is None,
    ensures
        apply_arcs(m, arcs, subtract) is None,
    decreases arcs.len() - k,
{
    if k < arcs.len() {
        assert(arcs.subrange(0, k + 1).drop_last() =~= arcs.subrange(0, k));
        lemma_apply_none(m, arcs, subtract, k + 1);
    } else {
        assert(arcs.subrange(0, k) =~= arcs);
    }
}

/// The sum of the weights of the arcs at `place`, added in turn by
/// `Decimal::checked_add` from `0`; `None` as soon as a sum overflows.
pub open spec fn arc_sum(arcs: Seq<(usize, Weight)>, place: usize) -> Option<Weight>
    decreases arcs.len(),
{
    if arcs.len() == 0 {
        Some(zero_weight())
    } else {
        match arc_sum(arcs.drop_last(), place) {
            None => None,
            Some(acc) => {
                let (p, w) = arcs.last();
                if p == place {
                    match decimal_checked_add(acc.m(), acc.s(), w.m(), w.s()) {
                        None => None,
                        Some(x) => Some(weight_of(x)),
                    }
                } else {
                    Some(acc)
                }
            },
        }
    }
}

/// Once a prefix of the arcs overflows its sum, so do all longer prefixes.
proof fn lemma_sum_none(arcs: Seq<(usize, Weight)>, place: usize, k: int)
    requires
        0 <= k <= arcs.len(),
        arc_sum(arcs.subrange(0, k), place) is None,
    ensures
        arc_sum(arcs, place) is None,
    decreases arcs.len() - k,
{
    if k < arcs.len() {
        assert(arcs.subrange(0, k + 1).drop_last() =~= arcs.subrange(0, k));
        lemma_sum_none(arcs, place, k + 1);
    } else {
        assert(arcs.subrange(0, k) =~= arcs);
    }
}

/// Two weights with the same parts are equal.
proof fn lemma_weight_parts_equal(a: Weight, b: Weight)
    requires
        a.m() == b.m(),
        a.s() == b.s(),
    ensures
        a == b,
{
}

/// The output arcs of `t` when `outputs`, else its input arcs.
pub open spec fn arcs_of(t: Transition, outputs: bool) -> Seq<(usize, Weight)> {
    if outputs {
        t.outputs()
    } else {
        t.inputs()
    }
}

/// Some arc of the given side of some transition touches `place`.
pub open spec fn touches(ts: Seq<Transition>, place: usize, outputs: bool) -> bool {
    exists|i: int, k: int|
        0 <= i < ts.len() && 0 <= k < arcs_of(ts[i], outputs).len() && (#[trigger] arcs_of(ts[i], outputs)[k]).0
            == place
}

/// The arcs with their places shifted up by `offset`.
pub open spec fn shifted_arcs(arcs: Seq<(usize, Weight)>, offset: nat) -> Seq<(usize, Weight)> {
    Seq::new(arcs.len(), |k: int| ((arcs[k].0 + offset) as usize, arcs[k].1))
}

/// The arcs with their places shifted up by `offset`, computed.
fn shift_arcs(arcs: &[(usize, Weight)], offset: usize) -> (r: Vec<(usize, Weight)>)
    requires
        forall|k: int| 0 <= k < arcs@.len() ==> arcs@[k].0 + offset <= usize::MAX,
    ensures
        r@ == shifted_arcs(arcs@, offset as nat),
{
    let mut r: Vec<(usize, Weight)> = Vec::with_capacity(arcs.len());
    let mut k: usize = 0;
    while k < arcs.len()
        invariant
            k <= arcs@.len(),
            forall|m: int| 0 <= m < arcs@.len() ==> arcs@[m].0 + offset <= usize::MAX,
            r@ == shifted_arcs(arcs@.subrange(0, k as int), offset as nat),
        decreases arcs@.len() - k,
    {
        let (p, w) = arcs[k];
        r.push((p + offset, w));
        k = k + 1;
        assert(r@ =~= shifted_arcs(arcs@.subrange(0, k as int), offset as nat));
    }
    assert(arcs@.subrange(0, k as int) =~= arcs@);
    r
}

/// How many entries of `s` are `p`.
pub open spec fn occurrences(s: Seq<usize>, p: usize) -> nat
    decreases s.len(),
{
    if s.len() == 0 {
        0
    } else {
        occurrences(s.drop_last(), p) + if s.last() == p {
            1nat
        } else {
            0nat
        }
    }
}

/// `arcs` lists, by increasing place, each place below `n` that the leg
/// reaches, with the number of leg elements sent to it as a whole weight.
pub open spec fn multiplicity_arcs(arcs: Seq<(usize, Weight)>, leg: Seq<usize>, n: nat) -> bool {
    &&& forall|a: int, b: int| 0 <= a < b < arcs.len() ==> arcs[a].0 < arcs[b].0
    &&& forall|k: int|
        0 <= k < arcs.len() ==> {
            &&& (#[trigger] arcs[k]).0 < n
            &&& arcs[k].1.m() == occurrences(leg, arcs[k].0)
            &&& arcs[k].1.s() == 0
            &&& occurrences(leg, arcs[k].0) > 0
        }
    &&& forall|p: usize| p < n && #[trigger] occurrences(leg, p) > 0 ==> exists|k: int| 0 <= k < arcs.len() && arcs[k].0 == p
}

/// `ToPrimitive::to_u64` of `Decimal`: `None` for a negative number; else
/// the number with its fraction dropped, where it fits in a `u64`.
pub open spec fn to_u64_spec(w: Weight) -> Option<u64> {
    if w.m() < 0 {
        None
    } else if (w.m() as int) / pow10(w.s() as nat) <= u64::MAX {
        Some(((w.m() as int) / pow10(w.s() as nat)) as u64)
    } else {
        None
    }
}

/// Each arc's place, repeated as many times as its weight's whole part.
pub open spec fn expanded(arcs: Seq<(usize, Weight)>) -> Seq<usize>
    decreases arcs.len(),
{
    if arcs.len() == 0 {
        Seq::empty()
    } else {
        let (p, w) = arcs.last();
        expanded(arcs.drop_last()) + Seq::new(to_u64_spec(w)->Some_0 as nat, |i: int| p)
    }
}

/// `10^n` for a scale.
fn pow10_exec(n: u32) -> (r: i128)
    requires
        n <= max_scale(),
    ensures
        r == pow10(n as nat),
        r > 0,
{
    let mut r: i128 = 1;
    let mut i: u32 = 0;
    proof {
        lemma_pow10_mono(0, 28);
    }
    while i < n
        invariant
            i <= n <= max_scale(),
            r == pow10(i as nat),
            0 < r <= pow10(i as nat),
            pow10(i as nat) <= pow10(28),
        decreases n - i,
    {
        proof {
            lemma_pow10_mono(i as nat + 1, 28);
        }
        r = r * 10;
        i = i + 1;
    }
    r
}

/// `10^a <= 10^b` for `a <= b`, and `10^28` fits in an `i128`.
proof fn lemma_pow10_mono(a: nat, b: nat)
    requires
        a <= b,
    ensures
        0 < pow10(a) <= pow10(b),
        pow10(28) < i128::MAX,
    decreases b,
{
    reveal_with_fuel(pow10, 29);
    if a < b {
        lemma_pow10_mono(a, (b - 1) as nat);
    } else if a > 0 {
        lemma_pow10_mono((a - 1) as nat, (a - 1) as nat);
    }
}

/// `ToPrimitive::to_u64` of the weight's decimal: `None` for a negative
/// number, else its whole part where that fits in a `u64`.
pub fn weight_to_u64(w: &Weight) -> (r: Option<u64>)
    ensures
        r == to_u64_spec(*w),
{
    proof {
        use_type_invariant(w);
    }
    if w.mantissa < 0 {
        return None;
    }
    let q = w.mantissa / pow10_exec(w.scale);
    if q <= 0xFFFF_FFFF_FFFF_FFFFi128 {
        Some(q as u64)
    } else {
        None
    }
}

/// Every entry of `expanded(arcs)` is the place of some arc.
proof fn lemma_expanded_bounds(arcs: Seq<(usize, Weight)>, n: nat)
    requires
        forall|k: int| 0 <= k < arcs.len() ==> (#[trigger] arcs[k]).0 < n,
    ensures
        forall|i: int| 0 <= i < expanded(arcs).len() ==> #[trigger] expanded(arcs)[i] < n,
    decreases arcs.len(),
{
    if arcs.len() > 0 {
        lemma_expanded_bounds(arcs.drop_last(), n);
        assert(arcs.drop_last().len() == arcs.len() - 1);
        assert forall|k: int| 0 <= k < arcs.drop_last().len() implies (#[trigger] arcs.drop_last()[k]).0 < n by {
            assert(arcs.drop_last()[k] == arcs[k]);
        }
        assert(arcs[arcs.len() - 1].0 < n);
        let e0 = expanded(arcs.drop_last());
        let (p, w) = arcs.last();
        let tail = Seq::new(to_u64_spec(w)->Some_0 as nat, |i: int| p);
        assert(expanded(arcs) == e0 + tail);
        assert forall|i: int| 0 <= i < expanded(arcs).len() implies #[trigger] expanded(arcs)[i] < n by {
            if i < e0.len() {
                assert(expanded(arcs)[i] == e0[i]);
            } else {
                assert(expanded(arcs)[i] == tail[i - e0.len()]);
            }
        }
    }
}

/// The places below `p`, in increasing order, that no arc of the given
/// side touches.
pub open spec fn untouched_upto(ts: Seq<Transition>, outputs: bool, p: nat) -> Seq<usize>
    decreases p,
{
    if p == 0 {
        Seq::empty()
    } else {
        let q = (p - 1) as nat;
        if touches(ts, q as usize, outputs) {
            untouched_upto(ts, outputs, q)
        } else {
            untouched_upto(ts, outputs, q).push(q as usize)
        }
    }
}

/// The first sink from position `j` of `sinks` on that `used` does not hold
/// and that carries `label`.
pub open spec fn first_free_sink<L>(sinks: Seq<usize>, used: Set<usize>, labels: Seq<L>, label: L, j: int) -> Option<
    usize,
>
    decreases sinks.len() - j,
{
    if j < 0 || j >= sinks.len() {
        None
    } else if !used.contains(sinks[j]) && labels[sinks[j] as int] == label {
        Some(sinks[j])
    } else {
        first_free_sink(sinks, used, labels, label, j + 1)
    }
}

/// The matching of the first `k` sources of the second net, each with the
/// first sink of the first net that is still free and carries its label.
pub open spec fn greedy_merge<L>(
    sources: Seq<usize>,
    sinks: Seq<usize>,
    labels: Seq<L>,
    other_labels: Seq<L>,
    k: nat,
) -> Map<usize, usize>
    decreases k,
{
    if k == 0 {
        Map::empty()
    } else {
        let m = greedy_merge(sources, sinks, labels, other_labels, (k - 1) as nat);
        let os = sources[k - 1];
        match first_free_sink(sinks, m.values(), labels, other_labels[os as int], 0) {
            Some(ss) => m.insert(os, ss),
            None => m,
        }
    }
}

/// How many places below `k` the matching leaves unmatched.
pub open spec fn fresh_count(merge: Map<usize, usize>, k: nat) -> nat
    decreases k,
{
    if k == 0 {
        0
    } else {
        fresh_count(merge, (k - 1) as nat) + if merge.contains_key((k - 1) as usize) {
            0nat
        } else {
            1nat
        }
    }
}

/// The labels of the places below `k` that the matching leaves unmatched.
pub open spec fn unmatched_labels<L>(merge: Map<usize, usize>, labels: Seq<L>, k: nat) -> Seq<L>
    decreases k,
{
    if k == 0 {
        Seq::empty()
    } else {
        let q = (k - 1) as nat;
        if merge.contains_key(q as usize) {
            unmatched_labels(merge, labels, q)
        } else {
            unmatched_labels(merge, labels, q).push(labels[q as int])
        }
    }
}

/// Where place `i` of the second net goes: its matched sink, or the next
/// new place after the `n` places of the first net.
pub open spec fn merged_index(merge: Map<usize, usize>, n: nat, i: usize) -> int {
    if merge.contains_key(i) {
        merge[i] as int
    } else {
        (n + fresh_count(merge, i as nat)) as int
    }
}

/// The arcs with their places sent through the matching.
pub open spec fn merged_arcs(arcs: Seq<(usize, Weight)>, merge: Map<usize, usize>, n: nat) -> Seq<(usize, Weight)> {
    Seq::new(arcs.len(), |k: int| (merged_index(merge, n, arcs[k].0) as usize, arcs[k].1))
}

/// The unmatched labels below `k` number `fresh_count(merge, k)`.
proof fn lemma_unmatched_len<L>(merge: Map<usize, usize>, labels: Seq<L>, k: nat)
    ensures
        unmatched_labels(merge, labels, k).len() == fresh_count(merge, k),
    decreases k,
{
    if k > 0 {
        lemma_unmatched_len(merge, labels, (k - 1) as nat);
    }
}

/// Adding a new key adds its value to the values.
proof fn lemma_insert_values(m: Map<usize, usize>, k: usize, v: usize)
    requires
        !m.contains_key(k),
    ensures
        m.insert(k, v).values() == m.values().insert(v),
{
    assert forall|x: usize| #[trigger] m.insert(k, v).values().contains(x) <==> m.values().insert(v).contains(x) by {
        if m.insert(k, v).values().contains(x) {
            let y = choose|y: usize| #[trigger] m.insert(k, v).contains_key(y) && m.insert(k, v)[y] == x;
            if y != k {
                assert(m.contains_key(y) && m[y] == x);
            }
        }
        if m.values().contains(x) {
            let y = choose|y: usize| #[trigger] m.contains_key(y) && m[y] == x;
            assert(m.insert(k, v).contains_key(y) && m.insert(k, v)[y] == x);
        }
        if x == v {
            assert(m.insert(k, v).contains_key(k) && m.insert(k, v)[k] == x);
        }
    }
    assert(m.insert(k, v).values() =~= m.values().insert(v));
}

/// The first sink from position `j` on that `used` does not hold and that
/// carries `label`.
fn find_free_sink<Lambda: Label>(
    sinks: &[usize],
    used: &Vec<bool>,
    labels: &[Lambda],
    label: Lambda,
    Ghost(used_set): Ghost<Set<usize>>,
) -> (r: Option<usize>)
    requires
        used@.len() == labels@.len(),
        forall|y: int| 0 <= y < labels@.len() ==> used@[y] == used_set.contains(y as usize),
        forall|i: int| 0 <= i < sinks@.len() ==> #[trigger] sinks@[i] < labels@.len(),
    ensures
        r == first_free_sink(sinks@, used_set, labels@, label, 0),
{
    let mut b: usize = 0;
    while b < sinks.len()
        invariant
            b <= sinks@.len(),
            used@.len() == labels@.len(),
            forall|y: int| 0 <= y < labels@.len() ==> used@[y] == used_set.contains(y as usize),
            forall|i: int| 0 <= i < sinks@.len() ==> #[trigger] sinks@[i] < labels@.len(),
            first_free_sink(sinks@, used_set, labels@, label, 0) == first_free_sink(
                sinks@,
                used_set,
                labels@,
                label,
                b as int,
            ),
        decreases sinks@.len() - b,
    {
        let ss = sinks[b];
        assert(sinks@[b as int] < labels@.len());
        if !used[ss] && labels[ss].same_label(&label) {
            return Some(ss);
        }
        b = b + 1;
    }
    None
}

/// The arcs with each place `p` sent to `index[p]`.
fn remap_arcs(arcs: &[(usize, Weight)], index: &[usize]) -> (r: Vec<(usize, Weight)>)
    requires
        forall|k: int| 0 <= k < arcs@.len() ==> #[trigger] arcs@[k].0 < index@.len(),
    ensures
        r@ == Seq::new(arcs@.len(), |k: int| (index@[arcs@[k].0 as int], arcs@[k].1)),
{
    let mut r: Vec<(usize, Weight)> = Vec::with_capacity(arcs.len());
    let mut k: usize = 0;
    while k < arcs.len()
        invariant
            k <= arcs@.len(),
            forall|j: int| 0 <= j < arcs@.len() ==> #[trigger] arcs@[j].0 < index@.len(),
            r@ == Seq::new(k as nat, |j: int| (index@[arcs@[j].0 as int], arcs@[j].1)),
        decreases arcs@.len() - k,
    {
        let (p, w) = arcs[k];
        assert(arcs@[k as int].0 < index@.len());
        r.push((index[p], w));
        k = k + 1;
        assert(r@ =~= Seq::new(k as nat, |j: int| (index@[arcs@[j].0 as int], arcs@[j].1)));
    }
    r
}

/// A sink that `first_free_sink` finds is free and carries the label.
proof fn lemma_first_free_in<L>(sinks: Seq<usize>, used: Set<usize>, labels: Seq<L>, label: L, j: int)
    requires
        first_free_sink(sinks, used, labels, label, j) is Some,
    ensures
        !used.contains(first_free_sink(sinks, used, labels, label, j)->Some_0),
        exists|i: int| 0 <= i < sinks.len() && sinks[i] == first_free_sink(sinks, used, labels, label, j)->Some_0,
    decreases sinks.len() - j,
{
    if !(j < 0 || j >= sinks.len()) && !(!used.contains(sinks[j]) && labels[sinks[j] as int] == label) {
        lemma_first_free_in(sinks, used, labels, label, j + 1);
    }
}

/// Firing some enabled transition of `ts` from the counts `m1` gives the
/// counts `m2`, with no overflow.
pub open spec fn fires_to(ts: Seq<Transition>, m1: Map<usize, Weight>, m2: Map<usize, Weight>) -> bool {
    exists|t: int| 0 <= t < ts.len() && is_enabled(ts[t], m1) && #[trigger] fired(m1, ts[t]) == Some(m2)
}

/// Each counts of `ms` is reached from the one before it by one firing.
pub open spec fn is_firing_path(ts: Seq<Transition>, ms: Seq<Map<usize, Weight>>) -> bool {
    &&& ms.len() >= 1
    &&& forall|i: int| 0 <= i < ms.len() - 1 ==> fires_to(ts, #[trigger] ms[i], ms[i + 1])
}

/// The counts `m` are reached from `m0` by at most `d` firings.
pub open spec fn reachable_within(ts: Seq<Transition>, m0: Map<usize, Weight>, d: nat, m: Map<usize, Weight>) -> bool {
    exists|ms: Seq<Map<usize, Weight>>|
        #[trigger] is_firing_path(ts, ms) && ms[0] == m0 && ms.last() == m && ms.len() <= d + 1
}

/// `m0` is reached from itself.
pub proof fn lemma_within_start(ts: Seq<Transition>, m0: Map<usize, Weight>, d: nat)
    ensures
        reachable_within(ts, m0, d, m0),
{
    let ms = seq![m0];
    assert(is_firing_path(ts, ms));
}

/// What is reached within `d1` firings is reached within any `d2 >= d1`.
pub proof fn lemma_within_mono(ts: Seq<Transition>, m0: Map<usize, Weight>, d1: nat, d2: nat, m: Map<usize, Weight>)
    requires
        d1 <= d2,
        reachable_within(ts, m0, d1, m),
    ensures
        reachable_within(ts, m0, d2, m),
{
    let ms = choose|ms: Seq<Map<usize, Weight>>|
        #[trigger] is_firing_path(ts, ms) && ms[0] == m0 && ms.last() == m && ms.len() <= d1 + 1;
    assert(is_firing_path(ts, ms));
}

/// One more firing from what is reached within `d` firings is reached
/// within `d + 1`.
pub proof fn lemma_within_step(
    ts: Seq<Transition>,
    m0: Map<usize, Weight>,
    d: nat,
    m1: Map<usize, Weight>,
    m2: Map<usize, Weight>,
)
    requires
        reachable_within(ts, m0, d, m1),
        fires_to(ts, m1, m2),
    ensures
        reachable_within(ts, m0, d + 1, m2),
{
    let ms = choose|ms: Seq<Map<usize, Weight>>|
        #[trigger] is_firing_path(ts, ms) && ms[0] == m0 && ms.last() == m1 && ms.len() <= d + 1;
    let ns = ms.push(m2);
    assert forall|i: int| 0 <= i < ns.len() - 1 implies fires_to(ts, #[trigger] ns[i], ns[i + 1]) by {
        if i < ms.len() - 1 {
            assert(ns[i] == ms[i] && ns[i + 1] == ms[i + 1]);
        } else {
            assert(ns[i] == m1 && ns[i + 1] == m2);
        }
    }
    assert(is_firing_path(ts, ns));
}

/// Firing respects numeric equality of counts: a transition enabled at some
/// counts and firing there without overflow is enabled and fires at counts
/// with the same numbers, to counts with the same numbers. The search
/// prunes a marking whose counts equal, as numbers, counts it has seen, so
/// its completeness rests on this property of the `Decimal` arithmetic
/// behind `fired`.
pub open spec fn firing_respects_counts(ts: Seq<Transition>) -> bool {
    forall|t: int, a: Map<usize, Weight>, b: Map<usize, Weight>|
        #![trigger same_counts(a, b), fired(a, ts[t])]
        0 <= t < ts.len() && same_counts(a, b) && is_enabled(ts[t], a) && fired(a, ts[t]) is Some ==> {
            &&& is_enabled(ts[t], b)
            &&& fired(b, ts[t]) is Some
            &&& same_counts(fired(a, ts[t])->0, fired(b, ts[t])->0)
        }
}

/// Every counts reached from `v` by one firing has the same numbers as some
/// counts of `seen`.
pub open spec fn explored(ts: Seq<Transition>, v: Map<usize, Weight>, seen: Seq<Map<usize, Weight>>) -> bool {
    forall|t: int|
        0 <= t < ts.len() && is_enabled(ts[t], v) && #[trigger] fired(v, ts[t]) is Some ==> exists|i: int|
            0 <= i < seen.len() && #[trigger] same_counts(seen[i], fired(v, ts[t])->0)
}

/// Every counts reached within `d` firings has the same numbers as some
/// counts of `seen`.
pub open spec fn covers(ts: Seq<Transition>, m0: Map<usize, Weight>, d: nat, seen: Seq<Map<usize, Weight>>) -> bool {
    forall|m: Map<usize, Weight>|
        #[trigger] reachable_within(ts, m0, d, m) ==> exists|i: int| 0 <= i < seen.len() && #[trigger] same_counts(seen[i], m)
}

/// The counts of the markings, in order.
pub open spec fn counts_of(ms: Seq<Marking>) -> Seq<Map<usize, Weight>> {
    Seq::new(ms.len(), |i: int| ms[i].counts())
}

/// Numeric order of decimals is transitive.
proof fn lemma_decimal_le_trans(am: int, a_s: nat, bm: int, b_s: nat, cm: int, c_s: nat)
    requires
        decimal_le(am, a_s, bm, b_s),
        decimal_le(bm, b_s, cm, c_s),
    ensures
        decimal_le(am, a_s, cm, c_s),
{
    lemma_pow10_pos(a_s);
    lemma_pow10_pos(b_s);
    lemma_pow10_pos(c_s);
    let pa = pow10(a_s);
    let pb = pow10(b_s);
    let pc = pow10(c_s);
    assert(am * pc <= cm * pa) by (nonlinear_arith)
        requires
            am * pb <= bm * pa,
            bm * pc <= cm * pb,
            pa > 0,
            pb > 0,
            pc > 0,
    {
        assert(am * pb * pc <= bm * pa * pc);
        assert(bm * pc * pa <= cm * pb * pa);
        assert(am * pc * pb <= cm * pa * pb);
    }
}

/// Equal numbers of tokens is an equivalence on counts.
proof fn lemma_same_counts_equiv(a: Map<usize, Weight>, b: Map<usize, Weight>, c: Map<usize, Weight>)
    ensures
        same_counts(a, a),
        same_counts(a, b) ==> same_counts(b, a),
        same_counts(a, b) && same_counts(b, c) ==> same_counts(a, c),
{
    assert forall|p: usize| #[trigger] a.contains_key(p) implies a[p].same_value(a[p]) by {}
    if same_counts(a, b) {
        assert forall|p: usize| #[trigger] b.contains_key(p) implies b[p].same_value(a[p]) by {
            assert(a.contains_key(p));
        }
    }
    if same_counts(a, b) && same_counts(b, c) {
        assert forall|p: usize| #[trigger] a.contains_key(p) implies a[p].same_value(c[p]) by {
            assert(b.contains_key(p));
            let (x, y, z) = (a[p], b[p], c[p]);
            lemma_decimal_le_trans(x.m() as int, x.s() as nat, y.m() as int, y.s() as nat, z.m() as int, z.s() as nat);
            lemma_decimal_le_trans(z.m() as int, z.s() as nat, y.m() as int, y.s() as nat, x.m() as int, x.s() as nat);
        }
    }
}

/// What is reached within `d + 1` firings is reached within `d`, or one
/// firing after something reached within `d`.
proof fn lemma_within_last_step(ts: Seq<Transition>, m0: Map<usize, Weight>, d: nat, m: Map<usize, Weight>)
    requires
        reachable_within(ts, m0, d + 1, m),
    ensures
        reachable_within(ts, m0, d, m) || exists|m1: Map<usize, Weight>|
            #[trigger] reachable_within(ts, m0, d, m1) && fires_to(ts, m1, m),
{
    let ms = choose|ms: Seq<Map<usize, Weight>>|
        #[trigger] is_firing_path(ts, ms) && ms[0] == m0 && ms.last() == m && ms.len() <= d + 2;
    if ms.len() <= d + 1 {
        assert(is_firing_path(ts, ms));
    } else {
        let ps = ms.drop_last();
        assert forall|i: int| 0 <= i < ps.len() - 1 implies fires_to(ts, #[trigger] ps[i], ps[i + 1]) by {
            assert(ps[i] == ms[i] && ps[i + 1] == ms[i + 1]);
        }
        assert(is_firing_path(ts, ps));
        assert(reachable_within(ts, m0, d, ps.last()));
        assert(fires_to(ts, ms[ms.len() - 2], ms[ms.len() - 1]));
    }
}

/// Nothing but `m0` is reached within no firing.
proof fn lemma_within_zero(ts: Seq<Transition>, m0: Map<usize, Weight>, m: Map<usize, Weight>)
    requires
        reachable_within(ts, m0, 0, m),
    ensures
        m == m0,
{
    let ms = choose|ms: Seq<Map<usize, Weight>>|
        #[trigger] is_firing_path(ts, ms) && ms[0] == m0 && ms.last() == m && ms.len() <= 1;
}

/// Exploring stays true as more counts are seen.
proof fn lemma_explored_grows(ts: Seq<Transition>, v: Map<usize, Weight>, seen: Seq<Map<usize, Weight>>, more: Seq<Map<usize, Weight>>)
    requires
        explored(ts, v, seen),
        seen.len() <= more.len(),
        forall|i: int| 0 <= i < seen.len() ==> more[i] == seen[i],
    ensures
        explored(ts, v, more),
{
    assert forall|t: int|
        0 <= t < ts.len() && is_enabled(ts[t], v) && #[trigger] fired(v, ts[t]) is Some implies exists|i: int|
            0 <= i < more.len() && #[trigger] same_counts(more[i], fired(v, ts[t])->0) by {
        let i = choose|i: int| 0 <= i < seen.len() && #[trigger] same_counts(seen[i], fired(v, ts[t])->0);
        assert(more[i] == seen[i]);
    }
}

/// One round of the search: when what is reached within `d` firings is
/// covered by `old`, and every counts of `old` is explored within `seen`,
/// what is reached within `d + 1` firings is covered by `seen`.
proof fn lemma_cover_step(
    ts: Seq<Transition>,
    m0: Map<usize, Weight>,
    d: nat,
    old: Seq<Map<usize, Weight>>,
    seen: Seq<Map<usize, Weight>>,
)
    requires
        firing_respects_counts(ts),
        covers(ts, m0, d, old),
        old.len() <= seen.len(),
        forall|i: int| 0 <= i < old.len() ==> seen[i] == old[i],
        forall|i: int| 0 <= i < old.len() ==> explored(ts, #[trigger] old[i], seen),
    ensures
        covers(ts, m0, d + 1, seen),
{
    assert forall|m: Map<usize, Weight>| #[trigger] reachable_within(ts, m0, d + 1, m) implies exists|i: int|
        0 <= i < seen.len() && #[trigger] same_counts(seen[i], m) by {
        lemma_within_last_step(ts, m0, d, m);
        if reachable_within(ts, m0, d, m) {
            let i = choose|i: int| 0 <= i < old.len() && #[trigger] same_counts(old[i], m);
            assert(seen[i] == old[i]);
        } else {
            let m1 = choose|m1: Map<usize, Weight>| #[trigger] reachable_within(ts, m0, d, m1) && fires_to(ts, m1, m);
            let i = choose|i: int| 0 <= i < old.len() && #[trigger] same_counts(old[i], m1);
            let v = old[i];
            let t = choose|t: int| 0 <= t < ts.len() && is_enabled(ts[t], m1) && #[trigger] fired(m1, ts[t]) == Some(m);
            lemma_same_counts_equiv(v, m1, m1);
            assert(same_counts(m1, v));
            assert(fired(m1, ts[t]) is Some);
            assert(is_enabled(ts[t], v) && fired(v, ts[t]) is Some && same_counts(m, fired(v, ts[t])->0));
            let y = fired(v, ts[t])->0;
            assert(explored(ts, old[i], seen));
            let w = choose|w: int| 0 <= w < seen.len() && #[trigger] same_counts(seen[w], fired(v, ts[t])->0);
            lemma_same_counts_equiv(m, y, y);
            lemma_same_counts_equiv(seen[w], y, m);
        }
    }
}

/// When every seen counts is explored and the start is seen, every counts
/// reached within any number of firings is covered.
proof fn lemma_cover_closed(ts: Seq<Transition>, m0: Map<usize, Weight>, d: nat, seen: Seq<Map<usize, Weight>>)
    requires
        firing_respects_counts(ts),
        seen.len() >= 1,
        seen[0] == m0,
        forall|i: int| 0 <= i < seen.len() ==> explored(ts, #[trigger] seen[i], seen),
    ensures
        covers(ts, m0, d, seen),
    decreases d,
{
    if d == 0 {
        assert forall|m: Map<usize, Weight>| #[trigger] reachable_within(ts, m0, 0, m) implies exists|i: int|
            0 <= i < seen.len() && #[trigger] same_counts(seen[i], m) by {
            lemma_within_zero(ts, m0, m);
            lemma_same_counts_equiv(m0, m0, m0);
        }
    } else {
        lemma_cover_closed(ts, m0, (d - 1) as nat, seen);
        lemma_cover_step(ts, m0, (d - 1) as nat, seen, seen);
    }
}

/// The two searches agree: where firing respects equal numbers of tokens, a
/// target is found by `can_reach` exactly when some marking `reachable`
/// returns has its numbers. `seen` stands for the counts `reachable` gives and
/// `found` for the answer of `can_reach`, each as its contract describes it.
pub proof fn law_can_reach_matches_reachable(
    ts: Seq<Transition>,
    m0: Map<usize, Weight>,
    d: nat,
    target: Map<usize, Weight>,
    seen: Seq<Map<usize, Weight>>,
    found: bool,
)
    requires
        firing_respects_counts(ts),
        forall|i: int| 0 <= i < seen.len() ==> reachable_within(ts, m0, d, #[trigger] seen[i]),
        covers(ts, m0, d, seen),
        found ==> exists|m: Map<usize, Weight>| reachable_within(ts, m0, d, m) && #[trigger] same_counts(m, target),
        (exists|m: Map<usize, Weight>| reachable_within(ts, m0, d, m) && #[trigger] same_counts(m, target)) ==> found,
    ensures
        found <==> exists|i: int| 0 <= i < seen.len() && #[trigger] same_counts(seen[i], target),
{
    if found {
        let m = choose|m: Map<usize, Weight>| reachable_within(ts, m0, d, m) && #[trigger] same_counts(m, target);
        let i = choose|i: int| 0 <= i < seen.len() && #[trigger] same_counts(seen[i], m);
        lemma_same_counts_equiv(seen[i], m, target);
    }
    if exists|i: int| 0 <= i < seen.len() && #[trigger] same_counts(seen[i], target) {
        let i = choose|i: int| 0 <= i < seen.len() && #[trigger] same_counts(seen[i], target);
        assert(reachable_within(ts, m0, d, seen[i]));
    }
}

/// Whether some marking of `list` has the same counts as `m`.
fn marking_in(list: &Vec<Marking>, m: &Marking) -> (b: bool)
    ensures
        b == exists|i: int| 0 <= i < list@.len() && same_counts(#[trigger] list@[i].counts(), m.counts()),
{
    let mut i: usize = 0;
    while i < list.len()
        invariant
            i <= list@.len(),
            forall|j: int| 0 <= j < i ==> !same_counts(#[trigger] list@[j].counts(), m.counts()),
        decreases list@.len() - i,
    {
        if list[i].eq(m) {
            return true;
        }
        i = i + 1;
    }
    false
}

/// A place/transition Petri net with labelled places.
#[derive(Debug)]
pub struct PetriNet<Lambda: Label> {
    places: Vec<Lambda>,
    transitions: Vec<Transition>,
}

impl<Lambda: Label> PetriNet<Lambda> {
    /// The labels of the places.
    pub closed spec fn place_labels(&self) -> Seq<Lambda> {
        self.places@
    }

    /// The transitions.
    pub closed spec fn all_transitions(&self) -> Seq<Transition> {
        self.transitions@
    }

    /// The net with the given places and transitions.
    pub fn new(places: Vec<Lambda>, transitions: Vec<Transition>) -> (r: Self)
        ensures
            r.place_labels() == places@,
            r.all_transitions() == transitions@,
    {
        Self { places, transitions }
    }

    pub fn places(&self) -> (r: &[Lambda])
        ensures
            r@ == self.place_labels(),
    {
        self.places.as_slice()
    }

    pub fn transitions(&self) -> (r: &[Transition])
        ensures
            r@ == self.all_transitions(),
    {
        self.transitions.as_slice()
    }

    pub fn place_count(&self) -> (r: usize)
        ensures
            r == self.place_labels().len(),
    {
        self.places.len()
    }

    pub fn transition_count(&self) -> (r: usize)
        ensures
            r == self.all_transitions().len(),
    {
        self.transitions.len()
    }

    /// Whether every input arc of transition `t` finds its weight in `marking`.
    fn transition_enabled(t: &Transition, marking: &Marking) -> (b: bool)
        ensures
            b == is_enabled(*t, marking.counts()),
    {
        let mut k: usize = 0;
        while k < t.pre.len()
            invariant
                k <= t.inputs().len(),
                forall|j: int| 0 <= j < k ==> #[trigger] t.inputs()[j].1.le_spec(count_in(marking.counts(), t.inputs()[j].0)),
            decreases t.inputs().len() - k,
        {
            let (p, w) = t.pre[k];
            if !w.le(&marking.get(p)) {
                return false;
            }
            k = k + 1;
        }
        true
    }

    /// The indices, in increasing order, of the transitions enabled under
    /// `marking`.
    pub fn enabled(&self, marking: &Marking) -> (r: Vec<usize>)
        ensures
            forall|i: int| 0 <= i < r@.len() ==> #[trigger] r@[i] < self.all_transitions().len() && is_enabled(
                self.all_transitions()[r@[i] as int],
                marking.counts(),
            ),
            forall|i: int, j: int| 0 <= i < j < r@.len() ==> r@[i] < r@[j],
            forall|t: int|
                0 <= t < self.all_transitions().len() && is_enabled(#[trigger] self.all_transitions()[t], marking.counts())
                    ==> r@.contains(t as usize),
    {
        let mut r: Vec<usize> = Vec::new();
        let mut i: usize = 0;
        while i < self.transitions.len()
            invariant
                i <= self.all_transitions().len(),
                forall|k: int| 0 <= k < r@.len() ==> #[trigger] r@[k] < i && is_enabled(
                    self.all_transitions()[r@[k] as int],
                    marking.counts(),
                ),
                forall|a: int, b: int| 0 <= a < b < r@.len() ==> r@[a] < r@[b],
                forall|t: int|
                    0 <= t < i && is_enabled(#[trigger] self.all_transitions()[t], marking.counts()) ==> r@.contains(
                        t as usize,
                    ),
            decreases self.all_transitions().len() - i,
        {
            if Self::transition_enabled(&self.transitions[i], marking) {
                let ghost r0 = r@;
                r.push(i);
                assert(r@[r@.len() - 1] == i);
                assert(r@.contains(i));
                assert forall|x: usize| r0.contains(x) implies r@.contains(x) by {
                    let k = choose|k: int| 0 <= k < r0.len() && r0[k] == x;
                    assert(r@[k] == x);
                }
            }
            i = i + 1;
        }
        r
    }

    /// Fires `transition` from `marking`: its input weights are subtracted,
    /// then its output weights added. Fails when the transition does not
    /// exist or is not enabled, and when a count overflows.
    pub fn try_fire(&self, transition: usize, marking: &Marking) -> (r: Result<Marking, CatgraphError>)
        ensures
            transition >= self.all_transitions().len() ==> (r matches Err(e) && e is PetriNet),
            transition < self.all_transitions().len() && !is_enabled(
                self.all_transitions()[transition as int],
                marking.counts(),
            ) ==> (r matches Err(e) && e is PetriNet),
            transition < self.all_transitions().len() && is_enabled(
                self.all_transitions()[transition as int],
                marking.counts(),
            ) ==> match fired(marking.counts(), self.all_transitions()[transition as int]) {
                Some(m) => (r matches Ok(x) && x.counts() == m),
                None => (r matches Err(e) && e is PetriNet),
            },
    {
        if transition >= self.transitions.len() {
            let message = String::from_str("transition ");
            let message = message.concat(number_text(transition).as_str());
            let message = message.concat(" out of bounds (net has ");
            let message = message.concat(number_text(self.transitions.len()).as_str());
            let message = message.concat(" transitions)");
            return Err(CatgraphError::PetriNet { message });
        }
        let t = &self.transitions[transition];
        if !Self::transition_enabled(t, marking) {
            let message = String::from_str("transition ");
            let message = message.concat(number_text(transition).as_str());
            let message = message.concat(" not enabled under current marking");
            return Err(CatgraphError::PetriNet { message });
        }
        let mut result = marking.clone();
        if !apply_arcs_exec(&mut result, t.pre.as_slice(), true) || !apply_arcs_exec(
            &mut result,
            t.post.as_slice(),
            false,
        ) {
            let message = String::from_str("token count overflow firing transition ");
            let message = message.concat(number_text(transition).as_str());
            return Err(CatgraphError::PetriNet { message });
        }
        Ok(result)
    }

    /// The sum of the weights of the arcs of `arcs` at `place`, added in turn
    /// by `Decimal::checked_add` from `0`; `None` where a sum overflows.
    fn arc_sum_exec(arcs: &[(usize, Weight)], place: usize) -> (r: Option<Weight>)
        ensures
            r == arc_sum(arcs@, place),
    {
        let mut acc = Weight::zero();
        let mut i: usize = 0;
        while i < arcs.len()
            invariant
                i <= arcs@.len(),
                arc_sum(arcs@.subrange(0, i as int), place) == Some(acc),
            decreases arcs@.len() - i,
        {
            let (p, w) = arcs[i];
            assert(arcs@.subrange(0, i + 1).drop_last() =~= arcs@.subrange(0, i as int));
            assert(arcs@.subrange(0, i + 1).last() == (p, w));
            if p == place {
                match acc.checked_add(&w) {
                    Some(s) => {
                        proof {
                            let x = decimal_checked_add(acc.m(), acc.s(), w.m(), w.s())->Some_0;
                            lemma_weight_of(x);
                            lemma_weight_parts_equal(s, weight_of(x));
                        }
                        acc = s;
                    },
                    None => {
                        proof {
                            lemma_sum_none(arcs@, place, i + 1);
                            assert(arcs@.subrange(0, arcs@.len() as int) =~= arcs@);
                        }
                        return None;
                    },
                }
            }
            i = i + 1;
        }
        assert(arcs@.subrange(0, i as int) =~= arcs@);
        Some(acc)
    }

    /// The weight of the input arcs from `place` to `transition`, summed
    /// (`0` when the transition does not exist); `None` where the sum
    /// overflows.
    pub fn checked_arc_weight_pre(&self, place: usize, transition: usize) -> (r: Option<Weight>)
        ensures
            transition >= self.all_transitions().len() ==> r == Some(zero_weight()),
            transition < self.all_transitions().len() ==> r == arc_sum(
                self.all_transitions()[transition as int].inputs(),
                place,
            ),
    {
        if transition >= self.transitions.len() {
            return Some(Weight::zero());
        }
        Self::arc_sum_exec(self.transitions[transition].pre.as_slice(), place)
    }

    /// The weight of the output arcs from `transition` to `place`, summed
    /// (`0` when the transition does not exist); `None` where the sum
    /// overflows.
    pub fn checked_arc_weight_post(&self, place: usize, transition: usize) -> (r: Option<Weight>)
        ensures
            transition >= self.all_transitions().len() ==> r == Some(zero_weight()),
            transition < self.all_transitions().len() ==> r == arc_sum(
                self.all_transitions()[transition as int].outputs(),
                place,
            ),
    {
        if transition >= self.transitions.len() {
            return Some(Weight::zero());
        }
        Self::arc_sum_exec(self.transitions[transition].post.as_slice(), place)
    }

    /// The weight of the input arcs from `place` to `transition`, summed
    /// (`0` when the transition does not exist), for a sum that does not
    /// overflow.
    pub fn arc_weight_pre(&self, place: usize, transition: usize) -> (r: Weight)
        requires
            transition < self.all_transitions().len() ==> arc_sum(
                self.all_transitions()[transition as int].inputs(),
                place,
            ) is Some,
        ensures
            transition >= self.all_transitions().len() ==> r == zero_weight(),
            transition < self.all_transitions().len() ==> Some(r) == arc_sum(
                self.all_transitions()[transition as int].inputs(),
                place,
            ),
    {
        match self.checked_arc_weight_pre(place, transition) {
            Some(w) => w,
            None => Weight::zero(),
        }
    }

    /// The weight of the output arcs from `transition` to `place`, summed
    /// (`0` when the transition does not exist), for a sum that does not
    /// overflow.
    pub fn arc_weight_post(&self, place: usize, transition: usize) -> (r: Weight)
        requires
            transition < self.all_transitions().len() ==> arc_sum(
                self.all_transitions()[transition as int].outputs(),
                place,
            ) is Some,
        ensures
            transition >= self.all_transitions().len() ==> r == zero_weight(),
            transition < self.all_transitions().len() ==> Some(r) == arc_sum(
                self.all_transitions()[transition as int].outputs(),
                place,
            ),
    {
        match self.checked_arc_weight_post(place, transition) {
            Some(w) => w,
            None => Weight::zero(),
        }
    }

    /// Whether some arc of some transition (an output arc when `outputs`,
    /// else an input arc) touches `place`.
    fn touched(&self, place: usize, outputs: bool) -> (b: bool)
        ensures
            b == touches(self.all_transitions(), place, outputs),
    {
        let mut i: usize = 0;
        while i < self.transitions.len()
            invariant
                i <= self.all_transitions().len(),
                forall|j: int, k: int|
                    0 <= j < i && 0 <= k < arcs_of(self.all_transitions()[j], outputs).len() ==> (#[trigger] arcs_of(
                        self.all_transitions()[j],
                        outputs,
                    )[k]).0 != place,
            decreases self.all_transitions().len() - i,
        {
            let arcs = if outputs {
                self.transitions[i].post.as_slice()
            } else {
                self.transitions[i].pre.as_slice()
            };
            let mut k: usize = 0;
            while k < arcs.len()
                invariant
                    k <= arcs@.len(),
                    i < self.all_transitions().len(),
                    arcs@ == arcs_of(self.all_transitions()[i as int], outputs),
                    forall|m: int| 0 <= m < k ==> arcs@[m].0 != place,
                decreases arcs@.len() - k,
            {
                if arcs[k].0 == place {
                    assert(arcs_of(self.all_transitions()[i as int], outputs)[k as int].0 == place);
                    return true;
                }
                k = k + 1;
            }
            i = i + 1;
        }
        false
    }

    /// The places, in increasing order, into which no transition produces.
    pub fn source_places(&self) -> (r: Vec<usize>)
        ensures
            r@ == untouched_upto(self.all_transitions(), true, self.place_labels().len()),
            forall|i: int, j: int| 0 <= i < j < r@.len() ==> r@[i] < r@[j],
            forall|p: usize|
                r@.contains(p) <==> p < self.place_labels().len() && !touches(self.all_transitions(), p, true),
    {
        self.untouched_places(true)
    }

    /// The places, in increasing order, from which no transition consumes.
    pub fn sink_places(&self) -> (r: Vec<usize>)
        ensures
            r@ == untouched_upto(self.all_transitions(), false, self.place_labels().len()),
            forall|i: int, j: int| 0 <= i < j < r@.len() ==> r@[i] < r@[j],
            forall|p: usize|
                r@.contains(p) <==> p < self.place_labels().len() && !touches(self.all_transitions(), p, false),
    {
        self.untouched_places(false)
    }

    /// The places, in increasing order, that no arc of the given side touches.
    fn untouched_places(&self, outputs: bool) -> (r: Vec<usize>)
        ensures
            r@ == untouched_upto(self.all_transitions(), outputs, self.place_labels().len()),
            forall|i: int, j: int| 0 <= i < j < r@.len() ==> r@[i] < r@[j],
            forall|p: usize|
                r@.contains(p) <==> p < self.place_labels().len() && !touches(self.all_transitions(), p, outputs),
    {
        let mut r: Vec<usize> = Vec::new();
        let mut p: usize = 0;
        while p < self.places.len()
            invariant
                p <= self.place_labels().len(),
                r@ == untouched_upto(self.all_transitions(), outputs, p as nat),
                forall|i: int| 0 <= i < r@.len() ==> #[trigger] r@[i] < p,
                forall|i: int, j: int| 0 <= i < j < r@.len() ==> r@[i] < r@[j],
                forall|q: usize|
                    r@.contains(q) <==> q < p && !touches(self.all_transitions(), q, outputs),
            decreases self.place_labels().len() - p,
        {
            if !self.touched(p, outputs) {
                let ghost r0 = r@;
                r.push(p);
                proof {
                    assert forall|q: usize| r@.contains(q) <==> q < p + 1 && !touches(self.all_transitions(), q, outputs) by {
                        if r@.contains(q) {
                            let k = choose|k: int| 0 <= k < r@.len() && r@[k] == q;
                            if k < r0.len() {
                                assert(r0[k] == q);
                                assert(r0.contains(q));
                            }
                        }
                        if q < p + 1 && !touches(self.all_transitions(), q, outputs) {
                            if q < p {
                                assert(r0.contains(q));
                                let k = choose|k: int| 0 <= k < r0.len() && r0[k] == q;
                                assert(r@[k] == q);
                            } else {
                                assert(r@[r@.len() - 1] == q);
                            }
                        }
                    }
                }
            } else {
                proof {
                    assert forall|q: usize| r@.contains(q) <==> q < p + 1 && !touches(self.all_transitions(), q, outputs) by {
                        if r@.contains(q) {
                            let k = choose|k: int| 0 <= k < r@.len() && r@[k] == q;
                            assert(r@[k] < p);
                        }
                    }
                }
            }
            p = p + 1;
        }
        r
    }

    /// The disjoint union of the two nets: the places of `other` follow those
    /// of `self`, and its transitions, their arcs shifted accordingly, follow
    /// those of `self`.
    pub fn parallel(&self, other: &Self) -> (r: Self)
        requires
            forall|i: int, k: int|
                0 <= i < other.all_transitions().len() && 0 <= k < arcs_of(other.all_transitions()[i], false).len()
                    ==> (#[trigger] arcs_of(other.all_transitions()[i], false)[k]).0 + self.place_labels().len() <= usize::MAX,
            forall|i: int, k: int|
                0 <= i < other.all_transitions().len() && 0 <= k < arcs_of(other.all_transitions()[i], true).len()
                    ==> (#[trigger] arcs_of(other.all_transitions()[i], true)[k]).0 + self.place_labels().len() <= usize::MAX,
        ensures
            r.place_labels() == self.place_labels() + other.place_labels(),
            r.all_transitions().len() == self.all_transitions().len() + other.all_transitions().len(),
            forall|i: int| 0 <= i < self.all_transitions().len() ==> {
                &&& (#[trigger] r.all_transitions()[i]).inputs() == self.all_transitions()[i].inputs()
                &&& r.all_transitions()[i].outputs() == self.all_transitions()[i].outputs()
            },
            forall|i: int| 0 <= i < other.all_transitions().len() ==> {
                &&& (#[trigger] r.all_transitions()[self.all_transitions().len() + i]).inputs() == shifted_arcs(
                    other.all_transitions()[i].inputs(),
                    self.place_labels().len(),
                )
                &&& r.all_transitions()[self.all_transitions().len() + i].outputs() == shifted_arcs(
                    other.all_transitions()[i].outputs(),
                    self.place_labels().len(),
                )
            },
    {
        let offset = self.places.len();
        let mut places = crate::utils::copy_vec(self.places.as_slice());
        let mut i: usize = 0;
        while i < other.places.len()
            invariant
                i <= other.place_labels().len(),
                places@ == self.place_labels() + other.place_labels().subrange(0, i as int),
            decreases other.place_labels().len() - i,
        {
            places.push(other.places[i]);
            i = i + 1;
            assert(places@ =~= self.place_labels() + other.place_labels().subrange(0, i as int));
        }
        assert(other.place_labels().subrange(0, i as int) =~= other.place_labels());
        let mut transitions: Vec<Transition> = Vec::new();
        let mut j: usize = 0;
        while j < self.transitions.len()
            invariant
                j <= self.all_transitions().len(),
                transitions@.len() == j,
                forall|a: int| 0 <= a < j ==> {
                    &&& (#[trigger] transitions@[a]).inputs() == self.all_transitions()[a].inputs()
                    &&& transitions@[a].outputs() == self.all_transitions()[a].outputs()
                },
            decreases self.all_transitions().len() - j,
        {
            transitions.push(self.transitions[j].clone());
            j = j + 1;
        }
        let mut k: usize = 0;
        while k < other.transitions.len()
            invariant
                k <= other.all_transitions().len(),
                offset == self.place_labels().len(),
                transitions@.len() == self.all_transitions().len() + k,
                forall|a: int| 0 <= a < self.all_transitions().len() ==> {
                    &&& (#[trigger] transitions@[a]).inputs() == self.all_transitions()[a].inputs()
                    &&& transitions@[a].outputs() == self.all_transitions()[a].outputs()
                },
                forall|a: int| 0 <= a < k ==> {
                    &&& (#[trigger] transitions@[self.all_transitions().len() + a]).inputs() == shifted_arcs(
                        other.all_transitions()[a].inputs(),
                        offset as nat,
                    )
                    &&& transitions@[self.all_transitions().len() + a].outputs() == shifted_arcs(
                        other.all_transitions()[a].outputs(),
                        offset as nat,
                    )
                },
                forall|i: int, m: int|
                    0 <= i < other.all_transitions().len() && 0 <= m < arcs_of(other.all_transitions()[i], false).len()
                        ==> (#[trigger] arcs_of(other.all_transitions()[i], false)[m]).0 + offset <= usize::MAX,
                forall|i: int, m: int|
                    0 <= i < other.all_transitions().len() && 0 <= m < arcs_of(other.all_transitions()[i], true).len()
                        ==> (#[trigger] arcs_of(other.all_transitions()[i], true)[m]).0 + offset <= usize::MAX,
            decreases other.all_transitions().len() - k,
        {
            let t = &other.transitions[k];
            assert(arcs_of(*t, false) == t.inputs());
            assert(arcs_of(*t, true) == t.outputs());
            let pre = shift_arcs(t.pre.as_slice(), offset);
            let post = shift_arcs(t.post.as_slice(), offset);
            transitions.push(Transition { pre, post });
            k = k + 1;
        }
        Self { places, transitions }
    }

    /// The number of leg elements sent to each place, as arcs by increasing
    /// place.
    fn multiplicities(leg: &[usize], n: usize) -> (r: Vec<(usize, Weight)>)
        requires
            forall|k: int| 0 <= k < leg@.len() ==> leg@[k] < n,
        ensures
            multiplicity_arcs(r@, leg@, n as nat),
    {
        let mut counts: Vec<usize> = Vec::new();
        let mut p: usize = 0;
        while p < n
            invariant
                p <= n,
                counts@.len() == p,
                forall|q: int| 0 <= q < p ==> counts@[q] == 0,
            decreases n - p,
        {
            counts.push(0);
            p = p + 1;
        }
        let mut i: usize = 0;
        while i < leg.len()
            invariant
                i <= leg@.len(),
                counts@.len() == n,
                forall|k: int| 0 <= k < leg@.len() ==> leg@[k] < n,
                forall|q: int| 0 <= q < n ==> #[trigger] counts@[q] == occurrences(leg@.subrange(0, i as int), q as usize),
                forall|q: int| 0 <= q < n ==> #[trigger] counts@[q] <= i,
            decreases leg@.len() - i,
        {
            let idx = leg[i];
            assert(leg@.subrange(0, i + 1).drop_last() =~= leg@.subrange(0, i as int));
            let c = counts[idx];
            counts.set(idx, c + 1);
            i = i + 1;
        }
        assert(leg@.subrange(0, i as int) =~= leg@);
        let mut r: Vec<(usize, Weight)> = Vec::new();
        let mut q: usize = 0;
        while q < n
            invariant
                q <= n,
                counts@.len() == n,
                forall|x: int| 0 <= x < n ==> #[trigger] counts@[x] == occurrences(leg@, x as usize),
                forall|a: int, b: int| 0 <= a < b < r@.len() ==> r@[a].0 < r@[b].0,
                forall|k: int|
                    0 <= k < r@.len() ==> {
                        &&& (#[trigger] r@[k]).0 < q
                        &&& r@[k].1.m() == occurrences(leg@, r@[k].0)
                        &&& r@[k].1.s() == 0
                        &&& occurrences(leg@, r@[k].0) > 0
                    },
                forall|x: usize| x < q && #[trigger] occurrences(leg@, x) > 0 ==> exists|k: int|
                    0 <= k < r@.len() && r@[k].0 == x,
            decreases n - q,
        {
            let c = counts[q];
            if c > 0 {
                let ghost r0 = r@;
                r.push((q, Weight::from_count(c as u64)));
                proof {
                    assert forall|x: usize| x < q + 1 && #[trigger] occurrences(leg@, x) > 0 implies exists|k: int|
                        0 <= k < r@.len() && r@[k].0 == x by {
                        if x < q {
                            let k = choose|k: int| 0 <= k < r0.len() && r0[k].0 == x;
                            assert(r@[k].0 == x);
                        } else {
                            assert(r@[r@.len() - 1].0 == x);
                        }
                    }
                }
            } else {
                proof {
                    assert forall|x: usize| x < q + 1 && #[trigger] occurrences(leg@, x) > 0 implies exists|k: int|
                        0 <= k < r@.len() && r@[k].0 == x by {
                        if x == q {
                            assert(counts@[q as int] == occurrences(leg@, q));
                        }
                    }
                }
            }
            q = q + 1;
        }
        proof {
            assert forall|x: usize| x < n && #[trigger] occurrences(leg@, x) > 0 implies exists|k: int|
                0 <= k < r@.len() && r@[k].0 == x by {}
        }
        r
    }

    /// The net with the apex of `cospan` as its places and one transition,
    /// whose input (output) arc at a place weighs the number of domain
    /// (codomain) elements the cospan sends there, places listed in
    /// increasing order.
    pub fn from_cospan(cospan: &Cospan<Lambda>) -> (r: Self)
        ensures
            r.place_labels() == cospan.apex(),
            r.all_transitions().len() == 1,
            multiplicity_arcs(r.all_transitions()[0].inputs(), cospan.left_map(), cospan.apex().len()),
            multiplicity_arcs(r.all_transitions()[0].outputs(), cospan.right_map(), cospan.apex().len()),
    {
        let middle = cospan.middle();
        let places = crate::utils::copy_vec(middle);
        let left = cospan.left_to_middle();
        let right = cospan.right_to_middle();
        let pre = Self::multiplicities(left, middle.len());
        let post = Self::multiplicities(right, middle.len());
        let mut transitions: Vec<Transition> = Vec::new();
        transitions.push(Transition { pre, post });
        Self { places, transitions }
    }

    /// The places of the arcs, each repeated as many times as its weight's
    /// whole part.
    fn expand_arcs(arcs: &[(usize, Weight)]) -> (r: Vec<usize>)
        requires
            forall|k: int| 0 <= k < arcs@.len() ==> #[trigger] to_u64_spec(arcs@[k].1) is Some,
        ensures
            r@ == expanded(arcs@),
    {
        let mut r: Vec<usize> = Vec::new();
        let mut k: usize = 0;
        while k < arcs.len()
            invariant
                k <= arcs@.len(),
                forall|j: int| 0 <= j < arcs@.len() ==> #[trigger] to_u64_spec(arcs@[j].1) is Some,
                r@ == expanded(arcs@.subrange(0, k as int)),
            decreases arcs@.len() - k,
        {
            let (p, w) = arcs[k];
            assert(to_u64_spec(arcs@[k as int].1) is Some);
            let count = match weight_to_u64(&w) {
                Some(c) => c,
                None => 0,
            };
            let ghost r0 = r@;
            let mut c: u64 = 0;
            while c < count
                invariant
                    c <= count,
                    r@ == r0 + Seq::new(c as nat, |i: int| p),
                decreases count - c,
            {
                r.push(p);
                c = c + 1;
                assert(r@ =~= r0 + Seq::new(c as nat, |i: int| p));
            }
            assert(arcs@.subrange(0, k + 1).drop_last() =~= arcs@.subrange(0, k as int));
            k = k + 1;
        }
        assert(arcs@.subrange(0, k as int) =~= arcs@);
        r
    }

    /// The cospan of a transition: its input arcs give the domain and its
    /// output arcs the codomain, each place repeated as often as the whole
    /// part of its weight, into the places of the net.
    pub fn transition_as_cospan(&self, transition: usize) -> (r: Cospan<Lambda>)
        requires
            transition < self.all_transitions().len(),
            forall|k: int|
                0 <= k < self.all_transitions()[transition as int].inputs().len() ==> {
                    &&& (#[trigger] self.all_transitions()[transition as int].inputs()[k]).0 < self.place_labels().len()
                    &&& to_u64_spec(self.all_transitions()[transition as int].inputs()[k].1) is Some
                },
            forall|k: int|
                0 <= k < self.all_transitions()[transition as int].outputs().len() ==> {
                    &&& (#[trigger] self.all_transitions()[transition as int].outputs()[k]).0 < self.place_labels().len()
                    &&& to_u64_spec(self.all_transitions()[transition as int].outputs()[k].1) is Some
                },
        ensures
            r.left_map() == expanded(self.all_transitions()[transition as int].inputs()),
            r.right_map() == expanded(self.all_transitions()[transition as int].outputs()),
            r.apex() == self.place_labels(),
    {
        let t = &self.transitions[transition];
        proof {
            assert forall|k: int| 0 <= k < t.inputs().len() implies #[trigger] to_u64_spec(t.inputs()[k].1) is Some by {
                assert(self.all_transitions()[transition as int].inputs()[k] == t.inputs()[k]);
            }
            assert forall|k: int| 0 <= k < t.outputs().len() implies #[trigger] to_u64_spec(t.outputs()[k].1) is Some by {
                assert(self.all_transitions()[transition as int].outputs()[k] == t.outputs()[k]);
            }
        }
        let left = Self::expand_arcs(t.pre.as_slice());
        let right = Self::expand_arcs(t.post.as_slice());
        proof {
            lemma_expanded_bounds(t.inputs(), self.place_labels().len());
            lemma_expanded_bounds(t.outputs(), self.place_labels().len());
        }
        Cospan::new(left, right, crate::utils::copy_vec(self.places.as_slice()))
    }

    /// Sequential composition: each source place of `other`, in increasing
    /// order, is merged with the first sink place of `self` that carries
    /// the same label and is not merged yet; the other places of `other`
    /// follow those of `self`, and the transitions of `other`, their arcs
    /// sent to the merged places, follow those of `self`.
    pub fn sequential(&self, other: &Self) -> (r: Result<Self, CatgraphError>)
        requires
            forall|i: int, k: int|
                0 <= i < other.all_transitions().len() && 0 <= k < arcs_of(other.all_transitions()[i], false).len()
                    ==> (#[trigger] arcs_of(other.all_transitions()[i], false)[k]).0 < other.place_labels().len(),
            forall|i: int, k: int|
                0 <= i < other.all_transitions().len() && 0 <= k < arcs_of(other.all_transitions()[i], true).len()
                    ==> (#[trigger] arcs_of(other.all_transitions()[i], true)[k]).0 < other.place_labels().len(),
        ensures
            r matches Ok(net) && {
                let sources = untouched_upto(other.all_transitions(), true, other.place_labels().len());
                let sinks = untouched_upto(self.all_transitions(), false, self.place_labels().len());
                let m = greedy_merge(sources, sinks, self.place_labels(), other.place_labels(), sources.len());
                &&& net.place_labels() == self.place_labels() + unmatched_labels(
                    m,
                    other.place_labels(),
                    other.place_labels().len(),
                )
                &&& net.all_transitions().len() == self.all_transitions().len() + other.all_transitions().len()
                &&& forall|i: int| 0 <= i < self.all_transitions().len() ==> {
                    &&& (#[trigger] net.all_transitions()[i]).inputs() == self.all_transitions()[i].inputs()
                    &&& net.all_transitions()[i].outputs() == self.all_transitions()[i].outputs()
                }
                &&& forall|i: int| 0 <= i < other.all_transitions().len() ==> {
                    &&& (#[trigger] net.all_transitions()[self.all_transitions().len() + i]).inputs() == merged_arcs(
                        other.all_transitions()[i].inputs(),
                        m,
                        self.place_labels().len(),
                    )
                    &&& net.all_transitions()[self.all_transitions().len() + i].outputs() == merged_arcs(
                        other.all_transitions()[i].outputs(),
                        m,
                        self.place_labels().len(),
                    )
                }
            },
    {
        let self_sinks = self.sink_places();
        let other_sources = other.source_places();
        let ghost sinks = self_sinks@;
        let ghost sources = other_sources@;
        let ghost lp = self.place_labels();
        let ghost lo = other.place_labels();
        assert forall|i: int| 0 <= i < sinks.len() implies #[trigger] sinks[i] < lp.len() by {
            assert(self_sinks@.contains(sinks[i]));
        }
        assert forall|i: int| 0 <= i < sources.len() implies #[trigger] sources[i] < lo.len() by {
            assert(other_sources@.contains(sources[i]));
        }
        let mut merged: Vec<Option<usize>> = Vec::new();
        let mut x: usize = 0;
        while x < other.places.len()
            invariant
                x <= lo.len(),
                lo == other.place_labels(),
                merged@.len() == x,
                forall|y: int| 0 <= y < x ==> merged@[y] is None,
            decreases lo.len() - x,
        {
            merged.push(None);
            x = x + 1;
        }
        let mut used: Vec<bool> = Vec::new();
        let mut y: usize = 0;
        while y < self.places.len()
            invariant
                y <= lp.len(),
                lp == self.place_labels(),
                used@.len() == y,
                forall|z: int| 0 <= z < y ==> !used@[z],
            decreases lp.len() - y,
        {
            used.push(false);
            y = y + 1;
        }
        let mut a: usize = 0;
        assert(lo.len() == other.places.len() && lp.len() == self.places.len());
        while a < other_sources.len()
            invariant
                a <= sources.len(),
                lo.len() <= usize::MAX,
                lp.len() <= usize::MAX,
                sources == other_sources@,
                sinks == self_sinks@,
                lp == self.place_labels(),
                lo == other.place_labels(),
                forall|i: int| 0 <= i < sinks.len() ==> #[trigger] sinks[i] < lp.len(),
                forall|i: int| 0 <= i < sources.len() ==> #[trigger] sources[i] < lo.len(),
                forall|i: int, j: int| 0 <= i < j < sources.len() ==> sources[i] < sources[j],
                merged@.len() == lo.len(),
                used@.len() == lp.len(),
                forall|k: int|
                    0 <= k < lo.len() ==> #[trigger] merged@[k] == (if greedy_merge(sources, sinks, lp, lo, a as nat).contains_key(
                        k as usize,
                    ) {
                        Some(greedy_merge(sources, sinks, lp, lo, a as nat)[k as usize])
                    } else {
                        None
                    }),
                forall|k: int|
                    0 <= k < lp.len() ==> #[trigger] used@[k] == greedy_merge(sources, sinks, lp, lo, a as nat).values().contains(
                        k as usize,
                    ),
                forall|key: usize|
                    #[trigger] greedy_merge(sources, sinks, lp, lo, a as nat).contains_key(key) ==> exists|j: int|
                        0 <= j < a && sources[j] == key,
                forall|key: usize|
                    #[trigger] greedy_merge(sources, sinks, lp, lo, a as nat).contains_key(key) ==> greedy_merge(
                        sources,
                        sinks,
                        lp,
                        lo,
                        a as nat,
                    )[key] < lp.len(),
            decreases sources.len() - a,
        {
            let ghost m = greedy_merge(sources, sinks, lp, lo, a as nat);
            let os = other_sources[a];
            assert(!m.contains_key(os)) by {
                if m.contains_key(os) {
                    let j = choose|j: int| 0 <= j < a && sources[j] == os;
                }
            }
            let found = find_free_sink(self_sinks.as_slice(), &used, self.places.as_slice(), other.places[os], Ghost(m.values()));
            let ghost m1 = greedy_merge(sources, sinks, lp, lo, (a + 1) as nat);
            assert(m1 == match first_free_sink(sinks, m.values(), lp, lo[os as int], 0) {
                Some(ss) => m.insert(os, ss),
                None => m,
            });
            let ghost merged0 = merged@;
            let ghost used0 = used@;
            match found {
                Some(ss) => {
                    proof {
                        lemma_insert_values(m, os, ss);
                        lemma_first_free_in(sinks, m.values(), lp, lo[os as int], 0);
                        assert(m1 == m.insert(os, ss));
                    }
                    merged.set(os, Some(ss));
                    used.set(ss, true);
                    proof {
                        assert forall|k: int| 0 <= k < lo.len() implies #[trigger] merged@[k] == (if m1.contains_key(
                            k as usize,
                        ) {
                            Some(m1[k as usize])
                        } else {
                            None
                        }) by {
                            if k != os {
                                assert(merged@[k] == merged0[k]);
                                assert(m1.contains_key(k as usize) == m.contains_key(k as usize));
                                if m.contains_key(k as usize) {
                                    assert(m1[k as usize] == m[k as usize]);
                                }
                            } else {
                                assert(m1.contains_key(os) && m1[os] == ss);
                            }
                        }
                        assert forall|k: int| 0 <= k < lp.len() implies #[trigger] used@[k] == m1.values().contains(
                            k as usize,
                        ) by {
                            assert(m1.values() == m.values().insert(ss));
                            if k != ss {
                                assert(used@[k] == used0[k]);
                                assert(m1.values().contains(k as usize) == m.values().contains(k as usize));
                            } else {
                                assert(m1.values().contains(ss));
                            }
                        }
                    }
                },
                None => {
                    assert(m1 == m);
                },
            }
            proof {
                assert forall|key: usize| #[trigger] m1.contains_key(key) implies exists|j: int|
                    0 <= j < a + 1 && sources[j] == key by {
                    if key != os {
                        assert(m.contains_key(key));
                        let j = choose|j: int| 0 <= j < a && sources[j] == key;
                    } else {
                        assert(sources[a as int] == key);
                    }
                }
                assert forall|key: usize| #[trigger] m1.contains_key(key) implies m1[key] < lp.len() by {
                    if key != os {
                        assert(m.contains_key(key));
                    }
                }
            }
            a = a + 1;
            assert(m1 == greedy_merge(sources, sinks, lp, lo, a as nat));
        }
        assert(a == sources.len());
        let ghost mm = greedy_merge(sources, sinks, lp, lo, sources.len());
        let mut places = crate::utils::copy_vec(self.places.as_slice());
        let mut index: Vec<usize> = Vec::new();
        let mut i: usize = 0;
        while i < other.places.len()
            invariant
                i <= lo.len(),
                lp == self.place_labels(),
                lo == other.place_labels(),
                merged@.len() == lo.len(),
                forall|k: int|
                    0 <= k < lo.len() ==> #[trigger] merged@[k] == (if mm.contains_key(k as usize) {
                        Some(mm[k as usize])
                    } else {
                        None
                    }),
                places@ == lp + unmatched_labels(mm, lo, i as nat),
                places@.len() == lp.len() + fresh_count(mm, i as nat),
                index@.len() == i,
                forall|k: int| 0 <= k < i ==> #[trigger] index@[k] == merged_index(mm, lp.len(), k as usize),
            decreases lo.len() - i,
        {
            match merged[i] {
                Some(ss) => {
                    index.push(ss);
                },
                None => {
                    index.push(places.len());
                    places.push(other.places[i]);
                },
            }
            i = i + 1;
            proof {
                lemma_unmatched_len(mm, lo, i as nat);
            }
        }
        let mut transitions: Vec<Transition> = Vec::new();
        let mut j: usize = 0;
        while j < self.transitions.len()
            invariant
                j <= self.all_transitions().len(),
                transitions@.len() == j,
                forall|b: int| 0 <= b < j ==> {
                    &&& (#[trigger] transitions@[b]).inputs() == self.all_transitions()[b].inputs()
                    &&& transitions@[b].outputs() == self.all_transitions()[b].outputs()
                },
            decreases self.all_transitions().len() - j,
        {
            transitions.push(self.transitions[j].clone());
            j = j + 1;
        }
        let mut k: usize = 0;
        while k < other.transitions.len()
            invariant
                k <= other.all_transitions().len(),
                lp == self.place_labels(),
                lo == other.place_labels(),
                index@.len() == lo.len(),
                forall|b: int| 0 <= b < lo.len() ==> #[trigger] index@[b] == merged_index(mm, lp.len(), b as usize),
                transitions@.len() == self.all_transitions().len() + k,
                forall|b: int| 0 <= b < self.all_transitions().len() ==> {
                    &&& (#[trigger] transitions@[b]).inputs() == self.all_transitions()[b].inputs()
                    &&& transitions@[b].outputs() == self.all_transitions()[b].outputs()
                },
                forall|b: int| 0 <= b < k ==> {
                    &&& (#[trigger] transitions@[self.all_transitions().len() + b]).inputs() == merged_arcs(
                        other.all_transitions()[b].inputs(),
                        mm,
                        lp.len(),
                    )
                    &&& transitions@[self.all_transitions().len() + b].outputs() == merged_arcs(
                        other.all_transitions()[b].outputs(),
                        mm,
                        lp.len(),
                    )
                },
                forall|b: int, c: int|
                    0 <= b < other.all_transitions().len() && 0 <= c < arcs_of(other.all_transitions()[b], false).len()
                        ==> (#[trigger] arcs_of(other.all_transitions()[b], false)[c]).0 < lo.len(),
                forall|b: int, c: int|
                    0 <= b < other.all_transitions().len() && 0 <= c < arcs_of(other.all_transitions()[b], true).len()
                        ==> (#[trigger] arcs_of(other.all_transitions()[b], true)[c]).0 < lo.len(),
            decreases other.all_transitions().len() - k,
        {
            let t = &other.transitions[k];
            assert forall|c: int| 0 <= c < t.pre@.len() implies #[trigger] t.pre@[c].0 < index@.len() by {
                assert(arcs_of(other.all_transitions()[k as int], false)[c] == t.inputs()[c]);
            }
            assert forall|c: int| 0 <= c < t.post@.len() implies #[trigger] t.post@[c].0 < index@.len() by {
                assert(arcs_of(other.all_transitions()[k as int], true)[c] == t.outputs()[c]);
            }
            let pre = remap_arcs(t.pre.as_slice(), index.as_slice());
            let post = remap_arcs(t.post.as_slice(), index.as_slice());
            assert(pre@ =~= merged_arcs(t.inputs(), mm, lp.len()));
            assert(post@ =~= merged_arcs(t.outputs(), mm, lp.len()));
            transitions.push(Transition { pre, post });
            k = k + 1;
        }
        Ok(Self { places, transitions })
    }

    /// Fires every enabled transition of `current` in turn; a result whose
    /// counts are not yet among `visited` is appended to both `visited` and
    /// `next`. A firing that overflows is skipped.
    fn explore(&self, current: &Marking, visited: &mut Vec<Marking>, next: &mut Vec<Marking>)
        requires
            forall|i: int, j: int|
                0 <= i < j < old(visited)@.len() ==> !same_counts(old(visited)@[i].counts(), old(visited)@[j].counts()),
        ensures
            final(visited)@.len() >= old(visited)@.len(),
            final(visited)@.len() - old(visited)@.len() == final(next)@.len() - old(next)@.len(),
            forall|i: int| 0 <= i < old(visited)@.len() ==> final(visited)@[i] == old(visited)@[i],
            forall|k: int| 0 <= k < old(next)@.len() ==> final(next)@[k] == old(next)@[k],
            forall|k: int|
                0 <= k < final(next)@.len() - old(next)@.len() ==> {
                    &&& #[trigger] final(next)@[old(next)@.len() + k].counts() == final(visited)@[old(visited)@.len()
                        + k].counts()
                    &&& fires_to(self.all_transitions(), current.counts(), final(next)@[old(next)@.len() + k].counts())
                },
            forall|i: int, j: int|
                0 <= i < j < final(visited)@.len() ==> !same_counts(final(visited)@[i].counts(), final(visited)@[j].counts()),
            explored(self.all_transitions(), current.counts(), counts_of(final(visited)@)),
    {
        let ghost ts = self.all_transitions();
        let ghost cur = current.counts();
        let ghost v_start = visited@;
        let _n_transitions = self.transitions.len();
        assert(ts.len() <= usize::MAX);
        let ghost n_start = next@;
        let en = self.enabled(current);
        let mut e: usize = 0;
        while e < en.len()
            invariant
                ts == self.all_transitions(),
                ts.len() <= usize::MAX,
                cur == current.counts(),
                e <= en@.len(),
                forall|k: int| 0 <= k < en@.len() ==> #[trigger] en@[k] < ts.len() && is_enabled(ts[en@[k] as int], cur),
                forall|t: int| 0 <= t < ts.len() && is_enabled(#[trigger] ts[t], cur) ==> en@.contains(t as usize),
                visited@.len() >= v_start.len(),
                visited@.len() - v_start.len() == next@.len() - n_start.len(),
                forall|i: int| 0 <= i < v_start.len() ==> visited@[i] == v_start[i],
                forall|k: int| 0 <= k < n_start.len() ==> next@[k] == n_start[k],
                forall|k: int|
                    0 <= k < next@.len() - n_start.len() ==> {
                        &&& #[trigger] next@[n_start.len() + k].counts() == visited@[v_start.len() + k].counts()
                        &&& fires_to(ts, cur, next@[n_start.len() + k].counts())
                    },
                forall|i: int, j: int|
                    0 <= i < j < visited@.len() ==> !same_counts(visited@[i].counts(), visited@[j].counts()),
                forall|k: int|
                    0 <= k < e && #[trigger] fired(cur, ts[en@[k] as int]) is Some ==> exists|i: int|
                        0 <= i < visited@.len() && same_counts(
                            #[trigger] visited@[i].counts(),
                            fired(cur, ts[en@[k] as int])->0,
                        ),
            decreases en@.len() - e,
        {
            let t = en[e];
            let ghost vb = visited@;
            let ghost nb = next@;
            let fr = self.try_fire(t, current);
            proof {
                if fired(cur, ts[t as int]) is None {
                    assert(fr is Err);
                }
            }
            if let Ok(stepped) = fr {
                proof {
                    assert(fires_to(ts, cur, stepped.counts()));
                    assert(fired(cur, ts[t as int]) == Some(stepped.counts()));
                }
                if marking_in(&visited, &stepped) {
                    assert(exists|i: int| 0 <= i < visited@.len() && same_counts(
                        #[trigger] visited@[i].counts(),
                        fired(cur, ts[en@[e as int] as int])->0,
                    ));
                } else {
                    let copy = stepped.clone();
                    visited.push(copy);
                    next.push(stepped);
                    proof {
                        assert forall|i: int, j: int| 0 <= i < j < visited@.len() implies !same_counts(
                            visited@[i].counts(),
                            visited@[j].counts(),
                        ) by {
                            if j == visited@.len() - 1 {
                                assert(!same_counts(vb[i].counts(), stepped.counts()));
                            } else {
                                assert(visited@[i] == vb[i] && visited@[j] == vb[j]);
                            }
                        }
                        assert forall|k: int| 0 <= k < next@.len() - n_start.len() implies {
                            &&& #[trigger] next@[n_start.len() + k].counts() == visited@[v_start.len() + k].counts()
                            &&& fires_to(ts, cur, next@[n_start.len() + k].counts())
                        } by {
                            if k < nb.len() - n_start.len() {
                                assert(next@[n_start.len() + k] == nb[n_start.len() + k]);
                                assert(visited@[v_start.len() + k] == vb[v_start.len() + k]);
                            }
                        }
                        lemma_same_counts_equiv(stepped.counts(), stepped.counts(), stepped.counts());
                        assert(same_counts(visited@[visited@.len() - 1].counts(), stepped.counts()));
                        assert(exists|i: int| 0 <= i < visited@.len() && same_counts(
                            #[trigger] visited@[i].counts(),
                            fired(cur, ts[en@[e as int] as int])->0,
                        ));
                    }
                }
            }
            proof {
                assert forall|k: int|
                    0 <= k < e + 1 && #[trigger] fired(cur, ts[en@[k] as int]) is Some implies exists|i: int|
                        0 <= i < visited@.len() && same_counts(
                            #[trigger] visited@[i].counts(),
                            fired(cur, ts[en@[k] as int])->0,
                        ) by {
                    if k < e {
                        let i = choose|i: int|
                            0 <= i < vb.len() && same_counts(#[trigger] vb[i].counts(), fired(cur, ts[en@[k] as int])->0);
                        assert(visited@[i] == vb[i]);
                    }
                }
            }
            e = e + 1;
        }
        proof {
            assert forall|t: int|
                0 <= t < ts.len() && is_enabled(ts[t], cur) && #[trigger] fired(cur, ts[t]) is Some implies exists|i: int|
                    0 <= i < counts_of(visited@).len() && #[trigger] same_counts(counts_of(visited@)[i], fired(cur, ts[t])->0) by {
                assert(en@.contains(t as usize));
                let k = choose|k: int| 0 <= k < en@.len() && en@[k] == t as usize;
                assert(fired(cur, ts[en@[k] as int]) is Some);
                let i = choose|i: int|
                    0 <= i < visited@.len() && same_counts(#[trigger] visited@[i].counts(), fired(cur, ts[en@[k] as int])->0);
                assert(counts_of(visited@)[i] == visited@[i].counts());
            }
        }
    }

    /// As `explore`, but stops with `true` at the first result with the
    /// counts of `target`.
    fn explore_until(&self, current: &Marking, target: &Marking, visited: &mut Vec<Marking>, next: &mut Vec<Marking>) -> (found: bool)
        requires
            forall|i: int, j: int|
                0 <= i < j < old(visited)@.len() ==> !same_counts(old(visited)@[i].counts(), old(visited)@[j].counts()),
            forall|i: int| 0 <= i < old(visited)@.len() ==> !same_counts(#[trigger] old(visited)@[i].counts(), target.counts()),
        ensures
            found ==> exists|x: Map<usize, Weight>|
                fires_to(self.all_transitions(), current.counts(), x) && #[trigger] same_counts(x, target.counts()),
            !found ==> forall|i: int|
                0 <= i < final(visited)@.len() ==> !same_counts(#[trigger] final(visited)@[i].counts(), target.counts()),
            !found ==> final(visited)@.len() >= old(visited)@.len(),
            !found ==> final(visited)@.len() - old(visited)@.len() == final(next)@.len() - old(next)@.len(),
            !found ==> forall|i: int| 0 <= i < old(visited)@.len() ==> final(visited)@[i] == old(visited)@[i],
            !found ==> forall|k: int| 0 <= k < old(next)@.len() ==> final(next)@[k] == old(next)@[k],
            !found ==> forall|k: int|
                0 <= k < final(next)@.len() - old(next)@.len() ==> {
                    &&& #[trigger] final(next)@[old(next)@.len() + k].counts() == final(visited)@[old(visited)@.len()
                        + k].counts()
                    &&& fires_to(self.all_transitions(), current.counts(), final(next)@[old(next)@.len() + k].counts())
                },
            !found ==> forall|i: int, j: int|
                0 <= i < j < final(visited)@.len() ==> !same_counts(final(visited)@[i].counts(), final(visited)@[j].counts()),
            !found ==> explored(self.all_transitions(), current.counts(), counts_of(final(visited)@)),
    {
        let ghost ts = self.all_transitions();
        let ghost cur = current.counts();
        let ghost v_start = visited@;
        let _n_transitions = self.transitions.len();
        assert(ts.len() <= usize::MAX);
        let ghost n_start = next@;
        let en = self.enabled(current);
        let mut e: usize = 0;
        while e < en.len()
            invariant
                ts == self.all_transitions(),
                ts.len() <= usize::MAX,
                cur == current.counts(),
                e <= en@.len(),
                forall|k: int| 0 <= k < en@.len() ==> #[trigger] en@[k] < ts.len() && is_enabled(ts[en@[k] as int], cur),
                forall|t: int| 0 <= t < ts.len() && is_enabled(#[trigger] ts[t], cur) ==> en@.contains(t as usize),
                visited@.len() >= v_start.len(),
                visited@.len() - v_start.len() == next@.len() - n_start.len(),
                forall|i: int| 0 <= i < v_start.len() ==> visited@[i] == v_start[i],
                forall|k: int| 0 <= k < n_start.len() ==> next@[k] == n_start[k],
                forall|k: int|
                    0 <= k < next@.len() - n_start.len() ==> {
                        &&& #[trigger] next@[n_start.len() + k].counts() == visited@[v_start.len() + k].counts()
                        &&& fires_to(ts, cur, next@[n_start.len() + k].counts())
                    },
                forall|i: int, j: int|
                    0 <= i < j < visited@.len() ==> !same_counts(visited@[i].counts(), visited@[j].counts()),
                forall|i: int| 0 <= i < visited@.len() ==> !same_counts(#[trigger] visited@[i].counts(), target.counts()),
                forall|k: int|
                    0 <= k < e && #[trigger] fired(cur, ts[en@[k] as int]) is Some ==> exists|i: int|
                        0 <= i < visited@.len() && same_counts(
                            #[trigger] visited@[i].counts(),
                            fired(cur, ts[en@[k] as int])->0,
                        ),
            decreases en@.len() - e,
        {
            let t = en[e];
            let ghost vb = visited@;
            let ghost nb = next@;
            let fr = self.try_fire(t, current);
            proof {
                if fired(cur, ts[t as int]) is None {
                    assert(fr is Err);
                }
            }
            if let Ok(stepped) = fr {
                proof {
                    assert(fires_to(ts, cur, stepped.counts()));
                    assert(fired(cur, ts[t as int]) == Some(stepped.counts()));
                }
                if stepped.eq(target) {
                    return true;
                }
                if marking_in(&visited, &stepped) {
                    assert(exists|i: int| 0 <= i < visited@.len() && same_counts(
                        #[trigger] visited@[i].counts(),
                        fired(cur, ts[en@[e as int] as int])->0,
                    ));
                } else {
                    let copy = stepped.clone();
                    visited.push(copy);
                    next.push(stepped);
                    proof {
                        assert forall|i: int, j: int| 0 <= i < j < visited@.len() implies !same_counts(
                            visited@[i].counts(),
                            visited@[j].counts(),
                        ) by {
                            if j == visited@.len() - 1 {
                                assert(!same_counts(vb[i].counts(), stepped.counts()));
                            } else {
                                assert(visited@[i] == vb[i] && visited@[j] == vb[j]);
                            }
                        }
                        assert forall|k: int| 0 <= k < next@.len() - n_start.len() implies {
                            &&& #[trigger] next@[n_start.len() + k].counts() == visited@[v_start.len() + k].counts()
                            &&& fires_to(ts, cur, next@[n_start.len() + k].counts())
                        } by {
                            if k < nb.len() - n_start.len() {
                                assert(next@[n_start.len() + k] == nb[n_start.len() + k]);
                                assert(visited@[v_start.len() + k] == vb[v_start.len() + k]);
                            }
                        }
                        lemma_same_counts_equiv(stepped.counts(), stepped.counts(), stepped.counts());
                        assert(same_counts(visited@[visited@.len() - 1].counts(), stepped.counts()));
                        assert(exists|i: int| 0 <= i < visited@.len() && same_counts(
                            #[trigger] visited@[i].counts(),
                            fired(cur, ts[en@[e as int] as int])->0,
                        ));
                    }
                }
            }
            proof {
                assert forall|k: int|
                    0 <= k < e + 1 && #[trigger] fired(cur, ts[en@[k] as int]) is Some implies exists|i: int|
                        0 <= i < visited@.len() && same_counts(
                            #[trigger] visited@[i].counts(),
                            fired(cur, ts[en@[k] as int])->0,
                        ) by {
                    if k < e {
                        let i = choose|i: int|
                            0 <= i < vb.len() && same_counts(#[trigger] vb[i].counts(), fired(cur, ts[en@[k] as int])->0);
                        assert(visited@[i] == vb[i]);
                    }
                }
            }
            e = e + 1;
        }
        proof {
            assert forall|t: int|
                0 <= t < ts.len() && is_enabled(ts[t], cur) && #[trigger] fired(cur, ts[t]) is Some implies exists|i: int|
                    0 <= i < counts_of(visited@).len() && #[trigger] same_counts(counts_of(visited@)[i], fired(cur, ts[t])->0) by {
                assert(en@.contains(t as usize));
                let k = choose|k: int| 0 <= k < en@.len() && en@[k] == t as usize;
                assert(fired(cur, ts[en@[k] as int]) is Some);
                let i = choose|i: int|
                    0 <= i < visited@.len() && same_counts(#[trigger] visited@[i].counts(), fired(cur, ts[en@[k] as int])->0);
                assert(counts_of(visited@)[i] == visited@[i].counts());
            }
        }
        false
    }


    /// The markings reached from `initial` by at most `max_depth` firings,
    /// breadth first, each once: `initial` comes first, every marking is so
    /// reached, and no two have the same counts. A firing that overflows a
    /// count is not taken. When firing respects equal numbers of tokens
    /// (`firing_respects_counts`), every counts reached within `max_depth`
    /// firings has the numbers of one of the markings returned.
    pub fn reachable(&self, initial: &Marking, max_depth: usize) -> (r: Vec<Marking>)
        ensures
            r@.len() >= 1,
            r@[0].counts() == initial.counts(),
            forall|i: int|
                0 <= i < r@.len() ==> reachable_within(
                    self.all_transitions(),
                    initial.counts(),
                    max_depth as nat,
                    #[trigger] r@[i].counts(),
                ),
            forall|i: int, j: int| 0 <= i < j < r@.len() ==> !same_counts(r@[i].counts(), r@[j].counts()),
            firing_respects_counts(self.all_transitions()) ==> covers(
                self.all_transitions(),
                initial.counts(),
                max_depth as nat,
                counts_of(r@),
            ),
    {
        let ghost ts = self.all_transitions();
        let ghost m0 = initial.counts();
        let ghost h = firing_respects_counts(ts);
        let mut visited: Vec<Marking> = Vec::new();
        visited.push(initial.clone());
        proof {
            lemma_within_start(ts, m0, 0);
            assert forall|m: Map<usize, Weight>| #[trigger] reachable_within(ts, m0, 0, m) implies exists|i: int|
                0 <= i < counts_of(visited@).len() && #[trigger] same_counts(counts_of(visited@)[i], m) by {
                lemma_within_zero(ts, m0, m);
                lemma_same_counts_equiv(m0, m0, m0);
                assert(counts_of(visited@)[0] == m0);
            }
        }
        let mut frontier: Vec<Marking> = Vec::new();
        frontier.push(initial.clone());
        assert(frontier@[0].counts() == visited@[0].counts());
        let mut depth: usize = 0;
        while depth < max_depth
            invariant
                ts == self.all_transitions(),
                m0 == initial.counts(),
                h == firing_respects_counts(ts),
                depth <= max_depth,
                visited@.len() >= 1,
                visited@[0].counts() == m0,
                forall|i: int|
                    0 <= i < visited@.len() ==> reachable_within(ts, m0, depth as nat, #[trigger] visited@[i].counts()),
                forall|i: int|
                    0 <= i < frontier@.len() ==> reachable_within(ts, m0, depth as nat, #[trigger] frontier@[i].counts()),
                forall|i: int, j: int| 0 <= i < j < visited@.len() ==> !same_counts(visited@[i].counts(), visited@[j].counts()),
                h ==> covers(ts, m0, depth as nat, counts_of(visited@)),
                forall|i: int|
                    0 <= i < visited@.len() ==> explored(ts, #[trigger] visited@[i].counts(), counts_of(visited@))
                        || exists|j: int| 0 <= j < frontier@.len() && #[trigger] frontier@[j].counts() == visited@[i].counts(),
            ensures
                depth == max_depth || frontier@.len() == 0,
            decreases max_depth - depth,
        {
            if frontier.len() == 0 {
                break;
            }
            let mut next: Vec<Marking> = Vec::new();
            let ghost start = visited@.len() as int;
            let ghost vis0 = visited@;
            proof {
                assert forall|i: int| 0 <= i < visited@.len() implies reachable_within(
                    ts,
                    m0,
                    (depth + 1) as nat,
                    #[trigger] visited@[i].counts(),
                ) by {
                    lemma_within_mono(ts, m0, depth as nat, (depth + 1) as nat, visited@[i].counts());
                }
            }
            let mut f: usize = 0;
            while f < frontier.len()
                invariant
                    ts == self.all_transitions(),
                    m0 == initial.counts(),
                    depth < max_depth,
                    f <= frontier@.len(),
                    visited@.len() >= 1,
                    visited@[0].counts() == m0,
                    forall|i: int|
                        0 <= i < visited@.len() ==> reachable_within(ts, m0, (depth + 1) as nat, #[trigger] visited@[i].counts()),
                    forall|i: int|
                        0 <= i < frontier@.len() ==> reachable_within(ts, m0, depth as nat, #[trigger] frontier@[i].counts()),
                    forall|i: int|
                        0 <= i < next@.len() ==> reachable_within(ts, m0, (depth + 1) as nat, #[trigger] next@[i].counts()),
                    forall|i: int, j: int|
                        0 <= i < j < visited@.len() ==> !same_counts(visited@[i].counts(), visited@[j].counts()),
                    start == vis0.len(),
                    start <= visited@.len(),
                    forall|i: int| 0 <= i < start ==> visited@[i] == vis0[i],
                    forall|i: int|
                        0 <= i < start ==> explored(ts, #[trigger] vis0[i].counts(), counts_of(visited@))
                            || exists|j: int| f <= j < frontier@.len() && #[trigger] frontier@[j].counts() == vis0[i].counts(),
                    next@.len() == visited@.len() - start,
                    forall|k: int| 0 <= k < next@.len() ==> #[trigger] next@[k].counts() == visited@[start + k].counts(),
                decreases frontier@.len() - f,
            {
                let ghost vb = visited@;
                let ghost nb = next@;
                let ghost cur = frontier@[f as int].counts();
                self.explore(&frontier[f], &mut visited, &mut next);
                proof {
                    assert forall|i: int| 0 <= i < visited@.len() implies reachable_within(
                        ts,
                        m0,
                        (depth + 1) as nat,
                        #[trigger] visited@[i].counts(),
                    ) by {
                        if i >= vb.len() {
                            let k = i - vb.len();
                            assert(next@[nb.len() + k].counts() == visited@[vb.len() + k].counts());
                            lemma_within_step(ts, m0, depth as nat, cur, visited@[i].counts());
                        } else {
                            assert(visited@[i] == vb[i]);
                        }
                    }
                    assert forall|i: int| 0 <= i < next@.len() implies reachable_within(
                        ts,
                        m0,
                        (depth + 1) as nat,
                        #[trigger] next@[i].counts(),
                    ) by {
                        if i >= nb.len() {
                            let k = i - nb.len();
                            assert(next@[nb.len() + k].counts() == visited@[vb.len() + k].counts());
                            lemma_within_step(ts, m0, depth as nat, cur, next@[i].counts());
                        } else {
                            assert(next@[i] == nb[i]);
                        }
                    }
                    assert forall|k: int| 0 <= k < next@.len() implies #[trigger] next@[k].counts() == visited@[start
                        + k].counts() by {
                        if k >= nb.len() {
                            let kk = k - nb.len();
                            assert(next@[nb.len() + kk].counts() == visited@[vb.len() + kk].counts());
                        } else {
                            assert(next@[k] == nb[k]);
                            assert(visited@[start + k] == vb[start + k]);
                        }
                    }
                    assert forall|i: int|
                        0 <= i < start implies explored(ts, #[trigger] vis0[i].counts(), counts_of(visited@))
                            || exists|j: int| f + 1 <= j < frontier@.len() && #[trigger] frontier@[j].counts() == vis0[i].counts() by {
                        if explored(ts, vis0[i].counts(), counts_of(vb)) {
                            lemma_explored_grows(ts, vis0[i].counts(), counts_of(vb), counts_of(visited@));
                        } else {
                            let j = choose|j: int| f <= j < frontier@.len() && #[trigger] frontier@[j].counts() == vis0[i].counts();
                            if j == f {
                                assert(vis0[i].counts() == cur);
                            }
                        }
                    }
                    assert forall|i: int| 0 <= i < start implies visited@[i] == vis0[i] by {
                        assert(visited@[i] == vb[i]);
                    }
                }
                f = f + 1;
            }
            proof {
                let seen = counts_of(visited@);
                let old = counts_of(vis0);
                assert forall|i: int| 0 <= i < old.len() implies explored(ts, #[trigger] old[i], seen) by {
                    assert(old[i] == vis0[i].counts());
                }
                assert forall|i: int| 0 <= i < old.len() implies seen[i] == old[i] by {
                    assert(visited@[i] == vis0[i]);
                }
                if h {
                    lemma_cover_step(ts, m0, depth as nat, old, seen);
                }
                assert forall|i: int|
                    0 <= i < visited@.len() implies explored(ts, #[trigger] visited@[i].counts(), counts_of(visited@))
                        || exists|j: int| 0 <= j < next@.len() && #[trigger] next@[j].counts() == visited@[i].counts() by {
                    if i >= start {
                        assert(next@[i - start].counts() == visited@[start + (i - start)].counts());
                    } else {
                        assert(visited@[i] == vis0[i]);
                        assert(old[i] == vis0[i].counts());
                    }
                }
            }
            frontier = next;
            depth = depth + 1;
        }
        proof {
            assert forall|i: int| 0 <= i < visited@.len() implies reachable_within(
                ts,
                m0,
                max_depth as nat,
                #[trigger] visited@[i].counts(),
            ) by {
                lemma_within_mono(ts, m0, depth as nat, max_depth as nat, visited@[i].counts());
            }
            if h && depth < max_depth {
                let seen = counts_of(visited@);
                assert forall|i: int| 0 <= i < seen.len() implies explored(ts, #[trigger] seen[i], seen) by {
                    assert(seen[i] == visited@[i].counts());
                }
                lemma_cover_closed(ts, m0, max_depth as nat, seen);
            }
        }
        visited
    }

    /// Whether a marking with the counts of `target` is reached from
    /// `initial` by at most `max_depth` firings, searching breadth first
    /// and stopping at the first hit; `true` at once when `initial` has the
    /// counts of `target`. A firing that overflows a count is not taken.
    /// When firing respects equal numbers of tokens, `false` means that no
    /// counts with the numbers of `target` is reached within `max_depth`.
    pub fn can_reach(&self, initial: &Marking, target: &Marking, max_depth: usize) -> (r: bool)
        ensures
            same_counts(initial.counts(), target.counts()) ==> r,
            r ==> exists|m: Map<usize, Weight>|
                reachable_within(self.all_transitions(), initial.counts(), max_depth as nat, m) && #[trigger] same_counts(
                    m,
                    target.counts(),
                ),
            firing_respects_counts(self.all_transitions()) && (exists|m: Map<usize, Weight>|
                reachable_within(self.all_transitions(), initial.counts(), max_depth as nat, m) && #[trigger] same_counts(
                    m,
                    target.counts(),
                )) ==> r,
    {
        let ghost ts = self.all_transitions();
        let ghost m0 = initial.counts();
        let ghost h = firing_respects_counts(ts);
        if initial.eq(target) {
            proof {
                lemma_within_start(ts, m0, max_depth as nat);
            }
            return true;
        }
        let mut visited: Vec<Marking> = Vec::new();
        visited.push(initial.clone());
        proof {
            lemma_within_start(ts, m0, 0);
            assert forall|m: Map<usize, Weight>| #[trigger] reachable_within(ts, m0, 0, m) implies exists|i: int|
                0 <= i < counts_of(visited@).len() && #[trigger] same_counts(counts_of(visited@)[i], m) by {
                lemma_within_zero(ts, m0, m);
                lemma_same_counts_equiv(m0, m0, m0);
                assert(counts_of(visited@)[0] == m0);
            }
        }
        let mut frontier: Vec<Marking> = Vec::new();
        frontier.push(initial.clone());
        assert(frontier@[0].counts() == visited@[0].counts());
        let mut depth: usize = 0;
        while depth < max_depth
            invariant
                ts == self.all_transitions(),
                m0 == initial.counts(),
                h == firing_respects_counts(ts),
                depth <= max_depth,
                visited@.len() >= 1,
                visited@[0].counts() == m0,
                forall|i: int|
                    0 <= i < visited@.len() ==> reachable_within(ts, m0, depth as nat, #[trigger] visited@[i].counts()),
                forall|i: int|
                    0 <= i < frontier@.len() ==> reachable_within(ts, m0, depth as nat, #[trigger] frontier@[i].counts()),
                forall|i: int, j: int| 0 <= i < j < visited@.len() ==> !same_counts(visited@[i].counts(), visited@[j].counts()),
                forall|i: int| 0 <= i < visited@.len() ==> !same_counts(#[trigger] visited@[i].counts(), target.counts()),
                h ==> covers(ts, m0, depth as nat, counts_of(visited@)),
                forall|i: int|
                    0 <= i < visited@.len() ==> explored(ts, #[trigger] visited@[i].counts(), counts_of(visited@))
                        || exists|j: int| 0 <= j < frontier@.len() && #[trigger] frontier@[j].counts() == visited@[i].counts(),
            ensures
                depth == max_depth || frontier@.len() == 0,
            decreases max_depth - depth,
        {
            if frontier.len() == 0 {
                break;
            }
            let mut next: Vec<Marking> = Vec::new();
            let ghost start = visited@.len() as int;
            let ghost vis0 = visited@;
            proof {
                assert forall|i: int| 0 <= i < visited@.len() implies reachable_within(
                    ts,
                    m0,
                    (depth + 1) as nat,
                    #[trigger] visited@[i].counts(),
                ) by {
                    lemma_within_mono(ts, m0, depth as nat, (depth + 1) as nat, visited@[i].counts());
                }
            }
            let mut f: usize = 0;
            while f < frontier.len()
                invariant
                    ts == self.all_transitions(),
                    m0 == initial.counts(),
                    depth < max_depth,
                    f <= frontier@.len(),
                    visited@.len() >= 1,
                    visited@[0].counts() == m0,
                    forall|i: int|
                        0 <= i < visited@.len() ==> reachable_within(ts, m0, (depth + 1) as nat, #[trigger] visited@[i].counts()),
                    forall|i: int|
                        0 <= i < frontier@.len() ==> reachable_within(ts, m0, depth as nat, #[trigger] frontier@[i].counts()),
                    forall|i: int|
                        0 <= i < next@.len() ==> reachable_within(ts, m0, (depth + 1) as nat, #[trigger] next@[i].counts()),
                    forall|i: int, j: int|
                        0 <= i < j < visited@.len() ==> !same_counts(visited@[i].counts(), visited@[j].counts()),
                    forall|i: int| 0 <= i < visited@.len() ==> !same_counts(#[trigger] visited@[i].counts(), target.counts()),
                    start == vis0.len(),
                    start <= visited@.len(),
                    forall|i: int| 0 <= i < start ==> visited@[i] == vis0[i],
                    forall|i: int|
                        0 <= i < start ==> explored(ts, #[trigger] vis0[i].counts(), counts_of(visited@))
                            || exists|j: int| f <= j < frontier@.len() && #[trigger] frontier@[j].counts() == vis0[i].counts(),
                    next@.len() == visited@.len() - start,
                    forall|k: int| 0 <= k < next@.len() ==> #[trigger] next@[k].counts() == visited@[start + k].counts(),
                decreases frontier@.len() - f,
            {
                let ghost vb = visited@;
                let ghost nb = next@;
                let ghost cur = frontier@[f as int].counts();
                if self.explore_until(&frontier[f], target, &mut visited, &mut next) {
                    proof {
                        let x = choose|x: Map<usize, Weight>| fires_to(ts, cur, x) && #[trigger] same_counts(x, target.counts());
                        lemma_within_step(ts, m0, depth as nat, cur, x);
                        lemma_within_mono(ts, m0, (depth + 1) as nat, max_depth as nat, x);
                    }
                    return true;
                }
                proof {
                    assert forall|i: int| 0 <= i < visited@.len() implies reachable_within(
                        ts,
                        m0,
                        (depth + 1) as nat,
                        #[trigger] visited@[i].counts(),
                    ) by {
                        if i >= vb.len() {
                            let k = i - vb.len();
                            assert(next@[nb.len() + k].counts() == visited@[vb.len() + k].counts());
                            lemma_within_step(ts, m0, depth as nat, cur, visited@[i].counts());
                        } else {
                            assert(visited@[i] == vb[i]);
                        }
                    }
                    assert forall|i: int| 0 <= i < next@.len() implies reachable_within(
                        ts,
                        m0,
                        (depth + 1) as nat,
                        #[trigger] next@[i].counts(),
                    ) by {
                        if i >= nb.len() {
                            let k = i - nb.len();
                            assert(next@[nb.len() + k].counts() == visited@[vb.len() + k].counts());
                            lemma_within_step(ts, m0, depth as nat, cur, next@[i].counts());
                        } else {
                            assert(next@[i] == nb[i]);
                        }
                    }
                    assert forall|k: int| 0 <= k < next@.len() implies #[trigger] next@[k].counts() == visited@[start
                        + k].counts() by {
                        if k >= nb.len() {
                            let kk = k - nb.len();
                            assert(next@[nb.len() + kk].counts() == visited@[vb.len() + kk].counts());
                        } else {
                            assert(next@[k] == nb[k]);
                            assert(visited@[start + k] == vb[start + k]);
                        }
                    }
                    assert forall|i: int|
                        0 <= i < start implies explored(ts, #[trigger] vis0[i].counts(), counts_of(visited@))
                            || exists|j: int| f + 1 <= j < frontier@.len() && #[trigger] frontier@[j].counts() == vis0[i].counts() by {
                        if explored(ts, vis0[i].counts(), counts_of(vb)) {
                            lemma_explored_grows(ts, vis0[i].counts(), counts_of(vb), counts_of(visited@));
                        } else {
                            let j = choose|j: int| f <= j < frontier@.len() && #[trigger] frontier@[j].counts() == vis0[i].counts();
                            if j == f {
                                assert(vis0[i].counts() == cur);
                            }
                        }
                    }
                    assert forall|i: int| 0 <= i < start implies visited@[i] == vis0[i] by {
                        assert(visited@[i] == vb[i]);
                    }
                }
                f = f + 1;
            }
            proof {
                let seen = counts_of(visited@);
                let old = counts_of(vis0);
                assert forall|i: int| 0 <= i < old.len() implies explored(ts, #[trigger] old[i], seen) by {
                    assert(old[i] == vis0[i].counts());
                }
                assert forall|i: int| 0 <= i < old.len() implies seen[i] == old[i] by {
                    assert(visited@[i] == vis0[i]);
                }
                if h {
                    lemma_cover_step(ts, m0, depth as nat, old, seen);
                }
                assert forall|i: int|
                    0 <= i < visited@.len() implies explored(ts, #[trigger] visited@[i].counts(), counts_of(visited@))
                        || exists|j: int| 0 <= j < next@.len() && #[trigger] next@[j].counts() == visited@[i].counts() by {
                    if i >= start {
                        assert(next@[i - start].counts() == visited@[start + (i - start)].counts());
                    } else {
                        assert(visited@[i] == vis0[i]);
                        assert(old[i] == vis0[i].counts());
                    }
                }
            }
            frontier = next;
            depth = depth + 1;
        }
        proof {
            let seen = counts_of(visited@);
            if h {
                if depth < max_depth {
                    assert forall|i: int| 0 <= i < seen.len() implies explored(ts, #[trigger] seen[i], seen) by {
                        assert(seen[i] == visited@[i].counts());
                    }
                    lemma_cover_closed(ts, m0, max_depth as nat, seen);
                }
                assert forall|m: Map<usize, Weight>|
                    reachable_within(ts, m0, max_depth as nat, m) implies !#[trigger] same_counts(m, target.counts()) by {
                    let i = choose|i: int| 0 <= i < seen.len() && #[trigger] same_counts(seen[i], m);
                    assert(seen[i] == visited@[i].counts());
                    lemma_same_counts_equiv(seen[i], m, target.counts());
                }
            }
        }
        false
    }

    /// Fires `transition` from `marking`, for a firing that does not
    /// overflow: its input weights are subtracted, then its output weights
    /// added. Fails when the transition does not exist or is not enabled.
    pub fn fire(&self, transition: usize, marking: &Marking) -> (r: Result<Marking, CatgraphError>)
        requires
            transition < self.all_transitions().len() && is_enabled(
                self.all_transitions()[transition as int],
                marking.counts(),
            ) ==> fired(marking.counts(), self.all_transitions()[transition as int]) is Some,
        ensures
            transition >= self.all_transitions().len() ==> (r matches Err(e) && e is PetriNet),
            transition < self.all_transitions().len() && !is_enabled(
                self.all_transitions()[transition as int],
                marking.counts(),
            ) ==> (r matches Err(e) && e is PetriNet),
            transition < self.all_transitions().len() && is_enabled(
                self.all_transitions()[transition as int],
                marking.counts(),
            ) ==> (r matches Ok(x) && Some(x.counts()) == fired(
                marking.counts(),
                self.all_transitions()[transition as int],
            )),
    {
        self.try_fire(transition, marking)
    }
}

/// `10^n` is positive.
proof fn lemma_pow10_pos(n: nat)
    ensures
        pow10(n) > 0,
    decreases n,
{
    if n > 0 {
        lemma_pow10_pos((n - 1) as nat);
    }
}

/// Two markings are equal exactly when every place has the same number of
/// tokens in both, a place without an entry holding `0`.
pub proof fn law_marking_equality(a: Marking, b: Marking)
    requires
        forall|p: usize| #[trigger] a.counts().contains_key(p) ==> !a.counts()[p].is_zero_spec(),
        forall|p: usize| #[trigger] b.counts().contains_key(p) ==> !b.counts()[p].is_zero_spec(),
    ensures
        same_counts(a.counts(), b.counts()) <==> forall|p: usize| #[trigger] a.count(p).same_value(b.count(p)),
{
    let z = zero_weight();
    assert forall|w: Weight| #[trigger] w.same_value(z) implies w.is_zero_spec() by {
        lemma_pow10_pos(w.s() as nat);
        assert(pow10(0) == 1);
        assert(w.m() * pow10(0) <= 0 * pow10(w.s() as nat));
        assert(0 * pow10(w.s() as nat) <= w.m() * pow10(0));
    }
    assert forall|w: Weight| #[trigger] z.same_value(w) implies w.is_zero_spec() by {
        lemma_pow10_pos(w.s() as nat);
        assert(pow10(0) == 1);
        assert(w.m() * pow10(0) <= 0 * pow10(w.s() as nat));
        assert(0 * pow10(w.s() as nat) <= w.m() * pow10(0));
    }
    if forall|p: usize| #[trigger] a.count(p).same_value(b.count(p)) {
        assert forall|p: usize| a.counts().dom().contains(p) <==> b.counts().dom().contains(p) by {
            if a.counts().contains_key(p) && !b.counts().contains_key(p) {
                assert(a.count(p).same_value(b.count(p)));
                assert(b.count(p) == z);
            }
            if b.counts().contains_key(p) && !a.counts().contains_key(p) {
                assert(a.count(p).same_value(b.count(p)));
                assert(a.count(p) == z);
            }
        }
        assert(a.counts().dom() =~= b.counts().dom());
        assert forall|p: usize| #[trigger] a.counts().contains_key(p) implies a.counts()[p].same_value(
            b.counts()[p],
        ) by {
            assert(a.count(p).same_value(b.count(p)));
        }
    }
    if same_counts(a.counts(), b.counts()) {
        assert forall|p: usize| #[trigger] a.count(p).same_value(b.count(p)) by {
            if !a.counts().contains_key(p) {
                assert(!b.counts().contains_key(p));
                lemma_pow10_pos(0);
            }
        }
    }
}

/// Occurrences add up over a concatenation.
proof fn lemma_occurrences_concat(s1: Seq<usize>, s2: Seq<usize>, p: usize)
    ensures
        occurrences(s1 + s2, p) == occurrences(s1, p) + occurrences(s2, p),
    decreases s2.len(),
{
    if s2.len() > 0 {
        lemma_occurrences_concat(s1, s2.drop_last(), p);
        assert((s1 + s2).drop_last() =~= s1 + s2.drop_last());
    } else {
        assert(s1 + s2 =~= s1);
    }
}

/// A run of `c` copies of `q` holds `p` `c` times when `q` is `p`, else
/// never.
proof fn lemma_occurrences_run(c: nat, q: usize, p: usize)
    ensures
        occurrences(Seq::new(c, |i: int| q), p) == if q == p {
            c
        } else {
            0
        },
    decreases c,
{
    if c > 0 {
        lemma_occurrences_run((c - 1) as nat, q, p);
        assert(Seq::new(c, |i: int| q).drop_last() =~= Seq::new((c - 1) as nat, |i: int| q));
    }
}

/// The expansion of arcs listing each place at most once, with a whole
/// weight equal to the multiplicity of that place in `leg`, holds each place
/// as often as `leg` does, provided every place `leg` reaches is listed.
proof fn lemma_expanded_multiplicity(arcs: Seq<(usize, Weight)>, leg: Seq<usize>, n: nat, p: usize)
    requires
        forall|a: int, b: int| 0 <= a < b < arcs.len() ==> arcs[a].0 < arcs[b].0,
        forall|k: int|
            0 <= k < arcs.len() ==> {
                &&& (#[trigger] arcs[k]).1.m() == occurrences(leg, arcs[k].0)
                &&& arcs[k].1.s() == 0
            },
        forall|k: int| 0 <= k < arcs.len() ==> #[trigger] to_u64_spec(arcs[k].1) is Some,
    ensures
        occurrences(expanded(arcs), p) == if exists|k: int| 0 <= k < arcs.len() && arcs[k].0 == p {
            occurrences(leg, p)
        } else {
            0
        },
    decreases arcs.len(),
{
    if arcs.len() > 0 {
        let init = arcs.drop_last();
        assert forall|k: int| 0 <= k < init.len() implies #[trigger] to_u64_spec(init[k].1) is Some by {
            assert(init[k] == arcs[k]);
            assert(to_u64_spec(arcs[k].1) is Some);
        }
        assert forall|k: int| 0 <= k < init.len() implies {
            &&& (#[trigger] init[k]).1.m() == occurrences(leg, init[k].0)
            &&& init[k].1.s() == 0
        } by {
            assert(init[k] == arcs[k]);
        }
        lemma_expanded_multiplicity(init, leg, n, p);
        let (q, w) = arcs.last();
        assert(to_u64_spec(arcs[arcs.len() - 1].1) is Some);
        let c = to_u64_spec(w)->Some_0 as nat;
        assert(pow10(0) == 1);
        assert(c == occurrences(leg, q)) by {
            assert(w.m() == occurrences(leg, q) && w.s() == 0);
            assert((w.m() as int) / pow10(0) == w.m());
        }
        lemma_occurrences_concat(expanded(init), Seq::new(c, |i: int| q), p);
        lemma_occurrences_run(c, q, p);
        if exists|k: int| 0 <= k < init.len() && init[k].0 == p {
            let k = choose|k: int| 0 <= k < init.len() && init[k].0 == p;
            assert(arcs[k].0 < arcs[arcs.len() - 1].0);
            assert(init[k] == arcs[k]);
        }
        if q == p {
            assert(arcs[arcs.len() - 1].0 == p);
            assert(!exists|k: int| 0 <= k < init.len() && init[k].0 == p) by {
                if exists|k: int| 0 <= k < init.len() && init[k].0 == p {
                    let k = choose|k: int| 0 <= k < init.len() && init[k].0 == p;
                    assert(init[k] == arcs[k]);
                    assert(arcs[k].0 < arcs[arcs.len() - 1].0);
                }
            }
        } else {
            if exists|k: int| 0 <= k < arcs.len() && arcs[k].0 == p {
                let k = choose|k: int| 0 <= k < arcs.len() && arcs[k].0 == p;
                assert(k < arcs.len() - 1);
                assert(init[k] == arcs[k]);
            }
        }
    }
}

/// The transition of a net made from a cospan `c` turns back into a cospan
/// with the same apex that sends as many domain and as many codomain
/// elements to each place as `c` does: the two constructions are inverse up
/// to the order of the boundary elements.
pub proof fn law_cospan_net_roundtrip<L: Label>(c: Cospan<L>, arcs_in: Seq<(usize, Weight)>, arcs_out: Seq<(usize, Weight)>)
    requires
        crate::cospan_laws::cospan_valid(c),
        multiplicity_arcs(arcs_in, c.left_map(), c.apex().len()),
        multiplicity_arcs(arcs_out, c.right_map(), c.apex().len()),
    ensures
        forall|k: int| 0 <= k < arcs_in.len() ==> #[trigger] to_u64_spec(arcs_in[k].1) is Some,
        forall|k: int| 0 <= k < arcs_out.len() ==> #[trigger] to_u64_spec(arcs_out[k].1) is Some,
        forall|p: usize| occurrences(#[trigger] expanded(arcs_in), p) == occurrences(c.left_map(), p),
        forall|p: usize| occurrences(#[trigger] expanded(arcs_out), p) == occurrences(c.right_map(), p),
{
    lemma_multiplicity_whole(arcs_in, c.left_map(), c.apex().len());
    lemma_multiplicity_whole(arcs_out, c.right_map(), c.apex().len());
    assert forall|p: usize| occurrences(#[trigger] expanded(arcs_in), p) == occurrences(c.left_map(), p) by {
        lemma_expanded_multiplicity(arcs_in, c.left_map(), c.apex().len(), p);
        lemma_occurrences_bound(c.left_map(), c.apex().len(), p);
    }
    assert forall|p: usize| occurrences(#[trigger] expanded(arcs_out), p) == occurrences(c.right_map(), p) by {
        lemma_expanded_multiplicity(arcs_out, c.right_map(), c.apex().len(), p);
        lemma_occurrences_bound(c.right_map(), c.apex().len(), p);
    }
}

/// Multiplicity arcs carry whole weights below `2^64`.
proof fn lemma_multiplicity_whole(arcs: Seq<(usize, Weight)>, leg: Seq<usize>, n: nat)
    requires
        multiplicity_arcs(arcs, leg, n),
        leg.len() <= usize::MAX,
    ensures
        forall|k: int| 0 <= k < arcs.len() ==> #[trigger] to_u64_spec(arcs[k].1) is Some,
{
    assert forall|k: int| 0 <= k < arcs.len() implies #[trigger] to_u64_spec(arcs[k].1) is Some by {
        let w = arcs[k].1;
        assert(pow10(0) == 1);
        assert(w.s() == 0);
        assert((w.m() as int) / pow10(0) == w.m());
        assert(w.m() <= u64::MAX) by {
            assert(w.m() == occurrences(leg, arcs[k].0));
            lemma_occurrences_len(leg, arcs[k].0);
        }
    }
}

/// A place occurs at most as often as the sequence is long.
proof fn lemma_occurrences_len(s: Seq<usize>, p: usize)
    ensures
        occurrences(s, p) <= s.len(),
    decreases s.len(),
{
    if s.len() > 0 {
        lemma_occurrences_len(s.drop_last(), p);
    }
}

/// A place outside the bound does not occur in a sequence below the bound.
proof fn lemma_occurrences_bound(s: Seq<usize>, n: nat, p: usize)
    requires
        forall|i: int| 0 <= i < s.len() ==> s[i] < n,
    ensures
        p >= n ==> occurrences(s, p) == 0,
    decreases s.len(),
{
    if s.len() > 0 {
        lemma_occurrences_bound(s.drop_last(), n, p);
    }
}

} // verus!
