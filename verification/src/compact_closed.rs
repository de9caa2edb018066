//! The self-dual compact closed structure of Frobenius diagrams: every word
//! `X` has a cup `[] → X ⊗ X` and a cap `X ⊗ X → []`, and a morphism
//! `X → Y` corresponds to its name `[] → X ⊗ Y`.
use vstd::prelude::*;

use crate::category::{ComposableMutating, HasIdentity};
use crate::errors::CatgraphError;
use crate::frobenius::{
    diagram_cod, diagram_dom, frob_compose_layers, frob_monoidal, identity_ops, layer_tensor, layer_views,
    ops_cloned, ops_sources, ops_targets, FrobeniusLayer, FrobeniusMorphism, FrobeniusOperation,
};
use crate::frobenius_permutation::{all_swap_ops, braids_sending, wire_end};
use crate::label::Label;
use crate::monoidal::{Monoidal, SymmetricMonoidalMorphism};
use crate::permutation::{is_permutation_of, perm_inv, perm_len, perm_try_from, perm_values};
use crate::utils::copy_vec;

use permutations::Permutation;

verus! {

/// Units on the labels `t`, side by side.
pub open spec fn unit_ops<L: Label, B>(t: Seq<L>) -> Seq<FrobeniusOperation<L, B>> {
    Seq::new(t.len(), |i: int| FrobeniusOperation::<L, B>::Unit(t[i]))
}

/// Comultiplications on the labels `t`, side by side.
pub open spec fn comult_ops<L: Label, B>(t: Seq<L>) -> Seq<FrobeniusOperation<L, B>> {
    Seq::new(t.len(), |i: int| FrobeniusOperation::<L, B>::Comultiplication(t[i]))
}

/// Multiplications on the labels `t`, side by side.
pub open spec fn mult_ops<L: Label, B>(t: Seq<L>) -> Seq<FrobeniusOperation<L, B>> {
    Seq::new(t.len(), |i: int| FrobeniusOperation::<L, B>::Multiplication(t[i]))
}

/// Counits on the labels `t`, side by side.
pub open spec fn counit_ops<L: Label, B>(t: Seq<L>) -> Seq<FrobeniusOperation<L, B>> {
    Seq::new(t.len(), |i: int| FrobeniusOperation::<L, B>::Counit(t[i]))
}

/// Each label of `t` twice in a row: `[z₁, z₁, z₂, z₂, …]`.
pub open spec fn paired<L>(t: Seq<L>) -> Seq<L> {
    Seq::new(2 * t.len(), |i: int| t[i / 2])
}

proof fn lemma_cup_words<L: Label, B>(t: Seq<L>)
    ensures
        ops_sources(unit_ops::<L, B>(t)) == Seq::<L>::empty(),
        ops_targets(unit_ops::<L, B>(t)) == t,
        ops_sources(comult_ops::<L, B>(t)) == t,
        ops_targets(comult_ops::<L, B>(t)) == paired(t),
        ops_sources(mult_ops::<L, B>(t)) == paired(t),
        ops_targets(mult_ops::<L, B>(t)) == t,
        ops_sources(counit_ops::<L, B>(t)) == t,
        ops_targets(counit_ops::<L, B>(t)) == Seq::<L>::empty(),
    decreases t.len(),
{
    if t.len() > 0 {
        let p = t.drop_last();
        lemma_cup_words::<L, B>(p);
        assert(unit_ops::<L, B>(t).drop_last() =~= unit_ops::<L, B>(p));
        assert(comult_ops::<L, B>(t).drop_last() =~= comult_ops::<L, B>(p));
        assert(mult_ops::<L, B>(t).drop_last() =~= mult_ops::<L, B>(p));
        assert(counit_ops::<L, B>(t).drop_last() =~= counit_ops::<L, B>(p));
        assert(t =~= p.push(t.last()));
        assert(paired(t) =~= paired(p) + seq![t.last(), t.last()]);
    } else {
        assert(paired(t) =~= Seq::<L>::empty());
    }
}

/// The layer with exactly the generators `ops`.
fn layer_of<Lambda: Label, B>(ops: Vec<FrobeniusOperation<Lambda, B>>) -> (r: FrobeniusLayer<Lambda, B>)
    requires
        ops@.len() <= 2,
        forall|i: int| 0 <= i < ops@.len() ==> crate::frobenius::op_sources(#[trigger] ops@[i]).len() <= 2
            && crate::frobenius::op_targets(ops@[i]).len() <= 2,
    ensures
        r.ops() == ops@,
{
    proof {
        lemma_small_words(ops@);
    }
    FrobeniusLayer::rebuild_from_ops(ops)
}

proof fn lemma_small_words<L: Label, B>(ops: Seq<FrobeniusOperation<L, B>>)
    requires
        ops.len() <= 2,
        forall|i: int| 0 <= i < ops.len() ==> crate::frobenius::op_sources(#[trigger] ops[i]).len() <= 2
            && crate::frobenius::op_targets(ops[i]).len() <= 2,
    ensures
        ops_sources(ops).len() <= 2 * ops.len(),
        ops_targets(ops).len() <= 2 * ops.len(),
    decreases ops.len(),
{
    if ops.len() > 0 {
        let p = ops.drop_last();
        assert forall|i: int| 0 <= i < p.len() implies crate::frobenius::op_sources(#[trigger] p[i]).len() <= 2
            && crate::frobenius::op_targets(p[i]).len() <= 2 by {
            assert(p[i] == ops[i]);
        }
        lemma_small_words(p);
        assert(ops.last() == ops[ops.len() - 1]);
    }
}

/// The diagram of two single generators, one after the other.
fn two_layers<Lambda: Label, B>(
    first: FrobeniusOperation<Lambda, B>,
    second: FrobeniusOperation<Lambda, B>,
) -> (r: FrobeniusMorphism<Lambda, B>)
    requires
        crate::frobenius::op_sources(first).len() <= 2 && crate::frobenius::op_targets(first).len() <= 2,
        crate::frobenius::op_sources(second).len() <= 2 && crate::frobenius::op_targets(second).len() <= 2,
    ensures
        r.diagram() == seq![seq![first], seq![second]],
{
    let mut a: Vec<FrobeniusOperation<Lambda, B>> = Vec::new();
    a.push(first);
    let mut b: Vec<FrobeniusOperation<Lambda, B>> = Vec::new();
    b.push(second);
    let l0 = layer_of(a);
    let l1 = layer_of(b);
    let mut layers: Vec<FrobeniusLayer<Lambda, B>> = Vec::new();
    layers.push(l0);
    layers.push(l1);
    let r = FrobeniusMorphism::from_layers(layers);
    assert(r.diagram() =~= seq![seq![first], seq![second]]);
    r
}

/// The cup on one label, `[] → [z, z]`: a unit, then a comultiplication.
/// No simplification applies at their seam, so the two layers stand as they
/// are.
pub fn cup_single<Lambda: Label, B>(z: Lambda) -> (r: FrobeniusMorphism<Lambda, B>)
    ensures
        r.diagram() == seq![unit_ops::<Lambda, B>(seq![z]), comult_ops::<Lambda, B>(seq![z])],
        r.dom() == Seq::<Lambda>::empty(),
        r.cod() == seq![z, z],
{
    let r = two_layers(FrobeniusOperation::Unit(z), FrobeniusOperation::Comultiplication(z));
    proof {
        assert(unit_ops::<Lambda, B>(seq![z]) =~= seq![FrobeniusOperation::<Lambda, B>::Unit(z)]);
        assert(comult_ops::<Lambda, B>(seq![z]) =~= seq![FrobeniusOperation::<Lambda, B>::Comultiplication(z)]);
        lemma_cup_words::<Lambda, B>(seq![z]);
        assert(paired(seq![z]) =~= seq![z, z]);
    }
    r
}

/// The cap on one label, `[z, z] → []`: a multiplication, then a counit.
pub fn cap_single<Lambda: Label, B>(z: Lambda) -> (r: FrobeniusMorphism<Lambda, B>)
    ensures
        r.diagram() == seq![mult_ops::<Lambda, B>(seq![z]), counit_ops::<Lambda, B>(seq![z])],
        r.dom() == seq![z, z],
        r.cod() == Seq::<Lambda>::empty(),
{
    let r = two_layers(FrobeniusOperation::Multiplication(z), FrobeniusOperation::Counit(z));
    proof {
        assert(mult_ops::<Lambda, B>(seq![z]) =~= seq![FrobeniusOperation::<Lambda, B>::Multiplication(z)]);
        assert(counit_ops::<Lambda, B>(seq![z]) =~= seq![FrobeniusOperation::<Lambda, B>::Counit(z)]);
        lemma_cup_words::<Lambda, B>(seq![z]);
        assert(paired(seq![z]) =~= seq![z, z]);
    }
    r
}


/// Two diagrams of two layers each, side by side, layer by layer.
proof fn lemma_monoidal_two<L: Label, B>(
    s0: Seq<FrobeniusOperation<L, B>>,
    s1: Seq<FrobeniusOperation<L, B>>,
    o0: Seq<FrobeniusOperation<L, B>>,
    o1: Seq<FrobeniusOperation<L, B>>,
)
    ensures
        frob_monoidal(seq![s0, s1], seq![o0, o1]) == seq![layer_tensor(s0, o0), layer_tensor(s1, o1)],
{
    let s = seq![s0, s1];
    let o = seq![o0, o1];
    let lot = crate::frobenius::frob_pad(o, 2);
    let zipped = Seq::new(
        s.len(),
        |n: int|
            if n < 2 {
                layer_tensor(s[n], o[n])
            } else {
                layer_tensor(s[n], identity_ops::<L, B>(lot))
            },
    );
    let extra = Seq::new(0, |k: int| layer_tensor(identity_ops::<L, B>(diagram_cod(s)), o[2 + k]));
    assert(frob_monoidal(s, o) == crate::frobenius::frob_append_all(zipped, extra));
    assert(zipped =~= seq![layer_tensor(s0, o0), layer_tensor(s1, o1)]);
}

/// The cup on a word, `[] → [z₁, z₁, z₂, z₂, …]`: the cups on its labels
/// side by side, so a layer of units and a layer of comultiplications; on
/// the empty word, one empty layer.
pub fn cup<Lambda: Label, B>(types: &[Lambda]) -> (r: FrobeniusMorphism<Lambda, B>)
    requires
        2 * types@.len() <= usize::MAX,
    ensures
        types@.len() == 0 ==> r.diagram() == seq![Seq::<FrobeniusOperation<Lambda, B>>::empty()],
        types@.len() > 0 ==> r.diagram() == seq![unit_ops::<Lambda, B>(types@), comult_ops::<Lambda, B>(types@)],
        r.dom() == Seq::<Lambda>::empty(),
        r.cod() == paired(types@),
{
    let n = types.len();
    if n == 0 {
        let e: Vec<Lambda> = Vec::new();
        let r = FrobeniusMorphism::identity(&e);
        proof {
            assert(r.diagram()[0] =~= Seq::<FrobeniusOperation<Lambda, B>>::empty());
            assert(r.diagram() =~= seq![Seq::<FrobeniusOperation<Lambda, B>>::empty()]);
            assert(paired(types@) =~= Seq::<Lambda>::empty());
        }
        return r;
    }
    let mut result: FrobeniusMorphism<Lambda, B> = cup_single(types[0]);
    let mut i: usize = 1;
    proof {
        assert(types@.subrange(0, 1) =~= seq![types@[0]]);
    }
    while i < n
        invariant
            1 <= i <= n,
            n == types@.len(),
            2 * n <= usize::MAX,
            result.diagram() == seq![
                unit_ops::<Lambda, B>(types@.subrange(0, i as int)),
                comult_ops::<Lambda, B>(types@.subrange(0, i as int)),
            ],
        decreases n - i,
    {
        let z = types[i];
        let piece: FrobeniusMorphism<Lambda, B> = cup_single(z);
        let ghost t = types@.subrange(0, i as int);
        proof {
            lemma_monoidal_two(
                unit_ops::<Lambda, B>(t),
                comult_ops::<Lambda, B>(t),
                unit_ops::<Lambda, B>(seq![z]),
                comult_ops::<Lambda, B>(seq![z]),
            );
            lemma_cup_words::<Lambda, B>(t);
            lemma_cup_words::<Lambda, B>(seq![z]);
            assert(types@.subrange(0, i + 1) =~= t + seq![z]);
            assert(unit_ops::<Lambda, B>(t) + unit_ops::<Lambda, B>(seq![z]) =~= unit_ops::<Lambda, B>(t + seq![z]));
            assert(comult_ops::<Lambda, B>(t) + comult_ops::<Lambda, B>(seq![z]) =~= comult_ops::<Lambda, B>(
                t + seq![z],
            ));
        }
        result.monoidal(piece);
        i = i + 1;
    }
    proof {
        assert(types@.subrange(0, n as int) =~= types@);
        lemma_cup_words::<Lambda, B>(types@);
    }
    result
}

/// The cap on a word, `[z₁, z₁, z₂, z₂, …] → []`: the caps on its labels
/// side by side; on the empty word, one empty layer.
pub fn cap<Lambda: Label, B>(types: &[Lambda]) -> (r: FrobeniusMorphism<Lambda, B>)
    requires
        2 * types@.len() <= usize::MAX,
    ensures
        types@.len() == 0 ==> r.diagram() == seq![Seq::<FrobeniusOperation<Lambda, B>>::empty()],
        types@.len() > 0 ==> r.diagram() == seq![mult_ops::<Lambda, B>(types@), counit_ops::<Lambda, B>(types@)],
        r.dom() == paired(types@),
        r.cod() == Seq::<Lambda>::empty(),
{
    let n = types.len();
    if n == 0 {
        let e: Vec<Lambda> = Vec::new();
        let r = FrobeniusMorphism::identity(&e);
        proof {
            assert(r.diagram()[0] =~= Seq::<FrobeniusOperation<Lambda, B>>::empty());
            assert(r.diagram() =~= seq![Seq::<FrobeniusOperation<Lambda, B>>::empty()]);
            assert(paired(types@) =~= Seq::<Lambda>::empty());
        }
        return r;
    }
    let mut result: FrobeniusMorphism<Lambda, B> = cap_single(types[0]);
    let mut i: usize = 1;
    proof {
        assert(types@.subrange(0, 1) =~= seq![types@[0]]);
    }
    while i < n
        invariant
            1 <= i <= n,
            n == types@.len(),
            2 * n <= usize::MAX,
            result.diagram() == seq![
                mult_ops::<Lambda, B>(types@.subrange(0, i as int)),
                counit_ops::<Lambda, B>(types@.subrange(0, i as int)),
            ],
        decreases n - i,
    {
        let z = types[i];
        let piece: FrobeniusMorphism<Lambda, B> = cap_single(z);
        let ghost t = types@.subrange(0, i as int);
        proof {
            lemma_monoidal_two(
                mult_ops::<Lambda, B>(t),
                counit_ops::<Lambda, B>(t),
                mult_ops::<Lambda, B>(seq![z]),
                counit_ops::<Lambda, B>(seq![z]),
            );
            lemma_cup_words::<Lambda, B>(t);
            lemma_cup_words::<Lambda, B>(seq![z]);
            assert(types@.subrange(0, i + 1) =~= t + seq![z]);
            assert(mult_ops::<Lambda, B>(t) + mult_ops::<Lambda, B>(seq![z]) =~= mult_ops::<Lambda, B>(t + seq![z]));
            assert(counit_ops::<Lambda, B>(t) + counit_ops::<Lambda, B>(seq![z]) =~= counit_ops::<Lambda, B>(
                t + seq![z],
            ));
        }
        result.monoidal(piece);
        i = i + 1;
    }
    proof {
        assert(types@.subrange(0, n as int) =~= types@);
        lemma_cup_words::<Lambda, B>(types@);
    }
    result
}

/// `[0, n, 1, n + 1, …]`: the position in `X ⊗ X` of each wire of the
/// paired word `[z₁, z₁, z₂, z₂, …]`.
pub open spec fn deinterleave_images(n: nat) -> Seq<usize> {
    Seq::new(
        2 * n,
        |i: int|
            if i % 2 == 0 {
                (i / 2) as usize
            } else {
                (n + i / 2) as usize
            },
    )
}

/// `[0, 2, 4, …, 1, 3, 5, …]`: the position in the paired word of each
/// wire of `X ⊗ X`, the inverse of `deinterleave_images`.
pub open spec fn interleave_images(n: nat) -> Seq<usize> {
    Seq::new(
        2 * n,
        |k: int|
            if k < n {
                (2 * k) as usize
            } else {
                (2 * (k - n) + 1) as usize
            },
    )
}

/// The permutation of `2n` elements with `p(2k) = k` and `p(2k + 1) = n + k`.
fn deinterleave_permutation(n: usize) -> (r: Permutation)
    requires
        2 * n <= usize::MAX,
    ensures
        perm_values(r) == deinterleave_images(n as nat),
{
    let mut perm: Vec<usize> = Vec::new();
    let mut k: usize = 0;
    while k < n
        invariant
            k <= n,
            2 * n <= usize::MAX,
            perm@ == deinterleave_images(n as nat).subrange(0, 2 * k),
        decreases n - k,
    {
        perm.push(k);
        perm.push(n + k);
        k = k + 1;
        assert(perm@ =~= deinterleave_images(n as nat).subrange(0, 2 * k));
    }
    let ghost d = deinterleave_images(n as nat);
    proof {
        assert(perm@ =~= d);
        assert forall|i: int, j: int| 0 <= i < j < d.len() implies d[i] != d[j] by {
            if i % 2 == 0 && j % 2 == 0 {
                assert(i / 2 != j / 2);
            } else if i % 2 == 1 && j % 2 == 1 {
                assert(i / 2 != j / 2);
            }
        }
    }
    match perm_try_from(perm) {
        Some(p) => p,
        None => {
            proof {
                assert(false);
            }
            crate::permutation::perm_identity(0)
        },
    }
}

/// The diagram `a` followed by the diagram `b`, layer for layer.
fn join<Lambda: Label, B>(a: FrobeniusMorphism<Lambda, B>, b: FrobeniusMorphism<Lambda, B>) -> (r: FrobeniusMorphism<
    Lambda,
    B,
>)
    ensures
        r.diagram() == a.diagram() + b.diagram(),
{
    let mut la = a.into_layers();
    let mut lb = b.into_layers();
    let ghost va = la@;
    let ghost vb = lb@;
    la.append(&mut lb);
    proof {
        assert(layer_views(la@) =~= layer_views(va) + layer_views(vb));
    }
    FrobeniusMorphism::from_layers(la)
}

/// `ct` is the cup on `x` with the tensor ordering: a layer of units on
/// `x`, a layer of comultiplications on `x`, then (for two labels or more)
/// braids whose wire entering at `2k` leaves at `k` and whose wire entering
/// at `2k + 1` leaves at `|x| + k`. On the empty word, one empty layer.
pub open spec fn is_tensor_cup<L: Label, B>(x: Seq<L>, ct: Seq<Seq<FrobeniusOperation<L, B>>>) -> bool {
    if x.len() == 0 {
        ct == seq![Seq::<FrobeniusOperation<L, B>>::empty()]
    } else {
        &&& ct.len() >= 2
        &&& ct[0] == unit_ops::<L, B>(x)
        &&& ct[1] == comult_ops::<L, B>(x)
        &&& x.len() == 1 ==> ct.len() == 2
        &&& x.len() >= 2 ==> braids_sending(ct.subrange(2, ct.len() as int), paired(x), deinterleave_images(x.len()))
    }
}

/// `ct` is the cap on `x` with the tensor ordering: (for two labels or
/// more) braids whose wire entering at `k` leaves at `2k` and whose wire
/// entering at `|x| + k` leaves at `2k + 1`, then a layer of
/// multiplications on `x` and a layer of counits on `x`. On the empty word,
/// one empty layer.
pub open spec fn is_tensor_cap<L: Label, B>(x: Seq<L>, ct: Seq<Seq<FrobeniusOperation<L, B>>>) -> bool {
    if x.len() == 0 {
        ct == seq![Seq::<FrobeniusOperation<L, B>>::empty()]
    } else {
        &&& ct.len() >= 2
        &&& ct[ct.len() - 2] == mult_ops::<L, B>(x)
        &&& ct[ct.len() - 1] == counit_ops::<L, B>(x)
        &&& x.len() == 1 ==> ct.len() == 2
        &&& x.len() >= 2 ==> braids_sending(ct.subrange(0, ct.len() - 2), x + x, interleave_images(x.len()))
    }
}

/// The cup with the tensor ordering, `[] → X ⊗ X`: the cup on `X`, then
/// the braid diagram that moves the paired wires apart. No simplification
/// applies at the seams (the comultiplications meet braidings, and the
/// braid layers alternate parity), so the layers are joined as they stand.
/// On a word of at most one label it is the cup.
pub fn cup_tensor<Lambda: Label, B>(types: &[Lambda]) -> (r: FrobeniusMorphism<Lambda, B>)
    requires
        2 * types@.len() <= usize::MAX,
    ensures
        r.dom() == Seq::<Lambda>::empty(),
        r.cod() == types@ + types@,
        types@.len() >= 2 ==> exists|pd: Seq<Seq<FrobeniusOperation<Lambda, B>>>|
            braids_sending(pd, paired(types@), deinterleave_images(types@.len()))
                && #[trigger] r.diagram() == seq![unit_ops::<Lambda, B>(types@), comult_ops::<Lambda, B>(types@)] + pd,
        types@.len() == 0 ==> r.diagram() == seq![Seq::<FrobeniusOperation<Lambda, B>>::empty()],
        types@.len() == 1 ==> r.diagram() == seq![unit_ops::<Lambda, B>(types@), comult_ops::<Lambda, B>(types@)],
        is_tensor_cup(types@, r.diagram()),
{
    let n = types.len();
    if n <= 1 {
        let r = cup(types);
        proof {
            assert(types@ + types@ =~= paired(types@));
        }
        return r;
    }
    let result: FrobeniusMorphism<Lambda, B> = cup(types);
    let mut paired_types: Vec<Lambda> = Vec::new();
    let mut i: usize = 0;
    while i < n
        invariant
            i <= n,
            n == types@.len(),
            paired_types@ == paired(types@.subrange(0, i as int)),
        decreases n - i,
    {
        paired_types.push(types[i]);
        paired_types.push(types[i]);
        i = i + 1;
        assert(paired_types@ =~= paired(types@.subrange(0, i as int)));
    }
    assert(types@.subrange(0, n as int) =~= types@);
    let perm = deinterleave_permutation(n);
    let shuffle: FrobeniusMorphism<Lambda, B> = match FrobeniusMorphism::from_permutation(
        perm,
        paired_types.as_slice(),
        true,
    ) {
        Ok(s) => s,
        Err(_) => {
            proof {
                assert(false);
            }
            FrobeniusMorphism::new()
        },
    };
    let ghost pd = shuffle.diagram();
    let r = join(result, shuffle);
    proof {
        let d = deinterleave_images(n as nat);
        let c = diagram_cod(pd);
        assert(braids_sending(pd, paired(types@), d));
        assert forall|j: int| 0 <= j < 2 * n implies c[j] == (types@ + types@)[j] by {
            if j < n {
                assert(d[2 * j] == j);
                assert(c[d[2 * j] as int] == paired(types@)[2 * j]);
            } else {
                let k = j - n;
                assert(d[2 * k + 1] == j);
                assert(c[d[2 * k + 1] as int] == paired(types@)[2 * k + 1]);
            }
        }
        assert(c =~= types@ + types@);
        assert(r.diagram()[0] == unit_ops::<Lambda, B>(types@));
        assert(r.diagram().last() == pd.last());
        assert(r.diagram().subrange(2, r.diagram().len() as int) =~= pd);
    }
    r
}

/// The cap with the tensor ordering, `X ⊗ X → []`: the braid diagram that
/// brings the two copies of each label together, then the cap on `X`; the
/// layers are joined as they stand, no simplification applying at the
/// seams. On a word of at most one label it is the cap.
pub fn cap_tensor<Lambda: Label, B>(types: &[Lambda]) -> (r: FrobeniusMorphism<Lambda, B>)
    requires
        2 * types@.len() <= usize::MAX,
    ensures
        r.dom() == types@ + types@,
        r.cod() == Seq::<Lambda>::empty(),
        types@.len() >= 2 ==> exists|pd: Seq<Seq<FrobeniusOperation<Lambda, B>>>|
            {
                &&& all_swap_ops(pd)
                &&& pd.len() > 0
                &&& diagram_dom(pd) == types@ + types@
                &&& diagram_cod(pd) == paired(types@)
                &&& #[trigger] r.diagram() == pd + seq![
                    mult_ops::<Lambda, B>(types@),
                    counit_ops::<Lambda, B>(types@),
                ]
            },
        types@.len() == 0 ==> r.diagram() == seq![Seq::<FrobeniusOperation<Lambda, B>>::empty()],
        types@.len() == 1 ==> r.diagram() == seq![mult_ops::<Lambda, B>(types@), counit_ops::<Lambda, B>(types@)],
        is_tensor_cap(types@, r.diagram()),
{
    let n = types.len();
    if n <= 1 {
        let r = cap(types);
        proof {
            assert(types@ + types@ =~= paired(types@));
        }
        return r;
    }
    let mut tensor_types = copy_vec(types);
    let mut second = copy_vec(types);
    tensor_types.append(&mut second);
    let d = deinterleave_permutation(n);
    let perm = perm_inv(&d);
    let _ = perm_len(&d);
    let _ = perm_len(&perm);
    let unshuffle: FrobeniusMorphism<Lambda, B> = match FrobeniusMorphism::from_permutation(
        perm,
        tensor_types.as_slice(),
        true,
    ) {
        Ok(s) => s,
        Err(_) => {
            proof {
                assert(false);
            }
            FrobeniusMorphism::new()
        },
    };
    let ghost pd = unshuffle.diagram();
    let caps: FrobeniusMorphism<Lambda, B> = cap(types);
    let r = join(unshuffle, caps);
    proof {
        let dv = perm_values(d);
        let qv = perm_values(perm);
        let c = diagram_cod(pd);
        let t2 = types@ + types@;
        assert forall|j: int| 0 <= j < 2 * n implies c[j] == paired(types@)[j] by {
            assert(qv[dv[j] as int] == j);
            assert(c[qv[dv[j] as int] as int] == t2[dv[j] as int]);
            if j % 2 == 0 {
                assert(dv[j] == j / 2);
            } else {
                assert(dv[j] == n + j / 2);
            }
        }
        assert(c =~= paired(types@));
        assert(r.diagram()[0] == pd[0]);
        assert(r.diagram().last() == counit_ops::<Lambda, B>(types@));
        lemma_cup_words::<Lambda, B>(types@);
        let iv = interleave_images(n as nat);
        assert forall|k: int| 0 <= k < 2 * n implies #[trigger] qv[k] == iv[k] by {
            if k < n {
                assert(dv[2 * k] == k);
                assert(qv[dv[2 * k] as int] == 2 * k);
            } else {
                assert(dv[2 * (k - n) + 1] == k);
                assert(qv[dv[2 * (k - n) + 1] as int] == 2 * (k - n) + 1);
            }
        }
        assert(r.diagram().subrange(0, r.diagram().len() - 2) =~= pd);
        assert(braids_sending(pd, t2, iv)) by {
            assert forall|i: int| 0 <= i < t2.len() implies c[#[trigger] iv[i] as int] == t2[i] by {
                assert(qv[i] == iv[i]);
            }
            assert forall|i: int| 0 <= i < t2.len() implies #[trigger] wire_end(pd, i) == iv[i] by {
                assert(qv[i] == iv[i]);
            }
        }
    }
    r
}

/// `b` is a copy of `a`, layer by layer (black box labels cloned).
pub open spec fn cloned_diagram<L: Label, B>(a: Seq<Seq<FrobeniusOperation<L, B>>>, b: Seq<Seq<FrobeniusOperation<L, B>>>) -> bool {
    &&& a.len() == b.len()
    &&& forall|i: int| 0 <= i < a.len() ==> ops_cloned(a[i], #[trigger] b[i])
}

/// The diagram of a morphism, or nothing for an error.
pub open spec fn result_diagram<L: Label, B>(r: Result<FrobeniusMorphism<L, B>, CatgraphError>) -> Seq<
    Seq<FrobeniusOperation<L, B>>,
> {
    match r {
        Ok(m) => m.diagram(),
        Err(_) => Seq::empty(),
    }
}

/// Composing `a` with `b` as `compose` does: it goes through (`ok`) exactly
/// when the interfaces agree and every layer appends, and then gives `d`.
pub open spec fn composes_to<L: Label, B>(
    a: Seq<Seq<FrobeniusOperation<L, B>>>,
    b: Seq<Seq<FrobeniusOperation<L, B>>>,
    ok: bool,
    d: Seq<Seq<FrobeniusOperation<L, B>>>,
) -> bool {
    &&& ok <==> (diagram_cod(a) == diagram_dom(b) && frob_compose_layers(a, b).1)
    &&& ok ==> d == frob_compose_layers(a, b).0
}

/// The name of the diagram `fd` from `X`: the tensor cup `[] → X ⊗ X`
/// (`is_tensor_cup`, as `cup_tensor` gives it) composed with the identity on `X` beside a copy
/// of `fd`.
pub open spec fn name_result<L: Label, B>(fd: Seq<Seq<FrobeniusOperation<L, B>>>, ok: bool, d: Seq<Seq<FrobeniusOperation<L, B>>>) -> bool {
    exists|ct: Seq<Seq<FrobeniusOperation<L, B>>>, fc: Seq<Seq<FrobeniusOperation<L, B>>>|
        #![trigger cloned_diagram(fd, fc), diagram_cod(ct)]
        {
            &&& is_tensor_cup(diagram_dom(fd), ct)
            &&& diagram_dom(ct) == Seq::<L>::empty()
            &&& diagram_cod(ct) == diagram_dom(fd) + diagram_dom(fd)
            &&& cloned_diagram(fd, fc)
            &&& composes_to(ct, frob_monoidal(seq![identity_ops::<L, B>(diagram_dom(fd))], fc), ok, d)
        }
}

/// The name of `f: X → Y`, `cup_X ; (id_X ⊗ f) : [] → X ⊗ Y`. Fails when
/// the composition does, or when `X ⊗ X` would not fit in memory.
pub fn name<Lambda: Label, B: Clone>(f: &FrobeniusMorphism<Lambda, B>) -> (r: Result<
    FrobeniusMorphism<Lambda, B>,
    CatgraphError,
>)
    ensures
        2 * f.dom().len() > usize::MAX ==> r is Err,
        2 * f.dom().len() <= usize::MAX ==> name_result(f.diagram(), r is Ok, result_diagram(r)),
{
    let x = f.domain();
    if x.len() > usize::MAX / 2 {
        return Err(CatgraphError::Composition { message: String::from_str("the word X ⊗ X does not fit in memory") });
    }
    let mut result: FrobeniusMorphism<Lambda, B> = cup_tensor(x.as_slice());
    let ghost ct = result.diagram();
    let mut id_tensor_f: FrobeniusMorphism<Lambda, B> = FrobeniusMorphism::identity(&x);
    let fc = f.clone();
    let ghost fcd = fc.diagram();
    proof {
        assert(id_tensor_f.diagram() =~= seq![identity_ops::<Lambda, B>(x@)]);
    }
    id_tensor_f.monoidal(fc);
    let ghost g = id_tensor_f.diagram();
    match result.compose(id_tensor_f) {
        Ok(()) => {},
        Err(e) => {
            proof {
                assert(cloned_diagram(f.diagram(), fcd));
                assert(composes_to(ct, g, false, Seq::empty()));
            }
            return Err(e);
        },
    }
    proof {
        assert(cloned_diagram(f.diagram(), fcd));
        assert(composes_to(ct, g, true, result.diagram()));
    }
    Ok(result)
}

/// Recovering a morphism from a name `g: [] → X ⊗ Y` with `|X| = x_len`:
/// `(id_X ⊗ g) ; (cap_X ⊗ id_Y)`, the cap the tensor cap on `X`
/// (`is_tensor_cap`, as `cap_tensor` gives it).
pub open spec fn unname_result<L: Label, B>(
    gd: Seq<Seq<FrobeniusOperation<L, B>>>,
    x_len: int,
    ok: bool,
    d: Seq<Seq<FrobeniusOperation<L, B>>>,
) -> bool {
    let x = diagram_cod(gd).subrange(0, x_len);
    let y = diagram_cod(gd).subrange(x_len, diagram_cod(gd).len() as int);
    exists|gc: Seq<Seq<FrobeniusOperation<L, B>>>, ct: Seq<Seq<FrobeniusOperation<L, B>>>|
        #![trigger cloned_diagram(gd, gc), diagram_dom(ct)]
        {
            &&& cloned_diagram(gd, gc)
            &&& is_tensor_cap(x, ct)
            &&& diagram_dom(ct) == x + x
            &&& diagram_cod(ct) == Seq::<L>::empty()
            &&& composes_to(
                frob_monoidal(seq![identity_ops::<L, B>(x)], gc),
                frob_monoidal(ct, seq![identity_ops::<L, B>(y)]),
                ok,
                d,
            )
        }
}

/// Recovers `f: X → Y` from its name `g: [] → X ⊗ Y`, the first `x_len`
/// labels of the codomain making up `X`. Fails when `g` has a nonempty
/// domain, when `x_len` passes the codomain, or when the composition does.
pub fn unname<Lambda: Label, B: Clone>(g: &FrobeniusMorphism<Lambda, B>, x_len: usize) -> (r: Result<
    FrobeniusMorphism<Lambda, B>,
    CatgraphError,
>)
    ensures
        g.dom().len() > 0 ==> (r matches Err(e) && e is Composition),
        g.dom().len() == 0 && x_len > g.cod().len() ==> (r matches Err(e) && e is Composition),
        g.dom().len() == 0 && x_len <= g.cod().len() && 2 * x_len > usize::MAX ==> r is Err,
        g.dom().len() == 0 && x_len <= g.cod().len() && 2 * x_len <= usize::MAX ==> unname_result(
            g.diagram(),
            x_len as int,
            r is Ok,
            result_diagram(r),
        ),
{
    let dom = g.domain();
    if dom.len() > 0 {
        let s = String::from_str("unname requires domain = I (empty), got length ");
        let s = s.concat(dom.len().to_string().as_str());
        return Err(CatgraphError::Composition { message: s });
    }
    let cod = g.codomain();
    if x_len > cod.len() {
        let s = String::from_str("x_len (");
        let s = s.concat(x_len.to_string().as_str());
        let s = s.concat(") exceeds codomain length (");
        let s = s.concat(cod.len().to_string().as_str());
        let s = s.concat(")");
        return Err(CatgraphError::Composition { message: s });
    }
    if x_len > usize::MAX / 2 {
        return Err(CatgraphError::Composition { message: String::from_str("the word X ⊗ X does not fit in memory") });
    }
    let cl = cod.len();
    let x = copy_vec(&cod.as_slice()[0..x_len]);
    let y = copy_vec(&cod.as_slice()[x_len..cl]);
    let mut result: FrobeniusMorphism<Lambda, B> = FrobeniusMorphism::identity(&x);
    proof {
        assert(x@ =~= g.cod().subrange(0, x_len as int));
        assert(y@ =~= g.cod().subrange(x_len as int, g.cod().len() as int));
        assert(result.diagram() =~= seq![identity_ops::<Lambda, B>(x@)]);
    }
    let gc = g.clone();
    let ghost gcd = gc.diagram();
    result.monoidal(gc);
    let ghost a = result.diagram();
    let mut cap_id: FrobeniusMorphism<Lambda, B> = cap_tensor(x.as_slice());
    let ghost ct = cap_id.diagram();
    let id_y: FrobeniusMorphism<Lambda, B> = FrobeniusMorphism::identity(&y);
    proof {
        assert(id_y.diagram() =~= seq![identity_ops::<Lambda, B>(y@)]);
    }
    cap_id.monoidal(id_y);
    let ghost b = cap_id.diagram();
    match result.compose(cap_id) {
        Ok(()) => {},
        Err(e) => {
            proof {
                assert(cloned_diagram(g.diagram(), gcd));
                assert(composes_to(a, b, false, Seq::empty()));
            }
            return Err(e);
        },
    }
    proof {
        assert(cloned_diagram(g.diagram(), gcd));
        assert(composes_to(a, b, true, result.diagram()));
    }
    Ok(result)
}

/// The name of `f ; g` from the names `f̂: [] → X ⊗ Y` and `ĝ: [] → Y ⊗ Z`:
/// both are unnamed (with `|X| = x_len` and `|Y| = y_len`), composed, and
/// named again. Fails when either name has a nonempty domain, or when a
/// step does.
pub fn compose_names<Lambda: Label, B: Clone>(
    f_hat: &FrobeniusMorphism<Lambda, B>,
    g_hat: &FrobeniusMorphism<Lambda, B>,
    x_len: usize,
    y_len: usize,
) -> (r: Result<FrobeniusMorphism<Lambda, B>, CatgraphError>)
    ensures
        f_hat.dom().len() > 0 || g_hat.dom().len() > 0 ==> (r matches Err(e) && e is Composition),
        r matches Ok(m) ==> exists|fd: Seq<Seq<FrobeniusOperation<Lambda, B>>>, gd: Seq<Seq<FrobeniusOperation<Lambda, B>>>|
            #![trigger unname_result(f_hat.diagram(), x_len as int, true, fd), unname_result(g_hat.diagram(), y_len as int, true, gd)]
            {
                &&& unname_result(f_hat.diagram(), x_len as int, true, fd)
                &&& unname_result(g_hat.diagram(), y_len as int, true, gd)
                &&& diagram_cod(fd) == diagram_dom(gd)
                &&& frob_compose_layers(fd, gd).1
                &&& name_result(frob_compose_layers(fd, gd).0, true, m.diagram())
            },
{
    let fdom = f_hat.domain();
    let gdom = g_hat.domain();
    if fdom.len() > 0 || gdom.len() > 0 {
        return Err(CatgraphError::Composition {
            message: String::from_str("compose_names requires both names to have domain I (empty)"),
        });
    }
    let f = match unname(f_hat, x_len) {
        Ok(f) => f,
        Err(e) => {
            return Err(e);
        },
    };
    let g = match unname(g_hat, y_len) {
        Ok(g) => g,
        Err(e) => {
            return Err(e);
        },
    };
    let ghost fd = f.diagram();
    let ghost gd = g.diagram();
    let mut fg = f;
    match fg.compose(g) {
        Ok(()) => {},
        Err(e) => {
            return Err(e);
        },
    }
    let r = name(&fg);
    proof {
        if r is Ok {
            assert(unname_result(f_hat.diagram(), x_len as int, true, fd));
            assert(unname_result(g_hat.diagram(), y_len as int, true, gd));
        }
    }
    r
}
/// The generators of `unit_ops`, `comult_ops`, `mult_ops` and `counit_ops`
/// on `x` that come before the `i`-th: they take `0`, `i`, `2i` and `i`
/// inputs and give `i`, `2i`, `i` and `0` outputs.
proof fn lemma_prefix_words<L: Label, B>(x: Seq<L>, i: int)
    requires
        0 <= i <= x.len(),
    ensures
        ops_targets(unit_ops::<L, B>(x).subrange(0, i)).len() == i,
        ops_sources(comult_ops::<L, B>(x).subrange(0, i)).len() == i,
        ops_targets(comult_ops::<L, B>(x).subrange(0, i)).len() == 2 * i,
        ops_sources(mult_ops::<L, B>(x).subrange(0, i)).len() == 2 * i,
        ops_targets(mult_ops::<L, B>(x).subrange(0, i)).len() == i,
        ops_sources(counit_ops::<L, B>(x).subrange(0, i)).len() == i,
{
    let p = x.subrange(0, i);
    lemma_cup_words::<L, B>(p);
    assert(unit_ops::<L, B>(x).subrange(0, i) =~= unit_ops::<L, B>(p));
    assert(comult_ops::<L, B>(x).subrange(0, i) =~= comult_ops::<L, B>(p));
    assert(mult_ops::<L, B>(x).subrange(0, i) =~= mult_ops::<L, B>(p));
    assert(counit_ops::<L, B>(x).subrange(0, i) =~= counit_ops::<L, B>(p));
}

/// The tensor cup on `X = [z₀, …, zₙ₋₁]` joins output `k` with output
/// `n + k`: the `k`-th unit, on `z_k`, gives the wire at position `k`, which
/// is the input of the `k`-th comultiplication, on `z_k`; its two outputs,
/// at positions `2k` and `2k + 1`, are carried by the braids to positions
/// `k` and `n + k` of `X ⊗ X`.
#[verifier::spinoff_prover]
#[verifier::rlimit(40)]
pub proof fn law_tensor_cup_joins<L: Label, B>(x: Seq<L>, ct: Seq<Seq<FrobeniusOperation<L, B>>>)
    requires
        x.len() > 0,
        2 * x.len() <= usize::MAX,
        is_tensor_cup(x, ct),
    ensures
        ct.len() >= 2,
        ct[0].len() == x.len(),
        ct[1].len() == x.len(),
        forall|k: int|
            0 <= k < x.len() ==> {
                &&& #[trigger] ct[0][k] == FrobeniusOperation::<L, B>::Unit(x[k])
                &&& ops_targets(ct[0].subrange(0, k)).len() == k
                &&& ct[1][k] == FrobeniusOperation::<L, B>::Comultiplication(x[k])
                &&& ops_sources(ct[1].subrange(0, k)).len() == k
                &&& ops_targets(ct[1].subrange(0, k)).len() == 2 * k
                &&& wire_end(ct.subrange(2, ct.len() as int), 2 * k) == k
                &&& wire_end(ct.subrange(2, ct.len() as int), 2 * k + 1) == x.len() + k
            },
{
    let n = x.len();
    let rest = ct.subrange(2, ct.len() as int);
    assert forall|k: int| 0 <= k < n implies {
        &&& #[trigger] ct[0][k] == FrobeniusOperation::<L, B>::Unit(x[k])
        &&& ops_targets(ct[0].subrange(0, k)).len() == k
        &&& ct[1][k] == FrobeniusOperation::<L, B>::Comultiplication(x[k])
        &&& ops_sources(ct[1].subrange(0, k)).len() == k
        &&& ops_targets(ct[1].subrange(0, k)).len() == 2 * k
        &&& wire_end(rest, 2 * k) == k
        &&& wire_end(rest, 2 * k + 1) == n + k
    } by {
        lemma_prefix_words::<L, B>(x, k);
        if n == 1 {
            assert(rest.len() == 0);
            assert(k == 0);
        } else {
            let d = deinterleave_images(n);
            assert((2 * k) % 2 == 0 && (2 * k) / 2 == k) by (nonlinear_arith)
                requires
                    0 <= k,
            ;
            assert((2 * k + 1) % 2 == 1 && (2 * k + 1) / 2 == k) by (nonlinear_arith)
                requires
                    0 <= k,
            ;
            assert(d[2 * k] == k);
            assert(d[2 * k + 1] == n + k);
            assert(wire_end(rest, 2 * k) == d[2 * k]);
            assert(wire_end(rest, 2 * k + 1) == d[2 * k + 1]);
        }
    }
}

/// The tensor cap on `X = [z₀, …, zₙ₋₁]` joins input `k` with input
/// `n + k`: the braids carry the wires entering at positions `k` and `n + k`
/// of `X ⊗ X` to positions `2k` and `2k + 1`, the two inputs of the `k`-th
/// multiplication, on `z_k`, whose output at position `k` is the input of
/// the `k`-th counit, on `z_k`.
#[verifier::spinoff_prover]
#[verifier::rlimit(40)]
pub proof fn law_tensor_cap_joins<L: Label, B>(x: Seq<L>, ct: Seq<Seq<FrobeniusOperation<L, B>>>)
    requires
        x.len() > 0,
        2 * x.len() <= usize::MAX,
        is_tensor_cap(x, ct),
    ensures
        ct.len() >= 2,
        ct[ct.len() - 2].len() == x.len(),
        ct[ct.len() - 1].len() == x.len(),
        forall|k: int|
            0 <= k < x.len() ==> {
                &&& wire_end(ct.subrange(0, ct.len() - 2), k) == 2 * k
                &&& wire_end(ct.subrange(0, ct.len() - 2), x.len() + k) == 2 * k + 1
                &&& #[trigger] ct[ct.len() - 2][k] == FrobeniusOperation::<L, B>::Multiplication(x[k])
                &&& ops_sources(ct[ct.len() - 2].subrange(0, k)).len() == 2 * k
                &&& ops_targets(ct[ct.len() - 2].subrange(0, k)).len() == k
                &&& ct[ct.len() - 1][k] == FrobeniusOperation::<L, B>::Counit(x[k])
                &&& ops_sources(ct[ct.len() - 1].subrange(0, k)).len() == k
            },
{
    let n = x.len();
    let pd = ct.subrange(0, ct.len() - 2);
    assert forall|k: int| 0 <= k < n implies {
        &&& wire_end(pd, k) == 2 * k
        &&& wire_end(pd, n + k) == 2 * k + 1
        &&& #[trigger] ct[ct.len() - 2][k] == FrobeniusOperation::<L, B>::Multiplication(x[k])
        &&& ops_sources(ct[ct.len() - 2].subrange(0, k)).len() == 2 * k
        &&& ops_targets(ct[ct.len() - 2].subrange(0, k)).len() == k
        &&& ct[ct.len() - 1][k] == FrobeniusOperation::<L, B>::Counit(x[k])
        &&& ops_sources(ct[ct.len() - 1].subrange(0, k)).len() == k
    } by {
        lemma_prefix_words::<L, B>(x, k);
        if n == 1 {
            assert(pd.len() == 0);
            assert(k == 0);
        } else {
            let iv = interleave_images(n);
            assert(iv[k] == 2 * k);
            assert(iv[n + k] == 2 * k + 1);
            assert(wire_end(pd, k) == iv[k]);
            assert(wire_end(pd, n + k) == iv[n + k]);
        }
    }
}
/// The name of `f: X → Y`, with `X = [z₀, …, zₙ₋₁]` nonempty, is a copy of
/// `f` beside the identity on `X`, after a cup that joins wire `k` of the
/// first `X` with wire `k` of the second: a layer of units on `X`, a layer
/// of comultiplications on `X`, then braids carrying the outputs `2k` and
/// `2k + 1` of the `k`-th comultiplication to positions `k` and `n + k`.
#[verifier::spinoff_prover]
#[verifier::rlimit(40)]
pub proof fn law_name_cup_joins<L: Label, B>(
    fd: Seq<Seq<FrobeniusOperation<L, B>>>,
    ok: bool,
    d: Seq<Seq<FrobeniusOperation<L, B>>>,
)
    requires
        name_result(fd, ok, d),
        diagram_dom(fd).len() > 0,
        2 * diagram_dom(fd).len() <= usize::MAX,
    ensures
        exists|ct: Seq<Seq<FrobeniusOperation<L, B>>>, fc: Seq<Seq<FrobeniusOperation<L, B>>>|
            #![trigger composes_to(ct, frob_monoidal(seq![identity_ops::<L, B>(diagram_dom(fd))], fc), ok, d)]
            {
                &&& cloned_diagram(fd, fc)
                &&& composes_to(ct, frob_monoidal(seq![identity_ops::<L, B>(diagram_dom(fd))], fc), ok, d)
                &&& ct.len() >= 2
                &&& ct[0] == unit_ops::<L, B>(diagram_dom(fd))
                &&& ct[1] == comult_ops::<L, B>(diagram_dom(fd))
                &&& forall|k: int|
                    0 <= k < diagram_dom(fd).len() ==> {
                        &&& #[trigger] wire_end(ct.subrange(2, ct.len() as int), 2 * k) == k
                        &&& wire_end(ct.subrange(2, ct.len() as int), 2 * k + 1) == diagram_dom(fd).len() + k
                    }
            },
{
    let x = diagram_dom(fd);
    let (ct, fc) = choose|ct: Seq<Seq<FrobeniusOperation<L, B>>>, fc: Seq<Seq<FrobeniusOperation<L, B>>>|
        #![trigger cloned_diagram(fd, fc), diagram_cod(ct)]
        {
            &&& is_tensor_cup(diagram_dom(fd), ct)
            &&& diagram_dom(ct) == Seq::<L>::empty()
            &&& diagram_cod(ct) == diagram_dom(fd) + diagram_dom(fd)
            &&& cloned_diagram(fd, fc)
            &&& composes_to(ct, frob_monoidal(seq![identity_ops::<L, B>(diagram_dom(fd))], fc), ok, d)
        };
    law_tensor_cup_joins(x, ct);
    assert forall|k: int| 0 <= k < x.len() implies {
        &&& #[trigger] wire_end(ct.subrange(2, ct.len() as int), 2 * k) == k
        &&& wire_end(ct.subrange(2, ct.len() as int), 2 * k + 1) == x.len() + k
    } by {
        assert(ct[0][k] == FrobeniusOperation::<L, B>::Unit(x[k]));
    }
    assert(composes_to(ct, frob_monoidal(seq![identity_ops::<L, B>(x)], fc), ok, d));
}

/// Unnaming `g: [] → X ⊗ Y`, with `X = [z₀, …, zₙ₋₁]` nonempty the first
/// `x_len` labels of its codomain, composes the identity on `X` beside a
/// copy of `g` with a cap beside the identity on `Y` that joins wire `k` of
/// the first `X` with wire `k` of the second: braids carrying positions `k`
/// and `n + k` to `2k` and `2k + 1`, the inputs of the `k`-th
/// multiplication, then a layer of multiplications and a layer of counits
/// on `X`.
#[verifier::spinoff_prover]
#[verifier::rlimit(40)]
pub proof fn law_unname_cap_joins<L: Label, B>(
    gd: Seq<Seq<FrobeniusOperation<L, B>>>,
    x_len: int,
    ok: bool,
    d: Seq<Seq<FrobeniusOperation<L, B>>>,
)
    requires
        unname_result(gd, x_len, ok, d),
        0 < x_len <= diagram_cod(gd).len(),
        2 * x_len <= usize::MAX,
    ensures
        exists|gc: Seq<Seq<FrobeniusOperation<L, B>>>, ct: Seq<Seq<FrobeniusOperation<L, B>>>|
            #![trigger composes_to(
                frob_monoidal(seq![identity_ops::<L, B>(diagram_cod(gd).subrange(0, x_len))], gc),
                frob_monoidal(ct, seq![identity_ops::<L, B>(diagram_cod(gd).subrange(x_len, diagram_cod(gd).len() as int))]),
                ok,
                d,
            )]
            {
                &&& cloned_diagram(gd, gc)
                &&& composes_to(
                    frob_monoidal(seq![identity_ops::<L, B>(diagram_cod(gd).subrange(0, x_len))], gc),
                    frob_monoidal(ct, seq![identity_ops::<L, B>(diagram_cod(gd).subrange(x_len, diagram_cod(gd).len() as int))]),
                    ok,
                    d,
                )
                &&& ct.len() >= 2
                &&& ct[ct.len() - 2] == mult_ops::<L, B>(diagram_cod(gd).subrange(0, x_len))
                &&& ct[ct.len() - 1] == counit_ops::<L, B>(diagram_cod(gd).subrange(0, x_len))
                &&& forall|k: int|
                    0 <= k < x_len ==> {
                        &&& #[trigger] wire_end(ct.subrange(0, ct.len() - 2), k) == 2 * k
                        &&& wire_end(ct.subrange(0, ct.len() - 2), x_len + k) == 2 * k + 1
                    }
            },
{
    let x = diagram_cod(gd).subrange(0, x_len);
    let y = diagram_cod(gd).subrange(x_len, diagram_cod(gd).len() as int);
    let (gc, ct) = choose|gc: Seq<Seq<FrobeniusOperation<L, B>>>, ct: Seq<Seq<FrobeniusOperation<L, B>>>|
        #![trigger cloned_diagram(gd, gc), diagram_dom(ct)]
        {
            &&& cloned_diagram(gd, gc)
            &&& is_tensor_cap(x, ct)
            &&& diagram_dom(ct) == x + x
            &&& diagram_cod(ct) == Seq::<L>::empty()
            &&& composes_to(
                frob_monoidal(seq![identity_ops::<L, B>(x)], gc),
                frob_monoidal(ct, seq![identity_ops::<L, B>(y)]),
                ok,
                d,
            )
        };
    law_tensor_cap_joins(x, ct);
    assert forall|k: int| 0 <= k < x_len implies {
        &&& #[trigger] wire_end(ct.subrange(0, ct.len() - 2), k) == 2 * k
        &&& wire_end(ct.subrange(0, ct.len() - 2), x_len + k) == 2 * k + 1
    } by {
        assert(ct[ct.len() - 2][k] == FrobeniusOperation::<L, B>::Multiplication(x[k]));
    }
    assert(composes_to(
        frob_monoidal(seq![identity_ops::<L, B>(x)], gc),
        frob_monoidal(ct, seq![identity_ops::<L, B>(y)]),
        ok,
        d,
    ));
}
} // verus!
