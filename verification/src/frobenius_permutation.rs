//! Permutations as Frobenius diagrams: a permutation is sorted by
//! odd-even transposition sort, each pass giving one layer of braidings.
use vstd::prelude::*;

use crate::category::{Composable, ComposableMutating, HasIdentity};
use crate::errors::CatgraphError;
use crate::finset::{
    inj_codomain, inj_map, inj_state, lemma_psum_mono, lemma_surj_map_block, lemma_surj_map_prefix_len, psum,
    surj_domain, surj_map, Decomposition, OrderPresSurj,
};
use crate::frobenius::{
    all_quiet, chained, layers_within, lemma_ops_single, lemma_tensor_chained, quiet_below,
    copies, diagram_cod, diagram_dom, frob_compose_layers, frob_monoidal, identity_ops, layer_views, op_sources,
    op_targets, ops_sources, ops_targets, special_frobenius_morphism, spider_tree, FrobeniusLayer,
    FrobeniusMorphism, FrobeniusOperation,
};
use crate::monoidal::Monoidal;
use crate::label::Label;
use crate::monoidal::SymmetricMonoidalMorphism;
use crate::permutation::{
    is_permutation_of, perm_apply, perm_eq, perm_identity, perm_inv, perm_len, perm_mul, perm_permute,
    perm_transposition, perm_values, permuted,
};
use crate::utils::{copy_vec, range_seq};

use permutations::Permutation;

verus! {

/// An identity or a braiding.
pub open spec fn is_swap_op<L: Label, B>(op: FrobeniusOperation<L, B>) -> bool {
    op is Identity || op is SymmetricBraiding
}

/// Every generator of every layer is an identity or a braiding.
pub open spec fn all_swap_ops<L: Label, B>(d: Seq<Seq<FrobeniusOperation<L, B>>>) -> bool {
    forall|i: int, j: int| 0 <= i < d.len() && 0 <= j < d[i].len() ==> is_swap_op(#[trigger] d[i][j])
}

/// `Σ i·s[i]` over the first `k` positions; each exchange of an adjacent
/// descent raises it.
pub open spec fn weight(s: Seq<usize>, k: int) -> int
    decreases k,
{
    if k <= 0 {
        0
    } else {
        weight(s, k - 1) + (k - 1) * s[k - 1]
    }
}

proof fn lemma_weight_bound(s: Seq<usize>, n: int, k: int)
    requires
        0 <= k <= n,
        s.len() == n,
        forall|i: int| 0 <= i < n ==> s[i] < n,
    ensures
        0 <= weight(s, k) <= k * n * n,
    decreases k,
{
    if k > 0 {
        lemma_weight_bound(s, n, k - 1);
        let i = k - 1;
        let x = s[i] as int;
        assert(0 <= i * x <= n * n) by (nonlinear_arith)
            requires
                0 <= i < n,
                0 <= x < n,
        ;
        assert((k - 1) * n * n + n * n == k * n * n) by (nonlinear_arith);
    }
}

/// `s` with positions `a` and `a + 1` exchanged.
pub open spec fn swap_adjacent<T>(s: Seq<T>, a: int) -> Seq<T> {
    s.update(a, s[a + 1]).update(a + 1, s[a])
}

proof fn lemma_weight_swap(s: Seq<usize>, a: int, k: int)
    requires
        0 <= a,
        a + 1 < s.len(),
        0 <= k <= s.len(),
    ensures
        k <= a ==> weight(swap_adjacent(s, a), k) == weight(s, k),
        k >= a + 2 ==> weight(swap_adjacent(s, a), k) == weight(s, k) + s[a] - s[a + 1],
    decreases k,
{
    let t = swap_adjacent(s, a);
    if k > 0 {
        lemma_weight_swap(s, a, k - 1);
        if k == a + 2 {
            lemma_weight_swap(s, a, a);
            let x = s[a] as int;
            let y = s[a + 1] as int;
            assert(t[a] == y && t[a + 1] == x);
            assert(weight(t, a + 1) == weight(t, a) + a * t[a]);
            assert(weight(t, a + 2) == weight(t, a + 1) + (a + 1) * t[a + 1]);
            assert(weight(s, a + 1) == weight(s, a) + a * s[a]);
            assert(weight(s, a + 2) == weight(s, a + 1) + (a + 1) * s[a + 1]);
            assert(a * y + (a + 1) * x == a * x + (a + 1) * y + x - y) by (nonlinear_arith);
        } else if k > a + 2 {
            assert(t[k - 1] == s[k - 1]);
        }
    }
}

/// Positions `k` and `k + 1` of `s` are in increasing order.
pub open spec fn pair_in_order(s: Seq<usize>, k: int) -> bool {
    s[k] < s[k + 1]
}

/// A bijection of `0..n` without adjacent descents is the identity.
proof fn lemma_ascending_identity(s: Seq<usize>, n: nat)
    requires
        is_permutation_of(s, n),
        forall|i: int| 0 <= i && i + 1 < n ==> #[trigger] pair_in_order(s, i),
    ensures
        forall|i: int| 0 <= i < n ==> #[trigger] s[i] == i,
{
    lemma_ascending_lower(s, n, n as int);
    lemma_ascending_upper(s, n, 0);
}

proof fn lemma_ascending_lower(s: Seq<usize>, n: nat, k: int)
    requires
        0 <= k <= n,
        is_permutation_of(s, n),
        forall|i: int| 0 <= i && i + 1 < n ==> #[trigger] pair_in_order(s, i),
    ensures
        forall|i: int| 0 <= i < k ==> #[trigger] s[i] >= i,
    decreases k,
{
    if k > 0 {
        lemma_ascending_lower(s, n, k - 1);
        if k >= 2 {
            assert(pair_in_order(s, k - 2));
        }
    }
}

proof fn lemma_ascending_upper(s: Seq<usize>, n: nat, k: int)
    requires
        0 <= k <= n,
        is_permutation_of(s, n),
        forall|i: int| 0 <= i && i + 1 < n ==> #[trigger] pair_in_order(s, i),
    ensures
        forall|i: int| k <= i < n ==> #[trigger] s[i] <= i,
    decreases n - k,
{
    if k < n {
        lemma_ascending_upper(s, n, k + 1);
        if k + 1 < n {
            assert(pair_in_order(s, k));
        }
    }
}


/// Position `w[k]` of the current word holds what position `k` of `t0`
/// held, and the current permutation sends it where `p0` sent `k`.
#[verifier::opaque]
pub open spec fn tracks<L>(t: Seq<L>, pv: Seq<usize>, w: Seq<usize>, t0: Seq<L>, p0: Seq<usize>) -> bool {
    &&& w.len() == t0.len()
    &&& p0.len() == t0.len()
    &&& forall|k: int|
        0 <= k < t0.len() ==> #[trigger] w[k] < t0.len() && t[w[k] as int] == t0[k] && pv[w[k] as int] == p0[k]
}

/// `w` moved along the exchange of positions `a` and `a + 1`.
pub open spec fn swap_track(w: Seq<usize>, a: int) -> Seq<usize> {
    Seq::new(
        w.len(),
        |k: int|
            if w[k] == a {
                (a + 1) as usize
            } else if w[k] == a + 1 {
                a as usize
            } else {
                w[k]
            },
    )
}

proof fn lemma_track_swap<L>(t: Seq<L>, pv: Seq<usize>, w: Seq<usize>, t0: Seq<L>, p0: Seq<usize>, a: int)
    requires
        tracks(t, pv, w, t0, p0),
        0 <= a,
        a + 1 < t.len(),
        t.len() <= usize::MAX,
        t.len() == t0.len(),
        pv.len() == t.len(),
    ensures
        tracks(swap_adjacent(t, a), swap_adjacent(pv, a), swap_track(w, a), t0, p0),
{
    reveal(tracks);
    let w2 = swap_track(w, a);
    assert forall|k: int| 0 <= k < t0.len() implies #[trigger] w2[k] < t0.len() && swap_adjacent(t, a)[w2[k] as int]
        == t0[k] && swap_adjacent(pv, a)[w2[k] as int] == p0[k] by {
        assert(w[k] < t0.len());
    }
}

/// Appending a generator appends its labels.
proof fn lemma_ops_push<L: Label, B>(ops: Seq<FrobeniusOperation<L, B>>, op: FrobeniusOperation<L, B>)
    ensures
        ops_sources(ops.push(op)) == ops_sources(ops) + op_sources(op),
        ops_targets(ops.push(op)) == ops_targets(ops) + op_targets(op),
{
    assert(ops.push(op).drop_last() =~= ops);
}

/// Where each input position of a layer of identities and braidings comes
/// out: an identity keeps its wire in place, a braiding exchanges its two.
pub open spec fn layer_wires<L: Label, B>(ops: Seq<FrobeniusOperation<L, B>>) -> Seq<usize>
    decreases ops.len(),
{
    if ops.len() == 0 {
        Seq::empty()
    } else {
        let w = layer_wires(ops.drop_last());
        let p = w.len() as int;
        match ops.last() {
            FrobeniusOperation::SymmetricBraiding(_, _) => w + seq![(p + 1) as usize, p as usize],
            _ => w + range_seq(p, p + op_sources(ops.last()).len()),
        }
    }
}

/// The output position of the wire entering the diagram at position `k`,
/// followed through each layer in turn.
pub open spec fn wire_end<L: Label, B>(d: Seq<Seq<FrobeniusOperation<L, B>>>, k: int) -> int
    decreases d.len(),
{
    if d.len() == 0 {
        k
    } else {
        layer_wires(d.last())[wire_end(d.drop_last(), k)] as int
    }
}

proof fn lemma_wires_push<L: Label, B>(ops: Seq<FrobeniusOperation<L, B>>, op: FrobeniusOperation<L, B>)
    ensures
        layer_wires(ops.push(op)) == (match op {
            FrobeniusOperation::SymmetricBraiding(_, _) => layer_wires(ops) + seq![
                (layer_wires(ops).len() + 1) as usize,
                layer_wires(ops).len() as usize,
            ],
            _ => layer_wires(ops) + range_seq(
                layer_wires(ops).len() as int,
                (layer_wires(ops).len() + op_sources(op).len()) as int,
            ),
        }),
{
    assert(ops.push(op).drop_last() =~= ops);
}

/// One pass of odd-even transposition sort: for each pair of positions
/// `(k, k + 1)` with `k` of the parity of `start`, a braiding when the
/// permutation sends `k` past `k + 1` (the pair is then exchanged in the
/// word and in the permutation), identities otherwise; positions outside
/// the pairs get identities. Returns the layer and whether any pair was
/// exchanged.
#[verifier::rlimit(80)]
fn sort_pass<Lambda: Label, B>(
    types_now: &mut Vec<Lambda>,
    p_rem: &mut Permutation,
    start: usize,
    Ghost(w): Ghost<Seq<usize>>,
    Ghost(t0): Ghost<Seq<Lambda>>,
    Ghost(p0): Ghost<Seq<usize>>,
) -> (r: (FrobeniusLayer<Lambda, B>, bool, Ghost<Seq<usize>>))
    requires
        start <= 1,
        old(types_now)@.len() >= 2,
        old(types_now)@.len() == t0.len(),
        is_permutation_of(perm_values(*old(p_rem)), old(types_now)@.len()),
        tracks(old(types_now)@, perm_values(*old(p_rem)), w, t0, p0),
    ensures
        final(types_now)@.len() == old(types_now)@.len(),
        is_permutation_of(perm_values(*final(p_rem)), old(types_now)@.len()),
        tracks(final(types_now)@, perm_values(*final(p_rem)), r.2@, t0, p0),
        ops_sources(r.0.ops()) == old(types_now)@,
        ops_targets(r.0.ops()) == final(types_now)@,
        forall|j: int| 0 <= j < r.0.ops().len() ==> is_swap_op(#[trigger] r.0.ops()[j]),
        !r.1 ==> final(types_now)@ == old(types_now)@ && perm_values(*final(p_rem)) == perm_values(*old(p_rem)),
        r.1 ==> weight(perm_values(*final(p_rem)), old(types_now)@.len() as int) > weight(
            perm_values(*old(p_rem)),
            old(types_now)@.len() as int,
        ),
        forall|k: int|
            0 <= k && k + 1 < old(types_now)@.len() && k % 2 == start ==> #[trigger] pair_in_order(
                perm_values(*final(p_rem)),
                k,
            ),
        r.2@ == Seq::new(w.len(), |k: int| layer_wires(r.0.ops())[w[k] as int]),
        layer_wires(r.0.ops()).len() == old(types_now)@.len(),
        !r.1 ==> r.2@ == w,
{
    let n = types_now.len();
    let ghost tb = types_now@;
    let ghost pb = perm_values(*p_rem);
    proof {
        reveal(tracks);
    }
    let mut ops: Vec<FrobeniusOperation<Lambda, B>> = Vec::new();
    let mut idx: usize = start;
    let mut swapped = false;
    let ghost mut wc = w;
    if start == 1 {
        let op = FrobeniusOperation::Identity(types_now[0]);
        proof {
            lemma_ops_push(ops@, op);
            assert(ops_sources(ops@) =~= Seq::<Lambda>::empty());
            assert(ops_targets(ops@) =~= Seq::<Lambda>::empty());
        }
        proof {
            lemma_wires_push(ops@, op);
        }
        ops.push(op);
        proof {
            assert(ops_sources(ops@) =~= tb.subrange(0, 1));
            assert(ops_targets(ops@) =~= types_now@.subrange(0, 1));
            assert(layer_wires(ops@) =~= seq![0usize]);
        }
    } else {
        proof {
            assert(ops_sources(ops@) =~= tb.subrange(0, 0));
            assert(ops_targets(ops@) =~= types_now@.subrange(0, 0));
        }
    }
    while idx < n - 1
        invariant
            n == types_now@.len(),
            n == tb.len(),
            n == t0.len(),
            n >= 2,
            start <= 1,
            idx % 2 == start,
            start <= idx <= n,
            is_permutation_of(perm_values(*p_rem), n as nat),
            tracks(types_now@, perm_values(*p_rem), wc, t0, p0),
            ops_sources(ops@) == tb.subrange(0, idx as int),
            ops_targets(ops@) == types_now@.subrange(0, idx as int),
            forall|k: int| idx <= k < n ==> #[trigger] types_now@[k] == tb[k],
            forall|k: int| idx <= k < n ==> #[trigger] perm_values(*p_rem)[k] == pb[k],
            forall|j: int| 0 <= j < ops@.len() ==> is_swap_op(#[trigger] ops@[j]),
            !swapped ==> types_now@ == tb && perm_values(*p_rem) == pb,
            swapped ==> weight(perm_values(*p_rem), n as int) > weight(pb, n as int),
            forall|k: int| 0 <= k && k + 1 < idx && k % 2 == start ==> #[trigger] pair_in_order(perm_values(*p_rem), k),
            layer_wires(ops@).len() == idx,
            forall|q: int| 0 <= q < idx ==> #[trigger] layer_wires(ops@)[q] < idx,
            !swapped ==> forall|q: int| 0 <= q < idx ==> #[trigger] layer_wires(ops@)[q] == q,
            w.len() == n,
            forall|k: int| 0 <= k < n ==> w[k] < n,
            wc.len() == n,
            forall|k: int|
                0 <= k < n ==> #[trigger] wc[k] == if w[k] < idx {
                    layer_wires(ops@)[w[k] as int]
                } else {
                    w[k]
                },
        decreases n - idx,
    {
        proof {
            reveal(tracks);
        }
        let a = perm_apply(p_rem, idx);
        let b = perm_apply(p_rem, idx + 1);
        let ghost pc = perm_values(*p_rem);
        let ghost tc = types_now@;
        let ghost before_ops = ops@;
        if a > b {
            let cur_swap = perm_transposition(n, idx, idx + 1);
            let op = FrobeniusOperation::SymmetricBraiding(types_now[idx], types_now[idx + 1]);
            let ghost lw0 = layer_wires(ops@);
            let ghost wc0 = wc;
            proof {
                lemma_ops_push(ops@, op);
                lemma_wires_push(ops@, op);
            }
            ops.push(op);
            let moved = perm_permute(&cur_swap, types_now.as_slice());
            *types_now = moved;
            let old_p = crate::permutation::perm_clone(p_rem);
            let new_p = perm_mul(cur_swap, old_p);
            *p_rem = new_p;
            let _ = perm_len(p_rem);
            proof {
                assert(types_now@ =~= swap_adjacent(tc, idx as int));
                assert(perm_values(*p_rem) =~= swap_adjacent(pc, idx as int));
                lemma_track_swap(tc, pc, wc, t0, p0, idx as int);
                wc = swap_track(wc, idx as int);
                lemma_weight_swap(pc, idx as int, n as int);
                assert(ops_sources(ops@) =~= tb.subrange(0, idx + 2));
                assert(ops_targets(ops@) =~= types_now@.subrange(0, idx + 2));
                let lw = layer_wires(ops@);
                assert(lw == lw0 + seq![(idx + 1) as usize, idx as usize]);
                assert forall|k: int| 0 <= k < n implies #[trigger] wc[k] == if w[k] < idx + 2 {
                    lw[w[k] as int]
                } else {
                    w[k]
                } by {
                    if w[k] < idx {
                        assert(wc0[k] == lw0[w[k] as int]);
                        assert(lw0[w[k] as int] < idx);
                    }
                }
            }
            swapped = true;
        } else {
            let op1 = FrobeniusOperation::Identity(types_now[idx]);
            let op2 = FrobeniusOperation::Identity(types_now[idx + 1]);
            let ghost lw0 = layer_wires(ops@);
            proof {
                lemma_ops_push(ops@, op1);
                lemma_ops_push(ops@.push(op1), op2);
                lemma_wires_push(ops@, op1);
                lemma_wires_push(ops@.push(op1), op2);
            }
            ops.push(op1);
            ops.push(op2);
            proof {
                let lw = layer_wires(ops@);
                assert(lw =~= lw0 + seq![idx as usize, (idx + 1) as usize]);
                assert(a != b);
                assert(ops_sources(ops@) =~= tb.subrange(0, idx + 2));
                assert(ops_targets(ops@) =~= types_now@.subrange(0, idx + 2));
            }
        }
        proof {
            assert forall|k: int| 0 <= k && k + 1 < idx + 2 && k % 2 == start implies #[trigger] pair_in_order(
                perm_values(*p_rem),
                k,
            ) by {
                if k < idx {
                    assert(pair_in_order(pc, k));
                }
            }
        }
        idx = idx + 2;
    }
    if idx < n {
        let op = FrobeniusOperation::Identity(types_now[idx]);
        let ghost lw0 = layer_wires(ops@);
        proof {
            lemma_ops_push(ops@, op);
            lemma_wires_push(ops@, op);
        }
        ops.push(op);
        proof {
            assert(ops_sources(ops@) =~= tb.subrange(0, n as int));
            assert(ops_targets(ops@) =~= types_now@.subrange(0, n as int));
            assert(layer_wires(ops@) =~= lw0.push(idx as usize));
        }
    }
    proof {
        assert(tb.subrange(0, n as int) =~= tb);
        assert(types_now@.subrange(0, n as int) =~= types_now@);
    }
    let layer = FrobeniusLayer::rebuild_from_ops(ops);
    proof {
        assert(wc =~= Seq::new(w.len(), |k: int| layer_wires(layer.ops())[w[k] as int]));
        if !swapped {
            assert(wc =~= w);
        }
    }
    (layer, swapped, Ghost(wc))
}

/// Hands a black-box label back unchanged.
pub fn keep<B>(l: B) -> (r: B)
    ensures
        r == l,
{
    l
}

/// Flipping keeps every generator an identity or a braiding.
proof fn lemma_flip_swap_ops<L: Label, B>(
    d: Seq<Seq<FrobeniusOperation<L, B>>>,
    e: Seq<Seq<FrobeniusOperation<L, B>>>,
)
    requires
        all_swap_ops(d),
        e.len() == d.len(),
        forall|i: int|
            0 <= i < d.len() ==> crate::frobenius::all_flipped(d[d.len() - 1 - i], #[trigger] e[i], keep::<B>),
    ensures
        all_swap_ops(e),
{
    assert forall|i: int, j: int| 0 <= i < e.len() && 0 <= j < e[i].len() implies is_swap_op(#[trigger] e[i][j]) by {
        let k = d.len() - 1 - i;
        assert(crate::frobenius::all_flipped(d[k], e[i], keep::<B>));
        assert(crate::frobenius::is_flipped_op(d[k][j], e[i][j], keep::<B>));
        assert(is_swap_op(d[k][j]));
    }
}

/// Adding a layer of identities and braidings keeps the property.
proof fn lemma_push_swap_layer<L: Label, B>(layers: Seq<FrobeniusLayer<L, B>>, l: FrobeniusLayer<L, B>)
    requires
        all_swap_ops(layer_views(layers)),
        forall|j: int| 0 <= j < l.ops().len() ==> is_swap_op(#[trigger] l.ops()[j]),
        crate::frobenius::chained(layer_views(layers)),
        layers.len() > 0 ==> ops_targets(layers.last().ops()) == ops_sources(l.ops()),
    ensures
        all_swap_ops(layer_views(layers.push(l))),
        layers.len() > 0 ==> layers.push(l)[0] == layers[0],
        layers.push(l).last() == l,
        crate::frobenius::chained(layer_views(layers.push(l))),
{
    let d = layer_views(layers.push(l));
    assert forall|i: int| 0 <= i < d.len() - 1 implies ops_targets(#[trigger] d[i]) == ops_sources(d[i + 1]) by {
        if i + 1 < layers.len() {
            assert(d[i] == layer_views(layers)[i] && d[i + 1] == layer_views(layers)[i + 1]);
        } else {
            assert(d[i] == layers.last().ops());
            assert(d[i + 1] == l.ops());
        }
    }
    assert forall|i: int, j: int| 0 <= i < d.len() && 0 <= j < d[i].len() implies is_swap_op(#[trigger] d[i][j]) by {
        if i < layers.len() {
            assert(d[i] == layer_views(layers)[i]);
        } else {
            assert(d[i] == l.ops());
        }
    }
}

/// When neither pass exchanged anything, every adjacent pair is in order,
/// so the permutation is the identity.
proof fn lemma_no_swap_identity(mid: Seq<usize>, end: Seq<usize>, n: nat)
    requires
        n >= 2,
        mid == end,
        is_permutation_of(end, n),
        forall|k: int| 0 <= k && k + 1 < n && k % 2 == 0 ==> #[trigger] pair_in_order(mid, k),
        forall|k: int| 0 <= k && k + 1 < n && k % 2 == 1 ==> #[trigger] pair_in_order(end, k),
    ensures
        end == Seq::new(n, |i: int| i as usize),
{
    assert forall|i: int| 0 <= i && i + 1 < n implies #[trigger] pair_in_order(end, i) by {
        if i % 2 == 0 {
            assert(pair_in_order(mid, i));
        } else {
            assert(pair_in_order(end, i));
        }
    }
    lemma_ascending_identity(end, n);
    assert(end =~= Seq::new(n, |i: int| i as usize));
}

/// The layers so far start at `t0`, end at the current word, and hold only
/// identities and braidings.
#[verifier::opaque]
pub open spec fn layers_chain<L: Label, B>(layers: Seq<FrobeniusLayer<L, B>>, t0: Seq<L>, t: Seq<L>) -> bool {
    &&& layers.len() == 0 ==> t == t0
    &&& layers.len() > 0 ==> ops_sources(layers[0].ops()) == t0
    &&& layers.len() > 0 ==> ops_targets(layers.last().ops()) == t
    &&& all_swap_ops(layer_views(layers))
    &&& crate::frobenius::chained(layer_views(layers))
}

/// Following each wire through the layers ends where `w` says: wire `k`
/// entering at position `k` comes out at position `w[k]`.
pub open spec fn wires_follow<L: Label, B>(layers: Seq<FrobeniusLayer<L, B>>, w: Seq<usize>) -> bool {
    forall|k: int| 0 <= k < w.len() ==> #[trigger] wire_end(layer_views(layers), k) == w[k]
}

/// A layer of identities on `n` wires keeps every wire in place.
proof fn lemma_identity_wires<L: Label, B>(t: Seq<L>)
    ensures
        layer_wires(Seq::new(t.len(), |i: int| FrobeniusOperation::<L, B>::Identity(t[i]))) == Seq::new(
            t.len(),
            |i: int| i as usize,
        ),
    decreases t.len(),
{
    let ops = Seq::new(t.len(), |i: int| FrobeniusOperation::<L, B>::Identity(t[i]));
    if t.len() > 0 {
        let t1 = t.drop_last();
        lemma_identity_wires::<L, B>(t1);
        assert(ops.drop_last() =~= Seq::new(t1.len(), |i: int| FrobeniusOperation::<L, B>::Identity(t1[i])));
        assert(ops.last() == FrobeniusOperation::<L, B>::Identity(t.last()));
        assert(layer_wires(ops) =~= Seq::new(t.len(), |i: int| i as usize));
    } else {
        assert(layer_wires(ops) =~= Seq::new(t.len(), |i: int| i as usize));
    }
}

/// A layer of identities and braidings sends each position to a position of
/// the layer, and following it twice comes back.
proof fn lemma_swap_wires<L: Label, B>(ops: Seq<FrobeniusOperation<L, B>>)
    requires
        forall|j: int| 0 <= j < ops.len() ==> is_swap_op(#[trigger] ops[j]),
        ops_sources(ops).len() <= usize::MAX,
    ensures
        layer_wires(ops).len() == ops_sources(ops).len(),
        ops_targets(ops).len() == ops_sources(ops).len(),
        forall|q: int|
            0 <= q < layer_wires(ops).len() ==> #[trigger] layer_wires(ops)[q] < layer_wires(ops).len()
                && layer_wires(ops)[layer_wires(ops)[q] as int] == q,
    decreases ops.len(),
{
    if ops.len() > 0 {
        let o = ops.drop_last();
        assert forall|j: int| 0 <= j < o.len() implies is_swap_op(#[trigger] o[j]) by {
            assert(o[j] == ops[j]);
        }
        assert(ops_sources(ops) == ops_sources(o) + op_sources(ops.last()));
        lemma_swap_wires(o);
        assert(is_swap_op(ops[ops.len() - 1]));
        let w = layer_wires(o);
        let lw = layer_wires(ops);
        let p = w.len() as int;
        if ops.last() is SymmetricBraiding {
            assert(lw == w + seq![(p + 1) as usize, p as usize]);
            assert(lw[p] == p + 1);
            assert(lw[p + 1] == p);
        } else {
            assert(lw == w + range_seq(p, p + 1));
            assert(lw[p] == p);
        }
        assert forall|q: int| 0 <= q < lw.len() implies #[trigger] lw[q] < lw.len() && lw[lw[q] as int] == q by {
            if q < p {
                assert(lw[q] == w[q]);
                assert(lw[w[q] as int] == w[w[q] as int]);
            }
        }
    }
}

/// Turning a layer of identities and braidings upside down keeps where each
/// position goes.
proof fn lemma_flip_wires<L: Label, B>(a: Seq<FrobeniusOperation<L, B>>, b: Seq<FrobeniusOperation<L, B>>)
    requires
        crate::frobenius::all_flipped(a, b, keep::<B>),
        forall|j: int| 0 <= j < a.len() ==> is_swap_op(#[trigger] a[j]),
    ensures
        layer_wires(b) == layer_wires(a),
    decreases a.len(),
{
    if a.len() > 0 {
        let a1 = a.drop_last();
        let b1 = b.drop_last();
        assert(crate::frobenius::all_flipped(a1, b1, keep::<B>)) by {
            assert forall|i: int| 0 <= i < a1.len() implies crate::frobenius::is_flipped_op(a1[i], #[trigger] b1[i], keep::<B>) by {
                assert(a1[i] == a[i] && b1[i] == b[i]);
            }
        }
        assert forall|j: int| 0 <= j < a1.len() implies is_swap_op(#[trigger] a1[j]) by {
            assert(a1[j] == a[j]);
        }
        lemma_flip_wires(a1, b1);
        let k = a.len() - 1;
        assert(crate::frobenius::is_flipped_op(a[k], b[k], keep::<B>));
        assert(is_swap_op(a[k]));
    }
}

/// Following a wire through a nonempty diagram is following it through the
/// first layer, then through the rest.
proof fn lemma_wire_end_first<L: Label, B>(d: Seq<Seq<FrobeniusOperation<L, B>>>, k: int)
    requires
        d.len() > 0,
    ensures
        wire_end(d, k) == wire_end(d.drop_first(), layer_wires(d[0])[k] as int),
    decreases d.len(),
{
    if d.len() == 1 {
        assert(d.drop_last() =~= Seq::<Seq<FrobeniusOperation<L, B>>>::empty());
        assert(d.drop_first() =~= Seq::<Seq<FrobeniusOperation<L, B>>>::empty());
        assert(wire_end(d.drop_last(), k) == k);
        assert(d.last() == d[0]);
        assert(wire_end(d.drop_first(), layer_wires(d[0])[k] as int) == layer_wires(d[0])[k] as int);
    } else {
        lemma_wire_end_first(d.drop_last(), k);
        assert(d.drop_last().drop_first() =~= d.drop_first().drop_last());
        assert(d.drop_last()[0] == d[0]);
        assert(d.drop_first().last() == d.last());
    }
}

/// In a diagram of identities and braidings on `n` wires, a wire followed
/// down the diagram and then up the diagram turned upside down comes back.
proof fn lemma_flip_wire_end<L: Label, B>(d: Seq<Seq<FrobeniusOperation<L, B>>>, e: Seq<Seq<FrobeniusOperation<L, B>>>, n: nat, k: int)
    requires
        n <= usize::MAX,
        flipped_diagram(d, e),
        all_swap_ops(d),
        forall|i: int| 0 <= i < d.len() ==> ops_sources(#[trigger] d[i]).len() == n,
        0 <= k < n,
    ensures
        0 <= wire_end(d, k) < n,
        wire_end(e, wire_end(d, k)) == k,
    decreases d.len(),
{
    if d.len() > 0 {
        let m = d.len();
        let d1 = d.drop_first();
        let e1 = e.drop_last();
        assert forall|j: int| 0 <= j < d[0].len() implies is_swap_op(#[trigger] d[0][j]) by {
            assert(is_swap_op(d[0][j]));
        }
        lemma_swap_wires(d[0]);
        let w0 = layer_wires(d[0]);
        assert(ops_sources(d[0]).len() == n);
        assert(flipped_diagram(d1, e1)) by {
            assert forall|i: int| 0 <= i < d1.len() implies crate::frobenius::all_flipped(
                d1[d1.len() - 1 - i],
                #[trigger] e1[i],
                keep::<B>,
            ) by {
                assert(d1[d1.len() - 1 - i] == d[m - 1 - i]);
                assert(e1[i] == e[i]);
            }
        }
        assert(all_swap_ops(d1)) by {
            assert forall|i: int, j: int| 0 <= i < d1.len() && 0 <= j < d1[i].len() implies is_swap_op(#[trigger] d1[i][j]) by {
                assert(d1[i] == d[i + 1]);
            }
        }
        assert forall|i: int| 0 <= i < d1.len() implies ops_sources(#[trigger] d1[i]).len() == n by {
            assert(d1[i] == d[i + 1]);
        }
        lemma_wire_end_first(d, k);
        lemma_flip_wire_end(d1, e1, n, w0[k] as int);
        assert(crate::frobenius::all_flipped(d[0], e[m - 1], keep::<B>));
        lemma_flip_wires(d[0], e[m - 1]);
        assert(e.last() == e[m - 1]);
    }
}

/// Every layer of a diagram of identities and braidings whose layers follow
/// each other has as many inputs as the diagram's domain.
proof fn lemma_swap_widths<L: Label, B>(d: Seq<Seq<FrobeniusOperation<L, B>>>, i: int)
    requires
        diagram_dom(d).len() <= usize::MAX,
        all_swap_ops(d),
        crate::frobenius::chained(d),
        0 <= i < d.len(),
    ensures
        ops_sources(d[i]).len() == diagram_dom(d).len(),
    decreases i,
{
    if i > 0 {
        lemma_swap_widths(d, i - 1);
        assert forall|j: int| 0 <= j < d[i - 1].len() implies is_swap_op(#[trigger] d[i - 1][j]) by {
            assert(is_swap_op(d[i - 1][j]));
        }
        lemma_swap_wires(d[i - 1]);
        assert(ops_targets(d[i - 1]) == ops_sources(d[i - 1 + 1]));
    }
}

/// One pass, its layer kept when it exchanged something.
#[verifier::rlimit(60)]
fn pass_and_keep<Lambda: Label, B>(
    types_now: Vec<Lambda>,
    p_rem: Permutation,
    layers: Vec<FrobeniusLayer<Lambda, B>>,
    start: usize,
    Ghost(w): Ghost<Seq<usize>>,
    Ghost(t0): Ghost<Seq<Lambda>>,
    Ghost(p0): Ghost<Seq<usize>>,
) -> (r: (Vec<Lambda>, Permutation, Vec<FrobeniusLayer<Lambda, B>>, bool, Ghost<Seq<usize>>))
    requires
        start <= 1,
        types_now@.len() >= 2,
        types_now@.len() == t0.len(),
        is_permutation_of(perm_values(p_rem), types_now@.len()),
        tracks(types_now@, perm_values(p_rem), w, t0, p0),
        layers_chain(layers@, t0, types_now@),
        wires_follow(layers@, w),
    ensures
        r.0@.len() == types_now@.len(),
        is_permutation_of(perm_values(r.1), types_now@.len()),
        tracks(r.0@, perm_values(r.1), r.4@, t0, p0),
        layers_chain(r.2@, t0, r.0@),
        wires_follow(r.2@, r.4@),
        r.3 ==> r.2@.len() > 0,
        !r.3 ==> r.2@ == layers@,
        !r.3 ==> perm_values(r.1) == perm_values(p_rem),
        r.3 ==> weight(perm_values(r.1), types_now@.len() as int) > weight(perm_values(p_rem), types_now@.len() as int),
        forall|k: int|
            0 <= k && k + 1 < types_now@.len() && k % 2 == start ==> #[trigger] pair_in_order(perm_values(r.1), k),
{
    let mut t = types_now;
    let mut p = p_rem;
    let mut ls = layers;
    let (l, swapped, Ghost(w1)) = sort_pass::<Lambda, B>(&mut t, &mut p, start, Ghost(w), Ghost(t0), Ghost(p0));
    proof {
        reveal(layers_chain);
    }
    let ghost ls0 = ls@;
    if swapped {
        proof {
            lemma_push_swap_layer(ls@, l);
        }
        ls.push(l);
        proof {
            let v = layer_views(ls@);
            assert(v.drop_last() =~= layer_views(ls0));
            assert(v.last() == l.ops());
            assert forall|k: int| 0 <= k < w1.len() implies #[trigger] wire_end(layer_views(ls@), k) == w1[k] by {
                assert(wire_end(layer_views(ls0), k) == w[k]);
            }
        }
    }
    (t, p, ls, swapped, Ghost(w1))
}

/// One round of odd-even transposition sort on a permutation that is not
/// yet the identity: an even pass and an odd pass, each layer kept when it
/// exchanged something. The weight of the permutation goes up.
fn sort_round<Lambda: Label, B>(
    types_now: Vec<Lambda>,
    p_rem: Permutation,
    layers: Vec<FrobeniusLayer<Lambda, B>>,
    Ghost(w): Ghost<Seq<usize>>,
    Ghost(t0): Ghost<Seq<Lambda>>,
    Ghost(p0): Ghost<Seq<usize>>,
) -> (r: (Vec<Lambda>, Permutation, Vec<FrobeniusLayer<Lambda, B>>, Ghost<Seq<usize>>))
    requires
        types_now@.len() >= 2,
        types_now@.len() == t0.len(),
        is_permutation_of(perm_values(p_rem), types_now@.len()),
        tracks(types_now@, perm_values(p_rem), w, t0, p0),
        layers_chain(layers@, t0, types_now@),
        wires_follow(layers@, w),
        perm_values(p_rem) != Seq::new(types_now@.len(), |i: int| i as usize),
    ensures
        r.0@.len() == types_now@.len(),
        is_permutation_of(perm_values(r.1), types_now@.len()),
        tracks(r.0@, perm_values(r.1), r.3@, t0, p0),
        layers_chain(r.2@, t0, r.0@),
        wires_follow(r.2@, r.3@),
        r.2@.len() > 0,
        weight(perm_values(r.1), types_now@.len() as int) > weight(perm_values(p_rem), types_now@.len() as int),
{
    let ghost n = types_now@.len();
    let ghost pv0 = perm_values(p_rem);
    let (t1, p1, ls1, s1, Ghost(w1)) = pass_and_keep(types_now, p_rem, layers, 0, Ghost(w), Ghost(t0), Ghost(p0));
    let ghost pv_mid = perm_values(p1);
    let (t2, p2, ls2, s2, Ghost(w2)) = pass_and_keep(t1, p1, ls1, 1, Ghost(w1), Ghost(t0), Ghost(p0));
    proof {
        if !s1 && !s2 {
            lemma_no_swap_identity(pv_mid, perm_values(p2), n);
        }
    }
    (t2, p2, ls2, Ghost(w2))
}

/// The braid diagram that sorts `types` by `p` with odd-even transposition
/// sort: domain `types`, and codomain position `p(i)` carrying `types[i]`.
/// The identity permutation gives one layer of identities.
#[verifier::rlimit(60)]
fn braid_diagram<Lambda: Label, B>(p: Permutation, types: &[Lambda]) -> (r: FrobeniusMorphism<Lambda, B>)
    requires
        perm_values(p).len() == types@.len(),
    ensures
        r.dom() == types@,
        r.cod().len() == types@.len(),
        forall|i: int| 0 <= i < types@.len() ==> r.cod()[#[trigger] perm_values(p)[i] as int] == types@[i],
        all_swap_ops(r.diagram()),
        r.diagram().len() > 0,
        crate::frobenius::chained(r.diagram()),
        forall|i: int| 0 <= i < types@.len() ==> #[trigger] wire_end(r.diagram(), i) == perm_values(p)[i],
{
    let n = types.len();
    let _ = perm_len(&p);
    let ghost p0 = perm_values(p);
    let id = perm_identity(n);
    if perm_eq(&p, &id) {
        let t = copy_vec(types);
        let r = FrobeniusMorphism::identity(&t);
        proof {
            lemma_identity_wires::<Lambda, B>(t@);
            assert(r.diagram().drop_last() =~= Seq::<Seq<FrobeniusOperation<Lambda, B>>>::empty());
            let d = r.diagram();
            assert(d.last() == Seq::new(t@.len(), |i: int| FrobeniusOperation::<Lambda, B>::Identity(t@[i])));
            assert forall|i: int| 0 <= i < types@.len() implies #[trigger] wire_end(r.diagram(), i) == perm_values(p)[i] by {
                assert(wire_end(d.drop_last(), i) == i);
                assert(layer_wires(d.last())[i] == i);
                assert(perm_values(p) == perm_values(id));
                assert(perm_values(p)[i] == i);
            }
            assert forall|i: int, j: int| 0 <= i < r.diagram().len() && 0 <= j < r.diagram()[i].len() implies is_swap_op(
                #[trigger] r.diagram()[i][j],
            ) by {
                assert(i == 0);
            }
        }
        return r;
    }
    proof {
        if n < 2 {
            if n == 1 {
                assert(p0[0] == 0);
            }
            assert(p0 =~= perm_values(id));
        }
    }
    let mut types_now = copy_vec(types);
    let mut p_rem = p;
    let mut layers: Vec<FrobeniusLayer<Lambda, B>> = Vec::new();
    let ghost mut w: Seq<usize> = Seq::new(n as nat, |k: int| k as usize);
    let mut done = false;
    proof {
        reveal(tracks);
        reveal(layers_chain);
        assert(tracks(types_now@, perm_values(p_rem), w, types@, p0));
        assert(all_swap_ops(layer_views(layers@)));
    }
    while !done
        invariant
            n == types_now@.len(),
            n == types@.len(),
            n >= 2,
            p0.len() == n,
            is_permutation_of(perm_values(p_rem), n as nat),
            tracks(types_now@, perm_values(p_rem), w, types@, p0),
            layers_chain(layers@, types@, types_now@),
            wires_follow(layers@, w),
            done ==> perm_values(p_rem) == Seq::new(n as nat, |i: int| i as usize) && layers@.len() > 0,
            !done ==> perm_values(p_rem) != Seq::new(n as nat, |i: int| i as usize),
        decreases n * n * n - weight(perm_values(p_rem), n as int),
    {
        proof {
            lemma_weight_bound(perm_values(p_rem), n as int, n as int);
        }
        let (t_next, p_next, l_next, Ghost(w_next)) = sort_round(types_now, p_rem, layers, Ghost(w), Ghost(types@), Ghost(p0));
        types_now = t_next;
        p_rem = p_next;
        layers = l_next;
        proof {
            w = w_next;
            lemma_weight_bound(perm_values(p_rem), n as int, n as int);
        }
        let id2 = perm_identity(n);
        done = perm_eq(&p_rem, &id2);
    }
    let r = FrobeniusMorphism::from_layers(layers);
    proof {
        reveal(tracks);
        reveal(layers_chain);
        let d = r.diagram();
        assert(d[0] == layers@[0].ops());
        assert(d.last() == layers@.last().ops());
        assert forall|i: int| 0 <= i < n implies r.cod()[#[trigger] p0[i] as int] == types@[i] by {
            assert(w[i] < n);
            assert(perm_values(p_rem)[w[i] as int] == w[i]);
        }
        assert forall|i: int| 0 <= i < types@.len() implies #[trigger] wire_end(r.diagram(), i) == perm_values(p)[i] by {
            assert(w[i] < n);
            assert(perm_values(p_rem)[w[i] as int] == w[i]);
            assert(wire_end(layer_views(layers@), i) == w[i]);
        }
    }
    r
}

/// `d` is a nonempty diagram of identities and braidings from `t` to `t`
/// reordered by `p`.
pub open spec fn braids_permuting<L: Label, B>(d: Seq<Seq<FrobeniusOperation<L, B>>>, t: Seq<L>, p: Seq<usize>) -> bool {
    &&& all_swap_ops(d)
    &&& d.len() > 0
    &&& crate::frobenius::diagram_dom(d) == t
    &&& crate::frobenius::diagram_cod(d) == permuted(t, p)
}

/// `b` is `a` upside down: its layers in reverse order, each flipped.
pub open spec fn flipped_diagram<L: Label, B>(a: Seq<Seq<FrobeniusOperation<L, B>>>, b: Seq<Seq<FrobeniusOperation<L, B>>>) -> bool {
    &&& b.len() == a.len()
    &&& forall|i: int| 0 <= i < a.len() ==> crate::frobenius::all_flipped(a[a.len() - 1 - i], #[trigger] b[i], keep::<B>)
}

/// Turning a diagram upside down twice gives it back: the same generators
/// layer by layer, a black box with the same label and the same words.
pub proof fn law_flip_involution<L: Label, B>(
    a: Seq<Seq<FrobeniusOperation<L, B>>>,
    b: Seq<Seq<FrobeniusOperation<L, B>>>,
    c: Seq<Seq<FrobeniusOperation<L, B>>>,
)
    requires
        flipped_diagram(a, b),
        flipped_diagram(b, c),
    ensures
        c.len() == a.len(),
        forall|i: int| 0 <= i < a.len() ==> (#[trigger] c[i]).len() == a[i].len(),
        forall|i: int, j: int|
            0 <= i < a.len() && 0 <= j < a[i].len() ==> {
                &&& !(a[i][j] is UnSpecifiedBox) ==> #[trigger] c[i][j] == a[i][j]
                &&& a[i][j] matches FrobeniusOperation::UnSpecifiedBox(l, s, t) ==> (c[i][j] matches FrobeniusOperation::UnSpecifiedBox(
                    l3,
                    s3,
                    t3,
                ) && l3 == l && s3@ == s@ && t3@ == t@)
            },
{
    let n = a.len();
    assert forall|i: int| 0 <= i < n implies (#[trigger] c[i]).len() == a[i].len() by {
        assert(crate::frobenius::all_flipped(b[n - 1 - i], c[i], keep::<B>));
        assert(crate::frobenius::all_flipped(a[n - 1 - (n - 1 - i)], b[n - 1 - i], keep::<B>));
    }
    assert forall|i: int, j: int| 0 <= i < n && 0 <= j < a[i].len() implies {
        &&& !(a[i][j] is UnSpecifiedBox) ==> #[trigger] c[i][j] == a[i][j]
        &&& a[i][j] matches FrobeniusOperation::UnSpecifiedBox(l, s, t) ==> (c[i][j] matches FrobeniusOperation::UnSpecifiedBox(
            l3,
            s3,
            t3,
        ) && l3 == l && s3@ == s@ && t3@ == t@)
    } by {
        let k = n - 1 - i;
        assert(crate::frobenius::all_flipped(b[k], c[i], keep::<B>));
        assert(crate::frobenius::all_flipped(a[n - 1 - k], b[k], keep::<B>));
        assert(n - 1 - k == i);
        assert(crate::frobenius::is_flipped_op(a[i][j], b[k][j], keep::<B>));
        assert(crate::frobenius::is_flipped_op(b[k][j], c[i][j], keep::<B>));
    }
}

/// The braid diagram of `q = p⁻¹` reorders its domain by `p`.
proof fn lemma_inverse_braids<L: Label, B>(d: Seq<Seq<FrobeniusOperation<L, B>>>, t: Seq<L>, p: Seq<usize>, q: Seq<usize>)
    requires
        all_swap_ops(d),
        d.len() > 0,
        crate::frobenius::diagram_dom(d) == t,
        crate::frobenius::diagram_cod(d).len() == t.len(),
        forall|i: int| 0 <= i < t.len() ==> crate::frobenius::diagram_cod(d)[#[trigger] q[i] as int] == t[i],
        p.len() == t.len(),
        is_permutation_of(p, t.len()),
        forall|i: int| 0 <= i < p.len() ==> q[#[trigger] p[i] as int] == i,
    ensures
        braids_permuting(d, t, p),
{
    let c = crate::frobenius::diagram_cod(d);
    assert forall|j: int| 0 <= j < t.len() implies c[j] == permuted(t, p)[j] by {
        assert(q[p[j] as int] == j);
        assert(c[q[p[j] as int] as int] == t[p[j] as int]);
    }
    assert(c =~= permuted(t, p));
}

impl<Lambda: Label, B> SymmetricMonoidalMorphism<Lambda> for FrobeniusMorphism<Lambda, B> {
    open spec fn permutable(&self, p: Seq<usize>, of_codomain: bool) -> bool {
        p.len() == (if of_codomain {
            self.cod().len()
        } else {
            self.dom().len()
        })
    }

    open spec fn permutation_fits(p: Seq<usize>, types: Seq<Lambda>) -> bool {
        p.len() == types.len()
    }

    /// Composes with the braid diagram of `p⁻¹` on the codomain (see
    /// `from_permutation`), which reorders the codomain by `p`, the layers
    /// appended one by one as `compose` does; on the domain side, flips the
    /// diagram, does so, and flips back.
    fn permute_side(&mut self, p: &Permutation, of_codomain: bool)
        ensures
            of_codomain ==> exists|d: Seq<Seq<FrobeniusOperation<Lambda, B>>>|
                braids_permuting(d, old(self).cod(), perm_values(*p)) && final(self).diagram()
                    == crate::frobenius::frob_compose_layers(old(self).diagram(), d).0,
            !of_codomain ==> exists|
                m: Seq<Seq<FrobeniusOperation<Lambda, B>>>,
                d: Seq<Seq<FrobeniusOperation<Lambda, B>>>,
            |
                #![trigger flipped_diagram(old(self).diagram(), m), braids_permuting(d, old(self).dom(), perm_values(*p))]
                flipped_diagram(old(self).diagram(), m) && braids_permuting(d, old(self).dom(), perm_values(*p))
                    && flipped_diagram(crate::frobenius::frob_compose_layers(m, d).0, final(self).diagram()),
    {
        let _ = perm_len(p);
        let ghost pv = perm_values(*p);
        if of_codomain {
            let q = perm_inv(p);
            let cod = self.codomain();
            let p_frob: FrobeniusMorphism<Lambda, B> = braid_diagram(q, cod.as_slice());
            let ghost d = p_frob.diagram();
            proof {
                lemma_inverse_braids(d, cod@, pv, perm_values(q));
            }
            let _ = self.compose(p_frob);
        } else {
            let ghost d0 = self.diagram();
            self.hflip(&keep);
            let ghost m = self.diagram();
            let q = perm_inv(p);
            let cod = self.codomain();
            let p_frob: FrobeniusMorphism<Lambda, B> = braid_diagram(q, cod.as_slice());
            let ghost d = p_frob.diagram();
            proof {
                lemma_inverse_braids(d, cod@, pv, perm_values(q));
            }
            let _ = self.compose(p_frob);
            let ghost c = self.diagram();
            self.hflip(&keep);
            proof {
                assert(flipped_diagram(d0, m));
                assert(flipped_diagram(c, self.diagram()));
                assert(braids_permuting(d, crate::frobenius::diagram_dom(d0), pv));
            }
        }
    }

    /// The braid diagram of `p`, built by odd-even transposition sort: the
    /// wire entering at position `i` leaves at position `p(i)`. With `types`
    /// on the domain, codomain position `p(i)` carries `types[i]`; with
    /// `types` on the codomain, domain position `i` carries `types[p(i)]`.
    /// Every generator is an identity or a braiding.
    fn from_permutation(p: Permutation, types: &[Lambda], types_as_on_domain: bool) -> (r: Result<Self, CatgraphError>)
        ensures
            r matches Ok(m) && {
                &&& all_swap_ops(m.diagram())
                &&& m.diagram().len() > 0
                &&& types_as_on_domain ==> crate::frobenius::chained(m.diagram())
                &&& types_as_on_domain ==> forall|i: int|
                    0 <= i < types@.len() ==> #[trigger] wire_end(m.diagram(), i) == perm_values(p)[i]
                &&& types_as_on_domain ==> {
                    &&& m.dom() == types@
                    &&& m.cod().len() == types@.len()
                    &&& forall|i: int| 0 <= i < types@.len() ==> m.cod()[#[trigger] perm_values(p)[i] as int] == types@[i]
                }
                &&& !types_as_on_domain ==> {
                    &&& m.cod() == types@
                    &&& m.dom() == permuted(types@, perm_values(p))
                    &&& forall|i: int|
                        0 <= i < types@.len() ==> #[trigger] wire_end(m.diagram(), i) == perm_values(p)[i]
                }
            },
    {
        if !types_as_on_domain {
            let _ = perm_len(&p);
            let q = perm_inv(&p);
            let mut answer: Self = braid_diagram(q, types);
            let ghost before = answer.diagram();
            answer.hflip(&keep);
            proof {
                lemma_flip_swap_ops(before, answer.diagram());
                let pv = perm_values(p);
                let qv = perm_values(q);
                assert forall|j: int| 0 <= j < types@.len() implies answer.dom()[j] == permuted(types@, pv)[j] by {
                    assert(qv[pv[j] as int] == j);
                }
                assert(answer.dom() =~= permuted(types@, pv));
                let n = types@.len();
                assert(flipped_diagram(before, answer.diagram()));
                assert forall|i: int| 0 <= i < before.len() implies ops_sources(#[trigger] before[i]).len() == n by {
                    lemma_swap_widths(before, i);
                }
                assert forall|i: int| 0 <= i < n implies #[trigger] wire_end(answer.diagram(), i) == pv[i] by {
                    let j = pv[i] as int;
                    assert(qv[j] == i);
                    assert(wire_end(before, j) == qv[j]);
                    lemma_flip_wire_end(before, answer.diagram(), n, j);
                }
            }
            return Ok(answer);
        }
        Ok(braid_diagram(p, types))
    }
}

/// Diagrams placed side by side one after the other with `monoidal`.
pub open spec fn monoidal_fold<L: Label, B>(ds: Seq<Seq<Seq<FrobeniusOperation<L, B>>>>) -> Seq<
    Seq<FrobeniusOperation<L, B>>,
>
    decreases ds.len(),
{
    if ds.len() == 0 {
        Seq::empty()
    } else {
        frob_monoidal(monoidal_fold(ds.drop_last()), ds.last())
    }
}

/// The pieces of run `n` of the injection with runs `c`, starting at
/// target position `pos`: one identity diagram on the targets of an
/// identity run, one unit per target of a gap.
pub open spec fn run_pieces<L: Label, B>(c: Seq<usize>, t: Seq<L>, n: int, pos: int) -> Seq<
    Seq<Seq<FrobeniusOperation<L, B>>>,
> {
    if n % 2 == 0 {
        seq![seq![identity_ops::<L, B>(t.subrange(pos, pos + c[n]))]]
    } else {
        Seq::new(c[n] as nat, |k: int| seq![seq![FrobeniusOperation::<L, B>::Unit(t[pos + k])]])
    }
}

/// The pieces of the first `n` runs of the injection with runs `c` onto `t`.
pub open spec fn runs_upto<L: Label, B>(c: Seq<usize>, t: Seq<L>, n: int) -> Seq<Seq<Seq<FrobeniusOperation<L, B>>>>
    decreases n,
{
    if n <= 0 {
        Seq::empty()
    } else {
        runs_upto(c, t, n - 1) + run_pieces(c, t, n - 1, inj_state(c.subrange(0, n - 1)).1 as int)
    }
}

/// Pushing one more diagram folds it in.
proof fn lemma_fold_push<L: Label, B>(ds: Seq<Seq<Seq<FrobeniusOperation<L, B>>>>, d: Seq<Seq<FrobeniusOperation<L, B>>>)
    ensures
        monoidal_fold(ds.push(d)) == frob_monoidal(monoidal_fold(ds), d),
{
    assert(ds.push(d).drop_last() =~= ds);
}

/// The diagram of an order-preserving injection with runs `counts` onto
/// the labels `target`: identities on each identity run and a unit on each
/// element of each gap, side by side.
#[verifier::spinoff_prover]
#[verifier::rlimit(60)]
fn embed_runs<Lambda: Label, B>(counts: &[usize], target: &[Lambda]) -> (r: FrobeniusMorphism<Lambda, B>)
    requires
        inj_codomain(counts@) <= target@.len(),
    ensures
        r.diagram() == monoidal_fold(runs_upto::<Lambda, B>(counts@, target@, counts@.len() as int)),
        chained(r.diagram()),
        all_quiet(r.diagram()),
        diagram_dom(r.diagram()) == inj_labels(counts@, target@),
        diagram_cod(r.diagram()) == target@.subrange(0, inj_codomain(counts@) as int),
{
    let mut inj_part_frob: FrobeniusMorphism<Lambda, B> = FrobeniusMorphism::new();
    let mut target_number: usize = 0;
    let mut n: usize = 0;
    proof {
        assert(monoidal_fold(runs_upto::<Lambda, B>(counts@, target@, 0)) =~= inj_part_frob.diagram());
    }
    while n < counts.len()
        invariant
            n <= counts@.len(),
            inj_codomain(counts@) <= target@.len(),
            target_number == inj_state(counts@.subrange(0, n as int)).1,
            inj_part_frob.diagram() == monoidal_fold(runs_upto::<Lambda, B>(counts@, target@, n as int)),
            chained(inj_part_frob.diagram()),
            all_quiet(inj_part_frob.diagram()),
            layers_within(inj_part_frob.diagram(), target_number as nat),
            diagram_dom(inj_part_frob.diagram()) == inj_labels(counts@.subrange(0, n as int), target@),
            diagram_cod(inj_part_frob.diagram()) == target@.subrange(0, target_number as int),
        decreases counts@.len() - n,
    {
        let c = counts[n];
        let tl = target.len();
        proof {
            crate::finset::lemma_inj_state_prefix(counts@, n as int);
            crate::finset::lemma_inj_codomain_grows(counts@, n + 1);
            assert(inj_state(counts@.subrange(0, n + 1)).1 == target_number + c);
            assert(target_number + c <= tl);
        }
        let ghost before = runs_upto::<Lambda, B>(counts@, target@, n as int);
        let ghost pieces = run_pieces::<Lambda, B>(counts@, target@, n as int, target_number as int);
        if n % 2 == 0 {
            let cur_iden_type = copy_vec(&target[target_number..target_number + c]);
            let piece: FrobeniusMorphism<Lambda, B> = FrobeniusMorphism::identity(&cur_iden_type);
            proof {
                assert(cur_iden_type@ =~= target@.subrange(target_number as int, target_number + c));
                assert(piece.diagram() =~= pieces[0]);
                lemma_fold_push(before, pieces[0]);
                assert(before.push(pieces[0]) =~= before + pieces);
                crate::finset::lemma_inj_state_prefix(counts@, n as int);
                lemma_embed_identity_step(inj_part_frob.diagram(), counts@, target@, n as int);
            }
            inj_part_frob.monoidal(piece);
        } else {
            let mut idx: usize = 0;
            while idx < c
                invariant
                    n < counts@.len(),
                    c == counts@[n as int],
                    n % 2 == 1,
                    idx <= c,
                    target_number + c <= target@.len(),
                    tl == target@.len(),
                    pieces == run_pieces::<Lambda, B>(counts@, target@, n as int, target_number as int),
                    inj_part_frob.diagram() == monoidal_fold(before + pieces.subrange(0, idx as int)),
                    chained(inj_part_frob.diagram()),
                    all_quiet(inj_part_frob.diagram()),
                    layers_within(inj_part_frob.diagram(), (target_number + idx) as nat),
                    diagram_dom(inj_part_frob.diagram()) == inj_labels(counts@.subrange(0, n as int), target@),
                    diagram_cod(inj_part_frob.diagram()) == target@.subrange(0, target_number + idx),
                decreases c - idx,
            {
                let piece: FrobeniusMorphism<Lambda, B> = FrobeniusMorphism::from_op(
                    FrobeniusOperation::Unit(target[target_number + idx]),
                );
                proof {
                    lemma_embed_unit_step(inj_part_frob.diagram(), target@, (target_number + idx) as int);
                    assert(piece.diagram() == pieces[idx as int]);
                    lemma_fold_push(before + pieces.subrange(0, idx as int), pieces[idx as int]);
                    assert((before + pieces.subrange(0, idx as int)).push(pieces[idx as int]) =~= before
                        + pieces.subrange(0, idx + 1));
                }
                inj_part_frob.monoidal(piece);
                idx = idx + 1;
            }
            proof {
                assert(pieces.subrange(0, idx as int) =~= pieces);
                crate::finset::lemma_inj_state_prefix(counts@, n as int);
                assert(inj_map(counts@.subrange(0, n + 1)) == inj_map(counts@.subrange(0, n as int)));
            }
        }
        target_number = target_number + c;
        n = n + 1;
        proof {
            assert(counts@.subrange(0, n as int).drop_last() =~= counts@.subrange(0, n - 1));
        }
    }
    assert(counts@.subrange(0, n as int) =~= counts@);
    inj_part_frob
}

/// The labels of the targets of an order-preserving injection, in order.
pub open spec fn inj_labels<L>(c: Seq<usize>, t: Seq<L>) -> Seq<L> {
    Seq::new(inj_map(c).len(), |j: int| t[inj_map(c)[j] as int])
}

/// Placing the identities on identity run `n` beside the diagram of the runs
/// before it keeps its layers following each other and quiet, adds the
/// run's targets to both the domain and the codomain.
proof fn lemma_embed_identity_step<L: Label, B>(before: Seq<Seq<FrobeniusOperation<L, B>>>, c: Seq<usize>, t: Seq<L>, n: int)
    requires
        0 <= n < c.len(),
        n % 2 == 0,
        inj_state(c.subrange(0, n + 1)) == crate::finset::inj_step(inj_state(c.subrange(0, n)), c[n], true),
        inj_state(c.subrange(0, n)).1 + c[n] <= t.len() <= usize::MAX,
        chained(before),
        all_quiet(before),
        layers_within(before, inj_state(c.subrange(0, n)).1),
        diagram_dom(before) == inj_labels(c.subrange(0, n), t),
        diagram_cod(before) == t.subrange(0, inj_state(c.subrange(0, n)).1 as int),
    ensures
        ({
            let pos = inj_state(c.subrange(0, n)).1 as int;
            let d = frob_monoidal(before, seq![identity_ops::<L, B>(t.subrange(pos, pos + c[n]))]);
            &&& chained(d)
            &&& all_quiet(d)
            &&& layers_within(d, (pos + c[n]) as nat)
            &&& diagram_dom(d) == inj_labels(c.subrange(0, n + 1), t)
            &&& diagram_cod(d) == t.subrange(0, pos + c[n])
        }),
{
    let pos = inj_state(c.subrange(0, n)).1 as int;
    let sub = t.subrange(pos, pos + c[n]);
    let piece = seq![identity_ops::<L, B>(sub)];
    crate::frobenius::lemma_identity_ops::<L, B>(sub);
    assert(identity_ops::<L, B>(sub) == Seq::new(sub.len(), |i: int| FrobeniusOperation::<L, B>::Identity(sub[i])));
    assert(all_quiet(piece)) by {
        assert forall|i: int, j: int| 0 <= i < piece.len() && 0 <= j < piece[i].len() implies quiet_below(#[trigger] piece[i][j]) by {
            assert(piece[i] == identity_ops::<L, B>(sub));
        }
    }
    assert(layers_within(piece, c[n] as nat));
    lemma_tensor_chained(before, piece, pos as nat, c[n] as nat);
    assert(t.subrange(0, pos) + sub =~= t.subrange(0, pos + c[n]));
    let m0 = inj_map(c.subrange(0, n));
    assert(inj_map(c.subrange(0, n + 1)) == m0 + range_seq(pos, pos + c[n]));
    assert(inj_labels(c.subrange(0, n), t) + sub =~= inj_labels(c.subrange(0, n + 1), t));
}

/// Placing a unit on target `pos` beside the diagram keeps its layers
/// following each other and quiet, adds nothing to the domain and the label
/// of `pos` to the codomain.
proof fn lemma_embed_unit_step<L: Label, B>(before: Seq<Seq<FrobeniusOperation<L, B>>>, t: Seq<L>, pos: int)
    requires
        0 <= pos < t.len() <= usize::MAX,
        chained(before),
        all_quiet(before),
        layers_within(before, pos as nat),
        diagram_cod(before) == t.subrange(0, pos),
    ensures
        ({
            let d = frob_monoidal(before, seq![seq![FrobeniusOperation::<L, B>::Unit(t[pos])]]);
            &&& chained(d)
            &&& all_quiet(d)
            &&& layers_within(d, (pos + 1) as nat)
            &&& diagram_dom(d) == diagram_dom(before)
            &&& diagram_cod(d) == t.subrange(0, pos + 1)
        }),
{
    let piece = seq![seq![FrobeniusOperation::<L, B>::Unit(t[pos])]];
    lemma_ops_single(FrobeniusOperation::<L, B>::Unit(t[pos]));
    assert(piece[0] == seq![FrobeniusOperation::<L, B>::Unit(t[pos])]);
    assert(layers_within(piece, 1));
    lemma_tensor_chained(before, piece, pos as nat, 1);
    assert(t.subrange(0, pos) + seq![t[pos]] =~= t.subrange(0, pos + 1));
    assert(diagram_dom(before) + Seq::<L>::empty() =~= diagram_dom(before));
}

/// `d` merges `c` wires labelled `z` into one, as `special_frobenius_morphism`
/// builds it.
pub open spec fn merge_piece<L: Label, B>(d: Seq<Seq<FrobeniusOperation<L, B>>>, c: nat, z: L) -> bool {
    &&& diagram_dom(d) == copies(c, z)
    &&& diagram_cod(d) == copies(1, z)
    &&& c >= 2 ==> spider_tree(d, z, c) && d.last() == seq![FrobeniusOperation::<L, B>::Multiplication(z)]
}

/// All labels of block `k` of the surjection with counts `c` are equal.
pub open spec fn blocks_constant<L>(cod: Seq<L>, c: Seq<usize>) -> bool {
    forall|k: int, j: int|
        0 <= k < c.len() && psum(c, k) <= j < psum(c, k + 1) ==> #[trigger] cod[j] == cod[psum(c, k) as int]
            && #[trigger] psum(c, k) >= 0
}

/// The diagram of an order-preserving surjection on the labels `cod`: for
/// each block, a spider merging its wires into one, side by side. Also
/// returns the pieces.
#[verifier::spinoff_prover]
#[verifier::rlimit(100)]
fn merge_blocks<Lambda: Label, B: Clone>(cod: &[Lambda], surj: &OrderPresSurj) -> (r: (
    FrobeniusMorphism<Lambda, B>,
    Ghost<Seq<Seq<Seq<FrobeniusOperation<Lambda, B>>>>>,
))
    requires
        surj_domain(surj@) == cod@.len(),
        blocks_constant(cod@, surj@),
    ensures
        r.0.diagram() == monoidal_fold(r.1@),
        r.1@.len() == surj@.len(),
        forall|k: int|
            0 <= k < surj@.len() ==> merge_piece(#[trigger] r.1@[k], (surj@[k] + 1) as nat, cod@[psum(surj@, k) as int]),
        chained(r.0.diagram()),
        all_quiet(r.0.diagram()),
        diagram_dom(r.0.diagram()) == cod@,
        diagram_cod(r.0.diagram()) == Seq::new(surj@.len(), |k: int| cod@[psum(surj@, k) as int]),
{
    let ghost c = surj@;
    let n = cod.len();
    proof {
        assert forall|i: int| 0 <= i < c.len() implies c[i] < usize::MAX by {
            lemma_psum_mono(c, i, i + 1);
            lemma_psum_mono(c, i + 1, c.len() as int);
        }
    }
    let cards = surj.preimage_cardinalities();
    let mut surj_part_frob: FrobeniusMorphism<Lambda, B> = FrobeniusMorphism::new();
    let mut after_perm_number: usize = 0;
    let mut k: usize = 0;
    let ghost mut pieces: Seq<Seq<Seq<FrobeniusOperation<Lambda, B>>>> = Seq::empty();
    proof {
        assert(surj_part_frob.diagram() =~= monoidal_fold(pieces));
    }
    while k < cards.len()
        invariant
            c == surj@,
            n == cod@.len(),
            surj_domain(c) == n,
            blocks_constant(cod@, c),
            cards@ == Seq::new(c.len(), |i: int| (c[i] + 1) as usize),
            k <= c.len(),
            after_perm_number == psum(c, k as int),
            pieces.len() == k,
            surj_part_frob.diagram() == monoidal_fold(pieces),
            forall|j: int| 0 <= j < k ==> merge_piece(#[trigger] pieces[j], (c[j] + 1) as nat, cod@[psum(c, j) as int]),
            chained(surj_part_frob.diagram()),
            all_quiet(surj_part_frob.diagram()),
            layers_within(surj_part_frob.diagram(), psum(c, k as int)),
            diagram_dom(surj_part_frob.diagram()) == cod@.subrange(0, psum(c, k as int) as int),
            diagram_cod(surj_part_frob.diagram()) == Seq::new(k as nat, |j: int| cod@[psum(c, j) as int]),
        decreases c.len() - k,
    {
        proof {
            lemma_psum_mono(c, k + 1, c.len() as int);
            assert(psum(c, k + 1) == psum(c, k as int) + c[k as int] + 1);
        }
        let card = cards[k];
        let z = cod[after_perm_number];
        let cur_part: FrobeniusMorphism<Lambda, B> = special_frobenius_morphism(card, 1, z);
        let ghost before = surj_part_frob.diagram();
        let ghost pd = cur_part.diagram();
        proof {
            lemma_fold_push(pieces, cur_part.diagram());
            pieces = pieces.push(cur_part.diagram());
            lemma_merge_step(before, pd, cod@, c, k as int, z);
        }
        surj_part_frob.monoidal(cur_part);
        after_perm_number = after_perm_number + card;
        k = k + 1;
    }
    assert(cod@.subrange(0, psum(c, k as int) as int) =~= cod@);
    (surj_part_frob, Ghost(pieces))
}

/// Placing the spider of block `k` beside the spiders of the blocks before
/// it keeps the layers following each other, quiet and no wider than the
/// blocks so far, from the labels of those blocks to one label per block.
#[verifier::spinoff_prover]
#[verifier::rlimit(60)]
proof fn lemma_merge_step<L: Label, B>(
    before: Seq<Seq<FrobeniusOperation<L, B>>>,
    pd: Seq<Seq<FrobeniusOperation<L, B>>>,
    cod: Seq<L>,
    c: Seq<usize>,
    k: int,
    z: L,
)
    requires
        0 <= k < c.len(),
        psum(c, k + 1) <= cod.len() <= usize::MAX,
        psum(c, k + 1) == psum(c, k) + c[k] + 1,
        blocks_constant(cod, c),
        z == cod[psum(c, k) as int],
        chained(before),
        all_quiet(before),
        layers_within(before, psum(c, k)),
        diagram_dom(before) == cod.subrange(0, psum(c, k) as int),
        diagram_cod(before) == Seq::new(k as nat, |j: int| cod[psum(c, j) as int]),
        diagram_dom(pd) == copies((c[k] + 1) as nat, z),
        diagram_cod(pd) == copies(1, z),
        c[k] + 1 >= 2 ==> spider_tree(pd, z, (c[k] + 1) as nat),
        c[k] + 1 == 1 ==> pd == seq![seq![FrobeniusOperation::<L, B>::Identity(z)]],
    ensures
        chained(frob_monoidal(before, pd)),
        all_quiet(frob_monoidal(before, pd)),
        layers_within(frob_monoidal(before, pd), psum(c, k + 1)),
        diagram_dom(frob_monoidal(before, pd)) == cod.subrange(0, psum(c, k + 1) as int),
        diagram_cod(frob_monoidal(before, pd)) == Seq::new((k + 1) as nat, |j: int| cod[psum(c, j) as int]),
{
    let card = (c[k] + 1) as nat;
    lemma_spider_piece(pd, card, z);
    lemma_tensor_chained(before, pd, psum(c, k), card);
    assert(cod.subrange(0, psum(c, k) as int) + copies(card, z) =~= cod.subrange(0, psum(c, k + 1) as int)) by {
        assert forall|j: int| psum(c, k) <= j < psum(c, k + 1) implies #[trigger] cod[j] == z by {
            assert(cod[j] == cod[psum(c, k) as int]);
        }
    }
    assert(Seq::new(k as nat, |j: int| cod[psum(c, j) as int]) + copies(1, z) =~= Seq::new(
        (k + 1) as nat,
        |j: int| cod[psum(c, j) as int],
    ));
}

/// A spider merging `card >= 1` wires into one: its layers follow each
/// other, are quiet and are no wider than `card`.
proof fn lemma_spider_piece<L: Label, B>(d: Seq<Seq<FrobeniusOperation<L, B>>>, card: nat, z: L)
    requires
        card >= 1,
        card >= 2 ==> spider_tree(d, z, card),
        card == 1 ==> d == seq![seq![FrobeniusOperation::<L, B>::Identity(z)]],
    ensures
        chained(d),
        all_quiet(d),
        layers_within(d, card),
{
    if card == 1 {
        lemma_ops_single(FrobeniusOperation::<L, B>::Identity(z));
        assert(d[0] == seq![FrobeniusOperation::<L, B>::Identity(z)]);
    } else {
        assert forall|i: int, j: int| 0 <= i < d.len() && 0 <= j < d[i].len() implies quiet_below(#[trigger] d[i][j]) by {
            assert(crate::frobenius::spider_part(d[i][j], z));
        }
    }
}

/// Reading the labels of the permuted word block by block: every position
/// of block `k` carries the target label of `k`.
proof fn lemma_block_types<L>(
    cod: Seq<L>,
    source: Seq<L>,
    target: Seq<L>,
    sv: Seq<usize>,
    tv: Seq<usize>,
    c: Seq<usize>,
    im: Seq<usize>,
)
    requires
        cod.len() == source.len(),
        is_permutation_of(sv, source.len()),
        is_permutation_of(tv, source.len()),
        forall|i: int| 0 <= i < source.len() ==> tv[#[trigger] sv[i] as int] == i,
        forall|i: int| 0 <= i < source.len() ==> cod[#[trigger] sv[i] as int] == source[i],
        forall|i: int| 0 <= i < source.len() ==> target[im[surj_map(c)[#[trigger] sv[i] as int] as int] as int] == source[i],
        surj_domain(c) == source.len(),
        c.len() <= usize::MAX,
    ensures
        forall|k: int, j: int|
            0 <= k < c.len() && psum(c, k) <= j < psum(c, k + 1) ==> cod[j] == target[im[k] as int],
        blocks_constant(cod, c),
{
    let n = source.len();
    assert forall|j: int| 0 <= j < n implies #[trigger] sv[tv[j] as int] == j by {
        let i = tv[j] as int;
        assert(tv[sv[i] as int] == i);
        if sv[i] != j {
            if sv[i] < j {
                assert(tv[sv[i] as int] != tv[j]);
            } else {
                assert(tv[j] != tv[sv[i] as int]);
            }
        }
    }
    assert forall|k: int, j: int| 0 <= k < c.len() && psum(c, k) <= j < psum(c, k + 1) implies cod[j] == target[im[k] as int] by {
        lemma_psum_mono(c, k + 1, c.len() as int);
        lemma_surj_map_block(c, c.len() as int, k, j);
        let i = tv[j] as int;
        assert(sv[i] == j);
    }
    assert forall|k: int, j: int| 0 <= k < c.len() && psum(c, k) <= j < psum(c, k + 1) implies #[trigger] cod[j]
        == cod[psum(c, k) as int] && #[trigger] psum(c, k) >= 0 by {
        lemma_psum_mono(c, k, k + 1);
        assert(cod[psum(c, k) as int] == target[im[k] as int]);
    }
}

/// `d` is a nonempty diagram of identities and braidings from `t` whose
/// wire entering at position `i` leaves at position `s[i]`, so that codomain
/// position `s[i]` carries `t[i]`.
pub open spec fn braids_sending<L: Label, B>(d: Seq<Seq<FrobeniusOperation<L, B>>>, t: Seq<L>, s: Seq<usize>) -> bool {
    &&& all_swap_ops(d)
    &&& d.len() > 0
    &&& diagram_dom(d) == t
    &&& diagram_cod(d).len() == t.len()
    &&& forall|i: int| 0 <= i < t.len() ==> diagram_cod(d)[#[trigger] s[i] as int] == t[i]
    &&& forall|i: int| 0 <= i < t.len() ==> #[trigger] wire_end(d, i) == s[i]
}

/// `d` is the diagram `from_decomposition` builds from `v` between the
/// words `source` and `target`: the braid diagram `pd` of the permutation,
/// then the spiders `pieces` of the surjection side by side, then the
/// identities and units of the injection, composed in turn.
pub open spec fn decomposition_diagram<L: Label, B>(
    d: Seq<Seq<FrobeniusOperation<L, B>>>,
    v: Decomposition,
    source: Seq<L>,
    target: Seq<L>,
) -> bool {
    exists|pd: Seq<Seq<FrobeniusOperation<L, B>>>, pieces: Seq<Seq<Seq<FrobeniusOperation<L, B>>>>|
        #![trigger braids_sending(pd, source, v.perm()), monoidal_fold(pieces)]
        {
            &&& braids_sending(pd, source, v.perm())
            &&& pieces.len() == v.surj().len()
            &&& forall|k: int|
                0 <= k < v.surj().len() ==> merge_piece(
                    #[trigger] pieces[k],
                    (v.surj()[k] + 1) as nat,
                    target[inj_map(v.inj())[k] as int],
                )
            &&& d == frob_compose_layers(
                frob_compose_layers(pd, monoidal_fold(pieces)).0,
                monoidal_fold(runs_upto::<L, B>(v.inj(), target, v.inj().len() as int)),
            ).0
        }
}

/// The Frobenius diagram of a decomposed map of finite sets between the
/// labelled words `source_types` and `target_types`: the braid diagram of
/// the permutation, then one spider per block of the surjection merging
/// its wires, then identities and units for the injection, composed in
/// turn. The map must respect the labels; target labels past the codomain
/// of the map are not used. Fails when a composition does.
pub fn from_decomposition<Lambda: Label, B: Clone>(
    v: Decomposition,
    source_types: &[Lambda],
    target_types: &[Lambda],
) -> (r: Result<FrobeniusMorphism<Lambda, B>, CatgraphError>)
    requires
        source_types@.len() == v.perm().len(),
        target_types@.len() >= v.cod_size(),
        forall|i: int| 0 <= i < source_types@.len() ==> target_types@[#[trigger] v.map()[i] as int] == source_types@[i],
    ensures
        r is Ok,
        r matches Ok(m) ==> decomposition_diagram(m.diagram(), v, source_types@, target_types@),
{
    let (perm_part, surj_part, inj_part) = v.get_parts();
    let n = perm_len(perm_part);
    let tau = perm_inv(perm_part);
    let _ = perm_len(&tau);
    let p = crate::permutation::perm_clone(perm_part);
    let mut answer: FrobeniusMorphism<Lambda, B> = match FrobeniusMorphism::from_permutation(p, source_types, true) {
        Ok(a) => a,
        Err(e) => {
            return Err(e);
        },
    };
    let cod = answer.codomain();
    let _blocks = surj_part.codomain();
    proof {
        use_type_invariant(&v);
        v.lemma_parts();
        let c = v.surj();
        lemma_surj_map_prefix_len(c, c.len() as int);
        assert forall|i: int| 0 <= i < n implies target_types@[inj_map(v.inj())[surj_map(c)[#[trigger] v.perm()[i] as int] as int] as int]
            == source_types@[i] by {
            assert(v.map()[i] == inj_map(v.inj())[surj_map(c)[v.perm()[i] as int] as int]);
        }
        lemma_block_types(cod@, source_types@, target_types@, v.perm(), perm_values(tau), c, inj_map(v.inj()));
    }
    let ghost pd = answer.diagram();
    let (surj_part_frob, Ghost(pieces)) = merge_blocks::<Lambda, B>(cod.as_slice(), surj_part);
    proof {
        let c = v.surj();
        assert forall|k: int| 0 <= k < c.len() implies merge_piece(
            #[trigger] pieces[k],
            (c[k] + 1) as nat,
            target_types@[inj_map(v.inj())[k] as int],
        ) by {
            lemma_psum_mono(c, k, k + 1);
            assert(merge_piece(pieces[k], (c[k] + 1) as nat, cod@[psum(c, k) as int]));
        }
    }
    let counts = inj_part.iden_unit_counts();
    let inj_part_frob: FrobeniusMorphism<Lambda, B> = embed_runs(counts.as_slice(), target_types);
    let ghost sd = surj_part_frob.diagram();
    let ghost id = inj_part_frob.diagram();
    proof {
        assert(pd.len() > 0);
        if sd.len() > 0 {
            crate::frobenius::lemma_compose_quiet(pd, sd);
        } else {
            crate::frobenius::lemma_compose_quiet(pd, sd);
        }
        let mid = frob_compose_layers(pd, sd).0;
        let c = v.surj();
        let im = inj_map(v.inj());
        assert(diagram_cod(mid) == diagram_cod(sd)) by {
            if sd.len() == 0 {
                assert(cod@ =~= Seq::<Lambda>::empty());
                assert(diagram_cod(sd) =~= Seq::<Lambda>::empty()) by {
                    assert(c.len() == 0) by {
                        if c.len() > 0 {
                            lemma_psum_mono(c, 1, c.len() as int);
                        }
                    }
                }
            }
        }
        assert(diagram_cod(sd) == diagram_dom(id)) by {
            assert forall|k: int| 0 <= k < c.len() implies cod@[psum(c, k) as int] == target_types@[im[k] as int] by {
                lemma_psum_mono(c, k, k + 1);
            }
            assert(diagram_cod(sd) =~= diagram_dom(id));
        }
        if mid.len() > 0 && id.len() > 0 {
            assert(diagram_cod(mid) == ops_targets(mid.last()));
        }
        crate::frobenius::lemma_compose_quiet(mid, id);
    }
    let first = answer.compose(surj_part_frob);
    if first.is_err() {
        return Err(CatgraphError::Composition {
            message: String::from_str(
                "The provided source and target types did not line up for the given decomposed finite set map",
            ),
        });
    }
    let ghost mid = answer.diagram();
    assert(mid == frob_compose_layers(pd, sd).0);
    let second = answer.compose(inj_part_frob);
    if second.is_err() {
        return Err(CatgraphError::Composition {
            message: String::from_str(
                "The provided source and target types did not line up for the given decomposed finite set map",
            ),
        });
    }
    proof {
        assert(answer.diagram() == frob_compose_layers(mid, id).0);
        assert(braids_sending(pd, source_types@, v.perm()));
        assert(monoidal_fold(pieces) == sd);
    }
    Ok(answer)
}
} // verus!
