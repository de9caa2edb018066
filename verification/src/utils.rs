//! Small sequence helpers shared by the modules of this crate.
use vstd::prelude::*;

use crate::label::Label;

verus! {

/// True when the sequence is `0, 1, 2, ...` (the map it describes is an identity).
pub open spec fn is_identity_seq(s: Seq<usize>) -> bool {
    forall|i: int| 0 <= i < s.len() ==> #[trigger] s[i] == i
}

/// No value occurs twice in the sequence.
pub open spec fn no_duplicates<T>(s: Seq<T>) -> bool {
    forall|i: int, j: int| 0 <= i < j < s.len() ==> s[i] != s[j]
}

/// Decides whether a sequence of indices is `0, 1, 2, ...`.
pub fn represents_id(v: &[usize]) -> (b: bool)
    ensures
        b == is_identity_seq(v@),
{
    let mut i: usize = 0;
    while i < v.len()
        invariant
            i <= v@.len(),
            forall|j: int| 0 <= j < i ==> v@[j] == j,
        decreases v@.len() - i,
    {
        if v[i] != i {
            return false;
        }
        i = i + 1;
    }
    true
}

/// Decides whether no label occurs twice.
pub fn is_unique<L: Label>(v: &[L]) -> (b: bool)
    ensures
        b == no_duplicates(v@),
{
    let n = v.len();
    let mut i: usize = 0;
    while i < n
        invariant
            n == v@.len(),
            i <= n,
            forall|a: int, c: int| 0 <= a < i && a < c < n ==> v@[a] != v@[c],
        decreases n - i,
    {
        let mut j: usize = i + 1;
        while j < n
            invariant
                n == v@.len(),
                i < n,
                i < j <= n,
                forall|a: int, c: int| 0 <= a < i && a < c < n ==> v@[a] != v@[c],
                forall|c: int| i < c < j ==> v@[i as int] != v@[c],
            decreases n - j,
        {
            if v[i].same_label(&v[j]) {
                return false;
            }
            j = j + 1;
        }
        i = i + 1;
    }
    true
}

/// Decides whether no pair occurs twice.
pub fn pairs_unique(v: &[(usize, usize)]) -> (b: bool)
    ensures
        b == no_duplicates(v@),
{
    let n = v.len();
    let mut i: usize = 0;
    while i < n
        invariant
            n == v@.len(),
            i <= n,
            forall|a: int, c: int| 0 <= a < i && a < c < n ==> v@[a] != v@[c],
        decreases n - i,
    {
        let mut j: usize = i + 1;
        while j < n
            invariant
                n == v@.len(),
                i < n,
                i < j <= n,
                forall|a: int, c: int| 0 <= a < i && a < c < n ==> v@[a] != v@[c],
                forall|c: int| i < c < j ==> v@[i as int] != v@[c],
            decreases n - j,
        {
            if v[i].0 == v[j].0 && v[i].1 == v[j].1 {
                return false;
            }
            j = j + 1;
        }
        i = i + 1;
    }
    true
}

/// A copy of a slice of `Copy` values.
pub fn copy_vec<T: Copy>(v: &[T]) -> (r: Vec<T>)
    ensures
        r@ == v@,
{
    let mut r: Vec<T> = Vec::with_capacity(v.len());
    let mut i: usize = 0;
    while i < v.len()
        invariant
            i <= v@.len(),
            r@ == v@.subrange(0, i as int),
        decreases v@.len() - i,
    {
        r.push(v[i]);
        i = i + 1;
        assert(r@ =~= v@.subrange(0, i as int));
    }
    assert(r@ =~= v@);
    r
}

/// The sequence `start, start + 1, ..., end - 1`.
pub open spec fn range_seq(start: int, end: int) -> Seq<usize> {
    Seq::new((end - start) as nat, |i: int| (start + i) as usize)
}

/// Appends `start..end` to `v`.
pub fn push_range(v: &mut Vec<usize>, start: usize, end: usize)
    requires
        start <= end,
    ensures
        final(v)@ == old(v)@ + range_seq(start as int, end as int),
{
    let ghost v0 = v@;
    let mut k: usize = start;
    while k < end
        invariant
            start <= k <= end,
            v@ == v0 + range_seq(start as int, k as int),
        decreases end - k,
    {
        v.push(k);
        k = k + 1;
        assert(v@ =~= v0 + range_seq(start as int, k as int));
    }
}

} // verus!
