//! Permutations of `0..n`, from the `permutations` crate, as seen by the
//! verified code: a permutation is the sequence of its images.
use vstd::prelude::*;

use permutations::Permutation;

use crate::label::Label;

verus! {

#[verifier::external_type_specification]
#[verifier::external_body]
pub struct ExPermutation(Permutation);

/// The images `p(0), p(1), …, p(n - 1)` of a permutation.
pub uninterp spec fn perm_values(p: Permutation) -> Seq<usize>;

/// `v` has length `n` and every value of `0..n` occurs exactly once in it.
pub open spec fn is_permutation_of(v: Seq<usize>, n: nat) -> bool {
    &&& v.len() == n
    &&& forall|i: int| 0 <= i < n ==> v[i] < n
    &&& forall|i: int, j: int| 0 <= i < j < n ==> v[i] != v[j]
}

/// The word `v` reordered by the images `p`: entry `i` is entry `p[i]` of `v`.
pub open spec fn permuted<T>(v: Seq<T>, p: Seq<usize>) -> Seq<T> {
    Seq::new(p.len(), |i: int| v[p[i] as int])
}

/// Reordering a word whose entries lie below `bound` keeps them below it.
pub proof fn lemma_permuted_in_bounds(v: Seq<usize>, p: Seq<usize>, bound: nat)
    requires
        is_permutation_of(p, v.len()),
        forall|i: int| 0 <= i < v.len() ==> v[i] < bound,
    ensures
        forall|i: int| 0 <= i < p.len() ==> #[trigger] permuted(v, p)[i] < bound,
{
}

/// Every value of `0..v.len()` occurs exactly once in `v`.
pub open spec fn is_bijection(v: Seq<usize>) -> bool {
    is_permutation_of(v, v.len())
}

/// `Permutation::identity(n)`: the images are `0, 1, …, n - 1`.
#[verifier::external_body]
pub(crate) fn perm_identity(n: usize) -> (r: Permutation)
    ensures
        perm_values(r) == Seq::new(n as nat, |i: int| i as usize),
{
    Permutation::identity(n)
}

/// `Permutation::transposition(n, i, j)`: exchanges `i` and `j`, fixing the rest.
#[verifier::external_body]
pub(crate) fn perm_transposition(n: usize, i: usize, j: usize) -> (p: Permutation)
    requires
        i < n,
        j < n,
    ensures
        perm_values(p) == Seq::new(
            n as nat,
            |k: int|
                if k == i {
                    j
                } else if k == j {
                    i
                } else {
                    k as usize
                },
        ),
{
    Permutation::transposition(n, i, j)
}

/// `Permutation::apply`: the image of `i`.
#[verifier::external_body]
pub(crate) fn perm_apply(p: &Permutation, i: usize) -> (r: usize)
    requires
        i < perm_values(*p).len(),
    ensures
        r == perm_values(*p)[i as int],
{
    p.apply(i)
}

/// `Permutation::len`: the number of elements. The crate builds every
/// permutation from a bijection (its constructors and `TryFrom` check or
/// ensure it), so the images form one.
#[verifier::external_body]
pub(crate) fn perm_len(p: &Permutation) -> (r: usize)
    ensures
        is_permutation_of(perm_values(*p), r as nat),
{
    p.len()
}

/// `Permutation::inv`: the inverse, which sends `p(i)` back to `i` (every
/// permutation of the crate is a bijection, see `perm_len`).
#[verifier::external_body]
pub(crate) fn perm_inv(p: &Permutation) -> (r: Permutation)
    ensures
        perm_values(r).len() == perm_values(*p).len(),
        forall|i: int|
            0 <= i < perm_values(*p).len() ==> perm_values(r)[#[trigger] perm_values(*p)[i] as int] == i,
{
    p.inv()
}

/// `a * b`: first `a`, then `b`.
#[verifier::external_body]
pub(crate) fn perm_mul(a: Permutation, b: Permutation) -> (r: Permutation)
    requires
        perm_values(a).len() == perm_values(b).len(),
    ensures
        perm_values(r).len() == perm_values(a).len(),
        forall|i: int|
            0 <= i < perm_values(a).len() ==> #[trigger] perm_values(r)[i] == perm_values(b)[perm_values(a)[i] as int],
{
    a * b
}

/// `Permutation::permute`: entry `i` of the result is entry `p(i)` of `v`.
#[verifier::external_body]
pub(crate) fn perm_permute<L: Label>(p: &Permutation, v: &[L]) -> (r: Vec<L>)
    requires
        v@.len() == perm_values(*p).len(),
    ensures
        r@ == permuted(v@, perm_values(*p)),
{
    p.permute(v)
}

/// `Permutation::try_from(v)`: a permutation exactly when `v` is a bijection.
#[verifier::external_body]
pub(crate) fn perm_try_from(v: Vec<usize>) -> (r: Option<Permutation>)
    ensures
        r is Some <==> is_bijection(v@),
        r matches Some(p) ==> perm_values(p) == v@,
{
    match Permutation::try_from(v) {
        Ok(p) => Some(p),
        Err(_) => None,
    }
}

/// `==` on permutations: the images agree.
#[verifier::external_body]
pub(crate) fn perm_eq(a: &Permutation, b: &Permutation) -> (r: bool)
    ensures
        r == (perm_values(*a) == perm_values(*b)),
{
    a == b
}

/// `Permutation::clone`: the same images.
#[verifier::external_body]
pub(crate) fn perm_clone(p: &Permutation) -> (r: Permutation)
    ensures
        perm_values(r) == perm_values(*p),
{
    p.clone()
}

} // verus!
