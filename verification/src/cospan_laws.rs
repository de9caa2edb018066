//! Laws of cospans: composition with an identity gives back the cospan up to
//! renumbering of its apex, and the monoidal product is associative with the
//! empty cospan as its unit.
use vstd::prelude::*;

use crate::cospan::{glued_label, is_pushout_quotient, legs_in_bounds, respects_interface, shifted, Cospan};
use crate::finset::lemma_pigeonhole;
use crate::label::Label;
use crate::utils::range_seq;

verus! {

/// `s` renumbers the apex of `a` onto the apex of `b`: it is a bijection
/// between the two apexes that keeps labels and carries the legs of `a` onto
/// those of `b`.
pub open spec fn is_iso_via<L: Label>(a: Cospan<L>, b: Cospan<L>, s: Seq<usize>) -> bool {
    &&& s.len() == a.apex().len()
    &&& a.apex().len() == b.apex().len()
    &&& forall|x: int| 0 <= x < s.len() ==> #[trigger] s[x] < b.apex().len()
    &&& forall|x: int, y: int| 0 <= x < y < s.len() ==> #[trigger] s[x] != #[trigger] s[y]
    &&& forall|x: int| 0 <= x < s.len() ==> b.apex()[#[trigger] s[x] as int] == a.apex()[x]
    &&& b.left_map() == Seq::new(a.left_map().len(), |i: int| s[a.left_map()[i] as int])
    &&& b.right_map() == Seq::new(a.right_map().len(), |j: int| s[a.right_map()[j] as int])
}

/// The two cospans are equal up to a renumbering of the apex.
pub open spec fn isomorphic<L: Label>(a: Cospan<L>, b: Cospan<L>) -> bool {
    exists|s: Seq<usize>| is_iso_via(a, b, s)
}

/// The legs point into the apex and every length fits in a `usize`: what
/// holds of every cospan that exists at run time.
pub open spec fn cospan_valid<L: Label>(c: Cospan<L>) -> bool {
    &&& legs_in_bounds(c.left_map(), c.right_map(), c.apex().len())
    &&& c.apex().len() <= usize::MAX
    &&& c.left_map().len() <= usize::MAX
    &&& c.right_map().len() <= usize::MAX
}

/// Some entry of `s` is `k`.
spec fn takes_value(s: Seq<usize>, k: int) -> bool {
    exists|x: int| 0 <= x < s.len() && s[x] == k
}

/// A duplicate-free sequence of values below `r` that takes every value below
/// `r` has exactly `r` entries.
proof fn lemma_bijection_len(s: Seq<usize>, r: nat)
    requires
        s.len() <= usize::MAX,
        forall|x: int| 0 <= x < s.len() ==> #[trigger] s[x] < r,
        forall|x: int, y: int| 0 <= x < y < s.len() ==> #[trigger] s[x] != #[trigger] s[y],
        forall|k: int| 0 <= k < r ==> #[trigger] takes_value(s, k),
    ensures
        s.len() == r,
{
    lemma_pigeonhole(s, r);
    let t = Seq::new(r, |k: int| (choose|x: int| 0 <= x < s.len() && s[x] == k) as usize);
    assert forall|k: int| 0 <= k < r implies 0 <= #[trigger] t[k] < s.len() && s[t[k] as int]
        == k by {
        let x = choose|x: int| 0 <= x < s.len() && s[x] == k;
        assert(takes_value(s, k));
        assert(0 <= x < s.len() && s[x] == k);
    }
    assert forall|a: int, c: int| 0 <= a < c < t.len() implies t[a] != t[c] by {
        assert(s[t[a] as int] == a);
        assert(s[t[c] as int] == c);
    }
    lemma_pigeonhole(t, s.len());
}

/// Left identity: composing the identity on the domain of `f` with `f` gives
/// `f` back, up to renumbering of the apex.
pub proof fn law_cospan_compose_identity_left<L: Label>(id: Cospan<L>, f: Cospan<L>, r: Cospan<L>)
    requires
        cospan_valid(f),
        id.left_map() == range_seq(0, f.dom().len() as int),
        id.right_map() == range_seq(0, f.dom().len() as int),
        id.apex() == f.dom(),
        id.is_composite(&f, &r),
    ensures
        isomorphic(f, r),
{
    let n = f.left_map().len();
    let fa = f.apex().len();
    let total = n + fa;
    let q = choose|q: Seq<usize>|
        {
            &&& is_pushout_quotient(q, r.apex().len(), id.right_map(), f.left_map(), n, total)
            &&& forall|x: int|
                0 <= x < total ==> r.apex()[#[trigger] q[x] as int] == crate::cospan::glued_label(
                    id.apex(),
                    f.apex(),
                    x,
                )
            &&& r.left_map() == Seq::new(id.left_map().len(), |i: int| q[id.left_map()[i] as int])
            &&& r.right_map() == Seq::new(f.right_map().len(), |j: int| q[n + f.right_map()[j]])
        };
    let g = |x: int|
        if x < n {
            f.left_map()[x] as int
        } else {
            x - n
        };
    assert(crate::cospan::respects_interface(g, id.right_map(), f.left_map(), n)) by {
        assert forall|i: int| 0 <= i < id.right_map().len() implies g(
            #[trigger] id.right_map()[i] as int,
        ) == g(n + f.left_map()[i]) by {
            assert(id.right_map()[i] == i);
        }
    }
    let s = Seq::new(fa, |a: int| q[n + a]);
    assert forall|x: int, y: int| 0 <= x < y < s.len() implies #[trigger] s[x] != #[trigger] s[y] by {
        if q[n + x] == q[n + y] {
            assert(g(n + x) == g(n + y));
        }
    }
    assert forall|x: int| 0 <= x < s.len() implies #[trigger] s[x] < r.apex().len() by {
        assert(q[n + x] < r.apex().len());
    }
    assert forall|k: int| 0 <= k < r.apex().len() implies #[trigger] takes_value(s, k) by {
        assert(crate::cospan::class_hit(q, total, k));
        let x = choose|x: int| 0 <= x < total && q[x] == k;
        if x < n {
            assert(id.right_map()[x] == x);
            assert(q[id.right_map()[x] as int] == q[n + f.left_map()[x]]);
            assert(s[f.left_map()[x] as int] == k);
        } else {
            assert(s[x - n] == k);
        }
    }
    lemma_bijection_len(s, r.apex().len());
    assert forall|x: int| 0 <= x < s.len() implies r.apex()[#[trigger] s[x] as int] == f.apex()[x] by {
        assert(r.apex()[q[n + x] as int] == crate::cospan::glued_label(id.apex(), f.apex(), n + x));
    }
    assert(r.left_map() =~= Seq::new(f.left_map().len(), |i: int| s[f.left_map()[i] as int])) by {
        assert forall|i: int| 0 <= i < n implies r.left_map()[i] == s[f.left_map()[i] as int] by {
            assert(id.left_map()[i] == i);
            assert(id.right_map()[i] == i);
            assert(q[id.right_map()[i] as int] == q[n + f.left_map()[i]]);
        }
    }
    assert(r.right_map() =~= Seq::new(f.right_map().len(), |j: int| s[f.right_map()[j] as int]));
    assert(is_iso_via(f, r, s));
}

/// Right identity: composing `f` with the identity on its codomain gives `f`
/// back, up to renumbering of the apex.
pub proof fn law_cospan_compose_identity_right<L: Label>(f: Cospan<L>, id: Cospan<L>, r: Cospan<L>)
    requires
        cospan_valid(f),
        id.left_map() == range_seq(0, f.cod().len() as int),
        id.right_map() == range_seq(0, f.cod().len() as int),
        id.apex() == f.cod(),
        f.is_composite(&id, &r),
    ensures
        isomorphic(f, r),
{
    let p = f.right_map().len();
    let fa = f.apex().len();
    let total = fa + p;
    let q = choose|q: Seq<usize>|
        {
            &&& is_pushout_quotient(q, r.apex().len(), f.right_map(), id.left_map(), fa, total)
            &&& forall|x: int|
                0 <= x < total ==> r.apex()[#[trigger] q[x] as int] == crate::cospan::glued_label(
                    f.apex(),
                    id.apex(),
                    x,
                )
            &&& r.left_map() == Seq::new(f.left_map().len(), |i: int| q[f.left_map()[i] as int])
            &&& r.right_map() == Seq::new(id.right_map().len(), |j: int| q[fa + id.right_map()[j]])
        };
    let g = |x: int|
        if x < fa {
            x
        } else {
            f.right_map()[x - fa] as int
        };
    assert(crate::cospan::respects_interface(g, f.right_map(), id.left_map(), fa)) by {
        assert forall|i: int| 0 <= i < f.right_map().len() implies g(
            #[trigger] f.right_map()[i] as int,
        ) == g(fa + id.left_map()[i]) by {
            assert(id.left_map()[i] == i);
        }
    }
    let s = Seq::new(fa, |a: int| q[a]);
    assert forall|x: int, y: int| 0 <= x < y < s.len() implies #[trigger] s[x] != #[trigger] s[y] by {
        if q[x] == q[y] {
            assert(g(x) == g(y));
        }
    }
    assert forall|x: int| 0 <= x < s.len() implies #[trigger] s[x] < r.apex().len() by {
        assert(q[x] < r.apex().len());
    }
    assert forall|k: int| 0 <= k < r.apex().len() implies #[trigger] takes_value(s, k) by {
        assert(crate::cospan::class_hit(q, total, k));
        let x = choose|x: int| 0 <= x < total && q[x] == k;
        if x < fa {
            assert(s[x] == k);
        } else {
            let i = x - fa;
            assert(id.left_map()[i] == i);
            assert(q[f.right_map()[i] as int] == q[fa + id.left_map()[i]]);
            assert(s[f.right_map()[i] as int] == k);
        }
    }
    lemma_bijection_len(s, r.apex().len());
    assert forall|x: int| 0 <= x < s.len() implies r.apex()[#[trigger] s[x] as int] == f.apex()[x] by {
        assert(r.apex()[q[x] as int] == crate::cospan::glued_label(f.apex(), id.apex(), x));
    }
    assert(r.left_map() =~= Seq::new(f.left_map().len(), |i: int| s[f.left_map()[i] as int]));
    assert(r.right_map() =~= Seq::new(f.right_map().len(), |j: int| s[f.right_map()[j] as int])) by {
        assert forall|j: int| 0 <= j < p implies r.right_map()[j] == s[f.right_map()[j] as int] by {
            assert(id.right_map()[j] == j);
            assert(id.left_map()[j] == j);
            assert(q[f.right_map()[j] as int] == q[fa + id.left_map()[j]]);
        }
    }
    assert(is_iso_via(f, r, s));
}

/// The leg of a monoidal product: `a`, then `b` shifted past an apex of
/// `shift` elements.
pub open spec fn tensor_leg(a: Seq<usize>, b: Seq<usize>, shift: nat) -> Seq<usize> {
    a + shifted(b, shift)
}

/// The monoidal product of cospans is associative: `(f ⊗ g) ⊗ h` and
/// `f ⊗ (g ⊗ h)` have the same legs and the same apex.
pub proof fn law_cospan_monoidal_assoc<L: Label>(f: Cospan<L>, g: Cospan<L>, h: Cospan<L>)
    requires
        cospan_valid(f),
        cospan_valid(g),
        cospan_valid(h),
        f.apex().len() + g.apex().len() + h.apex().len() <= usize::MAX,
    ensures
        tensor_leg(
            tensor_leg(f.left_map(), g.left_map(), f.apex().len()),
            h.left_map(),
            f.apex().len() + g.apex().len(),
        ) == tensor_leg(
            f.left_map(),
            tensor_leg(g.left_map(), h.left_map(), g.apex().len()),
            f.apex().len(),
        ),
        tensor_leg(
            tensor_leg(f.right_map(), g.right_map(), f.apex().len()),
            h.right_map(),
            f.apex().len() + g.apex().len(),
        ) == tensor_leg(
            f.right_map(),
            tensor_leg(g.right_map(), h.right_map(), g.apex().len()),
            f.apex().len(),
        ),
        (f.apex() + g.apex()) + h.apex() == f.apex() + (g.apex() + h.apex()),
{
    let m1 = f.apex().len();
    let m2 = g.apex().len();
    assert(tensor_leg(tensor_leg(f.left_map(), g.left_map(), m1), h.left_map(), m1 + m2) =~= tensor_leg(
        f.left_map(),
        tensor_leg(g.left_map(), h.left_map(), m2),
        m1,
    ));
    assert(tensor_leg(tensor_leg(f.right_map(), g.right_map(), m1), h.right_map(), m1 + m2) =~= tensor_leg(
        f.right_map(),
        tensor_leg(g.right_map(), h.right_map(), m2),
        m1,
    ));
    assert((f.apex() + g.apex()) + h.apex() =~= f.apex() + (g.apex() + h.apex()));
}

/// The empty cospan is a unit of the monoidal product on both sides.
pub proof fn law_cospan_monoidal_unit<L: Label>(f: Cospan<L>, e: Cospan<L>)
    requires
        cospan_valid(f),
        e.left_map().len() == 0,
        e.right_map().len() == 0,
        e.apex().len() == 0,
    ensures
        tensor_leg(f.left_map(), e.left_map(), f.apex().len()) == f.left_map(),
        tensor_leg(f.right_map(), e.right_map(), f.apex().len()) == f.right_map(),
        f.apex() + e.apex() == f.apex(),
        tensor_leg(e.left_map(), f.left_map(), e.apex().len()) == f.left_map(),
        tensor_leg(e.right_map(), f.right_map(), e.apex().len()) == f.right_map(),
        e.apex() + f.apex() == f.apex(),
{
    assert(tensor_leg(f.left_map(), e.left_map(), f.apex().len()) =~= f.left_map());
    assert(tensor_leg(f.right_map(), e.right_map(), f.apex().len()) =~= f.right_map());
    assert(f.apex() + e.apex() =~= f.apex());
    assert(tensor_leg(e.left_map(), f.left_map(), 0) =~= f.left_map());
    assert(tensor_leg(e.right_map(), f.right_map(), 0) =~= f.right_map());
    assert(e.apex() + f.apex() =~= f.apex());
}

/// `r` is the pushout composite of `a` and `b` through the quotient map `q`
/// of the disjoint union of their apexes (the body of `is_composite`).
pub open spec fn composite_via<L: Label>(a: Cospan<L>, b: Cospan<L>, r: Cospan<L>, q: Seq<usize>) -> bool {
    let m1 = a.apex().len();
    let total = m1 + b.apex().len();
    &&& is_pushout_quotient(q, r.apex().len(), a.right_map(), b.left_map(), m1, total)
    &&& forall|x: int|
        0 <= x < total ==> r.apex()[#[trigger] q[x] as int] == glued_label(a.apex(), b.apex(), x)
    &&& r.left_map() == Seq::new(a.left_map().len(), |i: int| q[a.left_map()[i] as int])
    &&& r.right_map() == Seq::new(b.right_map().len(), |j: int| q[m1 + b.right_map()[j]])
}

/// The quotient map of a composite.
proof fn composite_quotient<L: Label>(a: Cospan<L>, b: Cospan<L>, r: Cospan<L>) -> (q: Seq<usize>)
    requires
        a.is_composite(&b, &r),
    ensures
        composite_via(a, b, r, q),
{
    let m1 = a.apex().len();
    let total = m1 + b.apex().len();
    choose|q: Seq<usize>|
        {
            &&& is_pushout_quotient(q, r.apex().len(), a.right_map(), b.left_map(), m1, total)
            &&& forall|x: int|
                0 <= x < total ==> r.apex()[#[trigger] q[x] as int] == glued_label(a.apex(), b.apex(), x)
            &&& r.left_map() == Seq::new(a.left_map().len(), |i: int| q[a.left_map()[i] as int])
            &&& r.right_map() == Seq::new(b.right_map().len(), |j: int| q[m1 + b.right_map()[j]])
        }
}

/// The label of element `x` of the disjoint union of three apexes.
spec fn label3<L>(a: Seq<L>, b: Seq<L>, c: Seq<L>, x: int) -> L {
    if x < a.len() {
        a[x]
    } else if x < a.len() + b.len() {
        b[x - a.len()]
    } else {
        c[x - a.len() - b.len()]
    }
}

/// Where element `x` of the disjoint union of the apexes of `f`, `g`, `h`
/// lands in the apex of `(f ; g) ; h`.
spec fn left_class(m1: nat, m2: nat, n1: nat, q1: Seq<usize>, q2: Seq<usize>, x: int) -> int {
    if x < m1 + m2 {
        q2[q1[x] as int] as int
    } else {
        q2[n1 + (x - m1 - m2)] as int
    }
}

/// Where element `x` of the disjoint union of the apexes of `f`, `g`, `h`
/// lands in the apex of `f ; (g ; h)`.
spec fn right_class(m1: nat, q3: Seq<usize>, q4: Seq<usize>, x: int) -> int {
    if x < m1 {
        q4[x] as int
    } else {
        q4[m1 + q3[x - m1]] as int
    }
}

/// The facts the associativity proof works from.
spec fn assoc_setup<L: Label>(
    f: Cospan<L>,
    g: Cospan<L>,
    h: Cospan<L>,
    fg: Cospan<L>,
    fg_h: Cospan<L>,
    gh: Cospan<L>,
    f_gh: Cospan<L>,
    q1: Seq<usize>,
    q2: Seq<usize>,
    q3: Seq<usize>,
    q4: Seq<usize>,
) -> bool {
    &&& cospan_valid(f)
    &&& cospan_valid(g)
    &&& cospan_valid(h)
    &&& cospan_valid(fg)
    &&& cospan_valid(gh)
    &&& f.right_map().len() == g.left_map().len()
    &&& g.right_map().len() == h.left_map().len()
    &&& composite_via(f, g, fg, q1)
    &&& composite_via(fg, h, fg_h, q2)
    &&& composite_via(g, h, gh, q3)
    &&& composite_via(f, gh, f_gh, q4)
}

/// Elements that `(f ; g) ; h` puts in one class, `f ; (g ; h)` puts in one
/// class too.
proof fn lemma_left_class_refines<L: Label>(
    f: Cospan<L>,
    g: Cospan<L>,
    h: Cospan<L>,
    fg: Cospan<L>,
    fg_h: Cospan<L>,
    gh: Cospan<L>,
    f_gh: Cospan<L>,
    q1: Seq<usize>,
    q2: Seq<usize>,
    q3: Seq<usize>,
    q4: Seq<usize>,
)
    requires
        assoc_setup(f, g, h, fg, fg_h, gh, f_gh, q1, q2, q3, q4),
    ensures
        forall|x: int, y: int|
            0 <= x < f.apex().len() + g.apex().len() + h.apex().len() && 0 <= y < f.apex().len()
                + g.apex().len() + h.apex().len() && #[trigger] left_class(
                f.apex().len(),
                g.apex().len(),
                fg.apex().len(),
                q1,
                q2,
                x,
            ) == #[trigger] left_class(f.apex().len(), g.apex().len(), fg.apex().len(), q1, q2, y)
                ==> right_class(f.apex().len(), q3, q4, x) == right_class(f.apex().len(), q3, q4, y),
{
    let m1 = f.apex().len();
    let m2 = g.apex().len();
    let m3 = h.apex().len();
    let n1 = fg.apex().len();
    let psi = |x: int| right_class(m1, q3, q4, x);
    // Gluing in f ; g is respected by psi.
    assert(respects_interface(psi, f.right_map(), g.left_map(), m1)) by {
        assert forall|i: int| 0 <= i < f.right_map().len() implies psi(#[trigger] f.right_map()[i] as int)
            == psi(m1 + g.left_map()[i]) by {
            assert(gh.left_map()[i] == q3[g.left_map()[i] as int]);
            assert(q4[f.right_map()[i] as int] == q4[m1 + gh.left_map()[i]]);
        }
    }
    assert forall|x: int, y: int|
        0 <= x < m1 + m2 && 0 <= y < m1 + m2 && #[trigger] q1[x] == #[trigger] q1[y] implies psi(x) == psi(
        y,
    ) by {}
    let fz = |z: int|
        if z < n1 {
            psi(choose|x: int| 0 <= x < m1 + m2 && q1[x] == z)
        } else {
            psi(m1 + m2 + (z - n1))
        };
    assert forall|x: int| 0 <= x < m1 + m2 implies fz(#[trigger] q1[x] as int) == psi(x) by {
        assert(crate::cospan::class_hit(q1, m1 + m2, q1[x] as int));
        let w = choose|w: int| 0 <= w < m1 + m2 && q1[w] == q1[x];
        assert(q1[w] == q1[x]);
    }
    assert(respects_interface(fz, fg.right_map(), h.left_map(), n1)) by {
        assert forall|i: int| 0 <= i < fg.right_map().len() implies fz(#[trigger] fg.right_map()[i] as int)
            == fz(n1 + h.left_map()[i]) by {
            assert(fg.right_map()[i] == q1[m1 + g.right_map()[i]]);
            assert(fz(q1[m1 + g.right_map()[i]] as int) == psi(m1 + g.right_map()[i]));
            assert(q3[g.right_map()[i] as int] == q3[m2 + h.left_map()[i]]);
        }
    }
    assert forall|a: int, b: int|
        0 <= a < n1 + m3 && 0 <= b < n1 + m3 && #[trigger] q2[a] == #[trigger] q2[b] implies fz(a) == fz(
        b,
    ) by {}
    assert forall|x: int, y: int|
        0 <= x < m1 + m2 + m3 && 0 <= y < m1 + m2 + m3 && #[trigger] left_class(m1, m2, n1, q1, q2, x)
            == #[trigger] left_class(m1, m2, n1, q1, q2, y) implies psi(x) == psi(y) by {
        let ix = if x < m1 + m2 {
            q1[x] as int
        } else {
            n1 + (x - m1 - m2)
        };
        let iy = if y < m1 + m2 {
            q1[y] as int
        } else {
            n1 + (y - m1 - m2)
        };
        if x < m1 + m2 {
            assert(fz(q1[x] as int) == psi(x));
        }
        if y < m1 + m2 {
            assert(fz(q1[y] as int) == psi(y));
        }
        assert(q2[ix] == q2[iy]);
        assert(fz(ix) == fz(iy));
    }
}

/// Elements that `f ; (g ; h)` puts in one class, `(f ; g) ; h` puts in one
/// class too.
proof fn lemma_right_class_refines<L: Label>(
    f: Cospan<L>,
    g: Cospan<L>,
    h: Cospan<L>,
    fg: Cospan<L>,
    fg_h: Cospan<L>,
    gh: Cospan<L>,
    f_gh: Cospan<L>,
    q1: Seq<usize>,
    q2: Seq<usize>,
    q3: Seq<usize>,
    q4: Seq<usize>,
)
    requires
        assoc_setup(f, g, h, fg, fg_h, gh, f_gh, q1, q2, q3, q4),
    ensures
        forall|x: int, y: int|
            0 <= x < f.apex().len() + g.apex().len() + h.apex().len() && 0 <= y < f.apex().len()
                + g.apex().len() + h.apex().len() && #[trigger] right_class(f.apex().len(), q3, q4, x)
                == #[trigger] right_class(f.apex().len(), q3, q4, y) ==> left_class(
                f.apex().len(),
                g.apex().len(),
                fg.apex().len(),
                q1,
                q2,
                x,
            ) == left_class(f.apex().len(), g.apex().len(), fg.apex().len(), q1, q2, y),
{
    let m1 = f.apex().len();
    let m2 = g.apex().len();
    let m3 = h.apex().len();
    let n1 = fg.apex().len();
    let n3 = gh.apex().len();
    let phi = |x: int| left_class(m1, m2, n1, q1, q2, x);
    let hz = |w: int| phi(m1 + w);
    // Gluing in g ; h is respected by phi, moved past the apex of f.
    assert(respects_interface(hz, g.right_map(), h.left_map(), m2)) by {
        assert forall|i: int| 0 <= i < g.right_map().len() implies hz(#[trigger] g.right_map()[i] as int)
            == hz(m2 + h.left_map()[i]) by {
            assert(fg.right_map()[i] == q1[m1 + g.right_map()[i]]);
            assert(q2[fg.right_map()[i] as int] == q2[n1 + h.left_map()[i]]);
        }
    }
    assert forall|x: int, y: int|
        0 <= x < m2 + m3 && 0 <= y < m2 + m3 && #[trigger] q3[x] == #[trigger] q3[y] implies hz(x) == hz(
        y,
    ) by {}
    let kz = |z: int|
        if z < m1 {
            phi(z)
        } else {
            phi(m1 + choose|w: int| 0 <= w < m2 + m3 && q3[w] == z - m1)
        };
    assert forall|w: int| 0 <= w < m2 + m3 implies kz(m1 + #[trigger] q3[w]) == phi(m1 + w) by {
        assert(crate::cospan::class_hit(q3, m2 + m3, q3[w] as int));
        let v = choose|v: int| 0 <= v < m2 + m3 && q3[v] == q3[w];
        assert(q3[v] == q3[w]);
        assert(hz(v) == hz(w));
    }
    assert(respects_interface(kz, f.right_map(), gh.left_map(), m1)) by {
        assert forall|i: int| 0 <= i < f.right_map().len() implies kz(#[trigger] f.right_map()[i] as int)
            == kz(m1 + gh.left_map()[i]) by {
            assert(gh.left_map()[i] == q3[g.left_map()[i] as int]);
            assert(kz(m1 + q3[g.left_map()[i] as int]) == phi(m1 + g.left_map()[i]));
            assert(q1[f.right_map()[i] as int] == q1[m1 + g.left_map()[i]]);
        }
    }
    assert forall|a: int, b: int|
        0 <= a < m1 + n3 && 0 <= b < m1 + n3 && #[trigger] q4[a] == #[trigger] q4[b] implies kz(a) == kz(
        b,
    ) by {}
    assert forall|x: int, y: int|
        0 <= x < m1 + m2 + m3 && 0 <= y < m1 + m2 + m3 && #[trigger] right_class(m1, q3, q4, x)
            == #[trigger] right_class(m1, q3, q4, y) implies phi(x) == phi(y) by {
        let ix = if x < m1 {
            x
        } else {
            m1 + q3[x - m1]
        };
        let iy = if y < m1 {
            y
        } else {
            m1 + q3[y - m1]
        };
        if x >= m1 {
            assert(kz(m1 + q3[x - m1]) == phi(m1 + (x - m1)));
        }
        if y >= m1 {
            assert(kz(m1 + q3[y - m1]) == phi(m1 + (y - m1)));
        }
        assert(q4[ix] == q4[iy]);
        assert(kz(ix) == kz(iy));
    }
}

/// Some element below `tot` lands in class `k` of `(f ; g) ; h`.
spec fn left_hit(m1: nat, m2: nat, n1: nat, q1: Seq<usize>, q2: Seq<usize>, tot: nat, k: int) -> bool {
    exists|x: int| 0 <= x < tot && left_class(m1, m2, n1, q1, q2, x) == k
}

/// Some element below `tot` lands in class `k` of `f ; (g ; h)`.
spec fn right_hit(m1: nat, q3: Seq<usize>, q4: Seq<usize>, tot: nat, k: int) -> bool {
    exists|x: int| 0 <= x < tot && right_class(m1, q3, q4, x) == k
}

/// Every element of the apex of `(f ; g) ; h` and of `f ; (g ; h)` is the
/// class of some element of the three apexes, whose label it carries.
proof fn lemma_classes_cover<L: Label>(
    f: Cospan<L>,
    g: Cospan<L>,
    h: Cospan<L>,
    fg: Cospan<L>,
    fg_h: Cospan<L>,
    gh: Cospan<L>,
    f_gh: Cospan<L>,
    q1: Seq<usize>,
    q2: Seq<usize>,
    q3: Seq<usize>,
    q4: Seq<usize>,
)
    requires
        assoc_setup(f, g, h, fg, fg_h, gh, f_gh, q1, q2, q3, q4),
    ensures
        forall|k: int|
            0 <= k < fg_h.apex().len() ==> #[trigger] left_hit(
                f.apex().len(),
                g.apex().len(),
                fg.apex().len(),
                q1,
                q2,
                f.apex().len() + g.apex().len() + h.apex().len(),
                k,
            ),
        forall|k: int|
            0 <= k < f_gh.apex().len() ==> #[trigger] right_hit(
                f.apex().len(),
                q3,
                q4,
                f.apex().len() + g.apex().len() + h.apex().len(),
                k,
            ),
        forall|x: int|
            0 <= x < f.apex().len() + g.apex().len() + h.apex().len() ==> {
                &&& 0 <= #[trigger] left_class(f.apex().len(), g.apex().len(), fg.apex().len(), q1, q2, x)
                    < fg_h.apex().len()
                &&& fg_h.apex()[left_class(f.apex().len(), g.apex().len(), fg.apex().len(), q1, q2, x)]
                    == label3(f.apex(), g.apex(), h.apex(), x)
            },
        forall|x: int|
            0 <= x < f.apex().len() + g.apex().len() + h.apex().len() ==> {
                &&& 0 <= #[trigger] right_class(f.apex().len(), q3, q4, x) < f_gh.apex().len()
                &&& f_gh.apex()[right_class(f.apex().len(), q3, q4, x)] == label3(
                    f.apex(),
                    g.apex(),
                    h.apex(),
                    x,
                )
            },
{
    let m1 = f.apex().len();
    let m2 = g.apex().len();
    let m3 = h.apex().len();
    let n1 = fg.apex().len();
    let n3 = gh.apex().len();
    assert forall|k: int| 0 <= k < fg_h.apex().len() implies #[trigger] left_hit(
        m1,
        m2,
        n1,
        q1,
        q2,
        m1 + m2 + m3,
        k,
    ) by {
        assert(crate::cospan::class_hit(q2, n1 + m3, k));
        let z = choose|z: int| 0 <= z < n1 + m3 && q2[z] == k;
        if z < n1 {
            assert(crate::cospan::class_hit(q1, m1 + m2, z));
            let x = choose|x: int| 0 <= x < m1 + m2 && q1[x] == z;
            assert(left_class(m1, m2, n1, q1, q2, x) == k);
        } else {
            assert(left_class(m1, m2, n1, q1, q2, m1 + m2 + (z - n1)) == k);
        }
    }
    assert forall|k: int| 0 <= k < f_gh.apex().len() implies #[trigger] right_hit(
        m1,
        q3,
        q4,
        m1 + m2 + m3,
        k,
    ) by {
        assert(crate::cospan::class_hit(q4, m1 + n3, k));
        let z = choose|z: int| 0 <= z < m1 + n3 && q4[z] == k;
        if z < m1 {
            assert(right_class(m1, q3, q4, z) == k);
        } else {
            assert(crate::cospan::class_hit(q3, m2 + m3, z - m1));
            let w = choose|w: int| 0 <= w < m2 + m3 && q3[w] == z - m1;
            assert(right_class(m1, q3, q4, m1 + w) == k);
        }
    }
    assert forall|x: int| 0 <= x < m1 + m2 + m3 implies {
        &&& 0 <= #[trigger] left_class(m1, m2, n1, q1, q2, x) < fg_h.apex().len()
        &&& fg_h.apex()[left_class(m1, m2, n1, q1, q2, x)] == label3(f.apex(), g.apex(), h.apex(), x)
    } by {
        if x < m1 + m2 {
            assert(q1[x] < n1);
            assert(fg_h.apex()[q2[q1[x] as int] as int] == glued_label(fg.apex(), h.apex(), q1[x] as int));
            assert(fg.apex()[q1[x] as int] == glued_label(f.apex(), g.apex(), x));
        } else {
            assert(fg_h.apex()[q2[n1 + (x - m1 - m2)] as int] == glued_label(
                fg.apex(),
                h.apex(),
                n1 + (x - m1 - m2),
            ));
        }
    }
    assert forall|x: int| 0 <= x < m1 + m2 + m3 implies {
        &&& 0 <= #[trigger] right_class(m1, q3, q4, x) < f_gh.apex().len()
        &&& f_gh.apex()[right_class(m1, q3, q4, x)] == label3(f.apex(), g.apex(), h.apex(), x)
    } by {
        if x < m1 {
            assert(f_gh.apex()[q4[x] as int] == glued_label(f.apex(), gh.apex(), x));
        } else {
            assert(q3[x - m1] < n3);
            assert(f_gh.apex()[q4[m1 + q3[x - m1]] as int] == glued_label(
                f.apex(),
                gh.apex(),
                m1 + q3[x - m1],
            ));
            assert(gh.apex()[q3[x - m1] as int] == glued_label(g.apex(), h.apex(), x - m1));
        }
    }
}

/// Associativity: `(f ; g) ; h` and `f ; (g ; h)` are the same cospan up to
/// renumbering of the apex.
pub proof fn law_cospan_compose_assoc<L: Label>(
    f: Cospan<L>,
    g: Cospan<L>,
    h: Cospan<L>,
    fg: Cospan<L>,
    fg_h: Cospan<L>,
    gh: Cospan<L>,
    f_gh: Cospan<L>,
)
    requires
        cospan_valid(f),
        cospan_valid(g),
        cospan_valid(h),
        cospan_valid(fg),
        cospan_valid(gh),
        cospan_valid(fg_h),
        cospan_valid(f_gh),
        f.cod() == g.dom(),
        g.cod() == h.dom(),
        f.is_composite(&g, &fg),
        fg.is_composite(&h, &fg_h),
        g.is_composite(&h, &gh),
        f.is_composite(&gh, &f_gh),
    ensures
        isomorphic(fg_h, f_gh),
{
    let q1 = composite_quotient(f, g, fg);
    let q2 = composite_quotient(fg, h, fg_h);
    let q3 = composite_quotient(g, h, gh);
    let q4 = composite_quotient(f, gh, f_gh);
    assert(f.right_map().len() == f.cod().len());
    assert(g.left_map().len() == g.dom().len());
    assert(g.right_map().len() == g.cod().len());
    assert(h.left_map().len() == h.dom().len());
    assert(assoc_setup(f, g, h, fg, fg_h, gh, f_gh, q1, q2, q3, q4));
    lemma_left_class_refines(f, g, h, fg, fg_h, gh, f_gh, q1, q2, q3, q4);
    lemma_right_class_refines(f, g, h, fg, fg_h, gh, f_gh, q1, q2, q3, q4);
    lemma_classes_cover(f, g, h, fg, fg_h, gh, f_gh, q1, q2, q3, q4);
    let m1 = f.apex().len();
    let m2 = g.apex().len();
    let m3 = h.apex().len();
    let n1 = fg.apex().len();
    let tot = m1 + m2 + m3;
    let phi = |x: int| left_class(m1, m2, n1, q1, q2, x);
    let psi = |x: int| right_class(m1, q3, q4, x);
    let pick = |k: int| choose|x: int| 0 <= x < tot && left_class(m1, m2, n1, q1, q2, x) == k;
    let s = Seq::new(fg_h.apex().len(), |k: int| psi(pick(k)) as usize);
    assert forall|k: int| 0 <= k < s.len() implies 0 <= pick(k) < tot && phi(pick(k)) == k && s[k]
        == psi(pick(k)) by {
        assert(left_hit(m1, m2, n1, q1, q2, tot, k));
    }
    assert forall|x: int| 0 <= x < tot implies s[#[trigger] phi(x)] == psi(x) by {
        let k = phi(x);
        assert(left_hit(m1, m2, n1, q1, q2, tot, k));
        assert(0 <= pick(k) < tot && phi(pick(k)) == k);
    }
    assert forall|x: int| 0 <= x < s.len() implies #[trigger] s[x] < f_gh.apex().len() by {
        assert(left_hit(m1, m2, n1, q1, q2, tot, x));
        assert(0 <= pick(x) < tot);
        assert(0 <= right_class(m1, q3, q4, pick(x)) < f_gh.apex().len());
    }
    assert forall|x: int, y: int| 0 <= x < y < s.len() implies #[trigger] s[x] != #[trigger] s[y] by {
        assert(left_hit(m1, m2, n1, q1, q2, tot, x));
        assert(left_hit(m1, m2, n1, q1, q2, tot, y));
        assert(0 <= pick(x) < tot && phi(pick(x)) == x);
        assert(0 <= pick(y) < tot && phi(pick(y)) == y);
        if s[x] == s[y] {
            assert(right_class(m1, q3, q4, pick(x)) == right_class(m1, q3, q4, pick(y)));
            assert(left_class(m1, m2, n1, q1, q2, pick(x)) == left_class(m1, m2, n1, q1, q2, pick(y)));
        }
    }
    assert forall|k: int| 0 <= k < f_gh.apex().len() implies #[trigger] takes_value(s, k) by {
        assert(right_hit(m1, q3, q4, tot, k));
        let x = choose|x: int| 0 <= x < tot && right_class(m1, q3, q4, x) == k;
        assert(0 <= left_class(m1, m2, n1, q1, q2, x) < fg_h.apex().len());
        assert(s[phi(x)] == k);
    }
    lemma_bijection_len(s, f_gh.apex().len());
    assert forall|k: int| 0 <= k < s.len() implies f_gh.apex()[#[trigger] s[k] as int] == fg_h.apex()[k] by {
        assert(left_hit(m1, m2, n1, q1, q2, tot, k));
        assert(0 <= pick(k) < tot && phi(pick(k)) == k);
        assert(f_gh.apex()[right_class(m1, q3, q4, pick(k))] == label3(f.apex(), g.apex(), h.apex(), pick(k)));
        assert(fg_h.apex()[left_class(m1, m2, n1, q1, q2, pick(k))] == label3(
            f.apex(),
            g.apex(),
            h.apex(),
            pick(k),
        ));
    }
    assert(f_gh.left_map() =~= Seq::new(fg_h.left_map().len(), |i: int| s[fg_h.left_map()[i] as int])) by {
        assert forall|i: int| 0 <= i < fg_h.left_map().len() implies f_gh.left_map()[i] == s[fg_h.left_map()[i] as int] by {
            assert(fg.left_map()[i] == q1[f.left_map()[i] as int]);
            assert(fg_h.left_map()[i] == q2[fg.left_map()[i] as int]);
            assert(f.left_map()[i] < m1);
            assert(s[phi(f.left_map()[i] as int)] == psi(f.left_map()[i] as int));
        }
    }
    assert(f_gh.right_map() =~= Seq::new(fg_h.right_map().len(), |j: int| s[fg_h.right_map()[j] as int])) by {
        assert forall|j: int| 0 <= j < fg_h.right_map().len() implies f_gh.right_map()[j] == s[fg_h.right_map()[j] as int] by {
            let x = m1 + m2 + h.right_map()[j];
            assert(h.right_map()[j] < m3);
            assert(gh.right_map()[j] == q3[m2 + h.right_map()[j]]);
            assert(s[phi(x)] == psi(x));
        }
    }
    assert(is_iso_via(fg_h, f_gh, s));
}

} // verus!
