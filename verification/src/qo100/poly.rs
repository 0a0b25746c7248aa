//! Finite sums over GF(256), and polynomials given by their coefficients.
//!
//! A coefficient sequence is a function on the integers; a polynomial with
//! `d` coefficients is one that is read on `0..d`.
use crate::qo100::gf256::{
    ginv, gmul, gpow, lemma_gpow_inverse, lemma_inv, lemma_mul_assoc, lemma_mul_cancel,
    lemma_mul_comm, lemma_mul_dist, lemma_mul_nonzero, lemma_mul_one, lemma_mul_zero, lemma_xor,
};
use vstd::prelude::*;

verus! {

/// `f(0) + f(1) + .. + f(n-1)`.
pub open spec fn xsum(f: spec_fn(int) -> u8, n: nat) -> u8
    decreases n,
{
    if n == 0 {
        0
    } else {
        xsum(f, (n - 1) as nat) ^ f(n - 1)
    }
}

pub proof fn lemma_xsum_ext(f: spec_fn(int) -> u8, g: spec_fn(int) -> u8, n: nat)
    requires
        forall|i: int| 0 <= i < n ==> #[trigger] f(i) == g(i),
    ensures
        xsum(f, n) == xsum(g, n),
    decreases n,
{
    if n > 0 {
        lemma_xsum_ext(f, g, (n - 1) as nat);
    }
}

pub proof fn lemma_xsum_zero(f: spec_fn(int) -> u8, n: nat)
    requires
        forall|i: int| 0 <= i < n ==> #[trigger] f(i) == 0,
    ensures
        xsum(f, n) == 0,
    decreases n,
{
    if n > 0 {
        lemma_xsum_zero(f, (n - 1) as nat);
        lemma_xor(0, 0, 0);
    }
}

pub proof fn lemma_xsum_add(
    f: spec_fn(int) -> u8,
    g: spec_fn(int) -> u8,
    h: spec_fn(int) -> u8,
    n: nat,
)
    requires
        forall|i: int| 0 <= i < n ==> #[trigger] h(i) == f(i) ^ g(i),
    ensures
        xsum(h, n) == xsum(f, n) ^ xsum(g, n),
    decreases n,
{
    if n > 0 {
        let m = (n - 1) as nat;
        lemma_xsum_add(f, g, h, m);
        let (a, b, c, d) = (xsum(f, m), xsum(g, m), f(n - 1), g(n - 1));
        assert((a ^ b) ^ (c ^ d) == (a ^ c) ^ (b ^ d)) by (bit_vector);
    } else {
        lemma_xor(0, 0, 0);
    }
}

pub proof fn lemma_xsum_scale(c: u8, f: spec_fn(int) -> u8, h: spec_fn(int) -> u8, n: nat)
    requires
        forall|i: int| 0 <= i < n ==> #[trigger] h(i) == gmul(c, f(i)),
    ensures
        xsum(h, n) == gmul(c, xsum(f, n)),
    decreases n,
{
    if n > 0 {
        let m = (n - 1) as nat;
        lemma_xsum_scale(c, f, h, m);
        lemma_mul_dist(xsum(f, m), f(n - 1), c);
    } else {
        lemma_mul_zero(c);
    }
}

/// Terms that are zero at the end do not count.
pub proof fn lemma_xsum_extend(f: spec_fn(int) -> u8, n: nat, m: nat)
    requires
        n <= m,
        forall|i: int| n <= i < m ==> #[trigger] f(i) == 0,
    ensures
        xsum(f, n) == xsum(f, m),
    decreases m,
{
    if n < m {
        lemma_xsum_extend(f, n, (m - 1) as nat);
        lemma_xor(xsum(f, n), 0, 0);
    }
}

/// A sum with one term that is not zero.
pub proof fn lemma_xsum_single(f: spec_fn(int) -> u8, n: nat, k: int)
    requires
        0 <= k < n,
        forall|i: int| 0 <= i < n && i != k ==> #[trigger] f(i) == 0,
    ensures
        xsum(f, n) == f(k),
    decreases n,
{
    let m = (n - 1) as nat;
    if k == n - 1 {
        lemma_xsum_zero(f, m);
        lemma_xor(f(k), 0, 0);
    } else {
        lemma_xsum_single(f, m, k);
        lemma_xor(f(k), 0, 0);
    }
}

/// The first term split off.
pub proof fn lemma_xsum_first(f: spec_fn(int) -> u8, g: spec_fn(int) -> u8, n: nat)
    requires
        n > 0,
        forall|i: int| 0 <= i < n - 1 ==> #[trigger] g(i) == f(i + 1),
    ensures
        xsum(f, n) == f(0) ^ xsum(g, (n - 1) as nat),
    decreases n,
{
    let m = (n - 1) as nat;
    if m == 0 {
        assert(xsum(f, 0) == 0);
        assert(xsum(g, 0) == 0);
        lemma_xor(f(0), 0, 0);
    } else {
        lemma_xsum_first(f, g, m);
        lemma_xor(f(0), xsum(g, (m - 1) as nat), f(n - 1));
    }
}

/// A sum can be taken from its other end.
pub proof fn lemma_xsum_rev(f: spec_fn(int) -> u8, g: spec_fn(int) -> u8, n: nat)
    requires
        forall|i: int| 0 <= i < n ==> #[trigger] g(i) == f(n - 1 - i),
    ensures
        xsum(f, n) == xsum(g, n),
    decreases n,
{
    if n > 0 {
        let m = (n - 1) as nat;
        let f1 = |i: int| f(i + 1);
        lemma_xsum_first(f, f1, n);
        assert forall|i: int| 0 <= i < m implies #[trigger] g(i) == f1(m - 1 - i) by {}
        lemma_xsum_rev(f1, g, m);
        assert(g(n - 1) == f(0));
        lemma_xor(f(0), xsum(f1, m), 0);
    }
}

/// The order of a double sum does not matter: `row` and `col` are its two
/// partial sums.
pub proof fn lemma_xsum_swap(
    f: spec_fn(int, int) -> u8,
    row: spec_fn(int) -> u8,
    col: spec_fn(int) -> u8,
    n: nat,
    m: nat,
)
    requires
        forall|i: int| 0 <= i < n ==> #[trigger] row(i) == xsum(|j: int| f(i, j), m),
        forall|j: int| 0 <= j < m ==> #[trigger] col(j) == xsum(|i: int| f(i, j), n),
    ensures
        xsum(row, n) == xsum(col, m),
    decreases n,
{
    if n == 0 {
        lemma_xsum_zero(col, m);
    } else {
        let n1 = (n - 1) as nat;
        let col1 = |j: int| xsum(|i: int| f(i, j), n1);
        let last = |j: int| f(n - 1, j);
        lemma_xsum_swap(f, row, col1, n1, m);
        assert forall|j: int| 0 <= j < m implies #[trigger] col(j) == col1(j) ^ last(j) by {}
        lemma_xsum_add(col1, last, col, m);
        lemma_xsum_ext(last, |j: int| f(n - 1, j), m);
    }
}

/// The value at `x` of the polynomial with the `d` coefficients `p`.
pub open spec fn peval(p: spec_fn(int) -> u8, d: nat, x: u8) -> u8 {
    xsum(|i: int| gmul(p(i), gpow(x, i as nat)), d)
}

/// The coefficients of the quotient of `p` by `1 + c x`.
pub open spec fn quot(p: spec_fn(int) -> u8, c: u8, n: int) -> u8
    decreases n + 1,
{
    if n < 0 {
        0
    } else {
        p(n) ^ gmul(c, quot(p, c, n - 1))
    }
}

/// `quot(p, c, n)` collects `p` up to `n`, weighted by falling powers of `c`.
pub proof fn lemma_quot_sum(p: spec_fn(int) -> u8, c: u8, n: nat)
    ensures
        quot(p, c, n as int) == xsum(
            |i: int| gmul(p(i), gpow(c, (n - i) as nat)),
            (n + 1) as nat,
        ),
    decreases n,
{
    let f = |i: int| gmul(p(i), gpow(c, (n - i) as nat));
    if n == 0 {
        lemma_mul_zero(c);
        lemma_xor(p(0), 0, 0);
        lemma_mul_one(p(0));
        assert(quot(p, c, -1) == 0);
        assert(f(0) == p(0));
        assert(xsum(f, 0) == 0);
        assert(xsum(f, 1) == xsum(f, 0) ^ f(0));
    } else {
        let m = (n - 1) as nat;
        lemma_quot_sum(p, c, m);
        let g = |i: int| gmul(p(i), gpow(c, (m - i) as nat));
        assert forall|i: int| 0 <= i < n implies #[trigger] f(i) == gmul(c, g(i)) by {
            let k = (m - i) as nat;
            lemma_mul_assoc(p(i), gpow(c, k), c);
            lemma_mul_comm(c, g(i));
            assert((n - i) as nat == k + 1);
        }
        lemma_xsum_scale(c, g, f, n);
        lemma_mul_one(p(n as int));
        assert(f(n as int) == p(n as int));
        lemma_xor(p(n as int), gmul(c, xsum(g, n)), 0);
        assert(xsum(f, (n + 1) as nat) == xsum(f, n) ^ f(n as int));
    }
}

/// Where `y` is the inverse of `c` and a root of `p`, the division by
/// `1 + c x` leaves no remainder.
pub proof fn lemma_quot_exact(p: spec_fn(int) -> u8, d: nat, c: u8, y: u8)
    requires
        gmul(c, y) == 1,
        d > 0,
        peval(p, d, y) == 0,
    ensures
        quot(p, c, d - 1) == 0,
{
    let n = (d - 1) as nat;
    let f = |i: int| gmul(p(i), gpow(c, (n - i) as nat));
    let g = |i: int| gmul(p(i), gpow(y, i as nat));
    lemma_quot_sum(p, c, n);
    let w = gpow(c, n);
    assert forall|i: int| 0 <= i < d implies #[trigger] f(i) == gmul(w, g(i)) by {
        lemma_gpow_inverse(c, y, n, i as nat);
        let v = gpow(y, i as nat);
        lemma_mul_comm(w, g(i));
        lemma_mul_assoc(p(i), v, w);
        lemma_mul_comm(v, w);
    }
    lemma_xsum_scale(w, g, f, d);
    lemma_mul_zero(w);
    lemma_xsum_ext(f, |i: int| gmul(p(i), gpow(c, (n - i) as nat)), d);
}

/// `p(z) = (1 + c z) q(z)`, where the division leaves no remainder.
pub proof fn lemma_quot_eval(p: spec_fn(int) -> u8, d: nat, c: u8, z: u8)
    requires
        d > 0,
        quot(p, c, d - 1) == 0,
    ensures
        peval(p, d, z) == gmul(
            1 ^ gmul(c, z),
            peval(|n: int| quot(p, c, n), (d - 1) as nat, z),
        ),
{
    let q = |n: int| quot(p, c, n);
    let pe = |i: int| gmul(p(i), gpow(z, i as nat));
    let qe = |i: int| gmul(q(i), gpow(z, i as nat));
    lemma_quot_eval_upto(p, c, z, d, pe, qe);
    let m = (d - 1) as nat;
    let s = xsum(qe, m);
    let t = xsum(qe, d);
    lemma_mul_zero(gpow(z, m));
    lemma_xor(s, 0, 0);
    assert(t == s);
    lemma_mul_dist(1, gmul(c, z), s);
    lemma_mul_one(s);
    lemma_xsum_ext(pe, |i: int| gmul(p(i), gpow(z, i as nat)), d);
    lemma_xsum_ext(qe, |i: int| gmul(q(i), gpow(z, i as nat)), m);
    assert(peval(q, m, z) == s);
}

proof fn lemma_quot_eval_upto(
    p: spec_fn(int) -> u8,
    c: u8,
    z: u8,
    d: nat,
    pe: spec_fn(int) -> u8,
    qe: spec_fn(int) -> u8,
)
    requires
        d > 0,
        forall|i: int| #[trigger] pe(i) == gmul(p(i), gpow(z, i as nat)),
        forall|i: int| #[trigger] qe(i) == gmul(quot(p, c, i), gpow(z, i as nat)),
    ensures
        xsum(pe, d) == xsum(qe, d) ^ gmul(gmul(c, z), xsum(qe, (d - 1) as nat)),
    decreases d,
{
    let m = (d - 1) as nat;
    if m == 0 {
        lemma_mul_zero(c);
        lemma_mul_zero(gmul(c, z));
        lemma_xor(p(0), 0, 0);
        assert(quot(p, c, -1) == 0);
        assert(quot(p, c, 0) == p(0));
        assert(xsum(qe, 0) == 0 && xsum(pe, 0) == 0);
        assert(xsum(pe, 1) == xsum(pe, 0) ^ pe(0));
        assert(xsum(qe, 1) == xsum(qe, 0) ^ qe(0));
        lemma_xor(xsum(qe, 1), 0, 0);
    } else {
        let l = (m - 1) as nat;
        lemma_quot_eval_upto(p, c, z, m, pe, qe);
        let q1 = quot(p, c, m - 1);
        let q0 = quot(p, c, m as int);
        let zm = gpow(z, m);
        let zl = gpow(z, l);
        let cz = gmul(c, z);
        // p_m = q_m + c q_{m-1}
        lemma_xor(p(m as int), gmul(c, q1), 0);
        lemma_mul_dist(q0, gmul(c, q1), zm);
        assert(p(m as int) == q0 ^ gmul(c, q1)) by {
            lemma_xor(p(m as int), gmul(c, q1), 0);
        }
        // c q_{m-1} z^m = (c z) (q_{m-1} z^{m-1})
        assert(gmul(gmul(c, q1), zm) == gmul(cz, qe(m - 1))) by {
            lemma_mul_comm(zl, z);
            lemma_mul_assoc(gmul(c, q1), z, zl);
            lemma_mul_assoc(c, q1, z);
            lemma_mul_comm(q1, z);
            lemma_mul_assoc(c, z, q1);
            lemma_mul_assoc(cz, q1, zl);
        }
        let a = xsum(qe, m);
        let b = gmul(cz, xsum(qe, l));
        let x = qe(m as int);
        let y = gmul(cz, qe(m - 1));
        lemma_mul_dist(xsum(qe, l), qe(m - 1), cz);
        assert(xsum(qe, m) == xsum(qe, l) ^ qe(m - 1));
        assert(pe(m as int) == x ^ y);
        assert((a ^ b) ^ (x ^ y) == (a ^ x) ^ (b ^ y)) by (bit_vector);
    }
}

/// A polynomial with `d` coefficients and `d` distinct non-zero roots is zero.
pub proof fn lemma_root_bound(p: spec_fn(int) -> u8, d: nat, roots: Seq<u8>)
    requires
        roots.len() >= d,
        roots.no_duplicates(),
        forall|i: int| 0 <= i < roots.len() ==> roots[i] != 0 && peval(p, d, #[trigger] roots[i]) == 0,
    ensures
        forall|i: int| 0 <= i < d ==> #[trigger] p(i) == 0,
    decreases d,
{
    if d > 0 {
        let y = roots.last();
        let c = ginv(y);
        let rest = roots.drop_last();
        let m = (d - 1) as nat;
        let q = |n: int| quot(p, c, n);
        assert(roots[roots.len() - 1] == y);
        lemma_inv(y);
        lemma_quot_exact(p, d, c, y);
        assert forall|i: int| 0 <= i < rest.len() implies rest[i] != 0 && peval(
            q,
            m,
            #[trigger] rest[i],
        ) == 0 by {
            let z = rest[i];
            assert(roots[i] == z);
            lemma_quot_eval(p, d, c, z);
            lemma_mul_nonzero(1 ^ gmul(c, z), peval(q, m, z));
            lemma_xor(1, gmul(c, z), 0);
            if gmul(c, z) == 1 {
                lemma_mul_comm(c, z);
                lemma_mul_comm(c, y);
                lemma_mul_cancel(z, y, c);
                assert(roots[i] == roots[roots.len() - 1]);
            }
        }
        lemma_root_bound(q, m, rest);
        assert forall|i: int| 0 <= i < d implies #[trigger] p(i) == 0 by {
            assert(q(i) == quot(p, c, i));
            if i < m {
                assert(q(i) == 0);
            }
            if i > 0 {
                assert(q(i - 1) == 0);
            }
            assert(quot(p, c, i) == 0);
            assert(quot(p, c, i - 1) == 0);
            lemma_mul_zero(c);
            lemma_xor(p(i), 0, 0);
        }
    }
}

} // verus!
