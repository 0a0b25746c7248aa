//! The shortest linear recurrence of a syndrome sequence.
//!
//! A register with feedback coefficients `lambda` (constant term one) and
//! length `len` generates a sequence `s` when
//! `lambda_0 s_n + lambda_1 s_(n-1) + ..` is zero for every `n` from `len` on.
//! The Berlekamp-Massey recursion below finds such a register for the 32
//! syndromes of a Reed-Solomon word.
use crate::qo100::gf256::{
    ginv, gmul, lemma_inv, lemma_mul_assoc, lemma_mul_comm,
    lemma_mul_dist, lemma_mul_one, lemma_mul_zero, lemma_xor,
};
use crate::qo100::poly::{
    lemma_xsum_add, lemma_xsum_ext, lemma_xsum_extend, lemma_xsum_first, lemma_xsum_scale,
    lemma_xsum_single, lemma_xsum_swap, lemma_xsum_zero, xsum,
};
use vstd::prelude::*;

verus! {

/// The sequence as a function on the integers, zero outside its range.
pub open spec fn co(s: Seq<u8>) -> spec_fn(int) -> u8 {
    |i: int| if 0 <= i < s.len() { s[i] } else { 0u8 }
}

/// Coefficient `n` of the product of `p`, which has at most 33 coefficients,
/// and `s`.
pub open spec fn conv(p: spec_fn(int) -> u8, s: spec_fn(int) -> u8, n: int) -> u8 {
    xsum(|i: int| gmul(p(i), s(n - i)), 33)
}

/// The state of the recursion: the register found so far, its length, and the
/// register from before the last change of length, scaled to discrepancy one.
pub struct Register {
    pub lambda: Seq<u8>,
    pub prior: Seq<u8>,
    pub len: nat,
}

/// Multiplication by `x`, in 33 coefficients.
pub open spec fn shifted(b: Seq<u8>) -> Seq<u8> {
    Seq::new(33, |i: int| if i == 0 { 0u8 } else { b[i - 1] })
}

/// `lambda + d x prior`.
pub open spec fn adjusted(lambda: Seq<u8>, prior: Seq<u8>, d: u8) -> Seq<u8> {
    Seq::new(33, |i: int| lambda[i] ^ gmul(d, shifted(prior)[i]))
}

/// `lambda / d`.
pub open spec fn scaled(lambda: Seq<u8>, d: u8) -> Seq<u8> {
    Seq::new(33, |i: int| gmul(lambda[i], ginv(d)))
}

/// The constant polynomial one.
pub open spec fn unit_poly() -> Seq<u8> {
    Seq::new(33, |i: int| if i == 0 { 1u8 } else { 0u8 })
}

/// What the register owes at `s_n` to have generated it.
pub open spec fn discrepancy(reg: Register, s: Seq<u8>, n: int) -> u8 {
    conv(co(reg.lambda), co(s), n)
}

/// One step of the recursion: takes in `s_n`.
pub open spec fn massey_step(reg: Register, s: Seq<u8>, n: nat) -> Register {
    let d = discrepancy(reg, s, n as int);
    if d == 0 {
        Register { lambda: reg.lambda, prior: shifted(reg.prior), len: reg.len }
    } else if 2 * reg.len <= n {
        Register {
            lambda: adjusted(reg.lambda, reg.prior, d),
            prior: scaled(reg.lambda, d),
            len: (n + 1 - reg.len) as nat,
        }
    } else {
        Register {
            lambda: adjusted(reg.lambda, reg.prior, d),
            prior: shifted(reg.prior),
            len: reg.len,
        }
    }
}

/// The register after the first `r` elements of `s`.
pub open spec fn massey(s: Seq<u8>, r: nat) -> Register
    decreases r,
{
    if r == 0 {
        Register { lambda: unit_poly(), prior: unit_poly(), len: 0 }
    } else {
        massey_step(massey(s, (r - 1) as nat), s, (r - 1) as nat)
    }
}

/// What holds of the register after `r` elements.
pub open spec fn register_ok(reg: Register, s: Seq<u8>, r: nat) -> bool {
    &&& reg.lambda.len() == 33
    &&& reg.prior.len() == 33
    &&& reg.len <= r
    &&& reg.lambda[0] == 1
    &&& forall|i: int| reg.len < i < 33 ==> #[trigger] reg.lambda[i] == 0
    &&& forall|n: int| reg.len <= n < r ==> #[trigger] conv(co(reg.lambda), co(s), n) == 0
    &&& if reg.len == 0 {
        forall|i: int| 0 <= i < 33 ==> #[trigger] reg.prior[i] == (if i == r {
            1u8
        } else {
            0u8
        })
    } else {
        &&& forall|i: int| r - reg.len < i < 33 ==> #[trigger] reg.prior[i] == 0
        &&& conv(co(reg.prior), co(s), r - 1) == 1
        &&& forall|n: int| r - reg.len <= n < r - 1 ==> #[trigger] conv(co(reg.prior), co(s), n) == 0
    }
}

proof fn lemma_conv_shift(b: Seq<u8>, s: Seq<u8>, n: int)
    requires
        b.len() == 33,
        b[32] == 0,
    ensures
        conv(co(shifted(b)), co(s), n) == conv(co(b), co(s), n - 1),
{
    let f = |i: int| gmul(co(shifted(b))(i), co(s)(n - i));
    let g = |i: int| gmul(co(b)(i), co(s)(n - 1 - i));
    lemma_mul_zero(co(s)(n));
    assert(f(0) == 0);
    assert forall|i: int| 0 <= i < 32 implies #[trigger] g(i) == f(i + 1) by {
        assert(n - 1 - i == n - (i + 1));
    }
    lemma_xsum_first(f, g, 33);
    lemma_xor(xsum(g, 32), 0, 0);
    lemma_mul_zero(co(s)(n - 1 - 32));
    lemma_xsum_extend(g, 32, 33);
    lemma_xsum_ext(f, |i: int| gmul(co(shifted(b))(i), co(s)(n - i)), 33);
    lemma_xsum_ext(g, |i: int| gmul(co(b)(i), co(s)(n - 1 - i)), 33);
}

proof fn lemma_conv_adjusted(lambda: Seq<u8>, prior: Seq<u8>, d: u8, s: Seq<u8>, n: int)
    requires
        lambda.len() == 33,
        prior.len() == 33,
    ensures
        conv(co(adjusted(lambda, prior, d)), co(s), n) == conv(co(lambda), co(s), n) ^ gmul(
            d,
            conv(co(shifted(prior)), co(s), n),
        ),
{
    let sp = shifted(prior);
    let h = |i: int| gmul(co(adjusted(lambda, prior, d))(i), co(s)(n - i));
    let f = |i: int| gmul(co(lambda)(i), co(s)(n - i));
    let p = |i: int| gmul(co(sp)(i), co(s)(n - i));
    let g = |i: int| gmul(d, p(i));
    assert forall|i: int| 0 <= i < 33 implies #[trigger] h(i) == f(i) ^ g(i) by {
        let x = co(s)(n - i);
        lemma_mul_dist(lambda[i], gmul(d, sp[i]), x);
        lemma_mul_assoc(d, sp[i], x);
    }
    lemma_xsum_add(f, g, h, 33);
    lemma_xsum_scale(d, p, g, 33);
    lemma_xsum_ext(h, |i: int| gmul(co(adjusted(lambda, prior, d))(i), co(s)(n - i)), 33);
    lemma_xsum_ext(f, |i: int| gmul(co(lambda)(i), co(s)(n - i)), 33);
    lemma_xsum_ext(p, |i: int| gmul(co(sp)(i), co(s)(n - i)), 33);
}

proof fn lemma_conv_scaled(lambda: Seq<u8>, d: u8, s: Seq<u8>, n: int)
    requires
        lambda.len() == 33,
    ensures
        conv(co(scaled(lambda, d)), co(s), n) == gmul(ginv(d), conv(co(lambda), co(s), n)),
{
    let h = |i: int| gmul(co(scaled(lambda, d))(i), co(s)(n - i));
    let f = |i: int| gmul(co(lambda)(i), co(s)(n - i));
    let c = ginv(d);
    assert forall|i: int| 0 <= i < 33 implies #[trigger] h(i) == gmul(c, f(i)) by {
        lemma_mul_comm(lambda[i], c);
        lemma_mul_assoc(c, lambda[i], co(s)(n - i));
    }
    lemma_xsum_scale(c, f, h, 33);
    lemma_xsum_ext(h, |i: int| gmul(co(scaled(lambda, d))(i), co(s)(n - i)), 33);
    lemma_xsum_ext(f, |i: int| gmul(co(lambda)(i), co(s)(n - i)), 33);
}

/// A step keeps the invariant.
pub proof fn lemma_massey_step(reg: Register, s: Seq<u8>, n: nat)
    requires
        register_ok(reg, s, n),
        n < 32,
    ensures
        register_ok(massey_step(reg, s, n), s, n + 1),
{
    let d = discrepancy(reg, s, n as int);
    let next = massey_step(reg, s, n);
    let r = n + 1;
    assert(reg.prior[32] == 0) by {
        if reg.len == 0 {
            assert(n < 32);
        }
    }
    // What the shifted prior register does.
    assert forall|m: int| conv(co(shifted(reg.prior)), co(s), m) == conv(
        co(reg.prior),
        co(s),
        m - 1,
    ) by {
        lemma_conv_shift(reg.prior, s, m);
    }
    if d == 0 {
        assert forall|m: int| next.len <= m < r implies #[trigger] conv(
            co(next.lambda),
            co(s),
            m,
        ) == 0 by {}
        if reg.len != 0 {
            assert(conv(co(next.prior), co(s), r - 1) == conv(co(reg.prior), co(s), n - 1));
            assert forall|m: int| r - next.len <= m < r - 1 implies #[trigger] conv(
                co(next.prior),
                co(s),
                m,
            ) == 0 by {
                assert(conv(co(reg.prior), co(s), m - 1) == 0);
            }
        }
    } else {
        let sp = shifted(reg.prior);
        assert forall|i: int| next.len < i < 33 implies #[trigger] next.lambda[i] == 0 by {
            lemma_mul_zero(d);
            lemma_xor(0, 0, 0);
            assert(reg.lambda[i] == 0);
            assert(sp[i] == reg.prior[i - 1]);
            assert(reg.prior[i - 1] == 0);
        }
        assert(next.lambda[0] == 1) by {
            lemma_mul_zero(d);
            lemma_xor(1, 0, 0);
        }
        assert forall|m: int| next.len <= m < r implies #[trigger] conv(
            co(next.lambda),
            co(s),
            m,
        ) == 0 by {
            lemma_conv_adjusted(reg.lambda, reg.prior, d, s, m);
            if reg.len == 0 {
                // The new length is r, so the range is empty.
                assert(next.len == r);
            } else if m == n {
                lemma_mul_one(d);
                lemma_xor(d, d, 0);
                assert(conv(co(sp), co(s), m) == 1);
            } else {
                assert(conv(co(reg.lambda), co(s), m) == 0);
                assert(conv(co(reg.prior), co(s), m - 1) == 0);
                lemma_mul_zero(d);
                lemma_xor(0, 0, 0);
            }
        }
        if 2 * reg.len <= n {
            lemma_inv(d);
            lemma_conv_scaled(reg.lambda, d, s, n as int);
            assert(conv(co(next.prior), co(s), r - 1) == 1);
            assert forall|m: int| r - next.len <= m < r - 1 implies #[trigger] conv(
                co(next.prior),
                co(s),
                m,
            ) == 0 by {
                lemma_conv_scaled(reg.lambda, d, s, m);
                lemma_mul_zero(ginv(d));
                assert(conv(co(reg.lambda), co(s), m) == 0);
            }
            assert forall|i: int| r - next.len < i < 33 implies #[trigger] next.prior[i] == 0 by {
                assert(reg.lambda[i] == 0);
                lemma_mul_zero(ginv(d));
            }
        } else {
            assert(conv(co(next.prior), co(s), r - 1) == conv(co(reg.prior), co(s), n - 1));
            assert forall|m: int| r - next.len <= m < r - 1 implies #[trigger] conv(
                co(next.prior),
                co(s),
                m,
            ) == 0 by {
                assert(conv(co(reg.prior), co(s), m - 1) == 0);
            }
        }
    }
}

/// The register that the recursion finds generates the sequence.
pub proof fn lemma_massey(s: Seq<u8>, r: nat)
    requires
        r <= 32,
    ensures
        register_ok(massey(s, r), s, r),
    decreases r,
{
    if r > 0 {
        lemma_massey(s, (r - 1) as nat);
        lemma_massey_step(massey(s, (r - 1) as nat), s, (r - 1) as nat);
    }
}

/// `sigma (lambda s) = lambda (sigma s)`, coefficient `n`.
proof fn lemma_conv_twice(
    lambda: spec_fn(int) -> u8,
    sigma: spec_fn(int) -> u8,
    s: spec_fn(int) -> u8,
    n: int,
)
    ensures
        xsum(|j: int| gmul(sigma(j), conv(lambda, s, n - j)), 33) == xsum(
            |i: int| gmul(lambda(i), conv(sigma, s, n - i)),
            33,
        ),
{
    let f = |j: int, i: int| gmul(sigma(j), gmul(lambda(i), s(n - j - i)));
    let row = |j: int| gmul(sigma(j), conv(lambda, s, n - j));
    let col = |i: int| gmul(lambda(i), conv(sigma, s, n - i));
    assert forall|j: int| 0 <= j < 33 implies #[trigger] row(j) == xsum(
        |i: int| f(j, i),
        33,
    ) by {
        let g = |i: int| gmul(lambda(i), s(n - j - i));
        let h = |i: int| f(j, i);
        lemma_xsum_scale(sigma(j), g, h, 33);
        lemma_xsum_ext(g, |i: int| gmul(lambda(i), s(n - j - i)), 33);
        lemma_xsum_ext(h, |i: int| f(j, i), 33);
    }
    assert forall|i: int| 0 <= i < 33 implies #[trigger] col(i) == xsum(
        |j: int| f(j, i),
        33,
    ) by {
        let g = |j: int| gmul(sigma(j), s(n - i - j));
        let h = |j: int| f(j, i);
        assert forall|j: int| 0 <= j < 33 implies #[trigger] h(j) == gmul(lambda(i), g(j)) by {
            let x = s(n - i - j);
            assert(n - j - i == n - i - j);
            lemma_mul_assoc(sigma(j), lambda(i), x);
            lemma_mul_comm(sigma(j), lambda(i));
            lemma_mul_assoc(lambda(i), sigma(j), x);
        }
        lemma_xsum_scale(lambda(i), g, h, 33);
        lemma_xsum_ext(g, |j: int| gmul(sigma(j), s(n - i - j)), 33);
        lemma_xsum_ext(h, |j: int| f(j, i), 33);
    }
    lemma_xsum_swap(f, row, col, 33, 33);
    lemma_xsum_ext(row, |j: int| gmul(sigma(j), conv(lambda, s, n - j)), 33);
    lemma_xsum_ext(col, |i: int| gmul(lambda(i), conv(sigma, s, n - i)), 33);
}

/// No register of length `v` that generates the sequence is shorter than the
/// one found.
pub proof fn lemma_massey_shortest(s: Seq<u8>, r: nat, sigma: spec_fn(int) -> u8, v: nat)
    requires
        r <= 32,
        v <= 32,
        sigma(0) == 1,
        forall|i: int| v < i < 33 ==> #[trigger] sigma(i) == 0,
        forall|n: int| v <= n < 32 ==> #[trigger] conv(sigma, co(s), n) == 0,
    ensures
        massey(s, r).len <= v,
    decreases r,
{
    if r > 0 {
        let n = (r - 1) as nat;
        let reg = massey(s, n);
        lemma_massey_shortest(s, n, sigma, v);
        lemma_massey(s, n);
        let d = discrepancy(reg, s, n as int);
        if d != 0 && 2 * reg.len <= n && reg.len + v <= n {
            let lambda = co(reg.lambda);
            let left = |j: int| gmul(sigma(j), conv(lambda, co(s), n - j));
            let right = |i: int| gmul(lambda(i), conv(sigma, co(s), n - i));
            lemma_conv_twice(lambda, sigma, co(s), n as int);
            lemma_xsum_ext(left, |j: int| gmul(sigma(j), conv(lambda, co(s), n - j)), 33);
            lemma_xsum_ext(right, |i: int| gmul(lambda(i), conv(sigma, co(s), n - i)), 33);
            assert forall|j: int| 0 <= j < 33 && j != 0 implies #[trigger] left(j) == 0 by {
                lemma_mul_zero(sigma(j));
                lemma_mul_zero(conv(lambda, co(s), n - j));
                if j <= v {
                    assert(conv(lambda, co(s), n - j) == 0);
                }
            }
            lemma_xsum_single(left, 33, 0);
            lemma_mul_one(d);
            assert(left(0) == d);
            assert forall|i: int| 0 <= i < 33 implies #[trigger] right(i) == 0 by {
                lemma_mul_zero(lambda(i));
                lemma_mul_zero(conv(sigma, co(s), n - i));
                if i <= reg.len {
                    assert(conv(sigma, co(s), n - i) == 0);
                } else {
                    assert(reg.lambda[i] == 0);
                }
            }
            lemma_xsum_zero(right, 33);
            assert(false);
        }
    }
}

} // verus!
