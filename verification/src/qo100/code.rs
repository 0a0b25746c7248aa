//! The Reed-Solomon code and its bounded-distance decoder, as mathematics.
//!
//! A word is 255 symbols, the coefficients of a polynomial of degree 254,
//! highest first; a codeword is one that is zero at the 32 roots
//! `alpha^(11 j)`, `j = 112..=143`. The words on the air are 160 symbols long:
//! the 95 symbols in front of them are zero and are not sent.
use crate::qo100::gf256::{
    apow, ginv, gmul, gpow, lemma_apow_add, lemma_apow_injective, lemma_apow_nonzero,
    lemma_apow_period, lemma_gpow_add, lemma_gpow_apow, lemma_gpow_inverse, lemma_gpow_nonzero,
    lemma_inv, lemma_mul_assoc, lemma_mul_cancel, lemma_mul_comm, lemma_mul_dist,
    lemma_mul_nonzero, lemma_mul_one, lemma_mul_zero, lemma_xor,
};
use crate::qo100::massey::{co, conv, lemma_massey, lemma_massey_shortest, massey};
use crate::qo100::poly::{
    lemma_quot_eval, lemma_quot_exact, lemma_quot_sum, lemma_root_bound, lemma_xsum_add,
    lemma_xsum_ext, lemma_xsum_extend, lemma_xsum_first, lemma_xsum_rev, lemma_xsum_scale,
    lemma_xsum_single,
    lemma_xsum_swap, lemma_xsum_zero, peval, quot, xsum,
};
use vstd::prelude::*;

verus! {

/// Root `i` of the generator polynomial.
pub open spec fn code_root(i: int) -> u8 {
    apow((11 * (112 + i)) as nat)
}

/// The 160 sent symbols behind the 95 zeros that are not sent.
pub open spec fn padded(cw: Seq<u8>) -> Seq<u8> {
    Seq::new(255, |k: int| if k < 95 { 0u8 } else { cw[k - 95] })
}

/// The word's polynomial at root `i` of the generator.
pub open spec fn syndrome(word: Seq<u8>, i: int) -> u8 {
    xsum(|k: int| gmul(word[k], gpow(code_root(i), (254 - k) as nat)), 255)
}

pub open spec fn syndromes(word: Seq<u8>) -> Seq<u8> {
    Seq::new(32, |i: int| syndrome(word, i))
}

/// Whether the 160 symbols are a codeword.
pub open spec fn is_codeword(cw: Seq<u8>) -> bool {
    &&& cw.len() == 160
    &&& forall|i: int| 0 <= i < 32 ==> #[trigger] syndrome(padded(cw), i) == 0
}

/// The error locator polynomial of a syndrome sequence.
pub open spec fn locator(s: Seq<u8>) -> Seq<u8> {
    massey(s, 32).lambda
}

/// The highest index below `n` at which `p` is not zero; zero if there is none.
pub open spec fn top_index(p: Seq<u8>, n: nat) -> nat
    decreases n,
{
    if n <= 1 {
        0
    } else if p[n - 1] != 0 {
        (n - 1) as nat
    } else {
        top_index(p, (n - 1) as nat)
    }
}

pub open spec fn degree(p: Seq<u8>) -> nat {
    top_index(p, p.len())
}

/// The field element by which the locator names position `k`: the inverse of
/// the number `alpha^(11 (254 - k))` that position `k` has in the syndromes.
pub open spec fn position_root(k: int) -> u8 {
    apow((11 * (k + 1)) as nat)
}

/// Whether the locator `lambda` names position `k`.
pub open spec fn names(lambda: Seq<u8>, k: int) -> bool {
    0 <= k < 255 && peval(co(lambda), 33, position_root(k)) == 0
}

/// The positions that the locator names.
pub open spec fn named_positions(lambda: Seq<u8>) -> Set<int> {
    Set::new(|k: int| names(lambda, k))
}

/// The error evaluator: the product of locator and syndromes, below the
/// locator's degree, at `x`.
pub open spec fn evaluator(s: Seq<u8>, lambda: Seq<u8>, x: u8) -> u8 {
    peval(|i: int| conv(co(lambda), co(s), i), degree(lambda), x)
}

/// Coefficient `i` of the formal derivative.
pub open spec fn derivative_coef(p: spec_fn(int) -> u8, i: int) -> u8 {
    if i % 2 == 0 {
        p(i + 1)
    } else {
        0
    }
}

/// The formal derivative of the locator at `x`.
pub open spec fn derivative(lambda: Seq<u8>, x: u8) -> u8 {
    peval(|i: int| derivative_coef(co(lambda), i), 32, x)
}

/// The error at position `k` by Forney's formula.
pub open spec fn magnitude(s: Seq<u8>, lambda: Seq<u8>, k: int) -> u8 {
    let x = position_root(k);
    gmul(gmul(evaluator(s, lambda, x), gpow(x, 111)), ginv(derivative(lambda, x)))
}

/// The word with the errors at the named positions taken out.
pub open spec fn corrected(word: Seq<u8>, s: Seq<u8>, lambda: Seq<u8>) -> Seq<u8> {
    Seq::new(
        255,
        |k: int|
            if names(lambda, k) {
                word[k] ^ magnitude(s, lambda, k)
            } else {
                word[k]
            },
    )
}

/// The named positions at which there is an error.
pub open spec fn changed_positions(s: Seq<u8>, lambda: Seq<u8>) -> Set<int> {
    Set::new(|k: int| names(lambda, k) && magnitude(s, lambda, k) != 0)
}

/// Whether the locator describes an error pattern: it has as many positions as
/// its degree says, each of them a simple root, and at least one.
pub open spec fn locates(lambda: Seq<u8>) -> bool {
    &&& degree(lambda) > 0
    &&& named_positions(lambda).len() == degree(lambda)
    &&& forall|k: int| #[trigger] names(lambda, k) ==> derivative(lambda, position_root(k)) != 0
}

/// What the locator and Forney's formula make of 160 received symbols: the
/// symbols with the errors they find taken out, and their number. Nothing where
/// they describe no error pattern, or one among the symbols that were not sent.
#[verifier::opaque]
pub open spec fn solved(cw: Seq<u8>) -> Option<(Seq<u8>, nat)> {
    let s = syndromes(padded(cw));
    if is_codeword(cw) {
        Some((cw, 0nat))
    } else {
        let lambda = locator(s);
        let fixed = corrected(padded(cw), s, lambda);
        if locates(lambda) && (forall|k: int| 0 <= k < 95 ==> fixed[k] == 0) {
            Some((fixed.subrange(95, 255), changed_positions(s, lambda).len()))
        } else {
            None
        }
    }
}

/// Where two words differ.
pub open spec fn differences(a: Seq<u8>, b: Seq<u8>) -> Set<int> {
    Set::new(|k: int| 0 <= k < a.len() && a[k] != b[k])
}

/// Whether `sent` is a codeword that `received` can have come from: no more than
/// sixteen symbols differ.
pub open spec fn in_reach(sent: Seq<u8>, received: Seq<u8>) -> bool {
    is_codeword(sent) && differences(sent, received).len() <= 16
}

/// What decoding 160 received symbols gives: the codeword in reach and the number
/// of symbols that it puts right, or nothing where none is in reach.
#[verifier::opaque]
pub open spec fn decoding(received: Seq<u8>) -> Option<(Seq<u8>, nat)> {
    if exists|sent: Seq<u8>| #[trigger] in_reach(sent, received) {
        let sent = choose|sent: Seq<u8>| #[trigger] in_reach(sent, received);
        Some((sent, differences(sent, received).len()))
    } else {
        None
    }
}

// ---------------------------------------------------------------------------
// Exponential sums
// ---------------------------------------------------------------------------

/// `y_0 x_0^m + y_1 x_1^m + ..`
pub open spec fn esum(ys: spec_fn(int) -> u8, xs: Seq<u8>, m: nat) -> u8 {
    xsum(|l: int| gmul(ys(l), gpow(xs[l], m)), xs.len())
}

/// Filtering an exponential sum by `p` scales each of its terms by the value
/// of `p` at the inverse of its base.
proof fn lemma_conv_esum(
    p: spec_fn(int) -> u8,
    d: nat,
    ys: spec_fn(int) -> u8,
    xs: Seq<u8>,
    vs: Seq<u8>,
    s: spec_fn(int) -> u8,
    m: nat,
)
    requires
        d < 33,
        d <= m,
        forall|i: int| d < i < 33 ==> #[trigger] p(i) == 0,
        xs.len() == vs.len(),
        forall|l: int| 0 <= l < xs.len() ==> gmul(#[trigger] xs[l], vs[l]) == 1,
        forall|t: int| m - d <= t <= m ==> #[trigger] s(t) == esum(ys, xs, t as nat),
    ensures
        conv(p, s, m as int) == esum(|l: int| gmul(ys(l), peval(p, 33, vs[l])), xs, m),
{
    let f = |i: int, l: int|
        if i <= d {
            gmul(p(i), gmul(ys(l), gpow(xs[l], (m - i) as nat)))
        } else {
            0
        };
    let zs = |l: int| gmul(ys(l), peval(p, 33, vs[l]));
    let row = |i: int| gmul(p(i), s(m - i));
    let col = |l: int| gmul(zs(l), gpow(xs[l], m));
    assert forall|i: int| 0 <= i < 33 implies #[trigger] row(i) == xsum(
        |l: int| f(i, l),
        xs.len(),
    ) by {
        let h = |l: int| f(i, l);
        if i <= d {
            let g = |l: int| gmul(ys(l), gpow(xs[l], (m - i) as nat));
            assert(s(m - i) == esum(ys, xs, (m - i) as nat));
            lemma_xsum_ext(g, |l: int| gmul(ys(l), gpow(xs[l], (m - i) as nat)), xs.len());
            lemma_xsum_scale(p(i), g, h, xs.len());
        } else {
            lemma_mul_zero(s(m - i));
            lemma_xsum_zero(h, xs.len());
        }
        lemma_xsum_ext(h, |l: int| f(i, l), xs.len());
    }
    assert forall|l: int| 0 <= l < xs.len() implies #[trigger] col(l) == xsum(
        |i: int| f(i, l),
        33,
    ) by {
        let h = |i: int| f(i, l);
        let e = |i: int| gmul(p(i), gpow(vs[l], i as nat));
        let y = ys(l);
        let w = gpow(xs[l], m);
        let c = gmul(y, w);
        assert(gmul(xs[l], vs[l]) == 1);
        assert forall|i: int| 0 <= i < 33 implies #[trigger] h(i) == gmul(c, e(i)) by {
            let v = gpow(vs[l], i as nat);
            if i <= d {
                // p (y (w v)) = (y w)(p v)
                lemma_gpow_inverse(xs[l], vs[l], m, i as nat);
                lemma_mul_assoc(y, w, v);
                lemma_mul_assoc(p(i), c, v);
                lemma_mul_comm(p(i), c);
                lemma_mul_assoc(c, p(i), v);
            } else {
                assert(p(i) == 0);
                lemma_mul_zero(v);
                lemma_mul_zero(c);
            }
        }
        lemma_xsum_scale(c, e, h, 33);
        lemma_xsum_ext(e, |i: int| gmul(p(i), gpow(vs[l], i as nat)), 33);
        lemma_xsum_ext(h, |i: int| f(i, l), 33);
        // (y w) q = (y q) w
        let q = peval(p, 33, vs[l]);
        lemma_mul_assoc(y, w, q);
        lemma_mul_comm(w, q);
        lemma_mul_assoc(y, q, w);
    }
    lemma_xsum_swap(f, row, col, 33, xs.len());
    lemma_xsum_ext(row, |i: int| gmul(p(i), s(m - i)), 33);
    lemma_xsum_ext(col, |l: int| gmul(zs(l), gpow(xs[l], m)), xs.len());
}

/// Coefficient `n` of the product of all `1 + x z`, `x` in `xs`.
pub open spec fn sigma(xs: Seq<u8>, n: int) -> u8
    decreases xs.len(),
{
    if xs.len() == 0 {
        if n == 0 {
            1
        } else {
            0
        }
    } else {
        sigma(xs.drop_last(), n) ^ gmul(xs.last(), sigma(xs.drop_last(), n - 1))
    }
}

proof fn lemma_sigma_range(xs: Seq<u8>)
    ensures
        sigma(xs, 0) == 1,
        forall|n: int| n < 0 || n > xs.len() ==> #[trigger] sigma(xs, n) == 0,
    decreases xs.len(),
{
    if xs.len() > 0 {
        let ys = xs.drop_last();
        lemma_sigma_range(ys);
        lemma_mul_zero(xs.last());
        lemma_xor(1, 0, 0);
        lemma_xor(0, 0, 0);
        assert(sigma(ys, -1) == 0);
        assert forall|n: int| n < 0 || n > xs.len() implies #[trigger] sigma(xs, n) == 0 by {
            assert(sigma(ys, n) == 0);
            assert(sigma(ys, n - 1) == 0);
        }
    }
}

/// The product of all `1 + x z`, `x` in `xs`.
pub open spec fn sigma_value(xs: Seq<u8>, z: u8) -> u8
    decreases xs.len(),
{
    if xs.len() == 0 {
        1
    } else {
        gmul(sigma_value(xs.drop_last(), z), 1 ^ gmul(xs.last(), z))
    }
}

proof fn lemma_sigma_value(xs: Seq<u8>, z: u8)
    requires
        xs.len() <= 32,
    ensures
        peval(|n: int| sigma(xs, n), 33, z) == sigma_value(xs, z),
    decreases xs.len(),
{
    let p = |n: int| sigma(xs, n);
    let pe = |i: int| gmul(p(i), gpow(z, i as nat));
    lemma_xsum_ext(pe, |i: int| gmul(p(i), gpow(z, i as nat)), 33);
    if xs.len() == 0 {
        assert forall|i: int| 0 <= i < 33 && i != 0 implies #[trigger] pe(i) == 0 by {
            lemma_mul_zero(gpow(z, i as nat));
        }
        lemma_mul_one(1);
        assert(pe(0) == 1);
        lemma_xsum_single(pe, 33, 0);
    } else {
        let ys = xs.drop_last();
        let x = xs.last();
        let q = |n: int| sigma(ys, n);
        let qe = |i: int| gmul(q(i), gpow(z, i as nat));
        lemma_sigma_value(ys, z);
        lemma_sigma_range(ys);
        lemma_xsum_ext(qe, |i: int| gmul(q(i), gpow(z, i as nat)), 33);
        let xz = gmul(x, z);
        let se = |i: int| gmul(gmul(x, q(i - 1)), gpow(z, i as nat));
        let te = |i: int| gmul(xz, qe(i));
        assert forall|i: int| 0 <= i < 33 implies #[trigger] pe(i) == qe(i) ^ se(i) by {
            lemma_mul_dist(q(i), gmul(x, q(i - 1)), gpow(z, i as nat));
        }
        lemma_xsum_add(qe, se, pe, 33);
        assert(q(-1) == 0);
        lemma_mul_zero(x);
        lemma_mul_zero(gpow(z, 0));
        assert(se(0) == 0);
        assert forall|i: int| 0 <= i < 32 implies #[trigger] te(i) == se(i + 1) by {
            let c = q(i);
            let w = gpow(z, i as nat);
            assert(gpow(z, (i + 1) as nat) == gmul(w, z));
            assert(q(i + 1 - 1) == c);
            // (x c)(w z) = (x z)(c w)
            lemma_mul_comm(w, z);
            lemma_mul_assoc(gmul(x, c), z, w);
            lemma_mul_assoc(x, c, z);
            lemma_mul_comm(c, z);
            lemma_mul_assoc(x, z, c);
            lemma_mul_assoc(xz, c, w);
        }
        lemma_xsum_first(se, te, 33);
        lemma_xor(xsum(te, 32), 0, 0);
        assert(q(32) == 0);
        lemma_mul_zero(gpow(z, 32));
        lemma_mul_zero(xz);
        assert(te(32) == 0);
        lemma_xsum_extend(te, 32, 33);
        lemma_xsum_scale(xz, qe, te, 33);
        let v = sigma_value(ys, z);
        lemma_mul_dist(1, xz, v);
        lemma_mul_one(v);
        lemma_mul_comm(xz, v);
    }
}

proof fn lemma_sigma_value_root(xs: Seq<u8>, l: int, z: u8)
    requires
        0 <= l < xs.len(),
        gmul(xs[l], z) == 1,
    ensures
        sigma_value(xs, z) == 0,
    decreases xs.len(),
{
    let ys = xs.drop_last();
    lemma_mul_zero(sigma_value(ys, z));
    lemma_mul_zero(1 ^ gmul(xs.last(), z));
    if l == xs.len() - 1 {
        lemma_xor(1, 1, 0);
    } else {
        assert(ys[l] == xs[l]);
        lemma_sigma_value_root(ys, l, z);
    }
}

proof fn lemma_sigma_value_nonzero(xs: Seq<u8>, z: u8)
    requires
        forall|l: int| 0 <= l < xs.len() ==> gmul(#[trigger] xs[l], z) != 1,
    ensures
        sigma_value(xs, z) != 0,
    decreases xs.len(),
{
    if xs.len() > 0 {
        let ys = xs.drop_last();
        assert forall|l: int| 0 <= l < ys.len() implies gmul(#[trigger] ys[l], z) != 1 by {
            assert(ys[l] == xs[l]);
        }
        lemma_sigma_value_nonzero(ys, z);
        assert(xs[xs.len() - 1] == xs.last());
        lemma_xor(1, gmul(xs.last(), z), 0);
        lemma_mul_nonzero(sigma_value(ys, z), 1 ^ gmul(xs.last(), z));
    }
}

// ---------------------------------------------------------------------------
// Error patterns
// ---------------------------------------------------------------------------

/// The positions below `n` at which `e` is not zero, in order.
pub open spec fn support(e: Seq<u8>, n: nat) -> Seq<int>
    decreases n,
{
    if n == 0 {
        Seq::empty()
    } else if e[n - 1] != 0 {
        support(e, (n - 1) as nat).push(n - 1)
    } else {
        support(e, (n - 1) as nat)
    }
}

proof fn lemma_support(e: Seq<u8>, n: nat)
    ensures
        support(e, n).no_duplicates(),
        forall|l: int| 0 <= l < support(e, n).len() ==> 0 <= #[trigger] support(e, n)[l] < n
            && e[support(e, n)[l]] != 0,
        forall|k: int| 0 <= k < n && e[k] != 0 ==> #[trigger] support(e, n).contains(k),
    decreases n,
{
    if n > 0 {
        let m = (n - 1) as nat;
        let t = support(e, m);
        lemma_support(e, m);
        assert forall|k: int| 0 <= k < n && e[k] != 0 implies #[trigger] support(
            e,
            n,
        ).contains(k) by {
            if k == m {
                assert(support(e, n)[t.len() as int] == k);
            } else {
                assert(t.contains(k));
                let l = choose|l: int| 0 <= l < t.len() && t[l] == k;
                assert(support(e, n)[l] == k);
            }
        }
    }
}

/// A sum over all positions is a sum over the support.
proof fn lemma_sum_support(e: Seq<u8>, n: nat, f: spec_fn(int) -> u8, g: spec_fn(int) -> u8)
    requires
        forall|k: int| 0 <= k < n && e[k] == 0 ==> #[trigger] f(k) == 0,
        forall|l: int| 0 <= l < support(e, n).len() ==> #[trigger] g(l) == f(support(e, n)[l]),
    ensures
        xsum(f, n) == xsum(g, support(e, n).len()),
    decreases n,
{
    if n > 0 {
        let m = (n - 1) as nat;
        let t = support(e, m);
        assert forall|l: int| 0 <= l < t.len() implies #[trigger] g(l) == f(t[l]) by {
            assert(support(e, n)[l] == t[l]);
        }
        lemma_sum_support(e, m, f, g);
        if e[n - 1] == 0 {
            assert(f(n - 1) == 0);
            lemma_xor(xsum(f, m), 0, 0);
        } else {
            assert(support(e, n)[t.len() as int] == n - 1);
            assert(g(t.len() as int) == f(n - 1));
        }
    }
}

/// The number that position `k` has in the syndromes.
pub open spec fn position_number(k: int) -> u8 {
    apow((11 * (254 - k)) as nat)
}

proof fn lemma_position(k: int)
    requires
        0 <= k < 255,
    ensures
        gmul(position_number(k), position_root(k)) == 1,
        position_number(k) != 0,
        position_root(k) != 0,
{
    let i = (11 * (254 - k)) as nat;
    let j = (11 * (k + 1)) as nat;
    lemma_apow_add(i, j);
    assert(i + j == 2805);
    lemma_apow_period(2805);
    assert(2805nat % 255 == 0);
    lemma_apow_nonzero(i);
    lemma_apow_nonzero(j);
}

/// Different positions have different roots.
pub proof fn lemma_position_root_injective(j: int, k: int)
    requires
        0 <= j < 255,
        0 <= k < 255,
        position_root(j) == position_root(k),
    ensures
        j == k,
{
    let a = (11 * (j + 1)) as nat;
    let b = (11 * (k + 1)) as nat;
    lemma_apow_period(a);
    lemma_apow_period(b);
    lemma_apow_injective(a % 255, b % 255);
    // 11 is prime to 255: 116 * 11 = 5 * 255 + 1
    let t = a as int / 255 - b as int / 255;
    assert(a == 255 * (a as int / 255) + a as int % 255);
    assert(b == 255 * (b as int / 255) + b as int % 255);
    assert(11 * (j - k) == 255 * t);
    let u = 116 * t - 5 * (j - k);
    assert(j - k == 255 * u);
}

/// Everything the theory of one error pattern speaks of.
pub struct Pattern {
    pub e: Seq<u8>,
    pub s: Seq<u8>,
    pub ks: Seq<int>,
    pub xs: Seq<u8>,
    pub vs: Seq<u8>,
    pub lambda: Seq<u8>,
}

pub open spec fn pattern(e: Seq<u8>) -> Pattern {
    let ks = support(e, 255);
    Pattern {
        e,
        s: syndromes(e),
        ks,
        xs: Seq::new(ks.len(), |l: int| position_number(ks[l])),
        vs: Seq::new(ks.len(), |l: int| position_root(ks[l])),
        lambda: locator(syndromes(e)),
    }
}

/// The weight of error `l` in the syndromes.
pub open spec fn weight(p: Pattern, l: int) -> u8 {
    gmul(p.e[p.ks[l]], gpow(p.xs[l], 112))
}

pub open spec fn weights(p: Pattern) -> spec_fn(int) -> u8 {
    |l: int| weight(p, l)
}

proof fn lemma_pattern(e: Seq<u8>)
    requires
        e.len() == 255,
    ensures
        ({
            let p = pattern(e);
            &&& forall|l: int| 0 <= l < p.ks.len() ==> {
                &&& gmul(#[trigger] p.xs[l], p.vs[l]) == 1
                &&& p.xs[l] != 0
                &&& p.vs[l] != 0
                &&& 0 <= p.ks[l] < 255
                &&& e[p.ks[l]] != 0
                &&& weight(p, l) != 0
            }
            &&& p.ks.no_duplicates()
            &&& p.vs.no_duplicates()
            &&& forall|k: int, l: int|
                0 <= k < p.ks.len() && 0 <= l < p.ks.len() && k != l ==> gmul(
                    #[trigger] p.xs[l],
                    #[trigger] p.vs[k],
                ) != 1
        }),
{
    let p = pattern(e);
    lemma_support(e, 255);
    assert forall|l: int| 0 <= l < p.ks.len() implies {
        &&& gmul(#[trigger] p.xs[l], p.vs[l]) == 1
        &&& p.xs[l] != 0
        &&& p.vs[l] != 0
        &&& 0 <= p.ks[l] < 255
        &&& e[p.ks[l]] != 0
        &&& weight(p, l) != 0
    } by {
        let k = support(e, 255)[l];
        lemma_position(k);
        lemma_gpow_nonzero(p.xs[l], 112);
        lemma_mul_nonzero(e[k], gpow(p.xs[l], 112));
    }
    assert forall|k: int, l: int|
        0 <= k < p.vs.len() && 0 <= l < p.vs.len() && k != l implies p.vs[k] != p.vs[l] by {
        let a = support(e, 255)[k];
        let b = support(e, 255)[l];
        if p.vs[k] == p.vs[l] {
            lemma_position_root_injective(a, b);
        }
    }
    assert forall|k: int, l: int|
        0 <= k < p.ks.len() && 0 <= l < p.ks.len() && k != l implies gmul(
        #[trigger] p.xs[l],
        #[trigger] p.vs[k],
    ) != 1 by {
        if gmul(p.xs[l], p.vs[k]) == 1 {
            assert(gmul(p.xs[l], p.vs[l]) == 1);
            lemma_mul_comm(p.xs[l], p.vs[k]);
            lemma_mul_comm(p.xs[l], p.vs[l]);
            lemma_mul_cancel(p.vs[k], p.vs[l], p.xs[l]);
        }
    }
}

/// The syndromes of an error pattern are an exponential sum.
proof fn lemma_pattern_syndromes(e: Seq<u8>, i: nat)
    requires
        e.len() == 255,
        i < 32,
    ensures
        co(pattern(e).s)(i as int) == esum(weights(pattern(e)), pattern(e).xs, i),
{
    let p = pattern(e);
    lemma_support(e, 255);
    let f = |k: int| gmul(e[k], gpow(code_root(i as int), (254 - k) as nat));
    let g = |l: int| gmul(weights(p)(l), gpow(p.xs[l], i));
    assert forall|k: int| 0 <= k < 255 && e[k] == 0 implies #[trigger] f(k) == 0 by {
        lemma_mul_zero(gpow(code_root(i as int), (254 - k) as nat));
    }
    assert forall|l: int| 0 <= l < support(e, 255).len() implies #[trigger] g(l) == f(
        support(e, 255)[l],
    ) by {
        let k = support(e, 255)[l];
        let m = (254 - k) as nat;
        let a = (11 * (112 + i)) as nat;
        let b = (11 * (254 - k)) as nat;
        lemma_gpow_apow(a, m);
        lemma_gpow_apow(b, 112 + i);
        assert(a * m == b * (112 + i)) by (nonlinear_arith)
            requires
                a == 11 * (112 + i),
                b == 11 * m,
        ;
        lemma_gpow_add(p.xs[l], 112, i);
        lemma_mul_assoc(e[k], gpow(p.xs[l], 112), gpow(p.xs[l], i));
    }
    lemma_sum_support(e, 255, f, g);
    lemma_xsum_ext(f, |k: int| gmul(e[k], gpow(code_root(i as int), (254 - k) as nat)), 255);
    lemma_xsum_ext(g, |l: int| gmul(weights(p)(l), gpow(p.xs[l], i)), p.xs.len());
}

/// The register found for an error pattern of at most sixteen errors is no
/// longer than their number.
proof fn lemma_pattern_length(e: Seq<u8>)
    requires
        e.len() == 255,
        pattern(e).ks.len() <= 16,
    ensures
        massey(pattern(e).s, 32).len <= pattern(e).ks.len(),
{
    let p = pattern(e);
    let v = p.ks.len();
    let sg = |n: int| sigma(p.xs, n);
    lemma_pattern(e);
    lemma_sigma_range(p.xs);
    assert forall|n: int| v <= n < 32 implies #[trigger] conv(sg, co(p.s), n) == 0 by {
        assert forall|t: int| n - v <= t <= n implies #[trigger] co(p.s)(t) == esum(
            weights(p),
            p.xs,
            t as nat,
        ) by {
            lemma_pattern_syndromes(e, t as nat);
        }
        lemma_conv_esum(sg, v, weights(p), p.xs, p.vs, co(p.s), n as nat);
        let h = |l: int| gmul(weights(p)(l), peval(sg, 33, p.vs[l]));
        let g = |l: int| gmul(h(l), gpow(p.xs[l], n as nat));
        assert forall|l: int| 0 <= l < v implies #[trigger] g(l) == 0 by {
            lemma_sigma_value(p.xs, p.vs[l]);
            assert(gmul(p.xs[l], p.vs[l]) == 1);
            lemma_sigma_value_root(p.xs, l, p.vs[l]);
            lemma_mul_zero(weights(p)(l));
            lemma_mul_zero(gpow(p.xs[l], n as nat));
        }
        lemma_xsum_zero(g, v);
        lemma_xsum_ext(g, |l: int| gmul(h(l), gpow(p.xs[l], n as nat)), v);
    }
    lemma_massey_shortest(p.s, 32, sg, v);
}

/// Each error of the pattern is a root of the locator.
proof fn lemma_pattern_root(e: Seq<u8>, k: int)
    requires
        e.len() == 255,
        pattern(e).ks.len() <= 16,
        0 <= k < pattern(e).ks.len(),
    ensures
        peval(co(pattern(e).lambda), 33, pattern(e).vs[k]) == 0,
{
    let p = pattern(e);
    let v = p.ks.len();
    let reg = massey(p.s, 32);
    let lam = co(p.lambda);
    lemma_pattern(e);
    lemma_pattern_length(e);
    lemma_massey(p.s, 32);
    let len = reg.len;
    // The syndromes filtered by the locator: zero from `len` on, and an
    // exponential sum there.
    let filtered = |n: int| conv(lam, co(p.s), n);
    let ys = |l: int| gmul(weights(p)(l), peval(lam, 33, p.vs[l]));
    assert forall|n: int| len <= n < 32 implies #[trigger] filtered(n) == esum(
        ys,
        p.xs,
        n as nat,
    ) by {
        assert forall|t: int| n - len <= t <= n implies #[trigger] co(p.s)(t) == esum(
            weights(p),
            p.xs,
            t as nat,
        ) by {
            lemma_pattern_syndromes(e, t as nat);
        }
        lemma_conv_esum(lam, len, weights(p), p.xs, p.vs, co(p.s), n as nat);
    }
    // Filtering again by the product over all other errors leaves this one.
    let others = p.xs.remove(k);
    let g = |n: int| sigma(others, n);
    lemma_sigma_range(others);
    let d = (v - 1) as nat;
    lemma_conv_esum(g, d, ys, p.xs, p.vs, filtered, 31);
    let cv = |i: int| gmul(g(i), filtered(31 - i));
    assert forall|i: int| 0 <= i < 33 implies #[trigger] cv(i) == 0 by {
        lemma_mul_zero(g(i));
        lemma_mul_zero(filtered(31 - i));
        if i <= d {
            assert(conv(co(reg.lambda), co(p.s), 31 - i) == 0);
        }
    }
    lemma_xsum_zero(cv, 33);
    lemma_xsum_ext(cv, |i: int| gmul(g(i), filtered(31 - i)), 33);
    assert(conv(g, filtered, 31) == 0);
    let zs = |l: int| gmul(ys(l), peval(g, 33, p.vs[l]));
    let term = |l: int| gmul(zs(l), gpow(p.xs[l], 31));
    assert forall|l: int| 0 <= l < v && l != k implies #[trigger] term(l) == 0 by {
        lemma_sigma_value(others, p.vs[l]);
        let at = if l < k {
            l
        } else {
            l - 1
        };
        assert(others[at] == p.xs[l]);
        assert(gmul(p.xs[l], p.vs[l]) == 1);
        lemma_sigma_value_root(others, at, p.vs[l]);
        lemma_mul_zero(ys(l));
        lemma_mul_zero(gpow(p.xs[l], 31));
    }
    lemma_xsum_single(term, v, k);
    lemma_xsum_ext(term, |l: int| gmul(zs(l), gpow(p.xs[l], 31)), v);
    assert(term(k) == 0);
    assert(p.xs[k] != 0);
    lemma_gpow_nonzero(p.xs[k], 31);
    lemma_mul_nonzero(zs(k), gpow(p.xs[k], 31));
    lemma_mul_nonzero(ys(k), peval(g, 33, p.vs[k]));
    lemma_sigma_value(others, p.vs[k]);
    assert forall|l: int| 0 <= l < others.len() implies gmul(#[trigger] others[l], p.vs[k]) != 1 by {
        let at = if l < k {
            l
        } else {
            l + 1
        };
        assert(others[l] == p.xs[at]);
    }
    lemma_sigma_value_nonzero(others, p.vs[k]);
    lemma_mul_nonzero(weights(p)(k), peval(lam, 33, p.vs[k]));
}

proof fn lemma_top_index(p: Seq<u8>, n: nat, d: nat)
    requires
        d < n <= p.len(),
        p[d as int] != 0 || d == 0,
        forall|i: int| d < i < n ==> #[trigger] p[i] == 0,
    ensures
        top_index(p, n) == d,
    decreases n,
{
    if n > 1 && d < n - 1 {
        assert(p[n - 1] == 0);
        lemma_top_index(p, (n - 1) as nat, d);
    }
}

/// `top_index` is not exceeded.
pub proof fn lemma_top_index_bound(p: Seq<u8>, n: nat)
    requires
        0 < n <= p.len(),
    ensures
        top_index(p, n) < n,
        forall|i: int| top_index(p, n) < i < n ==> #[trigger] p[i] == 0,
        top_index(p, n) > 0 ==> p[top_index(p, n) as int] != 0,
    decreases n,
{
    if n > 1 && p[n - 1] == 0 {
        lemma_top_index_bound(p, (n - 1) as nat);
    }
}

/// Coefficients past `d` that are zero do not count in a value.
pub proof fn lemma_peval_trim(p: spec_fn(int) -> u8, d: nat, n: nat, x: u8)
    requires
        d <= n,
        forall|i: int| d <= i < n ==> #[trigger] p(i) == 0,
    ensures
        peval(p, d, x) == peval(p, n, x),
{
    let f = |i: int| gmul(p(i), gpow(x, i as nat));
    assert forall|i: int| d <= i < n implies #[trigger] f(i) == 0 by {
        assert(p(i) == 0);
        lemma_mul_zero(gpow(x, i as nat));
    }
    lemma_xsum_extend(f, d, n);
    lemma_xsum_ext(f, |i: int| gmul(p(i), gpow(x, i as nat)), d);
    lemma_xsum_ext(f, |i: int| gmul(p(i), gpow(x, i as nat)), n);
}

/// The locator of at most sixteen errors names them and nothing else.
proof fn lemma_pattern_names(e: Seq<u8>)
    requires
        e.len() == 255,
        0 < pattern(e).ks.len() <= 16,
    ensures
        pattern(e).lambda.len() == 33,
        pattern(e).lambda[0] == 1,
        degree(pattern(e).lambda) == pattern(e).ks.len(),
        forall|i: int| pattern(e).ks.len() < i < 33 ==> #[trigger] pattern(e).lambda[i] == 0,
        forall|k: int| 0 <= k < 255 ==> (#[trigger] names(pattern(e).lambda, k) <==> e[k] != 0),
{
    let p = pattern(e);
    let v = p.ks.len();
    let lam = co(p.lambda);
    lemma_pattern(e);
    lemma_pattern_length(e);
    lemma_massey(p.s, 32);
    lemma_support(e, 255);
    let d = (v + 1) as nat;
    assert forall|l: int| 0 <= l < v implies peval(lam, 33, #[trigger] p.vs[l]) == 0 by {
        lemma_pattern_root(e, l);
    }
    if p.lambda[v as int] == 0 {
        assert forall|l: int| 0 <= l < v implies p.vs[l] != 0 && peval(
            lam,
            v,
            #[trigger] p.vs[l],
        ) == 0 by {
            assert(p.xs[l] != 0);
            lemma_peval_trim(lam, v, 33, p.vs[l]);
        }
        lemma_root_bound(lam, v, p.vs);
        assert(lam(0) == 0);
    }
    lemma_top_index(p.lambda, 33, v);
    assert forall|k: int| 0 <= k < 255 implies (#[trigger] names(p.lambda, k) <==> e[k] != 0) by {
        if e[k] != 0 {
            assert(p.ks.contains(k));
            let l = choose|l: int| 0 <= l < p.ks.len() && p.ks[l] == k;
            assert(p.vs[l] == position_root(k));
        } else if names(p.lambda, k) {
            let roots = p.vs.push(position_root(k));
            lemma_position(k);
            assert forall|l: int| 0 <= l < v implies #[trigger] p.vs[l] != position_root(k) by {
                let j = support(e, 255)[l];
                if position_root(j) == position_root(k) {
                    lemma_position_root_injective(j, k);
                }
            }
            assert forall|l: int| 0 <= l < roots.len() implies roots[l] != 0 && peval(
                lam,
                d,
                #[trigger] roots[l],
            ) == 0 by {
                lemma_peval_trim(lam, d, 33, roots[l]);
                if l < v {
                    assert(p.xs[l] != 0);
                    assert(roots[l] == p.vs[l]);
                }
            }
            lemma_root_bound(lam, d, roots);
            assert(lam(0) == 0);
        }
    }
}

/// Coefficient `i` of the evaluator, in terms of the quotients of the locator.
proof fn lemma_pattern_evaluator_coef(e: Seq<u8>, i: int)
    requires
        e.len() == 255,
        0 < pattern(e).ks.len() <= 16,
        0 <= i < 32,
    ensures
        ({
            let p = pattern(e);
            conv(co(p.lambda), co(p.s), i) == xsum(
                |l: int| gmul(weight(p, l), quot(co(p.lambda), p.xs[l], i)),
                p.ks.len(),
            )
        }),
{
    let p = pattern(e);
    let v = p.ks.len();
    let lam = co(p.lambda);
    let n = (i + 1) as nat;
    let row = |j: int| gmul(lam(j), co(p.s)(i - j));
    let f = |j: int, l: int| gmul(lam(j), gmul(weight(p, l), gpow(p.xs[l], (i - j) as nat)));
    let col = |l: int| gmul(weight(p, l), quot(lam, p.xs[l], i));
    assert forall|j: int| n <= j < 33 implies #[trigger] row(j) == 0 by {
        lemma_mul_zero(lam(j));
    }
    lemma_xsum_extend(row, n, 33);
    lemma_xsum_ext(row, |j: int| gmul(lam(j), co(p.s)(i - j)), 33);
    assert forall|j: int| 0 <= j < n implies #[trigger] row(j) == xsum(|l: int| f(j, l), v) by {
        let t = (i - j) as nat;
        let g = |l: int| gmul(weights(p)(l), gpow(p.xs[l], t));
        let h = |l: int| f(j, l);
        lemma_pattern_syndromes(e, t);
        lemma_xsum_ext(g, |l: int| gmul(weights(p)(l), gpow(p.xs[l], t)), v);
        lemma_xsum_scale(lam(j), g, h, v);
        lemma_xsum_ext(h, |l: int| f(j, l), v);
    }
    assert forall|l: int| 0 <= l < v implies #[trigger] col(l) == xsum(|j: int| f(j, l), n) by {
        let g = |j: int| gmul(lam(j), gpow(p.xs[l], (i - j) as nat));
        let h = |j: int| f(j, l);
        let w = weight(p, l);
        lemma_quot_sum(lam, p.xs[l], i as nat);
        lemma_xsum_ext(g, |j: int| gmul(lam(j), gpow(p.xs[l], (i as nat - j) as nat)), n);
        assert forall|j: int| 0 <= j < n implies #[trigger] h(j) == gmul(w, g(j)) by {
            let x = gpow(p.xs[l], (i - j) as nat);
            lemma_mul_assoc(lam(j), w, x);
            lemma_mul_comm(lam(j), w);
            lemma_mul_assoc(w, lam(j), x);
        }
        lemma_xsum_scale(w, g, h, n);
        lemma_xsum_ext(h, |j: int| f(j, l), n);
    }
    lemma_xsum_swap(f, row, col, n, v);
    lemma_xsum_ext(col, |l: int| gmul(weight(p, l), quot(lam, p.xs[l], i)), v);
}

/// The quotient of the locator by the factor of error `l`, at `z`.
pub open spec fn cofactor(p: Pattern, l: int, z: u8) -> u8 {
    peval(|n: int| quot(co(p.lambda), p.xs[l], n), p.ks.len(), z)
}

/// The evaluator is the sum of the cofactors, weighted.
proof fn lemma_pattern_evaluator(e: Seq<u8>, z: u8)
    requires
        e.len() == 255,
        0 < pattern(e).ks.len() <= 16,
    ensures
        ({
            let p = pattern(e);
            evaluator(p.s, p.lambda, z) == xsum(
                |l: int| gmul(weight(p, l), cofactor(p, l, z)),
                p.ks.len(),
            )
        }),
{
    let p = pattern(e);
    let v = p.ks.len();
    let lam = co(p.lambda);
    lemma_pattern_names(e);
    let om = |i: int| conv(co(p.lambda), co(p.s), i);
    let row = |i: int| gmul(om(i), gpow(z, i as nat));
    let f = |i: int, l: int| gmul(gmul(weight(p, l), quot(lam, p.xs[l], i)), gpow(z, i as nat));
    let col = |l: int| gmul(weight(p, l), cofactor(p, l, z));
    assert forall|i: int| 0 <= i < v implies #[trigger] row(i) == xsum(|l: int| f(i, l), v) by {
        let g = |l: int| gmul(weight(p, l), quot(lam, p.xs[l], i));
        let h = |l: int| f(i, l);
        let w = gpow(z, i as nat);
        lemma_pattern_evaluator_coef(e, i);
        lemma_xsum_ext(g, |l: int| gmul(weight(p, l), quot(co(p.lambda), p.xs[l], i)), v);
        assert forall|l: int| 0 <= l < v implies #[trigger] h(l) == gmul(w, g(l)) by {
            lemma_mul_comm(w, g(l));
        }
        lemma_xsum_scale(w, g, h, v);
        lemma_mul_comm(w, om(i));
        lemma_xsum_ext(h, |l: int| f(i, l), v);
    }
    assert forall|l: int| 0 <= l < v implies #[trigger] col(l) == xsum(|i: int| f(i, l), v) by {
        let q = |n: int| quot(co(p.lambda), p.xs[l], n);
        let g = |i: int| gmul(q(i), gpow(z, i as nat));
        let h = |i: int| f(i, l);
        let w = weight(p, l);
        lemma_xsum_ext(g, |i: int| gmul(q(i), gpow(z, i as nat)), v);
        assert forall|i: int| 0 <= i < v implies #[trigger] h(i) == gmul(w, g(i)) by {
            lemma_mul_assoc(w, q(i), gpow(z, i as nat));
        }
        lemma_xsum_scale(w, g, h, v);
        lemma_xsum_ext(h, |i: int| f(i, l), v);
    }
    lemma_xsum_swap(f, row, col, v, v);
    lemma_xsum_ext(row, |i: int| gmul(om(i), gpow(z, i as nat)), v);
    lemma_xsum_ext(col, |l: int| gmul(weight(p, l), cofactor(p, l, z)), v);
}

/// The cofactor of an error is zero at every other error and at no other.
proof fn lemma_pattern_cofactor(e: Seq<u8>, l: int, k: int)
    requires
        e.len() == 255,
        0 < pattern(e).ks.len() <= 16,
        0 <= l < pattern(e).ks.len(),
        0 <= k < pattern(e).ks.len(),
    ensures
        (cofactor(pattern(e), l, pattern(e).vs[k]) == 0) <==> k != l,
        quot(co(pattern(e).lambda), pattern(e).xs[l], pattern(e).ks.len() as int) == 0,
{
    let p = pattern(e);
    let v = p.ks.len();
    let d = (v + 1) as nat;
    let lam = co(p.lambda);
    let c = p.xs[l];
    let q = |n: int| quot(co(p.lambda), p.xs[l], n);
    lemma_pattern(e);
    lemma_pattern_names(e);
    assert(gmul(p.xs[l], p.vs[l]) == 1);
    assert forall|j: int| 0 <= j < v implies peval(lam, d, #[trigger] p.vs[j]) == 0 by {
        lemma_pattern_root(e, j);
        lemma_peval_trim(lam, d, 33, p.vs[j]);
    }
    lemma_quot_exact(lam, d, c, p.vs[l]);
    assert forall|j: int| 0 <= j < v && j != l implies peval(q, v, #[trigger] p.vs[j]) == 0 by {
        lemma_quot_eval(lam, d, c, p.vs[j]);
        lemma_xor(1, gmul(c, p.vs[j]), 0);
        assert(gmul(p.xs[l], p.vs[j]) != 1);
        lemma_mul_nonzero(1 ^ gmul(c, p.vs[j]), peval(q, v, p.vs[j]));
    }
    if peval(q, v, p.vs[l]) == 0 {
        assert forall|j: int| 0 <= j < p.vs.len() implies p.vs[j] != 0 && peval(
            q,
            v,
            #[trigger] p.vs[j],
        ) == 0 by {
            assert(p.xs[j] != 0);
        }
        lemma_root_bound(q, v, p.vs);
        assert(q(0) == 0);
        assert(quot(lam, c, -1) == 0);
        lemma_mul_zero(c);
        lemma_xor(lam(0), 0, 0);
    }
}

/// The derivative of a product with a simple factor `1 + c x`, at the root of
/// that factor, over the first `2 m` coefficients.
proof fn lemma_derivative_upto(
    lam: spec_fn(int) -> u8,
    c: u8,
    z: u8,
    m: nat,
    de: spec_fn(int) -> u8,
    te: spec_fn(int) -> u8,
)
    requires
        gmul(c, z) == 1,
        forall|i: int| #[trigger] de(i) == gmul(derivative_coef(lam, i), gpow(z, i as nat)),
        forall|i: int| #[trigger] te(i) == gmul(c, gmul(quot(lam, c, i), gpow(z, i as nat))),
    ensures
        xsum(de, 2 * m) == xsum(te, 2 * m),
    decreases m,
{
    if m > 0 {
        let m1 = (m - 1) as nat;
        lemma_derivative_upto(lam, c, z, m1, de, te);
        let i: int = 2 * (m1 as int);
        let w = gpow(z, i as nat);
        let q0 = quot(lam, c, i as int);
        let q1 = quot(lam, c, i + 1);
        assert(xsum(de, 2 * m) == xsum(de, (i + 1) as nat) ^ de(i + 1));
        assert(xsum(de, (i + 1) as nat) == xsum(de, i as nat) ^ de(i as int));
        assert(xsum(te, 2 * m) == xsum(te, (i + 1) as nat) ^ te(i + 1));
        assert(xsum(te, (i + 1) as nat) == xsum(te, i as nat) ^ te(i as int));
        // de(i) = (q_{i+1} + c q_i) z^i and de(i+1) = 0
        assert((i + 1) % 2 == 1);
        lemma_mul_zero(gpow(z, (i + 1) as nat));
        assert(de(i + 1) == 0);
        assert(i as int % 2 == 0);
        lemma_xor(lam(i + 1), gmul(c, q0), 0);
        assert(q1 == lam(i + 1) ^ gmul(c, q0));
        assert(lam(i + 1) == q1 ^ gmul(c, q0)) by {
            lemma_xor(lam(i + 1), gmul(c, q0), 0);
        }
        lemma_mul_dist(q1, gmul(c, q0), w);
        // te(i) = c q_i z^i, te(i+1) = (c z) q_{i+1} z^i
        lemma_mul_assoc(c, q0, w);
        assert(gpow(z, (i + 1) as nat) == gmul(w, z));
        assert(te(i + 1) == gmul(q1, w)) by {
            lemma_mul_comm(w, z);
            lemma_mul_assoc(q1, z, w);
            lemma_mul_comm(q1, z);
            lemma_mul_assoc(z, q1, w);
            lemma_mul_assoc(c, z, gmul(q1, w));
            lemma_mul_one(gmul(q1, w));
        }
        let a = xsum(de, i as nat);
        let x = gmul(q1, w);
        let y = te(i as int);
        assert(de(i as int) == x ^ y);
        assert((a ^ (x ^ y)) ^ 0 == (a ^ y) ^ x) by (bit_vector);
    }
}

/// Forney's formula gives the error.
proof fn lemma_pattern_magnitude(e: Seq<u8>, k: int)
    requires
        e.len() == 255,
        0 < pattern(e).ks.len() <= 16,
        0 <= k < 255,
        e[k] != 0,
    ensures
        derivative(pattern(e).lambda, position_root(k)) != 0,
        magnitude(pattern(e).s, pattern(e).lambda, k) == e[k],
{
    let p = pattern(e);
    let v = p.ks.len();
    let lam = co(p.lambda);
    lemma_pattern(e);
    lemma_pattern_names(e);
    lemma_support(e, 255);
    assert(p.ks.contains(k));
    let l = choose|l: int| 0 <= l < p.ks.len() && p.ks[l] == k;
    let x = p.xs[l];
    let z = p.vs[l];
    assert(z == position_root(k));
    assert(gmul(x, z) == 1);
    let w = weight(p, l);
    let q = cofactor(p, l, z);
    lemma_pattern_cofactor(e, l, l);
    // Evaluator.
    lemma_pattern_evaluator(e, z);
    let ev = |j: int| gmul(weight(p, j), cofactor(p, j, z));
    assert forall|j: int| 0 <= j < v && j != l implies #[trigger] ev(j) == 0 by {
        lemma_pattern_cofactor(e, j, l);
        lemma_mul_zero(weight(p, j));
    }
    lemma_xsum_single(ev, v, l);
    lemma_xsum_ext(ev, |j: int| gmul(weight(p, j), cofactor(p, j, z)), v);
    assert(evaluator(p.s, p.lambda, z) == gmul(w, q));
    // Derivative.
    let dc = |i: int| derivative_coef(co(p.lambda), i);
    let qc = |n: int| quot(co(p.lambda), p.xs[l], n);
    let de = |i: int| gmul(dc(i), gpow(z, i as nat));
    let qe = |i: int| gmul(qc(i), gpow(z, i as nat));
    let te = |i: int| gmul(x, qe(i));
    lemma_derivative_upto(lam, x, z, 16, de, te);
    lemma_xsum_ext(de, |i: int| gmul(dc(i), gpow(z, i as nat)), 32);
    lemma_xsum_scale(x, qe, te, 32);
    lemma_xsum_ext(qe, |i: int| gmul(qc(i), gpow(z, i as nat)), 32);
    assert forall|i: int| v <= i < 32 implies #[trigger] qc(i) == 0 by {
        lemma_quot_tail(lam, x, v, i);
    }
    lemma_peval_trim(qc, v, 32, z);
    assert(derivative(p.lambda, z) == gmul(x, q));
    lemma_mul_nonzero(x, q);
    // (e x^112 q) z^111 / (x q) = e
    let den = gmul(x, q);
    let a = e[k];
    let x112 = gpow(x, 112);
    let z111 = gpow(z, 111);
    lemma_gpow_inverse(x, z, 112, 111);
    assert(gmul(x112, z111) == x) by {
        assert(gpow(x, 0) == 1);
        assert(gpow(x, 1) == gmul(gpow(x, 0), x));
        lemma_mul_one(x);
    }
    assert(gmul(gmul(w, q), z111) == gmul(a, den)) by {
        lemma_mul_assoc(w, q, z111);
        lemma_mul_comm(q, z111);
        lemma_mul_assoc(w, z111, q);
        lemma_mul_assoc(a, x112, z111);
        lemma_mul_assoc(a, x, q);
    }
    lemma_inv(den);
    lemma_mul_assoc(a, den, ginv(den));
    lemma_mul_one(a);
}

/// Past the end of an exact division the quotient stays zero.
proof fn lemma_quot_tail(p: spec_fn(int) -> u8, c: u8, v: nat, i: int)
    requires
        quot(p, c, v as int) == 0,
        v <= i < 33,
        forall|j: int| v < j < 33 ==> #[trigger] p(j) == 0,
    ensures
        quot(p, c, i) == 0,
    decreases i,
{
    if i > v {
        lemma_quot_tail(p, c, v, i - 1);
        lemma_mul_zero(c);
        lemma_xor(0, 0, 0);
    }
}

// ---------------------------------------------------------------------------
// The decoder
// ---------------------------------------------------------------------------

/// The sum of two words.
pub open spec fn word_sum(a: Seq<u8>, b: Seq<u8>) -> Seq<u8> {
    Seq::new(255, |k: int| a[k] ^ b[k])
}

/// Syndromes are linear.
proof fn lemma_syndrome_sum(a: Seq<u8>, b: Seq<u8>, i: int)
    requires
        a.len() == 255,
        b.len() == 255,
    ensures
        syndrome(word_sum(a, b), i) == syndrome(a, i) ^ syndrome(b, i),
{
    let w = word_sum(a, b);
    let f = |k: int| gmul(a[k], gpow(code_root(i), (254 - k) as nat));
    let g = |k: int| gmul(b[k], gpow(code_root(i), (254 - k) as nat));
    let h = |k: int| gmul(w[k], gpow(code_root(i), (254 - k) as nat));
    assert forall|k: int| 0 <= k < 255 implies #[trigger] h(k) == f(k) ^ g(k) by {
        lemma_mul_dist(a[k], b[k], gpow(code_root(i), (254 - k) as nat));
    }
    lemma_xsum_add(f, g, h, 255);
    lemma_xsum_ext(f, |k: int| gmul(a[k], gpow(code_root(i), (254 - k) as nat)), 255);
    lemma_xsum_ext(g, |k: int| gmul(b[k], gpow(code_root(i), (254 - k) as nat)), 255);
    lemma_xsum_ext(h, |k: int| gmul(w[k], gpow(code_root(i), (254 - k) as nat)), 255);
}

/// The locator finds up to sixteen symbol errors, and Forney's formula what they
/// are.
pub proof fn lemma_solves_sixteen(sent: Seq<u8>, received: Seq<u8>)
    requires
        in_reach(sent, received),
        received.len() == 160,
    ensures
        solved(received) == Some((sent, differences(sent, received).len())),
{
    reveal(solved);
    let a = padded(sent);
    let b = padded(received);
    let e = word_sum(a, b);
    let p = pattern(e);
    let s = syndromes(b);
    let diff = differences(sent, received);
    assert(s =~= p.s) by {
        assert forall|i: int| 0 <= i < 32 implies s[i] == p.s[i] by {
            lemma_syndrome_sum(a, b, i);
            assert(syndrome(a, i) == 0);
            lemma_xor(syndrome(b, i), 0, 0);
        }
    }
    lemma_support(e, 255);
    assert forall|k: int| 0 <= k < 255 implies (#[trigger] e[k] == 0 <==> a[k] == b[k]) by {
        lemma_xor(a[k], b[k], 0);
    }
    // The number of errors is the number of differences.
    let shift = |k: int| k + 95;
    let errors = p.ks.to_set();
    assert(diff.map(shift) =~= errors) by {
        assert forall|k: int| errors.contains(k) implies diff.map(shift).contains(k) by {
            let l = choose|l: int| 0 <= l < p.ks.len() && p.ks[l] == k;
            assert(support(e, 255)[l] == k);
            assert(e[k] != 0);
            assert(diff.contains(k - 95));
            assert(shift(k - 95) == k);
        }
        assert forall|k: int| diff.map(shift).contains(k) implies errors.contains(k) by {
            let j = choose|j: int| diff.contains(j) && shift(j) == k;
            assert(e[k] != 0);
            assert(support(e, 255).contains(k));
        }
    }
    assert(diff.finite()) by {
        vstd::set_lib::lemma_int_range(0, 160);
        assert(diff.subset_of(vstd::set_lib::set_int_range(0, 160)));
        vstd::set_lib::lemma_len_subset(diff, vstd::set_lib::set_int_range(0, 160));
    }
    assert(vstd::relations::injective_on(shift, diff));
    vstd::set_lib::lemma_map_size(diff, errors, shift);
    p.ks.unique_seq_to_set();
    assert(p.ks.len() == diff.len());
    if diff.len() == 0 {
        assert forall|j: int| 0 <= j < 160 implies received[j] == sent[j] by {
            if received[j] != sent[j] {
                assert(diff.contains(j));
            }
        }
        assert(received =~= sent);
    } else {
        lemma_pattern_names(e);
        assert forall|k: int| 0 <= k < 255 && e[k] != 0 implies #[trigger] magnitude(
            s,
            p.lambda,
            k,
        ) == e[k] && derivative(p.lambda, position_root(k)) != 0 by {
            lemma_pattern_magnitude(e, k);
        }
        assert(!is_codeword(received)) by {
            if is_codeword(received) {
                let k = p.ks[0];
                assert(support(e, 255)[0] == k);
                assert(s =~= Seq::new(32, |i: int| 0u8));
                let om = |i: int| conv(co(p.lambda), co(s), i);
                let z = position_root(k);
                let oe = |i: int| gmul(om(i), gpow(z, i as nat));
                assert forall|i: int| 0 <= i < degree(p.lambda) implies #[trigger] oe(i) == 0 by {
                    let f = |j: int| gmul(co(p.lambda)(j), co(s)(i - j));
                    assert forall|j: int| 0 <= j < 33 implies #[trigger] f(j) == 0 by {
                        lemma_mul_zero(co(p.lambda)(j));
                    }
                    lemma_xsum_zero(f, 33);
                    lemma_xsum_ext(f, |j: int| gmul(co(p.lambda)(j), co(s)(i - j)), 33);
                    lemma_mul_zero(gpow(z, i as nat));
                }
                lemma_xsum_zero(oe, degree(p.lambda));
                lemma_xsum_ext(
                    oe,
                    |i: int| gmul(om(i), gpow(z, i as nat)),
                    degree(p.lambda),
                );
                assert(evaluator(s, p.lambda, z) == 0);
                lemma_mul_zero(gpow(z, 111));
                lemma_mul_zero(ginv(derivative(p.lambda, z)));
                assert(magnitude(s, p.lambda, k) == 0);
            }
        }
        assert(named_positions(p.lambda) =~= errors) by {
            assert forall|k: int| named_positions(p.lambda).contains(k) <==> errors.contains(k) by {
                if errors.contains(k) {
                    let l = choose|l: int| 0 <= l < p.ks.len() && p.ks[l] == k;
                    assert(support(e, 255)[l] == k);
                    assert(names(p.lambda, k));
                }
                if names(p.lambda, k) {
                    assert(support(e, 255).contains(k));
                }
            }
        }
        assert(changed_positions(s, p.lambda) =~= errors) by {
            assert forall|k: int|
                changed_positions(s, p.lambda).contains(k) <==> errors.contains(k) by {
                assert(errors.contains(k) <==> named_positions(p.lambda).contains(k));
                if names(p.lambda, k) {
                    assert(magnitude(s, p.lambda, k) == e[k]);
                }
            }
        }
        let fixed = corrected(b, s, p.lambda);
        assert(fixed =~= a) by {
            assert forall|k: int| 0 <= k < 255 implies fixed[k] == a[k] by {
                assert(names(p.lambda, k) <==> e[k] != 0);
                let (x, y) = (a[k], b[k]);
                assert(y ^ (x ^ y) == x) by (bit_vector);
            }
        }
        assert(fixed.subrange(95, 255) =~= sent);
        assert(locates(p.lambda));
    }
}

/// What is taken out is what differs.
pub proof fn lemma_solved_counts(received: Seq<u8>)
    requires
        received.len() == 160,
        solved(received) is Some,
    ensures
        (solved(received)->0).0.len() == 160,
        (solved(received)->0).1 == differences((solved(received)->0).0, received).len(),
{
    reveal(solved);
    let (got, n) = solved(received)->0;
    let diff = differences(got, received);
    if is_codeword(received) {
        assert(diff =~= Set::empty());
    } else {
        let s = syndromes(padded(received));
        let lambda = locator(s);
        let word = padded(received);
        let fixed = corrected(word, s, lambda);
        let changed = changed_positions(s, lambda);
        assert forall|k: int| changed.contains(k) implies 95 <= k < 255 && fixed[k] != word[k] by {
            lemma_xor(word[k], magnitude(s, lambda, k), 0);
            let (x, m) = (word[k], magnitude(s, lambda, k));
            assert(m != 0u8 ==> x ^ m != x) by (bit_vector);
            if k < 95 {
                assert(fixed[k] == 0);
            }
        }
        let shift = |k: int| k + 95;
        assert(diff.map(shift) =~= changed) by {
            assert forall|k: int| changed.contains(k) implies diff.map(shift).contains(k) by {
                assert(got[k - 95] == fixed[k]);
                assert(diff.contains(k - 95));
                assert(shift(k - 95) == k);
            }
            assert forall|k: int| diff.map(shift).contains(k) implies changed.contains(k) by {
                let j = choose|j: int| diff.contains(j) && shift(j) == k;
                assert(fixed[k] == got[j] && word[k] == received[j]);
                let x = word[k];
                assert(x ^ 0u8 == x) by (bit_vector);
            }
        }
        assert(diff.finite()) by {
            vstd::set_lib::lemma_int_range(0, 160);
            assert(diff.subset_of(vstd::set_lib::set_int_range(0, 160)));
            vstd::set_lib::lemma_len_subset(diff, vstd::set_lib::set_int_range(0, 160));
        }
        assert(vstd::relations::injective_on(shift, diff));
        vstd::set_lib::lemma_map_size(diff, changed, shift);
    }
}

/// Up to sixteen symbol errors anywhere in a codeword are corrected, and
/// counted.
pub proof fn corrects_sixteen_errors(sent: Seq<u8>, received: Seq<u8>)
    requires
        is_codeword(sent),
        received.len() == 160,
        differences(sent, received).len() <= 16,
    ensures
        decoding(received) == Some((sent, differences(sent, received).len())),
{
    reveal(decoding);
    assert(in_reach(sent, received));
    let other = choose|other: Seq<u8>| #[trigger] in_reach(other, received);
    lemma_solves_sixteen(sent, received);
    lemma_solves_sixteen(other, received);
}

/// A codeword decodes to itself, with nothing to correct.
pub proof fn a_codeword_decodes_to_itself(cw: Seq<u8>)
    requires
        is_codeword(cw),
    ensures
        decoding(cw) == Some((cw, 0nat)),
{
    assert(differences(cw, cw) =~= Set::empty());
    corrects_sixteen_errors(cw, cw);
}

/// Past the code's strength nothing is made up: what decodes is a codeword, with
/// no more than sixteen symbols put right, and every word with none in reach is
/// refused.
pub proof fn only_codewords_are_decoded(received: Seq<u8>)
    requires
        received.len() == 160,
    ensures
        decoding(received) matches Some((got, n)) ==> is_codeword(got) && n == differences(
            got,
            received,
        ).len() && n <= 16,
        decoding(received) is None ==> forall|sent: Seq<u8>| #[trigger]
            is_codeword(sent) ==> differences(sent, received).len() > 16,
{
    reveal(decoding);
    if decoding(received) is None {
        assert forall|sent: Seq<u8>| #[trigger] is_codeword(sent) implies differences(
            sent,
            received,
        ).len() > 16 by {
            assert(!in_reach(sent, received));
        }
    }
}

// ---------------------------------------------------------------------------
// The encoder
// ---------------------------------------------------------------------------

/// Coefficient `i` of the product of the first `j` factors `x - code_root(t)`
/// of the generator polynomial.
pub open spec fn generator_coef(j: nat, i: int) -> u8
    decreases j,
{
    if j == 0 {
        if i == 0 {
            1
        } else {
            0
        }
    } else {
        let m = (j - 1) as nat;
        generator_coef(m, i - 1) ^ gmul(code_root(m as int), generator_coef(m, i))
    }
}

pub proof fn lemma_generator_range(j: nat)
    ensures
        generator_coef(j, j as int) == 1,
        forall|i: int| i < 0 || i > j ==> #[trigger] generator_coef(j, i) == 0,
    decreases j,
{
    if j > 0 {
        let m = (j - 1) as nat;
        lemma_generator_range(m);
        let c = code_root(m as int);
        lemma_mul_zero(c);
        lemma_xor(1, 0, 0);
        lemma_xor(0, 0, 0);
        assert(generator_coef(m, j as int) == 0);
        assert forall|i: int| i < 0 || i > j implies #[trigger] generator_coef(j, i) == 0 by {
            assert(generator_coef(m, i) == 0);
            assert(generator_coef(m, i - 1) == 0);
        }
    }
}

/// Multiplying a polynomial of degree below 32 by `x + c`.
proof fn lemma_linear_factor(
    q: spec_fn(int) -> u8,
    p: spec_fn(int) -> u8,
    c: u8,
    z: u8,
)
    requires
        q(-1) == 0,
        q(32) == 0,
        forall|i: int| 0 <= i < 33 ==> #[trigger] p(i) == q(i - 1) ^ gmul(c, q(i)),
    ensures
        peval(p, 33, z) == gmul(peval(q, 33, z), z ^ c),
{
    let pe = |i: int| gmul(p(i), gpow(z, i as nat));
    let qe = |i: int| gmul(q(i), gpow(z, i as nat));
    let se = |i: int| gmul(q(i - 1), gpow(z, i as nat));
    let te = |i: int| gmul(z, qe(i));
    let ce = |i: int| gmul(c, qe(i));
    lemma_xsum_ext(pe, |i: int| gmul(p(i), gpow(z, i as nat)), 33);
    lemma_xsum_ext(qe, |i: int| gmul(q(i), gpow(z, i as nat)), 33);
    assert forall|i: int| 0 <= i < 33 implies #[trigger] pe(i) == se(i) ^ ce(i) by {
        let w = gpow(z, i as nat);
        assert(p(i) == q(i - 1) ^ gmul(c, q(i)));
        lemma_mul_dist(q(i - 1), gmul(c, q(i)), w);
        lemma_mul_assoc(c, q(i), w);
    }
    lemma_xsum_add(se, ce, pe, 33);
    lemma_xsum_scale(c, qe, ce, 33);
    lemma_mul_zero(gpow(z, 0));
    assert(se(0) == 0);
    assert forall|i: int| 0 <= i < 32 implies #[trigger] te(i) == se(i + 1) by {
        let w = gpow(z, i as nat);
        assert(gpow(z, (i + 1) as nat) == gmul(w, z));
        assert(q(i + 1 - 1) == q(i));
        lemma_mul_assoc(q(i), w, z);
        lemma_mul_comm(qe(i), z);
    }
    lemma_xsum_first(se, te, 33);
    lemma_xor(xsum(te, 32), 0, 0);
    lemma_mul_zero(gpow(z, 32));
    lemma_mul_zero(z);
    assert(te(32) == 0);
    lemma_xsum_extend(te, 32, 33);
    lemma_xsum_scale(z, qe, te, 33);
    let v = peval(q, 33, z);
    lemma_mul_dist(z, c, v);
    lemma_mul_comm(v, z);
    lemma_mul_comm(v, c);
}

/// The generator polynomial is zero at its roots.
pub proof fn lemma_generator_root(j: nat, t: int)
    requires
        j <= 32,
        0 <= t < j,
    ensures
        peval(|i: int| generator_coef(j, i), 33, code_root(t)) == 0,
    decreases j,
{
    let m = (j - 1) as nat;
    let p = |i: int| generator_coef(j, i);
    let q = |i: int| generator_coef(m, i);
    let z = code_root(t);
    let c = code_root(m as int);
    lemma_generator_range(m);
    lemma_linear_factor(q, p, c, z);
    lemma_mul_zero(peval(q, 33, z));
    lemma_mul_zero(z ^ c);
    if t == m {
        lemma_xor(z, z, 0);
    } else {
        lemma_generator_root(m, t);
    }
}

/// The first `n` symbols of a word as a polynomial at `z`, by Horner's rule.
pub open spec fn horner_value(word: Seq<u8>, n: nat, z: u8) -> u8
    decreases n,
{
    if n == 0 {
        0
    } else {
        gmul(horner_value(word, (n - 1) as nat, z), z) ^ word[n - 1]
    }
}

pub proof fn lemma_horner_sum(word: Seq<u8>, n: nat, z: u8)
    ensures
        horner_value(word, n, z) == xsum(
            |k: int| gmul(word[k], gpow(z, (n - 1 - k) as nat)),
            n,
        ),
    decreases n,
{
    let f = |k: int| gmul(word[k], gpow(z, (n - 1 - k) as nat));
    if n > 0 {
        let m = (n - 1) as nat;
        let g = |k: int| gmul(word[k], gpow(z, (m - 1 - k) as nat));
        lemma_horner_sum(word, m, z);
        lemma_xsum_ext(g, |k: int| gmul(word[k], gpow(z, (m - 1 - k) as nat)), m);
        assert forall|k: int| 0 <= k < m implies #[trigger] f(k) == gmul(z, g(k)) by {
            let w = gpow(z, (m - 1 - k) as nat);
            assert(gpow(z, (n - 1 - k) as nat) == gmul(w, z));
            lemma_mul_assoc(word[k], w, z);
            lemma_mul_comm(g(k), z);
        }
        lemma_xsum_scale(z, g, f, m);
        lemma_mul_comm(z, horner_value(word, m, z));
        lemma_mul_one(word[n - 1]);
        assert(f(n - 1) == word[n - 1]);
        assert(xsum(f, n) == xsum(f, m) ^ f(n - 1));
    }
    lemma_xsum_ext(f, |k: int| gmul(word[k], gpow(z, (n - 1 - k) as nat)), n);
}

/// A syndrome, by Horner's rule.
pub proof fn lemma_horner_syndrome(word: Seq<u8>, i: int)
    ensures
        horner_value(word, 255, code_root(i)) == syndrome(word, i),
{
    lemma_horner_sum(word, 255, code_root(i));
    lemma_xsum_ext(
        |k: int| gmul(word[k], gpow(code_root(i), (255nat - 1 - k) as nat)),
        |k: int| gmul(word[k], gpow(code_root(i), (254 - k) as nat)),
        255,
    );
}

/// The division register after one more symbol.
pub open spec fn division_step(bb: Seq<u8>, d: u8) -> Seq<u8> {
    let f = d ^ bb[0];
    Seq::new(
        32,
        |j: int|
            (if j < 31 {
                bb[j + 1]
            } else {
                0u8
            }) ^ gmul(f, generator_coef(32, 31 - j)),
    )
}

/// At a root of the generator the register follows the symbols fed to it.
pub proof fn lemma_division_step(bb: Seq<u8>, d: u8, t: int)
    requires
        bb.len() == 32,
        0 <= t < 32,
    ensures
        ({
            let z = code_root(t);
            horner_value(division_step(bb, d), 32, z) == gmul(horner_value(bb, 32, z), z) ^ gmul(
                d,
                gpow(z, 32),
            )
        }),
{
    let z = code_root(t);
    let f = d ^ bb[0];
    let nb = division_step(bb, d);
    let g = |i: int| generator_coef(32, i);
    // Both registers as sums.
    let ne = |j: int| gmul(nb[j], gpow(z, (31 - j) as nat));
    let be = |j: int| gmul(bb[j], gpow(z, (31 - j) as nat));
    lemma_horner_sum(nb, 32, z);
    lemma_xsum_ext(ne, |k: int| gmul(nb[k], gpow(z, (32nat - 1 - k) as nat)), 32);
    lemma_horner_sum(bb, 32, z);
    lemma_xsum_ext(be, |k: int| gmul(bb[k], gpow(z, (32nat - 1 - k) as nat)), 32);
    // The shifted part.
    let up = |j: int|
        if j < 31 {
            bb[j + 1]
        } else {
            0u8
        };
    let ue = |j: int| gmul(up(j), gpow(z, (31 - j) as nat));
    let ge = |j: int| gmul(generator_coef(32, 31 - j), gpow(z, (31 - j) as nat));
    let fe = |j: int| gmul(f, ge(j));
    assert forall|j: int| 0 <= j < 32 implies #[trigger] ne(j) == ue(j) ^ fe(j) by {
        let w = gpow(z, (31 - j) as nat);
        let c = generator_coef(32, 31 - j);
        lemma_mul_dist(up(j), gmul(f, c), w);
        lemma_mul_assoc(f, c, w);
    }
    lemma_xsum_add(ue, fe, ne, 32);
    lemma_xsum_scale(f, ge, fe, 32);
    // sum ue = z (sum be - bb_0 z^31)
    let be1 = |j: int| be(j + 1);
    lemma_xsum_first(be, be1, 32);
    lemma_mul_zero(gpow(z, 0));
    assert(ue(31) == 0);
    lemma_xsum_extend(ue, 31, 32);
    assert forall|j: int| 0 <= j < 31 implies #[trigger] ue(j) == gmul(z, be1(j)) by {
        let w = gpow(z, (30 - j) as nat);
        assert(gpow(z, (31 - j) as nat) == gmul(w, z));
        assert(be1(j) == gmul(bb[j + 1], gpow(z, (31 - (j + 1)) as nat)));
        assert((31 - (j + 1)) as nat == (30 - j) as nat);
        lemma_mul_assoc(bb[j + 1], w, z);
        lemma_mul_comm(gmul(bb[j + 1], w), z);
    }
    lemma_xsum_scale(z, be1, ue, 31);
    let z31 = gpow(z, 31);
    let z32 = gpow(z, 32);
    let rest = xsum(be1, 31);
    let b0 = gmul(bb[0], z31);
    assert(xsum(be, 32) == b0 ^ rest);
    // z (b0 + rest) = bb_0 z^32 + z rest
    lemma_mul_dist(b0, rest, z);
    assert(gmul(b0, z) == gmul(bb[0], z32)) by {
        lemma_mul_assoc(bb[0], z31, z);
    }
    assert(gmul(rest, z) == gmul(z, rest)) by {
        lemma_mul_comm(rest, z);
    }
    // sum ge = z^32, as the generator is zero at z
    let pe = |i: int| gmul(g(i), gpow(z, i as nat));
    lemma_generator_root(32, t);
    lemma_xsum_ext(pe, |i: int| gmul(g(i), gpow(z, i as nat)), 33);
    assert forall|j: int| 0 <= j < 32 implies #[trigger] ge(j) == pe(31 - j) by {}
    lemma_xsum_rev(pe, ge, 32);
    lemma_generator_range(32);
    lemma_mul_one(z32);
    assert(pe(32) == z32);
    assert(xsum(pe, 33) == xsum(pe, 32) ^ z32);
    lemma_xor(xsum(pe, 32), z32, 0);
    assert(xsum(ge, 32) == z32);
    // f = d + bb_0
    lemma_mul_dist(d, bb[0], z32);
    let x = gmul(z, rest);
    let y = gmul(d, z32);
    let w = gmul(bb[0], z32);
    assert(x ^ (y ^ w) == (w ^ x) ^ y) by (bit_vector);
}

/// A word of zeros and then `data` and `bb` is zero at `z` when the register
/// `bb` holds what `data` leaves there.
pub proof fn lemma_parity_closes(data: Seq<u8>, bb: Seq<u8>, z: u8)
    requires
        data.len() == 128,
        bb.len() == 32,
        horner_value(bb, 32, z) == gmul(horner_value(data, 128, z), gpow(z, 32)),
    ensures
        horner_value(padded(data + bb), 255, z) == 0,
{
    let w = padded(data + bb);
    lemma_horner_zeros(w, 95, z);
    lemma_horner_append(w, data, 95, 128, z);
    lemma_horner_append(w, bb, 223, 32, z);
    let h = horner_value(data, 128, z);
    lemma_mul_zero(gpow(z, 128));
    lemma_xor(h, 0, 0);
    assert(horner_value(w, 223, z) == h);
    lemma_xor(gmul(h, gpow(z, 32)), gmul(h, gpow(z, 32)), 0);
}

proof fn lemma_horner_zeros(word: Seq<u8>, n: nat, z: u8)
    requires
        n <= word.len(),
        forall|k: int| 0 <= k < n ==> word[k] == 0,
    ensures
        horner_value(word, n, z) == 0,
    decreases n,
{
    if n > 0 {
        lemma_horner_zeros(word, (n - 1) as nat, z);
        lemma_mul_zero(z);
        lemma_xor(0, 0, 0);
    }
}

/// Horner's rule over a block that stands at `at` in the word.
proof fn lemma_horner_append(word: Seq<u8>, block: Seq<u8>, at: nat, n: nat, z: u8)
    requires
        at + n <= word.len(),
        n <= block.len(),
        forall|k: int| 0 <= k < n ==> #[trigger] block[k] == word[at + k],
    ensures
        horner_value(word, at + n, z) == gmul(horner_value(word, at, z), gpow(z, n))
            ^ horner_value(block, n, z),
    decreases n,
{
    let h = horner_value(word, at, z);
    if n == 0 {
        lemma_mul_one(h);
        lemma_xor(h, 0, 0);
    } else {
        let m = (n - 1) as nat;
        lemma_horner_append(word, block, at, m, z);
        let p = gpow(z, m);
        let b = horner_value(block, m, z);
        let last = block[n - 1];
        assert(last == word[at + n - 1]);
        lemma_mul_dist(gmul(h, p), b, z);
        lemma_mul_assoc(h, p, z);
        lemma_xor(gmul(h, gpow(z, n)), gmul(b, z), last);
        assert((at + n - 1) as nat == at + m);
    }
}

/// The parity of a block is determined by the block.
pub proof fn parity_is_unique(data: Seq<u8>, p: Seq<u8>, q: Seq<u8>)
    requires
        data.len() == 128,
        p.len() == 32,
        q.len() == 32,
        is_codeword(data + p),
        is_codeword(data + q),
    ensures
        p == q,
{
    let a = padded(data + p);
    let b = padded(data + q);
    let e = word_sum(a, b);
    // The difference is a polynomial of degree below 32 with 32 roots.
    let c = |i: int| e[254 - i];
    let roots = Seq::new(32, |i: int| code_root(i));
    assert forall|i: int| 0 <= i < 32 implies roots[i] != 0 && peval(
        c,
        32,
        #[trigger] roots[i],
    ) == 0 by {
        let z = code_root(i);
        lemma_apow_nonzero((11 * (112 + i)) as nat);
        lemma_syndrome_sum(a, b, i);
        assert(syndrome(a, i) == 0);
        assert(syndrome(b, i) == 0);
        lemma_xor(0, 0, 0);
        let f = |k: int| gmul(e[k], gpow(z, (254 - k) as nat));
        let g = |k: int| gmul(c(k), gpow(z, k as nat));
        lemma_xsum_ext(f, |k: int| gmul(e[k], gpow(code_root(i), (254 - k) as nat)), 255);
        assert forall|k: int| 0 <= k < 255 implies #[trigger] g(k) == f(255 - 1 - k) by {
            assert(254 - (255 - 1 - k) == k);
        }
        lemma_xsum_rev(f, g, 255);
        assert forall|k: int| 32 <= k < 255 implies #[trigger] g(k) == 0 by {
            assert(a[254 - k] == b[254 - k]);
            lemma_xor(a[254 - k], b[254 - k], 0);
            lemma_mul_zero(gpow(z, k as nat));
        }
        lemma_xsum_extend(g, 32, 255);
        lemma_xsum_ext(g, |k: int| gmul(c(k), gpow(z, k as nat)), 32);
    }
    assert forall|i: int, j: int| 0 <= i < 32 && 0 <= j < 32 && i != j implies roots[i]
        != roots[j] by {
        if roots[i] == roots[j] {
            let x = (11 * (112 + i)) as nat;
            let y = (11 * (112 + j)) as nat;
            lemma_apow_period(x);
            lemma_apow_period(y);
            lemma_apow_injective(x % 255, y % 255);
            let t = x as int / 255 - y as int / 255;
            assert(x == 255 * (x as int / 255) + x as int % 255);
            assert(y == 255 * (y as int / 255) + y as int % 255);
            assert(11 * (i - j) == 255 * t);
            let u = 116 * t - 5 * (i - j);
            assert(i - j == 255 * u);
        }
    }
    lemma_root_bound(c, 32, roots);
    assert forall|j: int| 0 <= j < 32 implies p[j] == q[j] by {
        assert(c(31 - j) == 0);
        assert(a[223 + j] == p[j]);
        assert(b[223 + j] == q[j]);
        lemma_xor(p[j], q[j], 0);
    }
    assert(p =~= q);
}

} // verus!
