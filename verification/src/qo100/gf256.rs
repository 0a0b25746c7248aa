//! Arithmetic in GF(256), the symbol field of the Reed-Solomon code.
//!
//! Elements are bytes: the coefficients of a polynomial of degree at most 7
//! over GF(2), reduced by `x^8 + x^7 + x^2 + x + 1`. Addition is `^`.
use vstd::prelude::*;

verus! {

/// Multiplication by `x`.
pub open spec fn xtime(a: u8) -> u8 {
    (a << 1) ^ (if a >= 0x80 {
        0x87u8
    } else {
        0u8
    })
}

/// `a` where bit `k` of `b` is set, else zero.
pub open spec fn gated(a: u8, b: u8, k: u8) -> u8 {
    if (b >> k) & 1 == 1 {
        a
    } else {
        0
    }
}

/// One step of Horner's rule on the bits of `b`.
pub open spec fn horner(acc: u8, a: u8, b: u8, k: u8) -> u8 {
    gated(a, b, k) ^ xtime(acc)
}

/// The field product, by Horner's rule on the bits of `b`.
pub closed spec fn gmul(a: u8, b: u8) -> u8 {
    let h7 = horner(0, a, b, 7);
    let h6 = horner(h7, a, b, 6);
    let h5 = horner(h6, a, b, 5);
    let h4 = horner(h5, a, b, 4);
    let h3 = horner(h4, a, b, 3);
    let h2 = horner(h3, a, b, 2);
    let h1 = horner(h2, a, b, 1);
    horner(h1, a, b, 0)
}

proof fn lemma_horner(acc: u8, acc2: u8, a: u8, a2: u8, b: u8, k: u8)
    requires
        k < 8,
    ensures
        horner(acc ^ acc2, a ^ a2, b, k) == horner(acc, a, b, k) ^ horner(acc2, a2, b, k),
        horner(xtime(acc), xtime(a), b, k) == xtime(horner(acc, a, b, k)),
        horner(0, 0, b, k) == 0,
{
    assert(horner(acc ^ acc2, a ^ a2, b, k) == horner(acc, a, b, k) ^ horner(acc2, a2, b, k)
        && horner(xtime(acc), xtime(a), b, k) == xtime(horner(acc, a, b, k))
        && horner(0, 0, b, k) == 0) by (bit_vector);
}

/// The product distributes over addition, on the left.
pub proof fn lemma_mul_dist_left(a: u8, a2: u8, b: u8)
    ensures
        gmul(a ^ a2, b) == gmul(a, b) ^ gmul(a2, b),
{
    let h7 = horner(0, a, b, 7);
    let h6 = horner(h7, a, b, 6);
    let h5 = horner(h6, a, b, 5);
    let h4 = horner(h5, a, b, 4);
    let h3 = horner(h4, a, b, 3);
    let h2 = horner(h3, a, b, 2);
    let h1 = horner(h2, a, b, 1);
    let g7 = horner(0, a2, b, 7);
    let g6 = horner(g7, a2, b, 6);
    let g5 = horner(g6, a2, b, 5);
    let g4 = horner(g5, a2, b, 4);
    let g3 = horner(g4, a2, b, 3);
    let g2 = horner(g3, a2, b, 2);
    let g1 = horner(g2, a2, b, 1);
    assert(0u8 ^ 0u8 == 0u8) by (bit_vector);
    lemma_horner(0, 0, a, a2, b, 7);
    lemma_horner(h7, g7, a, a2, b, 6);
    lemma_horner(h6, g6, a, a2, b, 5);
    lemma_horner(h5, g5, a, a2, b, 4);
    lemma_horner(h4, g4, a, a2, b, 3);
    lemma_horner(h3, g3, a, a2, b, 2);
    lemma_horner(h2, g2, a, a2, b, 1);
    lemma_horner(h1, g1, a, a2, b, 0);
}

/// Multiplying by `x` commutes with multiplying by `b`.
proof fn lemma_mul_xtime(a: u8, b: u8)
    ensures
        gmul(xtime(a), b) == xtime(gmul(a, b)),
{
    let h7 = horner(0, a, b, 7);
    let h6 = horner(h7, a, b, 6);
    let h5 = horner(h6, a, b, 5);
    let h4 = horner(h5, a, b, 4);
    let h3 = horner(h4, a, b, 3);
    let h2 = horner(h3, a, b, 2);
    let h1 = horner(h2, a, b, 1);
    assert(xtime(0) == 0) by (bit_vector);
    lemma_horner(0, 0, a, 0, b, 7);
    lemma_horner(h7, 0, a, 0, b, 6);
    lemma_horner(h6, 0, a, 0, b, 5);
    lemma_horner(h5, 0, a, 0, b, 4);
    lemma_horner(h4, 0, a, 0, b, 3);
    lemma_horner(h3, 0, a, 0, b, 2);
    lemma_horner(h2, 0, a, 0, b, 1);
    lemma_horner(h1, 0, a, 0, b, 0);
}

pub proof fn lemma_mul_units(b: u8)
    ensures
        gmul(1, b) == b,
        gmul(0, b) == 0,
{
    let h7 = horner(0, 1, b, 7);
    let h6 = horner(h7, 1, b, 6);
    let h5 = horner(h6, 1, b, 5);
    let h4 = horner(h5, 1, b, 4);
    let h3 = horner(h4, 1, b, 3);
    let h2 = horner(h3, 1, b, 2);
    let h1 = horner(h2, 1, b, 1);
    let h0 = horner(h1, 1, b, 0);
    assert(h0 == b) by (bit_vector)
        requires
            h7 == horner(0, 1, b, 7),
            h6 == horner(h7, 1, b, 6),
            h5 == horner(h6, 1, b, 5),
            h4 == horner(h5, 1, b, 4),
            h3 == horner(h4, 1, b, 3),
            h2 == horner(h3, 1, b, 2),
            h1 == horner(h2, 1, b, 1),
            h0 == horner(h1, 1, b, 0),
    ;
    lemma_mul_dist_left(1, 1, b);
    assert(1u8 ^ 1u8 == 0u8) by (bit_vector);
    let p = gmul(1, b);
    assert(p ^ p == 0u8) by (bit_vector);
}

/// The powers of the primitive element `x`.
pub open spec fn apow(n: nat) -> u8
    decreases n,
{
    if n == 0 {
        1
    } else {
        xtime(apow((n - 1) as nat))
    }
}

pub proof fn lemma_apow_add(i: nat, j: nat)
    ensures
        gmul(apow(i), apow(j)) == apow(i + j),
    decreases i,
{
    if i == 0 {
        lemma_mul_units(apow(j));
    } else {
        lemma_apow_add((i - 1) as nat, j);
        lemma_mul_xtime(apow((i - 1) as nat), apow(j));
    }
}

pub proof fn lemma_apow_nonzero(n: nat)
    ensures
        apow(n) != 0,
    decreases n,
{
    if n > 0 {
        lemma_apow_nonzero((n - 1) as nat);
        let a = apow((n - 1) as nat);
        assert(a != 0 ==> xtime(a) != 0) by (bit_vector);
    }
}

/// The order of `x` divides 255, and is none of its maximal proper divisors.
proof fn lemma_apow_landmarks()
    ensures
        apow(255) == 1,
        apow(85) != 1,
        apow(51) != 1,
        apow(15) != 1,
{
    assert(xtime(1) == 2 && gmul(2, 2) == 4 && gmul(4, 4) == 16 && gmul(16, 16) == 135 && gmul(
        135,
        135,
    ) == 111 && gmul(111, 111) == 29 && gmul(29, 29) == 214 && gmul(214, 214) == 52) by (bit_vector);
    assert(gmul(2, 4) == 8 && gmul(16, 135) == 221 && gmul(8, 221) == 244 && gmul(111, 29) == 206
        && gmul(8, 206) == 108 && gmul(111, 214) == 76 && gmul(2, 16) == 32 && gmul(32, 76) == 170
        && gmul(214, 52) == 176 && gmul(206, 176) == 51 && gmul(244, 51) == 1) by (bit_vector);
    reveal_with_fuel(apow, 2);
    lemma_apow_add(1, 1);
    lemma_apow_add(2, 2);
    lemma_apow_add(4, 4);
    lemma_apow_add(8, 8);
    lemma_apow_add(16, 16);
    lemma_apow_add(32, 32);
    lemma_apow_add(64, 64);
    lemma_apow_add(1, 2);
    lemma_apow_add(4, 8);
    lemma_apow_add(3, 12);
    lemma_apow_add(16, 32);
    lemma_apow_add(3, 48);
    lemma_apow_add(16, 64);
    lemma_apow_add(1, 4);
    lemma_apow_add(5, 80);
    lemma_apow_add(64, 128);
    lemma_apow_add(48, 192);
    lemma_apow_add(15, 240);
}

/// A multiple of an exponent that gives one gives one.
proof fn lemma_apow_multiple(e: nat, k: nat)
    requires
        apow(e) == 1,
    ensures
        apow(e * k) == 1,
    decreases k,
{
    if k > 0 {
        lemma_apow_multiple(e, (k - 1) as nat);
        lemma_apow_add(e, (e * (k - 1)) as nat);
        lemma_mul_units(1);
        assert(e * k == e + e * (k - 1)) by (nonlinear_arith);
    } else {
        assert(e * k == 0) by (nonlinear_arith)
            requires
                k == 0,
        ;
    }
}

pub proof fn lemma_apow_period(n: nat)
    ensures
        apow(n + 255) == apow(n),
        apow(n % 255) == apow(n),
{
    lemma_apow_landmarks();
    lemma_apow_add(255, n);
    lemma_mul_units(apow(n));
    let q = n / 255;
    let r = n % 255;
    lemma_apow_multiple(255, q);
    lemma_apow_add(255 * q, r);
    lemma_mul_units(apow(r));
}

/// The least positive exponent not above `n` that gives one.
proof fn lemma_least_order(n: nat) -> (e: nat)
    requires
        n > 0,
        apow(n) == 1,
    ensures
        0 < e <= n,
        apow(e) == 1,
        forall|d: nat| 0 < d < e ==> #[trigger] apow(d) != 1,
    decreases n,
{
    if exists|d: nat| 0 < d < n && #[trigger] apow(d) == 1 {
        let d = choose|d: nat| 0 < d < n && #[trigger] apow(d) == 1;
        lemma_least_order(d)
    } else {
        n
    }
}

/// No power strictly between 0 and 255 is one.
proof fn lemma_apow_order(n: nat)
    requires
        0 < n < 255,
    ensures
        apow(n) != 1,
{
    lemma_apow_landmarks();
    if apow(n) == 1 {
        let e = lemma_least_order(n);
        let q = 255nat / e;
        let r = 255nat % e;
        assert(255 == e * q + r) by (nonlinear_arith)
            requires
                e > 0,
                q == 255nat / e,
                r == 255nat % e,
        ;
        lemma_apow_multiple(e, q);
        lemma_apow_add(e * q, r);
        lemma_mul_units(apow(r));
        assert(r == 0);
        let e8 = e as u8;
        assert(255u8 % e8 == 0u8);
        assert(e8 == 1u8 || e8 == 3u8 || e8 == 5u8 || e8 == 15u8 || e8 == 17u8 || e8 == 51u8 || e8
            == 85u8) by (bit_vector)
            requires
                0u8 < e8,
                e8 < 255u8,
                255u8 % e8 == 0u8,
        ;
        if e == 1 {
            lemma_apow_multiple(e, 15);
        } else if e == 3 {
            lemma_apow_multiple(e, 5);
        } else if e == 5 {
            lemma_apow_multiple(e, 3);
        } else if e == 17 {
            lemma_apow_multiple(e, 3);
        }
        assert(false);
    }
}

/// The first 255 powers are distinct.
pub proof fn lemma_apow_injective(i: nat, j: nat)
    requires
        i < 255,
        j < 255,
        apow(i) == apow(j),
    ensures
        i == j,
{
    if i < j {
        lemma_apow_injective_lt(i, j);
    } else if j < i {
        lemma_apow_injective_lt(j, i);
    }
}

proof fn lemma_apow_injective_lt(i: nat, j: nat)
    requires
        i < j < 255,
    ensures
        apow(i) != apow(j),
{
    if apow(i) == apow(j) {
        let d = (j - i) as nat;
        let c = (255 - i) as nat;
        lemma_apow_add(i, c);
        lemma_apow_add(j, c);
        lemma_apow_period(d);
        lemma_apow_period(0);
        lemma_apow_order(d);
    }
}

/// Every non-zero element is a power of `x`.
pub proof fn lemma_apow_onto(a: u8)
    requires
        a != 0,
    ensures
        exists|i: nat| i < 255 && #[trigger] apow(i) == a,
{
    let dom = vstd::set_lib::set_int_range(0, 255);
    let cod = vstd::set_lib::set_int_range(1, 256);
    let f = |i: int| apow(i as nat) as int;
    let img = dom.map(f);
    vstd::set_lib::lemma_int_range(0, 255);
    vstd::set_lib::lemma_int_range(1, 256);
    assert(vstd::relations::injective_on(f, dom)) by {
        assert forall|x1: int, x2: int|
            dom.contains(x1) && dom.contains(x2) && #[trigger] f(x1) == #[trigger] f(x2) implies x1
            == x2 by {
            lemma_apow_injective(x1 as nat, x2 as nat);
        }
    }
    vstd::set_lib::lemma_map_size(dom, img, f);
    assert(img.subset_of(cod)) by {
        assert forall|y: int| img.contains(y) implies cod.contains(y) by {
            let i = choose|i: int| dom.contains(i) && y == f(i);
            lemma_apow_nonzero(i as nat);
        }
    }
    vstd::set_lib::lemma_subset_equality(img, cod);
    assert(img.contains(a as int));
    let i = choose|i: int| dom.contains(i) && a as int == f(i);
    assert(apow(i as nat) == a);
}

/// The discrete logarithm of a non-zero element.
pub open spec fn dlog(a: u8) -> nat {
    choose|i: nat| i < 255 && #[trigger] apow(i) == a
}

pub proof fn lemma_dlog(a: u8)
    requires
        a != 0,
    ensures
        dlog(a) < 255,
        apow(dlog(a)) == a,
{
    lemma_apow_onto(a);
}

pub proof fn lemma_dlog_apow(i: nat)
    requires
        i < 255,
    ensures
        dlog(apow(i)) == i,
{
    lemma_apow_nonzero(i);
    lemma_dlog(apow(i));
    lemma_apow_injective(i, dlog(apow(i)));
}

pub proof fn lemma_mul_zero(a: u8)
    ensures
        gmul(a, 0) == 0,
        gmul(0, a) == 0,
{
    lemma_mul_units(0);
    lemma_mul_units(a);
    if a != 0 {
        lemma_dlog(a);
        lemma_apow_times_zero(dlog(a));
    }
}

proof fn lemma_apow_times_zero(i: nat)
    ensures
        gmul(apow(i), 0) == 0,
    decreases i,
{
    if i == 0 {
        lemma_mul_units(0);
    } else {
        lemma_apow_times_zero((i - 1) as nat);
        lemma_mul_xtime(apow((i - 1) as nat), 0);
        assert(xtime(0) == 0) by (bit_vector);
    }
}

pub proof fn lemma_mul_comm(a: u8, b: u8)
    ensures
        gmul(a, b) == gmul(b, a),
{
    lemma_mul_zero(a);
    lemma_mul_zero(b);
    if a != 0 && b != 0 {
        lemma_dlog(a);
        lemma_dlog(b);
        lemma_apow_add(dlog(a), dlog(b));
        lemma_apow_add(dlog(b), dlog(a));
    }
}

pub proof fn lemma_mul_assoc(a: u8, b: u8, c: u8)
    ensures
        gmul(gmul(a, b), c) == gmul(a, gmul(b, c)),
{
    lemma_mul_zero(a);
    lemma_mul_zero(b);
    lemma_mul_zero(c);
    lemma_mul_zero(gmul(a, b));
    lemma_mul_zero(gmul(b, c));
    if a != 0 && b != 0 && c != 0 {
        lemma_dlog(a);
        lemma_dlog(b);
        lemma_dlog(c);
        lemma_apow_add(dlog(a), dlog(b));
        lemma_apow_add(dlog(a) + dlog(b), dlog(c));
        lemma_apow_add(dlog(b), dlog(c));
        lemma_apow_add(dlog(a), dlog(b) + dlog(c));
    }
}

pub proof fn lemma_mul_one(a: u8)
    ensures
        gmul(1, a) == a,
        gmul(a, 1) == a,
{
    lemma_mul_units(a);
    lemma_mul_comm(a, 1);
}

pub proof fn lemma_mul_dist(a: u8, b: u8, c: u8)
    ensures
        gmul(a ^ b, c) == gmul(a, c) ^ gmul(b, c),
        gmul(c, a ^ b) == gmul(c, a) ^ gmul(c, b),
{
    lemma_mul_dist_left(a, b, c);
    lemma_mul_comm(a ^ b, c);
    lemma_mul_comm(a, c);
    lemma_mul_comm(b, c);
}

/// There are no zero divisors.
pub proof fn lemma_mul_nonzero(a: u8, b: u8)
    ensures
        gmul(a, b) == 0 <==> (a == 0 || b == 0),
{
    lemma_mul_zero(a);
    lemma_mul_zero(b);
    if a != 0 && b != 0 {
        lemma_dlog(a);
        lemma_dlog(b);
        lemma_apow_add(dlog(a), dlog(b));
        lemma_apow_nonzero(dlog(a) + dlog(b));
    }
}

/// The multiplicative inverse; zero for zero.
pub open spec fn ginv(a: u8) -> u8 {
    if a == 0 {
        0
    } else {
        apow((255 - dlog(a)) as nat)
    }
}

pub proof fn lemma_inv(a: u8)
    requires
        a != 0,
    ensures
        gmul(a, ginv(a)) == 1,
        gmul(ginv(a), a) == 1,
        ginv(a) != 0,
{
    lemma_dlog(a);
    lemma_apow_landmarks();
    lemma_apow_add(dlog(a), (255 - dlog(a)) as nat);
    lemma_mul_comm(a, ginv(a));
    lemma_apow_nonzero((255 - dlog(a)) as nat);
}

/// Multiplication by a non-zero element can be cancelled.
pub proof fn lemma_mul_cancel(a: u8, b: u8, c: u8)
    requires
        c != 0,
        gmul(a, c) == gmul(b, c),
    ensures
        a == b,
{
    lemma_inv(c);
    lemma_mul_assoc(a, c, ginv(c));
    lemma_mul_assoc(b, c, ginv(c));
    lemma_mul_one(a);
    lemma_mul_one(b);
}

/// The group laws of addition.
pub proof fn lemma_xor(a: u8, b: u8, c: u8)
    ensures
        a ^ b == b ^ a,
        (a ^ b) ^ c == a ^ (b ^ c),
        a ^ 0 == a,
        0 ^ a == a,
        a ^ a == 0,
        (a ^ b == 0) <==> a == b,
        (a ^ b) ^ b == a,
{
    assert(a ^ b == b ^ a && (a ^ b) ^ c == a ^ (b ^ c) && a ^ 0 == a && 0 ^ a == a && a ^ a == 0
        && ((a ^ b == 0) <==> a == b) && (a ^ b) ^ b == a) by (bit_vector);
}

/// `x` to the power `n`.
pub open spec fn gpow(x: u8, n: nat) -> u8
    decreases n,
{
    if n == 0 {
        1
    } else {
        gmul(gpow(x, (n - 1) as nat), x)
    }
}

pub proof fn lemma_gpow_nonzero(x: u8, n: nat)
    requires
        x != 0,
    ensures
        gpow(x, n) != 0,
    decreases n,
{
    if n > 0 {
        lemma_gpow_nonzero(x, (n - 1) as nat);
        lemma_mul_nonzero(gpow(x, (n - 1) as nat), x);
    }
}

pub proof fn lemma_gpow_add(x: u8, i: nat, j: nat)
    ensures
        gmul(gpow(x, i), gpow(x, j)) == gpow(x, i + j),
    decreases j,
{
    if j == 0 {
        lemma_mul_one(gpow(x, i));
    } else {
        let k = (j - 1) as nat;
        lemma_gpow_add(x, i, k);
        lemma_mul_assoc(gpow(x, i), gpow(x, k), x);
    }
}

/// A power of a power of the primitive element.
pub proof fn lemma_gpow_apow(i: nat, n: nat)
    ensures
        gpow(apow(i), n) == apow(i * n),
    decreases n,
{
    if n == 0 {
        assert(i * n == 0) by (nonlinear_arith)
            requires
                n == 0,
        ;
    } else {
        let k = (n - 1) as nat;
        lemma_gpow_apow(i, k);
        lemma_apow_add(i * k, i);
        assert(i * n == i * k + i) by (nonlinear_arith)
            requires
                n == k + 1,
        ;
    }
}

/// With `x` and `y` inverse to each other, `x^n y^i = x^(n-i)`.
pub proof fn lemma_gpow_inverse(x: u8, y: u8, n: nat, i: nat)
    requires
        gmul(x, y) == 1,
        i <= n,
    ensures
        gmul(gpow(x, n), gpow(y, i)) == gpow(x, (n - i) as nat),
    decreases i,
{
    if i == 0 {
        lemma_mul_one(gpow(x, n));
    } else {
        let n1 = (n - 1) as nat;
        let i1 = (i - 1) as nat;
        let a = gpow(x, n1);
        let b = gpow(y, i1);
        lemma_gpow_inverse(x, y, n1, i1);
        // (a x)(b y) = (a b)(x y)
        lemma_mul_assoc(gmul(a, x), b, y);
        lemma_mul_assoc(a, x, b);
        lemma_mul_comm(x, b);
        lemma_mul_assoc(a, b, x);
        lemma_mul_assoc(gmul(a, b), x, y);
        lemma_mul_one(gmul(a, b));
    }
}

} // verus!
