//! Maximum-likelihood decoding of a rate-1/2, constraint-length-7
//! convolutional code from soft symbols.
//!
//! A message bit shifts into a seven-bit register at the low end; each of two
//! polynomials selects the register bits whose parity is sent. The encoder
//! starts in state zero and six zero bits at the end of the message flush it
//! back there.
use vstd::prelude::*;

verus! {

/// The code: two polynomials with the newest bit lowest, and whether the
/// second output is sent inverted.
#[derive(Clone, Copy, Debug, PartialEq, Eq)]
pub struct ConvCode {
    pub poly_a: u8,
    pub poly_b: u8,
    pub invert_b: bool,
}

/// Whether an odd number of bits is set.
pub open spec fn odd_ones(x: u8) -> bool {
    ((x & 1) + ((x >> 1) & 1) + ((x >> 2) & 1) + ((x >> 3) & 1) + ((x >> 4) & 1) + ((x >> 5) & 1)
        + ((x >> 6) & 1) + ((x >> 7) & 1)) % 2 == 1
}

/// Odd parity of `x`.
pub fn parity(x: u8) -> (r: u8)
    ensures
        r == (if odd_ones(x) {
            1u8
        } else {
            0u8
        }),
{
    let y: u8 = x ^ (x >> 4);
    let z: u8 = y ^ (y >> 2);
    let w: u8 = z ^ (z >> 1);
    assert((w & 1) == (if ((x & 1) + ((x >> 1) & 1) + ((x >> 2) & 1) + ((x >> 3) & 1) + ((x >> 4)
        & 1) + ((x >> 5) & 1) + ((x >> 6) & 1) + ((x >> 7) & 1)) % 2 == 1 {
        1u8
    } else {
        0u8
    })) by (bit_vector)
        requires
            y == x ^ (x >> 4),
            z == y ^ (y >> 2),
            w == z ^ (z >> 1),
    ;
    w & 1
}

/// The register when `bit` comes in at state `state`.
pub open spec fn register(state: int, bit: u8) -> int {
    2 * state + bit
}

/// The state after that.
pub open spec fn next_state(state: int, bit: u8) -> int {
    register(state, bit) % 64
}

pub open spec fn output_a(code: ConvCode, reg: int) -> bool {
    odd_ones(reg as u8 & code.poly_a)
}

pub open spec fn output_b(code: ConvCode, reg: int) -> bool {
    odd_ones(reg as u8 & code.poly_b) != code.invert_b
}

/// A value counted for or against.
pub open spec fn agree(want: bool, v: i32) -> int {
    if want {
        v as int
    } else {
        -(v as int)
    }
}

/// How well the two symbols of one step agree with the register's output.
pub open spec fn branch(code: ConvCode, reg: int, va: i32, vb: i32) -> int {
    agree(output_a(code, reg), va) + agree(output_b(code, reg), vb)
}

/// Whether all elements are bits.
pub open spec fn is_message(m: Seq<u8>) -> bool {
    forall|i: int| 0 <= i < m.len() ==> #[trigger] m[i] <= 1
}

/// The encoder's state after a message.
pub open spec fn end_state(m: Seq<u8>) -> int
    decreases m.len(),
{
    if m.len() == 0 {
        0
    } else {
        next_state(end_state(m.drop_last()), m.last())
    }
}

/// How well soft symbols agree with the encoding of a message.
pub open spec fn score(code: ConvCode, soft: Seq<i32>, m: Seq<u8>) -> int
    decreases m.len(),
{
    if m.len() == 0 {
        0
    } else {
        let i = m.len() - 1;
        score(code, soft, m.drop_last()) + branch(
            code,
            register(end_state(m.drop_last()), m.last()),
            soft[2 * i],
            soft[2 * i + 1],
        )
    }
}

/// A message of the right length that leaves the encoder in state zero.
pub open spec fn is_flushed(soft: Seq<i32>, m: Seq<u8>) -> bool {
    &&& m.len() == soft.len() / 2
    &&& is_message(m)
    &&& end_state(m) == 0
}

/// No flushed message agrees better with the symbols.
pub open spec fn is_most_likely(code: ConvCode, soft: Seq<i32>, m: Seq<u8>) -> bool {
    &&& is_flushed(soft, m)
    &&& forall|o: Seq<u8>| #[trigger]
        is_flushed(soft, o) ==> score(code, soft, o) <= score(code, soft, m)
}

/// Whether `m` goes before `o` where both are as likely: from the end backwards,
/// it is the first to have a zero.
pub open spec fn goes_before(m: Seq<u8>, o: Seq<u8>) -> bool
    decreases m.len(),
{
    if m.len() == 0 || o.len() == 0 {
        true
    } else if m.last() != o.last() {
        m.last() < o.last()
    } else {
        goes_before(m.drop_last(), o.drop_last())
    }
}

/// The message that soft symbols are taken for: of the most likely ones, the one
/// that goes before the others.
pub open spec fn is_chosen(code: ConvCode, soft: Seq<i32>, m: Seq<u8>) -> bool {
    &&& is_most_likely(code, soft, m)
    &&& forall|o: Seq<u8>| #[trigger] is_most_likely(code, soft, o) ==> goes_before(m, o)
}

proof fn lemma_goes_before_one_way(m: Seq<u8>, o: Seq<u8>)
    requires
        m.len() == o.len(),
        goes_before(m, o),
        goes_before(o, m),
    ensures
        m == o,
    decreases m.len(),
{
    if m.len() > 0 {
        lemma_goes_before_one_way(m.drop_last(), o.drop_last());
        assert(m =~= m.drop_last().push(m.last()));
        assert(o =~= o.drop_last().push(o.last()));
    } else {
        assert(m =~= o);
    }
}

/// Soft symbols are taken for one message and no other, however many are as
/// likely.
pub proof fn one_message_is_chosen(code: ConvCode, soft: Seq<i32>, m: Seq<u8>, o: Seq<u8>)
    requires
        is_chosen(code, soft, m),
        is_chosen(code, soft, o),
    ensures
        m == o,
{
    lemma_goes_before_one_way(m, o);
}

/// Whether the lowest bit in which two states differ is bit `k`, and `a` lacks it.
pub open spec fn lacks_bit(a: int, b: int, k: int) -> bool {
    if k == 0 {
        a % 2 == 0 && b % 2 == 1
    } else if k == 1 {
        a % 2 == b % 2 && a % 4 < 2 && b % 4 >= 2
    } else if k == 2 {
        a % 4 == b % 4 && a % 8 < 4 && b % 8 >= 4
    } else if k == 3 {
        a % 8 == b % 8 && a % 16 < 8 && b % 16 >= 8
    } else if k == 4 {
        a % 16 == b % 16 && a % 32 < 16 && b % 32 >= 16
    } else {
        a % 32 == b % 32 && a % 64 < 32 && b % 64 >= 32
    }
}

proof fn lemma_lacks_bit(a: int, b: int, x: int, y: int, k: int)
    requires
        0 < k <= 5,
        lacks_bit(a, b, k),
        0 <= a < 64,
        0 <= b < 64,
        0 <= x < 64,
        0 <= y < 64,
        x % 32 == a / 2,
        y % 32 == b / 2,
    ensures
        lacks_bit(x, y, k - 1),
        a % 2 == b % 2,
{
    let (a, b, x, y) = (a as u8, b as u8, x as u8, y as u8);
    assert((a % 2 == b % 2 && a % 4 < 2 && b % 4 >= 2 ==> x % 2 == 0 && y % 2 == 1) && (a % 4 == b
        % 4 && a % 8 < 4 && b % 8 >= 4 ==> x % 2 == y % 2 && x % 4 < 2 && y % 4 >= 2 && a % 2 == b
        % 2) && (a % 8 == b % 8 && a % 16 < 8 && b % 16 >= 8 ==> x % 4 == y % 4 && x % 8 < 4 && y
        % 8 >= 4 && a % 2 == b % 2) && (a % 16 == b % 16 && a % 32 < 16 && b % 32 >= 16 ==> x % 8
        == y % 8 && x % 16 < 8 && y % 16 >= 8 && a % 2 == b % 2) && (a % 32 == b % 32 && a % 64 < 32
        && b % 64 >= 32 ==> x % 16 == y % 16 && x % 32 < 16 && y % 32 >= 16 && a % 2 == b % 2))
        by (bit_vector)
        requires
            a < 64,
            b < 64,
            x < 64,
            y < 64,
            x % 32 == a / 2,
            y % 32 == b / 2,
    ;
}

/// Of two messages whose states differ so, the one that lacks the bit goes before
/// the other.
proof fn lemma_state_order(m: Seq<u8>, o: Seq<u8>, k: int)
    requires
        is_message(m),
        is_message(o),
        m.len() == o.len(),
        0 <= k <= 5,
        lacks_bit(end_state(m), end_state(o), k),
    ensures
        goes_before(m, o),
    decreases k,
{
    if m.len() > 0 {
        let (p, q) = (m.drop_last(), o.drop_last());
        lemma_last_step(m);
        lemma_last_step(o);
        if k > 0 {
            lemma_lacks_bit(end_state(m), end_state(o), end_state(p), end_state(q), k);
            lemma_state_order(p, q, k - 1);
        }
    }
}

/// What the last bit of a message does to the state.
proof fn lemma_last_step(m: Seq<u8>)
    requires
        is_message(m),
        m.len() > 0,
    ensures
        is_message(m.drop_last()),
        0 <= end_state(m.drop_last()) < 64,
        0 <= end_state(m) < 64,
        end_state(m) % 2 == m.last(),
        end_state(m.drop_last()) % 32 == end_state(m) / 2,
{
    let p = m.drop_last();
    assert(m[m.len() - 1] <= 1);
    assert forall|i: int| 0 <= i < p.len() implies #[trigger] p[i] <= 1 by {
        assert(p[i] == m[i]);
    }
    lemma_state_range(p);
}

pub proof fn lemma_state_range(m: Seq<u8>)
    requires
        is_message(m),
    ensures
        0 <= end_state(m) < 64,
    decreases m.len(),
{
    if m.len() > 0 {
        let p = m.drop_last();
        assert forall|i: int| 0 <= i < p.len() implies #[trigger] p[i] <= 1 by {
            assert(p[i] == m[i]);
        }
        lemma_state_range(p);
    }
}

/// The state that `s` was reached from; `high` says which of the two.
pub open spec fn previous(s: int, high: bool) -> int {
    s / 2 + (if high {
        32int
    } else {
        0int
    })
}

/// The message read back along the decisions, from state `s` at step `n`.
pub open spec fn traced(decisions: Seq<bool>, n: nat, s: int) -> Seq<u8>
    decreases n,
{
    if n == 0 {
        Seq::empty()
    } else {
        let m = (n - 1) as nat;
        traced(decisions, m, previous(s, decisions[64 * m + s])).push((s % 2) as u8)
    }
}

/// Decisions made later do not change what is traced.
proof fn lemma_traced_extend(d: Seq<bool>, e: Seq<bool>, n: nat, s: int)
    requires
        64 * n <= d.len() <= e.len(),
        0 <= s < 64,
        forall|i: int| 0 <= i < d.len() ==> d[i] == e[i],
    ensures
        traced(d, n, s) == traced(e, n, s),
    decreases n,
{
    if n > 0 {
        let m = (n - 1) as nat;
        lemma_traced_extend(d, e, m, previous(s, d[64 * m + s]));
    }
}

/// Whether a message of length `n` ends in state `s`.
pub open spec fn ends_in(m: Seq<u8>, n: nat, s: int) -> bool {
    m.len() == n && is_message(m) && end_state(m) == s
}

/// What is known of state `s` after `n` steps: whether it can be reached, and
/// if so the best score and the message that has it and goes before the others.
pub open spec fn survivor_ok(
    code: ConvCode,
    soft: Seq<i32>,
    decisions: Seq<bool>,
    n: nat,
    s: int,
    metric: i64,
    live: bool,
) -> bool {
    if live {
        &&& ends_in(traced(decisions, n, s), n, s)
        &&& score(code, soft, traced(decisions, n, s)) == metric
        &&& forall|m: Seq<u8>| #[trigger]
            ends_in(m, n, s) ==> score(code, soft, m) <= metric && (score(code, soft, m) == metric
                ==> goes_before(traced(decisions, n, s), m))
    } else {
        forall|m: Seq<u8>| !#[trigger] ends_in(m, n, s)
    }
}

/// One step: the two ways into state `s`, and the better of them.
proof fn lemma_survivor_step(
    code: ConvCode,
    soft: Seq<i32>,
    d0: Seq<bool>,
    d1: Seq<bool>,
    n: nat,
    s: int,
    m0: i64,
    l0: bool,
    m1: i64,
    l1: bool,
    metric: i64,
    live: bool,
)
    requires
        0 <= s < 64,
        d0.len() == 64 * n,
        d1.len() > 64 * n + s,
        forall|i: int| 0 <= i < d0.len() ==> d0[i] == d1[i],
        survivor_ok(code, soft, d0, n, previous(s, false), m0, l0),
        survivor_ok(code, soft, d0, n, previous(s, true), m1, l1),
        ({
            let b = (s % 2) as u8;
            let high = d1[64 * n + s];
            let c0 = m0 + branch(
                code,
                register(previous(s, false), b),
                soft[2 * n as int],
                soft[2 * n as int + 1],
            );
            let c1 = m1 + branch(
                code,
                register(previous(s, true), b),
                soft[2 * n as int],
                soft[2 * n as int + 1],
            );
            &&& live == (l0 || l1)
            &&& live ==> (if high {
                l1 && metric == c1 && (l0 ==> c0 < c1)
            } else {
                l0 && metric == c0 && (l1 ==> c1 <= c0)
            })
        }),
    ensures
        survivor_ok(code, soft, d1, n + 1, s, metric, live),
{
    let b = (s % 2) as u8;
    let high = d1[64 * n + s];
    let p = previous(s, high);
    lemma_traced_extend(d0, d1, n, previous(s, false));
    lemma_traced_extend(d0, d1, n, previous(s, true));
    if live {
        let t = traced(d1, n, p);
        let u = traced(d1, n + 1, s);
        assert(u == t.push(b));
        assert(u.drop_last() =~= t);
        assert(ends_in(t, n, p));
        assert(is_message(u)) by {
            assert forall|i: int| 0 <= i < u.len() implies #[trigger] u[i] <= 1 by {
                if i < n {
                    assert(u[i] == t[i]);
                }
            }
        }
        assert(next_state(p, b) == s);
    }
    assert forall|m: Seq<u8>| #[trigger] ends_in(m, n + 1, s) implies live && score(code, soft, m)
        <= metric && (score(code, soft, m) == metric ==> goes_before(traced(d1, n + 1, s), m)) by {
        let r = m.drop_last();
        lemma_last_step(m);
        let q = end_state(r);
        assert(m.last() == b);
        assert(q == previous(s, false) || q == previous(s, true));
        assert(ends_in(r, n, q));
        if live && score(code, soft, m) == metric {
            lemma_step_order(traced(d1, n, p), m, n, s, high);
        }
    }
}

/// Of two messages into one state, what goes before after a step goes by what
/// went before it, or else by the state that each came from.
proof fn lemma_step_order(t: Seq<u8>, m: Seq<u8>, n: nat, s: int, high: bool)
    requires
        0 <= s < 64,
        ends_in(t, n, previous(s, high)),
        ends_in(m, n + 1, s),
        end_state(m.drop_last()) == previous(s, high) ==> goes_before(t, m.drop_last()),
        end_state(m.drop_last()) != previous(s, high) ==> !high,
    ensures
        goes_before(t.push((s % 2) as u8), m),
{
    let r = m.drop_last();
    let u = t.push((s % 2) as u8);
    lemma_last_step(m);
    assert(u.drop_last() =~= t);
    assert(u.last() == m.last());
    if end_state(r) != previous(s, high) {
        assert(lacks_bit(end_state(t), end_state(r), 5));
        lemma_state_order(t, r, 5);
    }
}

/// The most likely message behind soft symbols, two per bit, positive for a
/// received one, of an encoder that started and ended in state zero. The six
/// flushing bits are part of the message. Where several are as likely, a zero is
/// preferred, the later bits deciding first.
pub fn viterbi_soft(soft: &[i32], code: ConvCode) -> (r: Vec<u8>)
    requires
        soft@.len() <= 0x1000_0000,
    ensures
        is_chosen(code, soft@, r@),
{
    let steps: usize = soft.len() / 2;
    let mut metric: [i64; 64] = [0;64];
    let mut live: [bool; 64] = [false;64];
    live[0] = true;
    let mut decisions: Vec<bool> = Vec::new();
    let mut n: usize = 0;
    proof {
        assert forall|s: int| 0 <= s < 64 implies #[trigger] survivor_ok(
            code,
            soft@,
            decisions@,
            0,
            s,
            metric@[s],
            live@[s],
        ) by {
            let e = Seq::<u8>::empty();
            assert(ends_in(e, 0, 0));
            assert forall|m: Seq<u8>| #[trigger] ends_in(m, 0, s) implies m == e && s == 0 by {
                assert(m =~= e);
            }
        }
    }
    while n < steps
        invariant
            n <= steps,
            steps == soft@.len() / 2,
            soft@.len() <= 0x1000_0000,
            decisions.len() == 64 * n,
            forall|s: int| 0 <= s < 64 ==> -0x1_0000_0000 * n <= #[trigger] metric@[s]
                <= 0x1_0000_0000 * n,
            forall|s: int| 0 <= s < 64 ==> #[trigger] survivor_ok(
                code,
                soft@,
                decisions@,
                n as nat,
                s,
                metric@[s],
                live@[s],
            ),
        decreases steps - n,
    {
        let ghost d0 = decisions@;
        let va: i32 = soft[2 * n];
        let vb: i32 = soft[2 * n + 1];
        let mut next_metric: [i64; 64] = [0;64];
        let mut next_live: [bool; 64] = [false;64];
        let mut s: usize = 0;
        while s < 64
            invariant
                s <= 64,
                n < steps,
                steps == soft@.len() / 2,
                soft@.len() <= 0x1000_0000,
                d0.len() == 64 * n,
                decisions.len() == 64 * n + s,
                va == soft@[2 * n as int],
                vb == soft@[2 * n as int + 1],
                forall|i: int| 0 <= i < d0.len() ==> d0[i] == decisions@[i],
                forall|t: int| 0 <= t < 64 ==> -0x1_0000_0000 * n <= #[trigger] metric@[t]
                    <= 0x1_0000_0000 * n,
                forall|t: int| 0 <= t < 64 ==> #[trigger] survivor_ok(
                    code,
                    soft@,
                    d0,
                    n as nat,
                    t,
                    metric@[t],
                    live@[t],
                ),
                forall|t: int| 0 <= t < 64 ==> -0x1_0000_0000 * (n + 1) <= #[trigger] next_metric@[t]
                    <= 0x1_0000_0000 * (n + 1),
                forall|t: int| 0 <= t < s ==> #[trigger] survivor_ok(
                    code,
                    soft@,
                    decisions@,
                    (n + 1) as nat,
                    t,
                    next_metric@[t],
                    next_live@[t],
                ),
            decreases 64 - s,
        {
            let ghost before = decisions@;
            let p0: usize = s / 2;
            let p1: usize = s / 2 + 32;
            let c0: i64 = metric[p0] + branch_of(code, (2 * p0 + s % 2) as u8, va, vb);
            let c1: i64 = metric[p1] + branch_of(code, (2 * p1 + s % 2) as u8, va, vb);
            let high: bool = live[p1] && (!live[p0] || c1 > c0);
            decisions.push(high);
            next_live[s] = live[p0] || live[p1];
            next_metric[s] = if high {
                c1
            } else {
                c0
            };
            proof {
                assert(survivor_ok(code, soft@, d0, n as nat, p0 as int, metric@[p0 as int], live@[p0 as int]));
                assert(survivor_ok(code, soft@, d0, n as nat, p1 as int, metric@[p1 as int], live@[p1 as int]));
                lemma_survivor_step(
                    code,
                    soft@,
                    d0,
                    decisions@,
                    n as nat,
                    s as int,
                    metric@[p0 as int],
                    live@[p0 as int],
                    metric@[p1 as int],
                    live@[p1 as int],
                    next_metric@[s as int],
                    next_live@[s as int],
                );
                assert forall|t: int| 0 <= t < s implies #[trigger] survivor_ok(
                    code,
                    soft@,
                    decisions@,
                    (n + 1) as nat,
                    t,
                    next_metric@[t],
                    next_live@[t],
                ) by {
                    assert(survivor_ok(
                        code,
                        soft@,
                        before,
                        (n + 1) as nat,
                        t,
                        next_metric@[t],
                        next_live@[t],
                    ));
                    lemma_traced_head(before, decisions@, n as nat, t);
                }
            }
            s = s + 1;
        }
        let ghost n1 = (n + 1) as nat;
        assert forall|t: int| 0 <= t < 64 implies #[trigger] survivor_ok(
            code,
            soft@,
            decisions@,
            n1,
            t,
            next_metric@[t],
            next_live@[t],
        ) by {}
        metric = next_metric;
        live = next_live;
        n = n + 1;
    }
    proof {
        assert(survivor_ok(code, soft@, decisions@, steps as nat, 0, metric@[0], live@[0]));
        let z = Seq::new(steps as nat, |i: int| 0u8);
        lemma_zeros(z);
        assert(ends_in(z, steps as nat, 0));
        assert(live@[0]);
        assert forall|o: Seq<u8>| #[trigger] is_flushed(soft@, o) implies ends_in(
            o,
            steps as nat,
            0,
        ) by {}
        let t = traced(decisions@, steps as nat, 0);
        assert(is_flushed(soft@, t));
        assert(is_most_likely(code, soft@, t));
        assert forall|o: Seq<u8>| #[trigger] is_most_likely(code, soft@, o) implies goes_before(
            t,
            o,
        ) by {
            assert(ends_in(o, steps as nat, 0));
            assert(score(code, soft@, t) <= score(code, soft@, o));
        }
        assert(is_chosen(code, soft@, t));
    }
    // Walk the decisions back from state zero.
    let mut back: Vec<u8> = Vec::new();
    let mut s: usize = 0;
    let mut n: usize = steps;
    while n > 0
        invariant
            n <= steps,
            s < 64,
            decisions.len() == 64 * steps,
            traced(decisions@, steps as nat, 0) =~= traced(decisions@, n as nat, s as int)
                + back@.reverse(),
        decreases n,
    {
        let ghost before = back@;
        n = n - 1;
        let bit: u8 = (s % 2) as u8;
        back.push(bit);
        let high: bool = decisions[64 * n + s];
        let ghost s0 = s as int;
        s = s / 2 + if high {
            32
        } else {
            0
        };
        assert(back@.reverse() =~= seq![bit] + before.reverse());
    }
    assert(traced(decisions@, steps as nat, 0) =~= back@.reverse());
    let mut out: Vec<u8> = Vec::new();
    let mut i: usize = back.len();
    while i > 0
        invariant
            i <= back.len(),
            out.len() == back.len() - i,
            forall|k: int| 0 <= k < out.len() ==> #[trigger] out@[k] == back@[back.len() - 1 - k],
        decreases i,
    {
        i = i - 1;
        out.push(back[i]);
    }
    assert(out@ =~= back@.reverse());
    out
}

/// Decisions past those of step `n` at state `s` do not change its survivor.
proof fn lemma_traced_head(d: Seq<bool>, e: Seq<bool>, n: nat, s: int)
    requires
        0 <= s < 64,
        64 * n + s < d.len() <= e.len(),
        forall|i: int| 0 <= i < d.len() ==> d[i] == e[i],
    ensures
        traced(d, n + 1, s) == traced(e, n + 1, s),
{
    let p = previous(s, d[64 * n + s]);
    lemma_traced_extend(d, e, n, p);
}

proof fn lemma_zeros(z: Seq<u8>)
    requires
        forall|i: int| 0 <= i < z.len() ==> z[i] == 0,
    ensures
        is_message(z),
        end_state(z) == 0,
    decreases z.len(),
{
    if z.len() > 0 {
        lemma_zeros(z.drop_last());
    }
}

/// How well two symbols agree with the outputs of a register.
fn branch_of(code: ConvCode, reg: u8, va: i32, vb: i32) -> (r: i64)
    ensures
        r == branch(code, reg as int, va, vb),
        -0x1_0000_0000 <= r <= 0x1_0000_0000,
{
    let a: bool = parity(reg & code.poly_a) == 1;
    let b: bool = (parity(reg & code.poly_b) == 1) != code.invert_b;
    let x: i64 = if a {
        va as i64
    } else {
        -(va as i64)
    };
    let y: i64 = if b {
        vb as i64
    } else {
        -(vb as i64)
    };
    x + y
}

} // verus!
