//! The layers of the coded frame, each by the rule that the beacon's format gives
//! for it.
use crate::qo100::bpsk::bit_of;
use crate::qo100::code::{code_root, is_codeword, padded, syndrome};
use crate::qo100::fec::{
    abs_corr, codeword, frame_position, is_best_start, is_candidate, is_frame_start, lfsr_step,
    lfsr_steps, lifted, merged, scramble_byte, scrambled, sent_symbol, sync_bit, sync_register,
    sync_total,
};
use crate::qo100::gf256::{apow, xtime};
use crate::qo100::viterbi::{end_state, is_message, odd_ones, register};
use vstd::prelude::*;

verus! {

// ---------------------------------------------------------------------------
// Shift registers
// ---------------------------------------------------------------------------

proof fn lemma_shift(r: u8)
    ensures
        forall|k: int|
            0 <= k < 7 ==> #[trigger] bit_of(lfsr_step(r, 0x48), k) == bit_of(r, k + 1) && bit_of(
                lfsr_step(r, 0x95),
                k,
            ) == bit_of(r, k + 1),
        bit_of(lfsr_step(r, 0x48), 7) == (bit_of(r, 1) != bit_of(r, 4)),
        bit_of(lfsr_step(r, 0x95), 7) == (bit_of(r, 0) != (bit_of(r, 3) != (bit_of(r, 5) != bit_of(
            r,
            7,
        )))),
{
    let a = lfsr_step(r, 0x48);
    let b = lfsr_step(r, 0x95);
    assert(((a >> 7) & 1 != 0) == ((r >> 6) & 1 != 0) && ((a >> 6) & 1 != 0) == ((r >> 5) & 1 != 0)
        && ((a >> 5) & 1 != 0) == ((r >> 4) & 1 != 0) && ((a >> 4) & 1 != 0) == ((r >> 3) & 1 != 0)
        && ((a >> 3) & 1 != 0) == ((r >> 2) & 1 != 0) && ((a >> 2) & 1 != 0) == ((r >> 1) & 1 != 0)
        && ((a >> 1) & 1 != 0) == ((r >> 0) & 1 != 0) && ((b >> 7) & 1 != 0) == ((r >> 6) & 1 != 0)
        && ((b >> 6) & 1 != 0) == ((r >> 5) & 1 != 0) && ((b >> 5) & 1 != 0) == ((r >> 4) & 1 != 0)
        && ((b >> 4) & 1 != 0) == ((r >> 3) & 1 != 0) && ((b >> 3) & 1 != 0) == ((r >> 2) & 1 != 0)
        && ((b >> 2) & 1 != 0) == ((r >> 1) & 1 != 0) && ((b >> 1) & 1 != 0) == ((r >> 0) & 1 != 0)
        && ((a >> 0) & 1 != 0) == (((r >> 6) & 1 != 0) != ((r >> 3) & 1 != 0)) && ((b >> 0) & 1
        != 0) == (((r >> 7) & 1 != 0) != (((r >> 4) & 1 != 0) != (((r >> 2) & 1 != 0) != ((r >> 0)
        & 1 != 0)))) && ((0x7fu8 >> 0) & 1 != 0)) by (bit_vector)
        requires
            a == (r << 1) | (if odd_ones(r & 0x48) {
                1u8
            } else {
                0u8
            }),
            b == (r << 1) | (if odd_ones(r & 0x95) {
                1u8
            } else {
                0u8
            }),
    ;
    assert forall|k: int| 0 <= k < 7 implies #[trigger] bit_of(a, k) == bit_of(r, k + 1) && bit_of(
        b,
        k,
    ) == bit_of(r, k + 1) by {
        assert(k == 0 || k == 1 || k == 2 || k == 3 || k == 4 || k == 5 || k == 6);
    }
}

proof fn lemma_ones(k: int)
    requires
        0 <= k < 8,
    ensures
        k > 0 ==> bit_of(0x7f, k),
        bit_of(0xff, k),
{
    assert((0x7fu8 >> 0) & 1 != 0 && (0x7fu8 >> 1) & 1 != 0 && (0x7fu8 >> 2) & 1 != 0 && (0x7fu8
        >> 3) & 1 != 0 && (0x7fu8 >> 4) & 1 != 0 && (0x7fu8 >> 5) & 1 != 0 && (0x7fu8 >> 6) & 1
        != 0 && (0xffu8 >> 0) & 1 != 0 && (0xffu8 >> 1) & 1 != 0 && (0xffu8 >> 2) & 1 != 0 && (
    0xffu8 >> 3) & 1 != 0 && (0xffu8 >> 4) & 1 != 0 && (0xffu8 >> 5) & 1 != 0 && (0xffu8 >> 6) & 1
        != 0 && (0xffu8 >> 7) & 1 != 0) by (bit_vector);
    assert(k == 0 || k == 1 || k == 2 || k == 3 || k == 4 || k == 5 || k == 6 || k == 7);
}

proof fn lemma_sync_moves(i: nat, k: nat, j: int)
    requires
        0 <= j && j + k <= 7,
    ensures
        bit_of(sync_register(i + k), j) == bit_of(sync_register(i), j + k),
    decreases k,
{
    if k > 0 {
        lemma_sync_moves(i, (k - 1) as nat, j + 1);
        lemma_shift(sync_register((i + k - 1) as nat));
        assert(bit_of(lfsr_step(sync_register((i + k - 1) as nat), 0x48), j) == bit_of(
            sync_register((i + k - 1) as nat),
            j + 1,
        ));
    }
}

proof fn lemma_sync_bit(i: nat)
    ensures
        sync_bit(i as int) == bit_of(sync_register(i), 1),
{
    let r = sync_register(i);
    assert((r & 0x40 != 0) == ((r >> 6) & 1 != 0)) by (bit_vector);
}

/// The sync vector is the sequence of `x^7 + x^3 + 1` that starts with seven ones.
pub proof fn the_sync_vector_obeys_its_polynomial(i: nat)
    ensures
        i < 7 ==> sync_bit(i as int),
        sync_bit((i + 7) as int) == (sync_bit(i as int) != sync_bit((i + 3) as int)),
{
    lemma_sync_bit(i);
    lemma_sync_bit(i + 7);
    lemma_sync_bit(i + 3);
    if i < 7 {
        lemma_sync_moves(0, i, 1);
        lemma_ones((1 + i) as int);
    }
    lemma_sync_moves(i, 3, 1);
    lemma_sync_moves(i + 1, 6, 1);
    lemma_shift(sync_register(i));
}

proof fn lemma_steps_add(sr: u8, a: nat, b: nat)
    ensures
        lfsr_steps(lfsr_steps(sr, 0x95, a), 0x95, b) == lfsr_steps(sr, 0x95, a + b),
    decreases b,
{
    if b > 0 {
        lemma_steps_add(sr, a, (b - 1) as nat);
    }
}

proof fn lemma_scramble_register(i: nat)
    ensures
        scramble_byte(i) == lfsr_steps(0xff, 0x95, 8 * i),
    decreases i,
{
    if i > 0 {
        lemma_scramble_register((i - 1) as nat);
        lemma_steps_add(0xff, (8 * (i - 1)) as nat, 8);
    }
}

proof fn lemma_scramble_moves(n: nat, k: nat, j: int)
    requires
        0 <= j && j + k <= 7,
    ensures
        bit_of(lfsr_steps(0xff, 0x95, n + k), j) == bit_of(lfsr_steps(0xff, 0x95, n), j + k),
    decreases k,
{
    if k > 0 {
        lemma_scramble_moves(n, (k - 1) as nat, j + 1);
        let r = lfsr_steps(0xff, 0x95, (n + k - 1) as nat);
        lemma_shift(r);
        assert(bit_of(lfsr_step(r, 0x48), j) == bit_of(r, j + 1));
    }
}

/// Bit `n` of the scrambler, counted through its bytes from the highest bit of
/// each.
pub open spec fn scramble_bit(n: nat) -> bool {
    bit_of(scramble_byte(n / 8), (n % 8) as int)
}

proof fn lemma_scramble_bit(n: nat)
    ensures
        scramble_bit(n) == bit_of(lfsr_steps(0xff, 0x95, n), 0),
{
    lemma_scramble_register(n / 8);
    lemma_scramble_moves(8 * (n / 8), n % 8, 0);
}

/// The scrambler is the sequence of `x^8 + x^7 + x^5 + x^3 + 1` that starts with
/// eight ones.
pub proof fn the_scrambler_obeys_its_polynomial(n: nat)
    ensures
        n < 8 ==> scramble_bit(n),
        scramble_bit(n + 8) == (scramble_bit(n) != (scramble_bit(n + 3) != (scramble_bit(n + 5)
            != scramble_bit(n + 7)))),
{
    lemma_scramble_bit(n);
    lemma_scramble_bit(n + 3);
    lemma_scramble_bit(n + 5);
    lemma_scramble_bit(n + 7);
    lemma_scramble_bit(n + 8);
    if n < 8 {
        lemma_scramble_moves(0, n, 0);
        lemma_ones(n as int);
    }
    lemma_scramble_moves(n, 3, 0);
    lemma_scramble_moves(n, 5, 0);
    lemma_scramble_moves(n, 7, 0);
    lemma_scramble_moves(n + 1, 7, 0);
    lemma_shift(lfsr_steps(0xff, 0x95, n));
}

/// Every byte is scrambled with its own byte of that sequence.
pub proof fn every_byte_is_scrambled(bytes: Seq<u8>, i: int)
    requires
        0 <= i < bytes.len(),
    ensures
        scrambled(bytes).len() == bytes.len(),
        scrambled(bytes)[i] == bytes[i] ^ scramble_byte(i as nat),
{
}

// ---------------------------------------------------------------------------
// The convolutional code
// ---------------------------------------------------------------------------

/// Bit `k` of a message, with zeros before it began.
pub open spec fn fed(m: Seq<u8>, k: int) -> int {
    if 0 <= k < m.len() {
        m[k] as int
    } else {
        0
    }
}

proof fn lemma_state_is_history(m: Seq<u8>, n: int)
    requires
        is_message(m),
        0 <= n <= m.len(),
    ensures
        end_state(m.take(n)) == fed(m, n - 1) + 2 * fed(m, n - 2) + 4 * fed(m, n - 3) + 8 * fed(
            m,
            n - 4,
        ) + 16 * fed(m, n - 5) + 32 * fed(m, n - 6),
        forall|k: int| 0 <= #[trigger] fed(m, k) <= 1,
    decreases n,
{
    assert forall|k: int| 0 <= #[trigger] fed(m, k) <= 1 by {
        if 0 <= k < m.len() {
            assert(m[k] <= 1);
        }
    }
    if n > 0 {
        lemma_state_is_history(m, n - 1);
        assert(m.take(n).drop_last() =~= m.take(n - 1));
        assert(m.take(n).last() == m[n - 1]);
        let s = end_state(m.take(n - 1));
        assert(0 <= fed(m, n - 7) <= 1);
        assert(2 * s + m[n - 1] == (fed(m, n - 1) + 2 * fed(m, n - 2) + 4 * fed(m, n - 3) + 8
            * fed(m, n - 4) + 16 * fed(m, n - 5) + 32 * fed(m, n - 6)) + 64 * fed(m, n - 7));
    }
}

proof fn lemma_taps(r: u8, b0: u8, b1: u8, b2: u8, b3: u8, b4: u8, b5: u8, b6: u8)
    requires
        b0 <= 1 && b1 <= 1 && b2 <= 1 && b3 <= 1 && b4 <= 1 && b5 <= 1 && b6 <= 1,
        r == b0 + 2 * b1 + 4 * b2 + 8 * b3 + 16 * b4 + 32 * b5 + 64 * b6,
    ensures
        odd_ones(r & 0x4f) == ((b0 + b1 + b2 + b3 + b6) % 2 == 1),
        odd_ones(r & 0x6d) == ((b0 + b2 + b3 + b5 + b6) % 2 == 1),
{
    assert(odd_ones(r & 0x4f) == ((b0 + b1 + b2 + b3 + b6) % 2 == 1) && odd_ones(r & 0x6d) == ((b0
        + b2 + b3 + b5 + b6) % 2 == 1)) by (bit_vector)
        requires
            b0 <= 1 && b1 <= 1 && b2 <= 1 && b3 <= 1 && b4 <= 1 && b5 <= 1 && b6 <= 1,
            r == b0 + 2 * b1 + 4 * b2 + 8 * b3 + 16 * b4 + 32 * b5 + 64 * b6,
    ;
}

/// The two symbols of a message bit: the first is the parity of the bit and those
/// one, two, three and six before it; the second is sent inverted and takes those
/// two, three, five and six before it.
pub proof fn two_symbols_are_parities_of_seven_bits(m: Seq<u8>, n: int)
    requires
        is_message(m),
        0 <= n < m.len(),
    ensures
        sent_symbol(m, 2 * n) <==> (fed(m, n) + fed(m, n - 1) + fed(m, n - 2) + fed(m, n - 3) + fed(
            m,
            n - 6,
        )) % 2 == 1,
        sent_symbol(m, 2 * n + 1) <==> (fed(m, n) + fed(m, n - 2) + fed(m, n - 3) + fed(m, n - 5)
            + fed(m, n - 6)) % 2 == 0,
{
    lemma_state_is_history(m, n);
    let reg = register(end_state(m.take(n)), m[n]);
    assert((2 * n) / 2 == n && (2 * n) % 2 == 0 && (2 * n + 1) / 2 == n && (2 * n + 1) % 2 == 1);
    assert(m[n] <= 1);
    let b = |k: int| fed(m, n - k) as u8;
    assert(0 <= fed(m, n) <= 1 && 0 <= fed(m, n - 1) <= 1 && 0 <= fed(m, n - 2) <= 1 && 0 <= fed(
        m,
        n - 3,
    ) <= 1 && 0 <= fed(m, n - 4) <= 1 && 0 <= fed(m, n - 5) <= 1 && 0 <= fed(m, n - 6) <= 1);
    lemma_taps(reg as u8, b(0), b(1), b(2), b(3), b(4), b(5), b(6));
}

// ---------------------------------------------------------------------------
// The frame
// ---------------------------------------------------------------------------

/// The interleaver is written along its rows, the first one left to the sync
/// vector, and read down its columns.
pub proof fn symbols_go_in_by_rows_and_out_by_columns(row: int, column: int)
    requires
        1 <= row < 80,
        0 <= column < 65,
    ensures
        frame_position(65 * (row - 1) + column) == 80 * column + row,
{
    let n = 65 * (row - 1) + column;
    assert(n % 65 == column && n / 65 == row - 1);
}

/// Each symbol comes out of the received frame from its own place, the right way
/// round.
pub proof fn each_symbol_comes_from_its_place(soft: Seq<i32>, start: int, n: int)
    requires
        0 <= n < 5132,
        soft[start + 80 * (n % 65) + 1 + n / 65] > i32::MIN,
    ensures
        lifted(soft, start, false).len() == 5132,
        lifted(soft, start, false)[n] == soft[start + 80 * (n % 65) + 1 + n / 65],
        lifted(soft, start, true)[n] == -soft[start + 80 * (n % 65) + 1 + n / 65],
{
}

/// The bytes alternate between the two codewords, payload and parity alike, and
/// the payload comes together again.
pub proof fn bytes_alternate_between_the_codewords(bytes: Seq<u8>)
    requires
        bytes.len() == 320,
    ensures
        merged(codeword(bytes, 0), codeword(bytes, 1)) == bytes.subrange(0, 256),
        forall|i: int, j: int|
            0 <= i < 128 && 0 <= j < 2 ==> #[trigger] codeword(bytes, j)[i] == bytes[2 * i + j],
        forall|i: int, j: int|
            128 <= i < 160 && 0 <= j < 2 ==> #[trigger] codeword(bytes, j)[i] == bytes[2 * i + j],
{
    let m = merged(codeword(bytes, 0), codeword(bytes, 1));
    assert forall|i: int| 0 <= i < 256 implies m[i] == bytes.subrange(0, 256)[i] by {
        assert(i == 2 * (i / 2) + i % 2);
    }
    assert(m =~= bytes.subrange(0, 256));
}

/// A frame is taken to start where the sync vector agrees with the symbols best,
/// in proportion to their confidence, and only where it agrees to 35 %.
pub proof fn a_frame_starts_where_the_sync_vector_agrees(soft: Seq<i32>, start: int, o: int)
    requires
        is_frame_start(soft, start),
        is_candidate(soft, o),
    ensures
        100 * abs_corr(soft, start) >= 35 * sync_total(soft, start, 65),
        abs_corr(soft, o) * sync_total(soft, start, 65) <= abs_corr(soft, start) * sync_total(
            soft,
            o,
            65,
        ),
        o < start ==> abs_corr(soft, o) * sync_total(soft, start, 65) < abs_corr(soft, start)
            * sync_total(soft, o, 65),
{
    assert(is_best_start(soft, start));
}

// ---------------------------------------------------------------------------
// The Reed-Solomon code
// ---------------------------------------------------------------------------

/// The field's element is a root of `x^8 + x^7 + x^2 + x + 1`.
pub proof fn the_field_obeys_its_polynomial(n: nat)
    ensures
        apow(0) == 1,
        apow(1) == 2,
        apow(n + 8) == apow(n + 7) ^ apow(n + 2) ^ apow(n + 1) ^ apow(n),
{
    let a = apow(n);
    reveal_with_fuel(apow, 9);
    assert(xtime(1) == 2 && xtime(
        xtime(xtime(xtime(xtime(xtime(xtime(xtime(a))))))),
    ) == xtime(xtime(xtime(xtime(xtime(xtime(xtime(a))))))) ^ xtime(xtime(a)) ^ xtime(a) ^ a)
        by (bit_vector);
    assert(apow(n + 1) == xtime(a));
    assert(apow(n + 2) == xtime(apow(n + 1)));
    assert(apow(n + 3) == xtime(apow(n + 2)));
    assert(apow(n + 4) == xtime(apow(n + 3)));
    assert(apow(n + 5) == xtime(apow(n + 4)));
    assert(apow(n + 6) == xtime(apow(n + 5)));
    assert(apow(n + 7) == xtime(apow(n + 6)));
    assert(apow(n + 8) == xtime(apow(n + 7)));
}

/// The code has 32 roots: the eleventh power of the element, raised to 112 and on.
pub proof fn the_code_has_its_roots(cw: Seq<u8>, j: int)
    requires
        112 <= j <= 143,
    ensures
        code_root(j - 112) == apow((11 * j) as nat),
        is_codeword(cw) ==> cw.len() == 160 && syndrome(padded(cw), j - 112) == 0,
        cw.len() == 160 ==> padded(cw).skip(95) == cw,
        forall|k: int| 0 <= k < 95 ==> #[trigger] padded(cw)[k] == 0,
{
    if cw.len() == 160 {
        assert(padded(cw).skip(95) =~= cw);
    }
}

} // verus!
