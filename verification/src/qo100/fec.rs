//! AO-40's *coded* telemetry frame.
//!
//! 5200 channel symbols, 13.0 s at 400 baud, carrying 256 payload bytes:
//!
//! ```text
//!   256 payload bytes
//!     -> two shortened RS(160,128) codewords, alternate bytes to each
//!     -> scrambler (all 320 data+parity bytes)
//!     -> r=1/2 k=7 convolutional encoder, second output inverted, 6 tail bits
//!     -> 80 x 65 block interleaver, written along rows, read down columns
//!     -> 65 sync bits, one at the head of each column
//!   = 5200 symbols
//! ```
//!
//! Soft symbols are integers: positive for a received one, the magnitude
//! standing for confidence, in any fixed scale.
use crate::qo100::code::{
    a_codeword_decodes_to_itself, corrects_sixteen_errors, decoding, differences, is_codeword,
};
use crate::qo100::rs::Rs;
use crate::qo100::viterbi::{
    agree, end_state, is_chosen, is_flushed, is_message, lemma_state_range, odd_ones,
    one_message_is_chosen, output_a, output_b, parity, register, score, viterbi_soft, ConvCode,
};
use crate::text::{from_utf8_lossy, lossy_text};
use vstd::prelude::*;

verus! {

/// Channel symbols in one coded frame.
pub const FRAME_SYMBOLS: usize = 5200;

/// Payload bytes a coded frame carries.
pub const PAYLOAD_BYTES: usize = 256;

/// Payload plus the two codewords' parity: what the convolutional encoder saw.
pub const CODED_BYTES: usize = 320;

/// Zero bits flushing the convolutional encoder back to state 0.
pub const TAIL_BITS: usize = 6;

/// Symbols the convolutional encoder produced, before sync was mixed in.
pub const CONV_SYMBOLS: usize = 5132;

/// Rows of the block interleaver; the first one is sync.
pub const ROWS: usize = 80;

/// Columns of the block interleaver, and so the number of sync bits.
pub const COLUMNS: usize = 65;

/// Sync-vector LFSR: `s(x) = x^7 + x^3 + 1`, started at all ones. 65 bits.
pub const SYNC_POLY: u8 = 0x48;

/// Scrambler LFSR: `h(x) = x^8 + x^7 + x^5 + x^3 + 1`, started at all ones.
pub const SCRAMBLER_POLY: u8 = 0x95;

/// How much of the sync vector has to agree before a frame alignment is
/// believed, as a fraction of the summed symbol confidence: 0.35.
pub const SYNC_THRESHOLD_NUM: i64 = 7;

pub const SYNC_THRESHOLD_DEN: i64 = 20;

/// The convolutional code: CCSDS `0o171`/`0o133` with the newest bit lowest,
/// and the second output inverted as AO-40 sends it.
pub open spec fn ao40_code() -> ConvCode {
    ConvCode { poly_a: 0x4f, poly_b: 0x6d, invert_b: true }
}

/// One step of a linear-feedback shift register.
pub open spec fn lfsr_step(sr: u8, poly: u8) -> u8 {
    (sr << 1) | (if odd_ones(sr & poly) {
        1u8
    } else {
        0u8
    })
}

/// The sync register before bit `i`.
pub open spec fn sync_register(i: nat) -> u8
    decreases i,
{
    if i == 0 {
        0x7f
    } else {
        lfsr_step(sync_register((i - 1) as nat), SYNC_POLY)
    }
}

/// Bit `i` of the sync vector.
pub open spec fn sync_bit(i: int) -> bool {
    sync_register(i as nat) & 0x40 != 0
}

/// The 65-bit sync vector.
pub fn sync_vector() -> (r: [bool; COLUMNS])
    ensures
        forall|i: int| 0 <= i < 65 ==> #[trigger] r@[i] == sync_bit(i),
{
    let mut out: [bool; COLUMNS] = [false;COLUMNS];
    let mut sr: u8 = 0x7f;
    let mut i: usize = 0;
    while i < COLUMNS
        invariant
            i <= 65,
            sr == sync_register(i as nat),
            forall|k: int| 0 <= k < i ==> #[trigger] out@[k] == sync_bit(k),
        decreases 65 - i,
    {
        out[i] = sr & 0x40 != 0;
        sr = (sr << 1) | parity(sr & SYNC_POLY);
        i = i + 1;
    }
    out
}

/// Where the `n`th convolutional symbol sits among the frame's 5200.
pub open spec fn frame_position(n: int) -> int {
    80 * (n % 65) + 1 + n / 65
}

/// Where the `n`th convolutional symbol sits among the frame's 5200.
///
/// The encoder fills the interleaver along its rows, starting at the second
/// (the first is reserved for sync), and the frame is transmitted down the
/// columns. So symbol `n` is at row `1 + n / COLUMNS`, column `n % COLUMNS`,
/// and reading down columns puts that at `ROWS * column + row`.
pub fn interleaved_position(n: usize) -> (r: usize)
    requires
        n < CONV_SYMBOLS,
    ensures
        r == frame_position(n as int),
        r < FRAME_SYMBOLS,
{
    ROWS * (n % COLUMNS) + 1 + n / COLUMNS
}

/// No two convolutional symbols share a place in the frame, and none takes the
/// place of a sync symbol.
pub proof fn interleaver_is_injective(m: int, n: int)
    requires
        0 <= m < 5132,
        0 <= n < 5132,
    ensures
        frame_position(m) == frame_position(n) ==> m == n,
        frame_position(n) % 80 != 0,
        0 <= frame_position(n) < 5200,
{
    let (rm, cm) = (m / 65, m % 65);
    let (rn, cn) = (n / 65, n % 65);
    assert(m == 65 * rm + cm);
    assert(n == 65 * rn + cn);
    assert(0 <= rm < 79 && 0 <= rn < 79);
    assert((80 * cn + (1 + rn)) % 80 == 1 + rn) by {
        vstd::arithmetic::div_mod::lemma_mod_multiples_vanish(cn, 1 + rn, 80);
    }
    assert((80 * cm + (1 + rm)) % 80 == 1 + rm) by {
        vstd::arithmetic::div_mod::lemma_mod_multiples_vanish(cm, 1 + rm, 80);
    }
}

// ---------------------------------------------------------------------------
// Alignment
// ---------------------------------------------------------------------------

pub open spec fn magnitude_of(v: i32) -> int {
    if v >= 0 {
        v as int
    } else {
        -(v as int)
    }
}

/// The correlation of the symbols from `start` with the first `n` sync bits.
pub open spec fn sync_corr(soft: Seq<i32>, start: int, n: nat) -> int
    decreases n,
{
    if n == 0 {
        0
    } else {
        sync_corr(soft, start, (n - 1) as nat) + agree(sync_bit(n - 1), soft[start + 80 * (n - 1)])
    }
}

/// The confidence in those symbols.
pub open spec fn sync_total(soft: Seq<i32>, start: int, n: nat) -> int
    decreases n,
{
    if n == 0 {
        0
    } else {
        sync_total(soft, start, (n - 1) as nat) + magnitude_of(soft[start + 80 * (n - 1)])
    }
}

pub open spec fn abs_corr(soft: Seq<i32>, start: int) -> int {
    let c = sync_corr(soft, start, 65);
    if c >= 0 {
        c
    } else {
        -c
    }
}

/// Whether a frame can be tried at `start`: it fits, and the symbols at the
/// sync places are not silence.
pub open spec fn is_candidate(soft: Seq<i32>, start: int) -> bool {
    0 <= start && start + 5200 <= soft.len() && sync_total(soft, start, 65) > 0
}

/// Whether the sync vector agrees with `a` as least as well as with `b`, in
/// proportion to the confidence.
pub open spec fn no_worse(soft: Seq<i32>, a: int, b: int) -> bool {
    abs_corr(soft, b) * sync_total(soft, a, 65) <= abs_corr(soft, a) * sync_total(soft, b, 65)
}

/// The first of the best candidates.
pub open spec fn is_best_start(soft: Seq<i32>, start: int) -> bool {
    &&& is_candidate(soft, start)
    &&& forall|o: int| #[trigger] is_candidate(soft, o) ==> no_worse(soft, start, o)
    &&& forall|o: int| #[trigger] is_candidate(soft, o) && o < start ==> !no_worse(soft, o, start)
}

/// Where a frame is taken to start: the best place, if it is good enough.
pub open spec fn is_frame_start(soft: Seq<i32>, start: int) -> bool {
    &&& is_best_start(soft, start)
    &&& 20 * abs_corr(soft, start) >= 7 * sync_total(soft, start, 65)
}

/// Where a frame appears to start, and which way round its symbols are.
pub struct Alignment {
    pub start: usize,
    /// The whole stream is inverted. Differential detection fixes absolute
    /// phase but not this: swap I and Q, or receive on the other sideband, and
    /// every bit arrives complemented.
    pub inverted: bool,
    /// How much of the confidence agrees with the sync vector.
    pub corr: i64,
    /// The confidence in the symbols at the sync places.
    pub total: i64,
}

/// The alignment at `start`.
pub open spec fn is_alignment(soft: Seq<i32>, a: Alignment) -> bool {
    &&& a.corr == abs_corr(soft, a.start as int)
    &&& a.total == sync_total(soft, a.start as int, 65)
    &&& a.inverted == (sync_corr(soft, a.start as int, 65) < 0)
}

proof fn lemma_better_chain(cb: int, tb: int, cn: int, tn: int, co: int, to: int)
    requires
        tb > 0,
        tn > 0,
        to > 0,
        co >= 0,
        cb >= 0,
        cn >= 0,
        cn * tb > cb * tn,
        co * tb <= cb * to,
    ensures
        co * tn < cn * to,
{
    // co/to <= cb/tb < cn/tn
    assert(co * tb * tn <= cb * to * tn) by (nonlinear_arith)
        requires
            co * tb <= cb * to,
            tn > 0,
    ;
    assert(cb * tn * to < cn * tb * to) by (nonlinear_arith)
        requires
            cn * tb > cb * tn,
            to > 0,
    ;
    assert(co * tb * tn < cn * tb * to) by (nonlinear_arith)
        requires
            co * tb * tn <= cb * to * tn,
            cb * tn * to < cn * tb * to,
    ;
    assert(co * tn < cn * to) by (nonlinear_arith)
        requires
            co * tb * tn < cn * tb * to,
            tb > 0,
    ;
}

proof fn lemma_sync_bounds(soft: Seq<i32>, start: int, n: nat)
    ensures
        -sync_total(soft, start, n) <= sync_corr(soft, start, n) <= sync_total(soft, start, n),
        0 <= sync_total(soft, start, n) <= 0x8000_0000 * n,
    decreases n,
{
    if n > 0 {
        lemma_sync_bounds(soft, start, (n - 1) as nat);
    }
}

/// Find the best frame alignment in `soft`.
pub fn find_frame(soft: &[i32], sync: &[bool; COLUMNS]) -> (r: Option<Alignment>)
    requires
        forall|i: int| 0 <= i < 65 ==> #[trigger] sync@[i] == sync_bit(i),
    ensures
        r matches Some(a) ==> is_frame_start(soft@, a.start as int) && is_alignment(soft@, a),
        r is None ==> forall|s: int| !#[trigger] is_frame_start(soft@, s),
{
    if soft.len() < FRAME_SYMBOLS {
        return None;
    }
    let mut best: Option<Alignment> = None;
    let last: usize = soft.len() - FRAME_SYMBOLS;
    let mut start: usize = 0;
    while start <= last
        invariant
            last == soft@.len() - 5200,
            last + 5200 <= usize::MAX,
            start <= last + 1,
            forall|i: int| 0 <= i < 65 ==> #[trigger] sync@[i] == sync_bit(i),
            best is None ==> forall|o: int| 0 <= o < start ==> !#[trigger] is_candidate(soft@, o),
            best matches Some(a) ==> {
                &&& a.start < start
                &&& is_candidate(soft@, a.start as int)
                &&& is_alignment(soft@, a)
                &&& forall|o: int| #[trigger]
                    is_candidate(soft@, o) && o < start ==> no_worse(soft@, a.start as int, o)
                &&& forall|o: int| #[trigger]
                    is_candidate(soft@, o) && o < a.start ==> !no_worse(
                        soft@,
                        o,
                        a.start as int,
                    )
            },
        decreases last + 1 - start,
    {
        let mut corr: i64 = 0;
        let mut total: i64 = 0;
        let mut i: usize = 0;
        while i < COLUMNS
            invariant
                i <= 65,
                start <= last,
                last == soft@.len() - 5200,
            last + 5200 <= usize::MAX,
                forall|k: int| 0 <= k < 65 ==> #[trigger] sync@[k] == sync_bit(k),
                corr == sync_corr(soft@, start as int, i as nat),
                total == sync_total(soft@, start as int, i as nat),
            decreases 65 - i,
        {
            proof {
                lemma_sync_bounds(soft@, start as int, i as nat);
            }
            let v: i64 = soft[start + ROWS * i] as i64;
            assert(sync@[i as int] == sync_bit(i as int));
            if sync[i] {
                corr = corr + v;
            } else {
                corr = corr - v;
            }
            if v >= 0 {
                total = total + v;
            } else {
                total = total - v;
            }
            i = i + 1;
        }
        proof {
            lemma_sync_bounds(soft@, start as int, 65);
        }
        if total > 0 {
            let strength: i64 = if corr >= 0 {
                corr
            } else {
                -corr
            };
            let take: bool = match &best {
                None => true,
                Some(b) => {
                    proof {
                        lemma_sync_bounds(soft@, b.start as int, 65);
                        let (c, t) = (strength as int, total as int);
                        let (d, u) = (b.corr as int, b.total as int);
                        assert(0 <= c * u <= 0x8000_0000 * 65 * (0x8000_0000 * 65)) by (nonlinear_arith)
                            requires
                                0 <= c <= 0x8000_0000 * 65,
                                0 <= u <= 0x8000_0000 * 65,
                        ;
                        assert(0 <= d * t <= 0x8000_0000 * 65 * (0x8000_0000 * 65)) by (nonlinear_arith)
                            requires
                                0 <= d <= 0x8000_0000 * 65,
                                0 <= t <= 0x8000_0000 * 65,
                        ;
                    }
                    strength as i128 * b.total as i128 > b.corr as i128 * total as i128
                },
            };
            if take {
                proof {
                    assert forall|o: int| #[trigger]
                        is_candidate(soft@, o) && o < start implies !no_worse(
                        soft@,
                        o,
                        start as int,
                    ) && no_worse(soft@, start as int, o) by {
                        let b = best->0;
                        lemma_sync_bounds(soft@, o, 65);
                        lemma_sync_bounds(soft@, b.start as int, 65);
                        assert(no_worse(soft@, b.start as int, o));
                        lemma_better_chain(
                            b.corr as int,
                            b.total as int,
                            strength as int,
                            total as int,
                            abs_corr(soft@, o),
                            sync_total(soft@, o, 65),
                        );
                    }
                    assert(abs_corr(soft@, start as int) * sync_total(soft@, start as int, 65)
                        <= abs_corr(soft@, start as int) * sync_total(soft@, start as int, 65));
                }
                best = Some(Alignment { start, inverted: corr < 0, corr: strength, total });
            }
        }
        start = start + 1;
    }
    match best {
        None => {
            assert forall|s: int| !#[trigger] is_frame_start(soft@, s) by {
                if is_frame_start(soft@, s) {
                    assert(is_candidate(soft@, s));
                }
            }
            None
        },
        Some(a) => {
            proof {
                lemma_sync_bounds(soft@, a.start as int, 65);
                assert(is_best_start(soft@, a.start as int));
            }
            if SYNC_THRESHOLD_DEN * a.corr >= SYNC_THRESHOLD_NUM * a.total {
                Some(a)
            } else {
                assert forall|s: int| !#[trigger] is_frame_start(soft@, s) by {
                    if is_best_start(soft@, s) {
                        lemma_best_unique(soft@, s, a.start as int);
                    }
                }
                None
            }
        },
    }
}

/// There is at most one best start.
pub proof fn lemma_best_unique(soft: Seq<i32>, a: int, b: int)
    requires
        is_best_start(soft, a),
        is_best_start(soft, b),
    ensures
        a == b,
{
    if a < b {
        assert(!no_worse(soft, a, b));
    }
    if b < a {
        assert(!no_worse(soft, b, a));
    }
}

// ---------------------------------------------------------------------------
// Scrambler
// ---------------------------------------------------------------------------

pub open spec fn lfsr_steps(sr: u8, poly: u8, n: nat) -> u8
    decreases n,
{
    if n == 0 {
        sr
    } else {
        lfsr_step(lfsr_steps(sr, poly, (n - 1) as nat), poly)
    }
}

/// The scrambler's byte `i`.
pub open spec fn scramble_byte(i: nat) -> u8
    decreases i,
{
    if i == 0 {
        0xff
    } else {
        lfsr_steps(scramble_byte((i - 1) as nat), SCRAMBLER_POLY, 8)
    }
}

/// The bytes with the scrambler added, which is also how to take it off.
pub open spec fn scrambled(bytes: Seq<u8>) -> Seq<u8> {
    Seq::new(bytes.len(), |i: int| bytes[i] ^ scramble_byte(i as nat))
}

/// Undo the scrambler over `bytes`, in place.
pub fn descramble(bytes: &mut Vec<u8>)
    ensures
        final(bytes)@ == scrambled(old(bytes)@),
{
    let ghost before = bytes@;
    let mut sr: u8 = 0xff;
    let mut i: usize = 0;
    while i < bytes.len()
        invariant
            i <= bytes.len(),
            bytes.len() == before.len(),
            sr == scramble_byte(i as nat),
            forall|k: int| 0 <= k < i ==> #[trigger] bytes@[k] == scrambled(before)[k],
            forall|k: int| i <= k < before.len() ==> #[trigger] bytes@[k] == before[k],
        decreases bytes.len() - i,
    {
        let b: u8 = bytes[i];
        bytes.set(i, b ^ sr);
        let ghost sr0 = sr;
        let mut k: u8 = 0;
        while k < 8
            invariant
                k <= 8,
                sr == lfsr_steps(sr0, SCRAMBLER_POLY, k as nat),
            decreases 8 - k,
        {
            sr = (sr << 1) | parity(sr & SCRAMBLER_POLY);
            k = k + 1;
        }
        i = i + 1;
    }
    assert(bytes@ =~= scrambled(before));
}

/// Scrambling twice gives the bytes back.
pub proof fn scrambling_is_an_involution(bytes: Seq<u8>)
    ensures
        scrambled(scrambled(bytes)) == bytes,
{
    assert forall|i: int| 0 <= i < bytes.len() implies scrambled(scrambled(bytes))[i] == bytes[i] by {
        let (a, b) = (bytes[i], scramble_byte(i as nat));
        assert((a ^ b) ^ b == a) by (bit_vector);
    }
    assert(scrambled(scrambled(bytes)) =~= bytes);
}

// ---------------------------------------------------------------------------
// From channel symbols to the payload
// ---------------------------------------------------------------------------

/// The convolutional symbols lifted out of the interleaver, with the received
/// polarity undone.
pub open spec fn lifted(soft: Seq<i32>, start: int, inverted: bool) -> Seq<i32> {
    Seq::new(
        5132,
        |n: int|
            (if inverted {
                -soft[start + frame_position(n)]
            } else {
                soft[start + frame_position(n)] as int
            }) as i32,
    )
}

/// Eight bits from `at` on, the first one highest.
pub open spec fn byte_at(bits: Seq<u8>, at: int) -> u8 {
    (bits[at] << 7) | (bits[at + 1] << 6) | (bits[at + 2] << 5) | (bits[at + 3] << 4) | (bits[at
        + 4] << 3) | (bits[at + 5] << 2) | (bits[at + 6] << 1) | bits[at + 7]
}

/// The 320 bytes that the first 2560 bits are.
pub open spec fn packed(bits: Seq<u8>) -> Seq<u8> {
    Seq::new(320, |i: int| byte_at(bits, 8 * i))
}

/// Codeword `j` of the two that share 320 bytes: alternate payload bytes and
/// then alternate parity bytes.
pub open spec fn codeword(bytes: Seq<u8>, j: int) -> Seq<u8> {
    Seq::new(
        160,
        |i: int|
            if i < 128 {
                bytes[2 * i + j]
            } else {
                bytes[256 + 2 * (i - 128) + j]
            },
    )
}

/// The payload that two decoded codewords carry.
pub open spec fn merged(even: Seq<u8>, odd: Seq<u8>) -> Seq<u8> {
    Seq::new(
        256,
        |i: int|
            if i % 2 == 0 {
                even[i / 2]
            } else {
                odd[i / 2]
            },
    )
}

/// What a message decodes to: the payload and the corrections that each
/// codeword took, or nothing when one of them cannot be decoded.
pub open spec fn message_payload(bits: Seq<u8>) -> Option<(Seq<u8>, nat, nat)> {
    let bytes = scrambled(packed(bits));
    match (decoding(codeword(bytes, 0)), decoding(codeword(bytes, 1))) {
        (Some((even, n)), Some((odd, m))) => Some((merged(even, odd), n, m)),
        _ => None,
    }
}

/// A decoded payload, and the symbol errors that each Reed-Solomon codeword
/// had to put right.
pub struct Payload {
    pub bytes: Vec<u8>,
    pub rs_errors: [usize; 2],
}

/// The payload behind the convolutional decoder's bits: packed, descrambled,
/// and corrected by the two Reed-Solomon codewords.
pub fn decode_bits(bits: &[u8]) -> (r: Option<Payload>)
    requires
        bits@.len() >= 2560,
        is_message(bits@),
    ensures
        r is Some <==> message_payload(bits@) is Some,
        r matches Some(p) ==> message_payload(bits@) == Some(
            (p.bytes@, p.rs_errors@[0] as nat, p.rs_errors@[1] as nat),
        ),
{
    // Pack MSB first: the order the encoder fed its bytes in.
    let mut bytes: Vec<u8> = Vec::new();
    let mut i: usize = 0;
    while i < CODED_BYTES
        invariant
            i <= 320,
            bits@.len() >= 2560,
            bytes.len() == i,
            forall|k: int| 0 <= k < i ==> #[trigger] bytes@[k] == byte_at(bits@, 8 * k),
        decreases 320 - i,
    {
        let at: usize = 8 * i;
        bytes.push(
            (bits[at] << 7) | (bits[at + 1] << 6) | (bits[at + 2] << 5) | (bits[at + 3] << 4) | (
            bits[at + 4] << 3) | (bits[at + 5] << 2) | (bits[at + 6] << 1) | bits[at + 7],
        );
        i = i + 1;
    }
    assert(bytes@ =~= packed(bits@));
    descramble(&mut bytes);
    let ghost plain = scrambled(packed(bits@));
    let rs = Rs::new();
    let mut even: [u8; 160] = codeword_of(&bytes, 0);
    let mut odd: [u8; 160] = codeword_of(&bytes, 1);
    let n: usize = match rs.decode(&mut even) {
        None => {
            return None;
        },
        Some(n) => n,
    };
    let m: usize = match rs.decode(&mut odd) {
        None => {
            return None;
        },
        Some(m) => m,
    };
    let mut payload: Vec<u8> = Vec::new();
    let mut i: usize = 0;
    while i < PAYLOAD_BYTES
        invariant
            i <= 256,
            payload.len() == i,
            forall|k: int| 0 <= k < i ==> #[trigger] payload@[k] == merged(even@, odd@)[k],
        decreases 256 - i,
    {
        if i % 2 == 0 {
            payload.push(even[i / 2]);
        } else {
            payload.push(odd[i / 2]);
        }
        i = i + 1;
    }
    assert(payload@ =~= merged(even@, odd@));
    Some(Payload { bytes: payload, rs_errors: [n, m] })
}

fn codeword_of(bytes: &Vec<u8>, j: usize) -> (r: [u8; 160])
    requires
        bytes@.len() == 320,
        j < 2,
    ensures
        r@ == codeword(bytes@, j as int),
{
    let mut cw: [u8; 160] = [0;160];
    let mut i: usize = 0;
    while i < 160
        invariant
            i <= 160,
            j < 2,
            bytes@.len() == 320,
            forall|k: int| 0 <= k < i ==> #[trigger] cw@[k] == codeword(bytes@, j as int)[k],
        decreases 160 - i,
    {
        if i < 128 {
            cw[i] = bytes[2 * i + j];
        } else {
            cw[i] = bytes[256 + 2 * (i - 128) + j];
        }
        i = i + 1;
    }
    assert(cw@ =~= codeword(bytes@, j as int));
    cw
}

/// One decoded coded frame, and how hard it was.
#[derive(Clone, Debug)]
pub struct FecFrame {
    /// The 256 payload bytes.
    pub payload: Vec<u8>,
    /// Where in the symbol stream the frame started.
    pub start: usize,
    /// How well the sync vector matched: `sync_corr / sync_total`, 0..1.
    pub sync_corr: i64,
    pub sync_total: i64,
    /// Symbol errors each Reed-Solomon codeword had to put right. Near zero is
    /// a comfortable link; near 16 is one frame away from failing.
    pub rs_errors: [usize; 2],
}

/// What the frame at `start` decodes to when the convolutional decoder settles
/// on `bits`.
pub open spec fn is_outcome(soft: Seq<i32>, start: int, bits: Seq<u8>, r: Option<FecFrame>) -> bool {
    match (message_payload(bits), r) {
        (Some((payload, n, m)), Some(f)) => {
            &&& f.payload@ == payload
            &&& f.start == start
            &&& f.sync_corr == abs_corr(soft, start)
            &&& f.sync_total == sync_total(soft, start, 65)
            &&& f.rs_errors@[0] == n
            &&& f.rs_errors@[1] == m
        },
        (None, None) => true,
        _ => false,
    }
}

/// The symbols that the convolutional decoder gets from a frame at `start`.
pub open spec fn conv_symbols(soft: Seq<i32>, start: int) -> Seq<i32> {
    lifted(soft, start, sync_corr(soft, start, 65) < 0)
}

/// Whether `bits` is the message that the symbols of the frame at `start` are
/// taken for, and `r` what becomes of it.
pub open spec fn is_reading(soft: Seq<i32>, start: int, bits: Seq<u8>, r: Option<FecFrame>) -> bool {
    is_chosen(ao40_code(), conv_symbols(soft, start), bits) && is_outcome(soft, start, bits, r)
}

/// Whether `r` is what [`decode_frame`] makes of `soft`.
pub open spec fn is_decoding(soft: Seq<i32>, r: Option<FecFrame>) -> bool {
    &&& (forall|s: int| !#[trigger] is_frame_start(soft, s)) ==> r is None
    &&& forall|s: int| #[trigger]
        is_frame_start(soft, s) ==> exists|bits: Seq<u8>| #[trigger] is_reading(soft, s, bits, r)
}

/// Decode one AO-40 coded frame out of `soft`.
///
/// `soft` is one value per 400-baud channel symbol in transmission order. It
/// must span at least [`FRAME_SYMBOLS`]; anything longer is searched for the
/// best frame alignment inside it.
pub fn decode_frame(soft: &[i32]) -> (r: Option<FecFrame>)
    requires
        forall|i: int| 0 <= i < soft@.len() ==> #[trigger] soft@[i] > i32::MIN,
    ensures
        is_decoding(soft@, r),
{
    let sync = sync_vector();
    let al: Alignment = match find_frame(soft, &sync) {
        None => {
            return None;
        },
        Some(a) => a,
    };
    let ghost start = al.start as int;
    // Lift the convolutional symbols back out of the interleaver, undoing the
    // received polarity as we go.
    let mut conv: Vec<i32> = Vec::new();
    let len: usize = soft.len();
    let mut n: usize = 0;
    while n < CONV_SYMBOLS
        invariant
            n <= 5132,
            al.start + 5200 <= len,
            len == soft@.len(),
            forall|i: int| 0 <= i < soft@.len() ==> #[trigger] soft@[i] > i32::MIN,
            conv.len() == n,
            forall|k: int| 0 <= k < n ==> #[trigger] conv@[k] == lifted(
                soft@,
                al.start as int,
                al.inverted,
            )[k],
        decreases 5132 - n,
    {
        let v: i32 = soft[al.start + interleaved_position(n)];
        conv.push(
            if al.inverted {
                -v
            } else {
                v
            },
        );
        n = n + 1;
    }
    assert(conv@ =~= conv_symbols(soft@, start));
    let code = ConvCode { poly_a: 0x4f, poly_b: 0x6d, invert_b: true };
    let bits: Vec<u8> = viterbi_soft(conv.as_slice(), code);
    let decoded: Option<Payload> = decode_bits(bits.as_slice());
    let out: Option<FecFrame> = match decoded {
        None => None,
        Some(p) => Some(
            FecFrame {
                payload: p.bytes,
                start: al.start,
                sync_corr: al.corr,
                sync_total: al.total,
                rs_errors: p.rs_errors,
            },
        ),
    };
    proof {
        assert(is_reading(soft@, start, bits@, out));
        assert forall|s: int| #[trigger] is_frame_start(soft@, s) implies exists|b: Seq<u8>|
            #[trigger] is_reading(soft@, s, b, out) by {
            lemma_best_unique(soft@, s, start);
        }
    }
    out
}

/// Decode a frame out of either of the two ways to pair chips into symbols: the
/// first that reads wins.
pub fn decode_either(first: &[i32], second: &[i32]) -> (r: Option<FecFrame>)
    requires
        forall|i: int| 0 <= i < first@.len() ==> #[trigger] first@[i] > i32::MIN,
        forall|i: int| 0 <= i < second@.len() ==> #[trigger] second@[i] > i32::MIN,
    ensures
        is_decoding(first@, r) && r is Some || is_decoding(first@, None) && is_decoding(
            second@,
            r,
        ),
{
    match decode_frame(first) {
        Some(f) => Some(f),
        None => decode_frame(second),
    }
}

/// The payload as text, for the operator's readout.
///
/// The coded beacon's payload is status lines meant to be read, so it is
/// rendered lossily rather than being hidden behind a "256 bytes decoded".
pub fn payload_text(payload: &[u8]) -> (r: String)
    ensures
        r@ == lossy_text(payload@),
        vstd::utf8::valid_utf8(payload@) ==> r@ == vstd::utf8::decode_utf8(payload@),
{
    from_utf8_lossy(payload)
}

// ---------------------------------------------------------------------------
// What is sent is what is read
// ---------------------------------------------------------------------------

/// Whether 320 bytes are a payload with the parity of its two codewords.
pub open spec fn is_protected(payload: Seq<u8>, bytes: Seq<u8>) -> bool {
    &&& payload.len() == 256
    &&& bytes.len() == 320
    &&& forall|i: int| 0 <= i < 256 ==> #[trigger] bytes[i] == payload[i]
    &&& is_codeword(codeword(bytes, 0))
    &&& is_codeword(codeword(bytes, 1))
}

/// The bits fed to the convolutional encoder: the scrambled bytes, each from
/// its highest bit, and six zeros.
pub open spec fn message_of(bytes: Seq<u8>) -> Seq<u8> {
    Seq::new(
        2566,
        |i: int|
            if i < 2560 {
                (scrambled(bytes)[i / 8] >> ((7 - i % 8) as u8)) & 1
            } else {
                0u8
            },
    )
}

/// Convolutional symbol `n` of a message.
pub open spec fn sent_symbol(m: Seq<u8>, n: int) -> bool {
    let reg = register(end_state(m.take(n / 2)), m[n / 2]);
    if n % 2 == 0 {
        output_a(ao40_code(), reg)
    } else {
        output_b(ao40_code(), reg)
    }
}

/// Whether 5200 symbols are the frame of 320 protected bytes. Three cells of
/// the interleaver are never written.
pub open spec fn is_frame_of(frame: Seq<bool>, bytes: Seq<u8>) -> bool {
    &&& frame.len() == 5200
    &&& forall|i: int| 0 <= i < 65 ==> #[trigger] frame[80 * i] == sync_bit(i)
    &&& forall|n: int|
        0 <= n < 5132 ==> frame[#[trigger] frame_position(n)] == sent_symbol(message_of(bytes), n)
}

/// Whether the soft symbols from `at` on are the frame, each with some confidence,
/// all the same way round.
pub open spec fn carries(soft: Seq<i32>, at: int, frame: Seq<bool>, inverted: bool) -> bool {
    &&& 0 <= at
    &&& at + frame.len() <= soft.len()
    &&& forall|i: int|
        0 <= i < frame.len() ==> soft[at + i] != 0 && soft[at + i] > i32::MIN && (soft[at + i] > 0)
            == (#[trigger] frame[i] != inverted)
}

/// The confidence in the first `n` pairs of symbols.
pub open spec fn confidence(soft: Seq<i32>, n: nat) -> int
    decreases n,
{
    if n == 0 {
        0
    } else {
        confidence(soft, (n - 1) as nat) + magnitude_of(soft[2 * (n - 1)]) + magnitude_of(
            soft[2 * (n - 1) + 1],
        )
    }
}

/// A message agrees fully with symbols that are its own, and any other one
/// does not.
proof fn lemma_own_symbols(soft: Seq<i32>, m: Seq<u8>, o: Seq<u8>, n: nat)
    requires
        is_message(m),
        is_message(o),
        n <= m.len(),
        m.len() == o.len(),
        soft.len() == 2 * m.len(),
        forall|k: int|
            0 <= k < soft.len() ==> #[trigger] soft[k] != 0 && (soft[k] > 0) == sent_symbol(m, k),
    ensures
        score(ao40_code(), soft, m.take(n as int)) == confidence(soft, n),
        o.take(n as int) == m.take(n as int) || score(ao40_code(), soft, o.take(n as int))
            < confidence(soft, n),
    decreases n,
{
    if n == 0 {
        assert(m.take(0) =~= o.take(0));
    } else {
        let k = (n - 1) as nat;
        lemma_own_symbols(soft, m, o, k);
        let mn = m.take(n as int);
        let on = o.take(n as int);
        let mk = m.take(k as int);
        let ok = o.take(k as int);
        assert(mn.drop_last() =~= mk);
        assert(on.drop_last() =~= ok);
        let va = soft[2 * k as int];
        let vb = soft[2 * k as int + 1];
        assert((va > 0) == sent_symbol(m, 2 * k as int));
        assert((vb > 0) == sent_symbol(m, 2 * k as int + 1));
        assert((2 * k as int) / 2 == k && (2 * k as int + 1) / 2 == k);
        assert((2 * k as int) % 2 == 0 && (2 * k as int + 1) % 2 == 1);
        if ok == mk {
            if on.last() != mn.last() {
                let s = end_state(mk);
                assert(is_message(mk)) by {
                    assert forall|i: int| 0 <= i < mk.len() implies #[trigger] mk[i] <= 1 by {
                        assert(mk[i] == m[i]);
                    }
                }
                lemma_state_range(mk);
                assert(m[k as int] <= 1 && o[k as int] <= 1);
                lemma_first_output_tells(s);
                assert(output_a(ao40_code(), register(s, on.last())) != output_a(
                    ao40_code(),
                    register(s, mn.last()),
                ));
            } else {
                assert(on =~= mn) by {
                    assert forall|i: int| 0 <= i < n implies on[i] == mn[i] by {
                        if i < k {
                            assert(on[i] == ok[i]);
                            assert(mn[i] == mk[i]);
                        } else {
                            assert(on.last() == on[i]);
                        }
                    }
                }
            }
        }
    }
}

/// The first output tells a zero from a one in every state.
proof fn lemma_first_output_tells(s: int)
    requires
        0 <= s < 64,
    ensures
        output_a(ao40_code(), register(s, 0)) != output_a(ao40_code(), register(s, 1)),
{
    let x = (2 * s) as u8;
    let y = (2 * s + 1) as u8;
    assert(x % 2u8 == 0u8);
    assert(y == x + 1);
    assert(y == (x | 1u8)) by (bit_vector)
        requires
            x % 2u8 == 0u8,
            y == x + 1,
    ;
    let p = x & 0x4f;
    let q = y & 0x4f;
    assert(p & 1 == 0 && q & 1 == 1 && (p >> 1) & 1 == (q >> 1) & 1 && (p >> 2) & 1 == (q >> 2) & 1
        && (p >> 3) & 1 == (q >> 3) & 1 && (p >> 4) & 1 == (q >> 4) & 1 && (p >> 5) & 1 == (q >> 5)
        & 1 && (p >> 6) & 1 == (q >> 6) & 1 && (p >> 7) & 1 == (q >> 7) & 1) by (bit_vector)
        requires
            x % 2u8 == 0u8,
            y == (x | 1u8),
            p == x & 0x4fu8,
            q == y & 0x4fu8,
    ;
}

/// Six zeros flush the encoder.
proof fn lemma_flushed(m: Seq<u8>)
    requires
        is_message(m),
        m.len() >= 6,
        forall|i: int| m.len() - 6 <= i < m.len() ==> m[i] == 0,
    ensures
        end_state(m) == 0,
{
    let n = m.len();
    let m1 = m.drop_last();
    let m2 = m1.drop_last();
    let m3 = m2.drop_last();
    let m4 = m3.drop_last();
    let m5 = m4.drop_last();
    let m6 = m5.drop_last();
    assert forall|i: int| 0 <= i < m6.len() implies #[trigger] m6[i] <= 1 by {
        assert(m6[i] == m[i]);
    }
    lemma_state_range(m6);
    lemma_six_doublings(end_state(m6));
    assert(end_state(m5) == (2 * end_state(m6)) % 64);
    assert(end_state(m4) == (2 * end_state(m5)) % 64);
    assert(end_state(m3) == (2 * end_state(m4)) % 64);
    assert(end_state(m2) == (2 * end_state(m3)) % 64);
    assert(end_state(m1) == (2 * end_state(m2)) % 64);
    assert(end_state(m) == (2 * end_state(m1)) % 64);
}

pub open spec fn doubled(s: int) -> int {
    (2 * s) % 64
}

proof fn lemma_six_doublings(s: int)
    ensures
        doubled(doubled(doubled(doubled(doubled(doubled(s)))))) == 0,
{
    let s1 = doubled(s);
    let s2 = doubled(s1);
    let s3 = doubled(s2);
    let s4 = doubled(s3);
    let s5 = doubled(s4);
    let s6 = doubled(s5);
    let q0 = (2 * s) / 64;
    let q1 = (2 * s1) / 64;
    let q2 = (2 * s2) / 64;
    let q3 = (2 * s3) / 64;
    let q4 = (2 * s4) / 64;
    let q5 = (2 * s5) / 64;
    assert(s1 == 2 * s - 64 * q0);
    assert(s2 == 2 * s1 - 64 * q1);
    assert(s3 == 2 * s2 - 64 * q2);
    assert(s4 == 2 * s3 - 64 * q3);
    assert(s5 == 2 * s4 - 64 * q4);
    assert(s6 == 2 * s5 - 64 * q5);
    let t = s - 32 * q0 - 16 * q1 - 8 * q2 - 4 * q3 - 2 * q4 - q5;
    assert(s6 == 64 * t);
}

/// Packing the message gives the scrambled bytes back.
proof fn lemma_packed_message(bytes: Seq<u8>)
    requires
        bytes.len() == 320,
    ensures
        packed(message_of(bytes)) == scrambled(bytes),
        is_message(message_of(bytes)),
{
    let m = message_of(bytes);
    let c = scrambled(bytes);
    assert forall|i: int| 0 <= i < m.len() implies #[trigger] m[i] <= 1 by {
        if i < 2560 {
            let b = c[i / 8];
            let k = (7 - i % 8) as u8;
            assert((b >> k) & 1 <= 1) by (bit_vector);
        }
    }
    assert forall|i: int| 0 <= i < 320 implies packed(m)[i] == c[i] by {
        let b = c[i];
        let at = 8 * i;
        assert(at / 8 == i && (at + 1) / 8 == i && (at + 2) / 8 == i && (at + 3) / 8 == i && (at + 4)
            / 8 == i && (at + 5) / 8 == i && (at + 6) / 8 == i && (at + 7) / 8 == i);
        assert(m[at] == (b >> 7) & 1);
        assert(m[at + 1] == (b >> 6) & 1);
        assert(m[at + 2] == (b >> 5) & 1);
        assert(m[at + 3] == (b >> 4) & 1);
        assert(m[at + 4] == (b >> 3) & 1);
        assert(m[at + 5] == (b >> 2) & 1);
        assert(m[at + 6] == (b >> 1) & 1);
        assert(m[at + 7] == (b >> 0) & 1);
        assert((b >> 0) & 1 == b & 1) by (bit_vector);
        assert(b == (((b >> 7) & 1) << 7) | (((b >> 6) & 1) << 6) | (((b >> 5) & 1) << 5) | (((b
            >> 4) & 1) << 4) | (((b >> 3) & 1) << 3) | (((b >> 2) & 1) << 2) | (((b >> 1) & 1)
            << 1) | (b & 1)) by (bit_vector);
    }
    assert(packed(m) =~= c);
}

proof fn lemma_sync_of_frame(soft: Seq<i32>, at: int, frame: Seq<bool>, inverted: bool, n: nat)
    requires
        n <= 65,
        frame.len() == 5200,
        carries(soft, at, frame, inverted),
        forall|i: int| 0 <= i < 65 ==> #[trigger] frame[80 * i] == sync_bit(i),
    ensures
        sync_corr(soft, at, n) == (if inverted {
            -sync_total(soft, at, n)
        } else {
            sync_total(soft, at, n)
        }),
        n > 0 ==> sync_total(soft, at, n) > 0,
        sync_total(soft, at, n) >= 0,
    decreases n,
{
    if n > 0 {
        lemma_sync_of_frame(soft, at, frame, inverted, (n - 1) as nat);
        let i = n - 1;
        assert(frame[80 * i] == sync_bit(i));
        assert(soft[at + 80 * i] != 0);
    }
}

/// Nothing matches the sync vector better than perfectly.
proof fn lemma_perfect_is_best(soft: Seq<i32>, at: int, o: int)
    requires
        abs_corr(soft, at) == sync_total(soft, at, 65),
        sync_total(soft, at, 65) > 0,
        sync_total(soft, o, 65) > 0,
    ensures
        no_worse(soft, at, o),
        abs_corr(soft, o) < sync_total(soft, o, 65) ==> !no_worse(soft, o, at),
{
    lemma_sync_bounds(soft, o, 65);
    let (c, t, q) = (abs_corr(soft, o), sync_total(soft, o, 65), sync_total(soft, at, 65));
    assert(c * q <= t * q) by (nonlinear_arith)
        requires
            c <= t,
            q > 0,
    ;
    assert(q * t == t * q) by (nonlinear_arith);
    if c < t {
        assert(c * q < t * q) by (nonlinear_arith)
            requires
                c < t,
                q > 0,
        ;
    }
}

/// A frame received with every symbol right, however confidently and whichever
/// way round, is found wherever it sits in a stream and reads as the payload that
/// was sent, with nothing to correct. The one proviso is that nothing before it
/// passes for a perfect sync vector.
pub proof fn a_clean_frame_reads_as_sent(
    payload: Seq<u8>,
    bytes: Seq<u8>,
    frame: Seq<bool>,
    soft: Seq<i32>,
    at: int,
    inverted: bool,
)
    requires
        is_protected(payload, bytes),
        is_frame_of(frame, bytes),
        carries(soft, at, frame, inverted),
        forall|o: int|
            0 <= o < at && #[trigger] is_candidate(soft, o) ==> abs_corr(soft, o) < sync_total(
                soft,
                o,
                65,
            ),
    ensures
        is_frame_start(soft, at),
        forall|bits: Seq<u8>, r: Option<FecFrame>| #[trigger]
            is_reading(soft, at, bits, r) ==> {
                &&& r is Some
                &&& r->0.payload@ == payload
                &&& r->0.start == at
                &&& r->0.sync_corr == r->0.sync_total
                &&& r->0.rs_errors@[0] == 0
                &&& r->0.rs_errors@[1] == 0
            },
{
    lemma_sync_of_frame(soft, at, frame, inverted, 65);
    assert(is_candidate(soft, at));
    assert forall|o: int| #[trigger] is_candidate(soft, o) implies no_worse(soft, at, o) && (o < at
        ==> !no_worse(soft, o, at)) by {
        lemma_perfect_is_best(soft, at, o);
    }
    let m = message_of(bytes);
    lemma_packed_message(bytes);
    lemma_flushed(m);
    let conv = conv_symbols(soft, at);
    lemma_clean_symbols(bytes, frame, soft, at, inverted);
    assert forall|bits: Seq<u8>, r: Option<FecFrame>| #[trigger]
        is_reading(soft, at, bits, r) implies {
        &&& r is Some
        &&& r->0.payload@ == payload
        &&& r->0.start == at
        &&& r->0.sync_corr == r->0.sync_total
        &&& r->0.rs_errors@[0] == 0
        &&& r->0.rs_errors@[1] == 0
    } by {
        lemma_own_symbols(conv, m, bits, 2566);
        assert(m.take(2566) =~= m);
        assert(bits.take(2566) =~= bits);
        assert(is_flushed(conv, m));
        assert(bits == m);
        lemma_clean_payload(payload, bytes);
    }
}

proof fn lemma_clean_symbols(
    bytes: Seq<u8>,
    frame: Seq<bool>,
    soft: Seq<i32>,
    at: int,
    inverted: bool,
)
    requires
        is_frame_of(frame, bytes),
        carries(soft, at, frame, inverted),
    ensures
        ({
            let conv = conv_symbols(soft, at);
            forall|k: int|
                0 <= k < conv.len() ==> #[trigger] conv[k] != 0 && (conv[k] > 0) == sent_symbol(
                    message_of(bytes),
                    k,
                )
        }),
{
    lemma_sync_of_frame(soft, at, frame, inverted, 65);
    let m = message_of(bytes);
    let conv = conv_symbols(soft, at);
    assert forall|k: int| 0 <= k < conv.len() implies #[trigger] conv[k] != 0 && (conv[k] > 0)
        == sent_symbol(m, k) by {
        interleaver_is_injective(k, k);
        assert(frame[frame_position(k)] == sent_symbol(m, k));
        assert(soft[at + frame_position(k)] != 0);
    }
}

/// Whatever the convolutional decoder settles on, the payload comes out as sent
/// where no more than sixteen bytes of either codeword are wrong, and the wrong
/// ones are counted.
pub proof fn a_frame_survives_sixteen_wrong_bytes_in_each_codeword(
    payload: Seq<u8>,
    bytes: Seq<u8>,
    bits: Seq<u8>,
)
    requires
        is_protected(payload, bytes),
        differences(codeword(bytes, 0), codeword(scrambled(packed(bits)), 0)).len() <= 16,
        differences(codeword(bytes, 1), codeword(scrambled(packed(bits)), 1)).len() <= 16,
    ensures
        message_payload(bits) == Some(
            (
                payload,
                differences(codeword(bytes, 0), codeword(scrambled(packed(bits)), 0)).len(),
                differences(codeword(bytes, 1), codeword(scrambled(packed(bits)), 1)).len(),
            ),
        ),
{
    let got = scrambled(packed(bits));
    corrects_sixteen_errors(codeword(bytes, 0), codeword(got, 0));
    corrects_sixteen_errors(codeword(bytes, 1), codeword(got, 1));
    lemma_merged(payload, bytes);
}

/// The two codewords of a payload carry it between them.
proof fn lemma_merged(payload: Seq<u8>, bytes: Seq<u8>)
    requires
        is_protected(payload, bytes),
    ensures
        merged(codeword(bytes, 0), codeword(bytes, 1)) == payload,
{
    let even = codeword(bytes, 0);
    let odd = codeword(bytes, 1);
    let whole = merged(even, odd);
    assert forall|i: int| 0 <= i < 256 implies whole[i] == payload[i] by {
        let h = i / 2;
        assert(0 <= h < 128);
        assert(bytes[i] == payload[i]);
        if i % 2 == 0 {
            assert(2 * h + 0 == i);
            assert(whole[i] == even[h]);
        } else {
            assert(2 * h + 1 == i);
            assert(whole[i] == odd[h]);
        }
    }
    assert(whole =~= payload);
}

proof fn lemma_clean_payload(payload: Seq<u8>, bytes: Seq<u8>)
    requires
        is_protected(payload, bytes),
    ensures
        message_payload(message_of(bytes)) == Some((payload, 0nat, 0nat)),
{
    lemma_packed_message(bytes);
    scrambling_is_an_involution(bytes);
    a_codeword_decodes_to_itself(codeword(bytes, 0));
    a_codeword_decodes_to_itself(codeword(bytes, 1));
    lemma_merged(payload, bytes);
}

// ---------------------------------------------------------------------------
// One outcome, either way round
// ---------------------------------------------------------------------------

/// Whether two outcomes are the same: payload, place, quality and corrections.
pub open spec fn same_outcome(a: Option<FecFrame>, b: Option<FecFrame>) -> bool {
    match (a, b) {
        (Some(f), Some(g)) => {
            &&& f.payload@ == g.payload@
            &&& f.start == g.start
            &&& f.sync_corr == g.sync_corr
            &&& f.sync_total == g.sync_total
            &&& f.rs_errors@[0] == g.rs_errors@[0]
            &&& f.rs_errors@[1] == g.rs_errors@[1]
        },
        (None, None) => true,
        _ => false,
    }
}

/// Whether every symbol of one stream is the other's, upside down.
pub open spec fn is_inverse(soft: Seq<i32>, neg: Seq<i32>) -> bool {
    &&& soft.len() == neg.len()
    &&& forall|i: int| 0 <= i < soft.len() ==> #[trigger] neg[i] == -soft[i]
}

proof fn lemma_inverse_sync(soft: Seq<i32>, neg: Seq<i32>, start: int, n: nat)
    requires
        is_inverse(soft, neg),
        0 <= start,
        start + 5200 <= soft.len(),
        n <= 65,
    ensures
        sync_corr(neg, start, n) == -sync_corr(soft, start, n),
        sync_total(neg, start, n) == sync_total(soft, start, n),
    decreases n,
{
    if n > 0 {
        lemma_inverse_sync(soft, neg, start, (n - 1) as nat);
        assert(neg[start + 80 * (n - 1)] == -soft[start + 80 * (n - 1)]);
    }
}

proof fn lemma_inverse_start(soft: Seq<i32>, neg: Seq<i32>, start: int)
    requires
        is_inverse(soft, neg),
    ensures
        is_frame_start(soft, start) ==> is_frame_start(neg, start) && conv_symbols(soft, start)
            == conv_symbols(neg, start) && abs_corr(neg, start) == abs_corr(soft, start)
            && sync_total(neg, start, 65) == sync_total(soft, start, 65),
{
    if is_frame_start(soft, start) {
        lemma_inverse_sync(soft, neg, start, 65);
        assert forall|o: int| #[trigger] is_candidate(neg, o) implies is_candidate(soft, o)
            && no_worse(neg, start, o) && (o < start ==> !no_worse(neg, o, start)) by {
            lemma_inverse_sync(soft, neg, o, 65);
            assert(is_candidate(soft, o));
            assert(no_worse(soft, start, o));
            if o < start {
                assert(!no_worse(soft, o, start));
            }
        }
        let (a, b) = (conv_symbols(soft, start), conv_symbols(neg, start));
        assert forall|k: int| 0 <= k < 5132 implies a[k] == b[k] by {
            interleaver_is_injective(k, k);
            let at = start + frame_position(k);
            assert(neg[at] == -soft[at]);
        }
        assert(a =~= b);
    }
}

/// An inverted stream decodes just as well: turning every symbol round changes
/// neither what is read nor where, how well or with how much to correct. With
/// nothing turned round it says that a stream decodes one way only.
pub proof fn an_inverted_stream_decodes_just_as_well(
    soft: Seq<i32>,
    other: Seq<i32>,
    a: Option<FecFrame>,
    b: Option<FecFrame>,
)
    requires
        is_inverse(soft, other) || soft == other,
        is_decoding(soft, a),
        is_decoding(other, b),
    ensures
        same_outcome(a, b),
{
    if exists|s: int| #[trigger] is_frame_start(soft, s) {
        let s = choose|s: int| #[trigger] is_frame_start(soft, s);
        if soft != other {
            lemma_inverse_start(soft, other, s);
        }
        assert(is_frame_start(other, s));
        let m = choose|m: Seq<u8>| #[trigger] is_reading(soft, s, m, a);
        let n = choose|n: Seq<u8>| #[trigger] is_reading(other, s, n, b);
        one_message_is_chosen(ao40_code(), conv_symbols(soft, s), m, n);
    } else {
        assert forall|s: int| !#[trigger] is_frame_start(other, s) by {
            if is_frame_start(other, s) && soft != other {
                assert(is_inverse(other, soft)) by {
                    assert forall|i: int| 0 <= i < other.len() implies #[trigger] soft[i]
                        == -other[i] by {
                        assert(other[i] == -soft[i]);
                    }
                }
                lemma_inverse_start(other, soft, s);
            }
        }
    }
}

} // verus!
