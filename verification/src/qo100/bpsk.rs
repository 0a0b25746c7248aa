//! BPSK-400 data bits and AO-40 "uncoded" frames of the QO-100 narrowband
//! beacon.
//!
//! - 400 baud, differentially encoded first (`1` = a phase change, `0` =
//!   none), then Manchester encoded.
//! - Sync word `00111001000101011110110100110000` ([`SYNC_WORD`], MSB first),
//!   matched within 3 bit errors ([`SYNC_MAX_ERRORS`]).
//! - Frame length `512 + 2` bytes ([`PAYLOAD_BYTES`], [`CRC_BYTES`]),
//!   CRC-16/CCITT-FALSE over the payload.
//! - The payload is plain text, no binary header.
//!
//! The differential and Manchester codes are undone in one pass, without ever
//! resolving absolute carrier phase: comparing each chip against the one
//! immediately before it gives a flip/no-flip bit. Manchester always flips at
//! a bit's own midpoint, and the *inter-bit* transition flips exactly when the
//! source bit is `0`, so keeping only the inter-bit comparisons recovers the
//! data directly.
use crate::text::{from_utf8_lossy, lossy_text};
use vstd::prelude::*;
use vstd::utf8::{decode_utf8, valid_utf8};

verus! {

/// The AO-40 uncoded beacon's sync pattern, MSB first.
pub const SYNC_WORD: u32 = 0x3915_ED30;

pub const SYNC_LEN: usize = 32;

/// Bit errors tolerated in the sync match.
pub const SYNC_MAX_ERRORS: u32 = 3;

pub const PAYLOAD_BYTES: usize = 512;

pub const FRAME_BITS: usize = 4112;

/// Chip-timing phases tried per frequency candidate.
pub const TIMING_PHASES: usize = 8;

// ---------------------------------------------------------------------------
// Checksum
// ---------------------------------------------------------------------------

/// One bit of the checksum's shift register.
pub open spec fn crc_bit(crc: u16) -> u16 {
    if crc & 0x8000 != 0 {
        (crc << 1) ^ 0x1021
    } else {
        crc << 1
    }
}

pub open spec fn crc_bits(crc: u16, n: nat) -> u16
    decreases n,
{
    if n == 0 {
        crc
    } else {
        crc_bit(crc_bits(crc, (n - 1) as nat))
    }
}

/// The checksum of the first `n` bytes: poly 0x1021, init 0xFFFF, not
/// reflected, no final xor.
pub open spec fn crc_upto(data: Seq<u8>, n: nat) -> u16
    decreases n,
{
    if n == 0 {
        0xFFFF
    } else {
        crc_bits(crc_upto(data, (n - 1) as nat) ^ ((data[n - 1] as u16) << 8), 8)
    }
}

pub open spec fn crc_of(data: Seq<u8>) -> u16 {
    crc_upto(data, data.len())
}

/// CRC-16/CCITT-FALSE: poly 0x1021, init 0xFFFF, not reflected, no xorout. The
/// well-known check value for `"123456789"` is `0x29B1`.
pub fn crc16_ccitt_false(data: &[u8]) -> (r: u16)
    ensures
        r == crc_of(data@),
{
    let mut crc: u16 = 0xFFFF;
    let mut i: usize = 0;
    while i < data.len()
        invariant
            i <= data@.len(),
            crc == crc_upto(data@, i as nat),
        decreases data@.len() - i,
    {
        crc = crc ^ ((data[i] as u16) << 8);
        let ghost fed = crc;
        let mut k: u8 = 0;
        while k < 8
            invariant
                k <= 8,
                crc == crc_bits(fed, k as nat),
            decreases 8 - k,
        {
            crc = if crc & 0x8000 != 0 {
                (crc << 1) ^ 0x1021
            } else {
                crc << 1
            };
            k = k + 1;
        }
        i = i + 1;
    }
    crc
}

proof fn lemma_crc_bits_injective(a: u16, b: u16, n: nat)
    requires
        a != b,
    ensures
        crc_bits(a, n) != crc_bits(b, n),
    decreases n,
{
    if n > 0 {
        let m = (n - 1) as nat;
        lemma_crc_bits_injective(a, b, m);
        let x = crc_bits(a, m);
        let y = crc_bits(b, m);
        assert(x != y ==> crc_bit(x) != crc_bit(y)) by (bit_vector);
    }
}

/// Two payloads of one length that differ in exactly one byte have different
/// checksums.
pub proof fn crc_tells_one_wrong_byte(a: Seq<u8>, b: Seq<u8>, k: int)
    requires
        a.len() == b.len(),
        0 <= k < a.len(),
        a[k] != b[k],
        forall|i: int| 0 <= i < a.len() && i != k ==> a[i] == b[i],
    ensures
        crc_of(a) != crc_of(b),
{
    lemma_crc_one_byte(a, b, k, a.len());
}

proof fn lemma_crc_one_byte(a: Seq<u8>, b: Seq<u8>, k: int, n: nat)
    requires
        n <= a.len(),
        a.len() == b.len(),
        0 <= k < a.len(),
        a[k] != b[k],
        forall|i: int| 0 <= i < a.len() && i != k ==> a[i] == b[i],
    ensures
        n <= k ==> crc_upto(a, n) == crc_upto(b, n),
        n > k ==> crc_upto(a, n) != crc_upto(b, n),
    decreases n,
{
    if n > 0 {
        let m = (n - 1) as nat;
        lemma_crc_one_byte(a, b, k, m);
        let (p, q) = (crc_upto(a, m), crc_upto(b, m));
        let (x, y) = (a[n - 1], b[n - 1]);
        assert((p != q && x == y) || (p == q && x != y) ==> p ^ ((x as u16) << 8) != q ^ ((
        y as u16) << 8)) by (bit_vector);
        if n > k {
            lemma_crc_bits_injective(p ^ ((x as u16) << 8), q ^ ((y as u16) << 8), 8);
        }
    }
}

// ---------------------------------------------------------------------------
// Line code
// ---------------------------------------------------------------------------

/// The phase after bit `i`.
pub open spec fn phase_after(bits: Seq<bool>, i: int) -> bool
    decreases i + 1,
{
    if i < 0 {
        false
    } else {
        phase_after(bits, i - 1) != bits[i]
    }
}

pub open spec fn differential(bits: Seq<bool>) -> Seq<bool> {
    Seq::new(bits.len(), |i: int| phase_after(bits, i))
}

/// Differential-encode `bits` (`1` = phase change, `0` = none).
pub fn differential_encode(bits: &[bool]) -> (r: Vec<bool>)
    ensures
        r@ == differential(bits@),
{
    let mut state: bool = false;
    let mut out: Vec<bool> = Vec::new();
    let mut i: usize = 0;
    while i < bits.len()
        invariant
            i <= bits@.len(),
            out.len() == i,
            state == phase_after(bits@, i - 1),
            forall|k: int| 0 <= k < i ==> #[trigger] out@[k] == phase_after(bits@, k),
        decreases bits@.len() - i,
    {
        state = state != bits[i];
        out.push(state);
        i = i + 1;
    }
    assert(out@ =~= differential(bits@));
    out
}

pub open spec fn manchester(e: Seq<bool>) -> Seq<bool> {
    Seq::new(
        2 * e.len(),
        |i: int|
            if i % 2 == 0 {
                e[i / 2]
            } else {
                !e[i / 2]
            },
    )
}

/// Manchester-encode `e` into chip polarities (`true` = one BPSK sense,
/// `false` = the other; which is which is arbitrary).
pub fn manchester_chips(e: &[bool]) -> (r: Vec<bool>)
    ensures
        r@ == manchester(e@),
{
    let mut out: Vec<bool> = Vec::new();
    let mut i: usize = 0;
    while i < e.len()
        invariant
            i <= e@.len(),
            out.len() == 2 * i,
            forall|k: int| 0 <= k < 2 * i ==> #[trigger] out@[k] == manchester(e@)[k],
        decreases e@.len() - i,
    {
        out.push(e[i]);
        out.push(!e[i]);
        i = i + 1;
    }
    assert(out@ =~= manchester(e@));
    out
}

/// The full on-air chip sequence (differential, then Manchester) for
/// `source_bits`, sync word included, in transmit order.
pub fn source_chips(source_bits: &[bool]) -> (r: Vec<bool>)
    ensures
        r@ == manchester(differential(source_bits@)),
{
    let e: Vec<bool> = differential_encode(source_bits);
    manchester_chips(e.as_slice())
}

/// The first inter-bit boundary among the flips, for a Manchester parity: between
/// chips 1 and 2 for parity 0, between chips 0 and 1 for the other.
pub open spec fn first_boundary(parity: nat) -> int {
    if parity == 0 {
        1
    } else {
        0
    }
}

/// The data bits at the inter-bit boundaries of one parity.
pub open spec fn inter_bit(flips: Seq<bool>, parity: nat) -> Seq<bool> {
    let at = first_boundary(parity);
    Seq::new(((flips.len() + 1 - at) / 2) as nat, |k: int| !flips[at + 2 * k])
}

/// The data bits that the flips between adjacent chips imply, for one of the
/// two possible Manchester bit-parities (which half of each adjacent-chip pair
/// is the *inter-bit* boundary; the intra-bit transition Manchester guarantees
/// every bit carries no information and is skipped).
///
/// `parity == 0`: bit boundaries are flips at odd indices of `flips` (chip 1 to
/// chip 2, chip 3 to chip 4, and so on). `parity == 1`: the other set.
pub fn data_bits(flips: &[bool], parity: usize) -> (r: Vec<bool>)
    ensures
        r@ == inter_bit(flips@, parity as nat),
{
    let mut out: Vec<bool> = Vec::new();
    let len: usize = flips.len();
    let at: usize = if parity == 0 {
        1
    } else {
        0
    };
    let mut i: usize = at;
    while i < len
        invariant
            at == first_boundary(parity as nat),
            len == flips@.len(),
            at <= i <= len + 1,
            i == at + 2 * out.len(),
            forall|j: int| 0 <= j < out.len() ==> #[trigger] out@[j] == !flips@[at + 2 * j],
        decreases len + 1 - i,
    {
        out.push(!flips[i]);
        if len - i < 2 {
            assert(out@ =~= inter_bit(flips@, parity as nat));
            return out;
        }
        i = i + 2;
    }
    assert(out@ =~= inter_bit(flips@, parity as nat));
    out
}

/// Where each chip differs from the one before it.
pub open spec fn flips_of(chips: Seq<bool>) -> Seq<bool> {
    Seq::new((chips.len() - 1) as nat, |i: int| chips[i] != chips[i + 1])
}

/// The flips between the chips of a bit sequence give the bits back, all but
/// the first, which has no predecessor to compare against.
pub proof fn chips_give_the_bits_back(bits: Seq<bool>)
    requires
        bits.len() > 0,
    ensures
        inter_bit(flips_of(manchester(differential(bits))), 0) == bits.skip(1),
{
    let e = differential(bits);
    let chips = manchester(e);
    let flips = flips_of(chips);
    let got = inter_bit(flips, 0);
    assert(got.len() == bits.len() - 1);
    assert forall|k: int| 0 <= k < got.len() implies got[k] == bits.skip(1)[k] by {
        let i = 1 + 2 * k;
        assert(i / 2 == k && i % 2 == 1 && (i + 1) / 2 == k + 1 && (i + 1) % 2 == 0);
        assert(chips[i] == !e[k]);
        assert(chips[i + 1] == e[k + 1]);
        assert(e[k + 1] == (e[k] != bits[k + 1]));
    }
    assert(got =~= bits.skip(1));
}

pub open spec fn bit_value(b: bool) -> u8 {
    if b {
        1
    } else {
        0
    }
}

/// Eight bits from `at` on as a byte, the first one highest.
pub open spec fn packed_byte(bits: Seq<bool>, at: int) -> u8 {
    (128 * bit_value(bits[at]) + 64 * bit_value(bits[at + 1]) + 32 * bit_value(bits[at + 2]) + 16
        * bit_value(bits[at + 3]) + 8 * bit_value(bits[at + 4]) + 4 * bit_value(bits[at + 5]) + 2
        * bit_value(bits[at + 6]) + bit_value(bits[at + 7])) as u8
}

pub open spec fn packed_bytes(bits: Seq<bool>) -> Seq<u8> {
    Seq::new(bits.len() / 8, |i: int| packed_byte(bits, 8 * i))
}

/// `bits`, packed MSB-first into bytes. Trailing bits short of a full byte are
/// dropped.
pub fn pack_bits(bits: &[bool]) -> (r: Vec<u8>)
    ensures
        r@ == packed_bytes(bits@),
{
    let mut out: Vec<u8> = Vec::new();
    let n: usize = bits.len() / 8;
    let mut i: usize = 0;
    while i < n
        invariant
            i <= n,
            n == bits@.len() / 8,
            8 * n <= usize::MAX,
            out.len() == i,
            forall|k: int| 0 <= k < i ==> #[trigger] out@[k] == packed_byte(bits@, 8 * k),
        decreases n - i,
    {
        let at: usize = 8 * i;
        out.push(pack_one(bits, at));
        i = i + 1;
    }
    assert(out@ =~= packed_bytes(bits@));
    out
}

#[verifier::spinoff_prover]
#[verifier::rlimit(40)]
fn pack_one(bits: &[bool], at: usize) -> (r: u8)
    requires
        at + 8 <= bits@.len(),
        at + 8 <= usize::MAX,
    ensures
        r == packed_byte(bits@, at as int),
{
    let b7: u8 = if bits[at] { 128 } else { 0 };
    let b6: u8 = if bits[at + 1] { 64 } else { 0 };
    let b5: u8 = if bits[at + 2] { 32 } else { 0 };
    let b4: u8 = if bits[at + 3] { 16 } else { 0 };
    let b3: u8 = if bits[at + 4] { 8 } else { 0 };
    let b2: u8 = if bits[at + 5] { 4 } else { 0 };
    let b1: u8 = if bits[at + 6] { 2 } else { 0 };
    let b0: u8 = if bits[at + 7] { 1 } else { 0 };
    assert(b7 == 128 * bit_value(bits@[at as int]));
    assert(b6 == 64 * bit_value(bits@[at + 1]));
    assert(b5 == 32 * bit_value(bits@[at + 2]));
    assert(b4 == 16 * bit_value(bits@[at + 3]));
    assert(b3 == 8 * bit_value(bits@[at + 4]));
    assert(b2 == 4 * bit_value(bits@[at + 5]));
    assert(b1 == 2 * bit_value(bits@[at + 6]));
    assert(b0 == bit_value(bits@[at + 7]));
    b7 + b6 + b5 + b4 + b3 + b2 + b1 + b0
}

// ---------------------------------------------------------------------------
// Sync
// ---------------------------------------------------------------------------

/// Bit `k` of the sync word, in transmit order.
pub open spec fn sync_word_bit(k: int) -> bool {
    (SYNC_WORD >> ((31 - k) as u32)) & 1 != 0
}

/// How many of the first `n` bits from `at` on differ from the sync word.
pub open spec fn sync_errors(bits: Seq<bool>, at: int, n: nat) -> nat
    decreases n,
{
    if n == 0 {
        0
    } else {
        sync_errors(bits, at, (n - 1) as nat) + (if bits[at + n - 1] != sync_word_bit(n - 1) {
            1nat
        } else {
            0nat
        })
    }
}

pub proof fn lemma_sync_errors_bound(bits: Seq<bool>, at: int, n: nat)
    ensures
        sync_errors(bits, at, n) <= n,
    decreases n,
{
    if n > 0 {
        lemma_sync_errors_bound(bits, at, (n - 1) as nat);
    }
}

/// Whether the sync word is matched at `at`.
pub open spec fn is_sync_at(bits: Seq<bool>, at: int) -> bool {
    0 <= at && at + 32 <= bits.len() && sync_errors(bits, at, 32) <= 3
}

/// Bit errors between the sync word and the 32 bits at `at`.
pub fn sync_distance(bits: &[bool], at: usize) -> (r: u32)
    requires
        at + 32 <= bits@.len(),
    ensures
        r == sync_errors(bits@, at as int, 32),
        r <= 32,
{
    let len: usize = bits.len();
    let mut n: u32 = 0;
    let mut k: usize = 0;
    while k < SYNC_LEN
        invariant
            k <= 32,
            at + 32 <= len,
            len == bits@.len(),
            n == sync_errors(bits@, at as int, k as nat),
            n <= k,
        decreases 32 - k,
    {
        let want: bool = (SYNC_WORD >> (31 - k as u32)) & 1 != 0;
        if bits[at + k] != want {
            n = n + 1;
        }
        k = k + 1;
    }
    n
}

/// The bit offset in `bits` where [`SYNC_WORD`] matches within
/// [`SYNC_MAX_ERRORS`]: the *first* match from `from` on.
pub fn find_sync(bits: &[bool], from: usize) -> (r: Option<usize>)
    ensures
        r matches Some(i) ==> from <= i && is_sync_at(bits@, i as int) && forall|j: int|
            from <= j < i ==> !#[trigger] is_sync_at(bits@, j),
        r is None ==> forall|j: int| from <= j ==> !#[trigger] is_sync_at(bits@, j),
{
    let len: usize = bits.len();
    if len < SYNC_LEN {
        return None;
    }
    let mut i: usize = from;
    while i <= len - SYNC_LEN
        invariant
            32 <= len,
            len == bits@.len(),
            from <= i,
            forall|j: int| from <= j < i ==> !#[trigger] is_sync_at(bits@, j),
        decreases len - i,
    {
        if sync_distance(bits, i) <= SYNC_MAX_ERRORS {
            return Some(i);
        }
        i = i + 1;
    }
    None
}

// ---------------------------------------------------------------------------
// Frames
// ---------------------------------------------------------------------------

/// The 514 bytes after a sync word at `at`.
pub open spec fn frame_bytes(bits: Seq<bool>, at: int) -> Seq<u8> {
    packed_bytes(bits.subrange(at + 32, at + 32 + 4112))
}

/// Whether a whole frame with a good checksum stands at `at`.
pub open spec fn is_frame_at(bits: Seq<bool>, at: int) -> bool {
    &&& is_sync_at(bits, at)
    &&& at + 32 + 4112 <= bits.len()
    &&& {
        let f = frame_bytes(bits, at);
        crc_of(f.take(512)) == 256 * f[512] + f[513]
    }
}

pub open spec fn sync_bits() -> Seq<bool> {
    Seq::new(32, |k: int| sync_word_bit(k))
}

/// One matched, CRC-valid frame's essentials: the bits it actually carried
/// (sync word included, so its exact on-air chips can be reconstructed), the
/// decoded text, and where the sync word began.
#[derive(Clone, Debug)]
pub struct FrameMatch {
    pub db_start: usize,
    pub source_bits: Vec<bool>,
    pub text: String,
}

/// The frame at `at` as [`decode_frame`] reports it.
pub open spec fn is_match_of(bits: Seq<bool>, at: int, m: FrameMatch) -> bool {
    &&& m.db_start == at
    &&& m.source_bits@ == sync_bits() + bits.subrange(at + 32, at + 32 + 4112)
    &&& m.text@ == lossy_text(frame_bytes(bits, at).take(512))
    &&& valid_utf8(frame_bytes(bits, at).take(512)) ==> m.text@ == decode_utf8(
        frame_bytes(bits, at).take(512),
    )
}

/// The first frame in the bits.
pub open spec fn is_first_frame(bits: Seq<bool>, at: int) -> bool {
    is_frame_at(bits, at) && forall|j: int| 0 <= j < at ==> !#[trigger] is_frame_at(bits, j)
}

/// Try to decode one AO-40 uncoded frame from `bits` (already chip- and
/// Manchester-decoded data bits, see [`data_bits`]). `None` when nothing in
/// range is both a sync match and a CRC-valid frame after it.
///
/// Keeps searching past a sync match whose CRC fails, rather than stopping at
/// the first one: a 32-bit pattern matched within 3 errors turns up by pure
/// chance often enough in a block this long that giving up there would refuse
/// a perfectly good frame sitting right after it.
pub fn decode_frame(bits: &[bool]) -> (r: Option<FrameMatch>)
    ensures
        r matches Some(m) ==> is_first_frame(bits@, m.db_start as int) && is_match_of(
            bits@,
            m.db_start as int,
            m,
        ),
        r is None ==> forall|j: int| !#[trigger] is_frame_at(bits@, j),
{
    let len: usize = bits.len();
    let mut from: usize = 0;
    loop
        invariant
            len == bits@.len(),
            from <= len,
            forall|j: int| 0 <= j < from ==> !#[trigger] is_frame_at(bits@, j),
        decreases len + 1 - from,
    {
        let start: usize = match find_sync(bits, from) {
            None => {
                return None;
            },
            Some(s) => s,
        };
        if len - start >= SYNC_LEN + FRAME_BITS {
            let body: Vec<bool> = copy_range(bits, start + SYNC_LEN, FRAME_BITS);
            let frame: Vec<u8> = pack_bits(body.as_slice());
            let want: u16 = frame[PAYLOAD_BYTES] as u16 * 256 + frame[PAYLOAD_BYTES + 1] as u16;
            let payload: Vec<u8> = copy_bytes(frame.as_slice(), PAYLOAD_BYTES);
            let got: u16 = crc16_ccitt_false(payload.as_slice());
            if got == want {
                let mut source_bits: Vec<bool> = sync_word_bits();
                append_bits(&mut source_bits, body.as_slice());
                let text: String = from_utf8_lossy(payload.as_slice());
                return Some(FrameMatch { db_start: start, source_bits, text });
            }
        }
        from = start + 1;
    }
}

fn copy_range(bits: &[bool], at: usize, n: usize) -> (r: Vec<bool>)
    requires
        at + n <= bits@.len(),
    ensures
        r@ == bits@.subrange(at as int, at + n),
{
    let len: usize = bits.len();
    let mut out: Vec<bool> = Vec::new();
    let mut i: usize = 0;
    while i < n
        invariant
            i <= n,
            at + n <= len,
            len == bits@.len(),
            out.len() == i,
            forall|k: int| 0 <= k < i ==> #[trigger] out@[k] == bits@[at + k],
        decreases n - i,
    {
        out.push(bits[at + i]);
        i = i + 1;
    }
    assert(out@ =~= bits@.subrange(at as int, at + n));
    out
}

fn copy_bytes(bytes: &[u8], n: usize) -> (r: Vec<u8>)
    requires
        n <= bytes@.len(),
    ensures
        r@ == bytes@.take(n as int),
{
    let mut out: Vec<u8> = Vec::new();
    let mut i: usize = 0;
    while i < n
        invariant
            i <= n <= bytes@.len(),
            out.len() == i,
            forall|k: int| 0 <= k < i ==> #[trigger] out@[k] == bytes@[k],
        decreases n - i,
    {
        out.push(bytes[i]);
        i = i + 1;
    }
    assert(out@ =~= bytes@.take(n as int));
    out
}

fn append_bits(out: &mut Vec<bool>, more: &[bool])
    ensures
        final(out)@ == old(out)@ + more@,
{
    let ghost before = out@;
    let mut i: usize = 0;
    while i < more.len()
        invariant
            i <= more@.len(),
            out@ == before + more@.take(i as int),
        decreases more@.len() - i,
    {
        out.push(more[i]);
        i = i + 1;
        assert(out@ =~= before + more@.take(i as int));
    }
    assert(more@.take(more@.len() as int) =~= more@);
}

/// Bit `k` of a byte, the highest first.
pub open spec fn bit_of(b: u8, k: int) -> bool {
    (b >> ((7 - k) as u8)) & 1 != 0
}

/// Bytes as bits, the highest of each first.
pub open spec fn unpacked(bytes: Seq<u8>) -> Seq<bool> {
    Seq::new(8 * bytes.len(), |i: int| bit_of(bytes[i / 8], i % 8))
}

/// A payload with its checksum behind it.
pub open spec fn protected(payload: Seq<u8>) -> Seq<u8> {
    payload + seq![(crc_of(payload) / 256) as u8, (crc_of(payload) % 256) as u8]
}

pub proof fn lemma_byte_bits(b: u8)
    ensures
        b == 128 * bit_value(bit_of(b, 0)) + 64 * bit_value(bit_of(b, 1)) + 32 * bit_value(
            bit_of(b, 2),
        ) + 16 * bit_value(bit_of(b, 3)) + 8 * bit_value(bit_of(b, 4)) + 4 * bit_value(bit_of(b, 5))
            + 2 * bit_value(bit_of(b, 6)) + bit_value(bit_of(b, 7)),
{
    assert(b == 128 * ((b >> 7) & 1) + 64 * ((b >> 6) & 1) + 32 * ((b >> 5) & 1) + 16 * ((b >> 4)
        & 1) + 8 * ((b >> 3) & 1) + 4 * ((b >> 2) & 1) + 2 * ((b >> 1) & 1) + ((b >> 0) & 1)
        && ((b >> 7) & 1) <= 1 && ((b >> 6) & 1) <= 1 && ((b >> 5) & 1) <= 1 && ((b >> 4) & 1) <= 1
        && ((b >> 3) & 1) <= 1 && ((b >> 2) & 1) <= 1 && ((b >> 1) & 1) <= 1 && ((b >> 0) & 1) <= 1)
        by (bit_vector);
}

proof fn lemma_pack_unpacked(bytes: Seq<u8>)
    ensures
        packed_bytes(unpacked(bytes)) == bytes,
{
    let bits = unpacked(bytes);
    assert forall|i: int| 0 <= i < bytes.len() implies packed_byte(bits, 8 * i) == bytes[i] by {
        assert forall|k: int| 0 <= k < 8 implies #[trigger] bits[8 * i + k] == bit_of(bytes[i], k) by {
            assert((8 * i + k) / 8 == i && (8 * i + k) % 8 == k);
        }
        assert(bits[8 * i] == bits[8 * i + 0]);
        lemma_byte_bits(bytes[i]);
    }
    assert(packed_bytes(bits) =~= bytes);
}

proof fn lemma_protected(payload: Seq<u8>)
    requires
        payload.len() == 512,
    ensures
        protected(payload).len() == 514,
        protected(payload).take(512) == payload,
        crc_of(payload) == 256 * protected(payload)[512] + protected(payload)[513],
{
    let c = crc_of(payload);
    let p = protected(payload);
    assert(p.take(512) =~= payload);
    assert(p[512] == (c / 256) as u8 && p[513] == (c % 256) as u8);
    assert(c / 256 <= 255 && c % 256 <= 255 && c == 256 * (c / 256) + c % 256);
}

/// A frame that was sent is read wherever it stands among other bits, with up to
/// three errors in its sync word, and its text is the payload's.
pub proof fn a_sent_frame_is_read(bits: Seq<bool>, at: int, payload: Seq<u8>)
    requires
        payload.len() == 512,
        is_sync_at(bits, at),
        at + 32 + 4112 <= bits.len(),
        bits.subrange(at + 32, at + 32 + 4112) == unpacked(protected(payload)),
    ensures
        is_frame_at(bits, at),
        frame_bytes(bits, at).take(512) == payload,
{
    lemma_pack_unpacked(protected(payload));
    lemma_protected(payload);
    assert(frame_bytes(bits, at) == protected(payload));
}

/// A frame in which one byte is wrong, in the payload or in the checksum, is
/// refused where it stands.
pub proof fn a_damaged_frame_is_refused(bits: Seq<bool>, at: int, payload: Seq<u8>, k: int)
    requires
        payload.len() == 512,
        0 <= k < 514,
        at + 32 + 4112 <= bits.len(),
        0 <= at,
        frame_bytes(bits, at)[k] != protected(payload)[k],
        forall|i: int|
            0 <= i < 514 && i != k ==> #[trigger] frame_bytes(bits, at)[i] == protected(payload)[i],
    ensures
        !is_frame_at(bits, at),
{
    let f = frame_bytes(bits, at);
    let p = protected(payload);
    let got = f.take(512);
    let c = crc_of(payload);
    assert(p[512] == c / 256 && p[513] == c % 256);
    assert(c == 256 * (c / 256) + c % 256);
    assert forall|i: int| 0 <= i < 512 && i != k implies got[i] == payload[i] by {
        assert(f[i] == p[i]);
    }
    if k < 512 {
        assert(got[k] != payload[k]);
        crc_tells_one_wrong_byte(got, payload, k);
        assert(f[512] == p[512] && f[513] == p[513]);
    } else {
        assert(got =~= payload);
        if k == 512 {
            assert(f[513] == p[513]);
        } else {
            assert(f[512] == p[512]);
        }
    }
}

/// The sync word's bits, in transmit order.
pub fn sync_word_bits() -> (r: Vec<bool>)
    ensures
        r@ == sync_bits(),
{
    let mut out: Vec<bool> = Vec::new();
    let mut k: usize = 0;
    while k < SYNC_LEN
        invariant
            k <= 32,
            out.len() == k,
            forall|j: int| 0 <= j < k ==> #[trigger] out@[j] == sync_word_bit(j),
        decreases 32 - k,
    {
        out.push((SYNC_WORD >> (31 - k as u32)) & 1 != 0);
        k = k + 1;
    }
    assert(out@ =~= sync_bits());
    out
}

/// Fewest bit errors between [`SYNC_WORD`] and any 32-bit window of `bits`.
pub open spec fn is_least_distance(bits: Seq<bool>, d: nat) -> bool {
    &&& exists|j: int| 0 <= j && j + 32 <= bits.len() && #[trigger] sync_errors(bits, j, 32) == d
    &&& forall|j: int| 0 <= j && j + 32 <= bits.len() ==> d <= #[trigger] sync_errors(bits, j, 32)
}

/// Fewest bit errors between [`SYNC_WORD`] and any 32-bit window of `bits`;
/// `None` when there is no such window.
pub fn min_sync_distance(bits: &[bool]) -> (r: Option<u8>)
    ensures
        r is Some <==> bits@.len() >= 32,
        r matches Some(d) ==> is_least_distance(bits@, d as nat) && d <= 32,
{
    let len: usize = bits.len();
    if len < SYNC_LEN {
        return None;
    }
    let mut best: u32 = sync_distance(bits, 0);
    let ghost mut at: int = 0;
    let mut i: usize = 1;
    while i <= len - SYNC_LEN
        invariant
            32 <= len,
            len == bits@.len(),
            1 <= i <= len - 32 + 1,
            best <= 32,
            0 <= at && at + 32 <= len,
            sync_errors(bits@, at, 32) == best,
            forall|j: int| 0 <= j < i ==> best <= #[trigger] sync_errors(bits@, j, 32),
        decreases len - i,
    {
        let d: u32 = sync_distance(bits, i);
        if d < best {
            best = d;
            proof {
                at = i as int;
            }
        }
        i = i + 1;
    }
    Some(best as u8)
}

/// The places below `n` where the sync word matches, with a run of
/// near-adjacent ones counted once.
pub open spec fn distinct_syncs(bits: Seq<bool>, n: nat) -> Seq<int>
    decreases n,
{
    if n == 0 {
        Seq::empty()
    } else {
        let p = n - 1;
        let before = distinct_syncs(bits, (n - 1) as nat);
        if is_sync_at(bits, p) && (before.len() == 0 || p - before.last() > 4) {
            before.push(p)
        } else {
            before
        }
    }
}

/// Every bit offset in `bits` where [`SYNC_WORD`] matches within
/// [`SYNC_MAX_ERRORS`], collapsing a run of near-adjacent hits (one real sync
/// preamble can match at a couple of neighbouring offsets when a chip slips)
/// into a single count.
pub fn sync_positions(bits: &[bool]) -> (r: Vec<usize>)
    ensures
        r@.map_values(|p: usize| p as int) == distinct_syncs(bits@, bits@.len()),
{
    let len: usize = bits.len();
    let mut out: Vec<usize> = Vec::new();
    let ghost f = |p: usize| p as int;
    assert(out@.map_values(f) =~= distinct_syncs(bits@, 0));
    let mut i: usize = 0;
    while i < len
        invariant
            i <= len,
            len == bits@.len(),
            f == (|p: usize| p as int),
            out@.map_values(f) == distinct_syncs(bits@, i as nat),
            forall|k: int| 0 <= k < out.len() ==> #[trigger] out@[k] < i,
        decreases len - i,
    {
        let ghost before = out@;
        let hit: bool = len - i >= SYNC_LEN && sync_distance(bits, i) <= SYNC_MAX_ERRORS;
        assert(hit == is_sync_at(bits@, i as int));
        if hit {
            let fresh: bool = out.len() == 0 || i - out[out.len() - 1] > 4;
            proof {
                if before.len() > 0 {
                    assert(before.map_values(f).last() == f(before.last()));
                }
            }
            if fresh {
                out.push(i);
                assert(out@.map_values(f) =~= before.map_values(f).push(i as int));
            }
        }
        i = i + 1;
    }
    out
}

// ---------------------------------------------------------------------------
// Chip timing and parity
// ---------------------------------------------------------------------------

/// The data bits of combination `c`: the chip flips of timing phase `c / 2`
/// read with Manchester parity `c % 2`.
pub open spec fn combination(phases: Seq<Vec<bool>>, c: int) -> Seq<bool> {
    inter_bit(phases[c / 2]@, (c % 2) as nat)
}

pub open spec fn has_frame(bits: Seq<bool>) -> bool {
    exists|j: int| is_frame_at(bits, j)
}

/// One coarse-search hit: the Manchester parity and timing phase that gave it,
/// and the frame.
pub struct CoarseMatch {
    pub parity: usize,
    pub phase: usize,
    pub m: FrameMatch,
}

/// Try every chip-timing phase, given as the flips between its chips, and
/// Manchester parity. `Some` on the first combination whose sync word and CRC
/// both check out.
pub fn try_phases(phases: &Vec<Vec<bool>>) -> (r: Option<CoarseMatch>)
    requires
        phases@.len() <= usize::MAX / 2,
    ensures
        r matches Some(c) ==> {
            let k = 2 * c.phase + c.parity;
            &&& c.parity < 2
            &&& c.phase < phases@.len()
            &&& is_first_frame(combination(phases@, k), c.m.db_start as int)
            &&& is_match_of(combination(phases@, k), c.m.db_start as int, c.m)
            &&& forall|j: int| 0 <= j < k ==> !has_frame(#[trigger] combination(phases@, j))
        },
        r is None ==> forall|j: int|
            0 <= j < 2 * phases@.len() ==> !has_frame(#[trigger] combination(phases@, j)),
{
    let mut k: usize = 0;
    while k < 2 * phases.len()
        invariant
            k <= 2 * phases@.len(),
            phases@.len() <= usize::MAX / 2,
            forall|j: int| 0 <= j < k ==> !has_frame(#[trigger] combination(phases@, j)),
        decreases 2 * phases@.len() - k,
    {
        let phase: usize = k / 2;
        let parity: usize = k % 2;
        let bits: Vec<bool> = data_bits(phases[phase].as_slice(), parity);
        assert(bits@ == combination(phases@, k as int));
        match decode_frame(bits.as_slice()) {
            Some(m) => {
                return Some(CoarseMatch { parity, phase, m });
            },
            None => {},
        }
        k = k + 1;
    }
    None
}

/// Across every chip-timing phase and Manchester parity: the fewest sync-word
/// bit errors any of them reaches, and how many distinct sync matches (at most
/// 255) the first bitstream to reach it carries. `None` when none of them is
/// long enough to hold a sync word.
pub fn sync_scan(phases: &Vec<Vec<bool>>) -> (r: Option<(u8, u8)>)
    requires
        phases@.len() <= usize::MAX / 2,
    ensures
        r is None <==> forall|j: int|
            0 <= j < 2 * phases@.len() ==> (#[trigger] combination(phases@, j)).len() < 32,
        r matches Some(best) ==> exists|k: int| #[trigger] is_scan_best(phases@, k, best),
{
    let mut best: Option<(u8, u8)> = None;
    let ghost mut at: int = 0;
    let mut k: usize = 0;
    while k < 2 * phases.len()
        invariant
            k <= 2 * phases@.len(),
            phases@.len() <= usize::MAX / 2,
            best is None ==> forall|j: int|
                0 <= j < k ==> (#[trigger] combination(phases@, j)).len() < 32,
            best matches Some(b) ==> {
                &&& 0 <= at < k
                &&& is_scan_at(phases@, at, b)
                &&& forall|j: int| #![trigger combination(phases@, j)]
                    0 <= j < k && combination(phases@, j).len() >= 32 ==> {
                        &&& no_closer(combination(phases@, j), b.0)
                        &&& j < at ==> further(combination(phases@, j), b.0)
                    }
            },
        decreases 2 * phases@.len() - k,
    {
        let bits: Vec<bool> = data_bits(phases[k / 2].as_slice(), k % 2);
        let ghost comb = combination(phases@, k as int);
        assert(bits@ == comb);
        match min_sync_distance(bits.as_slice()) {
            None => {},
            Some(d) => {
                let closer: bool = match best {
                    None => true,
                    Some(b) => d < b.0,
                };
                if closer {
                    let hits: Vec<usize> = sync_positions(bits.as_slice());
                    assert(hits@.len() == hits@.map_values(|p: usize| p as int).len());
                    let n: u8 = if hits.len() < 255 {
                        hits.len() as u8
                    } else {
                        255
                    };
                    proof {
                        if best is Some {
                            let b = best->0;
                            assert forall|j: int| #![trigger combination(phases@, j)]
                                0 <= j < k && combination(phases@, j).len() >= 32 implies {
                                &&& no_closer(combination(phases@, j), d)
                                &&& further(combination(phases@, j), d)
                            } by {
                                let c = combination(phases@, j);
                                assert(no_closer(c, b.0));
                                assert forall|i: int| 0 <= i && i + 32 <= c.len() implies d
                                    < #[trigger] sync_errors(c, i, 32) by {}
                            }
                        }
                        at = k as int;
                    }
                    best = Some((d, n));
                } else {
                    proof {
                        assert forall|i: int| 0 <= i && i + 32 <= comb.len() implies (best->0).0
                            <= #[trigger] sync_errors(comb, i, 32) by {}
                    }
                }
            },
        }
        k = k + 1;
    }
    proof {
        if best is Some {
            assert(is_scan_best(phases@, at, best->0));
        }
    }
    best
}

/// No window of the bits is closer to the sync word than `d`.
pub open spec fn no_closer(bits: Seq<bool>, d: u8) -> bool {
    forall|i: int| 0 <= i && i + 32 <= bits.len() ==> d <= #[trigger] sync_errors(bits, i, 32)
}

/// Every window of the bits is further from the sync word than `d`.
pub open spec fn further(bits: Seq<bool>, d: u8) -> bool {
    forall|i: int| 0 <= i && i + 32 <= bits.len() ==> d < #[trigger] sync_errors(bits, i, 32)
}

/// What combination `k` by itself scans as.
pub open spec fn is_scan_at(phases: Seq<Vec<bool>>, k: int, r: (u8, u8)) -> bool {
    let bits = combination(phases, k);
    let hits = distinct_syncs(bits, bits.len()).len();
    &&& is_least_distance(bits, r.0 as nat)
    &&& r.0 <= 32
    &&& r.1 == (if hits < 255 {
        hits as int
    } else {
        255
    })
}

/// Combination `k` is the first of those that come closest to the sync word,
/// and `r` is what it scans as.
pub open spec fn is_scan_best(phases: Seq<Vec<bool>>, k: int, r: (u8, u8)) -> bool {
    &&& 0 <= k < 2 * phases.len()
    &&& is_scan_at(phases, k, r)
    &&& forall|j: int| #![trigger combination(phases, j)]
        0 <= j < 2 * phases.len() && combination(phases, j).len() >= 32 ==> {
            &&& no_closer(combination(phases, j), r.0)
            &&& j < k ==> further(combination(phases, j), r.0)
        }
}

// ---------------------------------------------------------------------------
// Search order
// ---------------------------------------------------------------------------

/// Step `k` of a walk `0, -1, +1, -2, +2, ..`.
pub open spec fn zigzag(k: int) -> int {
    if k % 2 == 0 {
        k / 2
    } else {
        -(k / 2 + 1)
    }
}

/// Step `k` of a walk `0, +1, -1, +2, -2, ..`.
pub open spec fn centre_out(k: int) -> int {
    if k % 2 == 0 {
        -(k / 2)
    } else {
        k / 2 + 1
    }
}

/// The steps, on either side of a spectral seed, of the dense sub-grid tried
/// right on it: `half` on each side.
pub fn fine_steps(half: i64) -> (r: Vec<i64>)
    requires
        0 <= half < 0x1000_0000,
    ensures
        r@.len() == 2 * half + 1,
        forall|k: int| 0 <= k < r@.len() ==> #[trigger] r@[k] == zigzag(k),
{
    let mut out: Vec<i64> = Vec::new();
    let mut k: i64 = 0;
    while k <= 2 * half
        invariant
            0 <= half < 0x1000_0000,
            0 <= k <= 2 * half + 1,
            out.len() == k,
            forall|j: int| 0 <= j < k ==> #[trigger] out@[j] == zigzag(j),
        decreases 2 * half + 1 - k,
    {
        out.push(
            if k % 2 == 0 {
                k / 2
            } else {
                -(k / 2 + 1)
            },
        );
        k = k + 1;
    }
    out
}

/// The steps of the plain grid, `half` on each side, from the centre outward.
pub fn coarse_steps(half: i64) -> (r: Vec<i64>)
    requires
        0 <= half < 0x1000_0000,
    ensures
        r@.len() == 2 * half + 1,
        forall|k: int| 0 <= k < r@.len() ==> #[trigger] r@[k] == centre_out(k),
{
    let mut out: Vec<i64> = Vec::new();
    let mut k: i64 = 0;
    while k <= 2 * half
        invariant
            0 <= half < 0x1000_0000,
            0 <= k <= 2 * half + 1,
            out.len() == k,
            forall|j: int| 0 <= j < k ==> #[trigger] out@[j] == centre_out(j),
        decreases 2 * half + 1 - k,
    {
        out.push(
            if k % 2 == 0 {
                -(k / 2)
            } else {
                k / 2 + 1
            },
        );
        k = k + 1;
    }
    out
}

pub open spec fn distance_of(s: int) -> int {
    if s >= 0 {
        s
    } else {
        -s
    }
}

/// Both walks visit every step from `-half` to `half` exactly once, nearest
/// first.
pub proof fn walks_cover_the_grid(half: int, s: int)
    requires
        half >= 0,
        -half <= s <= half,
    ensures
        exists|k: int| 0 <= k <= 2 * half && #[trigger] zigzag(k) == s,
        exists|k: int| 0 <= k <= 2 * half && #[trigger] centre_out(k) == s,
        forall|j: int, k: int|
            0 <= j && 0 <= k && #[trigger] zigzag(j) == #[trigger] zigzag(k) ==> j == k,
        forall|j: int, k: int|
            0 <= j && 0 <= k && #[trigger] centre_out(j) == #[trigger] centre_out(k) ==> j == k,
        forall|j: int, k: int|
            0 <= j <= k ==> distance_of(#[trigger] zigzag(j)) <= distance_of(#[trigger] zigzag(k)),
        forall|j: int, k: int|
            0 <= j <= k ==> distance_of(#[trigger] centre_out(j)) <= distance_of(
                #[trigger] centre_out(k),
            ),
{
    if s >= 0 {
        assert(zigzag(2 * s) == s);
    } else {
        assert(zigzag(-2 * s - 1) == s);
    }
    if s > 0 {
        assert(centre_out(2 * s - 1) == s);
    } else {
        assert(centre_out(-2 * s) == s);
    }
}

/// Steps of the drift-rate grid on each side of the estimate: 6.0 Hz/s in
/// 1.5 Hz/s steps.
pub const DRIFT_STEPS: i64 = 4;

/// Steps of the curvature grid on each side of the estimate: 3.0 Hz/s^2 in one
/// step.
pub const ACCEL_STEPS: i64 = 1;

/// Point `i` of the drift grid with `2 * s + 1` rates: curvature outer, rate
/// inner, both from the estimate outward.
pub open spec fn drift_point(s: int, i: int) -> (int, int) {
    (zigzag(i / (2 * s + 1)), zigzag(i % (2 * s + 1)))
}

/// The (curvature, rate) steps around the caller's drift estimate, in the
/// order they are tried. Without a beacon-shaped spectrum to work on, the grid
/// is the one point of the estimate itself.
pub fn drift_grid(seeded: bool) -> (r: Vec<(i64, i64)>)
    ensures
        seeded ==> r@.len() == 27 && forall|i: int|
            0 <= i < 27 ==> (#[trigger] r@[i]).0 == drift_point(4, i).0 && r@[i].1 == drift_point(
                4,
                i,
            ).1,
        !seeded ==> r@ == seq![(0i64, 0i64)],
{
    let s: i64 = if seeded {
        DRIFT_STEPS
    } else {
        0
    };
    let a: i64 = if seeded {
        ACCEL_STEPS
    } else {
        0
    };
    let rates: Vec<i64> = fine_steps(s);
    let curves: Vec<i64> = fine_steps(a);
    let mut out: Vec<(i64, i64)> = Vec::new();
    let mut i: usize = 0;
    let n: usize = curves.len() * rates.len();
    while i < n
        invariant
            i <= n,
            0 <= s <= 4,
            n == curves@.len() * rates@.len(),
            rates@.len() == 2 * s + 1,
            n <= 27,
            forall|k: int| 0 <= k < rates@.len() ==> #[trigger] rates@[k] == zigzag(k),
            forall|k: int| 0 <= k < curves@.len() ==> #[trigger] curves@[k] == zigzag(k),
            out.len() == i,
            forall|k: int|
                0 <= k < i ==> (#[trigger] out@[k]).0 == drift_point(s as int, k).0 && out@[k].1
                    == drift_point(s as int, k).1,
        decreases n - i,
    {
        let w: usize = rates.len();
        proof {
            assert(i / w < curves@.len()) by (nonlinear_arith)
                requires
                    i < curves@.len() * w,
                    w > 0,
            ;
        }
        out.push((curves[i / w], rates[i % w]));
        i = i + 1;
    }
    if !seeded {
        assert(out@ =~= seq![(0i64, 0i64)]);
    }
    out
}

// ---------------------------------------------------------------------------
// Progress
// ---------------------------------------------------------------------------

/// How far a search pass got, for the operator's step-by-step decoder readout.
#[derive(Clone, Copy, Debug, PartialEq, Eq)]
pub struct DecodeProgress {
    /// The pass had chip-rate structure to work on: a twin-lobe estimate
    /// landed, or the sync correlator found something close.
    pub carrier: bool,
    /// The sync word matched within [`SYNC_MAX_ERRORS`] somewhere.
    pub sync: bool,
    /// Fewest sync-word bit errors found, 0..=32; [`u8::MAX`] if no bitstream
    /// was run at all.
    pub sync_bit_errors: u8,
    /// How many separate positions in the best bitstream matched the sync
    /// word.
    pub sync_matches: u8,
    /// A CRC-valid frame was decoded.
    pub crc_ok: bool,
}

impl Default for DecodeProgress {
    fn default() -> (r: Self)
        ensures
            r == (DecodeProgress {
                carrier: false,
                sync: false,
                sync_bit_errors: 255,
                sync_matches: 0,
                crc_ok: false,
            }),
    {
        DecodeProgress {
            carrier: false,
            sync: false,
            sync_bit_errors: 255,
            sync_matches: 0,
            crc_ok: false,
        }
    }
}

/// Whether this is the readout of a pass that decoded nothing.
pub open spec fn is_probe(seeded: bool, scan: Option<(u8, u8)>, r: DecodeProgress) -> bool {
    &&& !r.crc_ok
    &&& scan is None ==> !r.sync && r.sync_bit_errors == 255 && r.sync_matches == 0 && r.carrier
        == seeded
    &&& scan matches Some((d, n)) ==> r.sync_bit_errors == d && r.sync_matches == n && r.sync == (d
        <= 3) && r.carrier == (seeded || d <= 10)
}

impl DecodeProgress {
    /// The readout of a pass that decoded a frame.
    pub fn decoded() -> (r: DecodeProgress)
        ensures
            r.carrier && r.sync && r.crc_ok,
            r.sync_bit_errors == 0,
            r.sync_matches == 1,
    {
        DecodeProgress {
            carrier: true,
            sync: true,
            sync_bit_errors: 0,
            sync_matches: 1,
            crc_ok: true,
        }
    }

    /// The readout of a pass that decoded nothing: whether the spectrum gave a
    /// seed, and what [`sync_scan`] found.
    pub fn probed(seeded: bool, scan: Option<(u8, u8)>) -> (r: DecodeProgress)
        ensures
            !r.crc_ok,
            scan is None ==> !r.sync && r.sync_bit_errors == 255 && r.sync_matches == 0
                && r.carrier == seeded,
            scan matches Some((d, n)) ==> {
                &&& r.sync_bit_errors == d
                &&& r.sync_matches == n
                &&& r.sync == (d <= 3)
                &&& r.carrier == (seeded || d <= 10)
            },
            is_probe(seeded, scan, r),
    {
        match scan {
            None => DecodeProgress {
                carrier: seeded,
                sync: false,
                sync_bit_errors: 255,
                sync_matches: 0,
                crc_ok: false,
            },
            Some((d, n)) => DecodeProgress {
                carrier: seeded || d <= 10,
                sync: d as u32 <= SYNC_MAX_ERRORS,
                sync_bit_errors: d,
                sync_matches: n,
                crc_ok: false,
            },
        }
    }
}

// ---------------------------------------------------------------------------
// The beacon's shape
// ---------------------------------------------------------------------------

/// What the spectrum around one candidate carrier looks like: the mean level of
/// the two lobes against the central null, against what lies outside them and
/// against the band's floor, in millionths of a decibel; and how even the two
/// lobes are, in millionths.
#[derive(Clone, Copy, Debug, PartialEq, Eq, Structural)]
pub struct LobeMeasure {
    pub null_depth_udb: i64,
    pub lobe_excess_udb: i64,
    pub snr_udb: i64,
    pub symmetry_ppm: i64,
}

impl LobeMeasure {
    /// Whether this is the beacon's shape: a null at least 2.5 dB deep, lobes 3 dB
    /// above their surroundings and the floor, and even on both sides. A bare
    /// carrier, a voice signal and noise all fail one of these.
    pub open spec fn looks_right(self) -> bool {
        &&& self.null_depth_udb >= 2_500_000
        &&& self.lobe_excess_udb >= 3_000_000
        &&& self.snr_udb >= 3_000_000
        &&& self.symmetry_ppm >= 550_000
    }

    /// How convincing it is. No level counts for more than 12 dB, and evenness is
    /// worth as much as 8.
    pub open spec fn score(self) -> int {
        at_most_12_db(self.null_depth_udb as int) + at_most_12_db(self.lobe_excess_udb as int)
            + at_most_12_db(self.snr_udb as int) + 8 * self.symmetry_ppm
    }
}

pub open spec fn at_most_12_db(udb: int) -> int {
    if udb > 12_000_000 {
        12_000_000
    } else {
        udb
    }
}

fn up_to_12_db(udb: i64) -> (r: i64)
    requires
        udb >= 0,
    ensures
        r == at_most_12_db(udb as int),
        0 <= r <= 12_000_000,
{
    if udb > 12_000_000 {
        12_000_000
    } else {
        udb
    }
}

/// Whether candidate `i` of the first `n` is the beacon: it has the beacon's
/// shape, none that has it is more convincing, and none before it as much.
pub open spec fn is_best_carrier(seen: Seq<LobeMeasure>, n: int, i: int) -> bool {
    &&& 0 <= i < n
    &&& seen[i].looks_right()
    &&& forall|j: int|
        0 <= j < n && (#[trigger] seen[j]).looks_right() ==> seen[j].score() <= seen[i].score()
    &&& forall|j: int|
        0 <= j < i && (#[trigger] seen[j]).looks_right() ==> seen[j].score() < seen[i].score()
}

/// The most convincing of the candidate carriers, in the order in which they were
/// scanned, if any has the beacon's shape.
pub fn pick_carrier(seen: &[LobeMeasure]) -> (r: Option<usize>)
    requires
        forall|i: int| 0 <= i < seen@.len() ==> (#[trigger] seen@[i]).symmetry_ppm <= 1_000_000,
    ensures
        r matches Some(i) ==> is_best_carrier(seen@, seen@.len() as int, i as int),
        r is None ==> forall|j: int|
            0 <= j < seen@.len() ==> !(#[trigger] seen@[j]).looks_right(),
{
    let mut best: Option<(usize, i64)> = None;
    let mut i: usize = 0;
    while i < seen.len()
        invariant
            forall|k: int| 0 <= k < seen@.len() ==> (#[trigger] seen@[k]).symmetry_ppm <= 1_000_000,
            i <= seen@.len(),
            best matches Some(b) ==> is_best_carrier(seen@, i as int, b.0 as int)
                && b.1 == seen@[b.0 as int].score(),
            best is None ==> forall|j: int| 0 <= j < i ==> !(#[trigger] seen@[j]).looks_right(),
        decreases seen.len() - i,
    {
        let m = seen[i];
        if m.null_depth_udb >= 2_500_000 && m.lobe_excess_udb >= 3_000_000 && m.snr_udb
            >= 3_000_000 && m.symmetry_ppm >= 550_000 {
            assert(seen@[i as int].symmetry_ppm <= 1_000_000);
            let score: i64 = up_to_12_db(m.null_depth_udb) + up_to_12_db(m.lobe_excess_udb)
                + up_to_12_db(m.snr_udb) + 8 * m.symmetry_ppm;
            let better: bool = match &best {
                None => true,
                Some(b) => score > b.1,
            };
            if better {
                best = Some((i, score));
            }
        }
        i = i + 1;
    }
    match best {
        None => None,
        Some(b) => Some(b.0),
    }
}

} // verus!
