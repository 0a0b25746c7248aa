//! PSK Reporter reception-report *upload*: tell the network what this station
//! is hearing, so it appears as a receiver on <https://pskreporter.info>.
//!
//! The collector speaks IPFIX (RFC 5101) over UDP with PSK Reporter's own
//! vendor fields (enterprise number 30351). A packet is: the 16-byte IPFIX
//! header, the two template definitions, one record describing *us* (the
//! receiver), and one record per station heard.
//!
//! Reports are batched: PSK Reporter asks for no more than one packet every
//! five minutes per station, and only the best report per callsign in that
//! window is worth sending.
use crate::text::{dec, decimal, trim, trimmed};
use vstd::prelude::*;
use vstd::utf8::encode_utf8;

verus! {

/// PSK Reporter's IANA private enterprise number.
pub const ENTERPRISE: u32 = 30351;

/// Our template IDs. Any value >= 256 works; these match what other clients
/// use.
pub const TEMPLATE_SENDER: u16 = 0x5001;

pub const TEMPLATE_RECEIVER: u16 = 0x5002;

/// The same reception report with the frequency field widened to five bytes.
pub const TEMPLATE_SENDER_WIDE: u16 = 0x5003;

/// The highest frequency the default 4-byte field can carry.
pub const NARROW_FREQ_MAX: u64 = 0xFFFF_FFFF;

/// The highest frequency the 5-byte field can carry: a little over 1 THz.
pub const MAX_REPORT_HZ: u64 = 0xFF_FFFF_FFFF;

/// Keep packets inside the smallest MTU we might cross.
pub const MAX_PACKET: usize = 1400;

/// Never batch more than this many reports, however long the interval.
pub const MAX_PENDING: usize = 512;

/// The shortest gap the collector accepts between packets from one station.
pub const MIN_INTERVAL_S: u64 = 300;

/// One station we heard.
#[derive(Clone, Debug, PartialEq)]
pub struct Report {
    pub call: String,
    pub grid: String,
    /// The signal's own frequency (dial + audio offset), in Hz.
    ///
    /// Wider than the collector's default 4-byte field on purpose: that field
    /// stops at 4.295 GHz, and a QO-100 station heard on 10489.540 MHz is well
    /// past it. Such a report goes out under the wide template.
    pub freq_hz: u64,
    pub snr_db: i8,
    /// "FT8", "FT4", ..
    pub mode: String,
    /// Unix seconds of the slot it was decoded from.
    pub when_utc: u32,
}

/// Who is doing the hearing: the record that makes us a station on the map.
#[derive(Clone, Debug, PartialEq)]
pub struct Station {
    pub call: String,
    pub grid: String,
    pub software: String,
    pub antenna: String,
}

// ---------------------------------------------------------------------------
// Wire format
// ---------------------------------------------------------------------------

pub open spec fn be16(v: int) -> Seq<u8> {
    seq![(v / 0x100 % 0x100) as u8, (v % 0x100) as u8]
}

pub open spec fn be32(v: int) -> Seq<u8> {
    seq![
        (v / 0x100_0000 % 0x100) as u8,
        (v / 0x1_0000 % 0x100) as u8,
        (v / 0x100 % 0x100) as u8,
        (v % 0x100) as u8,
    ]
}

pub open spec fn be40(v: int) -> Seq<u8> {
    seq![
        (v / 0x1_0000_0000 % 0x100) as u8,
        (v / 0x100_0000 % 0x100) as u8,
        (v / 0x1_0000 % 0x100) as u8,
        (v / 0x100 % 0x100) as u8,
        (v % 0x100) as u8,
    ]
}

pub fn push_u16(out: &mut Vec<u8>, v: u16)
    ensures
        final(out)@ == old(out)@ + be16(v as int),
{
    let ghost before = out@;
    out.push((v / 0x100 % 0x100) as u8);
    out.push((v % 0x100) as u8);
    assert(out@ =~= before + be16(v as int));
}

pub fn push_u32(out: &mut Vec<u8>, v: u32)
    ensures
        final(out)@ == old(out)@ + be32(v as int),
{
    let ghost before = out@;
    out.push((v / 0x100_0000 % 0x100) as u8);
    out.push((v / 0x1_0000 % 0x100) as u8);
    out.push((v / 0x100 % 0x100) as u8);
    out.push((v % 0x100) as u8);
    assert(out@ =~= before + be32(v as int));
}

pub open spec fn at_most(v: int, limit: int) -> int {
    if v < limit {
        v
    } else {
        limit
    }
}

/// A 5-byte big-endian integer: the widened frequency field PSK Reporter
/// documents for anything above 4 GHz.
pub fn push_u40(out: &mut Vec<u8>, v: u64)
    ensures
        final(out)@ == old(out)@ + be40(at_most(v as int, 0xFF_FFFF_FFFF)),
{
    let ghost before = out@;
    let v: u64 = if v < MAX_REPORT_HZ {
        v
    } else {
        MAX_REPORT_HZ
    };
    out.push((v / 0x1_0000_0000 % 0x100) as u8);
    out.push((v / 0x100_0000 % 0x100) as u8);
    out.push((v / 0x1_0000 % 0x100) as u8);
    out.push((v / 0x100 % 0x100) as u8);
    out.push((v % 0x100) as u8);
    assert(out@ =~= before + be40(v as int));
}

/// An IPFIX variable-length string: one length byte, then the bytes, at most
/// sixty of them.
pub open spec fn string_field(s: Seq<char>) -> Seq<u8> {
    let b = encode_utf8(s);
    let n = at_most(b.len() as int, 60);
    seq![n as u8] + b.take(n)
}

pub proof fn lemma_string_field_len(s: Seq<char>)
    ensures
        1 <= string_field(s).len() <= 61,
{
}

/// An IPFIX variable-length string: one length byte, then the bytes. Anything
/// longer than the collector's fields is truncated rather than dropped.
pub fn push_str(out: &mut Vec<u8>, s: &str)
    ensures
        final(out)@ == old(out)@ + string_field(s@),
{
    let ghost before = out@;
    let b: &[u8] = s.as_bytes();
    let n: usize = if b.len() < 60 {
        b.len()
    } else {
        60
    };
    out.push(n as u8);
    let mut i: usize = 0;
    while i < n
        invariant
            i <= n <= b@.len(),
            out@ == before + seq![n as u8] + b@.take(i as int),
        decreases n - i,
    {
        out.push(b[i]);
        i = i + 1;
        assert(out@ =~= before + seq![n as u8] + b@.take(i as int));
    }
    assert(out@ =~= before + string_field(s@));
}

/// One template field specifier: vendor fields set the top bit of the field id
/// and carry the enterprise number.
pub open spec fn field(id: int, len: int, vendor: bool) -> Seq<u8> {
    if vendor {
        be16(id % 0x8000 + 0x8000) + be16(len) + be32(30351)
    } else {
        be16(id) + be16(len)
    }
}

/// One template field specifier: vendor fields set the top bit of the field id
/// and carry the enterprise number; `len` is `0xFFFF` for variable length.
pub fn push_field(out: &mut Vec<u8>, id: u16, len: u16, vendor: bool)
    ensures
        final(out)@ == old(out)@ + field(id as int, len as int, vendor),
{
    let ghost before = out@;
    push_u16(
        out,
        if vendor {
            id % 0x8000 + 0x8000
        } else {
            id
        },
    );
    push_u16(out, len);
    if vendor {
        push_u32(out, ENTERPRISE);
    }
    assert(out@ =~= before + field(id as int, len as int, vendor));
}

/// How many bytes a set of `n` bytes lacks to a 4-byte boundary.
pub open spec fn padding(n: int) -> int {
    (4 - n % 4) % 4
}

pub open spec fn zeros(n: int) -> Seq<u8> {
    Seq::new(n as nat, |i: int| 0u8)
}

/// Pad a set out to a 4-byte boundary, as IPFIX requires.
pub fn pad4(out: &mut Vec<u8>, set_start: usize)
    requires
        set_start <= old(out)@.len(),
    ensures
        final(out)@ == old(out)@ + zeros(padding(old(out)@.len() - set_start)),
{
    let ghost before = out@;
    let ghost want = padding(out@.len() - set_start);
    while (out.len() - set_start) % 4 != 0
        invariant
            set_start <= before.len() <= out@.len() <= before.len() + want,
            want == padding(before.len() - set_start),
            out@ == before + zeros(out@.len() - before.len()),
        decreases before.len() + want - out@.len(),
    {
        let ghost n = out@.len();
        out.push(0);
        assert(out@ =~= before + zeros(n + 1 - before.len()));
    }
}

/// An IPFIX set: its id, its length, its body, and padding.
pub open spec fn set_bytes(id: int, body: Seq<u8>) -> Seq<u8> {
    let n = 4 + body.len();
    be16(id) + be16(n + padding(n as int)) + body + zeros(padding(n as int))
}

/// A set takes up a whole number of 4-byte words, and its length field says
/// how many bytes that is.
pub proof fn sets_are_aligned(id: int, body: Seq<u8>)
    requires
        body.len() < 0xFF00,
    ensures
        set_bytes(id, body).len() % 4 == 0,
        4 + body.len() <= set_bytes(id, body).len() <= 7 + body.len(),
        256 * set_bytes(id, body)[2] + set_bytes(id, body)[3] == set_bytes(id, body).len(),
{
}

/// Write the length of the set that starts at `start` into its header, after
/// padding it.
fn close_set(out: &mut Vec<u8>, start: usize, Ghost(id): Ghost<int>, Ghost(body): Ghost<Seq<u8>>)
    requires
        start + 4 <= old(out)@.len() < 0xFF00,
        old(out)@ == old(out)@.take(start as int) + be16(id) + be16(0) + body,
    ensures
        final(out)@ == old(out)@.take(start as int) + set_bytes(id, body),
{
    let ghost head = out@.take(start as int);
    pad4(out, start);
    let len: u16 = (out.len() - start) as u16;
    out.set(start + 2, (len / 0x100 % 0x100) as u8);
    out.set(start + 3, (len % 0x100) as u8);
    assert(out@ =~= head + set_bytes(id, body));
}

/// The fields of a reception report.
pub open spec fn sender_fields(freq_len: int) -> Seq<u8> {
    be16(
        if freq_len == 4 {
            0x5001
        } else {
            0x5003
        },
    ) + be16(7) + field(1, 0xFFFF, true) + field(5, freq_len, true) + field(6, 1, true) + field(
        10,
        0xFFFF,
        true,
    ) + field(3, 0xFFFF, true) + field(11, 1, true) + field(150, 4, false)
}

/// The template describing a reception report (what we heard).
///
/// `freq_len` is the width of the frequency field: 4 bytes is the default
/// template every client sends, 5 bytes the widening PSK Reporter documents
/// for frequencies above 4 GHz. The wide one is only ever sent when a report
/// needs it, so an HF-only station's datagrams are byte for byte what they
/// were.
pub fn sender_template(out: &mut Vec<u8>, freq_len: u16)
    requires
        old(out)@.len() < 0xF000,
    ensures
        final(out)@ == old(out)@ + set_bytes(2, sender_fields(freq_len as int)),
{
    let ghost before = out@;
    let start: usize = out.len();
    push_u16(out, 2);  // set id 2 = template set
    push_u16(out, 0);  // length, patched below
    push_u16(
        out,
        if freq_len == 4 {
            TEMPLATE_SENDER
        } else {
            TEMPLATE_SENDER_WIDE
        },
    );
    push_u16(out, 7);  // field count
    push_field(out, 1, 0xFFFF, true);  // senderCallsign
    push_field(out, 5, freq_len, true);  // frequency
    push_field(out, 6, 1, true);  // sNR
    push_field(out, 10, 0xFFFF, true);  // mode
    push_field(out, 3, 0xFFFF, true);  // senderLocator
    push_field(out, 11, 1, true);  // informationSource
    push_field(out, 150, 4, false);  // flowStartSeconds (IANA)
    let ghost body = sender_fields(freq_len as int);
    proof {
        assert(out@ =~= before + be16(2) + be16(0) + body);
        assert(out@.take(start as int) =~= before);
    }
    close_set(out, start, Ghost(2), Ghost(body));
}

/// The fields of the receiving station.
pub open spec fn receiver_fields() -> Seq<u8> {
    be16(0x5002) + be16(4) + be16(0) + field(2, 0xFFFF, true) + field(4, 0xFFFF, true) + field(
        8,
        0xFFFF,
        true,
    ) + field(9, 0xFFFF, true)
}

/// The template describing the receiving station (us).
pub fn receiver_template(out: &mut Vec<u8>)
    requires
        old(out)@.len() < 0xF000,
    ensures
        final(out)@ == old(out)@ + set_bytes(3, receiver_fields()),
{
    let ghost before = out@;
    let start: usize = out.len();
    push_u16(out, 3);  // set id 3 = options template set
    push_u16(out, 0);  // length, patched below
    push_u16(out, TEMPLATE_RECEIVER);
    push_u16(out, 4);  // field count
    push_u16(out, 0);  // scope field count
    push_field(out, 2, 0xFFFF, true);  // receiverCallsign
    push_field(out, 4, 0xFFFF, true);  // receiverLocator
    push_field(out, 8, 0xFFFF, true);  // decodingSoftware
    push_field(out, 9, 0xFFFF, true);  // antennaInformation
    let ghost body = receiver_fields();
    proof {
        assert(out@ =~= before + be16(3) + be16(0) + body);
        assert(out@.take(start as int) =~= before);
    }
    close_set(out, start, Ghost(3), Ghost(body));
}

/// The record describing us.
pub open spec fn station_record(rx: Station) -> Seq<u8> {
    string_field(rx.call@) + string_field(rx.grid@) + string_field(rx.software@) + string_field(
        rx.antenna@,
    )
}

/// Whether a report needs the five-byte frequency.
pub open spec fn is_wide(r: Report) -> bool {
    r.freq_hz > 0xFFFF_FFFF
}

/// A byte in two's complement.
pub open spec fn signed_byte(v: i8) -> u8 {
    (if v < 0 {
        v + 256
    } else {
        v as int
    }) as u8
}

/// The record of one report.
#[verifier::opaque]
pub open spec fn report_record(r: Report) -> Seq<u8> {
    string_field(r.call@) + (if is_wide(r) {
        be40(at_most(r.freq_hz as int, 0xFF_FFFF_FFFF))
    } else {
        be32(r.freq_hz as int)
    }) + seq![signed_byte(r.snr_db)] + string_field(r.mode@) + string_field(r.grid@) + seq![1u8]
        + be32(r.when_utc as int)
}

#[verifier::rlimit(30)]
pub proof fn lemma_record_len(r: Report)
    ensures
        report_record(r).len() <= 194,
        report_record(r).len() >= 13,
{
    reveal(report_record);
    lemma_string_field_len(r.call@);
    lemma_string_field_len(r.mode@);
    lemma_string_field_len(r.grid@);
}

/// The records among the first `k` reports that go into the narrow or the wide
/// set, in order.
pub open spec fn records(reports: Seq<Report>, k: nat, wide: bool) -> Seq<u8>
    decreases k,
{
    if k == 0 {
        Seq::empty()
    } else {
        let before = records(reports, (k - 1) as nat, wide);
        if is_wide(reports[k - 1]) == wide {
            before + report_record(reports[k - 1])
        } else {
            before
        }
    }
}

/// Header, templates and receiver record, with the length field given.
#[verifier::opaque]
pub open spec fn preamble(rx: Station, len: int, now: u32, seq: u32, domain: u32) -> Seq<u8> {
    be16(0x000A) + be16(len) + be32(now as int) + be32(seq as int) + be32(domain as int)
        + set_bytes(2, sender_fields(4)) + set_bytes(3, receiver_fields()) + set_bytes(
        0x5002,
        station_record(rx),
    )
}

/// A set of records, or nothing where there are none.
pub open spec fn record_set(id: int, records: Seq<u8>) -> Seq<u8> {
    if records.len() == 0 {
        Seq::empty()
    } else {
        set_bytes(id, records)
    }
}

/// The datagram that carries the first `k` reports, with the length field
/// given.
pub open spec fn packet_with(
    rx: Station,
    reports: Seq<Report>,
    k: nat,
    len: int,
    now: u32,
    seq: u32,
    domain: u32,
) -> Seq<u8> {
    let narrow = records(reports, k, false);
    let wide = records(reports, k, true);
    preamble(rx, len, now, seq, domain) + (if wide.len() == 0 {
        Seq::empty()
    } else {
        set_bytes(2, sender_fields(5))
    }) + record_set(0x5001, narrow) + record_set(0x5003, wide)
}

/// The datagram that carries the first `k` reports.
pub open spec fn packet(
    rx: Station,
    reports: Seq<Report>,
    k: nat,
    now: u32,
    seq: u32,
    domain: u32,
) -> Seq<u8> {
    packet_with(
        rx,
        reports,
        k,
        packet_with(rx, reports, k, 0, now, seq, domain).len() as int,
        now,
        seq,
        domain,
    )
}

/// Whether a datagram with the first `k` reports fits the smallest path it might
/// cross.
pub open spec fn fits_one(rx: Station, reports: Seq<Report>, k: nat) -> bool {
    packet_with(rx, reports, k, 0, 0, 0, 0).len() <= 1400
}

/// How many reports one datagram takes: as many as fit, from the front of the
/// batch on.
pub open spec fn is_take(rx: Station, reports: Seq<Report>, k: nat) -> bool {
    &&& k <= reports.len()
    &&& fits_one(rx, reports, k)
    &&& forall|j: nat| k < j <= reports.len() ==> !#[trigger] fits_one(rx, reports, j)
}

/// The bytes that a set of `n` bytes of records takes up.
pub open spec fn set_size(n: int) -> int {
    if n == 0 {
        0
    } else {
        4 + n + padding(4 + n)
    }
}

/// The bytes that a datagram takes up with so many bytes of records of each
/// width, behind a preamble of `base`.
pub open spec fn packet_size(base: int, narrow: int, wide: int) -> int {
    base + (if wide == 0 {
        0int
    } else {
        60int
    }) + set_size(narrow) + set_size(wide)
}

proof fn lemma_packet_size(
    rx: Station,
    reports: Seq<Report>,
    k: nat,
    len: int,
    now: u32,
    seq: u32,
    domain: u32,
)
    ensures
        packet_with(rx, reports, k, len, now, seq, domain).len() == packet_size(
            preamble(rx, 0, 0, 0, 0).len() as int,
            records(reports, k, false).len() as int,
            records(reports, k, true).len() as int,
        ),
{
    lemma_preamble_len(rx, len, now, seq, domain);
}

proof fn lemma_set_size_rises(m: int, n: int)
    requires
        0 <= m <= n,
    ensures
        0 <= set_size(m) <= set_size(n),
{
    assert(padding(4 + m) == (4 - (4 + m) % 4) % 4);
    assert(padding(4 + n) == (4 - (4 + n) % 4) % 4);
}

proof fn lemma_packet_size_rises(base: int, n1: int, w1: int, n2: int, w2: int)
    requires
        0 <= n1 <= n2,
        0 <= w1 <= w2,
    ensures
        packet_size(base, n1, w1) <= packet_size(base, n2, w2),
{
    lemma_set_size_rises(n1, n2);
    lemma_set_size_rises(w1, w2);
}

proof fn lemma_records_rise(reports: Seq<Report>, k: nat, j: nat, wide: bool)
    requires
        k <= j,
    ensures
        records(reports, k, wide).len() <= records(reports, j, wide).len(),
    decreases j,
{
    if k < j {
        lemma_records_rise(reports, k, (j - 1) as nat, wide);
    }
}

/// A longer prefix takes up more.
proof fn lemma_size_rises(rx: Station, reports: Seq<Report>, k: nat, j: nat)
    requires
        k <= j,
    ensures
        fits_one(rx, reports, j) ==> fits_one(rx, reports, k),
{
    lemma_packet_size(rx, reports, j, 0, 0, 0, 0);
    lemma_packet_size(rx, reports, k, 0, 0, 0, 0);
    lemma_records_rise(reports, k, j, false);
    lemma_records_rise(reports, k, j, true);
    lemma_packet_size_rises(
        preamble(rx, 0, 0, 0, 0).len() as int,
        records(reports, k, false).len() as int,
        records(reports, k, true).len() as int,
        records(reports, j, false).len() as int,
        records(reports, j, true).len() as int,
    );
}

#[verifier::spinoff_prover]
#[verifier::rlimit(40)]
pub proof fn lemma_preamble_len(rx: Station, len: int, now: u32, seq: u32, domain: u32)
    ensures
        preamble(rx, len, now, seq, domain).len() == preamble(rx, 0, 0, 0, 0).len(),
        128 <= preamble(rx, len, now, seq, domain).len() <= 372,
        set_bytes(2, sender_fields(4)).len() == 60,
        set_bytes(2, sender_fields(5)).len() == 60,
        set_bytes(3, receiver_fields()).len() == 44,
{
    reveal(preamble);
    lemma_string_field_len(rx.call@);
    lemma_string_field_len(rx.grid@);
    lemma_string_field_len(rx.software@);
    lemma_string_field_len(rx.antenna@);
    assert(sender_fields(4).len() == 56);
    assert(sender_fields(5).len() == 56);
    assert(receiver_fields().len() == 38);
    sets_are_aligned(0x5002, station_record(rx));
}

fn append_bytes(out: &mut Vec<u8>, more: &Vec<u8>)
    ensures
        final(out)@ == old(out)@ + more@,
{
    let ghost before = out@;
    let mut i: usize = 0;
    while i < more.len()
        invariant
            i <= more@.len(),
            out@ == before + more@.take(i as int),
        decreases more@.len() - i,
    {
        out.push(more[i]);
        i = i + 1;
        assert(out@ =~= before + more@.take(i as int));
    }
    assert(more@.take(more@.len() as int) =~= more@);
}

/// The record of one report, after what is already there.
fn push_report(buf: &mut Vec<u8>, r: &Report)
    ensures
        final(buf)@ == old(buf)@ + report_record(*r),
{
    reveal(report_record);
    let ghost before = buf@;
    push_str(buf, r.call.as_str());
    if r.freq_hz > NARROW_FREQ_MAX {
        push_u40(buf, r.freq_hz);
    } else {
        push_u32(buf, r.freq_hz as u32);
    }
    buf.push(
        if r.snr_db < 0 {
            (r.snr_db as i16 + 256) as u8
        } else {
            r.snr_db as u8
        },
    );
    push_str(buf, r.mode.as_str());
    push_str(buf, r.grid.as_str());
    buf.push(1);  // informationSource: 1 = automatically decoded
    push_u32(buf, r.when_utc);
    assert(buf@ =~= before + report_record(*r));
}

/// A set of records after what is already there, if there are any.
fn push_record_set(out: &mut Vec<u8>, id: u16, records: &Vec<u8>)
    requires
        old(out)@.len() + records@.len() < 0xF000,
    ensures
        final(out)@ == old(out)@ + record_set(id as int, records@),
{
    let ghost before = out@;
    if records.len() == 0 {
        assert(out@ =~= before + record_set(id as int, records@));
        return;
    }
    let start: usize = out.len();
    push_u16(out, id);
    push_u16(out, 0);
    append_bytes(out, records);
    proof {
        assert(out@ =~= before + be16(id as int) + be16(0) + records@);
        assert(out@.take(start as int) =~= before);
    }
    close_set(out, start, Ghost(id as int), Ghost(records@));
}

/// Header, both templates and our receiver record, with no length yet.
fn start_packet(rx: &Station, now_utc: u32, seq: u32, domain: u32) -> (out: Vec<u8>)
    ensures
        out@ == preamble(*rx, 0, now_utc, seq, domain),
{
    reveal(preamble);
    let mut out: Vec<u8> = Vec::new();
    push_u16(&mut out, 0x000A);  // IPFIX version
    push_u16(&mut out, 0);  // length
    push_u32(&mut out, now_utc);
    push_u32(&mut out, seq);
    push_u32(&mut out, domain);
    let ghost header = be16(0x000A) + be16(0) + be32(now_utc as int) + be32(seq as int) + be32(
        domain as int,
    );
    assert(out@ =~= header);
    // Both templates travel in every packet: they cost about 100 bytes and
    // mean a datagram is never orphaned by an earlier one going missing.
    sender_template(&mut out, 4);
    proof {
        lemma_preamble_len(*rx, 0, now_utc, seq, domain);
    }
    receiver_template(&mut out);
    // Receiver record.
    let mut us: Vec<u8> = Vec::new();
    push_str(&mut us, rx.call.as_str());
    push_str(&mut us, rx.grid.as_str());
    push_str(&mut us, rx.software.as_str());
    push_str(&mut us, rx.antenna.as_str());
    proof {
        lemma_string_field_len(rx.call@);
        lemma_string_field_len(rx.grid@);
        lemma_string_field_len(rx.software@);
        lemma_string_field_len(rx.antenna@);
        assert(us@ =~= station_record(*rx));
    }
    push_record_set(&mut out, TEMPLATE_RECEIVER, &us);
    out
}

fn size_of_set(n: usize) -> (r: usize)
    requires
        n <= 0xF000,
    ensures
        r == set_size(n as int),
        r <= n + 7,
{
    if n == 0 {
        0
    } else {
        4 + n + (4 - (4 + n) % 4) % 4
    }
}

fn size_of_packet(base: usize, narrow: usize, wide: usize) -> (r: usize)
    requires
        base <= 400,
        narrow <= 2000,
        wide <= 2000,
    ensures
        r == packet_size(base as int, narrow as int, wide as int),
{
    let template: usize = if wide == 0 {
        0
    } else {
        60
    };
    base + template + size_of_set(narrow) + size_of_set(wide)
}

/// Reception reports, as many as one datagram takes behind a preamble of `base`
/// bytes. Each goes into the set whose frequency field can hold it, still in the
/// order they were given so a packet always consumes a prefix of the batch: the
/// narrow records, the wide records and how many reports they are.
fn fill_records(reports: &[Report], base: usize, Ghost(rx): Ghost<Station>) -> (r: (
    Vec<u8>,
    Vec<u8>,
    usize,
))
    requires
        base == preamble(rx, 0, 0, 0, 0).len(),
        base <= 372,
    ensures
        is_take(rx, reports@, r.2 as nat),
        reports@.len() > 0 ==> r.2 > 0,
        r.0@ == records(reports@, r.2 as nat, false),
        r.1@ == records(reports@, r.2 as nat, true),
        packet_size(base as int, r.0@.len() as int, r.1@.len() as int) <= 1400,
{
    let mut narrow: Vec<u8> = Vec::new();
    let mut wide: Vec<u8> = Vec::new();
    let mut used: usize = 0;
    let mut full: bool = false;
    proof {
        lemma_packet_size(rx, reports@, 0, 0, 0, 0, 0);
    }
    while used < reports.len() && !full
        invariant
            used <= reports@.len(),
            base == preamble(rx, 0, 0, 0, 0).len(),
            base <= 372,
            narrow@ == records(reports@, used as nat, false),
            wide@ == records(reports@, used as nat, true),
            packet_size(base as int, narrow@.len() as int, wide@.len() as int) <= 1400,
            fits_one(rx, reports@, used as nat),
            full ==> used < reports@.len() && !fits_one(rx, reports@, (used + 1) as nat),
            used == 0 ==> !full,
        decreases reports@.len() - used + (if full {
            0int
        } else {
            1int
        }),
    {
        let mut one: Vec<u8> = Vec::new();
        push_report(&mut one, &reports[used]);
        let ghost r = reports@[used as int];
        let ghost (n0, w0) = (narrow@, wide@);
        let widened: bool = reports[used].freq_hz > NARROW_FREQ_MAX;
        proof {
            lemma_record_len(r);
            assert(one@ =~= report_record(r));
            if is_wide(r) {
                assert(records(reports@, (used + 1) as nat, true) == w0 + report_record(r));
                assert(records(reports@, (used + 1) as nat, false) == n0);
            } else {
                assert(records(reports@, (used + 1) as nat, false) == n0 + report_record(r));
                assert(records(reports@, (used + 1) as nat, true) == w0);
            }
            lemma_packet_size(rx, reports@, (used + 1) as nat, 0, 0, 0, 0);
        }
        let size: usize = if widened {
            size_of_packet(base, narrow.len(), wide.len() + one.len())
        } else {
            size_of_packet(base, narrow.len() + one.len(), wide.len())
        };
        if size > MAX_PACKET {
            full = true;  // doesn't fit: leave it for the next packet
        } else {
            if widened {
                append_bytes(&mut wide, &one);
            } else {
                append_bytes(&mut narrow, &one);
            }
            used = used + 1;
        }
    }
    proof {
        assert forall|j: nat| used < j <= reports@.len() implies !#[trigger] fits_one(
            rx,
            reports@,
            j,
        ) by {
            lemma_size_rises(rx, reports@, (used + 1) as nat, j);
        }
    }
    (narrow, wide, used)
}

/// Build one datagram: header, both templates, our receiver record, and as
/// many reports as fit. Returns the packet and how many reports it took.
///
/// `seq` is the number of data records sent before this packet and `domain` a
/// per-session identifier; both are IPFIX bookkeeping the collector uses to
/// spot lost datagrams.
pub fn encode_packet(
    rx: &Station,
    reports: &[Report],
    now_utc: u32,
    seq: u32,
    domain: u32,
) -> (r: (Vec<u8>, usize))
    ensures
        is_take(*rx, reports@, r.1 as nat),
        r.0@ == packet(*rx, reports@, r.1 as nat, now_utc, seq, domain),
        r.0@.len() <= 1400,
        reports@.len() > 0 ==> r.1 > 0,
{
    let mut out: Vec<u8> = start_packet(rx, now_utc, seq, domain);
    let ghost pre = out@;
    proof {
        lemma_preamble_len(*rx, 0, now_utc, seq, domain);
    }
    // The third template, the same report with a 5-byte frequency, is built
    // here but only spliced in below if a report actually needs it.
    let mut wide_template: Vec<u8> = Vec::new();
    sender_template(&mut wide_template, 5);
    let ghost extra = set_bytes(2, sender_fields(5));
    assert(wide_template@ =~= extra);
    let base: usize = out.len();
    let (narrow, wide, used): (Vec<u8>, Vec<u8>, usize) = fill_records(reports, base, Ghost(*rx));
    proof {
        sets_are_aligned(0x5001, narrow@);
        sets_are_aligned(0x5003, wide@);
    }
    // A widened report needs its template, and only then.
    if wide.len() > 0 {
        append_bytes(&mut out, &wide_template);
    }
    push_record_set(&mut out, TEMPLATE_SENDER, &narrow);
    push_record_set(&mut out, TEMPLATE_SENDER_WIDE, &wide);
    let ghost body = (if wide@.len() == 0 {
        Seq::empty()
    } else {
        extra
    });
    let ghost k = used as nat;
    assert(out@ =~= pre + body + record_set(0x5001, narrow@) + record_set(0x5003, wide@));
    assert(out@ == packet_with(*rx, reports@, k, 0, now_utc, seq, domain));
    let total: u16 = out.len() as u16;
    out.set(2, (total / 0x100 % 0x100) as u8);
    out.set(3, (total % 0x100) as u8);
    proof {
        lemma_patched(*rx, total as int, now_utc, seq, domain);
        let done = preamble(*rx, total as int, now_utc, seq, domain);
        assert(out@ =~= done + body + record_set(0x5001, narrow@) + record_set(0x5003, wide@));
    }
    (out, used)
}

/// What comes after the length field in the preamble.
#[verifier::opaque]
spec fn after_length(rx: Station, now: u32, seq: u32, domain: u32) -> Seq<u8> {
    be32(now as int) + be32(seq as int) + be32(domain as int) + set_bytes(2, sender_fields(4))
        + set_bytes(3, receiver_fields()) + set_bytes(0x5002, station_record(rx))
}

proof fn lemma_joins(a: Seq<u8>, b: Seq<u8>, c: Seq<u8>)
    ensures
        a + b + c == a + (b + c),
{
    assert(a + b + c =~= a + (b + c));
}

/// A head joined with six parts in turn is the head joined with all of them.
proof fn lemma_joins_six(
    head: Seq<u8>,
    a: Seq<u8>,
    b: Seq<u8>,
    c: Seq<u8>,
    d: Seq<u8>,
    e: Seq<u8>,
    f: Seq<u8>,
)
    ensures
        head + a + b + c + d + e + f == head + (a + b + c + d + e + f),
{
    lemma_joins(head, a, b);
    lemma_joins(head, a + b, c);
    lemma_joins(head, a + b + c, d);
    lemma_joins(head, a + b + c + d, e);
    lemma_joins(head, a + b + c + d + e, f);
}

proof fn lemma_preamble_splits(rx: Station, len: int, now: u32, seq: u32, domain: u32)
    ensures
        preamble(rx, len, now, seq, domain) == be16(0x000A) + be16(len) + after_length(
            rx,
            now,
            seq,
            domain,
        ),
{
    reveal(preamble);
    reveal(after_length);
    lemma_joins_six(
        be16(0x000A) + be16(len),
        be32(now as int),
        be32(seq as int),
        be32(domain as int),
        set_bytes(2, sender_fields(4)),
        set_bytes(3, receiver_fields()),
        set_bytes(0x5002, station_record(rx)),
    );
}

proof fn lemma_length_field(rest: Seq<u8>, len: int)
    ensures
        be16(0x000A) + be16(len) + rest == (be16(0x000A) + be16(0) + rest).update(
            2,
            (len / 0x100 % 0x100) as u8,
        ).update(3, (len % 0x100) as u8),
{
    assert(be16(0x000A) + be16(len) + rest =~= (be16(0x000A) + be16(0) + rest).update(
        2,
        (len / 0x100 % 0x100) as u8,
    ).update(3, (len % 0x100) as u8));
}

/// Two bytes of the preamble are its length field.
proof fn lemma_patched(rx: Station, len: int, now: u32, seq: u32, domain: u32)
    ensures
        preamble(rx, len, now, seq, domain) == preamble(rx, 0, now, seq, domain).update(
            2,
            (len / 0x100 % 0x100) as u8,
        ).update(3, (len % 0x100) as u8),
{
    lemma_preamble_splits(rx, len, now, seq, domain);
    lemma_preamble_splits(rx, 0, now, seq, domain);
    lemma_length_field(after_length(rx, now, seq, domain), len);
}

/// A datagram starts with its preamble.
proof fn lemma_packet_head(
    rx: Station,
    reports: Seq<Report>,
    k: nat,
    len: int,
    now: u32,
    seq: u32,
    domain: u32,
)
    ensures
        packet_with(rx, reports, k, len, now, seq, domain).take(4) == preamble(
            rx,
            len,
            now,
            seq,
            domain,
        ).take(4),
{
    lemma_preamble_len(rx, len, now, seq, domain);
    assert(packet_with(rx, reports, k, len, now, seq, domain).take(4) =~= preamble(
        rx,
        len,
        now,
        seq,
        domain,
    ).take(4));
}

/// The two bytes of the length field, in the preamble.
proof fn lemma_length_bytes(rx: Station, len: int, now: u32, seq: u32, domain: u32)
    requires
        0 <= len < 0x1_0000,
    ensures
        256 * preamble(rx, len, now, seq, domain).take(4)[2] + preamble(
            rx,
            len,
            now,
            seq,
            domain,
        ).take(4)[3] == len,
{
    lemma_preamble_len(rx, 0, now, seq, domain);
    lemma_patched(rx, len, now, seq, domain);
}

/// A datagram fits the smallest path it might cross, and the length in its
/// header is its own.
pub proof fn the_header_states_the_length(
    rx: Station,
    reports: Seq<Report>,
    k: nat,
    now: u32,
    seq: u32,
    domain: u32,
)
    requires
        fits_one(rx, reports, k),
    ensures
        packet(rx, reports, k, now, seq, domain).len() <= 1400,
        256 * packet(rx, reports, k, now, seq, domain)[2] + packet(
            rx,
            reports,
            k,
            now,
            seq,
            domain,
        )[3] == packet(rx, reports, k, now, seq, domain).len(),
{
    let n = packet_with(rx, reports, k, 0, now, seq, domain).len() as int;
    lemma_packet_size(rx, reports, k, 0, 0, 0, 0);
    lemma_packet_size(rx, reports, k, 0, now, seq, domain);
    lemma_packet_size(rx, reports, k, n, now, seq, domain);
    lemma_preamble_len(rx, n, now, seq, domain);
    lemma_packet_head(rx, reports, k, n, now, seq, domain);
    lemma_length_bytes(rx, n, now, seq, domain);
    let head = packet(rx, reports, k, now, seq, domain).take(4);
    assert(head[2] == packet(rx, reports, k, now, seq, domain)[2]);
    assert(head[3] == packet(rx, reports, k, now, seq, domain)[3]);
}

// ---------------------------------------------------------------------------
// The batch
// ---------------------------------------------------------------------------

/// Where each amateur band begins, in Hz, from 2200 m to 1 mm. What lies between
/// two bands counts with the lower one.
pub const BAND_FLOORS: [u64; 30] = [
    135_700, 472_000, 1_800_000, 3_500_000, 5_250_000, 7_000_000, 10_100_000, 14_000_000,
    18_068_000, 21_000_000, 24_890_000, 28_000_000, 40_000_000, 50_000_000, 70_000_000, 144_000_000,
    219_000_000, 420_000_000, 902_000_000, 1_240_000_000, 2_300_000_000, 3_300_000_000,
    5_650_000_000, 10_000_000_000, 24_000_000_000, 47_000_000_000, 76_000_000_000, 122_250_000_000,
    134_000_000_000, 241_000_000_000,
];

/// How many of the first `n` bands begin at or below a frequency.
pub open spec fn bands_begun(hz: u64, n: nat) -> nat
    decreases n,
{
    if n == 0 {
        0
    } else {
        bands_begun(hz, (n - 1) as nat) + (if BAND_FLOORS@[n - 1] <= hz {
            1nat
        } else {
            0nat
        })
    }
}

/// The band that a frequency is on.
pub open spec fn band(hz: u64) -> nat {
    bands_begun(hz, 30)
}

/// The band that a frequency is on, counted from the lowest.
pub fn band_of(hz: u64) -> (r: usize)
    ensures
        r == band(hz),
        r <= 30,
{
    let mut n: usize = 0;
    let mut i: usize = 0;
    while i < 30
        invariant
            i <= 30,
            n <= i,
            n == bands_begun(hz, i as nat),
        decreases 30 - i,
    {
        if BAND_FLOORS[i] <= hz {
            n = n + 1;
        }
        i = i + 1;
    }
    n
}

/// Whether two reports are of one station on one band.
pub open spec fn same_station(a: Report, b: Report) -> bool {
    a.call@ == b.call@ && band(a.freq_hz) == band(b.freq_hz)
}

/// One entry per callsign per band.
pub open spec fn entries_distinct(pending: Seq<Report>) -> bool {
    forall|i: int, j: int|
        0 <= i < j < pending.len() ==> !same_station(#[trigger] pending[i], #[trigger] pending[j])
}

/// The first entry of the batch that is of the same station; the length of the
/// batch when there is none.
pub open spec fn entry_for(pending: Seq<Report>, r: Report, from: int) -> int
    decreases pending.len() - from,
{
    if from >= pending.len() {
        pending.len() as int
    } else if same_station(pending[from], r) {
        from
    } else {
        entry_for(pending, r, from + 1)
    }
}

/// The batch with a report folded in.
pub open spec fn folded(pending: Seq<Report>, r: Report) -> Seq<Report> {
    let i = entry_for(pending, r, 0);
    if i < pending.len() {
        if r.snr_db >= pending[i].snr_db {
            pending.update(i, r)
        } else {
            pending
        }
    } else if pending.len() < 512 {
        pending.push(r)
    } else {
        pending
    }
}

/// Fold a report into the pending batch: one entry per callsign per band, the
/// strongest signal winning, since that is the report the network keeps
/// anyway.
pub fn merge(pending: &mut Vec<Report>, r: Report)
    ensures
        final(pending)@ == folded(old(pending)@, r),
{
    let on: usize = band_of(r.freq_hz);
    let mut i: usize = 0;
    while i < pending.len()
        invariant
            i <= pending@.len(),
            on == band(r.freq_hz),
            pending@ == old(pending)@,
            entry_for(pending@, r, 0) == entry_for(pending@, r, i as int),
        decreases pending@.len() - i,
    {
        if band_of(pending[i].freq_hz) == on && pending[i].call == r.call {
            if r.snr_db >= pending[i].snr_db {
                pending.set(i, r);
            }
            return;
        }
        i = i + 1;
    }
    if pending.len() < MAX_PENDING {
        pending.push(r);
    }
}

/// The batch never grows past its limit, and a report never makes an entry
/// weaker or drops one.
pub proof fn folding_keeps_the_batch(pending: Seq<Report>, r: Report, i: int)
    requires
        pending.len() <= 512,
        0 <= i < pending.len(),
    ensures
        pending.len() <= folded(pending, r).len() <= 512,
        folded(pending, r)[i].snr_db >= pending[i].snr_db,
        same_station(folded(pending, r)[i], pending[i]),
{
    lemma_entry(pending, r, 0);
}

/// The batch holds one entry per callsign per band, whatever is folded in.
pub proof fn one_entry_per_callsign_per_band(pending: Seq<Report>, r: Report)
    requires
        entries_distinct(pending),
    ensures
        entries_distinct(folded(pending, r)),
{
    lemma_entry(pending, r, 0);
    let f = folded(pending, r);
    let e = entry_for(pending, r, 0);
    assert forall|i: int, j: int| 0 <= i < j < f.len() implies !same_station(
        #[trigger] f[i],
        #[trigger] f[j],
    ) by {
        if e < pending.len() {
            assert(same_station(f[i], pending[i]) && same_station(f[j], pending[j]));
            assert(!same_station(pending[i], pending[j]));
        } else if j < pending.len() {
            assert(!same_station(pending[i], pending[j]));
        } else {
            lemma_no_entry(pending, r, 0, i);
        }
    }
}

proof fn lemma_no_entry(pending: Seq<Report>, r: Report, from: int, i: int)
    requires
        0 <= from <= i < pending.len(),
        entry_for(pending, r, from) == pending.len(),
    ensures
        !same_station(pending[i], r),
    decreases pending.len() - from,
{
    if from < i {
        lemma_no_entry(pending, r, from + 1, i);
    }
}

/// A report of a station that is in the batch is represented there at least as
/// strongly afterwards.
pub proof fn the_batch_keeps_the_strongest(pending: Seq<Report>, r: Report)
    requires
        pending.len() < 512,
    ensures
        exists|i: int|
            0 <= i < folded(pending, r).len() && #[trigger] folded(pending, r)[i].snr_db
                >= r.snr_db && same_station(folded(pending, r)[i], r),
{
    lemma_entry(pending, r, 0);
    let i = entry_for(pending, r, 0);
    let f = folded(pending, r);
    assert(f[i].snr_db >= r.snr_db && same_station(f[i], r));
}

proof fn lemma_entry(pending: Seq<Report>, r: Report, from: int)
    requires
        0 <= from <= pending.len(),
    ensures
        from <= entry_for(pending, r, from) <= pending.len(),
        entry_for(pending, r, from) < pending.len() ==> same_station(
            pending[entry_for(pending, r, from)],
            r,
        ),
    decreases pending.len() - from,
{
    if from < pending.len() && !same_station(pending[from], r) {
        lemma_entry(pending, r, from + 1);
    }
}

// ---------------------------------------------------------------------------
// The upload worker
// ---------------------------------------------------------------------------

/// Whether a host is the one to send to when `host` is configured.
pub open spec fn is_collector(host: Seq<char>, r: Seq<char>) -> bool {
    r == (if trimmed(host).len() == 0 {
        "report.pskreporter.info"@
    } else {
        trimmed(host)
    })
}

/// Whether a port is the one to send to when `port` is configured.
pub open spec fn is_collector_port(port: u16, r: u16) -> bool {
    r == (if port == 0 {
        4739
    } else {
        port
    })
}

/// Whether this is the time between packets when `configured` is.
pub open spec fn is_interval(configured: u32, r: u64) -> bool {
    r == (if configured < 300 {
        300
    } else {
        configured as int
    })
}

/// The collector to send to: the configured one, or PSK Reporter's own.
pub fn collector_host(host: &str) -> (r: String)
    ensures
        r@ == (if trimmed(host@).len() == 0 {
            "report.pskreporter.info"@
        } else {
            trimmed(host@)
        }),
        is_collector(host@, r@),
{
    let t: &str = trim(host);
    if t.is_empty() {
        String::from_str("report.pskreporter.info")
    } else {
        String::from_str(t)
    }
}

pub fn collector_port(port: u16) -> (r: u16)
    ensures
        r == (if port == 0 {
            4739
        } else {
            port
        }),
        is_collector_port(port, r),
{
    if port == 0 {
        4739
    } else {
        port
    }
}

/// Seconds between packets: what is configured, floored at the collector's
/// five-minute minimum.
pub fn upload_interval_secs(configured: u32) -> (r: u64)
    ensures
        r == (if configured < 300 {
            300
        } else {
            configured as int
        }),
        is_interval(configured, r),
{
    if (configured as u64) < MIN_INTERVAL_S {
        MIN_INTERVAL_S
    } else {
        configured as u64
    }
}

/// One step of the hash behind the observation domain.
pub open spec fn hash_step(h: u32, b: u8) -> u32 {
    (((h ^ b as u32) * 16_777_619) % 0x1_0000_0000) as u32
}

pub open spec fn hash_of(bytes: Seq<u8>) -> u32
    decreases bytes.len(),
{
    if bytes.len() == 0 {
        2_166_136_261
    } else {
        hash_step(hash_of(bytes.drop_last()), bytes.last())
    }
}

fn hash_more(h: u32, b: u8) -> (r: u32)
    ensures
        r == hash_step(h, b),
{
    (h ^ b as u32).wrapping_mul(16_777_619)
}

/// The observation domain of a session.
pub open spec fn domain_of(call: Seq<char>, start_utc: u32) -> u32 {
    hash_of(encode_utf8(call) + be32(start_utc as int)) | 1
}

/// A per-session observation domain, from the callsign and the start time:
/// constant for a run, different from the last one, and never zero.
pub fn observation_domain(call: &str, start_utc: u32) -> (r: u32)
    ensures
        r == hash_of(encode_utf8(call@) + be32(start_utc as int)) | 1,
        r == domain_of(call@, start_utc),
{
    let b: &[u8] = call.as_bytes();
    let mut h: u32 = 2_166_136_261;
    let mut i: usize = 0;
    assert(b@.take(0) =~= Seq::empty());
    while i < b.len()
        invariant
            i <= b@.len(),
            h == hash_of(b@.take(i as int)),
        decreases b@.len() - i,
    {
        h = hash_more(h, b[i]);
        i = i + 1;
        assert(b@.take(i as int).drop_last() =~= b@.take(i - 1));
    }
    assert(b@.take(b@.len() as int) =~= b@);
    let mut tail: Vec<u8> = Vec::new();
    push_u32(&mut tail, start_utc);
    assert(tail@ =~= be32(start_utc as int));
    let ghost all = b@ + tail@;
    assert(all.take(b@.len() as int) =~= b@);
    let mut k: usize = 0;
    while k < tail.len()
        invariant
            k <= tail@.len(),
            all == b@ + tail@,
            h == hash_of(all.take(b@.len() + k)),
        decreases tail@.len() - k,
    {
        h = hash_more(h, tail[k]);
        k = k + 1;
        assert(all.take(b@.len() + k).drop_last() =~= all.take(b@.len() + k - 1));
    }
    assert(all.take(all.len() as int) =~= all);
    h | 1
}

/// The uploader's state between packets.
pub struct Uploader {
    pub rx: Station,
    pub domain: u32,
    pub pending: Vec<Report>,
    /// Data records sent so far.
    pub seq: u32,
    /// The last outage has been reported.
    pub reported_error: bool,
}

/// What the status line says of `n` uploaded reports.
pub open spec fn uploaded_text(n: nat) -> Seq<char> {
    "PSK Reporter: "@ + dec(n) + " report"@ + (if n == 1 {
        ""@
    } else {
        "s"@
    }) + " uploaded"@
}

/// Whether a datagram of `used` reports was counted: its reports, and the
/// receiver's record.
pub open spec fn counted(was: Uploader, used: usize, after: Uploader) -> bool {
    after == (Uploader { seq: ((was.seq + used + 1) % 0x1_0000_0000) as u32, ..was })
}

/// Whether the outcome of a batch was told, a failure once per outage.
pub open spec fn outcome_told(
    was: Uploader,
    outcome: Result<usize, String>,
    told: Option<String>,
    after: Uploader,
) -> bool {
    &&& after == (Uploader { reported_error: outcome is Err, ..was })
    &&& told is None <==> outcome is Err && was.reported_error
    &&& outcome matches Ok(n) ==> told is Some && told->0@ == uploaded_text(n as nat)
    &&& outcome matches Err(e) ==> (told is Some ==> told->0@ == "PSK Reporter: "@ + e@)
}

/// Whether the batch goes out.
pub open spec fn goes_out(u: Uploader, due: bool, stopping: bool) -> bool {
    (due || stopping) && u.pending@.len() > 0
}

impl Uploader {
    pub fn new(rx: Station, start_utc: u32) -> (r: Uploader)
        ensures
            r.rx == rx,
            r.domain == hash_of(encode_utf8(rx.call@) + be32(start_utc as int)) | 1,
            r.domain == domain_of(rx.call@, start_utc),
            r.pending@.len() == 0,
            r.seq == 0,
            !r.reported_error,
    {
        let domain: u32 = observation_domain(rx.call.as_str(), start_utc);
        Uploader { rx, domain, pending: Vec::new(), seq: 0, reported_error: false }
    }

    /// A station was heard.
    pub fn heard(&mut self, r: Report)
        ensures
            *final(self) == (Uploader { pending: final(self).pending, ..*old(self) }),
            final(self).pending@ == folded(old(self).pending@, r),
    {
        merge(&mut self.pending, r);
    }

    /// Whether the batch goes out now: it is due or the uploader is stopping,
    /// and there is something to send.
    pub fn wants_send(&self, due: bool, stopping: bool) -> (r: bool)
        ensures
            r == ((due || stopping) && self.pending@.len() > 0),
            r == goes_out(*self, due, stopping),
    {
        (due || stopping) && self.pending.len() > 0
    }

    /// Take the batch out.
    pub fn take_batch(&mut self) -> (r: Vec<Report>)
        ensures
            r@ == old(self).pending@,
            final(self).pending@.len() == 0,
            *final(self) == (Uploader { pending: final(self).pending, ..*old(self) }),
    {
        let mut batch: Vec<Report> = Vec::new();
        std::mem::swap(&mut batch, &mut self.pending);
        batch
    }

    /// The next datagram of a batch of which `sent` reports have gone out, and
    /// how many it takes. The sequence number counts the records that went
    /// before: reports, plus a receiver record per datagram.
    pub fn next_packet(&mut self, batch: &[Report], sent: usize, now_utc: u32) -> (r: (
        Vec<u8>,
        usize,
    ))
        requires
            sent < batch@.len(),
        ensures
            r.1 > 0,
            is_take(old(self).rx, batch@.skip(sent as int), r.1 as nat),
            r.0@ == packet(
                old(self).rx,
                batch@.skip(sent as int),
                r.1 as nat,
                now_utc,
                old(self).seq,
                old(self).domain,
            ),
            r.0@.len() <= 1400,
            *final(self) == *old(self),
    {
        let rest: &[Report] = vstd::slice::slice_subrange(batch, sent, batch.len());
        assert(rest@ =~= batch@.skip(sent as int));
        encode_packet(&self.rx, rest, now_utc, self.seq, self.domain)
    }

    /// A datagram with `used` reports has gone out.
    pub fn packet_sent(&mut self, used: usize)
        requires
            used <= 1400,
        ensures
            *final(self) == (Uploader {
                seq: ((old(self).seq + used + 1) % 0x1_0000_0000) as u32,
                ..*old(self)
            }),
            counted(*old(self), used, *final(self)),
    {
        self.seq = self.seq.wrapping_add(used as u32 + 1);
    }

    /// What to show after a batch: how many reports went out, or why it
    /// failed, once per outage rather than once per interval.
    pub fn batch_done(&mut self, outcome: Result<usize, String>) -> (r: Option<String>)
        ensures
            outcome matches Ok(n) ==> !final(self).reported_error && r is Some && r->0@
                == uploaded_text(n as nat),
            outcome matches Err(e) ==> {
                &&& final(self).reported_error
                &&& old(self).reported_error ==> r is None
                &&& !old(self).reported_error ==> r is Some && r->0@ == "PSK Reporter: "@ + e@
            },
            *final(self) == (Uploader { reported_error: final(self).reported_error, ..*old(self) }),
            outcome_told(*old(self), outcome, r, *final(self)),
    {
        match outcome {
            Ok(n) => {
                self.reported_error = false;
                let mut s: String = String::from_str("PSK Reporter: ");
                s.append(decimal(n as u64).as_str());
                s.append(" report");
                s.append(
                    if n == 1 {
                        ""
                    } else {
                        "s"
                    },
                );
                s.append(" uploaded");
                Some(s)
            },
            Err(e) => {
                if self.reported_error {
                    None
                } else {
                    self.reported_error = true;
                    let mut s: String = String::from_str("PSK Reporter: ");
                    s.append(e.as_str());
                    Some(s)
                }
            },
        }
    }
}

} // verus!
