//! What a collector finds in the reception reports sent to it.
//!
//! A reader of IPFIX is told nothing but the datagram: it takes the sets apart
//! by their lengths, learns the fields of each kind of record from the template
//! sets, and then reads the records field by field. The laws say what such a
//! reader finds.
use crate::net::pskupload::{
    at_most, band, bands_begun, be16, be32, be40, counted, domain_of, entries_distinct, entry_for,
    field, fits_one, folded, goes_out, hash_of, is_collector, is_collector_port, is_interval,
    is_take, is_wide, lemma_record_len, outcome_told, packet, packet_with, preamble,
    receiver_fields, record_set, records, report_record, same_station, sender_fields, set_bytes,
    sets_are_aligned, signed_byte, station_record, string_field, the_header_states_the_length,
    uploaded_text, Report, Station, Uploader, BAND_FLOORS,
};
use crate::text::{dec, trimmed};
use vstd::prelude::*;
use vstd::utf8::encode_utf8;

verus! {

// ---------------------------------------------------------------------------
// The reader
// ---------------------------------------------------------------------------

/// The number that bytes spell, the first one highest.
pub open spec fn number(b: Seq<u8>) -> int
    decreases b.len(),
{
    if b.len() == 0 {
        0
    } else {
        256 * number(b.drop_last()) + b.last()
    }
}

pub open spec fn num16(d: Seq<u8>, at: int) -> int {
    256 * d[at] + d[at + 1]
}

pub open spec fn num32(d: Seq<u8>, at: int) -> int {
    0x1_0000 * num16(d, at) + num16(d, at + 2)
}

/// A field as a template describes it: whose it is (zero for the common ones),
/// its number, and how long it is; 65535 where each value states its own length.
pub struct FieldSpec {
    pub vendor: int,
    pub id: int,
    pub len: int,
}

/// The fields that a template describes, `n` of them from `at` on. The highest
/// bit of a number says that the vendor follows.
pub open spec fn fields_read(d: Seq<u8>, at: int, n: nat) -> Seq<FieldSpec>
    decreases n,
{
    if n == 0 {
        Seq::empty()
    } else {
        let id = num16(d, at);
        let len = num16(d, at + 2);
        if id >= 0x8000 {
            seq![FieldSpec { vendor: num32(d, at + 4), id: id - 0x8000, len }] + fields_read(
                d,
                at + 8,
                (n - 1) as nat,
            )
        } else {
            seq![FieldSpec { vendor: 0, id, len }] + fields_read(d, at + 4, (n - 1) as nat)
        }
    }
}

/// Where the value of a field that starts at `at` begins.
pub open spec fn value_start(at: int, f: FieldSpec) -> int {
    if f.len == 0xFFFF {
        at + 1
    } else {
        at
    }
}

/// Where the value of a field that starts at `at` ends.
pub open spec fn value_end(d: Seq<u8>, at: int, f: FieldSpec) -> int {
    if f.len == 0xFFFF {
        at + 1 + d[at]
    } else {
        at + f.len
    }
}

/// The values of one record at `at`, field by field.
pub open spec fn values_read(d: Seq<u8>, at: int, fs: Seq<FieldSpec>) -> Seq<Seq<u8>>
    decreases fs.len(),
{
    if fs.len() == 0 {
        Seq::empty()
    } else {
        seq![d.subrange(value_start(at, fs[0]), value_end(d, at, fs[0]))] + values_read(
            d,
            value_end(d, at, fs[0]),
            fs.skip(1),
        )
    }
}

/// Where the record at `at` ends.
pub open spec fn record_end(d: Seq<u8>, at: int, fs: Seq<FieldSpec>) -> int
    decreases fs.len(),
{
    if fs.len() == 0 {
        at
    } else {
        record_end(d, value_end(d, at, fs[0]), fs.skip(1))
    }
}

/// Whether a set with this number and this content stands at `at`: its length
/// covers the content and fewer than four zeros behind it, up to whole words.
pub open spec fn has_set(d: Seq<u8>, at: int, id: int, body: Seq<u8>) -> bool {
    let len = num16(d, at + 2);
    &&& 0 <= at && at + len <= d.len()
    &&& num16(d, at) == id
    &&& len % 4 == 0
    &&& 4 + body.len() <= len < 8 + body.len()
    &&& d.subrange(at + 4, at + 4 + body.len()) == body
    &&& forall|k: int| at + 4 + body.len() <= k < at + len ==> #[trigger] d[k] == 0
}

// ---------------------------------------------------------------------------
// Templates
// ---------------------------------------------------------------------------

pub open spec fn psk(id: int, len: int) -> FieldSpec {
    FieldSpec { vendor: 30351, id, len }
}

/// What the template of a report says, for a frequency of four or five bytes:
/// call, frequency, signal-to-noise ratio, mode, locator, source, and the time.
pub open spec fn report_fields(width: int) -> Seq<FieldSpec> {
    seq![
        psk(1, 0xFFFF),
        psk(5, width),
        psk(6, 1),
        psk(10, 0xFFFF),
        psk(3, 0xFFFF),
        psk(11, 1),
        FieldSpec { vendor: 0, id: 150, len: 4 },
    ]
}

/// What the template of the receiver says: call, locator, software and antenna.
pub open spec fn station_fields() -> Seq<FieldSpec> {
    seq![psk(2, 0xFFFF), psk(4, 0xFFFF), psk(8, 0xFFFF), psk(9, 0xFFFF)]
}

/// Parts, one behind the other.
pub open spec fn joined(parts: Seq<Seq<u8>>) -> Seq<u8>
    decreases parts.len(),
{
    if parts.len() == 0 {
        Seq::empty()
    } else if parts.len() == 1 {
        parts[0]
    } else {
        joined(parts.drop_last()) + parts.last()
    }
}

proof fn lemma_joined_push(parts: Seq<Seq<u8>>, p: Seq<u8>)
    ensures
        joined(parts.push(p)) == joined(parts) + p,
        parts.len() == 0 ==> joined(parts.push(p)) == p,
{
    assert(parts.push(p).drop_last() =~= parts);
    assert(parts.push(p).last() == p);
    if parts.len() == 0 {
        assert(parts.push(p)[0] == p);
        assert(joined(parts) + p =~= p);
    }
}

/// Where part `k` begins.
pub open spec fn part_at(parts: Seq<Seq<u8>>, k: int) -> int
    decreases k,
{
    if k <= 0 {
        0
    } else {
        part_at(parts, k - 1) + parts[k - 1].len()
    }
}

proof fn lemma_joined(parts: Seq<Seq<u8>>, k: int)
    requires
        0 <= k < parts.len(),
    ensures
        0 <= part_at(parts, k),
        part_at(parts, k + 1) <= joined(parts).len(),
        joined(parts).len() == part_at(parts, parts.len() as int),
        joined(parts).subrange(part_at(parts, k), part_at(parts, k + 1)) == parts[k],
    decreases parts.len(),
{
    let n = parts.len() as int;
    let rest = parts.drop_last();
    let whole = joined(parts);
    lemma_joined_push(rest, parts.last());
    assert(rest.push(parts.last()) =~= parts);
    lemma_part_at(parts, rest, n - 1);
    if n == 1 {
        reveal_with_fuel(part_at, 3);
        assert(whole.subrange(0, whole.len() as int) =~= parts[0]);
    } else {
        lemma_joined(rest, if k < n - 1 {
            k
        } else {
            0
        });
        let before = joined(rest);
        assert(before.len() == part_at(parts, n - 1));
        if k < n - 1 {
            lemma_part_at(parts, rest, k);
            lemma_part_at(parts, rest, k + 1);
            assert(whole.subrange(part_at(parts, k), part_at(parts, k + 1)) =~= before.subrange(
                part_at(rest, k),
                part_at(rest, k + 1),
            ));
        } else {
            assert(whole.subrange(part_at(parts, k), part_at(parts, k + 1)) =~= parts.last());
        }
    }
}

proof fn lemma_part_at(a: Seq<Seq<u8>>, b: Seq<Seq<u8>>, k: int)
    requires
        0 <= k <= a.len(),
        k <= b.len(),
        forall|i: int| 0 <= i < k ==> a[i] == b[i],
    ensures
        part_at(a, k) == part_at(b, k),
        part_at(a, k) >= 0,
    decreases k,
{
    if k > 0 {
        lemma_part_at(a, b, k - 1);
    }
}

proof fn lemma_field(d: Seq<u8>, at: int, id: int, len: int)
    requires
        0 <= at && at + 8 <= d.len(),
        0 <= id < 0x8000,
        0 <= len < 0x1_0000,
        d.subrange(at, at + 8) == field(id, len, true),
    ensures
        num16(d, at) == 0x8000 + id,
        num16(d, at + 2) == len,
        num32(d, at + 4) == 30351,
{
    let f = d.subrange(at, at + 8);
    assert(f[0] == d[at] && f[1] == d[at + 1] && f[2] == d[at + 2] && f[3] == d[at + 3]);
    assert(f[4] == d[at + 4] && f[5] == d[at + 5] && f[6] == d[at + 6] && f[7] == d[at + 7]);
}

proof fn lemma_two(d: Seq<u8>, at: int, v: int)
    requires
        0 <= at && at + 2 <= d.len(),
        0 <= v < 0x1_0000,
        d.subrange(at, at + 2) == be16(v),
    ensures
        num16(d, at) == v,
{
    let f = d.subrange(at, at + 2);
    assert(f[0] == d[at] && f[1] == d[at + 1]);
}

#[verifier::rlimit(30)]
proof fn lemma_sender_template(width: int)
    requires
        width == 4 || width == 5,
    ensures
        ({
            let t = sender_fields(width);
            &&& t.len() == 56
            &&& t.subrange(0, 2) == be16(
                if width == 4 {
                    0x5001
                } else {
                    0x5003
                },
            )
            &&& t.subrange(2, 4) == be16(7)
            &&& t.subrange(4, 12) == field(1, 0xFFFF, true)
            &&& t.subrange(12, 20) == field(5, width, true)
            &&& t.subrange(20, 28) == field(6, 1, true)
            &&& t.subrange(28, 36) == field(10, 0xFFFF, true)
            &&& t.subrange(36, 44) == field(3, 0xFFFF, true)
            &&& t.subrange(44, 52) == field(11, 1, true)
            &&& t.subrange(52, 56) == field(150, 4, false)
        }),
{
    let name = be16(
        if width == 4 {
            0x5001
        } else {
            0x5003
        },
    );
    let p1 = Seq::<Seq<u8>>::empty().push(name);
    let p2 = p1.push(be16(7));
    let p3 = p2.push(field(1, 0xFFFF, true));
    let p4 = p3.push(field(5, width, true));
    let p5 = p4.push(field(6, 1, true));
    let p6 = p5.push(field(10, 0xFFFF, true));
    let p7 = p6.push(field(3, 0xFFFF, true));
    let p8 = p7.push(field(11, 1, true));
    let p9 = p8.push(field(150, 4, false));
    lemma_joined_push(Seq::empty(), name);
    lemma_joined_push(p1, be16(7));
    lemma_joined_push(p2, field(1, 0xFFFF, true));
    lemma_joined_push(p3, field(5, width, true));
    lemma_joined_push(p4, field(6, 1, true));
    lemma_joined_push(p5, field(10, 0xFFFF, true));
    lemma_joined_push(p6, field(3, 0xFFFF, true));
    lemma_joined_push(p7, field(11, 1, true));
    lemma_joined_push(p8, field(150, 4, false));
    assert(joined(p9) == sender_fields(width));
    reveal_with_fuel(part_at, 10);
    lemma_joined(p9, 0);
    lemma_joined(p9, 1);
    lemma_joined(p9, 2);
    lemma_joined(p9, 3);
    lemma_joined(p9, 4);
    lemma_joined(p9, 5);
    lemma_joined(p9, 6);
    lemma_joined(p9, 7);
    lemma_joined(p9, 8);
}

proof fn lemma_receiver_template()
    ensures
        ({
            let t = receiver_fields();
            &&& t.len() == 38
            &&& t.subrange(0, 2) == be16(0x5002)
            &&& t.subrange(2, 4) == be16(4)
            &&& t.subrange(4, 6) == be16(0)
            &&& t.subrange(6, 14) == field(2, 0xFFFF, true)
            &&& t.subrange(14, 22) == field(4, 0xFFFF, true)
            &&& t.subrange(22, 30) == field(8, 0xFFFF, true)
            &&& t.subrange(30, 38) == field(9, 0xFFFF, true)
        }),
{
    let p1 = Seq::<Seq<u8>>::empty().push(be16(0x5002));
    let p2 = p1.push(be16(4));
    let p3 = p2.push(be16(0));
    let p4 = p3.push(field(2, 0xFFFF, true));
    let p5 = p4.push(field(4, 0xFFFF, true));
    let p6 = p5.push(field(8, 0xFFFF, true));
    let p7 = p6.push(field(9, 0xFFFF, true));
    lemma_joined_push(Seq::empty(), be16(0x5002));
    lemma_joined_push(p1, be16(4));
    lemma_joined_push(p2, be16(0));
    lemma_joined_push(p3, field(2, 0xFFFF, true));
    lemma_joined_push(p4, field(4, 0xFFFF, true));
    lemma_joined_push(p5, field(8, 0xFFFF, true));
    lemma_joined_push(p6, field(9, 0xFFFF, true));
    assert(joined(p7) == receiver_fields());
    reveal_with_fuel(part_at, 8);
    lemma_joined(p7, 0);
    lemma_joined(p7, 1);
    lemma_joined(p7, 2);
    lemma_joined(p7, 3);
    lemma_joined(p7, 4);
    lemma_joined(p7, 5);
    lemma_joined(p7, 6);
}

/// The template of a report names its records and describes them.
pub proof fn the_template_describes_the_reports(width: int)
    requires
        width == 4 || width == 5,
    ensures
        num16(sender_fields(width), 0) == (if width == 4 {
            0x5001int
        } else {
            0x5003int
        }),
        num16(sender_fields(width), 2) == 7,
        fields_read(sender_fields(width), 4, 7) == report_fields(width),
{
    let t = sender_fields(width);
    lemma_sender_template(width);
    lemma_two(
        t,
        0,
        if width == 4 {
            0x5001
        } else {
            0x5003
        },
    );
    lemma_two(t, 2, 7);
    lemma_field(t, 4, 1, 0xFFFF);
    lemma_field(t, 12, 5, width);
    lemma_field(t, 20, 6, 1);
    lemma_field(t, 28, 10, 0xFFFF);
    lemma_field(t, 36, 3, 0xFFFF);
    lemma_field(t, 44, 11, 1);
    let last = t.subrange(52, 56);
    assert(last[0] == t[52] && last[1] == t[53] && last[2] == t[54] && last[3] == t[55]);
    assert(num16(t, 52) == 150 && num16(t, 54) == 4);
    reveal_with_fuel(fields_read, 9);
    assert(fields_read(t, 4, 7) =~= report_fields(width));
}

/// The template of the receiver names its record and describes it.
pub proof fn the_template_describes_the_station()
    ensures
        num16(receiver_fields(), 0) == 0x5002,
        num16(receiver_fields(), 2) == 4,
        num16(receiver_fields(), 4) == 0,
        fields_read(receiver_fields(), 6, 4) == station_fields(),
{
    let t = receiver_fields();
    lemma_receiver_template();
    lemma_two(t, 0, 0x5002);
    lemma_two(t, 2, 4);
    lemma_two(t, 4, 0);
    lemma_field(t, 6, 2, 0xFFFF);
    lemma_field(t, 14, 4, 0xFFFF);
    lemma_field(t, 22, 8, 0xFFFF);
    lemma_field(t, 30, 9, 0xFFFF);
    reveal_with_fuel(fields_read, 6);
    assert(fields_read(t, 6, 4) =~= station_fields());
}

// ---------------------------------------------------------------------------
// Records
// ---------------------------------------------------------------------------

proof fn lemma_number_push(b: Seq<u8>, x: u8)
    ensures
        number(b.push(x)) == 256 * number(b) + x,
{
    assert(b.push(x).drop_last() =~= b);
}

proof fn lemma_number_four(v: int)
    requires
        0 <= v < 0x1_0000_0000,
    ensures
        number(be32(v)) == v,
{
    let (a, b, c, d) = (
        (v / 0x100_0000 % 0x100) as u8,
        (v / 0x1_0000 % 0x100) as u8,
        (v / 0x100 % 0x100) as u8,
        (v % 0x100) as u8,
    );
    let e = Seq::<u8>::empty();
    lemma_number_push(e, a);
    lemma_number_push(e.push(a), b);
    lemma_number_push(e.push(a).push(b), c);
    lemma_number_push(e.push(a).push(b).push(c), d);
    assert(be32(v) =~= e.push(a).push(b).push(c).push(d));
    let h3 = v / 0x100_0000;
    let h2 = v / 0x1_0000;
    let h1 = v / 0x100;
    assert(h3 == h2 / 0x100 && h2 == h1 / 0x100);
    assert(h3 % 0x100 == h3);
    assert(h2 == 0x100 * h3 + h2 % 0x100);
    assert(h1 == 0x100 * h2 + h1 % 0x100);
    assert(v == 0x100 * h1 + v % 0x100);
}

proof fn lemma_number_five(v: int)
    requires
        0 <= v < 0x100_0000_0000,
    ensures
        number(be40(v)) == v,
{
    let (z, a, b, c, d) = (
        (v / 0x1_0000_0000 % 0x100) as u8,
        (v / 0x100_0000 % 0x100) as u8,
        (v / 0x1_0000 % 0x100) as u8,
        (v / 0x100 % 0x100) as u8,
        (v % 0x100) as u8,
    );
    let e = Seq::<u8>::empty();
    lemma_number_push(e, z);
    lemma_number_push(e.push(z), a);
    lemma_number_push(e.push(z).push(a), b);
    lemma_number_push(e.push(z).push(a).push(b), c);
    lemma_number_push(e.push(z).push(a).push(b).push(c), d);
    assert(be40(v) =~= e.push(z).push(a).push(b).push(c).push(d));
    let h4 = v / 0x1_0000_0000;
    let h3 = v / 0x100_0000;
    let h2 = v / 0x1_0000;
    let h1 = v / 0x100;
    assert(h4 == h3 / 0x100 && h3 == h2 / 0x100 && h2 == h1 / 0x100);
    assert(h4 % 0x100 == h4);
    assert(h3 == 0x100 * h4 + h3 % 0x100);
    assert(h2 == 0x100 * h3 + h2 % 0x100);
    assert(h1 == 0x100 * h2 + h1 % 0x100);
    assert(v == 0x100 * h1 + v % 0x100);
}

/// Whether a value is a text, cut after sixty bytes.
pub open spec fn is_text(v: Seq<u8>, s: Seq<char>) -> bool {
    let b = encode_utf8(s);
    v == (if b.len() <= 60 {
        b
    } else {
        b.subrange(0, 60)
    })
}

/// Whether the value of a field is what a report has to say there.
pub open spec fn tells(f: FieldSpec, v: Seq<u8>, r: Report) -> bool {
    &&& f.vendor == 30351 && f.id == 1 ==> is_text(v, r.call@)
    &&& f.vendor == 30351 && f.id == 5 ==> number(v) == (if r.freq_hz <= 0xFF_FFFF_FFFF {
        r.freq_hz as int
    } else {
        0xFF_FFFF_FFFF
    })
    &&& f.vendor == 30351 && f.id == 6 ==> v.len() == 1 && number(v) == (if r.snr_db < 0 {
        256 + r.snr_db
    } else {
        r.snr_db as int
    })
    &&& f.vendor == 30351 && f.id == 10 ==> is_text(v, r.mode@)
    &&& f.vendor == 30351 && f.id == 3 ==> is_text(v, r.grid@)
    &&& f.vendor == 30351 && f.id == 11 ==> number(v) == 1
    &&& f.vendor == 0 && f.id == 150 ==> number(v) == r.when_utc
}

/// The width of the frequency field of a report: five bytes where four will not
/// do.
pub open spec fn freq_width(r: Report) -> int {
    if r.freq_hz >= 0x1_0000_0000 {
        5
    } else {
        4
    }
}

/// The fields of a report, as the template in the same datagram describes them.
pub open spec fn described(width: int) -> Seq<FieldSpec> {
    fields_read(sender_fields(width), 4, num16(sender_fields(width), 2) as nat)
}

proof fn lemma_values_step(d: Seq<u8>, at: int, fs: Seq<FieldSpec>)
    requires
        fs.len() > 0,
    ensures
        values_read(d, at, fs).len() == fs.len(),
        values_read(d, at, fs)[0] == d.subrange(value_start(at, fs[0]), value_end(d, at, fs[0])),
        values_read(d, at, fs).skip(1) == values_read(d, value_end(d, at, fs[0]), fs.skip(1)),
        record_end(d, at, fs) == record_end(d, value_end(d, at, fs[0]), fs.skip(1)),
    decreases fs.len(),
{
    let next = value_end(d, at, fs[0]);
    if fs.len() > 1 {
        lemma_values_step(d, next, fs.skip(1));
    }
    assert(values_read(d, at, fs).skip(1) =~= values_read(d, next, fs.skip(1)));
}

proof fn lemma_text_value(d: Seq<u8>, at: int, s: Seq<char>, f: FieldSpec)
    requires
        f.len == 0xFFFF,
        0 <= at && at + string_field(s).len() <= d.len(),
        d.subrange(at, at + string_field(s).len()) == string_field(s),
    ensures
        is_text(d.subrange(value_start(at, f), value_end(d, at, f)), s),
        value_end(d, at, f) == at + string_field(s).len(),
{
    let p = string_field(s);
    let b = encode_utf8(s);
    assert(d.subrange(at, at + p.len())[0] == d[at]);
    assert(p[0] == d[at]);
    let v = d.subrange(value_start(at, f), value_end(d, at, f));
    assert(v =~= p.skip(1)) by {
        assert forall|k: int| 0 <= k < v.len() implies v[k] == p.skip(1)[k] by {
            assert(d.subrange(at, at + p.len())[k + 1] == d[at + k + 1]);
        }
    }
    assert(p.skip(1) =~= (if b.len() <= 60 {
        b
    } else {
        b.subrange(0, 60)
    }));
}

/// The seven parts of a report's record.
proof fn lemma_report_parts(r: Report) -> (parts: Seq<Seq<u8>>)
    ensures
        parts.len() == 7,
        parts[0] == string_field(r.call@),
        parts[1].len() == freq_width(r),
        number(parts[1]) == (if r.freq_hz <= 0xFF_FFFF_FFFF {
            r.freq_hz as int
        } else {
            0xFF_FFFF_FFFF
        }),
        parts[2].len() == 1,
        number(parts[2]) == (if r.snr_db < 0 {
            256 + r.snr_db
        } else {
            r.snr_db as int
        }),
        parts[3] == string_field(r.mode@),
        parts[4] == string_field(r.grid@),
        parts[5].len() == 1,
        number(parts[5]) == 1,
        parts[6].len() == 4,
        number(parts[6]) == r.when_utc,
        joined(parts) == report_record(r),
{
    reveal(report_record);
    let freq = if is_wide(r) {
        be40(at_most(r.freq_hz as int, 0xFF_FFFF_FFFF))
    } else {
        be32(r.freq_hz as int)
    };
    let e = Seq::<Seq<u8>>::empty();
    let p1 = e.push(string_field(r.call@));
    let p2 = p1.push(freq);
    let p3 = p2.push(seq![signed_byte(r.snr_db)]);
    let p4 = p3.push(string_field(r.mode@));
    let p5 = p4.push(string_field(r.grid@));
    let p6 = p5.push(seq![1u8]);
    let p7 = p6.push(be32(r.when_utc as int));
    lemma_joined_push(e, string_field(r.call@));
    lemma_joined_push(p1, freq);
    lemma_joined_push(p2, seq![signed_byte(r.snr_db)]);
    lemma_joined_push(p3, string_field(r.mode@));
    lemma_joined_push(p4, string_field(r.grid@));
    lemma_joined_push(p5, seq![1u8]);
    lemma_joined_push(p6, be32(r.when_utc as int));
    lemma_number_four(r.when_utc as int);
    if is_wide(r) {
        lemma_number_five(at_most(r.freq_hz as int, 0xFF_FFFF_FFFF));
    } else {
        lemma_number_four(r.freq_hz as int);
    }
    lemma_number_push(Seq::empty(), signed_byte(r.snr_db));
    lemma_number_push(Seq::empty(), 1u8);
    assert(seq![1u8] =~= Seq::<u8>::empty().push(1u8));
    assert(seq![signed_byte(r.snr_db)] =~= Seq::<u8>::empty().push(signed_byte(r.snr_db)));
    p7
}

proof fn lemma_part_of(d: Seq<u8>, at: int, rec: Seq<u8>, parts: Seq<Seq<u8>>, k: int)
    requires
        0 <= k < parts.len(),
        0 <= at && at + rec.len() <= d.len(),
        d.subrange(at, at + rec.len()) == rec,
        joined(parts) == rec,
    ensures
        d.subrange(at + part_at(parts, k), at + part_at(parts, k + 1)) == parts[k],
        0 <= part_at(parts, k) <= part_at(parts, k + 1) <= rec.len(),
{
    lemma_joined(parts, k);
    let (a, b) = (part_at(parts, k), part_at(parts, k + 1));
    assert(b == a + parts[k].len());
    assert(d.subrange(at + a, at + b) =~= d.subrange(at, at + rec.len()).subrange(a, b));
}

/// A report's record, wherever it stands, read field by field as its template
/// describes it, gives the report back: its call, frequency, signal-to-noise
/// ratio, mode, locator and time, and the source as automatic. The record ends
/// where its last field does.
#[verifier::spinoff_prover]
#[verifier::rlimit(40)]
pub proof fn a_report_is_read_back(d: Seq<u8>, at: int, r: Report)
    requires
        0 <= at,
        at + report_record(r).len() <= d.len(),
        d.subrange(at, at + report_record(r).len()) == report_record(r),
    ensures
        ({
            let fs = described(freq_width(r));
            let vals = values_read(d, at, fs);
            &&& fs == report_fields(freq_width(r))
            &&& vals.len() == fs.len()
            &&& forall|j: int| 0 <= j < fs.len() ==> tells(fs[j], #[trigger] vals[j], r)
            &&& record_end(d, at, fs) == at + report_record(r).len()
        }),
{
    let w = freq_width(r);
    the_template_describes_the_reports(w);
    let fs = described(w);
    let rec = report_record(r);
    let parts = lemma_report_parts(r);
    reveal_with_fuel(part_at, 8);
    lemma_joined(parts, 0);
    let a0 = at;
    let a1 = at + part_at(parts, 1);
    let a2 = at + part_at(parts, 2);
    let a3 = at + part_at(parts, 3);
    let a4 = at + part_at(parts, 4);
    let a5 = at + part_at(parts, 5);
    let a6 = at + part_at(parts, 6);
    let a7 = at + part_at(parts, 7);
    assert(a7 == at + rec.len());
    lemma_part_of(d, at, rec, parts, 0);
    lemma_part_of(d, at, rec, parts, 1);
    lemma_part_of(d, at, rec, parts, 2);
    lemma_part_of(d, at, rec, parts, 3);
    lemma_part_of(d, at, rec, parts, 4);
    lemma_part_of(d, at, rec, parts, 5);
    lemma_part_of(d, at, rec, parts, 6);
    let f1 = fs.skip(1);
    let f2 = f1.skip(1);
    let f3 = f2.skip(1);
    let f4 = f3.skip(1);
    let f5 = f4.skip(1);
    let f6 = f5.skip(1);
    let f7 = f6.skip(1);
    lemma_text_value(d, a0, r.call@, fs[0]);
    lemma_text_value(d, a3, r.mode@, fs[3]);
    lemma_text_value(d, a4, r.grid@, fs[4]);
    lemma_values_step(d, a0, fs);
    lemma_values_step(d, a1, f1);
    lemma_values_step(d, a2, f2);
    lemma_values_step(d, a3, f3);
    lemma_values_step(d, a4, f4);
    lemma_values_step(d, a5, f5);
    lemma_values_step(d, a6, f6);
    let v0 = values_read(d, a0, fs);
    let v1 = values_read(d, a1, f1);
    let v2 = values_read(d, a2, f2);
    let v3 = values_read(d, a3, f3);
    let v4 = values_read(d, a4, f4);
    let v5 = values_read(d, a5, f5);
    let v6 = values_read(d, a6, f6);
    assert(v0.skip(1) == v1 && v1.skip(1) == v2 && v2.skip(1) == v3);
    assert(v3.skip(1) == v4 && v4.skip(1) == v5 && v5.skip(1) == v6);
    assert(v0[1] == v1[0] && v0[2] == v2[0] && v0[3] == v3[0]) by {
        assert(v1[1] == v2[0] && v2[1] == v3[0] && v1[2] == v2[1] && v0[2] == v1[1] && v0[3] == v1[2]);
    }
    assert(v0[4] == v4[0] && v0[5] == v5[0] && v0[6] == v6[0]) by {
        assert(v3[1] == v4[0] && v3[2] == v4[1] && v4[1] == v5[0] && v3[3] == v4[2] && v4[2]
            == v5[1] && v5[1] == v6[0]);
        assert(v2[2] == v3[1] && v1[3] == v2[2] && v0[4] == v1[3]);
        assert(v2[3] == v3[2] && v1[4] == v2[3] && v0[5] == v1[4]);
        assert(v2[4] == v3[3] && v1[5] == v2[4] && v0[6] == v1[5]);
    }
    assert(record_end(d, a7, f7) == a7);
    assert(v0[0] == d.subrange(value_start(a0, fs[0]), value_end(d, a0, fs[0])));
    assert(v0[1] == parts[1] && v0[2] == parts[2] && v0[5] == parts[5] && v0[6] == parts[6]);
    assert forall|j: int| 0 <= j < fs.len() implies tells(fs[j], #[trigger] v0[j], r) by {
        assert(j == 0 || j == 1 || j == 2 || j == 3 || j == 4 || j == 5 || j == 6);
    }
}

proof fn lemma_records_prefix(reports: Seq<Report>, j: nat, k: nat, wide: bool)
    requires
        j <= k <= reports.len(),
    ensures
        records(reports, j, wide).len() <= records(reports, k, wide).len(),
        records(reports, k, wide).take(records(reports, j, wide).len() as int) == records(
            reports,
            j,
            wide,
        ),
    decreases k,
{
    let a = records(reports, j, wide);
    let b = records(reports, k, wide);
    if j == k {
        assert(b.take(a.len() as int) =~= a);
    } else {
        lemma_records_prefix(reports, j, (k - 1) as nat, wide);
        let c = records(reports, (k - 1) as nat, wide);
        assert(b.take(a.len() as int) =~= c.take(a.len() as int));
    }
}

/// The records of a batch, set by set: the first one stands at the front, each
/// report of that width is read back where those before it end, and the last one
/// ends the set. Reports of the other width take no room there.
pub proof fn every_report_is_read_back(reports: Seq<Report>, k: nat, j: nat, wide: bool)
    requires
        j < k <= reports.len(),
    ensures
        records(reports, 0, wide).len() == 0,
        ({
            let d = records(reports, k, wide);
            let r = reports[j as int];
            let at = records(reports, j, wide).len() as int;
            let next = records(reports, j + 1, wide).len() as int;
            let fs = described(
                if wide {
                    5
                } else {
                    4
                },
            );
            let vals = values_read(d, at, fs);
            if (r.freq_hz >= 0x1_0000_0000) == wide {
                &&& vals.len() == 7
                &&& forall|i: int| 0 <= i < 7 ==> tells(fs[i], #[trigger] vals[i], r)
                &&& record_end(d, at, fs) == next
                &&& next <= d.len()
            } else {
                next == at
            }
        }),
{
    let d = records(reports, k, wide);
    let r = reports[j as int];
    let a = records(reports, j, wide);
    let b = records(reports, j + 1, wide);
    lemma_records_prefix(reports, j + 1, k, wide);
    if is_wide(r) == wide {
        let rec = report_record(r);
        assert(d.subrange(a.len() as int, (a.len() + rec.len()) as int) =~= rec) by {
            assert forall|i: int| 0 <= i < rec.len() implies d[a.len() + i] == rec[i] by {
                assert(d.take(b.len() as int)[a.len() + i] == b[a.len() + i]);
            }
        }
        a_report_is_read_back(d, a.len() as int, r);
    }
}

/// The receiver's own record, read as its template describes it, gives its call,
/// locator, software and antenna.
pub proof fn the_station_is_read_back(rx: Station)
    ensures
        ({
            let d = station_record(rx);
            let fs = fields_read(receiver_fields(), 6, num16(receiver_fields(), 2) as nat);
            let vals = values_read(d, 0, fs);
            &&& fs.len() == 4 && vals.len() == 4
            &&& fs[0] == psk(2, 0xFFFF) && is_text(vals[0], rx.call@)
            &&& fs[1] == psk(4, 0xFFFF) && is_text(vals[1], rx.grid@)
            &&& fs[2] == psk(8, 0xFFFF) && is_text(vals[2], rx.software@)
            &&& fs[3] == psk(9, 0xFFFF) && is_text(vals[3], rx.antenna@)
            &&& record_end(d, 0, fs) == d.len()
        }),
{
    the_template_describes_the_station();
    let d = station_record(rx);
    let fs = station_fields();
    let (a, b, c, e) = (
        string_field(rx.call@),
        string_field(rx.grid@),
        string_field(rx.software@),
        string_field(rx.antenna@),
    );
    let a1 = a.len() as int;
    let a2 = a1 + b.len();
    let a3 = a2 + c.len();
    assert(d.subrange(0, a1) =~= a);
    assert(d.subrange(a1, a2) =~= b);
    assert(d.subrange(a2, a3) =~= c);
    assert(d.subrange(a3, a3 + e.len()) =~= e);
    lemma_text_value(d, 0, rx.call@, fs[0]);
    lemma_text_value(d, a1, rx.grid@, fs[1]);
    lemma_text_value(d, a2, rx.software@, fs[2]);
    lemma_text_value(d, a3, rx.antenna@, fs[3]);
    let f1 = fs.skip(1);
    let f2 = f1.skip(1);
    let f3 = f2.skip(1);
    lemma_values_step(d, 0, fs);
    lemma_values_step(d, a1, f1);
    lemma_values_step(d, a2, f2);
    lemma_values_step(d, a3, f3);
    let v0 = values_read(d, 0, fs);
    let v1 = values_read(d, a1, f1);
    let v2 = values_read(d, a2, f2);
    let v3 = values_read(d, a3, f3);
    assert(v0.skip(1) == v1 && v1.skip(1) == v2 && v2.skip(1) == v3);
    assert(v0[1] == v1[0] && v0[2] == v1[1] && v1[1] == v2[0] && v0[3] == v1[2] && v1[2] == v2[1]
        && v2[1] == v3[0]);
    assert(record_end(d, a3 + e.len(), f3.skip(1)) == a3 + e.len());
}

// ---------------------------------------------------------------------------
// Datagrams
// ---------------------------------------------------------------------------

proof fn lemma_set(d: Seq<u8>, at: int, id: int, body: Seq<u8>)
    requires
        0 <= at && at + set_bytes(id, body).len() <= d.len(),
        d.subrange(at, at + set_bytes(id, body).len()) == set_bytes(id, body),
        body.len() < 0xFF00,
        0 <= id < 0x1_0000,
    ensures
        has_set(d, at, id, body),
        num16(d, at + 2) == set_bytes(id, body).len(),
{
    let p = set_bytes(id, body);
    let len = p.len() as int;
    let n = body.len() as int;
    sets_are_aligned(id, body);
    let sub = d.subrange(at, at + len);
    assert(sub[0] == d[at] && sub[1] == d[at + 1] && sub[2] == d[at + 2] && sub[3] == d[at + 3]);
    assert(p[0] == (id / 0x100 % 0x100) as u8 && p[1] == (id % 0x100) as u8);
    assert(d.subrange(at + 4, at + 4 + n) =~= body) by {
        assert forall|k: int| 0 <= k < n implies d[at + 4 + k] == body[k] by {
            assert(sub[4 + k] == d[at + 4 + k]);
            assert(p[4 + k] == body[k]);
        }
    }
    assert forall|k: int| at + 4 + n <= k < at + len implies #[trigger] d[k] == 0 by {
        assert(sub[k - at] == d[k]);
        assert(p[k - at] == 0);
    }
}

/// Where the set after the one at `at` begins.
pub open spec fn next_set(d: Seq<u8>, at: int) -> int {
    at + num16(d, at + 2)
}

/// The eleven parts of a datagram.
proof fn lemma_packet_parts(
    rx: Station,
    reports: Seq<Report>,
    k: nat,
    len: int,
    now: u32,
    seq: u32,
    domain: u32,
) -> (parts: Seq<Seq<u8>>)
    ensures
        parts.len() == 11,
        parts[0] == be16(0x000A),
        parts[1].len() == 2,
        parts[2] == be32(now as int),
        parts[3] == be32(seq as int),
        parts[4] == be32(domain as int),
        parts[5] == set_bytes(2, sender_fields(4)),
        parts[6] == set_bytes(3, receiver_fields()),
        parts[7] == set_bytes(0x5002, station_record(rx)),
        records(reports, k, true).len() == 0 ==> parts[8].len() == 0,
        records(reports, k, true).len() > 0 ==> parts[8] == set_bytes(2, sender_fields(5)),
        records(reports, k, false).len() == 0 ==> parts[9].len() == 0,
        records(reports, k, false).len() > 0 ==> parts[9] == set_bytes(
            0x5001,
            records(reports, k, false),
        ),
        records(reports, k, true).len() == 0 ==> parts[10].len() == 0,
        records(reports, k, true).len() > 0 ==> parts[10] == set_bytes(
            0x5003,
            records(reports, k, true),
        ),
        joined(parts) == packet_with(rx, reports, k, len, now, seq, domain),
{
    reveal(preamble);
    let e = Seq::<Seq<u8>>::empty();
    let q1 = be16(0x000A);
    let q2 = be16(len);
    let q3 = be32(now as int);
    let q4 = be32(seq as int);
    let q5 = be32(domain as int);
    let q6 = set_bytes(2, sender_fields(4));
    let q7 = set_bytes(3, receiver_fields());
    let q8 = set_bytes(0x5002, station_record(rx));
    let q9 = if records(reports, k, true).len() == 0 {
        Seq::empty()
    } else {
        set_bytes(2, sender_fields(5))
    };
    let q10 = record_set(0x5001, records(reports, k, false));
    let q11 = record_set(0x5003, records(reports, k, true));
    let p1 = e.push(q1);
    let p2 = p1.push(q2);
    let p3 = p2.push(q3);
    let p4 = p3.push(q4);
    let p5 = p4.push(q5);
    let p6 = p5.push(q6);
    let p7 = p6.push(q7);
    let p8 = p7.push(q8);
    let p9 = p8.push(q9);
    let p10 = p9.push(q10);
    let p11 = p10.push(q11);
    lemma_joined_push(e, q1);
    lemma_joined_push(p1, q2);
    lemma_joined_push(p2, q3);
    lemma_joined_push(p3, q4);
    lemma_joined_push(p4, q5);
    lemma_joined_push(p5, q6);
    lemma_joined_push(p6, q7);
    lemma_joined_push(p7, q8);
    lemma_joined_push(p8, q9);
    lemma_joined_push(p9, q10);
    lemma_joined_push(p10, q11);
    assert(joined(p8) == preamble(rx, len, now, seq, domain));
    p11
}

proof fn lemma_word(d: Seq<u8>, at: int, v: u32)
    requires
        0 <= at && at + 4 <= d.len(),
        d.subrange(at, at + 4) == be32(v as int),
    ensures
        num32(d, at) == v,
{
    let f = d.subrange(at, at + 4);
    assert(f[0] == d[at] && f[1] == d[at + 1] && f[2] == d[at + 2] && f[3] == d[at + 3]);
    let h3 = v as int / 0x100_0000;
    let h2 = v as int / 0x1_0000;
    let h1 = v as int / 0x100;
    assert(h3 == h2 / 0x100 && h2 == h1 / 0x100);
    assert(h3 % 0x100 == h3);
    assert(h2 == 0x100 * h3 + h2 % 0x100);
    assert(h1 == 0x100 * h2 + h1 % 0x100);
    assert(v == 0x100 * h1 + v as int % 0x100);
}

/// The sets that a datagram is made of, in their order up to its end: the
/// template of the reports, that of the receiver, and the receiver; the wide
/// template where there are wide reports; and then the reports of each width
/// where there are any.
pub open spec fn has_sets(
    d: Seq<u8>,
    reports_template: Seq<u8>,
    station_template: Seq<u8>,
    station: Seq<u8>,
    wide_template: Seq<u8>,
    narrow: Seq<u8>,
    wide: Seq<u8>,
) -> bool {
    let a1 = 16int;
    let a2 = next_set(d, a1);
    let a3 = next_set(d, a2);
    let a4 = next_set(d, a3);
    let a5 = if wide.len() > 0 {
        next_set(d, a4)
    } else {
        a4
    };
    let a6 = if narrow.len() > 0 {
        next_set(d, a5)
    } else {
        a5
    };
    let a7 = if wide.len() > 0 {
        next_set(d, a6)
    } else {
        a6
    };
    &&& has_set(d, a1, 2, reports_template)
    &&& has_set(d, a2, 3, station_template)
    &&& has_set(d, a3, 0x5002, station)
    &&& wide.len() > 0 ==> has_set(d, a4, 2, wide_template)
    &&& narrow.len() > 0 ==> has_set(d, a5, 0x5001, narrow)
    &&& wide.len() > 0 ==> has_set(d, a6, 0x5003, wide)
    &&& a7 == d.len()
}

proof fn lemma_set_part(d: Seq<u8>, parts: Seq<Seq<u8>>, k: int, id: int, body: Seq<u8>)
    requires
        joined(parts) == d,
        0 <= k < parts.len(),
        parts[k] == set_bytes(id, body),
        d.len() <= 1400,
        0 <= id < 0x1_0000,
    ensures
        has_set(d, part_at(parts, k), id, body),
        next_set(d, part_at(parts, k)) == part_at(parts, k + 1),
{
    assert(d.subrange(0, d.len() as int) =~= d);
    lemma_part_of(d, 0, d, parts, k);
    assert(part_at(parts, k + 1) == part_at(parts, k) + parts[k].len());
    assert(body.len() <= set_bytes(id, body).len());
    lemma_set(d, part_at(parts, k), id, body);
}

#[verifier::rlimit(30)]
proof fn lemma_has_sets(
    d: Seq<u8>,
    parts: Seq<Seq<u8>>,
    t: Seq<u8>,
    u: Seq<u8>,
    station: Seq<u8>,
    w: Seq<u8>,
    narrow: Seq<u8>,
    wide: Seq<u8>,
)
    requires
        d.len() <= 1400,
        parts.len() == 11,
        joined(parts) == d,
        part_at(parts, 5) == 16,
        parts[5] == set_bytes(2, t),
        parts[6] == set_bytes(3, u),
        parts[7] == set_bytes(0x5002, station),
        wide.len() == 0 ==> parts[8].len() == 0,
        wide.len() > 0 ==> parts[8] == set_bytes(2, w),
        narrow.len() == 0 ==> parts[9].len() == 0,
        narrow.len() > 0 ==> parts[9] == set_bytes(0x5001, narrow),
        wide.len() == 0 ==> parts[10].len() == 0,
        wide.len() > 0 ==> parts[10] == set_bytes(0x5003, wide),
    ensures
        has_sets(d, t, u, station, w, narrow, wide),
{
    lemma_joined(parts, 0);
    lemma_set_part(d, parts, 5, 2, t);
    lemma_set_part(d, parts, 6, 3, u);
    lemma_set_part(d, parts, 7, 0x5002, station);
    if wide.len() > 0 {
        lemma_set_part(d, parts, 8, 2, w);
        lemma_set_part(d, parts, 10, 0x5003, wide);
    }
    if narrow.len() > 0 {
        lemma_set_part(d, parts, 9, 0x5001, narrow);
    }
    assert(part_at(parts, 9) == part_at(parts, 8) + parts[8].len());
    assert(part_at(parts, 10) == part_at(parts, 9) + parts[9].len());
    assert(part_at(parts, 11) == part_at(parts, 10) + parts[10].len());
}

/// A datagram, taken apart: the header with the format's number, the length, the
/// time, the number of the first record and the domain, and then its sets. The
/// wide template is there if and only if a report needs it.
pub proof fn a_datagram_is_made_of_its_sets(
    rx: Station,
    reports: Seq<Report>,
    k: nat,
    now: u32,
    seq: u32,
    domain: u32,
)
    requires
        fits_one(rx, reports, k),
    ensures
        ({
            let d = packet(rx, reports, k, now, seq, domain);
            &&& num16(d, 0) == 10 && num16(d, 2) == d.len()
            &&& num32(d, 4) == now && num32(d, 8) == seq && num32(d, 12) == domain
            &&& has_sets(
                d,
                sender_fields(4),
                receiver_fields(),
                station_record(rx),
                sender_fields(5),
                records(reports, k, false),
                records(reports, k, true),
            )
        }),
{
    let n = packet_with(rx, reports, k, 0, now, seq, domain).len() as int;
    the_header_states_the_length(rx, reports, k, now, seq, domain);
    let d = packet(rx, reports, k, now, seq, domain);
    let parts = lemma_packet_parts(rx, reports, k, n, now, seq, domain);
    lemma_header(d, parts, now, seq, domain);
    lemma_has_sets(
        d,
        parts,
        sender_fields(4),
        receiver_fields(),
        station_record(rx),
        sender_fields(5),
        records(reports, k, false),
        records(reports, k, true),
    );
}

proof fn lemma_header(d: Seq<u8>, parts: Seq<Seq<u8>>, now: u32, seq: u32, domain: u32)
    requires
        joined(parts) == d,
        parts.len() == 11,
        parts[0] == be16(10),
        parts[1].len() == 2,
        parts[2] == be32(now as int),
        parts[3] == be32(seq as int),
        parts[4] == be32(domain as int),
    ensures
        num16(d, 0) == 10,
        num32(d, 4) == now && num32(d, 8) == seq && num32(d, 12) == domain,
        part_at(parts, 5) == 16,
{
    assert(d.subrange(0, d.len() as int) =~= d);
    lemma_part_of(d, 0, d, parts, 0);
    lemma_part_of(d, 0, d, parts, 2);
    lemma_part_of(d, 0, d, parts, 3);
    lemma_part_of(d, 0, d, parts, 4);
    reveal_with_fuel(part_at, 6);
    lemma_two(d, 0, 10);
    lemma_word(d, 4, now);
    lemma_word(d, 8, seq);
    lemma_word(d, 12, domain);
}

/// A set of reports is there if and only if a report of its width is.
pub proof fn a_width_is_there_when_it_is_needed(reports: Seq<Report>, k: nat, wide: bool)
    requires
        k <= reports.len(),
    ensures
        records(reports, k, wide).len() > 0 <==> exists|j: int|
            0 <= j < k && ((#[trigger] reports[j]).freq_hz >= 0x1_0000_0000) == wide,
    decreases k,
{
    if k > 0 {
        a_width_is_there_when_it_is_needed(reports, (k - 1) as nat, wide);
        lemma_record_len(reports[k - 1]);
        assert(is_wide(reports[k - 1]) == (reports[k - 1].freq_hz >= 0x1_0000_0000));
    }
}

/// A datagram takes as many reports as fit into 1400 bytes, from the front.
pub proof fn a_datagram_takes_what_fits(rx: Station, reports: Seq<Report>, k: nat, j: nat)
    requires
        is_take(rx, reports, k),
        j <= reports.len(),
    ensures
        packet(rx, reports, k, 0, 0, 0).len() <= 1400,
        j > k ==> packet_with(rx, reports, j, 0, 0, 0, 0).len() > 1400,
        k <= reports.len(),
{
    the_header_states_the_length(rx, reports, k, 0, 0, 0);
    if j > k {
        assert(!fits_one(rx, reports, j));
    }
}

// ---------------------------------------------------------------------------
// The batch
// ---------------------------------------------------------------------------

proof fn lemma_bands(a: u64, b: u64, n: nat)
    requires
        a <= b,
        n <= 30,
    ensures
        bands_begun(a, n) <= bands_begun(b, n),
        bands_begun(a, n) == bands_begun(b, n) <==> forall|i: int|
            0 <= i < n ==> !(a < #[trigger] BAND_FLOORS@[i] <= b),
    decreases n,
{
    if n > 0 {
        lemma_bands(a, b, (n - 1) as nat);
        assert(BAND_FLOORS@[n - 1] <= a ==> BAND_FLOORS@[n - 1] <= b);
    }
}

/// Two frequencies are on one band if and only if no band begins between them.
pub proof fn a_band_ends_where_the_next_begins(a: u64, b: u64)
    requires
        a <= b,
    ensures
        band(a) == band(b) <==> forall|i: int|
            0 <= i < 30 ==> !(a < #[trigger] BAND_FLOORS@[i] <= b),
        band(a) <= band(b),
{
    lemma_bands(a, b, 30);
}

proof fn lemma_first_entry(pending: Seq<Report>, r: Report, from: int)
    requires
        0 <= from <= pending.len(),
    ensures
        from <= entry_for(pending, r, from) <= pending.len(),
        forall|i: int|
            from <= i < entry_for(pending, r, from) ==> !same_station(#[trigger] pending[i], r),
        entry_for(pending, r, from) < pending.len() ==> same_station(
            pending[entry_for(pending, r, from)],
            r,
        ),
    decreases pending.len() - from,
{
    if from < pending.len() && !same_station(pending[from], r) {
        lemma_first_entry(pending, r, from + 1);
    }
}

/// What a report does to a batch with one entry per station and band, entry by
/// entry: those of others stay as they are; its own becomes the report unless it
/// is stronger; a new one goes to the end while there is room.
pub proof fn a_report_touches_only_its_own_entry(pending: Seq<Report>, r: Report, i: int)
    requires
        entries_distinct(pending),
        0 <= i < pending.len(),
    ensures
        folded(pending, r)[i] == (if pending[i].call@ == r.call@ && band(pending[i].freq_hz)
            == band(r.freq_hz) && pending[i].snr_db <= r.snr_db {
            r
        } else {
            pending[i]
        }),
{
    lemma_first_entry(pending, r, 0);
    let e = entry_for(pending, r, 0);
    if e < pending.len() && i != e && same_station(pending[i], r) {
        if i < e {
            assert(!same_station(pending[i], r));
        } else {
            assert(!same_station(pending[e], pending[i]));
        }
    }
}

/// A station that is not in the batch yet is put at its end, while the batch has
/// fewer than 512.
pub proof fn a_new_station_joins_the_batch(pending: Seq<Report>, r: Report)
    requires
        forall|i: int|
            0 <= i < pending.len() ==> (#[trigger] pending[i]).call@ != r.call@ || band(
                pending[i].freq_hz,
            ) != band(r.freq_hz),
    ensures
        pending.len() < 512 ==> folded(pending, r) == pending.push(r),
        pending.len() >= 512 ==> folded(pending, r) == pending,
{
    lemma_first_entry(pending, r, 0);
}

// ---------------------------------------------------------------------------
// The uploader
// ---------------------------------------------------------------------------

/// What is configured is used, without the blanks round it; what is left out is
/// PSK Reporter's own host and port.
pub proof fn the_configured_collector_is_used(
    host: Seq<char>,
    port: u16,
    to: Seq<char>,
    to_port: u16,
)
    requires
        is_collector(host, to),
        is_collector_port(port, to_port),
    ensures
        trimmed(host).len() > 0 ==> to == trimmed(host),
        trimmed(host).len() == 0 ==> to == "report.pskreporter.info"@,
        port > 0 ==> to_port == port,
        port == 0 ==> to_port == 4739,
{
}

/// Packets are as far apart as configured, but never less than five minutes.
pub proof fn packets_are_five_minutes_apart(configured: u32, secs: u64)
    requires
        is_interval(configured, secs),
    ensures
        secs >= 5 * 60,
        secs >= configured,
        secs == configured || secs == 5 * 60,
{
}

/// The hash takes in each byte by one round of FNV-1a, from its offset basis.
pub proof fn each_byte_is_one_round_of_the_hash(bytes: Seq<u8>, b: u8)
    ensures
        hash_of(Seq::empty()) == 0x811c_9dc5,
        hash_of(bytes.push(b)) == ((hash_of(bytes) ^ b as u32) * 0x0100_0193) % 0x1_0000_0000,
{
    assert(bytes.push(b).drop_last() =~= bytes);
}

/// The domain is the hash of the callsign and the start time, made odd: it is never
/// zero.
pub proof fn the_domain_is_never_zero(call: Seq<char>, start_utc: u32)
    ensures
        domain_of(call, start_utc) % 2 == 1,
        domain_of(call, start_utc) / 2 == hash_of(encode_utf8(call) + be32(start_utc as int)) / 2,
{
    let h = hash_of(encode_utf8(call) + be32(start_utc as int));
    assert((h | 1) % 2 == 1 && (h | 1) / 2 == h / 2) by (bit_vector);
}

/// The number in a header is the sum of the records sent before, a receiver's one
/// for each datagram among them.
pub proof fn the_records_sent_are_counted(
    a: Uploader,
    b: Uploader,
    c: Uploader,
    used: usize,
    more: usize,
)
    requires
        counted(a, used, b),
        counted(b, more, c),
    ensures
        a.seq + used + 1 <= u32::MAX ==> b.seq == a.seq + used + 1,
        (c.seq - a.seq - (used + 1) - (more + 1)) % 0x1_0000_0000 == 0,
        b.pending == a.pending && b.rx == a.rx && b.domain == a.domain && b.reported_error
            == a.reported_error,
{
}

/// An outage is told once, with its reason, and a success is always told and ends
/// it.
pub proof fn an_outage_is_told_once(
    a: Uploader,
    b: Uploader,
    c: Uploader,
    first: Result<usize, String>,
    second: Result<usize, String>,
    x: Option<String>,
    y: Option<String>,
)
    requires
        outcome_told(a, first, x, b),
        outcome_told(b, second, y, c),
    ensures
        first is Err && second is Err ==> y is None,
        first is Ok && second is Err ==> y is Some && y->0@ == "PSK Reporter: "@ + second->Err_0@,
        first is Err && !a.reported_error ==> x is Some && x->0@ == "PSK Reporter: "@
            + first->Err_0@,
        first matches Ok(n) ==> x is Some && x->0@ == uploaded_text(n as nat),
        b.pending == a.pending && b.seq == a.seq && b.rx == a.rx && b.domain == a.domain,
{
}

/// The number of reports that went out is told, in the singular for one.
pub proof fn the_reports_that_went_out_are_told(n: nat)
    ensures
        n != 1 ==> uploaded_text(n) == "PSK Reporter: "@ + dec(n) + " reports uploaded"@,
        n == 1 ==> uploaded_text(n) == "PSK Reporter: "@ + dec(n) + " report uploaded"@,
{
    reveal_strlit(" report");
    reveal_strlit("");
    reveal_strlit("s");
    reveal_strlit(" uploaded");
    reveal_strlit(" reports uploaded");
    reveal_strlit(" report uploaded");
    if n == 1 {
        assert(uploaded_text(n) =~= "PSK Reporter: "@ + dec(n) + " report uploaded"@);
    } else {
        assert(uploaded_text(n) =~= "PSK Reporter: "@ + dec(n) + " reports uploaded"@);
    }
}

/// A batch waits for its time or for the end, and an empty one never goes out.
pub proof fn a_batch_waits_for_its_time(u: Uploader)
    ensures
        !goes_out(u, false, false),
        u.pending@.len() == 0 ==> !goes_out(u, true, true),
        u.pending@.len() > 0 ==> goes_out(u, true, false) && goes_out(u, false, true),
{
}

} // verus!
