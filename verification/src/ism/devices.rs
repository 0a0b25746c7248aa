//! The table of devices heard: one row per device, the whole table sent again a
//! couple of times a second. That bounds the message size on a busy band and
//! means a dropped result costs nothing, because the next snapshot carries the
//! same information.
use vstd::prelude::*;
use vstd::utf8::encode_utf8;

use crate::text::{lemma_lex_total, lemma_lex_transitive, lex_le, text_le};

verus! {

/// One measured quantity. The value is kept as the bits of a double, which the
/// table only carries.
#[derive(Clone, Debug)]
pub struct Reading {
    pub label: String,
    pub unit: String,
    pub value_bits: u64,
}

/// One decoded frame.
#[derive(Clone, Debug)]
pub struct Decoded {
    /// The protocol's code.
    pub protocol: u8,
    /// What the device calls itself.
    pub device: String,
    pub model: Option<String>,
    pub readings: Vec<Reading>,
    pub extra: Vec<(String, String)>,
    pub encrypted: bool,
    pub raw_hex: String,
}

/// One device, as it was last heard.
#[derive(Clone, Debug)]
pub struct IsmReport {
    pub id: u64,
    pub protocol: u8,
    pub model: Option<String>,
    pub device: String,
    /// Where it was heard, in millihertz.
    pub freq_mhz: i64,
    pub snr_db: i16,
    /// Unix seconds.
    pub first_at: i64,
    pub last_at: i64,
    pub count: u32,
    pub readings: Vec<Reading>,
    pub extra: Vec<(String, String)>,
    pub encrypted: bool,
    pub raw_hex: String,
}

/// What the hash of nothing is.
pub const FNV_START: u64 = 0xcbf2_9ce4_8422_2325;

/// The multiplier of the hash. It is odd, so no step loses what came before.
pub const FNV_PRIME: u64 = 0x1000_0000_01b3;

/// One byte mixed in, as FNV-1a does: into the low bits first, then multiplied
/// through the word.
pub open spec fn fnv_mix(h: u64, b: u8) -> u64 {
    (((h ^ (b as u64)) as int * 0x1000_0000_01b3) % 0x1_0000_0000_0000_0000) as u64
}

/// `bytes` mixed in one after the other.
pub open spec fn fnv(bytes: Seq<u8>) -> u64
    decreases bytes.len(),
{
    if bytes.len() == 0 {
        FNV_START
    } else {
        fnv_mix(fnv(bytes.drop_last()), bytes.last())
    }
}

/// The row a device belongs to: its protocol's code, then its own name.
pub open spec fn device_key(protocol: u8, device: Seq<char>) -> u64 {
    fnv(seq![protocol] + encode_utf8(device))
}

fn mix(h: u64, b: u8) -> (r: u64)
    ensures
        r == fnv_mix(h, b),
{
    (h ^ (b as u64)).wrapping_mul(FNV_PRIME)
}

/// FNV-1a over the protocol and the device string.
///
/// A device that changes its identity is deliberately a new row: it is, as far
/// as anything on the air can tell, a different sensor.
pub fn device_id(protocol: u8, device: &str) -> (r: u64)
    ensures
        r == device_key(protocol, device@),
{
    let bytes = device.as_bytes();
    let ghost all = seq![protocol] + bytes@;
    let mut h: u64 = mix(FNV_START, protocol);
    let mut i: usize = 0;
    proof {
        reveal_with_fuel(fnv, 2);
        assert(all.take(1).drop_last() =~= Seq::<u8>::empty());
    }
    while i < bytes.len()
        invariant
            all == seq![protocol] + bytes@,
            i <= bytes@.len(),
            h == fnv(all.take(i + 1)),
        decreases bytes.len() - i,
    {
        h = mix(h, bytes[i]);
        proof {
            assert(all.take(i + 2).drop_last() =~= all.take(i + 1));
            assert(all.take(i + 2).last() == bytes@[i as int]);
        }
        i = i + 1;
    }
    assert(all.take(i + 1) =~= all);
    h
}

proof fn lemma_mix_keeps_apart(g: u64, h: u64, a: u8, b: u8)
    ensures
        g != h ==> fnv_mix(g, a) != fnv_mix(h, a),
        a != b ==> fnv_mix(h, a) != fnv_mix(h, b),
{
    assert((g != h ==> (g ^ (a as u64)) != (h ^ (a as u64))) && (a != b ==> (h ^ (a as u64)) != (h
        ^ (b as u64)))) by (bit_vector);
    if g != h {
        lemma_times_prime_keeps_apart(g ^ (a as u64), h ^ (a as u64));
    }
    if a != b {
        lemma_times_prime_keeps_apart(h ^ (a as u64), h ^ (b as u64));
    }
}

/// Multiplying by what has an inverse can be undone.
proof fn lemma_unit_keeps_apart(x: int, y: int, p: int, inv: int, over: int, m: int)
    requires
        m > 0,
        p * inv == 1 + over * m,
        (x * p) % m == (y * p) % m,
        -m < x - y < m,
    ensures
        x == y,
{
    let (a, b) = (x * p, y * p);
    vstd::arithmetic::div_mod::lemma_fundamental_div_mod(a, m);
    vstd::arithmetic::div_mod::lemma_fundamental_div_mod(b, m);
    let d = x - y;
    let k = a / m - b / m;
    assert(m * k == m * (a / m) - m * (b / m)) by (nonlinear_arith)
        requires
            k == a / m - b / m,
    ;
    assert(d * p == a - b) by (nonlinear_arith)
        requires
            d == x - y,
            a == x * p,
            b == y * p,
    ;
    assert(d * p == m * k);
    let q = k * inv - over * d;
    assert(d * (p * inv) == (d * p) * inv) by (nonlinear_arith);
    assert((m * k) * inv == m * (k * inv)) by (nonlinear_arith);
    assert(d * (1 + over * m) == d + m * (over * d)) by (nonlinear_arith);
    assert(m * q == m * (k * inv) - m * (over * d)) by (nonlinear_arith)
        requires
            q == k * inv - over * d,
    ;
    assert(d == m * q);
    assert(q == 0) by (nonlinear_arith)
        requires
            d == m * q,
            -m < d < m,
    ;
    assert(m * q == 0) by (nonlinear_arith)
        requires
            q == 0,
    ;
}

/// The prime is odd, so it has an inverse.
proof fn lemma_times_prime_keeps_apart(x: u64, y: u64)
    requires
        x != y,
    ensures
        (x as int * 0x1000_0000_01b3) % 0x1_0000_0000_0000_0000 != (y as int * 0x1000_0000_01b3)
            % 0x1_0000_0000_0000_0000,
{
    let (a, b) = (x as int, y as int);
    if (a * 0x1000_0000_01b3) % 0x1_0000_0000_0000_0000 == (b * 0x1000_0000_01b3) % 0x1_0000_0000_0000_0000 {
        lemma_unit_keeps_apart(
            a,
            b,
            0x1000_0000_01b3,
            13001286669926045051,
            12398993177650,
            0x1_0000_0000_0000_0000,
        );
    }
}

proof fn lemma_fnv_keeps_apart(p: Seq<u8>, q: Seq<u8>, at: int)
    requires
        p.len() == q.len(),
        0 <= at < p.len(),
        p[at] != q[at],
        forall|i: int| 0 <= i < p.len() && i != at ==> p[i] == q[i],
    ensures
        fnv(p) != fnv(q),
    decreases p.len(),
{
    let n = p.len() - 1;
    if at == n {
        assert(p.drop_last() =~= q.drop_last());
        lemma_mix_keeps_apart(0, fnv(p.drop_last()), p.last(), q.last());
    } else {
        lemma_fnv_keeps_apart(p.drop_last(), q.drop_last(), at);
        assert(p.last() == p[n] && q.last() == q[n]);
        lemma_mix_keeps_apart(fnv(p.drop_last()), fnv(q.drop_last()), p.last(), 0);
    }
}

/// Two devices whose protocol and name differ in exactly one byte never share a
/// row: protocols that number their devices alike are told apart, and so are two
/// devices of one protocol that differ in one digit.
pub proof fn one_byte_makes_another_row(p: u8, a: Seq<char>, q: u8, b: Seq<char>, at: int)
    requires
        encode_utf8(a).len() == encode_utf8(b).len(),
        0 <= at <= encode_utf8(a).len(),
        (seq![p] + encode_utf8(a))[at] != (seq![q] + encode_utf8(b))[at],
        forall|i: int|
            0 <= i <= encode_utf8(a).len() && i != at ==> #[trigger] (seq![p] + encode_utf8(a))[i]
                == (seq![q] + encode_utf8(b))[i],
    ensures
        device_key(p, a) != device_key(q, b),
{
    lemma_fnv_keeps_apart(seq![p] + encode_utf8(a), seq![q] + encode_utf8(b), at);
}

/// A signal-to-noise ratio in whole decibels, as the table shows it.
pub open spec fn shown_snr(db: int) -> int {
    if db < -99 {
        -99
    } else if db > 99 {
        99
    } else {
        db
    }
}

/// Which of the two decoders a frame came from.
#[derive(Clone, Copy, Debug, PartialEq, Eq, Structural)]
pub enum Source {
    Native,
    /// rtl_433. Two of its devices can report the same name under different
    /// models, so the model is part of the identity as well as the display.
    Rtl433,
}

pub open spec fn model_text(d: Decoded) -> Seq<char> {
    match d.model {
        Some(m) => m@,
        None => Seq::empty(),
    }
}

/// The row a frame belongs to.
pub open spec fn frame_key(d: Decoded, source: Source) -> u64 {
    match source {
        Source::Native => device_key(d.protocol, d.device@),
        Source::Rtl433 => device_key(d.protocol, model_text(d).push('\u{0}') + d.device@),
    }
}

/// The row a frame belongs to.
fn frame_id(d: &Decoded, source: Source) -> (r: u64)
    ensures
        r == frame_key(*d, source),
{
    match source {
        Source::Native => device_id(d.protocol, d.device.as_str()),
        Source::Rtl433 => {
            let mut name = String::from_str("");
            proof {
                reveal_strlit("");
                reveal_strlit("\u{0}");
            }
            match &d.model {
                Some(m) => {
                    name.append(m.as_str());
                },
                None => {},
            }
            assert(name@ =~= model_text(*d));
            name.append("\u{0}");
            assert(name@ =~= model_text(*d).push('\u{0}'));
            name.append(d.device.as_str());
            device_id(d.protocol, name.as_str())
        },
    }
}

/// A row after one more frame from its device. Only a native decoder can tell
/// whether a device has started to encrypt.
pub open spec fn heard_again(
    r: IsmReport,
    d: Decoded,
    source: Source,
    freq_mhz: i64,
    snr_db: int,
    now: i64,
) -> IsmReport {
    IsmReport {
        id: r.id,
        protocol: r.protocol,
        model: d.model,
        device: r.device,
        freq_mhz,
        snr_db: shown_snr(snr_db) as i16,
        first_at: r.first_at,
        last_at: now,
        count: if r.count < u32::MAX { (r.count + 1) as u32 } else { u32::MAX },
        readings: d.readings,
        extra: d.extra,
        encrypted: if source == Source::Native { d.encrypted } else { r.encrypted },
        raw_hex: d.raw_hex,
    }
}

/// The row of a device heard for the first time.
pub open spec fn first_heard(
    d: Decoded,
    source: Source,
    freq_mhz: i64,
    snr_db: int,
    now: i64,
) -> IsmReport {
    IsmReport {
        id: frame_key(d, source),
        protocol: d.protocol,
        model: d.model,
        device: d.device,
        freq_mhz,
        snr_db: shown_snr(snr_db) as i16,
        first_at: now,
        last_at: now,
        count: 1,
        readings: d.readings,
        extra: d.extra,
        encrypted: d.encrypted,
        raw_hex: d.raw_hex,
    }
}

/// No two rows carry the same id.
pub open spec fn ids_distinct(rows: Seq<IsmReport>) -> bool {
    forall|i: int, j: int|
        0 <= i < j < rows.len() ==> (#[trigger] rows[i]).id != (#[trigger] rows[j]).id
}

pub open spec fn has_id(rows: Seq<IsmReport>, id: u64) -> bool {
    exists|i: int| 0 <= i < rows.len() && (#[trigger] rows[i]).id == id
}

/// Whether `kept` is what is left of `rows` once the least recently heard have
/// made way for no more than `cap` rows.
pub open spec fn is_trimmed(rows: Seq<IsmReport>, kept: Seq<IsmReport>, cap: int) -> bool {
    &&& kept.len() == if rows.len() <= cap { rows.len() as int } else { cap }
    &&& forall|i: int| 0 <= i < kept.len() ==> rows.contains(#[trigger] kept[i])
    &&& forall|j: int, i: int|
        0 <= j < rows.len() && 0 <= i < kept.len() && !kept.contains(#[trigger] rows[j])
            ==> rows[j].last_at <= (#[trigger] kept[i]).last_at
}

/// Whether `a` is shown above `b`: newest first, then by name.
pub open spec fn shown_before(a: IsmReport, b: IsmReport) -> bool {
    a.last_at > b.last_at || a.last_at == b.last_at && lex_le(a.device@, b.device@)
}

/// The table of devices heard.
#[derive(Clone, Debug)]
pub struct DeviceTable {
    pub rows: Vec<IsmReport>,
}

impl DeviceTable {
    pub open spec fn wf(&self) -> bool {
        ids_distinct(self.rows@)
    }

    pub fn new() -> (t: DeviceTable)
        ensures
            t.rows@.len() == 0,
            t.wf(),
    {
        DeviceTable { rows: Vec::new() }
    }

    /// Fold one frame into the table: its device's row is brought up to date, or
    /// made.
    pub fn record(&mut self, d: Decoded, source: Source, freq_mhz: i64, snr_db: i64, now: i64)
        requires
            old(self).wf(),
        ensures
            final(self).wf(),
            has_id(old(self).rows@, frame_key(d, source)) ==> exists|i: int|
                0 <= i < old(self).rows@.len() && (#[trigger] old(self).rows@[i]).id == frame_key(
                    d,
                    source,
                ) && final(self).rows@ == old(self).rows@.update(
                    i,
                    heard_again(old(self).rows@[i], d, source, freq_mhz, snr_db as int, now),
                ),
            !has_id(old(self).rows@, frame_key(d, source)) ==> final(self).rows@
                == old(self).rows@.push(first_heard(d, source, freq_mhz, snr_db as int, now)),
    {
        let id: u64 = frame_id(&d, source);
        let snr: i16 = if snr_db < -99 {
            -99
        } else if snr_db > 99 {
            99
        } else {
            snr_db as i16
        };
        let mut i: usize = 0;
        while i < self.rows.len() && self.rows[i].id != id
            invariant
                i <= self.rows@.len(),
                self.rows@ == old(self).rows@,
                forall|k: int| 0 <= k < i ==> (#[trigger] self.rows@[k]).id != id,
            decreases self.rows@.len() - i,
        {
            i = i + 1;
        }
        if i < self.rows.len() {
            let count: u32 = if self.rows[i].count < u32::MAX {
                self.rows[i].count + 1
            } else {
                u32::MAX
            };
            let was = self.rows.remove(i);
            let ghost known = was;
            let encrypted: bool = if matches!(source, Source::Native) {
                d.encrypted
            } else {
                was.encrypted
            };
            let row = IsmReport {
                id: was.id,
                protocol: was.protocol,
                model: d.model,
                device: was.device,
                freq_mhz,
                snr_db: snr,
                first_at: was.first_at,
                last_at: now,
                count,
                readings: d.readings,
                extra: d.extra,
                encrypted,
                raw_hex: d.raw_hex,
            };
            self.rows.insert(i, row);
            assert(self.rows@ =~= old(self).rows@.update(
                i as int,
                heard_again(old(self).rows@[i as int], d, source, freq_mhz, snr_db as int, now),
            ));
        } else {
            let row = IsmReport {
                id,
                protocol: d.protocol,
                model: d.model,
                device: d.device,
                freq_mhz,
                snr_db: snr,
                first_at: now,
                last_at: now,
                count: 1,
                readings: d.readings,
                extra: d.extra,
                encrypted: d.encrypted,
                raw_hex: d.raw_hex,
            };
            self.rows.push(row);
        }
    }

    /// Drop the least recently heard devices past the cap. The table always has
    /// room for one.
    pub fn trim(&mut self, max_devices: u16)
        requires
            old(self).wf(),
        ensures
            final(self).wf(),
            is_trimmed(
                old(self).rows@,
                final(self).rows@,
                if max_devices == 0 {
                    1
                } else {
                    max_devices as int
                },
            ),
    {
        let cap: usize = if max_devices == 0 {
            1
        } else {
            max_devices as usize
        };
        let ghost all = self.rows@;
        while self.rows.len() > cap
            invariant
                cap >= 1,
                cap == (if max_devices == 0 {
                    1
                } else {
                    max_devices as int
                }),
                self.wf(),
                ids_distinct(all),
                all.len() <= cap ==> self.rows@ == all,
                all.len() > cap ==> self.rows@.len() >= cap,
                forall|i: int| 0 <= i < self.rows@.len() ==> all.contains(#[trigger] self.rows@[i]),
                forall|j: int, i: int|
                    0 <= j < all.len() && 0 <= i < self.rows@.len() && !self.rows@.contains(
                        #[trigger] all[j],
                    ) ==> all[j].last_at <= (#[trigger] self.rows@[i]).last_at,
            decreases self.rows@.len(),
        {
            let mut at: usize = 0;
            let mut i: usize = 1;
            while i < self.rows.len()
                invariant
                    at < i <= self.rows@.len(),
                    forall|k: int|
                        0 <= k < i ==> self.rows@[at as int].last_at <= (
                        #[trigger] self.rows@[k]).last_at,
                decreases self.rows@.len() - i,
            {
                if self.rows[i].last_at < self.rows[at].last_at {
                    at = i;
                }
                i = i + 1;
            }
            let ghost before = self.rows@;
            let _ = self.rows.remove(at);
            proof {
                let now = self.rows@;
                assert(now =~= before.remove(at as int));
                assert forall|k: int| 0 <= k < now.len() implies before.contains(
                    #[trigger] now[k],
                ) by {
                    let m = if k < at {
                        k
                    } else {
                        k + 1
                    };
                    assert(now[k] == before[m]);
                }
                assert forall|k: int| 0 <= k < now.len() implies all.contains(#[trigger] now[k]) by {
                    let m = if k < at {
                        k
                    } else {
                        k + 1
                    };
                    assert(now[k] == before[m]);
                }
                assert forall|j: int, i: int|
                    0 <= j < all.len() && 0 <= i < now.len() && !now.contains(
                        #[trigger] all[j],
                    ) implies all[j].last_at <= (#[trigger] now[i]).last_at by {
                    let m = if i < at {
                        i
                    } else {
                        i + 1
                    };
                    assert(now[i] == before[m]);
                    if before.contains(all[j]) {
                        let b = choose|b: int| 0 <= b < before.len() && before[b] == all[j];
                        if b < at {
                            assert(now[b] == all[j]);
                        } else if b > at {
                            assert(now[b - 1] == all[j]);
                        }
                        assert(b == at);
                    }
                }
            }
        }
    }

    /// Newest first, which is the order the panel wants and the order that keeps
    /// a device that has just spoken at the top of a long list.
    pub fn snapshot(&self) -> (v: Vec<&IsmReport>)
        ensures
            forall|i: int, j: int|
                0 <= i <= j < v@.len() ==> shown_before(*#[trigger] v@[i], *#[trigger] v@[j]),
            v@.map_values(|r: &IsmReport| *r).to_multiset() == self.rows@.to_multiset(),
    {
        let mut v: Vec<&IsmReport> = Vec::new();
        let mut n: usize = 0;
        assert(v@.map_values(|r: &IsmReport| *r) =~= self.rows@.take(0));
        while n < self.rows.len()
            invariant
                n <= self.rows@.len(),
                v@.len() == n,
                forall|i: int, j: int|
                    0 <= i <= j < v@.len() ==> shown_before(*#[trigger] v@[i], *#[trigger] v@[j]),
                v@.map_values(|r: &IsmReport| *r).to_multiset() == self.rows@.take(
                    n as int,
                ).to_multiset(),
            decreases self.rows@.len() - n,
        {
            let x: &IsmReport = &self.rows[n];
            let mut at: usize = 0;
            while at < n && (v[at].last_at > x.last_at || v[at].last_at == x.last_at && text_le(
                v[at].device.as_str(),
                x.device.as_str(),
            ))
                invariant
                    at <= n == v@.len(),
                    forall|k: int| 0 <= k < at ==> shown_before(*#[trigger] v@[k], *x),
                decreases n - at,
            {
                at = at + 1;
            }
            let ghost before = v@;
            v.insert(at, x);
            proof {
                let f = |r: &IsmReport| *r;
                let shorter = self.rows@.take(n as int);
                assert(self.rows@.take(n + 1) =~= shorter.insert(n as int, *x));
                vstd::seq_lib::to_multiset_insert(shorter, n as int, *x);
                assert(v@.map_values(f) =~= before.map_values(f).insert(at as int, *x));
                vstd::seq_lib::to_multiset_insert(before.map_values(f), at as int, *x);
                assert forall|i: int, j: int| 0 <= i <= j < n + 1 implies shown_before(
                    *#[trigger] v@[i],
                    *#[trigger] v@[j],
                ) by {
                    lemma_lex_total(x.device@, x.device@);
                    if at < n {
                        lemma_lex_total(before[at as int].device@, x.device@);
                    }
                    let a = if i < at {
                        before[i]
                    } else if i == at {
                        x
                    } else {
                        before[i - 1]
                    };
                    let b = if j < at {
                        before[j]
                    } else if j == at {
                        x
                    } else {
                        before[j - 1]
                    };
                    assert(v@[i] == a && v@[j] == b);
                    if i == at && j > at {
                        let m = before[at as int];
                        assert(shown_before(*m, *before[j - 1]));
                        assert(shown_before(*x, *m));
                        if x.last_at == m.last_at && m.last_at == before[j - 1].last_at {
                            lemma_lex_transitive(x.device@, m.device@, before[j - 1].device@);
                        }
                    }
                }
            }
            n = n + 1;
        }
        assert(self.rows@.take(n as int) =~= self.rows@);
        v
    }
}

/// A device that has just been heard is in the table whatever the cap, provided
/// that nothing in it was heard later: it is the stalest rows that make way.
pub proof fn the_latest_device_is_never_the_one_dropped(
    rows: Seq<IsmReport>,
    kept: Seq<IsmReport>,
    cap: int,
    at: int,
)
    requires
        cap >= 1,
        is_trimmed(rows, kept, cap),
        0 <= at < rows.len(),
        forall|j: int| 0 <= j < rows.len() && j != at ==> (#[trigger] rows[j]).last_at < rows[at].last_at,
    ensures
        kept.contains(rows[at]),
{
    assert(kept.len() >= 1);
    if !kept.contains(rows[at]) {
        assert(rows[at].last_at <= kept[0].last_at);
        assert(rows.contains(kept[0]));
        let j = choose|j: int| 0 <= j < rows.len() && rows[j] == kept[0];
        if j == at {
            assert(kept.contains(rows[at]));
        }
    }
}

} // verus!
