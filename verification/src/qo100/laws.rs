//! What the beacon's receiver is for, seen from the transmitter.
use crate::qo100::bpsk::{
    a_sent_frame_is_read, at_most_12_db, bit_of, combination, crc_bit, crc_bits, crc_of, crc_upto,
    differential, distinct_syncs, first_boundary, flips_of, inter_bit, is_best_carrier,
    is_first_frame, is_frame_at, is_least_distance, is_match_of, is_probe, is_scan_best, is_sync_at,
    lemma_byte_bits, manchester, packed_bytes, protected, sync_bits, sync_errors, sync_word_bit,
    unpacked, zigzag, DecodeProgress, FrameMatch, LobeMeasure,
};
use crate::qo100::controller::{
    current_estimate, goes_on, is_current, is_locked, recent, seed_of, tells, took_block,
    took_coded, took_pass, took_window, track_band, was_cut, BlockStep, BufferPlan, CarrierEstimate,
    Lock, Settings, Status, Worker,
};
use crate::text::lossy_text;
use vstd::prelude::*;
use vstd::utf8::{decode_utf8, encode_utf8, valid_utf8};

verus! {

// ---------------------------------------------------------------------------
// Uncoded frames
// ---------------------------------------------------------------------------

/// The bits that the beacon sends for a payload: the sync word, the payload's 512
/// bytes and its checksum, each byte with its highest bit first.
pub open spec fn sent_frame(payload: Seq<u8>) -> Seq<bool> {
    sync_bits() + unpacked(protected(payload))
}

/// A frame that is read where one was sent gives back all that was in it: its
/// bits as they went out, and all 512 bytes as text. Where the payload is valid
/// UTF-8, the text encodes to the payload again.
pub proof fn a_frame_gives_its_whole_payload_back(
    bits: Seq<bool>,
    at: int,
    payload: Seq<u8>,
    m: FrameMatch,
)
    requires
        payload.len() == 512,
        is_sync_at(bits, at),
        at + 32 + 8 * 514 <= bits.len(),
        bits.subrange(at + 32, at + 32 + 8 * 514) == unpacked(protected(payload)),
        is_match_of(bits, at, m),
    ensures
        is_frame_at(bits, at),
        m.db_start == at,
        m.source_bits@ == sent_frame(payload),
        m.text@ == lossy_text(payload),
        valid_utf8(payload) ==> encode_utf8(m.text@) == payload,
        valid_utf8(payload) ==> m.text@ == decode_utf8(payload),
{
    a_sent_frame_is_read(bits, at, payload);
    if valid_utf8(payload) {
        broadcast use vstd::utf8::decode_utf8_encode_utf8;

        assert(m.text@ == decode_utf8(payload));
    }
}

/// The checksum takes in each byte as CRC-16/CCITT does, by the polynomial
/// x^16 + x^12 + x^5 + 1, from all ones.
pub proof fn the_checksum_is_ccitt_false(data: Seq<u8>, b: u8)
    ensures
        crc_of(Seq::empty()) == 0xFFFF,
        ({
            let c = crc_of(data);
            let x = (c >> 8) ^ (b as u16);
            let t = x ^ (x >> 4);
            crc_of(data.push(b)) == (c << 8) ^ (t << 12) ^ (t << 5) ^ t
        }),
{
    let c = crc_of(data);
    let n = data.len();
    lemma_crc_prefix(data, data.push(b), n);
    let fed = c ^ ((b as u16) << 8);
    reveal_with_fuel(crc_bits, 9);
    let x = (c >> 8) ^ (b as u16);
    let t = x ^ (x >> 4);
    assert(crc_bit(crc_bit(crc_bit(crc_bit(crc_bit(crc_bit(crc_bit(crc_bit(fed)))))))) == (c << 8)
        ^ (t << 12) ^ (t << 5) ^ t) by (bit_vector)
        requires
            fed == c ^ ((b as u16) << 8),
            x == (c >> 8) ^ (b as u16),
            t == x ^ (x >> 4),
    ;
}

proof fn lemma_crc_prefix(a: Seq<u8>, b: Seq<u8>, n: nat)
    requires
        n <= a.len(),
        n <= b.len(),
        forall|i: int| 0 <= i < n ==> a[i] == b[i],
    ensures
        crc_upto(a, n) == crc_upto(b, n),
    decreases n,
{
    if n > 0 {
        lemma_crc_prefix(a, b, (n - 1) as nat);
    }
}

/// A frame that stands by itself among the bits is matched where its sync word
/// begins.
pub proof fn a_sent_frame_is_found(before: Seq<bool>, payload: Seq<u8>, after: Seq<bool>)
    requires
        payload.len() == 512,
    ensures
        is_frame_at(before + sent_frame(payload) + after, before.len() as int),
{
    let bits = before + sent_frame(payload) + after;
    let at = before.len() as int;
    assert(unpacked(protected(payload)).len() == 8 * 514);
    assert(bits.subrange(at + 32, at + 32 + 4112) =~= unpacked(protected(payload)));
    assert forall|k: int| 0 <= k < 32 implies #[trigger] bits[at + k] == sync_word_bit(k) by {
        assert(sent_frame(payload)[k] == sync_bits()[k]);
    }
    lemma_no_errors(bits, at, 32);
    a_sent_frame_is_read(bits, at, payload);
}

proof fn lemma_no_errors(bits: Seq<bool>, at: int, n: nat)
    requires
        n <= 32,
        forall|k: int| 0 <= k < 32 ==> #[trigger] bits[at + k] == sync_word_bit(k),
    ensures
        sync_errors(bits, at, n) == 0,
    decreases n,
{
    if n > 0 {
        lemma_no_errors(bits, at, (n - 1) as nat);
        assert(bits[at + (n - 1)] == sync_word_bit(n - 1));
    }
}

/// The sync word, as it goes out.
pub proof fn the_sync_word_is_the_published_one()
    ensures
        sync_bits() == unpacked(seq![0x39u8, 0x15, 0xED, 0x30]),
{
    let s = sync_bits();
    let u = unpacked(seq![0x39u8, 0x15, 0xED, 0x30]);
    assert(
        (0x3915_ED30u32 >> 31) & 1 == 0 && (0x39u8 >> 7) & 1 == 0 &&
        (0x3915_ED30u32 >> 30) & 1 == 0 && (0x39u8 >> 6) & 1 == 0 &&
        (0x3915_ED30u32 >> 29) & 1 != 0 && (0x39u8 >> 5) & 1 != 0 &&
        (0x3915_ED30u32 >> 28) & 1 != 0 && (0x39u8 >> 4) & 1 != 0 &&
        (0x3915_ED30u32 >> 27) & 1 != 0 && (0x39u8 >> 3) & 1 != 0 &&
        (0x3915_ED30u32 >> 26) & 1 == 0 && (0x39u8 >> 2) & 1 == 0 &&
        (0x3915_ED30u32 >> 25) & 1 == 0 && (0x39u8 >> 1) & 1 == 0 &&
        (0x3915_ED30u32 >> 24) & 1 != 0 && (0x39u8 >> 0) & 1 != 0 &&
        (0x3915_ED30u32 >> 23) & 1 == 0 && (0x15u8 >> 7) & 1 == 0 &&
        (0x3915_ED30u32 >> 22) & 1 == 0 && (0x15u8 >> 6) & 1 == 0 &&
        (0x3915_ED30u32 >> 21) & 1 == 0 && (0x15u8 >> 5) & 1 == 0 &&
        (0x3915_ED30u32 >> 20) & 1 != 0 && (0x15u8 >> 4) & 1 != 0 &&
        (0x3915_ED30u32 >> 19) & 1 == 0 && (0x15u8 >> 3) & 1 == 0 &&
        (0x3915_ED30u32 >> 18) & 1 != 0 && (0x15u8 >> 2) & 1 != 0 &&
        (0x3915_ED30u32 >> 17) & 1 == 0 && (0x15u8 >> 1) & 1 == 0 &&
        (0x3915_ED30u32 >> 16) & 1 != 0 && (0x15u8 >> 0) & 1 != 0 &&
        (0x3915_ED30u32 >> 15) & 1 != 0 && (0xEDu8 >> 7) & 1 != 0 &&
        (0x3915_ED30u32 >> 14) & 1 != 0 && (0xEDu8 >> 6) & 1 != 0 &&
        (0x3915_ED30u32 >> 13) & 1 != 0 && (0xEDu8 >> 5) & 1 != 0 &&
        (0x3915_ED30u32 >> 12) & 1 == 0 && (0xEDu8 >> 4) & 1 == 0 &&
        (0x3915_ED30u32 >> 11) & 1 != 0 && (0xEDu8 >> 3) & 1 != 0 &&
        (0x3915_ED30u32 >> 10) & 1 != 0 && (0xEDu8 >> 2) & 1 != 0 &&
        (0x3915_ED30u32 >> 9) & 1 == 0 && (0xEDu8 >> 1) & 1 == 0 &&
        (0x3915_ED30u32 >> 8) & 1 != 0 && (0xEDu8 >> 0) & 1 != 0 &&
        (0x3915_ED30u32 >> 7) & 1 == 0 && (0x30u8 >> 7) & 1 == 0 &&
        (0x3915_ED30u32 >> 6) & 1 == 0 && (0x30u8 >> 6) & 1 == 0 &&
        (0x3915_ED30u32 >> 5) & 1 != 0 && (0x30u8 >> 5) & 1 != 0 &&
        (0x3915_ED30u32 >> 4) & 1 != 0 && (0x30u8 >> 4) & 1 != 0 &&
        (0x3915_ED30u32 >> 3) & 1 == 0 && (0x30u8 >> 3) & 1 == 0 &&
        (0x3915_ED30u32 >> 2) & 1 == 0 && (0x30u8 >> 2) & 1 == 0 &&
        (0x3915_ED30u32 >> 1) & 1 == 0 && (0x30u8 >> 1) & 1 == 0 &&
        (0x3915_ED30u32 >> 0) & 1 == 0 && (0x30u8 >> 0) & 1 == 0) by (bit_vector);
    assert forall|k: int| 0 <= k < 32 implies s[k] == u[k] by {
        assert(k == 0 || k == 1 || k == 2 || k == 3 || k == 4 || k == 5 || k == 6 || k == 7
            || k == 8 || k == 9 || k == 10 || k == 11 || k == 12 || k == 13 || k == 14 || k == 15
            || k == 16 || k == 17 || k == 18 || k == 19 || k == 20 || k == 21 || k == 22
            || k == 23 || k == 24 || k == 25 || k == 26 || k == 27 || k == 28 || k == 29
            || k == 30 || k == 31);
    }
    assert(s =~= u);
}

/// Where the bits from `at` on differ from the sync word.
pub open spec fn wrong_bits(bits: Seq<bool>, at: int, n: nat) -> Set<int> {
    Set::new(|k: int| 0 <= k < n && bits[at + k] != sync_bits()[k])
}

proof fn lemma_wrong_bits(bits: Seq<bool>, at: int, n: nat)
    requires
        n <= 32,
    ensures
        wrong_bits(bits, at, n).finite(),
        wrong_bits(bits, at, n).len() == sync_errors(bits, at, n),
    decreases n,
{
    if n == 0 {
        assert(wrong_bits(bits, at, n) =~= Set::empty());
    } else {
        let m = (n - 1) as nat;
        lemma_wrong_bits(bits, at, m);
        if bits[at + n - 1] != sync_word_bit(n - 1) {
            assert(wrong_bits(bits, at, n) =~= wrong_bits(bits, at, m).insert(n - 1));
        } else {
            assert(wrong_bits(bits, at, n) =~= wrong_bits(bits, at, m));
        }
    }
}

/// The sync word is matched where no more than three of its bits are wrong.
pub proof fn three_wrong_bits_are_forgiven(bits: Seq<bool>, at: int)
    requires
        0 <= at && at + 32 <= bits.len(),
    ensures
        is_sync_at(bits, at) <==> wrong_bits(bits, at, 32).len() <= 3,
        sync_errors(bits, at, 32) == wrong_bits(bits, at, 32).len(),
{
    lemma_wrong_bits(bits, at, 32);
}

/// Whole bytes come back from their bits, and what is left of a byte is dropped.
pub proof fn bytes_come_back_from_their_bits(bytes: Seq<u8>, rest: Seq<bool>)
    requires
        rest.len() < 8,
    ensures
        packed_bytes(unpacked(bytes) + rest) == bytes,
{
    let bits = unpacked(bytes);
    let all = bits + rest;
    assert(all.len() / 8 == bytes.len());
    assert forall|i: int| 0 <= i < bytes.len() implies packed_bytes(all)[i] == bytes[i] by {
        lemma_byte_bits(bytes[i]);
        assert forall|k: int| 0 <= k < 8 implies #[trigger] all[8 * i + k] == bit_of(
            bytes[i],
            k,
        ) by {
            assert((8 * i + k) / 8 == i && (8 * i + k) % 8 == k);
            assert(all[8 * i + k] == bits[8 * i + k]);
        }
        assert(all[8 * i] == all[8 * i + 0]);
    }
    assert(packed_bytes(all) =~= bytes);
}

/// A one turns the phase and a zero keeps it, from the phase that is off.
pub proof fn a_one_turns_the_phase(bits: Seq<bool>, i: int)
    requires
        0 <= i < bits.len(),
    ensures
        differential(bits).len() == bits.len(),
        i == 0 ==> differential(bits)[i] == bits[i],
        i > 0 ==> (differential(bits)[i] != differential(bits)[i - 1] <==> bits[i]),
{
    reveal_with_fuel(crate::qo100::bpsk::phase_after, 3);
}

/// Each bit is two chips, the second one turned.
pub proof fn a_bit_is_two_chips(e: Seq<bool>, i: int)
    requires
        0 <= i < e.len(),
    ensures
        manchester(e).len() == 2 * e.len(),
        manchester(e)[2 * i] == e[i],
        manchester(e)[2 * i + 1] == !e[i],
{
    assert((2 * i) % 2 == 0 && (2 * i) / 2 == i);
    assert((2 * i + 1) % 2 == 1 && (2 * i + 1) / 2 == i);
}

/// The other parity is for chips of which the first was missed.
pub proof fn the_other_parity_reads_a_missed_chip(bits: Seq<bool>)
    requires
        bits.len() > 0,
    ensures
        inter_bit(flips_of(manchester(differential(bits)).skip(1)), 1) == bits.skip(1),
{
    let e = differential(bits);
    let whole = manchester(e);
    let chips = whole.skip(1);
    let flips = flips_of(chips);
    let got = inter_bit(flips, 1);
    assert(got.len() == bits.len() - 1);
    assert forall|k: int| 0 <= k < got.len() implies got[k] == bits.skip(1)[k] by {
        a_bit_is_two_chips(e, k);
        a_bit_is_two_chips(e, k + 1);
        assert(chips[2 * k] == whole[2 * k + 1] && chips[2 * k + 1] == whole[2 * (k + 1)]);
        assert(flips[2 * k] == (chips[2 * k] != chips[2 * k + 1]));
        a_one_turns_the_phase(bits, k + 1);
    }
    assert(got =~= bits.skip(1));
}

/// The combinations that are tried: for each chip timing, both parities.
pub proof fn both_parities_of_each_timing_are_tried(phases: Seq<Vec<bool>>, p: int, parity: nat)
    requires
        0 <= p < phases.len(),
        parity < 2,
    ensures
        combination(phases, 2 * p + parity) == inter_bit(phases[p]@, parity),
        first_boundary(0) == 1 && first_boundary(1) == 0,
{
    assert((2 * p + parity) / 2 == p && (2 * p + parity) % 2 == parity);
}

/// Whether a list is a fair count of the places below `n`: each is one, they are
/// more than four bits apart, and every place that matches is one of them or
/// at most four bits after one.
pub open spec fn is_fair_count(places: Set<int>, n: int, list: Seq<int>) -> bool {
    &&& forall|i: int| 0 <= i < list.len() ==> 0 <= #[trigger] list[i] < n && places.contains(list[i])
    &&& forall|i: int, j: int| 0 <= i < j < list.len() ==> #[trigger] list[i] + 4 < #[trigger] list[j]
    &&& forall|p: int| 0 <= p < n && places.contains(p) ==> #[trigger] is_near(list, p)
}

/// Whether `p` is one of the places or at most four after one.
pub open spec fn is_near(list: Seq<int>, p: int) -> bool {
    exists|i: int| 0 <= i < list.len() && #[trigger] list[i] <= p <= list[i] + 4
}

proof fn lemma_fair_step(places: Set<int>, n: int, before: Seq<int>, now: Seq<int>)
    requires
        n >= 0,
        is_fair_count(places, n, before),
        now == (if places.contains(n) && (before.len() == 0 || n - before.last() > 4) {
            before.push(n)
        } else {
            before
        }),
    ensures
        is_fair_count(places, n + 1, now),
{
    if before.len() > 0 {
        assert(before[before.len() - 1] == before.last());
    }
    assert forall|p: int| 0 <= p < n + 1 && places.contains(p) implies #[trigger] is_near(
        now,
        p,
    ) by {
        if p < n {
            assert(is_near(before, p));
            let i = choose|i: int|
                0 <= i < before.len() && #[trigger] before[i] <= p <= before[i] + 4;
            assert(now[i] == before[i]);
        } else if now.len() == before.len() {
            assert(now[before.len() - 1] <= p <= now[before.len() - 1] + 4);
        } else {
            assert(now[before.len() as int] == n);
        }
    }
    assert forall|i: int, j: int| 0 <= i < j < now.len() implies #[trigger] now[i] + 4
        < #[trigger] now[j] by {
        if j == before.len() {
            if i < before.len() - 1 {
                assert(before[i] + 4 < before[before.len() - 1]);
            }
        } else {
            assert(before[i] + 4 < before[j]);
        }
    }
    assert forall|i: int| 0 <= i < now.len() implies 0 <= #[trigger] now[i] < n + 1 && places.contains(
        now[i],
    ) by {
        if i < before.len() {
            assert(0 <= before[i] < n);
        }
    }
}

/// The places where the sync word matches.
pub open spec fn sync_places(bits: Seq<bool>) -> Set<int> {
    Set::new(|p: int| is_sync_at(bits, p))
}

/// A run of near matches counts once.
pub proof fn near_matches_count_once(bits: Seq<bool>, n: nat)
    ensures
        is_fair_count(sync_places(bits), n as int, distinct_syncs(bits, n)),
    decreases n,
{
    if n > 0 {
        near_matches_count_once(bits, (n - 1) as nat);
        lemma_fair_step(
            sync_places(bits),
            n - 1,
            distinct_syncs(bits, (n - 1) as nat),
            distinct_syncs(bits, n),
        );
    }
}

/// The drift that is tried around an estimate: for each curvature from the
/// estimate's own outward, each rate from its own outward.
pub proof fn the_drift_grid_goes_outward(i: int)
    requires
        0 <= i < 27,
    ensures
        crate::qo100::bpsk::drift_point(4, i).0 == zigzag(i / 9),
        crate::qo100::bpsk::drift_point(4, i).1 == zigzag(i % 9),
        -1 <= zigzag(i / 9) <= 1,
        -4 <= zigzag(i % 9) <= 4,
{
    assert(0 <= i / 9 < 3 && 0 <= i % 9 < 9);
}

/// The carrier that is picked has a null of 2.5 dB, lobes 3 dB above what is
/// around them and above the floor, and is 55 % even; none such scores higher,
/// where each level counts up to 12 dB and evenness as much as 8 dB.
pub proof fn the_carrier_looks_like_the_beacon(seen: Seq<LobeMeasure>, i: int, j: int)
    requires
        is_best_carrier(seen, seen.len() as int, i),
        0 <= j < seen.len(),
    ensures
        ({
            let m = seen[i];
            let o = seen[j];
            let right = o.null_depth_udb >= 2_500_000 && o.lobe_excess_udb >= 3_000_000
                && o.snr_udb >= 3_000_000 && o.symmetry_ppm >= 550_000;
            let score = |s: LobeMeasure|
                up_to(s.null_depth_udb as int) + up_to(s.lobe_excess_udb as int) + up_to(
                    s.snr_udb as int,
                ) + 8 * s.symmetry_ppm;
            &&& m.null_depth_udb >= 2_500_000 && m.lobe_excess_udb >= 3_000_000
            &&& m.snr_udb >= 3_000_000 && m.symmetry_ppm >= 550_000
            &&& right ==> score(o) <= score(m)
            &&& right && j < i ==> score(o) < score(m)
        }),
{
    assert(up_to(seen[i].snr_udb as int) == at_most_12_db(seen[i].snr_udb as int));
}

/// A level, of which no more than 12 dB counts.
pub open spec fn up_to(udb: int) -> int {
    if udb < 12_000_000 {
        udb
    } else {
        12_000_000
    }
}

// ---------------------------------------------------------------------------
// The worker
// ---------------------------------------------------------------------------

/// The lengths of the buffers are so many seconds of samples, to the nearest
/// one: 2.3 and 1.15 frames of 10.36 s, three seconds, one, and a frame.
pub proof fn buffers_are_so_many_seconds_long(p: BufferPlan, rate_mhz: int)
    requires
        p.is_for(rate_mhz),
        rate_mhz >= 1000,
    ensures
        -500_000 <= 1_000_000 * p.window_len - 23_828 * rate_mhz <= 500_000,
        -500_000 <= 1_000_000 * p.keep_len - 11_914 * rate_mhz <= 500_000,
        -500 <= 1000 * p.track_len - 3 * rate_mhz <= 500,
        -500 <= 1000 * p.track_hop - rate_mhz <= 500,
        -500_000 <= 1_000_000 * p.frame_len - 10_360 * rate_mhz <= 500_000,
{
}

/// An estimate counts for twelve seconds.
pub proof fn an_estimate_counts_for_twelve_seconds(e: CarrierEstimate, at: i64, now: i64)
    ensures
        current_estimate(Some((e, at)), now) == (if now <= at + 12 {
            Some(e)
        } else {
            None
        }),
        current_estimate(None, now) is None,
        is_current(at, now) <==> now <= at + 12,
{
}

/// Where the tracker looks: 3 kHz either way of an estimate that counts, and
/// otherwise in the parking window, or from 3 kHz below the centre up to its end
/// where the receiver is corrected automatically.
pub proof fn the_tracker_looks_where_the_beacon_was(
    cfg: Settings,
    e: CarrierEstimate,
    at: i64,
    now: i64,
)
    ensures
        now <= at + 12 ==> ({
            let (lo, hi) = track_band(cfg, Some((e, at)), now);
            lo + hi == 2 * e.offset_mhz && hi - lo == 2 * 3_000_000
        }),
        now > at + 12 ==> track_band(cfg, Some((e, at)), now) == track_band(cfg, None, now),
        cfg.auto_apply ==> track_band(cfg, None, now) == (-3_000_000int, cfg.park_hi_mhz as int),
        !cfg.auto_apply ==> track_band(cfg, None, now) == (
            cfg.park_lo_mhz as int,
            cfg.park_hi_mhz as int,
        ),
{
}

/// The history that the drift is fitted to is its end, from the first estimate
/// that is no more than twelve seconds old.
pub proof fn the_history_goes_back_twelve_seconds(h: Seq<(u64, i64)>, now: u64, k: int)
    requires
        0 <= k <= h.len(),
        forall|i: int| 0 <= i < k ==> now - (#[trigger] h[i]).0 > 12_000,
        k < h.len() ==> now - h[k].0 <= 12_000,
    ensures
        recent(h, now) == h.skip(k),
    decreases k,
{
    if k > 0 {
        let t = h.drop_first();
        assert(now - h[0].0 > 12_000);
        assert forall|i: int| 0 <= i < k - 1 implies now - (#[trigger] t[i]).0 > 12_000 by {
            assert(t[i] == h[i + 1]);
        }
        the_history_goes_back_twelve_seconds(t, now, k - 1);
        assert(t.skip(k - 1) =~= h.skip(k));
    } else {
        assert(h.skip(0) =~= h);
    }
}

/// Blocks that carry on from one another add up, and one that does not starts the
/// buffer again with itself.
pub proof fn only_contiguous_blocks_add_up(
    a: Worker,
    b: Worker,
    c: Worker,
    seq: u64,
    next: u64,
    n: u64,
    m: u64,
    now: i64,
    first: BlockStep,
    second: BlockStep,
)
    requires
        took_block(a, seq, n, now, first, b),
        took_block(b, next, m, now, second, c),
        b.buffered + m <= u64::MAX,
        a.buffered + n <= u64::MAX,
        seq < u64::MAX,
    ensures
        next == seq + 1 ==> !second.restart && c.buffered == b.buffered + m,
        next != seq + 1 ==> second.restart && c.buffered == m,
        first.restart ==> b.buffered == n,
        !first.restart ==> b.buffered == a.buffered + n,
        a.want_seq is None ==> first.restart,
{
}

/// The tracker runs when it is switched on, a second of new samples has come and
/// three are held; then a second has to come again.
pub proof fn the_tracker_runs_once_a_second(
    a: Worker,
    b: Worker,
    c: Worker,
    seq: u64,
    n: u64,
    m: u64,
    now: i64,
    first: BlockStep,
    second: BlockStep,
)
    requires
        took_block(a, seq, n, now, first, b),
        took_block(b, (seq + 1) as u64, m, now, second, c),
        seq < u64::MAX,
        a.buffered + n <= u64::MAX && a.since_track + n <= u64::MAX,
        b.buffered + m <= u64::MAX,
    ensures
        first.track is Some ==> a.cfg.enabled && b.buffered >= a.plan.track_len,
        first.track is Some && m < a.plan.track_hop ==> second.track is None,
        first.track is Some && m >= a.plan.track_hop && c.buffered >= a.plan.track_len
            ==> second.track is Some,
        !a.cfg.enabled ==> first.track is None && second.track is None,
        first.track matches Some((lo, hi)) ==> ({
            let band = track_band(a.cfg, a.last_est, now);
            lo == band.0 as i64 && hi == band.1 as i64
        }),
{
}

/// A whole window is searched, and decoded only where the operator wants it.
pub proof fn a_whole_window_is_searched(a: Worker, b: Worker, seq: u64, n: u64, now: i64, step: BlockStep)
    requires
        took_block(a, seq, n, now, step, b),
        a.buffered + n <= u64::MAX,
    ensures
        step.search <==> b.buffered >= b.plan.window_len,
        step.decode <==> step.search && b.cfg.decode_telemetry,
        b.tried == a.tried && b.locked == a.locked && b.last == a.last,
        b.cfg == a.cfg && b.plan == a.plan,
{
}

/// Each window that is decoded is tried once and found at most once, whichever
/// decoder finds it; what was found last is what is shown.
pub proof fn a_window_is_found_at_most_once(
    a: Worker,
    b: Worker,
    c: Worker,
    plain: Option<(i64, String)>,
    coded: Option<(i64, String)>,
    progress: DecodeProgress,
    now: i64,
    again: bool,
)
    requires
        took_window(a, plain, progress, now, again, b),
        again ==> took_coded(b, coded, now, c),
        !again ==> c == b,
        a.tried < u64::MAX && a.locked < u64::MAX,
    ensures
        c.tried == a.tried + 1,
        c.locked == a.locked + (if plain is Some || coded is Some && again {
            1int
        } else {
            0int
        }),
        again <==> plain is None,
        plain matches Some((hz, text)) ==> c.last == Some(
            Lock { offset_mhz: hz, text, unix: now },
        ),
        plain is None && coded is None ==> c.last == a.last && c.progress == progress,
        plain is None ==> (coded matches Some((hz, text)) ==> c.last == Some(
            Lock { offset_mhz: hz, text, unix: now },
        ) && c.progress.carrier && c.progress.crc_ok),
        c.buffered == a.buffered && c.cfg == a.cfg,
{
}

/// After a search the newest samples are kept, as many as the plan says, and never
/// more than there were.
pub proof fn a_search_keeps_the_newest_samples(a: Worker, dropped: u64, b: Worker)
    requires
        was_cut(a, dropped, b),
    ensures
        b.buffered + dropped == a.buffered,
        b.buffered <= a.plan.keep_len,
        dropped > 0 ==> b.buffered == a.plan.keep_len,
        b.want_seq == a.want_seq && b.last == a.last && b.tried == a.tried,
{
}

/// An estimate is kept with its time and counted; a miss is counted too, and
/// forgets the drift but not the estimate.
pub proof fn a_miss_forgets_the_drift_only(
    a: Worker,
    b: Worker,
    found: Option<CarrierEstimate>,
    now: i64,
    ms: u64,
)
    requires
        took_pass(a, found, now, ms, b),
        a.est_updates < u64::MAX && a.est_misses < u64::MAX,
    ensures
        b.est_updates + b.est_misses == a.est_updates + a.est_misses + 1,
        found is Some ==> b.est_updates == a.est_updates + 1 && b.last_est == Some((found->0, now))
            && b.drift == a.drift,
        found is Some ==> b.history@.len() > 0 && b.history@.last() == (ms, found->0.offset_mhz),
        found is None ==> b.last_est == a.last_est && b.history@.len() == 0 && b.drift.rate_mhz_s
            == 0 && b.drift.accel_mhz_s2 == 0,
        b.buffered == a.buffered && b.last == a.last,
{
    if found is Some {
        let h = a.history@.push((ms, found->0.offset_mhz));
        lemma_recent_keeps_the_last(h, ms);
    }
}

proof fn lemma_recent_keeps_the_last(h: Seq<(u64, i64)>, now: u64)
    requires
        h.len() > 0,
        h.last().0 == now,
    ensures
        recent(h, now).len() > 0,
        recent(h, now).last() == h.last(),
    decreases h.len(),
{
    if now - h[0].0 > 12_000 {
        assert(h.len() > 1) by {
            if h.len() == 1 {
                assert(h[0] == h.last());
            }
        }
        assert(h.drop_first().last() == h.last());
        lemma_recent_keeps_the_last(h.drop_first(), now);
    }
}

/// A lock is shown as one for three frame times; what it said stays on show.
pub proof fn a_lock_is_shown_for_three_frames(w: Worker, l: Lock, now: i64, st: Status)
    requires
        tells(w, now, st),
        w.last == Some(l),
        l.unix > 0,
    ensures
        st.locked <==> 100 * (now - l.unix) <= 3 * 1036,
        st.text@ == l.text@ && st.offset_mhz == l.offset_mhz && st.locked_unix == l.unix,
        st.blocks_tried == w.tried && st.blocks_locked == w.locked,
        st.estimate is None ==> st.drift.rate_mhz_s == 0,
        st.frame_have == st.frame_len <==> w.buffered >= w.plan.frame_len,
        st.running <==> w.cfg.enabled || w.cfg.decode_telemetry,
{
}

/// The readout of a pass that found nothing never claims a frame; three wrong bits
/// are still a sync word and ten a carrier, and what was found is handed on.
pub proof fn a_probe_claims_no_frame(seeded: bool, scan: Option<(u8, u8)>, r: DecodeProgress)
    requires
        is_probe(seeded, scan, r),
    ensures
        !r.crc_ok,
        seeded ==> r.carrier,
        r.sync ==> r.carrier && scan is Some,
        scan is None ==> r.carrier == seeded && r.sync_bit_errors == 255 && r.sync_matches == 0,
        scan matches Some((d, n)) ==> {
            &&& r.sync_bit_errors == d && r.sync_matches == n
            &&& r.sync <==> d < 4
            &&& !seeded ==> (r.carrier <==> d < 11)
        },
{
}

/// A block goes on where the last one ended and nowhere else; a lock counts for 31
/// seconds; the coded receiver starts where the beacon was last seen.
pub proof fn a_lock_counts_for_31_seconds(
    want: u64,
    seq: u64,
    locked_unix: i64,
    now: i64,
    e: CarrierEstimate,
    at: i64,
)
    ensures
        goes_on(Some(want), seq) <==> want == seq,
        !goes_on(None, seq),
        locked_unix != 0 ==> (is_locked(locked_unix, now) <==> now <= locked_unix + 31),
        !is_locked(0, now),
        seed_of(Some((e, at))) == e.offset_mhz,
        seed_of(None) == 0,
{
}

/// The frame that is read is a whole one, and there is none before it.
pub proof fn the_first_frame_is_the_one_read(bits: Seq<bool>, at: int, j: int)
    requires
        is_first_frame(bits, at),
    ensures
        is_frame_at(bits, at),
        j < at ==> !is_frame_at(bits, j),
{
}

/// The least distance is that of some window, and that of no window is less.
pub proof fn the_least_distance_is_reached(bits: Seq<bool>, d: nat, i: int)
    requires
        is_least_distance(bits, d),
        0 <= i,
        i + 32 <= bits.len(),
    ensures
        d <= sync_errors(bits, i, 32),
        exists|k: int| 0 <= k && k + 32 <= bits.len() && #[trigger] sync_errors(bits, k, 32) == d,
{
}

/// A scan tells the closest that any timing and parity comes to the sync word, and
/// how often the first of those that come so close has it, up to 255 times.
pub proof fn a_scan_tells_the_closest(
    phases: Seq<Vec<bool>>,
    k: int,
    r: (u8, u8),
    j: int,
    i: int,
)
    requires
        is_scan_best(phases, k, r),
        0 <= j < 2 * phases.len(),
        0 <= i,
        i + 32 <= combination(phases, j).len(),
    ensures
        0 <= k < 2 * phases.len(),
        r.0 <= sync_errors(combination(phases, j), i, 32),
        j < k ==> r.0 < sync_errors(combination(phases, j), i, 32),
        exists|at: int|
            0 <= at && at + 32 <= combination(phases, k).len() && #[trigger] sync_errors(
                combination(phases, k),
                at,
                32,
            ) == r.0,
        ({
            let bits = combination(phases, k);
            let hits = distinct_syncs(bits, bits.len()).len();
            &&& hits <= 255 ==> r.1 == hits
            &&& hits > 255 ==> r.1 == 255
        }),
{
}

} // verus!
