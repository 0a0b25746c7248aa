//! What the table of devices and the channel rows are for.
use crate::ism::controller::{
    band_reason, bands_tell, config_change, decodes, device_cap, enabled_at, family_on, idle_reason,
    implemented_at, is_emit_due, is_lane_plan, is_status, lane_covers, lane_dec, problem,
    reconfigured, recorded, relaned, retuned, running_at, runs, same_channel, same_window,
    stood_down, told, Band, ConfigChange, IsmChannelStatus, IsmSettings, IsmStatus, Lane, LanePlan,
    Protocol, Worker,
};
use crate::ism::devices::{
    device_key, fnv, frame_key, has_id, ids_distinct, is_trimmed, shown_before, Decoded, IsmReport,
    Source,
};
use crate::ism::plan::{
    a_window_is_as_wide_as_it_was_asked_for, aimed, channel_families, channel_span, channels_joined,
    is_best_plan, is_channel, outranks, plan_for, plan_span, rate_ok, slack, window_of, Channel,
    Demand, IsmFamily, Span, Window, WindowPlan, CHANNEL_CENTERS_HZ, CHANNEL_COUNT,
    CHANNEL_RATES_HZ, MAX_HZ,
};
use crate::text::{dec, lex_le};
use vstd::prelude::*;
use vstd::utf8::encode_utf8;

verus! {

// ---------------------------------------------------------------------------
// The table
// ---------------------------------------------------------------------------

/// Whether a row shows what a frame said, and when, where and how well it was
/// heard. A ratio beyond 99 dB either way is shown as 99.
pub open spec fn shows(
    row: IsmReport,
    d: Decoded,
    freq_mhz: i64,
    snr_db: int,
    at: i64,
) -> bool {
    &&& row.readings == d.readings
    &&& row.model == d.model
    &&& row.extra == d.extra
    &&& row.raw_hex == d.raw_hex
    &&& row.freq_mhz == freq_mhz
    &&& row.last_at == at
    &&& -99 <= row.snr_db <= 99
    &&& -99 <= snr_db <= 99 ==> row.snr_db == snr_db
    &&& snr_db > 99 ==> row.snr_db == 99
    &&& snr_db < -99 ==> row.snr_db == -99
}

/// After any frame, from either decoder, of a known device or a new one, the one
/// row of that device shows that frame; every other row is what and where it was.
pub proof fn the_row_of_a_device_shows_its_latest_frame(
    rows: Seq<IsmReport>,
    now: Seq<IsmReport>,
    d: Decoded,
    source: Source,
    freq_mhz: i64,
    snr_db: int,
    at: i64,
)
    requires
        ids_distinct(rows),
        recorded(rows, now, d, source, freq_mhz, snr_db, at),
    ensures
        ids_distinct(now),
        exists|i: int|
            0 <= i < now.len() && (#[trigger] now[i]).id == frame_key(d, source),
        forall|i: int|
            0 <= i < now.len() && (#[trigger] now[i]).id == frame_key(d, source) ==> shows(
                now[i],
                d,
                freq_mhz,
                snr_db,
                at,
            ),
        forall|i: int|
            0 <= i < now.len() && (#[trigger] now[i]).id != frame_key(d, source) ==> i < rows.len()
                && now[i] == rows[i],
        rows.len() <= now.len() <= rows.len() + 1,
        forall|i: int|
            0 <= i < rows.len() ==> (#[trigger] rows[i]).id == now[i].id,
{
    let id = frame_key(d, source);
    if has_id(rows, id) {
        let i = choose|i: int|
            0 <= i < rows.len() && (#[trigger] rows[i]).id == id && now == rows.update(
                i,
                crate::ism::devices::heard_again(rows[i], d, source, freq_mhz, snr_db, at),
            );
        assert(now[i].id == id);
        assert forall|a: int, b: int| 0 <= a < b < now.len() implies (#[trigger] now[a]).id != (
        #[trigger] now[b]).id by {
            assert(rows[a].id != rows[b].id);
        }
        assert forall|k: int| 0 <= k < now.len() && (#[trigger] now[k]).id == id implies shows(
            now[k],
            d,
            freq_mhz,
            snr_db,
            at,
        ) by {
            if k < i {
                assert(rows[k].id != rows[i].id);
            } else if i < k {
                assert(rows[i].id != rows[k].id);
            }
        }
    } else {
        let n = rows.len() as int;
        assert(now[n].id == id);
        assert forall|k: int| 0 <= k < n implies (#[trigger] now[k]).id != id by {
            assert(rows[k].id == now[k].id);
        }
        assert forall|a: int, b: int| 0 <= a < b < now.len() implies (#[trigger] now[a]).id != (
        #[trigger] now[b]).id by {
            if b < n {
                assert(rows[a].id != rows[b].id);
            }
        }
    }
}

/// A device that was known keeps its name, its protocol and when it was first
/// heard, and has been heard once more; whether it encrypts is what a native
/// decoder last said.
pub proof fn a_known_device_keeps_its_identity(
    rows: Seq<IsmReport>,
    now: Seq<IsmReport>,
    d: Decoded,
    source: Source,
    freq_mhz: i64,
    snr_db: int,
    at: i64,
    i: int,
)
    requires
        ids_distinct(rows),
        recorded(rows, now, d, source, freq_mhz, snr_db, at),
        0 <= i < rows.len(),
        rows[i].id == frame_key(d, source),
    ensures
        now.len() == rows.len(),
        now[i].id == rows[i].id,
        now[i].protocol == rows[i].protocol,
        now[i].device == rows[i].device,
        now[i].first_at == rows[i].first_at,
        rows[i].count < u32::MAX ==> now[i].count == rows[i].count + 1,
        rows[i].count == u32::MAX ==> now[i].count == u32::MAX,
        now[i].encrypted == (if source is Native {
            d.encrypted
        } else {
            rows[i].encrypted
        }),
{
    let id = frame_key(d, source);
    assert(has_id(rows, id));
    let k = choose|k: int|
        0 <= k < rows.len() && (#[trigger] rows[k]).id == id && now == rows.update(
            k,
            crate::ism::devices::heard_again(rows[k], d, source, freq_mhz, snr_db, at),
        );
    if k < i {
        assert(rows[k].id != rows[i].id);
    } else if i < k {
        assert(rows[i].id != rows[k].id);
    }
}

/// A device that was not known gets a row of its own behind the others, heard
/// once, now.
pub proof fn a_new_device_gets_a_row(
    rows: Seq<IsmReport>,
    now: Seq<IsmReport>,
    d: Decoded,
    source: Source,
    freq_mhz: i64,
    snr_db: int,
    at: i64,
)
    requires
        recorded(rows, now, d, source, freq_mhz, snr_db, at),
        forall|i: int| 0 <= i < rows.len() ==> (#[trigger] rows[i]).id != frame_key(d, source),
    ensures
        now.len() == rows.len() + 1,
        now.take(rows.len() as int) == rows,
        now.last().id == frame_key(d, source),
        now.last().protocol == d.protocol,
        now.last().device == d.device,
        now.last().first_at == at,
        now.last().count == 1,
        now.last().encrypted == d.encrypted,
        shows(now.last(), d, freq_mhz, snr_db, at),
{
    assert(now.take(rows.len() as int) =~= rows);
}

/// Which row a frame belongs to is a matter of protocol and name, and for rtl_433
/// of the model too; nothing else that a frame says moves it.
pub proof fn a_device_is_told_by_its_name(a: Decoded, b: Decoded)
    requires
        a.protocol == b.protocol,
        a.device@ == b.device@,
    ensures
        frame_key(a, Source::Native) == frame_key(b, Source::Native),
        frame_key(a, Source::Native) == device_key(a.protocol, a.device@),
        a.model is None == b.model is None && (a.model is Some ==> (a.model->0)@ == (b.model->0)@)
            ==> frame_key(a, Source::Rtl433) == frame_key(b, Source::Rtl433),
        a.model matches Some(m) ==> frame_key(a, Source::Rtl433) == device_key(
            a.protocol,
            m@ + seq!['\u{0}'] + a.device@,
        ),
        a.model is None ==> frame_key(a, Source::Rtl433) == device_key(
            a.protocol,
            seq!['\u{0}'] + a.device@,
        ),
{
    if a.model is Some {
        let m = (a.model->0)@;
        assert(m.push('\u{0}') + a.device@ =~= m + seq!['\u{0}'] + a.device@);
    } else {
        assert(Seq::<char>::empty().push('\u{0}') + a.device@ =~= seq!['\u{0}'] + a.device@);
    }
}

/// Making room drops nothing while there is room, and otherwise only rows that
/// were heard no later than those that stay; it never changes a row.
pub proof fn making_room_drops_only_the_stalest(
    rows: Seq<IsmReport>,
    kept: Seq<IsmReport>,
    cap: int,
)
    requires
        cap >= 1,
        ids_distinct(rows),
        ids_distinct(kept),
        is_trimmed(rows, kept, cap),
    ensures
        kept.len() <= cap,
        forall|i: int| 0 <= i < kept.len() ==> rows.contains(#[trigger] kept[i]),
        rows.len() <= cap ==> forall|j: int|
            0 <= j < rows.len() ==> kept.contains(#[trigger] rows[j]),
        rows.len() > cap ==> kept.len() == cap,
        forall|j: int, i: int|
            0 <= j < rows.len() && 0 <= i < kept.len() && (#[trigger] rows[j]).last_at > (
            #[trigger] kept[i]).last_at ==> kept.contains(rows[j]),
{
    if rows.len() <= cap {
        assert(kept.no_duplicates()) by {
            assert forall|i: int, j: int|
                0 <= i < kept.len() && 0 <= j < kept.len() && i != j implies kept[i] != kept[j] by {
                if i < j {
                    assert(kept[i].id != kept[j].id);
                } else {
                    assert(kept[j].id != kept[i].id);
                }
            }
        }
        assert(rows.no_duplicates()) by {
            assert forall|i: int, j: int|
                0 <= i < rows.len() && 0 <= j < rows.len() && i != j implies rows[i] != rows[j] by {
                if i < j {
                    assert(rows[i].id != rows[j].id);
                } else {
                    assert(rows[j].id != rows[i].id);
                }
            }
        }
        kept.unique_seq_to_set();
        rows.unique_seq_to_set();
        vstd::seq_lib::seq_to_set_is_finite(rows);
        vstd::seq_lib::seq_to_set_is_finite(kept);
        assert(kept.to_set().subset_of(rows.to_set())) by {
            assert forall|x: IsmReport| kept.to_set().contains(x) implies rows.to_set().contains(
                x,
            ) by {
                let i = choose|i: int| 0 <= i < kept.len() && kept[i] == x;
                assert(rows.contains(kept[i]));
            }
        }
        vstd::set_lib::lemma_subset_equality(kept.to_set(), rows.to_set());
        assert forall|j: int| 0 <= j < rows.len() implies kept.contains(#[trigger] rows[j]) by {
            assert(rows.to_set().contains(rows[j]));
            assert(kept.to_set().contains(rows[j]));
        }
    }
}

/// The list is shown with the newest on top, and by name among those heard in
/// the same second.
pub proof fn the_newest_is_on_top(a: IsmReport, b: IsmReport)
    ensures
        a.last_at > b.last_at ==> shown_before(a, b) && !shown_before(b, a),
        a.last_at == b.last_at ==> (shown_before(a, b) <==> lex_le(a.device@, b.device@)),
{
}

// ---------------------------------------------------------------------------
// The channels
// ---------------------------------------------------------------------------

/// Each family has a bit of its own, and is on when that bit is.
pub proof fn a_family_is_switched_by_its_bit(cfg: IsmSettings)
    ensures
        family_on(cfg, IsmFamily::Weather) <==> cfg.families % 2 == 1,
        family_on(cfg, IsmFamily::Meter) <==> cfg.families / 2 % 2 == 1,
        family_on(cfg, IsmFamily::HomeAuto) <==> cfg.families / 4 % 2 == 1,
{
    let f = cfg.families;
    assert((f & 1 != 0 <==> f % 2 == 1) && (f & 2 != 0 <==> f / 2 % 2 == 1) && (f & 4 != 0 <==> f
        / 4 % 2 == 1)) by (bit_vector);
}

/// A decoder runs when its family is on, and stands down only for a protocol
/// that rtl_433 reads better, on a frequency that rtl_433 is listening to.
pub proof fn a_decoder_stands_down_only_for_rtl433(
    cfg: IsmSettings,
    lane: Lane,
    p: Protocol,
    freq_hz: int,
)
    requires
        lane.valid(),
    ensures
        runs(cfg, None, p, freq_hz) <==> family_on(cfg, p.family),
        !p.rtl433_reads ==> (runs(cfg, Some(lane), p, freq_hz) <==> family_on(cfg, p.family)),
        p.rtl433_reads ==> (runs(cfg, Some(lane), p, freq_hz) <==> family_on(cfg, p.family) && (2
            * lane.rate_den * (freq_hz - lane.center_hz) > lane.rate_num || 2 * lane.rate_den * (
        lane.center_hz - freq_hz) > lane.rate_num)),
{
    let (d, n) = (lane.rate_den as int, lane.rate_num as int);
    lemma_either_side(d, freq_hz - lane.center_hz, n);
    lemma_either_side(d, lane.center_hz - freq_hz, n);
}

proof fn lemma_either_side(d: int, off: int, n: int)
    requires
        d >= 1,
        n >= 1,
    ensures
        off <= 0 ==> 2 * d * off <= n,
{
    if off <= 0 {
        assert(2 * d * off <= 0) by (nonlinear_arith)
            requires
                off <= 0,
                d >= 1,
        ;
    }
}

/// A channel is as the plan has it.
pub proof fn a_channel_is_as_the_plan_has_it(c: Channel, i: int)
    requires
        0 <= i < CHANNEL_COUNT,
        is_channel(c, i),
    ensures
        c.center_hz == CHANNEL_CENTERS_HZ@[i],
        c.rate_hz == CHANNEL_RATES_HZ@[i],
        c.families == channel_families(i),
        i == 0 ==> c.label@ == "sensors, wM-Bus S, KNX-RF, EnOcean, Homematic"@,
        i == 1 ==> c.label@ == "Z-Wave EU"@,
        i == 2 ==> c.label@ == "wM-Bus T / C"@,
        i == 3 ==> c.label@ == "wM-Bus N, Homematic long range"@,
{
}

/// Two frequencies are one channel when they are less than 10 kHz apart.
pub proof fn a_channel_is_ten_kilohertz_either_way(a: int, b: int)
    ensures
        same_channel(a, b) <==> a - b < 10_000 && b - a < 10_000,
{
}

/// The reason that a row gives is the first thing that is in the way: out of
/// reach, no decoder for it, none switched on, or none left to the native ones.
pub proof fn a_row_tells_what_is_in_the_way(w: Worker, i: int)
    requires
        w.wf(),
        0 <= i < CHANNEL_COUNT,
    ensures
        ({
            let f = CHANNEL_CENTERS_HZ@[i] as int;
            let reach = w.window.covers(channel_span(i));
            let known = exists|k: int|
                0 <= k < w.protocols@.len() && same_channel(
                    (#[trigger] w.protocols@[k]).channel_hz as int,
                    f,
                );
            let on = exists|k: int|
                0 <= k < w.protocols@.len() && same_channel(
                    (#[trigger] w.protocols@[k]).channel_hz as int,
                    f,
                ) && family_on(w.cfg, w.protocols@[k].family);
            let said = told(w.rows@[i].reason);
            &&& said == Some("outside the receiver's window"@) <==> !reach
            &&& said == Some("not decoded yet"@) <==> reach && !known
            &&& said == Some("switched off"@) <==> reach && known && !on
            &&& said == Some("handled by rtl_433"@) <==> reach && on && !w.rows@[i].live
            &&& said is None <==> w.rows@[i].live
            &&& w.rows@[i].freq_hz == f
        }),
{
    reveal_strlit("outside the receiver's window");
    reveal_strlit("not decoded yet");
    reveal_strlit("switched off");
    reveal_strlit("handled by rtl_433");
    let f = CHANNEL_CENTERS_HZ@[i] as int;
    let ps = w.protocols@;
    assert(told(w.rows@[i].reason) == idle_reason(w.window, w.cfg, w.lane, ps, i));
    assert("outside the receiver's window"@.len() == 29 && "not decoded yet"@.len() == 15
        && "switched off"@.len() == 12 && "handled by rtl_433"@.len() == 18);
    assert(enabled_at(w.cfg, ps, f) ==> implemented_at(ps, f));
    if running_at(w.cfg, w.lane, ps, f) {
        let k = choose|k: int|
            0 <= k < ps.len() && same_channel((#[trigger] ps[k]).channel_hz as int, f) && runs(
                w.cfg,
                w.lane,
                ps[k],
                f,
            );
        assert(same_channel(ps[k].channel_hz as int, f) && family_on(w.cfg, ps[k].family));
    }
}

/// The codes that stand down: those of the protocols that are on, that rtl_433
/// reads better and that it is listening to, and no other.
pub proof fn what_stands_down_is_listed(
    cfg: IsmSettings,
    lane: Option<Lane>,
    ps: Seq<Protocol>,
    n: nat,
    id: u8,
)
    requires
        n <= ps.len(),
    ensures
        stood_down(cfg, lane, ps, n).contains(id) <==> exists|i: int|
            0 <= i < n && (#[trigger] ps[i]).id == id && family_on(cfg, ps[i].family)
                && ps[i].rtl433_reads && lane_covers(lane, ps[i].channel_hz as int),
    decreases n,
{
    if n > 0 {
        what_stands_down_is_listed(cfg, lane, ps, (n - 1) as nat, id);
        let before = stood_down(cfg, lane, ps, (n - 1) as nat);
        let now = stood_down(cfg, lane, ps, n);
        let p = ps[n - 1];
        if before.contains(id) {
            let k = choose|k: int| 0 <= k < before.len() && before[k] == id;
            assert(now[k] == id);
        }
        if now.contains(id) && !before.contains(id) {
            let k = choose|k: int| 0 <= k < now.len() && now[k] == id;
            if k < before.len() {
                assert(before[k] == id);
            }
            assert(now.len() == before.len() + 1 && p.id == id);
        }
        if family_on(cfg, p.family) && p.rtl433_reads && lane_covers(lane, p.channel_hz as int)
            && p.id == id {
            if before.len() > 0 && before.last() == id {
                assert(before[before.len() - 1] == id);
            } else {
                assert(now.last() == id);
                assert(now[now.len() - 1] == id);
            }
        }
    }
}

/// Settings that decide what listens reopen the channels, a threshold alone only
/// moves the gates, and anything else changes neither.
pub proof fn only_what_listens_reopens_the_channels(was: IsmSettings, next: IsmSettings)
    ensures
        config_change(was, next) == ConfigChange::Rebuild <==> was.families != next.families
            || was.rtl433.enabled != next.rtl433.enabled || was.rtl433.bands != next.rtl433.bands
            || was.rtl433.bandwidth_hz != next.rtl433.bandwidth_hz,
        config_change(was, next) == ConfigChange::Threshold ==> was.threshold_db
            != next.threshold_db,
        was.threshold_db != next.threshold_db ==> config_change(was, next) != ConfigChange::Same,
        config_change(was, was) == ConfigChange::Same,
{
}

/// What is said of a band: nothing of the one that is live; of one that is
/// switched off, that; of the others, whether it is out of reach, asked to be too
/// wide, or simply not the one.
pub proof fn a_band_tells_what_is_in_the_way(b: Band, live: bool, w: Window)
    ensures
        b.enabled && live <==> band_reason(b, live, w) is None,
        !b.enabled ==> band_reason(b, live, w) == Some("switched off"@),
        b.enabled && !live && b.fits_in(w) ==> band_reason(b, live, w) == Some(
            "another band is live"@,
        ),
        b.enabled && !live && !b.fits_in(w) && b.fits_at_own_width(w) ==> band_reason(b, live, w)
            == Some("too wide for the receiver's window"@),
        b.enabled && !live && !b.fits_in(w) && !b.fits_at_own_width(w) ==> band_reason(b, live, w)
            == Some("outside the receiver's window"@),
{
}

// ---------------------------------------------------------------------------
// The window
// ---------------------------------------------------------------------------

/// The channels of the plan, in hertz: where each begins and ends, and where all
/// of them do.
pub proof fn the_plan_is_the_868_mhz_one()
    ensures
        CHANNEL_COUNT == 4,
        channel_span(0).lo == 2 * 868_175_000 && channel_span(0).hi == 2 * 868_425_000,
        channel_span(1).lo == 2 * 868_345_000 && channel_span(1).hi == 2 * 868_495_000,
        channel_span(2).lo == 2 * 868_700_000 && channel_span(2).hi == 2 * 869_200_000,
        channel_span(3).lo == 2 * 869_462_500 && channel_span(3).hi == 2 * 869_587_500,
        plan_span().lo == 2 * 868_175_000 && plan_span().hi == 2 * 869_587_500,
{
    reveal_with_fuel(channels_joined, 5);
}

/// What is on each channel: weather sensors on the first alone, meters on all but
/// the second, home automation on all but the third.
pub proof fn each_channel_has_its_families(i: int)
    requires
        0 <= i < 4,
    ensures
        channel_families(i) == (if i == 0 {
            1int
        } else {
            0int
        }) + (if i != 1 {
            2int
        } else {
            0int
        }) + (if i != 2 {
            4int
        } else {
            0int
        }),
{
}

/// A stretch is in reach of a receiver's whole stream when it stays within three
/// quarters of the rate around the centre.
pub proof fn three_quarters_of_the_stream_are_usable(c: int, rate: int, f: int, width: int, w: Window)
    requires
        w.dec == 1,
        w.center == 8 * c,
        w.in_rate_hz == rate,
        -MAX_HZ <= f <= MAX_HZ,
        1 <= width <= MAX_HZ,
    ensures
        w.covers(Span::of(f, width)) <==> 8 * (f - c) + 4 * width <= 3 * rate && 8 * (c - f) + 4
            * width <= 3 * rate,
{
    let s = Span::of(f, width);
    assert(4 * w.dec * s.lo == 4 * s.lo) by (nonlinear_arith)
        requires
            w.dec == 1,
    ;
    assert(4 * w.dec * s.hi == 4 * s.hi) by (nonlinear_arith)
        requires
            w.dec == 1,
    ;
}

/// The same of a decimated stream: three quarters of what is left.
pub proof fn three_quarters_of_a_window_are_usable(w: Window, s: Span)
    ensures
        w.covers(s) <==> w.center - (4 * w.dec) * s.lo <= 3 * w.in_rate_hz && (4 * w.dec) * s.hi
            - w.center <= 3 * w.in_rate_hz,
{
}

/// What a window is chosen for: the native plan together with a band, the plan,
/// or a band.
pub open spec fn is_wanted(d: &Demand, s: Span) -> bool {
    ||| d.native && s == plan_span()
    ||| exists|k: int|
        0 <= k < d.bands@.len() && (s == #[trigger] d.bands@[k] || d.native && s
            == plan_span().joined(d.bands@[k]))
}

proof fn lemma_wanted(d: &Demand, s: Span)
    ensures
        is_wanted(d, s) <==> exists|i: int| 0 <= i < d.wants().len() && #[trigger] d.wants()[i] == s,
{
    let n = d.bands@.len() as int;
    let ws = d.wants();
    if d.native {
        assert(ws.len() == 2 * n + 1);
        assert(ws[n] == plan_span());
        assert forall|k: int| 0 <= k < n implies ws[k] == plan_span().joined(
            #[trigger] d.bands@[k],
        ) && ws[n + 1 + k] == d.bands@[k] by {}
    }
    if is_wanted(d, s) {
        if !(d.native && s == plan_span()) {
            let k = choose|k: int|
                0 <= k < n && (s == #[trigger] d.bands@[k] || d.native && s == plan_span().joined(
                    d.bands@[k],
                ));
            if d.native {
                assert(ws[k] == s || ws[n + 1 + k] == s);
            } else {
                assert(ws[k] == s);
            }
        }
    }
    if exists|i: int| 0 <= i < ws.len() && #[trigger] ws[i] == s {
        let i = choose|i: int| 0 <= i < ws.len() && #[trigger] ws[i] == s;
        if d.native {
            if i < n {
                assert(s == plan_span().joined(d.bands@[i]));
            } else if i > n {
                assert(s == d.bands@[i - n - 1]);
            }
        } else {
            assert(s == d.bands@[i]);
        }
    }
}

/// The window that is chosen is one of those wanted, and no other that is wanted
/// would decode more; among those that decode as much none is narrower, and among
/// those none has more in view.
pub proof fn the_best_window_is_chosen(
    d: &Demand,
    p: WindowPlan,
    hw_center_hz: i64,
    hw_rate_hz: i64,
    s: Span,
)
    requires
        is_best_plan(d, p, d.wants().len() as int, hw_center_hz, hw_rate_hz),
        is_wanted(d, s),
    ensures
        exists|t: Span| is_wanted(d, t) && p == #[trigger] plan_for(t, hw_rate_hz as int),
        ({
            let o = plan_for(s, hw_rate_hz as int);
            let mine = window_of(p, hw_center_hz, hw_rate_hz);
            let other = window_of(o, hw_center_hz, hw_rate_hz);
            &&& d.decodable(mine) >= d.decodable(other)
            &&& d.decodable(mine) == d.decodable(other) ==> p.dec >= o.dec
            &&& d.decodable(mine) == d.decodable(other) && p.dec == o.dec ==> d.in_view(mine)
                >= d.in_view(other)
        }),
{
    let i = choose|i: int|
        0 <= i < d.wants().len() && p == plan_for(#[trigger] d.wants()[i], hw_rate_hz as int);
    lemma_wanted(d, d.wants()[i]);
    lemma_wanted(d, s);
    let j = choose|j: int| 0 <= j < d.wants().len() && #[trigger] d.wants()[j] == s;
    assert(!outranks(d, plan_for(d.wants()[j], hw_rate_hz as int), p, hw_center_hz, hw_rate_hz));
}

/// Of windows that are as good as each other the first one wanted is chosen: each
/// that is wanted before it decodes less, or as much with less width to spare, or
/// has less in view.
pub proof fn the_first_of_equal_windows_is_chosen(
    d: &Demand,
    p: WindowPlan,
    hw_center_hz: i64,
    hw_rate_hz: i64,
)
    requires
        is_best_plan(d, p, d.wants().len() as int, hw_center_hz, hw_rate_hz),
    ensures
        exists|i: int|
            {
                &&& 0 <= i < d.wants().len()
                &&& p == plan_for(#[trigger] d.wants()[i], hw_rate_hz as int)
                &&& forall|j: int|
                    0 <= j < i ==> {
                        let o = plan_for(#[trigger] d.wants()[j], hw_rate_hz as int);
                        let mine = window_of(p, hw_center_hz, hw_rate_hz);
                        let other = window_of(o, hw_center_hz, hw_rate_hz);
                        &&& d.decodable(other) <= d.decodable(mine)
                        &&& d.decodable(other) == d.decodable(mine) ==> o.dec <= p.dec
                        &&& d.decodable(other) == d.decodable(mine) && o.dec == p.dec ==> d.in_view(
                            other,
                        ) < d.in_view(mine)
                    }
            },
{
}

/// A stretch that is wanted alone, or before all that are as good, is the one that
/// is chosen.
pub proof fn an_only_wish_is_granted(d: &Demand, hw_center_hz: i64, hw_rate_hz: i64)
    requires
        d.wants().len() == 1,
    ensures
        is_best_plan(d, plan_for(d.wants()[0], hw_rate_hz as int), 1, hw_center_hz, hw_rate_hz),
{
    assert(d.wants()[0] == d.wants()[0]);
}

/// There is no window to choose only where nothing is switched on.
pub proof fn nothing_is_wanted_only_when_nothing_is_on(d: &Demand)
    ensures
        d.wants().len() == 0 <==> !d.native && d.bands@.len() == 0,
{
}

pub open spec fn one_if(b: bool) -> int {
    if b {
        1
    } else {
        0
    }
}

/// The bands among the first `n` that a window reaches.
pub open spec fn bands_reached(d: &Demand, w: Window, n: nat) -> Set<int> {
    Set::new(|i: int| 0 <= i < n && w.covers(d.bands@[i]))
}

proof fn lemma_bands_reached(d: &Demand, w: Window, n: nat)
    requires
        n <= d.bands@.len(),
    ensures
        bands_reached(d, w, n).finite(),
        bands_reached(d, w, n).len() == d.bands_in(w, n),
    decreases n,
{
    if n == 0 {
        assert(bands_reached(d, w, n) =~= Set::empty());
    } else {
        let m = (n - 1) as nat;
        lemma_bands_reached(d, w, m);
        if w.covers(d.bands@[n - 1]) {
            assert(bands_reached(d, w, n) =~= bands_reached(d, w, m).insert(n - 1));
        } else {
            assert(bands_reached(d, w, n) =~= bands_reached(d, w, m));
        }
    }
}

/// How a window is counted: one for each channel in reach, if the native decoders
/// run, and for what it decodes only where something would; and one for each band
/// in reach.
pub proof fn a_window_counts_what_it_reaches(d: &Demand, w: Window)
    ensures
        ({
            let bands = bands_reached(d, w, d.bands@.len()).len();
            let at = |i: int| one_if(d.native && w.covers(channel_span(i)));
            let decoding = |i: int|
                one_if(d.native && w.covers(channel_span(i)) && d.decodes@[i]);
            &&& d.in_view(w) == at(0) + at(1) + at(2) + at(3) + bands
            &&& d.decodable(w) == decoding(0) + decoding(1) + decoding(2) + decoding(3) + bands
        }),
{
    lemma_bands_reached(d, w, d.bands@.len());
    reveal_with_fuel(Demand::channels_in, 6);
}

/// A window is as narrow as what it was chosen for allows: one step deeper and
/// three quarters of it would not hold the stretch.
pub proof fn a_window_is_no_wider_than_it_has_to_be(s: Span, hw_rate_hz: i64)
    requires
        s.valid(),
        rate_ok(hw_rate_hz),
    ensures
        ({
            let p = plan_for(s, hw_rate_hz as int);
            &&& p.want4 == s.lo + s.hi
            &&& p.dec >= 1
            &&& (p.dec + 1) * (2 * (s.hi - s.lo)) > 3 * hw_rate_hz
            &&& p.dec == 1 || p.dec * (2 * (s.hi - s.lo)) <= 3 * hw_rate_hz
        }),
{
    let n = 2 * (s.hi - s.lo);
    let a = 3 * hw_rate_hz;
    if n <= a {
        a_window_is_as_wide_as_it_was_asked_for(s, hw_rate_hz);
        let q = a / n;
        vstd::arithmetic::div_mod::lemma_fundamental_div_mod(a, n);
        assert(a == n * q + a % n && a % n < n);
        assert((q + 1) * n > a) by (nonlinear_arith)
            requires
                a == n * q + a % n,
                a % n < n,
        ;
        assert(q <= a) by (nonlinear_arith)
            requires
                a == n * q + a % n,
                0 <= a % n,
                n >= 1,
                q >= 0,
        ;
    } else {
        let q = plan_for(s, hw_rate_hz as int).dec as int;
        assert((q + 1) * n > a) by (nonlinear_arith)
            requires
                q == 1,
                n > a,
                n > 0,
        ;
    }
}

/// A window is put exactly where it is wanted when the receiver can reach that,
/// and otherwise as near as it can.
pub proof fn a_window_is_put_as_near_as_it_can_be(
    want4: int,
    hw_center_hz: int,
    hw_rate_hz: int,
    dec: int,
    other: int,
)
    requires
        slack(hw_rate_hz, dec) > 0,
        8 * dec * hw_center_hz - slack(hw_rate_hz, dec) <= other <= 8 * dec * hw_center_hz + slack(
            hw_rate_hz,
            dec,
        ),
    ensures
        ({
            let want = 2 * dec * want4;
            let c = aimed(want4, hw_center_hz, hw_rate_hz, dec);
            &&& c <= want ==> other <= c || want - c <= other - c
            &&& c >= want ==> other >= c || c - want <= c - other
            &&& c == want || (c < want && other <= c) || (c > want && other >= c)
        }),
{
}

/// The lane of rtl_433 is as narrow as its band allows.
pub proof fn a_lane_is_no_wider_than_it_has_to_be(w: Window, want_hz: int)
    requires
        w.valid(),
        want_hz >= 1,
    ensures
        (lane_dec(w, want_hz) + 1) * (want_hz * w.dec) > w.in_rate_hz,
{
    let n = want_hz * w.dec;
    let a = w.in_rate_hz as int;
    assert(n > 0) by (nonlinear_arith)
        requires
            n == want_hz * w.dec,
            want_hz >= 1,
            w.dec >= 1,
    ;
    if n <= a {
        vstd::arithmetic::div_mod::lemma_fundamental_div_mod(a, n);
        let q = a / n;
        assert((q + 1) * n > a) by (nonlinear_arith)
            requires
                a == n * q + a % n,
                a % n < n,
        ;
    } else {
        assert((1 + 1) * n > a) by (nonlinear_arith)
            requires
                n > a,
                n > 0,
        ;
    }
}

/// A window counts as the same while it moved by less than a hertz and its width
/// changed by less than one; and so it is the other way round.
pub proof fn a_window_is_the_same_within_a_hertz(a: Window, b: Window, d: int)
    requires
        a.valid(),
        b.valid(),
        a.dec == d,
        b.dec == d,
    ensures
        same_window(a, b) <==> -8 * d < a.center - b.center < 8 * d && -d < a.in_rate_hz
            - b.in_rate_hz < d,
        same_window(a, b) <==> same_window(b, a),
{
    let off = a.center - b.center;
    let wider = a.in_rate_hz - b.in_rate_hz;
    assert(a.center * d - b.center * d == d * off) by (nonlinear_arith)
        requires
            off == a.center - b.center,
    ;
    assert(a.in_rate_hz * d - b.in_rate_hz * d == d * wider) by (nonlinear_arith)
        requires
            wider == a.in_rate_hz - b.in_rate_hz,
    ;
    lemma_scaled_order(off, 8 * d, d);
    lemma_scaled_order(-off, 8 * d, d);
    lemma_scaled_order(wider, d, d);
    lemma_scaled_order(-wider, d, d);
    assert(d * (8 * d) == 8 * (d * d)) by (nonlinear_arith);
    assert(d * (-off) == -(d * off)) by (nonlinear_arith);
    assert(d * (-wider) == -(d * wider)) by (nonlinear_arith);
}

proof fn lemma_scaled_order(x: int, y: int, d: int)
    requires
        d >= 1,
    ensures
        x < y <==> d * x < d * y,
{
    assert(x < y <==> d * x < d * y) by (nonlinear_arith)
        requires
            d >= 1,
    ;
}

// ---------------------------------------------------------------------------
// The worker
// ---------------------------------------------------------------------------

/// A snapshot goes out every half second, and not if the clock went back.
pub proof fn a_snapshot_goes_out_every_half_second(last_ms: u64, now_ms: u64)
    ensures
        now_ms < last_ms + 500 ==> !is_emit_due(last_ms, now_ms),
        now_ms >= last_ms + 500 ==> is_emit_due(last_ms, now_ms),
{
}

/// A retune forgets rtl_433 and nothing that was heard; the rows are then those of
/// the new window. A window that did not move changes nothing.
pub proof fn a_retune_keeps_what_was_heard(
    was: Worker,
    window: Window,
    moved: bool,
    after: Worker,
)
    requires
        retuned(was, window, moved, after),
    ensures
        after.devices == was.devices && after.decodes == was.decodes,
        after.cfg == was.cfg && after.protocols == was.protocols && after.bands == was.bands,
        moved ==> after.window == window && after.lane is None,
        !moved ==> after.window == was.window && after.lane == was.lane && after.rows == was.rows,
        moved <==> !same_window(was.window, window),
        after.wf(),
{
}

/// New settings hold from then on, with their bands; only those that decide what
/// listens stop rtl_433, and no device is lost that the new cap has room for.
pub proof fn new_settings_hold(
    was: Worker,
    next: IsmSettings,
    bands: Vec<Band>,
    change: ConfigChange,
    after: Worker,
)
    requires
        reconfigured(was, next, bands, change, after),
        was.wf(),
    ensures
        after.cfg == next && after.bands == bands,
        was.cfg.families == next.families && was.cfg.rtl433 == next.rtl433 ==> after.lane
            == was.lane && after.rows == was.rows && change != ConfigChange::Rebuild,
        was.cfg.families != next.families || was.cfg.rtl433 != next.rtl433 ==> after.lane is None
            && change == ConfigChange::Rebuild,
        was.devices.rows@.len() <= next.max_devices ==> forall|j: int|
            0 <= j < was.devices.rows@.len() ==> after.devices.rows@.contains(
                #[trigger] was.devices.rows@[j],
            ),
        next.max_devices >= 1 ==> after.devices.rows@.len() <= next.max_devices,
        after.window == was.window && after.decodes == was.decodes,
        after.wf(),
{
    making_room_drops_only_the_stalest(was.devices.rows@, after.devices.rows@, device_cap(next));
}

/// At least one device is kept, and no more than the settings allow.
pub proof fn the_settings_cap_the_table(cfg: IsmSettings)
    ensures
        device_cap(cfg) >= 1,
        cfg.max_devices >= 1 ==> device_cap(cfg) == cfg.max_devices,
{
}

/// Starting or stopping rtl_433 moves the rows and nothing else.
pub proof fn a_lane_moves_only_the_rows(was: Worker, lane: Option<Lane>, after: Worker)
    requires
        relaned(was, lane, after),
    ensures
        after.lane == lane,
        after.window == was.window && after.cfg == was.cfg && after.protocols == was.protocols,
        after.bands == was.bands && after.devices == was.devices && after.decodes == was.decodes,
        after.wf(),
{
}

/// rtl_433 runs if and only if it is switched on and a band was picked, on that
/// band. Where none was, it is told whether a narrower width would have done.
pub proof fn rtl433_runs_on_the_band_that_was_picked(
    w: Worker,
    picked: Option<usize>,
    plan: LanePlan,
)
    requires
        is_lane_plan(w, picked, plan),
    ensures
        !w.cfg.rtl433.enabled ==> plan is Off,
        w.cfg.rtl433.enabled && picked is None ==> plan is Unavailable,
        w.cfg.rtl433.enabled && picked is Some ==> plan is Start && picked == Some(plan->band)
            && plan->dec == lane_dec(w.window, w.bands@[plan->band as int].want_hz as int),
        plan matches LanePlan::Unavailable(t) ==> {
            let narrower = exists|i: int|
                0 <= i < w.bands@.len() && (#[trigger] w.bands@[i]).enabled
                    && w.bands@[i].fits_at_own_width(w.window);
            &&& narrower ==> t@ == "the receiver's window is too narrow for "@ + dec(
                (w.cfg.rtl433.bandwidth_hz / 1000) as nat,
            ) + " kHz — choose a narrower bandwidth, or AUTO"@
            &&& !narrower ==> t@ == "no enabled band is inside the receiver's window"@
        },
{
}

/// The first decoder of a code decides whether a burst is decoded with it, and a
/// code that no decoder has never is.
pub proof fn the_first_decoder_of_a_code_decides(w: Worker, id: u8, freq_hz: int, i: int)
    ensures
        0 <= i < w.protocols@.len() && w.protocols@[i].id == id && (forall|k: int|
            0 <= k < i ==> (#[trigger] w.protocols@[k]).id != id) ==> (decodes(w, id, freq_hz)
            <==> runs(w.cfg, w.lane, w.protocols@[i], freq_hz)),
        (forall|k: int| 0 <= k < w.protocols@.len() ==> (#[trigger] w.protocols@[k]).id != id)
            ==> !decodes(w, id, freq_hz),
{
    let ps = w.protocols@;
    if 0 <= i < ps.len() && ps[i].id == id && (forall|k: int|
        0 <= k < i ==> (#[trigger] ps[k]).id != id) && decodes(w, id, freq_hz) {
        let j = choose|j: int|
            0 <= j < ps.len() && (#[trigger] ps[j]).id == id && (forall|k: int|
                0 <= k < j ==> (#[trigger] ps[k]).id != id) && runs(w.cfg, w.lane, ps[j], freq_hz);
        assert(ps[i].id == id && ps[j].id == id);
        assert(i == j);
    }
}

/// The panel is told of a problem only when nothing listens, natively or through
/// rtl_433, and of the window only when a channel is outside it; the middle of the
/// plan is then suggested.
pub proof fn the_panel_is_told_what_is_wrong(w: Worker, s: IsmStatus)
    requires
        is_status(w, s),
        w.wf(),
    ensures
        ({
            let outside = exists|i: int|
                0 <= i < CHANNEL_COUNT && !w.window.covers(#[trigger] channel_span(i));
            let listens = w.lane is Some || exists|i: int|
                0 <= i < CHANNEL_COUNT && (#[trigger] w.rows@[i]).live;
            &&& listens <==> s.unavailable is None
            &&& !listens && outside ==> told(s.unavailable) == Some(
                "no ISM channel is inside the receiver's window"@,
            )
            &&& !listens && !outside ==> told(s.unavailable) == Some(
                "no device family is switched on"@,
            )
            &&& outside <==> s.suggest_center_hz is Some
            &&& s.suggest_center_hz matches Some(f) ==> 4 * f == plan_span().lo + plan_span().hi
        }),
        s.decodes == w.decodes,
{
    reveal_strlit("outside the receiver's window");
    let rows = w.rows@;
    assert forall|i: int| 0 <= i < CHANNEL_COUNT implies (!w.window.covers(
        #[trigger] channel_span(i),
    ) <==> told(rows[i].reason) == Some("outside the receiver's window"@)) by {
        a_row_tells_what_is_in_the_way(w, i);
    }
    if exists|i: int| 0 <= i < CHANNEL_COUNT && !w.window.covers(#[trigger] channel_span(i)) {
        let i = choose|i: int|
            0 <= i < CHANNEL_COUNT && !w.window.covers(#[trigger] channel_span(i));
        assert(told(rows[i].reason) == Some("outside the receiver's window"@));
    }
    if s.suggest_center_hz is Some {
        let i = choose|i: int|
            0 <= i < rows.len() && told((#[trigger] rows[i]).reason) == Some(
                "outside the receiver's window"@,
            );
        assert(!w.window.covers(channel_span(i)));
    }
}

/// Every band has its row, with its own frequency and label; the one that is live
/// is the one rtl_433 runs on. With rtl_433 switched off there are none.
pub proof fn every_band_has_its_row(w: Worker, rows: Option<Vec<IsmChannelStatus>>, i: int)
    requires
        bands_tell(w, rows),
        0 <= i < w.bands@.len(),
    ensures
        rows is Some <==> w.cfg.rtl433.enabled,
        rows matches Some(v) ==> {
            &&& v@.len() == w.bands@.len()
            &&& v@[i].freq_hz == w.bands@[i].center_hz && v@[i].label@ == w.bands@[i].label@
            &&& v@[i].live <==> (w.lane matches Some(l) && l.band == i)
            &&& told(v@[i].reason) == band_reason(w.bands@[i], v@[i].live, w.window)
        },
{
}

/// A line that was refused is named by its number, before what is wrong with it.
pub proof fn a_refused_line_is_named(line: nat, message: Seq<char>)
    ensures
        problem(line, message) == "line "@ + dec(line) + ": "@ + message,
{
}

/// The id of a device is a hash over its protocol's code and then its name, and
/// each byte of that is one round: mixed into the low bits, then multiplied through
/// the word.
pub proof fn each_byte_of_a_name_is_one_round(
    protocol: u8,
    device: Seq<char>,
    bytes: Seq<u8>,
    b: u8,
)
    ensures
        device_key(protocol, device) == fnv(seq![protocol] + encode_utf8(device)),
        fnv(Seq::empty()) == 0xcbf2_9ce4_8422_2325,
        fnv(bytes.push(b)) == (fnv(bytes) ^ (b as u64)) as int * 0x1000_0000_01b3
            % 0x1_0000_0000_0000_0000,
{
    assert(bytes.push(b).drop_last() =~= bytes);
}

} // verus!
