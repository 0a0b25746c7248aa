//! What the stream thread's bookkeeping is for.
use crate::hackrf::handle::{
    absorbed, dropped_stats, is_ring_bytes, keyed_text, leaves_no_packet, nothing, queued,
    signed_tenths, silence, stream_bytes, ticked, whole_samples, Ctrl, GainSetter, PendingState,
    RxStats, TxTransition,
};
use crate::ring::is_next_pow2;
use crate::text::{dec, dec_hundredths, dec_tenths, has_text, rounded};
use crate::text_laws::{lemma_has_end, lemma_has_two, lemma_still_has, rounding_goes_to_the_nearest};
use vstd::prelude::*;

verus! {

// ---------------------------------------------------------------------------
// Controls
// ---------------------------------------------------------------------------

/// Whether two messages set the same thing, of which only the last counts.
pub open spec fn same_setting(a: Ctrl, b: Ctrl) -> bool {
    match (a, b) {
        (Ctrl::Center(_), Ctrl::Center(_)) => true,
        (Ctrl::Rate(_), Ctrl::Rate(_)) => true,
        (Ctrl::FilterBw(_), Ctrl::FilterBw(_)) => true,
        (Ctrl::Ppm(_), Ctrl::Ppm(_)) => true,
        (Ctrl::Gain(x, _), Ctrl::Gain(y, _)) => x == y,
        (Ctrl::Amp { tx: x, on: _ }, Ctrl::Amp { tx: y, on: _ }) => x == y,
        (Ctrl::BiasTee(_), Ctrl::BiasTee(_)) => true,
        _ => false,
    }
}

/// Whether a message is pending as it was sent.
pub open spec fn is_pending(p: PendingState, c: Ctrl) -> bool {
    match c {
        Ctrl::Center(v) => p.center == Some(v),
        Ctrl::Rate(v) => p.rate == Some(v),
        Ctrl::FilterBw(v) => p.filter_bw == Some(v),
        Ctrl::Ppm(v) => p.ppm == Some(v),
        Ctrl::Gain(GainSetter::Lna, v) => p.lna == Some(v),
        Ctrl::Gain(GainSetter::Vga, v) => p.vga == Some(v),
        Ctrl::Gain(GainSetter::TxVga, v) => p.txvga == Some(v),
        Ctrl::Amp { tx, on } => if tx {
            p.tx_amp == Some(on)
        } else {
            p.amp == Some(on)
        },
        Ctrl::BiasTee(v) => p.bias_tee == Some(v),
        Ctrl::Tx(t) => p.tx.len() > 0 && p.tx.last() == t,
        Ctrl::Shutdown => p.shutdown,
    }
}

/// Of each setting, the last message of a batch is the one that is pending.
pub proof fn the_last_setting_wins(p: PendingState, batch: Seq<Ctrl>, i: int)
    requires
        0 <= i < batch.len(),
        !(batch[i] is Tx),
        forall|j: int| i < j < batch.len() ==> !same_setting(batch[i], #[trigger] batch[j]),
    ensures
        is_pending(absorbed(p, batch), batch[i]),
    decreases batch.len(),
{
    if i < batch.len() - 1 {
        let rest = batch.drop_last();
        assert(rest[i] == batch[i]);
        assert forall|j: int| i < j < rest.len() implies !same_setting(
            rest[i],
            #[trigger] rest[j],
        ) by {
            assert(rest[j] == batch[j]);
        }
        the_last_setting_wins(p, rest, i);
        assert(!same_setting(batch[i], batch[batch.len() - 1]));
    }
}

/// The last change of direction stands at the end of the queue.
pub proof fn the_last_transition_is_queued_last(p: PendingState, batch: Seq<Ctrl>, t: TxTransition)
    ensures
        is_pending(absorbed(p, batch.push(Ctrl::Tx(t))), Ctrl::Tx(t)),
        queued(p.tx, t).len() >= p.tx.len(),
{
    let all = batch.push(Ctrl::Tx(t));
    assert(all.drop_last() =~= batch);
    assert(all.last() == Ctrl::Tx(t));
}

/// What no message of a batch names stays as it was.
pub proof fn what_is_not_named_stays(p: PendingState, batch: Seq<Ctrl>)
    ensures
        ({
            let q = absorbed(p, batch);
            &&& (forall|j: int| 0 <= j < batch.len() ==> !(#[trigger] batch[j] is Center)) ==> q.center
                == p.center
            &&& (forall|j: int| 0 <= j < batch.len() ==> !(#[trigger] batch[j] is Rate)) ==> q.rate
                == p.rate
            &&& (forall|j: int| 0 <= j < batch.len() ==> !(#[trigger] batch[j] is FilterBw))
                ==> q.filter_bw == p.filter_bw
            &&& (forall|j: int| 0 <= j < batch.len() ==> !(#[trigger] batch[j] is Ppm)) ==> q.ppm
                == p.ppm
            &&& (forall|j: int| 0 <= j < batch.len() ==> !(#[trigger] batch[j] is Gain)) ==> q.lna
                == p.lna && q.vga == p.vga && q.txvga == p.txvga
            &&& (forall|j: int| 0 <= j < batch.len() ==> !(#[trigger] batch[j] is Amp)) ==> q.amp
                == p.amp && q.tx_amp == p.tx_amp
            &&& (forall|j: int| 0 <= j < batch.len() ==> !(#[trigger] batch[j] is BiasTee))
                ==> q.bias_tee == p.bias_tee
            &&& (forall|j: int| 0 <= j < batch.len() ==> !(#[trigger] batch[j] is Tx)) ==> q.tx == p.tx
            &&& (forall|j: int| 0 <= j < batch.len() ==> !(#[trigger] batch[j] is Shutdown))
                ==> q.shutdown == p.shutdown
        }),
    decreases batch.len(),
{
    if batch.len() > 0 {
        let rest = batch.drop_last();
        what_is_not_named_stays(p, rest);
        assert(forall|j: int| 0 <= j < rest.len() ==> #[trigger] rest[j] == batch[j]);
        assert(batch[batch.len() - 1] == batch.last());
    }
}

/// A gain moves its own stage only, and an amplifier switch its own direction.
pub proof fn a_gain_moves_its_own_stage(p: PendingState, v: i64, on: bool)
    ensures
        p.with(Ctrl::Gain(GainSetter::Lna, v)) == (PendingState { lna: Some(v), ..p }),
        p.with(Ctrl::Gain(GainSetter::Vga, v)) == (PendingState { vga: Some(v), ..p }),
        p.with(Ctrl::Gain(GainSetter::TxVga, v)) == (PendingState { txvga: Some(v), ..p }),
        p.with(Ctrl::Amp { tx: true, on }) == (PendingState { tx_amp: Some(on), ..p }),
        p.with(Ctrl::Amp { tx: false, on }) == (PendingState { amp: Some(on), ..p }),
{
}

// ---------------------------------------------------------------------------
// Accounts
// ---------------------------------------------------------------------------

/// What a full ring costs is entered where it belongs: as lost when the engine
/// should have read it, as expected when the station was transmitting.
pub proof fn a_drop_is_entered_where_it_belongs(s: RxStats, n: int, paused: bool)
    requires
        0 <= n,
        s.win_dropped + n <= u64::MAX && s.total_dropped + n <= u64::MAX,
        s.win_keyed + n <= u64::MAX && s.total_keyed + n <= u64::MAX,
    ensures
        ({
            let t = dropped_stats(s, n, paused);
            &&& t.total_dropped - s.total_dropped == (if paused {
                0
            } else {
                n
            })
            &&& t.win_dropped - s.win_dropped == t.total_dropped - s.total_dropped
            &&& t.total_keyed - s.total_keyed == (if paused {
                n
            } else {
                0
            })
            &&& t.win_keyed - s.win_keyed == t.total_keyed - s.total_keyed
            &&& t.total_samples == s.total_samples && t.total_errors == s.total_errors
            &&& t.is_bad() == (s.is_bad() || (!paused && n > 0))
        }),
{
}

/// A window is a bad one if samples were lost or a transfer failed in it, and not
/// for what an over cost.
pub proof fn only_losses_and_errors_are_bad(s: RxStats)
    ensures
        s.is_bad() <==> s.win_dropped + s.win_errors > 0,
{
}

/// A clock that was measured for at least 20 s is told as a rate and as parts per
/// million of the nominal one, each to the nearest.
pub proof fn the_clock_is_told_after_twenty_seconds(s: RxStats, t: u64, now: u64)
    requires
        s.first_iq == Some(t),
        t <= now,
    ensures
        now - t < 20 * 1_000_000 ==> s.clock_text(now) == "clock: measuring"@,
        s.total_samples == 0 || s.nominal_mhz == 0 ==> s.clock_text(now) == "clock: measuring"@,
        now - t >= 20 * 1_000_000 && s.total_samples > 0 && s.nominal_mhz > 0 ==> ({
            let us = (now - t) as nat;
            let n = s.total_samples as int;
            let sps = rounded((n * 1_000_000) as nat, us);
            let due = us * s.nominal_mhz;
            &&& 2 * (sps * us - n * 1_000_000) <= us && 2 * (n * 1_000_000 - sps * us) <= us
            &&& has_text(s.clock_text(now), dec(sps) + " sps, "@)
            &&& has_text(
                s.clock_text(now),
                signed_tenths((n * 1_000_000_000 - due) * 10_000_000, due as nat) + " ppm"@,
            )
        }),
{
    if now - t >= 20 * 1_000_000 && s.total_samples > 0 && s.nominal_mhz > 0 {
        let us = (now - t) as nat;
        let n = s.total_samples as int;
        let sps = rounded((n * 1_000_000) as nat, us);
        let due = us * s.nominal_mhz;
        rounding_goes_to_the_nearest((n * 1_000_000) as nat, us);
        assert(due == (now - t) * s.nominal_mhz);
        assert(due >= 0) by (nonlinear_arith)
            requires
                due == us * s.nominal_mhz,
                us >= 0,
                s.nominal_mhz >= 0,
        ;
        let ppm = signed_tenths((n * 1_000_000_000 - due) * 10_000_000, due as nat);
        lemma_has_two("clock: "@, dec(sps), " sps, "@);
        let a = "clock: "@ + dec(sps) + " sps, "@;
        lemma_still_has(a, ppm, dec(sps) + " sps, "@);
        lemma_still_has(a + ppm, " ppm"@, dec(sps) + " sps, "@);
        lemma_has_two(a, ppm, " ppm"@);
    }
}

/// A deviation has its sign in front, whichever way it goes.
pub proof fn a_deviation_has_its_sign(a: int, b: nat)
    requires
        b > 0,
    ensures
        a >= 0 ==> signed_tenths(a, b) == "+"@ + dec_tenths(rounded(a as nat, b)),
        a < 0 ==> signed_tenths(a, b) == "-"@ + dec_tenths(rounded((-a) as nat, b)),
{
}

/// Each number of the closing line stands in front of what it counts.
pub proof fn the_summary_counts_everything(s: RxStats, now: u64)
    ensures
        has_text(s.summary_text(now), dec(s.total_samples as nat) + " samples, "@),
        has_text(s.summary_text(now), dec(s.total_dropped as nat) + " dropped, "@),
        has_text(s.summary_text(now), dec(s.total_errors as nat) + " transfer errors, "@),
        has_text(s.summary_text(now), dec(s.stalls as nat) + " endpoint stalls; "@),
        has_text(s.summary_text(now), s.clock_text(now)),
{
    let (a, b, c, d) = (
        dec(s.total_samples as nat),
        dec(s.total_dropped as nat),
        dec(s.total_errors as nat),
        dec(s.stalls as nat),
    );
    let e = Seq::<char>::empty();
    let t1 = a + " samples, "@;
    let t2 = t1 + b + " dropped, "@;
    let t3 = t2 + c + " transfer errors, "@;
    let t4 = t3 + d + " endpoint stalls; "@;
    assert(e + t1 =~= t1);
    lemma_has_end(e, t1);
    lemma_has_two(t1, b, " dropped, "@);
    lemma_has_two(t2, c, " transfer errors, "@);
    lemma_has_two(t3, d, " endpoint stalls; "@);
    lemma_has_end(t4, s.clock_text(now));
    lemma_still_has(t1, b, t1);
    lemma_still_has(t1 + b, " dropped, "@, t1);
    lemma_still_has(t2, c, t1);
    lemma_still_has(t2 + c, " transfer errors, "@, t1);
    lemma_still_has(t3, d, t1);
    lemma_still_has(t3 + d, " endpoint stalls; "@, t1);
    lemma_still_has(t4, s.clock_text(now), t1);
    lemma_still_has(t2, c, b + " dropped, "@);
    lemma_still_has(t2 + c, " transfer errors, "@, b + " dropped, "@);
    lemma_still_has(t3, d, b + " dropped, "@);
    lemma_still_has(t3 + d, " endpoint stalls; "@, b + " dropped, "@);
    lemma_still_has(t4, s.clock_text(now), b + " dropped, "@);
    lemma_still_has(t3, d, c + " transfer errors, "@);
    lemma_still_has(t3 + d, " endpoint stalls; "@, c + " transfer errors, "@);
    lemma_still_has(t4, s.clock_text(now), c + " transfer errors, "@);
    lemma_still_has(t4, s.clock_text(now), d + " endpoint stalls; "@);
}

/// What an over cost is told with both numbers, and only if it cost anything.
pub proof fn what_an_over_cost_is_told(window: nat, total: nat)
    ensures
        window == 0 ==> keyed_text(window, total).len() == 0,
        window > 0 ==> has_text(
            keyed_text(window, total),
            dec(total) + " discarded while keyed in total"@,
        ) && has_text(keyed_text(window, total), "; "@ + dec(window)),
{
    if window > 0 {
        let note =
            " sample(s) discarded while keyed (expected — this receiver is not read during an over); "@;
        let last = " discarded while keyed in total"@;
        let t = "; "@ + dec(window) + note;
        lemma_has_two(t, dec(total), last);
        assert(Seq::<char>::empty() + ("; "@ + dec(window)) =~= "; "@ + dec(window));
        lemma_has_end(Seq::empty(), "; "@ + dec(window));
        lemma_still_has("; "@ + dec(window), note, "; "@ + dec(window));
        lemma_still_has(t, dec(total), "; "@ + dec(window));
        lemma_still_has(t + dec(total), last, "; "@ + dec(window));
    }
}

/// How a line opens: the samples, their rate in tenths of a kilosample, and the
/// time in hundredths of a second, each in front of its unit and rounded to the
/// nearest.
pub proof fn a_line_opens_with_the_throughput(s: RxStats, now: u64)
    requires
        now > s.since,
    ensures
        ({
            let us = (now - s.since) as nat;
            let tenths = rounded((s.win_samples * 10_000) as nat, us);
            let hundredths = rounded(us, 10_000);
            &&& has_text(s.opening(now), dec(s.win_samples as nat) + " samples ("@)
            &&& has_text(s.opening(now), dec_tenths(tenths) + " ksps) over "@)
            &&& has_text(s.opening(now), dec_hundredths(hundredths) + "s; "@)
            &&& 2 * (tenths * us - s.win_samples * 10_000) <= us
            &&& 2 * (s.win_samples * 10_000 - tenths * us) <= us
            &&& has_text(s.line(now), s.opening(now))
        }),
{
    let us = (now - s.since) as nat;
    let tenths = rounded((s.win_samples * 10_000) as nat, us);
    let hundredths = rounded(us, 10_000);
    rounding_goes_to_the_nearest((s.win_samples * 10_000) as nat, us);
    let (a, b, c) = (dec(s.win_samples as nat), dec_tenths(tenths), dec_hundredths(hundredths));
    let t1 = "HackRF RX: "@ + a + " samples ("@;
    let t2 = t1 + b + " ksps) over "@;
    lemma_has_two("HackRF RX: "@, a, " samples ("@);
    lemma_has_two(t1, b, " ksps) over "@);
    lemma_has_two(t2, c, "s; "@);
    lemma_still_has(t1, b, a + " samples ("@);
    lemma_still_has(t1 + b, " ksps) over "@, a + " samples ("@);
    lemma_still_has(t2, c, a + " samples ("@);
    lemma_still_has(t2 + c, "s; "@, a + " samples ("@);
    lemma_still_has(t2, c, b + " ksps) over "@);
    lemma_still_has(t2 + c, "s; "@, b + " ksps) over "@);
    let o = s.opening(now);
    let rest = s.line(now).skip(o.len() as int);
    assert(s.line(now) =~= o + rest);
    assert(Seq::<char>::empty() + o =~= o);
    lemma_has_end(Seq::empty(), o);
    lemma_still_has(o, rest, o);
}

// ---------------------------------------------------------------------------
// The rings
// ---------------------------------------------------------------------------

/// A ring has room for the stretch of stream it is for, unless that is capped,
/// and is never wastefully large.
pub proof fn a_ring_has_room_for_its_stretch(want: int, max: int, cap: int)
    requires
        is_ring_bytes(want, max, cap),
        max >= 65_536,
        want >= 0,
    ensures
        65_536 <= cap <= max,
        cap >= want || cap == max,
        cap > 65_536 ==> cap < 2 * want,
{
    let p = choose|p: int| #[trigger] is_next_pow2(want, p);
}

/// The bytes of so many milliseconds: two to a sample.
pub proof fn a_stretch_is_two_bytes_a_sample(rate_hz: int, ms: int)
    requires
        rate_hz >= 0,
        ms >= 0,
    ensures
        1000 * stream_bytes(rate_hz, ms) <= rate_hz * 2 * ms < 1000 * (stream_bytes(rate_hz, ms)
            + 1),
{
    let x = rate_hz * 2 * ms;
    assert(1000 * (x / 1000) <= x < 1000 * (x / 1000 + 1));
}

/// As many whole samples as are there and fit, and not one more.
pub proof fn whole_samples_only(ready: int, room: int)
    requires
        ready >= 0,
        room >= 0,
    ensures
        ({
            let n = whole_samples(ready, room);
            &&& n % 2 == 0
            &&& 0 <= n <= ready && n <= room
            &&& n + 2 > ready || n + 2 > room
        }),
{
}

/// Nothing is pending at first.
pub proof fn nothing_is_pending_at_first()
    ensures
        ({
            let p = nothing();
            &&& p.center is None && p.rate is None && p.filter_bw is None && p.ppm is None
            &&& p.lna is None && p.vga is None && p.txvga is None
            &&& p.amp is None && p.tx_amp is None && p.bias_tee is None
            &&& p.tx.len() == 0 && !p.shutdown
        }),
{
}

/// The accounts are told every two seconds: each sample, loss and error is in one
/// window's line and in the totals for good.
pub proof fn a_window_is_told_every_two_seconds(
    a: RxStats,
    b: RxStats,
    c: RxStats,
    now: u64,
    later: u64,
    first: Option<(bool, String)>,
    second: Option<(bool, String)>,
)
    requires
        ticked(a, now, first, b),
        ticked(b, later, second, c),
        first is Some,
    ensures
        second is Some <==> later >= now + 2_000_000,
        b.win_samples == 0 && b.win_dropped == 0 && b.win_keyed == 0 && b.win_errors == 0,
        c.total_samples == a.total_samples && c.total_dropped == a.total_dropped,
        c.total_errors == a.total_errors && c.total_keyed == a.total_keyed,
        first matches Some((warn, line)) ==> warn == a.is_bad() && line@ == a.line(now),
{
}

/// The silence lasts from the last samples until now, and there is none while
/// transmitting.
pub proof fn the_silence_lasts_since_the_last_samples(since_open: u64, last_rx: u64)
    ensures
        silence(true, since_open, last_rx) == 0,
        last_rx <= since_open ==> last_rx + silence(false, since_open, last_rx) == since_open,
        last_rx > since_open ==> silence(false, since_open, last_rx) == 0,
{
}

/// The ring is drained when no whole bulk packet of 512 bytes is left in it.
pub proof fn a_remainder_of_a_packet_is_drained(pending: int)
    requires
        pending >= 0,
    ensures
        leaves_no_packet(pending) <==> pending / 512 == 0,
{
}

} // verus!
