//! What the receiver's bookkeeping and its two lanes are for.
use crate::fobos::device::{
    are_devices, buffer_text, is_list, not_found, nul_at, reopens, serial_at, serial_list,
    sounds_busy, wanted_at, with_extras, DevInfo, EXTRA_HF_RATES_HZ,
};
use crate::fobos::error::{came_to, Error};
use crate::fobos::handle::{
    absorbed, dropped_stats, first_text, is_ring_capacity, keyed_text, lanes_match, quads,
    rate_in_use, silence, taken_in_pairs, taken_in_quads, ticked, Ctrl, Pending, Port, RxStats,
};
use crate::fobos::stream::{
    adc_rate, are_hf_steps, are_rf_steps, block_len, channel, common_pairs, is_bins, is_odd_port,
    is_top_rate, is_usable_bins, label_text, out_rate, rate_miss, took_handoff, took_hf_read,
    took_rate, took_read, Handoff, HfPump, HfSteps, ReadOutcome, RfPump, RfSteps,
};
use crate::text::{
    dec, dec_hundredths, dec_tenths, has_text, lossy_text, lower, quoted_text, rounded, stands_at,
    trimmed, upper,
};
use crate::text_laws::{lemma_has_end, lemma_has_two, lemma_still_has, rounding_goes_to_the_nearest};
use vstd::prelude::*;

verus! {

// ---------------------------------------------------------------------------
// Controls
// ---------------------------------------------------------------------------

/// Whether two messages set the same thing, of which only the last counts.
pub open spec fn same_setting(a: Ctrl, b: Ctrl) -> bool {
    match (a, b) {
        (Ctrl::Center(_), Ctrl::Center(_)) => true,
        (Ctrl::Rate(_), Ctrl::Rate(_)) => true,
        (Ctrl::LnaGain(_), Ctrl::LnaGain(_)) => true,
        (Ctrl::VgaGain(_), Ctrl::VgaGain(_)) => true,
        (Ctrl::ClkExternal(_), Ctrl::ClkExternal(_)) => true,
        _ => false,
    }
}

/// Whether a message is pending as it was sent.
pub open spec fn is_pending(p: Pending, c: Ctrl) -> bool {
    match c {
        Ctrl::Center(v) => p.center == Some(v),
        Ctrl::Rate(v) => p.rate == Some(v),
        Ctrl::LnaGain(v) => p.lna_gain == Some(v),
        Ctrl::VgaGain(v) => p.vga_gain == Some(v),
        Ctrl::ClkExternal(v) => p.clk_external == Some(v),
        Ctrl::Shutdown => p.shutdown,
    }
}

/// Of each setting, the last message of a batch is the one that is pending.
pub proof fn the_last_setting_wins(p: Pending, batch: Seq<Ctrl>, i: int)
    requires
        0 <= i < batch.len(),
        forall|j: int| i < j < batch.len() ==> !same_setting(batch[i], #[trigger] batch[j]),
    ensures
        is_pending(absorbed(p, batch), batch[i]),
    decreases batch.len(),
{
    if i < batch.len() - 1 {
        let rest = batch.drop_last();
        assert(rest[i] == batch[i]);
        assert forall|j: int| i < j < rest.len() implies !same_setting(
            rest[i],
            #[trigger] rest[j],
        ) by {
            assert(rest[j] == batch[j]);
        }
        the_last_setting_wins(p, rest, i);
        assert(!same_setting(batch[i], batch[batch.len() - 1]));
    }
}

/// What no message of a batch names stays as it was.
pub proof fn what_is_not_named_stays(p: Pending, batch: Seq<Ctrl>)
    ensures
        ({
            let q = absorbed(p, batch);
            &&& (forall|j: int| 0 <= j < batch.len() ==> !(#[trigger] batch[j] is Center)) ==> q.center
                == p.center
            &&& (forall|j: int| 0 <= j < batch.len() ==> !(#[trigger] batch[j] is Rate)) ==> q.rate
                == p.rate
            &&& (forall|j: int| 0 <= j < batch.len() ==> !(#[trigger] batch[j] is LnaGain))
                ==> q.lna_gain == p.lna_gain
            &&& (forall|j: int| 0 <= j < batch.len() ==> !(#[trigger] batch[j] is VgaGain))
                ==> q.vga_gain == p.vga_gain
            &&& (forall|j: int| 0 <= j < batch.len() ==> !(#[trigger] batch[j] is ClkExternal))
                ==> q.clk_external == p.clk_external
            &&& (forall|j: int| 0 <= j < batch.len() ==> !(#[trigger] batch[j] is Shutdown))
                ==> q.shutdown == p.shutdown
        }),
    decreases batch.len(),
{
    if batch.len() > 0 {
        let rest = batch.drop_last();
        what_is_not_named_stays(p, rest);
        assert(forall|j: int| 0 <= j < rest.len() ==> #[trigger] rest[j] == batch[j]);
        assert(batch[batch.len() - 1] == batch.last());
    }
}

// ---------------------------------------------------------------------------
// Accounts
// ---------------------------------------------------------------------------

/// What a full ring costs is entered where it belongs: as lost when the engine
/// should have read it, as expected when the station was transmitting.
pub proof fn a_drop_is_entered_where_it_belongs(s: RxStats, n: int, paused: bool)
    requires
        0 <= n,
        s.win_dropped + n <= u64::MAX && s.total_dropped + n <= u64::MAX,
        s.win_keyed + n <= u64::MAX && s.total_keyed + n <= u64::MAX,
    ensures
        ({
            let t = dropped_stats(s, n, paused);
            &&& t.total_dropped - s.total_dropped == (if paused {
                0
            } else {
                n
            })
            &&& t.win_dropped - s.win_dropped == t.total_dropped - s.total_dropped
            &&& t.total_keyed - s.total_keyed == (if paused {
                n
            } else {
                0
            })
            &&& t.win_keyed - s.win_keyed == t.total_keyed - s.total_keyed
            &&& t.total_samples == s.total_samples && t.total_errors == s.total_errors
            &&& t.first_error == s.first_error
        }),
{
}

/// A window is a bad one if samples were lost, if a read failed, or if nothing
/// arrived at all; not for what an over cost.
pub proof fn losses_errors_and_silence_are_bad(s: RxStats)
    ensures
        s.is_bad() <==> s.win_dropped + s.win_errors > 0 || s.win_samples == 0,
{
}

/// What an over cost is told with both numbers, and only if it cost anything.
pub proof fn what_an_over_cost_is_told(window: nat, total: nat)
    ensures
        window == 0 ==> keyed_text(window, total).len() == 0,
        window > 0 ==> has_text(
            keyed_text(window, total),
            dec(total) + " discarded while keyed in total"@,
        ) && has_text(keyed_text(window, total), "; "@ + dec(window)),
{
    if window > 0 {
        let note =
            " sample(s) discarded while keyed (expected — this receiver is not read during an over); "@;
        let last = " discarded while keyed in total"@;
        let t = "; "@ + dec(window) + note;
        lemma_has_two(t, dec(total), last);
        assert(Seq::<char>::empty() + ("; "@ + dec(window)) =~= "; "@ + dec(window));
        lemma_has_end(Seq::empty(), "; "@ + dec(window));
        lemma_still_has("; "@ + dec(window), note, "; "@ + dec(window));
        lemma_still_has(t, dec(total), "; "@ + dec(window));
        lemma_still_has(t + dec(total), last, "; "@ + dec(window));
    }
}

/// Each number of the closing line stands in front of what it counts, and the
/// first error is told.
pub proof fn the_summary_counts_everything(s: RxStats)
    ensures
        has_text(s.summary_text(), dec(s.total_samples as nat) + " samples, "@),
        has_text(s.summary_text(), dec(s.total_dropped as nat) + " dropped, "@),
        has_text(s.summary_text(), dec(s.total_errors as nat) + " errors"@),
        s.first_error matches Some(e) ==> has_text(s.summary_text(), " (first: "@ + e@ + ")"@),
{
    let (a, b, c) = (
        dec(s.total_samples as nat),
        dec(s.total_dropped as nat),
        dec(s.total_errors as nat),
    );
    let first = first_text(s.first_error, " (first: "@, ")"@);
    let e = Seq::<char>::empty();
    let t1 = a + " samples, "@;
    let t2 = t1 + b + " dropped, "@;
    let t3 = t2 + c + " errors"@;
    assert(e + t1 =~= t1);
    lemma_has_end(e, t1);
    lemma_has_two(t1, b, " dropped, "@);
    lemma_has_two(t2, c, " errors"@);
    lemma_has_end(t3, first);
    lemma_still_has(t1, b, t1);
    lemma_still_has(t1 + b, " dropped, "@, t1);
    lemma_still_has(t2, c, t1);
    lemma_still_has(t2 + c, " errors"@, t1);
    lemma_still_has(t3, first, t1);
    lemma_still_has(t2, c, b + " dropped, "@);
    lemma_still_has(t2 + c, " errors"@, b + " dropped, "@);
    lemma_still_has(t3, first, b + " dropped, "@);
    lemma_still_has(t3, first, c + " errors"@);
}

/// How a line opens: the samples, their rate in tenths of a kilosample, and the
/// time in hundredths of a second, each in front of its unit and rounded to the
/// nearest.
pub proof fn a_line_opens_with_the_throughput(s: RxStats, now: u64)
    requires
        now > s.since,
    ensures
        ({
            let us = (now - s.since) as nat;
            let tenths = rounded((s.win_samples * 10_000) as nat, us);
            let hundredths = rounded(us, 10_000);
            &&& has_text(s.opening(now), dec(s.win_samples as nat) + " samples ("@)
            &&& has_text(s.opening(now), dec_tenths(tenths) + " ksps) over "@)
            &&& has_text(s.opening(now), dec_hundredths(hundredths) + "s"@)
            &&& 2 * (tenths * us - s.win_samples * 10_000) <= us
            &&& 2 * (s.win_samples * 10_000 - tenths * us) <= us
            &&& has_text(s.line(now), s.opening(now))
        }),
{
    let us = (now - s.since) as nat;
    let tenths = rounded((s.win_samples * 10_000) as nat, us);
    let hundredths = rounded(us, 10_000);
    rounding_goes_to_the_nearest((s.win_samples * 10_000) as nat, us);
    let (a, b, c) = (dec(s.win_samples as nat), dec_tenths(tenths), dec_hundredths(hundredths));
    let t1 = "Fobos RX: "@ + a + " samples ("@;
    let t2 = t1 + b + " ksps) over "@;
    lemma_has_two("Fobos RX: "@, a, " samples ("@);
    lemma_has_two(t1, b, " ksps) over "@);
    lemma_has_two(t2, c, "s"@);
    lemma_still_has(t1, b, a + " samples ("@);
    lemma_still_has(t1 + b, " ksps) over "@, a + " samples ("@);
    lemma_still_has(t2, c, a + " samples ("@);
    lemma_still_has(t2 + c, "s"@, a + " samples ("@);
    lemma_still_has(t2, c, b + " ksps) over "@);
    lemma_still_has(t2 + c, "s"@, b + " ksps) over "@);
    let o = s.opening(now);
    let rest = s.line(now).skip(o.len() as int);
    assert(s.line(now) =~= o + rest);
    assert(Seq::<char>::empty() + o =~= o);
    lemma_has_end(Seq::empty(), o);
    lemma_still_has(o, rest, o);
}

// ---------------------------------------------------------------------------
// The ring
// ---------------------------------------------------------------------------

/// A ring holds half a second, in a power of two that is no larger than it has to
/// be, and at least 65536.
pub proof fn a_ring_holds_half_a_second(want: int, cap: int)
    requires
        is_ring_capacity(want, cap),
    ensures
        cap >= want,
        cap >= 65_536,
        cap > 65_536 ==> cap < 2 * want,
{
}

/// As many whole samples as are there and fit, and not one more; of both channels
/// alike.
pub proof fn whole_samples_only(ready: int, len: int, other: int)
    requires
        ready >= 0,
        len >= 0,
        other >= 0,
    ensures
        ({
            let n = taken_in_pairs(ready, len);
            &&& n % 2 == 0 && 0 <= n <= ready && n <= len
            &&& n + 2 > ready || n + 2 > len
        }),
        ({
            let n = taken_in_quads(ready, len, other);
            &&& 0 <= 4 * n <= ready && 2 * n <= len && 2 * n <= other
            &&& 4 * (n + 1) > ready || 2 * (n + 1) > len || 2 * (n + 1) > other
        }),
{
}

/// What two channels are woven into comes apart into those two channels.
pub proof fn two_channels_come_apart_again(
    main: Seq<u32>,
    aux: Seq<u32>,
    n: nat,
    left: Seq<u32>,
    right: Seq<u32>,
    k: int,
)
    requires
        0 <= k < n,
        lanes_match(left, right, quads(main, aux, n), k),
    ensures
        quads(main, aux, n).len() == 4 * n,
        left[2 * k] == main[2 * k] && left[2 * k + 1] == main[2 * k + 1],
        right[2 * k] == aux[2 * k] && right[2 * k + 1] == aux[2 * k + 1],
{
    assert((4 * k) / 4 == k && (4 * k) % 4 == 0);
    assert((4 * k + 1) / 4 == k && (4 * k + 1) % 4 == 1);
    assert((4 * k + 2) / 4 == k && (4 * k + 2) % 4 == 2);
    assert((4 * k + 3) / 4 == k && (4 * k + 3) % 4 == 3);
}

/// The order in which two channels are woven: I and Q of the one, I and Q of the
/// other.
pub proof fn two_channels_are_woven_sample_by_sample(
    main: Seq<u32>,
    aux: Seq<u32>,
    n: nat,
    k: int,
)
    requires
        0 <= k < n,
    ensures
        quads(main, aux, n)[4 * k] == main[2 * k],
        quads(main, aux, n)[4 * k + 1] == main[2 * k + 1],
        quads(main, aux, n)[4 * k + 2] == aux[2 * k],
        quads(main, aux, n)[4 * k + 3] == aux[2 * k + 1],
        common_pairs(main, aux) == (if main.len() / 2 < aux.len() / 2 {
            main.len() / 2
        } else {
            aux.len() / 2
        }),
{
    assert((4 * k) / 4 == k && (4 * k) % 4 == 0);
    assert((4 * k + 1) / 4 == k && (4 * k + 1) % 4 == 1);
    assert((4 * k + 2) / 4 == k && (4 * k + 2) % 4 == 2);
    assert((4 * k + 3) / 4 == k && (4 * k + 3) % 4 == 3);
}

/// A block holds the two inputs in turn.
pub proof fn a_block_holds_both_inputs_in_turn(block: Seq<u32>, i: int)
    requires
        0 <= i < block.len() / 2,
    ensures
        channel(block, false).len() == block.len() / 2 && channel(block, true).len() == block.len()
            / 2,
        channel(block, false)[i] == block[2 * i],
        channel(block, true)[i] == block[2 * i + 1],
{
}

// ---------------------------------------------------------------------------
// Rates
// ---------------------------------------------------------------------------

/// There are 400 blocks to a second, to the nearest sample.
pub proof fn four_hundred_blocks_a_second(rate_hz: int)
    requires
        rate_hz >= 0,
    ensures
        block_len(rate_hz) >= 1,
        rate_hz >= 200 ==> -200 <= 400 * block_len(rate_hz) - rate_hz <= 200,
{
}

/// The converter runs at eight times what is wanted, within 8 MHz and its top
/// rate; but never at 40 MHz, where 20 takes its place.
pub proof fn the_converter_runs_eight_times_as_fast(target: int, top: int)
    requires
        target >= 1,
        top >= 8_000_000,
    ensures
        8 * target == 40_000_000 && top >= 40_000_000 ==> adc_rate(target, top) == 20_000_000,
        8_000_000 <= 8 * target <= top && 8 * target != 40_000_000 ==> adc_rate(target, top) == 8
            * target,
        8 * target < 8_000_000 ==> adc_rate(target, top) == 8_000_000,
        8 * target > top && top != 40_000_000 ==> adc_rate(target, top) == top,
        top == 40_000_000 && 8 * target >= top ==> adc_rate(target, top) == 20_000_000,
{
}

/// The number of bins gives the output rate that is closest to the one wanted, of
/// all powers of two from 64 to 4096; of two as close, the larger.
pub proof fn the_closest_rate_is_taken(adc: int, target: int, bins: int, other: int)
    requires
        is_bins(adc, target, bins),
        is_usable_bins(other),
    ensures
        64 <= bins <= 4096,
        distance(adc * bins, target * 8192) <= distance(adc * other, target * 8192),
        other > bins ==> distance(adc * bins, target * 8192) < distance(
            adc * other,
            target * 8192,
        ),
{
    assert(rate_miss(adc, target, bins) == distance(adc * bins, target * 8192));
    assert(rate_miss(adc, target, other) == distance(adc * other, target * 8192));
}

pub open spec fn distance(a: int, b: int) -> int {
    if a >= b {
        a - b
    } else {
        b - a
    }
}

/// The top rate is the highest that is offered, or 80 MHz where none is.
pub proof fn the_top_rate_is_the_highest(rates: Seq<u64>, top: u64, i: int)
    requires
        is_top_rate(rates, top),
        0 <= i < rates.len(),
    ensures
        rates[i] <= top,
        rates[i] > 0 ==> rates.contains(top),
{
}

/// The rates offered are those reported, in their order, and then the extra ones
/// that were not among them, and no other.
pub proof fn only_extra_rates_are_added(reported: Seq<u64>, n: nat)
    requires
        n <= 4,
    ensures
        reported.is_prefix_of(with_extras(reported, n)),
        forall|r: u64| #[trigger]
            with_extras(reported, n).contains(r) ==> reported.contains(r) || r == 5_000_000 || r
                == 2_500_000 || r == 1_250_000 || r == 625_000,
        reported.no_duplicates() ==> with_extras(reported, n).no_duplicates(),
    decreases n,
{
    if n > 0 {
        let m = (n - 1) as nat;
        only_extra_rates_are_added(reported, m);
        let before = with_extras(reported, m);
        let after = with_extras(reported, n);
        let extra = EXTRA_HF_RATES_HZ@[n - 1];
        assert(extra == 5_000_000 || extra == 2_500_000 || extra == 1_250_000 || extra == 625_000);
        assert forall|r: u64| #[trigger] after.contains(r) implies reported.contains(r) || r
            == 5_000_000 || r == 2_500_000 || r == 1_250_000 || r == 625_000 by {
            let i = choose|i: int| 0 <= i < after.len() && after[i] == r;
            if i < before.len() {
                assert(before[i] == r);
                assert(before.contains(r));
            }
        }
        assert(reported.is_prefix_of(after)) by {
            assert(after.take(reported.len() as int) =~= before.take(reported.len() as int));
        }
    }
}

// ---------------------------------------------------------------------------
// Devices
// ---------------------------------------------------------------------------

proof fn lemma_nul(buf: Seq<u8>, from: int, n: int)
    requires
        0 <= from <= n <= buf.len(),
        n < buf.len() ==> buf[n] == 0,
        forall|i: int| from <= i < n ==> #[trigger] buf[i] != 0,
    ensures
        nul_at(buf, from) == n,
    decreases n - from,
{
    if from < n {
        lemma_nul(buf, from + 1, n);
    }
}

/// A buffer's text ends at its first zero byte, whatever comes after.
pub proof fn a_text_ends_at_the_first_zero(text: Seq<u8>, rest: Seq<u8>)
    requires
        forall|i: int| 0 <= i < text.len() ==> #[trigger] text[i] != 0,
    ensures
        buffer_text(text + seq![0u8] + rest) == trimmed(lossy_text(text)),
        buffer_text(text) == trimmed(lossy_text(text)),
{
    let n = text.len() as int;
    let b = text + seq![0u8] + rest;
    assert forall|i: int| 0 <= i < n implies #[trigger] b[i] != 0 by {
        assert(b[i] == text[i]);
    }
    lemma_nul(b, 0, n);
    lemma_nul(text, 0, n);
    assert(b.take(n) =~= text);
    assert(text.take(n) =~= text);
}

/// Devices are numbered from zero in the order in which they are listed.
pub proof fn devices_are_numbered_in_order(devices: Seq<DevInfo>, serials: Seq<Seq<char>>, i: int)
    requires
        are_devices(devices, serials),
        0 <= i < devices.len(),
        devices.len() <= 0xFFFF_FFFF,
    ensures
        devices.len() == serials.len(),
        devices[i].index == i,
        devices[i].serial@ == serials[i],
{
}

proof fn lemma_serial(found: Seq<DevInfo>, serial: Seq<char>, from: int)
    requires
        0 <= from <= found.len(),
    ensures
        from <= serial_at(found, serial, from) <= found.len(),
        serial_at(found, serial, from) < found.len() ==> found[serial_at(
            found,
            serial,
            from,
        )].serial@ == serial,
        forall|k: int|
            from <= k < serial_at(found, serial, from) ==> (#[trigger] found[k]).serial@ != serial,
    decreases found.len() - from,
{
    if from < found.len() && found[from].serial@ != serial {
        lemma_serial(found, serial, from + 1);
    }
}

/// The device that is opened is the first that has the serial asked for, or the
/// first of all where none is asked for.
pub proof fn the_device_asked_for_is_opened(found: Seq<DevInfo>, want: Seq<char>)
    ensures
        trimmed(want).len() == 0 ==> wanted_at(found, want) == 0,
        trimmed(want).len() > 0 ==> {
            let i = wanted_at(found, want);
            &&& 0 <= i <= found.len()
            &&& i < found.len() ==> found[i].serial@ == trimmed(want)
            &&& forall|k: int| 0 <= k < i ==> (#[trigger] found[k]).serial@ != trimmed(want)
        },
{
    lemma_serial(found, trimmed(want), 0);
}

proof fn lemma_list_has(found: Seq<DevInfo>, i: int)
    requires
        0 <= i < found.len(),
    ensures
        has_text(serial_list(found), found[i].serial@),
    decreases found.len(),
{
    if found.len() == 1 {
        assert(Seq::<char>::empty() + found[0].serial@ =~= found[0].serial@);
        lemma_has_end(Seq::empty(), found[0].serial@);
    } else {
        let rest = found.drop_last();
        if i < rest.len() {
            lemma_list_has(rest, i);
            assert(rest[i] == found[i]);
            lemma_still_has(serial_list(rest), ", "@, found[i].serial@);
            lemma_still_has(serial_list(rest) + ", "@, found.last().serial@, found[i].serial@);
        } else {
            lemma_has_end(serial_list(rest) + ", "@, found.last().serial@);
        }
    }
}

/// Where no device matches, what was asked for is told and every serial that is
/// there.
pub proof fn a_missing_device_is_told_with_those_found(found: Seq<DevInfo>, want: Seq<char>, i: int)
    requires
        0 <= i < found.len(),
    ensures
        has_text(not_found(found, want), quoted_text(want)),
        has_text(not_found(found, want), found[i].serial@),
{
    let a = "no Fobos SDR matching "@ + quoted_text(want);
    let b = a + " — found: "@;
    lemma_has_end("no Fobos SDR matching "@, quoted_text(want));
    lemma_still_has(a, " — found: "@, quoted_text(want));
    lemma_still_has(b, serial_list(found), quoted_text(want));
    lemma_list_has(found, i);
    let at = choose|at: int| stands_at(serial_list(found), found[i].serial@, at);
    let t = b + serial_list(found);
    let n = found[i].serial@.len();
    assert(t.subrange(b.len() + at, b.len() + at + n) =~= serial_list(found).subrange(at, at + n));
    assert(stands_at(t, found[i].serial@, b.len() + at));
}

/// A failure sounds like a device held elsewhere in any case.
pub proof fn a_busy_device_is_known_in_any_case(text: Seq<char>)
    ensures
        sounds_busy(upper(text)) == sounds_busy(text),
        sounds_busy(lower(text)) == sounds_busy(text),
        sounds_busy(text) <==> has_text(lower(text), "busy"@) || has_text(lower(text), "access"@)
            || has_text(lower(text), "in use"@),
{
    assert(lower(upper(text)) =~= lower(text));
    assert(lower(lower(text)) =~= lower(text));
}

/// The name of a receiver tells its serial and which port is in use.
pub proof fn a_name_tells_serial_and_port(serial: Seq<char>, port: Port)
    ensures
        has_text(label_text(serial, port), "Fobos SDR "@ + serial),
        port is Rf ==> has_text(label_text(serial, port), " ("@ + "RF port"@),
        port is Hf1 ==> has_text(label_text(serial, port), " ("@ + "HF1"@),
        port is Hf2 ==> has_text(label_text(serial, port), " ("@ + "HF2"@),
        port is HfDual ==> has_text(label_text(serial, port), " ("@ + "HF1+HF2, diversity"@),
{
    let name = match port {
        Port::Rf => "RF port"@,
        Port::Hf1 => "HF1"@,
        Port::Hf2 => "HF2"@,
        Port::HfDual => "HF1+HF2, diversity"@,
    };
    let a = "Fobos SDR "@ + serial;
    assert(Seq::<char>::empty() + a =~= a);
    lemma_has_end(Seq::empty(), a);
    lemma_still_has(a, " ("@, a);
    lemma_still_has(a + " ("@, name, a);
    lemma_still_has(a + " ("@ + name, ")"@, a);
    lemma_has_two(a, " ("@, name);
    lemma_still_has(a + " ("@ + name, ")"@, " ("@ + name);
}

/// A failure tells the call that failed and why; a device in use is told with what
/// to do about it; the others say what they hold.
pub proof fn a_failure_tells_what_failed(e: Error)
    ensures
        e matches Error::Api { call, text } ==> has_text(e.says(), "libfobos "@ + call@) && has_text(
            e.says(),
            " failed: "@ + text@,
        ),
        e matches Error::InUse(s) ==> stands_at(e.says(), s@, 0) && e.says().len() > s@.len(),
        e matches Error::LibMissing(s) ==> e.says() == s@,
        e matches Error::NotFound(s) ==> e.says() == s@,
{
    match e {
        Error::Api { call, text } => {
            let a = "libfobos "@ + call@;
            assert(Seq::<char>::empty() + a =~= a);
            lemma_has_end(Seq::empty(), a);
            lemma_still_has(a, " failed: "@, a);
            lemma_still_has(a + " failed: "@, text@, a);
            lemma_has_two(a, " failed: "@, text@);
        },
        Error::InUse(s) => {
            reveal_strlit(" may be held by another program — close it and try again");
            assert(e.says().subrange(0, s@.len() as int) =~= s@);
        },
        _ => {},
    }
}

/// The accounts are told every two seconds: each sample, loss and error is in one
/// window's line and in the totals for good.
pub proof fn a_window_is_told_every_two_seconds(
    a: RxStats,
    b: RxStats,
    c: RxStats,
    now: u64,
    later: u64,
    first: Option<(bool, String)>,
    second: Option<(bool, String)>,
)
    requires
        ticked(a, now, first, b),
        ticked(b, later, second, c),
        first is Some,
    ensures
        second is Some <==> later >= now + 2_000_000,
        b.win_samples == 0 && b.win_dropped == 0 && b.win_keyed == 0 && b.win_errors == 0,
        c.total_samples == a.total_samples && c.total_dropped == a.total_dropped,
        c.total_errors == a.total_errors && c.total_keyed == a.total_keyed,
        first matches Some((warn, line)) ==> warn == a.is_bad() && line@ == a.line(now),
{
}

// ---------------------------------------------------------------------------
// The pumps
// ---------------------------------------------------------------------------

/// No more is handed on than the buffer holds; what is handed on is counted, and a
/// failure ends the stream.
pub proof fn what_is_handed_on_is_counted(
    was: RfPump,
    read: Result<u32, &str>,
    outcome: ReadOutcome,
    after: RfPump,
)
    requires
        took_read(was, read, outcome, after),
    ensures
        outcome matches ReadOutcome::Pairs(n) ==> 0 < n <= was.buf_len && after.stats.total_samples
            == was.stats.total_samples + n && read is Ok && n <= read->Ok_0,
        outcome is Nothing ==> after.stats.total_samples == was.stats.total_samples,
        outcome is Ended <==> read is Err,
        !(outcome is Retry),
        read matches Ok(n) ==> n >= 1 && was.buf_len >= 1 ==> outcome is Pairs,
        read matches Ok(n) ==> n <= was.buf_len ==> after.stats.total_samples
            == was.stats.total_samples + n,
{
}

/// A read that fails before the stream ever ran is tried five times more; one that
/// fails after it ran ends it.
pub proof fn a_start_is_tried_six_times(
    was: HfPump,
    read: Option<u32>,
    outcome: ReadOutcome,
    after: HfPump,
)
    requires
        took_hf_read(was, read, outcome, after),
    ensures
        outcome is Retry ==> read is None && !was.streamed_yet && after.retries == was.retries + 1
            && after.retries <= 5,
        read is None && was.streamed_yet ==> outcome is Ended,
        read is None && was.retries == 5 ==> outcome is Ended,
        read is None && !was.streamed_yet && was.retries < 5 ==> outcome is Retry,
        read is Some ==> after.streamed_yet && !(outcome is Retry) && !(outcome is Ended),
        outcome matches ReadOutcome::Pairs(n) ==> 0 < n <= was.buf_len && n <= read->0,
        read matches Some(n) ==> 0 < n <= was.buf_len ==> outcome == ReadOutcome::Pairs(n),
{
}

/// A block that is not taken is counted, and the thread ends only when there is no
/// one to take it.
pub proof fn a_block_that_is_not_taken_is_counted(
    was: HfPump,
    h: Handoff,
    r: (bool, bool),
    after: HfPump,
)
    requires
        took_handoff(was, h, r, after),
    ensures
        after.dropped == was.dropped + (if h is Full {
            1int
        } else {
            0int
        }),
        r.0 <==> h is Gone,
        r.1 ==> h is Full,
        h is Full && was.dropped == 0 ==> r.1,
{
    if h is Full && was.dropped == 0 {
        assert(crate::ring::pow2(0) == 1);
    }
}

/// A shutdown leaves nothing else to do; without one every setting that was asked
/// for is set, each at its own place.
pub proof fn a_shutdown_leaves_nothing_else_to_do(p: Pending, rf: RfSteps, hf: HfSteps)
    requires
        are_rf_steps(p, rf),
        are_hf_steps(p, hf),
    ensures
        rf.shutdown == p.shutdown && hf.shutdown == p.shutdown,
        p.shutdown ==> rf.rate is None && rf.center is None && rf.lna_gain is None && rf.vga_gain
            is None && rf.clk_external is None && hf.retune is None && hf.clk_external is None,
        !p.shutdown ==> rf.rate == p.rate && rf.center == p.center && rf.lna_gain == p.lna_gain
            && rf.vga_gain == p.vga_gain && rf.clk_external == p.clk_external,
        !p.shutdown ==> hf.retune == p.center && hf.clk_external == p.clk_external,
{
}

/// The rate that the hardware is at is the one it answered with, or the old one
/// where it refused; the block is as long as that rate asks.
pub proof fn a_refused_rate_leaves_the_old_one(
    was: RfPump,
    actual: Option<u64>,
    len: u32,
    after: RfPump,
)
    requires
        took_rate(was, actual, len, after),
    ensures
        actual matches Some(hz) ==> after.rate_hz == hz,
        actual is None ==> after.rate_hz == was.rate_hz,
        len == after.buf_len && len == block_len(after.rate_hz as int),
        after.stats == was.stats,
{
}

/// Out of the downconverter comes the converter's rate, in the proportion of the
/// bins that are kept to a block of 8192, to the millihertz below.
pub proof fn the_bins_set_the_rate(adc_rate_hz: int, bins: int)
    ensures
        out_rate(adc_rate_hz, bins) * 8192 <= adc_rate_hz * bins * 1000 < (out_rate(
            adc_rate_hz,
            bins,
        ) + 1) * 8192,
{
}

/// The second HF input is the odd channel, the first one the even.
pub proof fn the_first_input_is_the_even_channel(port: Port)
    ensures
        port == Port::Hf1 ==> !is_odd_port(port),
        port == Port::Hf2 ==> is_odd_port(port),
{
}

/// What was found is listed, and a failure is an empty list.
pub proof fn a_failure_to_look_finds_nothing(
    found: Result<Vec<DevInfo>, Error>,
    listed: Seq<DevInfo>,
)
    requires
        is_list(found, listed),
    ensures
        found matches Ok(d) ==> listed == d@,
        found is Err ==> listed =~= Seq::empty(),
{
}

/// A board that does not open is tried five times, and one that does no more.
pub proof fn opening_is_tried_five_times(attempts: int)
    ensures
        !reopens(true, attempts),
        reopens(false, attempts) <==> attempts <= 4,
{
}

/// A call came to nought or to a failure that names it.
pub proof fn nought_is_success(
    call: &'static str,
    code: i32,
    text: String,
    r: Result<(), Error>,
)
    requires
        came_to(call, code, text, r),
    ensures
        code == 0 ==> r is Ok,
        code != 0 ==> r is Err && r->Err_0.says() == "libfobos "@ + call@ + " failed: "@ + text@,
{
}

/// The rate in use is the one last published, and before that the one at opening;
/// the silence lasts from the last samples until now.
pub proof fn the_silence_lasts_since_the_last_samples(
    published: u64,
    opened_at: u64,
    since_open: u64,
    last_rx: u64,
)
    ensures
        published > 0 ==> rate_in_use(published, opened_at) == published,
        published == 0 ==> rate_in_use(published, opened_at) == opened_at,
        last_rx <= since_open ==> last_rx + silence(since_open, last_rx) == since_open,
        last_rx > since_open ==> silence(since_open, last_rx) == 0,
{
}

} // verus!
