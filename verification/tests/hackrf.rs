//! The HackRF's control queue, statistics and rings.

use rtrb::RingBuffer;
use sdroxide::hackrf::handle::{
    push_iq, ring_bytes, rx_ring_for, silent_for_ms, tx_ring_for, Ctrl, GainSetter, IqPorts,
    Pending, RxStats, TxStep, TxTransition, BULK_PACKET, BYTES_PER_SAMPLE, RX_RING_MAX,
    STATS_INTERVAL_US,
};

/// Dragging the dial emits hundreds of messages a second and a retune costs a
/// control transfer. Only the last value can matter.
#[test]
fn pending_keeps_only_the_last_value_of_each_field() {
    let mut p = Pending::default();
    assert!(p.is_empty());
    for hz in [7_000_000u64, 7_050_000, 7_074_000] {
        p.absorb(Ctrl::Center(hz * 1000));
    }
    p.absorb(Ctrl::Gain(GainSetter::Lna, 8_000));
    p.absorb(Ctrl::Gain(GainSetter::Lna, 24_000));
    p.absorb(Ctrl::Amp { tx: false, on: true });
    assert_eq!(p.center, Some(7_074_000_000));
    assert_eq!(p.lna, Some(24_000));
    assert_eq!(p.amp, Some(true));
    assert!(!p.is_empty());
    // Fields nobody set stay unset, so the hardware is not touched for settings
    // that did not change.
    assert_eq!(p.vga, None);
    assert_eq!(p.bias_tee, None);
    assert_eq!(p.tx_amp, None);
}

/// The two amp settings are separate fields even though they are one hardware
/// switch.
#[test]
fn the_two_amp_settings_do_not_collapse_into_each_other() {
    let mut p = Pending::default();
    p.absorb(Ctrl::Amp { tx: false, on: false });
    p.absorb(Ctrl::Amp { tx: true, on: true });
    assert_eq!(p.amp, Some(false));
    assert_eq!(p.tx_amp, Some(true));
}

/// A begin and an end coalesced into one field would leave the transmitter keyed
/// forever, or never key at all.
#[test]
fn a_transmit_transition_is_never_coalesced_away() {
    let mut p = Pending::default();
    p.absorb(Ctrl::Tx(TxTransition::Begin { center_mhz: 14_074_000_000 }));
    p.absorb(Ctrl::Center(7_000_000_000));
    p.absorb(Ctrl::Tx(TxTransition::End));
    assert_eq!(
        p.tx.iter().copied().collect::<Vec<_>>(),
        vec![TxTransition::Begin { center_mhz: 14_074_000_000 }, TxTransition::End],
        "both transitions survive, in order"
    );
    // The dial still collapsed, which is the point of having both.
    assert_eq!(p.center, Some(7_000_000_000));
}

/// A drag during an over is still a drag: consecutive retunes collapse, but never
/// across a key-down or a key-up.
#[test]
fn retunes_collapse_within_a_run_but_not_across_a_transition() {
    let mut p = Pending::default();
    p.absorb(Ctrl::Tx(TxTransition::Begin { center_mhz: 14_074_000_000 }));
    for f in [14_075_000_000, 14_076_000_000, 14_077_000_000] {
        p.absorb(Ctrl::Tx(TxTransition::Freq(f)));
    }
    p.absorb(Ctrl::Tx(TxTransition::End));
    p.absorb(Ctrl::Tx(TxTransition::Freq(21_000_000_000)));
    assert_eq!(
        p.tx.iter().copied().collect::<Vec<_>>(),
        vec![
            TxTransition::Begin { center_mhz: 14_074_000_000 },
            TxTransition::Freq(14_077_000_000),
            TxTransition::End,
            TxTransition::Freq(21_000_000_000),
        ],
        "three retunes became one, and the End still separates them"
    );
}

/// Shutdown must survive anything that arrives after it in the same batch.
#[test]
fn shutdown_is_sticky() {
    let mut p = Pending::default();
    p.absorb(Ctrl::Shutdown);
    p.absorb(Ctrl::Center(7_074_000_000));
    p.absorb(Ctrl::Tx(TxTransition::Begin { center_mhz: 14_000_000_000 }));
    assert!(p.shutdown);
}

/// An odd ring capacity would eventually split an I/Q pair across the wrap, and
/// an unbounded one would allocate 20 MB at the top rate.
#[test]
fn the_rings_are_even_bounded_and_long_enough() {
    for rate in [2_000_000u32, 8_000_000, 20_000_000] {
        let (p, _c) = rx_ring_for(rate);
        let cap = p.buffer().capacity();
        assert_eq!(cap % 2, 0, "{rate}");
        assert!(cap <= RX_RING_MAX, "{rate}: {cap} bytes exceeds the cap");
        // At least one engine block (~10 ms) even after the cap bites.
        assert!(cap as f64 >= rate as f64 * 2.0 * 0.010, "{rate}: {cap} bytes is under a block");
    }
    // The cap really does bite at the top rate: 20 Msps for 120 ms is 4.8 MB,
    // which rounds to 8 MB, at the ceiling and not past it.
    let (p, _c) = rx_ring_for(20_000_000);
    assert_eq!(p.buffer().capacity(), RX_RING_MAX);
    // And a low rate is not padded up to the ceiling.
    let (p, _c) = rx_ring_for(2_000_000);
    assert!(p.buffer().capacity() < RX_RING_MAX);
    let (p, _c) = tx_ring_for(2_000_000);
    assert_eq!(p.buffer().capacity(), 1 << 20);
    assert_eq!(ring_bytes(2_000_000, 120, RX_RING_MAX), 1 << 19);
    assert_eq!(ring_bytes(1, 120, RX_RING_MAX), 65_536);
}

/// A partial push would leave the ring one byte out of step and swap I with Q for
/// the rest of the session.
#[test]
fn push_iq_drops_whole_blocks_rather_than_splitting_a_pair() {
    let (mut prod, mut cons) = RingBuffer::<u8>::new(8);
    let mut stats = RxStats::new(2_000_000_000, 0);
    push_iq(&mut prod, &[1, 2, 3, 4], &mut stats, false);
    assert_eq!(cons.slots(), 4);
    // Six more bytes into four free slots: nothing goes in.
    push_iq(&mut prod, &[0; 6], &mut stats, false);
    assert_eq!(cons.slots(), 4);
    assert_eq!(stats.total_dropped, 3);
    assert_eq!(cons.pop(), Ok(1));
}

/// An over is a gap in the receive stream; counting it as slow samples would
/// report a wildly wrong clock error.
#[test]
fn the_clock_measurement_restarts_across_an_over() {
    let mut s = RxStats::new(2_000_000_000, 0);
    s.on_iq(1000, 10);
    s.on_iq(1000, 20);
    assert!(s.total_samples > 0);
    s.restart_clock();
    assert_eq!(s.total_samples, 0);
    assert!(s.summary(30).contains("measuring"), "{}", s.summary(30));
}

#[test]
fn the_clock_error_is_measured_against_the_nominal_rate() {
    let mut s = RxStats::new(2_000_000_000, 0);
    s.on_iq(0, 0);
    s.on_iq(40_000_400, 20_000_000);
    assert_eq!(s.clock_error(19_999_999), "clock: measuring");
    assert_eq!(s.clock_error(20_000_000), "clock: 2000020 sps, +10.0 ppm");
    assert_eq!(
        s.summary(20_000_000),
        "40000400 samples, 0 dropped, 0 transfer errors, 0 endpoint stalls; \
         clock: 2000020 sps, +10.0 ppm"
    );
    assert_eq!(s.clock_error(20_000_400), "clock: 1999980 sps, -10.0 ppm");
    // An error too small to show keeps its sign.
    let mut s = RxStats::new(2_000_000_000, 0);
    s.on_iq(0, 0);
    s.on_iq(39_999_999, 20_000_000);
    assert_eq!(s.clock_error(20_000_000), "clock: 2000000 sps, -0.0 ppm");
    assert_eq!(s.clock_error(20_000_000), {
        let measured = 39_999_999.0 / 20.0;
        let ppm = (measured / 2.0e6 - 1.0) * 1e6;
        format!("clock: {measured:.0} sps, {ppm:+.1} ppm")
    });
}

/// A ring that fills because the engine stopped reading for an over is not the
/// DSP thread falling behind.
#[test]
fn a_full_ring_while_paused_is_not_an_overrun() {
    let (mut prod, mut cons) = RingBuffer::<u8>::new(4);
    let mut stats = RxStats::new(2_000_000_000, 0);

    push_iq(&mut prod, &[1, 2, 3, 4], &mut stats, true);
    push_iq(&mut prod, &[5, 6], &mut stats, true);
    assert_eq!(stats.total_dropped, 0, "a paused receiver reports no overruns");
    assert_eq!(stats.total_keyed, 1, "the discarded sample is accounted for as keyed");

    push_iq(&mut prod, &[7, 8], &mut stats, false);
    assert_eq!(stats.total_dropped, 1);
    assert_eq!(stats.total_keyed, 1);

    while cons.pop().is_ok() {}
    push_iq(&mut prod, &[9, 10], &mut stats, false);
    assert_eq!(cons.slots() % BYTES_PER_SAMPLE, 0);
}

#[test]
fn the_statistics_come_due() {
    let mut s = RxStats::new(2_000_000_000, 0);
    assert_eq!(s.tick(STATS_INTERVAL_US - 1), None);
    let (fault, text) = s.tick(STATS_INTERVAL_US).expect("due");
    assert!(!fault);
    assert_eq!(text, "HackRF RX: 0 samples (0.0 ksps) over 2.00s; total 0; clock: measuring");
    s.on_iq(4_000_000, STATS_INTERVAL_US);
    s.on_stall();
    s.on_error();
    s.on_dropped(2);
    s.on_dropped_keyed(3);
    let (fault, text) = s.tick(2 * STATS_INTERVAL_US).expect("due");
    assert!(fault && text.contains("2 sample(s) DROPPED"), "{text}");
    assert_eq!((s.total_errors, s.stalls), (2, 1));
    assert_eq!(s.keyed_note(), "", "the window started afresh");
}

fn ports(rx_size: usize, tx_size: usize) -> (IqPorts, rtrb::Producer<u8>, rtrb::Consumer<u8>) {
    let (rx_in, rx) = RingBuffer::<u8>::new(rx_size);
    let (tx, tx_out) = RingBuffer::<u8>::new(tx_size);
    (IqPorts { rx, tx }, rx_in, tx_out)
}

#[test]
fn received_bytes_come_out_in_order() {
    let (mut p, mut rx_in, _tx_out) = ports(16, 16);
    let mut stats = RxStats::new(2_000_000_000, 0);
    push_iq(&mut rx_in, &[1, 2, 3, 4, 5, 6], &mut stats, false);
    let mut out = vec![0u8; 4];
    assert_eq!(p.rx_read(&mut out), 4);
    assert_eq!(out, [1, 2, 3, 4]);
    push_iq(&mut rx_in, &[7, 8], &mut stats, false);
    assert_eq!(p.discard_rx(), 4);
    assert_eq!(p.rx_read(&mut out), 0);
}

#[test]
fn transmit_waits_for_room_rather_than_dropping() {
    let (mut p, _rx_in, mut tx_out) = ports(4, 4);
    let iq = [1u8, 2, 3, 4, 5, 6];
    let (done, step) = p.tx_write(&iq, 0, true, false);
    assert_eq!((done, step), (4, TxStep::More));
    assert_eq!(p.tx_pending(), 4);
    let (done, step) = p.tx_write(&iq, done, true, false);
    assert_eq!((done, step), (4, TxStep::Wait), "no room yet");
    let (_, step) = p.tx_write(&iq, done, true, true);
    assert_eq!(step, TxStep::Finished, "the deadline passed");
    assert_eq!(tx_out.pop(), Ok(1));
    assert_eq!(tx_out.pop(), Ok(2));
    let (done, _) = p.tx_write(&iq, 4, true, false);
    assert_eq!(done, 6);
    assert_eq!(p.tx_write(&iq, 6, true, false).1, TxStep::Finished);
    assert_eq!(p.tx_write(&iq, 0, false, false).1, TxStep::Finished, "the thread is gone");
}

/// What is left of a packet the radio will not send alone counts as drained.
#[test]
fn an_over_is_drained_short_of_a_packet() {
    assert!(IqPorts::is_drained(0));
    assert!(IqPorts::is_drained(BULK_PACKET - 1));
    assert!(!IqPorts::is_drained(BULK_PACKET));
    let (mut p, _a, _b) = ports(4, 4);
    assert!(p.tx_drained());
}

#[test]
fn a_keyed_radio_is_not_silent() {
    assert_eq!(silent_for_ms(true, 5000, 1000), 0);
    assert_eq!(silent_for_ms(false, 5000, 1000), 4000);
    assert_eq!(silent_for_ms(false, 1000, 5000), 0);
}
