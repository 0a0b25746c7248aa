//! The Fobos SDR: finding a board, its streams and its rings. Samples are the
//! bits of 32-bit floats.

use rtrb::RingBuffer;
use sdroxide::fobos::device::{
    board_info, choose_board, cstr_buf_to_string, list, open_error, samplerates, should_reopen,
    try_list, DevInfo, EXTRA_HF_RATES_HZ,
};
use sdroxide::fobos::error::Error;
use sdroxide::fobos::handle::{
    current_rate_mhz, push_iq, ring_for, ring_for_pair, silent_for_ms, Ctrl, Pending, Port,
    RxReader, RxStats, STATS_INTERVAL_US,
};
use sdroxide::fobos::stream::{
    buf_len_for, channel_of, hf_adc_rate_wanted, hf_out_rate_mhz, interleave_pair, label,
    pick_bins, reads_odd_channel, top_rate, Handoff, HfPump, ReadOutcome, RfPump, BLOCKS_PER_SEC,
    DDC_BLOCK, HF_ADC_RATE_BROKEN, HF_ADC_RATE_BROKEN_FALLBACK, HF_ADC_RATE_FLOOR,
    HF_STARTUP_READ_RETRIES,
};

/// The settings offer 625 kHz as their default, so it has to be among the rates
/// that can be chosen.
#[test]
fn the_added_rates_include_the_backends_own_default() {
    assert!(EXTRA_HF_RATES_HZ.iter().any(|&r| r == 625_000));
    // Every one of them is below the 8 Msps floor the hardware's own list bottoms
    // out at, or there would be no reason to add it.
    assert!(EXTRA_HF_RATES_HZ.iter().all(|&r| r < 8_000_000));
}

#[test]
fn the_narrow_rates_join_what_the_receiver_reports() {
    let rates = samplerates(0, String::new(), vec![80_000_000, 8_000_000]).expect("rates");
    assert_eq!(
        rates,
        vec![625_000, 1_250_000, 2_500_000, 5_000_000, 8_000_000, 80_000_000],
        "in order"
    );
    for r in EXTRA_HF_RATES_HZ {
        assert!(rates.contains(&r), "{r}");
    }
    assert!(rates.contains(&80_000_000));
    let once = samplerates(0, String::new(), vec![625_000]).expect("rates");
    assert_eq!(once.len(), 4, "a rate that is there already is not added again");
    match samplerates(-4, String::from("control transfer"), vec![80_000_000]) {
        Err(Error::Api { call, text }) => {
            assert_eq!((call, text.as_str()), ("fobos_rx_get_samplerates", "control transfer"))
        }
        _ => panic!("a failed call offers nothing"),
    }
}

/// Dragging the dial emits hundreds of messages a second; only the last value of
/// each field can matter.
#[test]
fn handle_pending_keeps_only_the_last_value_of_each_field() {
    let mut p = Pending::default();
    assert!(p.is_empty());
    for hz in [7_100_000, 7_150_000, 7_200_000] {
        p.absorb(Ctrl::Center(hz));
    }
    p.absorb(Ctrl::LnaGain(1));
    p.absorb(Ctrl::LnaGain(3));
    p.absorb(Ctrl::VgaGain(20));
    assert_eq!(p.center, Some(7_200_000));
    assert_eq!(p.lna_gain, Some(3));
    assert_eq!(p.vga_gain, Some(20));
    assert!(!p.is_empty());
    // Fields nobody set stay unset.
    assert_eq!(p.rate, None);
    assert_eq!(p.clk_external, None);
}

/// Shutdown must survive anything that arrives after it in the same batch, or a
/// busy dial could keep the thread alive past a release.
#[test]
fn handle_shutdown_is_sticky() {
    let mut p = Pending::default();
    p.absorb(Ctrl::Shutdown);
    p.absorb(Ctrl::Center(7_100_000));
    p.absorb(Ctrl::Rate(10_000_000));
    assert!(p.shutdown);
}

/// An odd ring capacity would eventually split an I/Q pair across the wrap.
#[test]
fn the_ring_holds_at_least_half_a_second_and_an_even_number_of_floats() {
    for rate in [1_250_000u32, 2_500_000, 50_000_000, 80_000_000] {
        let (p, _c) = ring_for(rate);
        let cap = p.buffer().capacity();
        assert_eq!(cap % 2, 0, "{rate}");
        assert!(cap as f64 >= rate as f64 * 2.0 * 0.5, "{rate}: {cap} floats");
    }
}

/// The four-lane ring must hold at least as much *per channel* as the
/// single-channel ring does: twice the raw capacity for the same complex rate.
#[test]
fn the_pair_ring_holds_twice_the_floats_of_the_single_ring_at_the_same_rate() {
    for rate in [1_250_000u32, 2_500_000, 50_000_000, 80_000_000] {
        let (single, _) = ring_for(rate);
        let (pair, _) = ring_for_pair(rate);
        let (cap1, cap4) = (single.buffer().capacity(), pair.buffer().capacity());
        assert_eq!(cap4 % 4, 0, "{rate}");
        assert!(cap4 as f64 >= rate as f64 * 4.0 * 0.5, "{rate}: {cap4} floats");
        assert!(cap4 >= cap1 * 2, "{rate}: pair ring {cap4} vs single ring {cap1}");
    }
}

fn bits(v: &[f32]) -> Vec<u32> {
    v.iter().map(|x| x.to_bits()).collect()
}

/// A reader whose ring already has the given quad-interleaved floats in it.
fn dual_reader_with(quad_floats: &[f32]) -> RxReader {
    let (mut prod, cons) = RingBuffer::<u32>::new(64);
    let mut stats = RxStats::new(0);
    push_iq(&mut prod, &bits(quad_floats), 4, &mut stats, false);
    RxReader { rx: cons, dual: true }
}

/// Main's I,Q land at lanes 0,1 and aux's at lanes 2,3.
#[test]
fn quad_interleaved_samples_split_back_into_matching_main_and_aux_pairs() {
    let mut reader =
        dual_reader_with(&[1.0, 2.0, 3.0, 4.0, 5.0, 6.0, 7.0, 8.0, 9.0, 10.0, 11.0, 12.0]);
    let mut main = vec![0u32; 6];
    let mut aux = vec![0u32; 6];
    let pairs = reader.rx_read_pair(&mut main, &mut aux);
    assert_eq!(pairs, 3);
    assert_eq!(main, bits(&[1.0, 2.0, 5.0, 6.0, 9.0, 10.0]));
    assert_eq!(aux, bits(&[3.0, 4.0, 7.0, 8.0, 11.0, 12.0]));
}

/// A caller with room for fewer pairs than are queued gets exactly that many from
/// *both* channels, never more from one than the other.
#[test]
fn rx_read_pair_never_gives_more_of_one_channel_than_the_other() {
    let mut reader =
        dual_reader_with(&[1.0, 2.0, 3.0, 4.0, 5.0, 6.0, 7.0, 8.0, 9.0, 10.0, 11.0, 12.0]);
    let mut main = vec![0u32; 2];
    let mut aux = vec![0u32; 6];
    let pairs = reader.rx_read_pair(&mut main, &mut aux);
    assert_eq!(pairs, 1, "bounded by the smaller of the two output buffers");
    assert_eq!(main, bits(&[1.0, 2.0]));
    assert_eq!(aux[..2], bits(&[3.0, 4.0]));
}

#[test]
fn a_single_channel_is_read_in_pairs() {
    let mut reader = dual_reader_with(&[1.0, 2.0, 3.0, 4.0]);
    let mut out = vec![0u32; 3];
    assert_eq!(reader.rx_read(&mut out), 2, "half a pair stays behind");
    assert_eq!(out[..2], bits(&[1.0, 2.0]));
    assert_eq!(reader.rx_read(&mut out), 2);
    assert_eq!(out[..2], bits(&[3.0, 4.0]));
    assert_eq!(reader.rx_read(&mut out), 0);
}

#[test]
fn a_port_with_one_channel_has_no_pairs() {
    let mut reader = dual_reader_with(&[1.0, 2.0, 3.0, 4.0]);
    reader.dual = false;
    let mut main = vec![7u32; 2];
    let mut aux = vec![7u32; 2];
    assert_eq!(reader.rx_read_pair(&mut main, &mut aux), 0);
    assert_eq!((main, aux), (vec![7, 7], vec![7, 7]));
}

/// A partial push would leave the ring one float out of step and swap I with Q
/// for the rest of the session.
#[test]
fn handle_push_iq_drops_whole_blocks_rather_than_splitting_a_pair() {
    let (mut prod, mut cons) = RingBuffer::<u32>::new(8);
    let mut stats = RxStats::new(0);
    push_iq(&mut prod, &bits(&[1.0, 2.0, 3.0, 4.0]), 2, &mut stats, false);
    assert_eq!(cons.slots(), 4);
    // Six more floats into four free slots: nothing goes in.
    push_iq(&mut prod, &bits(&[0.0; 6]), 2, &mut stats, false);
    assert_eq!(cons.slots(), 4);
    assert_eq!(stats.total_dropped, 3);
    assert_eq!(cons.pop(), Ok(1.0f32.to_bits()));
}

/// A ring that fills because the engine stopped reading for an over elsewhere in
/// the session is not the DSP thread falling behind.
#[test]
fn handle_a_full_ring_while_paused_is_not_an_overrun() {
    let (mut prod, mut cons) = RingBuffer::<u32>::new(4);
    let mut stats = RxStats::new(0);

    push_iq(&mut prod, &bits(&[1.0, 2.0, 3.0, 4.0]), 2, &mut stats, true);
    push_iq(&mut prod, &bits(&[5.0, 6.0]), 2, &mut stats, true);
    assert_eq!(stats.total_dropped, 0, "a paused receiver reports no overruns");
    assert_eq!(stats.total_keyed, 1, "the discarded pair is accounted for as keyed");

    push_iq(&mut prod, &bits(&[7.0, 8.0]), 2, &mut stats, false);
    assert_eq!(stats.total_dropped, 1);
    assert_eq!(stats.total_keyed, 1);

    while cons.pop().is_ok() {}
    push_iq(&mut prod, &bits(&[9.0, 10.0]), 2, &mut stats, false);
    assert_eq!(cons.slots() % 2, 0);
}

#[test]
fn the_statistics_say_what_happened() {
    let mut s = RxStats::new(0);
    s.on_iq(1_000_000);
    assert_eq!(s.tick(STATS_INTERVAL_US - 1), None, "not due yet");
    let (fault, text) = s.tick(STATS_INTERVAL_US).expect("due");
    assert!(!fault);
    assert_eq!(text, "Fobos RX: 1000000 samples (500.0 ksps) over 2.00s; total 1000000");
    let (fault, text) = s.tick(2 * STATS_INTERVAL_US).expect("due again");
    assert!(fault && text.contains("NOTHING ARRIVED"), "{text}");
    s.on_dropped(3);
    s.on_error("bulk read");
    s.on_error("another");
    s.on_iq(10);
    let (fault, text) = s.tick(3 * STATS_INTERVAL_US).expect("due again");
    assert!(fault && text.contains("3 sample(s) DROPPED"), "{text}");
    assert!(text.contains("2 error(s)") && text.contains("bulk read"), "{text}");
    assert_eq!(s.summary(), "1000010 samples, 3 dropped, 2 errors (first: bulk read)");
    s.on_dropped_keyed(4);
    assert!(s.keyed_note().contains("4 sample(s) discarded while keyed"));
}

#[test]
fn buf_len_for_gives_400_blocks_a_second_at_any_rate() {
    for rate in [1_250_000u64, 8_000_000, 50_000_000, 80_000_000] {
        let len = buf_len_for(rate);
        assert_eq!(len, (rate / BLOCKS_PER_SEC) as u32, "{rate}");
        assert!(len > 0);
    }
}

/// 80 Msps in, 2.0 Msps requested lands on 2.5 Msps out.
#[test]
fn pick_bins_reproduces_the_real_hardware_run() {
    let bins = pick_bins(80_000_000, 2_000_000);
    let out_rate = 80_000_000.0 * bins as f64 / DDC_BLOCK as f64;
    assert_eq!(bins, 256);
    assert!((out_rate - 2_500_000.0).abs() < 1.0, "{out_rate}");
    assert_eq!(hf_out_rate_mhz(80_000_000, bins), 2_500_000_000);
}

/// The rate that comes out is the one closest to the target, above or below it.
#[test]
fn pick_bins_lands_closest_to_the_target() {
    assert_eq!(pick_bins(80_000_000, 1_300_000), 128, "1.25 Msps is nearer than 2.5");
    assert_eq!(pick_bins(80_000_000, 1_874_999), 128);
    assert_eq!(pick_bins(80_000_000, 1_875_000), 256, "the wider one of two as close");
    assert_eq!(pick_bins(80_000_000, 625_000), 64);
    for target in (100_000..50_000_000u64).step_by(333_333) {
        let bins = pick_bins(80_000_000, target);
        let miss = |b: u64| (80_000_000 * b as i64 - 8192 * target as i64).abs();
        for b in [64, 128, 256, 512, 1024, 2048, 4096] {
            assert!(miss(bins) <= miss(b), "{target}: {bins} against {b}");
        }
    }
}

/// A power of two, never below the smallest usable channel or above half the
/// block.
#[test]
fn pick_bins_always_stays_in_bounds() {
    for target in [1, 1_000, 100_000, 5_000_000, 40_000_000, 1_000_000_000_000] {
        let bins = pick_bins(80_000_000, target);
        assert!(bins.is_power_of_two(), "{target}: {bins}");
        assert!((64..=DDC_BLOCK / 2).contains(&bins), "{target}: {bins}");
    }
}

/// The hardware read must not be forced to run ten times faster than anything
/// downstream needs.
#[test]
fn the_wanted_hf_adc_rate_stays_far_below_the_top_rate_for_a_modest_target() {
    let wanted = hf_adc_rate_wanted(625_000, 80_000_000);
    assert!(wanted < 10_000_000, "625 kHz target asked for {wanted} Hz out of 80 Msps");
    assert_eq!(wanted, HF_ADC_RATE_FLOOR, "should land exactly on the floor at this target");
}

/// A wide target still gets proportionally more ADC rate, capped at what the
/// receiver actually offers.
#[test]
fn the_wanted_hf_adc_rate_scales_up_for_a_wide_target_but_never_past_the_top_rate() {
    assert!(hf_adc_rate_wanted(4_000_000, 80_000_000) > HF_ADC_RATE_FLOOR);
    assert_eq!(hf_adc_rate_wanted(50_000_000, 80_000_000), 80_000_000);
}

/// 5.0 Msps is one of this receiver's own documented rates, and eight times that
/// is the one rate real hardware never streams from.
#[test]
fn the_wanted_hf_adc_rate_steers_clear_of_the_confirmed_broken_rate() {
    let wanted = hf_adc_rate_wanted(5_000_000, 80_000_000);
    assert_ne!(wanted, HF_ADC_RATE_BROKEN, "5.0 Msps must not land on the broken 40 Msps");
    assert_eq!(wanted, HF_ADC_RATE_BROKEN_FALLBACK);
}

/// The receiver's own top rate always wins over the floor.
#[test]
fn a_top_rate_below_the_floor_never_panics() {
    let wanted = hf_adc_rate_wanted(5_000_000, 5_000_000);
    assert_eq!(wanted, 5_000_000);
}

#[test]
fn the_top_rate_is_the_highest_offered() {
    assert_eq!(top_rate(&vec![8_000_000, 50_000_000, 20_000_000]), 50_000_000);
    assert_eq!(top_rate(&vec![]), 80_000_000);
}

#[test]
fn board_buffers_are_text_up_to_the_first_nought() {
    assert_eq!(cstr_buf_to_string(b"HW 3.0\0junk"), "HW 3.0");
    assert_eq!(cstr_buf_to_string(b"all of it"), "all of it");
    assert_eq!(cstr_buf_to_string(b"a\xffb\0"), "a\u{fffd}b");
    let ask = |code| {
        board_info(
            code,
            String::from("no answer"),
            b"3.0\0",
            b"1.2\0",
            b"RigExpert\0",
            b"Fobos\0",
            b"A1B2\0",
        )
    };
    match ask(-9) {
        Err(e) => assert_eq!(e.message(), "libfobos fobos_rx_get_board_info failed: no answer"),
        Ok(_) => panic!("a failed call says nothing of the board"),
    }
    let b = ask(0).expect("identity");
    assert_eq!(b.hw_revision, "3.0");
    assert_eq!(b.fw_version, "1.2");
    assert_eq!(b.manufacturer, "RigExpert");
    assert_eq!(b.product, "Fobos");
    assert_eq!(b.serial, "A1B2");
}

#[test]
fn the_list_comes_from_the_serials() {
    let found = try_list(2, b"A1B2 C3D4\0", String::new()).expect("two boards");
    assert_eq!(found.len(), 2);
    assert_eq!((found[1].index, found[1].serial.as_str()), (1, "C3D4"));
    assert!(try_list(0, b"", String::new()).expect("none").is_empty());
    match try_list(-3, b"", String::from("no library")) {
        Err(Error::Api { call, text }) => {
            assert_eq!((call, text.as_str()), ("fobos_rx_list_devices", "no library"))
        }
        _ => panic!("a failed call is an error"),
    }
    assert!(list(Err(Error::LibMissing(String::new()))).is_empty());
    assert_eq!(list(try_list(1, b"A1B2", String::new())).len(), 1);
}

fn board(index: u32, serial: &str) -> DevInfo {
    DevInfo { index, serial: serial.to_string() }
}

#[test]
fn a_board_is_chosen_by_its_serial() {
    let found = vec![board(0, "A1B2"), board(1, "C3D4")];
    assert_eq!(choose_board(&found, "C3D4").ok(), Some(1));
    assert_eq!(choose_board(&found, "").ok(), Some(0), "no preference takes the first");
    match choose_board(&found, "X\"9") {
        Err(Error::NotFound(s)) => {
            assert_eq!(s, "no Fobos SDR matching \"X\\\"9\" — found: A1B2, C3D4")
        }
        _ => panic!("not there"),
    }
    match choose_board(&vec![], "A1B2") {
        Err(e) => assert_eq!(e.message(), "no Fobos SDR found — is one plugged in?"),
        Ok(_) => panic!("nothing to choose from"),
    }
}

#[test]
fn opening_is_tried_a_few_times() {
    assert!(should_reopen(false, 4));
    assert!(!should_reopen(false, 5));
    assert!(!should_reopen(true, 0));
    match open_error("A1B2", "Device BUSY") {
        Error::InUse(s) => assert_eq!(s, "A1B2"),
        _ => panic!("a busy board is in use"),
    }
    assert_eq!(
        open_error("A1B2", "no firmware").message(),
        "libfobos fobos_rx_open failed: A1B2: no firmware"
    );
    assert_eq!(
        Error::InUse(String::from("A1B2")).message(),
        "A1B2 may be held by another program — close it and try again"
    );
    assert_eq!(Error::LibMissing(String::from("no libfobos")).message(), "no libfobos");
    assert_eq!(
        Error::api("fobos_rx_set_lna", String::from("bad")).message(),
        "libfobos fobos_rx_set_lna failed: bad"
    );
}

#[test]
fn the_rf_pump_follows_its_controls_and_reads() {
    let mut pump = RfPump::new(8_000_000, 0);
    assert_eq!(pump.buf_len, 20_000);
    let mut p = Pending::default();
    p.absorb(Ctrl::Center(100_000_000));
    p.absorb(Ctrl::ClkExternal(true));
    let steps = pump.steps(&p);
    assert_eq!(steps.center, Some(100_000_000));
    assert_eq!(steps.clk_external, Some(true));
    assert!(!steps.shutdown && steps.rate.is_none());
    assert_eq!(pump.on_rate(Some(10_000_000)), 25_000);
    assert_eq!(pump.rate_hz, 10_000_000);
    assert!(matches!(pump.on_read(Ok(100)), ReadOutcome::Pairs(100)));
    assert!(matches!(pump.on_read(Ok(0)), ReadOutcome::Nothing));
    assert!(matches!(pump.on_read(Err("stall")), ReadOutcome::Ended));
    assert_eq!(pump.stats.total_errors, 1);
    let (mut prod, cons) = RingBuffer::<u32>::new(8);
    pump.deliver(&mut prod, &[1, 2, 3, 4], false);
    assert_eq!(cons.slots(), 4);
}

#[test]
fn the_hf_pump_forgives_a_slow_start_only() {
    let mut pump = HfPump::new(8_000_000);
    for _ in 0..HF_STARTUP_READ_RETRIES {
        assert!(matches!(pump.on_read(None), ReadOutcome::Retry));
    }
    assert!(matches!(pump.on_read(None), ReadOutcome::Ended));
    let mut pump = HfPump::new(8_000_000);
    assert!(matches!(pump.on_read(Some(64)), ReadOutcome::Pairs(64)));
    assert!(matches!(pump.on_read(None), ReadOutcome::Ended), "it has streamed before");
    let mut p = Pending::default();
    p.absorb(Ctrl::Center(7_100_000));
    p.absorb(Ctrl::LnaGain(2));
    let steps = pump.steps(&p);
    assert_eq!(steps.retune, Some(7_100_000));
    pump.on_handoff(Handoff::Taken);
    assert_eq!(pump.dropped, 0);
    pump.on_handoff(Handoff::Full);
    assert_eq!(pump.dropped, 1);
    pump.on_handoff(Handoff::Gone);
}

#[test]
fn the_two_hf_ports_share_a_block() {
    let block = vec![1, 2, 3, 4, 5, 6];
    assert_eq!(channel_of(&block, false), vec![1, 3, 5]);
    assert_eq!(channel_of(&block, true), vec![2, 4, 6]);
    assert_ne!(reads_odd_channel(Port::Hf1), reads_odd_channel(Port::Hf2));
    assert_eq!(interleave_pair(&vec![1, 2, 3, 4], &vec![5, 6, 7, 8]), vec![1, 2, 5, 6, 3, 4, 7, 8]);
    assert_eq!(label("A1B2", Port::HfDual), "Fobos SDR A1B2 (HF1+HF2, diversity)");
    assert_eq!(label("A1B2", Port::Rf), "Fobos SDR A1B2 (RF port)");
}

#[test]
fn the_handle_reads_what_the_thread_publishes() {
    assert_eq!(current_rate_mhz(0, 7), 7, "nothing published yet");
    assert_eq!(current_rate_mhz(9, 7), 9);
    assert_eq!(silent_for_ms(1500, 1000), 500);
    assert_eq!(silent_for_ms(1000, 1500), 0);
}
