//! The uncoded telemetry frame, and the worker that looks for frames.

use sdroxide::qo100::bpsk::{
    coarse_steps, crc16_ccitt_false, data_bits, decode_frame, differential_encode, drift_grid,
    find_sync, fine_steps, manchester_chips, min_sync_distance, pack_bits, pick_carrier,
    source_chips, sync_distance, sync_positions, sync_scan, sync_word_bits, try_phases,
    DecodeProgress, LobeMeasure, PAYLOAD_BYTES, SYNC_LEN, SYNC_WORD,
};
use sdroxide::qo100::controller::{
    continues_run, lock_is_fresh, BufferPlan, CarrierEstimate, Drift, Settings, Worker,
};

#[test]
fn crc16_ccitt_false_matches_the_published_check_value() {
    assert_eq!(crc16_ccitt_false(b"123456789"), 0x29B1);
    assert_eq!(crc16_ccitt_false(b""), 0xFFFF);
}

#[test]
fn one_wrong_byte_always_changes_the_crc() {
    let data: Vec<u8> = (0..64).map(|i| (i * 5) as u8).collect();
    let crc = crc16_ccitt_false(&data);
    for at in [0usize, 31, 63] {
        for x in 1..=255u8 {
            let mut bad = data.clone();
            bad[at] ^= x;
            assert_ne!(crc16_ccitt_false(&bad), crc, "byte {at} by {x}");
        }
    }
}

fn pack_msb(bits: &[bool]) -> Vec<u8> {
    pack_bits(bits)
}

fn unpack_msb(bytes: &[u8]) -> Vec<bool> {
    bytes.iter().flat_map(|&b| (0..8).rev().map(move |i| (b >> i) & 1 != 0)).collect()
}

/// One complete on-air AO-40 uncoded frame (sync + payload + CRC), as data bits,
/// before differential and Manchester encoding.
fn build_frame_bits(text: &str) -> Vec<bool> {
    let mut payload = text.as_bytes().to_vec();
    payload.resize(PAYLOAD_BYTES, b' ');
    let crc = crc16_ccitt_false(&payload);
    let mut frame = payload;
    frame.extend_from_slice(&crc.to_be_bytes());
    let sync_bits: Vec<bool> = (0..SYNC_LEN).rev().map(|i| (SYNC_WORD >> i) & 1 != 0).collect();
    let mut bits = sync_bits;
    bits.extend(unpack_msb(&frame));
    bits
}

#[test]
fn a_corrupted_payload_bit_is_refused_by_the_crc() {
    let clean = build_frame_bits("SHOULD APPEAR");
    assert!(decode_frame(&clean).is_some(), "the undamaged frame must decode");

    let mut corrupted = clean.clone();
    // Flip a bit well inside the payload, away from the sync word.
    let i = SYNC_LEN as usize + 100;
    corrupted[i] = !corrupted[i];
    assert!(decode_frame(&corrupted).is_none(), "a single flipped payload bit must fail CRC");
}

#[test]
fn find_sync_tolerates_a_few_bit_errors_but_not_many() {
    let sync_bits: Vec<bool> = (0..SYNC_LEN).rev().map(|i| (SYNC_WORD >> i) & 1 != 0).collect();
    let mut noisy = sync_bits.clone();
    noisy[3] = !noisy[3];
    noisy[10] = !noisy[10];
    noisy[20] = !noisy[20];
    assert_eq!(find_sync(&noisy, 0), Some(0), "3 errors is within threshold");
    let mut too_noisy = noisy.clone();
    too_noisy[15] = !too_noisy[15];
    assert_eq!(find_sync(&too_noisy, 0), None, "4 errors is not");
}

#[test]
fn pack_and_unpack_bits_round_trip() {
    let bytes = [0x5Au8, 0x00, 0xFF, 0x81];
    assert_eq!(pack_msb(&unpack_msb(&bytes)), bytes);
}

/// One chip a sample, no noise: the flips between neighbouring chips.
fn flips(chips: &[bool]) -> Vec<bool> {
    chips.windows(2).map(|w| w[0] != w[1]).collect()
}

/// The chip pipeline in complete isolation: `data_bits` is the inverse of
/// encode-then-Manchester for *some* parity (bit 0 of the source has no
/// predecessor to compare against, so the match is against `want[1..]`).
#[test]
fn chip_pipeline_round_trips_at_unit_oversampling() {
    let want = build_frame_bits("ROUND TRIP CHECK");
    let chip_bits = source_chips(&want);
    let flips = flips(&chip_bits);
    let ok = (0..2).any(|parity| {
        let got = data_bits(&flips, parity);
        got.len() >= want.len() - 1 && got[..want.len() - 1] == want[1..]
    });
    assert!(ok, "neither parity reconstructed the source bits");
}

/// Parity 0 reads the flips at odd indices, parity 1 the others.
#[test]
fn each_parity_reads_its_own_boundaries() {
    let flips = [true, false, true, true];
    assert_eq!(data_bits(&flips, 0), vec![true, false]);
    assert_eq!(data_bits(&flips, 1), vec![false, false]);
    assert_eq!(data_bits(&flips[..3], 0), vec![true]);
    assert_eq!(data_bits(&flips[..3], 1), vec![false, false]);
    assert_eq!(data_bits(&[], 0), Vec::<bool>::new());
    let bits = [true, false, true, true, false];
    let chips = source_chips(&bits);
    let between: Vec<bool> = chips.windows(2).map(|w| w[0] != w[1]).collect();
    assert_eq!(data_bits(&between, 0), bits[1..]);
}

#[test]
fn chips_follow_the_differential_bits() {
    let bits = [true, false, true, true];
    let e = differential_encode(&bits);
    assert_eq!(e, vec![true, true, false, true]);
    assert_eq!(manchester_chips(&e), source_chips(&bits));
    let chips = manchester_chips(&e);
    assert_eq!(chips.len(), 8);
    for pair in chips.chunks(2) {
        assert_ne!(pair[0], pair[1], "every bit has its edge");
    }
}

#[test]
fn a_frame_is_read_behind_other_bits_with_its_text() {
    let mut bits = vec![false, true, true, false, true];
    bits.extend(build_frame_bits("QO-100 TEST TELEMETRY LINE ONE"));
    let m = decode_frame(&bits).expect("a frame");
    assert_eq!(m.db_start, 5);
    assert_eq!(m.source_bits, bits[5..]);
    assert!(m.text.starts_with("QO-100 TEST TELEMETRY LINE ONE"), "{:?}", m.text);

    // A sync word with nothing sound behind it does not hide the frame after it.
    let mut twice = sync_word_bits();
    twice.extend(vec![true; 40]);
    twice.extend(build_frame_bits("SECOND"));
    let m = decode_frame(&twice).expect("the second sync word");
    assert_eq!(m.db_start, 72);
}

/// A sync word that arrives damaged is put right in what is handed on.
#[test]
fn the_sync_word_is_restored_in_the_source_bits() {
    let clean = build_frame_bits("FIX ME");
    let mut bits = clean.clone();
    bits[4] = !bits[4];
    let m = decode_frame(&bits).expect("one error is within threshold");
    assert_eq!(m.source_bits, clean);
}

#[test]
fn bytes_that_are_no_text_are_replaced() {
    let mut payload = vec![0xffu8, b'A'];
    payload.resize(PAYLOAD_BYTES, b' ');
    let crc = crc16_ccitt_false(&payload);
    payload.extend_from_slice(&crc.to_be_bytes());
    let mut bits = sync_word_bits();
    bits.extend(unpack_msb(&payload));
    let m = decode_frame(&bits).expect("the checksum is right");
    assert!(!m.text.contains('\u{ff}'));
    assert!(m.text.contains('A'), "{:?}", m.text);
}

#[test]
fn sync_distances_are_counted() {
    let sync = sync_word_bits();
    assert_eq!(sync.len(), SYNC_LEN);
    assert_eq!(pack_bits(&sync), SYNC_WORD.to_be_bytes());
    assert_eq!(sync_distance(&sync, 0), 0);
    let wrong: Vec<bool> = sync.iter().map(|b| !b).collect();
    assert_eq!(sync_distance(&wrong, 0), 32);
    let mut two = wrong.clone();
    two.extend(&sync);
    assert_eq!(min_sync_distance(&two), Some(0));
    assert_eq!(find_sync(&two, 0), Some(32));
    assert_eq!(find_sync(&two, 33), None);
    assert_eq!(sync_positions(&two), vec![32]);
    assert_eq!(min_sync_distance(&sync[..31]), None);
}

#[test]
fn every_phase_and_parity_is_tried() {
    let chips = source_chips(&build_frame_bits("PHASES"));
    let good = flips(&chips);
    let mut late = vec![true];
    late.extend(&good);
    let phases = vec![vec![false; 100], late, good];
    let c = try_phases(&phases).expect("the second phase carries it");
    assert_eq!(c.phase, 1);
    assert!(c.m.text.starts_with("PHASES"));
    assert!(try_phases(&vec![vec![false; 9000]]).is_none());
    let (errors, matches) = sync_scan(&phases).expect("something was scanned");
    assert_eq!((errors, matches), (0, 1));
    assert_eq!(sync_scan(&vec![vec![true; 10]]), None);
}

#[test]
fn the_walks_cover_the_grid_from_the_centre_out() {
    assert_eq!(fine_steps(2), vec![0, -1, 1, -2, 2]);
    assert_eq!(coarse_steps(2), vec![0, 1, -1, 2, -2]);
    let mut coarse = coarse_steps(3);
    assert_eq!(coarse[0], 0);
    coarse.sort();
    assert_eq!(coarse, vec![-3, -2, -1, 0, 1, 2, 3]);
    assert_eq!(drift_grid(false), vec![(0, 0)]);
    let grid = drift_grid(true);
    assert_eq!(grid.len(), 27);
    assert_eq!(grid[0], (0, 0));
    for a in -1..=1 {
        for r in -4..=4 {
            assert!(grid.contains(&(a, r)), "({a}, {r})");
        }
    }
}

#[test]
fn progress_says_how_far_a_pass_got() {
    let d = DecodeProgress::decoded();
    assert!(d.carrier && d.sync && d.crc_ok);
    assert_eq!(d.sync_bit_errors, 0);
    let none = DecodeProgress::probed(false, None);
    assert!(!none.carrier && !none.sync && !none.crc_ok);
    assert_eq!(none.sync_bit_errors, u8::MAX);
    let near = DecodeProgress::probed(false, Some((8, 2)));
    assert!(near.carrier && !near.sync);
    let hit = DecodeProgress::probed(false, Some((3, 1)));
    assert!(hit.sync && !hit.crc_ok);
    let far = DecodeProgress::probed(true, Some((14, 0)));
    assert!(far.carrier && !far.sync);
    let idle = DecodeProgress::default();
    assert!(!idle.carrier && !idle.sync && !idle.crc_ok);
}

const FRAME_SECONDS: f64 = 10.36;

fn now_unix() -> i64 {
    1_760_000_000
}

#[test]
fn a_lock_is_fresh_for_about_three_frame_times_then_stale() {
    assert!(!lock_is_fresh(0, now_unix()), "0 means the decoder has never locked");
    assert!(lock_is_fresh(now_unix(), now_unix()), "a lock from just now is fresh");
    // The beacon alternates an uncoded frame with a coded one, so a real gap runs
    // a bit over two frame times; three is the grace. Just inside it, then well
    // outside:
    assert!(lock_is_fresh(now_unix() - (FRAME_SECONDS * 2.5) as i64, now_unix()));
    assert!(!lock_is_fresh(now_unix() - (FRAME_SECONDS * 4.0) as i64, now_unix()));
    assert!(lock_is_fresh(now_unix() - 31, now_unix()));
    assert!(!lock_is_fresh(now_unix() - 32, now_unix()));
}

#[test]
fn only_the_next_block_in_sequence_continues_the_buffered_run() {
    assert!(!continues_run(None, 0), "nothing buffered yet is a fresh start");
    assert!(continues_run(Some(7), 7), "the expected block carries straight on");
    assert!(!continues_run(Some(7), 8), "one dropped block is still a gap");
    assert!(!continues_run(Some(7), 260), "a queue's worth of drops likewise");
    assert!(!continues_run(Some(7), 6), "and so is anything out of order");
}

#[test]
fn the_rolling_window_holds_a_whole_frame_and_overlaps_by_more_than_one() {
    for rate in [8_000.0f64, 16_000.0, 48_000.0] {
        let plan = BufferPlan::new((rate * 1000.0) as u64);
        let window = plan.window_len as f64 / rate;
        let keep = plan.keep_len as f64 / rate;
        // A frame beginning anywhere in the buffer has to be captured whole at
        // least once regardless of where the cut lands, so the window must exceed
        // two frame times ...
        assert!(window > 2.0 * FRAME_SECONDS);
        // ... and consecutive windows must overlap by more than a frame, or a frame
        // could fall exactly on a cut and be lost from both.
        assert!(keep > FRAME_SECONDS);
        assert!(keep < window);
    }
}

fn settings() -> Settings {
    Settings {
        enabled: true,
        decode_telemetry: true,
        auto_apply: false,
        park_lo_mhz: -5_000_000,
        park_hi_mhz: 5_000_000,
        search_half_width_mhz: 5_000_000,
    }
}

#[test]
fn the_worker_gathers_a_window_and_restarts_at_a_gap() {
    let mut w = Worker::new(16_000_000, settings());
    let plan_window = w.plan.window_len;
    let s = w.on_block(0, 4096, 1000);
    assert!(s.restart && !s.search);
    assert_eq!(w.buffered, 4096);
    let s = w.on_block(1, 4096, 1000);
    assert!(!s.restart);
    assert_eq!(w.buffered, 8192);
    let s = w.on_block(3, 100, 1000);
    assert!(s.restart, "block 2 went missing");
    assert_eq!(w.buffered, 100);
    let s = w.on_block(4, plan_window, 1001);
    assert!(s.search && s.decode, "a whole window is there");
    let had = w.buffered;
    let keep = w.plan.keep_len;
    assert_eq!(w.cut(), had - keep);
    assert_eq!(w.buffered, keep);
}

#[test]
fn a_window_is_only_decoded_when_the_telemetry_is_wanted() {
    let quiet = Settings { decode_telemetry: false, ..settings() };
    let mut w = Worker::new(16_000_000, quiet);
    let window = w.plan.window_len;
    let s = w.on_block(0, window - 1, 1000);
    assert!(!s.search && !s.decode);
    let s = w.on_block(1, 1, 1000);
    assert!(s.search && !s.decode, "the window is cut and not decoded");
    w.on_skipped();
    assert_eq!((w.tried, w.locked), (0, 0));
    w.cut();

    w.set_config(settings());
    let s = w.on_block(2, 1, 1001);
    assert!(!s.search && !s.decode, "switched on, and the window not there yet");
    let s = w.on_block(3, window, 1002);
    assert!(s.search && s.decode);
}

#[test]
fn locks_and_estimates_are_reported() {
    let mut w = Worker::new(16_000_000, settings());
    assert!(!w.status(5000).locked);
    assert_eq!(w.seed_mhz(), 0);
    let e = CarrierEstimate {
        offset_mhz: 120_000,
        null_depth_mdb: 9000,
        symmetry_permille: 950,
        snr_mdb: 12_000,
    };
    w.on_estimate(e, 5000, 0);
    assert_eq!(w.seed_mhz(), 120_000);
    w.set_drift(Drift { rate_mhz_s: 5, accel_mhz_s2: 0 });
    w.on_miss();
    assert_eq!((w.drift.rate_mhz_s, w.est_misses), (0, 1));

    let again = w.on_uncoded(None, DecodeProgress::probed(true, None), 5000);
    assert!(again, "the coded frame is worth a try");
    w.on_coded(Some((119_500, String::from("CODED"))), 5001);
    let st = w.status(5002);
    assert!(st.locked);
    assert_eq!((st.offset_mhz, st.text.as_str(), st.locked_unix), (119_500, "CODED", 5001));
    assert_eq!((st.blocks_tried, st.blocks_locked), (1, 1));
    assert!(!w.status(5040).locked, "stale after three frame times");

    let again = w.on_uncoded(
        Some((119_000, String::from("PLAIN"))),
        DecodeProgress::decoded(),
        5050,
    );
    assert!(!again);
    assert_eq!(w.status(5050).text, "PLAIN");
    w.on_skipped();
    assert_eq!(w.status(5050).text, "PLAIN");
}

fn lobes(null: i64, excess: i64, snr: i64, sym: i64) -> LobeMeasure {
    LobeMeasure {
        null_depth_udb: null * 1_000_000,
        lobe_excess_udb: excess * 1_000_000,
        snr_udb: snr * 1_000_000,
        symmetry_ppm: sym * 10_000,
    }
}

#[test]
fn the_most_convincing_beacon_shape_wins() {
    // A bare carrier has no null, a voice signal no evenness, noise neither lobe.
    let no_null = lobes(0, 20, 20, 95);
    let lopsided = lobes(8, 20, 20, 50);
    let noise = lobes(3, 1, 1, 90);
    assert_eq!(pick_carrier(&[no_null, lopsided, noise]), None);
    let good = lobes(8, 10, 10, 90);
    let better = lobes(9, 10, 10, 90);
    assert_eq!(pick_carrier(&[noise, good, better, better, good]), Some(2));
    // Past 12 dB more level is not more convincing, so the first stays.
    assert_eq!(pick_carrier(&[lobes(12, 12, 12, 90), lobes(30, 30, 30, 90)]), Some(0));
    // Evenness is worth as much as 8 dB.
    assert_eq!(pick_carrier(&[lobes(9, 10, 10, 60), lobes(8, 10, 10, 80)]), Some(1));
    assert_eq!(pick_carrier(&[]), None);
}
