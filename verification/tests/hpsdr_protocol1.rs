//! openHPSDR Protocol 1: the registers, the datagrams and the link over them.

use sdroxide::hpsdr::ioboard::HpsdrIoRxInput;
use sdroxide::hpsdr::link::{Ctrl, Link, LinkConfig, START_HZ};
use sdroxide::hpsdr::protocol1::{
    alex_oc, be24_to_i32, build_ep2, config_cc, conjugate, decode_ep6, decode_ep6_status, freq_cc,
    hl2_status, lna_gain_code, n2adr_oc, speed_code, start_command, Ep6Info, FifoFault,
    HpsdrFilterBoard, Regs, Rotation, Slot, TxHealth, CC_CONFIG, CC_DRIVE, CC_HL2_GAIN,
    CC_RX1_FREQ, CC_TX_FREQ, CONFIG_C4, DATAGRAM_LEN, EP2_INTERVAL_US, HL2_GAIN_VALID, HL2_PA_ON,
    HL2_TR_RX_ONLY, NO_RX_US, TX_DRIVE, VALUES_PER_DATAGRAM, WARN_INTERVAL_US,
};

/// A sample between -1 and 1 as 24 bits, big-endian.
fn be24(v: f32) -> [u8; 3] {
    let b = ((v * 8_388_607.0) as i32).to_be_bytes();
    [b[1], b[2], b[3]]
}

#[test]
fn speed_codes() {
    assert_eq!(speed_code(48_000), 0);
    assert_eq!(speed_code(96_000), 1);
    assert_eq!(speed_code(192_000), 2);
    assert_eq!(speed_code(384_000), 3);
}

#[test]
fn freq_cc_is_hz_big_endian() {
    let cc = freq_cc(CC_RX1_FREQ, 14_074_000, 1);
    assert_eq!(cc[0], CC_RX1_FREQ | 1); // MOX bit set
    assert_eq!(u32::from_be_bytes([cc[1], cc[2], cc[3], cc[4]]), 14_074_000);
}

#[test]
fn ep6_decode_roundtrip() {
    // Hand-build an EP6 datagram with one non-zero sample in each frame,
    // using the 24-bit encoder, and confirm decode recovers it.
    let mut d = [0u8; DATAGRAM_LEN];
    d[0] = 0xEF;
    d[1] = 0xFE;
    d[2] = 0x01;
    d[3] = 0x06;
    for f in 0..2 {
        let frame = &mut d[8 + f * 512..8 + f * 512 + 512];
        frame[0] = 0x7F;
        frame[1] = 0x7F;
        frame[2] = 0x7F;
        // sample 0: I=0.5, Q=-0.25
        frame[8..11].copy_from_slice(&be24(0.5));
        frame[11..14].copy_from_slice(&be24(-0.25));
    }
    let mut out = Vec::new();
    let info = decode_ep6(&d, &mut out).expect("valid EP6");
    // 2 frames × 63 samples × 2 values.
    assert_eq!(out.len(), VALUES_PER_DATAGRAM);
    assert!((out[0] as f32 / 8_388_608.0 - 0.5).abs() < 1e-4);
    assert!((out[1] as f32 / 8_388_608.0 + 0.25).abs() < 1e-4);
    // All-zero C&C: no PTT, no overload, and status set 0 was seen.
    assert!(!info.ptt);
    assert!(!info.adc_overload);
    assert_eq!(info.versions, Some((0, 0, 0, 0)));
}

#[test]
fn ep6_status_bits() {
    let mut info =
        Ep6Info { seq: 0, ptt: false, adc_overload: false, ack: None, versions: None };
    // Status set 0, PTT closed, ADC overloaded, versions in C2..C4.
    decode_ep6_status(&[0x01, 0x01, 0x11, 0x22, 0x33], &mut info);
    assert!(info.ptt);
    assert!(info.adc_overload);
    assert_eq!(info.versions, Some((0x01, 0x11, 0x22, 0x33)));

    // A different status set carries power/voltage, not versions: the
    // overload flag and version bytes must not be read out of it.
    let mut other =
        Ep6Info { seq: 0, ptt: false, adc_overload: false, ack: None, versions: None };
    decode_ep6_status(&[0x08, 0xFF, 0xFF, 0xFF, 0xFF], &mut other);
    assert!(!other.adc_overload);
    assert_eq!(other.versions, None);
}

#[test]
fn ep2_datagram_shape() {
    let mut seq = 0u32;
    let regs = Regs {
        rx_freq: 7_074_000,
        tx_freq: 7_074_000,
        lna_gain: None,
        pa: None,
        filter_board: HpsdrFilterBoard::Absent,
        ptt: false,
    };
    let mut rot = Rotation::new();
    let d = build_ep2(&mut seq, 0, 0, regs.oc(), regs.cc(rot.take(&regs)), &[]);
    assert_eq!(d.len(), 1032);
    assert_eq!(&d[0..4], &[0xEF, 0xFE, 0x01, 0x02]);
    assert_eq!(seq, 1); // advanced
    // Both frames start with the OZY sync.
    assert_eq!(&d[8..11], &[0x7F, 0x7F, 0x7F]);
    assert_eq!(&d[520..523], &[0x7F, 0x7F, 0x7F]);
    // Frame #1 is the config register (address 0); frame #2 is rotating
    // slot 0 = the TX-frequency register (C0 = 0x02).
    assert_eq!(d[11], CC_CONFIG); // frame #1 C0
    assert_eq!(d[8 + 512 + 3], CC_TX_FREQ); // frame #2 C0
    // Config C4 carries the duplex/receiver-count field.
    assert_eq!(d[8 + 7], CONFIG_C4); // frame #1 C4
}

#[test]
fn mox_bit_rides_registers() {
    assert_eq!(config_cc(0, 1, 0)[0] & 1, 1);
    assert_eq!(config_cc(0, 0, 0)[0] & 1, 0);
    let keyed = Regs {
        rx_freq: 7_000_000,
        tx_freq: 7_000_000,
        lna_gain: None,
        pa: None,
        filter_board: HpsdrFilterBoard::Absent,
        ptt: true,
    };
    let idle = Regs { ptt: false, ..keyed };
    for slot in [Slot::TxFreq, Slot::RxFreq, Slot::Drive] {
        assert_eq!(keyed.cc(slot)[0] & 1, 1);
        assert_eq!(idle.cc(slot)[0] & 1, 0);
    }
}

/// Register `0x09` with C2 = 0 is the Hermes-Lite's "PA off": the board keys
/// anyway, the T/R relay throws and the PTT line follows, and no power comes out.
#[test]
fn drive_register_switches_the_hermes_lite_pa_on() {
    let hl2 = Regs {
        rx_freq: 14_074_000,
        tx_freq: 14_074_000,
        lna_gain: Some(20),
        pa: Some(true),
        filter_board: HpsdrFilterBoard::Absent,
        ptt: false,
    };
    let cc = hl2.cc(Slot::Drive);
    assert_eq!(cc[0], CC_DRIVE, "register 0x09");
    assert_eq!(cc[1], TX_DRIVE, "drive level unchanged");
    assert_eq!(cc[2], HL2_PA_ON, "bit 19: onboard PA on");
    assert_eq!(cc[2] & HL2_TR_RX_ONLY, 0, "the T/R relay must be free to switch");

    // PA off is a real operating choice — an external amplifier driven from
    // the low-power RF1 output — and then the antenna jack is deliberately
    // held on the receiver rather than left connected to a dead PA.
    let off = Regs { pa: Some(false), ..hl2 }.cc(Slot::Drive);
    assert_eq!(off[2], HL2_TR_RX_ONLY);
    assert_eq!(off[2] & HL2_PA_ON, 0);

    // On any other Protocol 1 board those bits are Apollo tuner/filter
    // commands, so the byte stays zero.
    assert_eq!(Regs { pa: None, ..hl2 }.cc(Slot::Drive)[2], 0);

    // The PA state rides every drive frame, keyed or not: the board has to
    // already know it when MOX arrives.
    for ptt in [false, true] {
        assert_eq!(Regs { ptt, ..hl2 }.cc(Slot::Drive)[2], HL2_PA_ON);
    }
}

/// The Hermes-Lite's own account of why a transmission is not going out,
/// from status set 0. Both fields sit in the `RDATA` bits the protocol
/// document quotes, which is what makes them easy to misplace: `RDATA[25]`
/// is C1 bit 1 and `RDATA[15:14]` are the top two bits of C3.
#[test]
fn hermes_lite_status_reports_tx_faults() {
    // C1 bit 1 is TX-inhibit *active low*: set means "not inhibited".
    let mut health = TxHealth::default();
    hl2_status(0x1E, 0x00, false, &mut health, 1_000);
    assert!(health.last_inhibit_warn.is_none(), "0x1E is a healthy transmitter");
    hl2_status(0x1C, 0x00, false, &mut health, 1_000);
    assert!(health.last_inhibit_warn.is_some(), "inhibit line pulled low");

    // FIFO under/overflow only counts while keyed — the transmit FIFO
    // legitimately sits empty until the first over.
    let mut health = TxHealth::default();
    hl2_status(0x1E, 0x80, false, &mut health, 1_000);
    assert!(health.last_fifo_warn.is_none(), "an idle radio has an empty TX FIFO");
    hl2_status(0x1E, 0x80, true, &mut health, 1_000);
    assert!(health.last_fifo_warn.is_some(), "underflow while keyed");

    // A plain fill level (bit 15 clear) is not a fault however full it is.
    let mut health = TxHealth::default();
    hl2_status(0x1E, 0x7F, true, &mut health, 1_000);
    assert!(health.last_fifo_warn.is_none());

    // Both warnings are rate-limited independently, so a chattering fault
    // cannot crowd the other one out of the log.
    let mut health = TxHealth::default();
    hl2_status(0x1C, 0x00, true, &mut health, 1_000);
    let first = health.last_inhibit_warn;
    hl2_status(0x1C, 0xC0, true, &mut health, 1_000);
    assert_eq!(health.last_inhibit_warn, first, "second inhibit warning suppressed");
    assert!(health.last_fifo_warn.is_some(), "overflow still reported");
}

#[test]
fn lna_gain_register_encodes_hl2_range() {
    let regs = Regs {
        rx_freq: 7_000_000,
        tx_freq: 7_000_000,
        lna_gain: Some(0),
        pa: None,
        filter_board: HpsdrFilterBoard::Absent,
        ptt: false,
    };
    let cc = regs.cc(Slot::LnaGain);
    assert_eq!(cc[0], CC_HL2_GAIN);
    // 0 dB → code 12, with the "field is valid" bit set.
    assert_eq!(cc[4], HL2_GAIN_VALID | 12);
    // The rails: −12 dB → 0, +48 dB → 60, and both are clamped beyond that.
    assert_eq!(Regs { lna_gain: Some(-12), ..regs }.cc(Slot::LnaGain)[4], HL2_GAIN_VALID);
    assert_eq!(Regs { lna_gain: Some(48), ..regs }.cc(Slot::LnaGain)[4], HL2_GAIN_VALID | 60);
    assert_eq!(Regs { lna_gain: Some(-40), ..regs }.cc(Slot::LnaGain)[4], HL2_GAIN_VALID);
    assert_eq!(Regs { lna_gain: Some(99), ..regs }.cc(Slot::LnaGain)[4], HL2_GAIN_VALID | 60);
    // The gain code never runs into the valid bit.
    for db in [-12, 0, 20, 48] {
        assert_eq!(lna_gain_code(db) & HL2_GAIN_VALID, 0);
    }
}

#[test]
fn conjugation_negates_only_q() {
    let mut iq = vec![1, 2, -3, 4, 5, -6];
    conjugate(&mut iq);
    assert_eq!(iq, [1, -2, -3, -4, 5, 6]);
    // Applying it twice is the identity, so RX and TX cannot drift apart.
    conjugate(&mut iq);
    assert_eq!(iq, [1, 2, -3, 4, 5, -6]);
    // An odd tail (never produced by the pair-safe paths) is left alone
    // rather than panicking.
    let mut odd = vec![1, 2, 3];
    conjugate(&mut odd);
    assert_eq!(odd, [1, -2, 3]);
}

#[test]
fn n2adr_filter_selection_is_one_hot_per_band() {
    // Bit assignment from the board's own documentation: 0 = 160 m,
    // 1 = 80 m, 2 = 60/40 m, 3 = 30/20 m, 4 = 17/15 m, 5 = 12/10 m,
    // 6 = the 3 MHz receive high-pass.
    const HPF: u8 = 1 << 6;
    assert_eq!(n2adr_oc(1_840_000), 1 << 0, "160 m: LPF only, no high-pass");
    assert_eq!(n2adr_oc(3_573_000), (1 << 1) | HPF, "80 m");
    assert_eq!(n2adr_oc(7_074_000), (1 << 2) | HPF, "40 m");
    assert_eq!(n2adr_oc(5_357_000), (1 << 2) | HPF, "60 m shares the 40 m filter");
    assert_eq!(n2adr_oc(10_136_000), (1 << 3) | HPF, "30 m");
    assert_eq!(n2adr_oc(14_074_000), (1 << 3) | HPF, "20 m shares the 30 m filter");
    assert_eq!(n2adr_oc(18_100_000), (1 << 4) | HPF, "17 m");
    assert_eq!(n2adr_oc(21_074_000), (1 << 4) | HPF, "15 m shares the 17 m filter");
    assert_eq!(n2adr_oc(24_915_000), (1 << 5) | HPF, "12 m");
    assert_eq!(n2adr_oc(28_074_000), (1 << 5) | HPF, "10 m shares the 12 m filter");

    // Exactly one low-pass relay is ever selected, and the byte always fits
    // the seven lines the header actually has.
    for f in [500_000, 1_840_000, 7_074_000, 14_074_000, 28_074_000, 50_000_000] {
        let oc = n2adr_oc(f);
        assert_eq!(oc & !HPF, (oc & !HPF).next_power_of_two(), "one-hot LPF at {f} Hz");
        assert_eq!(oc & 0x80, 0, "only seven outputs exist");
    }
    // Below the high-pass corner it is left out, so broadcast-band and
    // 160 m listening is not attenuated by it.
    assert_eq!(n2adr_oc(600_000) & HPF, 0);
    assert_eq!(n2adr_oc(3_500_000) & HPF, HPF);
}

#[test]
fn alex_filter_selection_is_the_band_as_a_four_bit_code() {
    // The table an ANAN/Hermes Alex board, a Zeus SDR, a HiQSDR and Quisk
    // all share, band for band.
    for (hz, want) in [
        (1_840_000, 0x01), // 160 m
        (3_573_000, 0x02), // 80 m
        (5_357_000, 0x00), // 60 m — deliberately no pins
        (7_074_000, 0x03), // 40 m
        (10_136_000, 0x04),
        (14_074_000, 0x05),
        (18_100_000, 0x06),
        (21_074_000, 0x07),
        (24_915_000, 0x08),
        (28_074_000, 0x09),
        (50_313_000, 0x0A), // 6 m
    ] {
        assert_eq!(alex_oc(hz), want, "{hz} Hz");
    }
    // Everything below 160 m rides the 160 m code and everything above 6 m
    // the 6 m one, so a listener off the ham bands still gets a filter.
    assert_eq!(alex_oc(198_000), 0x01);
    assert_eq!(alex_oc(70_200_000), 0x0A);
    // The code is four bits: outputs 5-7 carry no part of it, and the byte
    // fits the seven lines the header has.
    for hz in [198_000, 5_000_000, 9_000_000, 27_555_000, 50_313_000] {
        assert_eq!(alex_oc(hz) & !0x0F, 0, "outputs 5-7 stay off at {hz} Hz");
    }
}

#[test]
fn open_collector_bits_land_in_c2_and_are_off_without_a_board() {
    // The seven lines sit at bits [23:17] of the register's 32-bit view,
    // which is C2 bits [7:1].
    assert_eq!(config_cc(3, 0, 0b0100_1000)[2], 0b1001_0000);
    // No configured board means every output stays off.
    let regs = Regs {
        rx_freq: 14_074_000,
        tx_freq: 14_074_000,
        lna_gain: Some(20),
        pa: None,
        filter_board: HpsdrFilterBoard::Absent,
        ptt: false,
    };
    assert_eq!(regs.oc(), 0);
    assert_eq!(config_cc(3, 0, regs.oc())[2], 0);
    // With a board, the filter follows the transmit frequency while keyed —
    // the low-pass has to match what is actually going out.
    let split = Regs {
        rx_freq: 14_074_000,
        tx_freq: 7_074_000,
        filter_board: HpsdrFilterBoard::N2adr,
        ..regs
    };
    assert_eq!(split.oc(), n2adr_oc(14_074_000), "receiving: follows RX");
    assert_eq!(Regs { ptt: true, ..split }.oc(), n2adr_oc(7_074_000), "keyed: follows TX");
    // And the same rule on the band-code preset.
    let alex = Regs { filter_board: HpsdrFilterBoard::Alex, ..split };
    assert_eq!(alex.oc(), 0x05, "receiving on 20 m");
    assert_eq!(Regs { ptt: true, ..alex }.oc(), 0x03, "keyed on 40 m");
    assert_eq!(config_cc(3, 0, alex.oc())[2], 0x05 << 1);
}

#[test]
fn rotation_covers_every_slot_and_honours_urgency() {
    let hl2 = Regs {
        rx_freq: 7_000_000,
        tx_freq: 7_000_000,
        lna_gain: Some(20),
        pa: None,
        filter_board: HpsdrFilterBoard::Absent,
        ptt: false,
    };
    let mut rot = Rotation::new();
    // A Hermes-Lite rotation visits all four slots; a board without the gain
    // register visits three and never emits the gain slot.
    let seen: Vec<Slot> = (0..4).map(|_| rot.take(&hl2)).collect();
    assert!(seen.contains(&Slot::LnaGain));
    let plain = Regs { lna_gain: None, ..hl2 };
    let mut rot = Rotation::new();
    for _ in 0..9 {
        assert_ne!(rot.take(&plain), Slot::LnaGain);
    }
    // An urgent slot jumps the queue, and repeats collapse to one entry.
    let mut rot = Rotation::new();
    rot.urge(Slot::RxFreq);
    rot.urge(Slot::RxFreq);
    assert_eq!(rot.take(&hl2), Slot::RxFreq);
    assert_ne!(rot.take(&hl2), Slot::RxFreq);
}

#[test]
fn twenty_four_bits_keep_their_sign() {
    assert_eq!(be24_to_i32(0x00, 0x00, 0x01), 1);
    assert_eq!(be24_to_i32(0x7F, 0xFF, 0xFF), 8_388_607);
    assert_eq!(be24_to_i32(0xFF, 0xFF, 0xFF), -1);
    assert_eq!(be24_to_i32(0x80, 0x00, 0x00), -8_388_608);
}

#[test]
fn what_is_no_ep6_datagram_is_refused() {
    let mut out = Vec::new();
    assert!(decode_ep6(&[0u8; DATAGRAM_LEN], &mut out).is_none());
    assert!(decode_ep6(&[0xEF, 0xFE, 0x01, 0x06], &mut out).is_none());
    assert!(out.is_empty());
}

#[test]
fn an_answered_command_is_an_ack() {
    let mut info = Ep6Info { seq: 0, ptt: false, adc_overload: false, ack: None, versions: None };
    decode_ep6_status(&[0x80 | (0x3D << 1), 0xF1, 2, 3, 4], &mut info);
    assert_eq!(info.ack, Some((0x3D, [0xF1, 2, 3, 4])));
    assert_eq!(info.versions, None, "an answer is no status");
}

#[test]
fn only_the_first_five_status_bytes_count() {
    let mut info = Ep6Info { seq: 9, ptt: false, adc_overload: false, ack: None, versions: None };
    decode_ep6_status(&[0x01, 0x01, 0x11, 0x22, 0x33, 0xFF, 0xFF], &mut info);
    assert!(info.ptt && info.adc_overload);
    assert_eq!(info.versions, Some((0x01, 0x11, 0x22, 0x33)));
    assert_eq!(info.seq, 9);
}

#[test]
fn the_start_command_starts_and_stops() {
    let on = start_command(true);
    assert_eq!(&on[..3], &[0xEF, 0xFE, 0x04]);
    assert_ne!(on[3], 0);
    let off = start_command(false);
    assert_eq!(&off[..4], &[0xEF, 0xFE, 0x04, 0x00]);
}

#[test]
fn transmit_samples_ride_the_ep2_frames() {
    let mut seq = 7u32;
    let iq: Vec<i16> = (0..252).map(|i| i * 100 - 12_000).collect();
    let d = build_ep2(&mut seq, 3, 1, 0, [2, 0, 0, 0, 0], &iq);
    assert_eq!(u32::from_be_bytes([d[4], d[5], d[6], d[7]]), 7);
    assert_eq!(seq, 8);
    // Eight bytes a sample: two of left, two of right, two of I, two of Q.
    assert_eq!(i16::from_be_bytes([d[16 + 4], d[16 + 5]]), iq[0]);
    assert_eq!(i16::from_be_bytes([d[16 + 6], d[16 + 7]]), iq[1]);
    assert_eq!(i16::from_be_bytes([d[528 + 4], d[528 + 5]]), iq[126]);
    let mut last = u32::MAX;
    build_ep2(&mut last, 0, 0, 0, [0; 5], &[]);
    assert_eq!(last, 0, "the sequence number wraps");
}

#[test]
fn a_repeated_fault_is_reported_again_after_a_while() {
    let mut health = TxHealth::default();
    let w = hl2_status(0x1C, 0xC0, true, &mut health, 0);
    assert!(w.inhibited);
    assert_eq!(w.fifo, Some(FifoFault::Overflow));
    let w = hl2_status(0x1C, 0x80, true, &mut health, WARN_INTERVAL_US - 1);
    assert!(!w.inhibited && w.fifo.is_none());
    let w = hl2_status(0x1C, 0x80, true, &mut health, WARN_INTERVAL_US);
    assert!(w.inhibited);
    assert_eq!(w.fifo, Some(FifoFault::Underrun));
}

fn hermes_lite() -> LinkConfig {
    LinkConfig {
        board: String::from("Hermes-Lite 2"),
        rate_hz: 192_000,
        lna_gain_db: 20,
        filter_board: HpsdrFilterBoard::N2adr,
        invert_spectrum: false,
        pa_enable: true,
        io_rx_input: HpsdrIoRxInput::Radio,
    }
}

fn ep6(seq: u32, cc: [u8; 5], first: (i32, i32)) -> Vec<u8> {
    let mut d = vec![0u8; DATAGRAM_LEN];
    d[..4].copy_from_slice(&[0xEF, 0xFE, 0x01, 0x06]);
    d[4..8].copy_from_slice(&seq.to_be_bytes());
    for f in [8usize, 520] {
        d[f..f + 3].copy_from_slice(&[0x7F; 3]);
        d[f + 3..f + 8].copy_from_slice(&cc);
        d[f + 8..f + 11].copy_from_slice(&first.0.to_be_bytes()[1..]);
        d[f + 11..f + 14].copy_from_slice(&first.1.to_be_bytes()[1..]);
    }
    d
}

#[test]
fn a_link_follows_its_controls() {
    let mut link = Link::new(&hermes_lite(), 0);
    assert!(link.hermes_lite);
    assert_eq!(link.regs.rx_freq, START_HZ);
    assert_eq!(link.speed, 2);
    assert_eq!(link.regs.pa, Some(true));
    assert_eq!(link.regs.lna_gain, Some(20));

    assert!(link.on_ctrl(Ctrl::Attach { ddc: 0 }).attach);
    assert!(link.attached);
    link.on_ctrl(Ctrl::RxFreq { ddc: 0, hz: 14_074_000 });
    assert_eq!(link.regs.rx_freq, 14_074_000);
    link.on_ctrl(Ctrl::TxOn { hz: 14_075_000 });
    assert!(link.regs.ptt);
    assert_eq!(link.regs.tx_freq, 14_075_000);
    let off = link.on_ctrl(Ctrl::TxOff);
    assert!(!link.regs.ptt && off.drain_tx);
    assert!(link.on_ctrl(Ctrl::Detach { ddc: 0 }).detach);
    assert!(link.on_ctrl(Ctrl::Shutdown).stop);
}

#[test]
fn another_board_has_no_gain_register() {
    let mut cfg = hermes_lite();
    cfg.board = String::from("Hermes (ANAN-10/10E/100/100B)");
    let mut link = Link::new(&cfg, 0);
    assert!(!link.hermes_lite);
    assert_eq!(link.regs.lna_gain, None);
    assert_eq!(link.regs.pa, None);
    assert!(link.io_board.is_none());
    let d = link.priming_datagram();
    assert_eq!(d.len(), DATAGRAM_LEN);
    assert!(link.priming_count() >= 3);
}

#[test]
fn received_samples_come_out_the_right_way_up() {
    let mut cfg = hermes_lite();
    for invert in [false, true] {
        cfg.invert_spectrum = invert;
        let mut link = Link::new(&cfg, 0);
        let r = link.on_datagram(&ep6(5, [0; 5], (1000, -2000)), 10).expect("samples");
        assert_eq!(r.seq, 5);
        assert_eq!(r.samples.len(), VALUES_PER_DATAGRAM);
        assert_eq!(r.samples[0], 1000);
        assert_eq!(r.samples[1], if invert { 2000 } else { -2000 });
        assert!(link.seen_rx);
        assert!(link.on_datagram(&[1, 2, 3], 11).is_none());
    }
}

#[test]
fn a_silent_radio_is_warned_of_once() {
    let mut link = Link::new(&hermes_lite(), 0);
    assert!(!link.no_rx_warning(NO_RX_US - 1));
    assert!(link.no_rx_warning(NO_RX_US));
    assert!(!link.no_rx_warning(NO_RX_US + 1));
}

#[test]
fn the_ep2_clock_keeps_step() {
    let mut link = Link::new(&hermes_lite(), 0);
    assert!(link.ep2_due(0));
    let a = link.ep2(0, vec![]);
    assert_eq!(a.len(), DATAGRAM_LEN);
    assert!(!link.ep2_due(EP2_INTERVAL_US - 1));
    assert!(link.ep2_due(EP2_INTERVAL_US));
    link.ep2(EP2_INTERVAL_US + 100, vec![]);
    assert!(link.ep2_due(2 * EP2_INTERVAL_US), "a late frame does not push the next one back");
    assert_eq!(link.tx_wanted(), 0, "nothing to send while receiving");
    link.on_ctrl(Ctrl::TxOn { hz: 7_074_000 });
    assert_eq!(link.tx_wanted(), VALUES_PER_DATAGRAM);
}
