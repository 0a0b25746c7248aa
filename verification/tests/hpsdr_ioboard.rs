//! The N2ADR IO board on a Hermes-Lite 2. Times are in microseconds.

use sdroxide::hpsdr::ioboard::{
    freq_writes, hertz_to_code, HpsdrIoRxInput, IoBoard, Op, Presence, ACK_TIMEOUT_US, CC_I2C2,
    CC_RQST, CODE_FLOORS, FREQ_INTERVAL_US, I2C_READ, I2C_WRITE, IOB_ADDR, IOB_VERSION_ADDR,
    MAX_TRIES, PROBE_INTERVAL_US, PROBE_TRIES, RADDR_ERROR, REG_CONTROL, REG_FCODE_RX1,
    REG_RF_INPUTS, REG_TX_FREQ_BYTE0, REG_TX_FREQ_BYTE4,
};



/// A receive frequency for the tests that are not about the receive code.
/// Held fixed so it contributes exactly one write after the reset.
const RX_HZ: u64 = 14_074_000;

/// Answer the request `board` just made, as the gateware would.
fn ack(board: &mut IoBoard, now: u64, data: [u8; 4]) {
    board.on_ack(CC_I2C2 >> 1, data, now);
}

/// Take the board from cold to found, returning the probe it sent.
fn find(board: &mut IoBoard, now: u64) -> [u8; 5] {
    let probe =
        board.next_request(now, 14_074_000, RX_HZ, 0).expect("probes on the first poll");
    ack(board, now, [0xF1, 0, 0, 0]);
    probe
}

#[test]
fn probe_reads_the_version_register_and_then_resets_the_board() {
    let mut board = IoBoard::new(HpsdrIoRxInput::Radio);
    let now = 0u64;
    let probe = find(&mut board, now);
    assert_eq!(probe[0], CC_I2C2 | CC_RQST, "I2C bus 2, answer requested");
    assert_eq!(probe[1], I2C_READ);
    assert_eq!(probe[2], IOB_VERSION_ADDR);
    assert_eq!(board.presence, Presence::Present);

    // The first thing said to a board that has just been found is "clear
    // everything" — its registers survive whatever program ran last.
    let reset = board.next_request(now, 14_074_000, RX_HZ, 0).expect("resets the board");
    assert_eq!(reset[1], I2C_WRITE);
    assert_eq!(reset[2], IOB_ADDR);
    assert_eq!(reset[3], REG_CONTROL);
    assert_eq!(reset[4], 1);
}

/// `REG_RF_INPUTS` is the operator's answer to "what is wired to the board's
/// own SMA jacks", and only they know it. The reset writes 0, so only a
/// non-default choice costs a transaction.
#[test]
fn the_receive_input_mode_is_stated_only_when_it_is_not_the_default() {
    let now = 0u64;
    for (mode, code) in [(HpsdrIoRxInput::IoBoard, 1), (HpsdrIoRxInput::IoBoardPureSignal, 2)] {
        let mut board = IoBoard::new(mode);
        find(&mut board, now);
        let reset = board.next_request(now, RX_HZ, RX_HZ, 0).expect("the reset");
        ack(&mut board, now, [0; 4]);
        assert_eq!((reset[3], reset[4]), (REG_CONTROL, 1));
        let sel = board.next_request(now, RX_HZ, RX_HZ, 0).expect("the input mode");
        ack(&mut board, now, [0; 4]);
        assert_eq!((sel[3], sel[4]), (REG_RF_INPUTS, code), "{mode:?}");
    }
    // The default is what the reset already wrote, so nothing follows it but
    // the frequencies.
    let mut board = IoBoard::new(HpsdrIoRxInput::Radio);
    find(&mut board, now);
    board.next_request(now, RX_HZ, RX_HZ, 0).expect("the reset");
    ack(&mut board, now, [0; 4]);
    let next = board.next_request(now, RX_HZ, RX_HZ, 0).expect("straight to the frequency");
    assert_eq!(next[3], REG_TX_FREQ_BYTE4, "no redundant mode write");
}

/// The receive input follows the band, so it has to be movable
/// while running — written at once to a board already found, and to one
/// still being probed after the reset that would otherwise undo it.
#[test]
fn the_receive_input_can_be_moved_while_running() {
    let now = 0u64;
    let mut board = IoBoard::new(HpsdrIoRxInput::IoBoard);
    find(&mut board, now);
    board.next_request(now, RX_HZ, RX_HZ, 0).expect("the reset");
    ack(&mut board, now, [0; 4]);
    board.next_request(now, RX_HZ, RX_HZ, 0).expect("the input mode");
    ack(&mut board, now, [0; 4]);
    // The band changes to one kept on the radio's own jack.
    board.set_rx_input(HpsdrIoRxInput::Radio);
    let mut wrote = None;
    for _ in 0..10 {
        let Some(cc) = board.next_request(now, RX_HZ, RX_HZ, 0) else { break };
        ack(&mut board, now, [0; 4]);
        if cc[3] == REG_RF_INPUTS {
            wrote = Some(cc[4]);
            break;
        }
    }
    assert_eq!(wrote, Some(0), "the radio's own input is mode 0");
    // Setting what it already is costs nothing.
    board.set_rx_input(HpsdrIoRxInput::Radio);
    assert!(board.queue.iter().all(|op| op.reg != REG_RF_INPUTS));

    // Before the board is found, the choice waits for the start-up writes.
    let mut board = IoBoard::new(HpsdrIoRxInput::Radio);
    board.set_rx_input(HpsdrIoRxInput::IoBoard);
    find(&mut board, now);
    board.next_request(now, RX_HZ, RX_HZ, 0).expect("the reset");
    ack(&mut board, now, [0; 4]);
    let sel = board.next_request(now, RX_HZ, RX_HZ, 0).expect("the input mode");
    assert_eq!((sel[3], sel[4]), (REG_RF_INPUTS, 1));
}

#[test]
fn a_radio_without_an_io_board_gives_up_and_stays_quiet() {
    let mut board = IoBoard::new(HpsdrIoRxInput::Radio);
    let mut now = 0u64;
    for _ in 0..PROBE_TRIES {
        assert!(board.next_request(now, 14_074_000, RX_HZ, 0).is_some(), "probe");
        board.on_ack(RADDR_ERROR, [0, 0, 0, 0], now);
        now += PROBE_INTERVAL_US;
    }
    assert_eq!(board.presence, Presence::Absent);
    // And never touches the bus again, however long it runs or however far
    // the operator tunes.
    for _ in 0..50 {
        now += 1 * 1_000_000;
        assert_eq!(board.next_request(now, 7_074_000, RX_HZ, 0), None);
    }
}

#[test]
fn the_frequency_goes_out_big_endian_with_the_latching_byte_last() {
    let mut board = IoBoard::new(HpsdrIoRxInput::Radio);
    let mut now = 0u64;
    find(&mut board, now);
    board.next_request(now, 14_074_000, RX_HZ, 0); // the reset
    ack(&mut board, now, [0; 4]);

    let mut sent = Vec::new();
    for _ in 0..5 {
        let cc = board.next_request(now, 14_074_000, RX_HZ, 0).expect("a frequency byte");
        ack(&mut board, now, [0; 4]);
        sent.push((cc[3], cc[4]));
        now += 3 * 1_000;
    }
    // Registers 0..=4, most significant byte first, so BYTE0 — the write the
    // board acts on — is last.
    assert_eq!(
        sent,
        vec![
            (0, 0x00), // BYTE4: a 32-bit Hz value never reaches here
            (1, 0x00), // BYTE3
            (2, 0xD6), // 14_074_000 = 0x00_00D6C090
            (3, 0xC0),
            (4, 0x90), // BYTE0 latches
        ]
    );
    assert_eq!(sent[4].0, REG_TX_FREQ_BYTE0, "the latching write is last");

    // The receive code follows in the same batch, once.
    let rx = board.next_request(now, 14_074_000, RX_HZ, 0).expect("the receive code");
    ack(&mut board, now, [0; 4]);
    assert_eq!((rx[3], rx[4]), (REG_FCODE_RX1, hertz_to_code(RX_HZ)));

    // Nothing more to say while the dial sits still.
    now += FREQ_INTERVAL_US * 2;
    assert_eq!(board.next_request(now, 14_074_000, RX_HZ, 0), None);
}

/// The receive code is what the board picks an antenna and preselector on.
/// It is deduplicated on the *code*, and a code is 6.68 % wide — so tuning
/// around a band says nothing at all while moving to another says it once.
#[test]
fn the_receive_code_speaks_on_a_band_change_and_not_on_a_tune() {
    // Each amateur band is its own code, and adjacent bands never share
    // one, so a band change is always heard.
    let bands = [1_900_000, 3_650_000, 7_100_000, 14_175_000, 21_225_000, 28_500_000];
    for pair in bands.windows(2) {
        assert_ne!(hertz_to_code(pair[0]), hertz_to_code(pair[1]), "{pair:?} share a code");
    }
    // A code spans 6.68 %, but the boundaries sit where they sit rather
    // than on band edges, so a band can straddle two (20 m crosses one at
    // ~14.145 MHz). That costs at most one extra write mid-band and is
    // exactly as correct — the code still names where the receiver is.
    // What matters is that ordinary tuning is silent:
    assert_eq!(hertz_to_code(14_000_000), hertz_to_code(14_100_000));
    assert_eq!(hertz_to_code(7_000_000), hertz_to_code(7_200_000));
    // The rails: zero means "not specified", and nothing under-runs it.
    assert_eq!(hertz_to_code(0), 0);
    assert_eq!(hertz_to_code(1), 1, "below the curve's floor, still a valid code");
    assert_eq!(hertz_to_code(18_748), 1);
    // Quisk's own figures, to the code.
    assert_eq!(hertz_to_code(14_074_000), 102);
    assert_eq!(hertz_to_code(7_074_000), 92);

    let mut board = IoBoard::new(HpsdrIoRxInput::Radio);
    let mut now = 0u64;
    find(&mut board, now);
    // Drain the reset, the transmit frequency and the first receive code.
    for _ in 0..7 {
        board.next_request(now, 14_074_000, 14_074_000, 0).expect("startup traffic");
        ack(&mut board, now, [0; 4]);
    }
    // Tuning around 20 m: the transmit frequency is unchanged here, and the
    // receive code does not move either, so the bus stays silent.
    for hz in [14_000_000, 14_050_000, 14_100_000, 14_074_000] {
        now += FREQ_INTERVAL_US;
        assert_eq!(board.next_request(now, 14_074_000, hz, 0), None, "still 20 m at {hz}");
    }
    // Moving to 40 m says it, once.
    now += FREQ_INTERVAL_US;
    let cc = board.next_request(now, 14_074_000, 7_074_000, 0).expect("a band change");
    ack(&mut board, now, [0; 4]);
    assert_eq!((cc[3], cc[4]), (REG_FCODE_RX1, 92));
    now += FREQ_INTERVAL_US;
    assert_eq!(board.next_request(now, 14_074_000, 7_100_000, 0), None, "still 40 m");
}

#[test]
fn frequency_updates_are_rate_limited_but_never_lost() {
    let mut board = IoBoard::new(HpsdrIoRxInput::Radio);
    let mut now = 0u64;
    find(&mut board, now);
    board.next_request(now, 7_074_000, RX_HZ, 0); // the reset
    ack(&mut board, now, [0; 4]);

    // Drain the first frequency and the receive code that follows it.
    for _ in 0..6 {
        board.next_request(now, 7_074_000, RX_HZ, 0).expect("first frequency");
        ack(&mut board, now, [0; 4]);
    }

    // A band change inside the rate-limit window is held, not dropped...
    now += 50 * 1_000;
    assert_eq!(board.next_request(now, 14_074_000, RX_HZ, 0), None, "too soon");
    // ...and a second change on top of it simply replaces the first: what
    // goes out when the window opens is where the operator actually is.
    now += 50 * 1_000;
    assert_eq!(board.next_request(now, 21_074_000, RX_HZ, 0), None, "still too soon");
    now += FREQ_INTERVAL_US;
    let cc = board.next_request(now, 21_074_000, RX_HZ, 0).expect("the held change goes out");
    assert_eq!(cc[3], REG_TX_FREQ_BYTE4);
    ack(&mut board, now, [0; 4]);
    let mut bytes = vec![cc[4]];
    for _ in 0..4 {
        let cc = board.next_request(now, 21_074_000, RX_HZ, 0).expect("the rest");
        ack(&mut board, now, [0; 4]);
        bytes.push(cc[4]);
    }
    assert_eq!(u32::from_be_bytes(bytes[1..5].try_into().unwrap()), 21_074_000);
}

#[test]
fn an_unanswered_write_is_retried_and_then_re_sent_with_the_next_update() {
    let mut board = IoBoard::new(HpsdrIoRxInput::Radio);
    let mut now = 0u64;
    find(&mut board, now);
    board.next_request(now, 7_074_000, RX_HZ, 0); // the reset
    ack(&mut board, now, [0; 4]);

    let first = board.next_request(now, 7_074_000, RX_HZ, 0).expect("first frequency byte");
    // Nothing answers. It is re-sent, unchanged, up to the try limit.
    for _ in 1..MAX_TRIES {
        now += ACK_TIMEOUT_US;
        assert_eq!(
            board.next_request(now, 7_074_000, RX_HZ, 0),
            Some(first),
            "retried verbatim"
        );
    }
    // Then abandoned — and because the board's idea of the frequency is now
    // unknown, the next poll says it again rather than assuming it landed.
    now += ACK_TIMEOUT_US;
    let retry = board.next_request(now, 7_074_000, RX_HZ, 0).expect("says it again");
    assert_eq!(retry[3], REG_TX_FREQ_BYTE4, "starting from the top");
}

#[test]
fn the_mox_bit_rides_i2c_commands_like_every_other_register() {
    let mut board = IoBoard::new(HpsdrIoRxInput::Radio);
    let now = 0u64;
    let probe = board.next_request(now, 14_074_000, RX_HZ, 1).expect("probe");
    assert_eq!(probe[0] & 1, 1, "keyed");
    assert_eq!(probe[0] & !1, CC_I2C2 | CC_RQST);
}

#[test]
fn an_ack_for_someone_else_does_not_strand_our_request() {
    let mut board = IoBoard::new(HpsdrIoRxInput::Radio);
    let now = 0u64;
    board.next_request(now, 14_074_000, RX_HZ, 0).expect("probe");
    // An answer to an unrelated register must not be read as ours.
    board.on_ack(0x09, [0xF1, 0, 0, 0], now);
    assert_ne!(board.presence, Presence::Present, "that was not our answer");
    // The real one still lands.
    board.on_ack(CC_I2C2 >> 1, [0xF1, 0, 0, 0], now);
    assert_eq!(board.presence, Presence::Present);
}

#[test]
fn the_writes_spell_the_frequency() {
    for hz in [0u64, 1, 14_074_000, 10_368_900_000, 0xFF_FFFF_FFFF] {
        let ops = freq_writes(hz);
        let spelt = ops.iter().fold(0u64, |n, op| n * 256 + op.data as u64);
        assert_eq!(spelt, hz);
        let regs: Vec<u8> = ops.iter().map(|op| op.reg).collect();
        assert_eq!(regs, vec![0, 1, 2, 3, 4]);
        assert!(ops.iter().all(|op| op.cookie == I2C_WRITE && op.addr == IOB_ADDR));
    }
}

/// The codes against the curve they stand for: `15.47 * ln(hz / 18748.1)`,
/// rounded.
#[test]
fn the_code_floors_follow_the_curve() {
    let curve = |hz: u64| (15.47 * (hz as f64 / 18_748.1).ln()).round().clamp(1.0, 255.0) as u8;
    for hz in [20_000u64, 136_000, 475_000, 1_900_000, 7_074_000, 50_313_000, 144_200_000] {
        assert_eq!(hertz_to_code(hz), curve(hz), "{hz} Hz");
    }
    for (i, &f) in CODE_FLOORS.iter().enumerate() {
        assert_eq!(hertz_to_code(f), i as u8 + 2, "floor {f}");
        assert_eq!(curve(f), i as u8 + 2, "floor {f}");
        assert_eq!(curve(f - 1), i as u8 + 1, "just under {f}");
        assert_eq!(hertz_to_code(f - 1), i as u8 + 1, "just under {f}");
    }
    assert_eq!(hertz_to_code(u64::MAX), 255);
}

#[test]
fn a_code_spans_about_a_fifteenth() {
    for w in CODE_FLOORS.windows(2) {
        let ratio = w[1] as f64 / w[0] as f64;
        assert!((1.066..1.0675).contains(&ratio), "{ratio}");
    }
}

#[test]
fn a_command_carries_its_five_bytes() {
    let op = Op::write(13, 102);
    assert_eq!(op.cc(1), [0xFB, 0x06, 0x1D, 13, 102]);
    assert_eq!(HpsdrIoRxInput::IoBoardPureSignal.code(), 2);
}

/// Only one transaction is on the wire at a time.
#[test]
fn nothing_is_sent_while_an_answer_is_awaited() {
    let mut board = IoBoard::new(HpsdrIoRxInput::Radio);
    find(&mut board, 0);
    assert!(board.next_request(0, RX_HZ, RX_HZ, 0).is_some(), "the reset");
    for now in [0u64, 1_000, ACK_TIMEOUT_US - 1] {
        assert_eq!(board.next_request(now, RX_HZ, RX_HZ, 0), None);
    }
}

/// A version register that reads something else is no IO board.
#[test]
fn another_chip_at_that_address_is_not_the_board() {
    let mut board = IoBoard::new(HpsdrIoRxInput::Radio);
    board.next_request(0, RX_HZ, RX_HZ, 0).expect("probe");
    ack(&mut board, 0, [0x21, 0, 0, 0]);
    assert_ne!(board.presence, Presence::Present);
}
