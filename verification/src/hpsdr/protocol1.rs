//! OpenHPSDR Protocol 1 ("old protocol" / Metis / Ozy): enough for RX + SSB TX,
//! which covers Hermes-Lite 2 and legacy Metis/Hermes boards.
//!
//! Everything runs over UDP port 1024. Data datagrams are 1032 bytes:
//! `0xEF 0xFE 0x01 <endpoint>` + a 4-byte big-endian sequence, then two 512-byte
//! "OZY" frames. Each frame is `0x7F 0x7F 0x7F` + five command-and-control bytes
//! (C0..C4) + 504 bytes of data (63 samples of 8 bytes for one receiver).
//!
//! - RX (endpoint 6, radio to host): each sample is I (24-bit signed big-endian)
//!   + Q (24-bit) + mic (16-bit) = 8 bytes. EP6 arrives at the DDC rate.
//! - TX (endpoint 2, host to radio): each sample is L + R audio (16-bit) + TX I
//!   + TX Q (16-bit signed) = 8 bytes. EP2 is a **fixed 48 kHz** stream, so it
//!   must be paced by the clock, not by how fast EP6 comes back.
//!
//! The C0..C4 registers are round-robined on outgoing frames. C0 bit 0 is MOX
//! (PTT); C0 bits 7..1 are the register address. Frequencies are the actual
//! value in **Hz** (32-bit big-endian in C1..C4), not a phase word.
//!
//! Incoming EP6 frames carry C&C the other way: C0 bits 2..0 are the hardware
//! PTT/dash/dot lines and bits 7..3 select which sensor set C1..C4 hold.
//!
//! Samples are integers here: 24-bit received, 16-bit sent. Times are
//! microseconds of a monotonic clock.
use std::collections::VecDeque;
use vstd::prelude::*;

verus! {

pub const PORT: u16 = 1024;

/// Samples per 512-byte OZY frame for one receiver (504 data bytes / 8).
pub const SAMPLES_PER_FRAME: usize = 63;

/// Two frames per datagram: 126 sample-pairs = 252 interleaved values.
pub const VALUES_PER_DATAGRAM: usize = 252;

pub const DATAGRAM_LEN: usize = 1032;

/// EP2 is a fixed 48 kHz stream, so one datagram is due every
/// 126 / 48000 s = 2.625 ms no matter what the DDC rate is.
pub const EP2_INTERVAL_US: u64 = 2_625;

/// C0 register bytes (address already shifted into bits 7..1; OR in the MOX
/// bit 0).
/// Frame #1 of every datagram: C1[1:0]=rate, C4=duplex|rx-count.
pub const CC_CONFIG: u8 = 0x00;

/// C1..C4 = TX NCO frequency (Hz).
pub const CC_TX_FREQ: u8 = 0x02;

/// C1..C4 = RX1 NCO frequency (Hz).
pub const CC_RX1_FREQ: u8 = 0x04;

/// C1 = TX drive level 0..255.
pub const CC_DRIVE: u8 = 0x12;

/// Register `0x09`, C2 bit 3. On a Hermes-Lite it switches the **onboard power
/// amplifier** on. With it clear the board still keys and puts out nothing at
/// the antenna jack. Every other Protocol 1 board reads this bit as an Apollo
/// tuner command, so it is only ever sent to a Hermes-Lite.
pub const HL2_PA_ON: u8 = 0x08;

/// Register `0x09`, C2 bit 2: with the PA off, hold the T/R relay in receive so
/// the antenna connector stays on the receiver.
pub const HL2_TR_RX_ONLY: u8 = 0x04;

/// Register 0x0A. On a Hermes-Lite 2 its C4 is the AD9866 front-end gain: bit 6
/// marks the field valid, bits 5..0 are `dB + 12`. Only ever sent to a
/// Hermes-Lite.
pub const CC_HL2_GAIN: u8 = 0x14;

/// C4 bit that tells a Hermes-Lite the gain field below it is meaningful.
pub const HL2_GAIN_VALID: u8 = 0x40;

/// Fixed TX drive; the engine already scales the I/Q amplitude in software.
pub const TX_DRIVE: u8 = 255;

/// Config C4: duplex on (bit 2) so RX keeps streaming during TX, plus
/// `(receivers - 1) << 3` in bits 5:3; one receiver is 0.
pub const CONFIG_C4: u8 = 0x04;

/// The lowest and highest front-end gain of a Hermes-Lite, in dB.
pub const LNA_GAIN_MIN_DB: i32 = -12;

pub const LNA_GAIN_MAX_DB: i32 = 48;

/// How long a transmit fault stays quiet after it was warned about.
pub const WARN_INTERVAL_US: u64 = 5_000_000;

/// How long to wait for the first I/Q before flagging a silent radio.
pub const NO_RX_US: u64 = 3_000_000;

// ---------------------------------------------------------------------------
// Registers
// ---------------------------------------------------------------------------

/// The code of a sample rate.
pub open spec fn speed(rate_hz: int) -> int {
    if rate_hz <= 48_000 {
        0
    } else if rate_hz <= 96_000 {
        1
    } else if rate_hz <= 192_000 {
        2
    } else {
        3
    }
}

/// Sample-rate code for the config register (48/96/192/384 kHz is 0..3).
pub fn speed_code(rate_hz: u32) -> (r: u8)
    ensures
        r == (if rate_hz <= 48_000 {
            0u8
        } else if rate_hz <= 96_000 {
            1u8
        } else if rate_hz <= 192_000 {
            2u8
        } else {
            3u8
        }),
        r == speed(rate_hz as int),
{
    if rate_hz <= 48_000 {
        0
    } else if rate_hz <= 96_000 {
        1
    } else if rate_hz <= 192_000 {
        2
    } else {
        3
    }
}

/// The gain field of a gain in dB: `dB + 12`, held within -12 to +48 dB.
pub open spec fn gain_code(db: int) -> int {
    if db < -12 {
        0
    } else if db > 48 {
        60
    } else {
        db + 12
    }
}

/// The gain field of a gain in dB. It never runs into the valid bit.
pub fn lna_gain_code(db: i32) -> (r: u8)
    ensures
        r == gain_code(db as int),
        r <= 60,
{
    if db < LNA_GAIN_MIN_DB {
        0
    } else if db > LNA_GAIN_MAX_DB {
        60
    } else {
        (db + 12) as u8
    }
}

/// The config register with its open-collector outputs.
pub open spec fn config_block(speed: u8, mox: u8, oc: u8) -> Seq<u8> {
    seq![0u8 | mox, speed, (oc & 0x7F) << 1, 0u8, 0x04u8]
}

/// The config register (C0 address 0), sent as frame #1 of *every* datagram:
/// C1 = sample-rate code, C2 = the open-collector outputs, C4 = duplex |
/// receiver-count.
///
/// `oc` is the seven open-collector lines as the accessory board sees them (bit
/// 0 = output 1). In the Hermes-Lite's 32-bit view of this register they live
/// at bits [23:17], which is C2 bits [7:1], hence the shift.
pub fn config_cc(speed: u8, mox: u8, oc: u8) -> (r: [u8; 5])
    ensures
        r@ == config_block(speed, mox, oc),
{
    let r: [u8; 5] = [CC_CONFIG | mox, speed, (oc & 0x7F) << 1, 0, CONFIG_C4];
    assert(r@ =~= config_block(speed, mox, oc));
    r
}

/// The low-pass filter of the N2ADR board that passes a frequency: 160 m, 80 m,
/// 60/40 m, 30/20 m, 17/15 m, 12/10 m.
pub open spec fn n2adr_filter(hz: u32) -> u8 {
    if hz <= 2_000_000 {
        1
    } else if hz <= 4_000_000 {
        2
    } else if hz <= 7_300_000 {
        4
    } else if hz <= 14_350_000 {
        8
    } else if hz <= 21_450_000 {
        16
    } else {
        32
    }
}

/// Open-collector byte for the N2ADR filter board when tuned to `freq_hz`.
///
/// The board selects one-hot: bit 0 = 160 m LPF, 1 = 80 m, 2 = 60/40 m, 3 =
/// 30/20 m, 4 = 17/15 m, 5 = 12/10 m, and bit 6 is a 3 MHz high-pass used on
/// receive to keep broadcast AM out of the front end. The board switches that
/// high-pass out itself while transmitting. Frequencies between the ham bands
/// pick the lowest filter that still passes them.
pub fn n2adr_oc(freq_hz: u32) -> (r: u8)
    ensures
        r == n2adr_filter(freq_hz) + (if freq_hz >= 3_000_000 {
            64int
        } else {
            0int
        }),
{
    let lpf: u8 = if freq_hz <= 2_000_000 {
        1
    } else if freq_hz <= 4_000_000 {
        2
    } else if freq_hz <= 7_300_000 {
        4
    } else if freq_hz <= 14_350_000 {
        8
    } else if freq_hz <= 21_450_000 {
        16
    } else {
        32
    };
    if freq_hz >= 3_000_000 {
        lpf + 64
    } else {
        lpf
    }
}

/// The band code of an Alex-style board.
pub open spec fn alex_band(hz: u32) -> u8 {
    if hz < 2_750_000 {
        0x01
    } else if hz < 4_650_000 {
        0x02
    } else if hz < 6_200_000 {
        0x00
    } else if hz < 8_700_000 {
        0x03
    } else if hz < 12_100_000 {
        0x04
    } else if hz < 16_200_000 {
        0x05
    } else if hz < 19_600_000 {
        0x06
    } else if hz < 23_200_000 {
        0x07
    } else if hz < 26_500_000 {
        0x08
    } else if hz < 39_900_000 {
        0x09
    } else {
        0x0A
    }
}

/// Open-collector byte for an Alex-style filter board when tuned to `freq_hz`:
/// the band as a four-bit number on outputs 1 to 4. 160 m is 1 and the code
/// counts upwards by band, except 60 m, which is 0, because that is what the
/// boards expect.
///
/// Between the bands the boundary sits in the middle of the gap, and everything
/// below 160 m and above 10 m is carried by the band at that end.
pub fn alex_oc(freq_hz: u32) -> (r: u8)
    ensures
        r == alex_band(freq_hz),
        r <= 0x0A,
{
    if freq_hz < 2_750_000 {
        0x01  // 160 m
    } else if freq_hz < 4_650_000 {
        0x02  // 80 m
    } else if freq_hz < 6_200_000 {
        0x00  // 60 m: no pins, by the board's table
    } else if freq_hz < 8_700_000 {
        0x03  // 40 m
    } else if freq_hz < 12_100_000 {
        0x04  // 30 m
    } else if freq_hz < 16_200_000 {
        0x05  // 20 m
    } else if freq_hz < 19_600_000 {
        0x06  // 17 m
    } else if freq_hz < 23_200_000 {
        0x07  // 15 m
    } else if freq_hz < 26_500_000 {
        0x08  // 12 m
    } else if freq_hz < 39_900_000 {
        0x09  // 10 m
    } else {
        0x0A  // 6 m
    }
}

/// The accessory filter board.
#[derive(Clone, Copy, Debug, PartialEq, Eq, Structural)]
pub enum HpsdrFilterBoard {
    /// There is none.
    Absent,
    N2adr,
    Alex,
}

/// A frequency register: the frequency in Hz, big-endian.
pub open spec fn freq_block(addr: u8, freq: u32, mox: u8) -> Seq<u8> {
    seq![
        addr | mox,
        (freq / 0x100_0000 % 0x100) as u8,
        (freq / 0x1_0000 % 0x100) as u8,
        (freq / 0x100 % 0x100) as u8,
        (freq % 0x100) as u8,
    ]
}

pub fn freq_cc(addr: u8, freq: u32, mox: u8) -> (r: [u8; 5])
    ensures
        r@ == freq_block(addr, freq, mox),
{
    let r: [u8; 5] = [
        addr | mox,
        (freq / 0x100_0000 % 0x100) as u8,
        (freq / 0x1_0000 % 0x100) as u8,
        (freq / 0x100 % 0x100) as u8,
        (freq % 0x100) as u8,
    ];
    assert(r@ =~= freq_block(addr, freq, mox));
    r
}

/// Everything the rotating register slots need. `lna_gain` and `pa` are `None`
/// on boards whose Hermes-Lite-specific register fields we must not touch.
#[derive(Clone, Copy, Debug, PartialEq, Eq, Structural)]
pub struct Regs {
    pub rx_freq: u32,
    pub tx_freq: u32,
    /// The front-end gain in dB.
    pub lna_gain: Option<i32>,
    /// `Some(true)` to run the Hermes-Lite's onboard PA, `Some(false)` to leave
    /// it off and keep the antenna jack on receive, `None` on a board that is
    /// not a Hermes-Lite.
    pub pa: Option<bool>,
    pub filter_board: HpsdrFilterBoard,
    pub ptt: bool,
}

/// Rotating-register slots, sent one per datagram in frame #2. At the EP2 rate a
/// full rotation takes about 10 ms, so a changed value is also queued as urgent
/// (see [`Rotation::urge`]) rather than waiting its turn.
#[derive(Clone, Copy, Debug, PartialEq, Eq, Structural)]
pub enum Slot {
    TxFreq,
    RxFreq,
    Drive,
    LnaGain,
}

impl Regs {
    /// The open-collector outputs.
    pub open spec fn outputs(self) -> int {
        let hz = if self.ptt {
            self.tx_freq
        } else {
            self.rx_freq
        };
        match self.filter_board {
            HpsdrFilterBoard::Absent => 0,
            HpsdrFilterBoard::N2adr => n2adr_filter(hz) + (if hz >= 3_000_000 {
                64int
            } else {
                0int
            }),
            HpsdrFilterBoard::Alex => alex_band(hz) as int,
        }
    }

    /// The seven open-collector outputs for the attached accessory board, or 0
    /// when none is configured. Follows the transmit frequency while keyed (the
    /// low-pass filter has to match what is actually going out) and the receive
    /// frequency otherwise.
    pub fn oc(&self) -> (r: u8)
        ensures
            r == self.outputs(),
    {
        let freq: u32 = if self.ptt {
            self.tx_freq
        } else {
            self.rx_freq
        };
        match self.filter_board {
            HpsdrFilterBoard::Absent => 0,
            HpsdrFilterBoard::N2adr => n2adr_oc(freq),
            HpsdrFilterBoard::Alex => alex_oc(freq),
        }
    }

    /// C2 of the drive register.
    pub open spec fn drive_bits(self) -> u8 {
        match self.pa {
            Some(on) => if on {
                0x08
            } else {
                0x04
            },
            None => 0,
        }
    }

    /// C2 of the drive register (`0x09`). On a Hermes-Lite it carries the PA and
    /// T/R-relay bits; on anything else it stays zero: those bits are Apollo
    /// tuner/filter commands there.
    ///
    /// The PA state is asserted continuously rather than only while keyed: the
    /// board must already know the answer at the moment MOX arrives.
    pub fn drive_c2(&self) -> (r: u8)
        ensures
            r == self.drive_bits(),
    {
        match self.pa {
            Some(on) => if on {
                HL2_PA_ON
            } else {
                HL2_TR_RX_ONLY
            },
            None => 0,
        }
    }

    /// The slots this board has, in rotation order.
    pub open spec fn slot_list(self) -> Seq<Slot> {
        if self.lna_gain is Some {
            seq![Slot::TxFreq, Slot::RxFreq, Slot::Drive, Slot::LnaGain]
        } else {
            seq![Slot::TxFreq, Slot::RxFreq, Slot::Drive]
        }
    }

    /// The slots this board actually has, in rotation order.
    pub fn slots(&self) -> (r: Vec<Slot>)
        ensures
            r@ == self.slot_list(),
    {
        let mut v: Vec<Slot> = Vec::new();
        v.push(Slot::TxFreq);
        v.push(Slot::RxFreq);
        v.push(Slot::Drive);
        if self.lna_gain.is_some() {
            v.push(Slot::LnaGain);
        }
        assert(v@ =~= self.slot_list());
        v
    }

    pub open spec fn mox(self) -> u8 {
        if self.ptt {
            1
        } else {
            0
        }
    }

    /// The five C&C bytes of a slot.
    pub open spec fn block(self, slot: Slot) -> Seq<u8> {
        match slot {
            Slot::TxFreq => freq_block(0x02, self.tx_freq, self.mox()),
            Slot::RxFreq => freq_block(0x04, self.rx_freq, self.mox()),
            Slot::Drive => seq![0x12u8 | self.mox(), 255u8, self.drive_bits(), 0u8, 0u8],
            Slot::LnaGain => {
                let db = match self.lna_gain {
                    Some(g) => g as int,
                    None => 0,
                };
                seq![0x14u8 | self.mox(), 0u8, 0u8, 0u8, 0x40u8 | (gain_code(db) as u8)]
            },
        }
    }

    /// Encode one slot as its five C&C bytes, with the MOX bit riding along.
    pub fn cc(&self, slot: Slot) -> (r: [u8; 5])
        ensures
            r@ == self.block(slot),
    {
        let mox: u8 = if self.ptt {
            1
        } else {
            0
        };
        match slot {
            Slot::TxFreq => freq_cc(CC_TX_FREQ, self.tx_freq, mox),
            Slot::RxFreq => freq_cc(CC_RX1_FREQ, self.rx_freq, mox),
            Slot::Drive => {
                let r: [u8; 5] = [CC_DRIVE | mox, TX_DRIVE, self.drive_c2(), 0, 0];
                assert(r@ =~= self.block(slot));
                r
            },
            Slot::LnaGain => {
                let code: u8 = lna_gain_code(
                    match self.lna_gain {
                        Some(g) => g,
                        None => 0,
                    },
                );
                let r: [u8; 5] = [CC_HL2_GAIN | mox, 0, 0, 0, HL2_GAIN_VALID | code];
                assert(r@ =~= self.block(slot));
                r
            },
        }
    }
}

/// Every register that goes out says whether the radio is keyed, in the lowest
/// bit of its first byte, and leaves the address alone.
pub proof fn the_mox_bit_rides_every_register(regs: Regs, slot: Slot)
    ensures
        regs.block(slot)[0] & 1 == regs.mox(),
        regs.block(slot)[0] & 0xFE == (match slot {
            Slot::TxFreq => 0x02u8,
            Slot::RxFreq => 0x04u8,
            Slot::Drive => 0x12u8,
            Slot::LnaGain => 0x14u8,
        }),
{
    let m = regs.mox();
    assert(m <= 1 ==> (0x02u8 | m) & 1 == m && (0x02u8 | m) & 0xFE == 0x02 && (0x04u8 | m) & 1 == m
        && (0x04u8 | m) & 0xFE == 0x04 && (0x12u8 | m) & 1 == m && (0x12u8 | m) & 0xFE == 0x12 && (
    0x14u8 | m) & 1 == m && (0x14u8 | m) & 0xFE == 0x14) by (bit_vector);
}

/// Conjugated: every second value negated.
pub open spec fn conjugated(iq: Seq<i32>) -> Seq<i32> {
    Seq::new(
        iq.len(),
        |i: int|
            if i % 2 == 1 {
                (-iq[i]) as i32
            } else {
                iq[i]
            },
    )
}

/// Conjugate interleaved I/Q in place (negate every Q), which mirrors the
/// spectrum about the tuned frequency. Applied to receive and transmit alike so
/// the two directions cannot end up on opposite sidebands.
pub fn conjugate(iq: &mut Vec<i32>)
    requires
        forall|i: int| 0 <= i < old(iq)@.len() ==> #[trigger] old(iq)@[i] > i32::MIN,
    ensures
        final(iq)@ == conjugated(old(iq)@),
{
    let ghost before = iq@;
    let mut i: usize = 0;
    while i < iq.len()
        invariant
            i <= iq@.len(),
            iq@.len() == before.len(),
            forall|k: int| 0 <= k < before.len() ==> #[trigger] before[k] > i32::MIN,
            forall|k: int| 0 <= k < i ==> #[trigger] iq@[k] == conjugated(before)[k],
            forall|k: int| i <= k < before.len() ==> #[trigger] iq@[k] == before[k],
        decreases before.len() - i,
    {
        if i % 2 == 1 {
            let q: i32 = iq[i];
            assert(before[i as int] > i32::MIN);
            iq.set(i, -q);
        }
        i = i + 1;
    }
    assert(iq@ =~= conjugated(before));
}

/// Conjugating twice is the identity.
pub proof fn conjugation_is_an_involution(iq: Seq<i32>)
    requires
        forall|i: int| 0 <= i < iq.len() ==> #[trigger] iq[i] > i32::MIN,
    ensures
        conjugated(conjugated(iq)) == iq,
{
    assert forall|i: int| 0 <= i < iq.len() implies conjugated(conjugated(iq))[i] == iq[i] by {
        assert(iq[i] > i32::MIN);
    }
    assert(conjugated(conjugated(iq)) =~= iq);
}

// ---------------------------------------------------------------------------
// Outgoing datagrams
// ---------------------------------------------------------------------------

/// A 16-bit sample in two's complement.
pub open spec fn sample_word(v: i16) -> int {
    if v < 0 {
        v + 0x1_0000
    } else {
        v as int
    }
}

/// A sample, or silence where there is none.
pub open spec fn sample_at(iq: Seq<i16>, i: int) -> i16 {
    if 0 <= i < iq.len() {
        iq[i]
    } else {
        0
    }
}

/// One 512-byte OZY frame: sync, C&C, and 63 TX samples (zero audio + I/Q).
pub open spec fn ozy_frame(cc: Seq<u8>, iq: Seq<i16>) -> Seq<u8> {
    Seq::new(
        512,
        |k: int|
            if k < 3 {
                0x7Fu8
            } else if k < 8 {
                cc[k - 3]
            } else {
                let s = (k - 8) / 8;
                let o = (k - 8) % 8;
                if o == 4 {
                    (sample_word(sample_at(iq, 2 * s)) / 0x100) as u8
                } else if o == 5 {
                    (sample_word(sample_at(iq, 2 * s)) % 0x100) as u8
                } else if o == 6 {
                    (sample_word(sample_at(iq, 2 * s + 1)) / 0x100) as u8
                } else if o == 7 {
                    (sample_word(sample_at(iq, 2 * s + 1)) % 0x100) as u8
                } else {
                    0u8
                }
            },
    )
}

fn word_of(v: i16) -> (r: u16)
    ensures
        r == sample_word(v),
{
    if v < 0 {
        (v as i32 + 0x1_0000) as u16
    } else {
        v as u16
    }
}

fn sample_or_silence(iq: &[i16], i: usize) -> (r: i16)
    ensures
        r == sample_at(iq@, i as int),
{
    if i < iq.len() {
        iq[i]
    } else {
        0
    }
}

/// Append one 512-byte OZY frame: sync + C&C + 63 TX samples (zero audio + I/Q)
/// starting at value `from`.
pub fn write_ozy_frame(out: &mut Vec<u8>, cc: [u8; 5], tx_iq: &[i16], from: usize)
    requires
        from <= 0x1000,
    ensures
        final(out)@ == old(out)@ + ozy_frame(cc@, tail_from(tx_iq@, from as int)),
{
    let ghost before = out@;
    let ghost iq = tail_from(tx_iq@, from as int);
    let ghost want = ozy_frame(cc@, iq);
    out.push(0x7F);
    out.push(0x7F);
    out.push(0x7F);
    out.push(cc[0]);
    out.push(cc[1]);
    out.push(cc[2]);
    out.push(cc[3]);
    out.push(cc[4]);
    assert(out@ =~= before + want.take(8));
    let mut s: usize = 0;
    while s < SAMPLES_PER_FRAME
        invariant
            s <= 63,
            from <= 0x1000,
            iq == tail_from(tx_iq@, from as int),
            want == ozy_frame(cc@, iq),
            out@ == before + want.take(8 + 8 * s),
        decreases 63 - s,
    {
        // Four bytes of L/R audio, left zero.
        let i: u16 = word_of(sample_or_silence(tx_iq, from + 2 * s));
        let q: u16 = word_of(sample_or_silence(tx_iq, from + 2 * s + 1));
        let ghost o0 = out@;
        out.push(0);
        out.push(0);
        out.push(0);
        out.push(0);
        out.push((i / 0x100) as u8);
        out.push((i % 0x100) as u8);
        out.push((q / 0x100) as u8);
        out.push((q % 0x100) as u8);
        proof {
            let k = 8 + 8 * s;
            assert(sample_at(iq, 2 * s) == sample_at(tx_iq@, from + 2 * s));
            assert(sample_at(iq, 2 * s + 1) == sample_at(tx_iq@, from + 2 * s + 1));
            assert forall|j: int| 0 <= j < 8 implies #[trigger] out@[o0.len() + j] == want[k + j] by {
                assert((k + j - 8) / 8 == s && (k + j - 8) % 8 == j);
            }
            assert(out@ =~= before + want.take(k + 8)) by {
                assert(out@.len() == before.len() + k + 8);
                assert forall|n: int| 0 <= n < out@.len() implies out@[n] == (before + want.take(
                    k + 8,
                ))[n] by {
                    if n >= o0.len() {
                        let j = n - o0.len();
                        assert(out@[o0.len() + j] == want[k + j]);
                    } else {
                        assert(out@[n] == o0[n]);
                    }
                }
            }
        }
        s = s + 1;
    }
    assert(want.take(512) =~= want);
}

/// What is left of the samples from `from` on.
pub open spec fn tail_from(iq: Seq<i16>, from: int) -> Seq<i16> {
    if from <= iq.len() {
        iq.skip(from)
    } else {
        Seq::empty()
    }
}

/// An EP2 (host to radio) datagram.
pub open spec fn ep2_datagram(
    seq: u32,
    speed: u8,
    mox: u8,
    oc: u8,
    cc: Seq<u8>,
    iq: Seq<i16>,
) -> Seq<u8> {
    seq![
        0xEFu8,
        0xFEu8,
        0x01u8,
        0x02u8,
        (seq / 0x100_0000 % 0x100) as u8,
        (seq / 0x1_0000 % 0x100) as u8,
        (seq / 0x100 % 0x100) as u8,
        (seq % 0x100) as u8,
    ] + ozy_frame(config_block(speed, mox, oc), iq) + ozy_frame(cc, tail_from(iq, 126))
}

/// Build an EP2 (host to radio) datagram: frame #1 is always the config
/// register, frame #2 carries `cc`, the next rotating register. Both frames also
/// carry 63 TX samples.
pub fn build_ep2(seq: &mut u32, speed: u8, mox: u8, oc: u8, cc: [u8; 5], tx_iq: &[i16]) -> (d: Vec<
    u8,
>)
    ensures
        d@ == ep2_datagram(*old(seq), speed, mox, oc, cc@, tx_iq@),
        d@.len() == 1032,
        *final(seq) == (if *old(seq) == u32::MAX {
            0u32
        } else {
            (*old(seq) + 1) as u32
        }),
{
    let mut d: Vec<u8> = Vec::new();
    let n: u32 = *seq;
    d.push(0xEF);
    d.push(0xFE);
    d.push(0x01);
    d.push(0x02);  // EP2
    d.push((n / 0x100_0000 % 0x100) as u8);
    d.push((n / 0x1_0000 % 0x100) as u8);
    d.push((n / 0x100 % 0x100) as u8);
    d.push((n % 0x100) as u8);
    *seq = n.wrapping_add(1);
    let ghost head = seq![
        0xEFu8,
        0xFEu8,
        0x01u8,
        0x02u8,
        (n / 0x100_0000 % 0x100) as u8,
        (n / 0x1_0000 % 0x100) as u8,
        (n / 0x100 % 0x100) as u8,
        (n % 0x100) as u8,
    ];
    assert(d@ =~= head);
    assert(tail_from(tx_iq@, 0) =~= tx_iq@);
    // Frame #1: config register + TX samples 0..63.
    write_ozy_frame(&mut d, config_cc(speed, mox, oc), tx_iq, 0);
    // Frame #2: rotating register + TX samples 63..126.
    write_ozy_frame(&mut d, cc, tx_iq, 2 * SAMPLES_PER_FRAME);
    d
}

/// Whether this is a start or stop command.
pub open spec fn is_start_command(run: bool, d: Seq<u8>) -> bool {
    d == seq![
        0xEFu8,
        0xFE,
        0x04,
        if run {
            1
        } else {
            0
        },
    ] + Seq::new(60, |i: int| 0u8)
}

/// Metis start/stop command: `0xEF 0xFE 0x04 <run>` padded to 64 bytes. `run`
/// bit 0 starts the EP6 I/Q stream.
pub fn start_command(run: bool) -> (r: [u8; 64])
    ensures
        r@[0] == 0xEF && r@[1] == 0xFE && r@[2] == 0x04,
        r@[3] == (if run {
            1u8
        } else {
            0u8
        }),
        forall|i: int| 4 <= i < 64 ==> #[trigger] r@[i] == 0,
        is_start_command(run, r@),
{
    let mut c: [u8; 64] = [0;64];
    c[0] = 0xEF;
    c[1] = 0xFE;
    c[2] = 0x04;
    c[3] = if run {
        0x01
    } else {
        0x00
    };
    assert(c@ =~= seq![
        0xEFu8,
        0xFE,
        0x04,
        if run {
            1
        } else {
            0
        },
    ] + Seq::new(60, |i: int| 0u8));
    c
}

// ---------------------------------------------------------------------------
// Register rotation
// ---------------------------------------------------------------------------

/// Picks which rotating register frame #2 carries. Values the operator just
/// changed jump the queue: at 381 datagrams/s a plain round-robin would take up
/// to about 10 ms to reach the radio, which is felt as lag on the tuning knob.
pub struct Rotation {
    pub next: u64,
    pub urgent: VecDeque<Slot>,
}

/// The urgent queue with a slot in it once.
pub open spec fn urged(queue: Seq<Slot>, slot: Slot) -> Seq<Slot> {
    if queue.contains(slot) {
        queue
    } else {
        queue.push(slot)
    }
}

impl Rotation {
    pub fn new() -> (r: Rotation)
        ensures
            r.next == 0,
            r.urgent@.len() == 0,
    {
        Rotation { next: 0, urgent: VecDeque::new() }
    }

    /// Send `slot` on the next datagram (de-duplicated: a knob being turned
    /// queues the same slot over and over).
    pub fn urge(&mut self, slot: Slot)
        ensures
            final(self).next == old(self).next,
            final(self).urgent@ == urged(old(self).urgent@, slot),
    {
        let n: usize = self.urgent.len();
        let mut i: usize = 0;
        while i < n
            invariant
                i <= n,
                n == self.urgent@.len(),
                *self == *old(self),
                forall|k: int| 0 <= k < i ==> #[trigger] self.urgent@[k] != slot,
            decreases n - i,
        {
            if self.urgent[i] == slot {
                assert(self.urgent@[i as int] == slot);
                return;
            }
            i = i + 1;
        }
        self.urgent.push_back(slot);
    }

    /// The slot for this datagram: an urgent one first, else the next in turn.
    pub fn take(&mut self, regs: &Regs) -> (r: Slot)
        ensures
            old(self).urgent@.len() > 0 ==> {
                &&& r == old(self).urgent@[0]
                &&& final(self).urgent@ == old(self).urgent@.drop_first()
                &&& final(self).next == old(self).next
            },
            old(self).urgent@.len() == 0 ==> {
                &&& r == regs.slot_list()[old(self).next as int % regs.slot_list().len() as int]
                &&& final(self).urgent@ == old(self).urgent@
                &&& final(self).next == (if old(self).next == u64::MAX {
                    0
                } else {
                    old(self).next + 1
                })
            },
    {
        match self.urgent.pop_front() {
            Some(s) => {
                return s;
            },
            None => {},
        }
        let slots: Vec<Slot> = regs.slots();
        let s: Slot = slots[(self.next % slots.len() as u64) as usize];
        self.next = self.next.wrapping_add(1);
        s
    }
}

/// A full turn of the rotation, wherever it stands, visits every slot the board
/// has, and no other.
pub proof fn a_turn_visits_every_slot(regs: Regs, next: int, slot: Slot)
    requires
        next >= 0,
    ensures
        regs.slot_list().contains(slot) <==> exists|i: int|
            0 <= i < regs.slot_list().len() && #[trigger] regs.slot_list()[(next + i)
                % regs.slot_list().len() as int] == slot,
{
    let list = regs.slot_list();
    let n = list.len() as int;
    if list.contains(slot) {
        let k = choose|k: int| 0 <= k < n && list[k] == slot;
        let r = next % n;
        let i = if k >= r {
            k - r
        } else {
            k - r + n
        };
        let q = next / n;
        assert(next == n * q + r) by {
            vstd::arithmetic::div_mod::lemma_fundamental_div_mod(next, n);
        }
        assert((next + i) % n == k) by {
            let q2 = if k >= r {
                q
            } else {
                q + 1
            };
            assert(next + i == q2 * n + k) by (nonlinear_arith)
                requires
                    next == n * q + r,
                    (k >= r && i == k - r && q2 == q) || (k < r && i == k - r + n && q2 == q + 1),
            ;
            vstd::arithmetic::div_mod::lemma_fundamental_div_mod_converse(next + i, n, q2, k);
        }
        assert(list[(next + i) % n] == slot);
    }
    if exists|i: int| 0 <= i < n && #[trigger] list[(next + i) % n] == slot {
        let i = choose|i: int| 0 <= i < n && #[trigger] list[(next + i) % n] == slot;
        assert(0 <= (next + i) % n < n);
        assert(list.contains(slot));
    }
}

// ---------------------------------------------------------------------------
// Incoming datagrams
// ---------------------------------------------------------------------------

/// A 24-bit big-endian sample in two's complement.
pub open spec fn be24(a: u8, b: u8, c: u8) -> int {
    0x1_0000 * a + 0x100 * b + c - (if a >= 0x80 {
        0x100_0000int
    } else {
        0int
    })
}

/// A 24-bit big-endian sample in two's complement.
pub fn be24_to_i32(a: u8, b: u8, c: u8) -> (r: i32)
    ensures
        r == be24(a, b, c),
        -0x80_0000 <= r < 0x80_0000,
{
    let v: i32 = 0x1_0000 * a as i32 + 0x100 * b as i32 + c as i32;
    if a >= 0x80 {
        v - 0x100_0000
    } else {
        v
    }
}

/// What an EP6 datagram told us besides I/Q.
pub struct Ep6Info {
    /// Datagram sequence number, for loss detection.
    pub seq: u32,
    /// The radio's own PTT line (hardware PTT, foot switch, mic button).
    pub ptt: bool,
    /// ADC clipped since the last report: the front-end gain is too high.
    pub adc_overload: bool,
    /// A Hermes-Lite acknowledging a request we marked RQST: the address it
    /// echoed and the four data bytes with it. Only the I2C tunnel asks for
    /// these.
    pub ack: Option<(u8, [u8; 4])>,
    /// `(C1, C2, C3, C4)` of a status-set-0 frame: the firmware/gateware
    /// version bytes.
    pub versions: Option<(u8, u8, u8, u8)>,
}

/// An [`Ep6Info`] as a value.
pub struct Ep6State {
    pub seq: u32,
    pub ptt: bool,
    pub adc_overload: bool,
    pub ack: Option<(u8, Seq<u8>)>,
    pub versions: Option<(u8, u8, u8, u8)>,
}

impl View for Ep6Info {
    type V = Ep6State;

    open spec fn view(&self) -> Ep6State {
        Ep6State {
            seq: self.seq,
            ptt: self.ptt,
            adc_overload: self.adc_overload,
            ack: match self.ack {
                Some((a, d)) => Some((a, d@)),
                None => None,
            },
            versions: self.versions,
        }
    }
}

impl Ep6State {
    /// With the five C&C bytes of one more frame taken in.
    pub open spec fn with_status(self, cc: Seq<u8>) -> Ep6State {
        let ptt = self.ptt || cc[0] & 0x01 != 0;
        if cc[0] & 0x80 != 0 {
            Ep6State { ptt, ack: Some(((cc[0] >> 1) & 0x3F, cc.subrange(1, 5))), ..self }
        } else if (cc[0] >> 3) & 0x1F == 0 {
            Ep6State {
                ptt,
                adc_overload: self.adc_overload || cc[1] & 0x01 != 0,
                versions: Some((cc[1], cc[2], cc[3], cc[4])),
                ..self
            }
        } else {
            Ep6State { ptt, ..self }
        }
    }
}

/// Decode the five C&C bytes at the head of a radio-to-host frame.
///
/// C0 bit 0 is the radio's PTT line either way. What the rest means depends on
/// C0 bit 7, the Hermes-Lite's ACK flag:
///
/// - **Clear**: the ordinary rotating status. Bits 7..3 select which sensor set
///   C1..C4 carry; only set 0 is interpreted here, holding the ADC-overload flag
///   and the version bytes.
/// - **Set**: an answer to a request we marked RQST. Bits 6..1 are the address
///   being answered and C1..C4 are its data.
pub fn decode_ep6_status(cc: &[u8], info: &mut Ep6Info)
    requires
        cc@.len() >= 5,
    ensures
        final(info)@ == old(info)@.with_status(cc@),
{
    if cc[0] & 0x01 != 0 {
        info.ptt = true;
    }
    if cc[0] & 0x80 != 0 {
        let data: [u8; 4] = [cc[1], cc[2], cc[3], cc[4]];
        assert(data@ =~= cc@.subrange(1, 5));
        info.ack = Some(((cc[0] >> 1) & 0x3F, data));
    } else if (cc[0] >> 3) & 0x1F == 0 {
        if cc[1] & 0x01 != 0 {
            info.adc_overload = true;
        }
        info.versions = Some((cc[1], cc[2], cc[3], cc[4]));
    }
}

/// Whether a datagram is EP6 I/Q.
pub open spec fn is_ep6(d: Seq<u8>) -> bool {
    d.len() >= 1032 && d[0] == 0xEF && d[1] == 0xFE && d[2] == 0x01 && d[3] == 0x06
}

/// Whether an OZY frame begins at `at`.
pub open spec fn is_synced(d: Seq<u8>, at: int) -> bool {
    d[at] == 0x7F && d[at + 1] == 0x7F && d[at + 2] == 0x7F
}

/// The samples of the frame at `at`, I and Q in turn.
pub open spec fn frame_values(d: Seq<u8>, at: int) -> Seq<i32> {
    Seq::new(
        126,
        |k: int|
            {
                let b = at + 8 + 8 * (k / 2) + 3 * (k % 2);
                be24(d[b], d[b + 1], d[b + 2]) as i32
            },
    )
}

/// The samples of a datagram: those of the frames that are in sync.
pub open spec fn ep6_values(d: Seq<u8>) -> Seq<i32> {
    (if is_synced(d, 8) {
        frame_values(d, 8)
    } else {
        Seq::empty()
    }) + (if is_synced(d, 520) {
        frame_values(d, 520)
    } else {
        Seq::empty()
    })
}

/// What the C&C bytes of a datagram say.
pub open spec fn ep6_state(d: Seq<u8>) -> Ep6State {
    let start = Ep6State {
        seq: (0x100_0000 * d[4] + 0x1_0000 * d[5] + 0x100 * d[6] + d[7]) as u32,
        ptt: false,
        adc_overload: false,
        ack: None,
        versions: None,
    };
    let first = if is_synced(d, 8) {
        start.with_status(d.subrange(11, 16))
    } else {
        start
    };
    if is_synced(d, 520) {
        first.with_status(d.subrange(523, 528))
    } else {
        first
    }
}

/// The samples of the frame at `at`, after what is already there.
fn push_frame_values(d: &[u8], at: usize, out: &mut Vec<i32>)
    requires
        at + 512 <= d@.len(),
        at <= 520,
    ensures
        final(out)@ == old(out)@ + frame_values(d@, at as int),
{
    let ghost before = out@;
    let ghost want = frame_values(d@, at as int);
    let mut s: usize = 0;
    assert(before + want.take(0) =~= before);
    while s < SAMPLES_PER_FRAME
        invariant
            s <= 63,
            at + 512 <= d@.len(),
            at <= 520,
            want == frame_values(d@, at as int),
            out@ == before + want.take(2 * s),
        decreases 63 - s,
    {
        let b: usize = at + 8 + s * 8;
        out.push(be24_to_i32(d[b], d[b + 1], d[b + 2]));
        out.push(be24_to_i32(d[b + 3], d[b + 4], d[b + 5]));
        proof {
            let k = 2 * s as int;
            assert(k / 2 == s && k % 2 == 0 && (k + 1) / 2 == s && (k + 1) % 2 == 1);
            assert(out@ =~= before + want.take(k + 2));
        }
        s = s + 1;
    }
    assert(want.take(126) =~= want);
}

/// Decode an EP6 (radio to host) datagram, appending interleaved I,Q samples.
/// Returns `None` if the datagram is not a valid EP6 frame.
pub fn decode_ep6(d: &[u8], out: &mut Vec<i32>) -> (r: Option<Ep6Info>)
    ensures
        r is Some <==> is_ep6(d@),
        r matches Some(info) ==> info@ == ep6_state(d@) && final(out)@ == old(out)@ + ep6_values(d@),
        r is None ==> final(out)@ == old(out)@,
{
    if d.len() < DATAGRAM_LEN || d[0] != 0xEF || d[1] != 0xFE || d[2] != 0x01 || d[3] != 0x06 {
        return None;
    }
    let ghost before = out@;
    let mut info = Ep6Info {
        seq: 0x100_0000 * d[4] as u32 + 0x1_0000 * d[5] as u32 + 0x100 * d[6] as u32 + d[7] as u32,
        ptt: false,
        adc_overload: false,
        ack: None,
        versions: None,
    };
    if d[8] == 0x7F && d[9] == 0x7F && d[10] == 0x7F {
        decode_ep6_status(vstd::slice::slice_subrange(d, 11, 16), &mut info);
        push_frame_values(d, 8, out);
    }
    if d[520] == 0x7F && d[521] == 0x7F && d[522] == 0x7F {
        decode_ep6_status(vstd::slice::slice_subrange(d, 523, 528), &mut info);
        push_frame_values(d, 520, out);
    }
    assert(out@ =~= before + ep6_values(d@));
    Some(info)
}

// ---------------------------------------------------------------------------
// Transmit health
// ---------------------------------------------------------------------------

/// Rate limiter for the two Hermes-Lite transmit faults worth shouting about.
/// Both can be reported on every datagram, 381 of them a second, so each gets
/// its own five-second gate rather than a shared one, which would let a noisy
/// fault hide a quiet one.
#[derive(Clone, Copy, Debug, PartialEq, Eq, Structural)]
pub struct TxHealth {
    pub last_inhibit_warn: Option<u64>,
    pub last_fifo_warn: Option<u64>,
}

/// Whether a warning given at `last` may be given again.
pub open spec fn warn_due(last: Option<u64>, now: u64) -> bool {
    match last {
        None => true,
        Some(t) => now - t >= 5_000_000,
    }
}

impl Default for TxHealth {
    fn default() -> (r: Self)
        ensures
            r.last_inhibit_warn is None && r.last_fifo_warn is None,
    {
        TxHealth { last_inhibit_warn: None, last_fifo_warn: None }
    }
}

impl TxHealth {
    /// Whether `slot` has gone quiet long enough to warn again, stamping it if
    /// so.
    pub fn due(slot: &mut Option<u64>, now: u64) -> (r: bool)
        ensures
            r == warn_due(*old(slot), now),
            *final(slot) == (if r {
                Some(now)
            } else {
                *old(slot)
            }),
    {
        let quiet: bool = match *slot {
            None => true,
            Some(t) => now >= t && now - t >= WARN_INTERVAL_US,
        };
        if quiet {
            *slot = Some(now);
        }
        quiet
    }
}

/// What is wrong with the transmit FIFO.
#[derive(Clone, Copy, Debug, PartialEq, Eq, Structural)]
pub enum FifoFault {
    /// EP2 datagrams are not reaching the board at 48 kHz, so the transmitted
    /// signal is being chopped.
    Underrun,
    /// EP2 datagrams arrive faster than 48 kHz and samples are discarded.
    Overflow,
}

/// What to warn about.
#[derive(Clone, Copy, Debug, PartialEq, Eq, Structural)]
pub struct TxWarnings {
    /// Something is holding the external TX-inhibit input low: the board will
    /// key and make no power until that is released.
    pub inhibited: bool,
    pub fifo: Option<FifoFault>,
}

/// Whether a status was warned about as it should be: what is wrong, once in five
/// seconds each.
pub open spec fn warned(
    c1: u8,
    c3: u8,
    keyed: bool,
    was: TxHealth,
    now: u64,
    w: TxWarnings,
    after: TxHealth,
) -> bool {
    &&& w.inhibited == (c1 / 2 % 2 == 0 && warn_due(was.last_inhibit_warn, now))
    &&& w.fifo is Some == (keyed && c3 >= 128 && warn_due(was.last_fifo_warn, now))
    &&& w.fifo is Some ==> w.fifo->0 == (if c3 / 64 % 2 == 0 {
        FifoFault::Underrun
    } else {
        FifoFault::Overflow
    })
    &&& after.last_inhibit_warn == (if w.inhibited {
        Some(now)
    } else {
        was.last_inhibit_warn
    })
    &&& after.last_fifo_warn == (if w.fifo is Some {
        Some(now)
    } else {
        was.last_fifo_warn
    })
}

/// Interpret a Hermes-Lite's status set 0 for the two things that decide
/// whether a transmission is actually going out. Fields are from the Hermes-Lite
/// 2 protocol document, quoted here in its 32-bit register view: C1 is
/// `RDATA[31:24]`, C3 is `RDATA[15:8]`.
///
/// - `RDATA[25]`: TX inhibited, **active low**.
/// - `RDATA[15]`: TX I/Q FIFO under/overflow recovery, with `RDATA[14]` choosing
///   between them (`0` under, `1` over). The FIFO legitimately sits empty until
///   the first over, so this is only a fault while keyed.
pub fn hl2_status(c1: u8, c3: u8, keyed: bool, health: &mut TxHealth, now: u64) -> (r: TxWarnings)
    ensures
        ({
            let inhibit = c1 & 0x02 == 0;
            let fifo = keyed && c3 & 0x80 != 0;
            &&& r.inhibited == (inhibit && warn_due(old(health).last_inhibit_warn, now))
            &&& r.fifo == (if fifo && warn_due(old(health).last_fifo_warn, now) {
                Some(
                    if c3 & 0x40 == 0 {
                        FifoFault::Underrun
                    } else {
                        FifoFault::Overflow
                    },
                )
            } else {
                None
            })
            &&& final(health).last_inhibit_warn == (if r.inhibited {
                Some(now)
            } else {
                old(health).last_inhibit_warn
            })
            &&& final(health).last_fifo_warn == (if r.fifo is Some {
                Some(now)
            } else {
                old(health).last_fifo_warn
            })
        }),
        warned(c1, c3, keyed, *old(health), now, r, *final(health)),
{
    assert((c1 & 0x02 == 0 <==> c1 / 2 % 2 == 0) && (c3 & 0x80 != 0 <==> c3 >= 128) && (c3 & 0x40
        == 0 <==> c3 / 64 % 2 == 0)) by (bit_vector);
    let inhibited: bool = c1 & 0x02 == 0 && TxHealth::due(&mut health.last_inhibit_warn, now);
    let fifo: Option<FifoFault> = if keyed && c3 & 0x80 != 0 && TxHealth::due(
        &mut health.last_fifo_warn,
        now,
    ) {
        if c3 & 0x40 == 0 {
            Some(FifoFault::Underrun)
        } else {
            Some(FifoFault::Overflow)
        }
    } else {
        None
    };
    TxWarnings { inhibited, fifo }
}

} // verus!
