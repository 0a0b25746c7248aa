//! The N2ADR **HL2IOBoard**: a Raspberry Pi Pico on the Hermes-Lite 2's
//! accessory connector that switches bands for an external amplifier, a
//! transverter or a loop antenna.
//!
//! The board cannot see either frequency, so the host has to tell it. Its
//! documentation asks a host for four things:
//!
//! - **Reset** (`REG_CONTROL`) once at startup, since the board's registers are
//!   static and outlive the program that last set them.
//! - **The transmit frequency**, which is what an amplifier switches bands on.
//! - **The receive frequency**, as a one-byte code, which the board uses to
//!   choose a receive antenna and preselector.
//! - **`REG_RF_INPUTS`**, whether the board's own SMA jacks replace the radio's
//!   receive input.
//!
//! Protocol 1 has no direct path to an accessory board, so the Hermes-Lite
//! tunnels I2C through its C&C registers. Register `0x3D` is I2C bus 2, and one
//! C&C block carries exactly one one-byte I2C transaction:
//!
//! | byte | meaning |
//! |------|---------|
//! | C0   | `0x3D << 1`, plus the MOX bit and the RQST bit (see below) |
//! | C1   | `0x06` to write, `0x07` to read |
//! | C2   | the 7-bit I2C address of the target |
//! | C3   | the register inside that target |
//! | C4   | the byte to write (unused for a read) |
//!
//! Setting RQST (C0 bit 7) makes the gateware answer, echoing the address, or
//! address `0x3F` when the transaction failed. Only one such request may be
//! outstanding at a time. Times here are microseconds of a monotonic clock.
use std::collections::VecDeque;
use vstd::prelude::*;

verus! {

/// C&C address `0x3D`, I2C bus 2, already shifted into C0's address field. The
/// MOX bit (0) and RQST bit (7) are OR'd in per datagram.
pub const CC_I2C2: u8 = 0x7A;

/// C0 bit 7: "acknowledge this one". The Hermes-Lite calls it RQST.
pub const CC_RQST: u8 = 0x80;

/// The address the gateware answers with for I2C bus 2.
pub const RADDR_I2C2: u8 = 0x3D;

/// The address the gateware answers with when the transaction failed.
pub const RADDR_ERROR: u8 = 0x3F;

/// C1 cookies for the I2C tunnel.
pub const I2C_WRITE: u8 = 0x06;

pub const I2C_READ: u8 = 0x07;

/// The board's Pico listens here. Distinct from a filter board's `0x20`, so the
/// two accessories coexist on the one bus.
pub const IOB_ADDR: u8 = 0x1D;

/// A read-only hardware-version register, answered by the board itself rather
/// than by the Pico's firmware, so it identifies the board even if the Pico is
/// unprogrammed or wedged.
pub const IOB_VERSION_ADDR: u8 = 0x41;

/// That register reads back `0xF` in the top nibble and the hardware version in
/// the bottom. Matching only the top nibble means a later revision is still
/// recognized.
pub const IOB_VERSION_MASK: u8 = 0xF0;

/// The transmit frequency is a five-byte big-endian integer in Hz spread over
/// registers 0..=4. Writing **BYTE0 last** is what latches it.
pub const REG_TX_FREQ_BYTE4: u8 = 0;

pub const REG_TX_FREQ_BYTE0: u8 = 4;

/// Writing 1 here returns every register to zero.
pub const REG_CONTROL: u8 = 5;

/// Where the board takes its receive signal from.
pub const REG_RF_INPUTS: u8 = 11;

/// Receiver 1's frequency, as a one-byte *code* rather than a frequency.
/// Protocol 1 carries exactly one receiver, so only this one is ever written.
pub const REG_FCODE_RX1: u8 = 13;

/// How long to wait for an ACK before sending the request again.
pub const ACK_TIMEOUT_US: u64 = 150_000;

/// Attempts per transaction before it is abandoned.
pub const MAX_TRIES: u8 = 3;

/// Minimum spacing between frequency updates. The board's documentation asks
/// for at most one every half second, since an operator spinning the dial would
/// otherwise flood the I2C bus.
pub const FREQ_INTERVAL_US: u64 = 500_000;

/// Probes before concluding there is no IO board on this radio.
pub const PROBE_TRIES: u8 = 3;

/// Gap between those probes.
pub const PROBE_INTERVAL_US: u64 = 500_000;

/// Where the board takes its receive signal from: the radio's own input, the
/// board's own J9 SMA, or J9 with the J10 PureSignal jack switched in on
/// transmit.
#[derive(Clone, Copy, Debug, PartialEq, Eq, Structural)]
pub enum HpsdrIoRxInput {
    Radio,
    IoBoard,
    IoBoardPureSignal,
}

impl HpsdrIoRxInput {
    /// The value of `REG_RF_INPUTS`.
    pub open spec fn mode(self) -> u8 {
        match self {
            HpsdrIoRxInput::Radio => 0,
            HpsdrIoRxInput::IoBoard => 1,
            HpsdrIoRxInput::IoBoardPureSignal => 2,
        }
    }

    /// The value of `REG_RF_INPUTS`.
    pub fn code(&self) -> (r: u8)
        ensures
            r == self.mode(),
    {
        match self {
            HpsdrIoRxInput::Radio => 0,
            HpsdrIoRxInput::IoBoard => 1,
            HpsdrIoRxInput::IoBoardPureSignal => 2,
        }
    }
}

/// One I2C transaction: read or write, one byte either way.
#[derive(Clone, Copy, Debug, PartialEq, Eq, Structural)]
pub struct Op {
    pub cookie: u8,
    pub addr: u8,
    pub reg: u8,
    pub data: u8,
}

/// A write to a register of the board's Pico.
pub open spec fn write_op(reg: u8, data: u8) -> Op {
    Op { cookie: 0x06, addr: 0x1D, reg, data }
}

/// The read of the version register.
pub open spec fn probe_op() -> Op {
    Op { cookie: 0x07, addr: 0x41, reg: 0, data: 0 }
}

impl Op {
    pub fn write(reg: u8, data: u8) -> (r: Op)
        ensures
            r == write_op(reg, data),
    {
        Op { cookie: I2C_WRITE, addr: IOB_ADDR, reg, data }
    }

    /// The five C&C bytes of the transaction.
    pub open spec fn block(self, mox: u8) -> Seq<u8> {
        seq![0x7Au8 | 0x80 | mox, self.cookie, self.addr, self.reg, self.data]
    }

    /// The five C&C bytes that carry this transaction, with `mox` riding along
    /// as it does on every other outgoing register.
    ///
    /// C2 is the bare 7-bit I2C address. Its top bit selects stop-at-end versus
    /// continue and is not currently used by the gateware.
    pub fn cc(&self, mox: u8) -> (r: [u8; 5])
        ensures
            r@ == self.block(mox),
    {
        let r: [u8; 5] = [CC_I2C2 | CC_RQST | mox, self.cookie, self.addr, self.reg, self.data];
        assert(r@ =~= self.block(mox));
        r
    }
}

/// The lowest frequency, in Hz, of each code from 2 on: where
/// `15.47 ln(hz / 18748.1)` reaches the code less one half.
pub const CODE_FLOORS: [u64; 254] = [
    20_658, 22_037, 23_508, 25_078, 26_753, 28_539, 30_445, 32_478, 34_647, 36_960, 39_428,
    42_061, 44_870, 47_866, 51_062, 54_472, 58_109, 61_989, 66_129, 70_545, 75_255, 80_280,
    85_641, 91_360, 97_461, 103_969, 110_911, 118_318, 126_218, 134_647, 143_638, 153_229,
    163_461, 174_377, 186_021, 198_443, 211_694, 225_830, 240_910, 256_997, 274_158, 292_466,
    311_995, 332_829, 355_054, 378_763, 404_056, 431_037, 459_820, 490_525, 523_280, 558_223,
    595_499, 635_264, 677_685, 722_938, 771_213, 822_712, 877_649, 936_255, 998_775, 1_065_469,
    1_136_617, 1_212_516, 1_293_483, 1_379_857, 1_471_999, 1_570_293, 1_675_152, 1_787_012,
    1_906_342, 2_033_640, 2_169_439, 2_314_306, 2_468_847, 2_633_707, 2_809_576, 2_997_189,
    3_197_330, 3_410_835, 3_638_598, 3_881_570, 4_140_766, 4_417_271, 4_712_240, 5_026_906,
    5_362_583, 5_720_676, 6_102_682, 6_510_196, 6_944_922, 7_408_678, 7_903_402, 8_431_161,
    8_994_162, 9_594_758, 10_235_460, 10_918_946, 11_648_072, 12_425_886, 13_255_640, 14_140_802,
    15_085_072, 16_092_396, 17_166_986, 18_313_332, 19_536_228, 20_840_784, 22_232_453,
    23_717_052, 25_300_788, 26_990_279, 28_792_589, 30_715_250, 32_766_298, 34_954_309,
    37_288_426, 39_778_407, 42_434_659, 45_268_286, 48_291_132, 51_515_832, 54_955_866,
    58_625_612, 62_540_410, 66_716_623, 71_171_708, 75_924_287, 80_994_226, 86_402_716,
    92_172_364, 98_327_288, 104_893_215, 111_897_589, 119_369_689, 127_340_748, 135_844_085,
    144_915_242, 154_592_137, 164_915_218, 175_927_637, 187_675_423, 200_207_682, 213_576_798,
    227_838_654, 243_052_862, 259_283_019, 276_596_964, 295_067_069, 314_770_538, 335_789_731,
    358_212_507, 382_132_592, 407_649_969, 434_871_302, 463_910_372, 494_888_563, 527_935_360,
    563_188_899, 600_796_536, 640_915_469, 683_713_395, 729_369_205, 778_073_738, 830_030_577,
    885_456_898, 944_584_380, 1_007_660_174, 1_074_947_932, 1_146_728_913, 1_223_303_159,
    1_304_990_744, 1_392_133_120, 1_485_094_535, 1_584_263_565, 1_690_054_729, 1_802_910_230,
    1_923_301_796, 2_051_732_659, 2_188_739_652, 2_334_895_457, 2_490_810_997, 2_657_137_991,
    2_834_571_676, 3_023_853_715, 3_225_775_297, 3_441_180_443, 3_670_969_535, 3_916_103_079,
    4_177_605_719, 4_456_570_522, 4_754_163_546, 5_071_628_713, 5_410_293_011, 5_771_572_037,
    6_156_975_918, 6_568_115_621, 7_006_709_688, 7_474_591_417, 7_973_716_529, 8_506_171_340,
    9_074_181_481, 9_680_121_204, 10_326_523_303, 11_016_089_705, 11_751_702_757, 12_536_437_284,
    13_373_573_432, 14_266_610_385, 15_219_280_988, 16_235_567_352, 17_319_717_498,
    18_476_263_115, 19_710_038_500, 21_026_200_767, 22_430_251_401, 23_928_059_258,
    25_525_885_092, 27_230_407_728, 29_048_751_977, 30_988_518_418, 33_057_815_169,
    35_265_291_778, 37_620_175_375, 40_132_309_244, 42_812_193_969, 45_671_031_320,
    48_720_771_080, 51_974_160_996, 55_444_800_058, 59_147_195_348, 63_096_822_676,
    67_310_191_267, 71_804_912_772, 76_599_774_879, 81_714_819_851, 87_171_428_294,
    92_992_408_535, 99_202_091_950, 105_826_434_677, 112_893_126_105, 120_431_704_619,
    128_473_681_062, 137_052_670_456, 146_204_532_508, 155_967_521_499, 166_382_446_188,
    177_492_840_391, 189_345_144_947, 201_988_901_839, 215_476_961_279, 229_865_702_618,
    245_215_270_005, 261_589_823_791,
];

/// The board's one-byte logarithmic frequency code for a frequency.
pub open spec fn is_code(hz: u64, code: u8) -> bool {
    if hz == 0 {
        code == 0
    } else {
        &&& code >= 1
        &&& code > 1 ==> hz >= CODE_FLOORS@[code - 2]
        &&& code < 255 ==> hz < CODE_FLOORS@[code - 1]
    }
}

pub proof fn lemma_floors_rise(i: int, j: int)
    requires
        0 <= i < j < 254,
    ensures
        CODE_FLOORS@[i] < CODE_FLOORS@[j],
    decreases j - i,
{
    if i + 1 < j {
        lemma_floors_rise(i, j - 1);
    }
    a_code_spans_one_fifteenth(j - 1);
}

/// A frequency has exactly one code.
pub proof fn lemma_code_unique(hz: u64, a: u8, b: u8)
    requires
        is_code(hz, a),
        is_code(hz, b),
    ensures
        a == b,
{
    if a < b {
        if a - 1 < b - 2 {
            lemma_floors_rise(a - 1, b - 2);
        }
    } else if b < a {
        if b - 1 < a - 2 {
            lemma_floors_rise(b - 1, a - 2);
        }
    }
}

/// Each step of the code is 6.68 % wide, so that ordinary tuning within a band
/// does not change it while a move to another band does.
#[verifier::spinoff_prover]
#[verifier::rlimit(60)]
pub proof fn a_code_spans_one_fifteenth(i: int)
    requires
        0 <= i < 253,
    ensures
        CODE_FLOORS@[i] < CODE_FLOORS@[i + 1],
        10_667 * CODE_FLOORS@[i] <= 10_000 * CODE_FLOORS@[i + 1] + 10_000,
        10_000 * CODE_FLOORS@[i + 1] <= 10_669 * CODE_FLOORS@[i] + 10_000,
{
}

/// The code of a frequency.
pub open spec fn code_of(hz: u64) -> u8 {
    choose|c: u8| is_code(hz, c)
}

/// The board's one-byte logarithmic frequency code:
/// `round(15.47 ln(hz / 18748.1))`, clamped to `1..=255`, with `0` reserved for
/// "not specified".
///
/// Each step is 6.68 %, so an entire amateur band lands on one or two codes,
/// which is the point: deduplicating on the *code* rather than the frequency
/// means a spun dial puts nothing at all on the I2C bus while a band change
/// always does.
pub fn hertz_to_code(hz: u64) -> (r: u8)
    ensures
        is_code(hz, r),
        r == code_of(hz),
{
    let mut c: usize = 0;
    if hz > 0 {
        while c < 254 && hz >= CODE_FLOORS[c]
            invariant
                c <= 254,
                c > 0 ==> hz >= CODE_FLOORS@[c - 1],
            decreases 254 - c,
        {
            c = c + 1;
        }
        c = c + 1;
    }
    let r: u8 = c as u8;
    proof {
        assert(is_code(hz, r));
        lemma_code_unique(hz, r, code_of(hz));
    }
    r
}

/// Byte `i` of a frequency, counted from the most significant of the low five.
pub open spec fn freq_byte(hz: u64, i: int) -> u8 {
    if i == 0 {
        (hz / 0x1_0000_0000 % 0x100) as u8
    } else if i == 1 {
        (hz / 0x100_0000 % 0x100) as u8
    } else if i == 2 {
        (hz / 0x1_0000 % 0x100) as u8
    } else if i == 3 {
        (hz / 0x100 % 0x100) as u8
    } else {
        (hz % 0x100) as u8
    }
}

/// The writes that hand a frequency to the board: registers 0 to 4 in order,
/// so that the one that latches comes last.
pub open spec fn freq_ops(hz: u64) -> Seq<Op> {
    Seq::new(5, |i: int| write_op(i as u8, freq_byte(hz, i)))
}

/// The five register writes that hand `hz` to the board, **BYTE0 last**: that
/// write is what makes the board act on the frequency, so the other four have
/// to already be in place.
pub fn freq_writes(hz: u64) -> (r: [Op; 5])
    ensures
        r@ == freq_ops(hz),
{
    let r: [Op; 5] = [
        Op::write(REG_TX_FREQ_BYTE4, (hz / 0x1_0000_0000 % 0x100) as u8),
        Op::write(REG_TX_FREQ_BYTE4 + 1, (hz / 0x100_0000 % 0x100) as u8),
        Op::write(REG_TX_FREQ_BYTE4 + 2, (hz / 0x1_0000 % 0x100) as u8),
        Op::write(REG_TX_FREQ_BYTE4 + 3, (hz / 0x100 % 0x100) as u8),
        Op::write(REG_TX_FREQ_BYTE0, (hz % 0x100) as u8),
    ];
    assert(r@ =~= freq_ops(hz));
    r
}

/// The bytes written spell the frequency, up to 2^40 Hz.
pub proof fn freq_writes_spell_the_frequency(hz: u64)
    requires
        hz < 0x100_0000_0000,
    ensures
        freq_ops(hz)[4].reg == 4,
        0x1_0000_0000 * freq_ops(hz)[0].data + 0x100_0000 * freq_ops(hz)[1].data + 0x1_0000
            * freq_ops(hz)[2].data + 0x100 * freq_ops(hz)[3].data + freq_ops(hz)[4].data == hz,
{
    let h4 = hz as int / 0x1_0000_0000;
    let h3 = hz as int / 0x100_0000;
    let h2 = hz as int / 0x1_0000;
    let h1 = hz as int / 0x100;
    assert(h4 == h3 / 0x100 && h3 == h2 / 0x100 && h2 == h1 / 0x100);
    assert(h4 % 0x100 == h4);
    assert(h3 == 0x100 * h4 + h3 % 0x100);
    assert(h2 == 0x100 * h3 + h2 % 0x100);
    assert(h1 == 0x100 * h2 + h1 % 0x100);
    assert(hz == 0x100 * h1 + hz as int % 0x100);
}

/// Whether this radio has an IO board on it.
#[derive(Clone, Copy, Debug, PartialEq, Eq, Structural)]
pub enum Presence {
    /// Still asking, with this many probes left.
    Probing(u8),
    Present,
    /// Nothing answered; stop talking to the bus.
    Absent,
}

/// A transaction on the wire, waiting to be acknowledged.
#[derive(Clone, Copy, Debug, PartialEq, Eq, Structural)]
pub struct InFlight {
    pub op: Op,
    pub sent_at: u64,
    pub tries: u8,
}

/// Drives one HL2IOBoard: finds it, resets it, and keeps it told of the
/// transmit frequency.
pub struct IoBoard {
    pub presence: Presence,
    /// Which input the operator has wired the board for, stated once after the
    /// reset. Only the connection knows this; the board itself comes up at 0.
    pub rx_input: HpsdrIoRxInput,
    pub inflight: Option<InFlight>,
    pub queue: VecDeque<Op>,
    /// The transmit frequency the board has been told, so an unchanged dial is
    /// silent.
    pub sent_hz: Option<u64>,
    /// The receive frequency *code* it has been told.
    pub sent_rx_code: Option<u8>,
    /// When the last frequency went out, for the half-second rate limit. Shared
    /// by both directions: it exists to keep the I2C bus quiet.
    pub sent_at: Option<u64>,
    /// When the next probe may go out.
    pub probe_at: Option<u64>,
}

/// The state of an [`IoBoard`].
pub struct BoardState {
    pub presence: Presence,
    pub rx_input: HpsdrIoRxInput,
    pub inflight: Option<InFlight>,
    pub queue: Seq<Op>,
    pub sent_hz: Option<u64>,
    pub sent_rx_code: Option<u8>,
    pub sent_at: Option<u64>,
    pub probe_at: Option<u64>,
}

/// A board that has not been looked for yet.
pub open spec fn fresh_board(rx_input: HpsdrIoRxInput) -> BoardState {
    BoardState {
        presence: Presence::Probing(3),
        rx_input,
        inflight: None,
        queue: Seq::empty(),
        sent_hz: None,
        sent_rx_code: None,
        sent_at: None,
        probe_at: None,
    }
}

impl View for IoBoard {
    type V = BoardState;

    open spec fn view(&self) -> BoardState {
        BoardState {
            presence: self.presence,
            rx_input: self.rx_input,
            inflight: self.inflight,
            queue: self.queue@,
            sent_hz: self.sent_hz,
            sent_rx_code: self.sent_rx_code,
            sent_at: self.sent_at,
            probe_at: self.probe_at,
        }
    }
}

/// The latest time that can be handled, in microseconds.
pub const MAX_TIME_US: u64 = 0xFFFF_FFFF_FFFF_0000 - 1_000_000;

pub open spec fn time_ok(t: u64) -> bool {
    t <= MAX_TIME_US
}

impl BoardState {
    /// What holds of every state: a radio without a board is left alone, and
    /// no transaction is tried too often.
    pub open spec fn wf(self) -> bool {
        &&& self.presence matches Presence::Probing(left) ==> 1 <= left <= 3
        &&& self.presence == Presence::Absent ==> self.inflight is None && self.queue.len() == 0
        &&& self.inflight matches Some(f) ==> f.tries < 3 && time_ok(f.sent_at)
        &&& self.sent_at matches Some(t) ==> time_ok(t)
    }

    /// A probe came to nothing.
    pub open spec fn probe_failed(self, now: u64) -> BoardState {
        match self.presence {
            Presence::Probing(left) => BoardState {
                queue: Seq::empty(),
                probe_at: Some((now + 500_000) as u64),
                presence: if left <= 1 {
                    Presence::Absent
                } else {
                    Presence::Probing((left - 1) as u8)
                },
                ..self
            },
            _ => self,
        }
    }

    /// A transaction will not complete. The rest of the sequence is abandoned
    /// with it, and the frequencies count as never sent.
    pub open spec fn gave_up(self, now: u64) -> BoardState {
        match self.presence {
            Presence::Probing(left) => self.probe_failed(now),
            _ => BoardState {
                queue: Seq::empty(),
                sent_hz: None,
                sent_rx_code: None,
                sent_at: None,
                ..self
            },
        }
    }

    /// Whether a frequency update would come too soon.
    pub open spec fn too_soon(self, now: u64) -> bool {
        self.sent_at matches Some(t) && now < t + 500_000
    }

    /// Whatever there is to say has been queued.
    pub open spec fn refilled(self, now: u64, tx_hz: u64, rx_hz: u64) -> BoardState {
        if self.queue.len() > 0 {
            self
        } else {
            match self.presence {
                Presence::Probing(left) => if self.probe_at is None || now >= self.probe_at->0 {
                    BoardState {
                        probe_at: Some((now + 500_000) as u64),
                        queue: seq![probe_op()],
                        ..self
                    }
                } else {
                    self
                },
                Presence::Present => {
                    let tx_stale = self.sent_hz != Some(tx_hz);
                    let rx_stale = self.sent_rx_code != Some(code_of(rx_hz));
                    if (!tx_stale && !rx_stale) || self.too_soon(now) {
                        self
                    } else {
                        BoardState {
                            sent_at: Some(now),
                            sent_hz: Some(tx_hz),
                            sent_rx_code: Some(code_of(rx_hz)),
                            queue: (if tx_stale {
                                freq_ops(tx_hz)
                            } else {
                                Seq::empty()
                            }) + (if rx_stale {
                                seq![write_op(13, code_of(rx_hz))]
                            } else {
                                Seq::empty()
                            }),
                            ..self
                        }
                    }
                },
                Presence::Absent => self,
            }
        }
    }

    /// The next transaction put on the wire, from what is queued.
    pub open spec fn dispatched(self, now: u64) -> (BoardState, Option<Op>) {
        if self.queue.len() == 0 {
            (self, None)
        } else {
            let op = self.queue[0];
            (
                BoardState {
                    queue: self.queue.drop_first(),
                    inflight: Some(InFlight { op, sent_at: now, tries: 0 }),
                    ..self
                },
                Some(op),
            )
        }
    }

    /// The next state, and the transaction to put into this datagram.
    pub open spec fn polled(self, now: u64, tx_hz: u64, rx_hz: u64) -> (BoardState, Option<Op>) {
        match self.inflight {
            Some(f) => if now < f.sent_at + 150_000 {
                // A request still waiting on its answer holds the bus.
                (self, None)
            } else if f.tries + 1 < 3 {
                (
                    BoardState {
                        inflight: Some(
                            InFlight { sent_at: now, tries: (f.tries + 1) as u8, ..f },
                        ),
                        ..self
                    },
                    Some(f.op),
                )
            } else {
                (BoardState { inflight: None, ..self }).gave_up(now).refilled(
                    now,
                    tx_hz,
                    rx_hz,
                ).dispatched(now)
            },
            None => self.refilled(now, tx_hz, rx_hz).dispatched(now),
        }
    }

    /// The board has been found: it is reset, told its receive input where that
    /// is not the default, and the frequencies count as never sent.
    pub open spec fn discovered(self) -> BoardState {
        BoardState {
            presence: Presence::Present,
            queue: self.queue + seq![write_op(5, 1)] + (if self.rx_input.mode() != 0 {
                seq![write_op(11, self.rx_input.mode())]
            } else {
                Seq::empty()
            }),
            sent_hz: None,
            sent_rx_code: None,
            sent_at: None,
            ..self
        }
    }

    /// The state after an acknowledgement.
    pub open spec fn acked(self, raddr: u8, version: u8, now: u64) -> BoardState {
        if (raddr != 0x3D && raddr != 0x3F) || self.inflight is None {
            self
        } else {
            let f = self.inflight->0;
            let idle = BoardState { inflight: None, ..self };
            if raddr == 0x3F {
                idle.gave_up(now)
            } else if self.presence is Probing && f.op.cookie == 0x07 {
                if version & 0xF0 == 0xF0 {
                    idle.discovered()
                } else {
                    idle.probe_failed(now)
                }
            } else {
                idle
            }
        }
    }

    /// The state after the receive input was moved.
    pub open spec fn input_moved(self, input: HpsdrIoRxInput) -> BoardState {
        if self.rx_input == input {
            self
        } else {
            BoardState {
                rx_input: input,
                queue: if self.presence == Presence::Present {
                    self.queue.push(write_op(11, input.mode()))
                } else {
                    self.queue
                },
                ..self
            }
        }
    }
}

impl IoBoard {
    pub fn new(rx_input: HpsdrIoRxInput) -> (r: IoBoard)
        ensures
            r@.wf(),
            r@ == fresh_board(rx_input),
    {
        IoBoard {
            presence: Presence::Probing(PROBE_TRIES),
            rx_input,
            inflight: None,
            queue: VecDeque::new(),
            sent_hz: None,
            sent_rx_code: None,
            sent_at: None,
            probe_at: None,
        }
    }

    /// Move the receive input while running.
    ///
    /// A board already found is told straight away; one still being probed
    /// picks it up with the rest of its start-up writes, after the reset that
    /// would otherwise undo it.
    pub fn set_rx_input(&mut self, input: HpsdrIoRxInput)
        requires
            old(self)@.wf(),
        ensures
            final(self)@.wf(),
            final(self)@ == old(self)@.input_moved(input),
    {
        if self.rx_input == input {
            return;
        }
        self.rx_input = input;
        if self.presence == Presence::Present {
            self.queue.push_back(Op::write(REG_RF_INPUTS, input.code()));
        }
    }

    /// The C&C block to put in this datagram, or `None` to leave the slot to
    /// the ordinary register rotation, which is the answer almost every time,
    /// since this talks only when the frequency moves.
    ///
    /// `tx_freq_hz` is the frequency the radio would transmit on right now;
    /// `rx_freq_hz` is where its receiver is tuned. Both are on the *air*: with
    /// a transverter in front they are the transverter's band.
    pub fn next_request(&mut self, now: u64, tx_freq_hz: u64, rx_freq_hz: u64, mox: u8) -> (r:
        Option<[u8; 5]>)
        requires
            old(self)@.wf(),
            time_ok(now),
        ensures
            final(self)@.wf(),
            final(self)@ == old(self)@.polled(now, tx_freq_hz, rx_freq_hz).0,
            r is Some <==> old(self)@.polled(now, tx_freq_hz, rx_freq_hz).1 is Some,
            r matches Some(cc) ==> cc@ == old(self)@.polled(now, tx_freq_hz, rx_freq_hz).1->0.block(
                mox,
            ),
    {
        match self.inflight {
            Some(f) => {
                if now < f.sent_at + ACK_TIMEOUT_US {
                    return None;
                }
                if f.tries + 1 < MAX_TRIES {
                    // EP2 is UDP: a request can simply have been lost, and
                    // sending the same one-byte write again is harmless either
                    // way.
                    self.inflight = Some(
                        InFlight { op: f.op, sent_at: now, tries: f.tries + 1 },
                    );
                    return Some(f.op.cc(mox));
                }
                self.inflight = None;
                self.give_up(now);
            },
            None => {},
        }
        self.refill(now, tx_freq_hz, rx_freq_hz);
        match self.queue.pop_front() {
            None => None,
            Some(op) => {
                self.inflight = Some(InFlight { op, sent_at: now, tries: 0 });
                Some(op.cc(mox))
            },
        }
    }

    /// Queue whatever there is to say, if anything.
    fn refill(&mut self, now: u64, tx_freq_hz: u64, rx_freq_hz: u64)
        requires
            old(self)@.wf(),
            old(self)@.inflight is None,
            time_ok(now),
        ensures
            final(self)@.wf(),
            final(self)@ == old(self)@.refilled(now, tx_freq_hz, rx_freq_hz),
    {
        if self.queue.len() > 0 {
            return;
        }
        match self.presence {
            Presence::Probing(_left) => {
                let due: bool = match self.probe_at {
                    None => true,
                    Some(t) => now >= t,
                };
                if due {
                    self.probe_at = Some(now + PROBE_INTERVAL_US);
                    self.queue.push_back(
                        Op { cookie: I2C_READ, addr: IOB_VERSION_ADDR, reg: 0, data: 0 },
                    );
                    assert(self.queue@ =~= seq![probe_op()]);
                }
            },
            Presence::Present => {
                let rx_code: u8 = hertz_to_code(rx_freq_hz);
                let tx_stale: bool = match self.sent_hz {
                    None => true,
                    Some(hz) => hz != tx_freq_hz,
                };
                let rx_stale: bool = match self.sent_rx_code {
                    None => true,
                    Some(c) => c != rx_code,
                };
                if !tx_stale && !rx_stale {
                    return;
                }
                // Rate limit the *sending*, not the value: whatever the
                // frequency is when the interval expires is what goes out, so a
                // band change during a fast tune is never the one that gets
                // dropped.
                match self.sent_at {
                    None => {},
                    Some(t) => {
                        if now < t + FREQ_INTERVAL_US {
                            return;
                        }
                    },
                }
                self.sent_at = Some(now);
                // Transmit first: it is the one an amplifier switches on, and
                // the one that has to be right before any RF appears.
                if tx_stale {
                    self.sent_hz = Some(tx_freq_hz);
                    let ops: [Op; 5] = freq_writes(tx_freq_hz);
                    self.queue.push_back(ops[0]);
                    self.queue.push_back(ops[1]);
                    self.queue.push_back(ops[2]);
                    self.queue.push_back(ops[3]);
                    self.queue.push_back(ops[4]);
                    assert(self.queue@ =~= freq_ops(tx_freq_hz));
                }
                let ghost so_far = self.queue@;
                if rx_stale {
                    self.sent_rx_code = Some(rx_code);
                    self.queue.push_back(Op::write(REG_FCODE_RX1, rx_code));
                    assert(self.queue@ =~= so_far + seq![write_op(13, rx_code)]);
                } else {
                    assert(self.queue@ =~= so_far + Seq::<Op>::empty());
                }
                assert(self@.queue =~= old(self)@.refilled(now, tx_freq_hz, rx_freq_hz).queue);
            },
            Presence::Absent => {},
        }
    }

    /// An acknowledgement came back on EP6. `raddr` is the address the gateware
    /// echoed and `data` is C1..C4: for a read, the four bytes it fetched.
    pub fn on_ack(&mut self, raddr: u8, data: [u8; 4], now: u64)
        requires
            old(self)@.wf(),
            time_ok(now),
        ensures
            final(self)@.wf(),
            final(self)@ == old(self)@.acked(raddr, data@[0], now),
    {
        // Only ACKs for the I2C bus this drives are ours. Taking someone
        // else's answer would strand the real request forever.
        if raddr != RADDR_I2C2 && raddr != RADDR_ERROR {
            return;
        }
        let f: InFlight = match self.inflight {
            None => {
                return;
            },
            Some(f) => f,
        };
        self.inflight = None;
        if raddr == RADDR_ERROR {
            // Nothing acknowledged that I2C address, or the bus was busy.
            self.give_up(now);
            return;
        }
        let probing: bool = match self.presence {
            Presence::Probing(_left) => true,
            _ => false,
        };
        if probing && f.op.cookie == I2C_READ {
            // The first byte the board returned is its version register.
            if data[0] & IOB_VERSION_MASK == IOB_VERSION_MASK {
                self.presence = Presence::Present;
                let ghost before = self.queue@;
                // Its registers are static and may hold whatever the last
                // program left; its documentation asks for this at startup.
                self.queue.push_back(Op::write(REG_CONTROL, 1));
                // The reset just wrote 0 there, so only a non-default choice
                // needs saying.
                if self.rx_input.code() != 0 {
                    self.queue.push_back(Op::write(REG_RF_INPUTS, self.rx_input.code()));
                }
                // The reset just zeroed every register, so say both frequencies
                // straight away rather than waiting for the operator to move
                // the dial.
                self.sent_hz = None;
                self.sent_rx_code = None;
                self.sent_at = None;
                assert(self@.queue =~= old(self)@.acked(raddr, data@[0], now).queue);
            } else {
                self.probe_failed(now);
            }
        }
    }

    /// A transaction that will not complete. A frequency the board only half
    /// received is not a frequency, and the byte that went missing may have
    /// been the one that latches, so it counts as never sent.
    fn give_up(&mut self, now: u64)
        requires
            old(self)@.wf(),
            old(self)@.inflight is None,
            time_ok(now),
        ensures
            final(self)@.wf(),
            final(self)@ == old(self)@.gave_up(now),
    {
        match self.presence {
            Presence::Probing(_left) => {
                self.probe_failed(now);
            },
            _ => {
                self.queue.clear();
                self.sent_hz = None;
                self.sent_rx_code = None;
                self.sent_at = None;
                assert(self.queue@ =~= Seq::empty());
            },
        }
    }

    fn probe_failed(&mut self, now: u64)
        requires
            old(self)@.wf(),
            old(self)@.inflight is None,
            time_ok(now),
        ensures
            final(self)@.wf(),
            final(self)@ == old(self)@.probe_failed(now),
    {
        match self.presence {
            Presence::Probing(left) => {
                self.queue.clear();
                assert(self.queue@ =~= Seq::empty());
                self.probe_at = Some(now + PROBE_INTERVAL_US);
                self.presence = if left <= 1 {
                    Presence::Absent
                } else {
                    Presence::Probing(left - 1)
                };
            },
            _ => {},
        }
    }
}

// ---------------------------------------------------------------------------
// What the conversation keeps to
// ---------------------------------------------------------------------------

/// One transaction at a time: while an answer is awaited and not overdue,
/// nothing goes out and nothing changes.
pub proof fn one_request_at_a_time(b: BoardState, now: u64, tx_hz: u64, rx_hz: u64)
    requires
        b.inflight is Some,
        now < b.inflight->0.sent_at + 150_000,
    ensures
        b.polled(now, tx_hz, rx_hz) == (b, None::<Op>),
{
}

/// A radio without an IO board is left alone for good, however far the operator
/// tunes.
pub proof fn an_absent_board_stays_quiet(b: BoardState, now: u64, tx_hz: u64, rx_hz: u64)
    requires
        b.wf(),
        b.presence == Presence::Absent,
    ensures
        b.polled(now, tx_hz, rx_hz) == (b, None::<Op>),
{
}

/// A board that has been told where the dial is hears nothing more while it
/// stays there.
pub proof fn an_unmoved_dial_is_silent(b: BoardState, now: u64, tx_hz: u64, rx_hz: u64)
    requires
        b.presence == Presence::Present,
        b.inflight is None,
        b.queue.len() == 0,
        b.sent_hz == Some(tx_hz),
        b.sent_rx_code == Some(code_of(rx_hz)),
    ensures
        b.polled(now, tx_hz, rx_hz) == (b, None::<Op>),
{
}

/// A change inside the half-second window is held; once the window is over, the
/// frequency of that moment goes out from its first byte.
pub proof fn updates_are_rate_limited_but_never_lost(
    b: BoardState,
    now: u64,
    tx_hz: u64,
    rx_hz: u64,
)
    requires
        b.presence == Presence::Present,
        b.inflight is None,
        b.queue.len() == 0,
        b.sent_hz != Some(tx_hz),
    ensures
        b.too_soon(now) ==> b.polled(now, tx_hz, rx_hz) == (b, None::<Op>),
        !b.too_soon(now) ==> {
            let (next, op) = b.polled(now, tx_hz, rx_hz);
            &&& op == Some(freq_ops(tx_hz)[0])
            &&& next.queue.take(4) == freq_ops(tx_hz).skip(1)
            &&& next.sent_hz == Some(tx_hz)
            &&& next.too_soon(now)
        },
{
    if !b.too_soon(now) {
        let q = b.refilled(now, tx_hz, rx_hz).queue;
        assert(q.take(5) =~= freq_ops(tx_hz));
        assert(q[0] == freq_ops(tx_hz)[0]);
        assert(q.drop_first().take(4) =~= freq_ops(tx_hz).skip(1));
    }
}

/// An answer to someone else's request does not touch ours.
pub proof fn a_foreign_answer_changes_nothing(b: BoardState, raddr: u8, version: u8, now: u64)
    requires
        raddr != 0x3D,
        raddr != 0x3F,
    ensures
        b.acked(raddr, version, now) == b,
{
}

/// A write that went unanswered to the end is followed by the whole frequency
/// again, from the top.
pub proof fn an_abandoned_write_is_said_again(b: BoardState, now: u64, tx_hz: u64, rx_hz: u64)
    requires
        b.presence == Presence::Present,
        b.inflight is Some,
        b.inflight->0.tries == 2,
        now >= b.inflight->0.sent_at + 150_000,
    ensures
        b.polled(now, tx_hz, rx_hz).1 == Some(freq_ops(tx_hz)[0]),
{
    let idle = (BoardState { inflight: None, ..b }).gave_up(now);
    let q = idle.refilled(now, tx_hz, rx_hz).queue;
    assert(q[0] == freq_ops(tx_hz)[0]);
}

} // verus!
