//! What goes over the Protocol 1 wire, as the other end sees it.
//!
//! The laws here speak of bytes at fixed places and of the numbers they spell,
//! the way the protocol's own description does.
use crate::hpsdr::discovery::{
    answers, board, is_answer as is_reply, is_driven, is_p1_request, is_p2_request, mac_text,
    targets, HpsdrDevice,
};
use crate::hpsdr::ioboard::{
    code_of, freq_ops, is_code, lemma_floors_rise, probe_op, write_op, BoardState, HpsdrIoRxInput,
    InFlight, Op, Presence, CODE_FLOORS,
};
use crate::hpsdr::link::{
    heard, is_away, is_ep2_due, narrowed, next_tick, obeyed, second_register, sent, values_wanted,
    Ctrl, CtrlAction, Link, Reception,
};
use crate::hpsdr::protocol1::{
    config_block, conjugated, ep2_datagram, ep6_state, ep6_values, freq_block, is_ep6,
    is_start_command, ozy_frame, speed, tail_from, urged, warn_due, warned, FifoFault,
    HpsdrFilterBoard, Regs, Slot, TxHealth, TxWarnings,
};
use crate::text::{dec, hex2};
use crate::text_laws::{digit_value, digits_spell_the_number, two_digits_spell_the_byte};
use vstd::prelude::*;

verus! {

// ---------------------------------------------------------------------------
// Receiving
// ---------------------------------------------------------------------------

/// Three bytes as a number, the first one highest.
pub open spec fn word24(d: Seq<u8>, at: int) -> int {
    0x1_0000 * d[at] + 0x100 * d[at + 1] + d[at + 2]
}

/// Four bytes as a number, the first one highest.
pub open spec fn word32(d: Seq<u8>, at: int) -> int {
    0x100_0000 * d[at] + 0x1_0000 * d[at + 1] + 0x100 * d[at + 2] + d[at + 3]
}

/// Whether three bytes spell a signed number.
pub open spec fn spells24(d: Seq<u8>, at: int, v: int) -> bool {
    -0x80_0000 <= v < 0x80_0000 && word24(d, at) == (if v < 0 {
        0x100_0000 + v
    } else {
        v
    })
}

/// Where sample `s` of a datagram stands: eight bytes each, sixty-three behind
/// each of the two frame heads.
pub open spec fn sample_place(s: int) -> int {
    if s < 63 {
        16 + 8 * s
    } else {
        528 + 8 * (s - 63)
    }
}

/// Whether the frame whose three sync bytes should be at `at` is in step.
pub open spec fn in_step(d: Seq<u8>, at: int) -> bool {
    d.subrange(at, at + 3) == seq![0x7Fu8, 0x7Fu8, 0x7Fu8]
}

proof fn lemma_in_step(d: Seq<u8>, at: int)
    requires
        0 <= at && at + 3 <= d.len(),
    ensures
        in_step(d, at) <==> d[at] == 0x7F && d[at + 1] == 0x7F && d[at + 2] == 0x7F,
{
    let s = d.subrange(at, at + 3);
    assert(s[0] == d[at] && s[1] == d[at + 1] && s[2] == d[at + 2]);
    if d[at] == 0x7F && d[at + 1] == 0x7F && d[at + 2] == 0x7F {
        assert(s =~= seq![0x7Fu8, 0x7Fu8, 0x7Fu8]);
    }
}

/// A datagram is taken for I/Q if and only if it is long enough and has the
/// head of one.
pub proof fn a_datagram_is_known_by_its_head(d: Seq<u8>)
    ensures
        is_ep6(d) <==> d.len() >= 8 + 2 * 512 && word32(d, 0) == 0xEFFE_0106,
{
}

/// Every sample that the radio sends arrives, in its place, whatever the
/// microphone bytes behind it are.
pub proof fn received_samples_are_the_ones_sent(d: Seq<u8>, i: Seq<int>, q: Seq<int>)
    requires
        d.len() >= 1032,
        in_step(d, 8),
        in_step(d, 520),
        i.len() == 126,
        q.len() == 126,
        forall|s: int| #![trigger i[s]] #![trigger q[s]]
            0 <= s < 126 ==> spells24(d, sample_place(s), i[s]) && spells24(
                d,
                sample_place(s) + 3,
                q[s],
            ),
    ensures
        ep6_values(d).len() == 252,
        forall|s: int| #![trigger i[s]] #![trigger q[s]]
            0 <= s < 126 ==> ep6_values(d)[2 * s] == i[s] && ep6_values(d)[2 * s + 1] == q[s],
{
    lemma_in_step(d, 8);
    lemma_in_step(d, 520);
    let got = ep6_values(d);
    assert forall|s: int| #![trigger i[s]] #![trigger q[s]] 0 <= s < 126 implies got[2 * s] == i[s]
        && got[2 * s + 1] == q[s] by {
        let k = if s < 63 {
            2 * s
        } else {
            2 * (s - 63)
        };
        assert(k / 2 == (if s < 63 {
            s
        } else {
            s - 63
        }) && k % 2 == 0 && (k + 1) / 2 == k / 2 && (k + 1) % 2 == 1);
        assert(spells24(d, sample_place(s), i[s]) && spells24(d, sample_place(s) + 3, q[s]));
    }
}

/// A frame that is out of step is left out, and the other one is still read.
pub proof fn a_frame_out_of_step_is_left_out(d: Seq<u8>, whole: Seq<u8>)
    requires
        d.len() >= 1032,
        whole.len() == d.len(),
        in_step(whole, 8) && in_step(whole, 520),
        forall|k: int|
            #![trigger d[k]]
            16 <= k < 520 || 528 <= k < 1032 ==> d[k] == whole[k],
    ensures
        ep6_values(d) == (if in_step(d, 8) {
            ep6_values(whole).take(126)
        } else {
            Seq::empty()
        }) + (if in_step(d, 520) {
            ep6_values(whole).skip(126)
        } else {
            Seq::empty()
        }),
{
    lemma_in_step(d, 8);
    lemma_in_step(d, 520);
    lemma_in_step(whole, 8);
    lemma_in_step(whole, 520);
    let all = ep6_values(whole);
    let want = (if in_step(d, 8) {
        all.take(126)
    } else {
        Seq::empty()
    }) + (if in_step(d, 520) {
        all.skip(126)
    } else {
        Seq::empty()
    });
    assert(all.len() == 252);
    assert(ep6_values(d).len() == want.len());
    assert forall|n: int| 0 <= n < want.len() implies ep6_values(d)[n] == want[n] by {
        let k = if n < 126 {
            n
        } else {
            n - 126
        };
        assert(0 <= k / 2 < 63 && 0 <= k % 2 < 2);
        let b = 8 * (k / 2) + 3 * (k % 2);
        assert(d[16 + b] == whole[16 + b] && d[17 + b] == whole[17 + b] && d[18 + b] == whole[18
            + b]);
        assert(d[528 + b] == whole[528 + b] && d[529 + b] == whole[529 + b] && d[530 + b]
            == whole[530 + b]);
    }
    assert(ep6_values(d) =~= want);
}

/// Whether the status byte at `at` answers a request.
pub open spec fn is_answer(d: Seq<u8>, at: int) -> bool {
    d[at] >= 128
}

/// Whether the status byte at `at` heads the versions and the overload flag:
/// none of its five highest bits is set.
pub open spec fn is_first_set(d: Seq<u8>, at: int) -> bool {
    d[at] < 8
}

proof fn lemma_status_byte(c: u8)
    ensures
        c & 0x80 != 0 <==> c >= 128,
        c & 0x01 != 0 <==> c % 2 == 1,
        c < 128 ==> ((c >> 3) & 0x1F == 0 <==> c < 8),
        (c >> 1) & 0x3F == c % 128 / 2,
{
    assert((c & 0x80 != 0 <==> c >= 128) && (c & 0x01 != 0 <==> c % 2 == 1) && (c < 128 ==> ((c
        >> 3) & 0x1F == 0 <==> c < 8)) && ((c >> 1) & 0x3F == c % 128 / 2)) by (bit_vector);
}

/// What the status bytes of a datagram tell, byte by byte: its number, whether
/// any frame shows the PTT line closed, whether any shows the converter
/// overloaded, and the last answer and the last versions that were sent.
pub proof fn the_status_is_what_the_frames_say(d: Seq<u8>)
    requires
        d.len() >= 1032,
    ensures
        ep6_state(d).seq == word32(d, 4),
        ({
            let a = in_step(d, 8);
            let b = in_step(d, 520);
            let first = a && is_first_set(d, 11);
            let second = b && is_first_set(d, 523);
            let st = ep6_state(d);
            &&& st.ptt <==> (a && d[11] % 2 == 1) || (b && d[523] % 2 == 1)
            &&& st.adc_overload <==> (first && d[12] % 2 == 1) || (second && d[524] % 2 == 1)
            &&& st.ack == (if b && is_answer(d, 523) {
                Some(((d[523] % 128 / 2) as u8, d.subrange(524, 528)))
            } else if a && is_answer(d, 11) {
                Some(((d[11] % 128 / 2) as u8, d.subrange(12, 16)))
            } else {
                None
            })
            &&& st.versions == (if second {
                Some((d[524], d[525], d[526], d[527]))
            } else if first {
                Some((d[12], d[13], d[14], d[15]))
            } else {
                None
            })
        }),
{
    lemma_in_step(d, 8);
    lemma_in_step(d, 520);
    lemma_status_byte(d[11]);
    lemma_status_byte(d[523]);
    lemma_status_byte(d[12]);
    lemma_status_byte(d[524]);
    let c1 = d.subrange(11, 16);
    let c2 = d.subrange(523, 528);
    assert(c1[0] == d[11] && c1[1] == d[12] && c1[2] == d[13] && c1[3] == d[14] && c1[4] == d[15]);
    assert(c2[0] == d[523] && c2[1] == d[524] && c2[2] == d[525] && c2[3] == d[526] && c2[4]
        == d[527]);
    assert(c1.subrange(1, 5) =~= d.subrange(12, 16));
    assert(c2.subrange(1, 5) =~= d.subrange(524, 528));
}

// ---------------------------------------------------------------------------
// Sending
// ---------------------------------------------------------------------------

/// Two bytes as a signed number, the first one highest.
pub open spec fn signed16(d: Seq<u8>, at: int) -> int {
    let v = 0x100 * d[at] + d[at + 1];
    if v >= 0x8000 {
        v - 0x1_0000
    } else {
        v as int
    }
}

proof fn lemma_frame_sample(cc: Seq<u8>, iq: Seq<i16>, s: int)
    requires
        cc.len() == 5,
        0 <= s < 63,
    ensures
        word32(ozy_frame(cc, iq), 8 + 8 * s) == 0,
        signed16(ozy_frame(cc, iq), 8 + 8 * s + 4) == (if 2 * s < iq.len() {
            iq[2 * s] as int
        } else {
            0
        }),
        signed16(ozy_frame(cc, iq), 8 + 8 * s + 6) == (if 2 * s + 1 < iq.len() {
            iq[2 * s + 1] as int
        } else {
            0
        }),
{
    let k = 8 * s;
    assert(k / 8 == s && (k + 1) / 8 == s && (k + 2) / 8 == s && (k + 3) / 8 == s);
    assert((k + 4) / 8 == s && (k + 5) / 8 == s && (k + 6) / 8 == s && (k + 7) / 8 == s);
}

proof fn lemma_datagram_frames(
    seq: u32,
    speed: u8,
    mox: u8,
    oc: u8,
    cc: Seq<u8>,
    iq: Seq<i16>,
)
    ensures
        ep2_datagram(seq, speed, mox, oc, cc, iq).len() == 1032,
        ep2_datagram(seq, speed, mox, oc, cc, iq).subrange(8, 520) == ozy_frame(
            config_block(speed, mox, oc),
            iq,
        ),
        ep2_datagram(seq, speed, mox, oc, cc, iq).subrange(520, 1032) == ozy_frame(
            cc,
            tail_from(iq, 126),
        ),
{
    let d = ep2_datagram(seq, speed, mox, oc, cc, iq);
    assert(d.subrange(8, 520) =~= ozy_frame(config_block(speed, mox, oc), iq));
    assert(d.subrange(520, 1032) =~= ozy_frame(cc, tail_from(iq, 126)));
}

/// What the radio reads in a datagram that was sent to it: the head with its
/// number, two frames in step, the config register and then the rotating one,
/// and each sample in its place behind silent audio. Samples that are missing
/// are silence.
#[verifier::spinoff_prover]
#[verifier::rlimit(40)]
pub proof fn the_radio_reads_what_was_sent(
    seq: u32,
    speed: u8,
    mox: u8,
    oc: u8,
    cc: Seq<u8>,
    iq: Seq<i16>,
)
    requires
        cc.len() == 5,
    ensures
        ({
            let d = ep2_datagram(seq, speed, mox, oc, cc, iq);
            &&& d.len() == 1032
            &&& word32(d, 0) == 0xEFFE_0102
            &&& word32(d, 4) == seq
            &&& in_step(d, 8) && in_step(d, 520)
            &&& d.subrange(11, 16) == config_block(speed, mox, oc)
            &&& d.subrange(523, 528) == cc
            &&& forall|s: int| #![trigger sample_place(s)]
                0 <= s < 126 ==> {
                    let p = sample_place(s);
                    &&& word32(d, p) == 0
                    &&& signed16(d, p + 4) == (if 2 * s < iq.len() {
                        iq[2 * s] as int
                    } else {
                        0
                    })
                    &&& signed16(d, p + 6) == (if 2 * s + 1 < iq.len() {
                        iq[2 * s + 1] as int
                    } else {
                        0
                    })
                }
        }),
{
    let d = ep2_datagram(seq, speed, mox, oc, cc, iq);
    lemma_datagram_frames(seq, speed, mox, oc, cc, iq);
    lemma_four_bytes(seq);
    let first = d.subrange(8, 520);
    let second = d.subrange(520, 1032);
    let config = config_block(speed, mox, oc);
    lemma_in_step(d, 8);
    lemma_in_step(d, 520);
    assert(forall|k: int| 0 <= k < 512 ==> #[trigger] first[k] == d[8 + k]);
    assert(forall|k: int| 0 <= k < 512 ==> #[trigger] second[k] == d[520 + k]);
    assert(first[0] == 0x7F && first[1] == 0x7F && first[2] == 0x7F);
    assert(second[0] == 0x7F && second[1] == 0x7F && second[2] == 0x7F);
    assert(d.subrange(11, 16) =~= config) by {
        assert(first[3] == config[0] && first[4] == config[1] && first[5] == config[2] && first[6]
            == config[3] && first[7] == config[4]);
    }
    assert(d.subrange(523, 528) =~= cc) by {
        assert(second[3] == cc[0] && second[4] == cc[1] && second[5] == cc[2] && second[6] == cc[3]
            && second[7] == cc[4]);
    }
    assert forall|s: int| #![trigger sample_place(s)] 0 <= s < 126 implies {
        let p = sample_place(s);
        &&& word32(d, p) == 0
        &&& signed16(d, p + 4) == (if 2 * s < iq.len() {
            iq[2 * s] as int
        } else {
            0
        })
        &&& signed16(d, p + 6) == (if 2 * s + 1 < iq.len() {
            iq[2 * s + 1] as int
        } else {
            0
        })
    } by {
        let m = if s < 63 {
            s
        } else {
            s - 63
        };
        let f = if s < 63 {
            first
        } else {
            second
        };
        let p = sample_place(s);
        let q = 8 + 8 * m;
        lemma_frame_sample(
            if s < 63 {
                config
            } else {
                cc
            },
            if s < 63 {
                iq
            } else {
                tail_from(iq, 126)
            },
            m,
        );
        assert(f[q] == d[p] && f[q + 1] == d[p + 1] && f[q + 2] == d[p + 2] && f[q + 3] == d[p + 3]);
        assert(f[q + 4] == d[p + 4] && f[q + 5] == d[p + 5] && f[q + 6] == d[p + 6] && f[q + 7]
            == d[p + 7]);
    }
}

/// The samples go out as they are.
pub proof fn narrowing_keeps_the_samples(iq: Seq<i32>)
    requires
        forall|i: int| 0 <= i < iq.len() ==> -32767 <= #[trigger] iq[i] <= 32767,
    ensures
        narrowed(iq).len() == iq.len(),
        forall|i: int| 0 <= i < iq.len() ==> #[trigger] narrowed(iq)[i] == iq[i],
{
}

/// Mirroring the spectrum keeps every I and turns the sign of every Q.
pub proof fn mirroring_turns_only_the_sign_of_q(iq: Seq<i32>)
    requires
        forall|i: int| 0 <= i < iq.len() ==> #[trigger] iq[i] > i32::MIN,
    ensures
        conjugated(iq).len() == iq.len(),
        forall|s: int| #![trigger conjugated(iq)[2 * s]]
            0 <= s && 2 * s < iq.len() ==> conjugated(iq)[2 * s] == iq[2 * s],
        forall|s: int| #![trigger conjugated(iq)[2 * s + 1]]
            0 <= s && 2 * s + 1 < iq.len() ==> conjugated(iq)[2 * s + 1] + iq[2 * s + 1] == 0,
{
    assert forall|s: int| #![trigger conjugated(iq)[2 * s + 1]] 0 <= s && 2 * s + 1
        < iq.len() implies conjugated(iq)[2 * s + 1] + iq[2 * s + 1] == 0 by {
        assert((2 * s + 1) % 2 == 1);
        assert(iq[2 * s + 1] > i32::MIN);
    }
    assert forall|s: int| #![trigger conjugated(iq)[2 * s]] 0 <= s && 2 * s
        < iq.len() implies conjugated(iq)[2 * s] == iq[2 * s] by {
        assert((2 * s) % 2 == 0);
    }
}

// ---------------------------------------------------------------------------
// Registers
// ---------------------------------------------------------------------------

proof fn lemma_four_bytes(v: u32)
    ensures
        0x100_0000 * (v / 0x100_0000 % 0x100) + 0x1_0000 * (v / 0x1_0000 % 0x100) + 0x100 * (v
            / 0x100 % 0x100) + v % 0x100 == v,
        v / 0x100_0000 % 0x100 < 0x100,
        v / 0x1_0000 % 0x100 < 0x100,
        v / 0x100 % 0x100 < 0x100,
{
    let h3 = v as int / 0x100_0000;
    let h2 = v as int / 0x1_0000;
    let h1 = v as int / 0x100;
    assert(h3 == h2 / 0x100 && h2 == h1 / 0x100);
    assert(h3 % 0x100 == h3);
    assert(h2 == 0x100 * h3 + h2 % 0x100);
    assert(h1 == 0x100 * h2 + h1 % 0x100);
    assert(v == 0x100 * h1 + v as int % 0x100);
}

/// The frequency registers spell the frequencies in hertz.
pub proof fn registers_spell_the_frequency(regs: Regs, addr: u8, freq: u32, mox: u8)
    ensures
        freq_block(addr, freq, mox).len() == 5,
        word32(freq_block(addr, freq, mox), 1) == freq,
        word32(regs.block(Slot::TxFreq), 1) == regs.tx_freq,
        word32(regs.block(Slot::RxFreq), 1) == regs.rx_freq,
{
    lemma_four_bytes(freq);
    lemma_four_bytes(regs.tx_freq);
    lemma_four_bytes(regs.rx_freq);
}

/// The gain that a Hermes-Lite reads is the one asked for, held to what it has;
/// the field is marked as meant, and nothing else in the register is set.
pub proof fn the_gain_register_carries_the_gain(regs: Regs, db: i32)
    requires
        regs.lna_gain == Some(db),
    ensures
        ({
            let b = regs.block(Slot::LnaGain);
            &&& b.len() == 5 && b[1] == 0 && b[2] == 0 && b[3] == 0
            &&& 64 <= b[4] <= 124
            &&& -12 <= db <= 48 ==> b[4] - 64 - 12 == db
            &&& db <= -12 ==> b[4] == 64
            &&& db >= 48 ==> b[4] == 64 + 60
        }),
{
    assert(forall|c: u8| c <= 60 ==> #[trigger] (0x40u8 | c) == 64 + c) by (bit_vector);
}

/// Full drive, with the amplifier switched on, or off with the antenna held on
/// the receiver, or left alone on a board that has none.
pub proof fn the_drive_register_switches_the_amplifier(regs: Regs)
    ensures
        ({
            let b = regs.block(Slot::Drive);
            &&& b.len() == 5 && b[1] == 255 && b[3] == 0 && b[4] == 0
            &&& b[2] == 8 <==> regs.pa == Some(true)
            &&& b[2] == 4 <==> regs.pa == Some(false)
            &&& b[2] == 0 <==> regs.pa is None
        }),
{
}

/// The config register: keyed or not, the rate, seven outputs one place up, and
/// duplex on one receiver.
pub proof fn the_config_register_carries_the_outputs(speed: u8, mox: u8, oc: u8)
    requires
        mox <= 1,
    ensures
        ({
            let b = config_block(speed, mox, oc);
            &&& b.len() == 5 && b[0] == mox && b[1] == speed && b[3] == 0 && b[4] == 4
            &&& b[2] == 2 * (oc as int % 128)
        }),
{
    assert(mox <= 1 ==> (0u8 | mox) == mox && ((oc & 0x7F) << 1) == 2 * (oc % 128)) by (bit_vector);
}

/// The highest frequency that each filter of an N2ADR board but the last passes.
pub open spec fn n2adr_cutoffs() -> Seq<int> {
    seq![2_000_000, 4_000_000, 7_300_000, 14_350_000, 21_450_000]
}

/// The frequency that the filters have to suit: what goes out while keyed, what
/// is listened to otherwise.
pub open spec fn on_the_air(regs: Regs) -> int {
    if regs.ptt {
        regs.tx_freq as int
    } else {
        regs.rx_freq as int
    }
}

pub open spec fn power(k: int) -> int
    decreases k,
{
    if k <= 0 {
        1
    } else {
        2 * power(k - 1)
    }
}

/// An N2ADR board has one low-pass filter switched in, the lowest that passes
/// what is on the air, and its high-pass from 3 MHz on.
pub proof fn the_n2adr_board_has_the_lowest_filter_that_passes(regs: Regs, k: int)
    requires
        regs.filter_board == HpsdrFilterBoard::N2adr,
        0 <= k < 6,
        k < 5 ==> on_the_air(regs) <= n2adr_cutoffs()[k],
        k > 0 ==> on_the_air(regs) > n2adr_cutoffs()[k - 1],
    ensures
        regs.outputs() == power(k) + (if on_the_air(regs) >= 3_000_000 {
            64int
        } else {
            0int
        }),
{
    reveal_with_fuel(power, 7);
}

/// Where one band of an Alex board ends and the next begins.
pub open spec fn alex_edges() -> Seq<int> {
    seq![
        2_750_000,
        4_650_000,
        6_200_000,
        8_700_000,
        12_100_000,
        16_200_000,
        19_600_000,
        23_200_000,
        26_500_000,
        39_900_000,
    ]
}

/// An Alex board is told the number of the band, counted from 160 m, with 60 m
/// as the one band that has none.
pub proof fn the_alex_board_is_told_the_band(regs: Regs, k: int)
    requires
        regs.filter_board == HpsdrFilterBoard::Alex,
        0 <= k < 11,
        k < 10 ==> on_the_air(regs) < alex_edges()[k],
        k > 0 ==> on_the_air(regs) >= alex_edges()[k - 1],
    ensures
        regs.outputs() == (if k < 2 {
            k + 1
        } else if k == 2 {
            0
        } else {
            k
        }),
{
}

/// Without a board nothing is switched.
pub proof fn without_a_board_nothing_is_switched(regs: Regs)
    requires
        regs.filter_board == HpsdrFilterBoard::Absent,
    ensures
        regs.outputs() == 0,
{
}

/// The rotation has each register once, the gain only where there is one.
pub proof fn the_rotation_has_each_register_once(regs: Regs)
    ensures
        regs.slot_list().no_duplicates(),
        regs.slot_list().contains(Slot::TxFreq),
        regs.slot_list().contains(Slot::RxFreq),
        regs.slot_list().contains(Slot::Drive),
        regs.slot_list().contains(Slot::LnaGain) <==> regs.lna_gain is Some,
{
    let l = regs.slot_list();
    assert(l[0] == Slot::TxFreq && l[1] == Slot::RxFreq && l[2] == Slot::Drive);
    if regs.lna_gain is Some {
        assert(l[3] == Slot::LnaGain);
    }
}

/// What is made urgent waits once, behind what already waits in its order.
pub proof fn an_urgent_register_waits_once(queue: Seq<Slot>, slot: Slot)
    requires
        queue.no_duplicates(),
    ensures
        urged(queue, slot).no_duplicates(),
        urged(queue, slot).contains(slot),
        queue.is_prefix_of(urged(queue, slot)),
        forall|s: Slot| #[trigger] urged(queue, slot).contains(s) ==> s == slot || queue.contains(s),
        urged(urged(queue, slot), slot) == urged(queue, slot),
{
    let u = urged(queue, slot);
    if !queue.contains(slot) {
        assert(u.last() == slot);
        assert(u[u.len() - 1] == slot);
        assert(u.take(queue.len() as int) =~= queue);
        assert forall|s: Slot| #[trigger] u.contains(s) implies s == slot || queue.contains(s) by {
            let i = choose|i: int| 0 <= i < u.len() && u[i] == s;
            if i < queue.len() {
                assert(queue[i] == s);
            }
        }
    }
    assert(queue.is_prefix_of(u));
}

/// A fault is shouted about at once, and then not again for five seconds.
pub proof fn warnings_are_five_seconds_apart(last: u64, now: u64)
    ensures
        warn_due(None, now),
        warn_due(Some(last), now) <==> now >= last + 5 * 1_000_000,
{
}

// ---------------------------------------------------------------------------
// Controls
// ---------------------------------------------------------------------------

/// Field by field, what a control message may change and to what.
pub proof fn a_control_changes_what_it_names(link: Link, msg: Ctrl)
    ensures
        ({
            let was = link.regs;
            let now = link.regs_after(msg);
            &&& now.filter_board == was.filter_board && now.pa == was.pa
            &&& msg matches Ctrl::RxFreq { ddc, hz } ==> ddc == 0 ==> now.rx_freq == hz
            &&& now.rx_freq != was.rx_freq ==> msg == (Ctrl::RxFreq { ddc: 0, hz: now.rx_freq })
            &&& msg matches Ctrl::TxFreq { hz } ==> now.tx_freq == hz
            &&& msg matches Ctrl::TxOn { hz } ==> now.tx_freq == hz && now.ptt
            &&& now.tx_freq != was.tx_freq ==> msg == (Ctrl::TxFreq { hz: now.tx_freq }) || msg == (
            Ctrl::TxOn { hz: now.tx_freq })
            &&& msg == Ctrl::TxOff ==> !now.ptt
            &&& msg == (Ctrl::Detach { ddc: 0 }) && link.attached ==> !now.ptt
            &&& now.ptt && !was.ptt ==> msg is TxOn
            &&& was.ptt && !now.ptt ==> msg == Ctrl::TxOff || msg == (Ctrl::Detach { ddc: 0 })
            &&& msg matches Ctrl::RxGain { db } ==> link.hermes_lite ==> now.lna_gain == Some(db)
            &&& now.lna_gain != was.lna_gain ==> link.hermes_lite && msg is RxGain
        }),
{
}

/// A register whose value a control message changes is sent ahead of its turn.
pub proof fn what_changed_goes_out_first(link: Link, msg: Ctrl)
    ensures
        link.regs_after(msg).rx_freq != link.regs.rx_freq ==> link.urgent_for(msg) == Some(
            Slot::RxFreq,
        ),
        link.regs_after(msg).tx_freq != link.regs.tx_freq ==> link.urgent_for(msg) == Some(
            Slot::TxFreq,
        ),
        link.regs_after(msg).lna_gain != link.regs.lna_gain ==> link.urgent_for(msg) == Some(
            Slot::LnaGain,
        ),
        msg is TxOn ==> link.urgent_for(msg) == Some(Slot::TxFreq),
        msg is Attach || msg is Detach || msg is TxOff || msg is Shutdown ==> link.urgent_for(msg)
            is None,
{
}

/// On time, a datagram of 126 samples is due every 126 / 48000 s; after a stall
/// the clock starts again from where it is.
pub proof fn the_ep2_clock_runs_at_48_khz(due: u64, now: u64)
    ensures
        now - due <= 2 * 2_625 ==> 48_000 * (next_tick(due, now) - due) == 126 * 1_000_000,
        now - due > 2 * 2_625 ==> 48_000 * (next_tick(due, now) - now) == 126 * 1_000_000,
{
}

// ---------------------------------------------------------------------------
// Discovery
// ---------------------------------------------------------------------------

/// Whether the two digits of byte `i` stand in their place and spell it, with a
/// colon behind them unless it is the last.
pub open spec fn shows_byte(t: Seq<char>, m: Seq<u8>, i: int) -> bool {
    &&& digit_value(t[3 * i]) >= 0
    &&& digit_value(t[3 * i + 1]) >= 0
    &&& 16 * digit_value(t[3 * i]) + digit_value(t[3 * i + 1]) == m[i]
    &&& i + 1 < m.len() ==> t[3 * i + 2] == ':'
}

/// Whether a text is bytes in hexadecimal, two digits each, with colons between.
pub open spec fn spells_address(t: Seq<char>, m: Seq<u8>) -> bool {
    &&& t.len() == (if m.len() == 0 {
        0
    } else {
        3 * m.len() - 1
    })
    &&& forall|i: int| 0 <= i < m.len() ==> #[trigger] shows_byte(t, m, i)
}

/// A hardware address shows every one of its bytes, in order.
pub proof fn an_address_shows_every_byte(m: Seq<u8>)
    ensures
        spells_address(mac_text(m), m),
    decreases m.len(),
{
    reveal_strlit(":");
    let t = mac_text(m);
    if m.len() == 0 {
        assert(t.len() == 0);
    } else {
        two_digits_spell_the_byte(m.last());
        let r = m.drop_last();
        let n = r.len() as int;
        an_address_shows_every_byte(r);
        assert(t.len() == 3 * n + 2);
        assert(t[3 * n] == hex2(m.last())[0]);
        assert(t[3 * n + 1] == hex2(m.last())[1]);
        assert forall|i: int| 0 <= i < m.len() implies #[trigger] shows_byte(t, m, i) by {
            if i < n {
                assert(shows_byte(mac_text(r), r, i));
                assert(r[i] == m[i]);
                assert(t[3 * i] == mac_text(r)[3 * i]);
                assert(t[3 * i + 1] == mac_text(r)[3 * i + 1]);
                if i + 1 < n {
                    assert(t[3 * i + 2] == mac_text(r)[3 * i + 2]);
                }
            }
        }
    }
}

/// What an answer tells, byte by byte: an old board's answer begins with its
/// sync bytes, a new one's with four of sequence; then whether the board is
/// taken, its address, and its number.
pub proof fn an_answer_tells_who_answered(pkt: Seq<u8>, d: HpsdrDevice)
    requires
        is_reply(pkt),
        answers(pkt, d),
    ensures
        d.protocol == 1 || d.protocol == 2,
        d.protocol == 1 <==> pkt.len() >= 11 && pkt[0] == 0xEF && pkt[1] == 0xFE,
        ({
            let at = if d.protocol == 1 {
                2
            } else {
                4
            };
            &&& d.in_use <==> pkt[at] == 3
            &&& !d.in_use <==> pkt[at] == 2
            &&& spells_address(d.mac@, pkt.subrange(at + 1, at + 7))
            &&& d.board@ == board(d.protocol, pkt[if d.protocol == 1 {
                10
            } else {
                11
            }])
        }),
{
    an_address_shows_every_byte(pkt.subrange(3, 9));
    an_address_shows_every_byte(pkt.subrange(5, 11));
}

/// Which datagrams are answers at all.
pub proof fn an_answer_is_known_by_its_status(pkt: Seq<u8>)
    ensures
        is_reply(pkt) <==> {
            let old_board = pkt.len() >= 11 && pkt[0] == 0xEF && pkt[1] == 0xFE;
            ||| old_board && 2 <= pkt[2] <= 3
            ||| !old_board && pkt.len() >= 12 && 2 <= pkt[4] <= 3
        },
{
}

/// The boards that have names, with the protocol they were asked by.
pub proof fn the_boards_have_their_names()
    ensures
        board(1, 0) == "Metis"@,
        board(1, 1) == board(2, 1) && board(1, 1) == "Hermes (ANAN-10/10E/100/100B)"@,
        board(1, 2) == "Griffin"@,
        board(1, 4) == board(2, 3) && board(1, 4) == "Angelia (ANAN-100D)"@,
        board(1, 5) == board(2, 4) && board(1, 5) == "Orion (ANAN-200D)"@,
        board(1, 6) == board(2, 6) && board(1, 6) == "Hermes-Lite 2"@,
        board(1, 10) == board(2, 5) && board(1, 10) == "Orion 2 (ANAN-7000/8000)"@,
        board(2, 0) == "Atlas/Metis"@,
        board(2, 2) == "Hermes2"@,
        board(2, 10) == "Saturn (ANAN-G2)"@,
        forall|p: u8, id: u8| #[trigger]
            board(p, id) != "HPSDR board "@ + dec(id as nat) ==> (p == 1 || p == 2) && id <= 10,
{
}

/// A board without a name is told by its number.
pub proof fn a_board_without_a_name_keeps_its_number(p: u8, id: u8)
    requires
        id > 10,
    ensures
        board(p, id) == "HPSDR board "@ + dec(id as nat),
        crate::text_laws::number_of(board(p, id).skip("HPSDR board "@.len() as int)) == id,
{
    digits_spell_the_number(id as nat);
    assert(board(p, id).skip("HPSDR board "@.len() as int) =~= dec(id as nat));
}

/// Requests go to everyone first, then to each interface's own broadcast, to
/// none twice and to no other.
pub proof fn every_interface_is_asked_once(broadcasts: Seq<u32>)
    ensures
        targets(broadcasts).len() > 0,
        targets(broadcasts)[0] == 0xFFFF_FFFF,
        targets(broadcasts).no_duplicates(),
        forall|i: int|
            0 <= i < broadcasts.len() ==> targets(broadcasts).contains(#[trigger] broadcasts[i]),
        forall|t: u32| #[trigger]
            targets(broadcasts).contains(t) ==> t == 0xFFFF_FFFF || broadcasts.contains(t),
    decreases broadcasts.len(),
{
    let now = targets(broadcasts);
    if broadcasts.len() == 0 {
        assert forall|t: u32| #[trigger] now.contains(t) implies t == 0xFFFF_FFFF by {}
    } else {
        let rest = broadcasts.drop_last();
        let last = broadcasts.last();
        let before = targets(rest);
        every_interface_is_asked_once(rest);
        assert(now.contains(last)) by {
            if !before.contains(last) {
                assert(now.last() == last);
                assert(now[now.len() - 1] == last);
            }
        }
        assert forall|t: u32| before.contains(t) implies #[trigger] now.contains(t) by {
            let k = choose|k: int| 0 <= k < before.len() && before[k] == t;
            assert(now[k] == t);
        }
        assert forall|i: int| 0 <= i < broadcasts.len() implies now.contains(
            #[trigger] broadcasts[i],
        ) by {
            if i < rest.len() {
                assert(rest[i] == broadcasts[i]);
            }
        }
        assert forall|t: u32| #[trigger] now.contains(t) implies t == 0xFFFF_FFFF
            || broadcasts.contains(t) by {
            let k = choose|k: int| 0 <= k < now.len() && now[k] == t;
            if k < before.len() {
                assert(before[k] == t);
                assert(before.contains(t));
                if t != 0xFFFF_FFFF {
                    let j = choose|j: int| 0 <= j < rest.len() && rest[j] == t;
                    assert(broadcasts[j] == t);
                }
            } else {
                assert(broadcasts[broadcasts.len() - 1] == t);
            }
        }
    }
}

// ---------------------------------------------------------------------------
// The accessory board
// ---------------------------------------------------------------------------

/// A transaction on the wire: the second I2C bus with an answer asked for, keyed
/// or not, then what to do, the chip, the register and the byte.
pub proof fn a_transaction_spells_itself_out(op: Op, mox: u8)
    requires
        mox <= 1,
    ensures
        op.block(mox) == seq![(0xFA + mox) as u8, op.cookie, op.addr, op.reg, op.data],
{
    assert(mox <= 1 ==> (0x7Au8 | 0x80 | mox) == 0xFA + mox) by (bit_vector);
    assert(op.block(mox) =~= seq![(0xFA + mox) as u8, op.cookie, op.addr, op.reg, op.data]);
}

/// Writes and the probe go to their own chips, and only the probe reads.
pub proof fn writes_and_the_probe_have_their_chips(reg: u8, data: u8)
    ensures
        write_op(reg, data).cookie == 6 && write_op(reg, data).addr == 0x1D,
        write_op(reg, data).reg == reg && write_op(reg, data).data == data,
        probe_op().cookie == 7 && probe_op().addr == 0x41 && probe_op().reg == 0,
{
}

/// The bytes of a frequency go to the registers from 0 to 4 in turn.
pub proof fn frequency_bytes_go_to_their_registers(hz: u64)
    ensures
        freq_ops(hz).len() == 5,
        forall|i: int|
            0 <= i < 5 ==> (#[trigger] freq_ops(hz)[i]).reg == i && freq_ops(hz)[i].cookie == 6
                && freq_ops(hz)[i].addr == 0x1D,
{
}

/// The input that is used has a number of its own.
pub proof fn the_inputs_have_their_numbers(a: HpsdrIoRxInput, b: HpsdrIoRxInput)
    ensures
        a.mode() == b.mode() <==> a == b,
        a.mode() == 0 <==> a is Radio,
        a.mode() == 2 <==> a is IoBoardPureSignal,
{
}

proof fn lemma_has_code(hz: u64, n: nat)
    requires
        n <= 254,
        hz > 0,
        n > 0 ==> hz >= CODE_FLOORS@[n - 1],
    ensures
        exists|c: u8| is_code(hz, c),
    decreases 254 - n,
{
    if n == 254 {
        assert(is_code(hz, 255));
    } else if hz < CODE_FLOORS@[n as int] {
        assert(is_code(hz, (n + 1) as u8));
    } else {
        lemma_has_code(hz, n + 1);
    }
}

/// The one-byte code of a frequency: none for no frequency, and otherwise the
/// higher the higher the frequency.
pub proof fn the_code_rises_with_the_frequency(a: u64, b: u64)
    requires
        a <= b,
    ensures
        is_code(a, code_of(a)),
        is_code(b, code_of(b)),
        code_of(a) <= code_of(b),
        code_of(a) == 0 <==> a == 0,
{
    if a == 0 {
        assert(is_code(a, 0));
    } else {
        lemma_has_code(a, 0);
    }
    if b == 0 {
        assert(is_code(b, 0));
    } else {
        lemma_has_code(b, 0);
    }
    let x = code_of(a);
    let y = code_of(b);
    if x > y && y > 0 {
        if y - 1 < x - 2 {
            lemma_floors_rise(y - 1, x - 2);
        }
    }
}

/// A request that is not answered within 150 ms goes out again as it was, twice,
/// and is then given up.
pub proof fn an_unanswered_request_goes_out_three_times(
    b: BoardState,
    f: InFlight,
    now: u64,
    tx_hz: u64,
    rx_hz: u64,
)
    requires
        b.inflight == Some(f),
        now >= f.sent_at + 150_000,
        f.tries < 2,
    ensures
        b.polled(now, tx_hz, rx_hz).1 == Some(f.op),
        b.polled(now, tx_hz, rx_hz).0.inflight == Some(
            InFlight { op: f.op, sent_at: now, tries: (f.tries + 1) as u8 },
        ),
        b.polled(now, tx_hz, rx_hz).0.queue == b.queue,
        b.polled(now, tx_hz, rx_hz).0.presence == b.presence,
{
}

/// What is queued goes out in its order, one request to a datagram.
pub proof fn what_is_queued_goes_out_in_order(b: BoardState, now: u64, tx_hz: u64, rx_hz: u64)
    requires
        b.inflight is None,
        b.queue.len() > 0,
    ensures
        b.polled(now, tx_hz, rx_hz).1 == Some(b.queue[0]),
        b.polled(now, tx_hz, rx_hz).0.queue == b.queue.skip(1),
        b.polled(now, tx_hz, rx_hz).0.inflight == Some(
            InFlight { op: b.queue[0], sent_at: now, tries: 0 },
        ),
{
    assert(b.queue.drop_first() =~= b.queue.skip(1));
}

/// Everything that is stale is said in one batch: the transmit frequency byte by
/// byte where it moved, then the receive code where it moved.
pub proof fn a_batch_says_everything_that_moved(b: BoardState, now: u64, tx_hz: u64, rx_hz: u64)
    requires
        b.presence == Presence::Present,
        b.inflight is None,
        b.queue.len() == 0,
        !b.too_soon(now),
        b.sent_hz != Some(tx_hz) || b.sent_rx_code != Some(code_of(rx_hz)),
    ensures
        ({
            let (next, op) = b.polled(now, tx_hz, rx_hz);
            let batch = seq![op->0] + next.queue;
            let tx = b.sent_hz != Some(tx_hz);
            let rx = b.sent_rx_code != Some(code_of(rx_hz));
            &&& op is Some
            &&& next.sent_hz == Some(tx_hz) && next.sent_rx_code == Some(code_of(rx_hz))
            &&& next.sent_at == Some(now)
            &&& batch.len() == (if tx {
                5int
            } else {
                0int
            }) + (if rx {
                1int
            } else {
                0int
            })
            &&& tx ==> forall|i: int| 0 <= i < 5 ==> #[trigger] batch[i] == freq_ops(tx_hz)[i]
            &&& rx ==> batch.last() == write_op(13, code_of(rx_hz))
        }),
{
    let q = b.refilled(now, tx_hz, rx_hz).queue;
    let (next, op) = b.polled(now, tx_hz, rx_hz);
    assert(seq![op->0] + next.queue =~= q);
}

/// Updates keep half a second apart.
pub proof fn updates_keep_half_a_second_apart(b: BoardState, now: u64)
    ensures
        b.too_soon(now) <==> b.sent_at is Some && now < b.sent_at->0 + 500_000,
{
}

/// A right answer to the probe finds the board: it is reset before anything
/// else, then told its receive input where that is another than the radio's,
/// and then the frequencies are said from scratch.
pub proof fn a_found_board_is_reset_first(b: BoardState, version: u8, now: u64)
    requires
        b.presence is Probing,
        b.inflight is Some,
        b.inflight->0.op == probe_op(),
        b.queue.len() == 0,
        version >= 0xF0,
    ensures
        ({
            let next = b.acked(0x3D, version, now);
            &&& next.presence == Presence::Present
            &&& next.inflight is None
            &&& next.queue.len() == (if b.rx_input is Radio {
                1int
            } else {
                2int
            })
            &&& next.queue[0] == write_op(5, 1)
            &&& !(b.rx_input is Radio) ==> next.queue[1] == write_op(11, b.rx_input.mode())
            &&& next.sent_hz is None && next.sent_rx_code is None && next.sent_at is None
            &&& next.rx_input == b.rx_input
        }),
{
    assert(version >= 0xF0 ==> version & 0xF0 == 0xF0) by (bit_vector);
}

/// A wrong answer to the probe, or a refusal, costs one of the three tries; after
/// the last the radio counts as one without a board. The next try waits half a
/// second.
pub proof fn a_failed_probe_costs_a_try(b: BoardState, left: u8, raddr: u8, version: u8, now: u64)
    requires
        b.wf(),
        b.presence == Presence::Probing(left),
        b.inflight is Some,
        b.inflight->0.op == probe_op(),
        now <= u64::MAX - 500_000,
        raddr == 0x3F || (raddr == 0x3D && version < 0xF0),
    ensures
        ({
            let next = b.acked(raddr, version, now);
            &&& next.presence == (if left == 1 {
                Presence::Absent
            } else {
                Presence::Probing((left - 1) as u8)
            })
            &&& next.inflight is None
            &&& next.queue.len() == 0
            &&& next.probe_at == Some((now + 500_000) as u64)
        }),
{
    assert(version < 0xF0 ==> version & 0xF0 != 0xF0) by (bit_vector);
}

/// A board that is looked for is probed when half a second has gone by, and not
/// before.
pub proof fn a_board_is_looked_for_every_half_second(
    b: BoardState,
    now: u64,
    tx_hz: u64,
    rx_hz: u64,
)
    requires
        b.presence is Probing,
        b.inflight is None,
        b.queue.len() == 0,
        now <= u64::MAX - 500_000,
    ensures
        b.probe_at is None || now >= b.probe_at->0 ==> b.polled(now, tx_hz, rx_hz).1 == Some(
            probe_op(),
        ) && b.polled(now, tx_hz, rx_hz).0.probe_at == Some((now + 500_000) as u64),
        b.probe_at is Some && now < b.probe_at->0 ==> b.polled(now, tx_hz, rx_hz) == (
            b,
            None::<Op>,
        ),
{
}

/// An answer to a write frees the bus and changes nothing else; a refusal of one
/// drops the rest of the batch, and what was said counts as not said.
pub proof fn an_answer_frees_the_bus(b: BoardState, version: u8, now: u64)
    requires
        b.presence == Presence::Present,
        b.inflight is Some,
    ensures
        b.acked(0x3D, version, now) == (BoardState { inflight: None, ..b }),
        ({
            let refused = b.acked(0x3F, version, now);
            &&& refused.inflight is None && refused.queue.len() == 0
            &&& refused.sent_hz is None && refused.sent_rx_code is None && refused.sent_at is None
            &&& refused.presence == Presence::Present && refused.rx_input == b.rx_input
        }),
{
}

/// A moved input is told to a board that is there, behind what already waits;
/// one that is not there yet hears it when it is found.
pub proof fn a_moved_input_is_told(b: BoardState, input: HpsdrIoRxInput)
    ensures
        b.input_moved(input).rx_input == input,
        b.input_moved(input).queue == (if input != b.rx_input && b.presence == Presence::Present {
            b.queue.push(write_op(11, input.mode()))
        } else {
            b.queue
        }),
        b.input_moved(input).presence == b.presence,
        b.input_moved(input).inflight == b.inflight,
{
}

// ---------------------------------------------------------------------------
// The link
// ---------------------------------------------------------------------------

/// What the radio samples comes out of the link: I as it is, and Q as it is or
/// turned where the spectrum is mirrored.
pub proof fn the_link_hands_on_what_the_radio_sampled(
    was: Link,
    d: Seq<u8>,
    now: u64,
    rx: Reception,
    after: Link,
    i: Seq<int>,
    q: Seq<int>,
    s: int,
)
    requires
        heard(was, d, now, rx, after),
        d.len() >= 1032,
        in_step(d, 8),
        in_step(d, 520),
        i.len() == 126,
        q.len() == 126,
        forall|s: int| #![trigger i[s]] #![trigger q[s]]
            0 <= s < 126 ==> spells24(d, sample_place(s), i[s]) && spells24(
                d,
                sample_place(s) + 3,
                q[s],
            ),
        0 <= s < 126,
    ensures
        rx.samples@.len() == 252,
        rx.samples@[2 * s] == i[s],
        rx.samples@[2 * s + 1] == (if was.invert_spectrum {
            -q[s]
        } else {
            q[s]
        }),
        rx.seq == word32(d, 4),
{
    received_samples_are_the_ones_sent(d, i, q);
    the_status_is_what_the_frames_say(d);
    let v = ep6_values(d);
    assert(v[2 * s] == i[s] && v[2 * s + 1] == q[s]);
    assert(spells24(d, sample_place(s), i[s]));
    assert((2 * s) % 2 == 0 && (2 * s + 1) % 2 == 1);
}

/// The radio's PTT line is reported when it moves, and not again while it stays.
pub proof fn a_ptt_that_stays_is_reported_once(
    a: Link,
    b: Link,
    c: Link,
    d: Seq<u8>,
    e: Seq<u8>,
    now: u64,
    later: u64,
    first: Reception,
    second: Reception,
)
    requires
        heard(a, d, now, first, b),
        heard(b, e, later, second, c),
        ep6_state(d).ptt == ep6_state(e).ptt,
    ensures
        second.ptt_moved is None,
        c.radio_ptt == ep6_state(d).ptt,
        first.ptt_moved is Some <==> a.radio_ptt != ep6_state(d).ptt,
        first.ptt_moved matches Some(p) ==> p == ep6_state(d).ptt,
{
}

/// An overload is counted every time and told once in five seconds.
pub proof fn overloads_are_counted_and_told_now_and_then(
    a: Link,
    b: Link,
    c: Link,
    d: Seq<u8>,
    e: Seq<u8>,
    now: u64,
    later: u64,
    first: Reception,
    second: Reception,
)
    requires
        heard(a, d, now, first, b),
        heard(b, e, later, second, c),
        ep6_state(d).adc_overload,
        ep6_state(e).adc_overload,
        now <= later,
    ensures
        c.overloads == a.overloads + 2,
        first.overload_warning ==> (second.overload_warning <==> later >= now + 5_000_000),
        a.last_overload_warn is None ==> first.overload_warning,
{
}

/// Keying and unkeying: while keyed the radio is told so; what ends an over also
/// drops what was left of it; and only a message that says so ends the thread.
pub proof fn an_over_ends_with_nothing_left_of_it(was: Link, msg: Ctrl, action: CtrlAction, after: Link)
    requires
        obeyed(was, msg, action, after),
    ensures
        was.regs.ptt && !after.regs.ptt ==> action.drain_tx,
        action.detach ==> was.attached && !after.attached && !after.regs.ptt,
        action.attach ==> after.attached,
        after.attached && !was.attached ==> action.attach,
        was.attached && !after.attached ==> action.detach,
        action.stop <==> msg is Shutdown,
        msg is TxOn ==> after.regs.mox() == 1,
        msg is TxOff ==> after.regs.mox() == 0,
{
}

/// What the radio reads in the datagrams of a link: numbers that follow each
/// other, keyed or not in the config register, the register whose turn it is, and
/// the samples, with Q turned where the spectrum is mirrored.
pub proof fn the_radio_is_sent_what_the_link_was_given(
    was: Link,
    now: u64,
    iq: Seq<i32>,
    d: Seq<u8>,
    after: Link,
    s: int,
)
    requires
        sent(was, now, iq, d, after),
        second_register(was, now).len() == 5,
        forall|i: int| 0 <= i < iq.len() ==> -32767 <= #[trigger] iq[i] <= 32767,
        0 <= s < 126,
        2 * s + 1 < iq.len(),
    ensures
        word32(d, 0) == 0xEFFE_0102,
        word32(d, 4) == was.out_seq,
        after.out_seq == was.out_seq + 1 || was.out_seq == u32::MAX && after.out_seq == 0,
        after.regs == was.regs && after.attached == was.attached && after.radio_ptt == was.radio_ptt,
        after.next_ep2 == next_tick(was.next_ep2, now),
        d[11] == was.regs.mox() && d[12] == was.speed,
        d.subrange(523, 528) == second_register(was, now),
        signed16(d, sample_place(s) + 4) == iq[2 * s],
        signed16(d, sample_place(s) + 6) == (if was.invert_spectrum {
            -iq[2 * s + 1]
        } else {
            iq[2 * s + 1] as int
        }),
{
    let given = if was.invert_spectrum {
        conjugated(iq)
    } else {
        iq
    };
    assert((2 * s) % 2 == 0 && (2 * s + 1) % 2 == 1);
    assert(-32767 <= iq[2 * s] <= 32767 && -32767 <= iq[2 * s + 1] <= 32767);
    assert(narrowed(given)[2 * s] == iq[2 * s]);
    let mox = was.regs.mox();
    let oc = was.regs.outputs() as u8;
    let cc = second_register(was, now);
    the_radio_reads_what_was_sent(was.out_seq, was.speed, mox, oc, cc, narrowed(given));
    the_config_register_carries_the_outputs(was.speed, mox, oc);
    assert(d.subrange(11, 16)[0] == d[11] && d.subrange(11, 16)[1] == d[12]);
    assert(sample_place(s) == sample_place(s));
}

/// Each of the two transmit faults is told on its own, once in five seconds.
pub proof fn one_fault_does_not_hide_the_other(
    c1: u8,
    c3: u8,
    keyed: bool,
    was: TxHealth,
    now: u64,
    w: TxWarnings,
    after: TxHealth,
)
    requires
        warned(c1, c3, keyed, was, now, w, after),
    ensures
        was.last_inhibit_warn is None ==> (w.inhibited <==> c1 % 4 < 2),
        was.last_fifo_warn is None ==> (w.fifo is Some <==> keyed && c3 >= 128),
        !keyed ==> w.fifo is None,
        w.fifo == Some(FifoFault::Underrun) ==> 128 <= c3 < 192,
        w.fifo == Some(FifoFault::Overflow) ==> c3 >= 192,
        w.inhibited ==> after.last_inhibit_warn == Some(now),
        !w.inhibited ==> after.last_inhibit_warn == was.last_inhibit_warn,
        w.fifo is None ==> after.last_fifo_warn == was.last_fifo_warn,
{
}

/// The four rates have the codes 0 to 3; any other rate has that of the lowest of
/// them that holds it, and one that none holds that of the highest.
pub proof fn a_rate_has_the_code_of_the_lowest_that_holds_it(rate_hz: int, k: int)
    requires
        0 <= k <= 3,
    ensures
        rate_hz <= 48_000 * power(k) ==> speed(rate_hz) <= k,
        rate_hz > 48_000 * power(k) ==> speed(rate_hz) > k || k == 3,
        0 <= speed(rate_hz) <= 3,
{
    reveal_with_fuel(power, 4);
}

/// The datagram that starts the stream and the one that stops it differ in their
/// fourth byte alone; the rest of both is the command's head and zeros.
pub proof fn a_start_command_is_64_bytes(go: Seq<u8>, halt: Seq<u8>, i: int)
    requires
        is_start_command(true, go),
        is_start_command(false, halt),
        4 <= i < 64,
    ensures
        go.len() == 64 && halt.len() == 64,
        go[0] == 0xEF && go[1] == 0xFE && go[2] == 4 && go[3] == 1 && go[i] == 0,
        halt[0] == 0xEF && halt[1] == 0xFE && halt[2] == 4 && halt[3] == 0 && halt[i] == 0,
{
}

/// A Protocol 2 request is 60 bytes, a 2 at the fifth and zeros; a Protocol 1 one
/// is 63, the Metis sync, a 2 and zeros.
pub proof fn a_request_says_its_protocol(p1: Seq<u8>, p2: Seq<u8>, i: int)
    requires
        is_p1_request(p1),
        is_p2_request(p2),
    ensures
        p2.len() == 60 && p2[4] == 2,
        0 <= i < 60 && i != 4 ==> p2[i] == 0,
        p1.len() == 63 && p1[0] == 0xEF && p1[1] == 0xFE && p1[2] == 2,
        3 <= i < 63 ==> p1[i] == 0,
{
}

/// Both protocols can be driven, and no other.
pub proof fn two_protocols_can_be_driven(protocol: u8)
    ensures
        is_driven(protocol) <==> 1 <= protocol <= 2,
{
}

/// While keyed a datagram takes 126 pairs, and otherwise none; the reader is away
/// while keyed, while paused and until what an over left is drained; a datagram
/// goes out as soon as its time has come.
pub proof fn a_keyed_link_takes_what_a_datagram_holds(l: Link, rx_paused: bool, now: u64)
    ensures
        l.regs.ptt ==> values_wanted(l) == 2 * 126 && is_away(l, rx_paused),
        !l.regs.ptt ==> values_wanted(l) == 0,
        rx_paused ==> is_away(l, rx_paused),
        l.tx_backlog ==> is_away(l, rx_paused),
        !l.regs.ptt && !rx_paused && !l.tx_backlog ==> !is_away(l, rx_paused),
        now < l.next_ep2 ==> !is_ep2_due(l, now),
        now >= l.next_ep2 ==> is_ep2_due(l, now),
{
}

} // verus!
