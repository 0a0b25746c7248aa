//! What the stream thread decides: block sizes, the ADC rate for direct
//! sampling, what a batch of control messages asks of the hardware, and what a
//! read that failed or found nobody to hand its block to leads to.
//!
//! With direct sampling the interleaved buffer carries two **independent real**
//! channels, HF1 in the even places and HF2 in the odd ones, rather than one
//! channel's quadrature pair. Each becomes complex baseband in a downconverter
//! that selects a band out of a real FFT; tuning is then software-only.
//!
//! Rates here are in Hz but where a name says millihertz.
use crate::fobos::handle::{dropped_stats, push_iq, quads, Pending, Port, RxStats};
use crate::ring::{next_power_of_two, pow2, word_open, word_room, word_written};
use vstd::prelude::*;

verus! {

/// Blocks per second, at any rate, so the block period is a few ms.
pub const BLOCKS_PER_SEC: u64 = 400;

/// The downconverter's input block size.
pub const DDC_BLOCK: u64 = 8192;

/// The fewest bins a channel can use, and the most.
pub const DDC_BINS_MIN: u64 = 64;

pub const DDC_BINS_MAX: u64 = 4096;

/// Depth of the raw-block handoff between the blocking hardware read and the
/// downconverter.
pub const HF_HANDOFF_DEPTH: usize = 4;

/// Real floor for the ADC's own rate while direct sampling: requests below this
/// snap up to it.
pub const HF_ADC_RATE_FLOOR: u64 = 8_000_000;

/// How much faster than the requested complex output the ADC runs while direct
/// sampling: headroom for the downconverter's own band selection and edge taper.
pub const HF_ADC_OVERSAMPLE: u64 = 8;

/// The one ADC rate confirmed broken for actually *streaming* direct sampling:
/// setting it reports success, and no read from it ever worked.
pub const HF_ADC_RATE_BROKEN: u64 = 40_000_000;

/// Where a request that would otherwise land on [`HF_ADC_RATE_BROKEN`] goes
/// instead: the nearby rate that streams reliably and sounds clean.
pub const HF_ADC_RATE_BROKEN_FALLBACK: u64 = 20_000_000;

/// How many extra tries the very first read is given: the same rate works on one
/// opening and not on another, always on the first read, which is a startup
/// race. A failure once samples have arrived is a genuine fault.
pub const HF_STARTUP_READ_RETRIES: u32 = 5;

/// Gap between those attempts.
pub const HF_STARTUP_READ_RETRY_DELAY_MS: u64 = 40;

/// The rate to assume where a receiver reports none.
pub const TOP_RATE_DEFAULT: u64 = 80_000_000;

/// Samples per block at a rate: a four-hundredth of a second, at least one.
pub open spec fn block_len(rate_hz: int) -> int {
    let n = (rate_hz + 200) / 400;
    if n < 1 {
        1
    } else {
        n
    }
}

/// Samples per block at a rate in Hz.
pub fn buf_len_for(rate_hz: u64) -> (r: u32)
    requires
        rate_hz <= 0x100_0000_0000,
    ensures
        r == block_len(rate_hz as int),
{
    let n: u64 = (rate_hz + 200) / BLOCKS_PER_SEC;
    if n < 1 {
        1
    } else {
        n as u32
    }
}

/// How far the output rate of so many bins is from the target, in parts of
/// 1/8192 Hz.
pub open spec fn rate_miss(adc_rate: int, target_rate: int, bins: int) -> int {
    let off = adc_rate * bins - target_rate * 8192;
    if off < 0 {
        -off
    } else {
        off
    }
}

/// The bin counts that a channel can use: the powers of two from 64 to 4096.
pub open spec fn is_usable_bins(bins: int) -> bool {
    64 <= bins <= 4096 && exists|k: nat| bins == #[trigger] pow2(k)
}

/// Whether `bins` is the bin count for a target rate: no other lands closer to it.
/// Of two that land as close the larger one is taken.
pub open spec fn is_bins(adc_rate: int, target_rate: int, bins: int) -> bool {
    &&& is_usable_bins(bins)
    &&& forall|b: int| #[trigger]
        is_usable_bins(b) ==> rate_miss(adc_rate, target_rate, bins) <= rate_miss(
            adc_rate,
            target_rate,
            b,
        )
    &&& forall|b: int| #[trigger]
        is_usable_bins(b) && b > bins ==> rate_miss(adc_rate, target_rate, bins) < rate_miss(
            adc_rate,
            target_rate,
            b,
        )
}

/// Pick the downconverter's bin count (a power of two) that lands closest to
/// `target_rate` out of `adc_rate`.
pub fn pick_bins(adc_rate: u64, target_rate: u64) -> (r: u64)
    requires
        0 < adc_rate <= 0x100_0000_0000,
        target_rate <= 0x100_0000_0000,
    ensures
        is_bins(adc_rate as int, target_rate as int, r as int),
        64 <= r <= 4096,
{
    let ghost (a, t) = (adc_rate as int, target_rate as int);
    let mut best: u64 = 64;
    let mut bins: u64 = 64;
    let ghost mut k: nat = 6;
    proof {
        reveal_with_fuel(pow2, 7);
        assert(pow2(6) == 64);
        assert(is_usable_bins(64));
        assert forall|b: int| #[trigger] is_usable_bins(b) && b <= 64 implies b == 64 by {}
        lemma_miss_bound(a, t, 64);
    }
    let mut miss: u64 = miss_of(adc_rate, target_rate, 64);
    while bins < DDC_BINS_MAX
        invariant
            0 < adc_rate <= 0x100_0000_0000,
            target_rate <= 0x100_0000_0000,
            a == adc_rate,
            t == target_rate,
            6 <= k <= 12,
            bins == pow2(k),
            64 <= bins <= 4096,
            k < 12 ==> bins <= 2048,
            is_usable_bins(best as int),
            best <= bins,
            miss == rate_miss(a, t, best as int),
            forall|b: int| #[trigger]
                is_usable_bins(b) && b <= bins ==> miss <= rate_miss(a, t, b),
            forall|b: int| #[trigger]
                is_usable_bins(b) && best < b <= bins ==> miss < rate_miss(a, t, b),
        decreases 12 - k,
    {
        proof {
            reveal_with_fuel(pow2, 14);
            assert(k < 12) by {
                if k == 12 {
                    assert(pow2(12) == 4096);
                }
            }
            assert(pow2(k + 1) == 2 * pow2(k));
        }
        let ghost was = bins as int;
        bins = 2 * bins;
        proof {
            k = k + 1;
            assert(is_usable_bins(bins as int));
            assert forall|b: int| #[trigger] is_usable_bins(b) && b > was && b <= bins implies b
                == bins by {
                let j = choose|j: nat| b == #[trigger] pow2(j);
                if j < k {
                    if j + 1 < k {
                        lemma_pow2_doubles(j, (k - 1) as nat);
                        lemma_pow2_positive(j);
                    }
                } else if j > k {
                    lemma_pow2_doubles(k, j);
                }
            }
        }
        let next: u64 = miss_of(adc_rate, target_rate, bins);
        if next <= miss {
            best = bins;
            miss = next;
        }
    }
    best
}

proof fn lemma_miss_bound(a: int, t: int, b: int)
    requires
        0 <= a <= 0x100_0000_0000,
        0 <= b <= 4096,
    ensures
        0 <= a * b <= 0x10_0000_0000_0000,
{
    assert(0 <= a * b <= 0x100_0000_0000 * 4096) by (nonlinear_arith)
        requires
            0 <= a <= 0x100_0000_0000,
            0 <= b <= 4096,
    ;
}

fn miss_of(adc_rate: u64, target_rate: u64, bins: u64) -> (r: u64)
    requires
        adc_rate <= 0x100_0000_0000,
        target_rate <= 0x100_0000_0000,
        bins <= 4096,
    ensures
        r == rate_miss(adc_rate as int, target_rate as int, bins as int),
{
    proof {
        lemma_miss_bound(adc_rate as int, target_rate as int, bins as int);
    }
    let got: u64 = adc_rate * bins;
    let want: u64 = target_rate * 8192;
    if got < want {
        want - got
    } else {
        got - want
    }
}

/// The ADC rate to ask for, given what the caller wants out and the fastest rate
/// the receiver offers: eight times the target, between the floor and the top
/// rate, and never the rate that does not stream.
pub open spec fn adc_rate(target: int, top: int) -> int {
    let floor = if top < 8_000_000 {
        top
    } else {
        8_000_000
    };
    let asked = 8 * (if target < 1 {
        1
    } else {
        target
    });
    let wanted = if asked < floor {
        floor
    } else if asked > top {
        top
    } else {
        asked
    };
    if wanted == 40_000_000 {
        20_000_000
    } else {
        wanted
    }
}

/// The ADC rate to ask for, given what the caller wants out and the fastest rate
/// the receiver offers.
pub fn hf_adc_rate_wanted(target_out_hz: u64, top_rate_hz: u64) -> (r: u64)
    requires
        target_out_hz <= 0x100_0000_0000,
    ensures
        r == adc_rate(target_out_hz as int, top_rate_hz as int),
{
    let floor: u64 = if top_rate_hz < HF_ADC_RATE_FLOOR {
        top_rate_hz
    } else {
        HF_ADC_RATE_FLOOR
    };
    let target: u64 = if target_out_hz < 1 {
        1
    } else {
        target_out_hz
    };
    let asked: u64 = target * HF_ADC_OVERSAMPLE;
    let wanted: u64 = if asked < floor {
        floor
    } else if asked > top_rate_hz {
        top_rate_hz
    } else {
        asked
    };
    if wanted == HF_ADC_RATE_BROKEN {
        HF_ADC_RATE_BROKEN_FALLBACK
    } else {
        wanted
    }
}

/// The rate asked for is never above what the receiver offers, never the one
/// that does not stream, and below the floor only where the receiver is.
pub proof fn the_wanted_rate_is_one_that_streams(target: int, top: int)
    requires
        target >= 0,
        top >= 0,
    ensures
        adc_rate(target, top) <= top,
        adc_rate(target, top) != 40_000_000,
        top >= 8_000_000 ==> adc_rate(target, top) >= 8_000_000,
        top < 8_000_000 ==> adc_rate(target, top) == top,
{
}

/// The fastest of the rates; a default where there is none.
pub open spec fn is_top_rate(rates: Seq<u64>, top: u64) -> bool {
    if forall|i: int| 0 <= i < rates.len() ==> #[trigger] rates[i] == 0 {
        top == 80_000_000
    } else {
        &&& rates.contains(top)
        &&& forall|i: int| 0 <= i < rates.len() ==> #[trigger] rates[i] <= top
    }
}

/// The fastest of the rates; 80 Msps where there is none.
pub fn top_rate(rates: &Vec<u64>) -> (r: u64)
    ensures
        is_top_rate(rates@, r),
{
    let mut top: u64 = 0;
    let mut i: usize = 0;
    while i < rates.len()
        invariant
            i <= rates@.len(),
            top > 0 ==> rates@.contains(top),
            forall|k: int| 0 <= k < i ==> #[trigger] rates@[k] <= top,
        decreases rates@.len() - i,
    {
        if rates[i] > top {
            top = rates[i];
            assert(rates@[i as int] == top);
        }
        i = i + 1;
    }
    if top > 0 {
        proof {
            let k = choose|k: int| 0 <= k < rates@.len() && rates@[k] == top;
            assert(rates@[k] != 0);
        }
        top
    } else {
        TOP_RATE_DEFAULT
    }
}

/// The rate out of the downconverter.
pub open spec fn out_rate(adc_rate_hz: int, bins: int) -> int {
    adc_rate_hz * bins * 1000 / 8192
}

/// The complex rate that comes out of the downconverter, in millihertz.
pub fn hf_out_rate_mhz(adc_rate_hz: u64, bins: u64) -> (r: u64)
    requires
        adc_rate_hz <= 0x100_0000_0000,
        bins <= 4096,
    ensures
        r == adc_rate_hz * bins * 1000 / 8192,
        r == out_rate(adc_rate_hz as int, bins as int),
{
    proof {
        assert(0 <= adc_rate_hz * bins <= 0x100_0000_0000 * 4096) by (nonlinear_arith)
            requires
                adc_rate_hz <= 0x100_0000_0000,
                bins <= 4096,
        ;
    }
    adc_rate_hz * bins * 1000 / DDC_BLOCK
}

// ---------------------------------------------------------------------------
// The RF port
// ---------------------------------------------------------------------------

/// What a batch of control messages asks of the hardware, in the order in which
/// it is done.
#[derive(Clone, Copy, Debug, PartialEq, Eq, Structural)]
pub struct RfSteps {
    /// Leave the loop. Nothing else is done.
    pub shutdown: bool,
    /// Stop the stream, set this rate, and start again.
    pub rate: Option<u64>,
    pub center: Option<u64>,
    pub lna_gain: Option<u8>,
    pub vga_gain: Option<u8>,
    pub clk_external: Option<bool>,
}

/// The RF port's pump: one blocking read per block.
pub struct RfPump {
    /// The rate in use, in Hz.
    pub rate_hz: u64,
    pub buf_len: u32,
    pub stats: RxStats,
}

/// What a read led to.
#[derive(Clone, Copy, Debug, PartialEq, Eq, Structural)]
pub enum ReadOutcome {
    /// This many sample pairs of the buffer are good.
    Pairs(u32),
    /// Nothing arrived.
    Nothing,
    /// Read again after a short wait.
    Retry,
    /// The stream is over.
    Ended,
}

/// Whether these are the steps that a batch asks for.
pub open spec fn are_rf_steps(pending: Pending, r: RfSteps) -> bool {
    if pending.shutdown {
        r.shutdown && r.rate is None && r.center is None && r.lna_gain is None && r.vga_gain is None
            && r.clk_external is None
    } else {
        !r.shutdown && r.rate == pending.rate && r.center == pending.center && r.lna_gain
            == pending.lna_gain && r.vga_gain == pending.vga_gain && r.clk_external
            == pending.clk_external
    }
}

/// Whether a pump took in the answer to a change of rate.
pub open spec fn took_rate(was: RfPump, actual: Option<u64>, r: u32, after: RfPump) -> bool {
    &&& after.rate_hz == (match actual {
        Some(hz) => hz,
        None => was.rate_hz,
    })
    &&& r == after.buf_len
    &&& after.stats == was.stats
    &&& after.wf()
}

/// Whether a pump took in what a read gave.
pub open spec fn took_read(
    was: RfPump,
    read: Result<u32, &str>,
    outcome: ReadOutcome,
    after: RfPump,
) -> bool {
    &&& after.rate_hz == was.rate_hz && after.buf_len == was.buf_len
    &&& read matches Ok(n) ==> {
        let got = after.stats.total_samples - was.stats.total_samples;
        &&& got == (if n <= was.buf_len {
            n as int
        } else {
            was.buf_len as int
        })
        &&& after.stats.win_samples - was.stats.win_samples == got
        &&& outcome == (if got == 0 {
            ReadOutcome::Nothing
        } else {
            ReadOutcome::Pairs(got as u32)
        })
        &&& after.stats.total_errors == was.stats.total_errors
    }
    &&& read is Err ==> {
        &&& outcome == ReadOutcome::Ended
        &&& after.stats.total_errors == was.stats.total_errors + 1
        &&& after.stats.total_samples == was.stats.total_samples
    }
    &&& after.stats.total_dropped == was.stats.total_dropped
}

impl RfPump {
    pub open spec fn wf(&self) -> bool {
        &&& self.stats.wf()
        &&& self.rate_hz <= 0x100_0000_0000
        &&& self.buf_len == block_len(self.rate_hz as int)
    }

    pub fn new(rate_hz: u64, now: u64) -> (r: RfPump)
        requires
            rate_hz <= 0x100_0000_0000,
        ensures
            r.wf(),
            r.rate_hz == rate_hz,
            r.stats.since == now,
            r.stats.total_samples == 0 && r.stats.total_dropped == 0,
            r.stats.total_keyed == 0 && r.stats.total_errors == 0,
            r.stats.first_error is None,
    {
        RfPump { rate_hz, buf_len: buf_len_for(rate_hz), stats: RxStats::new(now) }
    }

    /// What a batch of control messages asks for. Shutting down comes before
    /// everything else in the batch.
    pub fn steps(&self, pending: &Pending) -> (r: RfSteps)
        ensures
            r.shutdown == pending.shutdown,
            pending.shutdown ==> r.rate is None && r.center is None && r.lna_gain is None
                && r.vga_gain is None && r.clk_external is None,
            !pending.shutdown ==> r.rate == pending.rate && r.center == pending.center
                && r.lna_gain == pending.lna_gain && r.vga_gain == pending.vga_gain
                && r.clk_external == pending.clk_external,
            are_rf_steps(*pending, r),
    {
        if pending.shutdown {
            return RfSteps {
                shutdown: true,
                rate: None,
                center: None,
                lna_gain: None,
                vga_gain: None,
                clk_external: None,
            };
        }
        RfSteps {
            shutdown: false,
            rate: pending.rate,
            center: pending.center,
            lna_gain: pending.lna_gain,
            vga_gain: pending.vga_gain,
            clk_external: pending.clk_external,
        }
    }

    /// The hardware answered a rate change: with the rate it is at now, or with
    /// a failure, after which the old rate is still what is programmed. The
    /// block length to start the stream with.
    pub fn on_rate(&mut self, actual: Option<u64>) -> (r: u32)
        requires
            old(self).wf(),
            actual matches Some(hz) ==> hz <= 0x100_0000_0000,
        ensures
            final(self).wf(),
            final(self).rate_hz == (match actual {
                Some(hz) => hz,
                None => old(self).rate_hz,
            }),
            r == final(self).buf_len,
            final(self).stats == old(self).stats,
            took_rate(*old(self), actual, r, *final(self)),
    {
        match actual {
            Some(hz) => {
                self.rate_hz = hz;
                self.buf_len = buf_len_for(hz);
            },
            None => {},
        }
        self.buf_len
    }

    /// A read came back: `Ok` with the number of pairs, or with the text of its
    /// failure, which ends the stream: nothing distinguishes a transient error
    /// from a dead device.
    pub fn on_read(&mut self, read: Result<u32, &str>) -> (r: ReadOutcome)
        requires
            old(self).wf(),
            old(self).stats.total_errors < u64::MAX,
            old(self).stats.total_samples + old(self).buf_len <= u64::MAX,
        ensures
            final(self).wf(),
            final(self).rate_hz == old(self).rate_hz,
            final(self).buf_len == old(self).buf_len,
            read matches Ok(n) ==> {
                let pairs = if n < old(self).buf_len {
                    n
                } else {
                    old(self).buf_len
                };
                &&& r == (if pairs == 0 {
                    ReadOutcome::Nothing
                } else {
                    ReadOutcome::Pairs(pairs)
                })
                &&& final(self).stats == (RxStats {
                    win_samples: (old(self).stats.win_samples + pairs) as u64,
                    total_samples: (old(self).stats.total_samples + pairs) as u64,
                    ..old(self).stats
                })
            },
            read matches Err(text) ==> {
                &&& r == ReadOutcome::Ended
                &&& final(self).stats == (RxStats {
                    win_errors: (old(self).stats.win_errors + 1) as u64,
                    total_errors: (old(self).stats.total_errors + 1) as u64,
                    first_error: final(self).stats.first_error,
                    ..old(self).stats
                })
                &&& final(self).stats.first_error is Some
                &&& old(self).stats.first_error is None ==> final(self).stats.first_error->0@ == text@
                &&& old(self).stats.first_error is Some ==> final(self).stats.first_error == old(
                    self).stats.first_error
            },
            took_read(*old(self), read, r, *final(self)),
    {
        match read {
            Ok(n) => {
                let pairs: u32 = if n < self.buf_len {
                    n
                } else {
                    self.buf_len
                };
                self.stats.on_iq(pairs as usize);
                if pairs == 0 {
                    ReadOutcome::Nothing
                } else {
                    ReadOutcome::Pairs(pairs)
                }
            },
            Err(text) => {
                self.stats.on_error(text);
                ReadOutcome::Ended
            },
        }
    }

    /// Offer the good part of a block to the ring.
    pub fn deliver(&mut self, rx: &mut rtrb::Producer<u32>, block: &[u32], paused: bool)
        requires
            old(self).wf(),
            old(self).stats.total_dropped + block@.len() <= u64::MAX,
            old(self).stats.total_keyed + block@.len() <= u64::MAX,
        ensures
            final(self).wf(),
            final(self).rate_hz == old(self).rate_hz,
            final(self).buf_len == old(self).buf_len,
            word_room(*final(rx)) == word_room(*old(rx)),
            ({
                ||| {
                    &&& word_written(*final(rx)) == word_written(*old(rx)) + block@
                    &&& final(self).stats == old(self).stats
                }
                ||| {
                    &&& block@.len() > word_open(*old(rx))
                    &&& block@.len() > word_open(*final(rx))
                    &&& word_written(*final(rx)) == word_written(*old(rx))
                    &&& final(self).stats == dropped_stats(
                        old(self).stats,
                        block@.len() as int / 2,
                        paused,
                    )
                    &&& word_written(*old(rx)).len() + block@.len() > word_room(*old(rx))
                }
            }),
    {
        push_iq(rx, block, 2, &mut self.stats, paused);
    }
}

// ---------------------------------------------------------------------------
// The HF ports
// ---------------------------------------------------------------------------

/// What a batch of control messages asks for on the HF ports. Rate changes and
/// the tuner's gains have no effect there.
#[derive(Clone, Copy, Debug, PartialEq, Eq, Structural)]
pub struct HfSteps {
    pub shutdown: bool,
    /// Retune the downconverter.
    pub retune: Option<u64>,
    pub clk_external: Option<bool>,
}

/// What became of a raw block that was handed over.
#[derive(Clone, Copy, Debug, PartialEq, Eq, Structural)]
pub enum Handoff {
    Taken,
    /// The downconverter is behind.
    Full,
    /// There is no downconverter any more.
    Gone,
}

/// The HF ports' pump: blocks on the hardware read and hands the raw block on.
pub struct HfPump {
    pub buf_len: u32,
    pub dropped: u64,
    pub streamed_yet: bool,
    /// Reads tried again since the stream was started.
    pub retries: u32,
}

/// Whether these are the steps that a batch asks for.
pub open spec fn are_hf_steps(pending: Pending, r: HfSteps) -> bool {
    if pending.shutdown {
        r.shutdown && r.retune is None && r.clk_external is None
    } else {
        !r.shutdown && r.retune == pending.center && r.clk_external == pending.clk_external
    }
}

/// Whether a pump took in what a read gave.
pub open spec fn took_hf_read(
    was: HfPump,
    read: Option<u32>,
    outcome: ReadOutcome,
    after: HfPump,
) -> bool {
    &&& after.buf_len == was.buf_len && after.dropped == was.dropped
    &&& after.streamed_yet == (was.streamed_yet || read is Some)
    &&& read matches Some(n) ==> after.retries == was.retries && outcome == (if n == 0
        || was.buf_len == 0 {
        ReadOutcome::Nothing
    } else if n <= was.buf_len {
        ReadOutcome::Pairs(n)
    } else {
        ReadOutcome::Pairs(was.buf_len)
    })
    &&& read is None && (was.streamed_yet || was.retries >= 5) ==> outcome == ReadOutcome::Ended
        && after.retries == was.retries
    &&& read is None && !was.streamed_yet && was.retries < 5 ==> outcome == ReadOutcome::Retry
        && after.retries == was.retries + 1
}

/// Whether a pump took in what became of a block: a warning at every power of two
/// of dropped ones.
pub open spec fn took_handoff(was: HfPump, h: Handoff, r: (bool, bool), after: HfPump) -> bool {
    &&& r.0 == (h is Gone)
    &&& h is Full ==> after.dropped == was.dropped + 1 && r.1 == (exists|k: nat|
        after.dropped == #[trigger] pow2(k))
    &&& !(h is Full) ==> after.dropped == was.dropped && !r.1
    &&& after.streamed_yet == was.streamed_yet && after.retries == was.retries
}

impl HfPump {
    pub fn new(adc_rate_hz: u64) -> (r: HfPump)
        requires
            adc_rate_hz <= 0x100_0000_0000,
        ensures
            r.buf_len == block_len(adc_rate_hz as int),
            r.dropped == 0 && !r.streamed_yet && r.retries == 0,
    {
        HfPump { buf_len: buf_len_for(adc_rate_hz), dropped: 0, streamed_yet: false, retries: 0 }
    }

    /// What a batch of control messages asks for.
    pub fn steps(&self, pending: &Pending) -> (r: HfSteps)
        ensures
            r.shutdown == pending.shutdown,
            pending.shutdown ==> r.retune is None && r.clk_external is None,
            !pending.shutdown ==> r.retune == pending.center && r.clk_external
                == pending.clk_external,
            are_hf_steps(*pending, r),
    {
        if pending.shutdown {
            return HfSteps { shutdown: true, retune: None, clk_external: None };
        }
        HfSteps { shutdown: false, retune: pending.center, clk_external: pending.clk_external }
    }

    /// A read came back, with the number of samples, or with a failure. Before
    /// the stream has ever produced a real read a failure is tried again a few
    /// times; afterwards it ends the stream.
    pub fn on_read(&mut self, read: Option<u32>) -> (r: ReadOutcome)
        ensures
            final(self).buf_len == old(self).buf_len,
            final(self).dropped == old(self).dropped,
            read matches Some(n) ==> {
                let m = if n < old(self).buf_len {
                    n
                } else {
                    old(self).buf_len
                };
                &&& r == (if m == 0 {
                    ReadOutcome::Nothing
                } else {
                    ReadOutcome::Pairs(m)
                })
                &&& final(self).streamed_yet
                &&& final(self).retries == old(self).retries
            },
            read is None ==> {
                let again = !old(self).streamed_yet && old(self).retries < 5;
                &&& r == (if again {
                    ReadOutcome::Retry
                } else {
                    ReadOutcome::Ended
                })
                &&& final(self).streamed_yet == old(self).streamed_yet
                &&& final(self).retries == old(self).retries + (if again {
                    1int
                } else {
                    0int
                })
            },
            took_hf_read(*old(self), read, r, *final(self)),
    {
        match read {
            Some(n) => {
                self.streamed_yet = true;
                let m: u32 = if n < self.buf_len {
                    n
                } else {
                    self.buf_len
                };
                if m == 0 {
                    ReadOutcome::Nothing
                } else {
                    ReadOutcome::Pairs(m)
                }
            },
            None => {
                if !self.streamed_yet && self.retries < HF_STARTUP_READ_RETRIES {
                    self.retries = self.retries + 1;
                    ReadOutcome::Retry
                } else {
                    ReadOutcome::Ended
                }
            },
        }
    }

    /// What became of the block. Dropping it when the downconverter is behind,
    /// rather than waiting until there is room, is what keeps the hardware read
    /// at its own pace. True, in the second place, when a warning about dropped
    /// blocks is due: at every power of two.
    pub fn on_handoff(&mut self, h: Handoff) -> (r: (bool, bool))
        requires
            old(self).dropped < 0x4000_0000_0000_0000,
        ensures
            final(self).buf_len == old(self).buf_len,
            final(self).streamed_yet == old(self).streamed_yet,
            final(self).retries == old(self).retries,
            r.0 == (h == Handoff::Gone),
            final(self).dropped == old(self).dropped + (if h == Handoff::Full {
                1int
            } else {
                0int
            }),
            r.1 == (h == Handoff::Full && exists|k: nat| final(self).dropped == #[trigger] pow2(k)),
            took_handoff(*old(self), h, r, *final(self)),
    {
        match h {
            Handoff::Taken => (false, false),
            Handoff::Gone => (true, false),
            Handoff::Full => {
                self.dropped = self.dropped + 1;
                let p: u64 = next_power_of_two(self.dropped);
                proof {
                    if exists|k: nat| self.dropped == #[trigger] pow2(k) {
                        let k = choose|k: nat| self.dropped == #[trigger] pow2(k);
                        let j = choose|j: nat| p == #[trigger] pow2(j);
                        lemma_pow2_between(k, j);
                    }
                }
                (false, p == self.dropped)
            },
        }
    }
}

proof fn lemma_pow2_positive(k: nat)
    ensures
        pow2(k) >= 1,
    decreases k,
{
    if k > 0 {
        lemma_pow2_positive((k - 1) as nat);
    }
}

proof fn lemma_pow2_doubles(a: nat, b: nat)
    requires
        a < b,
    ensures
        2 * pow2(a) <= pow2(b),
    decreases b,
{
    if a + 1 < b {
        lemma_pow2_doubles(a, (b - 1) as nat);
        lemma_pow2_positive((b - 1) as nat);
    }
}

/// Between a power of two and its double there is no other.
proof fn lemma_pow2_between(k: nat, j: nat)
    requires
        pow2(k) <= pow2(j),
        pow2(j) == 1 || pow2(j) < 2 * pow2(k),
    ensures
        pow2(k) == pow2(j),
{
    lemma_pow2_positive(k);
    if k < j {
        lemma_pow2_doubles(k, j);
    } else if j < k {
        lemma_pow2_doubles(j, k);
        lemma_pow2_positive(j);
    }
}

/// One channel of a direct-sampling block: HF1 in the even places, HF2 in the
/// odd ones.
pub open spec fn channel(block: Seq<u32>, odd: bool) -> Seq<u32> {
    Seq::new(
        block.len() / 2,
        |i: int|
            block[2 * i + (if odd {
                1int
            } else {
                0int
            })],
    )
}

/// One channel of a direct-sampling block: HF1 in the even places, HF2 in the
/// odd ones.
pub fn channel_of(block: &Vec<u32>, odd: bool) -> (r: Vec<u32>)
    ensures
        r@ == channel(block@, odd),
{
    let n: usize = block.len() / 2;
    let o: usize = if odd {
        1
    } else {
        0
    };
    let mut out: Vec<u32> = Vec::new();
    let mut i: usize = 0;
    while i < n
        invariant
            i <= n,
            n == block@.len() / 2,
            2 * n <= usize::MAX,
            o == (if odd {
                1int
            } else {
                0int
            }),
            out.len() == i,
            forall|k: int| 0 <= k < i ==> #[trigger] out@[k] == channel(block@, odd)[k],
        decreases n - i,
    {
        out.push(block[2 * i + o]);
        i = i + 1;
    }
    assert(out@ =~= channel(block@, odd));
    out
}

/// Whether a port reads the odd channel.
pub open spec fn is_odd_port(port: Port) -> bool {
    !(port is Hf1)
}

/// Which channel of a direct-sampling block a port reads.
pub fn reads_odd_channel(port: Port) -> (r: bool)
    ensures
        r == (port != Port::Hf1),
        r == is_odd_port(port),
{
    match port {
        Port::Hf1 => false,
        _ => true,
    }
}

/// The number of sample pairs that both channels have.
pub open spec fn common_pairs(main: Seq<u32>, aux: Seq<u32>) -> nat {
    if main.len() < aux.len() {
        main.len() / 2
    } else {
        aux.len() / 2
    }
}

/// Interleave two channels' I,Q values into four lanes: main I, main Q, aux I,
/// aux Q. As many sample pairs as both have.
pub fn interleave_pair(main: &Vec<u32>, aux: &Vec<u32>) -> (r: Vec<u32>)
    ensures
        r@ == quads(main@, aux@, common_pairs(main@, aux@)),
{
    let n: usize = if main.len() < aux.len() {
        main.len() / 2
    } else {
        aux.len() / 2
    };
    let ghost want = quads(main@, aux@, n as nat);
    let mut out: Vec<u32> = Vec::new();
    let mut s: usize = 0;
    while s < n
        invariant
            s <= n,
            2 * n <= main@.len(),
            2 * n <= aux@.len(),
            2 * n <= usize::MAX,
            want == quads(main@, aux@, n as nat),
            out@ == want.take(4 * s),
        decreases n - s,
    {
        out.push(main[2 * s]);
        out.push(main[2 * s + 1]);
        out.push(aux[2 * s]);
        out.push(aux[2 * s + 1]);
        proof {
            let b = 4 * s as int;
            assert(b / 4 == s && b % 4 == 0 && (b + 1) / 4 == s && (b + 1) % 4 == 1 && (b + 2) / 4 == s
                && (b + 2) % 4 == 2 && (b + 3) / 4 == s && (b + 3) % 4 == 3);
            assert(out@ =~= want.take(b + 4));
        }
        s = s + 1;
    }
    assert(want.take(4 * n) =~= want);
    out
}

/// The description of a receiver for logs and the UI.
pub open spec fn label_text(serial: Seq<char>, port: Port) -> Seq<char> {
    "Fobos SDR "@ + serial + " ("@ + (match port {
        Port::Rf => "RF port"@,
        Port::Hf1 => "HF1"@,
        Port::Hf2 => "HF2"@,
        Port::HfDual => "HF1+HF2, diversity"@,
    }) + ")"@
}

/// The description of a receiver for logs and the UI.
pub fn label(serial: &str, port: Port) -> (r: String)
    ensures
        r@ == label_text(serial@, port),
{
    let mut s: String = String::from_str("Fobos SDR ");
    s.append(serial);
    s.append(" (");
    s.append(
        match port {
            Port::Rf => "RF port",
            Port::Hf1 => "HF1",
            Port::Hf2 => "HF2",
            Port::HfDual => "HF1+HF2, diversity",
        },
    );
    s.append(")");
    s
}

} // verus!
