//! The handle's side of a stream: control messages, accounting, and the two
//! sample rings.
//!
//! **The rings carry bytes.** The wire format is one signed byte per component,
//! so the ring carries that and the conversion happens on the consumer side.
//!
//! **A transmit transition cannot be coalesced.** [`Pending`] is
//! last-value-wins, which is right for a dial and catastrophic for a key-down.
//! Direction changes therefore ride an ordered queue beside the collapsible
//! fields.
//!
//! **Silence is not death while transmitting.** There is no receive traffic
//! during an over, so [`silent_for_ms`] reports zero while the transmitter is
//! keyed.
//!
//! Frequencies and rates are in millihertz, gains in thousandths of a decibel,
//! times in microseconds of a monotonic clock.
use crate::ring::{
    byte_capacity, byte_depth, byte_free, byte_open, byte_read, byte_ready, byte_ring, byte_room,
    byte_seen, byte_taken, byte_write, byte_written, is_next_pow2, lemma_pow2_even,
    next_power_of_two, pow2,
};
use crate::text::{
    dec, dec_hundredths, dec_tenths, decimal, decimal_hundredths, decimal_tenths, decimal_wide,
    round_ratio, rounded,
};
use std::collections::VecDeque;
use vstd::prelude::*;

verus! {

/// How often the stream thread emits a throughput line.
pub const STATS_INTERVAL_US: u64 = 2_000_000;

/// One signed byte per component.
pub const BYTES_PER_SAMPLE: usize = 2;

/// A bulk packet of the USB endpoint.
pub const BULK_PACKET: usize = 512;

/// How much of the stream the RX ring holds, and the ceiling on that: four times
/// the engine's block period at every rate this radio runs, and capped so that a
/// rate change does not quietly triple the process's memory.
pub const RX_RING_MS: u64 = 120;

pub const RX_RING_MAX: usize = 0x80_0000;

/// How much the TX ring holds: longer, since it absorbs scheduling jitter
/// between the modulator and the USB pump.
pub const TX_RING_MS: u64 = 200;

pub const TX_RING_MAX: usize = 0x80_0000;

/// A change of direction. Ordered, never collapsed.
#[derive(Clone, Copy, Debug, PartialEq, Eq, Structural)]
pub enum TxTransition {
    Begin { center_mhz: u64 },
    End,
    /// Retune while keyed, for split and for a dial moved mid-over.
    Freq(u64),
}

/// A gain stage.
#[derive(Clone, Copy, Debug, PartialEq, Eq, Structural)]
pub enum GainSetter {
    Lna,
    Vga,
    TxVga,
}

/// A control message for the stream thread.
#[derive(Clone, Copy, Debug, PartialEq, Eq, Structural)]
pub enum Ctrl {
    Center(u64),
    Rate(u64),
    FilterBw(u64),
    /// The clock trim, in thousandths of a part per million.
    Ppm(i64),
    Gain(GainSetter, i64),
    Amp { tx: bool, on: bool },
    BiasTee(bool),
    Tx(TxTransition),
    Shutdown,
}

/// Control messages accumulated over one pass of the thread loop.
///
/// A retune is one control transfer and dragging the panadapter emits hundreds
/// of `Center` messages a second, so the collapsible fields are reduced to
/// last-value-wins, which is exactly the right semantics for a dial, and exactly
/// the wrong one for [`TxTransition`], which is why that keeps its own ordered
/// queue.
pub struct Pending {
    pub center: Option<u64>,
    pub rate: Option<u64>,
    pub filter_bw: Option<u64>,
    pub ppm: Option<i64>,
    pub lna: Option<i64>,
    pub vga: Option<i64>,
    pub txvga: Option<i64>,
    pub amp: Option<bool>,
    pub tx_amp: Option<bool>,
    pub bias_tee: Option<bool>,
    pub tx: VecDeque<TxTransition>,
    pub shutdown: bool,
}

/// A [`Pending`] as a value.
pub struct PendingState {
    pub center: Option<u64>,
    pub rate: Option<u64>,
    pub filter_bw: Option<u64>,
    pub ppm: Option<i64>,
    pub lna: Option<i64>,
    pub vga: Option<i64>,
    pub txvga: Option<i64>,
    pub amp: Option<bool>,
    pub tx_amp: Option<bool>,
    pub bias_tee: Option<bool>,
    pub tx: Seq<TxTransition>,
    pub shutdown: bool,
}

impl View for Pending {
    type V = PendingState;

    open spec fn view(&self) -> PendingState {
        PendingState {
            center: self.center,
            rate: self.rate,
            filter_bw: self.filter_bw,
            ppm: self.ppm,
            lna: self.lna,
            vga: self.vga,
            txvga: self.txvga,
            amp: self.amp,
            tx_amp: self.tx_amp,
            bias_tee: self.bias_tee,
            tx: self.tx@,
            shutdown: self.shutdown,
        }
    }
}

/// Nothing pending.
pub open spec fn nothing() -> PendingState {
    PendingState {
        center: None,
        rate: None,
        filter_bw: None,
        ppm: None,
        lna: None,
        vga: None,
        txvga: None,
        amp: None,
        tx_amp: None,
        bias_tee: None,
        tx: Seq::empty(),
        shutdown: false,
    }
}

/// The queue of direction changes with one more: a run of retunes while keyed
/// collapses onto itself, but never across a Begin or an End.
pub open spec fn queued(tx: Seq<TxTransition>, t: TxTransition) -> Seq<TxTransition> {
    if t is Freq && tx.len() > 0 && tx.last() is Freq {
        tx.drop_last().push(t)
    } else {
        tx.push(t)
    }
}

impl PendingState {
    /// With one more message taken in.
    pub open spec fn with(self, c: Ctrl) -> PendingState {
        match c {
            Ctrl::Center(v) => PendingState { center: Some(v), ..self },
            Ctrl::Rate(v) => PendingState { rate: Some(v), ..self },
            Ctrl::FilterBw(v) => PendingState { filter_bw: Some(v), ..self },
            Ctrl::Ppm(v) => PendingState { ppm: Some(v), ..self },
            Ctrl::Gain(stage, v) => match stage {
                GainSetter::Lna => PendingState { lna: Some(v), ..self },
                GainSetter::Vga => PendingState { vga: Some(v), ..self },
                GainSetter::TxVga => PendingState { txvga: Some(v), ..self },
            },
            Ctrl::Amp { tx, on } => if tx {
                PendingState { tx_amp: Some(on), ..self }
            } else {
                PendingState { amp: Some(on), ..self }
            },
            Ctrl::BiasTee(v) => PendingState { bias_tee: Some(v), ..self },
            Ctrl::Tx(t) => PendingState { tx: queued(self.tx, t), ..self },
            Ctrl::Shutdown => PendingState { shutdown: true, ..self },
        }
    }
}

impl Default for Pending {
    fn default() -> (r: Self)
        ensures
            r@ == nothing(),
    {
        Pending {
            center: None,
            rate: None,
            filter_bw: None,
            ppm: None,
            lna: None,
            vga: None,
            txvga: None,
            amp: None,
            tx_amp: None,
            bias_tee: None,
            tx: VecDeque::new(),
            shutdown: false,
        }
    }
}

impl Pending {
    pub fn absorb(&mut self, c: Ctrl)
        ensures
            final(self)@ == old(self)@.with(c),
    {
        match c {
            Ctrl::Center(v) => {
                self.center = Some(v);
            },
            Ctrl::Rate(v) => {
                self.rate = Some(v);
            },
            Ctrl::FilterBw(v) => {
                self.filter_bw = Some(v);
            },
            Ctrl::Ppm(v) => {
                self.ppm = Some(v);
            },
            Ctrl::Gain(stage, v) => {
                match stage {
                    GainSetter::Lna => {
                        self.lna = Some(v);
                    },
                    GainSetter::Vga => {
                        self.vga = Some(v);
                    },
                    GainSetter::TxVga => {
                        self.txvga = Some(v);
                    },
                }
            },
            Ctrl::Amp { tx, on } => {
                if tx {
                    self.tx_amp = Some(on);
                } else {
                    self.amp = Some(on);
                }
            },
            Ctrl::BiasTee(v) => {
                self.bias_tee = Some(v);
            },
            Ctrl::Tx(t) => {
                let retune: bool = match t {
                    TxTransition::Freq(_hz) => true,
                    _ => false,
                };
                if retune {
                    match self.tx.pop_back() {
                        Some(last) => {
                            let run: bool = match last {
                                TxTransition::Freq(_hz) => true,
                                _ => false,
                            };
                            if !run {
                                self.tx.push_back(last);
                            }
                        },
                        None => {},
                    }
                }
                self.tx.push_back(t);
                assert(self.tx@ =~= queued(old(self).tx@, t));
            },
            Ctrl::Shutdown => {
                self.shutdown = true;
            },
        }
    }

    pub fn is_empty(&self) -> (r: bool)
        ensures
            r == (self@ == nothing()),
    {
        let r: bool = self.center.is_none() && self.rate.is_none() && self.filter_bw.is_none()
            && self.ppm.is_none() && self.lna.is_none() && self.vga.is_none()
            && self.txvga.is_none() && self.amp.is_none() && self.tx_amp.is_none()
            && self.bias_tee.is_none() && self.tx.len() == 0 && !self.shutdown;
        proof {
            if self.tx@.len() == 0 {
                assert(self.tx@ =~= Seq::empty());
            }
        }
        r
    }
}

/// A batch of messages taken in one after the other.
pub open spec fn absorbed(p: PendingState, batch: Seq<Ctrl>) -> PendingState
    decreases batch.len(),
{
    if batch.len() == 0 {
        p
    } else {
        absorbed(p, batch.drop_last()).with(batch.last())
    }
}

/// Shutdown survives anything that arrives after it in the same batch.
pub proof fn shutdown_is_sticky(p: PendingState, batch: Seq<Ctrl>)
    requires
        p.shutdown || batch.contains(Ctrl::Shutdown),
    ensures
        absorbed(p, batch).shutdown,
    decreases batch.len(),
{
    if batch.len() > 0 && batch.last() != Ctrl::Shutdown {
        let rest = batch.drop_last();
        if !p.shutdown {
            let i = choose|i: int| 0 <= i < batch.len() && batch[i] == Ctrl::Shutdown;
            assert(rest[i] == Ctrl::Shutdown);
        }
        shutdown_is_sticky(p, rest);
    }
}

/// The key-downs and key-ups of a batch, in order.
pub open spec fn keyings(batch: Seq<Ctrl>) -> Seq<TxTransition>
    decreases batch.len(),
{
    if batch.len() == 0 {
        Seq::empty()
    } else {
        match batch.last() {
            Ctrl::Tx(t) => if t is Freq {
                keyings(batch.drop_last())
            } else {
                keyings(batch.drop_last()).push(t)
            },
            _ => keyings(batch.drop_last()),
        }
    }
}

/// The key-downs and key-ups of a queue, in order.
pub open spec fn keyed_part(tx: Seq<TxTransition>) -> Seq<TxTransition>
    decreases tx.len(),
{
    if tx.len() == 0 {
        Seq::empty()
    } else if tx.last() is Freq {
        keyed_part(tx.drop_last())
    } else {
        keyed_part(tx.drop_last()).push(tx.last())
    }
}

/// However many messages a batch holds, no key-down and no key-up in it is lost,
/// doubled or moved.
pub proof fn no_transition_is_coalesced_away(batch: Seq<Ctrl>)
    ensures
        keyed_part(absorbed(nothing(), batch).tx) == keyings(batch),
    decreases batch.len(),
{
    if batch.len() > 0 {
        let rest = batch.drop_last();
        no_transition_is_coalesced_away(rest);
        let tx = absorbed(nothing(), rest).tx;
        match batch.last() {
            Ctrl::Tx(t) => {
                let q = queued(tx, t);
                if t is Freq && tx.len() > 0 && tx.last() is Freq {
                    assert(q.drop_last() =~= tx.drop_last());
                } else {
                    assert(q.drop_last() =~= tx);
                }
            },
            _ => {},
        }
    } else {
        assert(keyed_part(nothing().tx) =~= keyings(batch));
    }
}

/// Two retunes never stand next to each other in the queue.
pub open spec fn retunes_apart(tx: Seq<TxTransition>) -> bool {
    forall|i: int| 0 <= i < tx.len() - 1 ==> !(#[trigger] tx[i] is Freq && tx[i + 1] is Freq)
}

/// A run of retunes collapses to one, whatever the batch.
pub proof fn retunes_collapse_within_a_run(batch: Seq<Ctrl>)
    ensures
        retunes_apart(absorbed(nothing(), batch).tx),
    decreases batch.len(),
{
    if batch.len() > 0 {
        retunes_collapse_within_a_run(batch.drop_last());
    }
}

// ---------------------------------------------------------------------------
// Accounting
// ---------------------------------------------------------------------------

/// Throughput and health accounting.
pub struct RxStats {
    /// The rate the radio was set to.
    pub nominal_mhz: u64,
    /// When the first sample arrived. Not the thread start: identifying and
    /// configuring the radio is a dozen control transfers before the first
    /// sample appears.
    pub first_iq: Option<u64>,
    /// When the window began.
    pub since: u64,
    pub win_samples: u64,
    pub win_dropped: u64,
    /// Discarded while the engine was not reading this receiver because the
    /// station was transmitting. Not a fault.
    pub win_keyed: u64,
    pub win_errors: u64,
    /// Samples since the first one.
    pub total_samples: u64,
    pub total_dropped: u64,
    pub total_keyed: u64,
    pub total_errors: u64,
    pub stalls: u64,
}

/// Times and counts that the arithmetic on them can take: two thousand years,
/// and a century of samples.
pub open spec fn in_range(v: u64) -> bool {
    v <= 0x100_0000_0000_0000
}

/// What the throughput line says was thrown away while keyed.
pub open spec fn keyed_text(window: nat, total: nat) -> Seq<char> {
    if window == 0 {
        Seq::empty()
    } else {
        "; "@ + dec(window)
            + " sample(s) discarded while keyed (expected — this receiver is not read during an over); "@
            + dec(total) + " discarded while keyed in total"@
    }
}

/// The ratio in tenths, with its sign: one that rounds to nothing keeps it.
pub open spec fn signed_tenths(a: int, b: nat) -> Seq<char> {
    if a < 0 {
        "-"@ + dec_tenths(rounded((-a) as nat, b))
    } else {
        "+"@ + dec_tenths(rounded(a as nat, b))
    }
}

/// Whether the accounts were told and a new window begun, once two seconds were
/// over: the window starts from nothing, and the totals go on.
pub open spec fn ticked(
    was: RxStats,
    now: u64,
    told: Option<(bool, String)>,
    after: RxStats,
) -> bool {
    &&& told is Some <==> now >= was.since + 2_000_000
    &&& told matches Some((warn, line)) ==> warn == was.is_bad() && line@ == was.line(now)
    &&& told is Some ==> after.since == now && after.win_samples == 0 && after.win_dropped == 0
        && after.win_keyed == 0 && after.win_errors == 0
    &&& told is None ==> after == was
    &&& after.total_samples == was.total_samples && after.total_dropped == was.total_dropped
    &&& after.total_keyed == was.total_keyed && after.total_errors == was.total_errors
}

impl RxStats {
    pub open spec fn wf(&self) -> bool {
        &&& 0 <= self.nominal_mhz <= 0x100_0000_0000
        &&& in_range(self.since)
        &&& in_range(self.win_samples)
        &&& in_range(self.total_samples)
        &&& self.win_dropped <= self.total_dropped
        &&& self.win_keyed <= self.total_keyed
        &&& self.win_errors <= self.total_errors
        &&& self.first_iq matches Some(t) ==> in_range(t)
        &&& self.first_iq is None ==> self.total_samples == 0
    }

    pub fn new(nominal_mhz: u64, now: u64) -> (r: RxStats)
        requires
            nominal_mhz <= 0x100_0000_0000,
            in_range(now),
        ensures
            r.wf(),
            r == (RxStats {
                nominal_mhz,
                first_iq: None,
                since: now,
                win_samples: 0,
                win_dropped: 0,
                win_keyed: 0,
                win_errors: 0,
                total_samples: 0,
                total_dropped: 0,
                total_keyed: 0,
                total_errors: 0,
                stalls: 0,
            }),
    {
        RxStats {
            nominal_mhz,
            first_iq: None,
            since: now,
            win_samples: 0,
            win_dropped: 0,
            win_keyed: 0,
            win_errors: 0,
            total_samples: 0,
            total_dropped: 0,
            total_keyed: 0,
            total_errors: 0,
            stalls: 0,
        }
    }

    /// Samples arrived. The clock starts at the first block, which is not itself
    /// counted: it spans an unknown interval reaching back into device setup.
    pub fn on_iq(&mut self, pairs: usize, now: u64)
        requires
            old(self).wf(),
            in_range(now),
            old(self).win_samples + pairs <= 0x100_0000_0000_0000,
            old(self).total_samples + pairs <= 0x100_0000_0000_0000,
        ensures
            final(self).wf(),
            *final(self) == (RxStats {
                win_samples: (old(self).win_samples + pairs) as u64,
                first_iq: match old(self).first_iq {
                    None => Some(now),
                    Some(t) => Some(t),
                },
                total_samples: match old(self).first_iq {
                    None => old(self).total_samples,
                    Some(t) => (old(self).total_samples + pairs) as u64,
                },
                ..*old(self)
            }),
    {
        self.win_samples = self.win_samples + pairs as u64;
        match self.first_iq {
            None => {
                self.first_iq = Some(now);
            },
            Some(_t) => {
                self.total_samples = self.total_samples + pairs as u64;
            },
        }
    }

    pub fn on_dropped(&mut self, pairs: usize)
        requires
            old(self).wf(),
            old(self).total_dropped + pairs <= u64::MAX,
        ensures
            final(self).wf(),
            *final(self) == (RxStats {
                win_dropped: (old(self).win_dropped + pairs) as u64,
                total_dropped: (old(self).total_dropped + pairs) as u64,
                ..*old(self)
            }),
    {
        self.win_dropped = self.win_dropped + pairs as u64;
        self.total_dropped = self.total_dropped + pairs as u64;
    }

    /// Record complex samples discarded because the ring was full while the
    /// station was transmitting: expected, at exactly the sample rate, for as
    /// long as the operator transmits.
    pub fn on_dropped_keyed(&mut self, pairs: usize)
        requires
            old(self).wf(),
            old(self).total_keyed + pairs <= u64::MAX,
        ensures
            final(self).wf(),
            *final(self) == (RxStats {
                win_keyed: (old(self).win_keyed + pairs) as u64,
                total_keyed: (old(self).total_keyed + pairs) as u64,
                ..*old(self)
            }),
    {
        self.win_keyed = self.win_keyed + pairs as u64;
        self.total_keyed = self.total_keyed + pairs as u64;
    }

    /// What this receiver threw away while the station was transmitting, phrased
    /// so it cannot be read as a fault.
    pub fn keyed_note(&self) -> (r: String)
        ensures
            r@ == keyed_text(self.win_keyed as nat, self.total_keyed as nat),
    {
        if self.win_keyed == 0 {
            return String::new();
        }
        let mut s: String = String::from_str("; ");
        s.append(decimal(self.win_keyed).as_str());
        s.append(
            " sample(s) discarded while keyed (expected — this receiver is not read during an over); ",
        );
        s.append(decimal(self.total_keyed).as_str());
        s.append(" discarded while keyed in total");
        s
    }

    pub fn on_error(&mut self)
        requires
            old(self).wf(),
            old(self).total_errors < u64::MAX,
        ensures
            final(self).wf(),
            *final(self) == (RxStats {
                win_errors: (old(self).win_errors + 1) as u64,
                total_errors: (old(self).total_errors + 1) as u64,
                ..*old(self)
            }),
    {
        self.win_errors = self.win_errors + 1;
        self.total_errors = self.total_errors + 1;
    }

    /// The endpoint stalled, which is an error too.
    pub fn on_stall(&mut self)
        requires
            old(self).wf(),
            old(self).total_errors < u64::MAX,
            old(self).stalls < u64::MAX,
        ensures
            final(self).wf(),
            *final(self) == (RxStats {
                stalls: (old(self).stalls + 1) as u64,
                win_errors: (old(self).win_errors + 1) as u64,
                total_errors: (old(self).total_errors + 1) as u64,
                ..*old(self)
            }),
    {
        self.stalls = self.stalls + 1;
        self.on_error();
    }

    /// Reset the clock measurement: an over is a gap in the receive stream and
    /// counting it as slow samples would report a wildly negative clock error.
    pub fn restart_clock(&mut self)
        requires
            old(self).wf(),
        ensures
            final(self).wf(),
            *final(self) == (RxStats { first_iq: None, total_samples: 0, ..*old(self) }),
    {
        self.first_iq = None;
        self.total_samples = 0;
    }

    /// How long the clock has been measured.
    pub open spec fn measured_us(&self, now: u64) -> int {
        match self.first_iq {
            Some(t) => now - t,
            None => 0,
        }
    }

    /// Whether the measurement means anything yet: below 20 s the host's own
    /// scheduling jitter dominates.
    pub open spec fn is_measured(&self, now: u64) -> bool {
        self.measured_us(now) >= 20_000_000 && self.total_samples > 0 && self.nominal_mhz > 0
    }

    /// What the clock should have counted, in thousandths of a millionth of a
    /// sample.
    pub open spec fn due(&self, now: u64) -> nat {
        (self.measured_us(now) * self.nominal_mhz) as nat
    }

    pub open spec fn clock_text(&self, now: u64) -> Seq<char> {
        if self.is_measured(now) {
            "clock: "@ + dec(
                rounded((self.total_samples * 1_000_000) as nat, self.measured_us(now) as nat),
            ) + " sps, "@ + signed_tenths(
                (self.total_samples * 1_000_000_000 - self.due(now)) * 10_000_000,
                self.due(now),
            ) + " ppm"@
        } else {
            "clock: measuring"@
        }
    }

    /// The radio's sample clock measured against the host's, in ppm: the figure
    /// an operator can type into the settings tab's clock trim.
    pub fn clock_error(&self, now: u64) -> (r: String)
        requires
            self.wf(),
            in_range(now),
            self.first_iq matches Some(t) ==> t <= now,
        ensures
            r@ == self.clock_text(now),
    {
        let dt: u64 = match self.first_iq {
            Some(t) => now - t,
            None => 0,
        };
        if dt < 20_000_000 || self.total_samples == 0 || self.nominal_mhz == 0 {
            return String::from_str("clock: measuring");
        }
        let (n, d, m) = (self.total_samples as i128, dt as i128, self.nominal_mhz as i128);
        proof {
            assert(0 < d * m <= 0x100_0000_0000_0000 * 0x100_0000_0000) by (nonlinear_arith)
                requires
                    0 < d <= 0x100_0000_0000_0000,
                    0 < m <= 0x100_0000_0000,
            ;
            assert(d * m >= 20_000_000) by (nonlinear_arith)
                requires
                    d >= 20_000_000,
                    m >= 1,
            ;
        }
        let due: i128 = d * m;
        let off: i128 = (n * 1_000_000_000 - due) * 10_000_000;
        let mut s: String = String::from_str("clock: ");
        s.append(decimal_wide(round_ratio((n * 1_000_000) as u128, d as u128)).as_str());
        s.append(" sps, ");
        if off < 0 {
            s.append("-");
            s.append(decimal_tenths(round_ratio((-off) as u128, due as u128)).as_str());
        } else {
            s.append("+");
            s.append(decimal_tenths(round_ratio(off as u128, due as u128)).as_str());
        }
        s.append(" ppm");
        s
    }

    pub open spec fn summary_text(&self, now: u64) -> Seq<char> {
        dec(self.total_samples as nat) + " samples, "@ + dec(self.total_dropped as nat)
            + " dropped, "@ + dec(self.total_errors as nat) + " transfer errors, "@ + dec(
            self.stalls as nat,
        ) + " endpoint stalls; "@ + self.clock_text(now)
    }

    pub fn summary(&self, now: u64) -> (r: String)
        requires
            self.wf(),
            in_range(now),
            self.first_iq matches Some(t) ==> t <= now,
        ensures
            r@ == self.summary_text(now),
    {
        let mut s: String = decimal(self.total_samples);
        s.append(" samples, ");
        s.append(decimal(self.total_dropped).as_str());
        s.append(" dropped, ");
        s.append(decimal(self.total_errors).as_str());
        s.append(" transfer errors, ");
        s.append(decimal(self.stalls).as_str());
        s.append(" endpoint stalls; ");
        s.append(self.clock_error(now).as_str());
        s
    }

    /// How the throughput line begins: the samples of the window, its rate in
    /// kilosamples per second and its length in seconds.
    pub open spec fn opening(&self, now: u64) -> Seq<char> {
        let dt = now - self.since;
        "HackRF RX: "@ + dec(self.win_samples as nat) + " samples ("@ + dec_tenths(
            rounded((self.win_samples * 10_000) as nat, dt as nat),
        ) + " ksps) over "@ + dec_hundredths(rounded(dt as nat, 10_000)) + "s; "@
    }

    /// Whether the window is worth a warning.
    pub open spec fn is_bad(&self) -> bool {
        self.win_dropped > 0 || self.win_errors > 0
    }

    /// The throughput line of the window just ended.
    pub open spec fn line(&self, now: u64) -> Seq<char> {
        if self.is_bad() {
            self.opening(now) + dec(self.win_dropped as nat)
                + " sample(s) DROPPED (RX ring full — the DSP thread is not keeping up; try a lower sample rate), "@
                + dec(self.win_errors as nat) + " transfer error(s); totals "@ + dec(
                self.total_dropped as nat,
            ) + " dropped / "@ + dec(self.total_errors as nat) + " errors"@ + keyed_text(
                self.win_keyed as nat,
                self.total_keyed as nat,
            )
        } else {
            self.opening(now) + "total "@ + dec(self.total_samples as nat) + "; "@
                + self.clock_text(now) + keyed_text(self.win_keyed as nat, self.total_keyed as nat)
        }
    }

    fn line_of(&self, now: u64) -> (r: String)
        requires
            self.wf(),
            in_range(now),
            now - self.since >= 2_000_000,
            self.first_iq matches Some(t) ==> t <= now,
        ensures
            r@ == self.line(now),
    {
        let dt: u128 = (now - self.since) as u128;
        let mut s: String = String::from_str("HackRF RX: ");
        s.append(decimal(self.win_samples).as_str());
        s.append(" samples (");
        s.append(decimal_tenths(round_ratio(self.win_samples as u128 * 10_000, dt)).as_str());
        s.append(" ksps) over ");
        let secs: u128 = round_ratio(dt, 10_000);
        s.append(decimal_hundredths(secs as u64).as_str());
        s.append("s; ");
        if self.win_dropped > 0 || self.win_errors > 0 {
            s.append(decimal(self.win_dropped).as_str());
            s.append(
                " sample(s) DROPPED (RX ring full — the DSP thread is not keeping up; try a lower sample rate), ",
            );
            s.append(decimal(self.win_errors).as_str());
            s.append(" transfer error(s); totals ");
            s.append(decimal(self.total_dropped).as_str());
            s.append(" dropped / ");
            s.append(decimal(self.total_errors).as_str());
            s.append(" errors");
        } else {
            s.append("total ");
            s.append(decimal(self.total_samples).as_str());
            s.append("; ");
            s.append(self.clock_error(now).as_str());
        }
        s.append(self.keyed_note().as_str());
        s
    }

    /// Report on the window, once it is over: the line, and whether it is a
    /// warning. Then the next window begins.
    pub fn tick(&mut self, now: u64) -> (r: Option<(bool, String)>)
        requires
            old(self).wf(),
            in_range(now),
            now >= old(self).since,
            old(self).first_iq matches Some(t) ==> t <= now,
        ensures
            final(self).wf(),
            r is Some <==> now - old(self).since >= 2_000_000,
            r is None ==> *final(self) == *old(self),
            r matches Some((warn, line)) ==> {
                &&& warn == old(self).is_bad()
                &&& line@ == old(self).line(now)
                &&& *final(self) == (RxStats {
                    since: now,
                    win_samples: 0,
                    win_dropped: 0,
                    win_keyed: 0,
                    win_errors: 0,
                    ..*old(self)
                })
            },
            ticked(*old(self), now, r, *final(self)),
    {
        if now - self.since < STATS_INTERVAL_US {
            return None;
        }
        let warn: bool = self.win_dropped > 0 || self.win_errors > 0;
        let line: String = self.line_of(now);
        self.since = now;
        self.win_samples = 0;
        self.win_dropped = 0;
        self.win_keyed = 0;
        self.win_errors = 0;
        Some((warn, line))
    }
}

// ---------------------------------------------------------------------------
// The rings
// ---------------------------------------------------------------------------

/// The accounts with a drop of `n` samples entered.
pub open spec fn dropped_stats(s: RxStats, n: int, paused: bool) -> RxStats {
    if paused {
        RxStats {
            win_keyed: (s.win_keyed + n) as u64,
            total_keyed: (s.total_keyed + n) as u64,
            ..s
        }
    } else {
        RxStats {
            win_dropped: (s.win_dropped + n) as u64,
            total_dropped: (s.total_dropped + n) as u64,
            ..s
        }
    }
}

/// Push interleaved I/Q bytes into a ring, keeping I and Q paired.
///
/// All-or-nothing: if the ring cannot take the whole block it is dropped whole.
/// Pushing what fits would leave the ring one byte out of step, swapping I with
/// Q for the rest of the session.
///
/// `paused` says whether the engine has stopped reading for an over, which
/// decides how a full ring is accounted for: a fault, or the normal cost of
/// transmitting. It is deliberately not a reason to skip the push.
pub fn push_iq(ring: &mut rtrb::Producer<u8>, iq: &[u8], stats: &mut RxStats, paused: bool)
    requires
        iq@.len() % 2 == 0,
        old(stats).wf(),
        old(stats).total_dropped + iq@.len() <= u64::MAX,
        old(stats).total_keyed + iq@.len() <= u64::MAX,
    ensures
        final(stats).wf(),
        byte_room(*final(ring)) == byte_room(*old(ring)),
        // Taken whole, or dropped whole and counted.
        ({
            ||| {
                &&& byte_written(*final(ring)) == byte_written(*old(ring)) + iq@
                &&& *final(stats) == *old(stats)
                &&& iq@.len() <= byte_room(*old(ring))
            }
            ||| {
                &&& iq@.len() > byte_open(*old(ring))
                &&& iq@.len() > byte_open(*final(ring))
                &&& byte_written(*final(ring)) == byte_written(*old(ring))
                &&& *final(stats) == dropped_stats(*old(stats), iq@.len() as int / 2, paused)
                &&& byte_written(*old(ring)).len() + iq@.len() > byte_room(*old(ring))
            }
        }),
{
    if !byte_write(ring, iq) {
        if paused {
            stats.on_dropped_keyed(iq.len() / BYTES_PER_SAMPLE);
        } else {
            stats.on_dropped(iq.len() / BYTES_PER_SAMPLE);
        }
    }
}

/// Whether `cap` is the capacity of a ring for `want` bytes: the next power of
/// two, held between 64 KiB and `max`.
pub open spec fn is_ring_bytes(want: int, max: int, cap: int) -> bool {
    exists|p: int| #[trigger]
        is_next_pow2(want, p) && cap == (if p < 65_536 {
            65_536
        } else if p > max {
            max
        } else {
            p
        })
}

/// The bytes of a stretch of stream.
pub open spec fn stream_bytes(rate_hz: int, ms: int) -> int {
    rate_hz * 2 * ms / 1000
}

/// Size a ring in bytes for a sample rate in Hz and a length in milliseconds,
/// rounded up to a power of two and capped.
pub fn ring_bytes(rate_hz: u32, ms: u64, max: usize) -> (r: usize)
    requires
        ms <= 1000,
        65_536 <= max <= 0x1000_0000,
        max % 2 == 0,
    ensures
        is_ring_bytes(stream_bytes(rate_hz as int, ms as int), max as int, r as int),
        65_536 <= r <= max,
        r % 2 == 0,
{
    proof {
        assert(0 <= rate_hz * 2 * ms <= 0xFFFF_FFFF * 2 * 1000) by (nonlinear_arith)
            requires
                rate_hz <= 0xFFFF_FFFF,
                ms <= 1000,
        ;
    }
    let want: u64 = rate_hz as u64 * 2 * ms / 1000;
    let p: u64 = next_power_of_two(want);
    proof {
        assert(is_next_pow2(want as int, p as int));
        let k = choose|k: nat| p == #[trigger] pow2(k);
        lemma_pow2_even(k);
    }
    if p < 65_536 {
        65_536
    } else if p > max as u64 {
        max
    } else {
        p as usize
    }
}

pub fn rx_ring_for(rate_hz: u32) -> (r: (rtrb::Producer<u8>, rtrb::Consumer<u8>))
    ensures
        is_ring_bytes(stream_bytes(rate_hz as int, 120), 0x80_0000, byte_room(r.0) as int),
        byte_depth(r.1) == byte_room(r.0),
        byte_room(r.0) % 2 == 0,
        byte_room(r.0) <= 0x80_0000,
        byte_written(r.0).len() == 0,
        byte_taken(r.1).len() == 0,
        byte_open(r.0) == byte_room(r.0),
        byte_seen(r.1) == 0,
{
    byte_ring(ring_bytes(rate_hz, RX_RING_MS, RX_RING_MAX))
}

pub fn tx_ring_for(rate_hz: u32) -> (r: (rtrb::Producer<u8>, rtrb::Consumer<u8>))
    ensures
        is_ring_bytes(stream_bytes(rate_hz as int, 200), 0x80_0000, byte_room(r.0) as int),
        byte_depth(r.1) == byte_room(r.0),
        byte_room(r.0) % 2 == 0,
        byte_room(r.0) <= 0x80_0000,
        byte_written(r.0).len() == 0,
        byte_taken(r.1).len() == 0,
        byte_open(r.0) == byte_room(r.0),
        byte_seen(r.1) == 0,
{
    byte_ring(ring_bytes(rate_hz, TX_RING_MS, TX_RING_MAX))
}

/// What to do next about a transmit block.
#[derive(Clone, Copy, Debug, PartialEq, Eq, Structural)]
pub enum TxStep {
    /// Everything is in, or nothing more can go in.
    Finished,
    /// The ring is full: wait a moment and try again.
    Wait,
    /// Some of it went in: go on.
    More,
}

/// How many of `ready` bytes go into `room`: whole samples only.
pub open spec fn whole_samples(ready: int, room: int) -> int {
    let n = if ready < room {
        ready
    } else {
        room
    };
    n - n % 2
}

/// The engine's ends of the two rings.
pub struct IqPorts {
    pub rx: rtrb::Consumer<u8>,
    pub tx: rtrb::Producer<u8>,
}

impl IqPorts {
    /// Drain interleaved I,Q bytes into `out`: all that were there, as far as
    /// they fit. Always returns an even count, so the stream can never come out
    /// of alignment. Zero means nothing is available yet.
    pub fn rx_read(&mut self, out: &mut Vec<u8>) -> (r: usize)
        ensures
            byte_seen(final(self).rx) + r >= byte_seen(old(self).rx),
            r == whole_samples(byte_seen(final(self).rx) + r, old(out)@.len() as int),
            final(out)@.len() == old(out)@.len(),
            r % 2 == 0,
            r <= old(out)@.len(),
            final(self).tx == old(self).tx,
            byte_depth(final(self).rx) == byte_depth(old(self).rx),
            byte_taken(final(self).rx) == byte_taken(old(self).rx) + final(out)@.take(r as int),
            final(out)@.skip(r as int) == old(out)@.skip(r as int),
    {
        let ready: usize = byte_ready(&mut self.rx);
        let room: usize = if ready < out.len() {
            ready
        } else {
            out.len()
        };
        let take: usize = room - room % 2;
        let ghost before = out@;
        if take > 0 {
            match byte_read(&mut self.rx, take) {
                Some(v) => {
                    let mut i: usize = 0;
                    while i < take
                        invariant
                            i <= take,
                            take <= before.len(),
                            out@.len() == before.len(),
                            v@.len() == take,
                            forall|k: int| 0 <= k < i ==> #[trigger] out@[k] == v@[k],
                            forall|k: int| i <= k < before.len() ==> #[trigger] out@[k] == before[k],
                        decreases take - i,
                    {
                        out.set(i, v[i]);
                        i = i + 1;
                    }
                    proof {
                        assert(out@.take(take as int) =~= v@);
                        assert(out@.skip(take as int) =~= before.skip(take as int));
                    }
                    return take;
                },
                None => {},
            }
        }
        assert(out@.take(0) =~= Seq::empty());
        assert(byte_taken(self.rx) =~= byte_taken(old(self).rx) + out@.take(0));
        0
    }

    /// Throw away everything the ring is holding: after an over, the samples
    /// buffered when the receiver stopped are stale by the length of it. How
    /// many bytes went.
    pub fn discard_rx(&mut self) -> (r: usize)
        ensures
            final(self).tx == old(self).tx,
            byte_depth(final(self).rx) == byte_depth(old(self).rx),
            byte_seen(final(self).rx) == 0,
            r >= byte_seen(old(self).rx),
            r <= byte_depth(old(self).rx),
            byte_taken(final(self).rx).len() == byte_taken(old(self).rx).len() + r,
            byte_taken(final(self).rx).take(byte_taken(old(self).rx).len() as int) == byte_taken(
                old(self).rx,
            ),
    {
        let n: usize = byte_ready(&mut self.rx);
        let ghost before = byte_taken(self.rx);
        if n > 0 {
            match byte_read(&mut self.rx, n) {
                Some(v) => {
                    assert(byte_taken(self.rx).take(before.len() as int) =~= before);
                    return n;
                },
                None => {},
            }
        }
        assert(byte_taken(self.rx).take(before.len() as int) =~= before);
        0
    }

    /// Hand what is left of a block, from `done` on, to the transmit ring: as
    /// many whole samples as fit. `alive` says whether the stream thread runs,
    /// `expired` whether the deadline has passed. How much is done, and what to
    /// do next.
    ///
    /// Waiting is the contract: the engine paces transmit blocks against the
    /// wall clock and treats a slow write as backpressure. Dropping instead
    /// would put a hole in the over that nothing downstream could see.
    pub fn tx_write(&mut self, iq: &[u8], done: usize, alive: bool, expired: bool) -> (r: (
        usize,
        TxStep,
    ))
        requires
            iq@.len() % 2 == 0,
            done % 2 == 0,
            done <= iq@.len(),
        ensures
            final(self).rx == old(self).rx,
            byte_room(final(self).tx) == byte_room(old(self).tx),
            done <= r.0 <= iq@.len(),
            r.0 % 2 == 0,
            byte_written(final(self).tx) == byte_written(old(self).tx) + iq@.subrange(
                done as int,
                r.0 as int,
            ),
            !alive || done == iq@.len() ==> r.1 == TxStep::Finished && r.0 == done,
            alive && done < iq@.len() ==> {
                let free = byte_open(final(self).tx) + (r.0 - done);
                &&& free >= byte_open(old(self).tx)
                // Room that was never written to is always seen.
                &&& free + byte_written(old(self).tx).len() >= byte_room(old(self).tx)
                &&& r.0 - done == whole_samples(iq@.len() - done, free)
                &&& r.1 == (if r.0 > done {
                    TxStep::More
                } else if expired {
                    TxStep::Finished
                } else {
                    TxStep::Wait
                })
            },
    {
        let ghost before = byte_written(self.tx);
        assert(iq@.subrange(done as int, done as int) =~= Seq::empty());
        assert(before + Seq::<u8>::empty() =~= before);
        if done == iq.len() || !alive {
            return (done, TxStep::Finished);
        }
        let want: usize = iq.len() - done;
        let slots: usize = byte_free(&mut self.tx);
        let free: usize = slots - slots % 2;
        if free == 0 {
            if expired {
                return (done, TxStep::Finished);
            }
            return (done, TxStep::Wait);
        }
        let take: usize = if free < want {
            free
        } else {
            want
        };
        let part: &[u8] = vstd::slice::slice_subrange(iq, done, done + take);
        if byte_write(&mut self.tx, part) {
            (done + take, TxStep::More)
        } else {
            (done, TxStep::Finished)
        }
    }

    /// Bytes still waiting to go out: what the ring holds. Never more than were
    /// written.
    pub fn tx_pending(&mut self) -> (r: usize)
        ensures
            r == byte_room(old(self).tx) - byte_open(final(self).tx),
            r <= byte_written(old(self).tx).len(),
            r + byte_open(old(self).tx) <= byte_room(old(self).tx),
            final(self).rx == old(self).rx,
            byte_room(final(self).tx) == byte_room(old(self).tx),
            byte_written(final(self).tx) == byte_written(old(self).tx),
    {
        byte_capacity(&self.tx) - byte_free(&mut self.tx)
    }

    /// Whether everything the pump can still move has left the ring, given what
    /// is pending.
    ///
    /// **Not `pending == 0`.** The pump submits whole bulk packets only, so it
    /// deliberately leaves a remainder of under one packet in the ring, which
    /// goes out at key-up. Waiting for zero here would never be satisfied.
    pub fn is_drained(pending: usize) -> (r: bool)
        ensures
            r == (pending < 512),
            r == leaves_no_packet(pending as int),
    {
        pending < BULK_PACKET
    }

    /// Whether everything the pump can still move has left the ring. A ring that
    /// less than a packet was ever written to is.
    pub fn tx_drained(&mut self) -> (r: bool)
        ensures
            r == (byte_room(old(self).tx) - byte_open(final(self).tx) < 512),
            r == leaves_no_packet(byte_room(old(self).tx) - byte_open(final(self).tx)),
            byte_written(old(self).tx).len() < 512 ==> r,
            final(self).rx == old(self).rx,
            byte_room(final(self).tx) == byte_room(old(self).tx),
            byte_written(final(self).tx) == byte_written(old(self).tx),
    {
        IqPorts::is_drained(self.tx_pending())
    }
}

/// Whether less than a bulk packet is left.
pub open spec fn leaves_no_packet(pending: int) -> bool {
    pending < 512
}

/// The time since the last samples.
pub open spec fn silence(transmitting: bool, since_open: u64, last_rx: u64) -> int {
    if transmitting || since_open <= last_rx {
        0
    } else {
        since_open - last_rx
    }
}

/// How long the radio has gone without delivering samples, measured from the
/// last block or, if none ever arrived, from when it was opened. **Zero while
/// transmitting**: on half-duplex hardware there is no receive traffic during an
/// over.
pub fn silent_for_ms(transmitting: bool, since_open: u64, last_rx: u64) -> (r: u64)
    ensures
        r == (if transmitting || since_open <= last_rx {
            0
        } else {
            since_open - last_rx
        }),
        r == silence(transmitting, since_open, last_rx),
{
    if transmitting || since_open <= last_rx {
        0
    } else {
        since_open - last_rx
    }
}

} // verus!
