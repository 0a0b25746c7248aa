//! The handle's side of a stream: control messages, accounting, and the sample
//! ring.
//!
//! Frequencies and rates are in Hz but where a name says millihertz. Samples in
//! the ring are the bit patterns of 32-bit floats: nothing here looks into one.
use crate::ring::{
    is_next_pow2, lemma_pow2_even, next_power_of_two, pow2, word_depth, word_open, word_read,
    word_ready, word_ring, word_room, word_seen, word_taken, word_write, word_written,
};
use crate::text::{
    dec, dec_hundredths, dec_tenths, decimal, decimal_hundredths, decimal_tenths, round_ratio,
    rounded,
};
use vstd::prelude::*;

verus! {

/// How often the stream thread emits a throughput line.
pub const STATS_INTERVAL_US: u64 = 2_000_000;

/// A control message for the stream thread.
#[derive(Clone, Copy, Debug, PartialEq, Eq, Structural)]
pub enum Ctrl {
    Center(u64),
    /// A rate change is not a live setting: it stops the sync stream, reprograms
    /// the sample rate, and restarts it with a buffer sized for the new rate.
    /// The HF ports build their downconverter at open time and ignore one.
    Rate(u64),
    /// 0..3.
    LnaGain(u8),
    /// 0..31.
    VgaGain(u8),
    ClkExternal(bool),
    Shutdown,
}

/// Control messages accumulated over one pass of the thread loop.
///
/// Dragging the panadapter emits hundreds of `Center` messages a second.
/// Applying each in turn would put the thread permanently behind the operator's
/// hand, so the whole channel is collapsed into this and each field applied
/// once, last value wins.
#[derive(Clone, Copy, Debug, PartialEq, Eq, Structural)]
pub struct Pending {
    pub center: Option<u64>,
    pub rate: Option<u64>,
    pub lna_gain: Option<u8>,
    pub vga_gain: Option<u8>,
    pub clk_external: Option<bool>,
    pub shutdown: bool,
}

/// Nothing pending.
pub open spec fn nothing() -> Pending {
    Pending {
        center: None,
        rate: None,
        lna_gain: None,
        vga_gain: None,
        clk_external: None,
        shutdown: false,
    }
}

impl Default for Pending {
    fn default() -> (r: Self)
        ensures
            r == nothing(),
    {
        Pending {
            center: None,
            rate: None,
            lna_gain: None,
            vga_gain: None,
            clk_external: None,
            shutdown: false,
        }
    }
}

impl Pending {
    /// With one more message taken in.
    pub open spec fn with(self, c: Ctrl) -> Pending {
        match c {
            Ctrl::Center(v) => Pending { center: Some(v), ..self },
            Ctrl::Rate(v) => Pending { rate: Some(v), ..self },
            Ctrl::LnaGain(v) => Pending { lna_gain: Some(v), ..self },
            Ctrl::VgaGain(v) => Pending { vga_gain: Some(v), ..self },
            Ctrl::ClkExternal(v) => Pending { clk_external: Some(v), ..self },
            Ctrl::Shutdown => Pending { shutdown: true, ..self },
        }
    }

    pub fn absorb(&mut self, c: Ctrl)
        ensures
            *final(self) == old(self).with(c),
    {
        match c {
            Ctrl::Center(v) => {
                self.center = Some(v);
            },
            Ctrl::Rate(v) => {
                self.rate = Some(v);
            },
            Ctrl::LnaGain(v) => {
                self.lna_gain = Some(v);
            },
            Ctrl::VgaGain(v) => {
                self.vga_gain = Some(v);
            },
            Ctrl::ClkExternal(v) => {
                self.clk_external = Some(v);
            },
            Ctrl::Shutdown => {
                self.shutdown = true;
            },
        }
    }

    pub fn is_empty(&self) -> (r: bool)
        ensures
            r == (*self == nothing()),
    {
        self.center.is_none() && self.rate.is_none() && self.lna_gain.is_none()
            && self.vga_gain.is_none() && self.clk_external.is_none() && !self.shutdown
    }
}

/// A batch of messages taken in one after the other.
pub open spec fn absorbed(p: Pending, batch: Seq<Ctrl>) -> Pending
    decreases batch.len(),
{
    if batch.len() == 0 {
        p
    } else {
        absorbed(p, batch.drop_last()).with(batch.last())
    }
}

/// Shutdown survives anything that arrives after it in the same batch.
pub proof fn shutdown_is_sticky(p: Pending, batch: Seq<Ctrl>)
    requires
        p.shutdown || batch.contains(Ctrl::Shutdown),
    ensures
        absorbed(p, batch).shutdown,
    decreases batch.len(),
{
    if batch.len() > 0 && batch.last() != Ctrl::Shutdown {
        let rest = batch.drop_last();
        if !p.shutdown {
            let i = choose|i: int| 0 <= i < batch.len() && batch[i] == Ctrl::Shutdown;
            assert(rest[i] == Ctrl::Shutdown);
        }
        shutdown_is_sticky(p, rest);
    }
}

/// However many retunes a batch holds, the last one is the one that counts.
pub proof fn the_last_retune_wins(p: Pending, batch: Seq<Ctrl>, i: int, hz: u64)
    requires
        0 <= i < batch.len(),
        batch[i] == Ctrl::Center(hz),
        forall|j: int| i < j < batch.len() ==> !(#[trigger] batch[j] is Center),
    ensures
        absorbed(p, batch).center == Some(hz),
    decreases batch.len(),
{
    if i < batch.len() - 1 {
        let rest = batch.drop_last();
        assert(rest[i] == batch[i]);
        assert forall|j: int| i < j < rest.len() implies !(#[trigger] rest[j] is Center) by {
            assert(rest[j] == batch[j]);
        }
        the_last_retune_wins(p, rest, i, hz);
        assert(!(batch[batch.len() - 1] is Center));
    }
}

// ---------------------------------------------------------------------------
// Accounting
// ---------------------------------------------------------------------------

/// Throughput and health accounting.
pub struct RxStats {
    /// When the window began.
    pub since: u64,
    pub win_samples: u64,
    pub win_dropped: u64,
    /// Discarded while the engine was not reading this receiver because some
    /// other radio in the session was transmitting.
    pub win_keyed: u64,
    pub win_errors: u64,
    pub total_samples: u64,
    pub total_dropped: u64,
    pub total_keyed: u64,
    pub total_errors: u64,
    pub first_error: Option<String>,
}

/// What the throughput line says was thrown away while keyed.
pub open spec fn keyed_text(window: nat, total: nat) -> Seq<char> {
    if window == 0 {
        Seq::empty()
    } else {
        "; "@ + dec(window)
            + " sample(s) discarded while keyed (expected — this receiver is not read during an over); "@
            + dec(total) + " discarded while keyed in total"@
    }
}

/// What the first error was, in the middle of a sentence.
pub open spec fn first_text(first: Option<String>, before: Seq<char>, after: Seq<char>) -> Seq<
    char,
> {
    match first {
        Some(e) => before + e@ + after,
        None => Seq::empty(),
    }
}

/// Whether the accounts were told and a new window begun, once two seconds were
/// over: the window starts from nothing, and the totals go on.
pub open spec fn ticked(
    was: RxStats,
    now: u64,
    told: Option<(bool, String)>,
    after: RxStats,
) -> bool {
    &&& told is Some <==> now >= was.since + 2_000_000
    &&& told matches Some((warn, line)) ==> warn == was.is_bad() && line@ == was.line(now)
    &&& told is Some ==> after.since == now && after.win_samples == 0 && after.win_dropped == 0
        && after.win_keyed == 0 && after.win_errors == 0
    &&& told is None ==> after == was
    &&& after.total_samples == was.total_samples && after.total_dropped == was.total_dropped
    &&& after.total_keyed == was.total_keyed && after.total_errors == was.total_errors
}

impl RxStats {
    pub fn new(now: u64) -> (r: RxStats)
        ensures
            r.since == now,
            r.win_samples == 0 && r.win_dropped == 0 && r.win_keyed == 0 && r.win_errors == 0,
            r.total_samples == 0 && r.total_dropped == 0 && r.total_keyed == 0 && r.total_errors
                == 0,
            r.first_error is None,
            r.wf(),
    {
        RxStats {
            since: now,
            win_samples: 0,
            win_dropped: 0,
            win_keyed: 0,
            win_errors: 0,
            total_samples: 0,
            total_dropped: 0,
            total_keyed: 0,
            total_errors: 0,
            first_error: None,
        }
    }

    /// A window is part of the whole.
    pub open spec fn wf(&self) -> bool {
        &&& self.win_samples <= self.total_samples
        &&& self.win_dropped <= self.total_dropped
        &&& self.win_keyed <= self.total_keyed
        &&& self.win_errors <= self.total_errors
    }

    pub fn on_iq(&mut self, pairs: usize)
        requires
            old(self).wf(),
            old(self).total_samples + pairs <= u64::MAX,
        ensures
            final(self).wf(),
            *final(self) == (RxStats {
                win_samples: (old(self).win_samples + pairs) as u64,
                total_samples: (old(self).total_samples + pairs) as u64,
                ..*old(self)
            }),
    {
        self.win_samples = self.win_samples + pairs as u64;
        self.total_samples = self.total_samples + pairs as u64;
    }

    /// Samples discarded because the ring was full.
    pub fn on_dropped(&mut self, pairs: usize)
        requires
            old(self).wf(),
            old(self).total_dropped + pairs <= u64::MAX,
        ensures
            final(self).wf(),
            *final(self) == (RxStats {
                win_dropped: (old(self).win_dropped + pairs) as u64,
                total_dropped: (old(self).total_dropped + pairs) as u64,
                ..*old(self)
            }),
    {
        self.win_dropped = self.win_dropped + pairs as u64;
        self.total_dropped = self.total_dropped + pairs as u64;
    }

    /// Samples discarded while nobody was reading for an over.
    pub fn on_dropped_keyed(&mut self, pairs: usize)
        requires
            old(self).wf(),
            old(self).total_keyed + pairs <= u64::MAX,
        ensures
            final(self).wf(),
            *final(self) == (RxStats {
                win_keyed: (old(self).win_keyed + pairs) as u64,
                total_keyed: (old(self).total_keyed + pairs) as u64,
                ..*old(self)
            }),
    {
        self.win_keyed = self.win_keyed + pairs as u64;
        self.total_keyed = self.total_keyed + pairs as u64;
    }

    pub fn keyed_note(&self) -> (r: String)
        ensures
            r@ == keyed_text(self.win_keyed as nat, self.total_keyed as nat),
    {
        if self.win_keyed == 0 {
            return String::new();
        }
        let mut s: String = String::from_str("; ");
        s.append(decimal(self.win_keyed).as_str());
        s.append(
            " sample(s) discarded while keyed (expected — this receiver is not read during an over); ",
        );
        s.append(decimal(self.total_keyed).as_str());
        s.append(" discarded while keyed in total");
        s
    }

    /// An error. The first one is kept.
    pub fn on_error(&mut self, what: &str)
        requires
            old(self).wf(),
            old(self).total_errors < u64::MAX,
        ensures
            final(self).wf(),
            old(self).first_error is Some ==> final(self).first_error == old(self).first_error,
            old(self).first_error is None ==> final(self).first_error is Some && final(self).first_error->0@ == what@,
            *final(self) == (RxStats {
                win_errors: (old(self).win_errors + 1) as u64,
                total_errors: (old(self).total_errors + 1) as u64,
                first_error: final(self).first_error,
                ..*old(self)
            }),
    {
        self.win_errors = self.win_errors + 1;
        self.total_errors = self.total_errors + 1;
        if self.first_error.is_none() {
            self.first_error = Some(String::from_str(what));
        }
    }

    pub open spec fn summary_text(&self) -> Seq<char> {
        dec(self.total_samples as nat) + " samples, "@ + dec(self.total_dropped as nat)
            + " dropped, "@ + dec(self.total_errors as nat) + " errors"@ + first_text(
            self.first_error,
            " (first: "@,
            ")"@,
        )
    }

    pub fn summary(&self) -> (r: String)
        ensures
            r@ == self.summary_text(),
    {
        let mut s: String = decimal(self.total_samples);
        s.append(" samples, ");
        s.append(decimal(self.total_dropped).as_str());
        s.append(" dropped, ");
        s.append(decimal(self.total_errors).as_str());
        s.append(" errors");
        match &self.first_error {
            Some(e) => {
                s.append(" (first: ");
                s.append(e.as_str());
                s.append(")");
            },
            None => {
                assert(s@ =~= self.summary_text());
            },
        }
        assert(s@ =~= self.summary_text());
        s
    }

    /// The rate of the window in tenths of a kilosample per second.
    pub open spec fn tenths_ksps(&self, now: u64) -> nat {
        rounded((self.win_samples * 10_000) as nat, (now - self.since) as nat)
    }

    /// How the throughput line begins.
    pub open spec fn opening(&self, now: u64) -> Seq<char> {
        "Fobos RX: "@ + dec(self.win_samples as nat) + " samples ("@ + dec_tenths(
            self.tenths_ksps(now),
        ) + " ksps) over "@ + dec_hundredths(rounded((now - self.since) as nat, 10_000)) + "s"@
    }

    /// Whether the window is worth a warning.
    pub open spec fn is_bad(&self) -> bool {
        self.win_dropped > 0 || self.win_errors > 0 || self.win_samples == 0
    }

    /// The throughput line of the window just ended.
    pub open spec fn line(&self, now: u64) -> Seq<char> {
        if self.is_bad() {
            self.opening(now) + (if self.win_samples == 0 {
                "; NOTHING ARRIVED — the receiver is not sending, which is a different fault from not keeping up"@
            } else {
                Seq::empty()
            }) + (if self.win_dropped > 0 {
                "; "@ + dec(self.win_dropped as nat)
                    + " sample(s) DROPPED (RX ring full — the DSP thread is not keeping up)"@
            } else {
                Seq::empty()
            }) + (if self.win_errors > 0 {
                "; "@ + dec(self.win_errors as nat) + " error(s)"@ + first_text(
                    self.first_error,
                    ", first was "@,
                    Seq::empty(),
                )
            } else {
                Seq::empty()
            }) + keyed_text(self.win_keyed as nat, self.total_keyed as nat)
        } else {
            self.opening(now) + "; total "@ + dec(self.total_samples as nat) + keyed_text(
                self.win_keyed as nat,
                self.total_keyed as nat,
            )
        }
    }

    fn opening_of(&self, now: u64) -> (r: String)
        requires
            now - self.since >= 2_000_000,
            self.win_samples <= 0xFFFF_FFFF_FFFF_FFFF,
        ensures
            r@ == self.opening(now),
    {
        let dt: u64 = now - self.since;
        let ksps: u128 = round_ratio(self.win_samples as u128 * 10_000, dt as u128);
        let secs: u64 = round_ratio(dt as u128, 10_000) as u64;
        let mut s: String = String::from_str("Fobos RX: ");
        s.append(decimal(self.win_samples).as_str());
        s.append(" samples (");
        s.append(decimal_tenths(ksps).as_str());
        s.append(" ksps) over ");
        s.append(decimal_hundredths(secs).as_str());
        s.append("s");
        s
    }

    fn line_of(&self, now: u64) -> (r: String)
        requires
            now - self.since >= 2_000_000,
        ensures
            r@ == self.line(now),
    {
        let mut s: String = self.opening_of(now);
        let ghost at = s@;
        if self.win_dropped > 0 || self.win_errors > 0 || self.win_samples == 0 {
            if self.win_samples == 0 {
                s.append(
                    "; NOTHING ARRIVED — the receiver is not sending, which is a different fault from not keeping up",
                );
            } else {
                assert(s@ =~= at + Seq::<char>::empty());
            }
            let ghost at = s@;
            if self.win_dropped > 0 {
                s.append("; ");
                s.append(decimal(self.win_dropped).as_str());
                s.append(" sample(s) DROPPED (RX ring full — the DSP thread is not keeping up)");
                assert(s@ =~= at + ("; "@ + dec(self.win_dropped as nat)
                    + " sample(s) DROPPED (RX ring full — the DSP thread is not keeping up)"@));
            } else {
                assert(s@ =~= at + Seq::<char>::empty());
            }
            let ghost at = s@;
            if self.win_errors > 0 {
                s.append("; ");
                s.append(decimal(self.win_errors).as_str());
                s.append(" error(s)");
                match &self.first_error {
                    Some(e) => {
                        s.append(", first was ");
                        s.append(e.as_str());
                    },
                    None => {},
                }
                assert(s@ =~= at + ("; "@ + dec(self.win_errors as nat) + " error(s)"@ + first_text(
                    self.first_error,
                    ", first was "@,
                    Seq::empty(),
                )));
            } else {
                assert(s@ =~= at + Seq::<char>::empty());
            }
            s.append(self.keyed_note().as_str());
        } else {
            s.append("; total ");
            s.append(decimal(self.total_samples).as_str());
            s.append(self.keyed_note().as_str());
        }
        s
    }

    /// Report on the window, once it is over: the line, and whether it is a
    /// warning, which it is only when there is something worth reporting. Then
    /// the next window begins.
    pub fn tick(&mut self, now: u64) -> (r: Option<(bool, String)>)
        requires
            old(self).wf(),
            now >= old(self).since,
        ensures
            final(self).wf(),
            r is Some <==> now - old(self).since >= 2_000_000,
            r is None ==> *final(self) == *old(self),
            r matches Some((warn, line)) ==> {
                &&& warn == old(self).is_bad()
                &&& line@ == old(self).line(now)
                &&& *final(self) == (RxStats {
                    since: now,
                    win_samples: 0,
                    win_dropped: 0,
                    win_keyed: 0,
                    win_errors: 0,
                    ..*old(self)
                })
            },
            ticked(*old(self), now, r, *final(self)),
    {
        if now - self.since < STATS_INTERVAL_US {
            return None;
        }
        let warn: bool = self.win_dropped > 0 || self.win_errors > 0 || self.win_samples == 0;
        let line: String = self.line_of(now);
        self.since = now;
        self.win_samples = 0;
        self.win_dropped = 0;
        self.win_keyed = 0;
        self.win_errors = 0;
        Some((warn, line))
    }
}

// ---------------------------------------------------------------------------
// The ring
// ---------------------------------------------------------------------------

/// Push interleaved samples into the RX ring, keeping every sample's lanes
/// together. `lanes` is 2 for plain I,Q or 4 for the main/aux pairs of the dual
/// HF port; it only matters for how a drop is counted.
///
/// All-or-nothing: a partial push leaves the ring out of step with its own lane
/// boundary, which for two lanes swaps I with Q and for four scrambles which
/// value belongs to which channel, for the rest of the session. A block that
/// does not fit while the reader is `paused` for an over is no overrun.
pub fn push_iq(
    rx: &mut rtrb::Producer<u32>,
    iq: &[u32],
    lanes: usize,
    stats: &mut RxStats,
    paused: bool,
)
    requires
        lanes > 0,
        old(stats).wf(),
        old(stats).total_dropped + iq@.len() <= u64::MAX,
        old(stats).total_keyed + iq@.len() <= u64::MAX,
    ensures
        final(stats).wf(),
        word_room(*final(rx)) == word_room(*old(rx)),
        // Taken whole, or dropped whole and counted.
        ({
            ||| {
                &&& word_written(*final(rx)) == word_written(*old(rx)) + iq@
                &&& *final(stats) == *old(stats)
                &&& iq@.len() <= word_room(*old(rx))
            }
            ||| {
                &&& iq@.len() > word_open(*old(rx))
                &&& iq@.len() > word_open(*final(rx))
                &&& word_written(*final(rx)) == word_written(*old(rx))
                &&& *final(stats) == dropped_stats(*old(stats), iq@.len() as int / lanes as int, paused)
                &&& word_written(*old(rx)).len() + iq@.len() > word_room(*old(rx))
            }
        }),
{
    if !word_write(rx, iq) {
        let pairs: usize = iq.len() / lanes;
        proof {
            assert(iq@.len() / (lanes as nat) <= iq@.len()) by (nonlinear_arith)
                requires
                    lanes > 0,
            ;
        }
        if paused {
            stats.on_dropped_keyed(pairs);
        } else {
            stats.on_dropped(pairs);
        }
    }
}

/// The accounts with a drop of `n` samples entered.
pub open spec fn dropped_stats(s: RxStats, n: int, paused: bool) -> RxStats {
    if paused {
        RxStats {
            win_keyed: (s.win_keyed + n) as u64,
            total_keyed: (s.total_keyed + n) as u64,
            ..s
        }
    } else {
        RxStats {
            win_dropped: (s.win_dropped + n) as u64,
            total_dropped: (s.total_dropped + n) as u64,
            ..s
        }
    }
}

/// The least capacity of a ring.
pub const RING_FLOOR: u64 = 65_536;

/// Whether a ring of `cap` values is the one for a stream of `per_half_second`
/// values in half a second: the next power of two, not below the floor.
pub open spec fn is_ring_capacity(per_half_second: int, cap: int) -> bool {
    if per_half_second <= 65_536 {
        cap == 65_536
    } else {
        is_next_pow2(per_half_second, cap)
    }
}

fn ring_capacity(values: u64) -> (r: usize)
    requires
        values <= 0x1000_0000,
    ensures
        is_ring_capacity(values as int, r as int),
        65_536 <= r <= 0x1000_0000,
        r % 4 == 0,
        r >= values,
{
    let p: u64 = next_power_of_two(values);
    proof {
        let k = choose|k: nat| p == #[trigger] pow2(k);
        lemma_pow2_even(k);
        lemma_pow2_floor(k);
        lemma_pow2_at_most(values as int, p as int);
    }
    if p < RING_FLOOR {
        RING_FLOOR as usize
    } else {
        p as usize
    }
}

proof fn lemma_pow2_floor(k: nat)
    ensures
        k <= 1 ==> pow2(k) <= 2,
        pow2(16) == 65_536,
        pow2(28) == 0x1000_0000,
{
    reveal_with_fuel(pow2, 29);
}

/// The next power of two of what is not above a power of two is not above it.
proof fn lemma_pow2_at_most(x: int, p: int)
    requires
        x <= 0x1000_0000,
        is_next_pow2(x, p),
    ensures
        x <= 65_536 ==> p <= 65_536,
        p <= 0x1000_0000,
{
    let k = choose|k: nat| p == #[trigger] pow2(k);
    lemma_pow2_floor(k);
    if k > 16 {
        lemma_pow2_rises(16, (k - 1) as nat);
        reveal_with_fuel(pow2, 2);
    } else {
        lemma_pow2_rises(k, 16);
    }
    if k > 28 {
        lemma_pow2_rises(28, (k - 1) as nat);
    } else {
        lemma_pow2_rises(k, 28);
    }
}

proof fn lemma_pow2_rises(a: nat, b: nat)
    requires
        a <= b,
    ensures
        pow2(a) <= pow2(b),
    decreases b,
{
    if a < b {
        lemma_pow2_rises(a, (b - 1) as nat);
        lemma_pow2_even((b - 1) as nat);
    }
}

/// Size the RX ring for a complex rate in Hz: half a second of interleaved
/// values, rounded up to a power of two.
pub fn ring_for(rate_hz: u32) -> (r: (rtrb::Producer<u32>, rtrb::Consumer<u32>))
    requires
        rate_hz <= 0x1000_0000,
    ensures
        is_ring_capacity(rate_hz as int, word_room(r.0) as int),
        word_depth(r.1) == word_room(r.0),
        word_room(r.0) % 4 == 0,
        word_room(r.0) >= rate_hz,
        word_written(r.0).len() == 0,
        word_taken(r.1).len() == 0,
        word_open(r.0) == word_room(r.0),
        word_seen(r.1) == 0,
{
    word_ring(ring_capacity(rate_hz as u64))
}

/// Same as [`ring_for`], sized for the dual HF port's ring, which carries
/// **four** values per complex sample pair, so both channels can only ever be
/// pushed and drained together and can never drift apart.
pub fn ring_for_pair(rate_hz: u32) -> (r: (rtrb::Producer<u32>, rtrb::Consumer<u32>))
    requires
        rate_hz <= 0x800_0000,
    ensures
        is_ring_capacity(2 * rate_hz, word_room(r.0) as int),
        word_depth(r.1) == word_room(r.0),
        word_room(r.0) % 4 == 0,
        word_room(r.0) >= 2 * rate_hz,
        word_written(r.0).len() == 0,
        word_taken(r.1).len() == 0,
        word_open(r.0) == word_room(r.0),
        word_seen(r.1) == 0,
{
    word_ring(ring_capacity(2 * rate_hz as u64))
}

/// The reading end of a stream.
pub struct RxReader {
    pub rx: rtrb::Consumer<u32>,
    /// The ring is the dual HF port's four-lane one.
    pub dual: bool,
}

/// How many of `ready` values a buffer of `len` takes: as many as it has room
/// for, in whole pairs.
pub open spec fn taken_in_pairs(ready: int, len: int) -> int {
    if ready < len {
        ready - ready % 2
    } else {
        len - len % 2
    }
}

/// How many sample pairs of `ready` four-lane values two buffers take.
pub open spec fn taken_in_quads(ready: int, main_len: int, aux_len: int) -> int {
    let fit = if main_len < aux_len {
        main_len / 2
    } else {
        aux_len / 2
    };
    if ready / 4 < fit {
        ready / 4
    } else {
        fit
    }
}

impl RxReader {
    /// Drain interleaved I,Q values into `out`: all that were there, as far as
    /// they fit, in whole pairs. Zero means nothing is available yet.
    pub fn rx_read(&mut self, out: &mut Vec<u32>) -> (r: usize)
        ensures
            word_seen(final(self).rx) + r >= word_seen(old(self).rx),
            r == taken_in_pairs(word_seen(final(self).rx) + r, old(out)@.len() as int),
            final(self).dual == old(self).dual,
            final(out)@.len() == old(out)@.len(),
            r % 2 == 0,
            r <= old(out)@.len(),
            word_depth(final(self).rx) == word_depth(old(self).rx),
            word_taken(final(self).rx) == word_taken(old(self).rx) + final(out)@.take(r as int),
            final(out)@.skip(r as int) == old(out)@.skip(r as int),
    {
        let ready: usize = word_ready(&mut self.rx);
        let room: usize = if ready < out.len() {
            ready
        } else {
            out.len()
        };
        let take: usize = room - room % 2;
        let ghost before = out@;
        if take > 0 {
            match word_read(&mut self.rx, take) {
                Some(v) => {
                    let mut i: usize = 0;
                    while i < take
                        invariant
                            i <= take,
                            take <= before.len(),
                            out@.len() == before.len(),
                            v@.len() == take,
                            forall|k: int| 0 <= k < i ==> #[trigger] out@[k] == v@[k],
                            forall|k: int| i <= k < before.len() ==> #[trigger] out@[k] == before[k],
                        decreases take - i,
                    {
                        out.set(i, v[i]);
                        i = i + 1;
                    }
                    proof {
                        assert(out@.take(take as int) =~= v@);
                        assert(out@.skip(take as int) =~= before.skip(take as int));
                    }
                    return take;
                },
                None => {},
            }
        }
        assert(out@.take(0) =~= Seq::empty());
        assert(word_taken(self.rx) =~= word_taken(old(self).rx) + out@.take(0));
        0
    }

    /// The dual HF port's own read: drains both channels' interleaved I,Q
    /// values, HF1 into `main_out` and HF2 into `aux_out`, from the single
    /// four-lane ring. One call for both is what keeps them sample-aligned.
    /// Returns the number of complex pairs delivered to *each* buffer: all that
    /// were there, as far as they fit; zero means nothing is available yet. On
    /// any other port both buffers are left untouched and this returns zero.
    pub fn rx_read_pair(&mut self, main_out: &mut Vec<u32>, aux_out: &mut Vec<u32>) -> (r: usize)
        ensures
            !old(self).dual ==> r == 0 && *final(self) == *old(self),
            old(self).dual ==> word_seen(final(self).rx) + 4 * r >= word_seen(old(self).rx)
                && r == taken_in_quads(
                word_seen(final(self).rx) + 4 * r,
                old(main_out)@.len() as int,
                old(aux_out)@.len() as int,
            ),
            final(self).dual == old(self).dual,
            final(main_out)@.len() == old(main_out)@.len(),
            final(aux_out)@.len() == old(aux_out)@.len(),
            2 * r <= old(main_out)@.len(),
            2 * r <= old(aux_out)@.len(),
            word_depth(final(self).rx) == word_depth(old(self).rx),
            word_taken(final(self).rx) == word_taken(old(self).rx) + quads(
                final(main_out)@,
                final(aux_out)@,
                r as nat,
            ),
            final(main_out)@.skip(2 * r) == old(main_out)@.skip(2 * r),
            final(aux_out)@.skip(2 * r) == old(aux_out)@.skip(2 * r),
    {
        let ghost m0 = main_out@;
        let ghost a0 = aux_out@;
        if !self.dual {
            assert(quads(main_out@, aux_out@, 0) =~= Seq::empty());
            assert(word_taken(self.rx) =~= word_taken(self.rx) + Seq::<u32>::empty());
            return 0;
        }
        let fit: usize = if main_out.len() < aux_out.len() {
            main_out.len() / 2
        } else {
            aux_out.len() / 2
        };
        let ready: usize = word_ready(&mut self.rx) / 4;
        let pairs: usize = if ready < fit {
            ready
        } else {
            fit
        };
        if pairs > 0 {
            match word_read(&mut self.rx, 4 * pairs) {
                Some(v) => {
                    let mut s: usize = 0;
                    while s < pairs
                        invariant
                            s <= pairs,
                            4 * pairs <= usize::MAX,
                            v@.len() == 4 * pairs,
                            2 * pairs <= m0.len(),
                            2 * pairs <= a0.len(),
                            main_out@.len() == m0.len(),
                            aux_out@.len() == a0.len(),
                            forall|k: int|
                                0 <= k < s ==> #[trigger] lanes_match(main_out@, aux_out@, v@, k),
                            forall|k: int| 2 * s <= k < m0.len() ==> #[trigger] main_out@[k] == m0[k],
                            forall|k: int| 2 * s <= k < a0.len() ==> #[trigger] aux_out@[k] == a0[k],
                        decreases pairs - s,
                    {
                        let ghost (m1, a1) = (main_out@, aux_out@);
                        main_out.set(2 * s, v[4 * s]);
                        main_out.set(2 * s + 1, v[4 * s + 1]);
                        aux_out.set(2 * s, v[4 * s + 2]);
                        aux_out.set(2 * s + 1, v[4 * s + 3]);
                        assert forall|k: int| 0 <= k < s + 1 implies #[trigger] lanes_match(
                            main_out@,
                            aux_out@,
                            v@,
                            k,
                        ) by {
                            if k < s {
                                assert(lanes_match(m1, a1, v@, k));
                            }
                        }
                        s = s + 1;
                    }
                    proof {
                        let q = quads(main_out@, aux_out@, pairs as nat);
                        assert forall|i: int| 0 <= i < v@.len() implies v@[i] == q[i] by {
                            let k = i / 4;
                            assert(0 <= k < pairs);
                            assert(i == 4 * k || i == 4 * k + 1 || i == 4 * k + 2 || i == 4 * k + 3);
                            assert(lanes_match(main_out@, aux_out@, v@, k));
                        }
                        assert(v@ =~= q);
                        assert(main_out@.skip(2 * pairs) =~= m0.skip(2 * pairs));
                        assert(aux_out@.skip(2 * pairs) =~= a0.skip(2 * pairs));
                    }
                    return pairs;
                },
                None => {},
            }
        }
        assert(quads(main_out@, aux_out@, 0) =~= Seq::empty());
        assert(word_taken(self.rx) =~= word_taken(old(self).rx) + Seq::<u32>::empty());
        0
    }
}

/// Whether sample `k` of both channels is the one that the four-lane values
/// hold.
pub open spec fn lanes_match(main: Seq<u32>, aux: Seq<u32>, v: Seq<u32>, k: int) -> bool {
    main[2 * k] == v[4 * k] && main[2 * k + 1] == v[4 * k + 1] && aux[2 * k] == v[4 * k + 2]
        && aux[2 * k + 1] == v[4 * k + 3]
}

/// The first `n` sample pairs of two channels as the four-lane ring carries
/// them: main I, main Q, aux I, aux Q.
pub open spec fn quads(main: Seq<u32>, aux: Seq<u32>, n: nat) -> Seq<u32> {
    Seq::new(
        4 * n,
        |i: int|
            {
                let s = i / 4;
                if i % 4 == 0 {
                    main[2 * s]
                } else if i % 4 == 1 {
                    main[2 * s + 1]
                } else if i % 4 == 2 {
                    aux[2 * s]
                } else {
                    aux[2 * s + 1]
                }
            },
    )
}

/// Which of the receiver's inputs to stream. `Rf` goes through the tuner (mixer
/// + LNA/VGA); `Hf1`/`Hf2` bypass it entirely for direct sampling of one real
/// ADC channel apiece; `HfDual` keeps both channels, coherent, read together
/// through [`RxReader::rx_read_pair`].
#[derive(Clone, Copy, Debug, PartialEq, Eq, Structural)]
pub enum Port {
    Rf,
    Hf1,
    Hf2,
    HfDual,
}

/// The rate in use.
pub open spec fn rate_in_use(published: u64, opened_at: u64) -> u64 {
    if published == 0 {
        opened_at
    } else {
        published
    }
}

/// The time since the last samples.
pub open spec fn silence(since_open: u64, last_rx: u64) -> int {
    if since_open > last_rx {
        since_open - last_rx
    } else {
        0
    }
}

/// The complex rate in use, in millihertz: what the stream thread published, or
/// the rate at opening while it has published none.
pub fn current_rate_mhz(published: u64, opened_at: u64) -> (r: u64)
    ensures
        r == (if published == 0 {
            opened_at
        } else {
            published
        }),
        r == rate_in_use(published, opened_at),
{
    if published == 0 {
        opened_at
    } else {
        published
    }
}

/// How long the receiver has gone without delivering samples, measured from the
/// last block or, if none ever arrived, from when it was opened.
pub fn silent_for_ms(since_open: u64, last_rx: u64) -> (r: u64)
    ensures
        r == (if since_open > last_rx {
            since_open - last_rx
        } else {
            0
        }),
        r == silence(since_open, last_rx),
{
    if since_open > last_rx {
        since_open - last_rx
    } else {
        0
    }
}

} // verus!
