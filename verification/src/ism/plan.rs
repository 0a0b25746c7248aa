//! The EU 868 MHz channel plan the decoder listens on, and which of those
//! channels a given receiver window can actually reach.
//!
//! Every protocol in scope transmits on a channel fixed by ETSI EN 300 220 and
//! by the manufacturer's choice within it. Parking a decoder on each channel
//! costs one downconverter per channel and nothing else, and it cannot miss the
//! start of a burst because it was already listening.
//!
//! Each channel's rate is set by the widest protocol on it: the same baseband
//! feeds every decoder that shares the channel.
//!
//! A window is an integer decimation of the receiver's stream, so its width is
//! the ratio of two integers and its centre is a whole number of the parts that
//! the decimation cuts an eighth of a hertz into. Every comparison here is exact.
use vstd::prelude::*;

verus! {

/// A family of devices.
#[derive(Clone, Copy, Debug, PartialEq, Eq, Structural)]
pub enum IsmFamily {
    Weather,
    Meter,
    HomeAuto,
}

impl IsmFamily {
    pub open spec fn mask(self) -> u32 {
        match self {
            IsmFamily::Weather => 1,
            IsmFamily::Meter => 2,
            IsmFamily::HomeAuto => 4,
        }
    }

    /// This family's bit in a set of families.
    pub fn bit(self) -> (r: u32)
        ensures
            r == self.mask(),
    {
        match self {
            IsmFamily::Weather => 1,
            IsmFamily::Meter => 2,
            IsmFamily::HomeAuto => 4,
        }
    }
}

/// One channel the decoder can park on.
#[derive(Clone, Copy, Debug)]
pub struct Channel {
    /// Centre, in absolute RF Hz.
    pub center_hz: i64,
    /// Target baseband rate, Hz. Set by the widest protocol on the channel.
    pub rate_hz: i64,
    /// What sits here, for the panel.
    pub label: &'static str,
    /// Families with at least one protocol on this channel, as a set of
    /// `IsmFamily` bits.
    pub families: u32,
}

pub const CHANNEL_COUNT: usize = 4;

/// The channels' centres, ascending.
///
/// `868.30` and `868.95` are the two that matter most in Europe: the first
/// carries nearly every sensor and the wireless M-Bus S mode, the second carries
/// M-Bus T and C, which is what most modern meters use.
pub const CHANNEL_CENTERS_HZ: [i64; 4] = [868_300_000, 868_420_000, 868_950_000, 869_525_000];

/// The channels' baseband rates. Z-Wave's is no wider than its slowest rate
/// needs: deviation and symbol rate are measured across the whole channel, so a
/// wideband neighbour inside it would dominate both.
pub const CHANNEL_RATES_HZ: [i64; 4] = [250_000, 150_000, 500_000, 125_000];

pub open spec fn channel_label(i: int) -> Seq<char> {
    if i == 0 {
        "sensors, wM-Bus S, KNX-RF, EnOcean, Homematic"@
    } else if i == 1 {
        "Z-Wave EU"@
    } else if i == 2 {
        "wM-Bus T / C"@
    } else {
        "wM-Bus N, Homematic long range"@
    }
}

pub open spec fn channel_families(i: int) -> u32 {
    if i == 0 {
        7
    } else if i == 1 {
        4
    } else if i == 2 {
        2
    } else {
        6
    }
}

pub open spec fn is_channel(c: Channel, i: int) -> bool {
    &&& c.center_hz == CHANNEL_CENTERS_HZ@[i]
    &&& c.rate_hz == CHANNEL_RATES_HZ@[i]
    &&& c.label@ == channel_label(i)
    &&& c.families == channel_families(i)
}

/// Channel `i` of the plan.
pub fn channel(i: usize) -> (c: Channel)
    requires
        i < CHANNEL_COUNT,
    ensures
        is_channel(c, i as int),
{
    let label: &'static str = if i == 0 {
        "sensors, wM-Bus S, KNX-RF, EnOcean, Homematic"
    } else if i == 1 {
        "Z-Wave EU"
    } else if i == 2 {
        "wM-Bus T / C"
    } else {
        "wM-Bus N, Homematic long range"
    };
    let families: u32 = if i == 0 {
        7
    } else if i == 1 {
        4
    } else if i == 2 {
        2
    } else {
        6
    };
    Channel { center_hz: CHANNEL_CENTERS_HZ[i], rate_hz: CHANNEL_RATES_HZ[i], label, families }
}

/// A stretch of spectrum, by its two edges in half-hertz.
#[derive(Clone, Copy, Debug, PartialEq, Eq, Structural)]
pub struct Span {
    pub lo: i64,
    pub hi: i64,
}

/// Frequencies and rates stay under a terahertz.
pub const MAX_HZ: i64 = 1_000_000_000_000;

pub open spec fn hz_ok(f: i64) -> bool {
    -MAX_HZ <= f <= MAX_HZ
}

pub open spec fn rate_ok(r: i64) -> bool {
    1 <= r <= MAX_HZ
}

impl Span {
    pub open spec fn valid(self) -> bool {
        -4 * MAX_HZ <= self.lo < self.hi - 1 < 4 * MAX_HZ
    }

    pub open spec fn of(center_hz: int, rate_hz: int) -> Span {
        Span { lo: (2 * center_hz - rate_hz) as i64, hi: (2 * center_hz + rate_hz) as i64 }
    }

    /// The stretch `rate_hz` wide around `center_hz`.
    pub fn around(center_hz: i64, rate_hz: i64) -> (s: Span)
        requires
            hz_ok(center_hz),
            rate_ok(rate_hz),
        ensures
            s == Span::of(center_hz as int, rate_hz as int),
            s.lo == 2 * center_hz - rate_hz,
            s.hi == 2 * center_hz + rate_hz,
            s.valid(),
    {
        Span { lo: 2 * center_hz - rate_hz, hi: 2 * center_hz + rate_hz }
    }

    pub open spec fn joined(self, o: Span) -> Span {
        Span {
            lo: if self.lo <= o.lo { self.lo } else { o.lo },
            hi: if self.hi >= o.hi { self.hi } else { o.hi },
        }
    }

    /// The least stretch that holds both.
    pub fn join(self, o: Span) -> (s: Span)
        ensures
            s == self.joined(o),
    {
        Span {
            lo: if self.lo <= o.lo { self.lo } else { o.lo },
            hi: if self.hi >= o.hi { self.hi } else { o.hi },
        }
    }
}

/// What channel `i` occupies.
pub open spec fn channel_span(i: int) -> Span {
    Span::of(CHANNEL_CENTERS_HZ@[i] as int, CHANNEL_RATES_HZ@[i] as int)
}

/// The least stretch that holds the first `n` channels whole.
pub open spec fn channels_joined(n: nat) -> Span
    decreases n,
{
    if n <= 1 {
        channel_span(0)
    } else {
        channels_joined((n - 1) as nat).joined(channel_span(n - 1))
    }
}

/// The least stretch that holds every channel of the plan whole.
pub open spec fn plan_span() -> Span {
    channels_joined(CHANNEL_COUNT as nat)
}

/// The least stretch that holds every channel of the plan whole. Adding a
/// channel to the table moves it.
pub fn native_span() -> (s: Span)
    ensures
        s == plan_span(),
        s.valid(),
        forall|i: int|
            0 <= i < CHANNEL_COUNT ==> s.lo <= (#[trigger] channel_span(i)).lo && channel_span(i).hi
                <= s.hi,
{
    let mut s: Span = Span::around(CHANNEL_CENTERS_HZ[0], CHANNEL_RATES_HZ[0]);
    let mut i: usize = 1;
    while i < CHANNEL_COUNT
        invariant
            1 <= i <= CHANNEL_COUNT,
            s == channels_joined(i as nat),
            s.valid(),
            forall|j: int|
                0 <= j < i ==> s.lo <= (#[trigger] channel_span(j)).lo && channel_span(j).hi
                    <= s.hi,
        decreases CHANNEL_COUNT - i,
    {
        s = s.join(Span::around(CHANNEL_CENTERS_HZ[i], CHANNEL_RATES_HZ[i]));
        i = i + 1;
    }
    s
}

proof fn lemma_plan_span()
    ensures
        plan_span().lo == 1_736_350_000,
        plan_span().hi == 1_739_175_000,
        plan_span().valid(),
{
    reveal_with_fuel(channels_joined, 5);
}

/// Where the receiver would ideally be tuned: the centre that fits the whole
/// plan into the least bandwidth. Not the midpoint of the channel centres but
/// the midpoint of their *edges*, so that the outermost channels fit too.
pub fn ideal_center_hz() -> (r: i64)
    ensures
        4 * r == plan_span().lo + plan_span().hi,
{
    let s = native_span();
    proof {
        lemma_plan_span();
    }
    (s.lo + s.hi) / 4
}

/// How much bandwidth the whole plan needs.
pub fn span_hz() -> (r: i64)
    ensures
        2 * r == plan_span().hi - plan_span().lo,
{
    let s = native_span();
    proof {
        lemma_plan_span();
    }
    (s.hi - s.lo) / 2
}

/// The usable share of a receiver's sample rate, in quarters: the outermost
/// eighth at each end is tapered, and a channel placed in the taper is
/// attenuated by the very filter that selected it.
pub const USABLE_QUARTERS: i64 = 3;

/// A window on the spectrum: `in_rate_hz / dec` wide, and centred on
/// `center / (8 * dec)` Hz.
#[derive(Clone, Copy, Debug, PartialEq, Eq, Structural)]
pub struct Window {
    pub center: i128,
    pub in_rate_hz: i64,
    pub dec: i64,
}

impl Window {
    pub open spec fn valid(self) -> bool {
        &&& rate_ok(self.in_rate_hz)
        &&& rate_ok(self.dec)
        &&& -16 * MAX_HZ * MAX_HZ <= self.center <= 16 * MAX_HZ * MAX_HZ
    }

    /// The undecimated stream of a receiver.
    pub fn whole(center_hz: i64, rate_hz: i64) -> (w: Window)
        requires
            hz_ok(center_hz),
            rate_ok(rate_hz),
        ensures
            w.valid(),
            w.dec == 1,
            w.in_rate_hz == rate_hz,
            w.center == 8 * center_hz,
    {
        Window { center: 8 * (center_hz as i128), in_rate_hz: rate_hz, dec: 1 }
    }

    /// Whether `s` lies in the usable part of this window. On the scale of
    /// `center` half a hertz is `4 * dec`, and three eighths of the width are
    /// `3 * in_rate_hz`.
    pub open spec fn covers(self, s: Span) -> bool {
        &&& 4 * self.dec * s.lo >= self.center - USABLE_QUARTERS * self.in_rate_hz
        &&& 4 * self.dec * s.hi <= self.center + USABLE_QUARTERS * self.in_rate_hz
    }
}

/// Whether `s` lies inside the window, allowing for the unusable edges.
pub fn span_fits(s: Span, w: &Window) -> (r: bool)
    requires
        s.valid(),
        w.valid(),
    ensures
        r == w.covers(s),
{
    proof {
        lemma_scaled(w.dec as int, s.lo as int);
        lemma_scaled(w.dec as int, s.hi as int);
    }
    let d: i128 = 4 * (w.dec as i128);
    let usable: i128 = 3 * (w.in_rate_hz as i128);
    d * (s.lo as i128) >= w.center - usable && d * (s.hi as i128) <= w.center + usable
}

/// Whether `ch` fits inside the window, allowing for the unusable edges.
pub fn fits(ch: &Channel, w: &Window) -> (r: bool)
    requires
        hz_ok(ch.center_hz),
        rate_ok(ch.rate_hz),
        w.valid(),
    ensures
        r == w.covers(Span::of(ch.center_hz as int, ch.rate_hz as int)),
{
    span_fits(Span::around(ch.center_hz, ch.rate_hz), w)
}

proof fn lemma_scaled(d: int, x: int)
    requires
        1 <= d <= MAX_HZ,
        -8 * MAX_HZ <= x <= 8 * MAX_HZ,
    ensures
        -8 * 1_000_000_000_000_000_000_000_000 <= d * x <= 8 * 1_000_000_000_000_000_000_000_000,
        -32 * 1_000_000_000_000_000_000_000_000 <= 4 * d * x <= 32
            * 1_000_000_000_000_000_000_000_000,
        4 * d * x == 4 * (d * x),
        2 * d * x == 2 * (d * x),
{
    assert(-8 * 1_000_000_000_000_000_000_000_000 <= d * x <= 8
        * 1_000_000_000_000_000_000_000_000) by (nonlinear_arith)
        requires
            1 <= d <= 1_000_000_000_000,
            -8 * 1_000_000_000_000 <= x <= 8 * 1_000_000_000_000,
    ;
    assert(4 * d * x == 4 * (d * x)) by (nonlinear_arith);
    assert(2 * d * x == 2 * (d * x)) by (nonlinear_arith);
}

/// How far a window decimated by `dec` can be slid off the receiver's own
/// centre, on the window's scale: its edges stay in the usable part of the
/// receiver's span.
pub open spec fn slack(hw_rate_hz: int, dec: int) -> int {
    hw_rate_hz * (USABLE_QUARTERS * dec - 4)
}

pub open spec fn clamped(x: int, lo: int, hi: int) -> int {
    if x < lo {
        lo
    } else if x > hi {
        hi
    } else {
        x
    }
}

/// The centre of the window that aims at `want4` quarter-hertz.
pub open spec fn aimed(want4: int, hw_center_hz: int, hw_rate_hz: int, dec: int) -> int {
    let here = 8 * dec * hw_center_hz;
    let s = slack(hw_rate_hz, dec);
    if s <= 0 {
        here
    } else {
        clamped(2 * dec * want4, here - s, here + s)
    }
}

/// Where to centre the decoder's window, given where the front end is tuned and
/// how much of the spectrum it hands over.
///
/// The window is a decimation of the receiver's stream and not a second tuner,
/// so the wanted centre, in quarter-hertz, is clamped into what the hardware
/// centre can reach. On a receiver tuned well away from it the result reaches
/// nothing, which is the honest outcome: `fits` then rejects everything.
pub fn window_center_for(want4: i64, hw_center_hz: i64, hw_rate_hz: i64, dec: i64) -> (w: Window)
    requires
        -8 * MAX_HZ <= want4 <= 8 * MAX_HZ,
        hz_ok(hw_center_hz),
        rate_ok(hw_rate_hz),
        1 <= dec <= hw_rate_hz,
    ensures
        w.center == aimed(want4 as int, hw_center_hz as int, hw_rate_hz as int, dec as int),
        w.in_rate_hz == hw_rate_hz,
        w.dec == dec,
        w.valid(),
{
    proof {
        lemma_scaled(dec as int, hw_center_hz as int);
        lemma_scaled(dec as int, want4 as int);
        lemma_scaled(dec as int, hw_rate_hz as int);
        let (d, c, r) = (dec as int, hw_center_hz as int, hw_rate_hz as int);
        assert(-1_000_000_000_000_000_000_000_000 <= d * c <= 1_000_000_000_000_000_000_000_000)
            by (nonlinear_arith)
            requires
                1 <= d <= 1_000_000_000_000,
                -1_000_000_000_000 <= c <= 1_000_000_000_000,
        ;
        assert(0 <= d * r <= 1_000_000_000_000_000_000_000_000) by (nonlinear_arith)
            requires
                1 <= d <= 1_000_000_000_000,
                1 <= r <= 1_000_000_000_000,
        ;
        assert(8 * d * c == 8 * (d * c)) by (nonlinear_arith);
        assert(r * (3 * d - 4) == 3 * (d * r) - 4 * r) by (nonlinear_arith);
    }
    let here: i128 = 8 * ((dec as i128) * (hw_center_hz as i128));
    let room: i128 = 3 * ((dec as i128) * (hw_rate_hz as i128)) - 4 * (hw_rate_hz as i128);
    let center: i128 = if room <= 0 {
        here
    } else {
        let want: i128 = 2 * ((dec as i128) * (want4 as i128));
        if want < here - room {
            here - room
        } else if want > here + room {
            here + room
        } else {
            want
        }
    };
    Window { center, in_rate_hz: hw_rate_hz, dec }
}

/// The window that aims at the native plan.
pub fn window_center_hz(hw_center_hz: i64, hw_rate_hz: i64, dec: i64) -> (w: Window)
    requires
        hz_ok(hw_center_hz),
        rate_ok(hw_rate_hz),
        1 <= dec <= hw_rate_hz,
    ensures
        w.center == aimed(
            plan_span().lo + plan_span().hi,
            hw_center_hz as int,
            hw_rate_hz as int,
            dec as int,
        ),
        w.in_rate_hz == hw_rate_hz,
        w.dec == dec,
        w.valid(),
{
    proof {
        lemma_plan_span();
    }
    let s = native_span();
    window_center_for(s.lo + s.hi, hw_center_hz, hw_rate_hz, dec)
}

/// The deepest decimation of a stream `in_rate` wide that still covers `need`,
/// both on one scale. A decimation rounded to the nearest integer can come back
/// several per cent narrower than asked, and a window built narrower than the
/// width it was chosen for can end up reaching none of the lanes it was chosen
/// to serve; this one never does. `None` when even the undecimated stream is too
/// narrow.
pub fn width_at_least(in_rate: i128, need: i128) -> (r: Option<i128>)
    ensures
        r is Some <==> 0 < need <= in_rate,
        r matches Some(dec) ==> 1 <= dec <= in_rate && dec * need <= in_rate < (dec + 1) * need,
{
    if need <= 0 || need > in_rate {
        return None;
    }
    let dec: i128 = in_rate / need;
    proof {
        let (n, q, a) = (need as int, dec as int, in_rate as int);
        assert(a == n * q + a % n) by {
            vstd::arithmetic::div_mod::lemma_fundamental_div_mod(a, n);
        }
        assert(0 <= a % n < n) by (nonlinear_arith)
            requires
                n > 0,
        ;
        assert(q >= 1) by (nonlinear_arith)
            requires
                a == n * q + a % n,
                a % n < n,
                n <= a,
        ;
        assert(q <= a) by (nonlinear_arith)
            requires
                a == n * q + a % n,
                0 <= a % n,
                1 <= n,
                q >= 1,
        ;
        assert(q * n <= a < (q + 1) * n) by (nonlinear_arith)
            requires
                a == n * q + a % n,
                0 <= a % n < n,
        ;
    }
    Some(dec)
}

/// What is switched on, as far as the window's place depends on it.
#[derive(Clone, Debug)]
pub struct Demand {
    /// Whether the native decoders run at all.
    pub native: bool,
    /// Whether anything switched on could decode a frame arriving on each
    /// channel. Not the same question as whether its family is on: a channel
    /// that is only listed must not outvote a band that decodes.
    pub decodes: [bool; 4],
    /// What each switched-on wideband lane occupies.
    pub bands: Vec<Span>,
}

impl Demand {
    pub open spec fn valid(&self) -> bool {
        &&& forall|i: int| 0 <= i < self.bands@.len() ==> (#[trigger] self.bands@[i]).valid()
        &&& self.bands@.len() < u32::MAX - 4
    }

    /// The stretches a window may be chosen for. Those that hold the native plan
    /// and one band together come first, so that a tie goes to the window that
    /// serves both.
    pub open spec fn wants(&self) -> Seq<Span> {
        if self.native {
            self.bands@.map_values(|b: Span| plan_span().joined(b)).push(plan_span()) + self.bands@
        } else {
            self.bands@
        }
    }

    /// How many of the first `n` channels the window reaches, counting only
    /// those that decode if `decoding`.
    pub open spec fn channels_in(&self, w: Window, n: nat, decoding: bool) -> nat
        decreases n,
    {
        if n == 0 {
            0
        } else {
            let rest = self.channels_in(w, (n - 1) as nat, decoding);
            if w.covers(channel_span(n - 1)) && (decoding ==> self.decodes@[n - 1]) {
                rest + 1
            } else {
                rest
            }
        }
    }

    /// How many of the first `n` bands the window reaches.
    pub open spec fn bands_in(&self, w: Window, n: nat) -> nat
        decreases n,
    {
        if n == 0 {
            0
        } else {
            let rest = self.bands_in(w, (n - 1) as nat);
            if w.covers(self.bands@[n - 1]) {
                rest + 1
            } else {
                rest
            }
        }
    }

    /// How many channels and bands that can produce a decode the window reaches.
    pub open spec fn decodable(&self, w: Window) -> nat {
        (if self.native {
            self.channels_in(w, CHANNEL_COUNT as nat, true)
        } else {
            0
        }) + self.bands_in(w, self.bands@.len())
    }

    /// How many channels and bands the window reaches at all.
    pub open spec fn in_view(&self, w: Window) -> nat {
        (if self.native {
            self.channels_in(w, CHANNEL_COUNT as nat, false)
        } else {
            0
        }) + self.bands_in(w, self.bands@.len())
    }

    /// What a window would decode, and what it would have in view.
    pub fn score(&self, w: &Window) -> (r: (u32, u32))
        requires
            self.valid(),
            w.valid(),
        ensures
            r.0 == self.decodable(*w),
            r.1 == self.in_view(*w),
    {
        let mut decodable: u32 = 0;
        let mut in_view: u32 = 0;
        if self.native {
            let mut i: usize = 0;
            while i < CHANNEL_COUNT
                invariant
                    w.valid(),
                    i <= CHANNEL_COUNT,
                    decodable <= i,
                    in_view <= i,
                    decodable == self.channels_in(*w, i as nat, true),
                    in_view == self.channels_in(*w, i as nat, false),
                decreases CHANNEL_COUNT - i,
            {
                let ch = channel(i);
                if fits(&ch, w) {
                    in_view = in_view + 1;
                    if self.decodes[i] {
                        decodable = decodable + 1;
                    }
                }
                i = i + 1;
            }
        }
        let ghost d0 = decodable as nat;
        let ghost v0 = in_view as nat;
        let mut i: usize = 0;
        while i < self.bands.len()
            invariant
                w.valid(),
                self.valid(),
                i <= self.bands@.len(),
                d0 <= 4,
                v0 <= 4,
                self.bands_in(*w, i as nat) <= i,
                decodable == d0 + self.bands_in(*w, i as nat),
                in_view == v0 + self.bands_in(*w, i as nat),
            decreases self.bands.len() - i,
        {
            if span_fits(self.bands[i], w) {
                in_view = in_view + 1;
                decodable = decodable + 1;
            }
            i = i + 1;
        }
        (decodable, in_view)
    }
}

/// Where the decoder's one window should sit and how wide it should be.
#[derive(Clone, Copy, Debug, PartialEq, Eq, Structural)]
pub struct WindowPlan {
    /// What to aim the window at, in quarter-hertz, before the hardware span
    /// clamps it.
    pub want4: i64,
    /// What to decimate the receiver's stream by.
    pub dec: i64,
}

/// The decimation for a stretch: the deepest whose usable part is as wide, or
/// none at all on a receiver too narrow for it.
pub open spec fn dec_for(s: Span, hw_rate_hz: int) -> int {
    let need = 2 * (s.hi - s.lo);
    if need <= 3 * hw_rate_hz {
        3 * hw_rate_hz / need
    } else {
        1
    }
}

pub open spec fn plan_for(s: Span, hw_rate_hz: int) -> WindowPlan {
    WindowPlan { want4: (s.lo + s.hi) as i64, dec: dec_for(s, hw_rate_hz) as i64 }
}

/// The window a plan comes to on a given receiver.
pub open spec fn window_of(p: WindowPlan, hw_center_hz: i64, hw_rate_hz: i64) -> Window {
    Window {
        center: aimed(p.want4 as int, hw_center_hz as int, hw_rate_hz as int, p.dec as int) as i128,
        in_rate_hz: hw_rate_hz,
        dec: p.dec,
    }
}

/// Whether one plan is strictly better than another: what it would decode comes
/// first, then the narrower window, then how much is in view.
pub open spec fn outranks(
    d: &Demand,
    a: WindowPlan,
    b: WindowPlan,
    hw_center_hz: i64,
    hw_rate_hz: i64,
) -> bool {
    let (wa, wb) = (window_of(a, hw_center_hz, hw_rate_hz), window_of(b, hw_center_hz, hw_rate_hz));
    ||| d.decodable(wa) > d.decodable(wb)
    ||| d.decodable(wa) == d.decodable(wb) && (a.dec > b.dec || a.dec == b.dec && d.in_view(wa)
        > d.in_view(wb))
}

/// Whether `p` is the plan for the first of the wanted stretches that no other
/// outranks.
pub open spec fn is_best_plan(
    d: &Demand,
    p: WindowPlan,
    n: int,
    hw_center_hz: i64,
    hw_rate_hz: i64,
) -> bool {
    exists|i: int|
        0 <= i < n && p == plan_for(#[trigger] d.wants()[i], hw_rate_hz as int) && (forall|j: int|
            0 <= j < n ==> !outranks(
                d,
                plan_for(#[trigger] d.wants()[j], hw_rate_hz as int),
                p,
                hw_center_hz,
                hw_rate_hz,
            )) && (forall|j: int|
            0 <= j < i ==> outranks(
                d,
                p,
                plan_for(#[trigger] d.wants()[j], hw_rate_hz as int),
                hw_center_hz,
                hw_rate_hz,
            ))
}

/// The plan for one stretch.
fn plan_one(s: Span, hw_rate_hz: i64) -> (p: WindowPlan)
    requires
        s.valid(),
        rate_ok(hw_rate_hz),
    ensures
        p == plan_for(s, hw_rate_hz as int),
        1 <= p.dec <= hw_rate_hz,
        p.want4 == s.lo + s.hi,
{
    let need: i128 = 2 * ((s.hi - s.lo) as i128);
    let have: i128 = 3 * (hw_rate_hz as i128);
    let dec: i64 = match width_at_least(have, need) {
        None => 1,
        Some(d) => {
            proof {
                let (n, q, a) = (need as int, d as int, have as int);
                assert(q == a / n) by {
                    assert(a == q * n + (a - q * n)) by (nonlinear_arith);
                    assert(0 <= a - q * n < n) by (nonlinear_arith)
                        requires
                            q * n <= a < (q + 1) * n,
                    ;
                    vstd::arithmetic::div_mod::lemma_fundamental_div_mod_converse(
                        a,
                        n,
                        q,
                        a - q * n,
                    );
                }
                assert(2 * q <= a) by (nonlinear_arith)
                    requires
                        q * n <= a,
                        n >= 2,
                        q >= 1,
                ;
            }
            d as i64
        },
    };
    proof {
        lemma_dec_in_rate(s, hw_rate_hz as int);
    }
    WindowPlan { want4: s.lo + s.hi, dec }
}

proof fn lemma_dec_in_rate(s: Span, r: int)
    requires
        s.lo + 2 <= s.hi,
        r >= 1,
    ensures
        1 <= dec_for(s, r) <= r,
{
    let n = 2 * (s.hi - s.lo);
    if n <= 3 * r {
        let q = 3 * r / n;
        vstd::arithmetic::div_mod::lemma_fundamental_div_mod(3 * r, n);
        assert(q >= 1) by (nonlinear_arith)
            requires
                3 * r == n * q + (3 * r) % n,
                (3 * r) % n < n,
                n <= 3 * r,
                n > 0,
        ;
        assert(4 * q <= 3 * r) by (nonlinear_arith)
            requires
                3 * r == n * q + (3 * r) % n,
                0 <= (3 * r) % n,
                n >= 4,
                q >= 1,
        ;
    }
}

/// Everything a window may be chosen for, in the order in which ties go.
fn wanted(d: &Demand) -> (v: Vec<Span>)
    requires
        d.valid(),
    ensures
        v@ == d.wants(),
        forall|i: int| 0 <= i < v@.len() ==> (#[trigger] v@[i]).valid(),
{
    let mut v: Vec<Span> = Vec::new();
    if d.native {
        let n = native_span();
        let mut i: usize = 0;
        while i < d.bands.len()
            invariant
                d.valid(),
                n == plan_span(),
                n.valid(),
                i <= d.bands@.len(),
                v@ == d.bands@.take(i as int).map_values(|b: Span| plan_span().joined(b)),
                forall|k: int| 0 <= k < v@.len() ==> (#[trigger] v@[k]).valid(),
            decreases d.bands.len() - i,
        {
            let ghost before = v@;
            v.push(n.join(d.bands[i]));
            i = i + 1;
            assert(v@ =~= d.bands@.take(i as int).map_values(|b: Span| plan_span().joined(b)));
        }
        assert(d.bands@.take(i as int) =~= d.bands@);
        v.push(n);
    }
    let ghost first = v@;
    let mut i: usize = 0;
    while i < d.bands.len()
        invariant
            d.valid(),
            i <= d.bands@.len(),
            v@ == first + d.bands@.take(i as int),
            forall|k: int| 0 <= k < v@.len() ==> (#[trigger] v@[k]).valid(),
        decreases d.bands.len() - i,
    {
        v.push(d.bands[i]);
        i = i + 1;
        assert(v@ =~= first + d.bands@.take(i as int));
    }
    assert(v@ =~= d.wants());
    v
}

/// Choose the window from what is switched on.
///
/// There is one window and two lanes that may want different parts of the
/// spectrum, so the aim point cannot be a constant. Each lane contributes the
/// stretch it needs covered *whole*; ahead of those come the stretches that hold
/// the native plan and one band together. They are ranked by what they would
/// actually decode, then by cost, then by how much is in view at all, then by
/// their order. A receiver too narrow for a stretch still gets the widest window
/// it has, so the lane runs and reports what is missing.
pub fn window_plan(d: &Demand, hw_center_hz: i64, hw_rate_hz: i64) -> (r: Option<WindowPlan>)
    requires
        d.valid(),
        hz_ok(hw_center_hz),
        rate_ok(hw_rate_hz),
    ensures
        r is None <==> d.wants().len() == 0,
        r matches Some(p) ==> is_best_plan(
            d,
            p,
            d.wants().len() as int,
            hw_center_hz,
            hw_rate_hz,
        ) && 1 <= p.dec <= hw_rate_hz && -8 * MAX_HZ <= p.want4 <= 8 * MAX_HZ,
{
    let wants = wanted(d);
    let mut best: Option<((u32, u32), WindowPlan)> = None;
    let mut i: usize = 0;
    while i < wants.len()
        invariant
            d.valid(),
            hz_ok(hw_center_hz),
            rate_ok(hw_rate_hz),
            wants@ == d.wants(),
            forall|k: int| 0 <= k < wants@.len() ==> (#[trigger] wants@[k]).valid(),
            i <= wants@.len(),
            best is None <==> i == 0,
            best matches Some(b) ==> {
                let w = window_of(b.1, hw_center_hz, hw_rate_hz);
                &&& is_best_plan(d, b.1, i as int, hw_center_hz, hw_rate_hz)
                &&& (b.0).0 == d.decodable(w)
                &&& (b.0).1 == d.in_view(w)
                &&& 1 <= b.1.dec <= hw_rate_hz
                &&& -8 * MAX_HZ <= b.1.want4 <= 8 * MAX_HZ
            },
        decreases wants.len() - i,
    {
        let p = plan_one(wants[i], hw_rate_hz);
        let w = window_center_for(p.want4, hw_center_hz, hw_rate_hz, p.dec);
        assert(w == window_of(p, hw_center_hz, hw_rate_hz));
        let (decodable, in_view) = d.score(&w);
        let better: bool = match &best {
            None => true,
            Some(b) => {
                let was: u32 = (b.0).0;
                let seen: u32 = (b.0).1;
                decodable > was || decodable == was && (p.dec > b.1.dec || p.dec == b.1.dec
                    && in_view > seen)
            },
        };
        assert(p == plan_for(d.wants()[i as int], hw_rate_hz as int));
        if better {
            proof {
                if best is Some {
                    lemma_better_takes_over(d, (best->0).1, p, i as int, hw_center_hz, hw_rate_hz);
                } else {
                    assert(!outranks(d, p, p, hw_center_hz, hw_rate_hz));
                    assert(p == plan_for(d.wants()[0], hw_rate_hz as int));
                }
            }
            best = Some(((decodable, in_view), p));
        } else {
            proof {
                lemma_best_holds(d, (best->0).1, p, i as int, hw_center_hz, hw_rate_hz);
            }
        }
        i = i + 1;
    }
    match best {
        None => None,
        Some(b) => Some(b.1),
    }
}

proof fn lemma_better_takes_over(
    d: &Demand,
    b: WindowPlan,
    p: WindowPlan,
    n: int,
    c: i64,
    r: i64,
)
    requires
        0 < n < d.wants().len(),
        is_best_plan(d, b, n, c, r),
        p == plan_for(d.wants()[n], r as int),
        outranks(d, p, b, c, r),
    ensures
        is_best_plan(d, p, n + 1, c, r),
{
    assert forall|j: int| 0 <= j < n + 1 implies !outranks(
        d,
        plan_for(#[trigger] d.wants()[j], r as int),
        p,
        c,
        r,
    ) by {
        if j < n {
            assert(!outranks(d, plan_for(d.wants()[j], r as int), b, c, r));
        }
    }
    assert forall|j: int| 0 <= j < n implies outranks(
        d,
        p,
        plan_for(#[trigger] d.wants()[j], r as int),
        c,
        r,
    ) by {
        assert(!outranks(d, plan_for(d.wants()[j], r as int), b, c, r));
    }
}

proof fn lemma_best_holds(d: &Demand, b: WindowPlan, p: WindowPlan, n: int, c: i64, r: i64)
    requires
        0 < n < d.wants().len(),
        is_best_plan(d, b, n, c, r),
        p == plan_for(d.wants()[n], r as int),
        !outranks(d, p, b, c, r),
    ensures
        is_best_plan(d, b, n + 1, c, r),
{
    let i = choose|i: int|
        0 <= i < n && b == plan_for(#[trigger] d.wants()[i], r as int) && (forall|j: int|
            0 <= j < n ==> !outranks(d, plan_for(#[trigger] d.wants()[j], r as int), b, c, r))
            && (forall|j: int|
            0 <= j < i ==> outranks(d, b, plan_for(#[trigger] d.wants()[j], r as int), c, r));
    assert forall|j: int| 0 <= j < n + 1 implies !outranks(
        d,
        plan_for(#[trigger] d.wants()[j], r as int),
        b,
        c,
        r,
    ) by {}
    assert(0 <= i < n + 1 && b == plan_for(d.wants()[i], r as int));
}

/// A window is never narrower than the width it was chosen for: decimated as the
/// plan says, three quarters of the stream still hold the stretch, unless the
/// whole stream does not.
pub proof fn a_window_is_as_wide_as_it_was_asked_for(s: Span, hw_rate_hz: i64)
    requires
        s.valid(),
        rate_ok(hw_rate_hz),
        2 * (s.hi - s.lo) <= 3 * hw_rate_hz,
    ensures
        plan_for(s, hw_rate_hz as int).dec >= 1,
        plan_for(s, hw_rate_hz as int).dec * (2 * (s.hi - s.lo)) <= 3 * hw_rate_hz,
{
    lemma_dec_in_rate(s, hw_rate_hz as int);
    let n = 2 * (s.hi - s.lo);
    let a = 3 * hw_rate_hz;
    vstd::arithmetic::div_mod::lemma_fundamental_div_mod(a, n);
    assert((a / n) * n <= a) by (nonlinear_arith)
        requires
            a == n * (a / n) + a % n,
            0 <= a % n,
    ;
}

/// A window reaches the stretch it was chosen for wherever the receiver's stream
/// is wide enough for it and the receiver is tuned near enough to slide the
/// window onto it.
pub proof fn the_window_covers_what_it_was_chosen_for(s: Span, hw_center_hz: i64, hw_rate_hz: i64)
    requires
        s.valid(),
        hz_ok(hw_center_hz),
        rate_ok(hw_rate_hz),
        2 * (s.hi - s.lo) <= 3 * hw_rate_hz,
        ({
            let dec = dec_for(s, hw_rate_hz as int);
            let off = 2 * dec * (s.lo + s.hi) - 8 * dec * hw_center_hz;
            -slack(hw_rate_hz as int, dec) <= off <= slack(hw_rate_hz as int, dec)
        }),
    ensures
        window_of(plan_for(s, hw_rate_hz as int), hw_center_hz, hw_rate_hz).covers(s),
{
    a_window_is_as_wide_as_it_was_asked_for(s, hw_rate_hz);
    lemma_dec_in_rate(s, hw_rate_hz as int);
    let d = dec_for(s, hw_rate_hz as int);
    let (lo, hi, r) = (s.lo as int, s.hi as int, hw_rate_hz as int);
    lemma_scaled(d, lo + hi);
    assert(2 * d * (lo + hi) == 2 * (d * lo) + 2 * (d * hi)) by (nonlinear_arith);
    assert(4 * d * lo == 4 * (d * lo)) by (nonlinear_arith);
    assert(4 * d * hi == 4 * (d * hi)) by (nonlinear_arith);
    assert(d * (2 * (hi - lo)) == 2 * (d * hi) - 2 * (d * lo)) by (nonlinear_arith);
    let w = window_of(plan_for(s, r), hw_center_hz, hw_rate_hz);
    assert(aimed(lo + hi, hw_center_hz as int, r, d) == 2 * d * (lo + hi));
    assert(w.center == 2 * d * (lo + hi));
}

/// The window never leaves the receiver's own span: where it is narrower than
/// the stream both its edges lie in the stream's usable part, and where it is the
/// stream it sits on the receiver's centre.
pub proof fn the_window_stays_inside_the_receivers_span(
    want4: int,
    hw_center_hz: int,
    hw_rate_hz: int,
    dec: int,
)
    requires
        hw_rate_hz >= 1,
        dec >= 1,
    ensures
        dec == 1 ==> aimed(want4, hw_center_hz, hw_rate_hz, dec) == 8 * hw_center_hz,
        dec >= 2 ==> ({
            let c = aimed(want4, hw_center_hz, hw_rate_hz, dec);
            &&& c - 4 * hw_rate_hz >= 8 * dec * hw_center_hz - 3 * (dec * hw_rate_hz)
            &&& c + 4 * hw_rate_hz <= 8 * dec * hw_center_hz + 3 * (dec * hw_rate_hz)
        }),
{
    let (r, d) = (hw_rate_hz, dec);
    assert(r * (3 * d - 4) == 3 * (d * r) - 4 * r) by (nonlinear_arith);
    if d >= 2 {
        assert(r * (3 * d - 4) > 0) by (nonlinear_arith)
            requires
                r >= 1,
                d >= 2,
        ;
    } else {
        assert(r * (3 * d - 4) == -r) by (nonlinear_arith)
            requires
                d == 1,
        ;
        assert(8 * d * hw_center_hz == 8 * hw_center_hz) by (nonlinear_arith)
            requires
                d == 1,
        ;
    }
}

} // verus!
