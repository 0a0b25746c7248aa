//! What the decoder's worker decides: which channels it listens on and why the
//! others are idle, which native decoders stand down for rtl_433, and what the
//! panel is told about it.
use vstd::prelude::*;

use crate::ism::devices::{
    first_heard, frame_key, has_id, heard_again, is_trimmed, Decoded, DeviceTable, IsmReport,
    Source,
};
use crate::ism::plan::{
    channel, channel_label, channel_span, fits, hz_ok, ideal_center_hz, plan_span, rate_ok,
    span_fits, width_at_least, Channel, IsmFamily, Span, Window, CHANNEL_CENTERS_HZ, CHANNEL_COUNT,
};
use crate::text::{dec, decimal};

verus! {

/// How often a snapshot goes out, in milliseconds. Fast enough that a sensor's
/// reading appears while the operator is still looking at the burst on the
/// waterfall, slow enough that the table is not rebuilt for nothing on a quiet
/// band.
pub const EMIT_INTERVAL_MS: u64 = 500;

/// Whether half a second has gone by.
pub open spec fn is_emit_due(last_ms: u64, now_ms: u64) -> bool {
    now_ms >= last_ms + EMIT_INTERVAL_MS
}

/// Whether it is time for another snapshot.
pub fn emit_due(last_ms: u64, now_ms: u64) -> (r: bool)
    ensures
        r == (now_ms >= last_ms + EMIT_INTERVAL_MS),
        r == is_emit_due(last_ms, now_ms),
{
    now_ms >= last_ms && now_ms - last_ms >= EMIT_INTERVAL_MS
}

/// The embedded rtl_433's settings.
#[derive(Clone, Copy, Debug, PartialEq, Eq, Structural)]
pub struct Rtl433Settings {
    pub enabled: bool,
    /// The bands switched on, one bit each.
    pub bands: u32,
    /// The width chosen, in Hz, or nought for each band's own.
    pub bandwidth_hz: u32,
}

/// The decoder's settings.
#[derive(Clone, Copy, Debug, PartialEq, Eq, Structural)]
pub struct IsmSettings {
    pub threshold_db: u8,
    /// The families switched on, as a set of `IsmFamily` bits.
    pub families: u32,
    pub max_devices: u16,
    pub rtl433: Rtl433Settings,
}

/// One native decoder.
#[derive(Clone, Copy, Debug)]
pub struct Protocol {
    /// The protocol's code.
    pub id: u8,
    pub family: IsmFamily,
    /// The channel it is heard on, Hz.
    pub channel_hz: i64,
    /// Whether rtl_433 reads this protocol better.
    pub rtl433_reads: bool,
}

/// The stretch of spectrum the running rtl_433 is fed: `rate_num / rate_den` Hz
/// around `center_hz`.
#[derive(Clone, Copy, Debug, PartialEq, Eq, Structural)]
pub struct Lane {
    /// Which of the offered bands it is.
    pub band: usize,
    pub center_hz: i64,
    pub rate_num: i64,
    pub rate_den: i64,
}

impl Lane {
    pub open spec fn valid(self) -> bool {
        hz_ok(self.center_hz) && rate_ok(self.rate_num) && rate_ok(self.rate_den)
    }

    /// Whether `freq_hz` is no further than half the rate from the centre.
    pub open spec fn hears(self, freq_hz: int) -> bool {
        let off = freq_hz - self.center_hz;
        2 * self.rate_den * (if off < 0 { -off } else { off }) <= self.rate_num
    }
}

/// Why a channel is idle, or that it is not.
#[derive(Clone, Copy, Debug)]
pub struct IsmChannelStatus {
    pub freq_hz: i64,
    pub label: &'static str,
    pub live: bool,
    pub reason: Option<&'static str>,
}

/// Whether two frequencies count as one channel.
pub open spec fn same_channel(a: int, b: int) -> bool {
    -10_000 < a - b < 10_000
}

/// Whether a family is switched on.
pub open spec fn family_on(cfg: IsmSettings, f: IsmFamily) -> bool {
    cfg.families & f.mask() != 0
}

pub open spec fn lane_covers(lane: Option<Lane>, freq_hz: int) -> bool {
    match lane {
        None => false,
        Some(l) => l.hears(freq_hz),
    }
}

/// Whether the native decoder `p` runs on what arrives at `freq_hz`: it stands
/// down for a protocol rtl_433 reads better, and only while rtl_433 is in a
/// position to hear it.
pub open spec fn runs(cfg: IsmSettings, lane: Option<Lane>, p: Protocol, freq_hz: int) -> bool {
    family_on(cfg, p.family) && !(p.rtl433_reads && lane_covers(lane, freq_hz))
}

pub open spec fn implemented_at(ps: Seq<Protocol>, freq_hz: int) -> bool {
    exists|i: int|
        0 <= i < ps.len() && same_channel((#[trigger] ps[i]).channel_hz as int, freq_hz)
}

pub open spec fn enabled_at(cfg: IsmSettings, ps: Seq<Protocol>, freq_hz: int) -> bool {
    exists|i: int|
        0 <= i < ps.len() && same_channel((#[trigger] ps[i]).channel_hz as int, freq_hz)
            && family_on(cfg, ps[i].family)
}

pub open spec fn running_at(
    cfg: IsmSettings,
    lane: Option<Lane>,
    ps: Seq<Protocol>,
    freq_hz: int,
) -> bool {
    exists|i: int|
        0 <= i < ps.len() && same_channel((#[trigger] ps[i]).channel_hz as int, freq_hz) && runs(
            cfg,
            lane,
            ps[i],
            freq_hz,
        )
}

/// Why channel `i` of the plan is idle. A channel the operator switched off and
/// a channel handed to the other lane want different things done about them.
pub open spec fn idle_reason(
    w: Window,
    cfg: IsmSettings,
    lane: Option<Lane>,
    ps: Seq<Protocol>,
    i: int,
) -> Option<Seq<char>> {
    let f = CHANNEL_CENTERS_HZ@[i] as int;
    if !w.covers(channel_span(i)) {
        Some("outside the receiver's window"@)
    } else if !implemented_at(ps, f) {
        Some("not decoded yet"@)
    } else if !enabled_at(cfg, ps, f) {
        Some("switched off"@)
    } else if !running_at(cfg, lane, ps, f) {
        Some("handled by rtl_433"@)
    } else {
        None
    }
}

/// What a row says, as text.
pub open spec fn told(reason: Option<&'static str>) -> Option<Seq<char>> {
    match reason {
        None => None,
        Some(s) => Some(s@),
    }
}

pub open spec fn rows_tell(
    rows: Seq<IsmChannelStatus>,
    w: Window,
    cfg: IsmSettings,
    lane: Option<Lane>,
    ps: Seq<Protocol>,
) -> bool {
    &&& rows.len() == CHANNEL_COUNT
    &&& forall|i: int|
        0 <= i < rows.len() ==> {
            &&& (#[trigger] rows[i]).freq_hz == CHANNEL_CENTERS_HZ@[i]
            &&& rows[i].label@ == channel_label(i)
            &&& told(rows[i].reason) == idle_reason(w, cfg, lane, ps, i)
            &&& rows[i].live == (rows[i].reason is None)
        }
}

/// What a change of settings asks for.
#[derive(Clone, Copy, Debug, PartialEq, Eq, Structural)]
pub enum ConfigChange {
    /// The channels have to be opened afresh.
    Rebuild,
    /// Only the gates' threshold moved. Their learned floors stay: the noise did
    /// not move because a slider did.
    Threshold,
    Same,
}

/// One band rtl_433 can be pointed at.
#[derive(Clone, Copy, Debug)]
pub struct Band {
    pub center_hz: i64,
    /// Its own width, Hz.
    pub rate_hz: i64,
    /// The width the settings ask of it, Hz.
    pub want_hz: i64,
    pub label: &'static str,
    pub enabled: bool,
}

impl Band {
    pub open spec fn valid(self) -> bool {
        hz_ok(self.center_hz) && rate_ok(self.rate_hz) && rate_ok(self.want_hz)
    }

    pub open spec fn fits_in(self, w: Window) -> bool {
        w.covers(Span::of(self.center_hz as int, self.want_hz as int))
    }

    pub open spec fn fits_at_own_width(self, w: Window) -> bool {
        w.covers(Span::of(self.center_hz as int, self.rate_hz as int))
    }
}

pub open spec fn bands_valid(bands: Seq<Band>) -> bool {
    forall|i: int| 0 <= i < bands.len() ==> (#[trigger] bands[i]).valid()
}

/// Whether some switched-on band would fit at its own width.
pub open spec fn some_fits_at_own_width(bands: Seq<Band>, w: Window) -> bool {
    exists|i: int|
        0 <= i < bands.len() && (#[trigger] bands[i]).enabled && bands[i].fits_at_own_width(w)
}

/// What is to be done about the rtl_433 lane.
#[derive(Clone, Debug)]
pub enum LanePlan {
    /// It is switched off.
    Off,
    /// It should run and cannot.
    Unavailable(String),
    /// It runs on a band, fed the window decimated by `dec`.
    Start { band: usize, dec: i128 },
}

/// Why no band was picked. A band that would have fitted at its own width and
/// does not at the chosen one is a bandwidth to turn down, not a frequency to
/// tune to.
pub open spec fn no_band_text(bands: Seq<Band>, w: Window, bandwidth_hz: int) -> Seq<char> {
    if some_fits_at_own_width(bands, w) {
        "the receiver's window is too narrow for "@ + dec((bandwidth_hz / 1000) as nat)
            + " kHz — choose a narrower bandwidth, or AUTO"@
    } else {
        "no enabled band is inside the receiver's window"@
    }
}

/// Why a band is idle. Too far away and too wide are different faults with
/// different fixes.
pub open spec fn band_reason(b: Band, live: bool, w: Window) -> Option<Seq<char>> {
    if !b.enabled {
        Some("switched off"@)
    } else if live {
        None
    } else if !b.fits_in(w) {
        if b.fits_at_own_width(w) {
            Some("too wide for the receiver's window"@)
        } else {
            Some("outside the receiver's window"@)
        }
    } else {
        Some("another band is live"@)
    }
}

/// What the panel is told about the decoder as a whole.
#[derive(Clone, Copy, Debug)]
pub struct IsmStatus {
    /// Why nothing is listening.
    pub unavailable: Option<&'static str>,
    /// Where to tune, when the window is what is in the way.
    pub suggest_center_hz: Option<i64>,
    pub decodes: u64,
}

pub open spec fn window_is_the_problem(rows: Seq<IsmChannelStatus>) -> bool {
    exists|i: int|
        0 <= i < rows.len() && told((#[trigger] rows[i]).reason) == Some(
            "outside the receiver's window"@,
        )
}

pub open spec fn any_live(rows: Seq<IsmChannelStatus>) -> bool {
    exists|i: int| 0 <= i < rows.len() && (#[trigger] rows[i]).live
}

fn near(a: i64, b: i64) -> (r: bool)
    requires
        hz_ok(a),
        hz_ok(b),
    ensures
        r == same_channel(a as int, b as int),
{
    let off: i64 = a - b;
    -10_000 < off && off < 10_000
}

/// Whether anything switched on could decode a frame arriving on each channel.
pub fn decodes_here(cfg: &IsmSettings, protocols: &Vec<Protocol>) -> (r: [bool; 4])
    requires
        forall|i: int| 0 <= i < protocols@.len() ==> hz_ok((#[trigger] protocols@[i]).channel_hz),
    ensures
        forall|i: int|
            0 <= i < 4 ==> #[trigger] r@[i] == enabled_at(
                *cfg,
                protocols@,
                CHANNEL_CENTERS_HZ@[i] as int,
            ),
{
    let mut r: [bool; 4] = [false, false, false, false];
    let mut i: usize = 0;
    while i < CHANNEL_COUNT
        invariant
            forall|k: int|
                0 <= k < protocols@.len() ==> hz_ok((#[trigger] protocols@[k]).channel_hz),
            i <= CHANNEL_COUNT,
            r@.len() == 4,
            forall|k: int|
                0 <= k < i ==> #[trigger] r@[k] == enabled_at(
                    *cfg,
                    protocols@,
                    CHANNEL_CENTERS_HZ@[k] as int,
                ),
        decreases CHANNEL_COUNT - i,
    {
        let f: i64 = CHANNEL_CENTERS_HZ[i];
        r[i] = any_enabled(cfg, protocols, f);
        i = i + 1;
    }
    r
}

fn any_enabled(cfg: &IsmSettings, protocols: &Vec<Protocol>, freq_hz: i64) -> (r: bool)
    requires
        forall|i: int| 0 <= i < protocols@.len() ==> hz_ok((#[trigger] protocols@[i]).channel_hz),
        hz_ok(freq_hz),
    ensures
        r == enabled_at(*cfg, protocols@, freq_hz as int),
{
    let mut i: usize = 0;
    while i < protocols.len()
        invariant
            forall|k: int|
                0 <= k < protocols@.len() ==> hz_ok((#[trigger] protocols@[k]).channel_hz),
            hz_ok(freq_hz),
            i <= protocols@.len(),
            forall|k: int|
                0 <= k < i ==> !(same_channel(
                    (#[trigger] protocols@[k]).channel_hz as int,
                    freq_hz as int,
                ) && family_on(*cfg, protocols@[k].family)),
        decreases protocols.len() - i,
    {
        let p = protocols[i];
        if near(p.channel_hz, freq_hz) && cfg.families & p.family.bit() != 0 {
            assert(same_channel(protocols@[i as int].channel_hz as int, freq_hz as int));
            return true;
        }
        i = i + 1;
    }
    false
}

fn any_implemented(protocols: &Vec<Protocol>, freq_hz: i64) -> (r: bool)
    requires
        forall|i: int| 0 <= i < protocols@.len() ==> hz_ok((#[trigger] protocols@[i]).channel_hz),
        hz_ok(freq_hz),
    ensures
        r == implemented_at(protocols@, freq_hz as int),
{
    let mut i: usize = 0;
    while i < protocols.len()
        invariant
            forall|k: int|
                0 <= k < protocols@.len() ==> hz_ok((#[trigger] protocols@[k]).channel_hz),
            hz_ok(freq_hz),
            i <= protocols@.len(),
            forall|k: int|
                0 <= k < i ==> !same_channel(
                    (#[trigger] protocols@[k]).channel_hz as int,
                    freq_hz as int,
                ),
        decreases protocols.len() - i,
    {
        if near(protocols[i].channel_hz, freq_hz) {
            assert(same_channel(protocols@[i as int].channel_hz as int, freq_hz as int));
            return true;
        }
        i = i + 1;
    }
    false
}

/// The codes of the first `n` protocols that stand down for rtl_433, a run of
/// one code given once.
pub open spec fn stood_down(
    cfg: IsmSettings,
    lane: Option<Lane>,
    ps: Seq<Protocol>,
    n: nat,
) -> Seq<u8>
    decreases n,
{
    if n == 0 {
        Seq::empty()
    } else {
        let before = stood_down(cfg, lane, ps, (n - 1) as nat);
        let p = ps[n - 1];
        if family_on(cfg, p.family) && p.rtl433_reads && lane_covers(lane, p.channel_hz as int)
            && (before.len() == 0 || before.last() != p.id) {
            before.push(p.id)
        } else {
            before
        }
    }
}

/// Whether a window is where it was and as wide, to within a hertz.
pub open spec fn same_window(a: Window, b: Window) -> bool {
    let off = a.center * b.dec - b.center * a.dec;
    let wider = a.in_rate_hz * b.dec - b.in_rate_hz * a.dec;
    -(8 * (a.dec * b.dec)) < off < 8 * (a.dec * b.dec) && -(a.dec * b.dec) < wider < a.dec * b.dec
}

/// The worker's view of what it listens to.
pub struct Worker {
    pub window: Window,
    pub cfg: IsmSettings,
    pub protocols: Vec<Protocol>,
    pub bands: Vec<Band>,
    pub lane: Option<Lane>,
    /// Every channel in the plan and why it is or is not being listened to. The
    /// live ones are those that are open.
    pub rows: Vec<IsmChannelStatus>,
    pub devices: DeviceTable,
    pub decodes: u64,
}

/// Whether a window was taken over: one that is where the old one was changes
/// nothing.
pub open spec fn retuned(was: Worker, window: Window, moved: bool, after: Worker) -> bool {
    &&& moved == !same_window(was.window, window)
    &&& !moved ==> after == was
    &&& moved ==> after == (Worker { window, lane: None, rows: after.rows, ..was })
    &&& after.wf()
}

/// Whether settings were taken over.
pub open spec fn reconfigured(
    was: Worker,
    next: IsmSettings,
    bands: Vec<Band>,
    change: ConfigChange,
    after: Worker,
) -> bool {
    &&& change == config_change(was.cfg, next)
    &&& after.cfg == next && after.bands == bands
    &&& after.window == was.window && after.protocols == was.protocols && after.decodes
        == was.decodes
    &&& change == ConfigChange::Rebuild ==> after.lane is None
    &&& change != ConfigChange::Rebuild ==> after.lane == was.lane && after.rows == was.rows
    &&& is_trimmed(was.devices.rows@, after.devices.rows@, device_cap(next))
    &&& after.wf()
}

/// Whether rtl_433 was started or stopped.
pub open spec fn relaned(was: Worker, lane: Option<Lane>, after: Worker) -> bool {
    &&& after == (Worker { lane, rows: after.rows, ..was })
    &&& after.wf()
}

/// Whether this is what is to be done about rtl_433.
pub open spec fn is_lane_plan(w: Worker, picked: Option<usize>, plan: LanePlan) -> bool {
    &&& plan is Off <==> !w.cfg.rtl433.enabled
    &&& plan is Start <==> w.cfg.rtl433.enabled && picked is Some
    &&& plan matches LanePlan::Unavailable(t) ==> t@ == no_band_text(
        w.bands@,
        w.window,
        w.cfg.rtl433.bandwidth_hz as int,
    )
    &&& plan matches LanePlan::Start { band, dec } ==> picked == Some(band) && dec == lane_dec(
        w.window,
        w.bands@[band as int].want_hz as int,
    )
}

/// Whether the decoder with a code runs on a burst.
pub open spec fn decodes(w: Worker, id: u8, freq_hz: int) -> bool {
    exists|i: int|
        0 <= i < w.protocols@.len() && (#[trigger] w.protocols@[i]).id == id && (forall|k: int|
            0 <= k < i ==> (#[trigger] w.protocols@[k]).id != id) && runs(
            w.cfg,
            w.lane,
            w.protocols@[i],
            freq_hz,
        )
}

/// Whether this is what the panel is told.
pub open spec fn is_status(w: Worker, s: IsmStatus) -> bool {
    &&& told(s.unavailable) == if any_live(w.rows@) || w.lane is Some {
        None
    } else if window_is_the_problem(w.rows@) {
        Some("no ISM channel is inside the receiver's window"@)
    } else {
        Some("no device family is switched on"@)
    }
    &&& s.suggest_center_hz is Some <==> window_is_the_problem(w.rows@)
    &&& s.suggest_center_hz matches Some(f) ==> 4 * f == plan_span().lo + plan_span().hi
    &&& s.decodes == w.decodes
}

/// Whether these are the rows of the bands.
pub open spec fn bands_tell(w: Worker, rows: Option<Vec<IsmChannelStatus>>) -> bool {
    &&& rows is Some <==> w.cfg.rtl433.enabled
    &&& rows matches Some(v) ==> v@.len() == w.bands@.len() && forall|i: int|
        0 <= i < v@.len() ==> {
            let b = w.bands@[i];
            let live = w.lane matches Some(l) && l.band == i;
            &&& (#[trigger] v@[i]).freq_hz == b.center_hz
            &&& v@[i].label@ == b.label@
            &&& v@[i].live == live
            &&& told(v@[i].reason) == band_reason(b, live, w.window)
        }
}

/// What is said of a line that was refused.
pub open spec fn problem(line: nat, message: Seq<char>) -> Seq<char> {
    "line "@ + dec(line) + ": "@ + message
}

impl Worker {
    pub open spec fn wf(&self) -> bool {
        &&& self.window.valid()
        &&& protocols_ok(self.protocols@)
        &&& bands_valid(self.bands@)
        &&& self.lane matches Some(l) ==> l.valid()
        &&& rows_tell(self.rows@, self.window, self.cfg, self.lane, self.protocols@)
        &&& self.devices.wf()
    }

    /// A worker on `window`, with rtl_433 not running yet.
    pub fn new(
        window: Window,
        cfg: IsmSettings,
        protocols: Vec<Protocol>,
        bands: Vec<Band>,
    ) -> (w: Worker)
        requires
            window.valid(),
            protocols_ok(protocols@),
            bands_valid(bands@),
        ensures
            w.wf(),
            w.window == window,
            w.cfg == cfg,
            w.protocols == protocols,
            w.bands == bands,
            w.lane is None,
            w.devices.rows@.len() == 0,
            w.decodes == 0,
    {
        let rows = channel_rows(&window, &cfg, &None, &protocols);
        Worker {
            window,
            cfg,
            protocols,
            bands,
            lane: None,
            rows,
            devices: DeviceTable::new(),
            decodes: 0,
        }
    }

    /// The window moved: the front end retuned, or changed rate. Says whether
    /// the channels have to be opened afresh; rtl_433 is then stopped, and what
    /// to start in its place is for `lane_plan` to say.
    pub fn set_window(&mut self, window: Window) -> (r: bool)
        requires
            old(self).wf(),
            window.valid(),
        ensures
            final(self).wf(),
            r == !same_window(old(self).window, window),
            !r ==> *final(self) == *old(self),
            r ==> final(self).window == window && final(self).lane is None,
            final(self).cfg == old(self).cfg,
            final(self).protocols == old(self).protocols,
            final(self).bands == old(self).bands,
            final(self).devices == old(self).devices,
            final(self).decodes == old(self).decodes,
            retuned(*old(self), window, r, *final(self)),
    {
        if windows_agree(&self.window, &window) {
            return false;
        }
        self.window = window;
        self.lane = None;
        self.rows = channel_rows(&self.window, &self.cfg, &None, &self.protocols);
        true
    }

    /// Take over new settings, with what each band is asked for under them. The
    /// rtl_433 lane decides which native decoders stand down, so a change to it
    /// reopens the channels as a change of families does.
    pub fn set_config(&mut self, next: IsmSettings, bands: Vec<Band>) -> (r: ConfigChange)
        requires
            old(self).wf(),
            bands_valid(bands@),
        ensures
            final(self).wf(),
            final(self).cfg == next,
            final(self).bands == bands,
            r == config_change(old(self).cfg, next),
            r == ConfigChange::Rebuild ==> final(self).lane is None,
            r != ConfigChange::Rebuild ==> final(self).lane == old(self).lane && final(self).rows
                == old(self).rows,
            final(self).window == old(self).window,
            final(self).protocols == old(self).protocols,
            final(self).decodes == old(self).decodes,
            is_trimmed(
                old(self).devices.rows@,
                final(self).devices.rows@,
                device_cap(next),
            ),
            reconfigured(*old(self), next, bands, r, *final(self)),
    {
        let change = if next.families != self.cfg.families || next.rtl433 != self.cfg.rtl433 {
            ConfigChange::Rebuild
        } else if next.threshold_db != self.cfg.threshold_db {
            ConfigChange::Threshold
        } else {
            ConfigChange::Same
        };
        self.cfg = next;
        self.bands = bands;
        if matches!(change, ConfigChange::Rebuild) {
            self.lane = None;
            self.rows = channel_rows(&self.window, &self.cfg, &None, &self.protocols);
        } else {
            proof {
                lemma_rows_keep(*old(self), *self);
            }
        }
        self.devices.trim(next.max_devices);
        change
    }

    /// rtl_433 started, or stopped: the native decoders it covers stand down, or
    /// come back.
    pub fn set_lane(&mut self, lane: Option<Lane>)
        requires
            old(self).wf(),
            lane matches Some(l) ==> l.valid(),
        ensures
            final(self).wf(),
            final(self).lane == lane,
            final(self).window == old(self).window,
            final(self).cfg == old(self).cfg,
            final(self).protocols == old(self).protocols,
            final(self).bands == old(self).bands,
            final(self).devices == old(self).devices,
            final(self).decodes == old(self).decodes,
            relaned(*old(self), lane, *final(self)),
    {
        self.lane = lane;
        self.rows = channel_rows(&self.window, &self.cfg, &self.lane, &self.protocols);
    }

    /// What is to be done about rtl_433, given the band that was picked for it.
    /// The lane is never built narrower than the band it was picked for.
    pub fn lane_plan(&self, picked: Option<usize>) -> (r: LanePlan)
        requires
            self.wf(),
            picked matches Some(i) ==> i < self.bands@.len(),
        ensures
            r is Off <==> !self.cfg.rtl433.enabled,
            self.cfg.rtl433.enabled && picked is None ==> (r matches LanePlan::Unavailable(t)
                && t@ == no_band_text(
                self.bands@,
                self.window,
                self.cfg.rtl433.bandwidth_hz as int,
            )),
            self.cfg.rtl433.enabled && picked is Some ==> (r matches LanePlan::Start { band, dec }
                && band == picked->0 && dec == lane_dec(
                self.window,
                self.bands@[band as int].want_hz as int,
            )),
            is_lane_plan(*self, picked, r),
    {
        if !self.cfg.rtl433.enabled {
            return LanePlan::Off;
        }
        match picked {
            None => LanePlan::Unavailable(self.no_band()),
            Some(band) => {
                let want: i128 = self.bands[band].want_hz as i128;
                let w = &self.window;
                proof {
                    let (x, d) = (self.bands@[band as int].want_hz as int, w.dec as int);
                    assert(0 < x * d <= 1_000_000_000_000_000_000_000_000) by (nonlinear_arith)
                        requires
                            1 <= x <= 1_000_000_000_000,
                            1 <= d <= 1_000_000_000_000,
                    ;
                }
                let need: i128 = want * (w.dec as i128);
                let dec: i128 = match width_at_least(w.in_rate_hz as i128, need) {
                    Some(d) => {
                        proof {
                            lemma_is_quotient(w.in_rate_hz as int, need as int, d as int);
                        }
                        d
                    },
                    None => 1,
                };
                LanePlan::Start { band, dec }
            },
        }
    }

    /// Why no band was picked.
    fn no_band(&self) -> (r: String)
        requires
            self.wf(),
        ensures
            r@ == no_band_text(self.bands@, self.window, self.cfg.rtl433.bandwidth_hz as int),
    {
        let mut i: usize = 0;
        while i < self.bands.len()
            invariant
                self.wf(),
                i <= self.bands@.len(),
                forall|k: int|
                    0 <= k < i ==> !((#[trigger] self.bands@[k]).enabled
                        && self.bands@[k].fits_at_own_width(self.window)),
            decreases self.bands.len() - i,
        {
            let b = self.bands[i];
            assert(self.bands@[i as int].valid());
            if b.enabled && span_fits(Span::around(b.center_hz, b.rate_hz), &self.window) {
                assert(self.bands@[i as int].fits_at_own_width(self.window));
                let mut s = String::from_str("the receiver's window is too narrow for ");
                s.append(decimal((self.cfg.rtl433.bandwidth_hz / 1000) as u64).as_str());
                s.append(" kHz — choose a narrower bandwidth, or AUTO");
                return s;
            }
            i = i + 1;
        }
        String::from_str("no enabled band is inside the receiver's window")
    }

    /// Whether the embedded rtl_433 is listening to `freq_hz` right now.
    pub fn rtl433_covers(&self, freq_hz: i64) -> (r: bool)
        requires
            self.wf(),
            hz_ok(freq_hz),
        ensures
            r == lane_covers(self.lane, freq_hz as int),
    {
        covers(&self.lane, freq_hz)
    }

    /// Whether the native decoder `p` should run on a burst from `freq_hz`.
    pub fn native_runs(&self, p: &Protocol, freq_hz: i64) -> (r: bool)
        requires
            self.wf(),
            hz_ok(freq_hz),
        ensures
            r == runs(self.cfg, self.lane, *p, freq_hz as int),
    {
        may_run(&self.cfg, &self.lane, p, freq_hz)
    }

    /// Whether the decoder with code `id` should run on a burst from `freq_hz`:
    /// the first of that code decides, and a code no decoder has never runs.
    pub fn may_decode(&self, id: u8, freq_hz: i64) -> (r: bool)
        requires
            self.wf(),
            hz_ok(freq_hz),
        ensures
            r == exists|i: int|
                0 <= i < self.protocols@.len() && (#[trigger] self.protocols@[i]).id == id && (
                forall|k: int| 0 <= k < i ==> (#[trigger] self.protocols@[k]).id != id) && runs(
                    self.cfg,
                    self.lane,
                    self.protocols@[i],
                    freq_hz as int,
                ),
            r == decodes(*self, id, freq_hz as int),
    {
        let mut i: usize = 0;
        while i < self.protocols.len()
            invariant
                self.wf(),
                hz_ok(freq_hz),
                i <= self.protocols@.len(),
                forall|k: int| 0 <= k < i ==> (#[trigger] self.protocols@[k]).id != id,
            decreases self.protocols.len() - i,
        {
            let p = self.protocols[i];
            if p.id == id {
                return self.native_runs(&p, freq_hz);
            }
            i = i + 1;
        }
        false
    }

    /// Native protocols standing down on this window because rtl_433 has them.
    pub fn superseded(&self) -> (v: Vec<u8>)
        requires
            self.wf(),
        ensures
            v@ == stood_down(self.cfg, self.lane, self.protocols@, self.protocols@.len()),
    {
        let mut v: Vec<u8> = Vec::new();
        let mut i: usize = 0;
        while i < self.protocols.len()
            invariant
                self.wf(),
                i <= self.protocols@.len(),
                v@ == stood_down(self.cfg, self.lane, self.protocols@, i as nat),
            decreases self.protocols.len() - i,
        {
            let p = self.protocols[i];
            assert(hz_ok(self.protocols@[i as int].channel_hz));
            let away: bool = self.cfg.families & p.family.bit() != 0 && p.rtl433_reads && covers(
                &self.lane,
                p.channel_hz,
            );
            if away && (v.len() == 0 || v[v.len() - 1] != p.id) {
                v.push(p.id);
            }
            i = i + 1;
        }
        v
    }

    /// Fold one decoded frame into the device table.
    pub fn record(&mut self, d: Decoded, source: Source, freq_mhz: i64, snr_db: i64, now: i64)
        requires
            old(self).wf(),
            old(self).decodes < u64::MAX,
        ensures
            final(self).wf(),
            final(self).decodes == old(self).decodes + 1,
            recorded(
                old(self).devices.rows@,
                final(self).devices.rows@,
                d,
                source,
                freq_mhz,
                snr_db as int,
                now,
            ),
            final(self).window == old(self).window,
            final(self).cfg == old(self).cfg,
            final(self).protocols == old(self).protocols,
            final(self).bands == old(self).bands,
            final(self).lane == old(self).lane,
            final(self).rows == old(self).rows,
    {
        self.decodes = self.decodes + 1;
        self.devices.record(d, source, freq_mhz, snr_db, now);
    }

    /// Drop the least recently heard devices past the cap.
    pub fn trim(&mut self)
        requires
            old(self).wf(),
        ensures
            final(self).wf(),
            is_trimmed(
                old(self).devices.rows@,
                final(self).devices.rows@,
                device_cap(old(self).cfg),
            ),
            final(self).window == old(self).window,
            final(self).cfg == old(self).cfg,
            final(self).protocols == old(self).protocols,
            final(self).bands == old(self).bands,
            final(self).lane == old(self).lane,
            final(self).rows == old(self).rows,
            final(self).decodes == old(self).decodes,
    {
        self.devices.trim(self.cfg.max_devices);
    }

    /// What the panel is told. "Nothing is listening" is a claim about the whole
    /// decoder: with rtl_433 running there is no problem to report even when
    /// every native channel has stood down. A retune is only suggested when the
    /// window is what is in the way.
    pub fn status(&self) -> (r: IsmStatus)
        requires
            self.wf(),
        ensures
            told(r.unavailable) == if any_live(self.rows@) || self.lane is Some {
                None
            } else if window_is_the_problem(self.rows@) {
                Some("no ISM channel is inside the receiver's window"@)
            } else {
                Some("no device family is switched on"@)
            },
            r.suggest_center_hz is Some <==> window_is_the_problem(self.rows@),
            r.suggest_center_hz matches Some(f) ==> 4 * f == plan_span().lo + plan_span().hi,
            r.decodes == self.decodes,
            is_status(*self, r),
    {
        let mut outside: bool = false;
        let mut live: bool = false;
        let mut i: usize = 0;
        proof {
            reveal_strlit("outside the receiver's window");
            reveal_strlit("not decoded yet");
            reveal_strlit("switched off");
            reveal_strlit("handled by rtl_433");
        }
        while i < self.rows.len()
            invariant
                self.wf(),
                i <= self.rows@.len(),
                "outside the receiver's window"@.len() != "not decoded yet"@.len(),
                "outside the receiver's window"@.len() != "switched off"@.len(),
                "outside the receiver's window"@.len() != "handled by rtl_433"@.len(),
                live == exists|k: int| 0 <= k < i && (#[trigger] self.rows@[k]).live,
                outside == exists|k: int|
                    0 <= k < i && told((#[trigger] self.rows@[k]).reason) == Some(
                        "outside the receiver's window"@,
                    ),
            decreases self.rows.len() - i,
        {
            let ch = channel(i);
            let here: bool = fits(&ch, &self.window);
            assert(told(self.rows@[i as int].reason) == idle_reason(
                self.window,
                self.cfg,
                self.lane,
                self.protocols@,
                i as int,
            ));
            if !here {
                outside = true;
            }
            if self.rows[i].live {
                live = true;
            }
            i = i + 1;
        }
        let unavailable: Option<&'static str> = if live || self.lane.is_some() {
            None
        } else if outside {
            Some("no ISM channel is inside the receiver's window")
        } else {
            Some("no device family is switched on")
        };
        IsmStatus {
            unavailable,
            suggest_center_hz: if outside {
                Some(ideal_center_hz())
            } else {
                None
            },
            decodes: self.decodes,
        }
    }

    /// Every offered band, so a band that does not fit can still say where to
    /// tune. Nothing where rtl_433 is switched off.
    pub fn band_rows(&self) -> (r: Option<Vec<IsmChannelStatus>>)
        requires
            self.wf(),
        ensures
            r is Some <==> self.cfg.rtl433.enabled,
            r matches Some(v) ==> v@.len() == self.bands@.len() && forall|i: int|
                0 <= i < v@.len() ==> {
                    let b = self.bands@[i];
                    let live = self.lane matches Some(l) && l.band == i;
                    &&& (#[trigger] v@[i]).freq_hz == b.center_hz
                    &&& v@[i].label@ == b.label@
                    &&& v@[i].live == live
                    &&& told(v@[i].reason) == band_reason(b, live, self.window)
                },
            bands_tell(*self, r),
    {
        if !self.cfg.rtl433.enabled {
            return None;
        }
        let mut v: Vec<IsmChannelStatus> = Vec::new();
        let mut i: usize = 0;
        while i < self.bands.len()
            invariant
                self.wf(),
                i == v@.len(),
                i <= self.bands@.len(),
                forall|k: int|
                    0 <= k < i ==> {
                        let b = self.bands@[k];
                        let live = self.lane matches Some(l) && l.band == k;
                        &&& (#[trigger] v@[k]).freq_hz == b.center_hz
                        &&& v@[k].label@ == b.label@
                        &&& v@[k].live == live
                        &&& told(v@[k].reason) == band_reason(b, live, self.window)
                    },
            decreases self.bands.len() - i,
        {
            let b = self.bands[i];
            assert(self.bands@[i as int].valid());
            let live: bool = match &self.lane {
                Some(l) => l.band == i,
                None => false,
            };
            let reason: Option<&'static str> = if !b.enabled {
                Some("switched off")
            } else if live {
                None
            } else if !span_fits(Span::around(b.center_hz, b.want_hz), &self.window) {
                if span_fits(Span::around(b.center_hz, b.rate_hz), &self.window) {
                    Some("too wide for the receiver's window")
                } else {
                    Some("outside the receiver's window")
                }
            } else {
                Some("another band is live")
            };
            v.push(IsmChannelStatus { freq_hz: b.center_hz, label: b.label, live, reason });
            i = i + 1;
        }
        Some(v)
    }
}

pub open spec fn protocols_ok(ps: Seq<Protocol>) -> bool {
    forall|i: int| 0 <= i < ps.len() ==> hz_ok((#[trigger] ps[i]).channel_hz)
}

pub open spec fn device_cap(cfg: IsmSettings) -> int {
    if cfg.max_devices == 0 {
        1
    } else {
        cfg.max_devices as int
    }
}

pub open spec fn config_change(was: IsmSettings, next: IsmSettings) -> ConfigChange {
    if next.families != was.families || next.rtl433 != was.rtl433 {
        ConfigChange::Rebuild
    } else if next.threshold_db != was.threshold_db {
        ConfigChange::Threshold
    } else {
        ConfigChange::Same
    }
}

/// What to decimate the window by for a lane `want_hz` wide: as deep as leaves
/// it that wide, or not at all where the window itself is narrower.
pub open spec fn lane_dec(w: Window, want_hz: int) -> int {
    if want_hz * w.dec <= w.in_rate_hz {
        w.in_rate_hz as int / (want_hz * w.dec)
    } else {
        1
    }
}

/// Whether `rows` became `now` by one frame.
pub open spec fn recorded(
    rows: Seq<IsmReport>,
    now: Seq<IsmReport>,
    d: Decoded,
    source: Source,
    freq_mhz: i64,
    snr_db: int,
    at: i64,
) -> bool {
    let id = frame_key(d, source);
    if has_id(rows, id) {
        exists|i: int|
            0 <= i < rows.len() && (#[trigger] rows[i]).id == id && now == rows.update(
                i,
                heard_again(rows[i], d, source, freq_mhz, snr_db, at),
            )
    } else {
        now == rows.push(first_heard(d, source, freq_mhz, snr_db, at))
    }
}

proof fn lemma_is_quotient(a: int, n: int, q: int)
    requires
        n > 0,
        q * n <= a < (q + 1) * n,
    ensures
        q == a / n,
{
    assert(a == q * n + (a - q * n)) by (nonlinear_arith);
    assert(0 <= a - q * n < n) by (nonlinear_arith)
        requires
            q * n <= a < (q + 1) * n,
    ;
    vstd::arithmetic::div_mod::lemma_fundamental_div_mod_converse(a, n, q, a - q * n);
}

/// What the rows tell depends on the families and the lane alone among the
/// settings.
proof fn lemma_rows_keep(was: Worker, now: Worker)
    requires
        was.wf(),
        now.window == was.window,
        now.protocols == was.protocols,
        now.lane == was.lane,
        now.rows == was.rows,
        now.cfg.families == was.cfg.families,
    ensures
        rows_tell(now.rows@, now.window, now.cfg, now.lane, now.protocols@),
{
    let ps = was.protocols@;
    assert forall|i: int| 0 <= i < now.rows@.len() implies idle_reason(
        now.window,
        now.cfg,
        now.lane,
        ps,
        i,
    ) == #[trigger] idle_reason(was.window, was.cfg, was.lane, ps, i) by {
        let f = CHANNEL_CENTERS_HZ@[i] as int;
        assert forall|k: int| 0 <= k < ps.len() implies family_on(
            now.cfg,
            (#[trigger] ps[k]).family,
        ) == family_on(was.cfg, ps[k].family) by {}
        assert(enabled_at(now.cfg, ps, f) == enabled_at(was.cfg, ps, f));
        assert forall|k: int| 0 <= k < ps.len() implies runs(
            now.cfg,
            now.lane,
            (#[trigger] ps[k]),
            f,
        ) == runs(was.cfg, was.lane, ps[k], f) by {}
        assert(running_at(now.cfg, now.lane, ps, f) == running_at(was.cfg, was.lane, ps, f));
    }
    assert forall|i: int| 0 <= i < now.rows@.len() implies told((#[trigger] now.rows@[i]).reason)
        == idle_reason(now.window, now.cfg, now.lane, ps, i) by {
        assert(told(was.rows@[i].reason) == idle_reason(was.window, was.cfg, was.lane, ps, i));
    }
}

fn windows_agree(a: &Window, b: &Window) -> (r: bool)
    requires
        a.valid(),
        b.valid(),
    ensures
        r == same_window(*a, *b),
{
    proof {
        lemma_product(a.center as int, b.dec as int);
        lemma_product(b.center as int, a.dec as int);
        lemma_product(a.in_rate_hz as int, b.dec as int);
        lemma_product(b.in_rate_hz as int, a.dec as int);
        let (x, y) = (a.dec as int, b.dec as int);
        assert(0 < x * y <= 1_000_000_000_000_000_000_000_000) by (nonlinear_arith)
            requires
                1 <= x <= 1_000_000_000_000,
                1 <= y <= 1_000_000_000_000,
        ;
    }
    let one: i128 = (a.dec as i128) * (b.dec as i128);
    let off: i128 = a.center * (b.dec as i128) - b.center * (a.dec as i128);
    let wider: i128 = (a.in_rate_hz as i128) * (b.dec as i128) - (b.in_rate_hz as i128) * (
    a.dec as i128);
    -(8 * one) < off && off < 8 * one && -one < wider && wider < one
}

proof fn lemma_product(c: int, d: int)
    requires
        -16 * 1_000_000_000_000_000_000_000_000 <= c <= 16 * 1_000_000_000_000_000_000_000_000,
        1 <= d <= 1_000_000_000_000,
    ensures
        -16 * 1_000_000_000_000_000_000_000_000_000_000_000_000 <= c * d <= 16
            * 1_000_000_000_000_000_000_000_000_000_000_000_000,
{
    assert(-16 * 1_000_000_000_000_000_000_000_000_000_000_000_000 <= c * d <= 16
        * 1_000_000_000_000_000_000_000_000_000_000_000_000) by (nonlinear_arith)
        requires
            -16 * 1_000_000_000_000_000_000_000_000 <= c <= 16 * 1_000_000_000_000_000_000_000_000,
            1 <= d <= 1_000_000_000_000,
    ;
}

fn covers(lane: &Option<Lane>, freq_hz: i64) -> (r: bool)
    requires
        lane matches Some(l) ==> l.valid(),
        hz_ok(freq_hz),
    ensures
        r == lane_covers(*lane, freq_hz as int),
{
    match lane {
        None => false,
        Some(l) => {
            let off: i64 = if freq_hz < l.center_hz {
                l.center_hz - freq_hz
            } else {
                freq_hz - l.center_hz
            };
            proof {
                let (x, y) = (l.rate_den as int, off as int);
                assert(0 <= x * y <= 2_000_000_000_000_000_000_000_000) by (nonlinear_arith)
                    requires
                        1 <= x <= 1_000_000_000_000,
                        0 <= y <= 2_000_000_000_000,
                ;
                assert(2 * x * y == 2 * (x * y)) by (nonlinear_arith);
            }
            2 * ((l.rate_den as i128) * (off as i128)) <= l.rate_num as i128
        },
    }
}

fn may_run(cfg: &IsmSettings, lane: &Option<Lane>, p: &Protocol, freq_hz: i64) -> (r: bool)
    requires
        lane matches Some(l) ==> l.valid(),
        hz_ok(freq_hz),
    ensures
        r == runs(*cfg, *lane, *p, freq_hz as int),
{
    cfg.families & p.family.bit() != 0 && !(p.rtl433_reads && covers(lane, freq_hz))
}

/// Whether any native decoder on `freq_hz` is enabled and not left to rtl_433.
fn any_running(
    cfg: &IsmSettings,
    lane: &Option<Lane>,
    protocols: &Vec<Protocol>,
    freq_hz: i64,
) -> (r: bool)
    requires
        lane matches Some(l) ==> l.valid(),
        protocols_ok(protocols@),
        hz_ok(freq_hz),
    ensures
        r == running_at(*cfg, *lane, protocols@, freq_hz as int),
{
    let mut i: usize = 0;
    while i < protocols.len()
        invariant
            lane matches Some(l) ==> l.valid(),
            protocols_ok(protocols@),
            hz_ok(freq_hz),
            i <= protocols@.len(),
            forall|k: int|
                0 <= k < i ==> !(same_channel(
                    (#[trigger] protocols@[k]).channel_hz as int,
                    freq_hz as int,
                ) && runs(*cfg, *lane, protocols@[k], freq_hz as int)),
        decreases protocols.len() - i,
    {
        let p = protocols[i];
        if near(p.channel_hz, freq_hz) && may_run(cfg, lane, &p, freq_hz) {
            assert(same_channel(protocols@[i as int].channel_hz as int, freq_hz as int));
            return true;
        }
        i = i + 1;
    }
    false
}

/// Every channel of the plan, and why it is or is not listened to.
fn channel_rows(
    w: &Window,
    cfg: &IsmSettings,
    lane: &Option<Lane>,
    protocols: &Vec<Protocol>,
) -> (v: Vec<IsmChannelStatus>)
    requires
        w.valid(),
        lane matches Some(l) ==> l.valid(),
        protocols_ok(protocols@),
    ensures
        rows_tell(v@, *w, *cfg, *lane, protocols@),
{
    let mut v: Vec<IsmChannelStatus> = Vec::new();
    let mut i: usize = 0;
    while i < CHANNEL_COUNT
        invariant
            w.valid(),
            lane matches Some(l) ==> l.valid(),
            protocols_ok(protocols@),
            i == v@.len(),
            i <= CHANNEL_COUNT,
            forall|k: int|
                0 <= k < v@.len() ==> {
                    &&& (#[trigger] v@[k]).freq_hz == CHANNEL_CENTERS_HZ@[k]
                    &&& v@[k].label@ == channel_label(k)
                    &&& told(v@[k].reason) == idle_reason(*w, *cfg, *lane, protocols@, k)
                    &&& v@[k].live == (v@[k].reason is None)
                },
        decreases CHANNEL_COUNT - i,
    {
        let ch: Channel = channel(i);
        let f: i64 = ch.center_hz;
        let reason: Option<&'static str> = if !fits(&ch, w) {
            Some("outside the receiver's window")
        } else if !any_implemented(protocols, f) {
            Some("not decoded yet")
        } else if !any_enabled(cfg, protocols, f) {
            Some("switched off")
        } else if !any_running(cfg, lane, protocols, f) {
            // Switched on, and still not running: everything on this channel is
            // a protocol rtl_433 reads better, and it is listening here.
            Some("handled by rtl_433")
        } else {
            None
        };
        v.push(IsmChannelStatus { freq_hz: f, label: ch.label, live: reason.is_none(), reason });
        i = i + 1;
    }
    v
}

/// What the panel says of a decoder line that was refused.
pub fn problem_text(line: u64, message: &str) -> (r: String)
    ensures
        r@ == "line "@ + dec(line as nat) + ": "@ + message@,
        r@ == problem(line as nat, message@),
{
    let mut s = String::from_str("line ");
    s.append(decimal(line).as_str());
    s.append(": ");
    s.append(message);
    s
}

/// A channel is open if and only if it is inside the window and some decoder on
/// it runs: what the rows call live is what is listened to.
pub proof fn a_channel_is_live_when_it_is_reached_and_read(w: Worker, i: int)
    requires
        w.wf(),
        0 <= i < CHANNEL_COUNT,
    ensures
        w.rows@[i].live <==> w.window.covers(channel_span(i)) && running_at(
            w.cfg,
            w.lane,
            w.protocols@,
            CHANNEL_CENTERS_HZ@[i] as int,
        ),
{
    let f = CHANNEL_CENTERS_HZ@[i] as int;
    let ps = w.protocols@;
    assert(told(w.rows@[i].reason) == idle_reason(w.window, w.cfg, w.lane, ps, i));
    if running_at(w.cfg, w.lane, ps, f) {
        let k = choose|k: int|
            0 <= k < ps.len() && same_channel((#[trigger] ps[k]).channel_hz as int, f) && runs(
                w.cfg,
                w.lane,
                ps[k],
                f,
            );
        assert(same_channel(ps[k].channel_hz as int, f) && family_on(w.cfg, ps[k].family));
    }
}

/// A native decoder only stands down where rtl_433 listens: with rtl_433 stopped
/// or looking elsewhere, a channel's decoders run whenever their family is on.
pub proof fn decoders_return_when_rtl433_looks_elsewhere(w: Worker, i: int)
    requires
        w.wf(),
        0 <= i < CHANNEL_COUNT,
        !lane_covers(w.lane, CHANNEL_CENTERS_HZ@[i] as int),
        w.window.covers(channel_span(i)),
        enabled_at(w.cfg, w.protocols@, CHANNEL_CENTERS_HZ@[i] as int),
    ensures
        w.rows@[i].live,
{
    let f = CHANNEL_CENTERS_HZ@[i] as int;
    let ps = w.protocols@;
    let k = choose|k: int|
        0 <= k < ps.len() && same_channel((#[trigger] ps[k]).channel_hz as int, f) && family_on(
            w.cfg,
            ps[k].family,
        );
    assert(runs(w.cfg, w.lane, ps[k], f));
    assert(running_at(w.cfg, w.lane, ps, f));
    a_channel_is_live_when_it_is_reached_and_read(w, i);
}

/// The lane is never narrower than the band it was picked for, where the window
/// is as wide as that.
pub proof fn a_lane_is_as_wide_as_its_band(w: Window, want_hz: int)
    requires
        w.valid(),
        want_hz >= 1,
        want_hz * w.dec <= w.in_rate_hz,
    ensures
        lane_dec(w, want_hz) >= 1,
        lane_dec(w, want_hz) * (want_hz * w.dec) <= w.in_rate_hz,
{
    let n = want_hz * w.dec;
    let a = w.in_rate_hz as int;
    assert(n > 0) by (nonlinear_arith)
        requires
            n == want_hz * w.dec,
            want_hz >= 1,
            w.dec >= 1,
    ;
    vstd::arithmetic::div_mod::lemma_fundamental_div_mod(a, n);
    assert((a / n) * n <= a && a / n >= 1) by (nonlinear_arith)
        requires
            a == n * (a / n) + a % n,
            0 <= a % n < n,
            n <= a,
    ;
}

} // verus!
