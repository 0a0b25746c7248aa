//! What the beacon worker decides: when its rolling buffer restarts, when the
//! spectral tracker and the frame decoder run, what each result changes, and
//! what the status says.
//!
//! A frame is 10.36 s of air that has to sit contiguously in one buffer. Every
//! block carries a sequence number, dropped ones counted, so a gap restarts
//! the buffer at the block after it. Frequencies here are in millihertz and
//! levels in thousandths of a decibel.
use crate::qo100::bpsk::DecodeProgress;
use vstd::prelude::*;

verus! {

/// How long a tracker estimate stays on the status as current.
pub const EST_FRESH_SECS: i64 = 12;

/// Half-width of the band the tracker scans once it has the beacon: wide
/// enough to hold both lobes plus context and to not lose a beacon drifting a
/// few hundred Hz between passes.
pub const TRACK_BAND_MHZ: i64 = 3_000_000;

/// How long a stretch of tracker estimates the drift fit uses.
pub const DRIFT_FIT_MS: u64 = 12_000;

/// Three frame times, in whole seconds.
pub const LOCK_FRESH_SECS: i128 = 31;

/// Whether a block is the next one.
pub open spec fn goes_on(want_seq: Option<u64>, seq: u64) -> bool {
    want_seq == Some(seq)
}

/// Whether a lock still counts: for three frames.
pub open spec fn is_locked(locked_unix: i64, now: i64) -> bool {
    locked_unix != 0 && 100 * (now - locked_unix) <= 3 * 1036
}

/// Where the coded-frame receiver starts looking.
pub open spec fn seed_of(last_est: Option<(CarrierEstimate, i64)>) -> i64 {
    match last_est {
        Some((e, at)) => e.offset_mhz,
        None => 0i64,
    }
}

/// Whether a block numbered `seq` carries straight on from the run the worker
/// has already buffered, `want_seq` being the number the next contiguous block
/// would have. Anything else is a gap, and the buffer has to restart from
/// `seq` rather than splice across it.
pub fn continues_run(want_seq: Option<u64>, seq: u64) -> (r: bool)
    ensures
        r == (want_seq == Some(seq)),
        r == goes_on(want_seq, seq),
{
    match want_seq {
        None => false,
        Some(w) => w == seq,
    }
}

/// Whether a lock reported at `locked_unix` is still worth showing as "locked"
/// at `now`: the beacon alternates an uncoded frame with a coded one roughly
/// every 10.36 s, so a gap of a bit over twice that is expected and not
/// evidence the beacon went away. Zero means that it has never locked.
pub fn lock_is_fresh(locked_unix: i64, now: i64) -> (r: bool)
    ensures
        r == (locked_unix != 0 && 100 * (now - locked_unix) <= 3 * 1036),
        r == is_locked(locked_unix, now),
{
    locked_unix != 0 && now as i128 - locked_unix as i128 <= LOCK_FRESH_SECS
}

/// Whether an estimate of `at` is still current at `now`.
pub open spec fn is_current(at: i64, now: i64) -> bool {
    now - at <= 12
}

fn estimate_is_current(at: i64, now: i64) -> (r: bool)
    ensures
        r == is_current(at, now),
{
    now as i128 - at as i128 <= EST_FRESH_SECS as i128
}

/// Thousandths to the nearest whole number.
pub open spec fn nearest_thousand(a: int) -> int {
    (a + 500) / 1000
}

/// A rate in millihertz times hundred-thousandths of a second, as a whole
/// number of samples.
pub open spec fn nearest_sample(a: int) -> int {
    (a + 50_000_000) / 100_000_000
}

/// Buffer lengths in samples.
#[derive(Clone, Copy, Debug, PartialEq, Eq)]
pub struct BufferPlan {
    /// How long a rolling buffer is kept before each search: comfortably more
    /// than two frame times, so a frame beginning anywhere in the buffer is
    /// always captured whole at least once.
    pub window_len: u64,
    /// How much of the window survives each search, so consecutive windows
    /// overlap by more than one frame time.
    pub keep_len: u64,
    /// The spectral tracker's own short window, 3 s.
    pub track_len: u64,
    /// How much fresh IQ to gather between tracker passes, 1 s.
    pub track_hop: u64,
    /// One whole frame.
    pub frame_len: u64,
}

pub open spec fn at_least_one(x: int) -> int {
    if x < 1 {
        1
    } else {
        x
    }
}

impl BufferPlan {
    /// The lengths at a sample rate: 2.3 frames, 1.15 frames, 3 s, 1 s and one
    /// frame.
    pub open spec fn is_for(self, rate_mhz: int) -> bool {
        &&& self.window_len == nearest_sample(2_382_800 * rate_mhz)
        &&& self.keep_len == nearest_sample(1_191_400 * rate_mhz)
        &&& self.track_len == at_least_one(nearest_thousand(3 * rate_mhz))
        &&& self.track_hop == at_least_one(nearest_thousand(rate_mhz))
        &&& self.frame_len == at_least_one(nearest_sample(1_036_000 * rate_mhz))
    }

    pub fn new(rate_mhz: u64) -> (r: BufferPlan)
        requires
            rate_mhz <= 0xFFFF_FFFF_FFFF,
        ensures
            r.is_for(rate_mhz as int),
    {
        let r: u128 = rate_mhz as u128;
        let track: u64 = ((3 * r + 500) / 1000) as u64;
        let hop: u64 = ((r + 500) / 1000) as u64;
        let frame: u64 = ((1_036_000 * r + 50_000_000) / 100_000_000) as u64;
        BufferPlan {
            window_len: ((2_382_800 * r + 50_000_000) / 100_000_000) as u64,
            keep_len: ((1_191_400 * r + 50_000_000) / 100_000_000) as u64,
            track_len: if track < 1 {
                1
            } else {
                track
            },
            track_hop: if hop < 1 {
                1
            } else {
                hop
            },
            frame_len: if frame < 1 {
                1
            } else {
                frame
            },
        }
    }
}

/// The window exceeds two frame times, consecutive windows overlap by more
/// than a frame, and each search makes room: at any rate of a sample a second
/// or more.
pub proof fn the_window_holds_a_frame_and_overlaps_by_more_than_one(p: BufferPlan, rate_mhz: int)
    requires
        rate_mhz >= 1000,
        p.is_for(rate_mhz),
    ensures
        p.window_len > 2 * p.frame_len,
        p.keep_len > p.frame_len,
        p.keep_len < p.window_len,
{
    let f = nearest_sample(1_036_000 * rate_mhz);
    assert(100_000_000 * f <= 1_036_000 * rate_mhz + 50_000_000);
    assert(2_382_800 * rate_mhz - 50_000_000 < 100_000_000 * p.window_len);
    assert(1_191_400 * rate_mhz - 50_000_000 < 100_000_000 * p.keep_len);
    assert(100_000_000 * p.keep_len <= 1_191_400 * rate_mhz + 50_000_000);
}

/// The worker's settings.
#[derive(Clone, Copy, Debug, PartialEq, Eq)]
pub struct Settings {
    /// The spectral tracker is on.
    pub enabled: bool,
    /// The frame decoder is on.
    pub decode_telemetry: bool,
    /// The closed loop is armed, so the beacon is steered to the centre.
    pub auto_apply: bool,
    /// The window in which the operator parks the beacon.
    pub park_lo_mhz: i64,
    pub park_hi_mhz: i64,
    /// How far the frame decoder searches on each side.
    pub search_half_width_mhz: i64,
}

/// Where the beacon's carrier sits and how convincingly the spectrum said so.
#[derive(Clone, Copy, Debug, PartialEq, Eq)]
pub struct CarrierEstimate {
    pub offset_mhz: i64,
    /// Depth of the central null between the two lobes.
    pub null_depth_mdb: i64,
    /// Left/right evenness of the two lobes, in thousandths.
    pub symmetry_permille: i64,
    /// Lobe level over the scanned band's noise floor.
    pub snr_mdb: i64,
}

/// The drift that the estimates show, per second and per second squared.
#[derive(Clone, Copy, Debug, PartialEq, Eq)]
pub struct Drift {
    pub rate_mhz_s: i64,
    pub accel_mhz_s2: i64,
}

/// A decoded frame.
#[derive(Clone, Debug)]
pub struct Lock {
    pub offset_mhz: i64,
    pub text: String,
    pub unix: i64,
}

/// What a block of samples asks for.
#[derive(Clone, Copy, Debug, PartialEq, Eq)]
pub struct BlockStep {
    /// Empty the buffer before this block goes in.
    pub restart: bool,
    /// Run the tracker over the newest `track_len` samples, in this band.
    pub track: Option<(i64, i64)>,
    /// A whole window is there: cut the buffer once it has been looked at.
    pub search: bool,
    /// Run the frame decoders over the whole window, which the operator has to
    /// ask for. A window that is there and not to be decoded is skipped.
    pub decode: bool,
}

/// The status that the worker reports.
#[derive(Clone, Debug)]
pub struct Status {
    pub running: bool,
    pub locked: bool,
    pub offset_mhz: i64,
    pub text: String,
    pub locked_unix: i64,
    pub blocks_tried: u64,
    pub blocks_locked: u64,
    pub tracking: bool,
    pub estimate: Option<CarrierEstimate>,
    pub drift: Drift,
    pub est_updates: u64,
    pub est_misses: u64,
    pub decoding: bool,
    pub progress: DecodeProgress,
    /// How much of a frame the buffer holds, `frame_have / frame_len`, at most
    /// one.
    pub frame_have: u64,
    pub frame_len: u64,
}

/// The worker's state.
pub struct Worker {
    pub cfg: Settings,
    pub plan: BufferPlan,
    /// Samples in the rolling buffer.
    pub buffered: u64,
    /// Samples gathered since the last tracker pass.
    pub since_track: u64,
    /// The number the next contiguous block would carry.
    pub want_seq: Option<u64>,
    pub tried: u64,
    pub locked: u64,
    pub last: Option<Lock>,
    pub est_updates: u64,
    pub est_misses: u64,
    /// Newest tracker estimate and the unix second it landed.
    pub last_est: Option<(CarrierEstimate, i64)>,
    /// Recent (elapsed ms, offset) estimates, oldest first.
    pub history: Vec<(u64, i64)>,
    pub drift: Drift,
    pub progress: DecodeProgress,
}

/// The band that the tracker scans: a narrow window around the last current
/// estimate when there is one, so the tracker follows the beacon wherever it
/// last sat. On a cold start or after losing it, the operator's parking
/// window, unless the closed loop is armed, in which case the loop's target is
/// zero and the sweep has to reach down there too.
pub open spec fn track_band(
    cfg: Settings,
    last_est: Option<(CarrierEstimate, i64)>,
    now: i64,
) -> (int, int) {
    let parked = if cfg.auto_apply {
        (-3_000_000, cfg.park_hi_mhz as int)
    } else {
        (cfg.park_lo_mhz as int, cfg.park_hi_mhz as int)
    };
    match last_est {
        Some((e, at)) => if is_current(at, now) {
            (e.offset_mhz - 3_000_000, e.offset_mhz + 3_000_000)
        } else {
            parked
        },
        None => parked,
    }
}

/// The estimate, if it is still current.
pub open spec fn current_estimate(
    last_est: Option<(CarrierEstimate, i64)>,
    now: i64,
) -> Option<CarrierEstimate> {
    match last_est {
        Some((e, at)) => if is_current(at, now) {
            Some(e)
        } else {
            None
        },
        None => None,
    }
}

pub open spec fn no_drift() -> Drift {
    Drift { rate_mhz_s: 0, accel_mhz_s2: 0 }
}

/// The history entries not older than 12 s at `now`, dropped from the front.
pub open spec fn recent(h: Seq<(u64, i64)>, now: u64) -> Seq<(u64, i64)>
    decreases h.len(),
{
    if h.len() > 0 && now - h[0].0 > 12_000 {
        recent(h.drop_first(), now)
    } else {
        h
    }
}

/// Whether a worker took in a block: how much it then holds, what it asks for, and
/// that nothing else moved.
pub open spec fn took_block(
    was: Worker,
    seq: u64,
    samples: u64,
    now: i64,
    step: BlockStep,
    after: Worker,
) -> bool {
    let gap = was.want_seq != Some(seq);
    let held = if gap {
        samples as int
    } else {
        was.buffered + samples
    };
    let gathered = if gap {
        samples as int
    } else {
        was.since_track + samples
    };
    let due = was.cfg.enabled && gathered >= was.plan.track_hop && held >= was.plan.track_len;
    let band = track_band(was.cfg, was.last_est, now);
    &&& after == (Worker {
        want_seq: Some(
            if seq == u64::MAX {
                0
            } else {
                (seq + 1) as u64
            },
        ),
        buffered: held as u64,
        since_track: if due {
            0
        } else {
            gathered as u64
        },
        ..was
    })
    &&& step == (BlockStep {
        restart: gap,
        track: if due {
            Some((band.0 as i64, band.1 as i64))
        } else {
            None
        },
        search: held >= was.plan.window_len,
        decode: held >= was.plan.window_len && was.cfg.decode_telemetry,
    })
}

/// Whether a worker took in what the uncoded decoder made of a window.
pub open spec fn took_window(
    was: Worker,
    found: Option<(i64, String)>,
    progress: DecodeProgress,
    now: i64,
    again: bool,
    after: Worker,
) -> bool {
    &&& again == (found is None)
    &&& after == (Worker {
        tried: (was.tried + 1) as u64,
        locked: if found is Some {
            (was.locked + 1) as u64
        } else {
            was.locked
        },
        last: match found {
            Some((offset_mhz, text)) => Some(Lock { offset_mhz, text, unix: now }),
            None => was.last,
        },
        progress,
        ..was
    })
}

/// Whether a worker took in what the coded decoder made of a window.
pub open spec fn took_coded(was: Worker, found: Option<(i64, String)>, now: i64, after: Worker) -> bool {
    match found {
        None => after == was,
        Some((offset_mhz, text)) => after == (Worker {
            locked: (was.locked + 1) as u64,
            last: Some(Lock { offset_mhz, text, unix: now }),
            progress: DecodeProgress { carrier: true, crc_ok: true, ..was.progress },
            ..was
        }),
    }
}

/// Whether `dropped` samples were cut from the front of the buffer: all but what
/// is kept.
pub open spec fn was_cut(was: Worker, dropped: u64, after: Worker) -> bool {
    &&& after == (Worker { buffered: after.buffered, ..was })
    &&& after.buffered + dropped == was.buffered
    &&& was.buffered <= was.plan.keep_len ==> dropped == 0
    &&& was.buffered > was.plan.keep_len ==> after.buffered == was.plan.keep_len
}

/// Whether a worker took in a tracker pass: an estimate, or none.
pub open spec fn took_pass(
    was: Worker,
    found: Option<CarrierEstimate>,
    now: i64,
    elapsed_ms: u64,
    after: Worker,
) -> bool {
    match found {
        Some(e) => {
            &&& after == (Worker {
                est_updates: (was.est_updates + 1) as u64,
                last_est: Some((e, now)),
                history: after.history,
                ..was
            })
            &&& after.history@ == recent(was.history@.push((elapsed_ms, e.offset_mhz)), elapsed_ms)
        },
        None => {
            &&& after == (Worker {
                est_misses: (was.est_misses + 1) as u64,
                history: after.history,
                drift: no_drift(),
                ..was
            })
            &&& after.history@.len() == 0
        },
    }
}

/// Whether a status tells a worker's state.
pub open spec fn tells(w: Worker, now: i64, st: Status) -> bool {
    &&& st.tracking == w.cfg.enabled
    &&& st.decoding == w.cfg.decode_telemetry
    &&& st.running == (st.tracking || st.decoding)
    &&& st.blocks_tried == w.tried && st.blocks_locked == w.locked
    &&& st.est_updates == w.est_updates && st.est_misses == w.est_misses
    &&& st.progress == w.progress
    &&& st.locked == (w.last is Some && w.last->0.unix != 0 && now - w.last->0.unix <= 31)
    &&& w.last matches Some(l) ==> st.offset_mhz == l.offset_mhz && st.text@ == l.text@
        && st.locked_unix == l.unix
    &&& w.last is None ==> st.offset_mhz == 0 && st.text@.len() == 0 && st.locked_unix == 0
    &&& st.estimate == (match w.last_est {
        Some((e, at)) => if now <= at + 12 {
            Some(e)
        } else {
            None
        },
        None => None,
    })
    &&& st.drift == (if st.estimate is Some {
        w.drift
    } else {
        no_drift()
    })
    &&& st.frame_len == w.plan.frame_len
    &&& st.frame_have <= st.frame_len && st.frame_have <= w.buffered
    &&& st.frame_have == st.frame_len || st.frame_have == w.buffered
}

impl Worker {
    /// Offsets are such that a band around them can be named.
    pub open spec fn wf(&self) -> bool {
        self.last_est matches Some((e, at)) ==> -0x1000_0000_0000_0000 <= e.offset_mhz
            <= 0x1000_0000_0000_0000
    }

    pub fn new(rate_mhz: u64, cfg: Settings) -> (r: Worker)
        requires
            rate_mhz <= 0xFFFF_FFFF_FFFF,
        ensures
            r.wf(),
            r.cfg == cfg,
            r.plan.is_for(rate_mhz as int),
            r.buffered == 0 && r.since_track == 0 && r.want_seq is None,
            r.tried == 0 && r.locked == 0 && r.last is None,
            r.est_updates == 0 && r.est_misses == 0 && r.last_est is None,
            r.history@.len() == 0 && r.drift == no_drift(),
            !r.progress.carrier && !r.progress.sync && !r.progress.crc_ok,
            r.progress.sync_bit_errors == 255 && r.progress.sync_matches == 0,
    {
        Worker {
            cfg,
            plan: BufferPlan::new(rate_mhz),
            buffered: 0,
            since_track: 0,
            want_seq: None,
            tried: 0,
            locked: 0,
            last: None,
            est_updates: 0,
            est_misses: 0,
            last_est: None,
            history: Vec::new(),
            drift: Drift { rate_mhz_s: 0, accel_mhz_s2: 0 },
            progress: DecodeProgress::default(),
        }
    }

    /// Apply new settings.
    pub fn set_config(&mut self, cfg: Settings)
        requires
            old(self).wf(),
        ensures
            final(self).wf(),
            *final(self) == (Worker { cfg, ..*old(self) }),
    {
        self.cfg = cfg;
    }

    /// The tracker's band.
    fn band(&self, now: i64) -> (r: (i64, i64))
        requires
            self.wf(),
        ensures
            r.0 == track_band(self.cfg, self.last_est, now).0,
            r.1 == track_band(self.cfg, self.last_est, now).1,
    {
        match &self.last_est {
            Some((e, at)) => {
                if estimate_is_current(*at, now) {
                    return (e.offset_mhz - TRACK_BAND_MHZ, e.offset_mhz + TRACK_BAND_MHZ);
                }
            },
            None => {},
        }
        if self.cfg.auto_apply {
            (-TRACK_BAND_MHZ, self.cfg.park_hi_mhz)
        } else {
            (self.cfg.park_lo_mhz, self.cfg.park_hi_mhz)
        }
    }

    /// Take in a block of `samples` samples numbered `seq`: a block that does
    /// not carry on from the buffered run restarts the buffer at itself.
    pub fn on_block(&mut self, seq: u64, samples: u64, now: i64) -> (r: BlockStep)
        requires
            old(self).wf(),
            old(self).buffered + samples <= u64::MAX,
            old(self).since_track + samples <= u64::MAX,
        ensures
            final(self).wf(),
            r.restart == (old(self).want_seq != Some(seq)),
            final(self).want_seq == Some(
                if seq == u64::MAX {
                    0u64
                } else {
                    (seq + 1) as u64
                },
            ),
            final(self).buffered == (if r.restart {
                0
            } else {
                old(self).buffered as int
            }) + samples,
            ({
                let gathered = (if r.restart {
                    0
                } else {
                    old(self).since_track as int
                }) + samples;
                let due = old(self).cfg.enabled && gathered >= old(self).plan.track_hop
                    && final(self).buffered >= old(self).plan.track_len;
                &&& final(self).since_track == (if due {
                    0
                } else {
                    gathered
                })
                &&& r.track is Some == due
                &&& r.track matches Some((lo, hi)) ==> (lo as int, hi as int) == track_band(
                    old(self).cfg,
                    old(self).last_est,
                    now,
                )
            }),
            r.search == (final(self).buffered >= old(self).plan.window_len),
            r.decode == (r.search && old(self).cfg.decode_telemetry),
            *final(self) == (Worker {
                want_seq: final(self).want_seq,
                buffered: final(self).buffered,
                since_track: final(self).since_track,
                ..*old(self)
            }),
            took_block(*old(self), seq, samples, now, r, *final(self)),
    {
        let restart: bool = !continues_run(self.want_seq, seq);
        if restart {
            self.buffered = 0;
            self.since_track = 0;
        }
        self.want_seq = Some(seq.wrapping_add(1));
        self.buffered = self.buffered + samples;
        self.since_track = self.since_track + samples;
        let due: bool = self.cfg.enabled && self.since_track >= self.plan.track_hop
            && self.buffered >= self.plan.track_len;
        let track: Option<(i64, i64)> = if due {
            self.since_track = 0;
            Some(self.band(now))
        } else {
            None
        };
        let search: bool = self.buffered >= self.plan.window_len;
        BlockStep { restart, track, search, decode: search && self.cfg.decode_telemetry }
    }

    /// The tracker found the beacon, `elapsed_ms` after the worker started.
    pub fn on_estimate(&mut self, e: CarrierEstimate, now: i64, elapsed_ms: u64)
        requires
            old(self).wf(),
            -0x1000_0000_0000_0000 <= e.offset_mhz <= 0x1000_0000_0000_0000,
            old(self).est_updates < u64::MAX,
        ensures
            final(self).wf(),
            final(self).est_updates == old(self).est_updates + 1,
            final(self).last_est == Some((e, now)),
            final(self).history@ == recent(
                old(self).history@.push((elapsed_ms, e.offset_mhz)),
                elapsed_ms,
            ),
            *final(self) == (Worker {
                est_updates: final(self).est_updates,
                last_est: final(self).last_est,
                history: final(self).history,
                ..*old(self)
            }),
            took_pass(*old(self), Some(e), now, elapsed_ms, *final(self)),
    {
        self.est_updates = self.est_updates + 1;
        self.last_est = Some((e, now));
        self.history.push((elapsed_ms, e.offset_mhz));
        let ghost whole = self.history@;
        let ghost before = *self;
        while self.history.len() > 0 && elapsed_ms > self.history[0].0 && elapsed_ms
            - self.history[0].0 > DRIFT_FIT_MS
            invariant
                recent(self.history@, elapsed_ms) == recent(whole, elapsed_ms),
                *self == (Worker { history: self.history, ..before }),
            decreases self.history@.len(),
        {
            let ghost h = self.history@;
            let _gone: (u64, i64) = self.history.remove(0);
            assert(self.history@ =~= h.drop_first());
        }
    }

    /// The drift that was fitted to the history.
    pub fn set_drift(&mut self, drift: Drift)
        requires
            old(self).wf(),
        ensures
            final(self).wf(),
            *final(self) == (Worker { drift, ..*old(self) }),
    {
        self.drift = drift;
    }

    /// The tracker did not find the beacon.
    pub fn on_miss(&mut self)
        requires
            old(self).wf(),
            old(self).est_misses < u64::MAX,
        ensures
            final(self).wf(),
            final(self).est_misses == old(self).est_misses + 1,
            final(self).history@.len() == 0,
            final(self).drift == no_drift(),
            *final(self) == (Worker {
                est_misses: final(self).est_misses,
                history: final(self).history,
                drift: final(self).drift,
                ..*old(self)
            }),
            took_pass(*old(self), None, 0, 0, *final(self)),
    {
        self.est_misses = self.est_misses + 1;
        self.history = Vec::new();
        self.drift = Drift { rate_mhz_s: 0, accel_mhz_s2: 0 };
    }

    /// Where the coded-frame receiver starts looking: the newest estimate,
    /// however old, or the centre.
    pub fn seed_mhz(&self) -> (r: i64)
        ensures
            r == (match self.last_est {
                Some((e, at)) => e.offset_mhz,
                None => 0i64,
            }),
            r == seed_of(self.last_est),
    {
        match &self.last_est {
            Some((e, _at)) => e.offset_mhz,
            None => 0,
        }
    }

    /// The uncoded decoder has searched a window: the frame it found, if any,
    /// and how far it got. True when the coded decoder has to be tried too:
    /// the beacon alternates uncoded and coded frames, so a window the uncoded
    /// decoder made nothing of may simply have held the other kind.
    pub fn on_uncoded(&mut self, found: Option<(i64, String)>, progress: DecodeProgress, now: i64) -> (r:
        bool)
        requires
            old(self).wf(),
            old(self).tried < u64::MAX,
            old(self).locked < u64::MAX,
        ensures
            final(self).wf(),
            r == (found is None),
            final(self).tried == old(self).tried + 1,
            final(self).progress == progress,
            found is None ==> final(self).locked == old(self).locked && final(self).last == old(self).last,
            found matches Some((hz, text)) ==> final(self).locked == old(self).locked + 1
                && final(self).last == Some(Lock { offset_mhz: hz, text, unix: now }),
            *final(self) == (Worker {
                tried: final(self).tried,
                locked: final(self).locked,
                last: final(self).last,
                progress: final(self).progress,
                ..*old(self)
            }),
            took_window(*old(self), found, progress, now, r, *final(self)),
    {
        self.tried = self.tried + 1;
        self.progress = progress;
        match found {
            Some((offset_mhz, text)) => {
                self.locked = self.locked + 1;
                self.last = Some(Lock { offset_mhz, text, unix: now });
                false
            },
            None => true,
        }
    }

    /// The coded decoder has searched the window.
    pub fn on_coded(&mut self, found: Option<(i64, String)>, now: i64)
        requires
            old(self).wf(),
            old(self).locked < u64::MAX,
        ensures
            final(self).wf(),
            found is None ==> *final(self) == *old(self),
            found matches Some((hz, text)) ==> *final(self) == (Worker {
                locked: (old(self).locked + 1) as u64,
                last: Some(Lock { offset_mhz: hz, text, unix: now }),
                progress: DecodeProgress { carrier: true, crc_ok: true, ..old(self).progress },
                ..*old(self)
            }),
            took_coded(*old(self), found, now, *final(self)),
    {
        match found {
            Some((offset_mhz, text)) => {
                self.locked = self.locked + 1;
                self.progress = DecodeProgress { carrier: true, crc_ok: true, ..self.progress };
                self.last = Some(Lock { offset_mhz, text, unix: now });
            },
            None => {},
        }
    }

    /// A window went by with the frame decoders off.
    pub fn on_skipped(&mut self)
        requires
            old(self).wf(),
        ensures
            final(self).wf(),
            *final(self) == (Worker {
                progress: DecodeProgress {
                    carrier: false,
                    sync: false,
                    sync_bit_errors: 255,
                    sync_matches: 0,
                    crc_ok: false,
                },
                ..*old(self)
            }),
    {
        self.progress = DecodeProgress::default();
    }

    /// Cut the buffer after a search: the number of samples to drop from its
    /// front. The newest slice is kept, so that a frame that straddles the cut
    /// is still whole in the next window.
    pub fn cut(&mut self) -> (dropped: u64)
        requires
            old(self).wf(),
        ensures
            final(self).wf(),
            dropped == (if old(self).buffered > old(self).plan.keep_len {
                old(self).buffered - old(self).plan.keep_len
            } else {
                0
            }),
            *final(self) == (Worker {
                buffered: (old(self).buffered - dropped) as u64,
                ..*old(self)
            }),
            was_cut(*old(self), dropped, *final(self)),
    {
        let dropped: u64 = if self.buffered > self.plan.keep_len {
            self.buffered - self.plan.keep_len
        } else {
            0
        };
        self.buffered = self.buffered - dropped;
        dropped
    }

    /// A full status snapshot.
    pub fn status(&self, now: i64) -> (r: Status)
        requires
            self.wf(),
        ensures
            r.running == (self.cfg.enabled || self.cfg.decode_telemetry),
            r.tracking == self.cfg.enabled,
            r.decoding == self.cfg.decode_telemetry,
            self.last is None ==> !r.locked && r.offset_mhz == 0 && r.text@.len() == 0
                && r.locked_unix == 0,
            self.last matches Some(l) ==> {
                &&& r.offset_mhz == l.offset_mhz
                &&& r.text@ == l.text@
                &&& r.locked_unix == l.unix
                &&& r.locked == (l.unix != 0 && 100 * (now - l.unix) <= 3 * 1036)
            },
            r.blocks_tried == self.tried,
            r.blocks_locked == self.locked,
            r.est_updates == self.est_updates,
            r.est_misses == self.est_misses,
            r.estimate == current_estimate(self.last_est, now),
            r.drift == (if r.estimate is Some {
                self.drift
            } else {
                no_drift()
            }),
            r.progress == self.progress,
            r.frame_len == self.plan.frame_len,
            r.frame_have == (if self.buffered < self.plan.frame_len {
                self.buffered
            } else {
                self.plan.frame_len
            }),
            tells(*self, now, r),
    {
        let (offset_mhz, text, locked_unix): (i64, String, i64) = match &self.last {
            Some(l) => (l.offset_mhz, l.text.clone(), l.unix),
            None => (0, String::new(), 0),
        };
        let estimate: Option<CarrierEstimate> = match &self.last_est {
            Some((e, at)) => if estimate_is_current(*at, now) {
                Some(*e)
            } else {
                None
            },
            None => None,
        };
        let drift: Drift = if estimate.is_some() {
            self.drift
        } else {
            Drift { rate_mhz_s: 0, accel_mhz_s2: 0 }
        };
        Status {
            running: self.cfg.enabled || self.cfg.decode_telemetry,
            locked: lock_is_fresh(locked_unix, now),
            offset_mhz,
            text,
            locked_unix,
            blocks_tried: self.tried,
            blocks_locked: self.locked,
            tracking: self.cfg.enabled,
            estimate,
            drift,
            est_updates: self.est_updates,
            est_misses: self.est_misses,
            decoding: self.cfg.decode_telemetry,
            progress: self.progress,
            frame_have: if self.buffered < self.plan.frame_len {
                self.buffered
            } else {
                self.plan.frame_len
            },
            frame_len: self.plan.frame_len,
        }
    }
}

} // verus!
