//! The ISM channel plan, the device table and what the worker decides.

use sdroxide::ism::controller::{
    decodes_here, emit_due, problem_text, Band, ConfigChange, IsmSettings, Lane, LanePlan,
    Protocol, Rtl433Settings, Worker,
};
use sdroxide::ism::devices::{device_id, Decoded, DeviceTable, IsmReport, Reading, Source};
use sdroxide::ism::plan::{
    channel, fits, ideal_center_hz, native_span, span_fits, span_hz, width_at_least,
    window_center_for, window_center_hz, window_plan, Channel, Demand, IsmFamily, Span, Window,
    CHANNEL_COUNT,
};

/// The RX-888 reaching 868 MHz through its tuner: the wideband downconverter's
/// output rate.
const RX888_VHF_RATE: i64 = 2_025_000;

fn channels() -> Vec<Channel> {
    (0..CHANNEL_COUNT).map(channel).collect()
}

fn hz(w: &Window) -> f64 {
    w.center as f64 / (8.0 * w.dec as f64)
}

fn rate(w: &Window) -> f64 {
    w.in_rate_hz as f64 / w.dec as f64
}

#[test]
fn the_channels_are_ascending_and_have_sane_rates() {
    for w in channels().windows(2) {
        assert!(w[0].center_hz < w[1].center_hz, "channel table is not sorted");
    }
    for c in channels() {
        assert!(c.rate_hz >= 100_000 && c.rate_hz <= 1_000_000, "{} Hz", c.rate_hz);
        assert!(c.families != 0, "a channel nothing listens on");
        assert!(!c.label.is_empty());
    }
    assert_eq!(channel(1).families, IsmFamily::HomeAuto.bit());
    assert_eq!(ideal_center_hz(), 868_881_250);
    assert_eq!(span_hz(), 1_412_500);
}

/// The plan has to fit what the RX-888's VHF path can deliver.
#[test]
fn the_whole_plan_fits_the_rx888_vhf_window() {
    assert!(4 * span_hz() <= 3 * RX888_VHF_RATE, "the plan needs {} Hz", span_hz());
    // And with the window placed where it belongs, every channel is in.
    let w = Window::whole(ideal_center_hz(), RX888_VHF_RATE);
    for c in channels() {
        assert!(fits(&c, &w), "{} Hz missed", c.center_hz);
    }
}

/// On a receiver whose whole IQ stream is barely wider than the plan there is no
/// room to slide a window inside it, so the window *is* the stream.
#[test]
fn a_receiver_with_no_slack_pins_the_window_to_its_own_centre() {
    let w = window_center_hz(868_900_000, RX888_VHF_RATE, 1);
    assert_eq!(hz(&w), 868_900_000.0, "there is no slack to slide into");

    // Tuned close enough, the plan still fits.
    for ch in channels() {
        assert!(fits(&ch, &w), "{} Hz missed", ch.center_hz);
    }

    // Tuned 2 MHz low, it cannot: the channels are simply not in the stream.
    let w = window_center_hz(866_900_000, RX888_VHF_RATE, 1);
    assert_eq!(hz(&w), 866_900_000.0);
    assert!(
        !channels().iter().any(|ch| fits(ch, &w)),
        "a receiver 2 MHz away should reach none of the plan"
    );
}

/// A front end with room to spare puts the window where the plan wants it,
/// wherever the operator has tuned within reach.
#[test]
fn a_wide_front_end_slides_the_window_onto_the_plan() {
    let w = window_center_hz(866_900_000, 8_000_000, 4);
    assert_eq!(rate(&w), 2_000_000.0);
    assert!((hz(&w) - ideal_center_hz() as f64).abs() < 1.0, "got {}", hz(&w));
    for ch in channels() {
        assert!(fits(&ch, &w), "{} Hz missed", ch.center_hz);
    }
}

/// The clamp must not push the window outside the hardware span.
#[test]
fn a_wide_front_end_keeps_the_window_inside_its_own_span() {
    let hw_rate = 8_000_000i64;
    for hw_center in [866_000_000i64, 868_900_000, 871_000_000] {
        let w = window_center_hz(hw_center, hw_rate, 4);
        let slack = (hw_rate as f64 * 0.75 - 2_000_000.0) / 2.0;
        let off = (hz(&w) - hw_center as f64).abs();
        assert!(off <= slack + 1.0, "window is {off} Hz off a centre with {slack} Hz of slack");
    }
    // Further off than the slack, the window stops at its edge.
    let w = window_center_hz(860_000_000, hw_rate, 4);
    assert_eq!(hz(&w), 862_000_000.0);
}

/// `fits` has to say so rather than let a channel be decoded through the
/// anti-alias roll-off.
#[test]
fn a_window_narrower_than_a_channel_admits_nothing() {
    let ch = channel(2); // 868.95 MHz at 500 kHz
    assert!(!fits(&ch, &Window::whole(ch.center_hz, 500_000)), "500 kHz has only 375 kHz usable");
    assert!(fits(&ch, &Window::whole(ch.center_hz, 700_000)));
}

const PLUTO_RATE: i64 = 3_840_000;
const PLUTO_CENTER: i64 = 868_957_858;

/// The native decoders: two families on 868.30 MHz, Z-Wave on 868.42.
fn protocols() -> Vec<Protocol> {
    vec![
        Protocol { id: 0, family: IsmFamily::Weather, channel_hz: 868_300_000, rtl433_reads: true },
        Protocol { id: 1, family: IsmFamily::Weather, channel_hz: 868_300_000, rtl433_reads: true },
        Protocol {
            id: 2,
            family: IsmFamily::HomeAuto,
            channel_hz: 868_420_000,
            rtl433_reads: false,
        },
    ]
}

const RTL433_OFF: Rtl433Settings = Rtl433Settings { enabled: false, bands: 0, bandwidth_hz: 0 };

fn all_on() -> IsmSettings {
    IsmSettings { threshold_db: 12, families: u32::MAX, max_devices: 200, rtl433: RTL433_OFF }
}

fn demand(cfg: &IsmSettings, bands: Vec<Span>) -> Demand {
    Demand { native: cfg.families != 0, decodes: decodes_here(cfg, &protocols()), bands }
}

/// A decimation left to round to the nearest can come back several per cent
/// narrower than asked; this is the arithmetic that must not.
#[test]
fn a_window_is_never_narrower_than_the_width_it_was_asked_for() {
    for in_rate in [2_025_000i128, 2_400_000, 3_840_000, 8_000_000, 10_000_000, 32_400_000] {
        let mut need = 100_000i128;
        while need <= in_rate {
            let dec = width_at_least(in_rate, need).expect("need is inside the span");
            assert!(in_rate as f64 / dec as f64 >= need as f64, "{in_rate} Hz for {need}");
            assert!(
                (in_rate as f64) / ((dec + 1) as f64) < need as f64,
                "a deeper decimation would do"
            );
            need = need * 107 / 100;
        }
    }
    // And it says so rather than guessing when the stream is simply too narrow
    // for what was asked.
    assert_eq!(width_at_least(1_000_000, 2_000_000), None);
    assert_eq!(width_at_least(1_000_000, 0), None);
    assert_eq!(width_at_least(3_840_000, 1_365_333), Some(2));
}

fn placed(p: &sdroxide::ism::plan::WindowPlan, hw_center: i64, hw_rate: i64) -> Window {
    window_center_for(p.want4, hw_center, hw_rate, p.dec)
}

/// rtl_433's 868 MHz band, a megahertz and a bit of its own.
fn band868() -> Span {
    Span::around(868_950_000, 1_024_000)
}

/// A window chosen because it covered a band must still cover it once built.
#[test]
fn the_window_covers_the_band_it_was_chosen_for() {
    let d = demand(&all_on(), vec![band868()]);
    let p = window_plan(&d, PLUTO_CENTER, PLUTO_RATE).expect("a plan");
    let w = placed(&p, PLUTO_CENTER, PLUTO_RATE);
    assert!(span_fits(band868(), &w), "the window was chosen for the band and does not reach it");
}

/// A 3.840 Msps front end has room for the whole native plan *and* a wide
/// rtl_433 band, so it is given a window that holds both.
#[test]
fn a_front_end_with_room_for_both_lanes_is_given_both() {
    let band = Span::around(868_950_000, 2_048_000);
    let d = demand(&all_on(), vec![band]);
    let p = window_plan(&d, PLUTO_CENTER, PLUTO_RATE).expect("a plan");
    let w = placed(&p, PLUTO_CENTER, PLUTO_RATE);
    for ch in channels() {
        assert!(fits(&ch, &w), "{} Hz is outside a window with room for it", ch.center_hz);
    }
    assert!(span_fits(band, &w), "rtl_433 got no band out of a window wide enough for one");
    // And the band it gets is fed at least the width it asked for.
    let got = width_at_least(w.in_rate_hz as i128, 2_048_000 * w.dec as i128).expect("it fits");
    assert!(rate(&w) / got as f64 >= 2_048_000.0);
}

/// A channel nothing can decode must not outvote a band that can.
#[test]
fn a_channel_that_decodes_nothing_does_not_outvote_a_band_that_does() {
    let mut cfg = all_on();
    cfg.families = IsmFamily::Meter.bit();
    let d = demand(&cfg, vec![band868()]);
    assert_eq!(d.decodes, [false; 4]);
    let p = window_plan(&d, PLUTO_CENTER, PLUTO_RATE).expect("a plan");
    let w = placed(&p, PLUTO_CENTER, PLUTO_RATE);
    assert!(
        span_fits(band868(), &w),
        "the only lane that can decode anything here did not get the window"
    );
}

/// Two lanes that cannot share a window still get the better of the two, and the
/// window is not stretched across 435 MHz trying to hold both.
#[test]
fn lanes_on_different_bands_do_not_produce_an_impossible_window() {
    let d = demand(&all_on(), vec![Span::around(433_920_000, 250_000)]);
    let p = window_plan(&d, PLUTO_CENTER, PLUTO_RATE).expect("a plan");
    assert!(p.dec >= 1);
    let w = placed(&p, PLUTO_CENTER, PLUTO_RATE);
    assert!(
        channels().iter().any(|ch| fits(ch, &w)),
        "the reachable lane should have got the window"
    );
}

/// The native lane on its own gets the plan's own span, placed on the plan.
#[test]
fn the_native_lane_alone_still_gets_the_plan_it_always_had() {
    let d = demand(&all_on(), vec![]);
    for (hw_center, hw_rate) in [(PLUTO_CENTER, PLUTO_RATE), (868_900_000, RX888_VHF_RATE)] {
        let p = window_plan(&d, hw_center, hw_rate).expect("a plan");
        let w = placed(&p, hw_center, hw_rate);
        for ch in channels() {
            assert!(fits(&ch, &w), "{} Hz missed at {hw_center} / {hw_rate}", ch.center_hz);
        }
    }
    let nothing = Demand { native: false, decodes: [false; 4], bands: vec![] };
    assert!(window_plan(&nothing, PLUTO_CENTER, PLUTO_RATE).is_none());
}

#[test]
fn a_window_is_scored_by_what_it_decodes_and_shows() {
    let d = demand(&all_on(), vec![band868()]);
    let w = Window::whole(ideal_center_hz(), RX888_VHF_RATE);
    assert_eq!(d.score(&w), (3, 5));
    assert_eq!(d.score(&Window::whole(433_920_000, RX888_VHF_RATE)), (0, 0));
    assert_eq!(native_span(), Span { lo: 2 * 868_175_000, hi: 2 * 869_587_500 });
    assert_eq!(
        Span { lo: 0, hi: 10 }.join(Span { lo: -5, hi: 3 }),
        Span { lo: -5, hi: 10 }
    );
}

fn on() -> IsmSettings {
    IsmSettings {
        threshold_db: 12,
        families: IsmFamily::Weather.bit(),
        max_devices: 200,
        rtl433: RTL433_OFF,
    }
}

fn worker(center_hz: i64, rate_hz: i64, cfg: IsmSettings, bands: Vec<Band>) -> Worker {
    Worker::new(Window::whole(center_hz, rate_hz), cfg, protocols(), bands)
}

fn live(w: &Worker) -> Vec<i64> {
    w.rows.iter().filter(|c| c.live).map(|c| c.freq_hz).collect()
}

/// A window on the ISM band opens the channels that have an enabled decoder and
/// no others, and says why for each one it skipped.
#[test]
fn the_worker_opens_only_the_channels_it_can_use() {
    let w = worker(ideal_center_hz(), 2_025_000, on(), vec![]);
    assert_eq!(w.rows.len(), CHANNEL_COUNT);
    assert_eq!(live(&w), vec![868_300_000], "only the weather channel is enabled here");
    for c in w.rows.iter().filter(|c| !c.live) {
        let want = if c.freq_hz == 868_420_000 { "switched off" } else { "not decoded yet" };
        assert_eq!(
            c.reason,
            Some(want),
            "{} Hz is in the window, so that is not why it is idle",
            c.freq_hz
        );
    }
    assert!(w.status().unavailable.is_none());
    assert!(w.status().suggest_center_hz.is_none());
}

fn bands(which: usize, bandwidth_hz: i64) -> Vec<Band> {
    let band = |i: usize, label, center_hz, own| Band {
        center_hz,
        rate_hz: own,
        want_hz: if bandwidth_hz == 0 { own } else { bandwidth_hz },
        label,
        enabled: which == i,
    };
    vec![
        band(0, "433.92 MHz", 433_920_000, 250_000),
        band(1, "868 MHz EU", 868_950_000, 1_024_000),
        band(2, "915 MHz US", 915_000_000, 1_024_000),
        band(3, "315 MHz US", 315_000_000, 250_000),
    ]
}

fn with_rtl433(mut cfg: IsmSettings, which: usize, bandwidth_hz: u32) -> IsmSettings {
    cfg.rtl433 = Rtl433Settings { enabled: true, bands: 1 << which, bandwidth_hz };
    cfg
}

/// Start rtl_433 on a band the way the worker's plan says.
fn start(w: &mut Worker, picked: usize) {
    match w.lane_plan(Some(picked)) {
        LanePlan::Start { band, dec } => {
            assert_eq!(band, picked);
            let lane = Lane {
                band,
                center_hz: w.bands[band].center_hz,
                rate_num: w.window.in_rate_hz,
                rate_den: w.window.dec * dec as i64,
            };
            w.set_lane(Some(lane));
        }
        _ => panic!("the lane should start"),
    }
}

/// With rtl_433 listening on the same band, the native decoders it covers stand
/// down, and the channel says so rather than looking switched off.
#[test]
fn rtl433_takes_over_the_weather_channel_it_covers() {
    let cfg = with_rtl433(on(), 1, 0);
    let mut w = worker(ideal_center_hz(), 2_025_000, cfg, bands(1, 0));
    start(&mut w, 1);

    let weather = w.rows.iter().find(|c| c.freq_hz == 868_300_000).expect("in the plan");
    assert!(!weather.live, "the native weather decoder should have stood down");
    assert_eq!(weather.reason, Some("handled by rtl_433"));
    assert_eq!(w.superseded(), vec![0, 1], "the panel needs the list");
    assert!(w.status().unavailable.is_none(), "the other lane is running");
    assert!(!w.may_decode(0, 868_300_000));
    assert!(w.rtl433_covers(868_300_000));

    // Z-Wave has no rtl_433 decoder at all, so it is never handed over.
    let mut cfg = cfg;
    cfg.families |= IsmFamily::HomeAuto.bit();
    let mut w = worker(ideal_center_hz(), 2_025_000, cfg, bands(1, 0));
    start(&mut w, 1);
    let zwave = w.rows.iter().find(|c| c.freq_hz == 868_420_000).unwrap();
    assert!(zwave.live, "Z-Wave must keep its native decoder: rtl_433 has none");
    assert!(w.may_decode(2, 868_420_000));
    assert!(!w.may_decode(9, 868_420_000), "nothing decodes that");
}

/// A chosen bandwidth the receiver cannot deliver has to say so in those words:
/// blaming the dial would send the operator to the wrong place.
#[test]
fn a_width_the_receiver_cannot_give_says_so_rather_than_blaming_the_dial() {
    // Its own width, through a window with room for it: running.
    let mut w = worker(315_000_000, 400_000, with_rtl433(on(), 3, 0), bands(3, 0));
    start(&mut w, 3);
    assert!(w.lane.is_some(), "the band fits at its own width");

    // The same window, with a megahertz asked for: not running, and the reason
    // names the bandwidth rather than the frequency.
    let cfg = with_rtl433(on(), 3, 1_024_000);
    let w = worker(315_000_000, 400_000, cfg, bands(3, 1_024_000));
    assert!(w.lane.is_none());
    match w.lane_plan(None) {
        LanePlan::Unavailable(why) => {
            assert!(why.contains("1024 kHz"), "{why}");
            assert_eq!(
                why,
                "the receiver's window is too narrow for 1024 kHz — choose a narrower \
                 bandwidth, or AUTO"
            );
        }
        _ => panic!("a reason"),
    }
    let rows = w.band_rows().expect("the lane is switched on");
    let row = rows.iter().find(|r| r.freq_hz == 315_000_000).expect("the 315 MHz row");
    assert_eq!(row.reason, Some("too wide for the receiver's window"));

    // And tuned somewhere else entirely, the reason goes back to the dial.
    let w = worker(145_000_000, 400_000, cfg, bands(3, 1_024_000));
    match w.lane_plan(None) {
        LanePlan::Unavailable(why) => {
            assert_eq!(why, "no enabled band is inside the receiver's window")
        }
        _ => panic!("a reason"),
    }
    let rows = w.band_rows().unwrap();
    assert_eq!(rows[3].reason, Some("outside the receiver's window"));
    assert_eq!(rows[0].reason, Some("switched off"));
}

#[test]
fn only_one_band_is_live_at_a_time() {
    let mut b = bands(1, 0);
    b.push(Band { center_hz: 868_950_000, rate_hz: 200_000, want_hz: 200_000, ..b[1] });
    let mut w = worker(ideal_center_hz(), 2_025_000, with_rtl433(on(), 1, 0), b);
    start(&mut w, 1);
    let rows = w.band_rows().unwrap();
    assert!(rows[1].live && rows[1].reason.is_none());
    assert_eq!(rows[4].reason, Some("another band is live"));
    w.set_lane(None);
    assert_eq!(live(&w), vec![868_300_000]);
    let off = worker(ideal_center_hz(), 2_025_000, on(), bands(1, 0));
    assert!(off.band_rows().is_none());
    assert!(matches!(off.lane_plan(Some(1)), LanePlan::Off));
}

/// Point rtl_433 at another band and the native decoders come back.
#[test]
fn the_native_decoders_return_when_rtl433_looks_elsewhere() {
    let cfg = with_rtl433(on(), 0, 0); // 433.92, far away
    let w = worker(ideal_center_hz(), 2_025_000, cfg, bands(0, 0));
    let weather = w.rows.iter().find(|c| c.freq_hz == 868_300_000).unwrap();
    assert!(weather.live, "nothing is covering 868 here, so the native decoder must run");
    assert!(w.superseded().is_empty());
}

#[test]
fn enabling_home_automation_opens_the_zwave_channel() {
    let mut cfg = on();
    cfg.families |= IsmFamily::HomeAuto.bit();
    let w = worker(ideal_center_hz(), 2_025_000, cfg, vec![]);
    assert_eq!(live(&w), vec![868_300_000, 868_420_000]);
}

/// A receiver tuned away from the band has to say so, and say where to go.
#[test]
fn a_receiver_off_the_band_reports_where_to_tune() {
    let w = worker(866_000_000, 2_025_000, on(), vec![]);
    let st = w.status();
    assert_eq!(st.unavailable, Some("no ISM channel is inside the receiver's window"));
    assert_eq!(st.suggest_center_hz, Some(ideal_center_hz()));
    assert!(w.rows.iter().all(|c| !c.live));
}

/// Switching every family off is a different problem from being mistuned.
#[test]
fn everything_switched_off_is_not_reported_as_mistuned() {
    let mut cfg = on();
    cfg.families = 0;
    let w = worker(ideal_center_hz(), 2_025_000, cfg, vec![]);
    assert!(live(&w).is_empty());
    let st = w.status();
    assert_eq!(st.unavailable, Some("no device family is switched on"));
    assert!(st.suggest_center_hz.is_none(), "the receiver is tuned correctly");
}

/// Nudging the threshold must not rebuild the channels: a gate that has to relearn
/// its floor is a gate that decodes nothing for a second.
#[test]
fn changing_the_threshold_keeps_the_gates() {
    let mut w = worker(ideal_center_hz(), 2_025_000, on(), vec![]);
    let mut cfg = on();
    cfg.threshold_db = 20;
    assert_eq!(w.set_config(cfg, vec![]), ConfigChange::Threshold);
    assert_eq!(live(&w), vec![868_300_000]);
    assert_eq!(w.set_config(cfg, vec![]), ConfigChange::Same);
    cfg.families |= IsmFamily::HomeAuto.bit();
    assert_eq!(w.set_config(cfg, vec![]), ConfigChange::Rebuild);
    assert_eq!(live(&w).len(), 2);
    assert_eq!(w.set_config(with_rtl433(cfg, 1, 0), bands(1, 0)), ConfigChange::Rebuild);
}

#[test]
fn a_window_that_did_not_move_is_left_alone() {
    let mut w = worker(ideal_center_hz(), 2_025_000, on(), vec![]);
    let mut near = Window::whole(ideal_center_hz(), 2_025_000);
    near.center += 7; // seven eighths of a hertz
    assert!(!w.set_window(near));
    near.center += 1;
    assert!(w.set_window(near));
    assert!(w.set_window(Window::whole(866_000_000, 2_025_000)));
    assert!(live(&w).is_empty());
}

fn decoded(protocol: u8, device: &str) -> Decoded {
    Decoded {
        protocol,
        device: device.to_string(),
        model: None,
        readings: Vec::new(),
        extra: Vec::new(),
        encrypted: false,
        raw_hex: String::new(),
    }
}

/// The device table is capped, and it is the *stalest* entry that goes.
#[test]
fn the_device_table_evicts_the_least_recently_heard() {
    let mut cfg = on();
    cfg.max_devices = 3;
    let mut w = worker(ideal_center_hz(), 2_025_000, cfg, vec![]);
    for i in 0..5u8 {
        w.record(
            decoded(0, &i.to_string()),
            Source::Native,
            868_300_000_000,
            20,
            i64::from(i),
        );
        w.trim();
    }
    assert_eq!(w.devices.rows.len(), 3);
    let kept: Vec<&str> = w.devices.snapshot().iter().map(|r| r.device.as_str()).collect();
    assert_eq!(kept, vec!["4", "3", "2"], "newest first, and the oldest two dropped");
    assert_eq!(w.decodes, 5);
    assert_eq!(w.status().decodes, 5);
}

/// Two different devices must not collide into one row, and the same device must
/// not split into two.
#[test]
fn device_ids_are_stable_and_distinct() {
    let a = device_id(0, "10");
    assert_eq!(a, device_id(0, "10"));
    assert_ne!(a, device_id(0, "11"));
    assert_ne!(device_id(0, ""), device_id(0, "\0"));
    assert_ne!(device_id(0, "10"), device_id(1, "10"));
    let mix = |h: u64, b: u8| (h ^ b as u64).wrapping_mul(0x1000_0000_01b3);
    assert_eq!(a, mix(mix(mix(0xcbf2_9ce4_8422_2325, 0), b'1'), b'0'));
}

#[test]
fn a_device_heard_again_keeps_its_row() {
    let mut t = DeviceTable::new();
    t.record(decoded(0, "26"), Source::Native, 868_300_100_000, 18, 1000);
    let mut again = decoded(0, "26");
    again.readings.push(Reading {
        label: String::from("temperature"),
        unit: String::from("C"),
        value_bits: 24.1f64.to_bits(),
    });
    again.extra.push((String::from("battery"), String::from("new")));
    again.raw_hex = String::from("96 a6 41 22 50");
    again.encrypted = true;
    t.record(again, Source::Native, 868_299_900_000, 240, 1060);
    assert_eq!(t.rows.len(), 1, "the same sensor produced a second row");
    let r: &IsmReport = &t.rows[0];
    assert_eq!((r.first_at, r.last_at, r.count), (1000, 1060, 2));
    assert_eq!((r.freq_mhz, r.snr_db), (868_299_900_000, 99));
    assert_eq!(r.readings.len(), 1);
    assert_eq!(f64::from_bits(r.readings[0].value_bits), 24.1);
    assert_eq!(r.raw_hex, "96 a6 41 22 50");
    assert!(r.encrypted);
    assert_eq!(r.id, device_id(0, "26"));
    t.record(decoded(0, "26"), Source::Native, 868_299_900_000, -240, 1061);
    assert_eq!(t.rows[0].snr_db, -99);
}

/// Two rtl_433 devices can report the same name under different models.
#[test]
fn the_model_is_part_of_an_rtl433_identity() {
    let mut t = DeviceTable::new();
    for model in ["Nexus-TH", "Acurite-606TX"] {
        let mut d = decoded(9, "17");
        d.model = Some(model.to_string());
        t.record(d, Source::Rtl433, 433_920_000_000, 10, 50);
    }
    assert_eq!(t.rows.len(), 2);
    assert_eq!(t.rows[0].id, device_id(9, "Nexus-TH\u{0}17"));
    let mut d = decoded(9, "17");
    d.model = Some(String::from("Nexus-TH"));
    d.encrypted = true;
    t.record(d, Source::Rtl433, 433_920_000_000, 10, 60);
    assert!(!t.rows[0].encrypted, "rtl_433 does not say when that changes");
    // Heard together, the names decide.
    let names: Vec<i64> = t.snapshot().iter().map(|r| r.last_at).collect();
    assert_eq!(names, vec![60, 50]);
}

#[test]
fn the_table_always_has_room_for_one() {
    let mut t = DeviceTable::new();
    for i in 0..3 {
        t.record(decoded(0, &format!("{i}")), Source::Native, 0, 0, 5);
    }
    let order: Vec<&str> = t.snapshot().iter().map(|r| r.device.as_str()).collect();
    assert_eq!(order, vec!["0", "1", "2"], "equally fresh, so by name");
    t.trim(0);
    assert_eq!(t.rows.len(), 1);
}

#[test]
fn snapshots_and_refusals() {
    assert!(!emit_due(1000, 1499));
    assert!(emit_due(1000, 1500));
    assert!(!emit_due(1000, 10));
    assert_eq!(problem_text(2, "unknown key nonsense"), "line 2: unknown key nonsense");
}
