//! The DX cluster client and the PSK Reporter uploader.

use sdroxide::net::cluster::{
    detect_mode, expire_spots, login_lines, merge_spot, parse_dx_line, wants_login, LineAction,
    Session, Spot, SPOT_TTL_SECS,
};
use sdroxide::net::pskupload::{
    band_of, collector_host, collector_port, encode_packet, merge, observation_domain, pad4, push_field,
    push_str, push_u16, push_u32, push_u40, receiver_template, sender_template,
    upload_interval_secs, Report, Station, Uploader, MAX_PACKET, MAX_PENDING, TEMPLATE_RECEIVER,
    TEMPLATE_SENDER, TEMPLATE_SENDER_WIDE,
};

/// A line as a spot, with the frequency read as a number of kilohertz.
fn dx_spot(line: &str, now: i64) -> Option<Spot> {
    let dx = parse_dx_line(line)?;
    let freq_mhz = dx.freq_khz.parse::<f64>().ok().map(|khz| (khz * 1e6).round() as u64);
    dx.spot(1, freq_mhz, now)
}

#[test]
fn parses_standard_spot() {
    let s = dx_spot("DX de W3LPL:     14025.0  DL9XYZ       CW  loud   1230Z", 100).unwrap();
    assert_eq!(s.call, "DL9XYZ");
    assert_eq!(s.spotter, "W3LPL");
    assert_eq!(s.freq_mhz, 14_025_000_000);
    assert_eq!(s.mode, "CW");
    assert!(!s.comment.contains("1230Z"));
    assert_eq!(s.when_utc, 100);
}

#[test]
fn rejects_non_spot_lines() {
    assert!(dx_spot("Hello and welcome to the cluster", 0).is_none());
    assert!(dx_spot("DX de N0CALL: notafreq K1ABC", 0).is_none());
}

#[test]
fn detects_ft8() {
    let s = dx_spot("DX de EA1AB:      7074.0  JA1ZZZ  FT8 -12dB  2359Z", 0).unwrap();
    assert_eq!(s.mode, "FT8");
    assert_eq!(s.freq_mhz, 7_074_000_000);
}

#[test]
fn strips_trailing_bell_and_time() {
    // Real cluster spots end with two BEL alert bytes after the time.
    let s = dx_spot("DX de IK5ABC:  7123.0  IU1LSY  leone di creta/ 1421Z\u{7}\u{7}", 0).unwrap();
    assert_eq!(s.call, "IU1LSY");
    assert_eq!(s.comment, "leone di creta/");
    assert!(!s.comment.contains('\u{7}'));
    assert!(!s.comment.contains("1421Z"));
}

#[test]
fn a_line_without_a_call_is_no_spot() {
    assert!(parse_dx_line("DX de W3LPL: 14025.0").is_none());
    assert!(parse_dx_line("DX de W3LPL").is_none());
    assert!(parse_dx_line("").is_none());
}

#[test]
fn the_mode_comes_out_of_the_comment() {
    assert_eq!(detect_mode("cq ft8 -10"), "FT8");
    assert_eq!(detect_mode("loud CW tnx"), "CW");
    assert_eq!(detect_mode("no idea"), "");
}

#[test]
fn a_prompt_asks_for_the_call() {
    assert!(wants_login("login: "));
    assert!(wants_login("Please enter your call: "));
    assert!(wants_login("Your CALLSIGN?"));
    assert!(!wants_login("DX de W3LPL: 14025.0 K1ABC"));
    let lines = login_lines(" ab1cd ", &vec![String::from("set/ft8"), String::from("")]);
    assert_eq!(lines[0], "ab1cd\r\n");
    assert!(lines.contains(&String::from("set/ft8\r\n")));
    assert!(login_lines("  ", &vec![String::from("x")]).is_empty());
}

#[test]
fn a_session_logs_in_once_and_then_reads_spots() {
    let mut s = Session::new();
    s.on_bytes(b"Welcome\r\nlog");
    assert_eq!(s.next_line().as_deref(), Some("Welcome"));
    assert!(matches!(s.on_line("Welcome"), LineAction::Ignore));
    assert_eq!(s.next_line(), None);
    s.on_bytes(b"in: ");
    assert!(s.on_idle(10), "an unfinished line can be the prompt");
    assert!(s.logged_in);
    assert_eq!(s.next_line(), None, "the prompt is gone");
    assert!(!s.on_idle(5000));
    s.on_bytes(b"DX de W3LPL: 14025.0 DL9XYZ CW 1230Z\xff\n");
    let line = s.next_line().expect("a line");
    assert!(line.ends_with('\u{fffd}'), "{line:?}");
    match s.on_line("DX de W3LPL: 14025.0 DL9XYZ CW 1230Z") {
        LineAction::Spot(dx) => assert_eq!(dx.call, "DL9XYZ"),
        _ => panic!("a spot"),
    }
    assert!(matches!(s.on_line("login: "), LineAction::Ignore), "only asked once");
}

#[test]
fn a_silent_server_gets_the_call_after_a_while() {
    let mut s = Session::new();
    assert!(!s.on_idle(2000));
    assert!(s.on_idle(2001));
    let mut t = Session::new();
    assert!(matches!(t.on_line("Please enter your call:"), LineAction::Login));
}

fn spot(id: u64, when_utc: i64) -> Spot {
    Spot {
        id,
        freq_mhz: 14_025_000_000,
        call: String::from("DL9XYZ"),
        spotter: String::from("W3LPL"),
        mode: String::new(),
        comment: String::new(),
        when_utc,
    }
}

#[test]
fn a_spot_replaces_the_one_with_its_id_and_old_ones_go() {
    let mut spots = Vec::new();
    merge_spot(&mut spots, spot(1, 100));
    merge_spot(&mut spots, spot(2, 200));
    merge_spot(&mut spots, spot(1, 300));
    assert_eq!(spots.len(), 2);
    assert_eq!(spots.iter().find(|s| s.id == 1).unwrap().when_utc, 300);
    expire_spots(&mut spots, 250 + SPOT_TTL_SECS);
    assert_eq!(spots.iter().map(|s| s.id).collect::<Vec<_>>(), vec![1]);
}

fn rx() -> Station {
    Station {
        call: "AB1CD".into(),
        grid: "FN42".into(),
        software: "sdroxide".into(),
        antenna: String::new(),
    }
}

fn report(call: &str, snr: i8) -> Report {
    Report {
        call: call.into(),
        grid: "EM48".into(),
        freq_hz: 14_075_500,
        snr_db: snr,
        mode: "FT8".into(),
        when_utc: 1_700_000_000,
    }
}

fn be16(b: &[u8], at: usize) -> u16 {
    u16::from_be_bytes([b[at], b[at + 1]])
}

#[test]
fn packet_layout_matches_ipfix() {
    let (pkt, used) = encode_packet(&rx(), &[report("W9XYZ", -12)], 1_700_000_100, 0, 0x1234);
    assert_eq!(used, 1);
    assert_eq!(be16(&pkt, 0), 0x000A, "IPFIX version");
    assert_eq!(be16(&pkt, 2) as usize, pkt.len(), "header length is the real length");
    assert_eq!(u32::from_be_bytes(pkt[4..8].try_into().unwrap()), 1_700_000_100);
    assert_eq!(u32::from_be_bytes(pkt[12..16].try_into().unwrap()), 0x1234);

    // Walk the sets: two templates, then the receiver record, then reports.
    let mut at = 16;
    let mut ids = Vec::new();
    while at < pkt.len() {
        let (id, len) = (be16(&pkt, at), be16(&pkt, at + 2) as usize);
        assert!(len >= 4 && at + len <= pkt.len(), "set {id:#x} length {len} at {at}");
        assert_eq!(len % 4, 0, "set {id:#x} is not padded to a 4-byte boundary");
        ids.push(id);
        at += len;
    }
    assert_eq!(at, pkt.len(), "sets exactly fill the packet");
    assert_eq!(ids, vec![2, 3, TEMPLATE_RECEIVER, TEMPLATE_SENDER]);

    // The strings are length-prefixed, and ours is in the receiver record.
    let call = pkt.windows(6).any(|w| w == b"\x05AB1CD");
    assert!(call, "receiver callsign is not length-prefixed in the packet");
    assert!(pkt.windows(6).any(|w| w == b"\x05W9XYZ"), "sender callsign missing");
}

/// Walk the sets of a packet, returning `(set id, body)` for each.
fn sets(pkt: &[u8]) -> Vec<(u16, Vec<u8>)> {
    let mut at = 16;
    let mut out = Vec::new();
    while at < pkt.len() {
        let (id, len) = (be16(pkt, at), be16(pkt, at + 2) as usize);
        assert!(len >= 4 && at + len <= pkt.len(), "set {id:#x} length {len} at {at}");
        out.push((id, pkt[at + 4..at + len].to_vec()));
        at += len;
    }
    assert_eq!(at, pkt.len(), "sets exactly fill the packet");
    out
}

/// A QO-100 station is heard on 10489.540 MHz, which the collector's default
/// 4-byte frequency field cannot hold: the report has to go out under the widened
/// template instead of being clipped to 4.295 GHz.
#[test]
fn a_microwave_report_uses_the_five_byte_frequency() {
    let mut r = report("W9XYZ", -12);
    r.freq_hz = 10_489_540_000;
    let (pkt, used) = encode_packet(&rx(), &[r], 1_700_000_100, 0, 1);
    assert_eq!(used, 1);
    let sets = sets(&pkt);
    let ids: Vec<u16> = sets.iter().map(|(id, _)| *id).collect();
    assert_eq!(ids, vec![2, 3, TEMPLATE_RECEIVER, 2, TEMPLATE_SENDER_WIDE]);

    // The widened template says five bytes for field 30351.5.
    let tpl = &sets[3].1;
    assert_eq!(be16(tpl, 0), TEMPLATE_SENDER_WIDE);
    assert_eq!(be16(tpl, 12), 0x8005, "field after senderCallsign is the frequency");
    assert_eq!(be16(tpl, 14), 5, "frequency field width");

    // And the record carries the real frequency, big-endian, in five bytes.
    let rec = &sets[4].1;
    assert_eq!(&rec[..6], b"\x05W9XYZ");
    assert_eq!(&rec[6..11], &10_489_540_000u64.to_be_bytes()[3..]);
}

/// HF and microwave reports in one batch each land in the set that can carry
/// them, and both still go out.
#[test]
fn a_mixed_batch_splits_into_two_sets() {
    let mut sat = report("W9XYZ", -12);
    sat.freq_hz = 10_489_540_000;
    let (pkt, used) = encode_packet(&rx(), &[report("K1ABC", -8), sat], 0, 0, 1);
    assert_eq!(used, 2);
    let ids: Vec<u16> = sets(&pkt).iter().map(|(id, _)| *id).collect();
    assert_eq!(ids, vec![2, 3, TEMPLATE_RECEIVER, 2, TEMPLATE_SENDER, TEMPLATE_SENDER_WIDE]);
    assert!(pkt.windows(6).any(|w| w == b"\x05K1ABC"));
    assert!(pkt.windows(6).any(|w| w == b"\x05W9XYZ"));
}

#[test]
fn a_full_batch_splits_across_packets() {
    // Every report has to go somewhere: no packet may exceed the MTU budget, and
    // the batch loop must make progress on each pass.
    let reports: Vec<Report> = (0..200).map(|i| report(&format!("W9XY{i:03}"), -10)).collect();
    let mut sent = 0;
    let mut packets = 0;
    while sent < reports.len() {
        let (pkt, used) = encode_packet(&rx(), &reports[sent..], 0, sent as u32, 1);
        assert!(pkt.len() <= MAX_PACKET, "packet of {} bytes", pkt.len());
        assert!(used > 0, "no progress at report {sent}");
        sent += used;
        packets += 1;
    }
    assert!(packets > 1, "200 reports should not fit in one datagram");
}

#[test]
fn the_batch_keeps_the_best_report_per_station() {
    let mut pending = Vec::new();
    merge(&mut pending, report("W9XYZ", -15));
    merge(&mut pending, report("W9XYZ", -8)); // same station, stronger
    merge(&mut pending, report("K1ABC", -20));
    assert_eq!(pending.len(), 2);
    assert_eq!(pending[0].snr_db, -8);

    // A weaker later report doesn't replace the better one.
    merge(&mut pending, report("W9XYZ", -19));
    assert_eq!(pending[0].snr_db, -8);

    // The same callsign on another band is its own report.
    let mut other = report("W9XYZ", -11);
    other.freq_hz = 7_074_000;
    merge(&mut pending, other);
    assert_eq!(pending.len(), 3);
}

/// One entry per callsign per band, wherever on the band it was heard.
#[test]
fn a_station_is_reported_once_per_band() {
    let at = |hz: u64, snr: i8| {
        let mut r = report("W9XYZ", snr);
        r.freq_hz = hz;
        r
    };
    let mut pending = Vec::new();
    merge(&mut pending, at(14_070_000, -10));
    merge(&mut pending, at(14_085_000, -10));
    merge(&mut pending, at(14_078_000, -5));
    assert_eq!(pending.len(), 1);
    assert_eq!((pending[0].freq_hz, pending[0].snr_db), (14_078_000, -5));
    merge(&mut pending, at(10_136_000, -20));
    merge(&mut pending, at(18_100_000, -20));
    assert_eq!(pending.len(), 3);
    let bands = [1_840_000u64, 3_573_000, 5_357_000, 7_074_000, 10_136_000, 14_074_000];
    for w in bands.windows(2) {
        assert_eq!(band_of(w[0]) + 1, band_of(w[1]), "{w:?}");
    }
    assert_eq!(band_of(28_000_000), band_of(29_700_000));
    assert_ne!(band_of(144_300_000), band_of(432_200_000));
    assert_eq!(band_of(0), 0);
}

/// As many reports as fit go into a datagram, and not one fewer.
#[test]
fn a_datagram_is_filled_to_the_last_report() {
    for wide in [false, true] {
        let reports: Vec<Report> = (0..80)
            .map(|i| {
                let mut r = report(&format!("W9XY{i:02}"), -10);
                if wide && i % 2 == 0 {
                    r.freq_hz = 10_489_540_000;
                }
                r
            })
            .collect();
        let (pkt, used) = encode_packet(&rx(), &reports, 0, 0, 1);
        assert!(used < reports.len() && pkt.len() <= MAX_PACKET);
        // A record is 12 to 27 bytes, and sets are padded to four.
        assert!(pkt.len() + 31 > MAX_PACKET, "{} bytes would take another", pkt.len());
    }
}

#[test]
fn a_full_batch_takes_no_more_stations() {
    let mut pending = Vec::new();
    for i in 0..MAX_PENDING + 10 {
        merge(&mut pending, report(&format!("W{i}"), 0));
    }
    assert_eq!(pending.len(), MAX_PENDING);
}

#[test]
fn fields_are_written_big_endian() {
    let mut b = Vec::new();
    push_u16(&mut b, 0x1234);
    push_u32(&mut b, 0x5678_9ABC);
    push_u40(&mut b, 0x01_0203_0405);
    push_str(&mut b, "DL");
    assert_eq!(b, [0x12, 0x34, 0x56, 0x78, 0x9A, 0xBC, 1, 2, 3, 4, 5, 2, b'D', b'L']);
    pad4(&mut b, 3);
    assert_eq!(b.len(), 15, "twelve bytes from the set's start");
    let mut f = Vec::new();
    push_field(&mut f, 5, 4, true);
    assert_eq!(f, [0x80, 0x05, 0x00, 0x04, 0x00, 0x00, 0x76, 0x8F]);
    let mut g = Vec::new();
    push_field(&mut g, 150, 4, false);
    assert_eq!(g, [0x00, 150, 0x00, 0x04]);
}

#[test]
fn the_templates_are_whole_sets() {
    for wide in [4u16, 5] {
        let mut b = Vec::new();
        sender_template(&mut b, wide);
        assert_eq!(be16(&b, 0), 2);
        assert_eq!(be16(&b, 2) as usize, b.len());
        assert_eq!(b.len() % 4, 0);
    }
    let mut b = Vec::new();
    receiver_template(&mut b);
    assert_eq!(be16(&b, 0), 3);
    assert_eq!(be16(&b, 2) as usize, b.len());
}

#[test]
fn a_text_longer_than_its_length_byte_is_cut() {
    let mut b = Vec::new();
    push_str(&mut b, &"x".repeat(300));
    assert_eq!(b[0] as usize, b.len() - 1);
    assert!(b.len() <= 256);
}

#[test]
fn the_collector_has_its_defaults() {
    assert_eq!(collector_host("  "), "report.pskreporter.info");
    assert_eq!(collector_host(" example.net "), "example.net");
    assert_eq!(collector_port(0), 4739);
    assert_eq!(collector_port(5000), 5000);
    assert_eq!(upload_interval_secs(10), 300);
    assert_eq!(upload_interval_secs(600), 600);
    let d = observation_domain("AB1CD", 1_700_000_000);
    assert_eq!(d & 1, 1, "never nought");
    assert_ne!(d, observation_domain("AB1CE", 1_700_000_000));
}

#[test]
fn an_uploader_sends_its_batch_and_counts_records() {
    let mut u = Uploader::new(rx(), 1_700_000_000);
    assert!(!u.wants_send(true, true), "nothing to send");
    u.heard(report("W9XYZ", -12));
    u.heard(report("K1ABC", -3));
    assert!(u.wants_send(true, false) && u.wants_send(false, true) && !u.wants_send(false, false));
    let batch = u.take_batch();
    assert_eq!((batch.len(), u.pending.len()), (2, 0));
    let (pkt, used) = u.next_packet(&batch, 0, 1_700_000_300);
    assert_eq!(used, 2);
    assert_eq!(u32::from_be_bytes(pkt[8..12].try_into().unwrap()), 0);
    u.packet_sent(used);
    assert_eq!(u.seq, 3, "two reports and the receiver record");
    assert_eq!(
        u.batch_done(Ok(2)).as_deref(),
        Some("PSK Reporter: 2 reports uploaded")
    );
    assert_eq!(u.batch_done(Ok(1)).as_deref(), Some("PSK Reporter: 1 report uploaded"));
    assert_eq!(
        u.batch_done(Err(String::from("no route"))).as_deref(),
        Some("PSK Reporter: no route")
    );
    assert_eq!(u.batch_done(Err(String::from("no route"))), None, "once per outage");
}
