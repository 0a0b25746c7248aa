//! Finding openHPSDR radios on the network.

use sdroxide::hpsdr::discovery::{
    board_is_hermes_lite, board_name, broadcast_targets, fmt_mac, merge_device, p1_request,
    p2_request, parse_response, sort_devices, HpsdrDevice,
};

#[test]
fn parse_p2_response() {
    let mut pkt = [0u8; 60];
    pkt[4] = 0x02; // idle
    pkt[5..11].copy_from_slice(&[0x00, 0x1C, 0xC0, 0xA2, 0x33, 0x44]);
    pkt[11] = 10; // Saturn
    let d = parse_response(&pkt).expect("parsed");
    assert_eq!(d.protocol, 2);
    assert_eq!(d.board, "Saturn (ANAN-G2)");
    assert!(!d.in_use);
    assert_eq!(d.mac, "00:1C:C0:A2:33:44");
}

#[test]
fn parse_p1_response_hl2() {
    let mut pkt = [0u8; 60];
    pkt[0] = 0xEF;
    pkt[1] = 0xFE;
    pkt[2] = 0x03; // in use
    pkt[3..9].copy_from_slice(&[0x00, 0x1C, 0xC0, 0x11, 0x22, 0x33]);
    pkt[10] = 6; // Hermes-Lite 2
    let d = parse_response(&pkt).expect("parsed");
    assert_eq!(d.protocol, 1);
    assert_eq!(d.board, "Hermes-Lite 2");
    assert!(d.in_use);
    assert!(d.supported());
}

/// The Hermes-Lite's name is matched on by prefix, and the commercial names hung
/// on the others must not reach into it.
#[test]
fn only_the_hermes_lite_answers_to_the_hermes_lite_prefix() {
    for proto in [1u8, 2] {
        for id in 0..=10u8 {
            let name = board_name(proto, id);
            assert_eq!(
                board_is_hermes_lite(&name),
                id == 6,
                "P{proto} board {id} reads {name:?}"
            );
        }
    }
}

#[test]
fn junk_is_ignored() {
    assert!(parse_response(&[0u8; 4]).is_none());
    assert!(parse_response(&[0xAA; 60]).is_none()); // status byte not 0x02/0x03
}

#[test]
fn a_metis_answer_with_a_strange_status_is_junk() {
    let mut pkt = [0u8; 60];
    pkt[0] = 0xEF;
    pkt[1] = 0xFE;
    pkt[2] = 0x04;
    assert!(parse_response(&pkt).is_none());
}

#[test]
fn the_requests_are_the_published_ones() {
    let p2 = p2_request();
    assert_eq!(p2.len(), 60);
    assert_eq!(p2[4], 0x02);
    assert!(p2.iter().enumerate().all(|(i, &b)| i == 4 || b == 0));
    let p1 = p1_request();
    assert_eq!(&p1[..3], &[0xEF, 0xFE, 0x02]);
    assert!(p1[3..].iter().all(|&b| b == 0));
}

#[test]
fn an_unknown_board_keeps_its_number() {
    let name = board_name(2, 77);
    assert!(name.contains("77"), "{name}");
    assert_ne!(board_name(1, 77), board_name(1, 78));
}

#[test]
fn a_mac_is_upper_case_hex() {
    assert_eq!(fmt_mac(&[0xde, 0xad, 0x00, 0x0f]), "DE:AD:00:0F");
    assert_eq!(fmt_mac(&[]), "");
}

fn device(ip: &str, protocol: u8) -> HpsdrDevice {
    HpsdrDevice {
        ip: ip.to_string(),
        mac: String::new(),
        board: String::new(),
        protocol,
        in_use: false,
    }
}

#[test]
fn a_radio_that_answers_twice_is_listed_once() {
    let mut found = Vec::new();
    merge_device(&mut found, device("192.168.1.20", 1));
    merge_device(&mut found, device("10.0.0.5", 2));
    merge_device(&mut found, device("192.168.1.20", 2));
    assert_eq!(found.len(), 2);
    assert_eq!(found.iter().filter(|d| d.ip == "192.168.1.20").count(), 1);
    sort_devices(&mut found);
    let ips: Vec<&str> = found.iter().map(|d| d.ip.as_str()).collect();
    assert_eq!(ips, vec!["10.0.0.5", "192.168.1.20"]);
}

/// The first reply of the highest protocol is the one that counts.
#[test]
fn the_best_answer_of_each_address_is_listed() {
    let mut found = Vec::new();
    for (ip, protocol, mac) in [
        ("10.0.0.9", 1, "a"),
        ("10.0.0.5", 2, "b"),
        ("10.0.0.9", 2, "c"),
        ("10.0.0.5", 1, "d"),
        ("10.0.0.9", 2, "e"),
    ] {
        let mut d = device(ip, protocol);
        d.mac = mac.to_string();
        merge_device(&mut found, d);
    }
    sort_devices(&mut found);
    let got: Vec<(&str, &str)> =
        found.iter().map(|d| (d.ip.as_str(), d.mac.as_str())).collect();
    assert_eq!(got, vec![("10.0.0.5", "b"), ("10.0.0.9", "c")]);
}

#[test]
fn every_interface_is_asked_once() {
    let lan = u32::from_be_bytes([192, 168, 1, 255]);
    let got = broadcast_targets(&vec![lan, lan, 0xFFFF_FFFF]);
    assert_eq!(got, vec![0xFFFF_FFFF, lan]);
    assert_eq!(broadcast_targets(&vec![]), vec![0xFFFF_FFFF]);
}
