//! What the PlutoSDR link says when something fails.

use sdroxide::pluto::error::{errno_text, Error, IoKind};

#[test]
fn busy_names_the_usual_culprit() {
    let e = Error::Remote { cmd: "OPEN cf-ad9361-lpc".into(), code: -16 };
    let s = e.message();
    assert!(s.contains("device busy"), "{s}");
    assert!(s.contains("iio-oscilloscope"), "{s}");
}

/// The one I/O failure worth telling apart from the rest: the server had already
/// committed to the bytes, so the link was slow rather than dead.
#[test]
fn a_payload_that_ran_out_of_time_is_a_stall_and_not_a_dead_socket() {
    let stalled = Error::io("read payload", IoKind::WouldBlock, String::from("would block"));
    assert!(stalled.is_payload_stall());
    let late = Error::io("read payload", IoKind::TimedOut, String::from("timed out"));
    assert!(late.is_payload_stall());

    // Same failure, but before the reply started: not a payload stall.
    let waiting = Error::io("read line", IoKind::WouldBlock, String::from("would block"));
    assert!(!waiting.is_payload_stall());

    // Same read, but the peer hung up: the connection really is finished.
    let closed = Error::io("read payload", IoKind::ConnectionReset, String::from("reset"));
    assert!(!closed.is_payload_stall());

    // And a refusal the server spelled out is not an I/O failure at all.
    assert!(!Error::Remote { cmd: "READBUF".into(), code: -11 }.is_payload_stall());
}

#[test]
fn an_unknown_errno_still_reports_the_number() {
    let e = Error::Remote { cmd: "READ".into(), code: -12345 };
    assert!(e.message().contains("-12345"));
}

/// A Pluto is a network device on a USB cable, and every one of these messages
/// has to say something the operator can go and check.
#[test]
fn connect_failures_explain_themselves() {
    let addr = "192.168.2.1:30431";
    let refused = Error::from_connect(IoKind::ConnectionRefused, "refused", addr);
    assert!(refused.message().contains("still booting"));
    let timeout = Error::from_connect(IoKind::TimedOut, "timed out", addr);
    assert!(timeout.message().contains("network"));
    assert!(timeout.message().contains("192.168.2.10"));
    for kind in [IoKind::NetworkUnreachable, IoKind::HostUnreachable] {
        let e = Error::from_connect(kind, "", addr);
        assert!(e.message().starts_with("no route to 192.168.2.1:30431"));
    }
    let other = Error::from_connect(IoKind::Other, "cable on fire", addr);
    assert_eq!(other.message(), "cannot reach 192.168.2.1:30431: cable on fire");
}

#[test]
fn only_a_refusal_has_a_code() {
    assert_eq!(Error::Remote { cmd: "READ".into(), code: -19 }.remote_code(), Some(-19));
    assert_eq!(Error::Msg("x".into()).remote_code(), None);
    assert_eq!(Error::io("read line", IoKind::Other, String::new()).remote_code(), None);
}

#[test]
fn every_error_has_its_sentence() {
    assert_eq!(errno_text(-19), "no such device (errno 19)");
    assert_eq!(errno_text(7), "error 7");
    assert_eq!(
        Error::io("read line", IoKind::ConnectionReset, String::from("reset by peer")).message(),
        "IIOD read line failed: reset by peer"
    );
    assert_eq!(
        Error::Remote { cmd: "OPEN x".into(), code: -22 }.message(),
        "IIOD rejected `OPEN x`: invalid argument — the value is outside what the hardware accepts (errno 22)"
    );
    assert_eq!(
        Error::Protocol { cmd: "VERSION".into(), what: "empty reply".into() }.message(),
        "IIOD protocol error after `VERSION`: empty reply"
    );
    assert_eq!(Error::Xml("no root".into()).message(), "IIOD context XML: no root");
    let other = Error::NotAPluto {
        addr: "10.0.0.9".into(),
        missing: "ad9361-phy",
        present: "adc, dac".into(),
    };
    assert_eq!(
        other.message(),
        "10.0.0.9 is an IIO device but not a PlutoSDR: it has no `ad9361-phy`. Devices present: adc, dac"
    );
    for e in [
        Error::Unreachable("gone".into()),
        Error::Unsupported("gone".into()),
        Error::Msg("gone".into()),
    ] {
        assert_eq!(e.message(), "gone");
    }
}
