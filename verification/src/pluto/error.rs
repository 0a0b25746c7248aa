//! Errors, and the translation of connection failures into sentences an
//! operator can act on.
//!
//! Everything here ends up in front of a user. "connection refused (os error
//! 111)" tells nobody what to do; "nothing is listening on 192.168.2.1:30431"
//! does.
use crate::text::{chars_of, dec_int, decimal_i64, same_chars};
use vstd::prelude::*;

verus! {

/// What went wrong on a socket, as far as the driver tells one failure from
/// another.
#[derive(Clone, Copy, Debug, PartialEq, Eq, Structural)]
pub enum IoKind {
    ConnectionRefused,
    ConnectionReset,
    HostUnreachable,
    Interrupted,
    NetworkUnreachable,
    TimedOut,
    WouldBlock,
    Other,
}

#[derive(Debug)]
pub enum Error {
    /// Could not reach `iiod` at all. Carries the actionable sentence, not the
    /// errno.
    Unreachable(String),
    /// Socket I/O failed once the connection was up.
    Io { op: &'static str, kind: IoKind, source: String },
    /// The server answered, but with a negative return code (`-errno`).
    Remote { cmd: String, code: i64 },
    /// The server's framing did not match what the protocol says it should be.
    /// It says what was expected and what arrived.
    Protocol { cmd: String, what: String },
    /// The context description could not be parsed.
    Xml(String),
    /// We reached an IIO device, but not one this driver drives.
    NotAPluto { addr: String, missing: &'static str, present: String },
    /// A setting the hardware cannot produce.
    Unsupported(String),
    Msg(String),
}

/// The name of an errno that `iiod` returns.
pub open spec fn errno_name(n: int) -> Option<Seq<char>> {
    if n == 1 {
        Some("operation not permitted"@)
    } else if n == 2 {
        Some("no such device or attribute"@)
    } else if n == 5 {
        Some("I/O error — the device rejected the value"@)
    } else if n == 9 {
        Some("bad file descriptor (the buffer is not open)"@)
    } else if n == 11 {
        Some("resource temporarily unavailable (timeout)"@)
    } else if n == 16 {
        Some("device busy — another program is holding this buffer (iio-oscilloscope, GNU Radio, another sdroxide)"@)
    } else if n == 19 {
        Some("no such device"@)
    } else if n == 22 {
        Some("invalid argument — the value is outside what the hardware accepts"@)
    } else if n == 25 {
        Some("not a typewriter / unsupported ioctl"@)
    } else if n == 110 {
        Some("timed out"@)
    } else {
        None
    }
}

/// What the operator is told of a negative return code.
pub open spec fn errno_sentence(code: int) -> Seq<char> {
    match errno_name(-code) {
        Some(name) => name + " (errno "@ + dec_int(-code) + ")"@,
        None => "error "@ + dec_int(code),
    }
}

fn errno_name_of(n: i64) -> (r: Option<&'static str>)
    ensures
        r is Some <==> errno_name(n as int) is Some,
        r matches Some(s) ==> errno_name(n as int) == Some(s@),
{
    match n {
        1 => Some("operation not permitted"),
        2 => Some("no such device or attribute"),
        5 => Some("I/O error — the device rejected the value"),
        9 => Some("bad file descriptor (the buffer is not open)"),
        11 => Some("resource temporarily unavailable (timeout)"),
        16 => Some("device busy — another program is holding this buffer (iio-oscilloscope, GNU Radio, another sdroxide)"),
        19 => Some("no such device"),
        22 => Some("invalid argument — the value is outside what the hardware accepts"),
        25 => Some("not a typewriter / unsupported ioctl"),
        110 => Some("timed out"),
        _ => None,
    }
}

/// Name the `-errno` codes `iiod` actually returns, because the number alone
/// sends people looking in the wrong place. `-EBUSY` in particular is almost
/// always another program (iio-oscilloscope, GNU Radio, a second sdroxide)
/// still holding the buffer, not a broken device.
pub fn errno_text(code: i64) -> (r: String)
    ensures
        r@ == errno_sentence(code as int),
{
    if code > i64::MIN {
        let n: i64 = -code;
        match errno_name_of(n) {
            Some(name) => {
                let mut s: String = String::from_str(name);
                s.append(" (errno ");
                s.append(decimal_i64(n).as_str());
                s.append(")");
                return s;
            },
            None => {},
        }
    }
    let mut s: String = String::from_str("error ");
    s.append(decimal_i64(code).as_str());
    s
}

/// The sentence for a failure to connect to `addr`.
pub open spec fn connect_sentence(kind: IoKind, cause: Seq<char>, addr: Seq<char>) -> Seq<char> {
    match kind {
        IoKind::ConnectionRefused => "nothing is listening on "@ + addr
            + " — the host is up but `iiod` is not running on it. On a Pluto this usually means the firmware is still booting (give it ~20 s after plugging in)"@,
        IoKind::TimedOut => "no answer from "@ + addr
            + " — a Pluto appears as a USB *network* adapter, not a serial port, so check that the interface came up and that your host has an address on its subnet (the device is 192.168.2.1, the host 192.168.2.10 by default)"@,
        IoKind::NetworkUnreachable | IoKind::HostUnreachable => "no route to "@ + addr
            + " — the Pluto's USB network interface is not configured on this host, or the address is on a subnet you are not attached to"@,
        _ => "cannot reach "@ + addr + ": "@ + cause,
    }
}

/// `a`, `b` and `c` one after the other.
fn sentence(a: &str, b: &str, c: &str) -> (r: String)
    ensures
        r@ == a@ + b@ + c@,
{
    let mut s: String = String::from_str(a);
    s.append(b);
    s.append(c);
    s
}

/// The code that the server answered with.
pub open spec fn answered_with(e: Error) -> Option<i64> {
    match e {
        Error::Remote { cmd, code } => Some(code),
        _ => None,
    }
}

/// Whether a payload stalled.
pub open spec fn is_stall(e: Error) -> bool {
    match e {
        Error::Io { op, kind, source } => op@ == "read payload"@ && (kind == IoKind::WouldBlock
            || kind == IoKind::TimedOut || kind == IoKind::Interrupted),
        _ => false,
    }
}

impl Error {
    /// The `-errno` the server answered with, where the failure was one of
    /// those. Lets a caller recognise a specific refusal without matching on
    /// the sentence built for the operator.
    pub fn remote_code(&self) -> (r: Option<i64>)
        ensures
            r == (match *self {
                Error::Remote { cmd, code } => Some(code),
                _ => None,
            }),
            r == answered_with(*self),
    {
        match self {
            Error::Remote { cmd: _, code } => Some(*code),
            _ => None,
        }
    }

    /// Whether this is a read that stalled part-way through a payload the
    /// server had already announced.
    ///
    /// The one failure that says "this link is slower than it is being asked
    /// to be" rather than "this connection is finished": the bytes exist and
    /// the server is trying to send them, it just could not get them across in
    /// the time allowed.
    pub fn is_payload_stall(&self) -> (r: bool)
        ensures
            r == (match *self {
                Error::Io { op, kind, source } => op@ == "read payload"@ && (kind
                    == IoKind::WouldBlock || kind == IoKind::TimedOut || kind
                    == IoKind::Interrupted),
                _ => false,
            }),
            r == is_stall(*self),
    {
        match self {
            Error::Io { op, kind, source: _ } => {
                let slow: bool = match kind {
                    IoKind::WouldBlock | IoKind::TimedOut | IoKind::Interrupted => true,
                    _ => false,
                };
                slow && same_chars(&chars_of(op), &chars_of("read payload"))
            },
            _ => false,
        }
    }

    /// Translate a failure to connect into an instruction.
    ///
    /// A Pluto presents itself over USB as a *network* interface, which is the
    /// part that surprises people, so the refused and timed-out messages say
    /// so rather than talking about sockets.
    pub fn from_connect(kind: IoKind, cause: &str, addr: &str) -> (r: Error)
        ensures
            r is Unreachable,
            r->Unreachable_0@ == connect_sentence(kind, cause@, addr@),
    {
        let s: String = match kind {
            IoKind::ConnectionRefused => sentence(
                "nothing is listening on ",
                addr,
                " — the host is up but `iiod` is not running on it. On a Pluto this usually means the firmware is still booting (give it ~20 s after plugging in)",
            ),
            IoKind::TimedOut => sentence(
                "no answer from ",
                addr,
                " — a Pluto appears as a USB *network* adapter, not a serial port, so check that the interface came up and that your host has an address on its subnet (the device is 192.168.2.1, the host 192.168.2.10 by default)",
            ),
            IoKind::NetworkUnreachable | IoKind::HostUnreachable => sentence(
                "no route to ",
                addr,
                " — the Pluto's USB network interface is not configured on this host, or the address is on a subnet you are not attached to",
            ),
            _ => {
                let mut s: String = sentence("cannot reach ", addr, ": ");
                s.append(cause);
                s
            },
        };
        Error::Unreachable(s)
    }

    pub fn io(op: &'static str, kind: IoKind, source: String) -> (r: Error)
        ensures
            r == (Error::Io { op, kind, source }),
    {
        Error::Io { op, kind, source }
    }

    /// The sentence for the operator.
    pub open spec fn says(self) -> Seq<char> {
        match self {
            Error::Unreachable(s) => s@,
            Error::Io { op, kind, source } => "IIOD "@ + op@ + " failed: "@ + source@,
            Error::Remote { cmd, code } => "IIOD rejected `"@ + cmd@ + "`: "@ + errno_sentence(
                code as int,
            ),
            Error::Protocol { cmd, what } => "IIOD protocol error after `"@ + cmd@ + "`: "@ + what@,
            Error::Xml(s) => "IIOD context XML: "@ + s@,
            Error::NotAPluto { addr, missing, present } => addr@
                + " is an IIO device but not a PlutoSDR: it has no `"@ + missing@
                + "`. Devices present: "@ + present@,
            Error::Unsupported(s) => s@,
            Error::Msg(s) => s@,
        }
    }

    /// The sentence for the operator.
    pub fn message(&self) -> (r: String)
        ensures
            r@ == self.says(),
    {
        match self {
            Error::Unreachable(s) => s.clone(),
            Error::Io { op, kind: _, source } => {
                let mut s: String = sentence("IIOD ", op, " failed: ");
                s.append(source.as_str());
                s
            },
            Error::Remote { cmd, code } => {
                let mut s: String = sentence("IIOD rejected `", cmd.as_str(), "`: ");
                s.append(errno_text(*code).as_str());
                s
            },
            Error::Protocol { cmd, what } => {
                let mut s: String = sentence("IIOD protocol error after `", cmd.as_str(), "`: ");
                s.append(what.as_str());
                s
            },
            Error::Xml(x) => {
                let mut s: String = String::from_str("IIOD context XML: ");
                s.append(x.as_str());
                s
            },
            Error::NotAPluto { addr, missing, present } => {
                let mut s: String = sentence(
                    addr.as_str(),
                    " is an IIO device but not a PlutoSDR: it has no `",
                    missing,
                );
                s.append("`. Devices present: ");
                s.append(present.as_str());
                s
            },
            Error::Unsupported(s) => s.clone(),
            Error::Msg(s) => s.clone(),
        }
    }
}

} // verus!
