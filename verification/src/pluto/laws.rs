//! What an operator is told of a failure.
use crate::pluto::error::{
    answered_with, connect_sentence, errno_name, errno_sentence, is_stall, Error, IoKind,
};
use crate::text::{dec_int, has_text};
use crate::text_laws::{lemma_has_end, lemma_has_two, lemma_still_has};
use vstd::prelude::*;

verus! {


/// Which codes have a name, and that no two share one.
pub proof fn ten_codes_have_names(n: int)
    ensures
        errno_name(n) is Some <==> n == 1 || n == 2 || n == 5 || n == 9 || n == 11 || n == 16 || n
            == 19 || n == 22 || n == 25 || n == 110,
{
}

/// What each code is called.
pub proof fn the_codes_have_their_names()
    ensures
        errno_name(1) == Some("operation not permitted"@),
        errno_name(2) == Some("no such device or attribute"@),
        errno_name(5) == Some("I/O error — the device rejected the value"@),
        errno_name(9) == Some("bad file descriptor (the buffer is not open)"@),
        errno_name(11) == Some("resource temporarily unavailable (timeout)"@),
        errno_name(19) == Some("no such device"@),
        errno_name(22) == Some("invalid argument — the value is outside what the hardware accepts"@),
        errno_name(25) == Some("not a typewriter / unsupported ioctl"@),
        errno_name(110) == Some("timed out"@),
{
}

/// A code that is refused with is told by its name and its number, or by the number
/// alone where it has none.
pub proof fn a_code_is_told_by_name_and_number(code: int)
    ensures
        errno_name(-code) matches Some(name) ==> has_text(errno_sentence(code), name) && has_text(
            errno_sentence(code),
            " (errno "@ + dec_int(-code),
        ),
        errno_name(-code) is None ==> errno_sentence(code) == "error "@ + dec_int(code),
{
    if errno_name(-code) is Some {
        let name = errno_name(-code)->0;
        assert(Seq::<char>::empty() + name =~= name);
        lemma_has_end(Seq::empty(), name);
        lemma_still_has(name, " (errno "@, name);
        lemma_still_has(name + " (errno "@, dec_int(-code), name);
        lemma_still_has(name + " (errno "@ + dec_int(-code), ")"@, name);
        lemma_has_two(name, " (errno "@, dec_int(-code));
        lemma_still_has(
            name + " (errno "@ + dec_int(-code),
            ")"@,
            " (errno "@ + dec_int(-code),
        );
    }
}

/// However a connection fails, the address is told; and the cause, where there is
/// no better sentence for it.
pub proof fn a_failed_connection_tells_the_address(kind: IoKind, cause: Seq<char>, addr: Seq<char>)
    ensures
        has_text(connect_sentence(kind, cause, addr), addr),
        kind is ConnectionRefused ==> has_text(
            connect_sentence(kind, cause, addr),
            "nothing is listening on "@ + addr,
        ),
        kind is TimedOut ==> has_text(
            connect_sentence(kind, cause, addr),
            "no answer from "@ + addr,
        ),
        kind is NetworkUnreachable || kind is HostUnreachable ==> has_text(
            connect_sentence(kind, cause, addr),
            "no route to "@ + addr,
        ),
        kind is ConnectionReset || kind is Interrupted || kind is WouldBlock || kind is Other
            ==> connect_sentence(kind, cause, addr) == "cannot reach "@ + addr + ": "@ + cause,
{
    let s = connect_sentence(kind, cause, addr);
    let head = match kind {
        IoKind::ConnectionRefused => "nothing is listening on "@,
        IoKind::TimedOut => "no answer from "@,
        IoKind::NetworkUnreachable | IoKind::HostUnreachable => "no route to "@,
        _ => "cannot reach "@,
    };
    let a = head + addr;
    let rest = s.skip(a.len() as int);
    assert(s =~= a + rest);
    lemma_has_end(head, addr);
    lemma_still_has(a, rest, addr);
    assert(Seq::<char>::empty() + a =~= a);
    lemma_has_end(Seq::empty(), a);
    lemma_still_has(a, rest, a);
}

/// An error tells all that it holds.
pub proof fn an_error_tells_all_it_holds(e: Error)
    ensures
        e matches Error::Unreachable(s) ==> e.says() == s@,
        e matches Error::Unsupported(s) ==> e.says() == s@,
        e matches Error::Msg(s) ==> e.says() == s@,
        e matches Error::Xml(s) ==> has_text(e.says(), "IIOD context XML: "@ + s@),
        e matches Error::Io { op, kind, source } ==> has_text(e.says(), "IIOD "@ + op@) && has_text(
            e.says(),
            " failed: "@ + source@,
        ),
        e matches Error::Remote { cmd, code } ==> has_text(e.says(), "IIOD rejected `"@ + cmd@)
            && has_text(e.says(), "`: "@ + errno_sentence(code as int)),
        e matches Error::Protocol { cmd, what } ==> has_text(
            e.says(),
            "IIOD protocol error after `"@ + cmd@,
        ) && has_text(e.says(), "`: "@ + what@),
        e matches Error::NotAPluto { addr, missing, present } ==> has_text(e.says(), addr@)
            && has_text(
            e.says(),
            " is an IIO device but not a PlutoSDR: it has no `"@ + missing@,
        ) && has_text(e.says(), "`. Devices present: "@ + present@),
{
    match e {
        Error::Xml(s) => {
            let a = "IIOD context XML: "@ + s@;
            assert(Seq::<char>::empty() + a =~= a);
            lemma_has_end(Seq::empty(), a);
        },
        Error::Io { op, kind, source } => {
            lemma_four_parts("IIOD "@, op@, " failed: "@, source@);
        },
        Error::Remote { cmd, code } => {
            lemma_four_parts("IIOD rejected `"@, cmd@, "`: "@, errno_sentence(code as int));
        },
        Error::Protocol { cmd, what } => {
            lemma_four_parts("IIOD protocol error after `"@, cmd@, "`: "@, what@);
        },
        Error::NotAPluto { addr, missing, present } => {
            let m = " is an IIO device but not a PlutoSDR: it has no `"@;
            let d = "`. Devices present: "@;
            assert(Seq::<char>::empty() + addr@ =~= addr@);
            lemma_has_end(Seq::empty(), addr@);
            lemma_still_has(addr@, m, addr@);
            lemma_still_has(addr@ + m, missing@, addr@);
            lemma_still_has(addr@ + m + missing@, d, addr@);
            lemma_still_has(addr@ + m + missing@ + d, present@, addr@);
            lemma_has_two(addr@, m, missing@);
            lemma_still_has(addr@ + m + missing@, d, m + missing@);
            lemma_still_has(addr@ + m + missing@ + d, present@, m + missing@);
            lemma_has_two(addr@ + m + missing@, d, present@);
        },
        _ => {},
    }
}

proof fn lemma_four_parts(a: Seq<char>, b: Seq<char>, c: Seq<char>, d: Seq<char>)
    ensures
        has_text(a + b + c + d, a + b),
        has_text(a + b + c + d, c + d),
{
    assert(Seq::<char>::empty() + (a + b) =~= a + b);
    lemma_has_end(Seq::empty(), a + b);
    lemma_still_has(a + b, c, a + b);
    lemma_still_has(a + b + c, d, a + b);
    lemma_has_two(a + b, c, d);
}

/// Only a refusal by the server has a code, and it is the server's own.
pub proof fn only_a_refusal_has_a_code(e: Error)
    ensures
        answered_with(e) is Some <==> e is Remote,
        e matches Error::Remote { cmd, code } ==> answered_with(e) == Some(code),
{
}

/// A read that was too slow stalled; one that broke off, or anything else than a
/// payload, did not.
pub proof fn only_a_slow_payload_stalled(e: Error)
    ensures
        is_stall(e) ==> e is Io,
        e matches Error::Io { op, kind, source } ==> {
            &&& op@ != "read payload"@ ==> !is_stall(e)
            &&& op@ == "read payload"@ ==> (is_stall(e) <==> kind is WouldBlock || kind is TimedOut
                || kind is Interrupted)
        },
{
}

} // verus!
