//! Which boards are there, which one is meant, and what a failure to open it
//! says.
use crate::fobos::error::Error;
use crate::text::{
    chars_have, chars_of, debug_text, from_utf8_lossy, has_text, lossy_text, lower, lowercase,
    quoted_text, same_chars, split_words, string_of, trim, trimmed, views, words,
};
use vstd::prelude::*;

verus! {

/// How many times opening a board is tried again before giving up, and how long
/// to wait between attempts. The device will not reopen immediately after a
/// previous session closed it: it needs roughly half a second before it answers
/// again.
pub const REOPEN_ATTEMPTS: u32 = 5;

pub const REOPEN_DELAY_MS: u64 = 500;

/// Rates added to whatever the receiver itself reports: the narrow views that
/// make the low end of HF reachable at all. 625 kHz is both the narrowest the
/// downconverter's smallest bin count can produce and the one that keeps the
/// whole AM broadcast band tunable.
pub const EXTRA_HF_RATES_HZ: [u64; 4] = [5_000_000, 2_500_000, 1_250_000, 625_000];

/// One entry of the device list: the index that opening wants, and the serial
/// it belongs to.
#[derive(Clone, Debug, PartialEq, Eq)]
pub struct DevInfo {
    pub index: u32,
    pub serial: String,
}

/// Board identity, from an already-open device.
#[derive(Clone, Debug, PartialEq, Eq)]
pub struct BoardInfo {
    pub hw_revision: String,
    pub fw_version: String,
    pub manufacturer: String,
    pub product: String,
    pub serial: String,
}

/// Where a C string in a buffer ends: at its first NUL, or at the end.
pub open spec fn nul_at(buf: Seq<u8>, from: int) -> int
    decreases buf.len() - from,
{
    if from >= buf.len() || buf[from] == 0 {
        from
    } else {
        nul_at(buf, from + 1)
    }
}

/// The text that a buffer holds.
pub open spec fn buffer_text(buf: Seq<u8>) -> Seq<char> {
    trimmed(lossy_text(buf.take(nul_at(buf, 0))))
}

/// Read a buffer the library filled as a C string, tolerating one that isn't
/// NUL-terminated within bounds rather than assuming the terminator is always
/// there.
pub fn cstr_buf_to_string(buf: &[u8]) -> (r: String)
    ensures
        r@ == buffer_text(buf@),
{
    let n: usize = buf.len();
    let mut end: usize = 0;
    while end < n && buf[end] != 0
        invariant
            end <= n,
            n == buf@.len(),
            nul_at(buf@, 0) == nul_at(buf@, end as int),
        decreases n - end,
    {
        end = end + 1;
    }
    let head: &[u8] = vstd::slice::slice_subrange(buf, 0, end);
    assert(head@ =~= buf@.take(end as int));
    let text: String = from_utf8_lossy(head);
    String::from_str(trim(text.as_str()))
}

/// Board identity, from the code that the library's call returned, the text of
/// that code, and the five buffers that it filled.
pub fn board_info(
    code: i32,
    failure: String,
    hw: &[u8],
    fw: &[u8],
    mfr: &[u8],
    product: &[u8],
    serial: &[u8],
) -> (r: Result<BoardInfo, Error>)
    ensures
        code != 0 ==> r == Err::<BoardInfo, Error>(
            Error::Api { call: "fobos_rx_get_board_info", text: failure },
        ),
        code == 0 ==> r is Ok && {
            let b = r->Ok_0;
            &&& b.hw_revision@ == buffer_text(hw@)
            &&& b.fw_version@ == buffer_text(fw@)
            &&& b.manufacturer@ == buffer_text(mfr@)
            &&& b.product@ == buffer_text(product@)
            &&& b.serial@ == buffer_text(serial@)
        },
{
    match Error::check("fobos_rx_get_board_info", code, failure) {
        Err(e) => Err(e),
        Ok(()) => Ok(
            BoardInfo {
                hw_revision: cstr_buf_to_string(hw),
                fw_version: cstr_buf_to_string(fw),
                manufacturer: cstr_buf_to_string(mfr),
                product: cstr_buf_to_string(product),
                serial: cstr_buf_to_string(serial),
            },
        ),
    }
}

/// The devices with the given serials, numbered from zero.
pub open spec fn are_devices(devices: Seq<DevInfo>, serials: Seq<Seq<char>>) -> bool {
    &&& devices.len() == serials.len()
    &&& forall|i: int|
        0 <= i < devices.len() ==> (#[trigger] devices[i]).index == i % 0x1_0000_0000
            && devices[i].serial@ == serials[i]
}

/// What the enumeration call said: `n` is what it returned, `serials` the
/// space-delimited serials it wrote, `failure` the text of its code where `n` is
/// negative. The count is informational: a truncated list is still usable.
pub fn try_list(n: i32, serials: &[u8], failure: String) -> (r: Result<Vec<DevInfo>, Error>)
    ensures
        n < 0 ==> r is Err && r->Err_0 == (Error::Api {
            call: "fobos_rx_list_devices",
            text: failure,
        }),
        n == 0 ==> r is Ok && r->Ok_0@.len() == 0,
        n > 0 ==> r is Ok && are_devices(r->Ok_0@, words(buffer_text(serials@), 0)),
{
    if n < 0 {
        return Err(Error::api("fobos_rx_list_devices", failure));
    }
    let mut devices: Vec<DevInfo> = Vec::new();
    if n == 0 {
        return Ok(devices);
    }
    let text: String = cstr_buf_to_string(serials);
    let chars: Vec<char> = chars_of(text.as_str());
    let mut rest: Vec<Vec<char>> = split_words(&chars);
    let ghost want = words(buffer_text(serials@), 0);
    let ghost all = rest@;
    let mut i: usize = 0;
    let total: usize = rest.len();
    assert(views(all).len() == all.len());
    while i < total
        invariant
            i <= total,
            total == all.len(),
            views(all) == want,
            all.len() == want.len(),
            rest@ == all.skip(i as int),
            are_devices(devices@, want.take(i as int)),
        decreases total - i,
    {
        let w: Vec<char> = rest.remove(0);
        proof {
            assert(w == all[i as int]);
            assert(views(all)[i as int] == w@);
            assert(rest@ =~= all.skip(i + 1));
        }
        let ghost before = devices@;
        devices.push(
            DevInfo { index: (i as u64 % 0x1_0000_0000) as u32, serial: string_of(w) },
        );
        proof {
            assert forall|k: int| 0 <= k < devices@.len() implies (#[trigger] devices@[k]).index
                == k % 0x1_0000_0000 && devices@[k].serial@ == want.take(i + 1)[k] by {
                if k < i {
                    assert(devices@[k] == before[k]);
                    assert(want.take(i as int)[k] == want[k]);
                }
            }
        }
        i = i + 1;
    }
    assert(want.take(want.len() as int) =~= want);
    Ok(devices)
}

/// Whether these are the boards that were found.
pub open spec fn is_list(found: Result<Vec<DevInfo>, Error>, r: Seq<DevInfo>) -> bool {
    match found {
        Ok(d) => r == d@,
        Err(_e) => r.len() == 0,
    }
}

/// The boards that were found. Best-effort: no library and no devices are the
/// same answer to a rescan button.
pub fn list(found: Result<Vec<DevInfo>, Error>) -> (r: Vec<DevInfo>)
    ensures
        found matches Ok(d) ==> r == d,
        found is Err ==> r@.len() == 0,
        is_list(found, r@),
{
    match found {
        Ok(d) => d,
        Err(_e) => Vec::new(),
    }
}

/// The first board with a serial; the length of the list when there is none.
pub open spec fn serial_at(found: Seq<DevInfo>, serial: Seq<char>, from: int) -> int
    decreases found.len() - from,
{
    if from >= found.len() || found[from].serial@ == serial {
        from
    } else {
        serial_at(found, serial, from + 1)
    }
}

/// The board that `want` names: an exact serial match, or the first one when it
/// is blank. Not below the length of the list when there is none.
pub open spec fn wanted_at(found: Seq<DevInfo>, want: Seq<char>) -> int {
    if trimmed(want).len() == 0 {
        0
    } else {
        serial_at(found, trimmed(want), 0)
    }
}

/// The serials with commas between.
pub open spec fn serial_list(found: Seq<DevInfo>) -> Seq<char>
    decreases found.len(),
{
    if found.len() == 0 {
        Seq::empty()
    } else if found.len() == 1 {
        found[0].serial@
    } else {
        serial_list(found.drop_last()) + ", "@ + found.last().serial@
    }
}

/// What the operator is told when there is no such board.
pub open spec fn not_found(found: Seq<DevInfo>, want: Seq<char>) -> Seq<char> {
    if found.len() == 0 {
        "no Fobos SDR found — is one plugged in?"@
    } else {
        "no Fobos SDR matching "@ + quoted_text(want) + " — found: "@ + serial_list(found)
    }
}

fn serials_of(found: &Vec<DevInfo>) -> (r: String)
    ensures
        r@ == serial_list(found@),
{
    let mut s: String = String::new();
    let mut i: usize = 0;
    assert(found@.take(0) =~= Seq::empty());
    while i < found.len()
        invariant
            i <= found@.len(),
            s@ == serial_list(found@.take(i as int)),
        decreases found@.len() - i,
    {
        let ghost next = found@.take(i + 1);
        assert(next.drop_last() =~= found@.take(i as int));
        assert(next.last() == found@[i as int]);
        if i > 0 {
            s.append(", ");
        } else {
            assert(s@ + found@[0].serial@ =~= found@[0].serial@);
        }
        s.append(found[i].serial.as_str());
        i = i + 1;
    }
    assert(found@.take(found@.len() as int) =~= found@);
    s
}

/// Pick the board `want` names: an exact serial match, or the first one found
/// when `want` is blank. The place in the list.
pub fn choose_board(found: &Vec<DevInfo>, want: &str) -> (r: Result<usize, Error>)
    ensures
        r is Ok <==> wanted_at(found@, want@) < found@.len(),
        r matches Ok(i) ==> i == wanted_at(found@, want@),
        r matches Err(e) ==> e is NotFound && e->NotFound_0@ == not_found(found@, want@),
{
    let serial: &str = trim(want);
    let n: usize = found.len();
    let mut i: usize = 0;
    if !serial.is_empty() {
        let wanted: Vec<char> = chars_of(serial);
        while i < n && !same_chars(&chars_of(found[i].serial.as_str()), &wanted)
            invariant
                i <= n,
                n == found@.len(),
                wanted@ == trimmed(want@),
                serial_at(found@, trimmed(want@), 0) == serial_at(
                    found@,
                    trimmed(want@),
                    i as int,
                ),
            decreases n - i,
        {
            i = i + 1;
        }
    }
    if i < n {
        return Ok(i);
    }
    if n == 0 {
        return Err(Error::NotFound(String::from_str("no Fobos SDR found — is one plugged in?")));
    }
    let mut s: String = String::from_str("no Fobos SDR matching ");
    s.append(debug_text(want).as_str());
    s.append(" — found: ");
    s.append(serials_of(found).as_str());
    Err(Error::NotFound(s))
}

/// Whether there is another attempt at opening.
pub open spec fn reopens(opened: bool, attempts: int) -> bool {
    !opened && attempts < 5
}

/// Whether to try opening again: it did not work, and there are attempts left.
pub fn should_reopen(opened: bool, attempts: u32) -> (r: bool)
    ensures
        r == (!opened && attempts < 5),
        r == reopens(opened, attempts as int),
{
    !opened && attempts < REOPEN_ATTEMPTS
}

/// Whether the text of a failure says that another program has the board.
pub open spec fn sounds_busy(text: Seq<char>) -> bool {
    let l = lower(text);
    has_text(l, "busy"@) || has_text(l, "access"@) || has_text(l, "in use"@)
}

/// The error for a board that was found but would not open. The library gives no
/// code of its own for "another program has it", so this is a guess from the
/// text.
pub fn open_error(serial: &str, text: &str) -> (r: Error)
    ensures
        sounds_busy(text@) ==> r is InUse && r->InUse_0@ == serial@,
        !sounds_busy(text@) ==> r is Api && r->call == "fobos_rx_open" && r->text@ == serial@
            + ": "@ + text@,
{
    let chars: Vec<char> = chars_of(text);
    let l: Vec<char> = lowercase(&chars);
    if chars_have(&l, "busy") || chars_have(&l, "access") || chars_have(&l, "in use") {
        return Error::InUse(String::from_str(serial));
    }
    let mut s: String = String::from_str(serial);
    s.append(": ");
    s.append(text);
    Error::api("fobos_rx_open", s)
}

/// The rates reported and the extra ones that are not among them.
pub open spec fn with_extras(reported: Seq<u64>, n: nat) -> Seq<u64>
    decreases n,
{
    if n == 0 {
        reported
    } else {
        let before = with_extras(reported, (n - 1) as nat);
        let extra = EXTRA_HF_RATES_HZ@[n - 1];
        if before.contains(extra) {
            before
        } else {
            before.push(extra)
        }
    }
}

fn has_rate(rates: &Vec<u64>, hz: u64) -> (r: bool)
    ensures
        r == rates@.contains(hz),
{
    let mut i: usize = 0;
    while i < rates.len()
        invariant
            i <= rates@.len(),
            forall|k: int| 0 <= k < i ==> #[trigger] rates@[k] != hz,
        decreases rates@.len() - i,
    {
        if rates[i] == hz {
            assert(rates@[i as int] == hz);
            return true;
        }
        i = i + 1;
    }
    false
}

pub open spec fn ascending(rates: Seq<u64>, n: int) -> bool {
    forall|i: int, j: int| 0 <= i <= j < n ==> #[trigger] rates[i] <= #[trigger] rates[j]
}

/// The sample rates the receiver reports, plus four lower ones for the HF ports,
/// where the requested rate is a target for the downconverter rather than
/// anything the hardware is asked for. In order.
///
/// They are offered on every port, because there is no port to filter by: the
/// operator picks the rate in the same settings tab that picks the port.
///
/// `code` is what the library's call returned and `failure` the text of it; a
/// failed call offers nothing.
pub fn samplerates(code: i32, failure: String, reported: Vec<u64>) -> (r: Result<Vec<u64>, Error>)
    ensures
        code != 0 ==> r == Err::<Vec<u64>, Error>(
            Error::Api { call: "fobos_rx_get_samplerates", text: failure },
        ),
        code == 0 ==> r is Ok && ascending(r->Ok_0@, r->Ok_0@.len() as int)
            && r->Ok_0@.to_multiset() == with_extras(reported@, 4).to_multiset(),
{
    match Error::check("fobos_rx_get_samplerates", code, failure) {
        Err(e) => {
            return Err(e);
        },
        Ok(()) => {},
    }
    let mut rates: Vec<u64> = reported;
    let ghost first = rates@;
    let mut k: usize = 0;
    while k < 4
        invariant
            k <= 4,
            rates@ == with_extras(first, k as nat),
        decreases 4 - k,
    {
        let extra: u64 = EXTRA_HF_RATES_HZ[k];
        if !has_rate(&rates, extra) {
            rates.push(extra);
        }
        k = k + 1;
    }
    sort_rates(&mut rates);
    Ok(rates)
}

fn sort_rates(rates: &mut Vec<u64>)
    ensures
        ascending(final(rates)@, final(rates)@.len() as int),
        final(rates)@.to_multiset() == old(rates)@.to_multiset(),
{
    let mut n: usize = 0;
    while n < rates.len()
        invariant
            n <= rates@.len(),
            ascending(rates@, n as int),
            rates@.to_multiset() == old(rates)@.to_multiset(),
        decreases rates@.len() - n,
    {
        let ghost before = rates@;
        let mut at: usize = 0;
        while at < n && rates[at] <= rates[n]
            invariant
                at <= n < rates@.len(),
                rates@ == before,
                forall|k: int| 0 <= k < at ==> #[trigger] rates@[k] <= rates@[n as int],
            decreases n - at,
        {
            at = at + 1;
        }
        let x: u64 = rates.remove(n);
        let ghost without = rates@;
        rates.insert(at, x);
        proof {
            assert(without =~= before.remove(n as int));
            assert(rates@ =~= without.insert(at as int, x));
            assert(before =~= without.insert(n as int, x));
            vstd::seq_lib::to_multiset_insert(without, at as int, x);
            vstd::seq_lib::to_multiset_insert(without, n as int, x);
            assert forall|i: int, j: int| 0 <= i <= j < n + 1 implies #[trigger] rates@[i]
                <= #[trigger] rates@[j] by {
                let a = if i < at {
                    before[i]
                } else if i == at {
                    x
                } else {
                    before[i - 1]
                };
                let b = if j < at {
                    before[j]
                } else if j == at {
                    x
                } else {
                    before[j - 1]
                };
                assert(rates@[i] == a && rates@[j] == b);
                if i == at && j > at {
                    assert(before[at as int] <= before[j - 1]);
                }
            }
        }
        n = n + 1;
    }
}

/// Every extra rate is on offer, whatever the receiver reports, and nothing
/// that it reports is lost.
pub proof fn the_extra_rates_are_always_offered(reported: Seq<u64>, n: nat, k: int)
    requires
        n <= 4,
        0 <= k < n,
    ensures
        with_extras(reported, n).contains(EXTRA_HF_RATES_HZ@[k]),
        forall|r: u64| #[trigger] reported.contains(r) ==> with_extras(reported, n).contains(r),
    decreases n,
{
    let m = (n - 1) as nat;
    let before = with_extras(reported, m);
    let after = with_extras(reported, n);
    let extra = EXTRA_HF_RATES_HZ@[n - 1];
    if k < m {
        the_extra_rates_are_always_offered(reported, m, k);
    } else if m > 0 {
        the_extra_rates_are_always_offered(reported, m, 0);
    }
    assert forall|r: u64| #[trigger] before.contains(r) implies after.contains(r) by {
        let i = choose|i: int| 0 <= i < before.len() && before[i] == r;
        assert(after[i] == r);
    }
    if !before.contains(extra) {
        assert(after[before.len() as int] == extra);
    }
}

} // verus!
