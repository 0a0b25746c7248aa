//! OpenHPSDR device discovery over UDP port 1024: the requests, the answers,
//! and the list of devices they add up to.
//!
//! Both a Protocol 1 and a Protocol 2 request go out, so that every board on
//! the LAN answers and it shows which protocol each speaks.
use crate::text::{
    append_hex2, chars_at, chars_of, dec, decimal, hex2, lemma_lex_total, lemma_lex_transitive,
    lex_le, stands_at, text_le,
};
use vstd::prelude::*;

verus! {

/// Whether this is a Protocol 2 discovery request.
pub open spec fn is_p2_request(d: Seq<u8>) -> bool {
    d == Seq::new(60, |i: int|
        if i == 4 {
            2u8
        } else {
            0u8
        })
}

/// Whether this is a Protocol 1 discovery request.
pub open spec fn is_p1_request(d: Seq<u8>) -> bool {
    d == seq![0xEFu8, 0xFE, 0x02] + Seq::new(60, |i: int| 0u8)
}

/// Whether a radio of this protocol can be driven.
pub open spec fn is_driven(protocol: u8) -> bool {
    protocol == 1 || protocol == 2
}

/// Protocol 2 discovery request: 60 bytes, command `0x02` at offset 4.
pub fn p2_request() -> (r: [u8; 60])
    ensures
        forall|i: int| 0 <= i < 60 ==> #[trigger] r@[i] == (if i == 4 {
            0x02u8
        } else {
            0u8
        }),
        is_p2_request(r@),
{
    let mut b: [u8; 60] = [0;60];
    b[4] = 0x02;
    assert(b@ =~= Seq::new(60, |i: int|
        if i == 4 {
            2u8
        } else {
            0u8
        }));
    b
}

/// Protocol 1 (Metis) discovery request: `0xEF 0xFE 0x02` then padding.
pub fn p1_request() -> (r: [u8; 63])
    ensures
        r@[0] == 0xEF && r@[1] == 0xFE && r@[2] == 0x02,
        forall|i: int| 3 <= i < 63 ==> #[trigger] r@[i] == 0,
        is_p1_request(r@),
{
    let mut b: [u8; 63] = [0;63];
    b[0] = 0xEF;
    b[1] = 0xFE;
    b[2] = 0x02;
    assert(b@ =~= seq![0xEFu8, 0xFE, 0x02] + Seq::new(60, |i: int| 0u8));
    b
}

/// The name of a board that is known.
pub open spec fn known_board(protocol: u8, id: u8) -> Option<Seq<char>> {
    match (protocol, id) {
        (1, 0) => Some("Metis"@),
        (1, 1) => Some("Hermes (ANAN-10/10E/100/100B)"@),
        (1, 2) => Some("Griffin"@),
        (1, 4) => Some("Angelia (ANAN-100D)"@),
        (1, 5) => Some("Orion (ANAN-200D)"@),
        (1, 6) => Some("Hermes-Lite 2"@),
        (1, 10) => Some("Orion 2 (ANAN-7000/8000)"@),
        (2, 0) => Some("Atlas/Metis"@),
        (2, 1) => Some("Hermes (ANAN-10/10E/100/100B)"@),
        (2, 2) => Some("Hermes2"@),
        (2, 3) => Some("Angelia (ANAN-100D)"@),
        (2, 4) => Some("Orion (ANAN-200D)"@),
        (2, 5) => Some("Orion 2 (ANAN-7000/8000)"@),
        (2, 6) => Some("Hermes-Lite 2"@),
        (2, 10) => Some("Saturn (ANAN-G2)"@),
        _ => None,
    }
}

/// The name of a board.
pub open spec fn board(protocol: u8, id: u8) -> Seq<char> {
    match known_board(protocol, id) {
        Some(name) => name,
        None => "HPSDR board "@ + dec(id as nat),
    }
}

/// Map a board-type id to a human name for the given protocol.
///
/// The commercial name is carried alongside the board's own, because the board
/// is what the gateware reports and the radio is what the operator bought.
/// [`board_is_hermes_lite`] matches on the prefix, so only the tail of these
/// ever changes.
pub fn board_name(protocol: u8, id: u8) -> (r: String)
    ensures
        r@ == board(protocol, id),
{
    let name: Option<&'static str> = match (protocol, id) {
        (1, 0) => Some("Metis"),
        (1, 1) => Some("Hermes (ANAN-10/10E/100/100B)"),
        (1, 2) => Some("Griffin"),
        (1, 4) => Some("Angelia (ANAN-100D)"),
        (1, 5) => Some("Orion (ANAN-200D)"),
        (1, 6) => Some("Hermes-Lite 2"),
        (1, 10) => Some("Orion 2 (ANAN-7000/8000)"),
        (2, 0) => Some("Atlas/Metis"),
        (2, 1) => Some("Hermes (ANAN-10/10E/100/100B)"),
        (2, 2) => Some("Hermes2"),
        (2, 3) => Some("Angelia (ANAN-100D)"),
        (2, 4) => Some("Orion (ANAN-200D)"),
        (2, 5) => Some("Orion 2 (ANAN-7000/8000)"),
        (2, 6) => Some("Hermes-Lite 2"),
        (2, 10) => Some("Saturn (ANAN-G2)"),
        _ => None,
    };
    match name {
        Some(n) => String::from_str(n),
        None => {
            let mut s: String = String::from_str("HPSDR board ");
            s.append(decimal(id as u64).as_str());
            s
        },
    }
}

/// Whether a board's name is that of a Hermes-Lite.
pub fn board_is_hermes_lite(name: &str) -> (r: bool)
    ensures
        r == stands_at(name@, "Hermes-Lite"@, 0),
{
    let n: Vec<char> = chars_of(name);
    chars_at(&n, &chars_of("Hermes-Lite"), 0)
}

/// Only the Hermes-Lite answers to its prefix: the commercial names hung on
/// the others do not reach into it.
pub proof fn only_the_hermes_lite_has_its_prefix(protocol: u8, id: u8)
    requires
        protocol == 1 || protocol == 2,
    ensures
        stands_at(board(protocol, id), "Hermes-Lite"@, 0) <==> id == 6,
{
    reveal_strlit("Hermes-Lite");
    reveal_strlit("Metis");
    reveal_strlit("Hermes (ANAN-10/10E/100/100B)");
    reveal_strlit("Griffin");
    reveal_strlit("Angelia (ANAN-100D)");
    reveal_strlit("Orion (ANAN-200D)");
    reveal_strlit("Hermes-Lite 2");
    reveal_strlit("Orion 2 (ANAN-7000/8000)");
    reveal_strlit("Atlas/Metis");
    reveal_strlit("Hermes2");
    reveal_strlit("Saturn (ANAN-G2)");
    reveal_strlit("HPSDR board ");
    let name = board(protocol, id);
    let pre = "Hermes-Lite"@;
    if stands_at(name, pre, 0) {
        assert(name.subrange(0, 11)[6] == name[6]);
        assert(pre[6] == '-');
    } else if id == 6 {
        assert(name.subrange(0, 11) =~= pre);
    }
}

/// Bytes in hexadecimal, with colons between.
pub open spec fn mac_text(m: Seq<u8>) -> Seq<char>
    decreases m.len(),
{
    if m.len() == 0 {
        Seq::empty()
    } else if m.len() == 1 {
        hex2(m[0])
    } else {
        mac_text(m.drop_last()) + ":"@ + hex2(m.last())
    }
}

/// Bytes in hexadecimal, with colons between.
pub fn fmt_mac(m: &[u8]) -> (r: String)
    ensures
        r@ == mac_text(m@),
{
    let mut s: String = String::new();
    let mut i: usize = 0;
    assert(m@.take(0) =~= Seq::empty());
    while i < m.len()
        invariant
            i <= m@.len(),
            s@ == mac_text(m@.take(i as int)),
        decreases m@.len() - i,
    {
        let ghost next = m@.take(i + 1);
        assert(next.drop_last() =~= m@.take(i as int));
        assert(next.last() == m@[i as int]);
        if i > 0 {
            s.append(":");
        } else {
            assert(s@ + hex2(m@[0]) =~= hex2(m@[0]));
        }
        append_hex2(&mut s, m[i]);
        i = i + 1;
    }
    assert(m@.take(m@.len() as int) =~= m@);
    s
}

/// A board that answered.
#[derive(Clone, Debug, PartialEq, Eq)]
pub struct HpsdrDevice {
    pub ip: String,
    pub mac: String,
    pub board: String,
    pub protocol: u8,
    pub in_use: bool,
}

impl HpsdrDevice {
    /// Whether the radio can be driven: both protocols can.
    pub fn supported(&self) -> (r: bool)
        ensures
            r == (self.protocol == 1 || self.protocol == 2),
            r == is_driven(self.protocol),
    {
        self.protocol == 1 || self.protocol == 2
    }
}

/// Where a Protocol 1 answer is recognised: the Metis sync.
pub open spec fn is_p1_answer(pkt: Seq<u8>) -> bool {
    pkt.len() >= 11 && pkt[0] == 0xEF && pkt[1] == 0xFE
}

pub open spec fn is_status(b: u8) -> bool {
    b == 0x02 || b == 0x03
}

/// Whether a datagram is an answer to discovery.
pub open spec fn is_answer(pkt: Seq<u8>) -> bool {
    if is_p1_answer(pkt) {
        is_status(pkt[2])
    } else {
        pkt.len() >= 12 && is_status(pkt[4])
    }
}

/// What an answer says. The address is not in it.
pub open spec fn answers(pkt: Seq<u8>, d: HpsdrDevice) -> bool {
    if is_p1_answer(pkt) {
        &&& d.mac@ == mac_text(pkt.subrange(3, 9))
        &&& d.board@ == board(1, pkt[10])
        &&& d.protocol == 1
        &&& d.in_use == (pkt[2] == 0x03)
    } else {
        &&& d.mac@ == mac_text(pkt.subrange(5, 11))
        &&& d.board@ == board(2, pkt[11])
        &&& d.protocol == 2
        &&& d.in_use == (pkt[4] == 0x03)
    }
}

/// Parse a discovery response. The caller fills in `ip` from the datagram
/// source address.
pub fn parse_response(pkt: &[u8]) -> (r: Option<HpsdrDevice>)
    ensures
        r is Some <==> is_answer(pkt@),
        r matches Some(d) ==> answers(pkt@, d) && d.ip@.len() == 0,
{
    // Protocol 1 responses begin with the Metis sync 0xEF 0xFE.
    if pkt.len() >= 11 && pkt[0] == 0xEF && pkt[1] == 0xFE {
        let status: u8 = pkt[2];
        if status != 0x02 && status != 0x03 {
            return None;
        }
        return Some(
            HpsdrDevice {
                ip: String::new(),
                mac: fmt_mac(vstd::slice::slice_subrange(pkt, 3, 9)),
                board: board_name(1, pkt[10]),
                protocol: 1,
                in_use: status == 0x03,
            },
        );
    }
    // Protocol 2 responses: 4-byte sequence prefix, status at offset 4.
    if pkt.len() >= 12 {
        let status: u8 = pkt[4];
        if status == 0x02 || status == 0x03 {
            return Some(
                HpsdrDevice {
                    ip: String::new(),
                    mac: fmt_mac(vstd::slice::slice_subrange(pkt, 5, 11)),
                    board: board_name(2, pkt[11]),
                    protocol: 2,
                    in_use: status == 0x03,
                },
            );
        }
    }
    None
}

/// The first device with an address; the length of the list when there is
/// none.
pub open spec fn device_at(found: Seq<HpsdrDevice>, ip: Seq<char>, from: int) -> int
    decreases found.len() - from,
{
    if from >= found.len() || found[from].ip@ == ip {
        from
    } else {
        device_at(found, ip, from + 1)
    }
}

/// The list with a device put in: one entry per address, the Protocol 2 answer
/// preferred where a board replies to both requests.
pub open spec fn with_device(found: Seq<HpsdrDevice>, dev: HpsdrDevice) -> Seq<HpsdrDevice> {
    let i = device_at(found, dev.ip@, 0);
    if i >= found.len() {
        found.push(dev)
    } else if dev.protocol > found[i].protocol {
        found.update(i, dev)
    } else {
        found
    }
}

/// Put a device into the list: one entry per address, preferring the Protocol
/// 2 answer if a board replies to both requests.
pub fn merge_device(found: &mut Vec<HpsdrDevice>, dev: HpsdrDevice)
    ensures
        final(found)@ == with_device(old(found)@, dev),
{
    let mut i: usize = 0;
    while i < found.len()
        invariant
            i <= found@.len(),
            found@ == old(found)@,
            device_at(found@, dev.ip@, 0) == device_at(found@, dev.ip@, i as int),
        decreases found@.len() - i,
    {
        if found[i].ip == dev.ip {
            if dev.protocol > found[i].protocol {
                found.set(i, dev);
            }
            return;
        }
        i = i + 1;
    }
    found.push(dev);
}

/// No address occurs twice.
pub open spec fn addresses_distinct(found: Seq<HpsdrDevice>) -> bool {
    forall|i: int, j: int|
        0 <= i < found.len() && 0 <= j < found.len() && i != j ==> found[i].ip@ != found[j].ip@
}

proof fn lemma_device_at(found: Seq<HpsdrDevice>, ip: Seq<char>, from: int)
    requires
        0 <= from <= found.len(),
    ensures
        from <= device_at(found, ip, from) <= found.len(),
        device_at(found, ip, from) < found.len() ==> found[device_at(found, ip, from)].ip@ == ip,
        forall|k: int| from <= k < device_at(found, ip, from) ==> #[trigger] found[k].ip@ != ip,
    decreases found.len() - from,
{
    if from < found.len() && found[from].ip@ != ip {
        lemma_device_at(found, ip, from + 1);
    }
}

/// Putting devices in never makes an address occur twice, and the device of an
/// address never goes back to an older protocol.
pub proof fn merging_keeps_addresses_distinct(found: Seq<HpsdrDevice>, dev: HpsdrDevice)
    requires
        addresses_distinct(found),
    ensures
        addresses_distinct(with_device(found, dev)),
        forall|i: int|
            0 <= i < found.len() ==> (#[trigger] with_device(found, dev)[i]).protocol
                >= found[i].protocol && with_device(found, dev)[i].ip@ == found[i].ip@,
{
    lemma_device_at(found, dev.ip@, 0);
}

/// In order of address.
pub open spec fn in_order(found: Seq<HpsdrDevice>, n: int) -> bool {
    forall|i: int, j: int|
        0 <= i <= j < n ==> lex_le((#[trigger] found[i]).ip@, (#[trigger] found[j]).ip@)
}

/// Sort the devices by address.
pub fn sort_devices(found: &mut Vec<HpsdrDevice>)
    ensures
        in_order(final(found)@, final(found)@.len() as int),
        final(found)@.to_multiset() == old(found)@.to_multiset(),
{
    let mut n: usize = 0;
    while n < found.len()
        invariant
            n <= found@.len(),
            in_order(found@, n as int),
            found@.to_multiset() == old(found)@.to_multiset(),
        decreases found@.len() - n,
    {
        let ghost before = found@;
        // The place among the first `n` for the next one.
        let mut at: usize = 0;
        while at < n && text_le(found[at].ip.as_str(), found[n].ip.as_str())
            invariant
                at <= n < found@.len(),
                found@ == before,
                forall|k: int|
                    0 <= k < at ==> lex_le((#[trigger] found@[k]).ip@, found@[n as int].ip@),
            decreases n - at,
        {
            at = at + 1;
        }
        let dev: HpsdrDevice = found.remove(n);
        let ghost without = found@;
        found.insert(at, dev);
        proof {
            let x = before[n as int];
            assert(without =~= before.remove(n as int));
            assert(found@ =~= without.insert(at as int, x));
            assert(before =~= without.insert(n as int, x));
            vstd::seq_lib::to_multiset_insert(without, at as int, x);
            vstd::seq_lib::to_multiset_insert(without, n as int, x);
            assert forall|i: int, j: int| 0 <= i <= j < n + 1 implies lex_le(
                (#[trigger] found@[i]).ip@,
                (#[trigger] found@[j]).ip@,
            ) by {
                lemma_lex_total(x.ip@, x.ip@);
                if at < n {
                    lemma_lex_total(before[at as int].ip@, x.ip@);
                }
                let a = if i < at {
                    before[i]
                } else if i == at {
                    x
                } else {
                    before[i - 1]
                };
                let b = if j < at {
                    before[j]
                } else if j == at {
                    x
                } else {
                    before[j - 1]
                };
                assert(found@[i] == a && found@[j] == b);
                if i == at && j > at {
                    assert(lex_le(before[at as int].ip@, before[j - 1].ip@));
                    lemma_lex_transitive(x.ip@, before[at as int].ip@, before[j - 1].ip@);
                }
            }
        }
        n = n + 1;
    }
}

/// The addresses to send discovery requests to: the global broadcast and then
/// the directed broadcasts that are new.
pub open spec fn targets(broadcasts: Seq<u32>) -> Seq<u32>
    decreases broadcasts.len(),
{
    if broadcasts.len() == 0 {
        seq![0xFFFF_FFFFu32]
    } else {
        let before = targets(broadcasts.drop_last());
        if before.contains(broadcasts.last()) {
            before
        } else {
            before.push(broadcasts.last())
        }
    }
}

/// Destination addresses to send discovery requests to: the global broadcast
/// plus each local IPv4 interface's directed broadcast, each once.
pub fn broadcast_targets(broadcasts: &Vec<u32>) -> (r: Vec<u32>)
    ensures
        r@ == targets(broadcasts@),
{
    let mut dests: Vec<u32> = Vec::new();
    dests.push(0xFFFF_FFFF);
    assert(broadcasts@.take(0) =~= Seq::empty());
    assert(dests@ =~= seq![0xFFFF_FFFFu32]);
    let mut i: usize = 0;
    while i < broadcasts.len()
        invariant
            i <= broadcasts@.len(),
            dests@ == targets(broadcasts@.take(i as int)),
        decreases broadcasts@.len() - i,
    {
        let d: u32 = broadcasts[i];
        let mut known: bool = false;
        let mut k: usize = 0;
        while k < dests.len()
            invariant
                k <= dests@.len(),
                known == dests@.take(k as int).contains(d),
            decreases dests@.len() - k,
        {
            if dests[k] == d {
                known = true;
            }
            proof {
                let a = dests@.take(k as int);
                let b = dests@.take(k + 1);
                if a.contains(d) {
                    let j = choose|j: int| 0 <= j < a.len() && a[j] == d;
                    assert(b[j] == d);
                }
                if dests@[k as int] == d {
                    assert(b[k as int] == d);
                }
                if b.contains(d) {
                    let j = choose|j: int| 0 <= j < b.len() && b[j] == d;
                    if j < k {
                        assert(a[j] == d);
                    }
                }
            }
            k = k + 1;
        }
        assert(dests@.take(dests@.len() as int) =~= dests@);
        assert(broadcasts@.take(i + 1).drop_last() =~= broadcasts@.take(i as int));
        if !known {
            dests.push(d);
        }
        i = i + 1;
    }
    assert(broadcasts@.take(broadcasts@.len() as int) =~= broadcasts@);
    dests
}

/// The list that replies leave behind, put in one after the other.
pub open spec fn gathered(replies: Seq<HpsdrDevice>) -> Seq<HpsdrDevice>
    decreases replies.len(),
{
    if replies.len() == 0 {
        Seq::empty()
    } else {
        with_device(gathered(replies.drop_last()), replies.last())
    }
}

/// Whether reply `i` is the one that counts for its address: the first of the
/// highest protocol.
pub open spec fn is_best_answer(replies: Seq<HpsdrDevice>, i: int) -> bool {
    &&& 0 <= i < replies.len()
    &&& forall|j: int|
        0 <= j < replies.len() && (#[trigger] replies[j]).ip@ == replies[i].ip@
            ==> replies[j].protocol <= replies[i].protocol && (j < i ==> replies[j].protocol
            < replies[i].protocol)
}

/// Whether a list holds, once for each address that replied, the reply that
/// counts.
pub open spec fn holds_the_best(replies: Seq<HpsdrDevice>, list: Seq<HpsdrDevice>) -> bool {
    &&& addresses_distinct(list)
    &&& forall|k: int|
        0 <= k < list.len() ==> exists|i: int| #[trigger]
            is_best_answer(replies, i) && replies[i] == #[trigger] list[k]
    &&& forall|i: int|
        0 <= i < replies.len() ==> exists|k: int|
            0 <= k < list.len() && (#[trigger] list[k]).ip@ == (#[trigger] replies[i]).ip@
}

proof fn lemma_gathered(replies: Seq<HpsdrDevice>)
    ensures
        holds_the_best(replies, gathered(replies)),
    decreases replies.len(),
{
    if replies.len() > 0 {
        let rest = replies.drop_last();
        let dev = replies.last();
        let n = rest.len() as int;
        let was = gathered(rest);
        let list = gathered(replies);
        lemma_gathered(rest);
        merging_keeps_addresses_distinct(was, dev);
        lemma_device_at(was, dev.ip@, 0);
        let at = device_at(was, dev.ip@, 0);
        assert(forall|j: int| 0 <= j < n ==> #[trigger] replies[j] == rest[j]);
        assert(replies[n] == dev);
        assert forall|k: int| 0 <= k < list.len() implies exists|i: int| #[trigger]
            is_best_answer(replies, i) && replies[i] == #[trigger] list[k] by {
            if k < was.len() && list[k] == was[k] {
                let i = choose|i: int| #[trigger] is_best_answer(rest, i) && rest[i] == was[k];
                assert(replies[i] == rest[i]);
                assert(dev.ip@ == was[k].ip@ ==> k == at);
                assert forall|j: int|
                    0 <= j < replies.len() && (#[trigger] replies[j]).ip@ == replies[i].ip@ implies
                    replies[j].protocol <= replies[i].protocol && (j < i ==> replies[j].protocol
                    < replies[i].protocol) by {
                    if j < n {
                        assert(rest[j].ip@ == rest[i].ip@);
                    }
                }
                assert(is_best_answer(replies, i));
            } else {
                assert(list[k] == dev);
                assert forall|j: int|
                    0 <= j < replies.len() && (#[trigger] replies[j]).ip@ == dev.ip@ implies
                    replies[j].protocol <= dev.protocol && (j < n ==> replies[j].protocol
                    < dev.protocol) by {
                    if j < n {
                        assert(rest[j].ip@ == dev.ip@);
                        let w = choose|w: int|
                            0 <= w < was.len() && (#[trigger] was[w]).ip@ == rest[j].ip@;
                        assert(w == at);
                        let b = choose|b: int| #[trigger]
                            is_best_answer(rest, b) && rest[b] == was[at];
                        assert(rest[j].protocol <= rest[b].protocol);
                    }
                }
                assert(is_best_answer(replies, n));
            }
        }
        assert forall|i: int| 0 <= i < replies.len() implies exists|k: int|
            0 <= k < list.len() && (#[trigger] list[k]).ip@ == (#[trigger] replies[i]).ip@ by {
            if i < n {
                assert(replies[i] == rest[i]);
                let k = choose|k: int|
                    0 <= k < was.len() && (#[trigger] was[k]).ip@ == rest[i].ip@;
                assert(list[k].ip@ == replies[i].ip@);
            } else {
                assert(list[at].ip@ == dev.ip@);
            }
        }
    }
}

/// What a discovery ends as: in order of address, every address that replied once,
/// with the first of its replies of the highest protocol.
pub proof fn discovery_lists_the_best_answer_of_each_address(
    replies: Seq<HpsdrDevice>,
    list: Seq<HpsdrDevice>,
)
    requires
        list.to_multiset() == gathered(replies).to_multiset(),
        in_order(list, list.len() as int),
    ensures
        holds_the_best(replies, list),
        forall|i: int, j: int|
            0 <= i < j < list.len() ==> lex_le((#[trigger] list[i]).ip@, (#[trigger] list[j]).ip@)
                && list[i].ip@ != list[j].ip@,
{
    let g = gathered(replies);
    lemma_gathered(replies);
    broadcast use vstd::seq_lib::group_to_multiset_ensures;

    assert(g.no_duplicates());
    g.lemma_multiset_has_no_duplicates();
    assert(list.no_duplicates()) by {
        assert forall|x: HpsdrDevice| list.to_multiset().contains(x) implies
            list.to_multiset().count(x) == 1 by {}
        list.lemma_multiset_has_no_duplicates_conv();
    }
    assert forall|k: int| 0 <= k < list.len() implies g.contains(#[trigger] list[k]) by {
        assert(list.to_multiset().count(list[k]) > 0);
    }
    assert forall|k: int| 0 <= k < g.len() implies list.contains(#[trigger] g[k]) by {
        assert(g.to_multiset().count(g[k]) > 0);
    }
    assert(addresses_distinct(list)) by {
        assert forall|i: int, j: int|
            0 <= i < list.len() && 0 <= j < list.len() && i != j implies list[i].ip@
            != list[j].ip@ by {
            let a = choose|a: int| 0 <= a < g.len() && g[a] == list[i];
            let b = choose|b: int| 0 <= b < g.len() && g[b] == list[j];
            assert(a != b);
        }
    }
    assert forall|k: int| 0 <= k < list.len() implies exists|i: int| #[trigger]
        is_best_answer(replies, i) && replies[i] == #[trigger] list[k] by {
        let a = choose|a: int| 0 <= a < g.len() && g[a] == list[k];
    }
    assert forall|i: int| 0 <= i < replies.len() implies exists|k: int|
        0 <= k < list.len() && (#[trigger] list[k]).ip@ == (#[trigger] replies[i]).ip@ by {
        let a = choose|a: int| 0 <= a < g.len() && (#[trigger] g[a]).ip@ == replies[i].ip@;
        let k = choose|k: int| 0 <= k < list.len() && list[k] == g[a];
        assert(list[k].ip@ == replies[i].ip@);
    }
}

} // verus!
