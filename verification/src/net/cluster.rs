//! DX-cluster spot lines: logging in to a node, parsing `DX de ..` lines and
//! keeping the rolling list of spots.
use crate::text::{
    char_is_alnum, char_is_control, chars_at, chars_have, chars_of, from_utf8_lossy, has_text,
    is_alnum, is_control, is_digit, lossy_text, lower, lowercase, part, same_chars, split_words,
    stands_at, string_of, trim, trim_chars, trim_end, trimmed, upper, uppercase, views, words,
};
use vstd::prelude::*;

verus! {

/// How long a cluster spot stays in the rolling list.
pub const SPOT_TTL_SECS: i64 = 3600;

/// Cap on retained spots.
pub const MAX_SPOTS: usize = 400;

/// How long to wait for a login prompt before sending the callsign anyway.
pub const LOGIN_FALLBACK_MS: u64 = 2000;

/// Whether a text ends with another.
pub open spec fn ends_with(s: Seq<char>, tail: Seq<char>) -> bool {
    stands_at(s, tail, s.len() - tail.len())
}

/// Whether what a node says looks like a login prompt.
pub open spec fn is_login_prompt(s: Seq<char>) -> bool {
    let l = lower(s);
    has_text(l, "login"@) || has_text(l, "enter your call"@) || has_text(l, "please enter"@)
        || has_text(l, "callsign"@) || ends_with(trim_end(l), "call:"@)
}

/// Whether what a node says looks like a login prompt.
pub fn wants_login(s: &str) -> (r: bool)
    ensures
        r == is_login_prompt(s@),
{
    let chars: Vec<char> = chars_of(s);
    let l: Vec<char> = lowercase(&chars);
    if chars_have(&l, "login") || chars_have(&l, "enter your call") || chars_have(
        &l,
        "please enter",
    ) || chars_have(&l, "callsign") {
        return true;
    }
    let mut to: usize = l.len();
    assert(l@.take(to as int) =~= l@);
    while to > 0 && crate::text::char_is_white(l[to - 1])
        invariant
            to <= l@.len(),
            trim_end(l@) == trim_end(l@.take(to as int)),
        decreases to,
    {
        let ghost t = l@.take(to as int);
        to = to - 1;
        assert(t.drop_last() =~= l@.take(to as int));
    }
    let kept: Vec<char> = part(&l, 0, to);
    assert(kept@ =~= trim_end(l@));
    let tail: Vec<char> = chars_of("call:");
    kept.len() >= tail.len() && chars_at(&kept, &tail, kept.len() - tail.len())
}

/// Whether these are the lines that log a callsign in.
pub open spec fn logs_in(
    login: Seq<char>,
    commands: Seq<Seq<char>>,
    lines: Seq<Seq<char>>,
) -> bool {
    if trimmed(login).len() == 0 {
        lines.len() == 0
    } else {
        lines == seq![trimmed(login) + "\r\n"@] + command_lines(commands)
    }
}

/// The lines to send at a node's prompt: the callsign, then any post-login
/// commands. Nothing when there is no callsign to log in with.
pub fn login_lines(login: &str, commands: &Vec<String>) -> (r: Vec<String>)
    ensures
        trimmed(login@).len() == 0 ==> r@.len() == 0,
        trimmed(login@).len() > 0 ==> string_views(r@) == seq![trimmed(login@) + "\r\n"@]
            + command_lines(string_views(commands@)),
        logs_in(login@, string_views(commands@), string_views(r@)),
{
    let mut out: Vec<String> = Vec::new();
    let call: &str = trim(login);
    if call.is_empty() {
        return out;
    }
    let mut first: String = String::from_str(call);
    first.append("\r\n");
    out.push(first);
    let ghost head = seq![trimmed(login@) + "\r\n"@];
    assert(string_views(out@) =~= head);
    let ghost cmds = string_views(commands@);
    let mut i: usize = 0;
    assert(command_lines(cmds.take(0)) =~= Seq::empty());
    assert(string_views(out@) =~= head + command_lines(cmds.take(0)));
    while i < commands.len()
        invariant
            i <= commands@.len(),
            cmds == string_views(commands@),
            string_views(out@) == head + command_lines(cmds.take(i as int)),
        decreases commands@.len() - i,
    {
        let c: &str = trim(commands[i].as_str());
        let ghost before = out@;
        let ghost next = cmds.take(i + 1);
        assert(next.drop_last() =~= cmds.take(i as int));
        assert(next.last() == commands@[i as int]@);
        if !c.is_empty() {
            let mut line: String = String::from_str(c);
            line.append("\r\n");
            let ghost lv = line@;
            out.push(line);
            assert(string_views(out@) =~= string_views(before).push(lv));
            assert(string_views(out@) =~= head + command_lines(next));
        }
        i = i + 1;
    }
    assert(cmds.take(cmds.len() as int) =~= cmds);
    out
}

/// The contents of each string.
pub open spec fn string_views(v: Seq<String>) -> Seq<Seq<char>> {
    v.map_values(|s: String| s@)
}

/// The lines for the commands that are not blank, in order.
pub open spec fn command_lines(commands: Seq<Seq<char>>) -> Seq<Seq<char>>
    decreases commands.len(),
{
    if commands.len() == 0 {
        Seq::empty()
    } else {
        let before = command_lines(commands.drop_last());
        let c = trimmed(commands.last());
        if c.len() == 0 {
            before
        } else {
            before.push(c + "\r\n"@)
        }
    }
}

// ---------------------------------------------------------------------------
// Spot lines
// ---------------------------------------------------------------------------

/// A character of a spot line: control characters and the replacement
/// character count as spaces.
pub open spec fn clean_char(c: char) -> char {
    if is_control(c) || c == '\u{FFFD}' {
        ' '
    } else {
        c
    }
}

pub open spec fn cleaned(line: Seq<char>) -> Seq<char> {
    line.map_values(|c: char| clean_char(c))
}

/// The first colon; the length when there is none.
pub open spec fn colon_at(s: Seq<char>, from: int) -> int
    decreases s.len() - from,
{
    if from >= s.len() || s[from] == ':' {
        from
    } else {
        colon_at(s, from + 1)
    }
}

/// A token that states a time, like "1230Z".
pub open spec fn is_time(t: Seq<char>) -> bool {
    t.len() >= 4 && t.last() == 'Z' && forall|i: int|
        0 <= i < t.len() - 1 ==> is_digit(#[trigger] t[i])
}

/// The tokens without a time at the end.
pub open spec fn without_time(toks: Seq<Seq<char>>) -> Seq<Seq<char>> {
    if toks.len() > 0 && is_time(toks.last()) {
        toks.drop_last()
    } else {
        toks
    }
}

/// The tokens with one space between each two.
pub open spec fn joined(toks: Seq<Seq<char>>) -> Seq<char>
    decreases toks.len(),
{
    if toks.len() == 0 {
        Seq::empty()
    } else if toks.len() == 1 {
        toks[0]
    } else {
        joined(toks.drop_last()) + " "@ + toks.last()
    }
}

/// The characters without those at both ends that are no letter or digit.
pub open spec fn core_start(s: Seq<char>) -> Seq<char>
    decreases s.len(),
{
    if s.len() > 0 && !is_alnum(s[0]) {
        core_start(s.drop_first())
    } else {
        s
    }
}

pub open spec fn core_end(s: Seq<char>) -> Seq<char>
    decreases s.len(),
{
    if s.len() > 0 && !is_alnum(s.last()) {
        core_end(s.drop_last())
    } else {
        s
    }
}

/// The modes that a comment can name.
pub open spec fn is_mode(m: Seq<char>) -> bool {
    m == "FT8"@ || m == "FT4"@ || m == "FT2"@ || m == "CW"@ || m == "SSB"@ || m == "USB"@
        || m == "LSB"@ || m == "RTTY"@ || m == "PSK"@ || m == "PSK31"@ || m == "JT65"@
        || m == "JT9"@ || m == "FM"@ || m == "AM"@ || m == "SSTV"@ || m == "OLIVIA"@
        || m == "MFSK"@ || m == "JS8"@ || m == "WSPR"@
}

/// What a comment token says of the mode: its letters and digits in upper
/// case.
pub open spec fn mode_of(tok: Seq<char>) -> Seq<char> {
    upper(core_end(core_start(tok)))
}

/// The first mode that the tokens from `from` on name; nothing when none does.
pub open spec fn first_mode(toks: Seq<Seq<char>>, from: int) -> Seq<char>
    decreases toks.len() - from,
{
    if from >= toks.len() {
        Seq::empty()
    } else if is_mode(mode_of(toks[from])) {
        mode_of(toks[from])
    } else {
        first_mode(toks, from + 1)
    }
}

fn is_text(chars: &Vec<char>, text: &str) -> (r: bool)
    ensures
        r == (chars@ == text@),
{
    let t: Vec<char> = chars_of(text);
    same_chars(chars, &t)
}

fn chars_are_mode(m: &Vec<char>) -> (r: bool)
    ensures
        r == is_mode(m@),
{
    is_text(m, "FT8") || is_text(m, "FT4") || is_text(m, "FT2") || is_text(m, "CW")
        || is_text(m, "SSB") || is_text(m, "USB") || is_text(m, "LSB") || is_text(m, "RTTY")
        || is_text(m, "PSK") || is_text(m, "PSK31") || is_text(m, "JT65") || is_text(m, "JT9")
        || is_text(m, "FM") || is_text(m, "AM") || is_text(m, "SSTV") || is_text(m, "OLIVIA")
        || is_text(m, "MFSK") || is_text(m, "JS8") || is_text(m, "WSPR")
}

fn core_of(chars: &Vec<char>) -> (r: Vec<char>)
    ensures
        r@ == core_end(core_start(chars@)),
{
    let n: usize = chars.len();
    let mut from: usize = 0;
    assert(chars@.subrange(0, n as int) =~= chars@);
    while from < n && !char_is_alnum(chars[from])
        invariant
            from <= n,
            n == chars@.len(),
            core_start(chars@) == core_start(chars@.subrange(from as int, n as int)),
        decreases n - from,
    {
        let ghost t = chars@.subrange(from as int, n as int);
        from = from + 1;
        assert(t.drop_first() =~= chars@.subrange(from as int, n as int));
    }
    let mut to: usize = n;
    assert(core_start(chars@) == chars@.subrange(from as int, n as int));
    while to > from && !char_is_alnum(chars[to - 1])
        invariant
            from <= to <= n,
            n == chars@.len(),
            core_end(core_start(chars@)) == core_end(chars@.subrange(from as int, to as int)),
        decreases to,
    {
        let ghost t = chars@.subrange(from as int, to as int);
        to = to - 1;
        assert(t.drop_last() =~= chars@.subrange(from as int, to as int));
    }
    part(chars, from, to)
}

/// Pull a mode token out of a spot comment, if present.
pub fn detect_mode(comment: &str) -> (r: String)
    ensures
        r@ == first_mode(words(comment@, 0), 0),
{
    let chars: Vec<char> = chars_of(comment);
    let toks: Vec<Vec<char>> = split_words(&chars);
    let ghost tv = words(comment@, 0);
    let mut i: usize = 0;
    while i < toks.len()
        invariant
            i <= toks@.len(),
            views(toks@) == tv,
            tv == words(comment@, 0),
            first_mode(tv, 0) == first_mode(tv, i as int),
        decreases toks@.len() - i,
    {
        assert(tv[i as int] == toks@[i as int]@);
        let core: Vec<char> = core_of(&toks[i]);
        let up: Vec<char> = uppercase(&core);
        if chars_are_mode(&up) {
            return string_of(up);
        }
        i = i + 1;
    }
    String::new()
}

/// A `DX de ..` line taken apart. The frequency is still text.
#[derive(Clone, Debug)]
pub struct DxLine {
    pub spotter: String,
    /// The frequency in kHz, as the node wrote it.
    pub freq_khz: String,
    pub call: String,
    pub comment: String,
    pub mode: String,
}

/// What stands after the `DX de ` of a spot line.
pub open spec fn after_marker(line: Seq<char>) -> Option<Seq<char>> {
    let l = trimmed(cleaned(line));
    if stands_at(l, "DX de "@, 0) || stands_at(l, "Dx de "@, 0) {
        Some(l.skip(6))
    } else {
        None
    }
}

/// Whether a line has the shape of a spot:
/// `DX de <spotter>: <freq_khz> <dxcall> <comment...> <time>`.
pub open spec fn is_dx_line(line: Seq<char>) -> bool {
    match after_marker(line) {
        None => false,
        Some(rest) => {
            let c = colon_at(rest, 0);
            c < rest.len() && words(rest.skip(c + 1), 0).len() >= 2
        },
    }
}

/// What a spot line says.
pub open spec fn says(line: Seq<char>, d: DxLine) -> bool {
    let rest = after_marker(line)->0;
    let c = colon_at(rest, 0);
    let toks = words(rest.skip(c + 1), 0);
    let comment = joined(without_time(toks.skip(2)));
    &&& d.spotter@ == upper(trimmed(rest.take(c)))
    &&& d.freq_khz@ == toks[0]
    &&& d.call@ == upper(toks[1])
    &&& d.comment@ == comment
    &&& d.mode@ == first_mode(words(comment, 0), 0)
}

fn token_is_time(t: &Vec<char>) -> (r: bool)
    ensures
        r == is_time(t@),
{
    let n: usize = t.len();
    if n < 4 || t[n - 1] != 'Z' {
        return false;
    }
    let mut i: usize = 0;
    while i < n - 1
        invariant
            4 <= n == t@.len(),
            i <= n - 1,
            forall|k: int| 0 <= k < i ==> is_digit(#[trigger] t@[k]),
        decreases n - i,
    {
        if !('0' <= t[i] && t[i] <= '9') {
            assert(!is_digit(t@[i as int]));
            return false;
        }
        i = i + 1;
    }
    true
}

/// Tokens `from..to` with one space between each two.
fn join(toks: &Vec<Vec<char>>, from: usize, to: usize) -> (r: Vec<char>)
    requires
        from <= to <= toks@.len(),
    ensures
        r@ == joined(views(toks@).subrange(from as int, to as int)),
{
    let mut out: Vec<char> = Vec::new();
    let ghost tv = views(toks@);
    let mut i: usize = from;
    assert(joined(tv.subrange(from as int, from as int)) =~= Seq::empty());
    while i < to
        invariant
            from <= i <= to <= toks@.len(),
            tv == views(toks@),
            out@ == joined(tv.subrange(from as int, i as int)),
        decreases to - i,
    {
        let ghost before = out@;
        let ghost sofar = tv.subrange(from as int, i as int);
        let ghost next = tv.subrange(from as int, i + 1);
        assert(next.drop_last() =~= sofar);
        assert(next.last() == toks@[i as int]@);
        if i > from {
            out.push(' ');
        }
        let w: &Vec<char> = &toks[i];
        let ghost spaced = out@;
        let mut k: usize = 0;
        assert(w@.take(0) =~= Seq::empty());
        assert(out@ =~= spaced + w@.take(0));
        while k < w.len()
            invariant
                k <= w@.len(),
                out@ == spaced + w@.take(k as int),
            decreases w@.len() - k,
        {
            out.push(w[k]);
            k = k + 1;
            assert(out@ =~= spaced + w@.take(k as int));
        }
        proof {
            reveal_strlit(" ");
            assert(" "@ =~= seq![' ']);
            assert(w@.take(w@.len() as int) =~= w@);
            if i > from {
                assert(spaced =~= before + " "@);
            } else {
                assert(next =~= seq![w@]);
                assert(out@ =~= w@);
            }
        }
        i = i + 1;
    }
    out
}

fn clean(line: &str) -> (r: Vec<char>)
    ensures
        r@ == cleaned(line@),
{
    let chars: Vec<char> = chars_of(line);
    let mut out: Vec<char> = Vec::new();
    let mut i: usize = 0;
    while i < chars.len()
        invariant
            i <= chars@.len(),
            out.len() == i,
            forall|k: int| 0 <= k < i ==> #[trigger] out@[k] == clean_char(chars@[k]),
        decreases chars@.len() - i,
    {
        let c: char = chars[i];
        out.push(
            if char_is_control(c) || c == '\u{FFFD}' {
                ' '
            } else {
                c
            },
        );
        i = i + 1;
    }
    assert(out@ =~= cleaned(line@));
    out
}

/// Parse a `DX de <spotter>: <freq_khz> <dxcall> <comment...> <time>` line.
///
/// Cluster nodes append alert BEL bytes (and occasionally other control or
/// non-UTF-8 bytes) to spot lines; they count as spaces so they don't show as
/// tofu and don't glue onto the trailing time token.
pub fn parse_dx_line(line: &str) -> (r: Option<DxLine>)
    ensures
        r is Some <==> is_dx_line(line@),
        r matches Some(d) ==> says(line@, d),
{
    let all: Vec<char> = clean(line);
    let l: Vec<char> = trim_chars(&all);
    proof {
        reveal_strlit("DX de ");
        reveal_strlit("Dx de ");
    }
    let marked: bool = chars_at(&l, &chars_of("DX de "), 0) || chars_at(&l, &chars_of("Dx de "), 0);
    if !marked {
        return None;
    }
    let rest: Vec<char> = part(&l, 6, l.len());
    assert(rest@ =~= l@.skip(6));
    let n: usize = rest.len();
    let mut c: usize = 0;
    while c < n && rest[c] != ':'
        invariant
            c <= n,
            n == rest@.len(),
            colon_at(rest@, 0) == colon_at(rest@, c as int),
        decreases n - c,
    {
        c = c + 1;
    }
    if c == n {
        return None;
    }
    let spotter: Vec<char> = uppercase(&trim_chars(&part(&rest, 0, c)));
    assert(rest@.subrange(0, c as int) =~= rest@.take(c as int));
    let after: Vec<char> = part(&rest, c + 1, n);
    assert(after@ =~= rest@.skip(c + 1));
    let toks: Vec<Vec<char>> = split_words(&after);
    let ghost tv = words(after@, 0);
    assert(views(toks@).len() == toks@.len());
    if toks.len() < 2 {
        return None;
    }
    assert(tv[0] == toks@[0]@ && tv[1] == toks@[1]@);
    let mut to: usize = toks.len();
    if to > 2 && token_is_time(&toks[to - 1]) {
        to = to - 1;
    }
    proof {
        let tail = tv.skip(2);
        if toks@.len() > 2 {
            assert(tail.last() == toks@[toks@.len() - 1]@);
        }
        assert(without_time(tail) =~= tv.subrange(2, to as int));
    }
    assert(toks@[0]@.subrange(0, toks@[0]@.len() as int) =~= toks@[0]@);
    let comment: String = string_of(join(&toks, 2, to));
    let mode: String = detect_mode(comment.as_str());
    Some(
        DxLine {
            spotter: string_of(spotter),
            freq_khz: string_of(part(&toks[0], 0, toks[0].len())),
            call: string_of(uppercase(&toks[1])),
            comment,
            mode,
        },
    )
}

// ---------------------------------------------------------------------------
// The rolling list
// ---------------------------------------------------------------------------

/// A station spotted by the cluster.
#[derive(Clone, Debug, PartialEq, Eq)]
pub struct Spot {
    /// Names the station on its frequency: the same call on about the same
    /// frequency has the same id.
    pub id: u64,
    pub freq_mhz: u64,
    pub call: String,
    pub spotter: String,
    pub mode: String,
    pub comment: String,
    pub when_utc: i64,
}

/// Whether a frequency, in millihertz, is one that a spot can have: 1 kHz to
/// 1.5 GHz.
pub open spec fn is_spot_freq(freq_mhz: u64) -> bool {
    1_000_000 <= freq_mhz <= 1_500_000_000_000
}

/// Whether this is the spot of a line, if it states one.
pub open spec fn is_spot_of(
    d: DxLine,
    id: u64,
    freq_mhz: Option<u64>,
    now: i64,
    spot: Option<Spot>,
) -> bool {
    &&& spot is Some <==> freq_mhz is Some && is_spot_freq(freq_mhz->0)
    &&& spot matches Some(s) ==> s == (Spot {
        id,
        freq_mhz: freq_mhz->0,
        call: d.call,
        spotter: d.spotter,
        mode: d.mode,
        comment: d.comment,
        when_utc: now,
    })
}

impl DxLine {
    /// The spot that the line states, heard at `now`. `freq_mhz` is the
    /// line's frequency in millihertz, `None` where it is no number. `None`
    /// when the line states no frequency that a spot can have.
    pub fn spot(self, id: u64, freq_mhz: Option<u64>, now: i64) -> (r: Option<Spot>)
        ensures
            r is Some <==> freq_mhz is Some && is_spot_freq(freq_mhz->0),
            r matches Some(s) ==> {
                &&& s.id == id
                &&& s.freq_mhz == freq_mhz->0
                &&& s.call == self.call
                &&& s.spotter == self.spotter
                &&& s.mode == self.mode
                &&& s.comment == self.comment
                &&& s.when_utc == now
            },
            is_spot_of(self, id, freq_mhz, now, r),
    {
        match freq_mhz {
            None => None,
            Some(f) => if f < 1_000_000 || f > 1_500_000_000_000 {
                None
            } else {
                Some(
                    Spot {
                        id,
                        freq_mhz: f,
                        call: self.call,
                        spotter: self.spotter,
                        mode: self.mode,
                        comment: self.comment,
                        when_utc: now,
                    },
                )
            },
        }
    }
}

/// The first spot with an id; the length of the list when there is none.
pub open spec fn spot_at(spots: Seq<Spot>, id: u64, from: int) -> int
    decreases spots.len() - from,
{
    if from >= spots.len() || spots[from].id == id {
        from
    } else {
        spot_at(spots, id, from + 1)
    }
}

/// The list with a spot put in: over the one with its id, or at the end.
pub open spec fn with_spot(spots: Seq<Spot>, spot: Spot) -> Seq<Spot> {
    let i = spot_at(spots, spot.id, 0);
    if i < spots.len() {
        spots.update(i, spot)
    } else {
        spots.push(spot)
    }
}

/// Insert or update a spot (dedup by id: same call on about the same freq
/// refreshes).
pub fn merge_spot(spots: &mut Vec<Spot>, spot: Spot)
    ensures
        final(spots)@ == with_spot(old(spots)@, spot),
{
    let mut i: usize = 0;
    while i < spots.len()
        invariant
            i <= spots@.len(),
            spots@ == old(spots)@,
            spot_at(spots@, spot.id, 0) == spot_at(spots@, spot.id, i as int),
        decreases spots@.len() - i,
    {
        if spots[i].id == spot.id {
            spots.set(i, spot);
            return;
        }
        i = i + 1;
    }
    spots.push(spot);
}

/// No id occurs twice.
pub open spec fn ids_distinct(spots: Seq<Spot>) -> bool {
    forall|i: int, j: int|
        0 <= i < spots.len() && 0 <= j < spots.len() && i != j ==> spots[i].id != spots[j].id
}

proof fn lemma_spot_at(spots: Seq<Spot>, id: u64, from: int)
    requires
        0 <= from <= spots.len(),
    ensures
        from <= spot_at(spots, id, from) <= spots.len(),
        spot_at(spots, id, from) < spots.len() ==> spots[spot_at(spots, id, from)].id == id,
        forall|k: int| from <= k < spot_at(spots, id, from) ==> #[trigger] spots[k].id != id,
    decreases spots.len() - from,
{
    if from < spots.len() && spots[from].id != id {
        lemma_spot_at(spots, id, from + 1);
    }
}

/// Putting spots in never makes an id occur twice.
pub proof fn merging_keeps_ids_distinct(spots: Seq<Spot>, spot: Spot)
    requires
        ids_distinct(spots),
    ensures
        ids_distinct(with_spot(spots, spot)),
{
    lemma_spot_at(spots, spot.id, 0);
}

/// Whether a spot is still recent enough to keep.
pub open spec fn is_live(s: Spot, now: i64) -> bool {
    now - s.when_utc < 3600
}

/// The spots that are kept at `now`: the live ones, and of those the newest
/// 400 in list order.
pub open spec fn kept(spots: Seq<Spot>, now: i64) -> Seq<Spot> {
    let live = spots.filter(|s: Spot| is_live(s, now));
    if live.len() > 400 {
        live.skip(live.len() - 400)
    } else {
        live
    }
}

/// Drop what is too old, and then what is over the cap from the front.
pub fn expire_spots(spots: &mut Vec<Spot>, now: i64)
    ensures
        final(spots)@ == kept(old(spots)@, now),
{
    let ghost whole = spots@;
    let ghost live = |s: Spot| is_live(s, now);
    let mut out: Vec<Spot> = Vec::new();
    // Taken from the back, so that moving one out costs nothing.
    let mut rest: Vec<Spot> = Vec::new();
    std::mem::swap(&mut rest, spots);
    assert(whole.subrange(whole.len() as int, whole.len() as int).filter(live) =~= Seq::empty()) by {
        reveal(Seq::filter);
    }
    while rest.len() > 0
        invariant
            live == (|s: Spot| is_live(s, now)),
            rest@ == whole.take(rest@.len() as int),
            rest@.len() <= whole.len(),
            out@.len() <= 400,
            out@.reverse() == newest(whole.skip(rest@.len() as int).filter(live)),
        decreases rest@.len(),
    {
        let ghost n = rest@.len() as int;
        let ghost tail = whole.skip(n);
        match rest.pop() {
            None => {},
            Some(s) => {
                proof {
                    assert(whole.skip(n - 1) =~= seq![s] + tail);
                    lemma_filter_head(s, tail, live);
                }
                let ghost before = out@;
                if now as i128 - (s.when_utc as i128) < SPOT_TTL_SECS as i128 && out.len()
                    < MAX_SPOTS {
                    out.push(s);
                    assert(out@.reverse() =~= seq![s] + before.reverse());
                }
                proof {
                    let f = tail.filter(live);
                    let g = whole.skip(n - 1).filter(live);
                    if is_live(s, now) {
                        assert(g =~= seq![s] + f);
                    } else {
                        assert(g =~= f);
                    }
                    assert(before.reverse().len() == before.len());
                    assert(out@.reverse() =~= newest(g));
                }
            },
        }
    }
    assert(whole.skip(0) =~= whole);
    let ghost all = out@;
    while out.len() > 0
        invariant
            out@ == all.take(out@.len() as int),
            out@.len() <= all.len(),
            spots@ == all.skip(out@.len() as int).reverse(),
        decreases out@.len(),
    {
        let ghost n = out@.len() as int;
        match out.pop() {
            None => {},
            Some(s) => {
                let ghost before = spots@;
                spots.push(s);
                assert(spots@ =~= all.skip(n - 1).reverse());
            },
        }
    }
    assert(all.skip(0) =~= all);
    assert(spots@ =~= all.reverse());
}

/// The last 400.
pub open spec fn newest(s: Seq<Spot>) -> Seq<Spot> {
    if s.len() > 400 {
        s.skip(s.len() - 400)
    } else {
        s
    }
}

proof fn lemma_filter_head(s: Spot, tail: Seq<Spot>, live: spec_fn(Spot) -> bool)
    ensures
        (seq![s] + tail).filter(live) == (if live(s) {
            seq![s]
        } else {
            Seq::empty()
        }) + tail.filter(live),
    decreases tail.len(),
{
    reveal(Seq::filter);
    let a = seq![s] + tail;
    if tail.len() == 0 {
        assert(a =~= seq![s]);
        assert(a.drop_last() =~= Seq::empty());
        assert(a.filter(live) =~= (if live(s) {
            seq![s]
        } else {
            Seq::empty()
        }) + tail.filter(live));
    } else {
        lemma_filter_head(s, tail.drop_last(), live);
        assert(a.drop_last() =~= seq![s] + tail.drop_last());
        assert(a.last() == tail.last());
        assert(a.filter(live) =~= (if live(s) {
            seq![s]
        } else {
            Seq::empty()
        }) + tail.filter(live));
    }
}

// ---------------------------------------------------------------------------
// The session
// ---------------------------------------------------------------------------

/// A line without the carriage returns and newlines at its end.
pub open spec fn without_newline(s: Seq<char>) -> Seq<char>
    decreases s.len(),
{
    if s.len() > 0 && (s.last() == '\r' || s.last() == '\n') {
        without_newline(s.drop_last())
    } else {
        s
    }
}

/// The first newline; the length when there is none.
pub open spec fn newline_at(s: Seq<char>, from: int) -> int
    decreases s.len() - from,
{
    if from >= s.len() || s[from] == '\n' {
        from
    } else {
        newline_at(s, from + 1)
    }
}

/// What a line asks for.
pub enum LineAction {
    /// The node wants a callsign.
    Login,
    /// A spot.
    Spot(DxLine),
    /// Nothing to do.
    Ignore,
}

/// A connection to a node: what has been received but not yet read, and
/// whether the callsign has been sent.
pub struct Session {
    pub buf: Vec<char>,
    pub logged_in: bool,
}

/// Whether a line was cut from what had been received.
pub open spec fn line_cut(was: Session, line: Option<String>, after: Session) -> bool {
    let at = newline_at(was.buf@, 0);
    &&& line is Some <==> at < was.buf@.len()
    &&& line matches Some(l) ==> l@ == without_newline(was.buf@.take(at + 1)) && after.buf@
        == was.buf@.skip(at + 1)
    &&& line is None ==> after.buf@ == was.buf@
    &&& after.logged_in == was.logged_in
}

/// Whether a line was taken for what it is.
pub open spec fn line_met(
    was: Session,
    line: Seq<char>,
    action: LineAction,
    after: Session,
) -> bool {
    let login = !was.logged_in && is_login_prompt(line);
    &&& action is Login <==> login
    &&& action is Spot <==> !login && is_dx_line(line)
    &&& action matches LineAction::Spot(d) ==> says(line, d)
    &&& after.logged_in == (was.logged_in || login)
    &&& after.buf@ == was.buf@
}

/// Whether a pause was taken for what it is.
pub open spec fn pause_met(was: Session, elapsed_ms: u64, send: bool, after: Session) -> bool {
    let prompt = !was.logged_in && is_login_prompt(was.buf@);
    &&& send == (prompt || !was.logged_in && elapsed_ms > 2000)
    &&& after.logged_in == (was.logged_in || send)
    &&& after.buf@ == (if prompt {
        Seq::empty()
    } else {
        was.buf@
    })
}

impl Session {
    pub fn new() -> (r: Session)
        ensures
            r.buf@.len() == 0,
            !r.logged_in,
    {
        Session { buf: Vec::new(), logged_in: false }
    }

    /// Bytes came in.
    pub fn on_bytes(&mut self, bytes: &[u8])
        ensures
            final(self).buf@ == old(self).buf@ + lossy_text(bytes@),
            final(self).logged_in == old(self).logged_in,
    {
        let text: String = from_utf8_lossy(bytes);
        let chars: Vec<char> = chars_of(text.as_str());
        let ghost before = self.buf@;
        let mut i: usize = 0;
        assert(before + chars@.take(0) =~= before);
        while i < chars.len()
            invariant
                i <= chars@.len(),
                self.buf@ == before + chars@.take(i as int),
                self.logged_in == old(self).logged_in,
            decreases chars@.len() - i,
        {
            self.buf.push(chars[i]);
            i = i + 1;
            assert(self.buf@ =~= before + chars@.take(i as int));
        }
        assert(chars@.take(chars@.len() as int) =~= chars@);
    }

    /// Take out the next complete line (terminated by \n or \r\n).
    pub fn next_line(&mut self) -> (r: Option<String>)
        ensures
            final(self).logged_in == old(self).logged_in,
            ({
                let at = newline_at(old(self).buf@, 0);
                &&& r is Some <==> at < old(self).buf@.len()
                &&& r matches Some(line) ==> {
                    &&& line@ == without_newline(old(self).buf@.take(at + 1))
                    &&& final(self).buf@ == old(self).buf@.skip(at + 1)
                }
                &&& r is None ==> final(self).buf@ == old(self).buf@
            }),
            line_cut(*old(self), r, *final(self)),
    {
        let n: usize = self.buf.len();
        let mut at: usize = 0;
        while at < n && self.buf[at] != '\n'
            invariant
                at <= n,
                n == self.buf@.len(),
                newline_at(self.buf@, 0) == newline_at(self.buf@, at as int),
            decreases n - at,
        {
            at = at + 1;
        }
        if at == n {
            return None;
        }
        let mut to: usize = at + 1;
        let ghost line = self.buf@.take(at + 1);
        assert(line.take(to as int) =~= line);
        while to > 0 && (self.buf[to - 1] == '\r' || self.buf[to - 1] == '\n')
            invariant
                to <= at + 1,
                at < n == self.buf@.len(),
                line == self.buf@.take(at + 1),
                without_newline(line) == without_newline(line.take(to as int)),
            decreases to,
        {
            let ghost t = line.take(to as int);
            to = to - 1;
            assert(t.drop_last() =~= line.take(to as int));
        }
        let text: Vec<char> = part(&self.buf, 0, to);
        assert(text@ =~= line.take(to as int));
        let rest: Vec<char> = part(&self.buf, at + 1, n);
        assert(rest@ =~= self.buf@.skip(at + 1));
        self.buf = rest;
        Some(string_of(text))
    }

    /// What to do about a line. Asking for the callsign is answered once.
    pub fn on_line(&mut self, line: &str) -> (r: LineAction)
        ensures
            final(self).buf@ == old(self).buf@,
            !old(self).logged_in && is_login_prompt(line@) ==> r is Login && final(self).logged_in,
            old(self).logged_in || !is_login_prompt(line@) ==> {
                &&& final(self).logged_in == old(self).logged_in
                &&& is_dx_line(line@) ==> r is Spot && says(line@, r->Spot_0)
                &&& !is_dx_line(line@) ==> r is Ignore
            },
            line_met(*old(self), line@, r, *final(self)),
    {
        if !self.logged_in && wants_login(line) {
            self.logged_in = true;
            return LineAction::Login;
        }
        match parse_dx_line(line) {
            Some(d) => LineAction::Spot(d),
            None => LineAction::Ignore,
        }
    }

    /// Whether to send the callsign now that all complete lines have been
    /// read: a login prompt may arrive without a trailing newline, and some
    /// nodes drop you straight to a prompt, so that after two seconds the call
    /// goes out anyway. `elapsed_ms` is the time since connecting.
    pub fn on_idle(&mut self, elapsed_ms: u64) -> (r: bool)
        ensures
            ({
                let prompt = !old(self).logged_in && is_login_prompt(old(self).buf@);
                &&& r == (!old(self).logged_in && (is_login_prompt(old(self).buf@) || elapsed_ms
                    > 2000))
                &&& final(self).logged_in == (old(self).logged_in || r)
                &&& prompt ==> final(self).buf@.len() == 0
                &&& !prompt ==> final(self).buf@ == old(self).buf@
            }),
            pause_met(*old(self), elapsed_ms, r, *final(self)),
    {
        if self.logged_in {
            return false;
        }
        let seen: String = string_of(part(&self.buf, 0, self.buf.len()));
        assert(seen@ =~= self.buf@);
        if wants_login(seen.as_str()) {
            self.logged_in = true;
            self.buf = Vec::new();
            return true;
        }
        if elapsed_ms > LOGIN_FALLBACK_MS {
            self.logged_in = true;
            return true;
        }
        false
    }
}

} // verus!
