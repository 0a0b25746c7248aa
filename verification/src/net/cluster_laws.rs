//! What a cluster's lines mean, and what becomes of the spots in them.
use crate::net::cluster::{
    after_marker, cleaned, colon_at, command_lines, core_end, core_start, first_mode, ids_distinct,
    is_dx_line, is_live, is_login_prompt, is_mode, is_spot_freq, is_spot_of, is_time, joined, kept,
    line_cut, line_met, logs_in, mode_of, newline_at, pause_met, says, spot_at, with_spot,
    without_newline, without_time, DxLine, LineAction, Session, Spot,
};
use crate::text::{
    has_text, is_alnum, is_control, is_white, lower, stands_at, trim_end, trimmed, upper, words,
};
use crate::text_laws::{
    is_word, lemma_spaced_words, lemma_trim_end, spaced, trimming_leaves_the_middle,
};
use vstd::prelude::*;

verus! {

// ---------------------------------------------------------------------------
// Modes
// ---------------------------------------------------------------------------

/// The modes that are known.
pub open spec fn mode_names() -> Seq<Seq<char>> {
    seq![
        "FT8"@,
        "FT4"@,
        "FT2"@,
        "CW"@,
        "SSB"@,
        "USB"@,
        "LSB"@,
        "RTTY"@,
        "PSK"@,
        "PSK31"@,
        "JT65"@,
        "JT9"@,
        "FM"@,
        "AM"@,
        "SSTV"@,
        "OLIVIA"@,
        "MFSK"@,
        "JS8"@,
        "WSPR"@,
    ]
}

/// A mode is known by its name.
pub proof fn nineteen_modes_are_known(m: Seq<char>)
    ensures
        is_mode(m) <==> mode_names().contains(m),
{
    let l = mode_names();
    if is_mode(m) {
        assert(l[0] == m || l[1] == m || l[2] == m || l[3] == m || l[4] == m || l[5] == m || l[6]
            == m || l[7] == m || l[8] == m || l[9] == m || l[10] == m || l[11] == m || l[12] == m
            || l[13] == m || l[14] == m || l[15] == m || l[16] == m || l[17] == m || l[18] == m);
    }
    if l.contains(m) {
        let i = choose|i: int| 0 <= i < l.len() && l[i] == m;
        assert(0 <= i < 19);
    }
}

proof fn lemma_core_start(s: Seq<char>, a: int)
    requires
        0 <= a <= s.len(),
        forall|i: int| 0 <= i < a ==> !is_alnum(#[trigger] s[i]),
        a < s.len() ==> is_alnum(s[a]),
    ensures
        core_start(s) == s.skip(a),
    decreases a,
{
    if a > 0 {
        let t = s.drop_first();
        assert forall|i: int| 0 <= i < a - 1 implies !is_alnum(#[trigger] t[i]) by {
            assert(t[i] == s[i + 1]);
        }
        lemma_core_start(t, a - 1);
        assert(t.skip(a - 1) =~= s.skip(a));
    } else {
        assert(s.skip(0) =~= s);
    }
}

proof fn lemma_core_end(s: Seq<char>, b: int)
    requires
        0 <= b <= s.len(),
        forall|i: int| b <= i < s.len() ==> !is_alnum(#[trigger] s[i]),
        b > 0 ==> is_alnum(s[b - 1]),
    ensures
        core_end(s) == s.take(b),
    decreases s.len() - b,
{
    if b < s.len() {
        let t = s.drop_last();
        assert(!is_alnum(s[s.len() - 1]));
        assert forall|i: int| b <= i < t.len() implies !is_alnum(#[trigger] t[i]) by {
            assert(t[i] == s[i]);
        }
        lemma_core_end(t, b);
        assert(t.take(b) =~= s.take(b));
    } else {
        assert(s.take(b) =~= s);
    }
}

/// What a word says of the mode: what stands between its first and its last
/// letter or digit, in upper case.
pub proof fn punctuation_round_a_mode_does_not_matter(w: Seq<char>, a: int, b: int)
    requires
        0 <= a < b <= w.len(),
        forall|i: int| 0 <= i < a || b <= i < w.len() ==> !is_alnum(#[trigger] w[i]),
        is_alnum(w[a]),
        is_alnum(w[b - 1]),
    ensures
        mode_of(w) == upper(w.subrange(a, b)),
{
    lemma_core_start(w, a);
    let t = w.skip(a);
    assert forall|i: int| b - a <= i < t.len() implies !is_alnum(#[trigger] t[i]) by {
        assert(t[i] == w[i + a]);
    }
    assert(t[b - a - 1] == w[b - 1]);
    lemma_core_end(t, b - a);
    assert(t.take(b - a) =~= w.subrange(a, b));
}

proof fn lemma_first_mode(ws: Seq<Seq<char>>, from: int)
    requires
        0 <= from <= ws.len(),
    ensures
        forall|k: int|
            from <= k < ws.len() && is_mode(mode_of(#[trigger] ws[k])) && (forall|j: int|
                from <= j < k ==> !is_mode(mode_of(#[trigger] ws[j]))) ==> first_mode(ws, from)
                == mode_of(ws[k]),
        (forall|k: int| from <= k < ws.len() ==> !is_mode(mode_of(#[trigger] ws[k])))
            ==> first_mode(ws, from).len() == 0,
    decreases ws.len() - from,
{
    if from < ws.len() && !is_mode(mode_of(ws[from])) {
        lemma_first_mode(ws, from + 1);
        assert forall|k: int|
            from <= k < ws.len() && is_mode(mode_of(#[trigger] ws[k])) && (forall|j: int|
                from <= j < k ==> !is_mode(mode_of(#[trigger] ws[j]))) implies first_mode(ws, from)
            == mode_of(ws[k]) by {
            assert(k != from);
        }
    }
}

/// The mode of a comment is the one that its first word that names one names, at
/// whatever place that is.
pub proof fn the_first_word_that_names_a_mode_decides(comment: Seq<char>, k: int)
    requires
        0 <= k < words(comment, 0).len(),
        mode_names().contains(mode_of(words(comment, 0)[k])),
        forall|j: int|
            0 <= j < k ==> !mode_names().contains(mode_of(#[trigger] words(comment, 0)[j])),
    ensures
        first_mode(words(comment, 0), 0) == mode_of(words(comment, 0)[k]),
        first_mode(words(comment, 0), 0).len() > 0,
{
    let ws = words(comment, 0);
    nineteen_modes_are_known(mode_of(ws[k]));
    assert forall|j: int| 0 <= j < k implies !is_mode(mode_of(#[trigger] ws[j])) by {
        nineteen_modes_are_known(mode_of(ws[j]));
    }
    lemma_first_mode(ws, 0);
    lemma_mode_not_empty(mode_of(ws[k]));
}

proof fn lemma_mode_not_empty(m: Seq<char>)
    requires
        is_mode(m),
    ensures
        m.len() > 0,
{
    reveal_strlit("FT8");
    reveal_strlit("FT4");
    reveal_strlit("FT2");
    reveal_strlit("CW");
    reveal_strlit("SSB");
    reveal_strlit("USB");
    reveal_strlit("LSB");
    reveal_strlit("RTTY");
    reveal_strlit("PSK");
    reveal_strlit("PSK31");
    reveal_strlit("JT65");
    reveal_strlit("JT9");
    reveal_strlit("FM");
    reveal_strlit("AM");
    reveal_strlit("SSTV");
    reveal_strlit("OLIVIA");
    reveal_strlit("MFSK");
    reveal_strlit("JS8");
    reveal_strlit("WSPR");
}

/// A comment has no mode only if none of its words names one.
pub proof fn a_mode_is_missed_nowhere(comment: Seq<char>)
    ensures
        first_mode(words(comment, 0), 0).len() == 0 <==> forall|k: int|
            0 <= k < words(comment, 0).len() ==> !mode_names().contains(
                mode_of(#[trigger] words(comment, 0)[k]),
            ),
{
    let ws = words(comment, 0);
    lemma_first_mode(ws, 0);
    assert forall|k: int| 0 <= k < ws.len() implies is_mode(mode_of(#[trigger] ws[k]))
        == mode_names().contains(mode_of(ws[k])) by {
        nineteen_modes_are_known(mode_of(ws[k]));
    }
    if exists|k: int| 0 <= k < ws.len() && is_mode(mode_of(#[trigger] ws[k])) {
        let k = choose|k: int| 0 <= k < ws.len() && is_mode(mode_of(#[trigger] ws[k]));
        lemma_least_mode(ws, k);
    }
}

proof fn lemma_least_mode(ws: Seq<Seq<char>>, k: int)
    requires
        0 <= k < ws.len(),
        is_mode(mode_of(ws[k])),
    ensures
        first_mode(ws, 0).len() > 0,
    decreases k,
{
    if exists|j: int| 0 <= j < k && is_mode(mode_of(#[trigger] ws[j])) {
        let j = choose|j: int| 0 <= j < k && is_mode(mode_of(#[trigger] ws[j]));
        lemma_least_mode(ws, j);
    } else {
        lemma_first_mode(ws, 0);
        lemma_mode_not_empty(mode_of(ws[k]));
    }
}

// ---------------------------------------------------------------------------
// Spot lines
// ---------------------------------------------------------------------------

/// Whether every character means itself in a line.
pub open spec fn is_plain(s: Seq<char>) -> bool {
    forall|i: int| 0 <= i < s.len() ==> !is_control(#[trigger] s[i]) && s[i] != '\u{FFFD}'
}

/// Whether words can stand in a line as they are.
pub open spec fn are_plain_words(ws: Seq<Seq<char>>) -> bool {
    forall|k: int| 0 <= k < ws.len() ==> is_word(#[trigger] ws[k]) && is_plain(ws[k])
}

/// Whether a spotter's name can stand in front of the colon as it is.
pub open spec fn is_name(s: Seq<char>) -> bool {
    &&& s.len() > 0
    &&& is_plain(s)
    &&& !is_white(s[0]) && !is_white(s.last())
    &&& forall|i: int| 0 <= i < s.len() ==> #[trigger] s[i] != ':'
}

/// The line that a node sends for a spot.
pub open spec fn spot_line(
    marker: Seq<char>,
    spotter: Seq<char>,
    ws: Seq<Seq<char>>,
) -> Seq<char> {
    marker + spotter + seq![':'] + spaced(ws)
}

proof fn lemma_spaced_plain(ws: Seq<Seq<char>>)
    requires
        are_plain_words(ws),
    ensures
        is_plain(spaced(ws)),
        ws.len() > 0 ==> spaced(ws).len() > 0 && !is_white(spaced(ws).last()),
    decreases ws.len(),
{
    if ws.len() > 0 {
        let rest = ws.skip(1);
        assert forall|k: int| 0 <= k < rest.len() implies is_word(#[trigger] rest[k]) && is_plain(
            rest[k],
        ) by {
            assert(rest[k] == ws[k + 1]);
        }
        lemma_spaced_plain(rest);
        let w = ws[0];
        assert(is_word(ws[0]) && is_plain(ws[0]));
        let s = spaced(ws);
        assert forall|i: int| 0 <= i < s.len() implies !is_control(#[trigger] s[i]) && s[i]
            != '\u{FFFD}' by {
            if 1 <= i <= w.len() {
                assert(s[i] == w[i - 1]);
            } else if i > w.len() {
                assert(s[i] == spaced(rest)[i - 1 - w.len()]);
            }
        }
        if rest.len() > 0 {
            assert(s.last() == spaced(rest).last());
        } else {
            assert(spaced(rest).len() == 0);
            assert(s.last() == w.last());
            assert(!is_white(w[w.len() - 1]));
        }
    }
}

proof fn lemma_colon(s: Seq<char>, from: int, c: int)
    requires
        0 <= from <= c <= s.len(),
        c < s.len() ==> s[c] == ':',
        forall|i: int| from <= i < c ==> #[trigger] s[i] != ':',
    ensures
        colon_at(s, from) == c,
    decreases c - from,
{
    if from < c {
        lemma_colon(s, from + 1, c);
    }
}

proof fn lemma_after_marker(
    marker: Seq<char>,
    spotter: Seq<char>,
    ws: Seq<Seq<char>>,
    tail: Seq<char>,
)
    requires
        marker == "DX de "@ || marker == "Dx de "@,
        is_name(spotter),
        are_plain_words(ws),
        ws.len() >= 2,
        forall|i: int|
            0 <= i < tail.len() ==> is_control(#[trigger] tail[i]) || is_white(tail[i]) || tail[i]
                == '\u{FFFD}',
    ensures
        after_marker(spot_line(marker, spotter, ws) + tail) == Some(
            spotter + seq![':'] + spaced(ws),
        ),
{
    reveal_strlit("DX de ");
    reveal_strlit("Dx de ");
    lemma_spaced_plain(ws);
    let body = spot_line(marker, spotter, ws);
    let line = body + tail;
    let c = cleaned(line);
    let n = body.len() as int;
    assert(is_word(ws[0]));
    assert forall|i: int| 0 <= i < n implies #[trigger] c[i] == body[i] by {
        assert(c[i] == crate::net::cluster::clean_char(line[i]));
        if i < 6 {
            assert(body[i] == marker[i]);
        } else if i < 6 + spotter.len() {
            assert(body[i] == spotter[i - 6]);
        } else if i > 6 + spotter.len() {
            assert(body[i] == spaced(ws)[i - 7 - spotter.len()]);
        }
    }
    assert forall|i: int| n <= i < c.len() implies is_white(#[trigger] c[i]) by {
        assert(line[i] == tail[i - n]);
        assert(c[i] == crate::net::cluster::clean_char(line[i]));
    }
    assert(c[0] == 'D');
    assert(body.last() == spaced(ws).last());
    assert(c[n - 1] == body[n - 1]);
    trimming_leaves_the_middle(c, 0, n);
    let l = trimmed(c);
    assert(l =~= body);
    assert(l.subrange(0, 6) =~= marker);
    assert(stands_at(l, marker, 0));
    assert(l.skip(6) =~= spotter + seq![':'] + spaced(ws));
}

proof fn lemma_joined_spaced(ws: Seq<Seq<char>>)
    requires
        ws.len() > 0,
    ensures
        seq![' '] + joined(ws) == spaced(ws),
    decreases ws.len(),
{
    reveal_strlit(" ");
    if ws.len() == 1 {
        assert(spaced(ws.skip(1)).len() == 0);
        assert(seq![' '] + joined(ws) =~= spaced(ws));
    } else {
        lemma_joined_spaced(ws.drop_last());
        lemma_spaced_push(ws.drop_last(), ws.last());
        assert(ws.drop_last().push(ws.last()) =~= ws);
        assert(seq![' '] + joined(ws) =~= (seq![' '] + joined(ws.drop_last())) + " "@ + ws.last());
        assert(spaced(ws) =~= spaced(ws.drop_last()) + " "@ + ws.last());
    }
}

proof fn lemma_spaced_push(ws: Seq<Seq<char>>, w: Seq<char>)
    ensures
        spaced(ws.push(w)) == spaced(ws) + seq![' '] + w,
    decreases ws.len(),
{
    let all = ws.push(w);
    if ws.len() == 0 {
        assert(all.skip(1) =~= Seq::empty());
        assert(spaced(all.skip(1)).len() == 0);
        assert(spaced(all) =~= spaced(ws) + seq![' '] + w);
    } else {
        assert(all.skip(1) =~= ws.skip(1).push(w));
        lemma_spaced_push(ws.skip(1), w);
        assert(spaced(all) =~= spaced(ws) + seq![' '] + w);
    }
}

/// Words joined by single spaces are those words.
pub proof fn joined_words_come_apart_again(ws: Seq<Seq<char>>)
    requires
        forall|k: int| 0 <= k < ws.len() ==> is_word(#[trigger] ws[k]),
    ensures
        words(joined(ws), 0) == ws,
{
    if ws.len() == 0 {
        assert(words(joined(ws), 0) =~= ws);
    } else {
        lemma_joined_spaced(ws);
        lemma_spaced_words(Seq::empty(), ws);
        assert(Seq::<char>::empty() + spaced(ws) =~= spaced(ws));
        let s = spaced(ws);
        let t = joined(ws);
        assert(s[0] == ' ');
        assert(words(s, 0) == words(s, 1));
        lemma_words_shift(seq![' '], t, 0);
    }
}

proof fn lemma_word_end_shift(pre: Seq<char>, t: Seq<char>, i: int)
    requires
        0 <= i <= t.len(),
    ensures
        crate::text::word_end(pre + t, pre.len() + i) == pre.len() + crate::text::word_end(t, i),
    decreases t.len() - i,
{
    if i < t.len() && !is_white(t[i]) {
        lemma_word_end_shift(pre, t, i + 1);
    }
}

proof fn lemma_words_shift(pre: Seq<char>, t: Seq<char>, i: int)
    requires
        0 <= i <= t.len(),
    ensures
        words(pre + t, pre.len() + i) == words(t, i),
    decreases t.len() - i,
{
    let s = pre + t;
    if i < t.len() {
        if is_white(t[i]) {
            lemma_words_shift(pre, t, i + 1);
        } else {
            crate::text::lemma_word_end(t, i + 1);
            lemma_word_end_shift(pre, t, i + 1);
            let j = crate::text::word_end(t, i + 1);
            lemma_words_shift(pre, t, j);
            assert(s.subrange(pre.len() + i, pre.len() + j) =~= t.subrange(i, j));
        }
    }
}

/// A spot line is read back as it was put together, whoever spotted whom where and
/// whatever was said of it, with or without a time at its end and whatever control
/// characters and white space follow.
pub proof fn a_spot_line_is_read_back(
    marker: Seq<char>,
    spotter: Seq<char>,
    freq: Seq<char>,
    call: Seq<char>,
    comment: Seq<Seq<char>>,
    time: Option<Seq<char>>,
    tail: Seq<char>,
    d: DxLine,
)
    requires
        marker == "DX de "@ || marker == "Dx de "@,
        is_name(spotter),
        are_plain_words(seq![freq, call] + comment),
        time matches Some(t) ==> is_plain(t) && is_time(t),
        time is None && comment.len() > 0 ==> !is_time(comment.last()),
        forall|i: int|
            0 <= i < tail.len() ==> is_control(#[trigger] tail[i]) || is_white(tail[i]) || tail[i]
                == '\u{FFFD}',
        ({
            let ws = seq![freq, call] + comment + (match time {
                Some(t) => seq![t],
                None => Seq::empty(),
            });
            says(spot_line(marker, spotter, ws) + tail, d)
        }),
    ensures
        ({
            let ws = seq![freq, call] + comment + (match time {
                Some(t) => seq![t],
                None => Seq::empty(),
            });
            is_dx_line(spot_line(marker, spotter, ws) + tail)
        }),
        d.spotter@ == upper(spotter),
        d.freq_khz@ == freq,
        d.call@ == upper(call),
        words(d.comment@, 0) == comment,
        d.comment@ == joined(comment),
        d.mode@ == first_mode(comment, 0),
{
    let stamp = match time {
        Some(t) => seq![t],
        None => Seq::empty(),
    };
    let head = seq![freq, call] + comment;
    let ws = head + stamp;
    assert forall|k: int| 0 <= k < ws.len() implies is_word(#[trigger] ws[k]) && is_plain(
        ws[k],
    ) by {
        if k < head.len() {
            assert(ws[k] == head[k]);
        } else {
            let t = time->0;
            assert(ws[k] == t);
            assert forall|i: int| 0 <= i < t.len() implies !is_white(#[trigger] t[i]) by {
                if i < t.len() - 1 {
                    assert(crate::text::is_digit(t[i]));
                } else {
                    assert(t[i] == t.last());
                }
            }
        }
    }
    lemma_after_marker(marker, spotter, ws, tail);
    let line = spot_line(marker, spotter, ws) + tail;
    let rest = spotter + seq![':'] + spaced(ws);
    let c = spotter.len() as int;
    assert forall|i: int| 0 <= i < c implies #[trigger] rest[i] != ':' by {
        assert(rest[i] == spotter[i]);
    }
    lemma_colon(rest, 0, c);
    assert(rest.take(c) =~= spotter);
    assert(spotter.subrange(0, c) =~= spotter);
    trimming_leaves_the_middle(spotter, 0, c);
    assert(rest.skip(c + 1) =~= spaced(ws));
    lemma_spaced_words(Seq::empty(), ws);
    assert(Seq::<char>::empty() + spaced(ws) =~= spaced(ws));
    assert(words(rest.skip(c + 1), 0) == ws);
    assert(ws[0] == freq && ws[1] == call);
    let tail_words = ws.skip(2);
    assert(tail_words =~= comment + stamp);
    assert(without_time(tail_words) =~= comment) by {
        if time is Some {
            assert(tail_words.last() == time->0);
        } else if comment.len() > 0 {
            assert(tail_words.last() == comment.last());
        }
    }
    assert forall|k: int| 0 <= k < comment.len() implies is_word(#[trigger] comment[k]) by {
        assert(head[k + 2] == comment[k]);
    }
    joined_words_come_apart_again(comment);
}

/// A line without the marker, or without a colon, or with fewer than two words
/// behind it, is no spot.
pub proof fn what_is_no_spot_line_is_refused(line: Seq<char>)
    ensures
        is_dx_line(line) ==> {
            let l = trimmed(cleaned(line));
            &&& stands_at(l, "DX de "@, 0) || stands_at(l, "Dx de "@, 0)
            &&& exists|c: int| 6 <= c < l.len() && #[trigger] l[c] == ':' && words(l.skip(c + 1), 0).len() >= 2
        },
{
    if is_dx_line(line) {
        reveal_strlit("DX de ");
        reveal_strlit("Dx de ");
        let l = trimmed(cleaned(line));
        let rest = l.skip(6);
        lemma_colon_found(rest, 0);
        let c = colon_at(rest, 0);
        assert(rest[c] == l[c + 6]);
        assert(rest.skip(c + 1) =~= l.skip(c + 7));
        assert(l[c + 6] == ':');
    }
}

proof fn lemma_colon_found(s: Seq<char>, from: int)
    requires
        0 <= from <= s.len(),
    ensures
        from <= colon_at(s, from) <= s.len(),
        colon_at(s, from) < s.len() ==> s[colon_at(s, from)] == ':',
    decreases s.len() - from,
{
    if from < s.len() && s[from] != ':' {
        lemma_colon_found(s, from + 1);
    }
}

/// A time is three or more digits and a `Z`.
pub proof fn a_time_is_digits_and_a_z(t: Seq<char>)
    ensures
        is_time(t) <==> t.len() >= 4 && t[t.len() - 1] == 'Z' && forall|i: int|
            0 <= i < t.len() - 1 ==> '0' <= #[trigger] t[i] && t[i] <= '9',
{
}

/// A spot has a frequency from 1 kHz to 1.5 GHz.
pub proof fn a_spot_is_between_1_khz_and_1500_mhz(khz: u64)
    requires
        khz <= 0xFFFF_FFFF,
    ensures
        is_spot_freq((khz * 1_000_000) as u64) <==> 1 <= khz <= 1_500_000,
{
}

// ---------------------------------------------------------------------------
// Logging in
// ---------------------------------------------------------------------------

/// Whether a prompt is one does not depend on its case.
pub proof fn a_prompt_is_known_in_any_case(s: Seq<char>)
    ensures
        is_login_prompt(upper(s)) == is_login_prompt(s),
        is_login_prompt(lower(s)) == is_login_prompt(s),
{
    assert(lower(upper(s)) =~= lower(s));
    assert(lower(lower(s)) =~= lower(s));
}

/// What asks for the callsign, wherever in what the node says it stands.
pub proof fn a_prompt_is_known_by_its_words(pre: Seq<char>, post: Seq<char>)
    ensures
        is_login_prompt(pre + "login"@ + post),
        is_login_prompt(pre + "enter your call"@ + post),
        is_login_prompt(pre + "please enter"@ + post),
        is_login_prompt(pre + "callsign"@ + post),
        (forall|i: int| 0 <= i < post.len() ==> is_white(#[trigger] post[i])) ==> is_login_prompt(
            pre + "call:"@ + post,
        ),
{
    reveal_strlit("login");
    reveal_strlit("enter your call");
    reveal_strlit("please enter");
    reveal_strlit("callsign");
    reveal_strlit("call:");
    assert(lower("login"@) =~= "login"@);
    lemma_stands(pre, "login"@, post);
    assert(lower("enter your call"@) =~= "enter your call"@);
    lemma_stands(pre, "enter your call"@, post);
    assert(lower("please enter"@) =~= "please enter"@);
    lemma_stands(pre, "please enter"@, post);
    assert(lower("callsign"@) =~= "callsign"@);
    lemma_stands(pre, "callsign"@, post);
    assert(lower("call:"@) =~= "call:"@);
    lemma_stands(pre, "call:"@, post);
    if forall|i: int| 0 <= i < post.len() ==> is_white(#[trigger] post[i]) {
        let s = pre + "call:"@ + post;
        let l = lower(s);
        let b = pre.len() + 5;
        assert forall|i: int| b <= i < l.len() implies is_white(#[trigger] l[i]) by {
            assert(s[i] == post[i - b]);
        }
        assert(s[b - 1] == ':');
        lemma_trim_end(l, b as int);
        assert(l.take(b as int).subrange(pre.len() as int, b as int) =~= l.subrange(
            pre.len() as int,
            b as int,
        ));
    }
}

proof fn lemma_stands(pre: Seq<char>, pat: Seq<char>, post: Seq<char>)
    requires
        lower(pat) == pat,
    ensures
        stands_at(lower(pre + pat + post), pat, pre.len() as int),
{
    let s = pre + pat + post;
    let l = lower(s);
    let n = pre.len() as int;
    assert(l.subrange(n, n + pat.len()) =~= pat) by {
        assert forall|i: int| 0 <= i < pat.len() implies l[n + i] == pat[i] by {
            assert(s[n + i] == pat[i]);
            assert(lower(pat)[i] == pat[i]);
        }
    }
}

/// What has none of those words is no prompt.
pub proof fn what_asks_for_nothing_is_no_prompt(s: Seq<char>)
    requires
        forall|p: int, q: int|
            0 <= p <= q <= s.len() ==> {
                let part = #[trigger] lower(s).subrange(p, q);
                part != "login"@ && part != "enter your call"@ && part != "please enter"@ && part
                    != "callsign"@ && part != "call:"@
            },
    ensures
        !is_login_prompt(s),
{
    let l = lower(s);
    if is_login_prompt(s) {
        let t = trim_end(l);
        if has_text(l, "login"@) {
            let at = choose|at: int| stands_at(l, "login"@, at);
            assert(l.subrange(at, at + "login"@.len()) == "login"@);
        } else if has_text(l, "enter your call"@) {
            let at = choose|at: int| stands_at(l, "enter your call"@, at);
            assert(l.subrange(at, at + "enter your call"@.len()) == "enter your call"@);
        } else if has_text(l, "please enter"@) {
            let at = choose|at: int| stands_at(l, "please enter"@, at);
            assert(l.subrange(at, at + "please enter"@.len()) == "please enter"@);
        } else if has_text(l, "callsign"@) {
            let at = choose|at: int| stands_at(l, "callsign"@, at);
            assert(l.subrange(at, at + "callsign"@.len()) == "callsign"@);
        } else {
            let n = "call:"@.len() as int;
            lemma_trim_end_prefix(l);
            let at = t.len() - n;
            assert(t.subrange(at, at + n) =~= l.subrange(at, at + n));
        }
    }
}

proof fn lemma_trim_end_prefix(s: Seq<char>)
    ensures
        trim_end(s).len() <= s.len(),
        trim_end(s) == s.take(trim_end(s).len() as int),
    decreases s.len(),
{
    if s.len() > 0 && is_white(s.last()) {
        lemma_trim_end_prefix(s.drop_last());
        assert(s.drop_last().take(trim_end(s).len() as int) =~= s.take(trim_end(s).len() as int));
    } else {
        assert(s.take(s.len() as int) =~= s);
    }
}

/// How many of the first `n` commands are not blank.
pub open spec fn commands_before(commands: Seq<Seq<char>>, n: int) -> nat
    decreases n,
{
    if n <= 0 {
        0
    } else {
        commands_before(commands, n - 1) + (if trimmed(commands[n - 1]).len() > 0 {
            1nat
        } else {
            0nat
        })
    }
}

proof fn lemma_commands_take(commands: Seq<Seq<char>>, shorter: Seq<Seq<char>>, n: int)
    requires
        n <= shorter.len() <= commands.len(),
        forall|k: int| 0 <= k < shorter.len() ==> shorter[k] == commands[k],
    ensures
        commands_before(commands, n) == commands_before(shorter, n),
    decreases n,
{
    if n > 0 {
        lemma_commands_take(commands, shorter, n - 1);
    }
}

/// Each command that is not blank goes out on a line of its own, trimmed, in its
/// place; the blank ones do not.
pub proof fn each_command_goes_out_once(commands: Seq<Seq<char>>, k: int)
    requires
        0 <= k < commands.len(),
    ensures
        command_lines(commands).len() == commands_before(commands, commands.len() as int),
        trimmed(commands[k]).len() > 0 ==> commands_before(commands, k) < command_lines(
            commands,
        ).len() && command_lines(commands)[commands_before(commands, k) as int] == trimmed(
            commands[k],
        ) + "\r\n"@,
    decreases commands.len(),
{
    let n = commands.len() as int;
    let rest = commands.drop_last();
    lemma_commands_take(commands, rest, n - 1);
    if rest.len() > 0 {
        each_command_goes_out_once(
            rest,
            if k < n - 1 {
                k
            } else {
                0
            },
        );
    }
    if k < n - 1 {
        lemma_commands_take(commands, rest, k);
    }
}

// ---------------------------------------------------------------------------
// Lines and spots
// ---------------------------------------------------------------------------

proof fn lemma_newline(s: Seq<char>, from: int, c: int)
    requires
        0 <= from <= c <= s.len(),
        c < s.len() ==> s[c] == '\n',
        forall|i: int| from <= i < c ==> #[trigger] s[i] != '\n',
    ensures
        newline_at(s, from) == c,
    decreases c - from,
{
    if from < c {
        lemma_newline(s, from + 1, c);
    }
}

/// What was received is cut at its first newline; the line is what stands before
/// it, without a carriage return, and what comes after stays.
pub proof fn a_line_ends_at_the_first_newline(line: Seq<char>, rest: Seq<char>)
    requires
        forall|i: int| 0 <= i < line.len() ==> #[trigger] line[i] != '\n' && line[i] != '\r',
    ensures
        ({
            let buf = line + seq!['\n'] + rest;
            &&& newline_at(buf, 0) == line.len()
            &&& without_newline(buf.take(newline_at(buf, 0) + 1)) == line
            &&& buf.skip(newline_at(buf, 0) + 1) == rest
        }),
        ({
            let buf = line + seq!['\r', '\n'] + rest;
            &&& newline_at(buf, 0) == line.len() + 1
            &&& without_newline(buf.take(newline_at(buf, 0) + 1)) == line
            &&& buf.skip(newline_at(buf, 0) + 1) == rest
        }),
        newline_at(line, 0) == line.len(),
{
    let n = line.len() as int;
    let a = line + seq!['\n'] + rest;
    assert forall|i: int| 0 <= i < n implies #[trigger] a[i] != '\n' by {
        assert(a[i] == line[i]);
    }
    lemma_newline(a, 0, n);
    lemma_newline(line, 0, n);
    let p = a.take(n + 1);
    assert(p.drop_last() =~= line);
    assert(without_newline(line) == line) by {
        if n > 0 {
            assert(line.last() == line[n - 1]);
        }
    }
    assert(a.skip(n + 1) =~= rest);
    let b = line + seq!['\r', '\n'] + rest;
    assert forall|i: int| 0 <= i < n + 1 implies #[trigger] b[i] != '\n' by {
        if i < n {
            assert(b[i] == line[i]);
        }
    }
    lemma_newline(b, 0, n + 1);
    let q = b.take(n + 2);
    assert(q.last() == '\n');
    assert(q.drop_last().last() == '\r');
    assert(q.drop_last().drop_last() =~= line);
    assert(without_newline(q) == without_newline(q.drop_last()));
    assert(b.skip(n + 2) =~= rest);
}

proof fn lemma_spot_found(spots: Seq<Spot>, id: u64, from: int)
    requires
        0 <= from <= spots.len(),
    ensures
        from <= spot_at(spots, id, from) <= spots.len(),
        spot_at(spots, id, from) < spots.len() ==> spots[spot_at(spots, id, from)].id == id,
        forall|k: int| from <= k < spot_at(spots, id, from) ==> (#[trigger] spots[k]).id != id,
    decreases spots.len() - from,
{
    if from < spots.len() && spots[from].id != id {
        lemma_spot_found(spots, id, from + 1);
    }
}

/// A spot takes the place of the one with its id, or goes to the end where there
/// is none; the others stay as and where they are.
pub proof fn a_spot_takes_the_place_of_its_own(spots: Seq<Spot>, spot: Spot, i: int)
    requires
        ids_distinct(spots),
        0 <= i < spots.len(),
    ensures
        with_spot(spots, spot)[i] == (if spots[i].id == spot.id {
            spot
        } else {
            spots[i]
        }),
        spots[i].id == spot.id ==> with_spot(spots, spot).len() == spots.len(),
{
    lemma_spot_found(spots, spot.id, 0);
}

/// A spot with a new id goes to the end.
pub proof fn a_new_spot_goes_to_the_end(spots: Seq<Spot>, spot: Spot)
    requires
        forall|i: int| 0 <= i < spots.len() ==> (#[trigger] spots[i]).id != spot.id,
    ensures
        with_spot(spots, spot) == spots.push(spot),
{
    lemma_spot_found(spots, spot.id, 0);
}

/// A spot is kept for an hour.
pub proof fn a_spot_is_kept_for_an_hour(s: Spot, now: i64)
    ensures
        is_live(s, now) <==> now < s.when_utc + 60 * 60,
{
}

proof fn lemma_filter_all(spots: Seq<Spot>, f: spec_fn(Spot) -> bool)
    requires
        forall|i: int| 0 <= i < spots.len() ==> f(#[trigger] spots[i]),
    ensures
        spots.filter(f) == spots,
    decreases spots.len(),
{
    reveal(Seq::filter);
    if spots.len() > 0 {
        let rest = spots.drop_last();
        assert forall|i: int| 0 <= i < rest.len() implies f(#[trigger] rest[i]) by {
            assert(rest[i] == spots[i]);
        }
        lemma_filter_all(rest, f);
        assert(f(spots[spots.len() - 1]));
        assert(rest.push(spots.last()) =~= spots);
    }
}

/// What is kept: spots of the list that are less than an hour old, at most 400 of
/// them; all of those if there are no more, and otherwise the last 400 of them.
pub proof fn the_list_keeps_the_last_hour(spots: Seq<Spot>, now: i64)
    ensures
        kept(spots, now).len() <= 400,
        forall|i: int|
            0 <= i < kept(spots, now).len() ==> spots.contains(#[trigger] kept(spots, now)[i])
                && now < kept(spots, now)[i].when_utc + 3600,
        ({
            let live = spots.filter(|s: Spot| now < s.when_utc + 3600);
            &&& live.len() <= 400 ==> kept(spots, now) == live
            &&& live.len() > 400 ==> kept(spots, now) == live.subrange(
                live.len() - 400,
                live.len() as int,
            )
        }),
        spots.len() <= 400 && (forall|i: int|
            0 <= i < spots.len() ==> now < (#[trigger] spots[i]).when_utc + 3600) ==> kept(
            spots,
            now,
        ) == spots,
{
    let f = |s: Spot| is_live(s, now);
    let g = |s: Spot| now < s.when_utc + 3600;
    assert(f =~= g);
    let live = spots.filter(f);
    assert forall|i: int| 0 <= i < live.len() implies spots.contains(#[trigger] live[i]) && f(
        live[i],
    ) by {
        spots.lemma_filter_pred(f, i);
        spots.lemma_filter_contains_rev(f, live[i]);
    }
    if forall|i: int| 0 <= i < spots.len() ==> now < (#[trigger] spots[i]).when_utc + 3600 {
        lemma_filter_all(spots, f);
    }
    assert(live.len() > 400 ==> kept(spots, now) =~= live.subrange(
        live.len() - 400,
        live.len() as int,
    ));
}

/// A spot holds what its line said, under the id, the frequency and the time that
/// were given; a line with no frequency that a spot can have gives none.
pub proof fn a_spot_holds_what_its_line_said(
    d: DxLine,
    id: u64,
    freq_mhz: Option<u64>,
    now: i64,
    spot: Option<Spot>,
)
    requires
        is_spot_of(d, id, freq_mhz, now, spot),
    ensures
        spot matches Some(s) ==> s.call == d.call && s.spotter == d.spotter && s.mode == d.mode
            && s.comment == d.comment && s.id == id && s.when_utc == now && freq_mhz == Some(
            s.freq_mhz,
        ),
        freq_mhz is None ==> spot is None,
        freq_mhz matches Some(f) ==> (spot is Some <==> f >= 1_000_000 && f <= 1_500_000_000_000),
{
}

// ---------------------------------------------------------------------------
// The session
// ---------------------------------------------------------------------------

/// The callsign goes out first, then each command that is not blank, in order; with
/// no callsign nothing does.
pub proof fn the_callsign_goes_out_first(
    login: Seq<char>,
    commands: Seq<Seq<char>>,
    lines: Seq<Seq<char>>,
    k: int,
)
    requires
        logs_in(login, commands, lines),
        0 <= k < commands.len(),
    ensures
        trimmed(login).len() == 0 ==> lines.len() == 0,
        trimmed(login).len() > 0 ==> lines.len() == 1 + commands_before(
            commands,
            commands.len() as int,
        ) && lines[0] == trimmed(login) + "\r\n"@,
        trimmed(login).len() > 0 && trimmed(commands[k]).len() > 0 ==> lines[1int
            + commands_before(commands, k)] == trimmed(commands[k]) + "\r\n"@,
{
    each_command_goes_out_once(commands, k);
}

/// What was received comes out line by line, with either ending; what has no ending
/// yet stays.
pub proof fn what_was_received_comes_out_line_by_line(
    was: Session,
    got: Option<String>,
    after: Session,
    line: Seq<char>,
    rest: Seq<char>,
)
    requires
        line_cut(was, got, after),
        forall|i: int| 0 <= i < line.len() ==> #[trigger] line[i] != '\n' && line[i] != '\r',
    ensures
        was.buf@ == line + seq!['\n'] + rest ==> got is Some && got->0@ == line && after.buf@
            == rest,
        was.buf@ == line + seq!['\r', '\n'] + rest ==> got is Some && got->0@ == line && after.buf@
            == rest,
        was.buf@ == line ==> got is None && after.buf@ == line,
        after.logged_in == was.logged_in,
{
    a_line_ends_at_the_first_newline(line, rest);
}

/// The first prompt is answered with the callsign, and no other one is; a line that
/// is no prompt to answer is a spot or nothing.
pub proof fn the_callsign_is_sent_once(
    a: Session,
    b: Session,
    c: Session,
    first: Seq<char>,
    second: Seq<char>,
    x: LineAction,
    y: LineAction,
)
    requires
        line_met(a, first, x, b),
        line_met(b, second, y, c),
    ensures
        !a.logged_in && is_login_prompt(first) ==> x is Login,
        x is Login ==> !(y is Login) && c.logged_in,
        a.logged_in ==> !(x is Login) && !(y is Login),
        !is_login_prompt(first) ==> !(x is Login) && b.logged_in == a.logged_in,
        x is Login && is_dx_line(second) ==> y is Spot && says(second, y->Spot_0),
        !is_login_prompt(first) && is_dx_line(first) ==> x is Spot && says(first, x->Spot_0),
        !is_dx_line(first) ==> !(x is Spot),
        b.buf@ == a.buf@,
{
}

/// A prompt without a newline is answered in a pause and is then done with; after
/// two seconds the callsign goes out in any case, and it never goes out twice.
pub proof fn a_pause_sends_the_callsign(
    a: Session,
    b: Session,
    c: Session,
    elapsed_ms: u64,
    later_ms: u64,
    send: bool,
    again: bool,
)
    requires
        pause_met(a, elapsed_ms, send, b),
        pause_met(b, later_ms, again, c),
    ensures
        !a.logged_in && is_login_prompt(a.buf@) ==> send && b.buf@.len() == 0,
        !a.logged_in && elapsed_ms > 2000 ==> send,
        !is_login_prompt(a.buf@) ==> b.buf@ == a.buf@ && (send ==> elapsed_ms > 2000),
        send ==> !a.logged_in && b.logged_in && !again && c.buf@ == b.buf@,
        a.logged_in ==> !send && b.buf@ == a.buf@,
{
}

} // verus!
