//! Text: what std says of strings that the rest of the library builds on.
use vstd::prelude::*;

verus! {

/// What `String::from_utf8_lossy` reads in bytes.
pub uninterp spec fn lossy_text(bytes: Seq<u8>) -> Seq<char>;

/// Wraps `String::from_utf8_lossy`: the text of the bytes, with what is not
/// valid UTF-8 replaced. Valid UTF-8 comes out as it is.
#[verifier::external_body]
pub(crate) fn from_utf8_lossy(bytes: &[u8]) -> (r: String)
    ensures
        r@ == lossy_text(bytes@),
        vstd::utf8::valid_utf8(bytes@) ==> r@ == vstd::utf8::decode_utf8(bytes@),
{
    String::from_utf8_lossy(bytes).into_owned()
}


/// The character of a digit below sixteen.
pub open spec fn digit_char(d: u8) -> char {
    match d {
        0 => '0',
        1 => '1',
        2 => '2',
        3 => '3',
        4 => '4',
        5 => '5',
        6 => '6',
        7 => '7',
        8 => '8',
        9 => '9',
        10 => 'A',
        11 => 'B',
        12 => 'C',
        13 => 'D',
        14 => 'E',
        _ => 'F',
    }
}

/// The digit as a string.
pub fn digit_text(d: u8) -> (r: &'static str)
    requires
        d < 16,
    ensures
        r@ == seq![digit_char(d)],
{
    proof {
        reveal_strlit("0");
        reveal_strlit("1");
        reveal_strlit("2");
        reveal_strlit("3");
        reveal_strlit("4");
        reveal_strlit("5");
        reveal_strlit("6");
        reveal_strlit("7");
        reveal_strlit("8");
        reveal_strlit("9");
        reveal_strlit("A");
        reveal_strlit("B");
        reveal_strlit("C");
        reveal_strlit("D");
        reveal_strlit("E");
        reveal_strlit("F");
    }
    let r: &'static str = match d {
        0 => "0",
        1 => "1",
        2 => "2",
        3 => "3",
        4 => "4",
        5 => "5",
        6 => "6",
        7 => "7",
        8 => "8",
        9 => "9",
        10 => "A",
        11 => "B",
        12 => "C",
        13 => "D",
        14 => "E",
        _ => "F",
    };
    assert(r@ =~= seq![digit_char(d)]);
    r
}

/// A number in decimal.
pub open spec fn dec(n: nat) -> Seq<char>
    decreases n,
{
    if n < 10 {
        seq![digit_char(n as u8)]
    } else {
        dec(n / 10).push(digit_char((n % 10) as u8))
    }
}

/// A number in decimal.
pub fn decimal_wide(n: u128) -> (r: String)
    ensures
        r@ == dec(n as nat),
    decreases n,
{
    if n < 10 {
        String::from_str(digit_text(n as u8))
    } else {
        let mut s: String = decimal_wide(n / 10);
        s.append(digit_text((n % 10) as u8));
        assert(s@ =~= dec(n as nat));
        s
    }
}

/// A number in decimal.
pub fn decimal(n: u64) -> (r: String)
    ensures
        r@ == dec(n as nat),
{
    decimal_wide(n as u128)
}

/// A number in decimal, with its sign where it is negative.
pub open spec fn dec_int(n: int) -> Seq<char> {
    if n < 0 {
        "-"@ + dec((-n) as nat)
    } else {
        dec(n as nat)
    }
}

/// A number in decimal, with its sign where it is negative.
pub fn decimal_i64(n: i64) -> (r: String)
    ensures
        r@ == dec_int(n as int),
{
    if n < 0 {
        let mut s: String = String::from_str("-");
        s.append(decimal((-(n as i128)) as u64).as_str());
        s
    } else {
        decimal(n as u64)
    }
}

/// `a / b` to the nearest whole number, and to the even one of two as near, as a
/// number is rounded when it is printed.
pub open spec fn rounded(a: nat, b: nat) -> nat {
    let (q, r) = (a / b, a % b);
    if 2 * r < b || 2 * r == b && q % 2 == 0 {
        q
    } else {
        q + 1
    }
}

pub fn round_ratio(a: u128, b: u128) -> (r: u128)
    requires
        0 < b <= 0x1000_0000_0000_0000_0000_0000_0000_0000,
    ensures
        r == rounded(a as nat, b as nat),
        r <= a as int / b as int + 1,
{
    let q: u128 = a / b;
    let rest: u128 = a % b;
    proof {
        if b == 1 {
            assert(rest == 0);
        } else {
            let (x, y) = (a as int, b as int);
            assert(x / y <= x / 2) by (nonlinear_arith)
                requires
                    x >= 0,
                    y >= 2,
            ;
        }
    }
    if 2 * rest < b || 2 * rest == b && q % 2 == 0 {
        q
    } else {
        q + 1
    }
}

/// Tenths, as a number with one decimal.
pub open spec fn dec_tenths(n: nat) -> Seq<char> {
    dec(n / 10) + "."@ + dec(n % 10)
}

/// Tenths, as a number with one decimal.
pub fn decimal_tenths(n: u128) -> (r: String)
    ensures
        r@ == dec_tenths(n as nat),
{
    let mut s: String = decimal_wide(n / 10);
    s.append(".");
    s.append(decimal_wide(n % 10).as_str());
    s
}

/// Hundredths, as a number with two decimals.
pub open spec fn dec_hundredths(n: nat) -> Seq<char> {
    dec(n / 100) + "."@ + dec(n / 10 % 10) + dec(n % 10)
}

/// Hundredths, as a number with two decimals.
pub fn decimal_hundredths(n: u64) -> (r: String)
    ensures
        r@ == dec_hundredths(n as nat),
{
    let mut s: String = decimal(n / 100);
    s.append(".");
    s.append(decimal(n / 10 % 10).as_str());
    s.append(decimal(n % 10).as_str());
    s
}

/// Two hexadecimal digits, in upper case.
pub open spec fn hex2(b: u8) -> Seq<char> {
    seq![digit_char((b / 16) as u8), digit_char((b % 16) as u8)]
}

/// Append two hexadecimal digits.
pub fn append_hex2(s: &mut String, b: u8)
    ensures
        final(s)@ == old(s)@ + hex2(b),
{
    let ghost before = s@;
    s.append(digit_text(b / 16));
    s.append(digit_text(b % 16));
    assert(s@ =~= before + hex2(b));
}

/// Whether a character is white space, as Unicode lists it.
pub open spec fn is_white(c: char) -> bool {
    let u = c as u32;
    9 <= u <= 13 || u == 0x20 || u == 0x85 || u == 0xA0 || u == 0x1680 || 0x2000 <= u <= 0x200A || u
        == 0x2028 || u == 0x2029 || u == 0x202F || u == 0x205F || u == 0x3000
}

pub fn char_is_white(c: char) -> (r: bool)
    ensures
        r == is_white(c),
{
    let u: u32 = c as u32;
    (9 <= u && u <= 13) || u == 0x20 || u == 0x85 || u == 0xA0 || u == 0x1680 || (0x2000 <= u && u
        <= 0x200A) || u == 0x2028 || u == 0x2029 || u == 0x202F || u == 0x205F || u == 0x3000
}

/// The text without the white characters at its start.
pub open spec fn trim_start(s: Seq<char>) -> Seq<char>
    decreases s.len(),
{
    if s.len() > 0 && is_white(s[0]) {
        trim_start(s.drop_first())
    } else {
        s
    }
}

/// The text without the white characters at its end.
pub open spec fn trim_end(s: Seq<char>) -> Seq<char>
    decreases s.len(),
{
    if s.len() > 0 && is_white(s.last()) {
        trim_end(s.drop_last())
    } else {
        s
    }
}

/// The text without the white characters at both ends.
pub open spec fn trimmed(s: Seq<char>) -> Seq<char> {
    trim_end(trim_start(s))
}

/// The characters of a string.
pub fn chars_of(s: &str) -> (r: Vec<char>)
    ensures
        r@ == s@,
{
    let mut out: Vec<char> = Vec::new();
    for c in it: s.chars()
        invariant
            it.seq() == s@,
            out@ == s@.take(it.index() as int),
    {
        out.push(c);
        assert(out@ =~= s@.take(it.index() + 1));
    }
    assert(out@ =~= s@);
    out
}

/// The text without the white characters at both ends.
pub fn trim(s: &str) -> (r: &str)
    ensures
        r@ == trimmed(s@),
{
    let chars: Vec<char> = chars_of(s);
    let n: usize = chars.len();
    let mut from: usize = 0;
    assert(s@.subrange(0, n as int) =~= s@);
    while from < n && char_is_white(chars[from])
        invariant
            from <= n,
            n == s@.len(),
            chars@ == s@,
            trim_start(s@) == trim_start(s@.subrange(from as int, n as int)),
        decreases n - from,
    {
        let ghost t = s@.subrange(from as int, n as int);
        from = from + 1;
        assert(t.drop_first() =~= s@.subrange(from as int, n as int));
    }
    let mut to: usize = n;
    assert(trim_start(s@) == s@.subrange(from as int, n as int));
    while to > from && char_is_white(chars[to - 1])
        invariant
            from <= to <= n,
            n == s@.len(),
            chars@ == s@,
            trimmed(s@) == trim_end(s@.subrange(from as int, to as int)),
        decreases to,
    {
        let ghost t = s@.subrange(from as int, to as int);
        to = to - 1;
        assert(t.drop_last() =~= s@.subrange(from as int, to as int));
    }
    s.substring_char(from, to)
}

/// How a text is shown in quotes, with what is not plain escaped.
pub uninterp spec fn quoted_text(s: Seq<char>) -> Seq<char>;

/// Wraps `<str as Debug>::fmt`: the text in double quotes, escaped.
#[verifier::external_body]
pub(crate) fn debug_text(s: &str) -> (r: String)
    ensures
        r@ == quoted_text(s@),
{
    format!("{s:?}")
}

/// Wraps `String::from_iter`: the string of the characters, in order.
#[verifier::external_body]
pub(crate) fn string_of(chars: Vec<char>) -> (r: String)
    ensures
        r@ == chars@,
{
    String::from_iter(chars)
}

/// Whether a character is a control character: Unicode's category Cc.
pub open spec fn is_control(c: char) -> bool {
    let u = c as u32;
    u <= 0x1F || 0x7F <= u <= 0x9F
}

pub fn char_is_control(c: char) -> (r: bool)
    ensures
        r == is_control(c),
{
    let u: u32 = c as u32;
    u <= 0x1F || (0x7F <= u && u <= 0x9F)
}

pub open spec fn is_digit(c: char) -> bool {
    '0' <= c && c <= '9'
}

/// An ASCII letter or digit.
pub open spec fn is_alnum(c: char) -> bool {
    is_digit(c) || ('a' <= c && c <= 'z') || ('A' <= c && c <= 'Z')
}

pub fn char_is_alnum(c: char) -> (r: bool)
    ensures
        r == is_alnum(c),
{
    ('0' <= c && c <= '9') || ('a' <= c && c <= 'z') || ('A' <= c && c <= 'Z')
}

/// An ASCII letter in upper case; any other character as it is.
pub open spec fn upper_char(c: char) -> char {
    if 'a' <= c && c <= 'z' {
        (c as u8 - 32) as u8 as char
    } else {
        c
    }
}

/// An ASCII letter in lower case; any other character as it is.
pub open spec fn lower_char(c: char) -> char {
    if 'A' <= c && c <= 'Z' {
        (c as u8 + 32) as u8 as char
    } else {
        c
    }
}

pub fn to_upper(c: char) -> (r: char)
    ensures
        r == upper_char(c),
{
    if 'a' <= c && c <= 'z' {
        (c as u8 - 32) as char
    } else {
        c
    }
}

pub fn to_lower(c: char) -> (r: char)
    ensures
        r == lower_char(c),
{
    if 'A' <= c && c <= 'Z' {
        (c as u8 + 32) as char
    } else {
        c
    }
}

pub open spec fn upper(s: Seq<char>) -> Seq<char> {
    s.map_values(|c: char| upper_char(c))
}

pub open spec fn lower(s: Seq<char>) -> Seq<char> {
    s.map_values(|c: char| lower_char(c))
}

pub fn uppercase(chars: &Vec<char>) -> (r: Vec<char>)
    ensures
        r@ == upper(chars@),
{
    let mut out: Vec<char> = Vec::new();
    let mut i: usize = 0;
    while i < chars.len()
        invariant
            i <= chars@.len(),
            out.len() == i,
            forall|k: int| 0 <= k < i ==> #[trigger] out@[k] == upper_char(chars@[k]),
        decreases chars@.len() - i,
    {
        out.push(to_upper(chars[i]));
        i = i + 1;
    }
    assert(out@ =~= upper(chars@));
    out
}

pub fn lowercase(chars: &Vec<char>) -> (r: Vec<char>)
    ensures
        r@ == lower(chars@),
{
    let mut out: Vec<char> = Vec::new();
    let mut i: usize = 0;
    while i < chars.len()
        invariant
            i <= chars@.len(),
            out.len() == i,
            forall|k: int| 0 <= k < i ==> #[trigger] out@[k] == lower_char(chars@[k]),
        decreases chars@.len() - i,
    {
        out.push(to_lower(chars[i]));
        i = i + 1;
    }
    assert(out@ =~= lower(chars@));
    out
}

/// Whether `pat` stands in `s` at `at`.
pub open spec fn stands_at(s: Seq<char>, pat: Seq<char>, at: int) -> bool {
    0 <= at && at + pat.len() <= s.len() && s.subrange(at, at + pat.len()) == pat
}

/// Whether `pat` stands somewhere in `s`.
pub open spec fn has_text(s: Seq<char>, pat: Seq<char>) -> bool {
    exists|at: int| stands_at(s, pat, at)
}

/// Whether `pat` stands in the characters at `at`.
pub fn chars_at(chars: &Vec<char>, pat: &Vec<char>, at: usize) -> (r: bool)
    requires
        at <= chars@.len(),
    ensures
        r == stands_at(chars@, pat@, at as int),
{
    if chars.len() - at < pat.len() {
        return false;
    }
    let n: usize = chars.len();
    let mut i: usize = 0;
    while i < pat.len()
        invariant
            i <= pat@.len(),
            at + pat@.len() <= n,
            n == chars@.len(),
            forall|k: int| 0 <= k < i ==> chars@[at + k] == #[trigger] pat@[k],
        decreases pat@.len() - i,
    {
        if chars[at + i] != pat[i] {
            assert(chars@.subrange(at as int, at + pat@.len())[i as int] != pat@[i as int]);
            return false;
        }
        i = i + 1;
    }
    assert(chars@.subrange(at as int, at + pat@.len()) =~= pat@);
    true
}

/// Whether the text stands somewhere in the characters.
pub fn chars_have(chars: &Vec<char>, text: &str) -> (r: bool)
    ensures
        r == has_text(chars@, text@),
{
    let pat: Vec<char> = chars_of(text);
    let mut at: usize = 0;
    loop
        invariant
            at <= chars@.len(),
            pat@ == text@,
            forall|k: int| 0 <= k < at ==> !stands_at(chars@, text@, k),
        decreases chars@.len() - at,
    {
        if chars_at(chars, &pat, at) {
            return true;
        }
        if at == chars.len() {
            return false;
        }
        at = at + 1;
    }
}

/// Whether two character sequences are the same.
pub fn same_chars(a: &Vec<char>, b: &Vec<char>) -> (r: bool)
    ensures
        r == (a@ == b@),
{
    if a.len() != b.len() {
        return false;
    }
    let r: bool = chars_at(a, b, 0);
    assert(a@.subrange(0, b@.len() as int) =~= a@);
    r
}

/// Part of the characters.
pub fn part(chars: &Vec<char>, from: usize, to: usize) -> (r: Vec<char>)
    requires
        from <= to <= chars@.len(),
    ensures
        r@ == chars@.subrange(from as int, to as int),
{
    let mut out: Vec<char> = Vec::new();
    let mut i: usize = from;
    while i < to
        invariant
            from <= i <= to <= chars@.len(),
            out@ == chars@.subrange(from as int, i as int),
        decreases to - i,
    {
        out.push(chars[i]);
        i = i + 1;
        assert(out@ =~= chars@.subrange(from as int, i as int));
    }
    out
}

/// The characters without the white ones at both ends.
pub fn trim_chars(chars: &Vec<char>) -> (r: Vec<char>)
    ensures
        r@ == trimmed(chars@),
{
    let n: usize = chars.len();
    let mut from: usize = 0;
    assert(chars@.subrange(0, n as int) =~= chars@);
    while from < n && char_is_white(chars[from])
        invariant
            from <= n,
            n == chars@.len(),
            trim_start(chars@) == trim_start(chars@.subrange(from as int, n as int)),
        decreases n - from,
    {
        let ghost t = chars@.subrange(from as int, n as int);
        from = from + 1;
        assert(t.drop_first() =~= chars@.subrange(from as int, n as int));
    }
    let mut to: usize = n;
    assert(trim_start(chars@) == chars@.subrange(from as int, n as int));
    while to > from && char_is_white(chars[to - 1])
        invariant
            from <= to <= n,
            n == chars@.len(),
            trimmed(chars@) == trim_end(chars@.subrange(from as int, to as int)),
        decreases to,
    {
        let ghost t = chars@.subrange(from as int, to as int);
        to = to - 1;
        assert(t.drop_last() =~= chars@.subrange(from as int, to as int));
    }
    part(chars, from, to)
}

/// The end of the word that reaches `i`: the next white character, or the end.
pub open spec fn word_end(s: Seq<char>, i: int) -> int
    decreases s.len() - i,
{
    if i < s.len() && !is_white(s[i]) {
        word_end(s, i + 1)
    } else {
        i
    }
}

pub proof fn lemma_word_end(s: Seq<char>, i: int)
    requires
        i <= s.len(),
    ensures
        i <= word_end(s, i) <= s.len(),
    decreases s.len() - i,
{
    if i < s.len() && !is_white(s[i]) {
        lemma_word_end(s, i + 1);
    }
}

/// The words from `i` on, separated by white space.
pub open spec fn words(s: Seq<char>, i: int) -> Seq<Seq<char>>
    decreases s.len() - i,
{
    if i < 0 || i >= s.len() {
        Seq::empty()
    } else if is_white(s[i]) {
        words(s, i + 1)
    } else {
        proof {
            lemma_word_end(s, i + 1);
        }
        let j = word_end(s, i + 1);
        seq![s.subrange(i, j)] + words(s, j)
    }
}

/// The contents of each element.
pub open spec fn views(v: Seq<Vec<char>>) -> Seq<Seq<char>> {
    v.map_values(|w: Vec<char>| w@)
}

/// The words of a text.
pub fn split_words(chars: &Vec<char>) -> (r: Vec<Vec<char>>)
    ensures
        views(r@) == words(chars@, 0),
{
    let n: usize = chars.len();
    let mut out: Vec<Vec<char>> = Vec::new();
    let mut i: usize = 0;
    assert(views(out@) + words(chars@, 0) =~= words(chars@, 0));
    while i < n
        invariant
            i <= n,
            n == chars@.len(),
            views(out@) + words(chars@, i as int) == words(chars@, 0),
        decreases n - i,
    {
        if char_is_white(chars[i]) {
            i = i + 1;
        } else {
            let from: usize = i;
            let mut j: usize = i + 1;
            proof {
                lemma_word_end(chars@, i + 1);
            }
            while j < n && !char_is_white(chars[j])
                invariant
                    from < j <= n,
                    n == chars@.len(),
                    word_end(chars@, from + 1) == word_end(chars@, j as int),
                decreases n - j,
            {
                j = j + 1;
            }
            let ghost before = out@;
            let w: Vec<char> = part(chars, from, j);
            out.push(w);
            proof {
                assert(views(out@) =~= views(before).push(w@));
                assert(words(chars@, from as int) =~= seq![w@] + words(chars@, j as int));
                assert(views(out@) + words(chars@, j as int) =~= views(before) + words(
                    chars@,
                    from as int,
                ));
            }
            i = j;
        }
    }
    assert(views(out@) =~= words(chars@, 0));
    out
}

/// Whether `a` comes before `b`, or is it, character by character.
pub open spec fn lex_le(a: Seq<char>, b: Seq<char>) -> bool
    decreases a.len(),
{
    if a.len() == 0 {
        true
    } else if b.len() == 0 {
        false
    } else if a[0] != b[0] {
        a[0] < b[0]
    } else {
        lex_le(a.drop_first(), b.drop_first())
    }
}

pub proof fn lemma_lex_total(a: Seq<char>, b: Seq<char>)
    ensures
        lex_le(a, b) || lex_le(b, a),
    decreases a.len(),
{
    if a.len() > 0 && b.len() > 0 && a[0] == b[0] {
        lemma_lex_total(a.drop_first(), b.drop_first());
    }
}

pub proof fn lemma_lex_transitive(a: Seq<char>, b: Seq<char>, c: Seq<char>)
    requires
        lex_le(a, b),
        lex_le(b, c),
    ensures
        lex_le(a, c),
    decreases a.len(),
{
    if a.len() > 0 && b.len() > 0 && c.len() > 0 && a[0] == b[0] && b[0] == c[0] {
        lemma_lex_transitive(a.drop_first(), b.drop_first(), c.drop_first());
    }
}

/// Whether `a` comes before `b`, or is it.
pub fn text_le(a: &str, b: &str) -> (r: bool)
    ensures
        r == lex_le(a@, b@),
{
    let x: Vec<char> = chars_of(a);
    let y: Vec<char> = chars_of(b);
    let mut i: usize = 0;
    assert(a@.skip(0) =~= a@ && b@.skip(0) =~= b@);
    while i < x.len() && i < y.len()
        invariant
            i <= x@.len(),
            i <= y@.len(),
            x@ == a@,
            y@ == b@,
            lex_le(a@, b@) == lex_le(a@.skip(i as int), b@.skip(i as int)),
        decreases x@.len() - i,
    {
        if x[i] != y[i] {
            return x[i] < y[i];
        }
        assert(a@.skip(i as int).drop_first() =~= a@.skip(i + 1));
        assert(b@.skip(i as int).drop_first() =~= b@.skip(i + 1));
        i = i + 1;
    }
    i == x.len()
}

} // verus!
