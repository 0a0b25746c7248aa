//! What the text that the library writes and reads stands for.
use crate::text::{
    dec, dec_hundredths, dec_int, dec_tenths, digit_char, has_text, hex2, is_white, lex_le, lower,
    rounded, stands_at, trim_end, trim_start, trimmed, upper, word_end, words,
};
use vstd::prelude::*;

verus! {

/// The number that a digit stands for, by its place in the alphabet of digits:
/// `0` to `9`, then `A` to `F`.
pub open spec fn digit_value(c: char) -> int {
    let u = c as u32;
    if 48 <= u <= 57 {
        u - 48
    } else if 65 <= u <= 70 {
        u - 55
    } else {
        -1
    }
}

pub proof fn lemma_digit_value(d: u8)
    requires
        d < 16,
    ensures
        digit_value(digit_char(d)) == d,
{
}

/// Two hexadecimal digits stand for the byte they were written for.
pub proof fn two_digits_spell_the_byte(b: u8)
    ensures
        hex2(b).len() == 2,
        digit_value(hex2(b)[0]) >= 0 && digit_value(hex2(b)[1]) >= 0,
        16 * digit_value(hex2(b)[0]) + digit_value(hex2(b)[1]) == b,
{
    lemma_digit_value((b / 16) as u8);
    lemma_digit_value((b % 16) as u8);
}

/// The number that decimal digits spell.
pub open spec fn number_of(t: Seq<char>) -> int
    decreases t.len(),
{
    if t.len() == 0 {
        0
    } else {
        10 * number_of(t.drop_last()) + digit_value(t.last())
    }
}

/// A number is written in digits that spell it, with no zero in front.
pub proof fn digits_spell_the_number(n: nat)
    ensures
        dec(n).len() > 0,
        forall|i: int| 0 <= i < dec(n).len() ==> 0 <= digit_value(#[trigger] dec(n)[i]) <= 9,
        number_of(dec(n)) == n,
        dec(n).len() > 1 ==> dec(n)[0] != '0',
        n > 0 ==> dec(n)[0] != '0',
    decreases n,
{
    reveal_with_fuel(number_of, 2);
    lemma_digit_value((n % 10) as u8);
    if n >= 10 {
        digits_spell_the_number(n / 10);
        assert(dec(n).drop_last() =~= dec(n / 10));
        assert forall|i: int| 0 <= i < dec(n).len() implies 0 <= digit_value(#[trigger] dec(n)[i])
            <= 9 by {
            if i < dec(n).len() - 1 {
                assert(dec(n)[i] == dec(n / 10)[i]);
            }
        }
    } else {
        assert(dec(n).drop_last() =~= Seq::empty());
    }
}

/// A negative number is written as its amount behind a minus sign.
pub proof fn a_sign_goes_in_front(n: int)
    ensures
        n >= 0 ==> number_of(dec_int(n)) == n && dec_int(n)[0] != '-',
        n < 0 ==> dec_int(n)[0] == '-' && number_of(dec_int(n).skip(1)) == -n,
{
    reveal_strlit("-");
    if n < 0 {
        digits_spell_the_number((-n) as nat);
        assert(dec_int(n).skip(1) =~= dec((-n) as nat));
    } else {
        digits_spell_the_number(n as nat);
        assert(digit_value(dec_int(n)[0]) >= 0);
    }
}

/// Tenths and hundredths are written with so many places behind the point.
pub proof fn places_behind_the_point(n: nat)
    ensures
        ({
            let t = dec_tenths(n);
            let k = t.len() - 2;
            &&& k >= 1 && t[k] == '.'
            &&& 10 * number_of(t.take(k)) + digit_value(t[k + 1]) == n
            &&& 0 <= digit_value(t[k + 1]) <= 9
        }),
        ({
            let t = dec_hundredths(n);
            let k = t.len() - 3;
            &&& k >= 1 && t[k] == '.'
            &&& 100 * number_of(t.take(k)) + 10 * digit_value(t[k + 1]) + digit_value(t[k + 2]) == n
            &&& 0 <= digit_value(t[k + 1]) <= 9 && 0 <= digit_value(t[k + 2]) <= 9
        }),
{
    reveal_strlit(".");
    digits_spell_the_number(n / 10);
    digits_spell_the_number(n / 100);
    lemma_digit_value((n % 10) as u8);
    lemma_digit_value((n / 10 % 10) as u8);
    assert(dec(n % 10).len() == 1 && dec(n / 10 % 10).len() == 1);
    assert(dec_tenths(n).take(dec_tenths(n).len() - 2) =~= dec(n / 10));
    assert(dec_hundredths(n).take(dec_hundredths(n).len() - 3) =~= dec(n / 100));
    assert(n == 100 * (n / 100) + 10 * (n / 10 % 10) + n % 10);
}

/// A ratio is rounded to the whole number next to it, and to the even one when
/// two are as near.
pub proof fn rounding_goes_to_the_nearest(a: nat, b: nat)
    requires
        b > 0,
    ensures
        2 * (rounded(a, b) * b - a) <= b,
        2 * (a - rounded(a, b) * b) <= b,
        2 * (rounded(a, b) * b - a) == b || 2 * (a - rounded(a, b) * b) == b ==> rounded(a, b) % 2
            == 0,
{
    let (q, r) = ((a / b) as int, (a % b) as int);
    vstd::arithmetic::div_mod::lemma_fundamental_div_mod(a as int, b as int);
    assert(q * b == b * q) by (nonlinear_arith);
    assert((q + 1) * b == b * q + b) by (nonlinear_arith);
}

/// Upper case moves the small letters and nothing else, lower case the capitals.
pub proof fn case_moves_only_letters(s: Seq<char>, i: int)
    requires
        0 <= i < s.len(),
    ensures
        upper(s).len() == s.len() && lower(s).len() == s.len(),
        97 <= s[i] as u32 <= 122 ==> upper(s)[i] as u32 == s[i] as u32 - 32,
        !(97 <= s[i] as u32 <= 122) ==> upper(s)[i] == s[i],
        65 <= s[i] as u32 <= 90 ==> lower(s)[i] as u32 == s[i] as u32 + 32,
        !(65 <= s[i] as u32 <= 90) ==> lower(s)[i] == s[i],
{
}

/// A text stands where each of its characters does.
pub proof fn a_text_stands_character_by_character(s: Seq<char>, pat: Seq<char>, at: int)
    ensures
        stands_at(s, pat, at) <==> 0 <= at && at + pat.len() <= s.len() && forall|k: int|
            0 <= k < pat.len() ==> s[at + k] == #[trigger] pat[k],
{
    if stands_at(s, pat, at) {
        assert forall|k: int| 0 <= k < pat.len() implies s[at + k] == #[trigger] pat[k] by {
            assert(s.subrange(at, at + pat.len())[k] == s[at + k]);
        }
    } else if 0 <= at && at + pat.len() <= s.len() && forall|k: int|
        0 <= k < pat.len() ==> s[at + k] == #[trigger] pat[k] {
        assert(s.subrange(at, at + pat.len()) =~= pat);
    }
}

/// The first character that differs decides the order; a text that another one
/// goes on from comes first.
pub proof fn the_first_difference_decides(a: Seq<char>, b: Seq<char>, k: int)
    requires
        0 <= k <= a.len(),
        k <= b.len(),
        forall|i: int| 0 <= i < k ==> a[i] == b[i],
    ensures
        k == a.len() ==> lex_le(a, b),
        k == b.len() && k < a.len() ==> !lex_le(a, b),
        k < a.len() && k < b.len() && a[k] != b[k] ==> (lex_le(a, b) <==> a[k] < b[k]),
    decreases k,
{
    if k > 0 {
        let (x, y) = (a.drop_first(), b.drop_first());
        assert(k < a.len() ==> x[k - 1] == a[k]);
        assert(k < b.len() ==> y[k - 1] == b[k]);
        the_first_difference_decides(a.drop_first(), b.drop_first(), k - 1);
    }
}

// ---------------------------------------------------------------------------
// White space
// ---------------------------------------------------------------------------

proof fn lemma_trim_start(s: Seq<char>, a: int)
    requires
        0 <= a <= s.len(),
        forall|i: int| 0 <= i < a ==> is_white(#[trigger] s[i]),
        a < s.len() ==> !is_white(s[a]),
    ensures
        trim_start(s) == s.skip(a),
    decreases a,
{
    if a > 0 {
        let t = s.drop_first();
        assert forall|i: int| 0 <= i < a - 1 implies is_white(#[trigger] t[i]) by {
            assert(t[i] == s[i + 1]);
        }
        lemma_trim_start(t, a - 1);
        assert(t.skip(a - 1) =~= s.skip(a));
    } else {
        assert(s.skip(0) =~= s);
    }
}

pub proof fn lemma_trim_end(s: Seq<char>, b: int)
    requires
        0 <= b <= s.len(),
        forall|i: int| b <= i < s.len() ==> is_white(#[trigger] s[i]),
        b > 0 ==> !is_white(s[b - 1]),
    ensures
        trim_end(s) == s.take(b),
    decreases s.len() - b,
{
    if b < s.len() {
        let t = s.drop_last();
        assert(is_white(s[s.len() - 1]));
        assert forall|i: int| b <= i < t.len() implies is_white(#[trigger] t[i]) by {
            assert(t[i] == s[i]);
        }
        lemma_trim_end(t, b);
        assert(t.take(b) =~= s.take(b));
    } else {
        assert(s.take(b) =~= s);
    }
}

/// Trimming leaves what stands between the first and the last character that is
/// not white, and nothing where there is none.
pub proof fn trimming_leaves_the_middle(s: Seq<char>, a: int, b: int)
    requires
        0 <= a <= b <= s.len(),
        forall|i: int| 0 <= i < a || b <= i < s.len() ==> is_white(#[trigger] s[i]),
        a < b ==> !is_white(s[a]) && !is_white(s[b - 1]),
    ensures
        trimmed(s) == s.subrange(a, b),
        a == b ==> trimmed(s).len() == 0,
{
    if a == b {
        lemma_trim_start(s, s.len() as int);
        assert(trim_start(s).len() == 0);
        assert(trimmed(s) =~= s.subrange(a, b));
    } else {
        lemma_trim_start(s, a);
        let t = s.skip(a);
        assert forall|i: int| b - a <= i < t.len() implies is_white(#[trigger] t[i]) by {
            assert(t[i] == s[i + a]);
        }
        assert(t[b - a - 1] == s[b - 1]);
        lemma_trim_end(t, b - a);
        assert(t.take(b - a) =~= s.subrange(a, b));
    }
}

/// Whether a word begins at `i`.
pub open spec fn word_begins(s: Seq<char>, i: int) -> bool {
    0 <= i < s.len() && !is_white(s[i]) && (i == 0 || is_white(s[i - 1]))
}

/// How many words begin before `p`.
pub open spec fn words_before(s: Seq<char>, p: int) -> nat
    decreases p,
{
    if p <= 0 {
        0
    } else {
        words_before(s, p - 1) + (if word_begins(s, p - 1) {
            1nat
        } else {
            0nat
        })
    }
}

proof fn lemma_run_end(s: Seq<char>, i: int)
    requires
        0 <= i <= s.len(),
    ensures
        i <= word_end(s, i) <= s.len(),
        forall|k: int| i <= k < word_end(s, i) ==> !is_white(#[trigger] s[k]),
        word_end(s, i) < s.len() ==> is_white(s[word_end(s, i)]),
    decreases s.len() - i,
{
    if i < s.len() && !is_white(s[i]) {
        lemma_run_end(s, i + 1);
    }
}

proof fn lemma_run_counts_once(s: Seq<char>, p: int, q: int)
    requires
        word_begins(s, p),
        p < q <= s.len(),
        forall|k: int| p <= k < q ==> !is_white(#[trigger] s[k]),
    ensures
        words_before(s, q) == words_before(s, p) + 1,
    decreases q - p,
{
    if q > p + 1 {
        lemma_run_counts_once(s, p, q - 1);
        assert(!is_white(s[q - 2]));
        assert(!word_begins(s, q - 1));
    }
}

proof fn lemma_words_before_grows(s: Seq<char>, p: int, q: int)
    requires
        p <= q,
    ensures
        words_before(s, p) <= words_before(s, q),
    decreases q - p,
{
    if p < q {
        lemma_words_before_grows(s, p, q - 1);
    }
}

/// Whether no word is cut in two at `p`.
spec fn is_between(s: Seq<char>, p: int) -> bool {
    0 <= p <= s.len() && (p == 0 || p == s.len() || is_white(s[p - 1]) || is_white(s[p]))
}

proof fn lemma_words_from(s: Seq<char>, p: int)
    requires
        is_between(s, p),
    ensures
        words(s, p).len() == words_before(s, s.len() as int) - words_before(s, p),
        forall|i: int, j: int|
            p <= i < j <= s.len() && #[trigger] is_run(s, i, j) ==> {
                let n = words_before(s, i) - words_before(s, p);
                0 <= n < words(s, p).len() && words(s, p)[n] == s.subrange(i, j)
            },
    decreases s.len() - p,
{
    let all = words_before(s, s.len() as int);
    if p < s.len() {
        if is_white(s[p]) {
            assert(!word_begins(s, p));
            lemma_words_from(s, p + 1);
            assert(words_before(s, p + 1) == words_before(s, p));
            assert forall|i: int, j: int|
                p <= i < j <= s.len() && #[trigger] is_run(s, i, j) implies {
                let n = words_before(s, i) - words_before(s, p);
                0 <= n < words(s, p).len() && words(s, p)[n] == s.subrange(i, j)
            } by {
                assert(i != p);
            }
        } else {
            assert(word_begins(s, p));
            lemma_run_end(s, p + 1);
            let q = word_end(s, p + 1);
            lemma_run_counts_once(s, p, q);
            lemma_words_from(s, q);
            let rest = words(s, q);
            assert(words(s, p) == seq![s.subrange(p, q)] + rest);
            assert forall|i: int, j: int|
                p <= i < j <= s.len() && #[trigger] is_run(s, i, j) implies {
                let n = words_before(s, i) - words_before(s, p);
                0 <= n < words(s, p).len() && words(s, p)[n] == s.subrange(i, j)
            } by {
                if i == p {
                    if j < q {
                        assert(!is_white(s[j]));
                    } else if q < j {
                        assert(!is_white(s[q]));
                    }
                } else {
                    assert(is_white(s[i - 1]));
                    assert(i - 1 >= q) by {
                        if i - 1 < q {
                            assert(!is_white(s[i - 1]));
                        }
                    }
                    let n = words_before(s, i) - words_before(s, p);
                    assert(rest[n - 1] == s.subrange(i, j));
                    assert(words(s, p)[n] == rest[n - 1]);
                }
            }
        }
    }
}

/// Whether `i..j` is a run of characters that are not white, and none goes on
/// from it at either end.
pub open spec fn is_run(s: Seq<char>, i: int, j: int) -> bool {
    &&& word_begins(s, i)
    &&& i < j <= s.len()
    &&& forall|k: int| i <= k < j ==> !is_white(#[trigger] s[k])
    &&& j < s.len() ==> is_white(s[j])
}

/// The words of a text are its runs between white space, all of them, each in its
/// place.
pub proof fn words_are_the_runs_between_white_space(s: Seq<char>, i: int, j: int)
    requires
        is_run(s, i, j),
    ensures
        words(s, 0).len() == words_before(s, s.len() as int),
        words_before(s, i) < words(s, 0).len(),
        words(s, 0)[words_before(s, i) as int] == s.subrange(i, j),
{
    lemma_words_from(s, 0);
}

/// A text without any but white characters has no words.
pub proof fn white_space_has_no_words(s: Seq<char>)
    requires
        forall|i: int| 0 <= i < s.len() ==> is_white(#[trigger] s[i]),
    ensures
        words(s, 0).len() == 0,
{
    lemma_words_from(s, 0);
    lemma_no_words_before(s, s.len() as int);
}

proof fn lemma_no_words_before(s: Seq<char>, p: int)
    requires
        p <= s.len(),
        forall|i: int| 0 <= i < s.len() ==> is_white(#[trigger] s[i]),
    ensures
        words_before(s, p) == 0,
    decreases p,
{
    if p > 0 {
        lemma_no_words_before(s, p - 1);
        assert(is_white(s[p - 1]));
    }
}

// ---------------------------------------------------------------------------
// Words put together
// ---------------------------------------------------------------------------

/// Whether a text can stand as a word: it has characters, none of them white.
pub open spec fn is_word(w: Seq<char>) -> bool {
    w.len() > 0 && forall|i: int| 0 <= i < w.len() ==> !is_white(#[trigger] w[i])
}

/// Words, each with a space in front.
pub open spec fn spaced(ws: Seq<Seq<char>>) -> Seq<char>
    decreases ws.len(),
{
    if ws.len() == 0 {
        Seq::empty()
    } else {
        seq![' '] + ws[0] + spaced(ws.skip(1))
    }
}

proof fn lemma_word_end_at(s: Seq<char>, i: int, j: int)
    requires
        0 <= i <= j <= s.len(),
        forall|k: int| i <= k < j ==> !is_white(#[trigger] s[k]),
        j < s.len() ==> is_white(s[j]),
    ensures
        word_end(s, i) == j,
    decreases j - i,
{
    if i < j {
        lemma_word_end_at(s, i + 1, j);
    }
}

pub proof fn lemma_spaced_words(pre: Seq<char>, ws: Seq<Seq<char>>)
    requires
        forall|k: int| 0 <= k < ws.len() ==> is_word(#[trigger] ws[k]),
    ensures
        words(pre + spaced(ws), pre.len() as int) == ws,
    decreases ws.len(),
{
    let s = pre + spaced(ws);
    let p = pre.len() as int;
    if ws.len() == 0 {
        assert(words(s, p) =~= ws);
    } else {
        let w = ws[0];
        let rest = ws.skip(1);
        assert forall|k: int| 0 <= k < rest.len() implies is_word(#[trigger] rest[k]) by {
            assert(rest[k] == ws[k + 1]);
        }
        assert(is_word(ws[0]));
        let next = pre + seq![' '] + w;
        lemma_spaced_words(next, rest);
        assert(next + spaced(rest) =~= s);
        let q = p + 1 + w.len();
        assert(s[p] == ' ');
        assert forall|k: int| p + 1 <= k < q implies !is_white(#[trigger] s[k]) by {
            assert(s[k] == w[k - p - 1]);
        }
        assert(q < s.len() ==> s[q] == ' ') by {
            if rest.len() > 0 {
                assert(spaced(rest)[0] == ' ');
            }
        }
        lemma_word_end_at(s, p + 2, q);
        assert(s.subrange(p + 1, q) =~= w);
        assert(words(s, p) == words(s, p + 1));
        assert(!is_white(s[p + 1]));
        assert(words(s, p + 1) == seq![w] + words(s, q));
        assert(seq![w] + rest =~= ws);
    }
}

// ---------------------------------------------------------------------------
// Texts in texts
// ---------------------------------------------------------------------------

/// What stands in a text still stands there when more follows.
pub proof fn lemma_still_has(s: Seq<char>, more: Seq<char>, pat: Seq<char>)
    requires
        has_text(s, pat),
    ensures
        has_text(s + more, pat),
{
    let at = choose|at: int| stands_at(s, pat, at);
    assert((s + more).subrange(at, at + pat.len()) =~= s.subrange(at, at + pat.len()));
    assert(stands_at(s + more, pat, at));
}

/// A text has its own end.
pub proof fn lemma_has_end(s: Seq<char>, pat: Seq<char>)
    ensures
        has_text(s + pat, pat),
{
    let n = s.len() as int;
    assert((s + pat).subrange(n, n + pat.len()) =~= pat);
    assert(stands_at(s + pat, pat, n));
}

/// A text has the two parts at its end, one behind the other.
pub proof fn lemma_has_two(s: Seq<char>, a: Seq<char>, b: Seq<char>)
    ensures
        has_text(s + a + b, a + b),
{
    assert(s + a + b =~= s + (a + b));
    lemma_has_end(s, a + b);
}

} // verus!
