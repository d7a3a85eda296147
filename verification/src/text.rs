//! Character classes used by the text formats: Unicode white space (what
//! `char::is_whitespace` and `str::trim` go by) and the syntax of the decimal
//! numbers that `str::parse::<f64>` accepts.
use vstd::prelude::*;
use crate::seqs::{find_char, first_index, first_where, lemma_first_where};

verus! {

/// Characters with the Unicode `White_Space` property.
pub open spec fn is_white_space(c: char) -> bool {
    ||| ('\u{9}' <= c && c <= '\u{d}')
    ||| c == ' '
    ||| c == '\u{85}'
    ||| c == '\u{a0}'
    ||| c == '\u{1680}'
    ||| ('\u{2000}' <= c && c <= '\u{200a}')
    ||| c == '\u{2028}'
    ||| c == '\u{2029}'
    ||| c == '\u{202f}'
    ||| c == '\u{205f}'
    ||| c == '\u{3000}'
}

/// Whether `c` is white space in the sense of `is_white_space`.
pub fn white_space(c: char) -> (b: bool)
    ensures
        b == is_white_space(c),
{
    ('\u{9}' <= c && c <= '\u{d}') || c == ' ' || c == '\u{85}' || c == '\u{a0}' || c
        == '\u{1680}' || ('\u{2000}' <= c && c <= '\u{200a}') || c == '\u{2028}' || c
        == '\u{2029}' || c == '\u{202f}' || c == '\u{205f}' || c == '\u{3000}'
}

/// The first index in `[i, hi)` that is not white space, or `hi` when there is none.
pub open spec fn skip_white(s: Seq<char>, i: int, hi: int) -> int
    decreases hi - i,
{
    if 0 <= i < hi && i < s.len() && is_white_space(s[i]) {
        skip_white(s, i + 1, hi)
    } else {
        i
    }
}

/// The end of `[lo, j)` once the white space at its end is dropped.
pub open spec fn back_white(s: Seq<char>, lo: int, j: int) -> int
    decreases j - lo,
{
    if lo < j && 0 < j <= s.len() && is_white_space(s[j - 1]) {
        back_white(s, lo, j - 1)
    } else {
        j
    }
}

/// The characters of `[lo, hi)` with white space removed at both ends (`str::trim`).
pub open spec fn trimmed(s: Seq<char>, lo: int, hi: int) -> Seq<char> {
    let a = skip_white(s, lo, hi);
    s.subrange(a, back_white(s, a, hi))
}

/// Where `skip_white` stops, and that it only passes over white space.
pub proof fn lemma_skip_white(s: Seq<char>, i: int, hi: int)
    requires
        0 <= i <= hi <= s.len(),
    ensures
        i <= skip_white(s, i, hi) <= hi,
        skip_white(s, i, hi) < hi ==> !is_white_space(s[skip_white(s, i, hi)]),
        forall|j: int| i <= j < skip_white(s, i, hi) ==> is_white_space(#[trigger] s[j]),
    decreases hi - i,
{
    if i < hi && is_white_space(s[i]) {
        lemma_skip_white(s, i + 1, hi);
    }
}

/// Where `back_white` stops, and that it only passes over white space.
pub proof fn lemma_back_white(s: Seq<char>, lo: int, j: int)
    requires
        0 <= lo <= j <= s.len(),
    ensures
        lo <= back_white(s, lo, j) <= j,
        back_white(s, lo, j) > lo ==> !is_white_space(s[back_white(s, lo, j) - 1]),
        forall|k: int| back_white(s, lo, j) <= k < j ==> is_white_space(#[trigger] s[k]),
    decreases j - lo,
{
    if lo < j && is_white_space(s[j - 1]) {
        lemma_back_white(s, lo, j - 1);
    }
}

/// The index of the first character of `[i, hi)` that is not white space, or `hi`.
pub fn skip_white_exec(s: &[char], i: usize, hi: usize) -> (r: usize)
    requires
        i <= hi <= s@.len(),
    ensures
        r == skip_white(s@, i as int, hi as int),
        i <= r <= hi,
{
    let mut k = i;
    while k < hi && white_space(s[k])
        invariant
            i <= k <= hi,
            hi <= s@.len(),
            skip_white(s@, i as int, hi as int) == skip_white(s@, k as int, hi as int),
        decreases hi - k,
    {
        k = k + 1;
    }
    k
}

/// The end of `[lo, j)` once its trailing white space is dropped.
pub fn back_white_exec(s: &[char], lo: usize, j: usize) -> (r: usize)
    requires
        lo <= j <= s@.len(),
    ensures
        r == back_white(s@, lo as int, j as int),
        lo <= r <= j,
{
    let mut k = j;
    while k > lo && white_space(s[k - 1])
        invariant
            lo <= k <= j,
            j <= s@.len(),
            back_white(s@, lo as int, j as int) == back_white(s@, lo as int, k as int),
        decreases k,
    {
        k = k - 1;
    }
    k
}

/// `c` is the small ASCII letter `w` or its capital.
pub open spec fn same_letter(c: char, w: char) -> bool {
    c == w || (c as u32) + 32 == (w as u32)
}

/// An ASCII decimal digit.
pub open spec fn is_digit(c: char) -> bool {
    '0' <= c && c <= '9'
}

/// All characters of `[lo, hi)` are decimal digits.
pub open spec fn digits_only(t: Seq<char>, lo: int, hi: int) -> bool {
    forall|i: int| lo <= i < hi ==> is_digit(#[trigger] t[i])
}

/// `t`, compared without regard to ASCII case, is the word `w` (written in small letters).
pub open spec fn is_word(t: Seq<char>, w: Seq<char>) -> bool {
    &&& t.len() == w.len()
    &&& forall|i: int| 0 <= i < t.len() ==> same_letter(#[trigger] t[i], w[i])
}

/// The position of the first `e` or `E` in `t`, or its length.
pub open spec fn exponent_mark(t: Seq<char>) -> int {
    match first_where(t, |c: char| c == 'e' || c == 'E', 0) {
        Some(e) => e,
        None => t.len() as int,
    }
}

/// `[lo, hi)` is `Digit+ | Digit+ '.' Digit* | Digit* '.' Digit+`.
pub open spec fn is_mantissa(t: Seq<char>, lo: int, hi: int) -> bool {
    match first_index(t, '.', lo) {
        Some(d) if d < hi => digits_only(t, lo, d) && digits_only(t, d + 1, hi) && (lo < d || d
            + 1 < hi),
        _ => digits_only(t, lo, hi) && lo < hi,
    }
}

/// `t` from `e` on is empty or `e Sign? Digit+` (any case of `e`).
pub open spec fn is_exponent(t: Seq<char>, e: int) -> bool {
    e == t.len() || {
        let d = if e + 1 < t.len() && (t[e + 1] == '+' || t[e + 1] == '-') {
            e + 2
        } else {
            e + 1
        };
        d < t.len() && digits_only(t, d, t.len() as int)
    }
}

/// `Number ::= ( Digit+ | Digit+ '.' Digit* | Digit* '.' Digit+ ) Exp?`
pub open spec fn is_number_syntax(t: Seq<char>) -> bool {
    is_mantissa(t, 0, exponent_mark(t)) && is_exponent(t, exponent_mark(t))
}

/// `'inf' | 'infinity' | 'nan' | Number`, without regard to ASCII case.
pub open spec fn is_unsigned_float_syntax(t: Seq<char>) -> bool {
    ||| is_word(t, seq!['i', 'n', 'f'])
    ||| is_word(t, seq!['i', 'n', 'f', 'i', 'n', 'i', 't', 'y'])
    ||| is_word(t, seq!['n', 'a', 'n'])
    ||| is_number_syntax(t)
}

/// The text of a decimal floating-point number as `str::parse::<f64>` documents it:
/// `Float ::= Sign? ( 'inf' | 'infinity' | 'nan' | Number )`, `Sign ::= [+-]`.
pub open spec fn is_float_syntax(t: Seq<char>) -> bool {
    if t.len() > 0 && (t[0] == '+' || t[0] == '-') {
        is_unsigned_float_syntax(t.drop_first())
    } else {
        is_unsigned_float_syntax(t)
    }
}

/// The characters of `[lo, hi)` of `s`.
pub fn copy_range(s: &[char], lo: usize, hi: usize) -> (r: Vec<char>)
    requires
        lo <= hi <= s@.len(),
    ensures
        r@ == s@.subrange(lo as int, hi as int),
{
    let mut r: Vec<char> = Vec::new();
    let mut i = lo;
    while i < hi
        invariant
            lo <= i <= hi,
            hi <= s@.len(),
            r@ == s@.subrange(lo as int, i as int),
        decreases hi - i,
    {
        r.push(s[i]);
        i = i + 1;
    }
    r
}

/// Whether `t` is the word `w` without regard to ASCII case.
fn word_is(t: &[char], w: &[char]) -> (b: bool)
    ensures
        b == is_word(t@, w@),
{
    if t.len() != w.len() {
        return false;
    }
    let mut i: usize = 0;
    while i < t.len()
        invariant
            t@.len() == w@.len(),
            i <= t@.len(),
            forall|k: int| 0 <= k < i ==> same_letter(#[trigger] t@[k], w@[k]),
        decreases t.len() - i,
    {
        let c = t[i];
        let d = w[i];
        proof {
            vstd::utf8::char_is_scalar(c);
        }
        if !(c == d || (c as u32) + 32 == (d as u32)) {
            return false;
        }
        i = i + 1;
    }
    true
}

/// Whether `[lo, hi)` of `t` holds decimal digits only.
fn digits_only_exec(t: &[char], lo: usize, hi: usize) -> (b: bool)
    requires
        lo <= hi <= t@.len(),
    ensures
        b == digits_only(t@, lo as int, hi as int),
{
    let mut i = lo;
    while i < hi
        invariant
            lo <= i <= hi,
            hi <= t@.len(),
            forall|k: int| lo <= k < i ==> is_digit(#[trigger] t@[k]),
        decreases hi - i,
    {
        if !('0' <= t[i] && t[i] <= '9') {
            return false;
        }
        i = i + 1;
    }
    true
}

/// The position of the first `e` or `E` in `t`, or its length.
fn exponent_mark_exec(t: &[char]) -> (r: usize)
    ensures
        r == exponent_mark(t@),
{
    let mut i: usize = 0;
    while i < t.len()
        invariant
            i <= t@.len(),
            first_where(t@, |c: char| c == 'e' || c == 'E', 0) == first_where(
                t@,
                |c: char| c == 'e' || c == 'E',
                i as int,
            ),
        decreases t.len() - i,
    {
        if t[i] == 'e' || t[i] == 'E' {
            return i;
        }
        i = i + 1;
    }
    t.len()
}

/// Whether `t` is `Number` of the float grammar.
fn number_syntax(t: &[char]) -> (b: bool)
    ensures
        b == is_number_syntax(t@),
{
    let e = exponent_mark_exec(t);
    proof {
        lemma_first_where(t@, |c: char| c == 'e' || c == 'E', 0);
    }
    let mantissa = match find_char(t, '.', 0) {
        Some(d) if d < e => digits_only_exec(t, 0, d) && digits_only_exec(t, d + 1, e) && (0 < d
            || d + 1 < e),
        _ => digits_only_exec(t, 0, e) && 0 < e,
    };
    let exponent = if e == t.len() {
        true
    } else {
        let d = if e + 1 < t.len() && (t[e + 1] == '+' || t[e + 1] == '-') {
            e + 2
        } else {
            e + 1
        };
        d < t.len() && digits_only_exec(t, d, t.len())
    };
    mantissa && exponent
}

/// Whether `t` is the text of a number that `str::parse::<f64>` accepts.
pub fn float_syntax(t: &[char]) -> (b: bool)
    ensures
        b == is_float_syntax(t@),
{
    let start: usize = if t.len() > 0 && (t[0] == '+' || t[0] == '-') {
        1
    } else {
        0
    };
    let u = copy_range(t, start, t.len());
    proof {
        if start == 1 {
            assert(u@ =~= t@.drop_first());
        } else {
            assert(u@ =~= t@);
        }
    }
    let inf = ['i', 'n', 'f'];
    let infinity = ['i', 'n', 'f', 'i', 'n', 'i', 't', 'y'];
    let nan = ['n', 'a', 'n'];
    proof {
        assert(inf@ =~= seq!['i', 'n', 'f']);
        assert(infinity@ =~= seq!['i', 'n', 'f', 'i', 'n', 'i', 't', 'y']);
        assert(nan@ =~= seq!['n', 'a', 'n']);
    }
    word_is(&u, &inf) || word_is(&u, &infinity) || word_is(&u, &nan) || number_syntax(&u)
}

} // verus!
