//! Reading single fields out of the text of a subject file: a quoted string,
//! a number, or a bracketed list of numbers, each found after a key.
//!
//! Positions here count characters. Every delimiter that is searched for is an
//! ASCII character, so each search finds the same text that the byte-wise
//! search of `str::find` finds.
use vstd::prelude::*;
use crate::seqs::{
    chars_of, find_char, find_chars, first_index, first_occurrence, first_where,
    lemma_first_index, lemma_first_occurrence, opt_int,
};
use crate::text::{
    back_white_exec, copy_range, float_syntax, is_float_syntax, skip_white, skip_white_exec,
    trimmed,
};

verus! {

/// The list of grades closes with `]` before it opens with `[`: the slice
/// between them would run backwards.
#[derive(Debug, Clone, Copy, PartialEq, Eq)]
pub struct ReversedBrackets;

/// Where the value of `key` starts: just after the first `:` that follows the
/// first occurrence of `key`.
pub open spec fn value_start(s: Seq<char>, key: Seq<char>) -> Option<int> {
    match first_occurrence(s, key, 0) {
        None => None,
        Some(p) => match first_index(s, ':', p + key.len()) {
            None => None,
            Some(c) => Some(c + 1),
        },
    }
}

/// The string value of `key`: after the colon and any white space there must
/// be a `"`; the value runs up to the next `"`.
pub open spec fn string_field(s: Seq<char>, key: Seq<char>) -> Option<Seq<char>> {
    match value_start(s, key) {
        None => None,
        Some(v) => {
            let a = skip_white(s, v, s.len() as int);
            if a < s.len() && s[a] == '"' {
                match first_index(s, '"', a + 1) {
                    Some(e) => Some(s.subrange(a + 1, e)),
                    None => None,
                }
            } else {
                None
            }
        },
    }
}

/// The first `,`, line feed or `}` at or after `a`, or the end of `s`.
pub open spec fn number_end(s: Seq<char>, a: int) -> int {
    match first_where(s, |c: char| c == ',' || c == '\n' || c == '}', a) {
        Some(e) => e,
        None => s.len() as int,
    }
}

/// The numeric value of `key` as text: after the colon, up to the next `,`,
/// line feed or `}`, trimmed; present only when it is the text of a number.
pub open spec fn number_field(s: Seq<char>, key: Seq<char>) -> Option<Seq<char>> {
    match value_start(s, key) {
        None => None,
        Some(v) => {
            let a = skip_white(s, v, s.len() as int);
            let t = trimmed(s, a, number_end(s, a));
            if is_float_syntax(t) {
                Some(t)
            } else {
                None
            }
        },
    }
}

/// The end of the item that starts at `i` in a list that ends at `end`: the
/// next `,` before `end`, or `end`.
pub open spec fn item_end(s: Seq<char>, i: int, end: int) -> int {
    match first_index(s, ',', i) {
        Some(c) if c < end => c,
        _ => end,
    }
}

/// The comma-separated items of `[i, end)`, each trimmed, keeping those that
/// are texts of numbers.
pub open spec fn number_items(s: Seq<char>, i: int, end: int) -> Seq<Seq<char>>
    decreases end + 1 - i,
{
    if i > end {
        seq![]
    } else {
        let c = item_end(s, i, end);
        let t = trimmed(s, i, c);
        let head = if is_float_syntax(t) {
            seq![t]
        } else {
            seq![]
        };
        if i <= c < end {
            head + number_items(s, c + 1, end)
        } else {
            head
        }
    }
}

/// The list value of `key`: the items between the first `[` and the first `]`
/// after the key, or nothing when the key or a bracket is missing.
pub open spec fn number_list_field(s: Seq<char>, key: Seq<char>) -> Result<
    Seq<Seq<char>>,
    ReversedBrackets,
> {
    match first_occurrence(s, key, 0) {
        None => Ok(seq![]),
        Some(p) => match (first_index(s, '[', p + key.len()), first_index(s, ']', p + key.len())) {
            (Some(o), Some(c)) => if c < o + 1 {
                Err(ReversedBrackets)
            } else {
                Ok(number_items(s, o + 1, c))
            },
            _ => Ok(seq![]),
        },
    }
}

/// Where the value of `key` starts in `s` (see `value_start`).
fn value_start_exec(s: &[char], key: &[char]) -> (r: Option<usize>)
    ensures
        opt_int(r) == value_start(s@, key@),
        r matches Some(v) ==> 0 < v <= s@.len(),
{
    let p = find_chars(s, key, 0)?;
    proof {
        lemma_first_occurrence(s@, key@, 0);
        assert(first_occurrence(s@, key@, 0) == Some(p as int));
        assert(p + key@.len() <= s@.len());
        assert(key.len() == key@.len());
        assert(p + key.len() <= s.len());
    }
    let c = find_char(s, ':', p + key.len())?;
    proof {
        lemma_first_index(s@, ':', (p + key.len()) as int);
    }
    Some(c + 1)
}

/// The string value that follows `key` in `src`: after the first occurrence of
/// `key`, the first `:`, then optional white space, then text between two `"`.
pub fn extract_string(src: &str, key: &str) -> (r: Option<String>)
    ensures
        match r {
            Some(v) => string_field(src@, key@) == Some(v@),
            None => string_field(src@, key@) is None,
        },
{
    let s = chars_of(src);
    let k = chars_of(key);
    let v = value_start_exec(&s, &k)?;
    let a = skip_white_exec(&s, v, s.len());
    if a < s.len() && s[a] == '"' {
        let e = find_char(&s, '"', a + 1)?;
        proof {
            lemma_first_index(s@, '"', (a + 1) as int);
        }
        Some(src.substring_char(a + 1, e).to_owned())
    } else {
        None
    }
}

/// The first `,`, line feed or `}` at or after `a`, or the end of `s`.
fn number_end_exec(s: &[char], a: usize) -> (r: usize)
    requires
        a <= s@.len(),
    ensures
        r == number_end(s@, a as int),
        a <= r <= s@.len(),
{
    let mut i = a;
    while i < s.len()
        invariant
            a <= i <= s@.len(),
            first_where(s@, |c: char| c == ',' || c == '\n' || c == '}', a as int) == first_where(
                s@,
                |c: char| c == ',' || c == '\n' || c == '}',
                i as int,
            ),
        decreases s.len() - i,
    {
        if s[i] == ',' || s[i] == '\n' || s[i] == '}' {
            return i;
        }
        i = i + 1;
    }
    i
}

/// The trimmed characters of `[lo, hi)` of `s`, as a string and as characters.
fn trimmed_exec(src: &str, s: &[char], lo: usize, hi: usize) -> (r: (String, Vec<char>))
    requires
        lo <= hi <= s@.len(),
        s@ == src@,
    ensures
        r.0@ == trimmed(s@, lo as int, hi as int),
        r.1@ == trimmed(s@, lo as int, hi as int),
{
    let a = skip_white_exec(s, lo, hi);
    let b = back_white_exec(s, a, hi);
    (src.substring_char(a, b).to_owned(), copy_range(s, a, b))
}

/// The number that follows `key` in `src`, as text: after the first occurrence
/// of `key` and the first `:` comes text up to the next `,`, line feed or `}`;
/// trimmed, it is the result when it is the text of a number.
pub fn extract_number(src: &str, key: &str) -> (r: Option<String>)
    ensures
        match r {
            Some(v) => number_field(src@, key@) == Some(v@),
            None => number_field(src@, key@) is None,
        },
{
    let s = chars_of(src);
    let k = chars_of(key);
    let v = value_start_exec(&s, &k)?;
    let a = skip_white_exec(&s, v, s.len());
    let e = number_end_exec(&s, a);
    let (t, tc) = trimmed_exec(src, &s, a, e);
    if float_syntax(&tc) {
        Some(t)
    } else {
        None
    }
}

/// The numbers of the list that follows `key` in `src`, as texts. The list runs
/// from the first `[` to the first `]` after the key; its items are separated by
/// `,` and trimmed, and those that are texts of numbers are kept. A missing key
/// or bracket gives no numbers; a `]` before the `[` is an error.
pub fn read_number_list(src: &str, key: &str) -> (r: Result<Vec<String>, ReversedBrackets>)
    ensures
        match r {
            Ok(v) => number_list_field(src@, key@) == Ok::<Seq<Seq<char>>, ReversedBrackets>(
                v@.map_values(|t: String| t@),
            ),
            Err(e) => number_list_field(src@, key@) == Err::<Seq<Seq<char>>, ReversedBrackets>(e),
        },
{
    let s = chars_of(src);
    let k = chars_of(key);
    let p = match find_chars(&s, &k, 0) {
        Some(p) => p,
        None => {
            let empty: Vec<String> = Vec::new();
            assert(empty@.map_values(|t: String| t@) =~= Seq::<Seq<char>>::empty());
            return Ok(empty);
        },
    };
    proof {
        lemma_first_occurrence(s@, k@, 0);
    }
    let q = p + k.len();
    let o = find_char(&s, '[', q);
    let c = find_char(&s, ']', q);
    proof {
        lemma_first_index(s@, ']', q as int);
        lemma_first_index(s@, '[', q as int);
    }
    match (o, c) {
        (Some(o), Some(c)) => {
            if c < o + 1 {
                Err(ReversedBrackets)
            } else {
                Ok(number_items_exec(src, &s, o + 1, c))
            }
        },
        _ => {
            let empty: Vec<String> = Vec::new();
            assert(empty@.map_values(|t: String| t@) =~= Seq::<Seq<char>>::empty());
            Ok(empty)
        },
    }
}

/// The numbers of the list that follows `key` in `src`, as texts (see
/// `read_number_list`), for a text whose list does not close before it opens.
pub fn extract_number_array(src: &str, key: &str) -> (r: Vec<String>)
    requires
        number_list_field(src@, key@) is Ok,
    ensures
        number_list_field(src@, key@) == Ok::<Seq<Seq<char>>, ReversedBrackets>(
            r@.map_values(|t: String| t@),
        ),
{
    match read_number_list(src, key) {
        Ok(v) => v,
        Err(_) => Vec::new(),
    }
}

/// The items of `[start, end)` that are texts of numbers (see `number_items`).
fn number_items_exec(src: &str, s: &[char], start: usize, end: usize) -> (r: Vec<String>)
    requires
        start <= end <= s@.len(),
        s@ == src@,
    ensures
        r@.map_values(|t: String| t@) == number_items(s@, start as int, end as int),
{
    let mut out: Vec<String> = Vec::new();
    let mut i = start;
    loop
        invariant
            start <= i <= end,
            end <= s@.len(),
            s@ == src@,
            number_items(s@, start as int, end as int) == out@.map_values(|t: String| t@)
                + number_items(s@, i as int, end as int),
        decreases end - i,
    {
        let c = match find_char(s, ',', i) {
            Some(c) => if c < end {
                c
            } else {
                end
            },
            None => end,
        };
        proof {
            lemma_first_index(s@, ',', i as int);
        }
        let (t, tc) = trimmed_exec(src, s, i, c);
        let keep = float_syntax(&tc);
        let ghost before = out@.map_values(|t: String| t@);
        if keep {
            out.push(t);
        }
        proof {
            let head = if keep {
                seq![t@]
            } else {
                seq![]
            };
            assert(out@.map_values(|t: String| t@) =~= before + head);
        }
        if c < end {
            i = c + 1;
        } else {
            proof {
                assert(number_items(s@, i as int, end as int) == (if keep {
                    seq![t@]
                } else {
                    seq![]
                }));
            }
            return out;
        }
    }
}

} // verus!
