//! Reading a subject file, described over its characters instead of its bytes,
//! and the proof that both descriptions give the same subject.
use vstd::prelude::*;
use vstd::utf8::{decode_utf8, encode_utf8, encode_utf8_decode_utf8};
use crate::encoding::{
    is_ascii_char, lemma_ascii_at, lemma_ascii_text, lemma_byte_in_char, lemma_encode_subrange,
    lemma_first_index_bytes, lemma_first_occurrence_bytes, lemma_last_index_bytes,
    lemma_off_bounds, lemma_off_step, off,
};
use crate::fields::ReversedBrackets;
use crate::seqs::{first_index, first_occurrence, last_index, lemma_first_index, lemma_last_index};
use crate::subject_file::{
    brace_scan, categories_key, category_blocks, category_of_block, close_brace, open_brace,
    prepend_categories, subject_parse, CategoryText, SubjectText,
};

verus! {

/// `brace_scan` over characters.
pub open spec fn brace_scan_chars(s: Seq<char>, i: int, depth: int) -> Option<int>
    decreases s.len() - i,
{
    if i < 0 || i >= s.len() {
        None
    } else if s[i] == '{' {
        brace_scan_chars(s, i + 1, depth + 1)
    } else if s[i] == '}' {
        if depth - 1 == 0 {
            Some(i)
        } else {
            brace_scan_chars(s, i + 1, depth - 1)
        }
    } else {
        brace_scan_chars(s, i + 1, depth)
    }
}

/// `category_blocks` over characters.
pub open spec fn category_blocks_chars(c: Seq<char>, pos: int) -> Result<
    Option<Seq<CategoryText>>,
    ReversedBrackets,
>
    decreases c.len() - pos,
{
    if pos < 0 {
        Ok(None)
    } else {
        match first_index(c, '{', pos) {
            None => Ok(Some(seq![])),
            Some(o) => match brace_scan_chars(c, o, 0) {
                None => Ok(None),
                Some(cl) => match category_of_block(c.subrange(o, cl + 1)) {
                    Err(e) => Err(e),
                    Ok(None) => Ok(None),
                    Ok(Some(cat)) => {
                        proof {
                            lemma_first_index(c, '{', pos);
                        }
                        prepend_categories(seq![cat], category_blocks_chars(c, o + 1))
                    },
                },
            },
        }
    }
}

/// The key `"categories"` as characters.
pub open spec fn categories_key_chars() -> Seq<char> {
    seq!['"', 'c', 'a', 't', 'e', 'g', 'o', 'r', 'i', 'e', 's', '"']
}

/// `subject_parse` over characters.
pub open spec fn subject_parse_chars(json: Seq<char>) -> Result<
    Option<SubjectText>,
    ReversedBrackets,
> {
    match string_field_of(json) {
        None => Ok(None),
        Some(name) => match first_occurrence(json, categories_key_chars(), 0) {
            None => Ok(None),
            Some(k) => match first_index(json, '[', k) {
                None => Ok(None),
                Some(o) => match last_index(json, ']', o) {
                    None => Ok(None),
                    Some(e) => match category_blocks_chars(json.subrange(o + 1, e), 0) {
                        Err(x) => Err(x),
                        Ok(None) => Ok(None),
                        Ok(Some(categories)) => Ok(Some(SubjectText { name, categories })),
                    },
                },
            },
        },
    }
}

/// The subject name as `subject_parse` reads it.
pub open spec fn string_field_of(json: Seq<char>) -> Option<Seq<char>> {
    crate::fields::string_field(json, "\"name\""@)
}

/// Where `brace_scan_chars` can stop: on a `}` at or after where it starts.
pub proof fn lemma_brace_scan_chars(s: Seq<char>, i: int, depth: int)
    requires
        0 <= i,
    ensures
        brace_scan_chars(s, i, depth) matches Some(k) ==> i <= k < s.len() && s[k] == '}',
    decreases s.len() - i,
{
    if 0 <= i < s.len() {
        if s[i] == '{' {
            lemma_brace_scan_chars(s, i + 1, depth + 1);
        } else if s[i] == '}' {
            lemma_brace_scan_chars(s, i + 1, depth - 1);
        } else {
            lemma_brace_scan_chars(s, i + 1, depth);
        }
    }
}

/// `brace_scan` passes over bytes that are not braces without change.
proof fn lemma_brace_scan_skip(b: Seq<u8>, i: int, j: int, depth: int)
    requires
        0 <= i <= j <= b.len(),
        forall|p: int| i <= p < j ==> #[trigger] b[p] != open_brace() && b[p] != close_brace(),
    ensures
        brace_scan(b, i, depth) == brace_scan(b, j, depth),
    decreases j - i,
{
    if i < j {
        lemma_brace_scan_skip(b, i + 1, j, depth);
    }
}

/// Scanning the bytes for the matching brace from the offset of character `k`
/// finds the offset of what the scan over the characters finds.
pub proof fn lemma_brace_scan_bytes(cs: Seq<char>, k: int, depth: int)
    requires
        0 <= k <= cs.len(),
    ensures
        brace_scan(encode_utf8(cs), off(cs, k), depth) == match brace_scan_chars(cs, k, depth) {
            Some(j) => Some(off(cs, j)),
            None => None,
        },
    decreases cs.len() - k,
{
    let b = encode_utf8(cs);
    lemma_off_bounds(cs, k);
    lemma_off_bounds(cs, cs.len() as int);
    if k < cs.len() {
        lemma_off_step(cs, k);
        if cs[k] == '{' {
            lemma_ascii_at(cs, k);
            lemma_brace_scan_bytes(cs, k + 1, depth + 1);
        } else if cs[k] == '}' {
            lemma_ascii_at(cs, k);
            lemma_brace_scan_bytes(cs, k + 1, depth - 1);
        } else {
            assert forall|p: int| off(cs, k) <= p < off(cs, k + 1) implies #[trigger] b[p]
                != open_brace() && b[p] != close_brace() by {
                if b[p] == open_brace() {
                    lemma_byte_in_char(cs, k, p, '{');
                }
                if b[p] == close_brace() {
                    lemma_byte_in_char(cs, k, p, '}');
                }
            }
            lemma_brace_scan_skip(b, off(cs, k), off(cs, k + 1), depth);
            lemma_brace_scan_bytes(cs, k + 1, depth);
        }
    }
}

/// Reading the categories from the bytes of a list, from the offset of
/// character `pos`, gives what reading them from its characters gives.
pub proof fn lemma_category_blocks_bytes(c: Seq<char>, pos: int)
    requires
        0 <= pos <= c.len(),
    ensures
        category_blocks(encode_utf8(c), off(c, pos)) == category_blocks_chars(c, pos),
    decreases c.len() - pos,
{
    let b = encode_utf8(c);
    lemma_off_bounds(c, pos);
    lemma_first_index_bytes(c, '{', pos);
    lemma_first_index(c, '{', pos);
    match first_index(c, '{', pos) {
        None => {},
        Some(o) => {
            lemma_brace_scan_bytes(c, o, 0);
            lemma_brace_scan_chars(c, o, 0);
            match brace_scan_chars(c, o, 0) {
                None => {},
                Some(cl) => {
                    lemma_ascii_at(c, cl);
                    lemma_ascii_at(c, o);
                    lemma_encode_subrange(c, o, cl + 1);
                    encode_utf8_decode_utf8(c.subrange(o, cl + 1));
                    assert(decode_utf8(b.subrange(off(c, o), off(c, cl) + 1)) == c.subrange(
                        o,
                        cl + 1,
                    ));
                    lemma_category_blocks_bytes(c, o + 1);
                },
            }
        },
    }
}

/// Reading a subject from the bytes of a text gives what reading it from its
/// characters gives.
pub proof fn lemma_subject_parse_chars(json: Seq<char>)
    ensures
        subject_parse(json) == subject_parse_chars(json),
{
    let b = encode_utf8(json);
    let key = categories_key_chars();
    assert forall|t: int| 0 <= t < key.len() implies is_ascii_char(#[trigger] key[t]) by {}
    lemma_ascii_text(key);
    assert(encode_utf8(key) =~= categories_key());
    lemma_off_bounds(json, 0);
    lemma_off_bounds(json, json.len() as int);
    lemma_first_occurrence_bytes(json, key, 0);
    crate::seqs::lemma_first_occurrence(json, key, 0);
    match first_occurrence(json, key, 0) {
        None => {},
        Some(k) => {
            lemma_first_index_bytes(json, '[', k);
            lemma_first_index(json, '[', k);
            match first_index(json, '[', k) {
                None => {},
                Some(o) => {
                    lemma_last_index_bytes(json, ']', o, json.len() as int);
                    lemma_last_index(json, ']', o, json.len() as int);
                    match last_index(json, ']', o) {
                        None => {},
                        Some(e) => {
                            lemma_ascii_at(json, o);
                            lemma_encode_subrange(json, o + 1, e);
                            let content = json.subrange(o + 1, e);
                            lemma_off_bounds(content, 0);
                            lemma_category_blocks_bytes(content, 0);
                        },
                    }
                },
            }
        },
    }
}

} // verus!
