//! How the UTF-8 bytes of a text line up with its characters: an ASCII byte
//! in the encoding stands exactly where the same ASCII character stands in the
//! text, so searches for ASCII delimiters over the bytes find the offsets of
//! what the same searches over the characters find.
use vstd::prelude::*;
use vstd::utf8::{
    encode_scalar, encode_utf8, last_continuation_byte, leading_byte_width_1,
    leading_byte_width_2, leading_byte_width_3, leading_byte_width_4,
    second_last_continuation_byte, third_last_continuation_byte,
};
use crate::seqs::{
    first_index, first_occurrence, last_index_below, lemma_first_index, lemma_first_index_at,
    lemma_first_index_none, lemma_first_occurrence, lemma_first_occurrence_at, lemma_last_index,
    lemma_last_index_at, lemma_last_index_none, lemma_first_occurrence_none, occurs_at,
};

verus! {

/// The byte offset in the encoding of `cs` at which character `k` starts.
pub open spec fn off(cs: Seq<char>, k: int) -> int {
    encode_utf8(cs.take(k)).len() as int
}

/// An ASCII character.
pub open spec fn is_ascii_char(c: char) -> bool {
    (c as u32) < 0x80
}

/// The encoding of two texts one after the other is the two encodings one after the other.
pub proof fn lemma_encode_concat(a: Seq<char>, b: Seq<char>)
    ensures
        encode_utf8(a + b) == encode_utf8(a) + encode_utf8(b),
    decreases a.len(),
{
    if a.len() == 0 {
        assert(a + b =~= b);
        assert(encode_utf8(a) =~= Seq::<u8>::empty());
        assert(encode_utf8(a) + encode_utf8(b) =~= encode_utf8(b));
    } else {
        assert((a + b).drop_first() =~= a.drop_first() + b);
        assert((a + b)[0] == a[0]);
        lemma_encode_concat(a.drop_first(), b);
        assert(encode_utf8(a + b) =~= encode_utf8(a) + encode_utf8(b));
    }
}

/// The bytes of one character: an ASCII character is its own single byte; any
/// other character is two to four bytes, none of them below `0x80`.
pub proof fn lemma_scalar_bytes(c: char)
    ensures
        is_ascii_char(c) ==> encode_scalar(c as u32) == seq![(c as u32) as u8],
        is_ascii_char(c) ==> ((c as u32) as u8) as u32 == c as u32,
        !is_ascii_char(c) ==> 2 <= encode_scalar(c as u32).len() <= 4 && forall|t: int|
            0 <= t < encode_scalar(c as u32).len() ==> #[trigger] encode_scalar(c as u32)[t]
                >= 0x80,
        1 <= encode_scalar(c as u32).len() <= 4,
{
    let v = c as u32;
    vstd::utf8::char_is_scalar(c);
    if v < 0x80 {
        assert(leading_byte_width_1(v) == v as u8) by (bit_vector)
            requires
                v < 0x80u32,
        ;
        assert((v as u8) as u32 == v) by (bit_vector)
            requires
                v < 0x80u32,
        ;
    } else {
        assert(forall|x: u32| (0xC0u8 | ((x >> 6) & 0x1F) as u8) >= 0x80u8) by (bit_vector);
        assert(forall|x: u32| (0xE0u8 | ((x >> 12) & 0x0F) as u8) >= 0x80u8) by (bit_vector);
        assert(forall|x: u32| (0xF0u8 | ((x >> 18) & 0x7) as u8) >= 0x80u8) by (bit_vector);
        assert(forall|x: u32| (0x80u8 | (x & 0x3F) as u8) >= 0x80u8) by (bit_vector);
        assert(forall|x: u32| (0x80u8 | ((x >> 6) & 0x3F) as u8) >= 0x80u8) by (bit_vector);
        assert(forall|x: u32| (0x80u8 | ((x >> 12) & 0x3F) as u8) >= 0x80u8) by (bit_vector);
        assert(leading_byte_width_2(v) >= 0x80);
        assert(leading_byte_width_3(v) >= 0x80);
        assert(leading_byte_width_4(v) >= 0x80);
        assert(last_continuation_byte(v) >= 0x80);
        assert(second_last_continuation_byte(v) >= 0x80);
        assert(third_last_continuation_byte(v) >= 0x80);
    }
}

/// The encoding of `cs` is the encoding of its first `k` characters followed by
/// that of the rest, and character `k` is encoded from byte `off(cs, k)` on.
pub proof fn lemma_off_step(cs: Seq<char>, k: int)
    requires
        0 <= k < cs.len(),
    ensures
        off(cs, k + 1) == off(cs, k) + encode_scalar(cs[k] as u32).len(),
        encode_utf8(cs).subrange(off(cs, k), off(cs, k + 1)) == encode_scalar(cs[k] as u32),
        off(cs, k + 1) <= encode_utf8(cs).len(),
{
    let e = encode_scalar(cs[k] as u32);
    assert(cs.take(k + 1) =~= cs.take(k) + seq![cs[k]]);
    lemma_encode_concat(cs.take(k), seq![cs[k]]);
    assert(seq![cs[k]].drop_first() =~= Seq::<char>::empty());
    reveal_with_fuel(encode_utf8, 2);
    assert(encode_utf8(seq![cs[k]]) =~= e);
    assert(cs =~= cs.take(k + 1) + cs.skip(k + 1));
    lemma_encode_concat(cs.take(k + 1), cs.skip(k + 1));
    assert(encode_utf8(cs).subrange(off(cs, k), off(cs, k + 1)) =~= e);
}

/// Offsets grow with the characters, from zero to the length of the encoding.
pub proof fn lemma_off_bounds(cs: Seq<char>, k: int)
    requires
        0 <= k <= cs.len(),
    ensures
        0 <= off(cs, k) <= encode_utf8(cs).len(),
        off(cs, 0) == 0,
        off(cs, cs.len() as int) == encode_utf8(cs).len(),
        k < cs.len() ==> off(cs, k) < off(cs, k + 1),
    decreases k,
{
    assert(cs.take(0) =~= Seq::<char>::empty());
    assert(cs.take(cs.len() as int) =~= cs);
    if k > 0 {
        lemma_off_bounds(cs, k - 1);
        lemma_off_step(cs, k - 1);
        lemma_scalar_bytes(cs[k - 1]);
    }
    if k < cs.len() {
        lemma_off_step(cs, k);
        lemma_scalar_bytes(cs[k]);
    }
}

/// The byte at the offset of an ASCII character is that character.
pub proof fn lemma_ascii_at(cs: Seq<char>, k: int)
    requires
        0 <= k < cs.len(),
        is_ascii_char(cs[k]),
    ensures
        encode_utf8(cs)[off(cs, k)] == (cs[k] as u32) as u8,
        off(cs, k + 1) == off(cs, k) + 1,
{
    lemma_off_step(cs, k);
    lemma_scalar_bytes(cs[k]);
    assert(encode_utf8(cs).subrange(off(cs, k), off(cs, k + 1))[0] == encode_utf8(cs)[off(cs, k)]);
}

/// A byte inside the encoding of character `k` is the ASCII byte `x` only when
/// that character is `x` itself and the byte is its offset.
pub proof fn lemma_byte_in_char(cs: Seq<char>, k: int, p: int, x: char)
    requires
        0 <= k < cs.len(),
        off(cs, k) <= p < off(cs, k + 1),
        is_ascii_char(x),
        encode_utf8(cs)[p] == (x as u32) as u8,
    ensures
        cs[k] == x,
        p == off(cs, k),
{
    lemma_off_step(cs, k);
    lemma_scalar_bytes(cs[k]);
    lemma_scalar_bytes(x);
    let e = encode_scalar(cs[k] as u32);
    assert(encode_utf8(cs).subrange(off(cs, k), off(cs, k + 1))[p - off(cs, k)] == encode_utf8(
        cs,
    )[p]);
    if is_ascii_char(cs[k]) {
        assert((cs[k] as u32) as u8 == (x as u32) as u8);
        vstd::utf8::char_u32_cast(cs[k], cs[k] as u32);
        vstd::utf8::char_u32_cast(x, x as u32);
    } else {
        assert(e[p - off(cs, k)] >= 0x80);
    }
}

/// Every byte of the encoding lies inside the encoding of some character.
pub proof fn lemma_byte_owner(cs: Seq<char>, p: int) -> (k: int)
    requires
        0 <= p < encode_utf8(cs).len(),
    ensures
        0 <= k < cs.len(),
        off(cs, k) <= p < off(cs, k + 1),
    decreases cs.len(),
{
    lemma_off_bounds(cs, cs.len() as int);
    let n = cs.len() as int;
    let last = n - 1;
    lemma_off_bounds(cs, last);
    if p >= off(cs, last) {
        last
    } else {
        let front = cs.take(last);
        assert forall|j: int| 0 <= j <= last implies off(front, j) == off(cs, j) by {
            assert(front.take(j) =~= cs.take(j));
        }
        assert(front.take(last) =~= front);
        lemma_off_bounds(front, last);
        let k = lemma_byte_owner(front, p);
        k
    }
}

/// Searching the bytes for an ASCII byte from the offset of character `k` finds
/// the offset of the character that the search over the characters finds.
pub proof fn lemma_first_index_bytes(cs: Seq<char>, x: char, k: int)
    requires
        0 <= k <= cs.len(),
        is_ascii_char(x),
    ensures
        first_index(encode_utf8(cs), (x as u32) as u8, off(cs, k)) == match first_index(cs, x, k) {
            Some(j) => Some(off(cs, j)),
            None => None,
        },
{
    let b = encode_utf8(cs);
    let xb = (x as u32) as u8;
    lemma_off_bounds(cs, k);
    lemma_first_index(cs, x, k);
    match first_index(cs, x, k) {
        Some(j) => {
            lemma_off_bounds(cs, j);
            lemma_ascii_at(cs, j);
            lemma_off_step(cs, j);
            lemma_off_monotone(cs, k, j);
            assert forall|p: int| off(cs, k) <= p < off(cs, j) implies #[trigger] b[p] != xb by {
                if b[p] == xb {
                    lemma_off_bounds(cs, cs.len() as int);
                    let q = lemma_byte_owner(cs, p);
                    lemma_byte_in_char(cs, q, p, x);
                    if q < k {
                        lemma_off_monotone(cs, q + 1, k);
                    } else if q >= j {
                        lemma_off_monotone(cs, j, q);
                    } else {
                        assert(cs[q] != x);
                    }
                }
            }
            lemma_first_index_at(b, xb, off(cs, k), off(cs, j));
        },
        None => {
            lemma_off_bounds(cs, cs.len() as int);
            assert forall|p: int| off(cs, k) <= p < b.len() implies #[trigger] b[p] != xb by {
                if b[p] == xb {
                    let q = lemma_byte_owner(cs, p);
                    lemma_byte_in_char(cs, q, p, x);
                    if q < k {
                        lemma_off_monotone(cs, q + 1, k);
                    }
                }
            }
            lemma_first_index_none(b, xb, off(cs, k));
        },
    }
}

/// The offset of a character lies after the bytes of every character before it.
pub proof fn lemma_off_strict(cs: Seq<char>, i: int, j: int)
    requires
        0 <= i < j <= cs.len(),
    ensures
        off(cs, i) < off(cs, j),
        off(cs, i + 1) <= off(cs, j),
{
    lemma_off_bounds(cs, i);
    lemma_off_monotone(cs, i + 1, j);
}

/// Searching the bytes backwards for an ASCII byte between the offsets of
/// characters `lo` and `hi` finds the offset of what the search over the
/// characters finds.
pub proof fn lemma_last_index_bytes(cs: Seq<char>, x: char, lo: int, hi: int)
    requires
        0 <= lo <= hi <= cs.len(),
        is_ascii_char(x),
    ensures
        last_index_below(encode_utf8(cs), (x as u32) as u8, off(cs, lo), off(cs, hi)) == match last_index_below(
            cs,
            x,
            lo,
            hi,
        ) {
            Some(j) => Some(off(cs, j)),
            None => None,
        },
{
    let b = encode_utf8(cs);
    let xb = (x as u32) as u8;
    lemma_off_bounds(cs, cs.len() as int);
    lemma_off_monotone(cs, lo, hi);
    lemma_off_monotone(cs, hi, cs.len() as int);
    lemma_last_index(cs, x, lo, hi);
    match last_index_below(cs, x, lo, hi) {
        Some(j) => {
            lemma_ascii_at(cs, j);
            lemma_off_monotone(cs, lo, j);
            lemma_off_monotone(cs, j + 1, hi);
            assert forall|p: int| off(cs, j) < p < off(cs, hi) implies #[trigger] b[p] != xb by {
                if b[p] == xb {
                    let q = lemma_byte_owner(cs, p);
                    lemma_byte_in_char(cs, q, p, x);
                    if q <= j {
                        lemma_off_monotone(cs, q, j);
                    } else if q >= hi {
                        lemma_off_monotone(cs, hi, q);
                    } else {
                        assert(cs[q] != x);
                    }
                }
            }
            lemma_last_index_at(b, xb, off(cs, lo), off(cs, hi), off(cs, j));
        },
        None => {
            assert forall|p: int| off(cs, lo) <= p < off(cs, hi) implies #[trigger] b[p] != xb by {
                if b[p] == xb {
                    let q = lemma_byte_owner(cs, p);
                    lemma_byte_in_char(cs, q, p, x);
                    if q < lo {
                        lemma_off_strict(cs, q, lo);
                    } else if q >= hi {
                        lemma_off_monotone(cs, hi, q);
                    } else {
                        assert(cs[q] != x);
                    }
                }
            }
            lemma_last_index_none(b, xb, off(cs, lo), off(cs, hi));
        },
    }
}

/// The encoding of an ASCII text is its characters as bytes, one each.
pub proof fn lemma_ascii_text(cs: Seq<char>)
    requires
        forall|t: int| 0 <= t < cs.len() ==> is_ascii_char(#[trigger] cs[t]),
    ensures
        encode_utf8(cs).len() == cs.len(),
        forall|t: int| 0 <= t <= cs.len() ==> off(cs, t) == t,
        forall|t: int| 0 <= t < cs.len() ==> #[trigger] encode_utf8(cs)[t] == (cs[t] as u32) as u8,
{
    assert forall|t: int| 0 <= t <= cs.len() implies off(cs, t) == t by {
        lemma_ascii_offsets(cs, t);
    }
    lemma_off_bounds(cs, cs.len() as int);
    assert forall|t: int| 0 <= t < cs.len() implies #[trigger] encode_utf8(cs)[t] == (
    cs[t] as u32) as u8 by {
        lemma_ascii_offsets(cs, t);
        lemma_ascii_at(cs, t);
    }
}

proof fn lemma_ascii_offsets(cs: Seq<char>, t: int)
    requires
        forall|u: int| 0 <= u < cs.len() ==> is_ascii_char(#[trigger] cs[u]),
        0 <= t <= cs.len(),
    ensures
        off(cs, t) == t,
    decreases t,
{
    if t == 0 {
        lemma_off_bounds(cs, 0);
    } else {
        lemma_ascii_offsets(cs, t - 1);
        lemma_ascii_at(cs, t - 1);
    }
}

/// Where the ASCII text `pat` stands in the characters, its bytes stand in the
/// encoding at the offset of the same character.
proof fn lemma_occurs_bytes_from_chars(cs: Seq<char>, pat: Seq<char>, j: int)
    requires
        forall|t: int| 0 <= t < pat.len() ==> is_ascii_char(#[trigger] pat[t]),
        occurs_at(cs, pat, j),
    ensures
        occurs_at(encode_utf8(cs), encode_utf8(pat), off(cs, j)),
{
    lemma_ascii_text(pat);
    assert forall|t: int| 0 <= t <= pat.len() implies #[trigger] off(cs, j + t) == off(cs, j) + t by {
        lemma_run_offsets(cs, pat, j, t);
    }
    lemma_off_bounds(cs, j + pat.len());
    assert forall|t: int| 0 <= t < pat.len() implies #[trigger] encode_utf8(cs)[off(cs, j) + t]
        == encode_utf8(pat)[t] by {
        assert(cs[j + t] == pat[t]);
        lemma_ascii_at(cs, j + t);
    }
}

proof fn lemma_run_offsets(cs: Seq<char>, pat: Seq<char>, j: int, t: int)
    requires
        forall|u: int| 0 <= u < pat.len() ==> is_ascii_char(#[trigger] pat[u]),
        occurs_at(cs, pat, j),
        0 <= t <= pat.len(),
    ensures
        off(cs, j + t) == off(cs, j) + t,
    decreases t,
{
    if t > 0 {
        lemma_run_offsets(cs, pat, j, t - 1);
        assert(cs[j + (t - 1)] == pat[t - 1]);
        lemma_ascii_at(cs, j + t - 1);
    }
}

/// Where the bytes of an ASCII text `pat` occur in the encoding, `pat` occurs
/// in the characters, at the character whose offset that is.
proof fn lemma_occurs_chars_from_bytes(cs: Seq<char>, pat: Seq<char>, p: int) -> (j: int)
    requires
        pat.len() > 0,
        forall|t: int| 0 <= t < pat.len() ==> is_ascii_char(#[trigger] pat[t]),
        occurs_at(encode_utf8(cs), encode_utf8(pat), p),
    ensures
        0 <= j < cs.len(),
        p == off(cs, j),
        occurs_at(cs, pat, j),
{
    lemma_ascii_text(pat);
    lemma_off_bounds(cs, cs.len() as int);
    let j = lemma_byte_owner(cs, p);
    assert(encode_utf8(cs)[p + 0] == encode_utf8(pat)[0]);
    lemma_off_bounds(cs, j);
    lemma_byte_in_char(cs, j, p, pat[0]);
    assert forall|t: int| 0 <= t < pat.len() implies j + t < cs.len() && #[trigger] cs[j + t]
        == pat[t] && off(cs, j + t) == p + t by {
        lemma_run_from_bytes(cs, pat, p, j, t);
    }
    lemma_run_from_bytes(cs, pat, p, j, pat.len() - 1);
    assert forall|t: int| 0 <= t < pat.len() implies #[trigger] cs[j + t] == pat[t] by {
        lemma_run_from_bytes(cs, pat, p, j, t);
    }
    j
}

proof fn lemma_run_from_bytes(cs: Seq<char>, pat: Seq<char>, p: int, j: int, t: int)
    requires
        pat.len() > 0,
        forall|u: int| 0 <= u < pat.len() ==> is_ascii_char(#[trigger] pat[u]),
        encode_utf8(pat).len() == pat.len(),
        forall|u: int| 0 <= u < pat.len() ==> #[trigger] encode_utf8(pat)[u] == (pat[u] as u32) as u8,
        occurs_at(encode_utf8(cs), encode_utf8(pat), p),
        0 <= j < cs.len(),
        p == off(cs, j),
        0 <= t < pat.len(),
    ensures
        j + t < cs.len(),
        cs[j + t] == pat[t],
        off(cs, j + t) == p + t,
    decreases t,
{
    lemma_off_bounds(cs, cs.len() as int);
    lemma_off_bounds(cs, j);
    if t == 0 {
        assert(encode_utf8(cs)[p + 0] == encode_utf8(pat)[0]);
        lemma_byte_in_char(cs, j, p, pat[0]);
    } else {
        lemma_run_from_bytes(cs, pat, p, j, t - 1);
        lemma_ascii_at(cs, j + t - 1);
        if j + t >= cs.len() {
            assert(off(cs, j + t) == encode_utf8(cs).len());
            assert(false);
        }
        lemma_off_bounds(cs, j + t);
        assert(encode_utf8(cs)[p + t] == encode_utf8(pat)[t]);
        lemma_byte_in_char(cs, j + t, p + t, pat[t]);
    }
}

/// Searching the bytes for an ASCII text from the offset of character `k` finds
/// the offset of what the search over the characters finds.
pub proof fn lemma_first_occurrence_bytes(cs: Seq<char>, pat: Seq<char>, k: int)
    requires
        0 <= k <= cs.len(),
        pat.len() > 0,
        forall|t: int| 0 <= t < pat.len() ==> is_ascii_char(#[trigger] pat[t]),
    ensures
        first_occurrence(encode_utf8(cs), encode_utf8(pat), off(cs, k)) == match first_occurrence(
            cs,
            pat,
            k,
        ) {
            Some(j) => Some(off(cs, j)),
            None => None,
        },
{
    let b = encode_utf8(cs);
    let pb = encode_utf8(pat);
    lemma_off_bounds(cs, k);
    lemma_first_occurrence(cs, pat, k);
    match first_occurrence(cs, pat, k) {
        Some(j) => {
            lemma_occurs_bytes_from_chars(cs, pat, j);
            lemma_off_monotone(cs, k, j);
            assert forall|p: int| off(cs, k) <= p < off(cs, j) implies !occurs_at(b, pb, p) by {
                if occurs_at(b, pb, p) {
                    let q = lemma_occurs_chars_from_bytes(cs, pat, p);
                    if q < k {
                        lemma_off_strict(cs, q, k);
                    } else if q >= j {
                        lemma_off_monotone(cs, j, q);
                    }
                }
            }
            lemma_first_occurrence_at(b, pb, off(cs, k), off(cs, j));
        },
        None => {
            assert forall|p: int| off(cs, k) <= p implies !occurs_at(b, pb, p) by {
                if occurs_at(b, pb, p) {
                    let q = lemma_occurs_chars_from_bytes(cs, pat, p);
                    if q < k {
                        lemma_off_strict(cs, q, k);
                    }
                }
            }
            lemma_first_occurrence_none(b, pb, off(cs, k));
        },
    }
}

/// The bytes between the offsets of characters `i` and `j` encode the
/// characters between them.
pub proof fn lemma_encode_subrange(cs: Seq<char>, i: int, j: int)
    requires
        0 <= i <= j <= cs.len(),
    ensures
        encode_utf8(cs).subrange(off(cs, i), off(cs, j)) == encode_utf8(cs.subrange(i, j)),
{
    assert(cs.take(j) =~= cs.take(i) + cs.subrange(i, j));
    lemma_encode_concat(cs.take(i), cs.subrange(i, j));
    assert(cs =~= cs.take(j) + cs.skip(j));
    lemma_encode_concat(cs.take(j), cs.skip(j));
    assert(encode_utf8(cs).subrange(off(cs, i), off(cs, j)) =~= encode_utf8(cs.subrange(i, j)));
}

/// Offsets do not decrease.
pub proof fn lemma_off_monotone(cs: Seq<char>, i: int, j: int)
    requires
        0 <= i <= j <= cs.len(),
    ensures
        off(cs, i) <= off(cs, j),
    decreases j - i,
{
    if i < j {
        lemma_off_monotone(cs, i, j - 1);
        lemma_off_bounds(cs, j - 1);
    }
}

} // verus!
