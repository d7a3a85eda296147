//! Reading back what was written: the text of a subject file, read by
//! `parse_subject_json`, gives the subject it was written from.
use vstd::prelude::*;
use crate::fields::{
    item_end, number_end, number_field, number_items, number_list_field, string_field,
    value_start, ReversedBrackets,
};
use crate::seqs::{
    first_index, first_occurrence, lemma_first_index, lemma_first_index_at, lemma_first_index_none,
    lemma_first_occurrence, lemma_first_occurrence_at, lemma_first_where_at, occurs_at,
};
use crate::text::{
    back_white, exponent_mark, is_digit, is_float_syntax, is_mantissa, is_number_syntax,
    is_unsigned_float_syntax, is_white_space, is_word, same_letter, skip_white, trimmed,
};
use crate::subject_file::{
    category_body, category_of_block, category_separator, joined_grades, render_categories,
    render_category, render_subject, starting_categories, subject_parse, CategoryText,
    SubjectText,
};
use crate::parse_model::{
    brace_scan_chars, categories_key_chars, category_blocks_chars, lemma_subject_parse_chars,
    subject_parse_chars,
};

verus! {

/// A character that can stand in the text of a number: an ASCII letter or
/// digit, or one of `+ - .`.
pub open spec fn is_number_char(c: char) -> bool {
    let v = c as u32;
    ||| (0x30 <= v && v <= 0x39)
    ||| (0x41 <= v && v <= 0x5a)
    ||| (0x61 <= v && v <= 0x7a)
    ||| c == '+'
    ||| c == '-'
    ||| c == '.'
}

/// The text of a number is not empty and holds only letters, digits and `+ - .`.
pub proof fn lemma_float_chars(t: Seq<char>)
    requires
        is_float_syntax(t),
    ensures
        t.len() > 0,
        forall|i: int| 0 <= i < t.len() ==> is_number_char(#[trigger] t[i]),
{
    if t.len() > 0 && (t[0] == '+' || t[0] == '-') {
        let u = t.drop_first();
        lemma_unsigned_float_chars(u);
        assert forall|i: int| 0 <= i < t.len() implies is_number_char(#[trigger] t[i]) by {
            if i > 0 {
                assert(t[i] == u[i - 1]);
            }
        }
    } else {
        lemma_unsigned_float_chars(t);
    }
}

proof fn lemma_word_chars(u: Seq<char>, w: Seq<char>)
    requires
        is_word(u, w),
        forall|i: int| 0 <= i < w.len() ==> 0x61 <= #[trigger] (w[i] as u32) <= 0x7a,
    ensures
        forall|i: int| 0 <= i < u.len() ==> is_number_char(#[trigger] u[i]),
{
    assert forall|i: int| 0 <= i < u.len() implies is_number_char(#[trigger] u[i]) by {
        assert(same_letter(u[i], w[i]));
        assert(0x61 <= (w[i] as u32) <= 0x7a);
    }
}

proof fn lemma_unsigned_float_chars(u: Seq<char>)
    requires
        is_unsigned_float_syntax(u),
    ensures
        u.len() > 0,
        forall|i: int| 0 <= i < u.len() ==> is_number_char(#[trigger] u[i]),
{
    let inf = seq!['i', 'n', 'f'];
    let infinity = seq!['i', 'n', 'f', 'i', 'n', 'i', 't', 'y'];
    let nan = seq!['n', 'a', 'n'];
    if is_word(u, inf) {
        assert forall|i: int| 0 <= i < inf.len() implies 0x61 <= #[trigger] (inf[i] as u32) <= 0x7a by {}
        lemma_word_chars(u, inf);
    } else if is_word(u, infinity) {
        assert forall|i: int| 0 <= i < infinity.len() implies 0x61 <= #[trigger] (
        infinity[i] as u32) <= 0x7a by {}
        lemma_word_chars(u, infinity);
    } else if is_word(u, nan) {
        assert forall|i: int| 0 <= i < nan.len() implies 0x61 <= #[trigger] (nan[i] as u32) <= 0x7a by {}
        lemma_word_chars(u, nan);
    } else {
        assert(is_number_syntax(u));
        let e = exponent_mark(u);
        crate::seqs::lemma_first_where(u, |c: char| c == 'e' || c == 'E', 0);
        assert(0 <= e <= u.len());
        lemma_first_index(u, '.', 0);
        assert forall|i: int| 0 <= i < u.len() implies is_number_char(#[trigger] u[i]) by {
            if i < e {
                match first_index(u, '.', 0) {
                    Some(d) => {
                        if d < e {
                            if i < d {
                                assert(is_digit(u[i]));
                            } else if i > d {
                                assert(is_digit(u[i]));
                            }
                        } else {
                            assert(is_digit(u[i]));
                        }
                    },
                    None => {
                        assert(is_digit(u[i]));
                    },
                }
            } else if i > e {
                let d = if e + 1 < u.len() && (u[e + 1] == '+' || u[e + 1] == '-') {
                    e + 2
                } else {
                    e + 1
                };
                if i >= d {
                    assert(is_digit(u[i]));
                }
            }
        }
        match first_index(u, '.', 0) {
            Some(d) => {},
            None => {},
        }
    }
}

/// A character of the text of a number is none of the characters that delimit
/// fields, and not white space.
pub proof fn lemma_number_char_not_delimiter(c: char)
    requires
        is_number_char(c),
    ensures
        c != '"',
        c != ',',
        c != '\n',
        c != '{',
        c != '}',
        c != '[',
        c != ']',
        c != ':',
        !is_white_space(c),
{
}

/// Splitting a list at one of its commas: the items of the whole are the items
/// before the comma followed by the items after it.
pub proof fn lemma_number_items_split(s: Seq<char>, a: int, p: int, end: int)
    requires
        0 <= a <= p < end <= s.len(),
        s[p] == ',',
    ensures
        number_items(s, a, end) == number_items(s, a, p) + number_items(s, p + 1, end),
    decreases p - a,
{
    lemma_first_index(s, ',', a);
    let c = item_end(s, a, end);
    match first_index(s, ',', a) {
        Some(f) => {
            assert(f <= p);
            if f < p {
                assert(item_end(s, a, p) == f);
                lemma_number_items_split(s, f + 1, p, end);
                let t = trimmed(s, a, f);
                let head = if is_float_syntax(t) {
                    seq![t]
                } else {
                    seq![]
                };
                assert(number_items(s, a, end) == head + number_items(s, f + 1, end));
                assert(number_items(s, a, p) == head + number_items(s, f + 1, p));
                assert(head + (number_items(s, f + 1, p) + number_items(s, p + 1, end)) =~= (head
                    + number_items(s, f + 1, p)) + number_items(s, p + 1, end));
            } else {
                assert(item_end(s, a, p) == p);
                let t = trimmed(s, a, p);
                let head = if is_float_syntax(t) {
                    seq![t]
                } else {
                    seq![]
                };
                assert(number_items(s, a, p) == head);
            }
        },
        None => {},
    }
}

/// The empty text is not the text of a number.
pub proof fn lemma_empty_not_float()
    ensures
        !is_float_syntax(Seq::<char>::empty()),
{
    if is_float_syntax(Seq::<char>::empty()) {
        lemma_float_chars(Seq::<char>::empty());
    }
}

/// Trimming a text that holds no white space at its ends leaves it as it is.
pub proof fn lemma_trimmed_number(s: Seq<char>, a: int, g: Seq<char>)
    requires
        is_float_syntax(g),
        0 <= a,
        a + g.len() <= s.len(),
        forall|t: int| 0 <= t < g.len() ==> s[a + t] == #[trigger] g[t],
    ensures
        trimmed(s, a, a + g.len()) == g,
{
    lemma_float_chars(g);
    assert(s[a + 0] == g[0]);
    lemma_number_char_not_delimiter(g[0]);
    assert(s[a + (g.len() - 1)] == g[g.len() - 1]);
    lemma_number_char_not_delimiter(g[g.len() - 1]);
    assert(skip_white(s, a, a + g.len()) == a);
    assert(back_white(s, a, a + g.len()) == a + g.len());
    assert(s.subrange(a, a + g.len()) =~= g);
}

/// The items of the list region that holds the written first `n` grades are
/// those grades.
pub proof fn lemma_grades_items(s: Seq<char>, a: int, gs: Seq<Seq<char>>, n: int)
    requires
        0 <= n <= gs.len(),
        forall|i: int| 0 <= i < gs.len() ==> is_float_syntax(#[trigger] gs[i]),
        0 <= a,
        a + joined_grades(gs, n).len() <= s.len(),
        forall|t: int|
            0 <= t < joined_grades(gs, n).len() ==> s[a + t] == #[trigger] joined_grades(gs, n)[t],
    ensures
        number_items(s, a, a + joined_grades(gs, n).len()) == gs.take(n),
    decreases n,
{
    let j = joined_grades(gs, n);
    let end = a + j.len();
    if n == 0 {
        lemma_first_index(s, ',', a);
        lemma_empty_not_float();
        assert(skip_white(s, a, a) == a);
        assert(back_white(s, a, a) == a);
        assert(trimmed(s, a, a) =~= Seq::<char>::empty());
        assert(gs.take(0) =~= Seq::<Seq<char>>::empty());
    } else if n == 1 {
        let g = gs[0];
        assert(is_float_syntax(g));
        lemma_float_chars(g);
        lemma_first_index(s, ',', a);
        match first_index(s, ',', a) {
            Some(c) => {
                if c < end {
                    assert(s[a + (c - a)] == g[c - a]);
                    lemma_number_char_not_delimiter(g[c - a]);
                }
            },
            None => {},
        }
        assert(item_end(s, a, end) == end);
        lemma_trimmed_number(s, a, g);
        assert(gs.take(1) =~= seq![g]);
    } else {
        let front = joined_grades(gs, n - 1);
        let g = gs[n - 1];
        assert(is_float_syntax(g));
        lemma_float_chars(g);
        let m = front.len() as int;
        let p = a + m;
        assert(j == front + ", "@ + g);
        reveal_strlit(", ");
        assert(s[a + m] == j[m]);
        assert(s[p] == ',');
        lemma_number_items_split(s, a, p, end);
        assert forall|t: int| 0 <= t < front.len() implies s[a + t] == #[trigger] front[t] by {
            assert(s[a + t] == j[t]);
        }
        lemma_grades_items(s, a, gs, n - 1);
        // the last item: a space and the last grade
        assert(s[p + 1] == ' ') by {
            assert(s[a + (m + 1)] == j[m + 1]);
        }
        assert forall|t: int| 0 <= t < g.len() implies s[(p + 2) + t] == #[trigger] g[t] by {
            assert(s[a + (m + 2 + t)] == j[m + 2 + t]);
        }
        lemma_first_index(s, ',', p + 1);
        match first_index(s, ',', p + 1) {
            Some(c) => {
                if c < end {
                    if c == p + 1 {
                    } else {
                        assert(s[(p + 2) + (c - p - 2)] == g[c - p - 2]);
                        lemma_number_char_not_delimiter(g[c - p - 2]);
                    }
                }
            },
            None => {},
        }
        assert(item_end(s, p + 1, end) == end);
        lemma_trimmed_number(s, p + 2, g);
        lemma_number_char_not_delimiter(g[0]);
        assert(skip_white(s, p + 1, end) == skip_white(s, p + 2, end));
        assert(skip_white(s, p + 2, end) == p + 2) by {
            assert(s[(p + 2) + 0] == g[0]);
        }
        assert(trimmed(s, p + 1, end) == trimmed(s, p + 2, end));
        assert(number_items(s, p + 1, end) =~= seq![g]);
        assert(gs.take(n) =~= gs.take(n - 1) + seq![g]);
    }
}

/// Every character of the written grades is a character of a number, a comma
/// or a space.
pub proof fn lemma_joined_grades_chars(gs: Seq<Seq<char>>, n: int, t: int)
    requires
        0 <= n <= gs.len(),
        forall|i: int| 0 <= i < gs.len() ==> is_float_syntax(#[trigger] gs[i]),
        0 <= t < joined_grades(gs, n).len(),
    ensures
        is_number_char(joined_grades(gs, n)[t]) || joined_grades(gs, n)[t] == ','
            || joined_grades(gs, n)[t] == ' ',
    decreases n,
{
    if n == 1 {
        assert(is_float_syntax(gs[0]));
        lemma_float_chars(gs[0]);
    } else if n >= 2 {
        let front = joined_grades(gs, n - 1);
        let g = gs[n - 1];
        assert(is_float_syntax(g));
        lemma_float_chars(g);
        reveal_strlit(", ");
        let j = front + ", "@ + g;
        assert(joined_grades(gs, n) == j);
        if t < front.len() {
            lemma_joined_grades_chars(gs, n - 1, t);
        } else if t >= front.len() + 2 {
            assert(j[t] == g[t - front.len() - 2]);
        }
    }
}

/// A category whose texts can be written and read back: its name holds no
/// `"` and no braces, and its weight and grades are texts of numbers.
pub open spec fn valid_category(c: CategoryText) -> bool {
    &&& forall|i: int|
        0 <= i < c.name.len() ==> #[trigger] c.name[i] != '"' && c.name[i] != '{' && c.name[i]
            != '}'
    &&& is_float_syntax(c.weight)
    &&& forall|i: int| 0 <= i < c.grades.len() ==> is_float_syntax(#[trigger] c.grades[i])
}

/// The positions of the parts of a category block: the name starts at 17,
/// the weight at `36 + |name|`, the grades at `55 + |name| + |weight|`.
pub proof fn lemma_category_body_layout(c: CategoryText)
    ensures
        ({
            let b = category_body(c);
            let n = c.name.len() as int;
            let w = c.weight.len() as int;
            let j = joined_grades(c.grades, c.grades.len() as int);
            let l0 = "{\n      \"name\": \""@;
            let l1 = "\",\n      \"weight\": "@;
            let l2 = ",\n      \"grades\": ["@;
            let l3 = "]\n    }"@;
            &&& l0 == seq!['{', '\n', ' ', ' ', ' ', ' ', ' ', ' ', '"', 'n', 'a', 'm', 'e', '"', ':', ' ', '"']
            &&& l1 == seq!['"', ',', '\n', ' ', ' ', ' ', ' ', ' ', ' ', '"', 'w', 'e', 'i', 'g', 'h', 't', '"', ':', ' ']
            &&& l2 == seq![',', '\n', ' ', ' ', ' ', ' ', ' ', ' ', '"', 'g', 'r', 'a', 'd', 'e', 's', '"', ':', ' ', '[']
            &&& l3 == seq![']', '\n', ' ', ' ', ' ', ' ', '}']
            &&& b.len() == 62 + n + w + j.len()
            &&& forall|t: int| 0 <= t < 17 ==> #[trigger] b[t] == l0[t]
            &&& forall|t: int| 0 <= t < n ==> #[trigger] b[17 + t] == c.name[t]
            &&& forall|t: int| 0 <= t < 19 ==> #[trigger] b[17 + n + t] == l1[t]
            &&& forall|t: int| 0 <= t < w ==> #[trigger] b[36 + n + t] == c.weight[t]
            &&& forall|t: int| 0 <= t < 19 ==> #[trigger] b[36 + n + w + t] == l2[t]
            &&& forall|t: int| 0 <= t < j.len() ==> #[trigger] b[55 + n + w + t] == j[t]
            &&& forall|t: int| 0 <= t < 7 ==> #[trigger] b[55 + n + w + j.len() + t] == l3[t]
        }),
{
    let l0 = "{\n      \"name\": \""@;
    let l1 = "\",\n      \"weight\": "@;
    let l2 = ",\n      \"grades\": ["@;
    let l3 = "]\n    }"@;
    reveal_strlit("{\n      \"name\": \"");
    reveal_strlit("\",\n      \"weight\": ");
    reveal_strlit(",\n      \"grades\": [");
    reveal_strlit("]\n    }");
    assert(l0 =~= seq!['{', '\n', ' ', ' ', ' ', ' ', ' ', ' ', '"', 'n', 'a', 'm', 'e', '"', ':', ' ', '"']);
    assert(l1 =~= seq!['"', ',', '\n', ' ', ' ', ' ', ' ', ' ', ' ', '"', 'w', 'e', 'i', 'g', 'h', 't', '"', ':', ' ']);
    assert(l2 =~= seq![',', '\n', ' ', ' ', ' ', ' ', ' ', ' ', '"', 'g', 'r', 'a', 'd', 'e', 's', '"', ':', ' ', '[']);
    assert(l3 =~= seq![']', '\n', ' ', ' ', ' ', ' ', '}']);
}

/// The character at position `k` of a category block, by the part it lies in.
pub proof fn lemma_body_char(c: CategoryText, k: int)
    requires
        0 <= k < category_body(c).len(),
    ensures
        ({
            let b = category_body(c);
            let n = c.name.len() as int;
            let w = c.weight.len() as int;
            let j = joined_grades(c.grades, c.grades.len() as int);
            &&& k < 17 ==> b[k] == seq!['{', '\n', ' ', ' ', ' ', ' ', ' ', ' ', '"', 'n', 'a', 'm', 'e', '"', ':', ' ', '"'][k]
            &&& 17 <= k < 17 + n ==> b[k] == c.name[k - 17]
            &&& 17 + n <= k < 36 + n ==> b[k] == seq!['"', ',', '\n', ' ', ' ', ' ', ' ', ' ', ' ', '"', 'w', 'e', 'i', 'g', 'h', 't', '"', ':', ' '][k - 17 - n]
            &&& 36 + n <= k < 36 + n + w ==> b[k] == c.weight[k - 36 - n]
            &&& 36 + n + w <= k < 55 + n + w ==> b[k] == seq![',', '\n', ' ', ' ', ' ', ' ', ' ', ' ', '"', 'g', 'r', 'a', 'd', 'e', 's', '"', ':', ' ', '['][k - 36 - n - w]
            &&& 55 + n + w <= k < 55 + n + w + j.len() ==> b[k] == j[k - 55 - n - w]
            &&& 55 + n + w + j.len() <= k ==> b[k] == seq![']', '\n', ' ', ' ', ' ', ' ', '}'][k - 55 - n - w - j.len()]
        }),
{
    lemma_category_body_layout(c);
    let n = c.name.len() as int;
    let w = c.weight.len() as int;
    let j = joined_grades(c.grades, c.grades.len() as int);
    let b = category_body(c);
    if k < 17 {
    } else if k < 17 + n {
        assert(b[17 + (k - 17)] == c.name[k - 17]);
    } else if k < 36 + n {
        assert(b[17 + n + (k - 17 - n)] == b[k]);
    } else if k < 36 + n + w {
        assert(b[36 + n + (k - 36 - n)] == b[k]);
    } else if k < 55 + n + w {
        assert(b[36 + n + w + (k - 36 - n - w)] == b[k]);
    } else if k < 55 + n + w + j.len() {
        assert(b[55 + n + w + (k - 55 - n - w)] == b[k]);
    } else {
        assert(b[55 + n + w + j.len() + (k - 55 - n - w - j.len())] == b[k]);
    }
}

/// The name of a category block reads back as the name it was written with.
pub proof fn lemma_block_name(c: CategoryText)
    requires
        valid_category(c),
    ensures
        string_field(category_body(c), "\"name\""@) == Some(c.name),
{
    let b = category_body(c);
    let n = c.name.len() as int;
    let key = "\"name\""@;
    reveal_strlit("\"name\"");
    assert(key =~= seq!['"', 'n', 'a', 'm', 'e', '"']);
    lemma_category_body_layout(c);
    assert forall|t: int| 0 <= t < 6 implies #[trigger] b[8 + t] == key[t] by {
        lemma_body_char(c, 8 + t);
    }
    assert(occurs_at(b, key, 8));
    assert forall|j: int| 0 <= j < 8 implies !occurs_at(b, key, j) by {
        lemma_body_char(c, j);
        assert(b[j + 0] == b[j]);
    }
    lemma_first_occurrence_at(b, key, 0, 8);
    lemma_body_char(c, 14);
    lemma_first_index_at(b, ':', 14, 14);
    assert(value_start(b, key) == Some(15int));
    lemma_body_char(c, 15);
    lemma_body_char(c, 16);
    assert(!is_white_space(b[16]));
    assert(skip_white(b, 16, b.len() as int) == 16);
    assert(is_white_space(b[15]));
    assert(skip_white(b, 15, b.len() as int) == 16);
    lemma_body_char(c, 17 + n);
    assert forall|j: int| 17 <= j < 17 + n implies #[trigger] b[j] != '"' by {
        lemma_body_char(c, j);
    }
    lemma_first_index_at(b, '"', 17, 17 + n);
    assert(b.subrange(17, 17 + n) =~= c.name) by {
        assert forall|t: int| 0 <= t < n implies b.subrange(17, 17 + n)[t] == c.name[t] by {
            lemma_body_char(c, 17 + t);
        }
    }
}

/// The first occurrence in a category block of a key `"xxxxxx"` that stands at
/// `p`: it is `p`, unless the name is the six letters of the key, which puts a
/// copy of the key at 16, just before the name.
proof fn lemma_body_key(c: CategoryText, key: Seq<char>, p: int) -> (k: int)
    requires
        valid_category(c),
        key.len() == 8,
        key[0] == '"',
        key[7] == '"',
        forall|t: int| 1 <= t < 7 ==> #[trigger] key[t] != '"',
        occurs_at(category_body(c), key, p),
        forall|j: int|
            0 <= j < p && #[trigger] category_body(c)[j] == '"' && j != 16 ==> category_body(c)[j
                + 1] != key[1],
    ensures
        first_occurrence(category_body(c), key, 0) == Some(k),
        k == p || (k == 16 && c.name.len() == 6 && forall|t: int|
            0 <= t < 6 ==> #[trigger] c.name[t] == key[t + 1]),
{
    let b = category_body(c);
    let n = c.name.len() as int;
    lemma_first_occurrence(b, key, 0);
    let k = match first_occurrence(b, key, 0) {
        Some(k) => k,
        None => {
            assert(false);
            0
        },
    };
    if k < p {
        assert(b[k + 0] == key[0]);
        assert(b[k + 1] == key[1]);
        assert(k == 16);
        lemma_category_body_layout(c);
        if n < 6 {
            lemma_body_char(c, 17 + n);
            assert(b[16 + (n + 1)] == key[n + 1]);
        } else if n > 6 {
            lemma_body_char(c, 23);
            assert(b[16int + 7] == key[7]);
        }
        assert forall|t: int| 0 <= t < 6 implies #[trigger] c.name[t] == key[t + 1] by {
            lemma_body_char(c, 17 + t);
            assert(b[16 + (t + 1)] == key[t + 1]);
        }
    }
    k
}

/// Whether `c` is a character of the written weight or grades: a character of
/// a number, a comma or a space.
pub open spec fn is_list_char(c: char) -> bool {
    is_number_char(c) || c == ',' || c == ' '
}

/// The weight of a category block reads back as the weight it was written with.
pub proof fn lemma_block_weight(c: CategoryText)
    requires
        valid_category(c),
    ensures
        number_field(category_body(c), "\"weight\""@) == Some(c.weight),
{
    let b = category_body(c);
    let n = c.name.len() as int;
    let w = c.weight.len() as int;
    let key = "\"weight\""@;
    reveal_strlit("\"weight\"");
    assert(key =~= seq!['"', 'w', 'e', 'i', 'g', 'h', 't', '"']);
    lemma_category_body_layout(c);
    lemma_float_chars(c.weight);
    let p = 26 + n;
    assert forall|t: int| 0 <= t < 8 implies #[trigger] b[p + t] == key[t] by {
        lemma_body_char(c, p + t);
    }
    assert forall|j: int| 0 <= j < p && #[trigger] b[j] == '"' && j != 16 implies b[j + 1]
        != key[1] by {
        lemma_body_char(c, j);
        lemma_body_char(c, j + 1);
        if 17 <= j < 17 + n {
            assert(c.name[j - 17] != '"');
        }
    }
    let k = lemma_body_key(c, key, p);
    // the colon after the key
    lemma_body_char(c, p + 8);
    if k == p {
        lemma_first_index_at(b, ':', p + 8, p + 8);
    } else {
        assert forall|j: int| k + 8 <= j < p + 8 implies #[trigger] b[j] != ':' by {
            lemma_body_char(c, j);
        }
        lemma_first_index_at(b, ':', k + 8, p + 8);
    }
    assert(value_start(b, key) == Some(p + 9));
    lemma_body_char(c, p + 9);
    lemma_body_char(c, 36 + n);
    assert(b[36 + n] == c.weight[0]);
    lemma_number_char_not_delimiter(c.weight[0]);
    assert(skip_white(b, 36 + n, b.len() as int) == 36 + n);
    assert(skip_white(b, p + 9, b.len() as int) == 36 + n);
    lemma_body_char(c, 36 + n + w);
    assert forall|j: int| 36 + n <= j < 36 + n + w implies !(#[trigger] b[j] == ',' || b[j] == '\n'
        || b[j] == '}') by {
        lemma_body_char(c, j);
        lemma_number_char_not_delimiter(c.weight[j - 36 - n]);
    }
    lemma_first_where_at(b, |ch: char| ch == ',' || ch == '\n' || ch == '}', 36 + n, 36 + n + w);
    assert(number_end(b, 36 + n) == 36 + n + w);
    assert forall|t: int| 0 <= t < w implies b[(36 + n) + t] == #[trigger] c.weight[t] by {
        lemma_body_char(c, 36 + n + t);
    }
    lemma_trimmed_number(b, 36 + n, c.weight);
}

/// The grades of a category block read back as the grades it was written with.
pub proof fn lemma_block_grades(c: CategoryText)
    requires
        valid_category(c),
    ensures
        number_list_field(category_body(c), "\"grades\""@) == Ok::<Seq<Seq<char>>, ReversedBrackets>(
            c.grades,
        ),
{
    let b = category_body(c);
    let n = c.name.len() as int;
    let w = c.weight.len() as int;
    let gs = c.grades;
    let j = joined_grades(gs, gs.len() as int);
    let key = "\"grades\""@;
    reveal_strlit("\"grades\"");
    assert(key =~= seq!['"', 'g', 'r', 'a', 'd', 'e', 's', '"']);
    lemma_category_body_layout(c);
    lemma_float_chars(c.weight);
    let p = 44 + n + w;
    assert forall|t: int| 0 <= t < 8 implies #[trigger] b[p + t] == key[t] by {
        lemma_body_char(c, p + t);
    }
    assert forall|i: int| 36 + n <= i < 36 + n + w implies is_number_char(#[trigger] b[i]) by {
        lemma_body_char(c, i);
    }
    assert forall|i: int| 55 + n + w <= i < 55 + n + w + j.len() implies is_list_char(
        #[trigger] b[i],
    ) by {
        lemma_body_char(c, i);
        lemma_joined_grades_chars(gs, gs.len() as int, i - 55 - n - w);
    }
    assert forall|i: int| 0 <= i < p && #[trigger] b[i] == '"' && i != 16 implies b[i + 1]
        != key[1] by {
        lemma_body_char(c, i);
        lemma_body_char(c, i + 1);
        if 17 <= i < 17 + n {
            assert(c.name[i - 17] != '"');
        }
        if 36 + n <= i < 36 + n + w {
            lemma_number_char_not_delimiter(b[i]);
        }
    }
    let k = lemma_body_key(c, key, p);
    let q = k + 8;
    let o = 54 + n + w;
    let e = 55 + n + w + j.len();
    lemma_body_char(c, o);
    lemma_body_char(c, e);
    assert forall|i: int| q <= i < o implies #[trigger] b[i] != '[' by {
        lemma_body_char(c, i);
        if 36 + n <= i < 36 + n + w {
            lemma_number_char_not_delimiter(b[i]);
        }
    }
    lemma_first_index_at(b, '[', q, o);
    assert forall|i: int| q <= i < e implies #[trigger] b[i] != ']' by {
        lemma_body_char(c, i);
        if 36 + n <= i < 36 + n + w {
            lemma_number_char_not_delimiter(b[i]);
        }
        if 55 + n + w <= i < e {
            if is_number_char(b[i]) {
                lemma_number_char_not_delimiter(b[i]);
            }
        }
    }
    lemma_first_index_at(b, ']', q, e);
    assert forall|t: int| 0 <= t < j.len() implies b[(o + 1) + t] == #[trigger] j[t] by {
        lemma_body_char(c, o + 1 + t);
    }
    lemma_grades_items(b, o + 1, gs, gs.len() as int);
    assert(gs.take(gs.len() as int) =~= gs);
}

/// A category block reads back as the category it was written from.
pub proof fn lemma_block_roundtrip(c: CategoryText)
    requires
        valid_category(c),
    ensures
        category_of_block(category_body(c)) == Ok::<Option<CategoryText>, ReversedBrackets>(
            Some(c),
        ),
{
    lemma_block_name(c);
    lemma_block_weight(c);
    lemma_block_grades(c);
}

/// In a valid category block the only `{` opens it and the only `}` closes it.
pub proof fn lemma_body_braces(c: CategoryText)
    requires
        valid_category(c),
    ensures
        forall|t: int|
            0 <= t < category_body(c).len() ==> (#[trigger] category_body(c)[t] == '{' <==> t
                == 0) && (category_body(c)[t] == '}' <==> t == category_body(c).len() - 1),
{
    let b = category_body(c);
    let n = c.name.len() as int;
    let w = c.weight.len() as int;
    let gs = c.grades;
    let j = joined_grades(gs, gs.len() as int);
    lemma_category_body_layout(c);
    lemma_float_chars(c.weight);
    assert forall|t: int| 0 <= t < b.len() implies (#[trigger] b[t] == '{' <==> t == 0) && (b[t]
        == '}' <==> t == b.len() - 1) by {
        lemma_body_char(c, t);
        if 17 <= t < 17 + n {
            assert(c.name[t - 17] != '{' && c.name[t - 17] != '}');
        } else if 36 + n <= t < 36 + n + w {
            lemma_number_char_not_delimiter(c.weight[t - 36 - n]);
        } else if 55 + n + w <= t < 55 + n + w + j.len() {
            lemma_joined_grades_chars(gs, gs.len() as int, t - 55 - n - w);
            if is_number_char(j[t - 55 - n - w]) {
                lemma_number_char_not_delimiter(j[t - 55 - n - w]);
            }
        }
    }
}

/// `brace_scan_chars` passes over characters that are not braces without change.
pub proof fn lemma_brace_scan_chars_skip(s: Seq<char>, i: int, j: int, depth: int)
    requires
        0 <= i <= j <= s.len(),
        forall|p: int| i <= p < j ==> #[trigger] s[p] != '{' && s[p] != '}',
    ensures
        brace_scan_chars(s, i, depth) == brace_scan_chars(s, j, depth),
    decreases j - i,
{
    if i < j {
        lemma_brace_scan_chars_skip(s, i + 1, j, depth);
    }
}

/// The text of the first `i` categories begins the text of the first `n`.
pub proof fn lemma_render_categories_prefix(cs: Seq<CategoryText>, i: int, n: int)
    requires
        0 <= i <= n,
    ensures
        render_categories(cs, i).len() <= render_categories(cs, n).len(),
        forall|t: int|
            0 <= t < render_categories(cs, i).len() ==> #[trigger] render_categories(cs, n)[t]
                == render_categories(cs, i)[t],
    decreases n - i,
{
    if i < n {
        lemma_render_categories_prefix(cs, i, n - 1);
        assert forall|t: int| 0 <= t < render_categories(cs, i).len() implies #[trigger] render_categories(
            cs,
            n,
        )[t] == render_categories(cs, i)[t] by {
            assert(render_categories(cs, n)[t] == render_categories(cs, n - 1)[t]);
        }
    }
}

/// The list region of a written subject: a line feed, the categories, two spaces.
pub open spec fn list_content(cs: Seq<CategoryText>) -> Seq<char> {
    "\n"@ + render_categories(cs, cs.len() as int) + "  "@
}

/// Where the lines of category `i` start in the list region.
pub open spec fn block_start(cs: Seq<CategoryText>, i: int) -> int {
    1 + render_categories(cs, i).len() as int
}

/// The characters of the list region from the start of category `i` are the
/// lines of that category and its separator.
pub proof fn lemma_list_block(cs: Seq<CategoryText>, i: int)
    requires
        0 <= i < cs.len(),
    ensures
        ({
            let cc = list_content(cs);
            let piece = render_category(cs[i]) + category_separator(i, cs.len() as int);
            &&& block_start(cs, i + 1) == block_start(cs, i) + piece.len()
            &&& block_start(cs, i + 1) <= cc.len() - 2
            &&& forall|t: int|
                0 <= t < piece.len() ==> #[trigger] cc[block_start(cs, i) + t] == piece[t]
        }),
{
    let n = cs.len() as int;
    let cc = list_content(cs);
    let piece = render_category(cs[i]) + category_separator(i, n);
    reveal_strlit("\n");
    reveal_strlit("  ");
    lemma_render_categories_prefix(cs, i + 1, n);
    let ri = render_categories(cs, i);
    assert(render_categories(cs, i + 1) == ri + render_category(cs[i]) + category_separator(i, n));
    assert forall|t: int| 0 <= t < piece.len() implies #[trigger] cc[block_start(cs, i) + t]
        == piece[t] by {
        assert(cc[1 + (ri.len() + t)] == render_categories(cs, n)[ri.len() + t]);
        assert(render_categories(cs, i + 1)[ri.len() + t] == piece[t]);
    }
}

/// The separator after a category holds no brace.
pub proof fn lemma_separator_chars(i: int, n: int)
    ensures
        forall|t: int|
            0 <= t < category_separator(i, n).len() ==> #[trigger] category_separator(i, n)[t]
                != '{' && category_separator(i, n)[t] != '}',
        category_separator(i, n).len() >= 1,
{
    reveal_strlit(",\n");
    reveal_strlit("\n");
}

/// Where reading the list region looks for category `i`: its start, or just
/// after the `{` of category `i - 1`.
pub open spec fn search_start(cs: Seq<CategoryText>, i: int) -> int {
    if i == 0 {
        0
    } else {
        block_start(cs, i - 1) + 5
    }
}

/// After the `{` of category `i - 1` the list region holds no `{` up to the
/// start of category `i`, and no `}` but the one that closes category `i - 1`.
proof fn lemma_after_open_brace(cs: Seq<CategoryText>, i: int, k: int)
    requires
        0 < i <= cs.len(),
        forall|m: int| 0 <= m < cs.len() ==> valid_category(#[trigger] cs[m]),
        block_start(cs, i - 1) + 5 <= k < block_start(cs, i),
    ensures
        list_content(cs)[k] != '{',
        list_content(cs)[k] == '}' ==> k == block_start(cs, i - 1) + 4 + category_body(cs[i - 1]).len() - 1,
{
    let n = cs.len() as int;
    let cc = list_content(cs);
    let c = cs[i - 1];
    reveal_strlit("    ");
    lemma_list_block(cs, i - 1);
    lemma_body_braces(c);
    lemma_separator_chars(i - 1, n);
    let piece = render_category(c) + category_separator(i - 1, n);
    let t = k - block_start(cs, i - 1);
    assert(cc[block_start(cs, i - 1) + t] == piece[t]);
    if t < render_category(c).len() {
        assert(piece[t] == render_category(c)[t]);
        assert(render_category(c)[t] == category_body(c)[t - 4]);
    } else {
        assert(piece[t] == category_separator(i - 1, n)[t - render_category(c).len()]);
    }
}

/// Category `i` is found where its lines start: the first `{` from the search
/// start opens its block, and the matching `}` closes it.
proof fn lemma_block_found(cs: Seq<CategoryText>, i: int)
    requires
        0 <= i < cs.len(),
        forall|m: int| 0 <= m < cs.len() ==> valid_category(#[trigger] cs[m]),
    ensures
        ({
            let cc = list_content(cs);
            let bs = block_start(cs, i);
            let close = bs + 4 + category_body(cs[i]).len() - 1;
            &&& first_index(cc, '{', search_start(cs, i)) == Some(bs + 4)
            &&& brace_scan_chars(cc, bs + 4, 0) == Some(close)
            &&& cc.subrange(bs + 4, close + 1) == category_body(cs[i])
            &&& bs + 5 <= cc.len()
        }),
{
    let n = cs.len() as int;
    let cc = list_content(cs);
    let pos = search_start(cs, i);
    let c = cs[i];
    let bs = block_start(cs, i);
    let body = category_body(c);
    reveal_strlit("\n");
    reveal_strlit("    ");
    lemma_render_categories_prefix(cs, 0, n);
    lemma_list_block(cs, i);
    lemma_body_braces(c);
    let piece = render_category(c) + category_separator(i, n);
    assert forall|t: int| 0 <= t < body.len() implies #[trigger] cc[bs + 4 + t] == body[t] by {
        assert(cc[bs + (4 + t)] == piece[4 + t]);
        assert(piece[4 + t] == render_category(c)[4 + t]);
    }
    assert forall|k: int| pos <= k < bs + 4 implies #[trigger] cc[k] != '{' by {
        if k >= bs {
            assert(cc[bs + (k - bs)] == piece[k - bs]);
            assert(piece[k - bs] == render_category(c)[k - bs]);
        } else if i == 0 {
            assert(cc[k] == "\n"@[k]);
        } else {
            lemma_after_open_brace(cs, i, k);
        }
    }
    assert(cc[bs + 4 + 0] == body[0]);
    lemma_first_index_at(cc, '{', pos, bs + 4);
    let close = bs + 4 + body.len() - 1;
    assert forall|k: int| bs + 5 <= k < close implies #[trigger] cc[k] != '{' && cc[k] != '}' by {
        assert(cc[bs + 4 + (k - bs - 4)] == body[k - bs - 4]);
    }
    lemma_brace_scan_chars_skip(cc, bs + 5, close, 1);
    assert(cc[bs + 4 + (body.len() - 1)] == body[body.len() - 1]);
    assert(brace_scan_chars(cc, close, 1) == Some(close));
    assert(brace_scan_chars(cc, bs + 4, 0) == Some(close));
    assert(cc.subrange(bs + 4, close + 1) =~= body) by {
        assert forall|t: int| 0 <= t < body.len() implies cc.subrange(bs + 4, close + 1)[t]
            == body[t] by {
            assert(cc[bs + 4 + t] == body[t]);
        }
    }
}

/// After the `{` of the last category the list region holds no `{`.
proof fn lemma_no_more_blocks(cs: Seq<CategoryText>)
    requires
        forall|m: int| 0 <= m < cs.len() ==> valid_category(#[trigger] cs[m]),
    ensures
        first_index(list_content(cs), '{', search_start(cs, cs.len() as int)) is None,
{
    let n = cs.len() as int;
    let cc = list_content(cs);
    let pos = search_start(cs, n);
    reveal_strlit("\n");
    reveal_strlit("  ");
    lemma_render_categories_prefix(cs, 0, n);
    assert forall|k: int| pos <= k < cc.len() implies #[trigger] cc[k] != '{' by {
        if n == 0 {
            if k == 0 {
                assert(cc[0] == "\n"@[0]);
            } else {
                assert(cc[k] == "  "@[k - 1]);
            }
        } else if k < block_start(cs, n) {
            lemma_after_open_brace(cs, n, k);
        } else {
            assert(cc[k] == "  "@[k - 1 - render_categories(cs, n).len()]);
        }
    }
    lemma_first_index_none(cc, '{', pos);
}

/// Reading the list region from where category `i` is looked for gives the
/// categories from `i` on.
pub proof fn lemma_list_blocks(cs: Seq<CategoryText>, i: int)
    requires
        0 <= i <= cs.len(),
        forall|k: int| 0 <= k < cs.len() ==> valid_category(#[trigger] cs[k]),
    ensures
        category_blocks_chars(list_content(cs), search_start(cs, i)) == Ok::<
            Option<Seq<CategoryText>>,
            ReversedBrackets,
        >(Some(cs.subrange(i, cs.len() as int))),
    decreases cs.len() - i,
{
    let n = cs.len() as int;
    if i < n {
        let c = cs[i];
        lemma_block_found(cs, i);
        lemma_block_roundtrip(c);
        lemma_list_blocks(cs, i + 1);
        assert(seq![c] + cs.subrange(i + 1, n) =~= cs.subrange(i, n));
    } else {
        lemma_no_more_blocks(cs);
        assert(cs.subrange(n, n) =~= Seq::<CategoryText>::empty());
    }
}

/// The character at position `k` of the text of a subject, by the part it lies in.
pub proof fn lemma_subject_char(s: SubjectText, k: int)
    ensures
        ({
            let r = render_subject(s);
            let m = s.name.len() as int;
            let rc = render_categories(s.categories, s.categories.len() as int);
            &&& r.len() == 40 + m + rc.len()
            &&& 0 <= k < 13 ==> r[k] == seq!['{', '\n', ' ', ' ', '"', 'n', 'a', 'm', 'e', '"', ':', ' ', '"'][k]
            &&& 13 <= k < 13 + m ==> r[k] == s.name[k - 13]
            &&& 13 + m <= k < 34 + m ==> r[k] == seq!['"', ',', '\n', ' ', ' ', '"', 'c', 'a', 't', 'e', 'g', 'o', 'r', 'i', 'e', 's', '"', ':', ' ', '[', '\n'][k - 13 - m]
            &&& 34 + m <= k < 34 + m + rc.len() ==> r[k] == rc[k - 34 - m]
            &&& 34 + m + rc.len() <= k < r.len() ==> r[k] == seq![' ', ' ', ']', '\n', '}', '\n'][k - 34 - m - rc.len()]
        }),
{
    let t0 = "{\n  \"name\": \""@;
    let t1 = "\",\n  \"categories\": [\n"@;
    let t2 = "  ]\n}\n"@;
    reveal_strlit("{\n  \"name\": \"");
    reveal_strlit("\",\n  \"categories\": [\n");
    reveal_strlit("  ]\n}\n");
    assert(t0 =~= seq!['{', '\n', ' ', ' ', '"', 'n', 'a', 'm', 'e', '"', ':', ' ', '"']);
    assert(t1 =~= seq!['"', ',', '\n', ' ', ' ', '"', 'c', 'a', 't', 'e', 'g', 'o', 'r', 'i', 'e', 's', '"', ':', ' ', '[', '\n']);
    assert(t2 =~= seq![' ', ' ', ']', '\n', '}', '\n']);
}

/// A subject whose text can be written and read back: its name holds no `"`
/// and each of its categories is valid.
pub open spec fn valid_subject(s: SubjectText) -> bool {
    &&& forall|i: int| 0 <= i < s.name.len() ==> #[trigger] s.name[i] != '"'
    &&& forall|k: int| 0 <= k < s.categories.len() ==> valid_category(#[trigger] s.categories[k])
}

/// The name field of the text of a subject is its name.
proof fn lemma_subject_name(s: SubjectText)
    requires
        valid_subject(s),
    ensures
        crate::parse_model::string_field_of(render_subject(s)) == Some(s.name),
{
    let r = render_subject(s);
    let m = s.name.len() as int;
    lemma_subject_char(s, 0);
    let nkey = "\"name\""@;
    reveal_strlit("\"name\"");
    assert(nkey =~= seq!['"', 'n', 'a', 'm', 'e', '"']);
    assert forall|t: int| 0 <= t < 6 implies #[trigger] r[4 + t] == nkey[t] by {
        lemma_subject_char(s, 4 + t);
    }
    assert forall|j: int| 0 <= j < 4 implies !occurs_at(r, nkey, j) by {
        lemma_subject_char(s, j);
        assert(r[j + 0] == r[j]);
    }
    lemma_first_occurrence_at(r, nkey, 0, 4);
    lemma_subject_char(s, 10);
    lemma_first_index_at(r, ':', 10, 10);
    lemma_subject_char(s, 11);
    lemma_subject_char(s, 12);
    assert(!is_white_space(r[12]));
    assert(skip_white(r, 12, r.len() as int) == 12);
    assert(skip_white(r, 11, r.len() as int) == 12);
    lemma_subject_char(s, 13 + m);
    assert forall|j: int| 13 <= j < 13 + m implies #[trigger] r[j] != '"' by {
        lemma_subject_char(s, j);
    }
    lemma_first_index_at(r, '"', 13, 13 + m);
    assert(r.subrange(13, 13 + m) =~= s.name) by {
        assert forall|t: int| 0 <= t < m implies r.subrange(13, 13 + m)[t] == s.name[t] by {
            lemma_subject_char(s, 13 + t);
        }
    }
}

/// The key `"categories"` first occurs either where it is written or, when the
/// name itself is `categories`, inside the name; either way the first `[` after
/// it is the one that opens the list.
proof fn lemma_subject_list_open(s: SubjectText)
    requires
        valid_subject(s),
    ensures
        ({
            let r = render_subject(s);
            match first_occurrence(r, categories_key_chars(), 0) {
                Some(k) => first_index(r, '[', k) == Some(32 + s.name.len() as int),
                None => false,
            }
        }),
{
    let r = render_subject(s);
    let m = s.name.len() as int;
    let key = categories_key_chars();
    let p = 18 + m;
    lemma_subject_char(s, 0);
    assert forall|t: int| 0 <= t < 12 implies #[trigger] r[p + t] == key[t] by {
        lemma_subject_char(s, p + t);
    }
    lemma_first_occurrence(r, key, 0);
    assert(occurs_at(r, key, p));
    let k = match first_occurrence(r, key, 0) {
        Some(k) => k,
        None => 0,
    };
    assert(0 <= k <= p);
    if k < p {
        assert(r[k + 0] == key[0]);
        assert(r[k + 1] == key[1]);
        lemma_subject_char(s, k);
        lemma_subject_char(s, k + 1);
        assert(k == 12);
        if m < 10 {
            lemma_subject_char(s, 13 + m);
            assert(r[12 + (m + 1)] == key[m + 1]);
        } else if m > 10 {
            lemma_subject_char(s, 23);
            assert(r[12int + 11] == key[11]);
        }
        assert forall|t: int| 0 <= t < 10 implies #[trigger] s.name[t] == key[t + 1] by {
            lemma_subject_char(s, 13 + t);
            assert(r[12 + (t + 1)] == key[t + 1]);
        }
    }
    let a = 32 + m;
    lemma_subject_char(s, a);
    assert forall|j: int| k <= j < a implies #[trigger] r[j] != '[' by {
        lemma_subject_char(s, j);
        if 13 <= j < 13 + m {
            if k == 12 {
                assert(s.name[j - 13] == key[j - 12]);
            }
        }
    }
    lemma_first_index_at(r, '[', k, a);
}

/// The last `]` of the text of a subject closes its list, and between the
/// brackets stands the list region of its categories.
proof fn lemma_subject_list_close(s: SubjectText)
    ensures
        ({
            let r = render_subject(s);
            let a = 32 + s.name.len() as int;
            let e = 36 + s.name.len() as int + render_categories(
                s.categories,
                s.categories.len() as int,
            ).len() as int;
            &&& crate::seqs::last_index(r, ']', a) == Some(e)
            &&& r.subrange(a + 1, e) == list_content(s.categories)
        }),
{
    let r = render_subject(s);
    let m = s.name.len() as int;
    let cs = s.categories;
    let rc = render_categories(cs, cs.len() as int);
    let a = 32 + m;
    let e = 36 + m + rc.len();
    lemma_subject_char(s, 0);
    lemma_subject_char(s, e);
    assert forall|j: int| e < j < r.len() implies #[trigger] r[j] != ']' by {
        lemma_subject_char(s, j);
    }
    crate::seqs::lemma_last_index_at(r, ']', a, r.len() as int, e);
    let cc = list_content(cs);
    reveal_strlit("\n");
    reveal_strlit("  ");
    assert(r.subrange(a + 1, e) =~= cc) by {
        assert forall|t: int| 0 <= t < cc.len() implies r.subrange(a + 1, e)[t] == cc[t] by {
            lemma_subject_char(s, a + 1 + t);
        }
    }
}

/// The text of a subject, read over its characters, gives the subject back.
proof fn lemma_subject_roundtrip_chars(s: SubjectText)
    requires
        valid_subject(s),
    ensures
        subject_parse_chars(render_subject(s)) == Ok::<Option<SubjectText>, ReversedBrackets>(
            Some(s),
        ),
{
    let cs = s.categories;
    lemma_subject_name(s);
    lemma_subject_list_open(s);
    lemma_subject_list_close(s);
    lemma_list_blocks(cs, 0);
    assert(cs.subrange(0, cs.len() as int) =~= cs);
}

/// What is written for a subject reads back as that subject: the text of the
/// file of a valid subject, read as `parse_subject_json` reads it, gives the
/// subject it was written from.
pub proof fn lemma_written_subject_reads_back(s: SubjectText)
    requires
        valid_subject(s),
    ensures
        subject_parse(render_subject(s)) == Ok::<Option<SubjectText>, ReversedBrackets>(Some(s)),
{
    lemma_subject_parse_chars(render_subject(s));
    lemma_subject_roundtrip_chars(s);
}

/// `0.d` is the text of a number for every digit `d`.
proof fn lemma_tenths_are_numbers(d: char)
    requires
        is_digit(d),
    ensures
        is_float_syntax(seq!['0', '.', d]),
{
    let t = seq!['0', '.', d];
    crate::seqs::lemma_first_where_none(t, |c: char| c == 'e' || c == 'E', 0);
    assert(exponent_mark(t) == 3);
    lemma_first_index_at(t, '.', 0, 1);
    assert(is_mantissa(t, 0, 3));
}

/// A new subject, written to its file and read back, is that new subject
/// again, whatever its name, so long as the name holds no `"`.
pub proof fn lemma_new_subject_reads_back(name: Seq<char>)
    requires
        forall|i: int| 0 <= i < name.len() ==> #[trigger] name[i] != '"',
    ensures
        subject_parse(render_subject(SubjectText { name, categories: starting_categories() }))
            == Ok::<Option<SubjectText>, ReversedBrackets>(
            Some(SubjectText { name, categories: starting_categories() }),
        ),
{
    let s = SubjectText { name, categories: starting_categories() };
    reveal_strlit("A");
    reveal_strlit("B");
    reveal_strlit("C");
    reveal_strlit("0.6");
    reveal_strlit("0.3");
    reveal_strlit("0.1");
    lemma_tenths_are_numbers('6');
    lemma_tenths_are_numbers('3');
    lemma_tenths_are_numbers('1');
    assert("0.6"@ =~= seq!['0', '.', '6']);
    assert("0.3"@ =~= seq!['0', '.', '3']);
    assert("0.1"@ =~= seq!['0', '.', '1']);
    assert forall|k: int| 0 <= k < s.categories.len() implies valid_category(
        #[trigger] s.categories[k],
    ) by {}
    lemma_written_subject_reads_back(s);
}

} // verus!
