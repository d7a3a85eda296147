//! The subject file: its records, the text it is written as, and how that text
//! is read back.
//!
//! Reading works on the bytes of the file, as offsets into the UTF-8 text: it
//! finds the key `"categories"`, the list between the first `[` after it and the
//! last `]`, and each `{ ... }` block of that list by matching braces. The
//! fields of each block are then read by `crate::fields`.
use vstd::prelude::*;
use vstd::string::StringSliceAdditionalSpecFns;
use vstd::utf8::{
    decode_utf8, encode_utf8, encode_utf8_decode_utf8, encode_utf8_valid_utf8, is_char_boundary,
    is_char_boundary_iff_is_leading_byte, is_char_boundary_iff_not_is_continuation_byte,
    is_char_boundary_start_end_of_seq, length_of_first_scalar, pop_first_scalar, valid_utf8,
    valid_utf8_split,
};
use crate::fields::{
    extract_number, extract_string, read_number_list, number_field, number_list_field,
    string_field, ReversedBrackets,
};
use crate::seqs::{
    find_byte, find_bytes, first_index, first_occurrence, last_index, lemma_first_index,
    lemma_first_occurrence, lemma_last_index, opt_int, rfind_byte,
};

verus! {

/// One category of a subject as its file holds it: the name, the weight and
/// the grades, the numbers kept as the texts they are written with.
#[derive(Debug, Clone, PartialEq, Eq)]
pub struct CategoryRecord {
    pub name: String,
    pub weight: String,
    pub grades: Vec<String>,
}

/// A subject as its file holds it.
#[derive(Debug, Clone, PartialEq, Eq)]
pub struct SubjectRecord {
    pub name: String,
    pub categories: Vec<CategoryRecord>,
}

/// The mathematical value of a `CategoryRecord`.
pub struct CategoryText {
    pub name: Seq<char>,
    pub weight: Seq<char>,
    pub grades: Seq<Seq<char>>,
}

/// The mathematical value of a `SubjectRecord`.
pub struct SubjectText {
    pub name: Seq<char>,
    pub categories: Seq<CategoryText>,
}

impl View for CategoryRecord {
    type V = CategoryText;

    open spec fn view(&self) -> CategoryText {
        CategoryText {
            name: self.name@,
            weight: self.weight@,
            grades: self.grades@.map_values(|g: String| g@),
        }
    }
}

impl View for SubjectRecord {
    type V = SubjectText;

    open spec fn view(&self) -> SubjectText {
        SubjectText {
            name: self.name@,
            categories: self.categories@.map_values(|c: CategoryRecord| c@),
        }
    }
}

/// The categories a new subject starts with: `A` weighing 0.6, `B` weighing
/// 0.3 and `C` weighing 0.1, none of them with grades.
pub open spec fn starting_categories() -> Seq<CategoryText> {
    seq![
        CategoryText { name: "A"@, weight: "0.6"@, grades: seq![] },
        CategoryText { name: "B"@, weight: "0.3"@, grades: seq![] },
        CategoryText { name: "C"@, weight: "0.1"@, grades: seq![] },
    ]
}

/// The number of grades in the first `n` categories of `cs`.
pub open spec fn grade_count(cs: Seq<CategoryText>, n: int) -> int
    decreases n,
{
    if n <= 0 {
        0
    } else {
        grade_count(cs, n - 1) + cs[n - 1].grades.len()
    }
}

/// The number of grades of a subject, over all its categories.
pub open spec fn total_grade_count(s: SubjectText) -> int {
    grade_count(s.categories, s.categories.len() as int)
}

impl CategoryRecord {
    /// A category with no grades yet.
    pub fn new(name: &str, weight: &str) -> (r: CategoryRecord)
        ensures
            r@ == (CategoryText { name: name@, weight: weight@, grades: seq![] }),
    {
        let r = CategoryRecord { name: name.to_owned(), weight: weight.to_owned(), grades: Vec::new() };
        proof {
            assert(r@.grades =~= Seq::<Seq<char>>::empty());
        }
        r
    }
}

impl SubjectRecord {
    /// A new subject named `name`, with the three starting categories.
    pub fn new(name: &str) -> (r: SubjectRecord)
        ensures
            r@ == (SubjectText { name: name@, categories: starting_categories() }),
    {
        let mut categories: Vec<CategoryRecord> = Vec::new();
        categories.push(CategoryRecord::new("A", "0.6"));
        categories.push(CategoryRecord::new("B", "0.3"));
        categories.push(CategoryRecord::new("C", "0.1"));
        let r = SubjectRecord { name: name.to_owned(), categories };
        proof {
            assert(r@.categories =~= starting_categories());
        }
        r
    }

    /// How many grades the subject holds over all its categories.
    pub fn total_grades(&self) -> (r: usize)
        requires
            total_grade_count(self@) <= usize::MAX,
        ensures
            r == total_grade_count(self@),
            r == all_grades(self@.categories).len(),
    {
        proof {
            lemma_total_grade_count_all(self@);
        }
        let ghost cs = self@.categories;
        let n = self.categories.len();
        let mut total: usize = 0;
        let mut i: usize = 0;
        while i < n
            invariant
                n == self.categories@.len(),
                cs == self@.categories,
                i <= n,
                total == grade_count(cs, i as int),
                grade_count(cs, n as int) <= usize::MAX,
            decreases n - i,
        {
            proof {
                lemma_grade_count_monotone(cs, i as int + 1, n as int);
                assert(cs[i as int] == self.categories@[i as int]@);
            }
            total = total + self.categories[i].grades.len();
            i = i + 1;
        }
        total
    }
}

/// The grades of all categories, one list after another.
pub open spec fn all_grades(cs: Seq<CategoryText>) -> Seq<Seq<char>> {
    cs.map_values(|c: CategoryText| c.grades).flatten()
}

/// The grades of the first `n` categories counted are all the grades of those
/// categories taken together.
pub proof fn lemma_grade_count_all(cs: Seq<CategoryText>, n: int)
    requires
        0 <= n <= cs.len(),
    ensures
        grade_count(cs, n) == all_grades(cs.take(n)).len(),
    decreases n,
{
    let gs = |c: CategoryText| c.grades;
    if n == 0 {
        assert(cs.take(0).map_values(gs) =~= Seq::<Seq<Seq<char>>>::empty());
    } else {
        lemma_grade_count_all(cs, n - 1);
        assert(cs.take(n).map_values(gs) =~= cs.take(n - 1).map_values(gs).push(cs[n - 1].grades));
        cs.take(n - 1).map_values(gs).lemma_flatten_push(cs[n - 1].grades);
    }
}

/// The number of grades of a subject is the number of all its grades, over
/// every one of its categories.
pub proof fn lemma_total_grade_count_all(s: SubjectText)
    ensures
        total_grade_count(s) == all_grades(s.categories).len(),
{
    lemma_grade_count_all(s.categories, s.categories.len() as int);
    assert(s.categories.take(s.categories.len() as int) =~= s.categories);
}

/// Replacing the grades of category `k` changes the count of the first `n`
/// categories by the change in that category's count, if `k` is among them.
proof fn lemma_grade_count_update(cs: Seq<CategoryText>, k: int, c: CategoryText, n: int)
    requires
        0 <= k < cs.len(),
        n <= cs.len(),
    ensures
        grade_count(cs.update(k, c), n) == grade_count(cs, n) + if k < n {
            c.grades.len() - cs[k].grades.len()
        } else {
            0
        },
    decreases n,
{
    if n > 0 {
        lemma_grade_count_update(cs, k, c, n - 1);
    }
}

/// Adding a grade to any one category of a subject raises its number of
/// grades by one.
pub proof fn lemma_total_grades_add(s: SubjectText, k: int, g: Seq<char>)
    requires
        0 <= k < s.categories.len(),
    ensures
        total_grade_count(
            SubjectText {
                name: s.name,
                categories: s.categories.update(
                    k,
                    CategoryText {
                        name: s.categories[k].name,
                        weight: s.categories[k].weight,
                        grades: s.categories[k].grades.push(g),
                    },
                ),
            },
        ) == total_grade_count(s) + 1,
{
    let c = CategoryText {
        name: s.categories[k].name,
        weight: s.categories[k].weight,
        grades: s.categories[k].grades.push(g),
    };
    lemma_grade_count_update(s.categories, k, c, s.categories.len() as int);
}

/// Counting the grades of more categories never gives fewer.
pub proof fn lemma_grade_count_monotone(cs: Seq<CategoryText>, m: int, n: int)
    requires
        0 <= m <= n,
    ensures
        grade_count(cs, m) <= grade_count(cs, n),
    decreases n - m,
{
    if m < n {
        lemma_grade_count_monotone(cs, m, n - 1);
    }
}

/// The byte `{`.
pub open spec fn open_brace() -> u8 {
    0x7b
}

/// The byte `}`.
pub open spec fn close_brace() -> u8 {
    0x7d
}

/// Scanning `b` from `i` with `depth` braces open: the index of the `}` that
/// brings the depth back to zero.
pub open spec fn brace_scan(b: Seq<u8>, i: int, depth: int) -> Option<int>
    decreases b.len() - i,
{
    if i < 0 || i >= b.len() {
        None
    } else if b[i] == open_brace() {
        brace_scan(b, i + 1, depth + 1)
    } else if b[i] == close_brace() {
        if depth - 1 == 0 {
            Some(i)
        } else {
            brace_scan(b, i + 1, depth - 1)
        }
    } else {
        brace_scan(b, i + 1, depth)
    }
}

/// Where `brace_scan` can stop: on a `}` at or after where it starts.
pub proof fn lemma_brace_scan(b: Seq<u8>, i: int, depth: int)
    requires
        0 <= i,
    ensures
        brace_scan(b, i, depth) matches Some(k) ==> i <= k < b.len() && b[k] == close_brace(),
    decreases b.len() - i,
{
    if 0 <= i < b.len() {
        if b[i] == open_brace() {
            lemma_brace_scan(b, i + 1, depth + 1);
        } else if b[i] == close_brace() {
            lemma_brace_scan(b, i + 1, depth - 1);
        } else {
            lemma_brace_scan(b, i + 1, depth);
        }
    }
}

/// How much a byte changes the count of open braces: `{` adds one, `}` takes
/// one away, every other byte leaves it.
pub open spec fn brace_step(x: u8) -> int {
    if x == open_brace() {
        1
    } else if x == close_brace() {
        -1
    } else {
        0
    }
}

/// The number of `{` minus the number of `}` in `[i, j)` of `b`.
pub open spec fn brace_depth(b: Seq<u8>, i: int, j: int) -> int
    decreases j - i,
{
    if i >= j {
        0
    } else {
        brace_step(b[i]) + brace_depth(b, i + 1, j)
    }
}

/// `brace_scan` from `i` with `depth` braces open stops at the first `}` after
/// which the count `depth + brace_depth(b, i, k + 1)` is zero, and finds nothing
/// when there is no such `}`.
proof fn lemma_brace_scan_depth(b: Seq<u8>, i: int, depth: int)
    requires
        0 <= i,
    ensures
        match brace_scan(b, i, depth) {
            Some(k) => {
                &&& i <= k < b.len()
                &&& b[k] == close_brace()
                &&& depth + brace_depth(b, i, k + 1) == 0
                &&& forall|m: int|
                    i <= m < k && b[m] == close_brace() ==> depth + brace_depth(b, i, m + 1) != 0
            },
            None => forall|m: int|
                i <= m < b.len() && b[m] == close_brace() ==> depth + brace_depth(b, i, m + 1)
                    != 0,
        },
    decreases b.len() - i,
{
    if i < b.len() {
        let d2 = depth + brace_step(b[i]);
        lemma_brace_scan_depth(b, i + 1, d2);
        assert forall|m: int| i < m < b.len() implies depth + #[trigger] brace_depth(b, i, m + 1) == d2
            + brace_depth(b, i + 1, m + 1) by {}
        assert(brace_depth(b, i, i + 1) == brace_step(b[i])) by {
            assert(brace_depth(b, i + 1, i + 1) == 0);
        }
    }
}

/// What `find_matching_brace` looks for, stated directly: scanning from `i`,
/// the least index `k` holding `}` at which the count of `{` minus `}` in
/// `[i, k]` is zero; `None` when no `}` brings the count to zero.
pub proof fn lemma_brace_scan_least(b: Seq<u8>, i: int)
    requires
        0 <= i,
    ensures
        match brace_scan(b, i, 0) {
            Some(k) => {
                &&& i <= k < b.len()
                &&& b[k] == close_brace()
                &&& brace_depth(b, i, k + 1) == 0
                &&& forall|m: int|
                    i <= m < k && b[m] == close_brace() ==> brace_depth(b, i, m + 1) != 0
            },
            None => forall|m: int|
                i <= m < b.len() && b[m] == close_brace() ==> brace_depth(b, i, m + 1) != 0,
        },
{
    lemma_brace_scan_depth(b, i, 0);
}

/// The byte offset of the `}` that closes the brace at byte offset `open` of `s`:
/// counting `{` up and `}` down from `open`, the first `}` that brings the count
/// back to zero. `None` when the count never comes back to zero.
pub fn find_matching_brace(s: &str, open: usize) -> (r: Option<usize>)
    requires
        is_char_boundary(s.spec_bytes(), open as int),
    ensures
        opt_int(r) == brace_scan(s.spec_bytes(), open as int, 0),
{
    let b = s.as_bytes();
    let mut depth: i128 = 0;
    let mut i = open;
    proof {
        encode_utf8_valid_utf8(s@);
        reveal_with_fuel(is_char_boundary, 1);
    }
    while i < b.len()
        invariant
            b@ == s.spec_bytes(),
            open <= i,
            -(i as int) <= depth <= i as int,
            brace_scan(b@, open as int, 0) == brace_scan(b@, i as int, depth as int),
        decreases b.len() - i,
    {
        if b[i] == 0x7b {
            depth = depth + 1;
        } else if b[i] == 0x7d {
            depth = depth - 1;
            if depth == 0 {
                return Some(i);
            }
        }
        i = i + 1;
    }
    None
}

/// A valid UTF-8 text has a character boundary at an ASCII byte and just after it.
pub proof fn lemma_boundary_at_ascii(b: Seq<u8>, i: int)
    requires
        valid_utf8(b),
        0 <= i < b.len(),
        b[i] < 0x80,
    ensures
        is_char_boundary(b, i),
        is_char_boundary(b, i + 1),
    decreases b.len(),
{
    is_char_boundary_iff_is_leading_byte(b, i);
    reveal_with_fuel(valid_utf8, 1);
    if i == 0 {
        assert(length_of_first_scalar(b) == 1);
        reveal_with_fuel(is_char_boundary, 2);
    } else {
        let l = length_of_first_scalar(b);
        let rest = pop_first_scalar(b);
        reveal_with_fuel(is_char_boundary, 1);
        assert(is_char_boundary(rest, i - l));
        if i - l < 0 {
            assert(false);
        }
        assert(rest[i - l] == b[i]);
        lemma_boundary_at_ascii(rest, i - l);
    }
}

/// A boundary of a valid UTF-8 text is a boundary of each suffix that starts
/// at a boundary before it.
pub proof fn lemma_boundary_in_suffix(b: Seq<u8>, lo: int, hi: int)
    requires
        valid_utf8(b),
        0 <= lo <= hi <= b.len(),
        is_char_boundary(b, lo),
        is_char_boundary(b, hi),
    ensures
        valid_utf8(b.subrange(lo, b.len() as int)),
        is_char_boundary(b.subrange(lo, b.len() as int), hi - lo),
{
    valid_utf8_split(b, lo);
    let rest = b.subrange(lo, b.len() as int);
    if hi < b.len() {
        is_char_boundary_iff_not_is_continuation_byte(b, hi);
        is_char_boundary_iff_not_is_continuation_byte(rest, hi - lo);
    } else {
        is_char_boundary_start_end_of_seq(rest);
    }
}

/// The part of `s` between the byte offsets `lo` and `hi`.
pub fn byte_slice(s: &str, lo: usize, hi: usize) -> (r: &str)
    requires
        lo <= hi <= s.spec_bytes().len(),
        is_char_boundary(s.spec_bytes(), lo as int),
        is_char_boundary(s.spec_bytes(), hi as int),
    ensures
        r.spec_bytes() == s.spec_bytes().subrange(lo as int, hi as int),
        r@ == decode_utf8(s.spec_bytes().subrange(lo as int, hi as int)),
{
    proof {
        encode_utf8_valid_utf8(s@);
        lemma_boundary_in_suffix(s.spec_bytes(), lo as int, hi as int);
    }
    let (_, rest) = s.split_at(lo);
    let (mid, _) = rest.split_at(hi - lo);
    proof {
        assert(mid.spec_bytes() =~= s.spec_bytes().subrange(lo as int, hi as int));
        encode_utf8_decode_utf8(mid@);
    }
    mid
}

/// The bytes of the key `"categories"`, quotes included.
pub open spec fn categories_key() -> Seq<u8> {
    seq![0x22, 0x63, 0x61, 0x74, 0x65, 0x67, 0x6f, 0x72, 0x69, 0x65, 0x73, 0x22]
}

/// The category read from the text of one `{ ... }` block, or why there is none.
pub open spec fn category_of_block(block: Seq<char>) -> Result<Option<CategoryText>, ReversedBrackets> {
    match string_field(block, "\"name\""@) {
        None => Ok(None),
        Some(name) => match number_field(block, "\"weight\""@) {
            None => Ok(None),
            Some(weight) => match number_list_field(block, "\"grades\""@) {
                Err(e) => Err(e),
                Ok(grades) => Ok(Some(CategoryText { name, weight, grades })),
            },
        },
    }
}

/// `r` with the categories `prefix` put in front of the categories it holds.
pub open spec fn prepend_categories(
    prefix: Seq<CategoryText>,
    r: Result<Option<Seq<CategoryText>>, ReversedBrackets>,
) -> Result<Option<Seq<CategoryText>>, ReversedBrackets> {
    match r {
        Ok(Some(rest)) => Ok(Some(prefix + rest)),
        _ => r,
    }
}

/// The categories of the list `c` (bytes), reading the blocks that open at or
/// after `pos`: each `{` opens a block up to its matching `}`; the next block
/// is looked for from just after that `{`. `Ok(None)` when a block has no
/// matching brace or lacks a name or a weight.
pub open spec fn category_blocks(c: Seq<u8>, pos: int) -> Result<
    Option<Seq<CategoryText>>,
    ReversedBrackets,
>
    decreases c.len() - pos,
{
    if pos < 0 {
        Ok(None)
    } else {
        match first_index(c, open_brace(), pos) {
            None => Ok(Some(seq![])),
            Some(o) => match brace_scan(c, o, 0) {
                None => Ok(None),
                Some(cl) => match category_of_block(decode_utf8(c.subrange(o, cl + 1))) {
                    Err(e) => Err(e),
                    Ok(None) => Ok(None),
                    Ok(Some(cat)) => {
                        proof {
                            lemma_first_index(c, open_brace(), pos);
                        }
                        prepend_categories(seq![cat], category_blocks(c, o + 1))
                    },
                },
            },
        }
    }
}

/// The subject read from the text `json`: the string value of `"name"`, then
/// the list from the first `[` after the key `"categories"` to the last `]`.
pub open spec fn subject_parse(json: Seq<char>) -> Result<Option<SubjectText>, ReversedBrackets> {
    let b = encode_utf8(json);
    match string_field(json, "\"name\""@) {
        None => Ok(None),
        Some(name) => match first_occurrence(b, categories_key(), 0) {
            None => Ok(None),
            Some(k) => match first_index(b, 0x5bu8, k) {
                None => Ok(None),
                Some(o) => match last_index(b, 0x5du8, o) {
                    None => Ok(None),
                    Some(e) => match category_blocks(b.subrange(o + 1, e), 0) {
                        Err(x) => Err(x),
                        Ok(None) => Ok(None),
                        Ok(Some(categories)) => Ok(Some(SubjectText { name, categories })),
                    },
                },
            },
        },
    }
}

/// The mathematical value of a result of reading categories.
pub open spec fn categories_result_view(r: Result<Option<Vec<CategoryRecord>>, ReversedBrackets>) -> Result<
    Option<Seq<CategoryText>>,
    ReversedBrackets,
> {
    match r {
        Ok(Some(v)) => Ok(Some(v@.map_values(|c: CategoryRecord| c@))),
        Ok(None) => Ok(None),
        Err(e) => Err(e),
    }
}

/// The mathematical value of a result of reading a subject.
pub open spec fn subject_result_view(r: Result<Option<SubjectRecord>, ReversedBrackets>) -> Result<
    Option<SubjectText>,
    ReversedBrackets,
> {
    match r {
        Ok(Some(s)) => Ok(Some(s@)),
        Ok(None) => Ok(None),
        Err(e) => Err(e),
    }
}

/// The categories of the list `content` (see `category_blocks`).
fn parse_category_blocks(content: &str) -> (r: Result<Option<Vec<CategoryRecord>>, ReversedBrackets>)
    ensures
        categories_result_view(r) == category_blocks(content.spec_bytes(), 0),
{
    let c = content.as_bytes();
    let mut cats: Vec<CategoryRecord> = Vec::new();
    let mut pos: usize = 0;
    proof {
        encode_utf8_valid_utf8(content@);
        assert(cats@.map_values(|c: CategoryRecord| c@) =~= Seq::<CategoryText>::empty());
        assert(category_blocks(c@, 0) == prepend_categories(
            cats@.map_values(|c: CategoryRecord| c@),
            category_blocks(c@, 0),
        ));
    }
    loop
        invariant
            c@ == content.spec_bytes(),
            valid_utf8(c@),
            pos <= c@.len(),
            category_blocks(c@, 0) == prepend_categories(
                cats@.map_values(|c: CategoryRecord| c@),
                category_blocks(c@, pos as int),
            ),
        decreases c@.len() - pos,
    {
        let ghost done = cats@.map_values(|c: CategoryRecord| c@);
        let o = match find_byte(c, 0x7b, pos) {
            None => {
                assert(done + Seq::<CategoryText>::empty() =~= done);
                return Ok(Some(cats));
            },
            Some(o) => o,
        };
        proof {
            lemma_first_index(c@, open_brace(), pos as int);
            lemma_boundary_at_ascii(c@, o as int);
        }
        let cl = match find_matching_brace(content, o) {
            None => return Ok(None),
            Some(cl) => cl,
        };
        proof {
            assert(brace_scan(c@, o as int, 0) == Some(cl as int));
            assert(c@.len() == c.len());
            lemma_brace_scan(c@, o as int, 0);
            lemma_boundary_at_ascii(c@, cl as int);
        }
        let block = byte_slice(content, o, cl + 1);
        let name = match extract_string(block, "\"name\"") {
            None => return Ok(None),
            Some(n) => n,
        };
        let weight = match extract_number(block, "\"weight\"") {
            None => return Ok(None),
            Some(w) => w,
        };
        let grades = match read_number_list(block, "\"grades\"") {
            Err(e) => return Err(e),
            Ok(g) => g,
        };
        let cat = CategoryRecord { name, weight, grades };
        proof {
            assert(category_of_block(block@) == Ok::<Option<CategoryText>, ReversedBrackets>(
                Some(cat@),
            ));
        }
        cats.push(cat);
        proof {
            assert(cats@.map_values(|c: CategoryRecord| c@) =~= done + seq![cat@]);
            assert(done + (seq![cat@] + Seq::<CategoryText>::empty()) =~= done + seq![cat@]);
            match category_blocks(c@, o + 1) {
                Ok(Some(rest)) => {
                    assert(done + (seq![cat@] + rest) =~= (done + seq![cat@]) + rest);
                },
                _ => {},
            }
        }
        pos = o + 1;
    }
}

/// Reads a subject from the text of its file: the string value of `"name"`,
/// and the categories of the list from the first `[` after `"categories"` to
/// the last `]`. `Ok(None)` when a part is missing; an error when the grades of
/// a category close with `]` before they open with `[`.
pub fn read_subject_json(json: &str) -> (r: Result<Option<SubjectRecord>, ReversedBrackets>)
    ensures
        subject_result_view(r) == subject_parse(json@),
{
    let name = match extract_string(json, "\"name\"") {
        None => return Ok(None),
        Some(n) => n,
    };
    let b = json.as_bytes();
    let key: [u8; 12] = [0x22, 0x63, 0x61, 0x74, 0x65, 0x67, 0x6f, 0x72, 0x69, 0x65, 0x73, 0x22];
    proof {
        assert(key@ =~= categories_key());
        encode_utf8_valid_utf8(json@);
    }
    let k = match find_bytes(b, &key, 0) {
        None => return Ok(None),
        Some(k) => k,
    };
    proof {
        lemma_first_occurrence(b@, categories_key(), 0);
    }
    let o = match find_byte(b, 0x5b, k) {
        None => return Ok(None),
        Some(o) => o,
    };
    proof {
        lemma_first_index(b@, 0x5bu8, k as int);
    }
    let e = match rfind_byte(b, 0x5d, o) {
        None => return Ok(None),
        Some(e) => e,
    };
    proof {
        lemma_last_index(b@, 0x5du8, o as int, b@.len() as int);
        lemma_boundary_at_ascii(b@, o as int);
        lemma_boundary_at_ascii(b@, e as int);
        if e == o {
            assert(false);
        }
    }
    let content = byte_slice(json, o + 1, e);
    proof {
        assert(content.spec_bytes() == b@.subrange(o + 1, e as int));
    }
    match parse_category_blocks(content) {
        Err(x) => Err(x),
        Ok(None) => Ok(None),
        Ok(Some(categories)) => Ok(Some(SubjectRecord { name, categories })),
    }
}

/// Reads a subject from the text of its file, as `read_subject_json` does, for
/// a text in which no category closes its grades before it opens them.
pub fn parse_subject_json(json: &str) -> (r: Option<SubjectRecord>)
    requires
        subject_parse(json@) is Ok,
    ensures
        match r {
            Some(s) => subject_parse(json@) == Ok::<Option<SubjectText>, ReversedBrackets>(Some(s@)),
            None => subject_parse(json@) == Ok::<Option<SubjectText>, ReversedBrackets>(None),
        },
{
    match read_subject_json(json) {
        Ok(r) => r,
        Err(_) => None,
    }
}

/// The first `n` grades written one after another, separated by `", "`.
pub open spec fn joined_grades(gs: Seq<Seq<char>>, n: int) -> Seq<char>
    decreases n,
{
    if n <= 0 {
        seq![]
    } else if n == 1 {
        gs[0]
    } else {
        joined_grades(gs, n - 1) + ", "@ + gs[n - 1]
    }
}

/// The `{ ... }` block that holds one category.
pub open spec fn category_body(c: CategoryText) -> Seq<char> {
    "{\n      \"name\": \""@ + c.name + "\",\n      \"weight\": "@ + c.weight
        + ",\n      \"grades\": ["@ + joined_grades(c.grades, c.grades.len() as int)
        + "]\n    }"@
}

/// The lines of text that hold one category: its block, indented.
pub open spec fn render_category(c: CategoryText) -> Seq<char> {
    "    "@ + category_body(c)
}

/// What follows the block of category `i` of `n`: a comma unless it is the last.
pub open spec fn category_separator(i: int, n: int) -> Seq<char> {
    if i + 1 < n {
        ",\n"@
    } else {
        "\n"@
    }
}

/// The blocks of the first `n` categories, each followed by its separator.
pub open spec fn render_categories(cs: Seq<CategoryText>, n: int) -> Seq<char>
    decreases n,
{
    if n <= 0 {
        seq![]
    } else {
        render_categories(cs, n - 1) + render_category(cs[n - 1]) + category_separator(
            n - 1,
            cs.len() as int,
        )
    }
}

/// The text of the file of a subject.
pub open spec fn render_subject(s: SubjectText) -> Seq<char> {
    "{\n  \"name\": \""@ + s.name + "\",\n  \"categories\": [\n"@ + render_categories(
        s.categories,
        s.categories.len() as int,
    ) + "  ]\n}\n"@
}

/// The first `n` grades as written: the first grade, then, for each of the
/// others in order, `", "` and that grade.
pub proof fn lemma_joined_grades_all(gs: Seq<Seq<char>>, n: int)
    requires
        1 <= n <= gs.len(),
    ensures
        joined_grades(gs, n) == gs[0] + Seq::new((n - 1) as nat, |i: int| ", "@ + gs[i + 1]).flatten(),
    decreases n,
{
    let parts = Seq::new((n - 1) as nat, |i: int| ", "@ + gs[i + 1]);
    if n == 1 {
        assert(parts =~= Seq::<Seq<char>>::empty());
        assert(gs[0] + Seq::<char>::empty() =~= gs[0]);
    } else {
        lemma_joined_grades_all(gs, n - 1);
        let before = Seq::new((n - 2) as nat, |i: int| ", "@ + gs[i + 1]);
        assert(parts =~= before.push(", "@ + gs[n - 1]));
        before.lemma_flatten_push(", "@ + gs[n - 1]);
        assert(joined_grades(gs, n) =~= gs[0] + parts.flatten());
    }
}

/// The blocks of the first `n` categories are the block of each of them, in
/// order, each followed by its separator.
pub proof fn lemma_render_categories_all(cs: Seq<CategoryText>, n: int)
    requires
        0 <= n,
    ensures
        render_categories(cs, n) == Seq::new(
            n as nat,
            |i: int| render_category(cs[i]) + category_separator(i, cs.len() as int),
        ).flatten(),
    decreases n,
{
    let parts = Seq::new(
        n as nat,
        |i: int| render_category(cs[i]) + category_separator(i, cs.len() as int),
    );
    if n == 0 {
        assert(parts =~= Seq::<Seq<char>>::empty());
    } else {
        lemma_render_categories_all(cs, n - 1);
        let last = render_category(cs[n - 1]) + category_separator(n - 1, cs.len() as int);
        let before = Seq::new(
            (n - 1) as nat,
            |i: int| render_category(cs[i]) + category_separator(i, cs.len() as int),
        );
        assert(parts =~= before.push(last));
        before.lemma_flatten_push(last);
        assert(render_categories(cs, n) =~= parts.flatten());
    }
}

/// Appends the grades of `gs`, separated by `", "`.
fn push_grades(out: &mut String, gs: &Vec<String>)
    ensures
        final(out)@ == old(out)@ + joined_grades(
            gs@.map_values(|g: String| g@),
            gs@.len() as int,
        ),
{
    let ghost start = out@;
    let ghost views = gs@.map_values(|g: String| g@);
    let mut i: usize = 0;
    while i < gs.len()
        invariant
            i <= gs@.len(),
            views == gs@.map_values(|g: String| g@),
            out@ == start + joined_grades(views, i as int),
        decreases gs.len() - i,
    {
        if i > 0 {
            out.append(", ");
        }
        out.append(gs[i].as_str());
        proof {
            if i == 0 {
                assert(out@ =~= start + joined_grades(views, 1));
            } else {
                assert(out@ =~= start + joined_grades(views, (i + 1) as int));
            }
        }
        i = i + 1;
    }
}

/// Appends the lines of one category, without the separator after them.
fn push_category(out: &mut String, cat: &CategoryRecord)
    ensures
        final(out)@ == old(out)@ + render_category(cat@),
{
    let ghost start = out@;
    out.append("    ");
    out.append("{\n      \"name\": \"");
    out.append(cat.name.as_str());
    out.append("\",\n      \"weight\": ");
    out.append(cat.weight.as_str());
    out.append(",\n      \"grades\": [");
    push_grades(out, &cat.grades);
    out.append("]\n    }");
    proof {
        assert(out@ =~= start + render_category(cat@));
    }
}

/// The text of the file of a subject: its name, then its categories, each with
/// name, weight and grades, in the layout that `parse_subject_json` reads.
pub fn subject_json(subject: &SubjectRecord) -> (r: String)
    ensures
        r@ == render_subject(subject@),
{
    let ghost cats = subject@.categories;
    let mut out = String::new();
    out.append("{\n  \"name\": \"");
    out.append(subject.name.as_str());
    out.append("\",\n  \"categories\": [\n");
    let ghost head = out@;
    let n = subject.categories.len();
    let mut i: usize = 0;
    while i < n
        invariant
            n == subject.categories@.len(),
            cats == subject@.categories,
            i <= n,
            out@ == head + render_categories(cats, i as int),
        decreases n - i,
    {
        let cat = &subject.categories[i];
        let ghost before = out@;
        push_category(&mut out, cat);
        if i + 1 < n {
            out.append(",\n");
        } else {
            out.append("\n");
        }
        proof {
            assert(cats[i as int] == cat@);
            assert(out@ =~= before + render_category(cat@) + category_separator(i as int, n as int));
            assert(out@ =~= head + render_categories(cats, (i + 1) as int));
        }
        i = i + 1;
    }
    out.append("  ]\n}\n");
    proof {
        assert(out@ =~= render_subject(subject@));
    }
    out
}

} // verus!
