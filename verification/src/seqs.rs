//! Searching sequences: the specifications of "first / last position where
//! something holds", the facts that characterise them, and the executable
//! searches over byte and character slices that the parsers use.
use vstd::prelude::*;

verus! {

/// The first index `i` with `from <= i < s.len()` at which `p` holds.
pub open spec fn first_where<A>(s: Seq<A>, p: spec_fn(A) -> bool, from: int) -> Option<int>
    decreases s.len() - from,
{
    if from < 0 || from >= s.len() {
        None
    } else if p(s[from]) {
        Some(from)
    } else {
        first_where(s, p, from + 1)
    }
}

/// The last index `i` with `lo <= i < hi` at which `p` holds.
pub open spec fn last_where_below<A>(s: Seq<A>, p: spec_fn(A) -> bool, lo: int, hi: int) -> Option<int>
    decreases hi - lo,
{
    if hi <= lo || hi > s.len() || lo < 0 {
        None
    } else if p(s[hi - 1]) {
        Some(hi - 1)
    } else {
        last_where_below(s, p, lo, hi - 1)
    }
}

/// The first index at or after `from` that holds `x`.
pub open spec fn first_index<A>(s: Seq<A>, x: A, from: int) -> Option<int> {
    first_where(s, |a: A| a == x, from)
}

/// The last index `i` with `lo <= i < hi` that holds `x`.
pub open spec fn last_index_below<A>(s: Seq<A>, x: A, lo: int, hi: int) -> Option<int> {
    last_where_below(s, |a: A| a == x, lo, hi)
}

/// The last index at or after `from` that holds `x`.
pub open spec fn last_index<A>(s: Seq<A>, x: A, from: int) -> Option<int> {
    last_index_below(s, x, from, s.len() as int)
}

/// `pat` occurs in `s` starting at index `i`.
pub open spec fn occurs_at<A>(s: Seq<A>, pat: Seq<A>, i: int) -> bool {
    &&& 0 <= i
    &&& i + pat.len() <= s.len()
    &&& forall|k: int| 0 <= k < pat.len() ==> #[trigger] s[i + k] == pat[k]
}

/// The first index at or after `from` at which `pat` occurs in `s`.
pub open spec fn first_occurrence<A>(s: Seq<A>, pat: Seq<A>, from: int) -> Option<int>
    decreases s.len() + 1 - from,
{
    if from < 0 || from + pat.len() > s.len() {
        None
    } else if occurs_at(s, pat, from) {
        Some(from)
    } else {
        first_occurrence(s, pat, from + 1)
    }
}

/// Converts an optional position to the mathematical integers of the specifications.
pub open spec fn opt_int(o: Option<usize>) -> Option<int> {
    match o {
        Some(i) => Some(i as int),
        None => None,
    }
}

/// What `first_where` returns, stated by its properties.
pub proof fn lemma_first_where<A>(s: Seq<A>, p: spec_fn(A) -> bool, from: int)
    requires
        0 <= from,
    ensures
        match first_where(s, p, from) {
            Some(k) => from <= k < s.len() && p(s[k]) && forall|j: int|
                from <= j < k ==> !p(#[trigger] s[j]),
            None => forall|j: int| from <= j < s.len() ==> !p(#[trigger] s[j]),
        },
    decreases s.len() - from,
{
    if from < s.len() && !p(s[from]) {
        lemma_first_where(s, p, from + 1);
    }
}

/// `first_where` finds the index `k` when `p` holds at `k` and nowhere before it.
pub proof fn lemma_first_where_at<A>(s: Seq<A>, p: spec_fn(A) -> bool, from: int, k: int)
    requires
        0 <= from <= k < s.len(),
        p(s[k]),
        forall|j: int| from <= j < k ==> !p(#[trigger] s[j]),
    ensures
        first_where(s, p, from) == Some(k),
    decreases k - from,
{
    if from < k {
        lemma_first_where_at(s, p, from + 1, k);
    }
}

/// `first_where` finds nothing when `p` holds nowhere from `from` on.
pub proof fn lemma_first_where_none<A>(s: Seq<A>, p: spec_fn(A) -> bool, from: int)
    requires
        0 <= from,
        forall|j: int| from <= j < s.len() ==> !p(#[trigger] s[j]),
    ensures
        first_where(s, p, from) is None,
    decreases s.len() - from,
{
    if from < s.len() {
        lemma_first_where_none(s, p, from + 1);
    }
}

/// What `last_where_below` returns, stated by its properties.
pub proof fn lemma_last_where<A>(s: Seq<A>, p: spec_fn(A) -> bool, lo: int, hi: int)
    requires
        0 <= lo,
        hi <= s.len(),
    ensures
        match last_where_below(s, p, lo, hi) {
            Some(k) => lo <= k < hi && p(s[k]) && forall|j: int|
                k < j < hi ==> !p(#[trigger] s[j]),
            None => forall|j: int| lo <= j < hi ==> !p(#[trigger] s[j]),
        },
    decreases hi - lo,
{
    if lo < hi && !p(s[hi - 1]) {
        lemma_last_where(s, p, lo, hi - 1);
    }
}

/// `last_where_below` finds the index `k` when `p` holds at `k` and nowhere after it.
pub proof fn lemma_last_where_at<A>(s: Seq<A>, p: spec_fn(A) -> bool, lo: int, hi: int, k: int)
    requires
        0 <= lo <= k < hi <= s.len(),
        p(s[k]),
        forall|j: int| k < j < hi ==> !p(#[trigger] s[j]),
    ensures
        last_where_below(s, p, lo, hi) == Some(k),
    decreases hi - k,
{
    if k < hi - 1 {
        lemma_last_where_at(s, p, lo, hi - 1, k);
    }
}

/// What `first_occurrence` returns, stated by its properties.
pub proof fn lemma_first_occurrence<A>(s: Seq<A>, pat: Seq<A>, from: int)
    requires
        0 <= from,
    ensures
        match first_occurrence(s, pat, from) {
            Some(k) => from <= k && occurs_at(s, pat, k) && forall|j: int|
                from <= j < k ==> !occurs_at(s, pat, j),
            None => forall|j: int| from <= j ==> !occurs_at(s, pat, j),
        },
    decreases s.len() + 1 - from,
{
    if from + pat.len() <= s.len() && !occurs_at(s, pat, from) {
        lemma_first_occurrence(s, pat, from + 1);
    }
}

/// `first_occurrence` finds `k` when `pat` occurs at `k` and nowhere before it.
pub proof fn lemma_first_occurrence_at<A>(s: Seq<A>, pat: Seq<A>, from: int, k: int)
    requires
        0 <= from <= k,
        occurs_at(s, pat, k),
        forall|j: int| from <= j < k ==> !occurs_at(s, pat, j),
    ensures
        first_occurrence(s, pat, from) == Some(k),
    decreases k - from,
{
    if from < k {
        lemma_first_occurrence_at(s, pat, from + 1, k);
    }
}

/// What `first_index` returns, stated by its properties.
pub proof fn lemma_first_index<A>(s: Seq<A>, x: A, from: int)
    requires
        0 <= from,
    ensures
        match first_index(s, x, from) {
            Some(k) => from <= k < s.len() && s[k] == x && forall|j: int|
                from <= j < k ==> #[trigger] s[j] != x,
            None => forall|j: int| from <= j < s.len() ==> #[trigger] s[j] != x,
        },
{
    lemma_first_where(s, |a: A| a == x, from);
}

/// `first_index` finds `k` when `x` stands at `k` and nowhere before it.
pub proof fn lemma_first_index_at<A>(s: Seq<A>, x: A, from: int, k: int)
    requires
        0 <= from <= k < s.len(),
        s[k] == x,
        forall|j: int| from <= j < k ==> #[trigger] s[j] != x,
    ensures
        first_index(s, x, from) == Some(k),
{
    lemma_first_where_at(s, |a: A| a == x, from, k);
}

/// `first_index` finds nothing when `x` stands nowhere from `from` on.
pub proof fn lemma_first_index_none<A>(s: Seq<A>, x: A, from: int)
    requires
        0 <= from,
        forall|j: int| from <= j < s.len() ==> #[trigger] s[j] != x,
    ensures
        first_index(s, x, from) is None,
{
    lemma_first_where_none(s, |a: A| a == x, from);
}

/// `last_index_below` finds nothing when `x` stands nowhere in the range.
pub proof fn lemma_last_index_none<A>(s: Seq<A>, x: A, lo: int, hi: int)
    requires
        0 <= lo,
        hi <= s.len(),
        forall|j: int| lo <= j < hi ==> #[trigger] s[j] != x,
    ensures
        last_index_below(s, x, lo, hi) is None,
    decreases hi - lo,
{
    if lo < hi {
        lemma_last_index_none(s, x, lo, hi - 1);
    }
}

/// `first_occurrence` finds nothing when `pat` occurs nowhere from `from` on.
pub proof fn lemma_first_occurrence_none<A>(s: Seq<A>, pat: Seq<A>, from: int)
    requires
        0 <= from,
        forall|j: int| from <= j ==> !occurs_at(s, pat, j),
    ensures
        first_occurrence(s, pat, from) is None,
    decreases s.len() + 1 - from,
{
    if from + pat.len() <= s.len() {
        lemma_first_occurrence_none(s, pat, from + 1);
    }
}

/// What `last_index_below` returns, stated by its properties.
pub proof fn lemma_last_index<A>(s: Seq<A>, x: A, lo: int, hi: int)
    requires
        0 <= lo,
        hi <= s.len(),
    ensures
        match last_index_below(s, x, lo, hi) {
            Some(k) => lo <= k < hi && s[k] == x && forall|j: int|
                k < j < hi ==> #[trigger] s[j] != x,
            None => forall|j: int| lo <= j < hi ==> #[trigger] s[j] != x,
        },
{
    lemma_last_where(s, |a: A| a == x, lo, hi);
}

/// `last_index_below` finds `k` when `x` stands at `k` and nowhere after it.
pub proof fn lemma_last_index_at<A>(s: Seq<A>, x: A, lo: int, hi: int, k: int)
    requires
        0 <= lo <= k < hi <= s.len(),
        s[k] == x,
        forall|j: int| k < j < hi ==> #[trigger] s[j] != x,
    ensures
        last_index_below(s, x, lo, hi) == Some(k),
{
    lemma_last_where_at(s, |a: A| a == x, lo, hi, k);
}

/// The first position at or after `from` where byte `x` stands.
pub fn find_byte(b: &[u8], x: u8, from: usize) -> (r: Option<usize>)
    ensures
        opt_int(r) == first_index(b@, x, from as int),
{
    let mut i = from;
    while i < b.len()
        invariant
            from <= i,
            first_index(b@, x, from as int) == first_index(b@, x, i as int),
        decreases b.len() - i,
    {
        if b[i] == x {
            return Some(i);
        }
        i = i + 1;
    }
    None
}

/// The last position at or after `from` where byte `x` stands.
pub fn rfind_byte(b: &[u8], x: u8, from: usize) -> (r: Option<usize>)
    ensures
        opt_int(r) == last_index(b@, x, from as int),
{
    let mut hi = b.len();
    while hi > from
        invariant
            hi <= b.len(),
            last_index(b@, x, from as int) == last_index_below(b@, x, from as int, hi as int),
        decreases hi,
    {
        if b[hi - 1] == x {
            return Some(hi - 1);
        }
        hi = hi - 1;
    }
    None
}

/// The first position at or after `from` where the bytes `pat` occur.
pub fn find_bytes(b: &[u8], pat: &[u8], from: usize) -> (r: Option<usize>)
    ensures
        opt_int(r) == first_occurrence(b@, pat@, from as int),
{
    let mut i = from;
    while i <= b.len() && pat.len() <= b.len() - i
        invariant
            from <= i,
            first_occurrence(b@, pat@, from as int) == first_occurrence(b@, pat@, i as int),
        decreases b.len() + 1 - i,
    {
        let mut k: usize = 0;
        let mut same = true;
        while k < pat.len()
            invariant
                i + pat.len() <= b.len(),
                k <= pat.len(),
                same <==> forall|t: int| 0 <= t < k ==> b@[i + t] == pat@[t],
            decreases pat.len() - k,
        {
            if b[i + k] != pat[k] {
                same = false;
            }
            k = k + 1;
        }
        if same {
            return Some(i);
        }
        i = i + 1;
    }
    None
}

/// The first position at or after `from` where character `x` stands.
pub fn find_char(s: &[char], x: char, from: usize) -> (r: Option<usize>)
    ensures
        opt_int(r) == first_index(s@, x, from as int),
{
    let mut i = from;
    while i < s.len()
        invariant
            from <= i,
            first_index(s@, x, from as int) == first_index(s@, x, i as int),
        decreases s.len() - i,
    {
        if s[i] == x {
            return Some(i);
        }
        i = i + 1;
    }
    None
}

/// The first position at or after `from` where the characters `pat` occur.
pub fn find_chars(s: &[char], pat: &[char], from: usize) -> (r: Option<usize>)
    ensures
        opt_int(r) == first_occurrence(s@, pat@, from as int),
{
    let mut i = from;
    while i <= s.len() && pat.len() <= s.len() - i
        invariant
            from <= i,
            first_occurrence(s@, pat@, from as int) == first_occurrence(s@, pat@, i as int),
        decreases s.len() + 1 - i,
    {
        let mut k: usize = 0;
        let mut same = true;
        while k < pat.len()
            invariant
                i + pat.len() <= s.len(),
                k <= pat.len(),
                same <==> forall|t: int| 0 <= t < k ==> s@[i + t] == pat@[t],
            decreases pat.len() - k,
        {
            if s[i + k] != pat[k] {
                same = false;
            }
            k = k + 1;
        }
        if same {
            return Some(i);
        }
        i = i + 1;
    }
    None
}

/// The last position at or after `from` where character `x` stands.
pub fn rfind_char(s: &[char], x: char, from: usize) -> (r: Option<usize>)
    ensures
        opt_int(r) == last_index(s@, x, from as int),
{
    let mut hi = s.len();
    while hi > from
        invariant
            hi <= s.len(),
            last_index(s@, x, from as int) == last_index_below(s@, x, from as int, hi as int),
        decreases hi,
    {
        if s[hi - 1] == x {
            return Some(hi - 1);
        }
        hi = hi - 1;
    }
    None
}

/// The characters of a string slice, in order.
pub fn chars_of(s: &str) -> (v: Vec<char>)
    ensures
        v@ == s@,
{
    let mut v: Vec<char> = Vec::new();
    for c in it: s.chars()
        invariant
            v@ == it.seq().take(it.index() as int),
    {
        v.push(c);
    }
    v
}

} // verus!
