//! The status line under a subject: which of its messages report a failure.
use vstd::prelude::*;
use crate::seqs::chars_of;

verus! {

/// `p` is a prefix of `s`.
pub open spec fn starts_with(s: Seq<char>, p: Seq<char>) -> bool {
    p.len() <= s.len() && s.subrange(0, p.len() as int) == p
}

/// The messages that report a failure: those that start with `Error`,
/// `Invalid` or `Grade must`.
pub open spec fn is_error_message(m: Seq<char>) -> bool {
    ||| starts_with(m, "Error"@)
    ||| starts_with(m, "Invalid"@)
    ||| starts_with(m, "Grade must"@)
}

/// Whether `p` is a prefix of `s`.
fn has_prefix(s: &[char], p: &[char]) -> (r: bool)
    ensures
        r == starts_with(s@, p@),
{
    if p.len() > s.len() {
        return false;
    }
    let mut i: usize = 0;
    while i < p.len()
        invariant
            i <= p@.len() <= s@.len(),
            forall|k: int| 0 <= k < i ==> s@[k] == p@[k],
        decreases p.len() - i,
    {
        if s[i] != p[i] {
            proof {
                assert(s@.subrange(0, p@.len() as int)[i as int] != p@[i as int]);
            }
            return false;
        }
        i = i + 1;
    }
    proof {
        assert(s@.subrange(0, p@.len() as int) =~= p@);
    }
    true
}

/// Whether the status message `message` reports a failure, and is shown as one.
pub fn is_error_status(message: &str) -> (r: bool)
    ensures
        r == is_error_message(message@),
{
    let m = chars_of(message);
    let error = chars_of("Error");
    let invalid = chars_of("Invalid");
    let range = chars_of("Grade must");
    has_prefix(&m, &error) || has_prefix(&m, &invalid) || has_prefix(&m, &range)
}

} // verus!
