//! Which lines of a feed are no rules at all.

use crate::text::{chars_of, contains, occurs_in, trim, trimmed};
use vstd::prelude::*;

verus! {

/// Whether a trimmed line is noise: empty, a comment (`!`), an exception
/// (`@`), a header (`[`), or a pattern with `.*` in it.
pub open spec fn is_noise(t: Seq<char>) -> bool {
    ||| t.len() == 0
    ||| t.first() == '!'
    ||| t.first() == '@'
    ||| t.first() == '['
    ||| occurs_in(".*"@, t)
}

/// Whether a line of the feed is skipped: it is noise once trimmed.
pub open spec fn skipped(line: Seq<char>) -> bool {
    is_noise(trimmed(line))
}

/// Tests a trimmed line for noise.
pub fn noise(t: &Vec<char>) -> (b: bool)
    ensures
        b == is_noise(t@),
{
    if t.len() == 0 {
        return true;
    }
    let first = t[0];
    first == '!' || first == '@' || first == '[' || contains(t, ".*")
}

/// Whether a line of the feed is skipped before normalization.
pub fn should_skip(line: &str) -> (b: bool)
    ensures
        b == skipped(line@),
{
    noise(&trim(&chars_of(line)))
}

} // verus!
