//! Which messages are worth keeping as text for the model.

use crate::text::{
    alphanumeric_count, char_is_whitespace, chars_of, count_alphanumeric, is_whitespace,
};
use vstd::prelude::*;

verus! {

/// The number of whitespace characters in a text.
pub open spec fn whitespace_count(s: Seq<char>) -> nat
    decreases s.len(),
{
    if s.len() == 0 {
        0
    } else {
        whitespace_count(s.drop_last()) + if char_is_whitespace(s.last()) {
            1nat
        } else {
            0nat
        }
    }
}

/// A text is worth keeping if it is not empty, at least as many of its
/// characters are alphanumeric as half its length in bytes, and it holds at
/// least four whitespace characters.
pub open spec fn worth_keeping(s: &str) -> bool {
    &&& s.len() != 0
    &&& alphanumeric_count(s@) >= s.len() / 2
    &&& whitespace_count(s@) >= 4
}

/// Counts the whitespace characters of a text.
pub fn count_whitespace(s: &str) -> (n: usize)
    ensures
        n == whitespace_count(s@),
{
    let cs = chars_of(s);
    let mut n: usize = 0;
    let mut i: usize = 0;
    while i < cs.len()
        invariant
            cs@ == s@,
            i <= cs.len(),
            n <= i,
            n == whitespace_count(s@.take(i as int)),
        decreases cs.len() - i,
    {
        proof {
            assert(s@.take(i + 1).drop_last() =~= s@.take(i as int));
        }
        if is_whitespace(cs[i]) {
            n = n + 1;
        }
        i = i + 1;
    }
    proof {
        assert(s@.take(i as int) =~= s@);
    }
    n
}

/// Whether the text of a message is worth keeping.
pub fn crap_filter(msg: &str) -> (keep: bool)
    ensures
        keep == worth_keeping(msg),
{
    if msg.len() == 0 {
        return false;
    }
    if count_alphanumeric(msg) < msg.len() / 2 {
        return false;
    }
    if count_whitespace(msg) < 4 {
        return false;
    }
    true
}

/// Whether a message is kept: one that a person wrote, with a text worth
/// keeping.
pub fn message_filter(author_is_bot: bool, content: &str) -> (keep: bool)
    ensures
        keep == (!author_is_bot && worth_keeping(content)),
{
    if author_is_bot {
        return false;
    }
    if !crap_filter(content) {
        return false;
    }
    true
}

} // verus!
