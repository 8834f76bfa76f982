//! Strings as sequences of code points.

use vstd::prelude::*;

verus! {

/// Every `char` is a Unicode scalar value: a code point that is no
/// surrogate. Verus knows this of a `char` that is a parameter, and learns
/// it here of one that was taken out of a sequence.
pub proof fn lemma_char_is_scalar(c: char)
    ensures
        0 <= c as int <= 0xD7FF || 0xE000 <= c as int <= 0x10FFFF,
{
}

/// The code point itself. A `char` that was taken out of a container is
/// known to Verus as a Unicode scalar value only once it has passed through
/// a function; values that enter a tree are passed through this one.
pub fn code_point(c: char) -> (same: char)
    ensures
        same == c,
{
    c
}

/// The code points of a string, in order.
pub fn chars_of(s: &str) -> (chars: Vec<char>)
    ensures
        chars@ == s@,
{
    let mut chars: Vec<char> = Vec::new();
    for c in it: s.chars()
        invariant
            it.seq() == s@,
            chars@ == s@.take(it.index() as int),
    {
        chars.push(c);
        proof {
            assert(s@.take(it.index() + 1) =~= s@.take(it.index() as int).push(c));
        }
    }
    proof {
        assert(s@.take(s@.len() as int) =~= s@);
    }
    chars
}

} // verus!
