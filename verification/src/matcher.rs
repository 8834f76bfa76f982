//! Spans of the input, and the interface of a machine that finds them.

use crate::bounds::well_spanned;
use crate::choice::preferred;
use crate::compile::{max_register, Instruction};
use crate::leftmost::leftmost;
use crate::paths::is_match;
use crate::pike::{find_match, found, PikeMatcher};
use vstd::prelude::*;

verus! {

/// A span of the input, as offsets counted in code points: the symbols from
/// `start` up to, but not including, `end`.
#[derive(Clone, Copy, Debug, PartialEq, Eq, Structural)]
pub struct Match {
    pub start: usize,
    pub end: usize,
}

/// A machine that runs compiled programs.
pub trait Matcher {
    /// Runs `code` on `input`: what the program finds, as the rules of the
    /// machine define it.
    fn do_match(code: &[Instruction], input: &str) -> (result: Option<Vec<Match>>)
        requires
            max_register(code@) < usize::MAX,
        ensures
            found(result) == find_match(code@, input@),
            result matches Some(spans) ==> well_spanned(spans@, input@.len()) && is_match(
                code@,
                input@,
                spans@[0].start,
                spans@[0].end,
            ),
            leftmost(code@, input@, found(result)) && preferred(
                code@,
                input@,
                found(result),
            ),
    ;
}

impl<'a> Matcher for PikeMatcher<'a> {
    fn do_match(code: &[Instruction], input: &str) -> (result: Option<Vec<Match>>) {
        PikeMatcher::do_match(code, input)
    }
}

} // verus!
