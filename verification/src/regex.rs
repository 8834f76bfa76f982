//! Compiled patterns: a pattern is parsed and compiled once, and searched
//! for in any number of inputs.

use crate::bounds::well_spanned;
use crate::choice::{lemma_found_is_preferred, preferred};
use crate::compile::{code_len, compile, max_register, program, program_size, Instruction};
use crate::leftmost::{leftmost, lemma_found_is_leftmost};
use crate::matcher::Match;
use crate::paths::is_match;
use crate::parse::{parse, parse_pattern, ParseError};
use crate::pike::{find_match, found, PikeMatcher};
use vstd::prelude::*;

verus! {

/// The program that a pattern is compiled to, or why it has none: the
/// error of the parser, or `ProgramTooLarge` for an expression whose
/// program would not fit the machine.
pub open spec fn compiled(pattern: Seq<char>) -> Result<Seq<Instruction>, ParseError> {
    match parse_pattern(pattern) {
        Err(error) => Err(error),
        Ok(tree) => if code_len(tree) >= usize::MAX {
            Err(ParseError::ProgramTooLarge)
        } else {
            Ok(program(tree))
        },
    }
}

/// What a pattern finds in an input: nothing where the pattern has no
/// program or finds no match, else the span of the match followed by the
/// spans of its groups.
pub open spec fn search(pattern: Seq<char>, input: Seq<char>) -> Option<Seq<Match>> {
    match compiled(pattern) {
        Ok(code) => find_match(code, input),
        Err(_) => None,
    }
}

/// Whether `result` is what compiling `pattern` gives: the program of the
/// pattern, or the error that the pattern has.
pub open spec fn compiles_to(pattern: Seq<char>, result: Result<Regex, ParseError>) -> bool {
    match result {
        Ok(regex) => compiled(pattern) == Ok::<Seq<Instruction>, ParseError>(regex@),
        Err(error) => compiled(pattern) == Err::<Seq<Instruction>, ParseError>(error),
    }
}

/// Compiling is a function of the pattern alone: whenever a pattern is
/// compiled twice, both results hold the same program, instruction for
/// instruction, or both are the same error.
pub proof fn lemma_compiling_is_pure(
    pattern: Seq<char>,
    first: Result<Regex, ParseError>,
    second: Result<Regex, ParseError>,
)
    requires
        compiles_to(pattern, first),
        compiles_to(pattern, second),
    ensures
        first is Ok <==> second is Ok,
        first is Ok ==> first->Ok_0@ == second->Ok_0@,
        first is Err ==> first->Err_0 == second->Err_0,
{
}

/// A pattern finds the leftmost match, and among the matches that start
/// there, the one that a backtracking search prefers.
pub proof fn lemma_search_is_leftmost(pattern: Seq<char>, input: Seq<char>)
    requires
        compiled(pattern) is Ok,
    ensures
        compiled(pattern) matches Ok(code) && leftmost(code, input, search(pattern, input))
            && preferred(code, input, search(pattern, input)),
{
    let code = compiled(pattern)->Ok_0;
    lemma_found_is_leftmost(code, input);
    lemma_found_is_preferred(code, input);
}

/// A compiled pattern.
pub struct Regex {
    code: Vec<Instruction>,
}

impl View for Regex {
    type V = Seq<Instruction>;

    closed spec fn view(&self) -> Seq<Instruction> {
        self.code@
    }
}

impl Regex {
    /// The program refers to counter registers that the machine can hold.
    #[verifier::type_invariant]
    closed spec fn registers_fit(&self) -> bool {
        max_register(self.code@) < usize::MAX
    }

    /// Parses and compiles a pattern. The result is the program of the
    /// pattern, or the reason why the pattern has none.
    pub fn new(pattern: &str) -> (result: Result<Regex, ParseError>)
        ensures
            compiles_to(pattern@, result),
    {
        match parse(pattern) {
            Err(error) => Err(error),
            Ok(etree) => {
                match program_size(&etree) {
                    None => Err(ParseError::ProgramTooLarge),
                    Some(_) => {
                        let code = compile(&etree);
                        Ok(Regex { code })
                    },
                }
            },
        }
    }

    /// The instructions of the program.
    pub fn code(&self) -> (code: &Vec<Instruction>)
        ensures
            code@ == self@,
    {
        &self.code
    }

    /// Searches the input for the pattern, from every position in turn:
    /// the span of the match that starts first, and among those of the one
    /// that the priorities of the pattern prefer, followed by the spans of
    /// its groups. Groups beyond the ninth are not reported, nor groups
    /// that the match did not pass.
    pub fn partial_match(&self, input: &str) -> (result: Option<Vec<Match>>)
        ensures
            found(result) == find_match(self@, input@),
            result matches Some(spans) ==> well_spanned(spans@, input@.len()) && is_match(
                self@,
                input@,
                spans@[0].start,
                spans@[0].end,
            ),
            leftmost(self@, input@, found(result)) && preferred(
                self@,
                input@,
                found(result),
            ),
    {
        proof {
            use_type_invariant(self);
        }
        PikeMatcher::do_match(self.code.as_slice(), input)
    }
}

} // verus!
