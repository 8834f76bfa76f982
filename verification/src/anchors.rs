//! The anchors `^` and `$`: where they pass, and what the patterns made of
//! one anchor find in every input.

use crate::compile::{program, register_count, Instruction};
use crate::literal::lemma_present_of_none;
use crate::matcher::Match;
use crate::parse::{parse_pattern, sequence, ParseError, Syntax};
use crate::pike::{
    fresh_thread, lemma_run_position_step, marked, match_record, run_from, run_position, seen,
    step, step_budget, unvisited, PositionResult, Step, ThreadState,
};
use crate::regex::{compiled, search};
use vstd::prelude::*;

verus! {

/// `$` passes at the end of every input, `^` at the start of every input,
/// and neither passes anywhere else. A thread that passes one goes on at the
/// same position, unchanged but for its program counter: an anchor takes
/// no symbol.
pub proof fn lemma_anchors(code: Seq<Instruction>, input: Seq<char>, sp: usize, t: ThreadState)
    requires
        t.pc < code.len(),
        sp <= input.len(),
    ensures
        code[t.pc as int] == Instruction::AssertEnd ==> step(code, input, sp, t) == (if sp
            == input.len() {
            Step::Continue(t.advanced())
        } else {
            Step::Die
        }),
        code[t.pc as int] == Instruction::AssertStart ==> step(code, input, sp, t) == (if sp == 0 {
            Step::Continue(t.advanced())
        } else {
            Step::Die
        }),
        t.advanced() == (ThreadState { pc: (t.pc + 1) as usize, ..t }),
{
}

/// The program of the pattern `$`.
pub open spec fn end_program() -> Seq<Instruction> {
    seq![Instruction::AssertEnd, Instruction::Accept]
}

/// The program of the pattern `^`.
pub open spec fn start_program() -> Seq<Instruction> {
    seq![Instruction::AssertStart, Instruction::Accept]
}

/// The patterns `$` and `^` have the programs of one anchor.
pub proof fn lemma_anchor_programs()
    ensures
        compiled(seq!['$']) == Ok::<Seq<Instruction>, ParseError>(end_program()),
        compiled(seq!['^']) == Ok::<Seq<Instruction>, ParseError>(start_program()),
{
    reveal_with_fuel(sequence, 3);
    let end = seq!['$'];
    assert(end.len() == 1 && end[0] == '$');
    assert(parse_pattern(end) == Ok::<Syntax, ParseError>(Syntax::AssertEnd));
    assert(program(Syntax::AssertEnd) =~= end_program());
    let start = seq!['^'];
    assert(start.len() == 1 && start[0] == '^');
    assert(parse_pattern(start) == Ok::<Syntax, ParseError>(Syntax::AssertStart));
    assert(program(Syntax::AssertStart) =~= start_program());
}

/// What a fresh thread does alone at one position of a program made of an
/// anchor and `Accept`: it accepts where the anchor passes, and dies
/// elsewhere.
pub proof fn lemma_anchor_position(code: Seq<Instruction>, input: Seq<char>, sp: usize)
    requires
        code == end_program() || code == start_program(),
        sp <= input.len(),
    ensures
        ({
            let t = fresh_thread(sp, register_count(code));
            let passes = if code == end_program() {
                sp == input.len()
            } else {
                sp == 0
            };
            run_position(
                code,
                input,
                sp,
                seq![t],
                Seq::empty(),
                unvisited(code),
                step_budget(code),
            ) == (PositionResult {
                waiting: Seq::empty(),
                accepted: if passes {
                    Some(t.advanced())
                } else {
                    None
                },
            })
        }),
{
    let t = fresh_thread(sp, register_count(code));
    let none = Seq::<ThreadState>::empty();
    let fresh = unvisited(code);
    let budget = step_budget(code);
    assert(step_budget(code) >= 2);
    assert(budget >= 2);
    assert(none.push(t) =~= seq![t]);
    lemma_run_position_step(code, input, sp, none, t, none, fresh, budget);
    assert(!seen(fresh, t));
    let next = t.advanced();
    let second = marked(fresh, t);
    lemma_run_position_step(code, input, sp, none, next, none, second, (budget - 1) as nat);
    assert(!second[1].contains(next.registers));
    assert(!seen(second, next));
    assert(step(code, input, sp, next) == Step::Accept);
}

/// Once a match is recorded and no thread waits, the rest of the run
/// keeps the match.
pub proof fn lemma_run_without_threads(
    code: Seq<Instruction>,
    input: Seq<char>,
    sp: usize,
    spans: Seq<Match>,
)
    requires
        sp <= input.len(),
    ensures
        run_from(code, input, sp, Seq::empty(), Some(spans)) == Some(spans),
    decreases input.len() - sp,
{
    let none = Seq::<ThreadState>::empty();
    assert(none.reverse() =~= none);
    if sp < input.len() && sp < usize::MAX {
        lemma_run_without_threads(code, input, (sp + 1) as usize, spans);
    }
}

/// The run of the program of `$` from a position on, before any match:
/// it finds the empty span at the end of the input.
pub proof fn lemma_run_to_the_end(input: Seq<char>, sp: usize)
    requires
        sp <= input.len() <= usize::MAX,
    ensures
        run_from(end_program(), input, sp, Seq::empty(), None) == Some(
            seq![Match { start: input.len() as usize, end: input.len() as usize }],
        ),
    decreases input.len() - sp,
{
    let code = end_program();
    let t = fresh_thread(sp, register_count(code));
    let seeded = Seq::<ThreadState>::empty().push(t);
    assert(seeded.reverse() =~= seq![t]);
    lemma_anchor_position(code, input, sp);
    if sp < input.len() {
        lemma_run_to_the_end(input, (sp + 1) as usize);
    } else {
        lemma_present_of_none(t.captures);
        assert(match_record(t.advanced(), sp) =~= seq![Match { start: sp, end: sp }]);
    }
}

/// `$` matches every input at its end, and `^` matches every input at its
/// start; both matches are empty.
pub proof fn lemma_anchors_match_every_input(input: Seq<char>)
    requires
        input.len() <= usize::MAX,
    ensures
        search(seq!['$'], input) == Some(
            seq![Match { start: input.len() as usize, end: input.len() as usize }],
        ),
        search(seq!['^'], input) == Some(seq![Match { start: 0, end: 0 }]),
{
    lemma_anchor_programs();
    lemma_run_to_the_end(input, 0);
    let code = start_program();
    let t = fresh_thread(0, register_count(code));
    let seeded = Seq::<ThreadState>::empty().push(t);
    assert(seeded.reverse() =~= seq![t]);
    lemma_anchor_position(code, input, 0);
    lemma_present_of_none(t.captures);
    let spans = seq![Match { start: 0, end: 0 }];
    assert(match_record(t.advanced(), 0) =~= spans);
    if 0 < input.len() {
        lemma_run_without_threads(code, input, 1, spans);
    }
}

} // verus!
