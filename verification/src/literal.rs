//! A text without metacharacters, taken as a pattern, finds itself.

use crate::compile::{code_len, counters, emit, register_count, Instruction};
use crate::matcher::Match;
use crate::parse::{concatenation, finished_sequence, parse_pattern, sequence, ParseError, Syntax};
use crate::pike::{
    fresh_thread, marked, match_record, present, run_from, run_position, seen, step, step_budget,
    symbol_at, unvisited, Step, ThreadState, Visited,
};
use crate::regex::{compiled, search};
use crate::text::lemma_char_is_scalar;
use vstd::prelude::*;

verus! {

/// The symbols that mean something other than themselves in a pattern.
pub open spec fn is_metacharacter(c: char) -> bool {
    ||| c == '.'
    ||| c == '\\'
    ||| c == '|'
    ||| c == '*'
    ||| c == '+'
    ||| c == '?'
    ||| c == '('
    ||| c == ')'
    ||| c == '['
    ||| c == ']'
    ||| c == '{'
    ||| c == '}'
    ||| c == '^'
    ||| c == '$'
}

/// A text without metacharacters.
pub open spec fn is_plain(text: Seq<char>) -> bool {
    forall|i: int| 0 <= i < text.len() ==> !is_metacharacter(#[trigger] text[i])
}

/// The literals of the symbols of a text.
pub open spec fn literals(text: Seq<char>) -> Seq<Syntax>
    decreases text.len(),
{
    if text.len() == 0 {
        Seq::empty()
    } else {
        literals(text.drop_last()).push(Syntax::Literal(text.last()))
    }
}

/// The instructions that take the symbols of a text, one after the other.
pub open spec fn takes(text: Seq<char>) -> Seq<Instruction>
    decreases text.len(),
{
    if text.len() == 0 {
        Seq::empty()
    } else {
        takes(text.drop_last()).push(Instruction::Char(text.last()))
    }
}

/// The literals of a text, one by one.
pub proof fn lemma_literals(text: Seq<char>)
    ensures
        literals(text).len() == text.len(),
        forall|i: int|
            0 <= i < text.len() ==> #[trigger] literals(text)[i] == Syntax::Literal(text[i]),
    decreases text.len(),
{
    if text.len() > 0 {
        lemma_literals(text.drop_last());
        lemma_char_is_scalar(text.last());
        assert forall|i: int| 0 <= i < text.len() implies #[trigger] literals(text)[i]
            == Syntax::Literal(text[i]) by {
            if i < text.len() - 1 {
                assert(literals(text)[i] == literals(text.drop_last())[i]);
                assert(text.drop_last()[i] == text[i]);
            }
        }
    }
}

/// The instructions that take a text, one by one.
pub proof fn lemma_takes(text: Seq<char>)
    ensures
        takes(text).len() == text.len(),
        forall|i: int|
            0 <= i < text.len() ==> #[trigger] takes(text)[i] == Instruction::Char(text[i]),
    decreases text.len(),
{
    if text.len() > 0 {
        lemma_takes(text.drop_last());
        lemma_char_is_scalar(text.last());
        assert forall|i: int| 0 <= i < text.len() implies #[trigger] takes(text)[i]
            == Instruction::Char(text[i]) by {
            if i < text.len() - 1 {
                assert(takes(text)[i] == takes(text.drop_last())[i]);
                assert(text.drop_last()[i] == text[i]);
            }
        }
    }
}

/// Reading a plain text from index `i` on puts the literals of its
/// symbols on the stack.
pub proof fn lemma_sequence_of_plain(text: Seq<char>, i: int, stack: Seq<Syntax>)
    requires
        is_plain(text),
        0 <= i <= text.len(),
    ensures
        sequence(text, i, 0, stack) == finished_sequence(
            stack + literals(text.skip(i)),
            text.len() as int,
            0,
            false,
        ),
    decreases text.len() - i,
{
    lemma_literals(text.skip(i));
    if i < text.len() {
        let c = text[i];
        assert(!is_metacharacter(c));
        lemma_char_is_scalar(c);
        lemma_literals(text.skip(i + 1));
        lemma_sequence_of_plain(text, i + 1, stack.push(Syntax::Literal(c)));
        assert(text.skip(i)[0] == c);
        assert forall|k: int| 0 <= k < text.skip(i + 1).len() implies #[trigger] text.skip(
            i + 1,
        )[k] == text.skip(i)[k + 1] by {}
        assert(stack.push(Syntax::Literal(c)) + literals(text.skip(i + 1)) =~= stack + literals(
            text.skip(i),
        ));
    } else {
        assert(stack + literals(text.skip(i)) =~= stack);
    }
}

/// A plain text that is not empty stands for the concatenation of its
/// literals.
pub proof fn lemma_parse_plain(text: Seq<char>)
    requires
        is_plain(text),
        text.len() > 0,
    ensures
        parse_pattern(text) == Ok::<Syntax, ParseError>(concatenation(literals(text))),
{
    lemma_sequence_of_plain(text, 0, Seq::empty());
    assert(text.skip(0) =~= text);
    lemma_literals(text);
    assert(Seq::<Syntax>::empty() + literals(text) =~= literals(text));
}

/// The concatenation of the literals of a text is lowered to the
/// instructions that take its symbols.
pub proof fn lemma_emit_literals(text: Seq<char>, pc: int, reg: int)
    requires
        text.len() > 0,
    ensures
        emit(concatenation(literals(text)), pc, reg) == takes(text),
        code_len(concatenation(literals(text))) == text.len(),
        counters(concatenation(literals(text))) == 0,
    decreases text.len(),
{
    let trees = literals(text);
    lemma_literals(text);
    lemma_takes(text);
    lemma_char_is_scalar(text[0]);
    assert(trees[0] == Syntax::Literal(text[0]));
    if text.len() == 1 {
        assert(emit(trees[0], pc, reg) =~= takes(text));
    } else {
        let rest = text.drop_first();
        lemma_emit_literals(rest, pc + 1, reg);
        lemma_literals(rest);
        lemma_takes(rest);
        assert forall|k: int| 0 <= k < rest.len() implies #[trigger] rest[k] == text[k + 1] by {}
        assert(trees.drop_first() =~= literals(rest));
        assert(concatenation(trees) == Syntax::Concatenate(
            Box::new(trees[0]),
            Box::new(concatenation(literals(rest))),
        ));
        let first = Syntax::Literal(text[0]);
        let others = concatenation(literals(rest));
        assert(emit(first, pc, reg) == seq![Instruction::Char(text[0])]);
        assert(code_len(first) == 1 && counters(first) == 0);
        assert(emit(Syntax::Concatenate(Box::new(first), Box::new(others)), pc, reg) == emit(
            first,
            pc,
            reg,
        ) + emit(others, pc + 1, reg));
        assert(seq![Instruction::Char(text[0])] + takes(rest) =~= takes(text));
    }
}

/// The thread that has taken the first `k` symbols of a text from the
/// start of the input on.
pub open spec fn leader(k: usize, registers: nat) -> ThreadState {
    fresh_thread(0, registers).at(k)
}

/// Every thread of the list stands at or before the instruction `bound`.
pub open spec fn all_at_most(threads: Seq<ThreadState>, bound: int) -> bool {
    forall|i: int| 0 <= i < threads.len() ==> (#[trigger] threads[i]).pc <= bound
}

/// Threads that stand at instructions which take a symbol do not accept
/// and leave the list of waiting threads as it is, but for threads added
/// at its end, each one instruction further.
pub proof fn lemma_takers_do_not_accept(
    text: Seq<char>,
    input: Seq<char>,
    sp: usize,
    stack: Seq<ThreadState>,
    waiting: Seq<ThreadState>,
    visited: Visited,
    fuel: nat,
    bound: int,
)
    requires
        bound < text.len(),
        all_at_most(stack, bound),
        all_at_most(waiting, bound + 1),
    ensures
        ({
            let result = run_position(
                takes(text).push(Instruction::Accept),
                input,
                sp,
                stack,
                waiting,
                visited,
                fuel,
            );
            &&& result.accepted is None
            &&& result.waiting.len() >= waiting.len()
            &&& result.waiting.take(waiting.len() as int) == waiting
            &&& all_at_most(result.waiting, bound + 1)
        }),
    decreases fuel,
{
    let code = takes(text).push(Instruction::Accept);
    lemma_takes(text);
    if stack.len() > 0 && fuel > 0 {
        let t = stack.last();
        let rest = stack.drop_last();
        let less = (fuel - 1) as nat;
        assert(stack[stack.len() - 1].pc <= bound);
        assert(code[t.pc as int] == Instruction::Char(text[t.pc as int]));
        assert forall|i: int| 0 <= i < rest.len() implies (#[trigger] rest[i]).pc <= bound by {
            assert(rest[i] == stack[i]);
        }
        if seen(visited, t) {
            lemma_takers_do_not_accept(text, input, sp, rest, waiting, visited, less, bound);
        } else {
            let v = marked(visited, t);
            match step(code, input, sp, t) {
                Step::Die => {
                    lemma_takers_do_not_accept(text, input, sp, rest, waiting, v, less, bound);
                },
                Step::Consume(next) => {
                    lemma_takers_do_not_accept(
                        text,
                        input,
                        sp,
                        rest,
                        waiting.push(next),
                        v,
                        less,
                        bound,
                    );
                    let result = run_position(code, input, sp, rest, waiting.push(next), v, less);
                    assert(result.waiting.take(waiting.len() as int) =~= result.waiting.take(
                        waiting.len() as int + 1,
                    ).take(waiting.len() as int));
                    assert(waiting.push(next).take(waiting.len() as int) =~= waiting);
                },
                _ => {},
            }
        }
    } else {
        assert(waiting.take(waiting.len() as int) =~= waiting);
    }
}

/// No slot of a fresh thread is filled.
pub proof fn lemma_present_of_none(captures: Seq<Option<Match>>)
    requires
        forall|i: int| 0 <= i < captures.len() ==> (#[trigger] captures[i]) is None,
    ensures
        present(captures) == Seq::<Match>::empty(),
    decreases captures.len(),
{
    if captures.len() > 0 {
        assert(captures.last() == captures[captures.len() - 1]);
        assert forall|i: int| 0 <= i < captures.drop_last().len() implies (
        #[trigger] captures.drop_last()[i]) is None by {
            assert(captures.drop_last()[i] == captures[i]);
        }
        lemma_present_of_none(captures.drop_last());
    }
}

/// The run of the program of a plain text on the text itself, from a
/// position at which the leader waits first: it finds the whole text.
pub proof fn lemma_run_on_itself(text: Seq<char>, sp: usize, waiting: Seq<ThreadState>)
    requires
        0 < text.len() < usize::MAX,
        sp <= text.len(),
        sp == 0 ==> waiting.len() == 0,
        sp > 0 ==> waiting.len() > 0 && waiting[0] == leader(
            sp,
            register_count(takes(text).push(Instruction::Accept)),
        ),
        all_at_most(waiting, sp as int),
    ensures
        run_from(takes(text).push(Instruction::Accept), text, sp, waiting, None) == Some(
            seq![Match { start: 0, end: text.len() as usize }],
        ),
    decreases text.len() - sp,
{
    let code = takes(text).push(Instruction::Accept);
    lemma_takes(text);
    let registers = register_count(code);
    let seeded = waiting.push(fresh_thread(sp, registers));
    let stack = seeded.reverse();
    let none = Seq::<ThreadState>::empty();
    let budget = step_budget(code);
    assert(step_budget(code) >= 2);
    let top = stack.last();
    assert(top == seeded[0]);
    assert(top == leader(sp, registers));
    assert(budget > 0);
    assert(stack.drop_last().push(top) =~= stack);
    let fresh = unvisited(code);
    crate::pike::lemma_run_position_step(
        code,
        text,
        sp,
        stack.drop_last(),
        top,
        none,
        fresh,
        budget,
    );
    assert(!seen(fresh, top));
    if sp < text.len() {
        assert(code[sp as int] == Instruction::Char(text[sp as int]));
        assert(symbol_at(text, sp as int) == text[sp as int]);
        let next = leader((sp + 1) as usize, registers);
        assert(step(code, text, sp, top) == Step::Consume(next));
        let rest = stack.drop_last();
        assert forall|i: int| 0 <= i < rest.len() implies (#[trigger] rest[i]).pc <= sp by {
            assert(rest[i] == seeded[seeded.len() - 1 - i]);
        }
        lemma_takers_do_not_accept(
            text,
            text,
            sp,
            rest,
            none.push(next),
            marked(fresh, top),
            (budget - 1) as nat,
            sp as int,
        );
        let result = run_position(code, text, sp, stack, none, fresh, budget);
        assert(result.waiting.take(1)[0] == next);
        lemma_run_on_itself(text, (sp + 1) as usize, result.waiting);
    } else {
        assert(code[sp as int] == Instruction::Accept);
        assert(step(code, text, sp, top) == Step::Accept);
        lemma_present_of_none(top.captures);
        assert(match_record(top, sp) =~= seq![Match { start: 0, end: sp }]);
    }
}

/// A plain text that is not empty, taken as a pattern, finds itself in
/// itself: the match spans the whole text, and there are no groups.
pub proof fn lemma_plain_text_matches_itself(text: Seq<char>)
    requires
        is_plain(text),
        0 < text.len() < usize::MAX,
    ensures
        search(text, text) == Some(seq![Match { start: 0, end: text.len() as usize }]),
{
    lemma_parse_plain(text);
    lemma_emit_literals(text, 0, 0);
    assert(compiled(text) == Ok::<Seq<Instruction>, ParseError>(
        takes(text).push(Instruction::Accept),
    ));
    lemma_run_on_itself(text, 0, Seq::empty());
}

} // verus!
