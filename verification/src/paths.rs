//! What it means that a program matches an input: a thread has a way
//! through the program to `Accept`. The machine reports such matches only.

use crate::compile::{register_count, Instruction};
use crate::matcher::Match;
use crate::pike::{
    cap_of, capped, compared_with, largest_count, find_match, fresh_thread, marked, match_record,
    run_from, run_position, seen, step, step_budget, unvisited, Step, ThreadState, Visited,
};
use vstd::prelude::*;

verus! {

/// Whether a thread at position `sp` can come to `Accept` at position
/// `end` by running at most `n` instructions, taking at each `Fork` the
/// target that leads there.
pub open spec fn accepts(
    code: Seq<Instruction>,
    input: Seq<char>,
    sp: usize,
    t: ThreadState,
    n: nat,
    end: usize,
) -> bool
    decreases n,
{
    n > 0 && match step(code, input, sp, t) {
        Step::Die => false,
        Step::Accept => sp == end,
        Step::Consume(next) => sp < input.len() && sp < usize::MAX && accepts(
            code,
            input,
            (sp + 1) as usize,
            next,
            (n - 1) as nat,
            end,
        ),
        Step::Continue(next) => accepts(code, input, sp, next, (n - 1) as nat, end),
        Step::Split(first, second) => accepts(code, input, sp, first, (n - 1) as nat, end)
            || accepts(code, input, sp, second, (n - 1) as nat, end),
    }
}

/// Whether the program matches the input from `start` to `end`: a thread
/// that starts at `start` can come to `Accept` at `end`.
pub open spec fn is_match(
    code: Seq<Instruction>,
    input: Seq<char>,
    start: usize,
    end: usize,
) -> bool {
    exists|n: nat| accepts(code, input, start, fresh_thread(start, register_count(code)), n, end)
}

/// Two threads stand at the same instruction with the same counters, as
/// far as the program can tell counters apart: counters above every
/// number that the program compares them with count as the same.
pub open spec fn similar(code: Seq<Instruction>, a: ThreadState, b: ThreadState) -> bool {
    a.pc == b.pc && capped(a.registers, cap_of(code)) == capped(b.registers, cap_of(code))
}

/// A thread and what an instruction makes of it began at the same
/// position.
pub open spec fn same_start(result: Step, t: ThreadState) -> bool {
    match result {
        Step::Consume(next) => next.match_start == t.match_start,
        Step::Continue(next) => next.match_start == t.match_start,
        Step::Split(first, second) => first.match_start == t.match_start && second.match_start
            == t.match_start,
        _ => true,
    }
}

/// What an instruction does to two similar threads is similar.
pub open spec fn similar_steps(code: Seq<Instruction>, a: Step, b: Step) -> bool {
    match (a, b) {
        (Step::Die, Step::Die) => true,
        (Step::Accept, Step::Accept) => true,
        (Step::Consume(x), Step::Consume(y)) => similar(code, x, y),
        (Step::Continue(x), Step::Continue(y)) => similar(code, x, y),
        (Step::Split(x1, x2), Step::Split(y1, y2)) => similar(code, x1, y1) && similar(
            code,
            x2,
            y2,
        ),
        _ => false,
    }
}

/// No instruction compares a counter with a number above the largest
/// count of the program.
pub proof fn lemma_compared_at_most(code: Seq<Instruction>, pc: int)
    requires
        0 <= pc < code.len(),
    ensures
        compared_with(code[pc]) matches Some(value) ==> value <= largest_count(code),
    decreases code.len(),
{
    if pc < code.len() - 1 {
        lemma_compared_at_most(code.drop_last(), pc);
        assert(code.drop_last()[pc] == code[pc]);
    } else {
        assert(code.last() == code[pc]);
    }
}

/// Counters that are capped twice are capped once, and a thread is
/// similar to the thread that stands for its mark.
pub proof fn lemma_capped_twice(registers: Seq<usize>, cap: usize)
    ensures
        capped(capped(registers, cap), cap) == capped(registers, cap),
{
    assert(capped(capped(registers, cap), cap) =~= capped(registers, cap));
}

/// Similar threads have as many counters, and each counter of the one is
/// the counter of the other, or both are above every number that the
/// program compares them with.
pub proof fn lemma_similar_counters(code: Seq<Instruction>, a: ThreadState, b: ThreadState, i: int)
    requires
        similar(code, a, b),
        0 <= i < a.registers.len(),
    ensures
        a.registers.len() == b.registers.len(),
        a.registers[i] == b.registers[i] || (a.registers[i] >= cap_of(code) && b.registers[i]
            >= cap_of(code)),
{
    let cap = cap_of(code);
    assert(capped(a.registers, cap).len() == a.registers.len());
    assert(capped(b.registers, cap).len() == b.registers.len());
    assert(capped(a.registers, cap)[i] == capped(b.registers, cap)[i]);
}

/// What an instruction does depends on the program counter of the thread
/// and on its counters, as far as the program can tell them apart; and it
/// keeps the start of the thread.
pub proof fn lemma_step_similar(
    code: Seq<Instruction>,
    input: Seq<char>,
    sp: usize,
    a: ThreadState,
    b: ThreadState,
)
    requires
        similar(code, a, b),
    ensures
        similar_steps(code, step(code, input, sp, a), step(code, input, sp, b)),
        same_start(step(code, input, sp, a), a),
{
    let cap = cap_of(code);
    assert(capped(a.registers, cap).len() == a.registers.len());
    assert(capped(b.registers, cap).len() == b.registers.len());
    if a.pc < code.len() {
        lemma_compared_at_most(code, a.pc as int);
        match code[a.pc as int] {
            Instruction::ConditionalJumpEq(register, value, target) => {
                if register < a.registers.len() {
                    lemma_similar_counters(code, a, b, register as int);
                }
            },
            Instruction::ConditionalJumpLE(register, value, target) => {
                if register < a.registers.len() {
                    lemma_similar_counters(code, a, b, register as int);
                }
            },
            Instruction::Increment(register) => {
                if register < a.registers.len() {
                    let x = a.incremented(register);
                    let y = b.incremented(register);
                    assert forall|i: int| 0 <= i < x.registers.len() implies capped(
                        x.registers,
                        cap,
                    )[i] == capped(y.registers, cap)[i] by {
                        lemma_similar_counters(code, a, b, i);
                    }
                    assert(capped(x.registers, cap) =~= capped(y.registers, cap));
                }
            },
            _ => {},
        }
    }
}

/// Whether a thread can come to `Accept` depends on its program counter
/// and on its counters, as far as the program can tell them apart.
pub proof fn lemma_accepts_similar(
    code: Seq<Instruction>,
    input: Seq<char>,
    sp: usize,
    a: ThreadState,
    b: ThreadState,
    n: nat,
    end: usize,
)
    requires
        similar(code, a, b),
    ensures
        accepts(code, input, sp, a, n, end) == accepts(code, input, sp, b, n, end),
    decreases n,
{
    if n > 0 {
        lemma_step_similar(code, input, sp, a, b);
        let less = (n - 1) as nat;
        match (step(code, input, sp, a), step(code, input, sp, b)) {
            (Step::Consume(x), Step::Consume(y)) => {
                if sp < usize::MAX {
                    lemma_accepts_similar(code, input, (sp + 1) as usize, x, y, less, end);
                }
            },
            (Step::Continue(x), Step::Continue(y)) => {
                lemma_accepts_similar(code, input, sp, x, y, less, end);
            },
            (Step::Split(x1, x2), Step::Split(y1, y2)) => {
                lemma_accepts_similar(code, input, sp, x1, y1, less, end);
                lemma_accepts_similar(code, input, sp, x2, y2, less, end);
            },
            _ => {},
        }
    }
}

/// A thread that can come to `Accept` within `n` instructions can do so
/// within any larger number.
pub proof fn lemma_accepts_more(
    code: Seq<Instruction>,
    input: Seq<char>,
    sp: usize,
    t: ThreadState,
    n: nat,
    more: nat,
    end: usize,
)
    requires
        accepts(code, input, sp, t, n, end),
        n <= more,
    ensures
        accepts(code, input, sp, t, more, end),
    decreases n,
{
    let less = (n - 1) as nat;
    let fewer = (more - 1) as nat;
    match step(code, input, sp, t) {
        Step::Consume(next) => {
            lemma_accepts_more(code, input, (sp + 1) as usize, next, less, fewer, end);
        },
        Step::Continue(next) => {
            lemma_accepts_more(code, input, sp, next, less, fewer, end);
        },
        Step::Split(first, second) => {
            if accepts(code, input, sp, first, less, end) {
                lemma_accepts_more(code, input, sp, first, less, fewer, end);
            } else {
                lemma_accepts_more(code, input, sp, second, less, fewer, end);
            }
        },
        _ => {},
    }
}

/// A thread at position `sp` whose every way to `Accept` is a match of
/// the program from the start of the thread on.
pub open spec fn genuine(
    code: Seq<Instruction>,
    input: Seq<char>,
    sp: usize,
    t: ThreadState,
) -> bool {
    forall|n: nat, end: usize| #[trigger]
        accepts(code, input, sp, t, n, end) ==> is_match(code, input, t.match_start, end)
}

/// Every thread of the list is genuine at `sp`.
pub open spec fn all_genuine(
    code: Seq<Instruction>,
    input: Seq<char>,
    sp: usize,
    threads: Seq<ThreadState>,
) -> bool {
    forall|i: int| 0 <= i < threads.len() ==> genuine(code, input, sp, #[trigger] threads[i])
}

/// Every thread of the list, which has taken the symbol at `sp`, is
/// genuine at the next position, if there is one.
pub open spec fn all_genuine_next(
    code: Seq<Instruction>,
    input: Seq<char>,
    sp: usize,
    threads: Seq<ThreadState>,
) -> bool {
    sp < input.len() && sp < usize::MAX ==> all_genuine(code, input, (sp + 1) as usize, threads)
}

/// What an instruction makes of a genuine thread is genuine.
pub proof fn lemma_step_genuine(code: Seq<Instruction>, input: Seq<char>, sp: usize, t: ThreadState)
    requires
        genuine(code, input, sp, t),
    ensures
        match step(code, input, sp, t) {
            Step::Consume(next) => sp < input.len() && sp < usize::MAX ==> genuine(
                code,
                input,
                (sp + 1) as usize,
                next,
            ),
            Step::Continue(next) => genuine(code, input, sp, next),
            Step::Split(first, second) => genuine(code, input, sp, first) && genuine(
                code,
                input,
                sp,
                second,
            ),
            Step::Accept => is_match(code, input, t.match_start, sp),
            Step::Die => true,
        },
{
    lemma_step_similar(code, input, sp, t, t);
    match step(code, input, sp, t) {
        Step::Consume(next) => {
            if sp < input.len() && sp < usize::MAX {
                assert forall|n: nat, end: usize| #[trigger]
                    accepts(code, input, (sp + 1) as usize, next, n, end) implies is_match(
                    code,
                    input,
                    next.match_start,
                    end,
                ) by {
                    assert(accepts(code, input, sp, t, n + 1, end));
                }
            }
        },
        Step::Continue(next) => {
            assert forall|n: nat, end: usize| #[trigger]
                accepts(code, input, sp, next, n, end) implies is_match(
                code,
                input,
                next.match_start,
                end,
            ) by {
                assert(accepts(code, input, sp, t, n + 1, end));
            }
        },
        Step::Split(first, second) => {
            assert forall|n: nat, end: usize| #[trigger]
                accepts(code, input, sp, first, n, end) implies is_match(
                code,
                input,
                first.match_start,
                end,
            ) by {
                assert(accepts(code, input, sp, t, n + 1, end));
            }
            assert forall|n: nat, end: usize| #[trigger]
                accepts(code, input, sp, second, n, end) implies is_match(
                code,
                input,
                second.match_start,
                end,
            ) by {
                assert(accepts(code, input, sp, t, n + 1, end));
            }
        },
        Step::Accept => {
            assert(accepts(code, input, sp, t, 1, sp));
        },
        Step::Die => {},
    }
}

/// The work at one position keeps all threads genuine.
pub proof fn lemma_position_genuine(
    code: Seq<Instruction>,
    input: Seq<char>,
    sp: usize,
    stack: Seq<ThreadState>,
    waiting: Seq<ThreadState>,
    visited: Visited,
    fuel: nat,
)
    requires
        all_genuine(code, input, sp, stack),
        all_genuine_next(code, input, sp, waiting),
    ensures
        all_genuine_next(
            code,
            input,
            sp,
            run_position(code, input, sp, stack, waiting, visited, fuel).waiting,
        ),
        run_position(code, input, sp, stack, waiting, visited, fuel).accepted matches Some(t)
            ==> is_match(code, input, t.match_start, sp),
    decreases fuel,
{
    if stack.len() > 0 && fuel > 0 {
        let t = stack.last();
        let rest = stack.drop_last();
        let less = (fuel - 1) as nat;
        assert(genuine(code, input, sp, stack[stack.len() - 1]));
        assert forall|i: int| 0 <= i < rest.len() implies genuine(
            code,
            input,
            sp,
            #[trigger] rest[i],
        ) by {
            assert(rest[i] == stack[i]);
        }
        lemma_step_genuine(code, input, sp, t);
        if seen(visited, t) {
            lemma_position_genuine(code, input, sp, rest, waiting, visited, less);
        } else {
            let v = marked(visited, t);
            match step(code, input, sp, t) {
                Step::Die => {
                    lemma_position_genuine(code, input, sp, rest, waiting, v, less);
                },
                Step::Consume(next) => {
                    lemma_position_genuine(code, input, sp, rest, waiting.push(next), v, less);
                },
                Step::Continue(next) => {
                    lemma_position_genuine(code, input, sp, rest.push(next), waiting, v, less);
                },
                Step::Split(first, second) => {
                    lemma_position_genuine(
                        code,
                        input,
                        sp,
                        rest.push(second).push(first),
                        waiting,
                        v,
                        less,
                    );
                },
                Step::Accept => {},
            }
        }
    }
}

/// The span of the whole match that is recorded, if one is, is a match of
/// the program.
pub open spec fn recorded_genuine(
    code: Seq<Instruction>,
    input: Seq<char>,
    matched: Option<Seq<Match>>,
) -> bool {
    matched matches Some(spans) ==> spans.len() > 0 && is_match(
        code,
        input,
        spans[0].start,
        spans[0].end,
    )
}

/// The run of the machine from a position on reports a match of the
/// program, or none, if its threads are genuine and the match recorded so
/// far is one.
pub proof fn lemma_run_genuine(
    code: Seq<Instruction>,
    input: Seq<char>,
    sp: usize,
    waiting: Seq<ThreadState>,
    matched: Option<Seq<Match>>,
)
    requires
        sp <= input.len(),
        all_genuine(code, input, sp, waiting),
        recorded_genuine(code, input, matched),
    ensures
        recorded_genuine(code, input, run_from(code, input, sp, waiting, matched)),
    decreases input.len() - sp,
{
    let seed = fresh_thread(sp, register_count(code));
    let seeded = if matched is None {
        waiting.push(seed)
    } else {
        waiting
    };
    assert(genuine(code, input, sp, seed));
    assert(all_genuine(code, input, sp, seeded));
    assert forall|i: int| 0 <= i < seeded.reverse().len() implies genuine(
        code,
        input,
        sp,
        #[trigger] seeded.reverse()[i],
    ) by {
        assert(seeded.reverse()[i] == seeded[seeded.len() - 1 - i]);
    }
    let none = Seq::<ThreadState>::empty();
    let fresh = unvisited(code);
    let budget = step_budget(code);
    let result = run_position(code, input, sp, seeded.reverse(), none, fresh, budget);
    lemma_position_genuine(code, input, sp, seeded.reverse(), none, fresh, budget);
    let recorded = match result.accepted {
        Some(t) => Some(match_record(t, sp)),
        None => matched,
    };
    if result.accepted is Some {
        assert(match_record(result.accepted->0, sp)[0] == Match {
            start: result.accepted->0.match_start,
            end: sp,
        });
    }
    if sp < input.len() && sp < usize::MAX {
        lemma_run_genuine(code, input, (sp + 1) as usize, result.waiting, recorded);
    }
}

/// What the machine finds is a match of the program: a thread that starts
/// where the reported span starts can come to `Accept` where it ends.
pub proof fn lemma_found_is_a_match(code: Seq<Instruction>, input: Seq<char>)
    ensures
        find_match(code, input) matches Some(spans) ==> spans.len() > 0 && is_match(
            code,
            input,
            spans[0].start,
            spans[0].end,
        ),
{
    lemma_run_genuine(code, input, 0, Seq::empty(), None);
}

} // verus!
