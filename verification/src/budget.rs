//! The fuel of the machine is enough: the work at a position never spends
//! it, whatever the program and the input.

use crate::compile::{register_count, Instruction};
use crate::counting::{lemma_few_lists, power, within};
use crate::leftmost::{
    budget_spent, lemma_run_position_unfold, next_stack, next_waiting, position_of_run,
    position_spent, recorded_after, run_spent, seeded,
};
use crate::matcher::Match;
use crate::pike::{
    cap_of, capped, marked, run_position, seen, state_bound, step, step_budget,
    unvisited, Step, ThreadState, Visited,
};
use vstd::prelude::*;

verus! {

/// Every thread of the list has `count` counters.
pub open spec fn all_sized(threads: Seq<ThreadState>, count: nat) -> bool {
    forall|i: int| 0 <= i < threads.len() ==> (#[trigger] threads[i]).registers.len() == count
}

/// The marks of one instruction: none of them twice, and each one a list
/// of `count` counters, none of them above `cap`.
pub open spec fn tidy_marks(marks: Seq<Seq<usize>>, count: nat, cap: usize) -> bool {
    marks.no_duplicates() && forall|k: int|
        0 <= k < marks.len() ==> within(#[trigger] marks[k], count, cap)
}

/// No instruction is marked twice with the same counters, and every mark
/// is a list of `count` counters, none of them above the cap.
pub open spec fn tidy(visited: Visited, count: nat) -> bool {
    forall|pc: int|
        0 <= pc < visited.len() ==> tidy_marks(#[trigger] visited.marks[pc], count, visited.cap)
}

/// The number of marks.
pub open spec fn total_marks(marks: Seq<Seq<Seq<usize>>>) -> nat
    decreases marks.len(),
{
    if marks.len() == 0 {
        0
    } else {
        total_marks(marks.drop_last()) + marks.last().len()
    }
}

/// One more mark on an instruction is one more mark.
pub proof fn lemma_total_after_mark(marks: Seq<Seq<Seq<usize>>>, pc: int, key: Seq<usize>)
    requires
        0 <= pc < marks.len(),
    ensures
        total_marks(marks.update(pc, marks[pc].push(key))) == total_marks(marks) + 1,
    decreases marks.len(),
{
    let after = marks.update(pc, marks[pc].push(key));
    if pc == marks.len() - 1 {
        assert(after.drop_last() =~= marks.drop_last());
    } else {
        lemma_total_after_mark(marks.drop_last(), pc, key);
        assert(after.drop_last() =~= marks.drop_last().update(
            pc,
            marks.drop_last()[pc].push(key),
        ));
    }
}

/// Tidy marks are no more than the states that the program can tell
/// apart.
pub proof fn lemma_total_at_most(visited: Visited, count: nat)
    requires
        tidy(visited, count),
    ensures
        total_marks(visited.marks) <= visited.len() * power((visited.cap + 1) as nat, count),
    decreases visited.len(),
{
    let marks = visited.marks;
    let each = power((visited.cap + 1) as nat, count);
    if marks.len() > 0 {
        let front = Visited { marks: marks.drop_last(), ..visited };
        assert(tidy(front, count)) by {
            assert forall|pc: int| 0 <= pc < front.len() implies tidy_marks(
                #[trigger] front.marks[pc],
                count,
                front.cap,
            ) by {
                assert(front.marks[pc] == visited.marks[pc]);
            }
        }
        lemma_total_at_most(front, count);
        let last = marks.last();
        assert(last == visited.marks[marks.len() - 1]);
        assert(tidy_marks(last, count, visited.cap));
        lemma_few_lists(last, count, visited.cap);
        assert(front.len() * each + each == marks.len() * each) by (nonlinear_arith)
            requires
                front.len() + 1 == marks.len(),
        ;
    } else {
        assert(marks.len() * each == 0) by (nonlinear_arith)
            requires
                marks.len() == 0,
        ;
    }
}

/// No mark is yet set before the work at a position.
pub proof fn lemma_unvisited_is_tidy(code: Seq<Instruction>, count: nat)
    ensures
        tidy(unvisited(code), count),
        total_marks(unvisited(code).marks) == 0,
{
    lemma_no_marks(unvisited(code).marks);
    assert forall|pc: int| 0 <= pc < unvisited(code).len() implies tidy_marks(
        #[trigger] unvisited(code).marks[pc],
        count,
        unvisited(code).cap,
    ) by {}
}

/// Where no instruction has a mark, there is no mark.
pub proof fn lemma_no_marks(marks: Seq<Seq<Seq<usize>>>)
    requires
        forall|pc: int| 0 <= pc < marks.len() ==> (#[trigger] marks[pc]).len() == 0,
    ensures
        total_marks(marks) == 0,
    decreases marks.len(),
{
    if marks.len() > 0 {
        assert(marks.last() == marks[marks.len() - 1]);
        assert forall|pc: int| 0 <= pc < marks.drop_last().len() implies (
        #[trigger] marks.drop_last()[pc]).len() == 0 by {
            assert(marks.drop_last()[pc] == marks[pc]);
        }
        lemma_no_marks(marks.drop_last());
    }
}

/// What an instruction makes of a thread has as many counters as the
/// thread.
pub proof fn lemma_step_keeps_size(
    code: Seq<Instruction>,
    input: Seq<char>,
    sp: usize,
    t: ThreadState,
)
    ensures
        match step(code, input, sp, t) {
            Step::Consume(next) => next.registers.len() == t.registers.len(),
            Step::Continue(next) => next.registers.len() == t.registers.len(),
            Step::Split(first, second) => first.registers.len() == t.registers.len()
                && second.registers.len() == t.registers.len(),
            _ => true,
        },
{
}

/// The mark of a thread keeps the marks tidy, if they did not hold it.
pub proof fn lemma_marked_is_tidy(visited: Visited, t: ThreadState, count: nat)
    requires
        tidy(visited, count),
        t.registers.len() == count,
        !seen(visited, t),
    ensures
        tidy(marked(visited, t), count),
        t.pc < visited.len() ==> total_marks(marked(visited, t).marks) == total_marks(
            visited.marks,
        ) + 1,
{
    let v = marked(visited, t);
    if t.pc < visited.len() {
        let key = capped(t.registers, visited.cap);
        let bucket = visited.marks[t.pc as int];
        lemma_total_after_mark(visited.marks, t.pc as int, key);
        assert(within(key, count, visited.cap));
        assert forall|pc: int| 0 <= pc < v.len() implies tidy_marks(
            #[trigger] v.marks[pc],
            count,
            v.cap,
        ) by {
            assert(tidy_marks(visited.marks[pc], count, visited.cap));
            if pc == t.pc {
                let more = bucket.push(key);
                assert(v.marks[pc] == more);
                assert forall|i: int, j: int|
                    0 <= i < more.len() && 0 <= j < more.len() && i != j implies more[i]
                    != more[j] by {
                    if i < bucket.len() && j < bucket.len() {
                        assert(bucket[i] != bucket[j]);
                    } else if i < bucket.len() {
                        assert(bucket[i] != key);
                    } else {
                        assert(bucket[j] != key);
                    }
                }
                assert forall|k: int| 0 <= k < more.len() implies within(
                    #[trigger] more[k],
                    count,
                    v.cap,
                ) by {
                    if k < bucket.len() {
                        assert(more[k] == bucket[k]);
                    }
                }
            } else {
                assert(v.marks[pc] == visited.marks[pc]);
            }
        }
    }
}

/// The work at a position whose fuel covers the threads on the stack and
/// two instructions for each state without a mark does not spend its
/// fuel, and lets at most one more thread wait for each state without a
/// mark.
pub proof fn lemma_position_not_spent(
    code: Seq<Instruction>,
    input: Seq<char>,
    sp: usize,
    stack: Seq<ThreadState>,
    waiting: Seq<ThreadState>,
    visited: Visited,
    fuel: nat,
)
    requires
        visited.len() == code.len(),
        visited.cap == cap_of(code),
        tidy(visited, register_count(code)),
        all_sized(stack, register_count(code)),
        all_sized(waiting, register_count(code)),
        fuel + 2 * total_marks(visited.marks) >= stack.len() + 2 * state_bound(code),
    ensures
        !position_spent(code, input, sp, stack, waiting, visited, fuel),
        ({
            let result = run_position(code, input, sp, stack, waiting, visited, fuel);
            &&& result.waiting.len() + total_marks(visited.marks) <= waiting.len() + state_bound(
                code,
            )
            &&& all_sized(result.waiting, register_count(code))
        }),
    decreases fuel,
{
    let count = register_count(code);
    lemma_total_at_most(visited, count);
    if stack.len() > 0 {
        let t = stack.last();
        let rest = stack.drop_last();
        let less = (fuel - 1) as nat;
        let result = step(code, input, sp, t);
        lemma_run_position_unfold(code, input, sp, stack, waiting, visited, fuel);
        lemma_step_keeps_size(code, input, sp, t);
        assert(stack[stack.len() - 1].registers.len() == count);
        assert forall|i: int| 0 <= i < rest.len() implies (#[trigger] rest[i]).registers.len()
            == count by {
            assert(rest[i] == stack[i]);
        }
        if seen(visited, t) {
            lemma_position_not_spent(code, input, sp, rest, waiting, visited, less);
        } else if result != Step::Accept {
            let after = next_stack(rest, result);
            let more = next_waiting(waiting, result);
            let v = marked(visited, t);
            assert(all_sized(after, count)) by {
                assert forall|i: int| 0 <= i < after.len() implies (
                #[trigger] after[i]).registers.len() == count by {
                    if i < rest.len() {
                        assert(after[i] == rest[i]);
                    }
                }
            }
            assert(all_sized(more, count)) by {
                assert forall|i: int| 0 <= i < more.len() implies (
                #[trigger] more[i]).registers.len() == count by {
                    if i < waiting.len() {
                        assert(more[i] == waiting[i]);
                    }
                }
            }
            lemma_marked_is_tidy(visited, t, count);
            lemma_total_at_most(v, count);
            lemma_position_not_spent(code, input, sp, after, more, v, less);
        }
    }
}

/// The run from a position on, with no more waiting threads than the
/// program has states, never spends its fuel.
pub proof fn lemma_run_not_spent(
    code: Seq<Instruction>,
    input: Seq<char>,
    sp: usize,
    waiting: Seq<ThreadState>,
    matched: Option<Seq<Match>>,
)
    requires
        sp <= input.len(),
        waiting.len() <= state_bound(code),
        all_sized(waiting, register_count(code)),
    ensures
        !run_spent(code, input, sp, waiting, matched),
    decreases input.len() - sp,
{
    let count = register_count(code);
    let all = seeded(code, sp, waiting, matched);
    let stack = all.reverse();
    let none = Seq::<ThreadState>::empty();
    let fresh = unvisited(code);
    let budget = step_budget(code);
    lemma_unvisited_is_tidy(code, count);
    assert forall|i: int| 0 <= i < stack.len() implies (#[trigger] stack[i]).registers.len()
        == count by {
        assert(stack[i] == all[all.len() - 1 - i]);
        if all.len() - 1 - i < waiting.len() {
            assert(all[all.len() - 1 - i] == waiting[all.len() - 1 - i]);
        }
    }
    lemma_position_not_spent(code, input, sp, stack, none, fresh, budget);
    let result = position_of_run(code, input, sp, waiting, matched);
    if sp < input.len() && sp < usize::MAX {
        lemma_run_not_spent(
            code,
            input,
            (sp + 1) as usize,
            result.waiting,
            recorded_after(result, sp, matched),
        );
    }
}

/// The machine never spends its fuel, whatever the program and the
/// input: every thread runs to its end.
pub proof fn lemma_budget_suffices(code: Seq<Instruction>, input: Seq<char>)
    ensures
        !budget_spent(code, input),
{
    lemma_run_not_spent(code, input, 0, Seq::empty(), None);
}

} // verus!
