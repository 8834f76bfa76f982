//! Two bounds on the machine: every span it reports lies inside the input
//! and inside the span of the whole match, and the number of instructions
//! it runs at one input position depends on the length of the program
//! alone.

use crate::compile::{register_count, Instruction};
use crate::matcher::Match;
use crate::pike::{
    find_match, fresh_thread, marked, match_record, present, run_from, run_position, seen, step,
    state_bound, step_budget, unvisited, Step, ThreadState, Visited,
};
use vstd::prelude::*;

verus! {

/// A span lies inside another.
pub open spec fn within(inner: Match, outer: Match) -> bool {
    outer.start <= inner.start <= inner.end <= outer.end
}

/// What holds of every report of a match in an input of `len` symbols: it
/// starts with the span of the whole match, which lies inside the input,
/// and every span after it lies inside the first.
pub open spec fn well_spanned(spans: Seq<Match>, len: nat) -> bool {
    &&& spans.len() > 0
    &&& spans[0].start <= spans[0].end <= len
    &&& forall|i: int| 0 <= i < spans.len() ==> within(#[trigger] spans[i], spans[0])
}

/// A thread at position `sp` began at or before `sp`, and each of its
/// groups lies between its beginning and `sp`.
pub open spec fn thread_in_order(t: ThreadState, sp: int) -> bool {
    &&& t.match_start <= sp
    &&& forall|g: int|
        0 <= g < t.captures.len() ==> (#[trigger] t.captures[g] matches Some(m) ==> within(
            m,
            Match { start: t.match_start, end: sp as usize },
        ))
}

/// Every thread of the list is in order at `sp`.
pub open spec fn threads_in_order(threads: Seq<ThreadState>, sp: int) -> bool {
    forall|i: int| 0 <= i < threads.len() ==> thread_in_order(#[trigger] threads[i], sp)
}

/// One instruction keeps a thread in order.
pub proof fn lemma_step_in_order(
    code: Seq<Instruction>,
    input: Seq<char>,
    sp: usize,
    t: ThreadState,
)
    requires
        thread_in_order(t, sp as int),
    ensures
        match step(code, input, sp, t) {
            Step::Consume(next) => thread_in_order(next, sp as int),
            Step::Continue(next) => thread_in_order(next, sp as int),
            Step::Split(first, second) => thread_in_order(first, sp as int) && thread_in_order(
                second,
                sp as int,
            ),
            _ => true,
        },
{
    if t.pc < code.len() {
        match code[t.pc as int] {
            Instruction::SaveStart(group) => {
                let next = t.group_started(group, sp).advanced();
                assert forall|g: int| 0 <= g < next.captures.len() implies (
                #[trigger] next.captures[g] matches Some(m) ==> within(
                    m,
                    Match { start: next.match_start, end: sp },
                )) by {
                    if g != group {
                        assert(next.captures[g] == t.captures[g]);
                    }
                }
            },
            Instruction::SaveEnd(group) => {
                let next = t.group_ended(group, sp).advanced();
                assert forall|g: int| 0 <= g < next.captures.len() implies (
                #[trigger] next.captures[g] matches Some(m) ==> within(
                    m,
                    Match { start: next.match_start, end: sp },
                )) by {
                    if g != group {
                        assert(next.captures[g] == t.captures[g]);
                    } else {
                        assert(t.captures[g] is Some ==> within(
                            t.captures[g]->0,
                            Match { start: t.match_start, end: sp },
                        ));
                    }
                }
            },
            _ => {},
        }
    }
}

/// The work at one position keeps all threads in order.
pub proof fn lemma_position_in_order(
    code: Seq<Instruction>,
    input: Seq<char>,
    sp: usize,
    stack: Seq<ThreadState>,
    waiting: Seq<ThreadState>,
    visited: Visited,
    fuel: nat,
)
    requires
        threads_in_order(stack, sp as int),
        threads_in_order(waiting, sp as int),
    ensures
        threads_in_order(
            run_position(code, input, sp, stack, waiting, visited, fuel).waiting,
            sp as int,
        ),
        run_position(code, input, sp, stack, waiting, visited, fuel).accepted matches Some(t)
            ==> thread_in_order(t, sp as int),
    decreases fuel,
{
    if stack.len() > 0 && fuel > 0 {
        let t = stack.last();
        let rest = stack.drop_last();
        let less = (fuel - 1) as nat;
        assert(thread_in_order(stack[stack.len() - 1], sp as int));
        assert forall|i: int| 0 <= i < rest.len() implies thread_in_order(
            #[trigger] rest[i],
            sp as int,
        ) by {
            assert(rest[i] == stack[i]);
        }
        lemma_step_in_order(code, input, sp, t);
        if seen(visited, t) {
            lemma_position_in_order(code, input, sp, rest, waiting, visited, less);
        } else {
            let v = marked(visited, t);
            match step(code, input, sp, t) {
                Step::Die => {
                    lemma_position_in_order(code, input, sp, rest, waiting, v, less);
                },
                Step::Consume(next) => {
                    lemma_position_in_order(code, input, sp, rest, waiting.push(next), v, less);
                },
                Step::Continue(next) => {
                    lemma_position_in_order(code, input, sp, rest.push(next), waiting, v, less);
                },
                Step::Split(first, second) => {
                    lemma_position_in_order(
                        code,
                        input,
                        sp,
                        rest.push(second).push(first),
                        waiting,
                        v,
                        less,
                    );
                },
                Step::Accept => {},
            }
        }
    }
}

/// The spans of filled slots that all lie inside `outer` lie inside it.
pub proof fn lemma_present_within(captures: Seq<Option<Match>>, outer: Match)
    requires
        forall|g: int|
            0 <= g < captures.len() ==> (#[trigger] captures[g] matches Some(m) ==> within(
                m,
                outer,
            )),
    ensures
        forall|i: int|
            0 <= i < present(captures).len() ==> within(#[trigger] present(captures)[i], outer),
    decreases captures.len(),
{
    if captures.len() > 0 {
        let before = captures.drop_last();
        assert forall|g: int| 0 <= g < before.len() implies (#[trigger] before[g] matches Some(
            m,
        ) ==> within(m, outer)) by {
            assert(before[g] == captures[g]);
        }
        lemma_present_within(before, outer);
        assert(captures.last() == captures[captures.len() - 1]);
        assert forall|i: int| 0 <= i < present(captures).len() implies within(
            #[trigger] present(captures)[i],
            outer,
        ) by {
            if i < present(before).len() {
                assert(present(captures)[i] == present(before)[i]);
            } else {
                assert(captures.last() is Some);
                assert(present(captures)[i] == captures.last()->0);
            }
        }
    }
}

/// What a thread in order reports when it accepts is well spanned.
pub proof fn lemma_record_well_spanned(t: ThreadState, sp: usize, len: nat)
    requires
        thread_in_order(t, sp as int),
        sp <= len,
    ensures
        well_spanned(match_record(t, sp), len),
{
    let outer = Match { start: t.match_start, end: sp };
    lemma_present_within(t.captures, outer);
    let spans = match_record(t, sp);
    assert(spans[0] == outer);
    assert forall|i: int| 0 <= i < spans.len() implies within(#[trigger] spans[i], spans[0]) by {
        if i > 0 {
            assert(spans[i] == present(t.captures)[i - 1]);
        }
    }
}

/// The run of the machine from a position on reports a well-spanned
/// match, or none, if its threads are in order and the match recorded so
/// far is well spanned.
pub proof fn lemma_run_well_spanned(
    code: Seq<Instruction>,
    input: Seq<char>,
    sp: usize,
    waiting: Seq<ThreadState>,
    matched: Option<Seq<Match>>,
)
    requires
        sp <= input.len(),
        threads_in_order(waiting, sp as int),
        matched matches Some(spans) ==> well_spanned(spans, input.len()),
    ensures
        run_from(code, input, sp, waiting, matched) matches Some(spans) ==> well_spanned(
            spans,
            input.len(),
        ),
    decreases input.len() - sp,
{
    let seeded = if matched is None {
        waiting.push(fresh_thread(sp, register_count(code)))
    } else {
        waiting
    };
    assert(thread_in_order(fresh_thread(sp, register_count(code)), sp as int));
    assert(threads_in_order(seeded, sp as int));
    assert forall|i: int| 0 <= i < seeded.reverse().len() implies thread_in_order(
        #[trigger] seeded.reverse()[i],
        sp as int,
    ) by {
        assert(seeded.reverse()[i] == seeded[seeded.len() - 1 - i]);
    }
    let none = Seq::<ThreadState>::empty();
    let result = run_position(
        code,
        input,
        sp,
        seeded.reverse(),
        none,
        unvisited(code),
        step_budget(code),
    );
    lemma_position_in_order(
        code,
        input,
        sp,
        seeded.reverse(),
        none,
        unvisited(code),
        step_budget(code),
    );
    let recorded = match result.accepted {
        Some(t) => Some(match_record(t, sp)),
        None => matched,
    };
    if result.accepted is Some {
        lemma_record_well_spanned(result.accepted->0, sp, input.len());
    }
    if sp < input.len() && sp < usize::MAX {
        assert forall|i: int| 0 <= i < result.waiting.len() implies thread_in_order(
            #[trigger] result.waiting[i],
            sp + 1,
        ) by {
            assert(thread_in_order(result.waiting[i], sp as int));
        }
        lemma_run_well_spanned(code, input, (sp + 1) as usize, result.waiting, recorded);
    }
}

/// Every span that the machine reports lies inside the input, and the
/// span of each group lies inside the span of the whole match.
pub proof fn lemma_match_well_spanned(code: Seq<Instruction>, input: Seq<char>)
    ensures
        find_match(code, input) matches Some(spans) ==> well_spanned(spans, input.len()),
{
    lemma_run_well_spanned(code, input, 0, Seq::empty(), None);
}

/// The number of instructions that the work at one position runs; a
/// thread that dies because of a mark counts as one.
pub open spec fn position_steps(
    code: Seq<Instruction>,
    input: Seq<char>,
    sp: usize,
    stack: Seq<ThreadState>,
    waiting: Seq<ThreadState>,
    visited: Visited,
    fuel: nat,
) -> nat
    decreases fuel,
{
    if stack.len() == 0 || fuel == 0 {
        0
    } else {
        let t = stack.last();
        let rest = stack.drop_last();
        let less = (fuel - 1) as nat;
        if seen(visited, t) {
            1 + position_steps(code, input, sp, rest, waiting, visited, less)
        } else {
            let v = marked(visited, t);
            match step(code, input, sp, t) {
                Step::Die => 1 + position_steps(code, input, sp, rest, waiting, v, less),
                Step::Consume(next) => 1 + position_steps(
                    code,
                    input,
                    sp,
                    rest,
                    waiting.push(next),
                    v,
                    less,
                ),
                Step::Continue(next) => 1 + position_steps(
                    code,
                    input,
                    sp,
                    rest.push(next),
                    waiting,
                    v,
                    less,
                ),
                Step::Split(first, second) => 1 + position_steps(
                    code,
                    input,
                    sp,
                    rest.push(second).push(first),
                    waiting,
                    v,
                    less,
                ),
                Step::Accept => 1,
            }
        }
    }
}

/// The work at one position runs no more instructions than it has fuel.
pub proof fn lemma_position_steps_bounded(
    code: Seq<Instruction>,
    input: Seq<char>,
    sp: usize,
    stack: Seq<ThreadState>,
    waiting: Seq<ThreadState>,
    visited: Visited,
    fuel: nat,
)
    ensures
        position_steps(code, input, sp, stack, waiting, visited, fuel) <= fuel,
    decreases fuel,
{
    if stack.len() > 0 && fuel > 0 {
        let t = stack.last();
        let rest = stack.drop_last();
        let less = (fuel - 1) as nat;
        if seen(visited, t) {
            lemma_position_steps_bounded(code, input, sp, rest, waiting, visited, less);
        } else {
            let v = marked(visited, t);
            match step(code, input, sp, t) {
                Step::Die => lemma_position_steps_bounded(code, input, sp, rest, waiting, v, less),
                Step::Consume(next) => lemma_position_steps_bounded(
                    code,
                    input,
                    sp,
                    rest,
                    waiting.push(next),
                    v,
                    less,
                ),
                Step::Continue(next) => lemma_position_steps_bounded(
                    code,
                    input,
                    sp,
                    rest.push(next),
                    waiting,
                    v,
                    less,
                ),
                Step::Split(first, second) => lemma_position_steps_bounded(
                    code,
                    input,
                    sp,
                    rest.push(second).push(first),
                    waiting,
                    v,
                    less,
                ),
                Step::Accept => {},
            }
        }
    }
}

/// The number of instructions that the machine runs at one input position
/// is bounded by a function of the program alone, whatever the input and
/// the threads that wait: by three times the number of states that the
/// program can tell apart, and two.
pub proof fn lemma_work_per_position_bounded(
    code: Seq<Instruction>,
    input: Seq<char>,
    sp: usize,
    threads: Seq<ThreadState>,
)
    ensures
        position_steps(code, input, sp, threads, Seq::empty(), unvisited(code), step_budget(code))
            <= step_budget(code),
        step_budget(code) == 3 * state_bound(code) + 2,
{
    lemma_position_steps_bounded(
        code,
        input,
        sp,
        threads,
        Seq::empty(),
        unvisited(code),
        step_budget(code),
    );
}

} // verus!
