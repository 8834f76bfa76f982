//! Where the match that the machine reports starts: at the first
//! position from which the program matches.

use crate::budget::lemma_budget_suffices;
use crate::compile::{register_count, Instruction};
use crate::matcher::Match;
use crate::order::{
    falling, lemma_position_keeps_waiting, lemma_position_order, lemma_position_starts, rising,
    starts_at_most,
};
use crate::paths::{
    accepts, is_match, lemma_accepts_more, lemma_accepts_similar, lemma_step_similar,
    lemma_capped_twice,
};
use crate::pike::{
    cap_of, capped, find_match, fresh_thread, marked, match_record, run_from, run_position, seen,
    step, step_budget, unvisited, PositionResult, Step, ThreadState, Visited,
};
use vstd::prelude::*;

verus! {

/// Whether the work at one position spends its fuel while threads are
/// left to run.
pub open spec fn position_spent(
    code: Seq<Instruction>,
    input: Seq<char>,
    sp: usize,
    stack: Seq<ThreadState>,
    waiting: Seq<ThreadState>,
    visited: Visited,
    fuel: nat,
) -> bool
    decreases fuel,
{
    if stack.len() == 0 {
        false
    } else if fuel == 0 {
        true
    } else {
        let t = stack.last();
        let rest = stack.drop_last();
        let less = (fuel - 1) as nat;
        if seen(visited, t) {
            position_spent(code, input, sp, rest, waiting, visited, less)
        } else {
            let result = step(code, input, sp, t);
            result != Step::Accept && position_spent(
                code,
                input,
                sp,
                next_stack(rest, result),
                next_waiting(waiting, result),
                marked(visited, t),
                less,
            )
        }
    }
}

/// The stack after an instruction: what was below the thread that ran
/// it, and the threads that go on at this position.
pub open spec fn next_stack(rest: Seq<ThreadState>, result: Step) -> Seq<ThreadState> {
    match result {
        Step::Continue(next) => rest.push(next),
        Step::Split(first, second) => rest.push(second).push(first),
        _ => rest,
    }
}

/// The waiting list after an instruction.
pub open spec fn next_waiting(waiting: Seq<ThreadState>, result: Step) -> Seq<ThreadState> {
    match result {
        Step::Consume(next) => waiting.push(next),
        _ => waiting,
    }
}

/// The threads that run at position `sp`: those that wait, and a fresh
/// one behind them while no match is recorded.
pub open spec fn seeded(
    code: Seq<Instruction>,
    sp: usize,
    waiting: Seq<ThreadState>,
    matched: Option<Seq<Match>>,
) -> Seq<ThreadState> {
    if matched is None {
        waiting.push(fresh_thread(sp, register_count(code)))
    } else {
        waiting
    }
}

/// How the work at position `sp` of the run ends.
pub open spec fn position_of_run(
    code: Seq<Instruction>,
    input: Seq<char>,
    sp: usize,
    waiting: Seq<ThreadState>,
    matched: Option<Seq<Match>>,
) -> PositionResult {
    run_position(
        code,
        input,
        sp,
        seeded(code, sp, waiting, matched).reverse(),
        Seq::empty(),
        unvisited(code),
        step_budget(code),
    )
}

/// The match recorded after the work at a position.
pub open spec fn recorded_after(
    result: PositionResult,
    sp: usize,
    matched: Option<Seq<Match>>,
) -> Option<Seq<Match>> {
    match result.accepted {
        Some(t) => Some(match_record(t, sp)),
        None => matched,
    }
}

/// Whether the run of the machine from position `sp` on spends its fuel at
/// some position while threads are left to run.
pub open spec fn run_spent(
    code: Seq<Instruction>,
    input: Seq<char>,
    sp: usize,
    waiting: Seq<ThreadState>,
    matched: Option<Seq<Match>>,
) -> bool
    decreases input.len() - sp,
{
    let result = position_of_run(code, input, sp, waiting, matched);
    position_spent(
        code,
        input,
        sp,
        seeded(code, sp, waiting, matched).reverse(),
        Seq::empty(),
        unvisited(code),
        step_budget(code),
    ) || (sp < input.len() && sp < usize::MAX && run_spent(
        code,
        input,
        (sp + 1) as usize,
        result.waiting,
        recorded_after(result, sp, matched),
    ))
}

/// Whether the machine, run on the input, spends its fuel at some position
/// while threads are left to run. Where it does not, it has run every
/// thread to its end.
pub open spec fn budget_spent(code: Seq<Instruction>, input: Seq<char>) -> bool {
    run_spent(code, input, 0, Seq::empty(), None)
}

/// The run from a position on, by the work at that position.
pub proof fn lemma_run_from_unfold(
    code: Seq<Instruction>,
    input: Seq<char>,
    sp: usize,
    waiting: Seq<ThreadState>,
    matched: Option<Seq<Match>>,
)
    ensures
        run_from(code, input, sp, waiting, matched) == ({
            let result = position_of_run(code, input, sp, waiting, matched);
            if sp >= input.len() || sp >= usize::MAX {
                recorded_after(result, sp, matched)
            } else {
                run_from(
                    code,
                    input,
                    (sp + 1) as usize,
                    result.waiting,
                    recorded_after(result, sp, matched),
                )
            }
        }),
{
}

/// The work at a position, by the instruction of the thread on top.
pub proof fn lemma_run_position_unfold(
    code: Seq<Instruction>,
    input: Seq<char>,
    sp: usize,
    stack: Seq<ThreadState>,
    waiting: Seq<ThreadState>,
    visited: Visited,
    fuel: nat,
)
    requires
        stack.len() > 0,
        fuel > 0,
    ensures
        run_position(code, input, sp, stack, waiting, visited, fuel) == ({
            let t = stack.last();
            let rest = stack.drop_last();
            let less = (fuel - 1) as nat;
            let result = step(code, input, sp, t);
            if seen(visited, t) {
                run_position(code, input, sp, rest, waiting, visited, less)
            } else if result == Step::Accept {
                PositionResult { waiting, accepted: Some(t) }
            } else {
                run_position(
                    code,
                    input,
                    sp,
                    next_stack(rest, result),
                    next_waiting(waiting, result),
                    marked(visited, t),
                    less,
                )
            }
        }),
{
}

/// What is searched for: a match of the program `code` in `input` from
/// `start` to `end`.
pub ghost struct Target {
    pub code: Seq<Instruction>,
    pub input: Seq<char>,
    pub start: usize,
    pub end: usize,
}

/// A thread at position `sp` that began at or before the start of the
/// target and can come to `Accept` at its end within `n` instructions.
pub open spec fn promising(g: Target, sp: usize, t: ThreadState, n: nat) -> bool {
    t.match_start <= g.start && accepts(g.code, g.input, sp, t, n, g.end)
}

/// A thread of the stack is promising.
pub open spec fn hope_stack(g: Target, sp: usize, stack: Seq<ThreadState>, n: nat) -> bool {
    exists|i: int| 0 <= i < stack.len() && promising(g, sp, #[trigger] stack[i], n)
}

/// A thread of the waiting list is promising at the next position.
pub open spec fn hope_waiting(g: Target, sp: usize, waiting: Seq<ThreadState>, n: nat) -> bool {
    sp < g.input.len() && sp < usize::MAX && exists|i: int|
        0 <= i < waiting.len() && promising(g, (sp + 1) as usize, #[trigger] waiting[i], n)
}

/// A thread of the stack or of the waiting list is promising.
pub open spec fn hope(
    g: Target,
    sp: usize,
    stack: Seq<ThreadState>,
    waiting: Seq<ThreadState>,
    n: nat,
) -> bool {
    hope_stack(g, sp, stack, n) || hope_waiting(g, sp, waiting, n)
}

/// A thread that stands for all threads with a program counter and
/// counters.
pub open spec fn probe(pc: usize, registers: Seq<usize>) -> ThreadState {
    ThreadState { pc, match_start: 0, captures: Seq::empty(), registers }
}

/// Whatever a marked thread could have come to is still in reach: for
/// every mark from which `Accept` can be reached at the end of the target
/// within `n` instructions, a thread that can do so within fewer is on the
/// stack or waits.
pub open spec fn explored(
    g: Target,
    sp: usize,
    visited: Visited,
    stack: Seq<ThreadState>,
    waiting: Seq<ThreadState>,
) -> bool {
    &&& visited.cap == cap_of(g.code)
    &&& forall|pc: int, k: int, n: nat|
        0 <= pc < visited.len() && 0 <= k < visited[pc].len() && #[trigger] accepts(
            g.code,
            g.input,
            sp,
            probe(pc as usize, visited[pc][k]),
            n,
            g.end,
        ) ==> n > 0 && hope(g, sp, stack, waiting, (n - 1) as nat)
}

/// Hope within `n` instructions is hope within more.
pub proof fn lemma_hope_more(
    g: Target,
    sp: usize,
    stack: Seq<ThreadState>,
    waiting: Seq<ThreadState>,
    n: nat,
    more: nat,
)
    requires
        hope(g, sp, stack, waiting, n),
        n <= more,
    ensures
        hope(g, sp, stack, waiting, more),
{
    if hope_stack(g, sp, stack, n) {
        let i = choose|i: int| 0 <= i < stack.len() && promising(g, sp, #[trigger] stack[i], n);
        lemma_accepts_more(g.code, g.input, sp, stack[i], n, more, g.end);
        assert(promising(g, sp, stack[i], more));
    } else {
        let next = (sp + 1) as usize;
        let i = choose|i: int|
            0 <= i < waiting.len() && promising(g, next, #[trigger] waiting[i], n);
        lemma_accepts_more(g.code, g.input, next, waiting[i], n, more, g.end);
        assert(promising(g, next, waiting[i], more));
    }
}

/// What an instruction makes of a promising thread is promising within
/// one instruction less.
pub proof fn lemma_successor_hope(
    g: Target,
    sp: usize,
    rest: Seq<ThreadState>,
    waiting: Seq<ThreadState>,
    t: ThreadState,
    n: nat,
)
    requires
        promising(g, sp, t, n),
        step(g.code, g.input, sp, t) != Step::Accept,
    ensures
        n > 0,
        hope(
            g,
            sp,
            next_stack(rest, step(g.code, g.input, sp, t)),
            next_waiting(waiting, step(g.code, g.input, sp, t)),
            (n - 1) as nat,
        ),
{
    let result = step(g.code, g.input, sp, t);
    let less = (n - 1) as nat;
    let stack = next_stack(rest, result);
    let more = next_waiting(waiting, result);
    lemma_step_similar(g.code, g.input, sp, t, t);
    match result {
        Step::Consume(next) => {
            assert(more[waiting.len() as int] == next);
            assert(promising(g, (sp + 1) as usize, more[waiting.len() as int], less));
        },
        Step::Continue(next) => {
            assert(stack[rest.len() as int] == next);
            assert(promising(g, sp, stack[rest.len() as int], less));
        },
        Step::Split(first, second) => {
            if accepts(g.code, g.input, sp, first, less, g.end) {
                assert(stack[rest.len() as int + 1] == first);
                assert(promising(g, sp, stack[rest.len() as int + 1], less));
            } else {
                assert(stack[rest.len() as int] == second);
                assert(promising(g, sp, stack[rest.len() as int], less));
            }
        },
        _ => {},
    }
}

/// Hope outlives the instruction of the thread on top, unless it is
/// `Accept`.
pub proof fn lemma_hope_after_step(
    g: Target,
    sp: usize,
    stack: Seq<ThreadState>,
    waiting: Seq<ThreadState>,
    n: nat,
)
    requires
        stack.len() > 0,
        step(g.code, g.input, sp, stack.last()) != Step::Accept,
        hope(g, sp, stack, waiting, n),
    ensures
        hope(
            g,
            sp,
            next_stack(stack.drop_last(), step(g.code, g.input, sp, stack.last())),
            next_waiting(waiting, step(g.code, g.input, sp, stack.last())),
            n,
        ),
{
    let t = stack.last();
    let rest = stack.drop_last();
    let result = step(g.code, g.input, sp, t);
    let after = next_stack(rest, result);
    let more = next_waiting(waiting, result);
    if hope_waiting(g, sp, waiting, n) {
        let next = (sp + 1) as usize;
        let i = choose|i: int|
            0 <= i < waiting.len() && promising(g, next, #[trigger] waiting[i], n);
        assert(more[i] == waiting[i]);
        assert(promising(g, next, more[i], n));
    } else {
        let i = choose|i: int| 0 <= i < stack.len() && promising(g, sp, #[trigger] stack[i], n);
        if i < rest.len() {
            assert(after[i] == stack[i]);
            assert(promising(g, sp, after[i], n));
        } else {
            assert(stack[i] == t);
            lemma_successor_hope(g, sp, rest, waiting, t, n);
            lemma_hope_more(g, sp, after, more, (n - 1) as nat, n);
        }
    }
}

/// Hope outlives the death of a thread that stands where a marked thread
/// stood.
pub proof fn lemma_hope_without_seen(
    g: Target,
    sp: usize,
    visited: Visited,
    stack: Seq<ThreadState>,
    waiting: Seq<ThreadState>,
    n: nat,
)
    requires
        stack.len() > 0,
        seen(visited, stack.last()),
        explored(g, sp, visited, stack, waiting),
        hope(g, sp, stack, waiting, n),
    ensures
        hope(g, sp, stack.drop_last(), waiting, n),
    decreases n,
{
    let t = stack.last();
    let rest = stack.drop_last();
    if !hope_waiting(g, sp, waiting, n) {
        let i = choose|i: int| 0 <= i < stack.len() && promising(g, sp, #[trigger] stack[i], n);
        if i < rest.len() {
            assert(rest[i] == stack[i]);
            assert(promising(g, sp, rest[i], n));
        } else {
            assert(stack[i] == t);
            let bucket = visited[t.pc as int];
            let k = choose|k: int|
                0 <= k < bucket.len() && bucket[k] == capped(t.registers, visited.cap);
            let same = probe(t.pc, bucket[k]);
            lemma_capped_twice(t.registers, visited.cap);
            lemma_accepts_similar(g.code, g.input, sp, same, t, n, g.end);
            let pc = t.pc as int;
            assert(accepts(g.code, g.input, sp, probe(pc as usize, visited[pc][k]), n, g.end));
            let less = (n - 1) as nat;
            assert(hope(g, sp, stack, waiting, less));
            lemma_hope_without_seen(g, sp, visited, stack, waiting, less);
            lemma_hope_more(g, sp, rest, waiting, less, n);
        }
    }
}

/// The marks stay explored when a thread dies that stands where a marked
/// thread stood.
pub proof fn lemma_explored_without_seen(
    g: Target,
    sp: usize,
    visited: Visited,
    stack: Seq<ThreadState>,
    waiting: Seq<ThreadState>,
)
    requires
        stack.len() > 0,
        seen(visited, stack.last()),
        explored(g, sp, visited, stack, waiting),
    ensures
        explored(g, sp, visited, stack.drop_last(), waiting),
{
    let rest = stack.drop_last();
    assert forall|pc: int, k: int, n: nat|
        0 <= pc < visited.len() && 0 <= k < visited[pc].len() && #[trigger] accepts(
            g.code,
            g.input,
            sp,
            probe(pc as usize, visited[pc][k]),
            n,
            g.end,
        ) implies n > 0 && hope(g, sp, rest, waiting, (n - 1) as nat) by {
        lemma_hope_without_seen(g, sp, visited, stack, waiting, (n - 1) as nat);
    }
}

/// The marks stay explored when the thread on top, which began at or
/// before the start of the target, is marked and runs an instruction other
/// than `Accept`.
pub proof fn lemma_explored_after_step(
    g: Target,
    sp: usize,
    visited: Visited,
    stack: Seq<ThreadState>,
    waiting: Seq<ThreadState>,
)
    requires
        stack.len() > 0,
        stack.last().match_start <= g.start,
        step(g.code, g.input, sp, stack.last()) != Step::Accept,
        explored(g, sp, visited, stack, waiting),
    ensures
        explored(
            g,
            sp,
            marked(visited, stack.last()),
            next_stack(stack.drop_last(), step(g.code, g.input, sp, stack.last())),
            next_waiting(waiting, step(g.code, g.input, sp, stack.last())),
        ),
{
    let t = stack.last();
    let rest = stack.drop_last();
    let result = step(g.code, g.input, sp, t);
    let after = next_stack(rest, result);
    let more = next_waiting(waiting, result);
    let v = marked(visited, t);
    assert forall|pc: int, k: int, n: nat|
        0 <= pc < v.len() && 0 <= k < v[pc].len() && #[trigger] accepts(
            g.code,
            g.input,
            sp,
            probe(pc as usize, v[pc][k]),
            n,
            g.end,
        ) implies n > 0 && hope(g, sp, after, more, (n - 1) as nat) by {
        if t.pc < visited.len() && pc == t.pc && k == visited[pc].len() {
            assert(v[pc][k] == capped(t.registers, visited.cap));
            lemma_capped_twice(t.registers, visited.cap);
            lemma_accepts_similar(g.code, g.input, sp, probe(pc as usize, v[pc][k]), t, n, g.end);
            lemma_successor_hope(g, sp, rest, waiting, t, n);
        } else {
            assert(v[pc][k] == visited[pc][k]);
            assert(accepts(g.code, g.input, sp, probe(pc as usize, visited[pc][k]), n, g.end));
            lemma_hope_after_step(g, sp, stack, waiting, (n - 1) as nat);
        }
    }
}

/// The stack stays falling when the thread on top runs an instruction.
pub proof fn lemma_falling_after_step(
    code: Seq<Instruction>,
    input: Seq<char>,
    sp: usize,
    stack: Seq<ThreadState>,
)
    requires
        stack.len() > 0,
        falling(stack),
    ensures
        falling(stack.drop_last()),
        falling(next_stack(stack.drop_last(), step(code, input, sp, stack.last()))),
{
    let t = stack.last();
    let rest = stack.drop_last();
    let top = stack.len() - 1;
    let after = next_stack(rest, step(code, input, sp, t));
    lemma_step_similar(code, input, sp, t, t);
    assert(stack[top] == t);
    assert forall|i: int, j: int| 0 <= i <= j < rest.len() implies (
    #[trigger] rest[i]).match_start >= (#[trigger] rest[j]).match_start by {
        assert(rest[i] == stack[i] && rest[j] == stack[j]);
    }
    assert forall|i: int, j: int| 0 <= i <= j < after.len() implies (
    #[trigger] after[i]).match_start >= (#[trigger] after[j]).match_start by {
        if j < rest.len() {
            assert(after[i] == rest[i] && after[j] == rest[j]);
        } else {
            assert(after[j].match_start == t.match_start);
            if i < rest.len() {
                assert(after[i] == stack[i]);
                assert(stack[i].match_start >= stack[top].match_start);
            } else {
                assert(after[i].match_start == t.match_start);
            }
        }
    }
}

/// The heart of the matter. While hope is on the stack or waits, and the
/// fuel is not spent, the work at a position ends with a thread that
/// accepts and began at or before the start of the target, or with hope
/// among the threads that wait.
pub proof fn lemma_position_hope(
    g: Target,
    sp: usize,
    stack: Seq<ThreadState>,
    waiting: Seq<ThreadState>,
    visited: Visited,
    fuel: nat,
    n: nat,
)
    requires
        falling(stack),
        explored(g, sp, visited, stack, waiting),
        hope(g, sp, stack, waiting, n),
        !position_spent(g.code, g.input, sp, stack, waiting, visited, fuel),
    ensures
        ({
            let result = run_position(g.code, g.input, sp, stack, waiting, visited, fuel);
            (result.accepted matches Some(t) && t.match_start <= g.start) || hope_waiting(
                g,
                sp,
                result.waiting,
                n,
            )
        }),
    decreases fuel,
{
    if stack.len() > 0 {
        let t = stack.last();
        let rest = stack.drop_last();
        let less = (fuel - 1) as nat;
        let top = stack.len() - 1;
        let result = step(g.code, g.input, sp, t);
        lemma_run_position_unfold(g.code, g.input, sp, stack, waiting, visited, fuel);
        lemma_falling_after_step(g.code, g.input, sp, stack);
        if t.match_start > g.start {
            // every thread on the stack began after the start of the target
            if hope_stack(g, sp, stack, n) {
                let i = choose|i: int|
                    0 <= i < stack.len() && promising(g, sp, #[trigger] stack[i], n);
                assert(stack[i].match_start >= stack[top].match_start);
            }
            lemma_position_keeps_waiting(g.code, g.input, sp, stack, waiting, visited, fuel);
            let end = run_position(g.code, g.input, sp, stack, waiting, visited, fuel);
            let next = (sp + 1) as usize;
            let i = choose|i: int|
                0 <= i < waiting.len() && promising(g, next, #[trigger] waiting[i], n);
            assert(end.waiting[i] == waiting[i]);
            assert(promising(g, next, end.waiting[i], n));
        } else if seen(visited, t) {
            lemma_hope_without_seen(g, sp, visited, stack, waiting, n);
            lemma_explored_without_seen(g, sp, visited, stack, waiting);
            lemma_position_hope(g, sp, rest, waiting, visited, less, n);
        } else if result != Step::Accept {
            lemma_hope_after_step(g, sp, stack, waiting, n);
            lemma_explored_after_step(g, sp, visited, stack, waiting);
            lemma_position_hope(
                g,
                sp,
                next_stack(rest, result),
                next_waiting(waiting, result),
                marked(visited, t),
                less,
                n,
            );
        }
    }
}

/// After a match that starts at or before `bound` is recorded, with all
/// waiting threads begun at or before `bound`, the run reports a match
/// that starts at or before `bound`.
pub proof fn lemma_run_stays_left(
    code: Seq<Instruction>,
    input: Seq<char>,
    sp: usize,
    waiting: Seq<ThreadState>,
    matched: Option<Seq<Match>>,
    bound: int,
)
    requires
        sp <= input.len(),
        matched matches Some(spans) && spans.len() > 0 && spans[0].start <= bound,
        starts_at_most(waiting, bound),
    ensures
        run_from(code, input, sp, waiting, matched) matches Some(spans) && spans.len() > 0
            && spans[0].start <= bound,
    decreases input.len() - sp,
{
    lemma_run_from_unfold(code, input, sp, waiting, matched);
    let stack = seeded(code, sp, waiting, matched).reverse();
    assert forall|i: int| 0 <= i < stack.len() implies (#[trigger] stack[i]).match_start
        <= bound by {
        assert(stack[i] == waiting[waiting.len() - 1 - i]);
    }
    let result = position_of_run(code, input, sp, waiting, matched);
    lemma_position_starts(
        code,
        input,
        sp,
        stack,
        Seq::empty(),
        unvisited(code),
        step_budget(code),
        bound,
    );
    let recorded = recorded_after(result, sp, matched);
    if result.accepted is Some {
        assert(match_record(result.accepted->0, sp)[0].start == result.accepted->0.match_start);
    }
    if sp < input.len() && sp < usize::MAX {
        lemma_run_stays_left(code, input, (sp + 1) as usize, result.waiting, recorded, bound);
    }
}

/// What holds of the waiting threads and the recorded match between two
/// positions: the threads wait in the order of their starts, none began
/// after `sp`, and none began after the recorded match.
pub open spec fn in_line(
    sp: usize,
    waiting: Seq<ThreadState>,
    matched: Option<Seq<Match>>,
) -> bool {
    &&& rising(waiting)
    &&& starts_at_most(waiting, sp as int)
    &&& matched matches Some(spans) ==> spans.len() > 0 && starts_at_most(
        waiting,
        spans[0].start as int,
    )
}

/// The threads that run at a position stand on the stack in falling
/// order, and none began after the position.
pub proof fn lemma_seeded_stack(
    code: Seq<Instruction>,
    sp: usize,
    waiting: Seq<ThreadState>,
    matched: Option<Seq<Match>>,
)
    requires
        in_line(sp, waiting, matched),
    ensures
        falling(seeded(code, sp, waiting, matched).reverse()),
        starts_at_most(seeded(code, sp, waiting, matched).reverse(), sp as int),
        matched matches Some(spans) ==> starts_at_most(
            seeded(code, sp, waiting, matched).reverse(),
            spans[0].start as int,
        ),
{
    let all = seeded(code, sp, waiting, matched);
    let stack = all.reverse();
    assert forall|i: int, j: int| 0 <= i <= j < all.len() implies (
    #[trigger] all[i]).match_start <= (#[trigger] all[j]).match_start by {
        if j < waiting.len() {
            assert(all[i] == waiting[i] && all[j] == waiting[j]);
        } else if i < waiting.len() {
            assert(all[i] == waiting[i]);
        }
    }
    assert forall|i: int, j: int| 0 <= i <= j < stack.len() implies (
    #[trigger] stack[i]).match_start >= (#[trigger] stack[j]).match_start by {
        assert(stack[i] == all[all.len() - 1 - i]);
        assert(stack[j] == all[all.len() - 1 - j]);
    }
    assert forall|i: int| 0 <= i < stack.len() implies (#[trigger] stack[i]).match_start
        <= sp by {
        assert(stack[i] == all[all.len() - 1 - i]);
        if all.len() - 1 - i < waiting.len() {
            assert(all[all.len() - 1 - i] == waiting[all.len() - 1 - i]);
        }
    }
    if matched is Some {
        assert forall|i: int| 0 <= i < stack.len() implies (#[trigger] stack[i]).match_start
            <= matched->0[0].start by {
            assert(stack[i] == waiting[waiting.len() - 1 - i]);
        }
    }
}

/// The work at a position of the run keeps the threads in line.
pub proof fn lemma_position_in_line(
    code: Seq<Instruction>,
    input: Seq<char>,
    sp: usize,
    waiting: Seq<ThreadState>,
    matched: Option<Seq<Match>>,
)
    requires
        sp < input.len(),
        sp < usize::MAX,
        in_line(sp, waiting, matched),
    ensures
        ({
            let result = position_of_run(code, input, sp, waiting, matched);
            &&& in_line((sp + 1) as usize, result.waiting, recorded_after(result, sp, matched))
            &&& result.accepted matches Some(t) ==> t.match_start <= sp
        }),
{
    let stack = seeded(code, sp, waiting, matched).reverse();
    let none = Seq::<ThreadState>::empty();
    let fresh = unvisited(code);
    let budget = step_budget(code);
    lemma_seeded_stack(code, sp, waiting, matched);
    lemma_position_order(code, input, sp, stack, none, fresh, budget);
    lemma_position_starts(code, input, sp, stack, none, fresh, budget, sp as int);
    let result = position_of_run(code, input, sp, waiting, matched);
    if result.accepted is Some {
        assert(match_record(result.accepted->0, sp)[0].start == result.accepted->0.match_start);
    } else if matched is Some {
        lemma_position_starts(
            code,
            input,
            sp,
            stack,
            none,
            fresh,
            budget,
            matched->0[0].start as int,
        );
    }
}

/// While a thread that runs at position `sp` is promising, and the fuel
/// is never spent, the run reports a match that starts at or before the
/// start of the target.
pub proof fn lemma_run_with_hope(
    g: Target,
    sp: usize,
    waiting: Seq<ThreadState>,
    matched: Option<Seq<Match>>,
    n: nat,
)
    requires
        sp <= g.input.len(),
        in_line(sp, waiting, matched),
        hope_stack(g, sp, seeded(g.code, sp, waiting, matched), n),
        !run_spent(g.code, g.input, sp, waiting, matched),
    ensures
        run_from(g.code, g.input, sp, waiting, matched) matches Some(spans) && spans.len() > 0
            && spans[0].start <= g.start,
    decreases g.input.len() - sp,
{
    let code = g.code;
    let input = g.input;
    lemma_run_from_unfold(code, input, sp, waiting, matched);
    let all = seeded(code, sp, waiting, matched);
    let stack = all.reverse();
    let none = Seq::<ThreadState>::empty();
    let fresh = unvisited(code);
    let budget = step_budget(code);
    lemma_seeded_stack(code, sp, waiting, matched);
    // the promising thread is on the stack
    let i = choose|i: int| 0 <= i < all.len() && promising(g, sp, #[trigger] all[i], n);
    assert(stack[all.len() - 1 - i] == all[i]);
    assert(promising(g, sp, stack[all.len() - 1 - i], n));
    assert(hope_stack(g, sp, stack, n));
    assert(explored(g, sp, fresh, stack, none));
    lemma_position_hope(g, sp, stack, none, fresh, budget, n);
    let result = position_of_run(code, input, sp, waiting, matched);
    let recorded = recorded_after(result, sp, matched);
    lemma_position_order(code, input, sp, stack, none, fresh, budget);
    if result.accepted is Some {
        assert(match_record(result.accepted->0, sp)[0].start == result.accepted->0.match_start);
    }
    if result.accepted is Some && result.accepted->0.match_start <= g.start {
        if sp < input.len() && sp < usize::MAX {
            lemma_run_stays_left(
                code,
                input,
                (sp + 1) as usize,
                result.waiting,
                recorded,
                result.accepted->0.match_start as int,
            );
        }
    } else {
        let next = (sp + 1) as usize;
        lemma_position_in_line(code, input, sp, waiting, matched);
        let k = choose|k: int|
            0 <= k < result.waiting.len() && promising(g, next, #[trigger] result.waiting[k], n);
        let again = seeded(code, next, result.waiting, recorded);
        assert(again[k] == result.waiting[k]);
        assert(promising(g, next, again[k], n));
        lemma_run_with_hope(g, next, result.waiting, recorded, n);
    }
}

/// From a position at or before the start of the target on, while no
/// match that starts after it is recorded and the fuel is never spent, the
/// run reports a match that starts at or before the start of the target.
pub proof fn lemma_run_to_target(
    g: Target,
    sp: usize,
    waiting: Seq<ThreadState>,
    matched: Option<Seq<Match>>,
)
    requires
        sp <= g.start <= g.input.len(),
        is_match(g.code, g.input, g.start, g.end),
        in_line(sp, waiting, matched),
        matched matches Some(spans) ==> spans[0].start <= g.start,
        !run_spent(g.code, g.input, sp, waiting, matched),
    ensures
        run_from(g.code, g.input, sp, waiting, matched) matches Some(spans) && spans.len() > 0
            && spans[0].start <= g.start,
    decreases g.start - sp,
{
    let code = g.code;
    let input = g.input;
    if matched is Some {
        lemma_run_stays_left(code, input, sp, waiting, matched, matched->0[0].start as int);
    } else if sp == g.start {
        let seed = fresh_thread(sp, register_count(code));
        let n = choose|n: nat| accepts(code, input, g.start, seed, n, g.end);
        let all = seeded(code, sp, waiting, matched);
        assert(all[waiting.len() as int] == seed);
        assert(promising(g, sp, all[waiting.len() as int], n));
        lemma_run_with_hope(g, sp, waiting, matched, n);
    } else {
        lemma_run_from_unfold(code, input, sp, waiting, matched);
        lemma_position_in_line(code, input, sp, waiting, matched);
        let result = position_of_run(code, input, sp, waiting, matched);
        let recorded = recorded_after(result, sp, matched);
        if result.accepted is Some {
            assert(match_record(result.accepted->0, sp)[0].start
                == result.accepted->0.match_start);
        }
        lemma_run_to_target(g, (sp + 1) as usize, result.waiting, recorded);
    }
}

/// The match that the machine reports starts at the first position from
/// which the program matches. Where the program matches the input from
/// `start` to some end, the machine reports a match, and that match
/// starts at or before `start`.
pub proof fn lemma_match_starts_leftmost(
    code: Seq<Instruction>,
    input: Seq<char>,
    start: usize,
    end: usize,
)
    requires
        start <= input.len(),
        is_match(code, input, start, end),
    ensures
        find_match(code, input) matches Some(spans) && spans.len() > 0 && spans[0].start
            <= start,
{
    lemma_budget_suffices(code, input);
    let g = Target { code, input, start, end };
    lemma_run_to_target(g, 0, Seq::empty(), None);
}

/// Where the machine reports no match, the program matches the input
/// nowhere.
pub proof fn lemma_no_match_is_none(
    code: Seq<Instruction>,
    input: Seq<char>,
    start: usize,
    end: usize,
)
    requires
        start <= input.len(),
        find_match(code, input) is None,
    ensures
        !is_match(code, input, start, end),
{
    if is_match(code, input, start, end) {
        lemma_match_starts_leftmost(code, input, start, end);
    }
}

/// What the machine finds is the leftmost match: the span of the whole
/// match is a match of the program, and the program matches from no
/// earlier position of the input. Absent: the program matches from no
/// position of the input.
pub open spec fn leftmost(
    code: Seq<Instruction>,
    input: Seq<char>,
    result: Option<Seq<Match>>,
) -> bool {
    match result {
        Some(spans) => {
            &&& spans.len() > 0
            &&& is_match(code, input, spans[0].start, spans[0].end)
            &&& forall|start: usize, end: usize|
                start <= input.len() && #[trigger] is_match(code, input, start, end)
                    ==> spans[0].start <= start
        },
        None => forall|start: usize, end: usize|
            start <= input.len() ==> !#[trigger] is_match(code, input, start, end),
    }
}

/// The overall match that the machine reports is a match of the program,
/// it starts at the smallest position from which the program matches, and
/// no match is reported only where there is none.
pub proof fn lemma_found_is_leftmost(code: Seq<Instruction>, input: Seq<char>)
    ensures
        find_match(code, input) matches Some(spans) ==> spans.len() > 0 && is_match(
            code,
            input,
            spans[0].start,
            spans[0].end,
        ),
        leftmost(code, input, find_match(code, input)),
{
    crate::paths::lemma_found_is_a_match(code, input);
    assert forall|start: usize, end: usize|
        start <= input.len() && #[trigger] is_match(code, input, start, end) implies find_match(
        code,
        input,
    ) matches Some(spans) && spans[0].start <= start by {
        lemma_match_starts_leftmost(code, input, start, end);
    }
}

} // verus!
