//! Which match the machine reports: the one that a backtracking search
//! prefers, which tries the first target of every `Fork` to its end before
//! the second.

use crate::budget::lemma_budget_suffices;
use crate::compile::{register_count, Instruction};
use crate::leftmost::{
    in_line, lemma_position_in_line, lemma_run_from_unfold, lemma_run_position_unfold,
    lemma_seeded_stack, next_stack, next_waiting, position_of_run, position_spent, probe,
    recorded_after, run_spent, seeded,
};
use crate::matcher::Match;
use crate::order::{falling, lemma_position_order, lemma_position_starts, starts_at_most};
use crate::paths::{accepts, lemma_step_similar};
use crate::pike::{
    cap_of, find_match, fresh_thread, marked, match_record, run_from, run_position, seen, step,
    step_budget, unvisited, Step, ThreadState, Visited,
};
use crate::preferred::{
    best_of, best_of_stack, extends, first_low, kept, later, lemma_explore_value,
    lemma_settled_extends, settled, Quest,
};
use crate::priority::{
    explore, finite, first, lemma_accepts_first, lemma_exact_depth, lemma_machine_explores,
    or_else,
};
use vstd::prelude::*;

verus! {

/// Every mark is settled.
pub open spec fn all_settled(
    q: Quest,
    sp: usize,
    visited: Visited,
    waiting: Seq<ThreadState>,
) -> bool {
    &&& visited.cap == cap_of(q.code)
    &&& forall|pc: int, k: int|
        0 <= pc < visited.len() && 0 <= k < visited[pc].len() ==> settled(
            q,
            sp,
            probe(pc as usize, #[trigger] visited[pc][k]),
            waiting,
        )
}

/// The ways of every thread of the list that began at or before the limit
/// end within the bound.
pub open spec fn low_finite(q: Quest, sp: usize, threads: Seq<ThreadState>) -> bool {
    forall|i: int|
        0 <= i < threads.len() && (#[trigger] threads[i]).match_start <= q.limit ==> finite(
            q.code,
            q.input,
            sp,
            threads[i],
            q.bound,
        )
}

/// The ways of every waiting thread that began at or before the limit end
/// within the bound, from the next position on.
pub open spec fn low_finite_next(q: Quest, sp: usize, waiting: Seq<ThreadState>) -> bool {
    sp < q.input.len() && sp < usize::MAX ==> low_finite(q, (sp + 1) as usize, waiting)
}

/// A thread that accepts at `sp` and began at or before the limit, as a
/// way to `Accept`.
pub open spec fn low_here(q: Quest, accepted: Option<ThreadState>, sp: usize) -> Option<
    (usize, ThreadState),
> {
    match accepted {
        Some(t) => if t.match_start <= q.limit {
            Some((sp, t))
        } else {
            None
        },
        None => None,
    }
}

/// Every thread of the list began after the limit.
pub open spec fn all_after(q: Quest, threads: Seq<ThreadState>) -> bool {
    forall|i: int| 0 <= i < threads.len() ==> (#[trigger] threads[i]).match_start > q.limit
}

/// Threads that began after the limit bring up only threads that began
/// after the limit.
pub proof fn lemma_position_after(
    q: Quest,
    sp: usize,
    stack: Seq<ThreadState>,
    waiting: Seq<ThreadState>,
    visited: Visited,
    fuel: nat,
)
    requires
        all_after(q, stack),
    ensures
        ({
            let result = run_position(q.code, q.input, sp, stack, waiting, visited, fuel);
            &&& extends(result.waiting, waiting)
            &&& forall|i: int|
                waiting.len() <= i < result.waiting.len() ==> (
                #[trigger] result.waiting[i]).match_start > q.limit
            &&& result.accepted matches Some(t) ==> t.match_start > q.limit
        }),
    decreases fuel,
{
    if stack.len() > 0 && fuel > 0 {
        let t = stack.last();
        let rest = stack.drop_last();
        let less = (fuel - 1) as nat;
        let result = step(q.code, q.input, sp, t);
        lemma_run_position_unfold(q.code, q.input, sp, stack, waiting, visited, fuel);
        lemma_step_similar(q.code, q.input, sp, t, t);
        assert(stack[stack.len() - 1].match_start > q.limit);
        assert forall|i: int| 0 <= i < rest.len() implies (#[trigger] rest[i]).match_start
            > q.limit by {
            assert(rest[i] == stack[i]);
        }
        if seen(visited, t) {
            lemma_position_after(q, sp, rest, waiting, visited, less);
        } else if result != Step::Accept {
            let after = next_stack(rest, result);
            let more = next_waiting(waiting, result);
            assert forall|i: int| 0 <= i < after.len() implies (#[trigger] after[i]).match_start
                > q.limit by {
                if i < rest.len() {
                    assert(after[i] == rest[i]);
                }
            }
            lemma_position_after(q, sp, after, more, marked(visited, t), less);
            let end = run_position(q.code, q.input, sp, after, more, marked(visited, t), less);
            assert forall|i: int| 0 <= i < waiting.len() implies #[trigger] end.waiting[i]
                == waiting[i] by {
                assert(more[i] == waiting[i]);
            }
            assert forall|i: int| waiting.len() <= i < end.waiting.len() implies (
            #[trigger] end.waiting[i]).match_start > q.limit by {
                if i < more.len() {
                    assert(end.waiting[i] == more[i]);
                }
            }
        }
    }
}

/// Threads that began after the limit, behind a list, do not change what
/// the list prefers.
pub proof fn lemma_best_of_junk(
    q: Quest,
    sp: usize,
    before: Seq<ThreadState>,
    after: Seq<ThreadState>,
)
    requires
        extends(after, before),
        forall|i: int| before.len() <= i < after.len() ==> (#[trigger] after[i]).match_start
            > q.limit,
    ensures
        best_of(q, sp, after) == best_of(q, sp, before),
    decreases after.len(),
{
    if after.len() > before.len() {
        let front = after.drop_last();
        assert(extends(front, before)) by {
            assert forall|i: int| 0 <= i < before.len() implies #[trigger] front[i]
                == before[i] by {
                assert(front[i] == after[i]);
            }
        }
        assert forall|i: int| before.len() <= i < front.len() implies (
        #[trigger] front[i]).match_start > q.limit by {
            assert(front[i] == after[i]);
        }
        lemma_best_of_junk(q, sp, before, front);
        assert(after.last() == after[after.len() - 1]);
    } else {
        assert(after =~= before);
    }
}

/// A stack of threads that began after the limit prefers nothing.
pub proof fn lemma_best_of_stack_junk(q: Quest, sp: usize, stack: Seq<ThreadState>)
    requires
        all_after(q, stack),
    ensures
        best_of_stack(q, sp, stack) is None,
    decreases stack.len(),
{
    if stack.len() > 0 {
        assert(stack[stack.len() - 1].match_start > q.limit);
        assert forall|i: int| 0 <= i < stack.drop_last().len() implies (
        #[trigger] stack.drop_last()[i]).match_start > q.limit by {
            assert(stack.drop_last()[i] == stack[i]);
        }
        lemma_best_of_stack_junk(q, sp, stack.drop_last());
    }
}

/// A list with one more thread at its front prefers what that thread
/// prefers, or else what the list prefers.
pub proof fn lemma_best_of_front(q: Quest, sp: usize, t: ThreadState, threads: Seq<ThreadState>)
    ensures
        best_of(q, sp, seq![t] + threads) == or_else(first_low(q, sp, t), best_of(q, sp, threads)),
    decreases threads.len(),
{
    let all = seq![t] + threads;
    let none = Seq::<ThreadState>::empty();
    assert(best_of(q, sp, none) is None);
    if threads.len() == 0 {
        assert(all =~= seq![t]);
        assert(all.drop_last() =~= none);
        assert(all.last() == t);
        assert(best_of(q, sp, all) == or_else(
            best_of(q, sp, all.drop_last()),
            first_low(q, sp, all.last()),
        ));
        assert(threads =~= none);
    } else {
        lemma_best_of_front(q, sp, t, threads.drop_last());
        assert(all.drop_last() =~= seq![t] + threads.drop_last());
        assert(all.last() == threads.last());
        assert(best_of(q, sp, all) == or_else(
            best_of(q, sp, all.drop_last()),
            first_low(q, sp, all.last()),
        ));
        assert(best_of(q, sp, threads) == or_else(
            best_of(q, sp, threads.drop_last()),
            first_low(q, sp, threads.last()),
        ));
    }
}

/// The threads of a list, put on a stack with the first one on top,
/// prefer what the list prefers.
pub proof fn lemma_best_of_reverse(q: Quest, sp: usize, threads: Seq<ThreadState>)
    ensures
        best_of_stack(q, sp, threads.reverse()) == best_of(q, sp, threads),
    decreases threads.len(),
{
    if threads.len() > 0 {
        let stack = threads.reverse();
        let rest = threads.drop_first();
        assert(stack.last() == threads[0]);
        assert(stack.drop_last() =~= rest.reverse());
        lemma_best_of_reverse(q, sp, rest);
        lemma_best_of_front(q, sp, threads[0], rest);
        assert(seq![threads[0]] + rest =~= threads);
    }
}

/// The work of the machine at a position adds to what the waiting threads
/// prefer what the stack prefers, among the threads that began at or
/// before the limit.
pub proof fn lemma_position_value(
    q: Quest,
    sp: usize,
    stack: Seq<ThreadState>,
    waiting: Seq<ThreadState>,
    visited: Visited,
    fuel: nat,
)
    requires
        falling(stack),
        low_finite(q, sp, stack),
        low_finite_next(q, sp, waiting),
        all_settled(q, sp, visited, waiting),
        !position_spent(q.code, q.input, sp, stack, waiting, visited, fuel),
    ensures
        ({
            let result = run_position(q.code, q.input, sp, stack, waiting, visited, fuel);
            &&& or_else(later(q, sp, result.waiting), low_here(q, result.accepted, sp))
                == or_else(later(q, sp, waiting), best_of_stack(q, sp, stack))
            &&& extends(result.waiting, waiting)
            &&& low_finite_next(q, sp, result.waiting)
        }),
    decreases stack.len(),
{
    let code = q.code;
    let input = q.input;
    if stack.len() > 0 {
        let t = stack.last();
        let rest = stack.drop_last();
        let top = stack.len() - 1;
        assert(stack[top] == t);
        assert(rest.push(t) =~= stack);
        assert(falling(rest)) by {
            assert forall|i: int, j: int| 0 <= i <= j < rest.len() implies (
            #[trigger] rest[i]).match_start >= (#[trigger] rest[j]).match_start by {
                assert(rest[i] == stack[i] && rest[j] == stack[j]);
            }
        }
        assert(low_finite(q, sp, rest)) by {
            assert forall|i: int|
                0 <= i < rest.len() && (#[trigger] rest[i]).match_start <= q.limit implies finite(
                code,
                input,
                sp,
                rest[i],
                q.bound,
            ) by {
                assert(rest[i] == stack[i]);
            }
        }
        if t.match_start > q.limit {
            assert(all_after(q, stack)) by {
                assert forall|i: int| 0 <= i < stack.len() implies (
                #[trigger] stack[i]).match_start > q.limit by {
                    assert(stack[i].match_start >= stack[top].match_start);
                }
            }
            lemma_best_of_stack_junk(q, sp, stack);
            lemma_position_after(q, sp, stack, waiting, visited, fuel);
            let result = run_position(code, input, sp, stack, waiting, visited, fuel);
            if sp < input.len() && sp < usize::MAX {
                lemma_best_of_junk(q, (sp + 1) as usize, waiting, result.waiting);
                assert forall|i: int|
                    0 <= i < result.waiting.len() && (
                    #[trigger] result.waiting[i]).match_start <= q.limit implies finite(
                    code,
                    input,
                    (sp + 1) as usize,
                    result.waiting[i],
                    q.bound,
                ) by {
                    assert(result.waiting[i] == waiting[i]);
                }
            }
        } else {
            let d = lemma_exact_depth(code, input, sp, t, q.bound);
            assert(kept(q, sp, visited, waiting, d));
            lemma_machine_explores(code, input, sp, rest, t, waiting, visited, fuel, d);
            lemma_explore_value(q, sp, t, waiting, visited, d);
            let r = explore(code, input, sp, t, waiting, visited, d);
            assert(low_finite_next(q, sp, r.waiting)) by {
                if sp < input.len() && sp < usize::MAX {
                    assert forall|i: int|
                        0 <= i < r.waiting.len() && (#[trigger] r.waiting[i]).match_start
                            <= q.limit implies finite(
                        code,
                        input,
                        (sp + 1) as usize,
                        r.waiting[i],
                        q.bound,
                    ) by {
                        if i < waiting.len() {
                            assert(r.waiting[i] == waiting[i]);
                        }
                    }
                }
            }
            if r.accepted is None {
                assert(all_settled(q, sp, r.visited, r.waiting)) by {
                    assert forall|pc: int, k: int|
                        0 <= pc < r.visited.len() && 0 <= k < r.visited[pc].len() implies settled(
                        q,
                        sp,
                        probe(pc as usize, #[trigger] r.visited[pc][k]),
                        r.waiting,
                    ) by {
                        if k < visited[pc].len() {
                            assert(r.visited[pc][k] == visited[pc][k]);
                            lemma_settled_extends(
                                q,
                                sp,
                                probe(pc as usize, visited[pc][k]),
                                waiting,
                                r.waiting,
                            );
                        }
                    }
                }
                lemma_position_value(
                    q,
                    sp,
                    rest,
                    r.waiting,
                    r.visited,
                    (fuel - r.steps) as nat,
                );
                let result = run_position(code, input, sp, stack, waiting, visited, fuel);
                assert forall|i: int| 0 <= i < waiting.len() implies #[trigger] result.waiting[i]
                    == waiting[i] by {
                    assert(r.waiting[i] == waiting[i]);
                }
            }
        }
    }
}

/// After the preferred match is recorded, with no way to `Accept` left
/// among the waiting threads, the run keeps the match.
pub proof fn lemma_run_is_over(
    q: Quest,
    sp: usize,
    waiting: Seq<ThreadState>,
    matched: Option<Seq<Match>>,
)
    requires
        sp <= q.input.len(),
        matched is Some,
        in_line(sp, waiting, matched),
        starts_at_most(waiting, q.limit as int),
        low_finite(q, sp, waiting),
        best_of(q, sp, waiting) is None,
        !run_spent(q.code, q.input, sp, waiting, matched),
    ensures
        run_from(q.code, q.input, sp, waiting, matched) == matched,
    decreases q.input.len() - sp,
{
    let code = q.code;
    let input = q.input;
    lemma_run_from_unfold(code, input, sp, waiting, matched);
    let stack = waiting.reverse();
    let none = Seq::<ThreadState>::empty();
    let fresh = unvisited(code);
    let budget = step_budget(code);
    lemma_seeded_stack(code, sp, waiting, matched);
    lemma_best_of_reverse(q, sp, waiting);
    assert(low_finite(q, sp, stack)) by {
        assert forall|i: int|
            0 <= i < stack.len() && (#[trigger] stack[i]).match_start <= q.limit implies finite(
            code,
            input,
            sp,
            stack[i],
            q.bound,
        ) by {
            assert(stack[i] == waiting[waiting.len() - 1 - i]);
        }
    }
    assert forall|i: int| 0 <= i < stack.len() implies (#[trigger] stack[i]).match_start
        <= q.limit by {
        assert(stack[i] == waiting[waiting.len() - 1 - i]);
    }
    lemma_position_value(q, sp, stack, none, fresh, budget);
    lemma_position_starts(code, input, sp, stack, none, fresh, budget, q.limit as int);
    let result = position_of_run(code, input, sp, waiting, matched);
    assert(result.accepted is None);
    if sp < input.len() && sp < usize::MAX {
        lemma_position_in_line(code, input, sp, waiting, matched);
        lemma_run_is_over(q, (sp + 1) as usize, result.waiting, matched);
    }
}

/// While the threads that run at position `sp` prefer the way to `Accept`
/// of the thread `a` at `end`, the run reports what `a` has recorded.
pub proof fn lemma_run_prefers(
    q: Quest,
    sp: usize,
    waiting: Seq<ThreadState>,
    matched: Option<Seq<Match>>,
    end: usize,
    a: ThreadState,
)
    requires
        q.limit <= sp <= q.input.len(),
        in_line(sp, waiting, matched),
        low_finite(q, sp, seeded(q.code, sp, waiting, matched)),
        best_of(q, sp, seeded(q.code, sp, waiting, matched)) == Some((end, a)),
        !run_spent(q.code, q.input, sp, waiting, matched),
    ensures
        run_from(q.code, q.input, sp, waiting, matched) == Some(match_record(a, end)),
    decreases q.input.len() - sp,
{
    let code = q.code;
    let input = q.input;
    lemma_run_from_unfold(code, input, sp, waiting, matched);
    let all = seeded(code, sp, waiting, matched);
    let stack = all.reverse();
    let none = Seq::<ThreadState>::empty();
    let fresh = unvisited(code);
    let budget = step_budget(code);
    lemma_seeded_stack(code, sp, waiting, matched);
    lemma_best_of_reverse(q, sp, all);
    assert(low_finite(q, sp, stack)) by {
        assert forall|i: int|
            0 <= i < stack.len() && (#[trigger] stack[i]).match_start <= q.limit implies finite(
            code,
            input,
            sp,
            stack[i],
            q.bound,
        ) by {
            assert(stack[i] == all[all.len() - 1 - i]);
        }
    }
    lemma_position_value(q, sp, stack, none, fresh, budget);
    lemma_position_order(code, input, sp, stack, none, fresh, budget);
    let result = position_of_run(code, input, sp, waiting, matched);
    let recorded = recorded_after(result, sp, matched);
    if later(q, sp, result.waiting) is Some {
        let next = (sp + 1) as usize;
        lemma_position_in_line(code, input, sp, waiting, matched);
        let again = seeded(code, next, result.waiting, recorded);
        if recorded is None {
            let seed = fresh_thread(next, register_count(code));
            assert(again.drop_last() =~= result.waiting);
            assert(again.last() == seed);
            assert(first_low(q, next, seed) is None);
        }
        assert(low_finite(q, next, again)) by {
            assert forall|i: int|
                0 <= i < again.len() && (#[trigger] again[i]).match_start <= q.limit implies finite(
                code,
                input,
                next,
                again[i],
                q.bound,
            ) by {
                if i < result.waiting.len() {
                    assert(again[i] == result.waiting[i]);
                }
            }
        }
        lemma_run_prefers(q, next, result.waiting, recorded, end, a);
    } else {
        // the thread `a` accepts here
        assert(result.accepted == Some(a) && end == sp);
        if sp < input.len() && sp < usize::MAX {
            let next = (sp + 1) as usize;
            lemma_position_in_line(code, input, sp, waiting, matched);
            assert(match_record(a, sp)[0].start == a.match_start);
            assert(starts_at_most(result.waiting, q.limit as int)) by {
                assert forall|i: int| 0 <= i < result.waiting.len() implies (
                #[trigger] result.waiting[i]).match_start <= q.limit by {
                    assert(result.waiting[i].match_start <= a.match_start);
                }
            }
            lemma_run_is_over(q, next, result.waiting, recorded);
        }
    }
}

/// Up to the limit, while no thread has a way to `Accept` and none is
/// recorded, the run comes to the limit without a match, and from there
/// reports what the thread that starts at the limit prefers.
pub proof fn lemma_run_comes_to_limit(
    q: Quest,
    sp: usize,
    waiting: Seq<ThreadState>,
    end: usize,
    a: ThreadState,
)
    requires
        sp <= q.limit <= q.input.len(),
        in_line(sp, waiting, None),
        low_finite(q, sp, waiting),
        best_of(q, sp, waiting) is None,
        forall|s: usize|
            s <= q.limit ==> finite(
                q.code,
                q.input,
                s,
                #[trigger] fresh_thread(s, register_count(q.code)),
                q.bound,
            ),
        forall|s: usize|
            s < q.limit ==> first(
                q.code,
                q.input,
                s,
                #[trigger] fresh_thread(s, register_count(q.code)),
                q.bound,
            ) is None,
        first(q.code, q.input, q.limit, fresh_thread(q.limit, register_count(q.code)), q.bound)
            == Some((end, a)),
        !run_spent(q.code, q.input, sp, waiting, None),
    ensures
        run_from(q.code, q.input, sp, waiting, None) == Some(match_record(a, end)),
    decreases q.limit - sp,
{
    let code = q.code;
    let input = q.input;
    let seed = fresh_thread(sp, register_count(code));
    let all = seeded(code, sp, waiting, None);
    assert(all.drop_last() =~= waiting);
    assert(all.last() == seed);
    assert(low_finite(q, sp, all)) by {
        assert forall|i: int|
            0 <= i < all.len() && (#[trigger] all[i]).match_start <= q.limit implies finite(
            code,
            input,
            sp,
            all[i],
            q.bound,
        ) by {
            if i < waiting.len() {
                assert(all[i] == waiting[i]);
            }
        }
    }
    if sp == q.limit {
        lemma_run_prefers(q, sp, waiting, None, end, a);
    } else {
        lemma_run_from_unfold(code, input, sp, waiting, None);
        let stack = all.reverse();
        let none = Seq::<ThreadState>::empty();
        let fresh = unvisited(code);
        let budget = step_budget(code);
        lemma_seeded_stack(code, sp, waiting, None);
        lemma_best_of_reverse(q, sp, all);
        assert(low_finite(q, sp, stack)) by {
            assert forall|i: int|
                0 <= i < stack.len() && (#[trigger] stack[i]).match_start
                    <= q.limit implies finite(code, input, sp, stack[i], q.bound) by {
                assert(stack[i] == all[all.len() - 1 - i]);
            }
        }
        lemma_position_value(q, sp, stack, none, fresh, budget);
        lemma_position_starts(code, input, sp, stack, none, fresh, budget, sp as int);
        lemma_position_in_line(code, input, sp, waiting, None);
        let result = position_of_run(code, input, sp, waiting, None);
        assert(result.accepted is None);
        lemma_run_comes_to_limit(q, (sp + 1) as usize, result.waiting, end, a);
    }
}

/// Whether a backtracking search from the positions of the input in
/// turn, trying at each `Fork` the first target to its end before the
/// second, stops with the thread `a` at `Accept` at `end`: no thread that
/// starts before `start` has a way to `Accept`, the thread that starts at
/// `start` prefers the way of `a`, and the ways of all those threads end
/// within `n` instructions.
pub open spec fn backtracking_finds(
    code: Seq<Instruction>,
    input: Seq<char>,
    start: usize,
    n: nat,
    end: usize,
    a: ThreadState,
) -> bool {
    &&& start <= input.len()
    &&& forall|s: usize|
        s <= start ==> finite(
            code,
            input,
            s,
            #[trigger] fresh_thread(s, register_count(code)),
            n,
        )
    &&& forall|s: usize|
        s < start ==> first(code, input, s, #[trigger] fresh_thread(s, register_count(code)), n)
            is None
    &&& first(code, input, start, fresh_thread(start, register_count(code)), n) == Some((end, a))
}

/// Whether a backtracking search finds nothing: no thread that starts at
/// a position of the input has a way to `Accept`, and the ways of all of
/// them end within `n` instructions.
pub open spec fn backtracking_fails(code: Seq<Instruction>, input: Seq<char>, n: nat) -> bool {
    forall|s: usize|
        s <= input.len() ==> finite(
            code,
            input,
            s,
            #[trigger] fresh_thread(s, register_count(code)),
            n,
        ) && first(code, input, s, fresh_thread(s, register_count(code)), n) is None
}

/// What the machine finds is what a backtracking search prefers, wherever
/// such a search comes to an end.
pub open spec fn preferred(
    code: Seq<Instruction>,
    input: Seq<char>,
    result: Option<Seq<Match>>,
) -> bool {
    &&& forall|start: usize, n: nat, end: usize, a: ThreadState| #[trigger]
        backtracking_finds(code, input, start, n, end, a) ==> result == Some(
            match_record(a, end),
        )
    &&& forall|n: nat| #[trigger] backtracking_fails(code, input, n) ==> result is None
}

/// The match that the machine reports is the one that a backtracking
/// search prefers. Where no thread that starts before `start` has a way
/// to `Accept`, the thread that starts at `start` prefers the way of the
/// thread `a` to `Accept` at `end`, and the ways of all those threads
/// end, the machine reports what `a` has recorded at `end`: the first
/// target of every `Fork` has priority, so that a greedy quantifier
/// repeats as long as it can and a non-greedy one as little as it can.
pub proof fn lemma_match_is_preferred(
    code: Seq<Instruction>,
    input: Seq<char>,
    start: usize,
    n: nat,
    end: usize,
    a: ThreadState,
)
    requires
        backtracking_finds(code, input, start, n, end, a),
    ensures
        find_match(code, input) == Some(match_record(a, end)),
{
    lemma_budget_suffices(code, input);
    let q = Quest { code, input, limit: start, bound: n };
    lemma_run_comes_to_limit(q, 0, Seq::empty(), end, a);
}

/// Where a backtracking search finds nothing, the machine reports
/// nothing.
pub proof fn lemma_nothing_is_preferred(code: Seq<Instruction>, input: Seq<char>, n: nat)
    requires
        backtracking_fails(code, input, n),
    ensures
        find_match(code, input) is None,
{
    crate::paths::lemma_found_is_a_match(code, input);
    crate::bounds::lemma_match_well_spanned(code, input);
    if find_match(code, input) is Some {
        let spans = find_match(code, input)->0;
        let start = spans[0].start;
        let end = spans[0].end;
        let seed = fresh_thread(start, register_count(code));
        let m = choose|m: nat| accepts(code, input, start, seed, m, end);
        lemma_accepts_first(code, input, start, seed, m, end, n);
    }
}

/// What the machine finds is what a backtracking search prefers.
pub proof fn lemma_found_is_preferred(code: Seq<Instruction>, input: Seq<char>)
    ensures
        preferred(code, input, find_match(code, input)),
{
    assert forall|start: usize, n: nat, end: usize, a: ThreadState| #[trigger]
        backtracking_finds(code, input, start, n, end, a) implies find_match(code, input)
        == Some(match_record(a, end)) by {
        lemma_match_is_preferred(code, input, start, n, end, a);
    }
    assert forall|n: nat| #[trigger] backtracking_fails(code, input, n) implies find_match(
        code,
        input,
    ) is None by {
        lemma_nothing_is_preferred(code, input, n);
    }
}

} // verus!
