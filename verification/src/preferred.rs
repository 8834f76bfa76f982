//! What the threads at one position prefer: the run of a thread by the
//! machine adds the way that the thread prefers to what the threads before
//! it prefer, even where marks let threads die.

use crate::compile::Instruction;
use crate::leftmost::probe;
use crate::paths::{lemma_capped_twice, lemma_step_similar};
use crate::pike::{cap_of, capped, marked, seen, step, Step, ThreadState, Visited};
use crate::priority::{
    explore, finite, first, lemma_exact_depth, lemma_explore_more, lemma_finite_more,
    lemma_first_similar, or_else, Exploration,
};
use vstd::prelude::*;

verus! {

/// What a search is about: the program and the input, the position
/// `limit` up to which the starts of threads count, and the number
/// `bound` of instructions within which the ways of those threads end.
pub ghost struct Quest {
    pub code: Seq<Instruction>,
    pub input: Seq<char>,
    pub limit: usize,
    pub bound: nat,
}

/// The way to `Accept` that a thread prefers, if the thread began at or
/// before the limit.
pub open spec fn first_low(q: Quest, sp: usize, t: ThreadState) -> Option<(usize, ThreadState)> {
    if t.match_start <= q.limit {
        first(q.code, q.input, sp, t, q.bound)
    } else {
        None
    }
}

/// The way to `Accept` that a list of threads prefers: that of the first
/// thread in the list that has one.
pub open spec fn best_of(q: Quest, sp: usize, threads: Seq<ThreadState>) -> Option<
    (usize, ThreadState),
>
    decreases threads.len(),
{
    if threads.len() == 0 {
        None
    } else {
        or_else(best_of(q, sp, threads.drop_last()), first_low(q, sp, threads.last()))
    }
}

/// The way to `Accept` that a stack of threads prefers: that of the
/// thread nearest to the top that has one.
pub open spec fn best_of_stack(q: Quest, sp: usize, stack: Seq<ThreadState>) -> Option<
    (usize, ThreadState),
>
    decreases stack.len(),
{
    if stack.len() == 0 {
        None
    } else {
        or_else(first_low(q, sp, stack.last()), best_of_stack(q, sp, stack.drop_last()))
    }
}

/// The way to `Accept` that the waiting threads prefer, from the next
/// position on.
pub open spec fn later(q: Quest, sp: usize, waiting: Seq<ThreadState>) -> Option<
    (usize, ThreadState),
> {
    if sp < q.input.len() && sp < usize::MAX {
        best_of(q, (sp + 1) as usize, waiting)
    } else {
        None
    }
}

/// A thread that accepts at `sp`, as a way to `Accept`.
pub open spec fn here(accepted: Option<ThreadState>, sp: usize) -> Option<(usize, ThreadState)> {
    match accepted {
        Some(t) => Some((sp, t)),
        None => None,
    }
}

/// One list starts with the other.
pub open spec fn extends(after: Seq<ThreadState>, before: Seq<ThreadState>) -> bool {
    &&& after.len() >= before.len()
    &&& forall|i: int| 0 <= i < before.len() ==> #[trigger] after[i] == before[i]
}

/// The marks have grown: each instruction has the marks it had, and
/// perhaps more behind them.
pub open spec fn grown(after: Visited, before: Visited) -> bool {
    &&& after.cap == before.cap
    &&& after.len() == before.len()
    &&& forall|pc: int|
        0 <= pc < before.len() ==> (#[trigger] after[pc]).len() >= before[pc].len()
    &&& forall|pc: int, k: int|
        0 <= pc < before.len() && 0 <= k < before[pc].len() ==> #[trigger] after[pc][k]
            == before[pc][k]
}

/// A mark is settled when a way to `Accept` from it means that a waiting
/// thread has one: a thread that dies at the mark takes nothing away.
pub open spec fn settled(q: Quest, sp: usize, at: ThreadState, waiting: Seq<ThreadState>) -> bool {
    first(q.code, q.input, sp, at, q.bound) is Some ==> later(q, sp, waiting) is Some
}

/// Every mark is settled, or stands where no thread whose ways end within
/// `d` instructions can stand.
pub open spec fn kept(
    q: Quest,
    sp: usize,
    visited: Visited,
    waiting: Seq<ThreadState>,
    d: nat,
) -> bool {
    &&& visited.cap == cap_of(q.code)
    &&& forall|pc: int, k: int|
        0 <= pc < visited.len() && 0 <= k < visited[pc].len() ==> !finite(
            q.code,
            q.input,
            sp,
            probe(pc as usize, #[trigger] visited[pc][k]),
            d,
        ) || settled(q, sp, probe(pc as usize, visited[pc][k]), waiting)
}

/// Every mark that is new is settled.
pub open spec fn fresh_settled(
    q: Quest,
    sp: usize,
    before: Visited,
    after: Visited,
    waiting: Seq<ThreadState>,
) -> bool {
    forall|pc: int, k: int|
        0 <= pc < after.len() && pc < before.len() && before[pc].len() <= k < after[pc].len()
            ==> settled(q, sp, probe(pc as usize, #[trigger] after[pc][k]), waiting)
}

/// The threads that a thread has added to the waiting list began where
/// it began, and their ways end within the bound.
pub open spec fn added(
    q: Quest,
    sp: usize,
    before: Seq<ThreadState>,
    after: Seq<ThreadState>,
    start: usize,
) -> bool {
    &&& extends(after, before)
    &&& forall|i: int|
        before.len() <= i < after.len() ==> (#[trigger] after[i]).match_start == start && (sp
            < q.input.len() && sp < usize::MAX ==> finite(
            q.code,
            q.input,
            (sp + 1) as usize,
            after[i],
            q.bound,
        ))
}

/// What a longer list prefers, if the shorter prefers something, is what
/// the shorter prefers.
pub proof fn lemma_best_of_extends(
    q: Quest,
    sp: usize,
    before: Seq<ThreadState>,
    after: Seq<ThreadState>,
)
    requires
        extends(after, before),
    ensures
        best_of(q, sp, before) is Some ==> best_of(q, sp, after) == best_of(q, sp, before),
    decreases after.len(),
{
    if after.len() > before.len() {
        let front = after.drop_last();
        assert(extends(front, before)) by {
            assert forall|i: int| 0 <= i < before.len() implies #[trigger] front[i]
                == before[i] by {
                assert(front[i] == after[i]);
            }
        }
        lemma_best_of_extends(q, sp, before, front);
    } else {
        assert(after =~= before);
    }
}

/// A mark that is settled stays settled when the waiting list grows.
pub proof fn lemma_settled_extends(
    q: Quest,
    sp: usize,
    at: ThreadState,
    before: Seq<ThreadState>,
    after: Seq<ThreadState>,
)
    requires
        extends(after, before),
        settled(q, sp, at, before),
    ensures
        settled(q, sp, at, after),
{
    if sp < q.input.len() && sp < usize::MAX {
        lemma_best_of_extends(q, (sp + 1) as usize, before, after);
    }
}

/// The marks are kept for the threads that a thread splits off, once the
/// thread itself is marked: its own mark stands where none of them can
/// stand, because their ways are shorter than its ways.
pub proof fn lemma_kept_below(
    q: Quest,
    sp: usize,
    t: ThreadState,
    visited: Visited,
    waiting: Seq<ThreadState>,
    d: nat,
    below: nat,
)
    requires
        kept(q, sp, visited, waiting, d),
        d > 0,
        below < d,
        !finite(q.code, q.input, sp, t, (d - 1) as nat),
    ensures
        kept(q, sp, marked(visited, t), waiting, below),
{
    let v = marked(visited, t);
    assert forall|pc: int, k: int| 0 <= pc < v.len() && 0 <= k < v[pc].len() implies !finite(
        q.code,
        q.input,
        sp,
        probe(pc as usize, #[trigger] v[pc][k]),
        below,
    ) || settled(q, sp, probe(pc as usize, v[pc][k]), waiting) by {
        let at = probe(pc as usize, v[pc][k]);
        if finite(q.code, q.input, sp, at, below) {
            if t.pc < visited.len() && pc == t.pc && k == visited[pc].len() {
                assert(v[pc][k] == capped(t.registers, visited.cap));
                lemma_capped_twice(t.registers, visited.cap);
                lemma_first_similar(q.code, q.input, sp, at, t, below);
                lemma_finite_more(q.code, q.input, sp, t, below, (d - 1) as nat);
            } else {
                assert(v[pc][k] == visited[pc][k]);
                lemma_finite_more(q.code, q.input, sp, at, below, d);
            }
        }
    }
}

/// The marks are kept after the run of a thread: the old ones as they
/// were, the new ones because they are settled.
pub proof fn lemma_kept_after(
    q: Quest,
    sp: usize,
    before: Visited,
    after: Visited,
    waiting: Seq<ThreadState>,
    longer: Seq<ThreadState>,
    d: nat,
)
    requires
        kept(q, sp, before, waiting, d),
        grown(after, before),
        fresh_settled(q, sp, before, after, longer),
        extends(longer, waiting),
    ensures
        kept(q, sp, after, longer, d),
{
    assert forall|pc: int, k: int|
        0 <= pc < after.len() && 0 <= k < after[pc].len() implies !finite(
        q.code,
        q.input,
        sp,
        probe(pc as usize, #[trigger] after[pc][k]),
        d,
    ) || settled(q, sp, probe(pc as usize, after[pc][k]), longer) by {
        let at = probe(pc as usize, after[pc][k]);
        if k < before[pc].len() {
            assert(after[pc][k] == before[pc][k]);
            if finite(q.code, q.input, sp, at, d) {
                lemma_settled_extends(q, sp, at, waiting, longer);
            }
        }
    }
}

/// The marks of a thread are those it had before, and one more for the
/// thread.
pub proof fn lemma_marked_grown(visited: Visited, t: ThreadState)
    ensures
        grown(marked(visited, t), visited),
{
    let v = marked(visited, t);
    assert forall|pc: int| 0 <= pc < visited.len() implies (#[trigger] v[pc]).len()
        >= visited[pc].len() by {}
    assert forall|pc: int, k: int|
        0 <= pc < visited.len() && 0 <= k < visited[pc].len() implies #[trigger] v[pc][k]
        == visited[pc][k] by {}
}

/// Growing twice is growing.
pub proof fn lemma_grown_twice(first: Visited, second: Visited, third: Visited)
    requires
        grown(second, first),
        grown(third, second),
    ensures
        grown(third, first),
{
    assert forall|pc: int| 0 <= pc < first.len() implies (#[trigger] third[pc]).len()
        >= first[pc].len() by {
        assert(second[pc].len() >= first[pc].len());
    }
    assert forall|pc: int, k: int|
        0 <= pc < first.len() && 0 <= k < first[pc].len() implies #[trigger] third[pc][k]
        == first[pc][k] by {
        assert(second[pc][k] == first[pc][k]);
        assert(second[pc].len() >= first[pc].len());
    }
}

/// Extending twice is extending, and what was added stays added.
pub proof fn lemma_added_twice(
    q: Quest,
    sp: usize,
    first: Seq<ThreadState>,
    second: Seq<ThreadState>,
    third: Seq<ThreadState>,
    start: usize,
)
    requires
        added(q, sp, first, second, start),
        added(q, sp, second, third, start),
    ensures
        added(q, sp, first, third, start),
{
    assert forall|i: int| 0 <= i < first.len() implies #[trigger] third[i] == first[i] by {
        assert(second[i] == first[i]);
    }
    assert forall|i: int| first.len() <= i < third.len() implies (
    #[trigger] third[i]).match_start == start && (sp < q.input.len() && sp < usize::MAX
        ==> finite(q.code, q.input, (sp + 1) as usize, third[i], q.bound)) by {
        if i < second.len() {
            assert(third[i] == second[i]);
        }
    }
}

/// What the run of a thread on top of settled marks gives.
pub open spec fn run_gives(
    q: Quest,
    sp: usize,
    t: ThreadState,
    waiting: Seq<ThreadState>,
    visited: Visited,
    r: Exploration,
) -> bool {
    &&& or_else(later(q, sp, r.waiting), here(r.accepted, sp)) == or_else(
        later(q, sp, waiting),
        first(q.code, q.input, sp, t, q.bound),
    )
    &&& grown(r.visited, visited)
    &&& added(q, sp, waiting, r.waiting, t.match_start)
    &&& r.accepted matches Some(a) ==> a.match_start == t.match_start
    &&& r.accepted is None ==> fresh_settled(q, sp, visited, r.visited, r.waiting)
}

/// The run of a thread that began at or before the limit, on top of kept
/// marks, adds to what the waiting threads prefer what the thread prefers:
/// the machine loses no way to `Accept`, and keeps the order of the
/// ways.
pub proof fn lemma_explore_value(
    q: Quest,
    sp: usize,
    t: ThreadState,
    waiting: Seq<ThreadState>,
    visited: Visited,
    d: nat,
)
    requires
        t.match_start <= q.limit,
        d <= q.bound,
        finite(q.code, q.input, sp, t, d),
        !finite(q.code, q.input, sp, t, (d - 1) as nat),
        kept(q, sp, visited, waiting, d),
    ensures
        run_gives(
            q,
            sp,
            t,
            waiting,
            visited,
            explore(q.code, q.input, sp, t, waiting, visited, d),
        ),
    decreases d,
{
    let code = q.code;
    let input = q.input;
    let r = explore(code, input, sp, t, waiting, visited, d);
    let less = (d - 1) as nat;
    lemma_finite_more(code, input, sp, t, d, q.bound);
    lemma_step_similar(code, input, sp, t, t);
    if seen(visited, t) {
        let bucket = visited[t.pc as int];
        let k = choose|k: int|
            0 <= k < bucket.len() && bucket[k] == capped(t.registers, visited.cap);
        let at = probe(t.pc as int as usize, visited[t.pc as int][k]);
        lemma_capped_twice(t.registers, visited.cap);
        lemma_first_similar(code, input, sp, at, t, d);
        lemma_first_similar(code, input, sp, at, t, q.bound);
        assert(settled(q, sp, at, waiting));
        assert(grown(visited, visited));
    } else {
        let v = marked(visited, t);
        lemma_marked_grown(visited, t);
        match step(code, input, sp, t) {
            Step::Die => {
                lemma_settle_own(q, sp, t, visited, waiting, waiting);
            },
            Step::Accept => {},
            Step::Consume(next) => {
                let more = waiting.push(next);
                if sp < input.len() && sp < usize::MAX {
                    lemma_finite_more(code, input, (sp + 1) as usize, next, less, q.bound);
                    lemma_finite_more(
                        code,
                        input,
                        (sp + 1) as usize,
                        next,
                        less,
                        (q.bound - 1) as nat,
                    );
                    assert(more.drop_last() =~= waiting);
                }
                assert(added(q, sp, waiting, more, t.match_start));
                lemma_settle_own(q, sp, t, visited, waiting, more);
            },
            Step::Continue(next) => {
                let depth = lemma_exact_depth(code, input, sp, next, less);
                lemma_kept_below(q, sp, t, visited, waiting, d, depth);
                lemma_explore_more(code, input, sp, next, waiting, v, depth, less);
                lemma_explore_value(q, sp, next, waiting, v, depth);
                lemma_finite_more(code, input, sp, next, less, q.bound);
                lemma_finite_more(code, input, sp, next, less, (q.bound - 1) as nat);
                let inner = explore(code, input, sp, next, waiting, v, less);
                lemma_grown_twice(visited, v, inner.visited);
                if inner.accepted is None {
                    lemma_settle_own(q, sp, t, visited, waiting, inner.waiting);
                    lemma_fresh_above(q, sp, t, visited, inner.visited, inner.waiting);
                }
            },
            Step::Split(one, two) => {
                lemma_finite_more(code, input, sp, one, less, q.bound);
                lemma_finite_more(code, input, sp, one, less, (q.bound - 1) as nat);
                lemma_finite_more(code, input, sp, two, less, q.bound);
                lemma_finite_more(code, input, sp, two, less, (q.bound - 1) as nat);
                let depth = lemma_exact_depth(code, input, sp, one, less);
                lemma_kept_below(q, sp, t, visited, waiting, d, depth);
                lemma_explore_more(code, input, sp, one, waiting, v, depth, less);
                lemma_explore_value(q, sp, one, waiting, v, depth);
                let left = explore(code, input, sp, one, waiting, v, less);
                lemma_grown_twice(visited, v, left.visited);
                if left.accepted is None {
                    let other = lemma_exact_depth(code, input, sp, two, less);
                    lemma_kept_below(q, sp, t, visited, waiting, d, other);
                    lemma_kept_after(q, sp, v, left.visited, waiting, left.waiting, other);
                    lemma_explore_more(
                        code,
                        input,
                        sp,
                        two,
                        left.waiting,
                        left.visited,
                        other,
                        less,
                    );
                    lemma_explore_value(q, sp, two, left.waiting, left.visited, other);
                    let right = explore(code, input, sp, two, left.waiting, left.visited, less);
                    lemma_grown_twice(visited, left.visited, right.visited);
                    lemma_grown_twice(v, left.visited, right.visited);
                    lemma_added_twice(
                        q,
                        sp,
                        waiting,
                        left.waiting,
                        right.waiting,
                        t.match_start,
                    );
                    if right.accepted is None {
                        lemma_fresh_twice(
                            q,
                            sp,
                            v,
                            left.visited,
                            right.visited,
                            left.waiting,
                            right.waiting,
                        );
                        lemma_settle_own(q, sp, t, visited, waiting, right.waiting);
                        lemma_fresh_above(q, sp, t, visited, right.visited, right.waiting);
                    }
                }
            },
        }
    }
}

/// The mark of a thread is settled once the waiting threads prefer what
/// they preferred before, or else what the thread prefers.
pub proof fn lemma_settle_own(
    q: Quest,
    sp: usize,
    t: ThreadState,
    visited: Visited,
    waiting: Seq<ThreadState>,
    longer: Seq<ThreadState>,
)
    requires
        visited.cap == cap_of(q.code),
        later(q, sp, longer) == or_else(
            later(q, sp, waiting),
            first(q.code, q.input, sp, t, q.bound),
        ),
    ensures
        settled(q, sp, probe(t.pc, capped(t.registers, visited.cap)), longer),
        fresh_settled(q, sp, visited, marked(visited, t), longer),
{
    let own = probe(t.pc, capped(t.registers, visited.cap));
    lemma_capped_twice(t.registers, visited.cap);
    lemma_first_similar(q.code, q.input, sp, own, t, q.bound);
    let v = marked(visited, t);
    assert forall|pc: int, k: int|
        0 <= pc < v.len() && pc < visited.len() && visited[pc].len() <= k
            < v[pc].len() implies settled(
        q,
        sp,
        probe(pc as usize, #[trigger] v[pc][k]),
        longer,
    ) by {
        assert(pc == t.pc);
        assert(v[pc][k] == capped(t.registers, visited.cap));
    }
}

/// The new marks after the run of a thread are settled: its own, and
/// those above its own.
pub proof fn lemma_fresh_above(
    q: Quest,
    sp: usize,
    t: ThreadState,
    visited: Visited,
    after: Visited,
    longer: Seq<ThreadState>,
)
    requires
        grown(after, marked(visited, t)),
        fresh_settled(q, sp, visited, marked(visited, t), longer),
        fresh_settled(q, sp, marked(visited, t), after, longer),
    ensures
        fresh_settled(q, sp, visited, after, longer),
{
    let v = marked(visited, t);
    assert forall|pc: int, k: int|
        0 <= pc < after.len() && pc < visited.len() && visited[pc].len() <= k
            < after[pc].len() implies settled(
        q,
        sp,
        probe(pc as usize, #[trigger] after[pc][k]),
        longer,
    ) by {
        if k < v[pc].len() {
            assert(after[pc][k] == v[pc][k]);
        }
    }
}

/// The new marks of two runs, one after the other, are settled.
pub proof fn lemma_fresh_twice(
    q: Quest,
    sp: usize,
    first: Visited,
    second: Visited,
    third: Visited,
    waiting: Seq<ThreadState>,
    longer: Seq<ThreadState>,
)
    requires
        grown(second, first),
        grown(third, second),
        fresh_settled(q, sp, first, second, waiting),
        fresh_settled(q, sp, second, third, longer),
        extends(longer, waiting),
    ensures
        fresh_settled(q, sp, first, third, longer),
{
    assert forall|pc: int, k: int|
        0 <= pc < third.len() && pc < first.len() && first[pc].len() <= k
            < third[pc].len() implies settled(
        q,
        sp,
        probe(pc as usize, #[trigger] third[pc][k]),
        longer,
    ) by {
        if k < second[pc].len() {
            assert(third[pc][k] == second[pc][k]);
            lemma_settled_extends(q, sp, probe(pc as usize, second[pc][k]), waiting, longer);
        }
    }
}

} // verus!
