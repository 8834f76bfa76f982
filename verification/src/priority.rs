//! The priorities of a program, as a backtracking search sees them: at a
//! `Fork`, the first target is tried to its end before the second. The
//! machine runs the thread on top of its stack in the same order.

use crate::compile::Instruction;
use crate::leftmost::{lemma_run_position_unfold, position_spent};
use crate::paths::{accepts, lemma_step_similar, similar};
use crate::pike::{
    marked, run_position, seen, step, PositionResult, Step, ThreadState, Visited,
};
use vstd::prelude::*;

verus! {

/// The first of two results that is there.
pub open spec fn or_else<T>(a: Option<T>, b: Option<T>) -> Option<T> {
    match a {
        Some(_) => a,
        None => b,
    }
}

/// The way to `Accept` that a thread prefers: where it ends and the
/// thread that accepts. At a `Fork` the first target is tried to its end
/// before the second, as a backtracking search would; `n` bounds the
/// number of instructions on each way.
pub open spec fn first(
    code: Seq<Instruction>,
    input: Seq<char>,
    sp: usize,
    t: ThreadState,
    n: nat,
) -> Option<(usize, ThreadState)>
    decreases n,
{
    if n == 0 {
        None
    } else {
        let less = (n - 1) as nat;
        match step(code, input, sp, t) {
            Step::Die => None,
            Step::Accept => Some((sp, t)),
            Step::Consume(next) => if sp < input.len() && sp < usize::MAX {
                first(code, input, (sp + 1) as usize, next, less)
            } else {
                None
            },
            Step::Continue(next) => first(code, input, sp, next, less),
            Step::Split(one, two) => or_else(
                first(code, input, sp, one, less),
                first(code, input, sp, two, less),
            ),
        }
    }
}

/// Whether every way of a thread ends, in `Accept`, in death or at the
/// end of the input, within `n` instructions.
pub open spec fn finite(
    code: Seq<Instruction>,
    input: Seq<char>,
    sp: usize,
    t: ThreadState,
    n: nat,
) -> bool
    decreases n,
{
    n > 0 && {
        let less = (n - 1) as nat;
        match step(code, input, sp, t) {
            Step::Consume(next) => sp < input.len() && sp < usize::MAX ==> finite(
                code,
                input,
                (sp + 1) as usize,
                next,
                less,
            ),
            Step::Continue(next) => finite(code, input, sp, next, less),
            Step::Split(one, two) => finite(code, input, sp, one, less) && finite(
                code,
                input,
                sp,
                two,
                less,
            ),
            _ => true,
        }
    }
}

/// A thread whose ways end within `n` instructions has them end within
/// any larger number, and prefers the same way.
pub proof fn lemma_finite_more(
    code: Seq<Instruction>,
    input: Seq<char>,
    sp: usize,
    t: ThreadState,
    n: nat,
    more: nat,
)
    requires
        finite(code, input, sp, t, n),
        n <= more,
    ensures
        finite(code, input, sp, t, more),
        first(code, input, sp, t, more) == first(code, input, sp, t, n),
    decreases n,
{
    let less = (n - 1) as nat;
    let fewer = (more - 1) as nat;
    match step(code, input, sp, t) {
        Step::Consume(next) => {
            if sp < input.len() && sp < usize::MAX {
                lemma_finite_more(code, input, (sp + 1) as usize, next, less, fewer);
            }
        },
        Step::Continue(next) => {
            lemma_finite_more(code, input, sp, next, less, fewer);
        },
        Step::Split(one, two) => {
            lemma_finite_more(code, input, sp, one, less, fewer);
            lemma_finite_more(code, input, sp, two, less, fewer);
        },
        _ => {},
    }
}

/// Whether the ways of a thread end, and whether one of them ends in
/// `Accept`, depends on its program counter and on its counters, as far as
/// the program can tell them apart.
pub proof fn lemma_first_similar(
    code: Seq<Instruction>,
    input: Seq<char>,
    sp: usize,
    a: ThreadState,
    b: ThreadState,
    n: nat,
)
    requires
        similar(code, a, b),
    ensures
        finite(code, input, sp, a, n) == finite(code, input, sp, b, n),
        first(code, input, sp, a, n) is Some == first(code, input, sp, b, n) is Some,
    decreases n,
{
    if n > 0 {
        lemma_step_similar(code, input, sp, a, b);
        let less = (n - 1) as nat;
        match (step(code, input, sp, a), step(code, input, sp, b)) {
            (Step::Consume(x), Step::Consume(y)) => {
                if sp < input.len() && sp < usize::MAX {
                    lemma_first_similar(code, input, (sp + 1) as usize, x, y, less);
                }
            },
            (Step::Continue(x), Step::Continue(y)) => {
                lemma_first_similar(code, input, sp, x, y, less);
            },
            (Step::Split(x1, x2), Step::Split(y1, y2)) => {
                lemma_first_similar(code, input, sp, x1, y1, less);
                lemma_first_similar(code, input, sp, x2, y2, less);
            },
            _ => {},
        }
    }
}

/// The least number of instructions within which the ways of a thread
/// end.
pub proof fn lemma_exact_depth(
    code: Seq<Instruction>,
    input: Seq<char>,
    sp: usize,
    t: ThreadState,
    n: nat,
) -> (d: nat)
    requires
        finite(code, input, sp, t, n),
    ensures
        0 < d <= n,
        finite(code, input, sp, t, d),
        !finite(code, input, sp, t, (d - 1) as nat),
    decreases n,
{
    if finite(code, input, sp, t, (n - 1) as nat) {
        lemma_exact_depth(code, input, sp, t, (n - 1) as nat)
    } else {
        n
    }
}

/// How the run of one thread and of all that it splits off ends at a
/// position: the waiting list and the marks after it, the thread that
/// accepted, if one did, and the number of instructions run.
pub ghost struct Exploration {
    pub waiting: Seq<ThreadState>,
    pub visited: Visited,
    pub accepted: Option<ThreadState>,
    pub steps: nat,
}

/// The run of one thread and of all that it splits off at a position,
/// the first target of each `Fork` before the second, up to the first
/// `Accept`.
pub open spec fn explore(
    code: Seq<Instruction>,
    input: Seq<char>,
    sp: usize,
    t: ThreadState,
    waiting: Seq<ThreadState>,
    visited: Visited,
    n: nat,
) -> Exploration
    decreases n,
{
    if seen(visited, t) || n == 0 {
        Exploration { waiting, visited, accepted: None, steps: 1 }
    } else {
        let less = (n - 1) as nat;
        let v = marked(visited, t);
        match step(code, input, sp, t) {
            Step::Die => Exploration { waiting, visited: v, accepted: None, steps: 1 },
            Step::Accept => Exploration { waiting, visited: v, accepted: Some(t), steps: 1 },
            Step::Consume(next) => Exploration {
                waiting: waiting.push(next),
                visited: v,
                accepted: None,
                steps: 1,
            },
            Step::Continue(next) => {
                let r = explore(code, input, sp, next, waiting, v, less);
                Exploration { steps: r.steps + 1, ..r }
            },
            Step::Split(one, two) => {
                let r = explore(code, input, sp, one, waiting, v, less);
                if r.accepted is Some {
                    Exploration { steps: r.steps + 1, ..r }
                } else {
                    let s = explore(code, input, sp, two, r.waiting, r.visited, less);
                    Exploration { steps: r.steps + s.steps + 1, ..s }
                }
            },
        }
    }
}

/// The run of a thread whose ways end within `n` instructions is the
/// same for any larger number.
pub proof fn lemma_explore_more(
    code: Seq<Instruction>,
    input: Seq<char>,
    sp: usize,
    t: ThreadState,
    waiting: Seq<ThreadState>,
    visited: Visited,
    n: nat,
    more: nat,
)
    requires
        finite(code, input, sp, t, n),
        n <= more,
    ensures
        explore(code, input, sp, t, waiting, visited, more) == explore(
            code,
            input,
            sp,
            t,
            waiting,
            visited,
            n,
        ),
    decreases n,
{
    if !seen(visited, t) {
        let less = (n - 1) as nat;
        let fewer = (more - 1) as nat;
        let v = marked(visited, t);
        match step(code, input, sp, t) {
            Step::Continue(next) => {
                lemma_explore_more(code, input, sp, next, waiting, v, less, fewer);
            },
            Step::Split(one, two) => {
                lemma_explore_more(code, input, sp, one, waiting, v, less, fewer);
                let r = explore(code, input, sp, one, waiting, v, less);
                lemma_explore_more(code, input, sp, two, r.waiting, r.visited, less, fewer);
            },
            _ => {},
        }
    }
}

/// The machine runs the thread on top of the stack, and all that it
/// splits off, before the threads below: the work at a position is the
/// run of the thread on top, followed, unless it ends in `Accept`, by the
/// work on the rest of the stack.
pub proof fn lemma_machine_explores(
    code: Seq<Instruction>,
    input: Seq<char>,
    sp: usize,
    stack: Seq<ThreadState>,
    t: ThreadState,
    waiting: Seq<ThreadState>,
    visited: Visited,
    fuel: nat,
    n: nat,
)
    requires
        finite(code, input, sp, t, n),
        !position_spent(code, input, sp, stack.push(t), waiting, visited, fuel),
    ensures
        ({
            let r = explore(code, input, sp, t, waiting, visited, n);
            &&& r.steps <= fuel
            &&& run_position(code, input, sp, stack.push(t), waiting, visited, fuel)
                == if r.accepted is Some {
                PositionResult { waiting: r.waiting, accepted: r.accepted }
            } else {
                run_position(code, input, sp, stack, r.waiting, r.visited, (fuel - r.steps) as nat)
            }
            &&& r.accepted is None ==> !position_spent(
                code,
                input,
                sp,
                stack,
                r.waiting,
                r.visited,
                (fuel - r.steps) as nat,
            )
        }),
    decreases n,
{
    let all = stack.push(t);
    assert(all.last() == t);
    assert(all.drop_last() =~= stack);
    lemma_run_position_unfold(code, input, sp, all, waiting, visited, fuel);
    if !seen(visited, t) {
        let less = (n - 1) as nat;
        let v = marked(visited, t);
        let spare = (fuel - 1) as nat;
        match step(code, input, sp, t) {
            Step::Continue(next) => {
                lemma_machine_explores(code, input, sp, stack, next, waiting, v, spare, less);
            },
            Step::Split(one, two) => {
                lemma_machine_explores(
                    code,
                    input,
                    sp,
                    stack.push(two),
                    one,
                    waiting,
                    v,
                    spare,
                    less,
                );
                let r = explore(code, input, sp, one, waiting, v, less);
                if r.accepted is None {
                    lemma_machine_explores(
                        code,
                        input,
                        sp,
                        stack,
                        two,
                        r.waiting,
                        r.visited,
                        (spare - r.steps) as nat,
                        less,
                    );
                }
            },
            _ => {},
        }
    }
}

/// The way that a thread prefers is a way to `Accept`.
pub proof fn lemma_first_accepts(
    code: Seq<Instruction>,
    input: Seq<char>,
    sp: usize,
    t: ThreadState,
    n: nat,
)
    requires
        first(code, input, sp, t, n) is Some,
    ensures
        ({
            let way = first(code, input, sp, t, n)->Some_0;
            accepts(code, input, sp, t, n, way.0)
        }),
    decreases n,
{
    let less = (n - 1) as nat;
    match step(code, input, sp, t) {
        Step::Consume(next) => {
            lemma_first_accepts(code, input, (sp + 1) as usize, next, less);
        },
        Step::Continue(next) => {
            lemma_first_accepts(code, input, sp, next, less);
        },
        Step::Split(one, two) => {
            if first(code, input, sp, one, less) is Some {
                lemma_first_accepts(code, input, sp, one, less);
            } else {
                lemma_first_accepts(code, input, sp, two, less);
            }
        },
        _ => {},
    }
}

/// A thread with a way to `Accept`, whose ways end within `n`
/// instructions, prefers a way.
pub proof fn lemma_accepts_first(
    code: Seq<Instruction>,
    input: Seq<char>,
    sp: usize,
    t: ThreadState,
    m: nat,
    end: usize,
    n: nat,
)
    requires
        accepts(code, input, sp, t, m, end),
        finite(code, input, sp, t, n),
    ensures
        first(code, input, sp, t, n) is Some,
    decreases n,
{
    let less = (n - 1) as nat;
    let fewer = (m - 1) as nat;
    match step(code, input, sp, t) {
        Step::Consume(next) => {
            lemma_accepts_first(code, input, (sp + 1) as usize, next, fewer, end, less);
        },
        Step::Continue(next) => {
            lemma_accepts_first(code, input, sp, next, fewer, end, less);
        },
        Step::Split(one, two) => {
            if accepts(code, input, sp, one, fewer, end) {
                lemma_accepts_first(code, input, sp, one, fewer, end, less);
            } else {
                lemma_accepts_first(code, input, sp, two, fewer, end, less);
            }
        },
        _ => {},
    }
}

} // verus!
