//! The order of the threads of the machine: the thread that began its
//! match first runs first.

use crate::compile::Instruction;
use crate::paths::lemma_step_similar;
use crate::pike::{marked, run_position, seen, step, Step, ThreadState, Visited};
use vstd::prelude::*;

verus! {

/// Every thread of the list began at or before `bound`.
pub open spec fn starts_at_most(threads: Seq<ThreadState>, bound: int) -> bool {
    forall|i: int| 0 <= i < threads.len() ==> (#[trigger] threads[i]).match_start <= bound
}

/// The starts of the threads do not rise towards the end of the list: on
/// a stack, the thread that began first runs first.
pub open spec fn falling(stack: Seq<ThreadState>) -> bool {
    forall|i: int, j: int|
        0 <= i <= j < stack.len() ==> (#[trigger] stack[i]).match_start >= (
        #[trigger] stack[j]).match_start
}

/// The starts of the threads do not fall towards the end of the list.
pub open spec fn rising(waiting: Seq<ThreadState>) -> bool {
    forall|i: int, j: int|
        0 <= i <= j < waiting.len() ==> (#[trigger] waiting[i]).match_start <= (
        #[trigger] waiting[j]).match_start
}

/// Every thread of the first list began no later than any of the second.
pub open spec fn ahead(waiting: Seq<ThreadState>, stack: Seq<ThreadState>) -> bool {
    forall|i: int, j: int|
        0 <= i < waiting.len() && 0 <= j < stack.len() ==> (#[trigger] waiting[i]).match_start <= (
        #[trigger] stack[j]).match_start
}

/// The work at one position adds threads at the end of the waiting list
/// and changes nothing else in it.
pub proof fn lemma_position_keeps_waiting(
    code: Seq<Instruction>,
    input: Seq<char>,
    sp: usize,
    stack: Seq<ThreadState>,
    waiting: Seq<ThreadState>,
    visited: Visited,
    fuel: nat,
)
    ensures
        ({
            let result = run_position(code, input, sp, stack, waiting, visited, fuel);
            &&& result.waiting.len() >= waiting.len()
            &&& forall|i: int| 0 <= i < waiting.len() ==> #[trigger] result.waiting[i] == waiting[i]
        }),
    decreases fuel,
{
    if stack.len() > 0 && fuel > 0 {
        let t = stack.last();
        let rest = stack.drop_last();
        let less = (fuel - 1) as nat;
        if seen(visited, t) {
            lemma_position_keeps_waiting(code, input, sp, rest, waiting, visited, less);
        } else {
            let v = marked(visited, t);
            match step(code, input, sp, t) {
                Step::Die => {
                    lemma_position_keeps_waiting(code, input, sp, rest, waiting, v, less);
                },
                Step::Consume(next) => {
                    lemma_position_keeps_waiting(
                        code,
                        input,
                        sp,
                        rest,
                        waiting.push(next),
                        v,
                        less,
                    );
                    let result = run_position(code, input, sp, rest, waiting.push(next), v, less);
                    assert forall|i: int| 0 <= i < waiting.len() implies #[trigger] result.waiting[
                        i
                    ] == waiting[i] by {
                        assert(waiting.push(next)[i] == waiting[i]);
                    }
                },
                Step::Continue(next) => {
                    lemma_position_keeps_waiting(
                        code,
                        input,
                        sp,
                        rest.push(next),
                        waiting,
                        v,
                        less,
                    );
                },
                Step::Split(first, second) => {
                    lemma_position_keeps_waiting(
                        code,
                        input,
                        sp,
                        rest.push(second).push(first),
                        waiting,
                        v,
                        less,
                    );
                },
                Step::Accept => {},
            }
        }
    }
}

/// The work at one position brings up no thread that began after all the
/// threads it was given.
pub proof fn lemma_position_starts(
    code: Seq<Instruction>,
    input: Seq<char>,
    sp: usize,
    stack: Seq<ThreadState>,
    waiting: Seq<ThreadState>,
    visited: Visited,
    fuel: nat,
    bound: int,
)
    requires
        starts_at_most(stack, bound),
        starts_at_most(waiting, bound),
    ensures
        starts_at_most(run_position(code, input, sp, stack, waiting, visited, fuel).waiting, bound),
        run_position(code, input, sp, stack, waiting, visited, fuel).accepted matches Some(t)
            ==> t.match_start <= bound,
    decreases fuel,
{
    if stack.len() > 0 && fuel > 0 {
        let t = stack.last();
        let rest = stack.drop_last();
        let less = (fuel - 1) as nat;
        assert(stack[stack.len() - 1].match_start <= bound);
        assert forall|i: int| 0 <= i < rest.len() implies (#[trigger] rest[i]).match_start
            <= bound by {
            assert(rest[i] == stack[i]);
        }
        lemma_step_similar(code, input, sp, t, t);
        if seen(visited, t) {
            lemma_position_starts(code, input, sp, rest, waiting, visited, less, bound);
        } else {
            let v = marked(visited, t);
            match step(code, input, sp, t) {
                Step::Die => {
                    lemma_position_starts(code, input, sp, rest, waiting, v, less, bound);
                },
                Step::Consume(next) => {
                    lemma_position_starts(
                        code,
                        input,
                        sp,
                        rest,
                        waiting.push(next),
                        v,
                        less,
                        bound,
                    );
                },
                Step::Continue(next) => {
                    lemma_position_starts(
                        code,
                        input,
                        sp,
                        rest.push(next),
                        waiting,
                        v,
                        less,
                        bound,
                    );
                },
                Step::Split(first, second) => {
                    lemma_position_starts(
                        code,
                        input,
                        sp,
                        rest.push(second).push(first),
                        waiting,
                        v,
                        less,
                        bound,
                    );
                },
                Step::Accept => {},
            }
        }
    }
}

/// The work at one position keeps the threads in the order of their
/// starts: the waiting list stays rising, and a thread that accepts began
/// no earlier than any thread that waits.
pub proof fn lemma_position_order(
    code: Seq<Instruction>,
    input: Seq<char>,
    sp: usize,
    stack: Seq<ThreadState>,
    waiting: Seq<ThreadState>,
    visited: Visited,
    fuel: nat,
)
    requires
        falling(stack),
        rising(waiting),
        ahead(waiting, stack),
    ensures
        rising(run_position(code, input, sp, stack, waiting, visited, fuel).waiting),
        run_position(code, input, sp, stack, waiting, visited, fuel).accepted matches Some(t)
            ==> starts_at_most(
            run_position(code, input, sp, stack, waiting, visited, fuel).waiting,
            t.match_start as int,
        ),
    decreases fuel,
{
    if stack.len() > 0 && fuel > 0 {
        let t = stack.last();
        let rest = stack.drop_last();
        let less = (fuel - 1) as nat;
        let top = stack.len() - 1;
        assert(stack[top] == t);
        assert(falling(rest)) by {
            assert forall|i: int, j: int| 0 <= i <= j < rest.len() implies (
            #[trigger] rest[i]).match_start >= (#[trigger] rest[j]).match_start by {
                assert(rest[i] == stack[i] && rest[j] == stack[j]);
            }
        }
        assert(ahead(waiting, rest)) by {
            assert forall|i: int, j: int| 0 <= i < waiting.len() && 0 <= j < rest.len() implies (
            #[trigger] waiting[i]).match_start <= (#[trigger] rest[j]).match_start by {
                assert(rest[j] == stack[j]);
            }
        }
        // every thread below the top began no earlier than the top
        assert forall|j: int| 0 <= j < rest.len() implies t.match_start <= (
        #[trigger] rest[j]).match_start by {
            assert(rest[j] == stack[j]);
            assert(stack[j].match_start >= stack[top].match_start);
        }
        assert forall|i: int| 0 <= i < waiting.len() implies (#[trigger] waiting[i]).match_start
            <= t.match_start by {
            assert(waiting[i].match_start <= stack[top].match_start);
        }
        lemma_step_similar(code, input, sp, t, t);
        if seen(visited, t) {
            lemma_position_order(code, input, sp, rest, waiting, visited, less);
        } else {
            let v = marked(visited, t);
            match step(code, input, sp, t) {
                Step::Die => {
                    lemma_position_order(code, input, sp, rest, waiting, v, less);
                },
                Step::Consume(next) => {
                    let more = waiting.push(next);
                    assert(rising(more)) by {
                        assert forall|i: int, j: int| 0 <= i <= j < more.len() implies (
                        #[trigger] more[i]).match_start <= (#[trigger] more[j]).match_start by {
                            if j < waiting.len() {
                                assert(more[i] == waiting[i] && more[j] == waiting[j]);
                            } else if i < waiting.len() {
                                assert(more[i] == waiting[i]);
                            }
                        }
                    }
                    assert(ahead(more, rest)) by {
                        assert forall|i: int, j: int|
                            0 <= i < more.len() && 0 <= j < rest.len() implies (
                        #[trigger] more[i]).match_start <= (#[trigger] rest[j]).match_start by {
                            if i < waiting.len() {
                                assert(more[i] == waiting[i]);
                            }
                        }
                    }
                    lemma_position_order(code, input, sp, rest, more, v, less);
                },
                Step::Continue(next) => {
                    let pushed = rest.push(next);
                    assert(falling(pushed)) by {
                        assert forall|i: int, j: int| 0 <= i <= j < pushed.len() implies (
                        #[trigger] pushed[i]).match_start >= (#[trigger] pushed[j]).match_start by {
                            if j < rest.len() {
                                assert(pushed[i] == rest[i] && pushed[j] == rest[j]);
                            } else if i < rest.len() {
                                assert(pushed[i] == rest[i]);
                            }
                        }
                    }
                    assert(ahead(waiting, pushed)) by {
                        assert forall|i: int, j: int|
                            0 <= i < waiting.len() && 0 <= j < pushed.len() implies (
                        #[trigger] waiting[i]).match_start <= (
                        #[trigger] pushed[j]).match_start by {
                            if j < rest.len() {
                                assert(pushed[j] == rest[j]);
                            }
                        }
                    }
                    lemma_position_order(code, input, sp, pushed, waiting, v, less);
                },
                Step::Split(first, second) => {
                    let pushed = rest.push(second).push(first);
                    assert(falling(pushed)) by {
                        assert forall|i: int, j: int| 0 <= i <= j < pushed.len() implies (
                        #[trigger] pushed[i]).match_start >= (#[trigger] pushed[j]).match_start by {
                            if j < rest.len() {
                                assert(pushed[i] == rest[i] && pushed[j] == rest[j]);
                            } else if i < rest.len() {
                                assert(pushed[i] == rest[i]);
                            }
                        }
                    }
                    assert(ahead(waiting, pushed)) by {
                        assert forall|i: int, j: int|
                            0 <= i < waiting.len() && 0 <= j < pushed.len() implies (
                        #[trigger] waiting[i]).match_start <= (
                        #[trigger] pushed[j]).match_start by {
                            if j < rest.len() {
                                assert(pushed[j] == rest[j]);
                            }
                        }
                    }
                    lemma_position_order(code, input, sp, pushed, waiting, v, less);
                },
                Step::Accept => {},
            }
        }
    }
}

} // verus!
