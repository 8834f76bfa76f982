//! The matching machine. It runs all threads of a program in step with the
//! input, one symbol at a time, in the order of their priority, and never
//! goes back in the input.

use crate::bounds::{lemma_match_well_spanned, well_spanned};
use crate::budget::lemma_budget_suffices;
use crate::choice::{lemma_found_is_preferred, preferred};
use crate::compile::{count_registers, max_register, register_count, Instruction};
use crate::counting::power;
use crate::leftmost::{
    leftmost, lemma_found_is_leftmost, lemma_run_from_unfold, position_of_run, position_spent,
    recorded_after, run_spent, seeded,
};
use crate::matcher::Match;
use crate::paths::is_match;
use crate::text::chars_of;
use vstd::prelude::*;

verus! {

/// The number of capture slots that a thread carries. Groups with an index
/// of `CAPTURE_SLOTS` or more are not recorded.
pub const CAPTURE_SLOTS: usize = 10;

/// The symbol that stands behind the last symbol of every input.
pub const TERMINATOR: char = '\u{3}';

/// Whether a code point is a word symbol: a letter of `a-z` or `A-Z`, a
/// digit, or `_`.
pub open spec fn is_word(c: char) -> bool {
    ||| 'a' <= c <= 'z'
    ||| 'A' <= c <= 'Z'
    ||| '0' <= c <= '9'
    ||| c == '_'
}

/// Whether a code point is a word symbol.
pub fn is_word_char(c: char) -> (word: bool)
    ensures
        word == is_word(c),
{
    (c >= 'a' && c <= 'z') || (c >= 'A' && c <= 'Z') || (c >= '0' && c <= '9') || c == '_'
}

/// The symbol at a position: that of the input, and the terminator behind
/// its end.
pub open spec fn symbol_at(input: Seq<char>, sp: int) -> char {
    if 0 <= sp < input.len() {
        input[sp]
    } else {
        TERMINATOR
    }
}

/// Whether a word symbol stands just before the position.
pub open spec fn word_before(input: Seq<char>, sp: int) -> bool {
    0 < sp <= input.len() && is_word(input[sp - 1])
}

/// Whether the position lies between a word symbol and a symbol that is
/// none, on either side.
pub open spec fn at_word_boundary(input: Seq<char>, sp: int) -> bool {
    word_before(input, sp) != is_word(symbol_at(input, sp))
}

/// The number that an instruction compares a counter with, if it compares
/// one.
pub open spec fn compared_with(instruction: Instruction) -> Option<usize> {
    match instruction {
        Instruction::ConditionalJumpEq(_, value, _) => Some(value),
        Instruction::ConditionalJumpLE(_, value, _) => Some(value),
        _ => None,
    }
}

/// The largest number that the program compares a counter with, 0 if it
/// compares none.
pub open spec fn largest_count(code: Seq<Instruction>) -> nat
    decreases code.len(),
{
    if code.len() == 0 {
        0
    } else {
        let before = largest_count(code.drop_last());
        match compared_with(code.last()) {
            Some(value) => if value > before {
                value as nat
            } else {
                before
            },
            None => before,
        }
    }
}

/// The number above which the program cannot tell one count from another:
/// one more than the largest number that it compares a counter with.
pub open spec fn cap_of(code: Seq<Instruction>) -> usize {
    if largest_count(code) >= usize::MAX {
        usize::MAX
    } else {
        (largest_count(code) + 1) as usize
    }
}

/// The number of states that the program can tell apart at one input
/// position: a state is an instruction and a list of counters, none of
/// them above the cap.
pub open spec fn state_bound(code: Seq<Instruction>) -> nat {
    code.len() * power((cap_of(code) + 1) as nat, register_count(code))
}

/// The number of instructions that the work at one input position is
/// given as fuel: a function of the program alone. It is enough to run
/// every state of the program, with the threads that marks let die, so
/// that the work never spends it.
pub open spec fn step_budget(code: Seq<Instruction>) -> nat {
    3 * state_bound(code) + 2
}

/// One path of the machine through the program: where it stands, where its
/// match began, the spans of the groups it has passed, and its counters.
pub ghost struct ThreadState {
    pub pc: usize,
    pub match_start: usize,
    pub captures: Seq<Option<Match>>,
    pub registers: Seq<usize>,
}

impl ThreadState {
    /// The same thread at another instruction.
    pub open spec fn at(self, pc: usize) -> ThreadState {
        ThreadState { pc, ..self }
    }

    /// The same thread at the following instruction.
    pub open spec fn advanced(self) -> ThreadState {
        self.at((self.pc + 1) as usize)
    }

    /// The thread after `SaveStart(group)` at `sp`: the group, if it has a
    /// slot, is the empty span at `sp`.
    pub open spec fn group_started(self, group: usize, sp: usize) -> ThreadState {
        if group < self.captures.len() {
            ThreadState {
                captures: self.captures.update(group as int, Some(Match { start: sp, end: sp })),
                ..self
            }
        } else {
            self
        }
    }

    /// The thread after `SaveEnd(group)` at `sp`: the group, if it has a
    /// slot and has started, ends at `sp`.
    pub open spec fn group_ended(self, group: usize, sp: usize) -> ThreadState {
        if group < self.captures.len() && self.captures[group as int] is Some {
            ThreadState {
                captures: self.captures.update(
                    group as int,
                    Some(Match { start: self.captures[group as int]->0.start, end: sp }),
                ),
                ..self
            }
        } else {
            self
        }
    }

    /// The thread after `Increment(register)`; a counter at `usize::MAX`
    /// stays there.
    pub open spec fn incremented(self, register: usize) -> ThreadState {
        ThreadState {
            registers: self.registers.update(
                register as int,
                if self.registers[register as int] == usize::MAX {
                    usize::MAX
                } else {
                    (self.registers[register as int] + 1) as usize
                },
            ),
            ..self
        }
    }
}

/// The thread that starts a match attempt at `sp`: at the first
/// instruction, with no group recorded and all `registers` counters zero.
pub open spec fn fresh_thread(sp: usize, registers: nat) -> ThreadState {
    ThreadState {
        pc: 0,
        match_start: sp,
        captures: Seq::new(CAPTURE_SLOTS as nat, |i: int| None::<Match>),
        registers: Seq::new(registers, |i: int| 0usize),
    }
}

/// What one instruction does to the thread that runs it.
pub ghost enum Step {
    /// The thread ends without a match.
    Die,
    /// The thread took the symbol at this position; it goes on, as given,
    /// at the next position.
    Consume(ThreadState),
    /// The thread goes on, as given, at this position.
    Continue(ThreadState),
    /// The thread splits in two; the first has priority.
    Split(ThreadState, ThreadState),
    /// The thread has found a match that ends at this position.
    Accept,
}

/// What the instruction at the thread's program counter does at position
/// `sp` of the input. A thread whose program counter lies outside the
/// program dies, and so does one that refers to a counter it does not have.
pub open spec fn step(code: Seq<Instruction>, input: Seq<char>, sp: usize, t: ThreadState) -> Step {
    if t.pc >= code.len() {
        Step::Die
    } else {
        let c = symbol_at(input, sp as int);
        match code[t.pc as int] {
            Instruction::Char(ch) => if c == ch {
                Step::Consume(t.advanced())
            } else {
                Step::Die
            },
            Instruction::Any => Step::Consume(t.advanced()),
            Instruction::Range(lo, hi) => if lo <= c <= hi {
                Step::Consume(t.advanced())
            } else {
                Step::Die
            },
            Instruction::Fork(first, second) => Step::Split(t.at(first), t.at(second)),
            Instruction::Jump(target) => Step::Continue(t.at(target)),
            Instruction::ConditionalJumpEq(register, value, target) => if register
                >= t.registers.len() {
                Step::Die
            } else if t.registers[register as int] == value {
                Step::Continue(t.at(target))
            } else {
                Step::Continue(t.advanced())
            },
            Instruction::ConditionalJumpLE(register, value, target) => if register
                >= t.registers.len() {
                Step::Die
            } else if t.registers[register as int] < value {
                Step::Continue(t.at(target))
            } else {
                Step::Continue(t.advanced())
            },
            Instruction::Increment(register) => if register >= t.registers.len() {
                Step::Die
            } else {
                Step::Continue(t.incremented(register).advanced())
            },
            Instruction::SaveStart(group) => Step::Continue(t.group_started(group, sp).advanced()),
            Instruction::SaveEnd(group) => Step::Continue(t.group_ended(group, sp).advanced()),
            Instruction::AssertStart => if sp == 0 {
                Step::Continue(t.advanced())
            } else {
                Step::Die
            },
            Instruction::AssertEnd => if sp == input.len() {
                Step::Continue(t.advanced())
            } else {
                Step::Die
            },
            Instruction::AssertWordBoundary => if at_word_boundary(input, sp as int) {
                Step::Continue(t.advanced())
            } else {
                Step::Die
            },
            Instruction::AssertNonWordBoundary => if at_word_boundary(input, sp as int) {
                Step::Die
            } else {
                Step::Continue(t.advanced())
            },
            Instruction::Accept => Step::Accept,
        }
    }
}

/// How the work at one input position ends: the threads that wait for the
/// next position, in order of priority, and the thread that accepted, if
/// one did.
pub ghost struct PositionResult {
    pub waiting: Seq<ThreadState>,
    pub accepted: Option<ThreadState>,
}

/// The counters, each one no larger than `cap`.
pub open spec fn capped(registers: Seq<usize>, cap: usize) -> Seq<usize> {
    Seq::new(
        registers.len(),
        |i: int|
            if registers[i] < cap {
                registers[i]
            } else {
                cap
            },
    )
}

/// The marks of one input position: for each instruction, the counters
/// with which threads have run it, each counter no larger than `cap`.
pub ghost struct Visited {
    pub cap: usize,
    pub marks: Seq<Seq<Seq<usize>>>,
}

impl Visited {
    /// The number of instructions that can be marked.
    pub open spec fn len(self) -> nat {
        self.marks.len()
    }

    /// The marks of the instruction at `pc`.
    #[verifier::inline]
    pub open spec fn spec_index(self, pc: int) -> Seq<Seq<usize>> {
        self.marks[pc]
    }
}

/// No instruction of the program has been run.
pub open spec fn unvisited(code: Seq<Instruction>) -> Visited {
    Visited {
        cap: cap_of(code),
        marks: Seq::new(code.len(), |i: int| Seq::<Seq<usize>>::empty()),
    }
}

/// Whether a thread with the same program counter and the same counters,
/// as far as the program can tell them apart, has run at this position
/// before.
pub open spec fn seen(visited: Visited, t: ThreadState) -> bool {
    t.pc < visited.len() && visited[t.pc as int].contains(capped(t.registers, visited.cap))
}

/// `visited` with the program counter and the counters of the thread.
pub open spec fn marked(visited: Visited, t: ThreadState) -> Visited {
    if t.pc < visited.len() {
        Visited {
            marks: visited.marks.update(
                t.pc as int,
                visited[t.pc as int].push(capped(t.registers, visited.cap)),
            ),
            ..visited
        }
    } else {
        visited
    }
}

/// The work at one input position. `stack` holds the threads still to run,
/// the last one first; `waiting` those that have taken the symbol. A
/// thread that stands where a thread with the same counters has stood at
/// this position dies: it could only repeat what that thread did, with
/// lower priority. Counters above every number that the program compares
/// them with count as the same. Each instruction costs one unit of `fuel`. The work
/// ends when a thread accepts, when no thread is left, or when the fuel is
/// spent; the threads still on the stack are then dropped.
pub open spec fn run_position(
    code: Seq<Instruction>,
    input: Seq<char>,
    sp: usize,
    stack: Seq<ThreadState>,
    waiting: Seq<ThreadState>,
    visited: Visited,
    fuel: nat,
) -> PositionResult
    decreases fuel,
{
    if stack.len() == 0 || fuel == 0 {
        PositionResult { waiting, accepted: None }
    } else {
        let t = stack.last();
        let rest = stack.drop_last();
        let less = (fuel - 1) as nat;
        if seen(visited, t) {
            run_position(code, input, sp, rest, waiting, visited, less)
        } else {
            let visited = marked(visited, t);
            match step(code, input, sp, t) {
                Step::Die => run_position(code, input, sp, rest, waiting, visited, less),
                Step::Consume(next) => run_position(
                    code,
                    input,
                    sp,
                    rest,
                    waiting.push(next),
                    visited,
                    less,
                ),
                Step::Continue(next) => run_position(
                    code,
                    input,
                    sp,
                    rest.push(next),
                    waiting,
                    visited,
                    less,
                ),
                Step::Split(first, second) => run_position(
                    code,
                    input,
                    sp,
                    rest.push(second).push(first),
                    waiting,
                    visited,
                    less,
                ),
                Step::Accept => PositionResult { waiting, accepted: Some(t) },
            }
        }
    }
}

/// The spans in the slots that are filled, in the order of the slots.
pub open spec fn present(captures: Seq<Option<Match>>) -> Seq<Match>
    decreases captures.len(),
{
    if captures.len() == 0 {
        Seq::empty()
    } else {
        match captures.last() {
            Some(m) => present(captures.drop_last()).push(m),
            None => present(captures.drop_last()),
        }
    }
}

/// What a thread that accepts at `sp` reports: the span of the whole
/// match, then the spans of the groups it recorded.
pub open spec fn match_record(t: ThreadState, sp: usize) -> Seq<Match> {
    seq![Match { start: t.match_start, end: sp }] + present(t.captures)
}

/// The run of the machine from position `sp` on, with the threads that
/// wait for it and the match recorded so far. While no match is recorded,
/// each position adds a fresh thread with the lowest priority. A thread
/// that accepts replaces the recorded match.
pub open spec fn run_from(
    code: Seq<Instruction>,
    input: Seq<char>,
    sp: usize,
    waiting: Seq<ThreadState>,
    matched: Option<Seq<Match>>,
) -> Option<Seq<Match>>
    decreases input.len() - sp,
{
    let seeded = if matched is None {
        waiting.push(fresh_thread(sp, register_count(code)))
    } else {
        waiting
    };
    let result = run_position(
        code,
        input,
        sp,
        seeded.reverse(),
        Seq::empty(),
        unvisited(code),
        step_budget(code),
    );
    let recorded = match result.accepted {
        Some(t) => Some(match_record(t, sp)),
        None => matched,
    };
    if sp >= input.len() || sp >= usize::MAX {
        recorded
    } else {
        run_from(code, input, (sp + 1) as usize, result.waiting, recorded)
    }
}

/// What the machine finds when it runs `code` on `input`: nothing, or the
/// span of the match followed by the spans of its groups.
pub open spec fn find_match(code: Seq<Instruction>, input: Seq<char>) -> Option<Seq<Match>> {
    run_from(code, input, 0, Seq::empty(), None)
}

/// Running the thread on top of the stack for one instruction.
pub proof fn lemma_run_position_step(
    code: Seq<Instruction>,
    input: Seq<char>,
    sp: usize,
    stack: Seq<ThreadState>,
    t: ThreadState,
    waiting: Seq<ThreadState>,
    visited: Visited,
    fuel: nat,
)
    requires
        fuel > 0,
    ensures
        run_position(code, input, sp, stack.push(t), waiting, visited, fuel) == if seen(
            visited,
            t,
        ) {
            run_position(code, input, sp, stack, waiting, visited, (fuel - 1) as nat)
        } else {
            match step(code, input, sp, t) {
                Step::Die => run_position(
                    code,
                    input,
                    sp,
                    stack,
                    waiting,
                    marked(visited, t),
                    (fuel - 1) as nat,
                ),
                Step::Consume(next) => run_position(
                    code,
                    input,
                    sp,
                    stack,
                    waiting.push(next),
                    marked(visited, t),
                    (fuel - 1) as nat,
                ),
                Step::Continue(next) => run_position(
                    code,
                    input,
                    sp,
                    stack.push(next),
                    waiting,
                    marked(visited, t),
                    (fuel - 1) as nat,
                ),
                Step::Split(first, second) => run_position(
                    code,
                    input,
                    sp,
                    stack.push(second).push(first),
                    waiting,
                    marked(visited, t),
                    (fuel - 1) as nat,
                ),
                Step::Accept => PositionResult { waiting, accepted: Some(t) },
            }
        },
{
    assert(stack.push(t).drop_last() =~= stack);
    assert(stack.push(t).last() == t);
}

/// How the run of one thread ends at a position.
pub ghost enum ThreadEnd {
    /// The thread died: its instruction let it die, it stood outside the
    /// program, or it stood where a marked thread had stood.
    Dies,
    /// The thread took the symbol; it waits, as given, for the next
    /// position.
    Waits(ThreadState),
    /// The thread, as given, came to `Accept`.
    Accepts(ThreadState),
    /// The fuel ran out before the thread came to an end. The machine
    /// never comes to this: its fuel is enough for all threads.
    Spent,
}

/// What the run of one thread leaves behind: the stack, with the threads
/// that it split off on top, the marks, the fuel, and how it ended.
pub ghost struct ThreadRun {
    pub stack: Seq<ThreadState>,
    pub visited: Visited,
    pub fuel: nat,
    pub end: ThreadEnd,
}

/// The run of one thread at a position until it takes the symbol, dies or
/// accepts. Each instruction is marked and costs one unit of fuel; at a
/// `Fork` the thread goes on at the first target, and a thread for the
/// second target goes on the stack. A thread that stands where a thread
/// with the same counters has stood at this position dies without running
/// an instruction: this is how the machine keeps from running one state
/// twice.
pub open spec fn thread_run(
    code: Seq<Instruction>,
    input: Seq<char>,
    sp: usize,
    t: ThreadState,
    stack: Seq<ThreadState>,
    visited: Visited,
    fuel: nat,
) -> ThreadRun
    decreases fuel,
{
    if fuel == 0 {
        ThreadRun { stack, visited, fuel, end: ThreadEnd::Spent }
    } else {
        let less = (fuel - 1) as nat;
        if seen(visited, t) {
            ThreadRun { stack, visited, fuel: less, end: ThreadEnd::Dies }
        } else {
            let v = marked(visited, t);
            match step(code, input, sp, t) {
                Step::Die => ThreadRun { stack, visited: v, fuel: less, end: ThreadEnd::Dies },
                Step::Consume(next) => ThreadRun {
                    stack,
                    visited: v,
                    fuel: less,
                    end: ThreadEnd::Waits(next),
                },
                Step::Continue(next) => thread_run(code, input, sp, next, stack, v, less),
                Step::Split(first, second) => thread_run(
                    code,
                    input,
                    sp,
                    first,
                    stack.push(second),
                    v,
                    less,
                ),
                Step::Accept => ThreadRun {
                    stack,
                    visited: v,
                    fuel: less,
                    end: ThreadEnd::Accepts(t),
                },
            }
        }
    }
}

/// The waiting list after the run of one thread: with the thread at its
/// end, if it took the symbol.
pub open spec fn waiting_after(waiting: Seq<ThreadState>, end: ThreadEnd) -> Seq<ThreadState> {
    match end {
        ThreadEnd::Waits(next) => waiting.push(next),
        _ => waiting,
    }
}

/// The match recorded after the run of one thread at `sp`: the report of
/// the thread, if it accepted.
pub open spec fn recorded_with(
    recorded: Option<Seq<Match>>,
    end: ThreadEnd,
    sp: usize,
) -> Option<Seq<Match>> {
    match end {
        ThreadEnd::Accepts(t) => Some(match_record(t, sp)),
        _ => recorded,
    }
}

/// The work at a position is the run of the thread on top of the stack,
/// followed, unless that thread accepts, by the work on what it leaves
/// behind.
pub proof fn lemma_thread_run(
    code: Seq<Instruction>,
    input: Seq<char>,
    sp: usize,
    stack: Seq<ThreadState>,
    t: ThreadState,
    waiting: Seq<ThreadState>,
    visited: Visited,
    fuel: nat,
)
    ensures
        ({
            let r = thread_run(code, input, sp, t, stack, visited, fuel);
            let after = waiting_after(waiting, r.end);
            let all = stack.push(t);
            &&& run_position(code, input, sp, all, waiting, visited, fuel) == match r.end {
                ThreadEnd::Accepts(a) => PositionResult { waiting, accepted: Some(a) },
                ThreadEnd::Spent => PositionResult { waiting, accepted: None },
                _ => run_position(code, input, sp, r.stack, after, r.visited, r.fuel),
            }
            &&& position_spent(code, input, sp, all, waiting, visited, fuel) == match r.end {
                ThreadEnd::Accepts(_) => false,
                ThreadEnd::Spent => true,
                _ => position_spent(code, input, sp, r.stack, after, r.visited, r.fuel),
            }
            &&& !(r.end is Spent) ==> r.fuel < fuel
        }),
    decreases fuel,
{
    let all = stack.push(t);
    assert(all.last() == t);
    assert(all.drop_last() =~= stack);
    if fuel > 0 {
        let less = (fuel - 1) as nat;
        lemma_run_position_step(code, input, sp, stack, t, waiting, visited, fuel);
        if !seen(visited, t) {
            let v = marked(visited, t);
            match step(code, input, sp, t) {
                Step::Continue(next) => {
                    lemma_thread_run(code, input, sp, stack, next, waiting, v, less);
                },
                Step::Split(first, second) => {
                    lemma_thread_run(code, input, sp, stack.push(second), first, waiting, v, less);
                },
                _ => {},
            }
        }
    }
}

/// A thread of the running machine.
pub struct Thread {
    pub pc: usize,
    pub match_start: usize,
    pub captures: Vec<Option<Match>>,
    pub registers: Vec<usize>,
}

impl View for Thread {
    type V = ThreadState;

    open spec fn view(&self) -> ThreadState {
        ThreadState {
            pc: self.pc,
            match_start: self.match_start,
            captures: self.captures@,
            registers: self.registers@,
        }
    }
}

/// The states of a list of threads.
pub open spec fn views(threads: Seq<Thread>) -> Seq<ThreadState> {
    threads.map_values(|t: Thread| t@)
}

/// A match that may be absent, as a mathematical value.
pub open spec fn found(result: Option<Vec<Match>>) -> Option<Seq<Match>> {
    match result {
        Some(spans) => Some(spans@),
        None => None,
    }
}

/// A copy of a vector of plain values.
pub fn copy_of<T: Copy>(values: &Vec<T>) -> (copy: Vec<T>)
    ensures
        copy@ == values@,
{
    let mut copy: Vec<T> = Vec::new();
    let mut i: usize = 0;
    while i < values.len()
        invariant
            i <= values.len(),
            copy@ == values@.take(i as int),
        decreases values.len() - i,
    {
        copy.push(values[i]);
        proof {
            assert(values@.take(i + 1) =~= values@.take(i as int).push(values@[i as int]));
        }
        i += 1;
    }
    proof {
        assert(values@.take(i as int) =~= values@);
    }
    copy
}

/// A thread that starts a match attempt at `sp`.
pub fn new_thread(sp: usize, registers: usize) -> (thread: Thread)
    ensures
        thread@ == fresh_thread(sp, registers as nat),
{
    let mut captures: Vec<Option<Match>> = Vec::new();
    let mut i: usize = 0;
    while i < CAPTURE_SLOTS
        invariant
            i <= CAPTURE_SLOTS,
            captures@ =~= Seq::new(i as nat, |j: int| None::<Match>),
        decreases CAPTURE_SLOTS - i,
    {
        captures.push(None);
        i += 1;
    }
    let mut counters: Vec<usize> = Vec::new();
    let mut k: usize = 0;
    while k < registers
        invariant
            k <= registers,
            counters@ =~= Seq::new(k as nat, |j: int| 0usize),
        decreases registers - k,
    {
        counters.push(0);
        k += 1;
    }
    Thread { pc: 0, match_start: sp, captures, registers: counters }
}

/// What a thread that accepts at `sp` reports.
pub fn report(thread: &Thread, sp: usize) -> (spans: Vec<Match>)
    ensures
        spans@ == match_record(thread@, sp),
{
    let mut spans: Vec<Match> = Vec::new();
    spans.push(Match { start: thread.match_start, end: sp });
    let mut i: usize = 0;
    while i < thread.captures.len()
        invariant
            i <= thread.captures.len(),
            spans@ == seq![Match { start: thread.match_start, end: sp }] + present(
                thread.captures@.take(i as int),
            ),
        decreases thread.captures.len() - i,
    {
        proof {
            assert(thread.captures@.take(i + 1).drop_last() =~= thread.captures@.take(i as int));
        }
        let ghost before = spans@;
        match thread.captures[i] {
            Some(m) => {
                spans.push(m);
                assert(spans@ =~= seq![Match { start: thread.match_start, end: sp }] + present(
                    thread.captures@.take(i + 1),
                ));
            },
            None => {},
        }
        i += 1;
    }
    proof {
        assert(thread.captures@.take(i as int) =~= thread.captures@);
    }
    spans
}

/// The largest number that the program compares a counter with.
pub fn largest_compared(code: &[Instruction]) -> (largest: usize)
    ensures
        largest == largest_count(code@),
{
    let mut largest: usize = 0;
    let mut i: usize = 0;
    while i < code.len()
        invariant
            i <= code.len(),
            largest == largest_count(code@.take(i as int)),
        decreases code.len() - i,
    {
        proof {
            assert(code@.take(i + 1).drop_last() =~= code@.take(i as int));
        }
        match code[i] {
            Instruction::ConditionalJumpEq(_, value, _) => {
                if value > largest {
                    largest = value;
                }
            },
            Instruction::ConditionalJumpLE(_, value, _) => {
                if value > largest {
                    largest = value;
                }
            },
            _ => (),
        }
        i += 1;
    }
    proof {
        assert(code@.take(i as int) =~= code@);
    }
    largest
}

/// The number above which the program cannot tell one count from another.
pub fn cap_for(code: &[Instruction]) -> (cap: usize)
    ensures
        cap == cap_of(code@),
{
    let largest = largest_compared(code);
    if largest == usize::MAX {
        usize::MAX
    } else {
        largest + 1
    }
}

/// The counters, each one no larger than `cap`.
pub fn capped_copy(registers: &Vec<usize>, cap: usize) -> (copy: Vec<usize>)
    ensures
        copy@ == capped(registers@, cap),
{
    let mut copy: Vec<usize> = Vec::new();
    let mut i: usize = 0;
    while i < registers.len()
        invariant
            i <= registers.len(),
            copy@ =~= capped(registers@.take(i as int), cap),
        decreases registers.len() - i,
    {
        let value = registers[i];
        copy.push(
            if value < cap {
                value
            } else {
                cap
            },
        );
        proof {
            assert(registers@.take(i + 1) =~= registers@.take(i as int).push(value));
        }
        i += 1;
    }
    proof {
        assert(registers@.take(i as int) =~= registers@);
    }
    copy
}

/// Whether two lists of counters hold the same values.
pub fn same_counters(a: &Vec<usize>, b: &Vec<usize>) -> (same: bool)
    ensures
        same == (a@ == b@),
{
    if a.len() != b.len() {
        return false;
    }
    let mut i: usize = 0;
    while i < a.len()
        invariant
            i <= a.len(),
            a.len() == b.len(),
            forall|j: int| 0 <= j < i ==> a@[j] == b@[j],
        decreases a.len() - i,
    {
        if a[i] != b[i] {
            return false;
        }
        i += 1;
    }
    assert(a@ =~= b@);
    true
}

/// An empty list of marks for each instruction of a program.
fn empty_marks(program_len: usize) -> (marks: Vec<Vec<Vec<usize>>>)
    ensures
        marks@.len() == program_len,
        forall|i: int| 0 <= i < marks@.len() ==> (#[trigger] marks@[i])@.len() == 0,
{
    let mut marks: Vec<Vec<Vec<usize>>> = Vec::new();
    let mut i: usize = 0;
    while i < program_len
        invariant
            i <= program_len,
            marks@.len() == i,
            forall|j: int| 0 <= j < marks@.len() ==> (#[trigger] marks@[j])@.len() == 0,
        decreases program_len - i,
    {
        marks.push(Vec::new());
        i += 1;
    }
    marks
}

/// The states of a reversed list are the reversed states.
pub proof fn lemma_views_reverse(threads: Seq<Thread>)
    ensures
        views(threads.reverse()) == views(threads).reverse(),
{
    assert(views(threads.reverse()) =~= views(threads).reverse());
}

/// Moves the threads of `from` to the empty `to`, the last one first.
fn reverse_into(from: &mut Vec<Thread>, to: &mut Vec<Thread>)
    requires
        old(to).len() == 0,
    ensures
        final(from).len() == 0,
        final(to)@ == old(from)@.reverse(),
{
    let ghost all = from@;
    while from.len() > 0
        invariant
            from.len() <= all.len(),
            to.len() + from.len() == all.len(),
            from@ == all.take(from.len() as int),
            forall|i: int| 0 <= i < to.len() ==> to@[i] == all[all.len() - 1 - i],
        decreases from.len(),
    {
        let thread = from.pop().unwrap();
        to.push(thread);
    }
    proof {
        assert(to@ =~= all.reverse());
    }
}

/// The machine at work on one input.
pub struct PikeMatcher<'a> {
    code: &'a [Instruction],
    threads: Vec<Thread>,
    next_threads: Vec<Thread>,
    input: Vec<char>,
    sp: usize,
    matched: Option<Vec<Match>>,
    registers: usize,
    cap: usize,
    visited: Vec<Vec<Vec<usize>>>,
    /// What is left of the fuel of this position. Nothing at run time
    /// reads it: it is the measure by which the work is shown to end.
    fuel: Ghost<nat>,
}

impl<'a> PikeMatcher<'a> {
    /// The threads still to run at this position, the last one first.
    closed spec fn stack(&self) -> Seq<ThreadState> {
        views(self.threads@)
    }

    /// The threads that wait for the next position.
    closed spec fn waiting(&self) -> Seq<ThreadState> {
        views(self.next_threads@)
    }

    /// The match recorded so far.
    closed spec fn recorded(&self) -> Option<Seq<Match>> {
        found(self.matched)
    }

    /// The counters with which each instruction has been run at this
    /// position.
    closed spec fn marks(&self) -> Visited {
        Visited {
            cap: self.cap,
            marks: self.visited@.map_values(
                |bucket: Vec<Vec<usize>>| bucket@.map_values(|r: Vec<usize>| r@),
            ),
        }
    }

    /// How the work at this position ends from here.
    closed spec fn outlook(&self) -> PositionResult {
        run_position(
            self.code@,
            self.input@,
            self.sp,
            self.stack(),
            self.waiting(),
            self.marks(),
            self.fuel@,
        )
    }

    /// Whether the work at this position spends its fuel from here on.
    closed spec fn spends(&self) -> bool {
        position_spent(
            self.code@,
            self.input@,
            self.sp,
            self.stack(),
            self.waiting(),
            self.marks(),
            self.fuel@,
        )
    }

    /// Program, input and register count are those of `other`, and there
    /// is a list of marks for each instruction.
    closed spec fn same_task(&self, other: &Self) -> bool {
        &&& self.code@ == other.code@
        &&& self.input@ == other.input@
        &&& self.registers == other.registers
        &&& self.cap == other.cap
        &&& self.visited@.len() == self.code@.len()
    }

    /// Forgets the marks of the last position.
    fn clear_marks(&mut self)
        requires
            old(self).visited@.len() == old(self).code@.len(),
            old(self).cap == cap_of(old(self).code@),
        ensures
            final(self).same_task(old(self)),
            final(self).sp == old(self).sp,
            final(self).fuel@ == old(self).fuel@,
            final(self).threads@ == old(self).threads@,
            final(self).next_threads@ == old(self).next_threads@,
            final(self).matched == old(self).matched,
            final(self).marks() == unvisited(final(self).code@),
    {
        let mut i: usize = 0;
        while i < self.visited.len()
            invariant
                self.code@ == old(self).code@,
                self.input@ == old(self).input@,
                self.registers == old(self).registers,
                self.cap == old(self).cap,
                self.cap == cap_of(self.code@),
                self.sp == old(self).sp,
                self.fuel@ == old(self).fuel@,
                self.threads@ == old(self).threads@,
                self.next_threads@ == old(self).next_threads@,
                self.matched == old(self).matched,
                self.visited@.len() == self.code@.len(),
                i <= self.visited.len(),
                forall|j: int| 0 <= j < i ==> (#[trigger] self.visited@[j])@.len() == 0,
            decreases self.visited.len() - i,
        {
            self.visited[i].clear();
            i += 1;
        }
        assert forall|j: int| 0 <= j < self.marks().len() implies #[trigger] self.marks().marks[j]
            == Seq::<Seq<usize>>::empty() by {
            assert(self.visited@[j]@.len() == 0);
            assert(self.marks().marks[j] =~= Seq::<Seq<usize>>::empty());
        }
        assert(self.marks().marks =~= unvisited(self.code@).marks);
    }

    /// Whether a thread with these counters, as far as the program can
    /// tell them apart, has run the instruction at `pc` at this position;
    /// if none has, the counters are marked.
    fn mark(&mut self, pc: usize, registers: &Vec<usize>) -> (before: bool)
        requires
            old(self).visited@.len() == old(self).code@.len(),
            pc < old(self).code@.len(),
        ensures
            final(self).same_task(old(self)),
            final(self).sp == old(self).sp,
            final(self).fuel@ == old(self).fuel@,
            final(self).threads@ == old(self).threads@,
            final(self).next_threads@ == old(self).next_threads@,
            final(self).matched == old(self).matched,
            before == old(self).marks()[pc as int].contains(capped(registers@, old(self).cap)),
            before ==> final(self).marks() == old(self).marks(),
            !before ==> final(self).marks() == (Visited {
                marks: old(self).marks().marks.update(
                    pc as int,
                    old(self).marks()[pc as int].push(capped(registers@, old(self).cap)),
                ),
                ..old(self).marks()
            }),
    {
        let key = capped_copy(registers, self.cap);
        let ghost bucket = self.marks()[pc as int];
        assert(bucket == self.visited@[pc as int]@.map_values(|r: Vec<usize>| r@));
        let mut i: usize = 0;
        while i < self.visited[pc].len()
            invariant
                *self == *old(self),
                self.visited@.len() == self.code@.len(),
                pc < self.visited@.len(),
                key@ == capped(registers@, self.cap),
                bucket == self.visited@[pc as int]@.map_values(|r: Vec<usize>| r@),
                i <= self.visited@[pc as int]@.len(),
                forall|j: int| 0 <= j < i ==> bucket[j] != key@,
            ensures
                !bucket.contains(key@),
            decreases self.visited@[pc as int]@.len() - i,
        {
            if same_counters(&self.visited[pc][i], &key) {
                assert(bucket[i as int] == key@);
                assert(self.marks() == old(self).marks());
                return true;
            }
            i += 1;
        }
        let ghost pushed = key;
        self.visited[pc].push(key);
        proof {
            let expected = old(self).marks().marks.update(pc as int, bucket.push(pushed@));
            assert(self.marks().marks.len() == expected.len());
            assert forall|j: int| 0 <= j < expected.len() implies #[trigger] self.marks().marks[j]
                == expected[j] by {
                if j == pc {
                    assert(self.visited@[j]@ == old(self).visited@[j]@.push(pushed));
                    assert(self.marks().marks[j] =~= bucket.push(pushed@));
                } else {
                    assert(self.visited@[j] == old(self).visited@[j]);
                }
            }
            assert(self.marks().marks =~= expected);
        }
        false
    }

    /// Runs `code` on `input`, from every position of the input in turn
    /// until a match is found, all threads in step with the input. The
    /// result is what the rules of the machine give ([`find_match`]): the
    /// span of the whole match, then the spans of the groups that the
    /// accepting thread has recorded, in the order of their slots; spans
    /// count code points. The match is a match of the program; it starts
    /// at the first position from which the program matches, and it is the
    /// match that a backtracking search prefers wherever such a search
    /// ends.
    pub fn do_match(code: &'a [Instruction], input: &str) -> (result: Option<Vec<Match>>)
        requires
            max_register(code@) < usize::MAX,
        ensures
            found(result) == find_match(code@, input@),
            result matches Some(spans) ==> well_spanned(spans@, input@.len()) && is_match(
                code@,
                input@,
                spans@[0].start,
                spans@[0].end,
            ),
            leftmost(code@, input@, found(result)) && preferred(
                code@,
                input@,
                found(result),
            ),
    {
        proof {
            lemma_match_well_spanned(code@, input@);
            lemma_found_is_leftmost(code@, input@);
            lemma_found_is_preferred(code@, input@);
        }
        let mut matcher = PikeMatcher {
            code,
            threads: Vec::new(),
            next_threads: Vec::new(),
            input: chars_of(input),
            sp: 0,
            matched: None,
            registers: count_registers(code),
            cap: cap_for(code),
            visited: empty_marks(code.len()),
            fuel: Ghost(0),
        };
        matcher.run()
    }

    /// Puts a thread that has taken the symbol on the list for the next
    /// position, at the following instruction.
    fn schedule_next(&mut self, thread: Thread)
        requires
            thread.pc < usize::MAX,
            old(self).visited@.len() == old(self).code@.len(),
        ensures
            final(self).same_task(old(self)),
            final(self).sp == old(self).sp,
            final(self).fuel@ == old(self).fuel@,
            final(self).threads@ == old(self).threads@,
            final(self).matched == old(self).matched,
            final(self).marks() == old(self).marks(),
            final(self).waiting() == old(self).waiting().push(thread@.advanced()),
    {
        let mut thread = thread;
        thread.pc += 1;
        let ghost before = self.next_threads@;
        self.next_threads.push(thread);
        assert(views(self.next_threads@) =~= views(before).push(thread@));
    }

    /// Runs the machine over all positions of the input.
    fn run(&mut self) -> (result: Option<Vec<Match>>)
        requires
            old(self).sp == 0,
            old(self).next_threads.len() == 0,
            old(self).matched is None,
            old(self).registers == register_count(old(self).code@),
            old(self).cap == cap_of(old(self).code@),
            old(self).visited@.len() == old(self).code@.len(),
        ensures
            found(result) == find_match(old(self).code@, old(self).input@),
    {
        let len = self.input.len();
        let ghost goal = find_match(self.code@, self.input@);
        assert(self.waiting() =~= Seq::<ThreadState>::empty());
        proof {
            lemma_budget_suffices(self.code@, self.input@);
        }
        loop
            invariant_except_break
                self.sp <= len,
                run_from(self.code@, self.input@, self.sp, self.waiting(), self.recorded())
                    == goal,
                !run_spent(self.code@, self.input@, self.sp, self.waiting(), self.recorded()),
            invariant
                self.same_task(old(self)),
                goal == find_match(self.code@, self.input@),
                len == self.input@.len(),
                self.registers == register_count(self.code@),
                self.cap == cap_of(self.code@),
            ensures
                self.recorded() == goal,
            decreases len - self.sp,
        {
            let c = if self.sp < len {
                self.input[self.sp]
            } else {
                TERMINATOR
            };
            let ghost waiting_before = self.waiting();
            let ghost matched_before = self.recorded();
            let ghost sp = self.sp;
            if self.matched.is_none() {
                let ghost before = self.next_threads@;
                let fresh = new_thread(self.sp, self.registers);
                self.next_threads.push(fresh);
                assert(views(self.next_threads@) =~= views(before).push(fresh@));
            }
            let ghost all = self.waiting();
            self.threads.clear();
            proof {
                lemma_views_reverse(self.next_threads@);
            }
            reverse_into(&mut self.next_threads, &mut self.threads);
            self.fuel = Ghost(step_budget(self.code@));
            self.clear_marks();
            assert(self.waiting() =~= Seq::<ThreadState>::empty());
            let ghost target = self.outlook();
            let ghost recorded_before = self.recorded();
            proof {
                assert(all == seeded(self.code@, sp, waiting_before, matched_before));
                assert(target == position_of_run(
                    self.code@,
                    self.input@,
                    sp,
                    waiting_before,
                    matched_before,
                ));
                assert(!self.spends());
            }
            loop
                invariant_except_break
                    self.outlook() == target,
                    self.recorded() == recorded_before,
                    !self.spends(),
                invariant
                    self.same_task(old(self)),
                    self.sp == sp,
                    self.sp <= len,
                    len == self.input@.len(),
                    c == symbol_at(self.input@, self.sp as int),
                    self.registers == register_count(self.code@),
                    self.cap == cap_of(self.code@),
                ensures
                    self.waiting() == target.waiting,
                    self.recorded() == recorded_after(target, self.sp, recorded_before),
                decreases self.fuel@, self.threads.len(),
            {
                let ghost stack_before = self.threads@;
                match self.threads.pop() {
                    Some(thread) => {
                        proof {
                            assert(views(stack_before) =~= views(self.threads@).push(thread@));
                            lemma_thread_run(
                                self.code@,
                                self.input@,
                                self.sp,
                                self.stack(),
                                thread@,
                                self.waiting(),
                                self.marks(),
                                self.fuel@,
                            );
                        }
                        match self.run_thread(thread, c) {
                            Some(_) => {
                                break ;
                            },
                            None => {},
                        }
                    },
                    None => {
                        break ;
                    },
                }
            }
            proof {
                lemma_run_from_unfold(
                    self.code@,
                    self.input@,
                    sp,
                    waiting_before,
                    matched_before,
                );
            }
            if self.sp >= len {
                break ;
            }
            self.sp += 1;
        }
        match &self.matched {
            Some(spans) => Some(copy_of(spans)),
            None => None,
        }
    }

    /// Runs one thread until it takes the symbol `c`, dies or accepts, as
    /// [`thread_run`] says. The threads that it splits off go on the
    /// stack, and every instruction that it runs is marked. A thread that
    /// comes to an instruction marked with its counters dies there: the
    /// state has been run at this position, with higher priority. A
    /// thread that takes the symbol is put on the waiting list, behind
    /// the threads that wait, and nothing is returned. A thread that
    /// accepts is reported: its report is recorded and returned. Nothing
    /// is returned in any other case, and nothing else changes. The fuel
    /// shows that the run ends; the caller shows that there is enough of
    /// it.
    fn run_thread(&mut self, thread: Thread, c: char) -> (result: Option<Vec<Match>>)
        requires
            c == symbol_at(old(self).input@, old(self).sp as int),
            old(self).visited@.len() == old(self).code@.len(),
            !(thread_run(
                old(self).code@,
                old(self).input@,
                old(self).sp,
                thread@,
                old(self).stack(),
                old(self).marks(),
                old(self).fuel@,
            ).end is Spent),
        ensures
            final(self).same_task(old(self)),
            final(self).sp == old(self).sp,
            ({
                let r = thread_run(
                    old(self).code@,
                    old(self).input@,
                    old(self).sp,
                    thread@,
                    old(self).stack(),
                    old(self).marks(),
                    old(self).fuel@,
                );
                &&& final(self).stack() == r.stack
                &&& final(self).marks() == r.visited
                &&& final(self).fuel@ == r.fuel
                &&& final(self).waiting() == waiting_after(old(self).waiting(), r.end)
                &&& final(self).recorded() == recorded_with(
                    old(self).recorded(),
                    r.end,
                    old(self).sp,
                )
                &&& found(result) == match r.end {
                    ThreadEnd::Accepts(a) => Some(match_record(a, old(self).sp)),
                    _ => None,
                }
            }),
    {
        let mut current = thread;
        let ghost goal = thread_run(
            self.code@,
            self.input@,
            self.sp,
            current@,
            self.stack(),
            self.marks(),
            self.fuel@,
        );
        loop
            invariant
                goal == thread_run(
                    old(self).code@,
                    old(self).input@,
                    old(self).sp,
                    thread@,
                    old(self).stack(),
                    old(self).marks(),
                    old(self).fuel@,
                ),
                !(goal.end is Spent),
                self.same_task(old(self)),
                self.sp == old(self).sp,
                self.visited@.len() == self.code@.len(),
                c == symbol_at(self.input@, self.sp as int),
                self.recorded() == old(self).recorded(),
                self.waiting() == old(self).waiting(),
                thread_run(
                    self.code@,
                    self.input@,
                    self.sp,
                    current@,
                    self.stack(),
                    self.marks(),
                    self.fuel@,
                ) == goal,
            decreases self.fuel@,
        {
            assert(self.fuel@ > 0);
            self.fuel = Ghost((self.fuel@ - 1) as nat);
            if current.pc >= self.code.len() {
                return None;
            }
            if self.mark(current.pc, &current.registers) {
                return None;
            }
            match self.code[current.pc] {
                Instruction::Char(ch) => {
                    if c == ch {
                        self.schedule_next(current);
                    }
                    return None;
                },
                Instruction::Any => {
                    self.schedule_next(current);
                    return None;
                },
                Instruction::Range(start, end) => {
                    if c >= start && c <= end {
                        self.schedule_next(current);
                    }
                    return None;
                },
                Instruction::Fork(pc1, pc2) => {
                    let ghost before = self.threads@;
                    let copy = Thread {
                        pc: pc2,
                        match_start: current.match_start,
                        captures: copy_of(&current.captures),
                        registers: copy_of(&current.registers),
                    };
                    self.threads.push(copy);
                    current.pc = pc1;
                    assert(views(self.threads@) =~= views(before).push(copy@));
                },
                Instruction::Jump(new_pc) => {
                    current.pc = new_pc;
                },
                Instruction::ConditionalJumpEq(register, value, new_pc) => {
                    if register >= current.registers.len() {
                        return None;
                    }
                    if current.registers[register] == value {
                        current.pc = new_pc;
                    } else {
                        current.pc += 1;
                    }
                },
                Instruction::ConditionalJumpLE(register, value, new_pc) => {
                    if register >= current.registers.len() {
                        return None;
                    }
                    if current.registers[register] < value {
                        current.pc = new_pc;
                    } else {
                        current.pc += 1;
                    }
                },
                Instruction::Increment(register) => {
                    if register >= current.registers.len() {
                        return None;
                    }
                    let value = current.registers[register];
                    current.registers[register] = if value == usize::MAX {
                        value
                    } else {
                        value + 1
                    };
                    current.pc += 1;
                },
                Instruction::SaveStart(group) => {
                    if group < current.captures.len() {
                        current.captures[group] = Some(Match { start: self.sp, end: self.sp });
                    }
                    current.pc += 1;
                },
                Instruction::SaveEnd(group) => {
                    if group < current.captures.len() {
                        match current.captures[group] {
                            Some(m) => {
                                current.captures[group] = Some(
                                    Match { start: m.start, end: self.sp },
                                );
                            },
                            None => {},
                        }
                    }
                    current.pc += 1;
                },
                Instruction::AssertStart => {
                    if self.sp == 0 {
                        current.pc += 1;
                    } else {
                        return None;
                    }
                },
                Instruction::AssertEnd => {
                    if self.sp == self.input.len() {
                        current.pc += 1;
                    } else {
                        return None;
                    }
                },
                Instruction::AssertWordBoundary => {
                    let a = if self.sp == 0 || self.sp > self.input.len() {
                        false
                    } else {
                        is_word_char(self.input[self.sp - 1])
                    };
                    let b = is_word_char(c);
                    if (a && !b) || (!a && b) {
                        current.pc += 1;
                    } else {
                        return None;
                    }
                },
                Instruction::AssertNonWordBoundary => {
                    let a = if self.sp == 0 || self.sp > self.input.len() {
                        false
                    } else {
                        is_word_char(self.input[self.sp - 1])
                    };
                    let b = is_word_char(c);
                    if (a && !b) || (!a && b) {
                        return None;
                    } else {
                        current.pc += 1;
                    }
                },
                Instruction::Accept => {
                    let spans = report(&current, self.sp);
                    self.matched = Some(copy_of(&spans));
                    return Some(spans);
                },
            }
        }
    }
}

} // verus!
