//! The program counters in a compiled program: every instruction sends a
//! thread to an instruction of the program.

use crate::compile::{
    class_alternation, code_len, counters, emit, fork_for, lemma_class_alternation_shape,
    lemma_class_alternation_weight, lemma_emit_len, program, weight, Instruction,
};
use crate::parse::{QuantifierType, Syntax};
use vstd::prelude::*;

verus! {

/// Whether the program counters that an instruction may send a thread to
/// lie between `low` and `high`, both included.
pub open spec fn aims_within(instruction: Instruction, low: int, high: int) -> bool {
    match instruction {
        Instruction::Fork(first, second) => low <= first <= high && low <= second <= high,
        Instruction::Jump(target) => low <= target <= high,
        Instruction::ConditionalJumpEq(_, _, target) => low <= target <= high,
        Instruction::ConditionalJumpLE(_, _, target) => low <= target <= high,
        _ => true,
    }
}

/// Every instruction of the code aims between `low` and `high`.
pub open spec fn all_aim_within(code: Seq<Instruction>, low: int, high: int) -> bool {
    forall|i: int| 0 <= i < code.len() ==> aims_within(#[trigger] code[i], low, high)
}

/// Code made of two parts aims where both parts aim.
pub proof fn lemma_aim_add(a: Seq<Instruction>, b: Seq<Instruction>, low: int, high: int)
    requires
        all_aim_within(a, low, high),
        all_aim_within(b, low, high),
    ensures
        all_aim_within(a + b, low, high),
{
    assert forall|i: int| 0 <= i < (a + b).len() implies aims_within(
        #[trigger] (a + b)[i],
        low,
        high,
    ) by {
        if i < a.len() {
            assert((a + b)[i] == a[i]);
        } else {
            assert((a + b)[i] == b[i - a.len()]);
        }
    }
}

/// A single instruction, as code.
pub proof fn lemma_aim_one(x: Instruction, low: int, high: int)
    requires
        aims_within(x, low, high),
    ensures
        all_aim_within(seq![x], low, high),
{
    assert forall|i: int| 0 <= i < seq![x].len() implies aims_within(
        #[trigger] seq![x][i],
        low,
        high,
    ) by {
        assert(seq![x][i] == x);
    }
}

/// Code that aims within bounds aims within wider bounds.
pub proof fn lemma_aim_wider(code: Seq<Instruction>, low: int, high: int, lower: int, higher: int)
    requires
        all_aim_within(code, low, high),
        lower <= low,
        high <= higher,
    ensures
        all_aim_within(code, lower, higher),
{
    assert forall|i: int| 0 <= i < code.len() implies aims_within(
        #[trigger] code[i],
        lower,
        higher,
    ) by {
        assert(aims_within(code[i], low, high));
    }
}

/// Code between a head and a tail aims where all three aim.
pub proof fn lemma_aim_framed(
    head: Seq<Instruction>,
    body: Seq<Instruction>,
    tail: Seq<Instruction>,
    low: int,
    high: int,
)
    requires
        all_aim_within(head, low, high),
        all_aim_within(body, low, high),
        all_aim_within(tail, low, high),
    ensures
        all_aim_within(head + body + tail, low, high),
{
    lemma_aim_add(head, body, low, high);
    lemma_aim_add(head + body, tail, low, high);
}

/// The fork of a quantifier aims at its body and its exit.
pub proof fn lemma_fork_aims(typ: QuantifierType, body: int, exit: int, low: int, high: int)
    requires
        0 <= low <= body <= high <= usize::MAX,
        low <= exit <= high,
    ensures
        aims_within(fork_for(typ, body, exit), low, high),
{
}

/// The instructions of a tree that stand from `pc` on send a thread to no
/// place before `pc` and to none behind the instruction that follows the
/// tree.
pub proof fn lemma_emit_aims(e: Syntax, pc: int, reg: int)
    requires
        0 <= pc,
        pc + code_len(e) <= usize::MAX,
    ensures
        all_aim_within(emit(e, pc, reg), pc, pc + code_len(e)),
    decreases weight(e), 1int,
{
    match e {
        Syntax::CharacterClass(ranges) => {
            if ranges.len() > 0 {
                lemma_class_alternation_weight(ranges);
                lemma_class_alternation_shape(ranges);
                lemma_emit_aims(class_alternation(ranges), pc, reg);
            }
        },
        Syntax::Concatenate(l, r) => lemma_emit_aims_pair(*l, *r, false, pc, reg),
        Syntax::Alternate(l, r) => lemma_emit_aims_pair(*l, *r, true, pc, reg),
        Syntax::SubExpression(inner, _) => lemma_emit_aims_around(e, *inner, pc, reg),
        Syntax::Question(inner, _) => lemma_emit_aims_around(e, *inner, pc, reg),
        Syntax::Star(inner, _) => lemma_emit_aims_around(e, *inner, pc, reg),
        Syntax::Plus(inner, _) => lemma_emit_aims_around(e, *inner, pc, reg),
        Syntax::ExactRepetition(inner, _, _) => lemma_emit_aims_counted(e, *inner, pc, reg),
        Syntax::UnboundedRepetition(inner, _, _) => lemma_emit_aims_counted(e, *inner, pc, reg),
        Syntax::BoundedRepetition(inner, _, _, _) => lemma_emit_aims_counted(e, *inner, pc, reg),
        _ => {
            assert(emit(e, pc, reg).len() == 1);
            assert(aims_within(emit(e, pc, reg)[0], pc, pc + code_len(e)));
        },
    }
}

/// [`lemma_emit_aims`] for a sequence (`choice` false) or a choice
/// (`choice` true) of two trees.
proof fn lemma_emit_aims_pair(l: Syntax, r: Syntax, choice: bool, pc: int, reg: int)
    requires
        0 <= pc,
        pc + code_len(l) + code_len(r) + (if choice {
            2int
        } else {
            0int
        }) <= usize::MAX,
    ensures
        choice ==> all_aim_within(
            emit(Syntax::Alternate(Box::new(l), Box::new(r)), pc, reg),
            pc,
            pc + code_len(l) + code_len(r) + 2,
        ),
        !choice ==> all_aim_within(
            emit(Syntax::Concatenate(Box::new(l), Box::new(r)), pc, reg),
            pc,
            pc + code_len(l) + code_len(r),
        ),
    decreases 1 + weight(l) + weight(r), 0int,
{
    if choice {
        let high = pc + code_len(l) + code_len(r) + 2;
        let after_left = pc + 1 + code_len(l);
        lemma_emit_aims(l, pc + 1, reg);
        lemma_emit_aims(r, after_left + 1, reg + counters(l));
        let a = seq![Instruction::Fork((pc + 1) as usize, (after_left + 1) as usize)];
        let b = emit(l, pc + 1, reg);
        let c = seq![Instruction::Jump((after_left + 1 + code_len(r)) as usize)];
        let d = emit(r, after_left + 1, reg + counters(l));
        lemma_aim_one(a[0], pc, high);
        lemma_aim_one(c[0], pc, high);
        lemma_aim_wider(b, pc + 1, pc + 1 + code_len(l), pc, high);
        lemma_aim_wider(d, after_left + 1, after_left + 1 + code_len(r), pc, high);
        lemma_aim_framed(a, b, c, pc, high);
        lemma_aim_add(a + b + c, d, pc, high);
    } else {
        let high = pc + code_len(l) + code_len(r);
        lemma_emit_aims(l, pc, reg);
        lemma_emit_aims(r, pc + code_len(l), reg + counters(l));
        let a = emit(l, pc, reg);
        let b = emit(r, pc + code_len(l), reg + counters(l));
        lemma_aim_wider(a, pc, pc + code_len(l), pc, high);
        lemma_aim_wider(b, pc + code_len(l), high, pc, high);
        lemma_aim_add(a, b, pc, high);
    }
}

/// [`lemma_emit_aims`] for a group or a quantifier around the tree
/// `inner`.
proof fn lemma_emit_aims_around(e: Syntax, inner: Syntax, pc: int, reg: int)
    requires
        0 <= pc,
        pc + code_len(e) <= usize::MAX,
        match e {
            Syntax::SubExpression(x, _) => *x == inner,
            Syntax::Question(x, _) => *x == inner,
            Syntax::Star(x, _) => *x == inner,
            Syntax::Plus(x, _) => *x == inner,
            _ => false,
        },
    ensures
        all_aim_within(emit(e, pc, reg), pc, pc + code_len(e)),
    decreases 1 + weight(inner), 0int,
{
    let high = pc + code_len(e);
    let len = code_len(inner);
    let none = Seq::<Instruction>::empty();
    assert(all_aim_within(none, pc, high));
    match e {
        Syntax::SubExpression(_, slot) => {
            match slot {
                Some(group) => {
                    lemma_emit_aims(inner, pc + 1, reg);
                    let body = emit(inner, pc + 1, reg);
                    lemma_aim_wider(body, pc + 1, pc + 1 + len, pc, high);
                    lemma_aim_one(Instruction::SaveStart(group), pc, high);
                    lemma_aim_one(Instruction::SaveEnd(group), pc, high);
                    lemma_aim_framed(
                        seq![Instruction::SaveStart(group)],
                        body,
                        seq![Instruction::SaveEnd(group)],
                        pc,
                        high,
                    );
                },
                None => {
                    lemma_emit_aims(inner, pc, reg);
                },
            }
        },
        Syntax::Question(_, typ) => {
            lemma_emit_aims(inner, pc + 1, reg);
            let body = emit(inner, pc + 1, reg);
            lemma_aim_wider(body, pc + 1, pc + 1 + len, pc, high);
            let fork = fork_for(typ, pc + 1, pc + 1 + len);
            lemma_fork_aims(typ, pc + 1, pc + 1 + len, pc, high);
            lemma_aim_one(fork, pc, high);
            lemma_aim_add(seq![fork], body, pc, high);
        },
        Syntax::Star(_, typ) => {
            lemma_emit_aims(inner, pc + 1, reg);
            let body = emit(inner, pc + 1, reg);
            lemma_aim_wider(body, pc + 1, pc + 1 + len, pc, high);
            let fork = fork_for(typ, pc + 1, pc + 2 + len);
            lemma_fork_aims(typ, pc + 1, pc + 2 + len, pc, high);
            lemma_aim_one(fork, pc, high);
            lemma_aim_one(Instruction::Jump(pc as usize), pc, high);
            lemma_aim_framed(seq![fork], body, seq![Instruction::Jump(pc as usize)], pc, high);
        },
        Syntax::Plus(_, typ) => {
            lemma_emit_aims(inner, pc, reg);
            let body = emit(inner, pc, reg);
            lemma_aim_wider(body, pc, pc + len, pc, high);
            let fork = fork_for(typ, pc, pc + len + 1);
            lemma_fork_aims(typ, pc, pc + len + 1, pc, high);
            lemma_aim_one(fork, pc, high);
            lemma_aim_add(body, seq![fork], pc, high);
        },
        _ => {},
    }
}

/// [`lemma_emit_aims`] for a brace quantifier around the tree `inner`.
proof fn lemma_emit_aims_counted(e: Syntax, inner: Syntax, pc: int, reg: int)
    requires
        0 <= pc,
        pc + code_len(e) <= usize::MAX,
        match e {
            Syntax::ExactRepetition(x, _, _) => *x == inner,
            Syntax::UnboundedRepetition(x, _, _) => *x == inner,
            Syntax::BoundedRepetition(x, _, _, _) => *x == inner,
            _ => false,
        },
    ensures
        all_aim_within(emit(e, pc, reg), pc, pc + code_len(e)),
    decreases 1 + weight(inner), 0int,
{
    let high = pc + code_len(e);
    let len = code_len(inner);
    match e {
        Syntax::ExactRepetition(_, count, typ) => {
            lemma_emit_aims(inner, pc + 2, reg + 1);
            let body = emit(inner, pc + 2, reg + 1);
            lemma_aim_wider(body, pc + 2, pc + 2 + len, pc, high);
            let first = Instruction::ConditionalJumpEq(reg as usize, count, high as usize);
            let second = fork_for(typ, pc + 2, high);
            lemma_fork_aims(typ, pc + 2, high, pc, high);
            lemma_loop_aims(seq![first, second], reg, pc, high);
            lemma_aim_framed(
                seq![first, second],
                body,
                seq![Instruction::Increment(reg as usize), Instruction::Jump(pc as usize)],
                pc,
                high,
            );
        },
        Syntax::UnboundedRepetition(_, low, typ) => {
            lemma_emit_aims(inner, pc + 2, reg + 1);
            let body = emit(inner, pc + 2, reg + 1);
            lemma_aim_wider(body, pc + 2, pc + 2 + len, pc, high);
            let first = Instruction::ConditionalJumpLE(reg as usize, low, (pc + 2) as usize);
            let second = fork_for(typ, pc + 2, high);
            lemma_fork_aims(typ, pc + 2, high, pc, high);
            lemma_loop_aims(seq![first, second], reg, pc, high);
            lemma_aim_framed(
                seq![first, second],
                body,
                seq![Instruction::Increment(reg as usize), Instruction::Jump(pc as usize)],
                pc,
                high,
            );
        },
        Syntax::BoundedRepetition(_, low, upper, typ) => {
            lemma_emit_aims(inner, pc + 3, reg + 1);
            let body = emit(inner, pc + 3, reg + 1);
            lemma_aim_wider(body, pc + 3, pc + 3 + len, pc, high);
            let first = Instruction::ConditionalJumpEq(reg as usize, upper, high as usize);
            let second = Instruction::ConditionalJumpLE(reg as usize, low, (pc + 3) as usize);
            let third = fork_for(typ, pc + 3, high);
            lemma_fork_aims(typ, pc + 3, high, pc, high);
            lemma_loop_aims(seq![first, second, third], reg, pc, high);
            lemma_aim_framed(
                seq![first, second, third],
                body,
                seq![Instruction::Increment(reg as usize), Instruction::Jump(pc as usize)],
                pc,
                high,
            );
        },
        _ => {},
    }
}

/// The head and the tail of a counted loop aim where the instructions of
/// the head aim.
proof fn lemma_loop_aims(head: Seq<Instruction>, reg: int, pc: int, high: int)
    requires
        0 <= pc <= high <= usize::MAX,
        forall|i: int| 0 <= i < head.len() ==> aims_within(#[trigger] head[i], pc, high),
    ensures
        all_aim_within(head, pc, high),
        all_aim_within(
            seq![Instruction::Increment(reg as usize), Instruction::Jump(pc as usize)],
            pc,
            high,
        ),
{
    let tail = seq![Instruction::Increment(reg as usize), Instruction::Jump(pc as usize)];
    assert forall|i: int| 0 <= i < tail.len() implies aims_within(
        #[trigger] tail[i],
        pc,
        high,
    ) by {
        if i == 0 {
            assert(tail[i] == Instruction::Increment(reg as usize));
        } else {
            assert(tail[i] == Instruction::Jump(pc as usize));
        }
    }
}

/// Every instruction of the program of a tree sends a thread to an
/// instruction of the program: no thread leaves the program, and the
/// only way to its end is `Accept`.
pub proof fn lemma_program_aims_inside(e: Syntax)
    requires
        code_len(e) < usize::MAX,
    ensures
        all_aim_within(program(e), 0, program(e).len() - 1),
        program(e).len() == code_len(e) + 1,
        program(e).last() == Instruction::Accept,
{
    lemma_emit_aims(e, 0, 0);
    lemma_emit_len(e, 0, 0);
    lemma_aim_one(Instruction::Accept, 0, code_len(e) as int);
    lemma_aim_add(emit(e, 0, 0), seq![Instruction::Accept], 0, code_len(e) as int);
    assert(program(e) =~= emit(e, 0, 0) + seq![Instruction::Accept]);
}

} // verus!
