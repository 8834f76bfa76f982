//! The compiler: lowers an expression tree to a linear program for the
//! matching machine.

use crate::charclass::{range_end, range_start};
use crate::parse::{syntaxes, Expression, QuantifierType, Syntax};
use crate::targets::{all_aim_within, lemma_program_aims_inside};
use vstd::prelude::*;

verus! {

/// One instruction of the matching machine. Program counters, register ids
/// and group ids are indices; a counter is compared against a plain number.
#[derive(Clone, Copy, Debug, PartialEq, Eq, Structural)]
pub enum Instruction {
    /// Consume one symbol equal to the code point.
    Char(char),
    /// Consume one symbol between the two code points, both included.
    Range(char, char),
    /// Consume any one symbol.
    Any,
    /// Split into two threads; the first target runs with higher priority.
    Fork(usize, usize),
    /// Continue at the target.
    Jump(usize),
    /// `(register, value, target)`: jump if the register equals the value.
    ConditionalJumpEq(usize, usize, usize),
    /// `(register, value, target)`: jump if the register is strictly below the value.
    ConditionalJumpLE(usize, usize, usize),
    /// Add one to the register.
    Increment(usize),
    /// The group starts at the current position.
    SaveStart(usize),
    /// The group ends at the current position.
    SaveEnd(usize),
    /// Pass only at the start of the input.
    AssertStart,
    /// Pass only at the end of the input.
    AssertEnd,
    /// Pass only between a word symbol and a non-word symbol.
    AssertWordBoundary,
    /// Pass only where `AssertWordBoundary` does not.
    AssertNonWordBoundary,
    /// Stop with success.
    Accept,
}

/// The choice a quantifier makes between repeating (`body`) and leaving
/// (`exit`): the preferred target comes first.
pub open spec fn fork_for(typ: QuantifierType, body: int, exit: int) -> Instruction {
    match typ {
        QuantifierType::Greedy => Instruction::Fork(body as usize, exit as usize),
        QuantifierType::NonGreedy => Instruction::Fork(exit as usize, body as usize),
    }
}

/// What one range of a character class stands for: a literal when it holds
/// a single code point, a range otherwise.
pub open spec fn member(range: (char, char)) -> Syntax {
    if range.0 == range.1 {
        Syntax::Literal(range.0)
    } else {
        Syntax::RangeLiteral(range.0, range.1)
    }
}

/// The alternation of the trees, nested to the right, so that an earlier
/// tree has priority over all later ones.
pub open spec fn alternation(trees: Seq<Syntax>) -> Syntax
    recommends
        trees.len() > 0,
    decreases trees.len(),
{
    if trees.len() <= 1 {
        trees[0]
    } else {
        Syntax::Alternate(Box::new(trees[0]), Box::new(alternation(trees.drop_first())))
    }
}

/// What the ranges of a character class stand for, in their order.
pub open spec fn members(ranges: Seq<(char, char)>) -> Seq<Syntax> {
    ranges.map_values(|r: (char, char)| member(r))
}

/// The alternation that a character class is lowered through.
pub open spec fn class_alternation(ranges: Seq<(char, char)>) -> Syntax {
    alternation(members(ranges))
}

/// A measure of a tree under which the alternation of a class is smaller
/// than the class.
pub open spec fn weight(e: Syntax) -> nat
    decreases e,
{
    match e {
        Syntax::CharacterClass(ranges) => 2 * ranges.len(),
        Syntax::Concatenate(l, r) => 1 + weight(*l) + weight(*r),
        Syntax::Alternate(l, r) => 1 + weight(*l) + weight(*r),
        Syntax::SubExpression(e, _) => 1 + weight(*e),
        Syntax::Question(e, _) => 1 + weight(*e),
        Syntax::Star(e, _) => 1 + weight(*e),
        Syntax::Plus(e, _) => 1 + weight(*e),
        Syntax::ExactRepetition(e, _, _) => 1 + weight(*e),
        Syntax::UnboundedRepetition(e, _, _) => 1 + weight(*e),
        Syntax::BoundedRepetition(e, _, _, _) => 1 + weight(*e),
        _ => 1,
    }
}

/// The number of instructions that a tree is lowered to.
pub open spec fn code_len(e: Syntax) -> nat
    decreases e,
{
    match e {
        Syntax::CharacterClass(ranges) => if ranges.len() == 0 {
            0
        } else {
            (3 * ranges.len() - 2) as nat
        },
        Syntax::Concatenate(l, r) => code_len(*l) + code_len(*r),
        Syntax::Alternate(l, r) => code_len(*l) + code_len(*r) + 2,
        Syntax::SubExpression(e, slot) => if slot is Some {
            code_len(*e) + 2
        } else {
            code_len(*e)
        },
        Syntax::Question(e, _) => code_len(*e) + 1,
        Syntax::Star(e, _) => code_len(*e) + 2,
        Syntax::Plus(e, _) => code_len(*e) + 1,
        Syntax::ExactRepetition(e, _, _) => code_len(*e) + 4,
        Syntax::UnboundedRepetition(e, _, _) => code_len(*e) + 4,
        Syntax::BoundedRepetition(e, _, _, _) => code_len(*e) + 5,
        _ => 1,
    }
}

/// The number of counter registers that a tree needs: one for each brace
/// quantifier in it.
pub open spec fn counters(e: Syntax) -> nat
    decreases e,
{
    match e {
        Syntax::Concatenate(l, r) => counters(*l) + counters(*r),
        Syntax::Alternate(l, r) => counters(*l) + counters(*r),
        Syntax::SubExpression(e, _) => counters(*e),
        Syntax::Question(e, _) => counters(*e),
        Syntax::Star(e, _) => counters(*e),
        Syntax::Plus(e, _) => counters(*e),
        Syntax::ExactRepetition(e, _, _) => counters(*e) + 1,
        Syntax::UnboundedRepetition(e, _, _) => counters(*e) + 1,
        Syntax::BoundedRepetition(e, _, _, _) => counters(*e) + 1,
        _ => 0,
    }
}

/// The alternation of `k` single-instruction trees weighs `2k - 1`.
pub proof fn lemma_class_alternation_weight(ranges: Seq<(char, char)>)
    requires
        ranges.len() > 0,
    ensures
        weight(class_alternation(ranges)) == 2 * ranges.len() - 1,
    decreases ranges.len(),
{
    let trees = members(ranges);
    assert(weight(trees[0]) == 1);
    if ranges.len() > 1 {
        lemma_class_alternation_weight(ranges.drop_first());
        assert(trees.drop_first() =~= members(ranges.drop_first()));
        assert(weight(alternation(trees)) == 1 + weight(trees[0]) + weight(
            alternation(trees.drop_first()),
        ));
    }
}

/// The instructions that a tree is lowered to when its first instruction
/// stands at `pc` and the first free counter register is `reg`.
pub open spec fn emit(e: Syntax, pc: int, reg: int) -> Seq<Instruction>
    decreases weight(e),
{
    match e {
        Syntax::Literal(c) => seq![Instruction::Char(c)],
        Syntax::AnyLiteral => seq![Instruction::Any],
        Syntax::RangeLiteral(lo, hi) => seq![Instruction::Range(lo, hi)],
        Syntax::CharacterClass(ranges) => if ranges.len() == 0 {
            Seq::empty()
        } else {
            proof {
                lemma_class_alternation_weight(ranges);
            }
            emit(class_alternation(ranges), pc, reg)
        },
        Syntax::Concatenate(l, r) => emit(*l, pc, reg) + emit(
            *r,
            pc + code_len(*l),
            reg + counters(*l),
        ),
        Syntax::Alternate(l, r) => {
            let after_left = pc + 1 + code_len(*l);
            seq![Instruction::Fork((pc + 1) as usize, (after_left + 1) as usize)] + emit(
                *l,
                pc + 1,
                reg,
            ) + seq![Instruction::Jump((after_left + 1 + code_len(*r)) as usize)] + emit(
                *r,
                after_left + 1,
                reg + counters(*l),
            )
        },
        Syntax::SubExpression(e, slot) => match slot {
            Some(group) => seq![Instruction::SaveStart(group)] + emit(*e, pc + 1, reg)
                + seq![Instruction::SaveEnd(group)],
            None => emit(*e, pc, reg),
        },
        Syntax::Question(e, typ) => seq![fork_for(typ, pc + 1, pc + 1 + code_len(*e))] + emit(
            *e,
            pc + 1,
            reg,
        ),
        Syntax::Star(e, typ) => seq![fork_for(typ, pc + 1, pc + 2 + code_len(*e))] + emit(
            *e,
            pc + 1,
            reg,
        ) + seq![Instruction::Jump(pc as usize)],
        Syntax::Plus(e, typ) => emit(*e, pc, reg) + seq![
            fork_for(typ, pc, pc + code_len(*e) + 1),
        ],
        Syntax::ExactRepetition(e, count, typ) => {
            let exit = pc + code_len(*e) + 4;
            seq![
                Instruction::ConditionalJumpEq(reg as usize, count, exit as usize),
                fork_for(typ, pc + 2, exit),
            ] + emit(*e, pc + 2, reg + 1) + seq![
                Instruction::Increment(reg as usize),
                Instruction::Jump(pc as usize),
            ]
        },
        Syntax::UnboundedRepetition(e, low, typ) => {
            let exit = pc + code_len(*e) + 4;
            seq![
                Instruction::ConditionalJumpLE(reg as usize, low, (pc + 2) as usize),
                fork_for(typ, pc + 2, exit),
            ] + emit(*e, pc + 2, reg + 1) + seq![
                Instruction::Increment(reg as usize),
                Instruction::Jump(pc as usize),
            ]
        },
        Syntax::BoundedRepetition(e, low, high, typ) => {
            let exit = pc + code_len(*e) + 5;
            seq![
                Instruction::ConditionalJumpEq(reg as usize, high, exit as usize),
                Instruction::ConditionalJumpLE(reg as usize, low, (pc + 3) as usize),
                fork_for(typ, pc + 3, exit),
            ] + emit(*e, pc + 3, reg + 1) + seq![
                Instruction::Increment(reg as usize),
                Instruction::Jump(pc as usize),
            ]
        },
        Syntax::AssertStart => seq![Instruction::AssertStart],
        Syntax::AssertEnd => seq![Instruction::AssertEnd],
        Syntax::AssertWordBoundary => seq![Instruction::AssertWordBoundary],
        Syntax::AssertNonWordBoundary => seq![Instruction::AssertNonWordBoundary],
    }
}

/// The program of a tree: its instructions from position 0 with all
/// registers free, followed by `Accept`.
pub open spec fn program(e: Syntax) -> Seq<Instruction> {
    emit(e, 0, 0).push(Instruction::Accept)
}

/// The length of what [`emit`] gives does not depend on where it stands.
pub proof fn lemma_emit_len(e: Syntax, pc: int, reg: int)
    ensures
        emit(e, pc, reg).len() == code_len(e),
    decreases weight(e),
{
    match e {
        Syntax::CharacterClass(ranges) => {
            if ranges.len() > 0 {
                lemma_class_alternation_weight(ranges);
                lemma_class_alternation_shape(ranges);
                lemma_emit_len(class_alternation(ranges), pc, reg);
            }
        },
        Syntax::Concatenate(l, r) => {
            lemma_emit_len(*l, pc, reg);
            lemma_emit_len(*r, pc + code_len(*l), reg + counters(*l));
        },
        Syntax::Alternate(l, r) => {
            lemma_emit_len(*l, pc + 1, reg);
            lemma_emit_len(*r, pc + 2 + code_len(*l), reg + counters(*l));
        },
        Syntax::SubExpression(e, slot) => {
            lemma_emit_len(*e, pc + 1, reg);
            lemma_emit_len(*e, pc, reg);
        },
        Syntax::Question(e, _) => {
            lemma_emit_len(*e, pc + 1, reg);
        },
        Syntax::Star(e, _) => {
            lemma_emit_len(*e, pc + 1, reg);
        },
        Syntax::Plus(e, _) => {
            lemma_emit_len(*e, pc, reg);
        },
        Syntax::ExactRepetition(e, _, _) => {
            lemma_emit_len(*e, pc + 2, reg + 1);
        },
        Syntax::UnboundedRepetition(e, _, _) => {
            lemma_emit_len(*e, pc + 2, reg + 1);
        },
        Syntax::BoundedRepetition(e, _, _, _) => {
            lemma_emit_len(*e, pc + 3, reg + 1);
        },
        _ => {},
    }
}

/// The alternation of a class is well formed, needs no counter, and is as
/// long as the class.
pub proof fn lemma_class_alternation_shape(ranges: Seq<(char, char)>)
    requires
        ranges.len() > 0,
    ensures
        class_alternation(ranges).well_formed(),
        counters(class_alternation(ranges)) == 0,
        code_len(class_alternation(ranges)) == 3 * ranges.len() - 2,
    decreases ranges.len(),
{
    let trees = members(ranges);
    assert(trees[0].well_formed() && counters(trees[0]) == 0 && code_len(trees[0]) == 1);
    if ranges.len() > 1 {
        lemma_class_alternation_shape(ranges.drop_first());
        assert(trees.drop_first() =~= members(ranges.drop_first()));
        assert(alternation(trees) == Syntax::Alternate(
            Box::new(trees[0]),
            Box::new(alternation(trees.drop_first())),
        ));
    }
}

/// A tree needs no more counters than it has instructions.
pub proof fn lemma_counters_le_code_len(e: Syntax)
    ensures
        counters(e) <= code_len(e),
    decreases e,
{
    match e {
        Syntax::Concatenate(l, r) => {
            lemma_counters_le_code_len(*l);
            lemma_counters_le_code_len(*r);
        },
        Syntax::Alternate(l, r) => {
            lemma_counters_le_code_len(*l);
            lemma_counters_le_code_len(*r);
        },
        Syntax::SubExpression(e, _) => lemma_counters_le_code_len(*e),
        Syntax::Question(e, _) => lemma_counters_le_code_len(*e),
        Syntax::Star(e, _) => lemma_counters_le_code_len(*e),
        Syntax::Plus(e, _) => lemma_counters_le_code_len(*e),
        Syntax::ExactRepetition(e, _, _) => lemma_counters_le_code_len(*e),
        Syntax::UnboundedRepetition(e, _, _) => lemma_counters_le_code_len(*e),
        Syntax::BoundedRepetition(e, _, _, _) => lemma_counters_le_code_len(*e),
        _ => {},
    }
}

/// Folding the last two trees of a sequence into their alternation leaves
/// the alternation of the whole unchanged.
pub proof fn lemma_alternation_fold_last(trees: Seq<Syntax>)
    requires
        trees.len() >= 2,
    ensures
        alternation(trees) == alternation(
            trees.take(trees.len() - 2).push(
                Syntax::Alternate(
                    Box::new(trees[trees.len() - 2]),
                    Box::new(trees[trees.len() - 1]),
                ),
            ),
        ),
    decreases trees.len(),
{
    let n = trees.len() as int;
    let folded = trees.take(n - 2).push(
        Syntax::Alternate(Box::new(trees[n - 2]), Box::new(trees[n - 1])),
    );
    if n == 2 {
        assert(trees.drop_first().len() == 1);
        assert(alternation(trees.drop_first()) == trees[1]);
        assert(folded.len() == 1);
    } else {
        let rest = trees.drop_first();
        lemma_alternation_fold_last(rest);
        assert(folded.drop_first() =~= rest.take(n - 3).push(
            Syntax::Alternate(Box::new(rest[n - 3]), Box::new(rest[n - 2])),
        ));
        assert(folded[0] == trees[0]);
    }
}

/// The `Fork` of a quantifier: the preferred target comes first.
pub fn fork(typ: QuantifierType, greedy: usize, nongreedy: usize) -> (instruction: Instruction)
    ensures
        instruction == fork_for(typ, greedy as int, nongreedy as int),
{
    match typ {
        QuantifierType::Greedy => Instruction::Fork(greedy, nongreedy),
        QuantifierType::NonGreedy => Instruction::Fork(nongreedy, greedy),
    }
}

/// Folds a stack of trees into one: the alternation of all of them, nested
/// to the right. An empty stack stays empty.
pub fn do_alternate(stack: &mut Vec<Expression>)
    ensures
        old(stack).len() == 0 ==> final(stack)@ == old(stack)@,
        old(stack).len() > 0 ==> final(stack).len() == 1 && final(stack)@[0]@ == alternation(
            syntaxes(old(stack)@),
        ),
{
    while stack.len() > 1
        invariant
            old(stack).len() == 0 ==> stack@ == old(stack)@,
            old(stack).len() > 0 ==> stack.len() > 0 && alternation(syntaxes(stack@))
                == alternation(syntaxes(old(stack)@)),
        decreases stack.len(),
    {
        let ghost before = syntaxes(stack@);
        let right = stack.pop().unwrap();
        let left = stack.pop().unwrap();
        stack.push(Expression::Alternate(Box::new(left), Box::new(right)));
        proof {
            lemma_alternation_fold_last(before);
            assert(syntaxes(stack@) =~= before.take(before.len() - 2).push(
                Syntax::Alternate(
                    Box::new(before[before.len() - 2]),
                    Box::new(before[before.len() - 1]),
                ),
            ));
        }
    }
}

/// The trees that the ranges of a character class stand for.
pub fn class_members(ranges: &Vec<(char, char)>) -> (trees: Vec<Expression>)
    ensures
        syntaxes(trees@) == members(ranges@),
{
    let mut trees: Vec<Expression> = Vec::new();
    let mut i: usize = 0;
    while i < ranges.len()
        invariant
            i <= ranges.len(),
            trees.len() == i,
            syntaxes(trees@) =~= members(ranges@.take(i as int)),
        decreases ranges.len() - i,
    {
        let ghost before = trees@;
        let start = range_start(ranges, i);
        let end = range_end(ranges, i);
        let tree = if start == end {
            Expression::Literal(start)
        } else {
            Expression::RangeLiteral(start, end)
        };
        trees.push(tree);
        proof {
            assert(ranges@.take(i + 1) =~= ranges@.take(i as int).push(ranges@[i as int]));
            assert(trees@[i as int]@ == member(ranges@[i as int]));
            assert(syntaxes(trees@) =~= syntaxes(before).push(member(ranges@[i as int])));
            assert(members(ranges@.take(i + 1)) =~= members(ranges@.take(i as int)).push(
                member(ranges@[i as int]),
            ));
        }
        i += 1;
    }
    proof {
        assert(ranges@.take(i as int) =~= ranges@);
    }
    trees
}

/// What the callers of the lowering functions owe: the tree is well
/// formed, and its instructions and counters fit behind what is there.
pub open spec fn lowering_fits(e: Syntax, code_len_before: int, registers_before: int) -> bool {
    &&& e.well_formed()
    &&& code_len_before + code_len(e) < usize::MAX
    &&& registers_before + counters(e) <= usize::MAX
}

/// Appends the instructions of `expression` to `code`, taking counter
/// registers from `*registers` on.
pub fn compile_recursive(
    expression: &Expression,
    code: &mut Vec<Instruction>,
    registers: &mut usize,
)
    requires
        lowering_fits(expression@, old(code).len() as int, *old(registers) as int),
    ensures
        final(code)@ == old(code)@ + emit(
            expression@,
            old(code).len() as int,
            *old(registers) as int,
        ),
        final(code).len() == old(code).len() + code_len(expression@),
        *final(registers) == *old(registers) + counters(expression@),
    decreases weight(expression@), 1int,
{
    proof {
        lemma_emit_len(expression@, code.len() as int, *registers as int);
    }
    match expression {
        Expression::Literal(c) => {
            code.push(Instruction::Char(*c));
        },
        Expression::AnyLiteral => {
            code.push(Instruction::Any);
        },
        Expression::RangeLiteral(start, end) => {
            code.push(Instruction::Range(*start, *end));
        },
        Expression::CharacterClass(ranges) => compile_class(ranges, code, registers),
        Expression::Concatenate(left, right) => compile_concatenate(left, right, code, registers),
        Expression::Alternate(left, right) => compile_alternate(left, right, code, registers),
        Expression::SubExpression(e, capture_slot) => {
            match capture_slot {
                Some(slot) => compile_group(e, *slot, code, registers),
                None => compile_recursive(e, code, registers),
            }
        },
        Expression::Question(e, typ) => compile_question(e, *typ, code, registers),
        Expression::Star(e, typ) => compile_star(e, *typ, code, registers),
        Expression::Plus(e, typ) => compile_plus(e, *typ, code, registers),
        Expression::ExactRepetition(e, count, typ) => compile_exact(
            e,
            *count,
            *typ,
            code,
            registers,
        ),
        Expression::UnboundedRepetition(e, low, typ) => compile_unbounded(
            e,
            *low,
            *typ,
            code,
            registers,
        ),
        Expression::BoundedRepetition(e, low, high, typ) => compile_bounded(
            e,
            *low,
            *high,
            *typ,
            code,
            registers,
        ),
        Expression::AssertStart => code.push(Instruction::AssertStart),
        Expression::AssertEnd => code.push(Instruction::AssertEnd),
        Expression::AssertWordBoundary => code.push(Instruction::AssertWordBoundary),
        Expression::AssertNonWordBoundary => code.push(Instruction::AssertNonWordBoundary),
    }
}

/// A character class: the alternation of its members, folded and lowered.
fn compile_class(ranges: &Vec<(char, char)>, code: &mut Vec<Instruction>, registers: &mut usize)
    requires
        lowering_fits(
            Syntax::CharacterClass(ranges@),
            old(code).len() as int,
            *old(registers) as int,
        ),
    ensures
        final(code)@ == old(code)@ + emit(
            Syntax::CharacterClass(ranges@),
            old(code).len() as int,
            *old(registers) as int,
        ),
        *final(registers) == *old(registers),
    decreases 2 * ranges.len(), 0int,
{
    let mut stack = class_members(ranges);
    do_alternate(&mut stack);
    let tree = stack.pop().unwrap();
    proof {
        lemma_class_alternation_weight(ranges@);
        lemma_class_alternation_shape(ranges@);
    }
    compile_recursive(&tree, code, registers);
}

/// A sequence: the left tree, then the right one.
fn compile_concatenate(
    left: &Expression,
    right: &Expression,
    code: &mut Vec<Instruction>,
    registers: &mut usize,
)
    requires
        lowering_fits(
            Syntax::Concatenate(Box::new(left@), Box::new(right@)),
            old(code).len() as int,
            *old(registers) as int,
        ),
    ensures
        final(code)@ == old(code)@ + emit(
            Syntax::Concatenate(Box::new(left@), Box::new(right@)),
            old(code).len() as int,
            *old(registers) as int,
        ),
        *final(registers) == *old(registers) + counters(left@) + counters(right@),
    decreases 1 + weight(left@) + weight(right@), 0int,
{
    let ghost base = code@;
    let ghost reg = *registers as int;
    compile_recursive(left, code, registers);
    compile_recursive(right, code, registers);
    assert(code@ =~= base + (emit(left@, base.len() as int, reg) + emit(
        right@,
        (base.len() + code_len(left@)) as int,
        reg + counters(left@),
    )));
}

/// A choice: a fork into the left tree, which ends by jumping over the
/// right one.
fn compile_alternate(
    left: &Expression,
    right: &Expression,
    code: &mut Vec<Instruction>,
    registers: &mut usize,
)
    requires
        lowering_fits(
            Syntax::Alternate(Box::new(left@), Box::new(right@)),
            old(code).len() as int,
            *old(registers) as int,
        ),
    ensures
        final(code)@ == old(code)@ + emit(
            Syntax::Alternate(Box::new(left@), Box::new(right@)),
            old(code).len() as int,
            *old(registers) as int,
        ),
        *final(registers) == *old(registers) + counters(left@) + counters(right@),
    decreases 1 + weight(left@) + weight(right@), 0int,
{
    let ghost base = code@;
    let ghost reg = *registers as int;
    let pc = code.len();
    code.push(Instruction::Fork(0, 0));
    compile_recursive(left, code, registers);
    code[pc] = Instruction::Fork(pc + 1, code.len() + 1);
    let jump_pc = code.len();
    code.push(Instruction::Jump(0));
    compile_recursive(right, code, registers);
    code[jump_pc] = Instruction::Jump(code.len());
    assert(code@ =~= base + emit(
        Syntax::Alternate(Box::new(left@), Box::new(right@)),
        pc as int,
        reg,
    ));
}

/// A capturing group: its tree between the two saves.
fn compile_group(e: &Expression, slot: usize, code: &mut Vec<Instruction>, registers: &mut usize)
    requires
        lowering_fits(
            Syntax::SubExpression(Box::new(e@), Some(slot)),
            old(code).len() as int,
            *old(registers) as int,
        ),
    ensures
        final(code)@ == old(code)@ + emit(
            Syntax::SubExpression(Box::new(e@), Some(slot)),
            old(code).len() as int,
            *old(registers) as int,
        ),
        *final(registers) == *old(registers) + counters(e@),
    decreases 1 + weight(e@), 0int,
{
    let ghost base = code@;
    let ghost reg = *registers as int;
    code.push(Instruction::SaveStart(slot));
    compile_recursive(e, code, registers);
    code.push(Instruction::SaveEnd(slot));
    assert(code@ =~= base + emit(
        Syntax::SubExpression(Box::new(e@), Some(slot)),
        base.len() as int,
        reg,
    ));
}

/// `?`: a fork that may skip the tree.
fn compile_question(
    e: &Expression,
    typ: QuantifierType,
    code: &mut Vec<Instruction>,
    registers: &mut usize,
)
    requires
        lowering_fits(
            Syntax::Question(Box::new(e@), typ),
            old(code).len() as int,
            *old(registers) as int,
        ),
    ensures
        final(code)@ == old(code)@ + emit(
            Syntax::Question(Box::new(e@), typ),
            old(code).len() as int,
            *old(registers) as int,
        ),
        *final(registers) == *old(registers) + counters(e@),
    decreases 1 + weight(e@), 0int,
{
    let ghost base = code@;
    let ghost reg = *registers as int;
    let pc = code.len();
    code.push(Instruction::Fork(0, 0));
    compile_recursive(e, code, registers);
    let instr = fork(typ, pc + 1, code.len());
    code[pc] = instr;
    assert(code@ =~= base + emit(Syntax::Question(Box::new(e@), typ), pc as int, reg));
}

/// `*`: a fork that may skip the tree, which ends by jumping back to it.
fn compile_star(
    e: &Expression,
    typ: QuantifierType,
    code: &mut Vec<Instruction>,
    registers: &mut usize,
)
    requires
        lowering_fits(
            Syntax::Star(Box::new(e@), typ),
            old(code).len() as int,
            *old(registers) as int,
        ),
    ensures
        final(code)@ == old(code)@ + emit(
            Syntax::Star(Box::new(e@), typ),
            old(code).len() as int,
            *old(registers) as int,
        ),
        *final(registers) == *old(registers) + counters(e@),
    decreases 1 + weight(e@), 0int,
{
    let ghost base = code@;
    let ghost reg = *registers as int;
    let pc = code.len();
    code.push(Instruction::Fork(0, 0));
    compile_recursive(e, code, registers);
    let instr = fork(typ, pc + 1, code.len() + 1);
    code[pc] = instr;
    code.push(Instruction::Jump(pc));
    assert(code@ =~= base + emit(Syntax::Star(Box::new(e@), typ), pc as int, reg));
}

/// `+`: the tree, then a fork that may go back to it.
fn compile_plus(
    e: &Expression,
    typ: QuantifierType,
    code: &mut Vec<Instruction>,
    registers: &mut usize,
)
    requires
        lowering_fits(
            Syntax::Plus(Box::new(e@), typ),
            old(code).len() as int,
            *old(registers) as int,
        ),
    ensures
        final(code)@ == old(code)@ + emit(
            Syntax::Plus(Box::new(e@), typ),
            old(code).len() as int,
            *old(registers) as int,
        ),
        *final(registers) == *old(registers) + counters(e@),
    decreases 1 + weight(e@), 0int,
{
    let ghost base = code@;
    let ghost reg = *registers as int;
    let pc = code.len();
    compile_recursive(e, code, registers);
    let instr = fork(typ, pc, code.len() + 1);
    code.push(instr);
    assert(code@ =~= base + emit(Syntax::Plus(Box::new(e@), typ), pc as int, reg));
}

/// `{n}`: a counted loop that leaves when the counter equals `count`.
fn compile_exact(
    e: &Expression,
    count: usize,
    typ: QuantifierType,
    code: &mut Vec<Instruction>,
    registers: &mut usize,
)
    requires
        lowering_fits(
            Syntax::ExactRepetition(Box::new(e@), count, typ),
            old(code).len() as int,
            *old(registers) as int,
        ),
    ensures
        final(code)@ == old(code)@ + emit(
            Syntax::ExactRepetition(Box::new(e@), count, typ),
            old(code).len() as int,
            *old(registers) as int,
        ),
        *final(registers) == *old(registers) + counters(e@) + 1,
    decreases 1 + weight(e@), 0int,
{
    let ghost base = code@;
    let ghost reg = *registers as int;
    let register = *registers;
    *registers += 1;
    let pc = code.len();
    code.push(Instruction::ConditionalJumpEq(0, 0, 0));
    code.push(Instruction::Fork(0, 0));
    compile_recursive(e, code, registers);
    code.push(Instruction::Increment(register));
    code[pc] = Instruction::ConditionalJumpEq(register, count, code.len() + 1);
    code[pc + 1] = fork(typ, pc + 2, code.len() + 1);
    code.push(Instruction::Jump(pc));
    assert(code@ =~= base + emit(
        Syntax::ExactRepetition(Box::new(e@), count, typ),
        pc as int,
        reg,
    ));
}

/// `{n,}`: a counted loop that must repeat while the counter is below `low`.
fn compile_unbounded(
    e: &Expression,
    low: usize,
    typ: QuantifierType,
    code: &mut Vec<Instruction>,
    registers: &mut usize,
)
    requires
        lowering_fits(
            Syntax::UnboundedRepetition(Box::new(e@), low, typ),
            old(code).len() as int,
            *old(registers) as int,
        ),
    ensures
        final(code)@ == old(code)@ + emit(
            Syntax::UnboundedRepetition(Box::new(e@), low, typ),
            old(code).len() as int,
            *old(registers) as int,
        ),
        *final(registers) == *old(registers) + counters(e@) + 1,
    decreases 1 + weight(e@), 0int,
{
    let ghost base = code@;
    let ghost reg = *registers as int;
    let register = *registers;
    *registers += 1;
    let pc = code.len();
    code.push(Instruction::ConditionalJumpLE(register, low, pc + 2));
    code.push(Instruction::Fork(0, 0));
    compile_recursive(e, code, registers);
    code.push(Instruction::Increment(register));
    code[pc + 1] = fork(typ, pc + 2, code.len() + 1);
    code.push(Instruction::Jump(pc));
    assert(code@ =~= base + emit(
        Syntax::UnboundedRepetition(Box::new(e@), low, typ),
        pc as int,
        reg,
    ));
}

/// `{n,m}`: a counted loop that leaves when the counter equals `high` and
/// must repeat while it is below `low`.
fn compile_bounded(
    e: &Expression,
    low: usize,
    high: usize,
    typ: QuantifierType,
    code: &mut Vec<Instruction>,
    registers: &mut usize,
)
    requires
        lowering_fits(
            Syntax::BoundedRepetition(Box::new(e@), low, high, typ),
            old(code).len() as int,
            *old(registers) as int,
        ),
    ensures
        final(code)@ == old(code)@ + emit(
            Syntax::BoundedRepetition(Box::new(e@), low, high, typ),
            old(code).len() as int,
            *old(registers) as int,
        ),
        *final(registers) == *old(registers) + counters(e@) + 1,
    decreases 1 + weight(e@), 0int,
{
    let ghost base = code@;
    let ghost reg = *registers as int;
    let register = *registers;
    *registers += 1;
    let pc = code.len();
    code.push(Instruction::ConditionalJumpEq(0, 0, 0));
    code.push(Instruction::ConditionalJumpLE(register, low, pc + 3));
    code.push(Instruction::Fork(0, 0));
    compile_recursive(e, code, registers);
    code.push(Instruction::Increment(register));
    code[pc] = Instruction::ConditionalJumpEq(register, high, code.len() + 1);
    code[pc + 2] = fork(typ, pc + 3, code.len() + 1);
    code.push(Instruction::Jump(pc));
    assert(code@ =~= base + emit(
        Syntax::BoundedRepetition(Box::new(e@), low, high, typ),
        pc as int,
        reg,
    ));
}

/// Lowers a tree to its program.
pub fn compile(expression: &Expression) -> (code: Vec<Instruction>)
    requires
        expression@.well_formed(),
        code_len(expression@) < usize::MAX,
    ensures
        code@ == program(expression@),
        code@.len() == code_len(expression@) + 1,
        code@.last() == Instruction::Accept,
        all_aim_within(code@, 0, code@.len() - 1),
        max_register(code@) < usize::MAX,
{
    let mut code: Vec<Instruction> = Vec::new();
    let mut registers: usize = 0;
    proof {
        lemma_counters_le_code_len(expression@);
        lemma_program_aims_inside(expression@);
        lemma_program_registers(expression@);
    }
    compile_recursive(expression, &mut code, &mut registers);
    code.push(Instruction::Accept);
    code
}

/// The counter register that an instruction reads or writes, if any.
pub open spec fn register_of(instruction: Instruction) -> Option<usize> {
    match instruction {
        Instruction::Increment(register) => Some(register),
        Instruction::ConditionalJumpEq(register, _, _) => Some(register),
        Instruction::ConditionalJumpLE(register, _, _) => Some(register),
        _ => None,
    }
}

/// The largest register id that the code refers to, 0 if it refers to none.
pub open spec fn max_register(code: Seq<Instruction>) -> nat
    decreases code.len(),
{
    if code.len() == 0 {
        0
    } else {
        let before = max_register(code.drop_last());
        match register_of(code.last()) {
            Some(register) => if register > before {
                register as nat
            } else {
                before
            },
            None => before,
        }
    }
}

/// The number of counter registers that the code needs: one more than the
/// largest register id it refers to.
pub open spec fn register_count(code: Seq<Instruction>) -> nat {
    max_register(code) + 1
}

/// Every register that the code refers to lies below `bound`.
pub open spec fn registers_below(code: Seq<Instruction>, bound: int) -> bool {
    forall|i: int|
        0 <= i < code.len() ==> (#[trigger] register_of(code[i]) matches Some(register)
            ==> register < bound)
}

/// Every register that the code refers to lies below its register count.
pub proof fn lemma_register_count_covers(code: Seq<Instruction>)
    ensures
        registers_below(code, register_count(code) as int),
    decreases code.len(),
{
    if code.len() > 0 {
        lemma_register_count_covers(code.drop_last());
        assert forall|i: int| 0 <= i < code.len() implies (#[trigger] register_of(code[i])
            matches Some(register) ==> register < register_count(code)) by {
            if i < code.len() - 1 {
                assert(code[i] == code.drop_last()[i]);
            }
        }
    }
}

/// Code whose registers all lie below a positive bound has a register
/// count of at most that bound.
pub proof fn lemma_register_count_bounded(code: Seq<Instruction>, bound: int)
    requires
        registers_below(code, bound),
        bound >= 1,
    ensures
        register_count(code) <= bound,
    decreases code.len(),
{
    if code.len() > 0 {
        assert forall|i: int| 0 <= i < code.drop_last().len() implies (#[trigger] register_of(
            code.drop_last()[i],
        ) matches Some(register) ==> register < bound) by {
            assert(code.drop_last()[i] == code[i]);
        }
        lemma_register_count_bounded(code.drop_last(), bound);
        assert(register_of(code[code.len() - 1]) matches Some(register) ==> register < bound);
    }
}

/// Whether the machine can hold the counter registers that the code
/// refers to: no register id is the largest number there is.
pub fn registers_fit(code: &[Instruction]) -> (ok: bool)
    ensures
        ok == (max_register(code@) < usize::MAX),
{
    let mut i: usize = 0;
    while i < code.len()
        invariant
            i <= code.len(),
            max_register(code@.take(i as int)) < usize::MAX,
        decreases code.len() - i,
    {
        proof {
            assert(code@.take(i + 1).drop_last() =~= code@.take(i as int));
            lemma_max_register_grows(code@, i + 1);
        }
        let full = match code[i] {
            Instruction::Increment(register) => register == usize::MAX,
            Instruction::ConditionalJumpEq(register, _, _) => register == usize::MAX,
            Instruction::ConditionalJumpLE(register, _, _) => register == usize::MAX,
            _ => false,
        };
        if full {
            return false;
        }
        i += 1;
    }
    proof {
        assert(code@.take(i as int) =~= code@);
    }
    true
}

/// The largest register of a program is at least that of each of its
/// beginnings.
pub proof fn lemma_max_register_grows(code: Seq<Instruction>, k: int)
    requires
        0 <= k <= code.len(),
    ensures
        max_register(code.take(k)) <= max_register(code),
    decreases code.len() - k,
{
    if k < code.len() {
        lemma_max_register_grows(code, k + 1);
        assert(code.take(k + 1).drop_last() =~= code.take(k));
    } else {
        assert(code.take(k) =~= code);
    }
}

/// The number of counter registers that the code needs.
pub fn count_registers(code: &[Instruction]) -> (count: usize)
    requires
        max_register(code@) < usize::MAX,
    ensures
        count == register_count(code@),
{
    let mut max: usize = 0;
    let mut i: usize = 0;
    while i < code.len()
        invariant
            i <= code.len(),
            max == max_register(code@.take(i as int)),
        decreases code.len() - i,
    {
        proof {
            assert(code@.take(i + 1).drop_last() =~= code@.take(i as int));
        }
        match code[i] {
            Instruction::Increment(register) => {
                if register > max {
                    max = register;
                }
            },
            Instruction::ConditionalJumpEq(register, _, _) => {
                if register > max {
                    max = register;
                }
            },
            Instruction::ConditionalJumpLE(register, _, _) => {
                if register > max {
                    max = register;
                }
            },
            _ => (),
        }
        i += 1;
    }
    proof {
        assert(code@.take(i as int) =~= code@);
    }
    max + 1
}

/// The length of the program of `expression`, if it fits the machine:
/// `None` when the program would have more than `usize::MAX` instructions.
pub fn program_size(expression: &Expression) -> (size: Option<usize>)
    ensures
        code_len(expression@) < usize::MAX ==> size == Some((code_len(expression@) + 1) as usize),
        code_len(expression@) >= usize::MAX ==> size is None,
{
    match tree_size(expression) {
        Some(n) => if n < usize::MAX {
            Some(n + 1)
        } else {
            None
        },
        None => None,
    }
}

/// The number of instructions that `expression` is lowered to, if that
/// number fits in `usize`.
pub fn tree_size(expression: &Expression) -> (size: Option<usize>)
    ensures
        code_len(expression@) <= usize::MAX ==> size == Some(code_len(expression@) as usize),
        code_len(expression@) > usize::MAX ==> size is None,
    decreases expression,
{
    match expression {
        Expression::CharacterClass(ranges) => {
            let k = ranges.len();
            if k == 0 {
                Some(0)
            } else if k <= usize::MAX / 3 {
                Some(3 * k - 2)
            } else {
                None
            }
        },
        Expression::Concatenate(left, right) => sum_sizes(tree_size(left), tree_size(right), 0),
        Expression::Alternate(left, right) => sum_sizes(tree_size(left), tree_size(right), 2),
        Expression::SubExpression(e, slot) => match slot {
            Some(_) => sum_sizes(tree_size(e), Some(0), 2),
            None => tree_size(e),
        },
        Expression::Question(e, _) => sum_sizes(tree_size(e), Some(0), 1),
        Expression::Star(e, _) => sum_sizes(tree_size(e), Some(0), 2),
        Expression::Plus(e, _) => sum_sizes(tree_size(e), Some(0), 1),
        Expression::ExactRepetition(e, _, _) => sum_sizes(tree_size(e), Some(0), 4),
        Expression::UnboundedRepetition(e, _, _) => sum_sizes(tree_size(e), Some(0), 4),
        Expression::BoundedRepetition(e, _, _, _) => sum_sizes(tree_size(e), Some(0), 5),
        _ => Some(1),
    }
}

/// `a + b + extra`, if both are there and the sum fits in `usize`.
fn sum_sizes(a: Option<usize>, b: Option<usize>, extra: usize) -> (sum: Option<usize>)
    ensures
        sum == (if a is Some && b is Some && a->0 + b->0 + extra <= usize::MAX {
            Some((a->0 + b->0 + extra) as usize)
        } else {
            None
        }),
{
    match (a, b) {
        (Some(x), Some(y)) => {
            if x <= usize::MAX - y && x + y <= usize::MAX - extra {
                Some(x + y + extra)
            } else {
                None
            }
        },
        _ => None,
    }
}

/// Code made of two parts keeps a bound that both parts keep.
pub proof fn lemma_registers_below_add(a: Seq<Instruction>, b: Seq<Instruction>, bound: int)
    requires
        registers_below(a, bound),
        registers_below(b, bound),
    ensures
        registers_below(a + b, bound),
{
    assert forall|i: int| 0 <= i < (a + b).len() implies (#[trigger] register_of((a + b)[i])
        matches Some(register) ==> register < bound) by {
        if i < a.len() {
            assert((a + b)[i] == a[i]);
        } else {
            assert((a + b)[i] == b[i - a.len()]);
        }
    }
}

/// A single instruction keeps a bound that its register keeps.
pub proof fn lemma_registers_below_one(x: Instruction, bound: int)
    requires
        register_of(x) matches Some(register) ==> register < bound,
    ensures
        registers_below(seq![x], bound),
{
    assert forall|i: int| 0 <= i < seq![x].len() implies (#[trigger] register_of(seq![x][i])
        matches Some(register) ==> register < bound) by {
        assert(seq![x][i] == x);
    }
}

/// Code between two instructions keeps a bound that all three keep.
pub proof fn lemma_registers_below_framed(
    head: Seq<Instruction>,
    body: Seq<Instruction>,
    tail: Seq<Instruction>,
    bound: int,
)
    requires
        registers_below(head, bound),
        registers_below(body, bound),
        registers_below(tail, bound),
    ensures
        registers_below(head + body + tail, bound),
{
    lemma_registers_below_add(head, body, bound);
    lemma_registers_below_add(head + body, tail, bound);
}

/// Code that keeps a bound keeps every larger bound.
pub proof fn lemma_registers_below_more(code: Seq<Instruction>, bound: int, more: int)
    requires
        registers_below(code, bound),
        bound <= more,
    ensures
        registers_below(code, more),
{
    assert forall|i: int| 0 <= i < code.len() implies (#[trigger] register_of(code[i])
        matches Some(register) ==> register < more) by {}
}

/// The head and the tail of a counted loop with the register `reg` keep
/// every bound above `reg`.
pub proof fn lemma_registers_of_loop(
    first: Instruction,
    second: Instruction,
    third: Instruction,
    reg: int,
    pc: int,
    bound: int,
)
    requires
        0 <= reg < bound,
        reg <= usize::MAX,
        register_of(first) matches Some(register) ==> register == reg,
        register_of(second) matches Some(register) ==> register == reg,
        register_of(third) matches Some(register) ==> register == reg,
    ensures
        registers_below(seq![first, second], bound),
        registers_below(seq![first, second, third], bound),
        registers_below(
            seq![Instruction::Increment(reg as usize), Instruction::Jump(pc as usize)],
            bound,
        ),
{
    lemma_registers_below_one(first, bound);
    lemma_registers_below_one(second, bound);
    lemma_registers_below_one(third, bound);
    lemma_registers_below_add(seq![first], seq![second], bound);
    assert(seq![first] + seq![second] =~= seq![first, second]);
    lemma_registers_below_add(seq![first, second], seq![third], bound);
    assert(seq![first, second] + seq![third] =~= seq![first, second, third]);
    let inc = Instruction::Increment(reg as usize);
    let jump = Instruction::Jump(pc as usize);
    lemma_registers_below_one(inc, bound);
    lemma_registers_below_one(jump, bound);
    lemma_registers_below_add(seq![inc], seq![jump], bound);
    assert(seq![inc] + seq![jump] =~= seq![inc, jump]);
}

/// The instructions of a tree use only the counter registers handed to
/// it: those from `reg` up to, but not including, `reg + counters(e)`.
pub proof fn lemma_emit_registers(e: Syntax, pc: int, reg: int)
    requires
        0 <= reg,
        reg + counters(e) <= usize::MAX,
    ensures
        registers_below(emit(e, pc, reg), reg + counters(e)),
    decreases weight(e), 1int,
{
    match e {
        Syntax::CharacterClass(ranges) => {
            if ranges.len() > 0 {
                lemma_class_alternation_weight(ranges);
                lemma_class_alternation_shape(ranges);
                lemma_emit_registers(class_alternation(ranges), pc, reg);
            }
        },
        Syntax::Concatenate(l, r) => lemma_emit_registers_pair(*l, *r, false, pc, reg),
        Syntax::Alternate(l, r) => lemma_emit_registers_pair(*l, *r, true, pc, reg),
        Syntax::SubExpression(inner, slot) => lemma_emit_registers_plain(e, *inner, pc, reg),
        Syntax::Question(inner, typ) => lemma_emit_registers_plain(e, *inner, pc, reg),
        Syntax::Star(inner, typ) => lemma_emit_registers_plain(e, *inner, pc, reg),
        Syntax::Plus(inner, typ) => lemma_emit_registers_plain(e, *inner, pc, reg),
        Syntax::ExactRepetition(inner, count, typ) => lemma_emit_registers_counted(
            e,
            *inner,
            pc,
            reg,
        ),
        Syntax::UnboundedRepetition(inner, low, typ) => lemma_emit_registers_counted(
            e,
            *inner,
            pc,
            reg,
        ),
        Syntax::BoundedRepetition(inner, low, high, typ) => lemma_emit_registers_counted(
            e,
            *inner,
            pc,
            reg,
        ),
        _ => {
            assert(emit(e, pc, reg).len() == 1);
            assert(register_of(emit(e, pc, reg)[0]) is None);
        },
    }
}

/// [`lemma_emit_registers`] for a sequence (`choice` false) or a choice
/// (`choice` true) of two trees.
proof fn lemma_emit_registers_pair(l: Syntax, r: Syntax, choice: bool, pc: int, reg: int)
    requires
        0 <= reg,
        reg + counters(l) + counters(r) <= usize::MAX,
    ensures
        choice ==> registers_below(
            emit(Syntax::Alternate(Box::new(l), Box::new(r)), pc, reg),
            reg + counters(l) + counters(r),
        ),
        !choice ==> registers_below(
            emit(Syntax::Concatenate(Box::new(l), Box::new(r)), pc, reg),
            reg + counters(l) + counters(r),
        ),
    decreases 1 + weight(l) + weight(r), 0int,
{
    let bound = reg + counters(l) + counters(r);
    if choice {
        let after_left = pc + 1 + code_len(l);
        lemma_emit_registers(l, pc + 1, reg);
        lemma_emit_registers(r, after_left + 1, reg + counters(l));
        let a = seq![Instruction::Fork((pc + 1) as usize, (after_left + 1) as usize)];
        let b = emit(l, pc + 1, reg);
        let c = seq![Instruction::Jump((after_left + 1 + code_len(r)) as usize)];
        let d = emit(r, after_left + 1, reg + counters(l));
        lemma_registers_below_one(a[0], bound);
        lemma_registers_below_one(c[0], bound);
        lemma_registers_below_more(b, reg + counters(l), bound);
        lemma_registers_below_framed(a, b, c, bound);
        lemma_registers_below_add(a + b + c, d, bound);
    } else {
        lemma_emit_registers(l, pc, reg);
        lemma_emit_registers(r, pc + code_len(l), reg + counters(l));
        lemma_registers_below_more(emit(l, pc, reg), reg + counters(l), bound);
        lemma_registers_below_add(
            emit(l, pc, reg),
            emit(r, pc + code_len(l), reg + counters(l)),
            bound,
        );
    }
}

/// [`lemma_emit_registers`] for a group or a quantifier without a counter
/// around the tree `inner`.
proof fn lemma_emit_registers_plain(e: Syntax, inner: Syntax, pc: int, reg: int)
    requires
        0 <= reg,
        reg + counters(inner) <= usize::MAX,
        match e {
            Syntax::SubExpression(x, _) => *x == inner,
            Syntax::Question(x, _) => *x == inner,
            Syntax::Star(x, _) => *x == inner,
            Syntax::Plus(x, _) => *x == inner,
            _ => false,
        },
    ensures
        registers_below(emit(e, pc, reg), reg + counters(inner)),
    decreases 1 + weight(inner), 0int,
{
    let bound = reg + counters(inner);
    let none = Seq::<Instruction>::empty();
    assert(registers_below(none, bound));
    match e {
        Syntax::SubExpression(_, slot) => {
            match slot {
                Some(group) => {
                    lemma_emit_registers(inner, pc + 1, reg);
                    lemma_registers_below_one(Instruction::SaveStart(group), bound);
                    lemma_registers_below_one(Instruction::SaveEnd(group), bound);
                    lemma_registers_below_framed(
                        seq![Instruction::SaveStart(group)],
                        emit(inner, pc + 1, reg),
                        seq![Instruction::SaveEnd(group)],
                        bound,
                    );
                },
                None => {
                    lemma_emit_registers(inner, pc, reg);
                },
            }
        },
        Syntax::Question(_, typ) => {
            lemma_emit_registers(inner, pc + 1, reg);
            let fork = fork_for(typ, pc + 1, pc + 1 + code_len(inner));
            lemma_registers_below_one(fork, bound);
            lemma_registers_below_add(seq![fork], emit(inner, pc + 1, reg), bound);
        },
        Syntax::Star(_, typ) => {
            lemma_emit_registers(inner, pc + 1, reg);
            let fork = fork_for(typ, pc + 1, pc + 2 + code_len(inner));
            lemma_registers_below_one(fork, bound);
            lemma_registers_below_one(Instruction::Jump(pc as usize), bound);
            lemma_registers_below_framed(
                seq![fork],
                emit(inner, pc + 1, reg),
                seq![Instruction::Jump(pc as usize)],
                bound,
            );
        },
        Syntax::Plus(_, typ) => {
            lemma_emit_registers(inner, pc, reg);
            let fork = fork_for(typ, pc, pc + code_len(inner) + 1);
            lemma_registers_below_one(fork, bound);
            lemma_registers_below_add(emit(inner, pc, reg), seq![fork], bound);
        },
        _ => {},
    }
}

/// [`lemma_emit_registers`] for a brace quantifier around the tree
/// `inner`.
proof fn lemma_emit_registers_counted(e: Syntax, inner: Syntax, pc: int, reg: int)
    requires
        0 <= reg,
        reg + counters(inner) + 1 <= usize::MAX,
        match e {
            Syntax::ExactRepetition(x, _, _) => *x == inner,
            Syntax::UnboundedRepetition(x, _, _) => *x == inner,
            Syntax::BoundedRepetition(x, _, _, _) => *x == inner,
            _ => false,
        },
    ensures
        registers_below(emit(e, pc, reg), reg + counters(inner) + 1),
    decreases 1 + weight(inner), 0int,
{
    let bound = reg + counters(inner) + 1;
    match e {
        Syntax::ExactRepetition(_, count, typ) => {
            let exit = pc + code_len(inner) + 4;
            lemma_emit_registers(inner, pc + 2, reg + 1);
            let first = Instruction::ConditionalJumpEq(reg as usize, count, exit as usize);
            let second = fork_for(typ, pc + 2, exit);
            lemma_registers_of_loop(first, second, second, reg, pc, bound);
            lemma_registers_below_framed(
                seq![first, second],
                emit(inner, pc + 2, reg + 1),
                seq![Instruction::Increment(reg as usize), Instruction::Jump(pc as usize)],
                bound,
            );
        },
        Syntax::UnboundedRepetition(_, low, typ) => {
            let exit = pc + code_len(inner) + 4;
            lemma_emit_registers(inner, pc + 2, reg + 1);
            let first = Instruction::ConditionalJumpLE(reg as usize, low, (pc + 2) as usize);
            let second = fork_for(typ, pc + 2, exit);
            lemma_registers_of_loop(first, second, second, reg, pc, bound);
            lemma_registers_below_framed(
                seq![first, second],
                emit(inner, pc + 2, reg + 1),
                seq![Instruction::Increment(reg as usize), Instruction::Jump(pc as usize)],
                bound,
            );
        },
        Syntax::BoundedRepetition(_, low, high, typ) => {
            let exit = pc + code_len(inner) + 5;
            lemma_emit_registers(inner, pc + 3, reg + 1);
            let first = Instruction::ConditionalJumpEq(reg as usize, high, exit as usize);
            let second = Instruction::ConditionalJumpLE(reg as usize, low, (pc + 3) as usize);
            let third = fork_for(typ, pc + 3, exit);
            lemma_registers_of_loop(first, second, third, reg, pc, bound);
            lemma_registers_below_framed(
                seq![first, second, third],
                emit(inner, pc + 3, reg + 1),
                seq![Instruction::Increment(reg as usize), Instruction::Jump(pc as usize)],
                bound,
            );
        },
        _ => {},
    }
}

/// The program of a tree that fits the machine needs fewer than
/// `usize::MAX` counter registers, and no more than the tree has brace
/// quantifiers, or one if it has none.
pub proof fn lemma_program_registers(e: Syntax)
    requires
        code_len(e) < usize::MAX,
    ensures
        register_count(program(e)) <= if counters(e) == 0 {
            1
        } else {
            counters(e)
        },
        max_register(program(e)) < usize::MAX,
{
    lemma_counters_le_code_len(e);
    lemma_emit_registers(e, 0, 0);
    let bound: int = if counters(e) == 0 {
        1
    } else {
        counters(e) as int
    };
    assert forall|i: int| 0 <= i < emit(e, 0, 0).len() implies (#[trigger] register_of(
        emit(e, 0, 0)[i],
    ) matches Some(register) ==> register < bound) by {}
    lemma_registers_below_add(emit(e, 0, 0), seq![Instruction::Accept], bound);
    assert(program(e) =~= emit(e, 0, 0) + seq![Instruction::Accept]);
    lemma_register_count_bounded(program(e), bound);
}

} // verus!
