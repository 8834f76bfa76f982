//! Descriptions of expression trees and listings of programs, as text.

use crate::charclass::{range_end, range_start};
use crate::compile::Instruction;
use crate::parse::{Expression, QuantifierType, Syntax};
use crate::text::code_point;
use vstd::prelude::*;

verus! {

/// The decimal digit with the value `d`.
pub open spec fn digit(d: int) -> char {
    if d == 0 {
        '0'
    } else if d == 1 {
        '1'
    } else if d == 2 {
        '2'
    } else if d == 3 {
        '3'
    } else if d == 4 {
        '4'
    } else if d == 5 {
        '5'
    } else if d == 6 {
        '6'
    } else if d == 7 {
        '7'
    } else if d == 8 {
        '8'
    } else {
        '9'
    }
}

/// The decimal numeral of a number, without leading zeros.
pub open spec fn decimal_text(n: nat) -> Seq<char>
    decreases n,
{
    if n < 10 {
        seq![digit(n as int)]
    } else {
        decimal_text(n / 10).push(digit((n % 10) as int))
    }
}

/// The name of a quantifier type.
pub open spec fn quantifier_text(typ: QuantifierType) -> Seq<char> {
    match typ {
        QuantifierType::Greedy => "Greedy"@,
        QuantifierType::NonGreedy => "NonGreedy"@,
    }
}

/// The name of a quantifier type.
pub fn quantifier_type_to_str(typ: QuantifierType) -> (text: &'static str)
    ensures
        text@ == quantifier_text(typ),
{
    match typ {
        QuantifierType::Greedy => "Greedy",
        QuantifierType::NonGreedy => "NonGreedy",
    }
}

/// Appends the symbols of a text.
pub fn append_text(out: &mut Vec<char>, text: &str)
    ensures
        final(out)@ == old(out)@ + text@,
{
    let ghost before = out@;
    for c in it: text.chars()
        invariant
            it.seq() == text@,
            out@ == before + text@.take(it.index() as int),
    {
        out.push(c);
        proof {
            assert(text@.take(it.index() + 1) =~= text@.take(it.index() as int).push(c));
            assert(before + text@.take(it.index() as int).push(c) =~= (before + text@.take(
                it.index() as int,
            )).push(c));
        }
    }
    proof {
        assert(text@.take(text@.len() as int) =~= text@);
    }
}

/// Appends the symbols of a list.
pub fn append_chars(out: &mut Vec<char>, chars: &Vec<char>)
    ensures
        final(out)@ == old(out)@ + chars@,
{
    let ghost before = out@;
    let mut i: usize = 0;
    while i < chars.len()
        invariant
            i <= chars.len(),
            out@ == before + chars@.take(i as int),
        decreases chars.len() - i,
    {
        out.push(chars[i]);
        proof {
            assert(chars@.take(i + 1) =~= chars@.take(i as int).push(chars@[i as int]));
            assert(before + chars@.take(i as int).push(chars@[i as int]) =~= (before
                + chars@.take(i as int)).push(chars@[i as int]));
        }
        i += 1;
    }
    proof {
        assert(chars@.take(i as int) =~= chars@);
    }
}

/// The decimal digit with the value `d`.
fn digit_of(d: usize) -> (c: char)
    requires
        d < 10,
    ensures
        c == digit(d as int),
{
    if d == 0 {
        '0'
    } else if d == 1 {
        '1'
    } else if d == 2 {
        '2'
    } else if d == 3 {
        '3'
    } else if d == 4 {
        '4'
    } else if d == 5 {
        '5'
    } else if d == 6 {
        '6'
    } else if d == 7 {
        '7'
    } else if d == 8 {
        '8'
    } else {
        '9'
    }
}

/// Appends the decimal numeral of a number.
pub fn append_number(out: &mut Vec<char>, n: usize)
    ensures
        final(out)@ == old(out)@ + decimal_text(n as nat),
    decreases n,
{
    let ghost before = out@;
    if n >= 10 {
        append_number(out, n / 10);
    }
    out.push(digit_of(n % 10));
    proof {
        if n >= 10 {
            assert(out@ =~= before + decimal_text(n as nat));
        } else {
            assert(out@ =~= before + decimal_text(n as nat));
        }
    }
}

/// The first line of the description of a tree, without indentation: the
/// name of its kind, and what it carries besides other trees.
pub open spec fn header_text(e: Syntax) -> Seq<char> {
    match e {
        Syntax::Literal(c) => "Literal("@ + seq![c] + ")"@,
        Syntax::AnyLiteral => "Any"@,
        Syntax::RangeLiteral(start, end) => "Range("@ + seq![start] + ", "@ + seq![end] + ")"@,
        Syntax::CharacterClass(_) => "CharacterClass"@,
        Syntax::Concatenate(_, _) => "Concatenate"@,
        Syntax::Alternate(_, _) => "Alternate"@,
        Syntax::SubExpression(_, slot) => match slot {
            Some(group) => "Group "@ + decimal_text(group as nat),
            None => "Non-capture Group"@,
        },
        Syntax::Question(_, typ) => "Question "@ + quantifier_text(typ),
        Syntax::Star(_, typ) => "Star "@ + quantifier_text(typ),
        Syntax::Plus(_, typ) => "Plus "@ + quantifier_text(typ),
        Syntax::ExactRepetition(_, count, typ) => "ExactRepetition "@ + decimal_text(count as nat)
            + " "@ + quantifier_text(typ),
        Syntax::UnboundedRepetition(_, low, typ) => "Unboundedrepetition "@ + decimal_text(
            low as nat,
        ) + "- "@ + quantifier_text(typ),
        Syntax::BoundedRepetition(_, low, high, typ) => "BoundedRepetition "@ + decimal_text(
            low as nat,
        ) + "-"@ + decimal_text(high as nat) + " "@ + quantifier_text(typ),
        Syntax::AssertStart => "AssertStart"@,
        Syntax::AssertEnd => "AssertEnd"@,
        Syntax::AssertWordBoundary => "AssertWordBoundary"@,
        Syntax::AssertNonWordBoundary => "AssertNonWordBoundary"@,
    }
}

/// The line that describes one range of a class: the numbers of its code
/// points, then the code points.
pub open spec fn range_text(range: (char, char)) -> Seq<char> {
    "["@ + decimal_text(range.0 as nat) + ", "@ + decimal_text(range.1 as nat) + "] <"@
        + seq![range.0] + ", "@ + seq![range.1] + ">\n"@
}

/// The lines that describe the ranges of a class, each behind `prefix`.
pub open spec fn ranges_text(ranges: Seq<(char, char)>, prefix: Seq<char>) -> Seq<char>
    decreases ranges.len(),
{
    if ranges.len() == 0 {
        Seq::empty()
    } else {
        ranges_text(ranges.drop_last(), prefix) + prefix + range_text(ranges.last())
    }
}

/// The description of a tree: one line for the tree, behind `prefix`, then
/// what it holds, each line two spaces further in.
pub open spec fn tree_text(e: Syntax, prefix: Seq<char>) -> Seq<char>
    decreases e,
{
    let first = prefix + header_text(e) + "\n"@;
    let deeper = prefix + "  "@;
    match e {
        Syntax::CharacterClass(ranges) => first + ranges_text(ranges, deeper),
        Syntax::Concatenate(l, r) => first + tree_text(*l, deeper) + tree_text(*r, deeper),
        Syntax::Alternate(l, r) => first + tree_text(*l, deeper) + tree_text(*r, deeper),
        Syntax::SubExpression(inner, _) => first + tree_text(*inner, deeper),
        Syntax::Question(inner, _) => first + tree_text(*inner, deeper),
        Syntax::Star(inner, _) => first + tree_text(*inner, deeper),
        Syntax::Plus(inner, _) => first + tree_text(*inner, deeper),
        Syntax::ExactRepetition(inner, _, _) => first + tree_text(*inner, deeper),
        Syntax::UnboundedRepetition(inner, _, _) => first + tree_text(*inner, deeper),
        Syntax::BoundedRepetition(inner, _, _, _) => first + tree_text(*inner, deeper),
        _ => first,
    }
}

/// The first line of the description of a tree, without indentation.
fn header(expression: &Expression) -> (text: Vec<char>)
    ensures
        text@ == header_text(expression@),
{
    let mut text: Vec<char> = Vec::new();
    let ghost none = Seq::<char>::empty();
    match expression {
        Expression::Literal(c) => {
            append_text(&mut text, "Literal(");
            text.push(code_point(*c));
            append_text(&mut text, ")");
            assert(text@ =~= "Literal("@ + seq![*c] + ")"@);
        },
        Expression::AnyLiteral => {
            append_text(&mut text, "Any");
            assert(text@ =~= "Any"@);
        },
        Expression::RangeLiteral(start, end) => {
            append_text(&mut text, "Range(");
            text.push(code_point(*start));
            append_text(&mut text, ", ");
            text.push(code_point(*end));
            append_text(&mut text, ")");
            assert(text@ =~= "Range("@ + seq![*start] + ", "@ + seq![*end] + ")"@);
        },
        Expression::CharacterClass(_) => {
            append_text(&mut text, "CharacterClass");
            assert(text@ =~= "CharacterClass"@);
        },
        Expression::Concatenate(_, _) => {
            append_text(&mut text, "Concatenate");
            assert(text@ =~= "Concatenate"@);
        },
        Expression::Alternate(_, _) => {
            append_text(&mut text, "Alternate");
            assert(text@ =~= "Alternate"@);
        },
        Expression::SubExpression(_, slot) => match slot {
            Some(group) => {
                append_text(&mut text, "Group ");
                append_number(&mut text, *group);
                assert(text@ =~= "Group "@ + decimal_text(*group as nat));
            },
            None => {
                append_text(&mut text, "Non-capture Group");
                assert(text@ =~= "Non-capture Group"@);
            },
        },
        Expression::Question(_, typ) => {
            append_text(&mut text, "Question ");
            append_text(&mut text, quantifier_type_to_str(*typ));
            assert(text@ =~= "Question "@ + quantifier_text(*typ));
        },
        Expression::Star(_, typ) => {
            append_text(&mut text, "Star ");
            append_text(&mut text, quantifier_type_to_str(*typ));
            assert(text@ =~= "Star "@ + quantifier_text(*typ));
        },
        Expression::Plus(_, typ) => {
            append_text(&mut text, "Plus ");
            append_text(&mut text, quantifier_type_to_str(*typ));
            assert(text@ =~= "Plus "@ + quantifier_text(*typ));
        },
        Expression::ExactRepetition(_, count, typ) => {
            append_text(&mut text, "ExactRepetition ");
            append_number(&mut text, *count);
            append_text(&mut text, " ");
            append_text(&mut text, quantifier_type_to_str(*typ));
            assert(text@ =~= "ExactRepetition "@ + decimal_text(*count as nat) + " "@
                + quantifier_text(*typ));
        },
        Expression::UnboundedRepetition(_, low, typ) => {
            append_text(&mut text, "Unboundedrepetition ");
            append_number(&mut text, *low);
            append_text(&mut text, "- ");
            append_text(&mut text, quantifier_type_to_str(*typ));
            assert(text@ =~= "Unboundedrepetition "@ + decimal_text(*low as nat) + "- "@
                + quantifier_text(*typ));
        },
        Expression::BoundedRepetition(_, low, high, typ) => {
            append_text(&mut text, "BoundedRepetition ");
            append_number(&mut text, *low);
            append_text(&mut text, "-");
            append_number(&mut text, *high);
            append_text(&mut text, " ");
            append_text(&mut text, quantifier_type_to_str(*typ));
            assert(text@ =~= "BoundedRepetition "@ + decimal_text(*low as nat) + "-"@
                + decimal_text(*high as nat) + " "@ + quantifier_text(*typ));
        },
        Expression::AssertStart => {
            append_text(&mut text, "AssertStart");
            assert(text@ =~= "AssertStart"@);
        },
        Expression::AssertEnd => {
            append_text(&mut text, "AssertEnd");
            assert(text@ =~= "AssertEnd"@);
        },
        Expression::AssertWordBoundary => {
            append_text(&mut text, "AssertWordBoundary");
            assert(text@ =~= "AssertWordBoundary"@);
        },
        Expression::AssertNonWordBoundary => {
            append_text(&mut text, "AssertNonWordBoundary");
            assert(text@ =~= "AssertNonWordBoundary"@);
        },
    }
    text
}

/// Appends the lines that describe the ranges of a class.
fn append_ranges(ranges: &Vec<(char, char)>, prefix: &Vec<char>, out: &mut Vec<char>)
    ensures
        final(out)@ == old(out)@ + ranges_text(ranges@, prefix@),
{
    let ghost before = out@;
    let mut i: usize = 0;
    assert(out@ =~= before + ranges_text(ranges@.take(0), prefix@));
    while i < ranges.len()
        invariant
            i <= ranges.len(),
            out@ == before + ranges_text(ranges@.take(i as int), prefix@),
        decreases ranges.len() - i,
    {
        let start = range_start(ranges, i);
        let end = range_end(ranges, i);
        let ghost so_far = out@;
        append_chars(out, prefix);
        append_text(out, "[");
        append_number(out, start as u32 as usize);
        append_text(out, ", ");
        append_number(out, end as u32 as usize);
        append_text(out, "] <");
        out.push(start);
        append_text(out, ", ");
        out.push(end);
        append_text(out, ">\n");
        proof {
            let range = ranges@[i as int];
            assert(ranges@.take(i + 1).drop_last() =~= ranges@.take(i as int));
            assert(ranges@.take(i + 1).last() == range);
            assert(out@ =~= so_far + prefix@ + range_text(range));
            assert(so_far + prefix@ + range_text(range) =~= before + (ranges_text(
                ranges@.take(i as int),
                prefix@,
            ) + prefix@ + range_text(range)));
        }
        i += 1;
    }
    proof {
        assert(ranges@.take(i as int) =~= ranges@);
    }
}

/// Appends the description of a tree, each line behind `prefix`.
pub fn print_expression_tree_recursive(
    expression: &Expression,
    prefix: &Vec<char>,
    out: &mut Vec<char>,
)
    ensures
        final(out)@ == old(out)@ + tree_text(expression@, prefix@),
    decreases expression,
{
    let ghost before = out@;
    let head = header(expression);
    append_chars(out, prefix);
    append_chars(out, &head);
    append_text(out, "\n");
    let ghost first = prefix@ + header_text(expression@) + "\n"@;
    assert(out@ =~= before + first);
    let mut deeper: Vec<char> = Vec::new();
    append_chars(&mut deeper, prefix);
    append_text(&mut deeper, "  ");
    assert(deeper@ =~= prefix@ + "  "@);
    match expression {
        Expression::CharacterClass(ranges) => {
            append_ranges(ranges, &deeper, out);
            assert(out@ =~= before + (first + ranges_text(ranges@, deeper@)));
        },
        Expression::Concatenate(left, right) => {
            print_expression_tree_recursive(left, &deeper, out);
            print_expression_tree_recursive(right, &deeper, out);
            assert(out@ =~= before + (first + tree_text(left@, deeper@) + tree_text(
                right@,
                deeper@,
            )));
        },
        Expression::Alternate(left, right) => {
            print_expression_tree_recursive(left, &deeper, out);
            print_expression_tree_recursive(right, &deeper, out);
            assert(out@ =~= before + (first + tree_text(left@, deeper@) + tree_text(
                right@,
                deeper@,
            )));
        },
        Expression::SubExpression(e, _) => {
            print_expression_tree_recursive(e, &deeper, out);
            assert(out@ =~= before + (first + tree_text(e@, deeper@)));
        },
        Expression::Question(e, _) => {
            print_expression_tree_recursive(e, &deeper, out);
            assert(out@ =~= before + (first + tree_text(e@, deeper@)));
        },
        Expression::Star(e, _) => {
            print_expression_tree_recursive(e, &deeper, out);
            assert(out@ =~= before + (first + tree_text(e@, deeper@)));
        },
        Expression::Plus(e, _) => {
            print_expression_tree_recursive(e, &deeper, out);
            assert(out@ =~= before + (first + tree_text(e@, deeper@)));
        },
        Expression::ExactRepetition(e, _, _) => {
            print_expression_tree_recursive(e, &deeper, out);
            assert(out@ =~= before + (first + tree_text(e@, deeper@)));
        },
        Expression::UnboundedRepetition(e, _, _) => {
            print_expression_tree_recursive(e, &deeper, out);
            assert(out@ =~= before + (first + tree_text(e@, deeper@)));
        },
        Expression::BoundedRepetition(e, _, _, _) => {
            print_expression_tree_recursive(e, &deeper, out);
            assert(out@ =~= before + (first + tree_text(e@, deeper@)));
        },
        _ => {},
    }
}

/// The description of a tree, as text: one line for each node, and for
/// each range of a class, indented by two spaces for each level.
pub fn print_expression_tree(expression: &Expression) -> (text: Vec<char>)
    ensures
        text@ == tree_text(expression@, Seq::empty()),
{
    let mut text: Vec<char> = Vec::new();
    let prefix: Vec<char> = Vec::new();
    print_expression_tree_recursive(expression, &prefix, &mut text);
    assert(text@ =~= tree_text(expression@, Seq::empty()));
    text
}

/// The line that describes an instruction: its mnemonic and its operands.
pub open spec fn instruction_text(instruction: Instruction) -> Seq<char> {
    match instruction {
        Instruction::Char(c) => "CHR "@ + seq![c],
        Instruction::Any => "ANY"@,
        Instruction::Range(start, end) => "RNG "@ + seq![start] + " "@ + seq![end],
        Instruction::Fork(left, right) => "FRK "@ + decimal_text(left as nat) + " "@
            + decimal_text(right as nat),
        Instruction::Jump(pc) => "JMP "@ + decimal_text(pc as nat),
        Instruction::ConditionalJumpEq(register, value, pc) => "JEQ "@ + decimal_text(
            register as nat,
        ) + " "@ + decimal_text(value as nat) + " "@ + decimal_text(pc as nat),
        Instruction::ConditionalJumpLE(register, value, pc) => "JLE "@ + decimal_text(
            register as nat,
        ) + " "@ + decimal_text(value as nat) + " "@ + decimal_text(pc as nat),
        Instruction::Increment(register) => "INC "@ + decimal_text(register as nat),
        Instruction::SaveStart(group) => "SVS "@ + decimal_text(group as nat),
        Instruction::SaveEnd(group) => "SVE "@ + decimal_text(group as nat),
        Instruction::Accept => "ACC"@,
        Instruction::AssertStart => "AS^"@,
        Instruction::AssertEnd => "AS$"@,
        Instruction::AssertWordBoundary => "ASb"@,
        Instruction::AssertNonWordBoundary => "ASB"@,
    }
}

/// The listing of a program: one line for each instruction, with its
/// program counter before it.
pub open spec fn code_text(code: Seq<Instruction>) -> Seq<char>
    decreases code.len(),
{
    if code.len() == 0 {
        Seq::empty()
    } else {
        code_text(code.drop_last()) + decimal_text((code.len() - 1) as nat) + " "@
            + instruction_text(code.last()) + "\n"@
    }
}

/// The line that describes an instruction.
fn instruction_line(instruction: Instruction) -> (text: Vec<char>)
    ensures
        text@ == instruction_text(instruction),
{
    let mut text: Vec<char> = Vec::new();
    match instruction {
        Instruction::Char(c) => {
            append_text(&mut text, "CHR ");
            text.push(code_point(c));
            assert(text@ =~= "CHR "@ + seq![c]);
        },
        Instruction::Any => {
            append_text(&mut text, "ANY");
            assert(text@ =~= "ANY"@);
        },
        Instruction::Range(start, end) => {
            append_text(&mut text, "RNG ");
            text.push(code_point(start));
            append_text(&mut text, " ");
            text.push(code_point(end));
            assert(text@ =~= "RNG "@ + seq![start] + " "@ + seq![end]);
        },
        Instruction::Fork(left, right) => {
            append_text(&mut text, "FRK ");
            append_number(&mut text, left);
            append_text(&mut text, " ");
            append_number(&mut text, right);
            assert(text@ =~= "FRK "@ + decimal_text(left as nat) + " "@ + decimal_text(
                right as nat,
            ));
        },
        Instruction::Jump(pc) => {
            append_text(&mut text, "JMP ");
            append_number(&mut text, pc);
            assert(text@ =~= "JMP "@ + decimal_text(pc as nat));
        },
        Instruction::ConditionalJumpEq(register, value, pc) => {
            append_text(&mut text, "JEQ ");
            append_number(&mut text, register);
            append_text(&mut text, " ");
            append_number(&mut text, value);
            append_text(&mut text, " ");
            append_number(&mut text, pc);
            assert(text@ =~= "JEQ "@ + decimal_text(register as nat) + " "@ + decimal_text(
                value as nat,
            ) + " "@ + decimal_text(pc as nat));
        },
        Instruction::ConditionalJumpLE(register, value, pc) => {
            append_text(&mut text, "JLE ");
            append_number(&mut text, register);
            append_text(&mut text, " ");
            append_number(&mut text, value);
            append_text(&mut text, " ");
            append_number(&mut text, pc);
            assert(text@ =~= "JLE "@ + decimal_text(register as nat) + " "@ + decimal_text(
                value as nat,
            ) + " "@ + decimal_text(pc as nat));
        },
        Instruction::Increment(register) => {
            append_text(&mut text, "INC ");
            append_number(&mut text, register);
            assert(text@ =~= "INC "@ + decimal_text(register as nat));
        },
        Instruction::SaveStart(group) => {
            append_text(&mut text, "SVS ");
            append_number(&mut text, group);
            assert(text@ =~= "SVS "@ + decimal_text(group as nat));
        },
        Instruction::SaveEnd(group) => {
            append_text(&mut text, "SVE ");
            append_number(&mut text, group);
            assert(text@ =~= "SVE "@ + decimal_text(group as nat));
        },
        Instruction::Accept => {
            append_text(&mut text, "ACC");
            assert(text@ =~= "ACC"@);
        },
        Instruction::AssertStart => {
            append_text(&mut text, "AS^");
            assert(text@ =~= "AS^"@);
        },
        Instruction::AssertEnd => {
            append_text(&mut text, "AS$");
            assert(text@ =~= "AS$"@);
        },
        Instruction::AssertWordBoundary => {
            append_text(&mut text, "ASb");
            assert(text@ =~= "ASb"@);
        },
        Instruction::AssertNonWordBoundary => {
            append_text(&mut text, "ASB");
            assert(text@ =~= "ASB"@);
        },
    }
    text
}

/// The listing of a program, as text.
pub fn print_code(instructions: &[Instruction]) -> (text: Vec<char>)
    ensures
        text@ == code_text(instructions@),
{
    let mut text: Vec<char> = Vec::new();
    let mut pc: usize = 0;
    assert(text@ =~= code_text(instructions@.take(0)));
    while pc < instructions.len()
        invariant
            pc <= instructions.len(),
            text@ == code_text(instructions@.take(pc as int)),
        decreases instructions.len() - pc,
    {
        let ghost so_far = text@;
        let line = instruction_line(instructions[pc]);
        append_number(&mut text, pc);
        append_text(&mut text, " ");
        append_chars(&mut text, &line);
        append_text(&mut text, "\n");
        proof {
            let upto = instructions@.take(pc + 1);
            assert(upto.drop_last() =~= instructions@.take(pc as int));
            assert(upto.last() == instructions@[pc as int]);
            assert(text@ =~= so_far + decimal_text(pc as nat) + " "@ + instruction_text(
                instructions@[pc as int],
            ) + "\n"@);
        }
        pc += 1;
    }
    proof {
        assert(instructions@.take(pc as int) =~= instructions@);
    }
    text
}

} // verus!
