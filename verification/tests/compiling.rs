use pike_regex::compile::{compile, count_registers, do_alternate, program_size, Instruction};
use pike_regex::parse::{parse, Expression};
use pike_regex::regex::Regex;

use Instruction::{
    Accept, Any, AssertEnd, AssertNonWordBoundary, AssertStart, AssertWordBoundary, Char,
    ConditionalJumpEq, ConditionalJumpLE, Fork, Increment, Jump, Range, SaveEnd, SaveStart,
};

fn code_of(pattern: &str) -> Vec<Instruction> {
    compile(&parse(pattern).unwrap())
}

#[test]
fn single_instructions() {
    assert_eq!(code_of("a"), vec![Char('a'), Accept]);
    assert_eq!(code_of("."), vec![Any, Accept]);
    assert_eq!(code_of("^"), vec![AssertStart, Accept]);
    assert_eq!(code_of("$"), vec![AssertEnd, Accept]);
    assert_eq!(code_of("\\b"), vec![AssertWordBoundary, Accept]);
    assert_eq!(code_of("\\B"), vec![AssertNonWordBoundary, Accept]);
    assert_eq!(
        compile(&Expression::RangeLiteral('a', 'f')),
        vec![Range('a', 'f'), Accept]
    );
}

#[test]
fn sequence() {
    assert_eq!(code_of("abc"), vec![Char('a'), Char('b'), Char('c'), Accept]);
}

#[test]
fn choice() {
    assert_eq!(
        code_of("a|b"),
        vec![Fork(1, 3), Char('a'), Jump(4), Char('b'), Accept]
    );
    assert_eq!(
        code_of("ab|c|d"),
        vec![
            Fork(1, 4),
            Char('a'),
            Char('b'),
            Jump(8),
            Fork(5, 7),
            Char('c'),
            Jump(8),
            Char('d'),
            Accept
        ]
    );
}

#[test]
fn groups() {
    assert_eq!(
        code_of("(a)"),
        vec![SaveStart(1), Char('a'), SaveEnd(1), Accept]
    );
    assert_eq!(code_of("(?:a)"), vec![Char('a'), Accept]);
    assert_eq!(
        code_of("((a)b)"),
        vec![
            SaveStart(1),
            SaveStart(2),
            Char('a'),
            SaveEnd(2),
            Char('b'),
            SaveEnd(1),
            Accept
        ]
    );
}

#[test]
fn greedy_quantifiers_prefer_the_body() {
    assert_eq!(code_of("a?"), vec![Fork(1, 2), Char('a'), Accept]);
    assert_eq!(code_of("a*"), vec![Fork(1, 3), Char('a'), Jump(0), Accept]);
    assert_eq!(code_of("a+"), vec![Char('a'), Fork(0, 2), Accept]);
    assert_eq!(
        code_of("xa*"),
        vec![Char('x'), Fork(2, 4), Char('a'), Jump(1), Accept]
    );
}

#[test]
fn non_greedy_quantifiers_prefer_the_exit() {
    assert_eq!(code_of("a??"), vec![Fork(2, 1), Char('a'), Accept]);
    assert_eq!(code_of("a*?"), vec![Fork(3, 1), Char('a'), Jump(0), Accept]);
    assert_eq!(code_of("a+?"), vec![Char('a'), Fork(2, 0), Accept]);
}

#[test]
fn counted_loops() {
    assert_eq!(
        code_of("a{3}"),
        vec![
            ConditionalJumpEq(0, 3, 5),
            Fork(2, 5),
            Char('a'),
            Increment(0),
            Jump(0),
            Accept
        ]
    );
    assert_eq!(
        code_of("a{2,}"),
        vec![
            ConditionalJumpLE(0, 2, 2),
            Fork(2, 5),
            Char('a'),
            Increment(0),
            Jump(0),
            Accept
        ]
    );
    assert_eq!(
        code_of("a{2,4}"),
        vec![
            ConditionalJumpEq(0, 4, 6),
            ConditionalJumpLE(0, 2, 3),
            Fork(3, 6),
            Char('a'),
            Increment(0),
            Jump(0),
            Accept
        ]
    );
    assert_eq!(
        code_of("a{2,4}?"),
        vec![
            ConditionalJumpEq(0, 4, 6),
            ConditionalJumpLE(0, 2, 3),
            Fork(6, 3),
            Char('a'),
            Increment(0),
            Jump(0),
            Accept
        ]
    );
}

#[test]
fn each_counted_loop_has_a_register_of_its_own() {
    assert_eq!(
        code_of("a{2}b{3}"),
        vec![
            ConditionalJumpEq(0, 2, 5),
            Fork(2, 5),
            Char('a'),
            Increment(0),
            Jump(0),
            ConditionalJumpEq(1, 3, 10),
            Fork(7, 10),
            Char('b'),
            Increment(1),
            Jump(5),
            Accept
        ]
    );
    assert_eq!(
        code_of("(?:a{2}){3}"),
        vec![
            ConditionalJumpEq(0, 3, 9),
            Fork(2, 9),
            ConditionalJumpEq(1, 2, 7),
            Fork(4, 7),
            Char('a'),
            Increment(1),
            Jump(2),
            Increment(0),
            Jump(0),
            Accept
        ]
    );
}

#[test]
fn a_class_is_the_choice_of_its_members() {
    assert_eq!(code_of("[a]"), vec![Char('a'), Accept]);
    assert_eq!(code_of("[a-c]"), vec![Range('a', 'c'), Accept]);
    assert_eq!(
        code_of("[ab]"),
        vec![Fork(1, 3), Char('a'), Jump(4), Char('b'), Accept]
    );
    assert_eq!(code_of("[ab]"), code_of("a|b"));
    assert_eq!(
        code_of("[a-cxy]"),
        vec![
            Fork(1, 3),
            Range('a', 'c'),
            Jump(7),
            Fork(4, 6),
            Char('x'),
            Jump(7),
            Char('y'),
            Accept
        ]
    );
    assert_eq!(
        code_of("[^a]"),
        vec![
            Fork(1, 3),
            Range('\0', '`'),
            Jump(4),
            Range('b', '\u{10FFFF}'),
            Accept
        ]
    );
}

#[test]
fn do_alternate_folds_to_the_right() {
    let mut stack = vec![
        Expression::Literal('a'),
        Expression::Literal('b'),
        Expression::Literal('c'),
    ];
    do_alternate(&mut stack);
    assert_eq!(stack, vec![parse("a|b|c").unwrap()]);
    let mut one = vec![Expression::AnyLiteral];
    do_alternate(&mut one);
    assert_eq!(one, vec![Expression::AnyLiteral]);
    let mut none: Vec<Expression> = vec![];
    do_alternate(&mut none);
    assert_eq!(none, vec![]);
}

#[test]
fn the_last_instruction_is_accept() {
    for pattern in ["a", "a|b", "(a*)+", "[^x]{2,3}", "\\w+@\\w+"] {
        assert_eq!(code_of(pattern).last(), Some(&Accept));
    }
}

#[test]
fn register_count_is_one_more_than_the_largest_register() {
    assert_eq!(count_registers(&code_of("abc")), 1);
    assert_eq!(count_registers(&code_of("a{2}")), 1);
    assert_eq!(count_registers(&code_of("a{2}b{3}")), 2);
    assert_eq!(count_registers(&code_of("(a{2}b{3,}){1,2}")), 3);
    assert_eq!(count_registers(&[]), 1);
    assert_eq!(count_registers(&[Increment(7), Accept]), 8);
    assert_eq!(
        count_registers(&[ConditionalJumpEq(4, 0, 0), ConditionalJumpLE(9, 0, 0), Increment(2)]),
        10
    );
    assert_eq!(count_registers(&[Fork(100, 200), Jump(300), SaveStart(50)]), 1);
}

#[test]
fn program_size_counts_the_instructions() {
    for pattern in ["a", "a|b", "(a*)+", "[^x]{2,3}", "\\w+@\\w+", "[a-cxy]", "a{2}b{3}"] {
        let tree = parse(pattern).unwrap();
        assert_eq!(program_size(&tree), Some(compile(&tree).len()));
    }
}

#[test]
fn compiling_twice_gives_the_same_program() {
    for pattern in ["a", "a|b", "(a*)+", "[^x]{2,3}", "\\w+@\\w+", "a{2}b{3}"] {
        let first = Regex::new(pattern).unwrap();
        let second = Regex::new(pattern).unwrap();
        assert_eq!(first.code(), second.code());
        assert_eq!(first.code(), &code_of(pattern));
    }
    assert_eq!(Regex::new("(").err(), Regex::new("(").err());
}

#[test]
fn every_instruction_aims_inside_the_program() {
    for pattern in [
        "a",
        "a|b|c",
        "(a*)+?",
        "[^x]{2,3}",
        "\\w+@\\w+",
        "a{2}b{3,}c{4,5}?",
        "(?:a|(b))*",
        "[a-cxy]?",
    ] {
        let code = code_of(pattern);
        for instruction in code.iter() {
            let targets = match *instruction {
                Fork(first, second) => vec![first, second],
                Jump(target) => vec![target],
                ConditionalJumpEq(_, _, target) => vec![target],
                ConditionalJumpLE(_, _, target) => vec![target],
                _ => vec![],
            };
            for target in targets {
                assert!(target < code.len());
            }
        }
    }
}
