use pike_regex::charclass::{
    complement_ranges, negate_char_ranges, range_end, range_start, sorted_ranges,
};
use pike_regex::compile::{
    class_members, compile_recursive, fork, program_size, registers_fit, tree_size, Instruction,
};
use pike_regex::matcher::Match;
use pike_regex::parse::{
    do_concat, is_well_formed, number_of, parse, parse_charclass, parse_charclass_escape,
    parse_common_escape, parse_escape, parse_group, parse_recursive, parse_repetition,
    Expression, ParseError, Parser, QuantifierType,
};
use pike_regex::pike::{
    cap_for, capped_copy, copy_of, largest_compared, new_thread, report, same_counters, Thread,
    CAPTURE_SLOTS, TERMINATOR,
};
use pike_regex::text::{chars_of, code_point};

const LAST: char = '\u{10FFFF}';

#[test]
fn strings_are_read_by_code_points() {
    assert_eq!(chars_of(""), Vec::<char>::new());
    assert_eq!(chars_of("aé\u{10FFFF}"), vec!['a', 'é', '\u{10FFFF}']);
    assert_eq!(code_point('x'), 'x');
}

#[test]
fn ranges_are_sorted_by_their_start() {
    let ranges = vec![('m', 'p'), ('a', 'c'), ('x', 'z'), ('a', 'b'), ('c', 'c')];
    assert_eq!(
        sorted_ranges(&ranges),
        vec![('a', 'c'), ('a', 'b'), ('c', 'c'), ('m', 'p'), ('x', 'z')]
    );
    assert_eq!(sorted_ranges(&vec![]), vec![]);
    assert_eq!(range_start(&ranges, 2), 'x');
    assert_eq!(range_end(&ranges, 2), 'z');
}

#[test]
fn the_complement_covers_what_the_ranges_leave() {
    assert_eq!(complement_ranges(&vec![]), vec![('\0', LAST)]);
    assert_eq!(complement_ranges(&vec![('\0', LAST)]), vec![]);
    assert_eq!(
        complement_ranges(&vec![('m', 'p'), ('a', 'c'), ('b', 'e')]),
        vec![('\0', '`'), ('f', 'l'), ('q', LAST)]
    );
    assert_eq!(
        complement_ranges(&vec![('a', 'c'), ('d', 'f')]),
        vec![('\0', '`'), ('g', LAST)]
    );
    assert_eq!(
        complement_ranges(&vec![('\0', '\u{D7FF}')]),
        vec![('\u{E000}', LAST)]
    );
    assert_eq!(
        negate_char_ranges(&vec![('b', 'y')]),
        Expression::CharacterClass(vec![('\0', 'a'), ('z', LAST)])
    );
}

#[test]
fn the_complement_and_the_ranges_share_no_code_point() {
    let ranges = vec![('0', '9'), ('a', 'f'), ('A', 'F'), ('_', '_')];
    let complement = complement_ranges(&ranges);
    let inside = |rs: &Vec<(char, char)>, c: char| rs.iter().any(|r| r.0 <= c && c <= r.1);
    for c in ['\0', '/', '0', '5', '9', ':', '@', 'A', 'F', 'G', '_', '`', 'a', 'f', 'g', 'é', LAST]
    {
        assert_ne!(inside(&ranges, c), inside(&complement, c));
    }
}

#[test]
fn the_reader_steps_through_the_pattern() {
    let pattern = chars_of("abc");
    let mut parser = Parser::new(&pattern);
    assert_eq!(parser.peek(0), None);
    assert_eq!(parser.peek(1), Some('a'));
    assert_eq!(parser.peek(3), Some('c'));
    assert_eq!(parser.peek(4), None);
    assert_eq!(parser.next(), Some('a'));
    assert_eq!(parser.pos, 0);
    assert_eq!(parser.current, Some('a'));
    parser.consume_chars(1);
    assert_eq!(parser.current, Some('b'));
    assert_eq!(parser.peek(1), Some('c'));
    assert_eq!(parser.next(), Some('c'));
    assert_eq!(parser.next(), None);
    assert_eq!(parser.current, None);
    assert_eq!(parser.next, 3);
    parser.consume_chars(5);
    assert_eq!(parser.next, 3);
}

#[test]
fn numerals_are_read_with_care() {
    assert_eq!(number_of(&chars_of("")), None);
    assert_eq!(number_of(&chars_of("0")), Some(0));
    assert_eq!(number_of(&chars_of("0042")), Some(42));
    assert_eq!(number_of(&chars_of("18446744073709551615")), Some(usize::MAX));
    assert_eq!(number_of(&chars_of("18446744073709551616")), None);
    assert_eq!(number_of(&chars_of("99999999999999999999999999")), None);
}

#[test]
fn do_concat_folds_to_the_right() {
    let mut stack = vec![
        Expression::Literal('a'),
        Expression::Literal('b'),
        Expression::Literal('c'),
    ];
    do_concat(&mut stack);
    assert_eq!(stack, vec![parse("abc").unwrap()]);
    let mut none: Vec<Expression> = vec![];
    do_concat(&mut none);
    assert_eq!(none, vec![]);
}

#[test]
fn the_parts_of_the_parser_stop_behind_what_they_read() {
    let pattern = chars_of("a-c]x");
    let mut parser = Parser::new(&pattern);
    assert_eq!(
        parse_charclass(&mut parser),
        Ok(Expression::CharacterClass(vec![('a', 'c')]))
    );
    assert_eq!(parser.next, 4);

    let pattern = chars_of("2,3}x");
    let mut parser = Parser::new(&pattern);
    assert_eq!(
        parse_repetition(&mut parser, Expression::AnyLiteral),
        Ok(Expression::BoundedRepetition(
            Box::new(Expression::AnyLiteral),
            2,
            3,
            QuantifierType::Greedy
        ))
    );
    assert_eq!(parser.next, 4);

    let pattern = chars_of("(?:a)b");
    let mut parser = Parser::new(&pattern);
    assert_eq!(parser.next(), Some('('));
    assert_eq!(
        parse_group(&mut parser),
        Ok(Expression::SubExpression(Box::new(Expression::Literal('a')), None))
    );
    assert_eq!(parser.next, 5);
    assert_eq!(parser.captures, 0);

    let pattern = chars_of("a(b))c");
    let mut parser = Parser::new(&pattern);
    assert_eq!(parse_recursive(&mut parser), parse("a(b)"));
    assert_eq!(parser.next, 5);
    assert_eq!(parser.current, Some(')'));
    assert_eq!(parser.captures, 1);

    let pattern = chars_of("wx");
    let mut parser = Parser::new(&pattern);
    assert_eq!(parse_escape(&mut parser), parse("\\w"));
    assert_eq!(parser.next, 1);
}

#[test]
fn a_new_reader_has_read_nothing() {
    let pattern = chars_of("abc");
    let parser = Parser::new(&pattern);
    assert_eq!(parser.pos, 0);
    assert_eq!(parser.next, 0);
    assert_eq!(parser.current, None);
    assert_eq!(parser.captures, 0);
}

#[test]
fn a_sequence_leaves_the_reader_at_its_end() {
    let pattern = chars_of("ab|c|d");
    let mut parser = Parser::new(&pattern);
    assert_eq!(parse_recursive(&mut parser), parse("ab|c|d"));
    assert_eq!(parser.next, 6);
    assert_eq!(parser.pos, 6);
    assert_eq!(parser.current, None);

    let pattern = chars_of("a|b)c");
    let mut parser = Parser::new(&pattern);
    assert_eq!(parse_recursive(&mut parser), parse("a|b"));
    assert_eq!(parser.next, 4);
    assert_eq!(parser.pos, 3);
    assert_eq!(parser.current, Some(')'));
}

#[test]
fn the_parts_of_the_parser_leave_the_reader_at_their_last_symbol() {
    let pattern = chars_of("(a(b)c)d");
    let mut parser = Parser::new(&pattern);
    assert_eq!(parser.next(), Some('('));
    assert!(parse_group(&mut parser).is_ok());
    assert_eq!(parser.next, 7);
    assert_eq!(parser.pos, 6);
    assert_eq!(parser.current, Some(')'));
    assert_eq!(parser.captures, 2);

    let pattern = chars_of("^-a]x");
    let mut parser = Parser::new(&pattern);
    assert!(parse_charclass(&mut parser).is_ok());
    assert_eq!((parser.pos, parser.next, parser.current), (3, 4, Some(']')));

    let pattern = chars_of("7,}x");
    let mut parser = Parser::new(&pattern);
    assert!(parse_repetition(&mut parser, Expression::AnyLiteral).is_ok());
    assert_eq!((parser.pos, parser.next, parser.current), (2, 3, Some('}')));

    let pattern = chars_of("Dx");
    let mut parser = Parser::new(&pattern);
    assert!(parse_escape(&mut parser).is_ok());
    assert_eq!((parser.pos, parser.next, parser.current), (0, 1, Some('D')));
    let mut parser = Parser::new(&pattern);
    assert!(parse_charclass_escape(&mut parser).is_ok());
    assert_eq!((parser.pos, parser.next, parser.current), (0, 1, Some('D')));

    let pattern = chars_of("");
    let mut parser = Parser::new(&pattern);
    assert_eq!(parse_escape(&mut parser), Err(ParseError::IncompleteEscape));
    assert_eq!((parser.pos, parser.next, parser.current), (0, 0, None));

    let pattern = chars_of("abcd");
    let mut parser = Parser::new(&pattern);
    parser.consume_chars(0);
    assert_eq!((parser.pos, parser.next, parser.current), (0, 0, None));
    parser.consume_chars(3);
    assert_eq!((parser.pos, parser.next, parser.current), (2, 3, Some('c')));
    parser.consume_chars(1);
    assert_eq!((parser.pos, parser.next, parser.current), (3, 4, Some('d')));
    parser.consume_chars(2);
    assert_eq!((parser.pos, parser.next, parser.current), (4, 4, None));
}

#[test]
fn escaped_letters() {
    assert_eq!(parse_common_escape('d'), parse("\\d").ok());
    assert_eq!(parse_common_escape('S'), parse("\\S").ok());
    assert_eq!(parse_common_escape('x'), None);
    assert_eq!(parse_common_escape('b'), None);
}

#[test]
fn forks_put_the_preferred_target_first() {
    assert_eq!(fork(QuantifierType::Greedy, 3, 9), Instruction::Fork(3, 9));
    assert_eq!(fork(QuantifierType::NonGreedy, 3, 9), Instruction::Fork(9, 3));
}

#[test]
fn members_of_a_class() {
    assert_eq!(
        class_members(&vec![('a', 'a'), ('b', 'd')]),
        vec![Expression::Literal('a'), Expression::RangeLiteral('b', 'd')]
    );
}

#[test]
fn code_is_appended_behind_what_is_there() {
    let mut code = vec![Instruction::Any, Instruction::Any];
    let mut registers = 5;
    compile_recursive(&parse("a{2}|b").unwrap(), &mut code, &mut registers);
    assert_eq!(
        code,
        vec![
            Instruction::Any,
            Instruction::Any,
            Instruction::Fork(3, 9),
            Instruction::ConditionalJumpEq(5, 2, 8),
            Instruction::Fork(5, 8),
            Instruction::Char('a'),
            Instruction::Increment(5),
            Instruction::Jump(3),
            Instruction::Jump(10),
            Instruction::Char('b'),
        ]
    );
    assert_eq!(registers, 6);
}

#[test]
fn sizes_of_trees() {
    assert_eq!(tree_size(&parse("a{2}|b").unwrap()), Some(8));
    assert_eq!(program_size(&parse("a{2}|b").unwrap()), Some(9));
    assert_eq!(tree_size(&Expression::CharacterClass(vec![])), Some(0));
    assert_eq!(tree_size(&parse("[abc]").unwrap()), Some(7));
}

#[test]
fn checks_before_compiling_and_matching() {
    assert!(is_well_formed(&parse("a[bc]*(d|[^e])").unwrap()));
    assert!(!is_well_formed(&Expression::CharacterClass(vec![])));
    assert!(!is_well_formed(&Expression::Star(
        Box::new(Expression::CharacterClass(vec![])),
        QuantifierType::Greedy
    )));
    assert!(registers_fit(&[Instruction::Increment(7), Instruction::Accept]));
    assert!(registers_fit(&[]));
    assert!(!registers_fit(&[Instruction::Accept, Instruction::Increment(usize::MAX)]));
    assert!(!registers_fit(&[Instruction::ConditionalJumpLE(usize::MAX, 0, 0)]));
}

#[test]
fn threads_and_their_reports() {
    let fresh = new_thread(3, 2);
    assert_eq!(fresh.pc, 0);
    assert_eq!(fresh.match_start, 3);
    assert_eq!(fresh.captures, vec![None; 10]);
    assert_eq!(fresh.registers, vec![0, 0]);
    assert_eq!(report(&fresh, 7), vec![Match { start: 3, end: 7 }]);
    let mut captures = vec![None; CAPTURE_SLOTS];
    captures[2] = Some(Match { start: 4, end: 5 });
    captures[7] = Some(Match { start: 3, end: 3 });
    let thread = Thread { pc: 9, match_start: 3, captures, registers: vec![] };
    assert_eq!(
        report(&thread, 6),
        vec![
            Match { start: 3, end: 6 },
            Match { start: 4, end: 5 },
            Match { start: 3, end: 3 }
        ]
    );
}

#[test]
fn helpers_of_the_machine() {
    assert_eq!(copy_of(&vec![1usize, 2, 3]), vec![1, 2, 3]);
    assert!(same_counters(&vec![1, 2], &vec![1, 2]));
    assert!(!same_counters(&vec![1, 2], &vec![1, 3]));
    assert!(!same_counters(&vec![1, 2], &vec![1]));
    let plain = [Instruction::Any, Instruction::Jump(7), Instruction::Accept];
    assert_eq!(cap_for(&plain), 1);
    let counted = [
        Instruction::ConditionalJumpEq(0, 9, 0),
        Instruction::ConditionalJumpLE(1, 4, 0),
    ];
    assert_eq!(largest_compared(&counted), 9);
    assert_eq!(cap_for(&counted), 10);
    let endless = [Instruction::ConditionalJumpLE(0, usize::MAX, 0)];
    assert_eq!(cap_for(&endless), usize::MAX);
    let wide = [Instruction::ConditionalJumpEq(70, 1000, 0)];
    assert_eq!(cap_for(&wide), 1001);
    assert_eq!(capped_copy(&vec![0, 3, 9, 10, 11, 500], 10), vec![0, 3, 9, 10, 10, 10]);
    assert_eq!(TERMINATOR, '\u{3}');
}

#[test]
fn a_program_too_large_is_an_error_of_its_own() {
    assert_eq!(ParseError::ProgramTooLarge.message(), "Pattern is too large.");
    assert_eq!(
        ParseError::RepetitionTooLarge.message(),
        "Number in repetition is too large."
    );
}
