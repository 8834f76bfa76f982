use pike_regex::parse::{parse, Expression, ParseError, QuantifierType};

use Expression::{
    Alternate, AnyLiteral, AssertEnd, AssertNonWordBoundary, AssertStart, AssertWordBoundary,
    BoundedRepetition, CharacterClass, Concatenate, ExactRepetition, Literal, Plus, Question,
    Star, SubExpression, UnboundedRepetition,
};
use QuantifierType::{Greedy, NonGreedy};

fn lit(c: char) -> Box<Expression> {
    Box::new(Literal(c))
}

fn single(c: char) -> (char, char) {
    (c, c)
}

const LAST: char = '\u{10FFFF}';

#[test]
fn single_symbols() {
    assert_eq!(parse("a"), Ok(Literal('a')));
    assert_eq!(parse("."), Ok(AnyLiteral));
    assert_eq!(parse("^"), Ok(AssertStart));
    assert_eq!(parse("$"), Ok(AssertEnd));
    assert_eq!(parse("]"), Ok(Literal(']')));
    assert_eq!(parse("}"), Ok(Literal('}')));
    assert_eq!(parse("é"), Ok(Literal('é')));
}

#[test]
fn concatenation_nests_to_the_right() {
    assert_eq!(parse("ab"), Ok(Concatenate(lit('a'), lit('b'))));
    assert_eq!(
        parse("abc"),
        Ok(Concatenate(lit('a'), Box::new(Concatenate(lit('b'), lit('c')))))
    );
    assert_eq!(
        parse("^$"),
        Ok(Concatenate(Box::new(AssertStart), Box::new(AssertEnd)))
    );
}

#[test]
fn alternation_binds_weaker_than_concatenation() {
    assert_eq!(parse("a|b"), Ok(Alternate(lit('a'), lit('b'))));
    assert_eq!(
        parse("a|b|c"),
        Ok(Alternate(lit('a'), Box::new(Alternate(lit('b'), lit('c')))))
    );
    assert_eq!(
        parse("ab|cd"),
        Ok(Alternate(
            Box::new(Concatenate(lit('a'), lit('b'))),
            Box::new(Concatenate(lit('c'), lit('d')))
        ))
    );
}

#[test]
fn quantifiers_attach_to_the_last_expression() {
    assert_eq!(parse("a*"), Ok(Star(lit('a'), Greedy)));
    assert_eq!(parse("a+"), Ok(Plus(lit('a'), Greedy)));
    assert_eq!(parse("a?"), Ok(Question(lit('a'), Greedy)));
    assert_eq!(
        parse("ab*"),
        Ok(Concatenate(lit('a'), Box::new(Star(lit('b'), Greedy))))
    );
    assert_eq!(parse("a+*"), Ok(Star(Box::new(Plus(lit('a'), Greedy)), Greedy)));
}

#[test]
fn question_mark_makes_a_quantifier_non_greedy() {
    assert_eq!(parse("a*?"), Ok(Star(lit('a'), NonGreedy)));
    assert_eq!(parse("a+?"), Ok(Plus(lit('a'), NonGreedy)));
    assert_eq!(parse("a??"), Ok(Question(lit('a'), NonGreedy)));
    assert_eq!(
        parse("a???"),
        Ok(Question(Box::new(Question(lit('a'), NonGreedy)), Greedy))
    );
    assert_eq!(parse("a{2}?"), Ok(ExactRepetition(lit('a'), 2, NonGreedy)));
    assert_eq!(parse("a{2,}?"), Ok(UnboundedRepetition(lit('a'), 2, NonGreedy)));
    assert_eq!(parse("a{2,5}?"), Ok(BoundedRepetition(lit('a'), 2, 5, NonGreedy)));
}

#[test]
fn groups_are_numbered_by_their_opening_parenthesis() {
    assert_eq!(parse("(a)"), Ok(SubExpression(lit('a'), Some(1))));
    assert_eq!(parse("(?:a)"), Ok(SubExpression(lit('a'), None)));
    assert_eq!(
        parse("(a)(b)"),
        Ok(Concatenate(
            Box::new(SubExpression(lit('a'), Some(1))),
            Box::new(SubExpression(lit('b'), Some(2)))
        ))
    );
    assert_eq!(
        parse("((a))"),
        Ok(SubExpression(Box::new(SubExpression(lit('a'), Some(2))), Some(1)))
    );
    assert_eq!(
        parse("(?:a)(b)"),
        Ok(Concatenate(
            Box::new(SubExpression(lit('a'), None)),
            Box::new(SubExpression(lit('b'), Some(1)))
        ))
    );
}

#[test]
fn what_stands_before_a_group_is_concatenated_first() {
    assert_eq!(
        parse("ab(c)"),
        Ok(Concatenate(
            Box::new(Concatenate(lit('a'), lit('b'))),
            Box::new(SubExpression(lit('c'), Some(1)))
        ))
    );
}

#[test]
fn brace_quantifiers() {
    assert_eq!(parse("a{3}"), Ok(ExactRepetition(lit('a'), 3, Greedy)));
    assert_eq!(parse("a{007}"), Ok(ExactRepetition(lit('a'), 7, Greedy)));
    assert_eq!(parse("a{0}"), Ok(ExactRepetition(lit('a'), 0, Greedy)));
    assert_eq!(parse("a{2,}"), Ok(UnboundedRepetition(lit('a'), 2, Greedy)));
    assert_eq!(parse("a{2,5}"), Ok(BoundedRepetition(lit('a'), 2, 5, Greedy)));
    assert_eq!(parse("a{5,2}"), Ok(BoundedRepetition(lit('a'), 5, 2, Greedy)));
    assert_eq!(parse("a{1,2,3}"), Ok(BoundedRepetition(lit('a'), 2, 3, Greedy)));
    assert_eq!(
        parse("a{18446744073709551615}"),
        Ok(ExactRepetition(lit('a'), usize::MAX, Greedy))
    );
}

#[test]
fn a_lower_bound_that_does_not_fit_is_no_lower_bound() {
    assert_eq!(
        parse("a{99999999999999999999999,5}"),
        Ok(ExactRepetition(lit('a'), 5, Greedy))
    );
    assert_eq!(
        parse("a{99999999999999999999999,}"),
        Err(ParseError::EmptyRepetition)
    );
}

#[test]
fn character_classes() {
    assert_eq!(
        parse("[abc]"),
        Ok(CharacterClass(vec![single('a'), single('b'), single('c')]))
    );
    assert_eq!(parse("[a-c]"), Ok(CharacterClass(vec![('a', 'c')])));
    assert_eq!(
        parse("[a-cx]"),
        Ok(CharacterClass(vec![('a', 'c'), single('x')]))
    );
    assert_eq!(
        parse("[a^]"),
        Ok(CharacterClass(vec![single('a'), single('^')]))
    );
    assert_eq!(
        parse("[.*]"),
        Ok(CharacterClass(vec![single('.'), single('*')]))
    );
    assert_eq!(
        parse("[\\]a]"),
        Ok(CharacterClass(vec![single(']'), single('a')]))
    );
    assert_eq!(
        parse("[\\da-f]"),
        Ok(CharacterClass(vec![('0', '9'), ('a', 'f')]))
    );
}

#[test]
fn a_hyphen_at_the_edge_of_a_class_is_a_literal() {
    assert_eq!(
        parse("[-a]"),
        Ok(CharacterClass(vec![single('-'), single('a')]))
    );
    assert_eq!(
        parse("[a-]"),
        Ok(CharacterClass(vec![single('a'), single('-')]))
    );
    assert_eq!(parse("[-]"), Ok(CharacterClass(vec![single('-')])));
    assert_eq!(
        parse("[^-a]"),
        Ok(CharacterClass(vec![('\0', ','), ('.', '`'), ('b', LAST)]))
    );
}

#[test]
fn negated_classes_hold_the_complement() {
    assert_eq!(
        parse("[^a]"),
        Ok(CharacterClass(vec![('\0', '`'), ('b', LAST)]))
    );
    assert_eq!(
        parse("[^ab]"),
        Ok(CharacterClass(vec![('\0', '`'), ('c', LAST)]))
    );
    assert_eq!(
        parse("[^ba]"),
        Ok(CharacterClass(vec![('\0', '`'), ('c', LAST)]))
    );
    assert_eq!(
        parse("[^a-cb-e]"),
        Ok(CharacterClass(vec![('\0', '`'), ('f', LAST)]))
    );
    assert_eq!(
        parse("[^x-za-c]"),
        Ok(CharacterClass(vec![('\0', '`'), ('d', 'w'), ('{', LAST)]))
    );
    assert_eq!(parse("[^\0]"), Ok(CharacterClass(vec![('\u{1}', LAST)])));
    assert_eq!(
        parse("[^\u{10FFFF}]"),
        Ok(CharacterClass(vec![('\0', '\u{10FFFE}')]))
    );
}

#[test]
fn the_complement_steps_over_the_surrogates() {
    assert_eq!(
        parse("[^\u{E000}]"),
        Ok(CharacterClass(vec![('\0', '\u{D7FF}'), ('\u{E001}', LAST)]))
    );
    assert_eq!(
        parse("[^\u{D7FF}]"),
        Ok(CharacterClass(vec![('\0', '\u{D7FE}'), ('\u{E000}', LAST)]))
    );
    assert_eq!(
        parse("[^\u{D7FF}\u{E000}]"),
        Ok(CharacterClass(vec![('\0', '\u{D7FE}'), ('\u{E001}', LAST)]))
    );
}

#[test]
fn a_class_that_leaves_nothing_is_empty() {
    assert_eq!(
        parse("[^\0-\u{10FFFF}]"),
        Err(ParseError::EmptyCharacterClass)
    );
}

#[test]
fn escapes() {
    assert_eq!(parse("\\d"), Ok(CharacterClass(vec![('0', '9')])));
    assert_eq!(
        parse("\\D"),
        Ok(CharacterClass(vec![('\0', '/'), (':', LAST)]))
    );
    assert_eq!(
        parse("\\w"),
        Ok(CharacterClass(vec![('a', 'z'), ('A', 'Z'), ('0', '9'), single('_')]))
    );
    assert_eq!(
        parse("\\W"),
        Ok(CharacterClass(vec![
            ('\0', '/'),
            (':', '@'),
            ('[', '^'),
            single('`'),
            ('{', LAST)
        ]))
    );
    assert_eq!(
        parse("\\s"),
        Ok(CharacterClass(vec![
            single('\t'),
            single('\r'),
            single('\n'),
            single('\u{b}'),
            single('\u{c}'),
            single('\u{2028}'),
            single('\u{2029}'),
            single('\u{a0}'),
            single('\u{feff}')
        ]))
    );
    assert_eq!(
        parse("\\S"),
        Ok(CharacterClass(vec![
            ('\0', '\u{8}'),
            ('\u{e}', '\u{9f}'),
            ('\u{a1}', '\u{2027}'),
            ('\u{202a}', '\u{fefe}'),
            ('\u{ff00}', LAST)
        ]))
    );
    assert_eq!(parse("\\b"), Ok(AssertWordBoundary));
    assert_eq!(parse("\\B"), Ok(AssertNonWordBoundary));
    assert_eq!(parse("\\."), Ok(Literal('.')));
    assert_eq!(parse("\\\\"), Ok(Literal('\\')));
    assert_eq!(parse("\\n"), Ok(Literal('n')));
    assert_eq!(parse("\\1"), Ok(Literal('1')));
    assert_eq!(
        parse("[\\b]"),
        Ok(CharacterClass(vec![single('b')]))
    );
}

#[test]
fn unbalanced_parentheses() {
    assert_eq!(parse("a)"), Err(ParseError::UnexpectedCloseParen));
    assert_eq!(parse("(a))"), Err(ParseError::UnexpectedCloseParen));
    assert_eq!(parse(")"), Err(ParseError::EmptyExpression));
    assert_eq!(parse("("), Err(ParseError::UnterminatedSubExpression));
    assert_eq!(parse("(?"), Err(ParseError::UnterminatedSubExpression));
    assert_eq!(parse("(a"), Err(ParseError::UnterminatedGroup));
    assert_eq!(parse("((a)"), Err(ParseError::UnterminatedGroup));
    assert_eq!(parse("(?:a"), Err(ParseError::UnterminatedGroup));
}

#[test]
fn lookahead_is_not_implemented() {
    assert_eq!(parse("(?=a)"), Err(ParseError::NotImplemented));
    assert_eq!(parse("(?!a)"), Err(ParseError::NotImplemented));
    assert_eq!(parse("a(?=b)c"), Err(ParseError::NotImplemented));
}

#[test]
fn other_group_prefixes_open_a_capturing_group() {
    assert_eq!(parse("(?x)"), Err(ParseError::MissingOperand('?')));
}

#[test]
fn empty_expressions() {
    assert_eq!(parse(""), Err(ParseError::EmptyExpression));
    assert_eq!(parse("()"), Err(ParseError::EmptyExpression));
    assert_eq!(parse("a|"), Err(ParseError::EmptyExpression));
    assert_eq!(parse("(a|)"), Err(ParseError::EmptyExpression));
}

#[test]
fn operators_without_operand() {
    assert_eq!(parse("*"), Err(ParseError::MissingOperand('*')));
    assert_eq!(parse("*a"), Err(ParseError::MissingOperand('*')));
    assert_eq!(parse("+"), Err(ParseError::MissingOperand('+')));
    assert_eq!(parse("?"), Err(ParseError::MissingOperand('?')));
    assert_eq!(parse("|a"), Err(ParseError::MissingOperand('|')));
    assert_eq!(parse("(*)b"), Err(ParseError::MissingOperand('*')));
    assert_eq!(parse("{1}"), Err(ParseError::UnexpectedOpenBrace));
}

#[test]
fn nothing_to_repeat() {
    assert_eq!(parse("a**"), Err(ParseError::NothingToRepeat));
    assert_eq!(parse("a*+"), Err(ParseError::NothingToRepeat));
    assert_eq!(parse("a?*"), Err(ParseError::NothingToRepeat));
    assert_eq!(parse("a?+"), Err(ParseError::NothingToRepeat));
    assert_eq!(parse("a*?*"), Err(ParseError::NothingToRepeat));
}

#[test]
fn broken_classes() {
    assert_eq!(parse("["), Err(ParseError::UnterminatedCharacterClass));
    assert_eq!(parse("[a"), Err(ParseError::UnterminatedCharacterClass));
    assert_eq!(parse("[^"), Err(ParseError::UnterminatedCharacterClass));
    assert_eq!(parse("[a-"), Err(ParseError::UnterminatedCharacterClass));
    assert_eq!(parse("[]"), Err(ParseError::EmptyCharacterClass));
    assert_eq!(parse("a[]b"), Err(ParseError::EmptyCharacterClass));
    assert_eq!(parse("[^]"), Err(ParseError::EmptyCharacterClass));
    assert_eq!(parse("[b-a]"), Err(ParseError::InvalidRange));
    assert_eq!(parse("[a-a]"), Err(ParseError::InvalidRange));
    assert_eq!(parse("[a-c-e]"), Err(ParseError::MissingRangeStart));
    assert_eq!(parse("[\\d-a]"), Err(ParseError::MissingRangeStart));
}

#[test]
fn broken_escapes() {
    assert_eq!(parse("\\"), Err(ParseError::IncompleteEscape));
    assert_eq!(parse("a\\"), Err(ParseError::IncompleteEscape));
    assert_eq!(parse("[\\"), Err(ParseError::IncompleteEscape));
}

#[test]
fn broken_brace_quantifiers() {
    assert_eq!(parse("a{"), Err(ParseError::UnterminatedRepetition));
    assert_eq!(parse("a{1"), Err(ParseError::UnterminatedRepetition));
    assert_eq!(parse("a{1,"), Err(ParseError::UnterminatedRepetition));
    assert_eq!(parse("a{}"), Err(ParseError::EmptyRepetition));
    assert_eq!(parse("a{1,,}"), Err(ParseError::EmptyRepetition));
    assert_eq!(parse("a{,}"), Err(ParseError::UnexpectedComma));
    assert_eq!(parse("a{,5}"), Err(ParseError::UnexpectedComma));
    assert_eq!(parse("a{x}"), Err(ParseError::NonNumericRepetition));
    assert_eq!(parse("a{1 }"), Err(ParseError::NonNumericRepetition));
    assert_eq!(
        parse("a{18446744073709551616}"),
        Err(ParseError::RepetitionTooLarge)
    );
    assert_eq!(
        parse("a{1,99999999999999999999999}"),
        Err(ParseError::RepetitionTooLarge)
    );
}

#[test]
fn messages_name_the_cause() {
    assert_eq!(
        ParseError::UnexpectedCloseParen.message(),
        "Unexpected ')' encountered."
    );
    assert_eq!(
        ParseError::UnterminatedCharacterClass.message(),
        "Unterminated character class."
    );
    assert_eq!(
        ParseError::MissingRangeStart.message(),
        "Unexpected '-' in character class. Missing start of range."
    );
    assert_eq!(
        ParseError::InvalidRange.message(),
        "Character class range start is larger than or equal to range end."
    );
    assert_eq!(ParseError::EmptyCharacterClass.message(), "Empty character class");
    assert_eq!(ParseError::IncompleteEscape.message(), "Incomplete escape sequence.");
    assert_eq!(ParseError::NotImplemented.message(), "NOT IMPLEMENTED");
    assert_eq!(
        ParseError::UnterminatedSubExpression.message(),
        "Unterminated sub expression."
    );
    assert_eq!(ParseError::UnterminatedGroup.message(), "Unterminated group");
    assert_eq!(
        ParseError::UnexpectedComma.message(),
        "Unexpected ',' encountered in repetition."
    );
    assert_eq!(ParseError::EmptyRepetition.message(), "Illegal empty repetition.");
    assert_eq!(
        ParseError::NonNumericRepetition.message(),
        "Non-numeric character in repetition."
    );
    assert_eq!(
        ParseError::UnterminatedRepetition.message(),
        "Unterminated repetition."
    );
    assert_eq!(
        ParseError::MissingOperand('|').message(),
        "Missing left operand for '|' operator."
    );
    assert_eq!(
        ParseError::MissingOperand('*').message(),
        "Missing left operand for '*' operator."
    );
    assert_eq!(
        ParseError::MissingOperand('+').message(),
        "Missing left operand for '+' operator."
    );
    assert_eq!(
        ParseError::MissingOperand('?').message(),
        "Missing left operand for '?' operator."
    );
    assert_eq!(ParseError::NothingToRepeat.message(), "Nothing to repeat.");
    assert_eq!(
        ParseError::UnexpectedOpenBrace.message(),
        "Unexpected '{' encountered."
    );
    assert_eq!(ParseError::EmptyExpression.message(), "Illegal empty expression.");
}
