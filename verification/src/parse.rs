//! The parser: reads a pattern into an expression tree.

use crate::charclass::{
    complement, complement_ranges, lemma_complement_not_empty, negate_char_ranges, range_end,
    range_start,
};
use crate::shape::{lemma_parse_numbered, lemma_parse_ordered, numbered, ordered};
use crate::text::{chars_of, code_point};
use vstd::prelude::*;

verus! {

/// Whether a quantifier prefers to repeat (greedy) or to stop (non-greedy).
#[derive(Clone, Copy, Debug, PartialEq, Eq, Structural)]
pub enum QuantifierType {
    Greedy,
    NonGreedy,
}

/// A node of the expression tree that the parser produces.
#[derive(Debug, PartialEq, Eq)]
pub enum Expression {
    /// One code point, matched exactly.
    Literal(char),
    /// `.`: any code point.
    AnyLiteral,
    /// Any code point between the two, both included.
    RangeLiteral(char, char),
    /// Any code point in the union of the ranges.
    CharacterClass(Vec<(char, char)>),
    /// The first, then the second.
    Concatenate(Box<Expression>, Box<Expression>),
    /// `|`: either one; the first has priority.
    Alternate(Box<Expression>, Box<Expression>),
    /// A parenthesised group, capturing when it carries an index.
    SubExpression(Box<Expression>, Option<usize>),
    /// `?`
    Question(Box<Expression>, QuantifierType),
    /// `*`
    Star(Box<Expression>, QuantifierType),
    /// `+`
    Plus(Box<Expression>, QuantifierType),
    /// `{n}`
    ExactRepetition(Box<Expression>, usize, QuantifierType),
    /// `{n,}`
    UnboundedRepetition(Box<Expression>, usize, QuantifierType),
    /// `{n,m}`
    BoundedRepetition(Box<Expression>, usize, usize, QuantifierType),
    /// `^`
    AssertStart,
    /// `$`
    AssertEnd,
    /// `\b`
    AssertWordBoundary,
    /// `\B`
    AssertNonWordBoundary,
}

/// The mathematical value of an [`Expression`]: the same tree, with each
/// character class as a sequence of ranges.
pub ghost enum Syntax {
    Literal(char),
    AnyLiteral,
    RangeLiteral(char, char),
    CharacterClass(Seq<(char, char)>),
    Concatenate(Box<Syntax>, Box<Syntax>),
    Alternate(Box<Syntax>, Box<Syntax>),
    SubExpression(Box<Syntax>, Option<usize>),
    Question(Box<Syntax>, QuantifierType),
    Star(Box<Syntax>, QuantifierType),
    Plus(Box<Syntax>, QuantifierType),
    ExactRepetition(Box<Syntax>, usize, QuantifierType),
    UnboundedRepetition(Box<Syntax>, usize, QuantifierType),
    BoundedRepetition(Box<Syntax>, usize, usize, QuantifierType),
    AssertStart,
    AssertEnd,
    AssertWordBoundary,
    AssertNonWordBoundary,
}

impl Syntax {
    /// Every character class in the tree has at least one range.
    pub open spec fn well_formed(self) -> bool
        decreases self,
    {
        match self {
            Syntax::CharacterClass(ranges) => ranges.len() > 0,
            Syntax::Concatenate(l, r) => l.well_formed() && r.well_formed(),
            Syntax::Alternate(l, r) => l.well_formed() && r.well_formed(),
            Syntax::SubExpression(e, _) => e.well_formed(),
            Syntax::Question(e, _) => e.well_formed(),
            Syntax::Star(e, _) => e.well_formed(),
            Syntax::Plus(e, _) => e.well_formed(),
            Syntax::ExactRepetition(e, _, _) => e.well_formed(),
            Syntax::UnboundedRepetition(e, _, _) => e.well_formed(),
            Syntax::BoundedRepetition(e, _, _, _) => e.well_formed(),
            _ => true,
        }
    }
}

/// Whether every character class in the tree has at least one range.
pub fn is_well_formed(expression: &Expression) -> (ok: bool)
    ensures
        ok == expression@.well_formed(),
    decreases expression,
{
    match expression {
        Expression::CharacterClass(ranges) => ranges.len() > 0,
        Expression::Concatenate(l, r) => is_well_formed(l) && is_well_formed(r),
        Expression::Alternate(l, r) => is_well_formed(l) && is_well_formed(r),
        Expression::SubExpression(e, _) => is_well_formed(e),
        Expression::Question(e, _) => is_well_formed(e),
        Expression::Star(e, _) => is_well_formed(e),
        Expression::Plus(e, _) => is_well_formed(e),
        Expression::ExactRepetition(e, _, _) => is_well_formed(e),
        Expression::UnboundedRepetition(e, _, _) => is_well_formed(e),
        Expression::BoundedRepetition(e, _, _, _) => is_well_formed(e),
        _ => true,
    }
}

/// The values of a sequence of trees.
pub open spec fn syntaxes(s: Seq<Expression>) -> Seq<Syntax> {
    s.map_values(|e: Expression| e@)
}

impl Expression {
    /// The tree as a mathematical value.
    pub open spec fn syntax(self) -> Syntax
        decreases self,
    {
        match self {
            Expression::Literal(c) => Syntax::Literal(c),
            Expression::AnyLiteral => Syntax::AnyLiteral,
            Expression::RangeLiteral(lo, hi) => Syntax::RangeLiteral(lo, hi),
            Expression::CharacterClass(ranges) => Syntax::CharacterClass(ranges@),
            Expression::Concatenate(l, r) => Syntax::Concatenate(
                Box::new(l.syntax()),
                Box::new(r.syntax()),
            ),
            Expression::Alternate(l, r) => Syntax::Alternate(
                Box::new(l.syntax()),
                Box::new(r.syntax()),
            ),
            Expression::SubExpression(e, slot) => Syntax::SubExpression(Box::new(e.syntax()), slot),
            Expression::Question(e, t) => Syntax::Question(Box::new(e.syntax()), t),
            Expression::Star(e, t) => Syntax::Star(Box::new(e.syntax()), t),
            Expression::Plus(e, t) => Syntax::Plus(Box::new(e.syntax()), t),
            Expression::ExactRepetition(e, n, t) => Syntax::ExactRepetition(
                Box::new(e.syntax()),
                n,
                t,
            ),
            Expression::UnboundedRepetition(e, n, t) => Syntax::UnboundedRepetition(
                Box::new(e.syntax()),
                n,
                t,
            ),
            Expression::BoundedRepetition(e, n, m, t) => Syntax::BoundedRepetition(
                Box::new(e.syntax()),
                n,
                m,
                t,
            ),
            Expression::AssertStart => Syntax::AssertStart,
            Expression::AssertEnd => Syntax::AssertEnd,
            Expression::AssertWordBoundary => Syntax::AssertWordBoundary,
            Expression::AssertNonWordBoundary => Syntax::AssertNonWordBoundary,
        }
    }
}

impl View for Expression {
    type V = Syntax;

    open spec fn view(&self) -> Syntax {
        self.syntax()
    }
}

/// Why a pattern is not an expression.
#[derive(Clone, Copy, Debug, PartialEq, Eq, Structural)]
pub enum ParseError {
    /// A `)` closes no group.
    UnexpectedCloseParen,
    /// The pattern ends inside `[ ]`.
    UnterminatedCharacterClass,
    /// A `-` in a class follows a range or a class escape.
    MissingRangeStart,
    /// A range in a class does not end after its start.
    InvalidRange,
    /// A class holds no code point.
    EmptyCharacterClass,
    /// The pattern ends behind a backslash.
    IncompleteEscape,
    /// `(?=` or `(?!`: lookahead is not supported.
    NotImplemented,
    /// The pattern ends just behind the opening of a group.
    UnterminatedSubExpression,
    /// The pattern ends inside a group.
    UnterminatedGroup,
    /// A `,` in braces follows neither a number nor another `,`.
    UnexpectedComma,
    /// Braces without a number.
    EmptyRepetition,
    /// Something other than a digit, `,` or `}` in braces.
    NonNumericRepetition,
    /// The pattern ends inside braces.
    UnterminatedRepetition,
    /// The last number in braces does not fit in `usize`.
    RepetitionTooLarge,
    /// The operator (`|`, `*`, `+` or `?`) has nothing to its left.
    MissingOperand(char),
    /// `*` or `+` follows a `*` or `?` quantifier.
    NothingToRepeat,
    /// Braces have nothing to their left.
    UnexpectedOpenBrace,
    /// The pattern, a group or the right side of `|` is empty.
    EmptyExpression,
    /// The program of the expression has too many instructions for the
    /// machine.
    ProgramTooLarge,
}

/// A tree read from a pattern, and the index of the first symbol behind it.
pub ghost struct Item {
    pub tree: Syntax,
    pub next: int,
}

/// What the reading of a sequence gives: its tree, the index of the first
/// symbol behind it, the number of capturing groups opened so far, and
/// whether a `)` ended it (`closed`) or the end of the pattern.
pub ghost struct Parsed {
    pub tree: Syntax,
    pub next: int,
    pub captures: nat,
    pub closed: bool,
}

/// The trees in sequence, nested to the right.
pub open spec fn concatenation(trees: Seq<Syntax>) -> Syntax
    recommends
        trees.len() > 0,
    decreases trees.len(),
{
    if trees.len() <= 1 {
        trees[0]
    } else {
        Syntax::Concatenate(Box::new(trees[0]), Box::new(concatenation(trees.drop_first())))
    }
}

/// The stack with all its trees folded into their concatenation.
pub open spec fn folded(stack: Seq<Syntax>) -> Seq<Syntax> {
    if stack.len() <= 1 {
        stack
    } else {
        seq![concatenation(stack)]
    }
}

/// The value of a decimal numeral.
pub open spec fn decimal(digits: Seq<char>) -> nat
    decreases digits.len(),
{
    if digits.len() == 0 {
        0
    } else {
        (10 * decimal(digits.drop_last()) + (digits.last() as int - '0' as int)) as nat
    }
}

/// The number that a numeral stands for: none for the empty numeral and
/// for one that does not fit in `usize`.
pub open spec fn number(digits: Seq<char>) -> Option<usize> {
    if digits.len() == 0 || decimal(digits) > usize::MAX {
        None
    } else {
        Some(decimal(digits) as usize)
    }
}

/// The ranges of the classes `\d`, `\s` and `\w`, for either case of the
/// letter.
pub open spec fn escape_ranges(c: char) -> Option<Seq<(char, char)>> {
    if c == 'd' || c == 'D' {
        Some(seq![('0', '9')])
    } else if c == 's' || c == 'S' {
        Some(
            seq![
                ('\t', '\t'),
                ('\r', '\r'),
                ('\n', '\n'),
                ('\u{b}', '\u{b}'),
                ('\u{c}', '\u{c}'),
                ('\u{2028}', '\u{2028}'),
                ('\u{2029}', '\u{2029}'),
                ('\u{a0}', '\u{a0}'),
                ('\u{feff}', '\u{feff}'),
            ],
        )
    } else if c == 'w' || c == 'W' {
        Some(seq![('a', 'z'), ('A', 'Z'), ('0', '9'), ('_', '_')])
    } else {
        None
    }
}

/// The class that an escaped letter stands for, if it stands for one: the
/// ranges of the letter, and their complement for `D`, `S` and `W`.
pub open spec fn common_escape(c: char) -> Option<Syntax> {
    match escape_ranges(c) {
        Some(ranges) => if c == 'D' || c == 'S' || c == 'W' {
            Some(Syntax::CharacterClass(complement(ranges)))
        } else {
            Some(Syntax::CharacterClass(ranges))
        },
        None => None,
    }
}

/// What stands behind a backslash inside a class, read at index `i`.
pub open spec fn class_escape(p: Seq<char>, i: int) -> Result<Item, ParseError> {
    if i >= p.len() {
        Err(ParseError::IncompleteEscape)
    } else {
        match common_escape(p[i]) {
            Some(tree) => Ok(Item { tree, next: i + 1 }),
            None => Ok(Item { tree: Syntax::Literal(p[i]), next: i + 1 }),
        }
    }
}

/// What stands behind a backslash outside a class, read at index `i`.
pub open spec fn escape(p: Seq<char>, i: int) -> Result<Item, ParseError> {
    if i >= p.len() {
        Err(ParseError::IncompleteEscape)
    } else if p[i] == 'b' {
        Ok(Item { tree: Syntax::AssertWordBoundary, next: i + 1 })
    } else if p[i] == 'B' {
        Ok(Item { tree: Syntax::AssertNonWordBoundary, next: i + 1 })
    } else {
        class_escape(p, i)
    }
}

/// The class that ends the reading of `[ ]`: the ranges read, or their
/// complement for a negated class. A class without a code point is an
/// error.
pub open spec fn finished_class(ranges: Seq<(char, char)>, negated: bool) -> Result<
    Syntax,
    ParseError,
> {
    if ranges.len() == 0 {
        Err(ParseError::EmptyCharacterClass)
    } else if negated {
        if complement(ranges).len() == 0 {
            Err(ParseError::EmptyCharacterClass)
        } else {
            Ok(Syntax::CharacterClass(complement(ranges)))
        }
    } else {
        Ok(Syntax::CharacterClass(ranges))
    }
}

/// The reading of a class from index `i` on, behind its `[`, with the
/// ranges read so far and whether a leading `^` was read.
pub open spec fn charclass(
    p: Seq<char>,
    i: int,
    ranges: Seq<(char, char)>,
    negated: bool,
) -> Result<Item, ParseError>
    decreases p.len() - i,
{
    if i < 0 || i >= p.len() {
        Err(ParseError::UnterminatedCharacterClass)
    } else {
        let c = p[i];
        if c == '^' && ranges.len() == 0 && !negated {
            charclass(p, i + 1, ranges, true)
        } else if c == '\\' {
            match class_escape(p, i + 1) {
                Ok(item) => match item.tree {
                    Syntax::CharacterClass(more) => charclass(p, i + 2, ranges + more, negated),
                    Syntax::Literal(l) => charclass(p, i + 2, ranges.push((l, l)), negated),
                    _ => Err(ParseError::IncompleteEscape),
                },
                Err(e) => Err(e),
            }
        } else if c == '-' {
            if ranges.len() == 0 {
                charclass(p, i + 1, ranges.push(('-', '-')), negated)
            } else if i + 1 >= p.len() {
                Err(ParseError::UnterminatedCharacterClass)
            } else if p[i + 1] == ']' {
                match finished_class(ranges.push(('-', '-')), negated) {
                    Ok(tree) => Ok(Item { tree, next: i + 2 }),
                    Err(e) => Err(e),
                }
            } else if ranges.last().0 != ranges.last().1 {
                Err(ParseError::MissingRangeStart)
            } else if ranges.last().0 >= p[i + 1] {
                Err(ParseError::InvalidRange)
            } else {
                charclass(
                    p,
                    i + 2,
                    ranges.drop_last().push((ranges.last().0, p[i + 1])),
                    negated,
                )
            }
        } else if c == ']' {
            match finished_class(ranges, negated) {
                Ok(tree) => Ok(Item { tree, next: i + 1 }),
                Err(e) => Err(e),
            }
        } else {
            charclass(p, i + 1, ranges.push((c, c)), negated)
        }
    }
}

/// The reading of a brace quantifier from index `i` on, behind its `{`,
/// with the lower bound and the digits read so far; `tree` is what it
/// repeats.
pub open spec fn repetition(
    p: Seq<char>,
    i: int,
    low: Option<usize>,
    digits: Seq<char>,
    tree: Syntax,
) -> Result<Item, ParseError>
    decreases p.len() - i,
{
    if i < 0 || i >= p.len() {
        Err(ParseError::UnterminatedRepetition)
    } else {
        let c = p[i];
        if '0' <= c <= '9' {
            repetition(p, i + 1, low, digits.push(c), tree)
        } else if c == ',' {
            if digits.len() == 0 && low is None {
                Err(ParseError::UnexpectedComma)
            } else {
                repetition(p, i + 1, number(digits), Seq::empty(), tree)
            }
        } else if c == '}' {
            if digits.len() == 0 {
                match low {
                    Some(n) => Ok(
                        Item {
                            tree: Syntax::UnboundedRepetition(
                                Box::new(tree),
                                n,
                                QuantifierType::Greedy,
                            ),
                            next: i + 1,
                        },
                    ),
                    None => Err(ParseError::EmptyRepetition),
                }
            } else {
                match number(digits) {
                    None => Err(ParseError::RepetitionTooLarge),
                    Some(n) => match low {
                        Some(l) => Ok(
                            Item {
                                tree: Syntax::BoundedRepetition(
                                    Box::new(tree),
                                    l,
                                    n,
                                    QuantifierType::Greedy,
                                ),
                                next: i + 1,
                            },
                        ),
                        None => Ok(
                            Item {
                                tree: Syntax::ExactRepetition(
                                    Box::new(tree),
                                    n,
                                    QuantifierType::Greedy,
                                ),
                                next: i + 1,
                            },
                        ),
                    },
                }
            }
        } else {
            Err(ParseError::NonNumericRepetition)
        }
    }
}

/// Whether `*` and `+` may follow the tree: not behind a `*` or `?`
/// quantifier.
pub open spec fn repeatable(tree: Syntax) -> bool {
    !(tree is Star) && !(tree is Question)
}

/// What a `?` makes of the tree before it: a greedy quantifier becomes
/// non-greedy, anything else becomes optional.
pub open spec fn questioned(tree: Syntax) -> Syntax {
    match tree {
        Syntax::Question(e, QuantifierType::Greedy) => Syntax::Question(
            e,
            QuantifierType::NonGreedy,
        ),
        Syntax::Star(e, QuantifierType::Greedy) => Syntax::Star(e, QuantifierType::NonGreedy),
        Syntax::Plus(e, QuantifierType::Greedy) => Syntax::Plus(e, QuantifierType::NonGreedy),
        Syntax::ExactRepetition(e, n, QuantifierType::Greedy) => Syntax::ExactRepetition(
            e,
            n,
            QuantifierType::NonGreedy,
        ),
        Syntax::UnboundedRepetition(e, n, QuantifierType::Greedy) => Syntax::UnboundedRepetition(
            e,
            n,
            QuantifierType::NonGreedy,
        ),
        Syntax::BoundedRepetition(e, n, m, QuantifierType::Greedy) => Syntax::BoundedRepetition(
            e,
            n,
            m,
            QuantifierType::NonGreedy,
        ),
        _ => Syntax::Question(Box::new(tree), QuantifierType::Greedy),
    }
}

/// How a group opens at index `i`, behind its `(`: whether it captures,
/// and the index at which its content starts.
pub open spec fn group_opening(p: Seq<char>, i: int) -> Result<(bool, int), ParseError> {
    if i >= p.len() {
        Err(ParseError::UnterminatedSubExpression)
    } else if p[i] == '?' {
        if i + 1 >= p.len() {
            Err(ParseError::UnterminatedSubExpression)
        } else if p[i + 1] == ':' {
            Ok((false, i + 2))
        } else if p[i + 1] == '=' || p[i + 1] == '!' {
            Err(ParseError::NotImplemented)
        } else {
            Ok((true, i))
        }
    } else {
        Ok((true, i))
    }
}

/// What ends the reading of a sequence: the concatenation of the stack.
pub open spec fn finished_sequence(
    stack: Seq<Syntax>,
    next: int,
    captures: nat,
    closed: bool,
) -> Result<Parsed, ParseError> {
    if stack.len() == 0 {
        Err(ParseError::EmptyExpression)
    } else {
        Ok(Parsed { tree: concatenation(stack), next, captures, closed })
    }
}

/// The reading of a sequence from index `i` on, up to a `)` or the end of
/// the pattern, with the number of capturing groups opened so far and the
/// stack of the trees read so far.
pub open spec fn sequence(p: Seq<char>, i: int, captures: nat, stack: Seq<Syntax>) -> Result<
    Parsed,
    ParseError,
>
    decreases p.len() - i, 0int,
{
    if i < 0 || i >= p.len() {
        finished_sequence(stack, i, captures, false)
    } else {
        let c = p[i];
        if c == '.' {
            sequence(p, i + 1, captures, stack.push(Syntax::AnyLiteral))
        } else if c == '\\' {
            match escape(p, i + 1) {
                Ok(item) => sequence(p, i + 2, captures, stack.push(item.tree)),
                Err(e) => Err(e),
            }
        } else if c == '|' {
            if stack.len() == 0 {
                Err(ParseError::MissingOperand('|'))
            } else {
                match sequence(p, i + 1, captures, Seq::empty()) {
                    Ok(right) => Ok(
                        Parsed {
                            tree: Syntax::Alternate(
                                Box::new(concatenation(stack)),
                                Box::new(right.tree),
                            ),
                            ..right
                        },
                    ),
                    Err(e) => Err(e),
                }
            }
        } else if c == '*' {
            if stack.len() == 0 {
                Err(ParseError::MissingOperand('*'))
            } else if !repeatable(stack.last()) {
                Err(ParseError::NothingToRepeat)
            } else {
                sequence(
                    p,
                    i + 1,
                    captures,
                    stack.drop_last().push(
                        Syntax::Star(Box::new(stack.last()), QuantifierType::Greedy),
                    ),
                )
            }
        } else if c == '+' {
            if stack.len() == 0 {
                Err(ParseError::MissingOperand('+'))
            } else if !repeatable(stack.last()) {
                Err(ParseError::NothingToRepeat)
            } else {
                sequence(
                    p,
                    i + 1,
                    captures,
                    stack.drop_last().push(
                        Syntax::Plus(Box::new(stack.last()), QuantifierType::Greedy),
                    ),
                )
            }
        } else if c == '?' {
            if stack.len() == 0 {
                Err(ParseError::MissingOperand('?'))
            } else {
                sequence(p, i + 1, captures, stack.drop_last().push(questioned(stack.last())))
            }
        } else if c == '(' {
            match group(p, i + 1, captures) {
                Ok(inner) => if i < inner.next <= p.len() {
                    sequence(p, inner.next, inner.captures, folded(stack).push(inner.tree))
                } else {
                    Err(ParseError::UnterminatedGroup)
                },
                Err(e) => Err(e),
            }
        } else if c == ')' {
            finished_sequence(stack, i + 1, captures, true)
        } else if c == '[' {
            match charclass(p, i + 1, Seq::empty(), false) {
                Ok(item) => if i < item.next <= p.len() {
                    sequence(p, item.next, captures, stack.push(item.tree))
                } else {
                    Err(ParseError::UnterminatedCharacterClass)
                },
                Err(e) => Err(e),
            }
        } else if c == '{' {
            if stack.len() == 0 {
                Err(ParseError::UnexpectedOpenBrace)
            } else {
                match repetition(p, i + 1, None, Seq::empty(), stack.last()) {
                    Ok(item) => if i < item.next <= p.len() {
                        sequence(p, item.next, captures, stack.drop_last().push(item.tree))
                    } else {
                        Err(ParseError::UnterminatedRepetition)
                    },
                    Err(e) => Err(e),
                }
            }
        } else if c == '^' {
            sequence(p, i + 1, captures, stack.push(Syntax::AssertStart))
        } else if c == '$' {
            sequence(p, i + 1, captures, stack.push(Syntax::AssertEnd))
        } else {
            sequence(p, i + 1, captures, stack.push(Syntax::Literal(c)))
        }
    }
}

/// The reading of a group from index `i` on, behind its `(`. A capturing
/// group takes the next capture index, counted from 1 in the order of the
/// opening parentheses.
pub open spec fn group(p: Seq<char>, i: int, captures: nat) -> Result<Parsed, ParseError>
    decreases p.len() - i, 1int,
{
    match group_opening(p, i) {
        Err(e) => Err(e),
        Ok((capturing, start)) => {
            let opened = if capturing {
                captures + 1
            } else {
                captures
            };
            let slot = if capturing {
                Some(opened as usize)
            } else {
                None
            };
            if start < i {
                Err(ParseError::UnterminatedGroup)
            } else {
                match sequence(p, start, opened, Seq::empty()) {
                    Err(e) => Err(e),
                    Ok(inner) => if inner.closed {
                        Ok(
                            Parsed {
                                tree: Syntax::SubExpression(Box::new(inner.tree), slot),
                                closed: false,
                                ..inner
                            },
                        )
                    } else {
                        Err(ParseError::UnterminatedGroup)
                    },
                }
            }
        },
    }
}

/// The expression that a pattern stands for, or why it stands for none.
pub open spec fn parse_pattern(p: Seq<char>) -> Result<Syntax, ParseError> {
    match sequence(p, 0, 0, Seq::empty()) {
        Err(e) => Err(e),
        Ok(all) => if all.closed {
            Err(ParseError::UnexpectedCloseParen)
        } else {
            Ok(all.tree)
        },
    }
}

impl ParseError {
    /// A short text that names the cause.
    pub fn message(&self) -> (text: &'static str)
        ensures
            text@ == self.message_text(),
    {
        match self {
            ParseError::UnexpectedCloseParen => "Unexpected ')' encountered.",
            ParseError::UnterminatedCharacterClass => "Unterminated character class.",
            ParseError::MissingRangeStart => {
                "Unexpected '-' in character class. Missing start of range."
            },
            ParseError::InvalidRange => {
                "Character class range start is larger than or equal to range end."
            },
            ParseError::EmptyCharacterClass => "Empty character class",
            ParseError::IncompleteEscape => "Incomplete escape sequence.",
            ParseError::NotImplemented => "NOT IMPLEMENTED",
            ParseError::UnterminatedSubExpression => "Unterminated sub expression.",
            ParseError::UnterminatedGroup => "Unterminated group",
            ParseError::UnexpectedComma => "Unexpected ',' encountered in repetition.",
            ParseError::EmptyRepetition => "Illegal empty repetition.",
            ParseError::NonNumericRepetition => "Non-numeric character in repetition.",
            ParseError::UnterminatedRepetition => "Unterminated repetition.",
            ParseError::RepetitionTooLarge => "Number in repetition is too large.",
            ParseError::MissingOperand(operator) => {
                if *operator == '|' {
                    "Missing left operand for '|' operator."
                } else if *operator == '*' {
                    "Missing left operand for '*' operator."
                } else if *operator == '+' {
                    "Missing left operand for '+' operator."
                } else {
                    "Missing left operand for '?' operator."
                }
            },
            ParseError::NothingToRepeat => "Nothing to repeat.",
            ParseError::UnexpectedOpenBrace => "Unexpected '{' encountered.",
            ParseError::EmptyExpression => "Illegal empty expression.",
            ParseError::ProgramTooLarge => "Pattern is too large.",
        }
    }

    /// The text that names the cause: one sentence for each cause, and for
    /// a missing operand one for each operator; an operator other than
    /// `|`, `*` and `+` is named as `?`.
    pub open spec fn message_text(self) -> Seq<char> {
        match self {
            ParseError::UnexpectedCloseParen => "Unexpected ')' encountered."@,
            ParseError::UnterminatedCharacterClass => "Unterminated character class."@,
            ParseError::MissingRangeStart => {
                "Unexpected '-' in character class. Missing start of range."@
            },
            ParseError::InvalidRange => {
                "Character class range start is larger than or equal to range end."@
            },
            ParseError::EmptyCharacterClass => "Empty character class"@,
            ParseError::IncompleteEscape => "Incomplete escape sequence."@,
            ParseError::NotImplemented => "NOT IMPLEMENTED"@,
            ParseError::UnterminatedSubExpression => "Unterminated sub expression."@,
            ParseError::UnterminatedGroup => "Unterminated group"@,
            ParseError::UnexpectedComma => "Unexpected ',' encountered in repetition."@,
            ParseError::EmptyRepetition => "Illegal empty repetition."@,
            ParseError::NonNumericRepetition => "Non-numeric character in repetition."@,
            ParseError::UnterminatedRepetition => "Unterminated repetition."@,
            ParseError::RepetitionTooLarge => "Number in repetition is too large."@,
            ParseError::MissingOperand(operator) => {
                if operator == '|' {
                    "Missing left operand for '|' operator."@
                } else if operator == '*' {
                    "Missing left operand for '*' operator."@
                } else if operator == '+' {
                    "Missing left operand for '+' operator."@
                } else {
                    "Missing left operand for '?' operator."@
                }
            },
            ParseError::NothingToRepeat => "Nothing to repeat."@,
            ParseError::UnexpectedOpenBrace => "Unexpected '{' encountered."@,
            ParseError::EmptyExpression => "Illegal empty expression."@,
            ParseError::ProgramTooLarge => "Pattern is too large."@,
        }
    }
}

/// Every tree of the sequence is well formed.
pub open spec fn all_well_formed(trees: Seq<Syntax>) -> bool {
    forall|i: int| 0 <= i < trees.len() ==> (#[trigger] trees[i]).well_formed()
}

/// Folding the last two trees of a sequence into their concatenation
/// leaves the concatenation of the whole unchanged.
pub proof fn lemma_concatenation_fold_last(trees: Seq<Syntax>)
    requires
        trees.len() >= 2,
    ensures
        concatenation(trees) == concatenation(
            trees.take(trees.len() - 2).push(
                Syntax::Concatenate(
                    Box::new(trees[trees.len() - 2]),
                    Box::new(trees[trees.len() - 1]),
                ),
            ),
        ),
    decreases trees.len(),
{
    let n = trees.len() as int;
    let joined = trees.take(n - 2).push(
        Syntax::Concatenate(Box::new(trees[n - 2]), Box::new(trees[n - 1])),
    );
    if n == 2 {
        assert(trees.drop_first().len() == 1);
        assert(concatenation(trees.drop_first()) == trees[1]);
        assert(joined.len() == 1);
    } else {
        let rest = trees.drop_first();
        lemma_concatenation_fold_last(rest);
        assert(joined.drop_first() =~= rest.take(n - 3).push(
            Syntax::Concatenate(Box::new(rest[n - 3]), Box::new(rest[n - 2])),
        ));
        assert(joined[0] == trees[0]);
    }
}

/// The concatenation of well-formed trees is well formed.
pub proof fn lemma_concatenation_well_formed(trees: Seq<Syntax>)
    requires
        trees.len() > 0,
        all_well_formed(trees),
    ensures
        concatenation(trees).well_formed(),
    decreases trees.len(),
{
    assert(trees[0].well_formed());
    if trees.len() > 1 {
        assert forall|i: int| 0 <= i < trees.drop_first().len() implies (
        #[trigger] trees.drop_first()[i]).well_formed() by {
            assert(trees.drop_first()[i] == trees[i + 1]);
        }
        lemma_concatenation_well_formed(trees.drop_first());
    }
}

/// Folds a stack of trees into one: the concatenation of all of them,
/// nested to the right. An empty stack stays empty.
pub fn do_concat(stack: &mut Vec<Expression>)
    ensures
        syntaxes(final(stack)@) == folded(syntaxes(old(stack)@)),
{
    if stack.len() <= 1 {
        return ;
    }
    while stack.len() > 1
        invariant
            old(stack).len() > 1,
            stack.len() > 0,
            concatenation(syntaxes(stack@)) == concatenation(syntaxes(old(stack)@)),
        decreases stack.len(),
    {
        let ghost before = syntaxes(stack@);
        let right = stack.pop().unwrap();
        let left = stack.pop().unwrap();
        stack.push(Expression::Concatenate(Box::new(left), Box::new(right)));
        proof {
            lemma_concatenation_fold_last(before);
            assert(syntaxes(stack@) =~= before.take(before.len() - 2).push(
                Syntax::Concatenate(
                    Box::new(before[before.len() - 2]),
                    Box::new(before[before.len() - 1]),
                ),
            ));
        }
    }
    proof {
        assert(syntaxes(stack@) =~= seq![concatenation(syntaxes(old(stack)@))]);
    }
}

/// Every symbol is a decimal digit.
pub open spec fn all_digits(digits: Seq<char>) -> bool {
    forall|i: int| 0 <= i < digits.len() ==> '0' <= #[trigger] digits[i] <= '9'
}

/// A numeral is worth at least as much as each of its beginnings.
pub proof fn lemma_decimal_grows(digits: Seq<char>, k: int)
    requires
        all_digits(digits),
        0 <= k <= digits.len(),
    ensures
        decimal(digits.take(k)) <= decimal(digits),
    decreases digits.len() - k,
{
    if k < digits.len() {
        lemma_decimal_grows(digits, k + 1);
        assert(digits.take(k + 1).drop_last() =~= digits.take(k));
        assert(digits.take(k + 1).last() == digits[k]);
    } else {
        assert(digits.take(k) =~= digits);
    }
}

/// The number that a numeral of decimal digits stands for, if it has
/// digits and fits in `usize`.
pub fn number_of(digits: &Vec<char>) -> (value: Option<usize>)
    requires
        all_digits(digits@),
    ensures
        value == number(digits@),
{
    if digits.len() == 0 {
        return None;
    }
    let mut value: usize = 0;
    let mut i: usize = 0;
    while i < digits.len()
        invariant
            i <= digits.len(),
            all_digits(digits@),
            value == decimal(digits@.take(i as int)),
        decreases digits.len() - i,
    {
        let c = digits[i];
        let d = (c as u32 - '0' as u32) as usize;
        proof {
            assert(digits@.take(i + 1).drop_last() =~= digits@.take(i as int));
            assert(digits@.take(i + 1).last() == digits@[i as int]);
            lemma_decimal_grows(digits@, i + 1);
        }
        if value > (usize::MAX - d) / 10 {
            return None;
        }
        value = 10 * value + d;
        i += 1;
    }
    proof {
        assert(digits@.take(i as int) =~= digits@);
    }
    Some(value)
}

/// The state of the reading of a pattern.
pub struct Parser<'a> {
    pub pattern: &'a Vec<char>,
    /// The index of the symbol read last.
    pub pos: usize,
    /// The index of the symbol to read next.
    pub next: usize,
    /// The symbol read last; none at the end of the pattern.
    pub current: Option<char>,
    /// The number of capturing groups opened so far.
    pub captures: usize,
}

impl<'a> Parser<'a> {
    /// The reader stands inside the pattern or at its end, and has opened
    /// no more groups than it has read symbols.
    pub open spec fn wf(&self) -> bool {
        &&& self.next <= self.pattern@.len()
        &&& self.captures <= self.next
    }

    /// The reader has just read the symbol `c`, which stands before `next`.
    pub open spec fn stands_at(&self, c: char) -> bool {
        &&& self.pos + 1 == self.next
        &&& self.current == Some(c)
    }

    /// The reader has tried to read behind the end of the pattern.
    pub open spec fn stands_at_end(&self) -> bool {
        &&& self.pos == self.next
        &&& self.next == self.pattern@.len()
        &&& self.current is None
    }

    /// The reader has made its last step from `from`: it stands at the
    /// symbol there, or at the end if there is none.
    pub open spec fn stepped_from(&self, from: int) -> bool {
        &&& self.pos == from
        &&& self.current == if from < self.pattern@.len() {
            Some(self.pattern@[from])
        } else {
            None
        }
    }

    /// A reader at the start of the pattern: it has read nothing.
    pub fn new(pattern: &'a Vec<char>) -> (parser: Parser<'a>)
        ensures
            parser.wf(),
            parser.pattern == pattern,
            parser.pos == 0,
            parser.next == 0,
            parser.current is None,
            parser.captures == 0,
    {
        Parser { pattern, pos: 0, next: 0, current: None, captures: 0 }
    }

    /// The symbol at an index of the pattern.
    fn symbol(&self, i: usize) -> (c: char)
        requires
            i < self.pattern@.len(),
        ensures
            c == self.pattern@[i as int],
    {
        self.pattern[i]
    }

    /// Reads the next symbol; none at the end of the pattern.
    pub fn next(&mut self) -> (c: Option<char>)
        requires
            old(self).wf(),
        ensures
            final(self).wf(),
            final(self).pattern == old(self).pattern,
            final(self).captures == old(self).captures,
            final(self).current == c,
            final(self).pos == old(self).next,
            old(self).next < old(self).pattern@.len() ==> c == Some(
                old(self).pattern@[old(self).next as int],
            ) && final(self).next == old(self).next + 1,
            old(self).next >= old(self).pattern@.len() ==> c is None && final(self).next
                == old(self).next,
    {
        self.pos = self.next;
        if self.pos >= self.pattern.len() {
            self.current = None;
        } else {
            let ch = self.symbol(self.pos);
            self.next = self.pos + 1;
            self.current = Some(ch);
        }
        self.current
    }

    /// Reads `n` symbols, or up to the end of the pattern.
    pub fn consume_chars(&mut self, n: usize)
        requires
            old(self).wf(),
        ensures
            final(self).wf(),
            final(self).pattern == old(self).pattern,
            final(self).captures == old(self).captures,
            old(self).next + n <= old(self).pattern@.len() ==> final(self).next == old(self).next
                + n,
            old(self).next + n > old(self).pattern@.len() ==> final(self).next
                == old(self).pattern@.len(),
            n == 0 ==> final(self).pos == old(self).pos && final(self).current == old(
                self,
            ).current,
            n > 0 ==> final(self).stepped_from(
                if old(self).next + n - 1 <= old(self).pattern@.len() {
                    old(self).next + n - 1
                } else {
                    old(self).pattern@.len() as int
                },
            ),
    {
        let mut k: usize = 0;
        while k < n
            invariant
                k <= n,
                self.wf(),
                old(self).wf(),
                self.pattern == old(self).pattern,
                self.captures == old(self).captures,
                old(self).next + k <= old(self).pattern@.len() ==> self.next == old(self).next
                    + k,
                old(self).next + k > old(self).pattern@.len() ==> self.next
                    == old(self).pattern@.len(),
                k == 0 ==> self.pos == old(self).pos && self.current == old(self).current,
                k > 0 ==> self.stepped_from(
                    if old(self).next + k - 1 <= old(self).pattern@.len() {
                        old(self).next + k - 1
                    } else {
                        old(self).pattern@.len() as int
                    },
                ),
            decreases n - k,
        {
            self.next();
            k += 1;
        }
    }

    /// The symbol `offset` symbols ahead, the next one being 1 ahead; none
    /// behind the end of the pattern, and none for an offset of 0.
    pub fn peek(&self, offset: usize) -> (c: Option<char>)
        requires
            self.wf(),
        ensures
            c == if 1 <= offset && self.next + offset - 1 < self.pattern@.len() {
                Some(self.pattern@[self.next + offset - 1])
            } else {
                None
            },
    {
        if offset == 0 || offset > self.pattern.len() - self.next {
            None
        } else {
            Some(self.symbol(self.next + (offset - 1)))
        }
    }
}

/// Whether what a reading function returned is what the pattern holds:
/// the same error, or a well-formed tree with the expected value, the
/// reader standing behind it.
pub open spec fn item_read(
    result: Result<Expression, ParseError>,
    expected: Result<Item, ParseError>,
    next: int,
) -> bool {
    match result {
        Ok(e) => expected is Ok && e@ == expected->Ok_0.tree && next == expected->Ok_0.next
            && e@.well_formed(),
        Err(error) => expected == Err::<Item, ParseError>(error),
    }
}

/// The class that an escaped letter stands for, if it stands for one.
pub fn parse_common_escape(c: char) -> (class: Option<Expression>)
    ensures
        match class {
            Some(e) => common_escape(c) == Some(e@) && e@.well_formed(),
            None => common_escape(c) is None,
        },
{
    let mut ranges: Vec<(char, char)> = Vec::new();
    if c == 'd' || c == 'D' {
        ranges.push(('0', '9'));
    } else if c == 's' || c == 'S' {
        ranges.push(('\t', '\t'));
        ranges.push(('\r', '\r'));
        ranges.push(('\n', '\n'));
        ranges.push(('\u{b}', '\u{b}'));
        ranges.push(('\u{c}', '\u{c}'));
        ranges.push(('\u{2028}', '\u{2028}'));
        ranges.push(('\u{2029}', '\u{2029}'));
        ranges.push(('\u{a0}', '\u{a0}'));
        ranges.push(('\u{feff}', '\u{feff}'));
    } else if c == 'w' || c == 'W' {
        ranges.push(('a', 'z'));
        ranges.push(('A', 'Z'));
        ranges.push(('0', '9'));
        ranges.push(('_', '_'));
    } else {
        return None;
    }
    assert(ranges@ =~= escape_ranges(c)->0);
    if c == 'D' || c == 'S' || c == 'W' {
        proof {
            lemma_complement_not_empty(ranges@);
        }
        Some(negate_char_ranges(&ranges))
    } else {
        Some(Expression::CharacterClass(ranges))
    }
}

/// Reads what stands behind a backslash inside a class.
pub fn parse_charclass_escape(parser: &mut Parser) -> (result: Result<Expression, ParseError>)
    requires
        old(parser).wf(),
    ensures
        final(parser).wf(),
        final(parser).pattern == old(parser).pattern,
        final(parser).captures == old(parser).captures,
        final(parser).next >= old(parser).next,
        item_read(
            result,
            class_escape(old(parser).pattern@, old(parser).next as int),
            final(parser).next as int,
        ),
        final(parser).stepped_from(old(parser).next as int),
{
    match parser.next() {
        Some(c) => {
            let c = code_point(c);
            match parse_common_escape(c) {
                Some(e) => Ok(e),
                None => Ok(Expression::Literal(c)),
            }
        },
        None => Err(ParseError::IncompleteEscape),
    }
}

/// Reads what stands behind a backslash outside a class.
pub fn parse_escape(parser: &mut Parser) -> (result: Result<Expression, ParseError>)
    requires
        old(parser).wf(),
    ensures
        final(parser).wf(),
        final(parser).pattern == old(parser).pattern,
        final(parser).captures == old(parser).captures,
        final(parser).next >= old(parser).next,
        item_read(
            result,
            escape(old(parser).pattern@, old(parser).next as int),
            final(parser).next as int,
        ),
        final(parser).stepped_from(old(parser).next as int),
{
    match parser.next() {
        Some(c) => {
            let c = code_point(c);
            if c == 'b' {
                Ok(Expression::AssertWordBoundary)
            } else if c == 'B' {
                Ok(Expression::AssertNonWordBoundary)
            } else {
                match parse_common_escape(c) {
                    Some(e) => Ok(e),
                    None => Ok(Expression::Literal(c)),
                }
            }
        },
        None => Err(ParseError::IncompleteEscape),
    }
}

/// Ends the reading of a class: the ranges read, or their complement for
/// a negated class.
fn finish_class(ranges: Vec<(char, char)>, negated: bool) -> (result: Result<
    Expression,
    ParseError,
>)
    ensures
        match result {
            Ok(e) => finished_class(ranges@, negated) == Ok::<Syntax, ParseError>(e@)
                && e@.well_formed(),
            Err(error) => finished_class(ranges@, negated) == Err::<Syntax, ParseError>(error),
        },
{
    if ranges.len() == 0 {
        return Err(ParseError::EmptyCharacterClass);
    }
    if negated {
        let inverted = complement_ranges(&ranges);
        if inverted.len() == 0 {
            Err(ParseError::EmptyCharacterClass)
        } else {
            Ok(Expression::CharacterClass(inverted))
        }
    } else {
        Ok(Expression::CharacterClass(ranges))
    }
}

/// Reads a character class, behind its `[`.
pub fn parse_charclass(parser: &mut Parser) -> (result: Result<Expression, ParseError>)
    requires
        old(parser).wf(),
    ensures
        final(parser).wf(),
        final(parser).pattern == old(parser).pattern,
        final(parser).captures == old(parser).captures,
        final(parser).next >= old(parser).next,
        item_read(
            result,
            charclass(old(parser).pattern@, old(parser).next as int, Seq::empty(), false),
            final(parser).next as int,
        ),
        result is Ok ==> final(parser).stands_at(']'),
{
    let mut ranges: Vec<(char, char)> = Vec::new();
    let mut negated = false;
    let ghost p = parser.pattern@;
    let ghost goal = charclass(p, parser.next as int, ranges@, negated);
    loop
        invariant
            parser.wf(),
            p == parser.pattern@,
            parser.pattern == old(parser).pattern,
            parser.captures == old(parser).captures,
            parser.next >= old(parser).next,
            goal == charclass(old(parser).pattern@, old(parser).next as int, Seq::empty(), false),
            goal == charclass(p, parser.next as int, ranges@, negated),
        decreases p.len() - parser.next,
    {
        let ghost i = parser.next as int;
        let ghost before = ranges@;
        match parser.next() {
            None => {
                return Err(ParseError::UnterminatedCharacterClass);
            },
            Some(c) => {
                let c = code_point(c);
                if c == '^' && ranges.len() == 0 && !negated {
                    negated = true;
                } else if c == '\\' {
                    match parse_charclass_escape(parser) {
                        Err(error) => {
                            return Err(error);
                        },
                        Ok(Expression::CharacterClass(more)) => {
                            let mut more = more;
                            ranges.append(&mut more);
                        },
                        Ok(Expression::Literal(l)) => {
                            let l = code_point(l);
                            ranges.push((l, l));
                        },
                        Ok(_) => {
                            return Err(ParseError::IncompleteEscape);
                        },
                    }
                } else if c == '-' {
                    if ranges.len() == 0 {
                        ranges.push(('-', '-'));
                    } else {
                        match parser.next() {
                            None => {
                                return Err(ParseError::UnterminatedCharacterClass);
                            },
                            Some(end) => {
                                let end = code_point(end);
                                if end == ']' {
                                    ranges.push(('-', '-'));
                                    return finish_class(ranges, negated);
                                }
                                let last_start = range_start(&ranges, ranges.len() - 1);
                                let last_end = range_end(&ranges, ranges.len() - 1);
                                if last_start != last_end {
                                    return Err(ParseError::MissingRangeStart);
                                }
                                if last_start >= end {
                                    return Err(ParseError::InvalidRange);
                                }
                                ranges.pop();
                                ranges.push((last_start, end));
                                assert(ranges@ =~= before.drop_last().push((before.last().0, end)));
                            },
                        }
                    }
                } else if c == ']' {
                    return finish_class(ranges, negated);
                } else {
                    ranges.push((c, c));
                }
            },
        }
    }
}

/// Reads a brace quantifier, behind its `{`, for the tree `expr`.
pub fn parse_repetition(parser: &mut Parser, expr: Expression) -> (result: Result<
    Expression,
    ParseError,
>)
    requires
        old(parser).wf(),
        expr@.well_formed(),
    ensures
        final(parser).wf(),
        final(parser).pattern == old(parser).pattern,
        final(parser).captures == old(parser).captures,
        final(parser).next >= old(parser).next,
        item_read(
            result,
            repetition(
                old(parser).pattern@,
                old(parser).next as int,
                None,
                Seq::empty(),
                expr@,
            ),
            final(parser).next as int,
        ),
        result is Ok ==> final(parser).stands_at('}'),
{
    let mut low: Option<usize> = None;
    let mut buffer: Vec<char> = Vec::new();
    let ghost p = parser.pattern@;
    let ghost goal = repetition(p, parser.next as int, low, buffer@, expr@);
    loop
        invariant
            parser.wf(),
            p == parser.pattern@,
            parser.pattern == old(parser).pattern,
            parser.captures == old(parser).captures,
            parser.next >= old(parser).next,
            expr@.well_formed(),
            all_digits(buffer@),
            goal == repetition(
                old(parser).pattern@,
                old(parser).next as int,
                None,
                Seq::empty(),
                expr@,
            ),
            goal == repetition(p, parser.next as int, low, buffer@, expr@),
        decreases p.len() - parser.next,
    {
        match parser.next() {
            None => {
                return Err(ParseError::UnterminatedRepetition);
            },
            Some(c) => {
                let c = code_point(c);
                if c >= '0' && c <= '9' {
                    buffer.push(c);
                } else if c == ',' {
                    if buffer.len() == 0 && low.is_none() {
                        return Err(ParseError::UnexpectedComma);
                    }
                    low = number_of(&buffer);
                    buffer.clear();
                } else if c == '}' {
                    if buffer.len() == 0 {
                        match low {
                            Some(n) => {
                                return Ok(
                                    Expression::UnboundedRepetition(
                                        Box::new(expr),
                                        n,
                                        QuantifierType::Greedy,
                                    ),
                                );
                            },
                            None => {
                                return Err(ParseError::EmptyRepetition);
                            },
                        }
                    } else {
                        match number_of(&buffer) {
                            None => {
                                return Err(ParseError::RepetitionTooLarge);
                            },
                            Some(n) => match low {
                                Some(l) => {
                                    return Ok(
                                        Expression::BoundedRepetition(
                                            Box::new(expr),
                                            l,
                                            n,
                                            QuantifierType::Greedy,
                                        ),
                                    );
                                },
                                None => {
                                    return Ok(
                                        Expression::ExactRepetition(
                                            Box::new(expr),
                                            n,
                                            QuantifierType::Greedy,
                                        ),
                                    );
                                },
                            },
                        }
                    }
                } else {
                    return Err(ParseError::NonNumericRepetition);
                }
            },
        }
    }
}

/// Whether what the reading of a sequence or a group returned is what the
/// pattern holds: the same error, or a well-formed tree with the expected
/// value, the reader standing behind it.
pub open spec fn sequence_read(
    result: Result<Expression, ParseError>,
    expected: Result<Parsed, ParseError>,
    parser: Parser,
) -> bool {
    match result {
        Ok(e) => {
            &&& expected is Ok
            &&& e@ == expected->Ok_0.tree
            &&& parser.next == expected->Ok_0.next
            &&& parser.captures == expected->Ok_0.captures
            &&& e@.well_formed()
        },
        Err(error) => expected == Err::<Parsed, ParseError>(error),
    }
}

/// Whether `*` and `+` may follow the tree.
fn is_repeatable(e: &Expression) -> (b: bool)
    ensures
        b == repeatable(e@),
{
    match e {
        Expression::Star(_, _) => false,
        Expression::Question(_, _) => false,
        _ => true,
    }
}

/// What a `?` makes of the tree before it.
fn question(e: Expression) -> (q: Expression)
    requires
        e@.well_formed(),
    ensures
        q@ == questioned(e@),
        q@.well_formed(),
{
    match e {
        Expression::Question(inner, QuantifierType::Greedy) => Expression::Question(
            inner,
            QuantifierType::NonGreedy,
        ),
        Expression::Star(inner, QuantifierType::Greedy) => Expression::Star(
            inner,
            QuantifierType::NonGreedy,
        ),
        Expression::Plus(inner, QuantifierType::Greedy) => Expression::Plus(
            inner,
            QuantifierType::NonGreedy,
        ),
        Expression::ExactRepetition(inner, count, QuantifierType::Greedy) => {
            Expression::ExactRepetition(inner, count, QuantifierType::NonGreedy)
        },
        Expression::UnboundedRepetition(inner, low, QuantifierType::Greedy) => {
            Expression::UnboundedRepetition(inner, low, QuantifierType::NonGreedy)
        },
        Expression::BoundedRepetition(inner, low, high, QuantifierType::Greedy) => {
            Expression::BoundedRepetition(inner, low, high, QuantifierType::NonGreedy)
        },
        other => Expression::Question(Box::new(other), QuantifierType::Greedy),
    }
}

/// Ends the reading of a sequence: the concatenation of the stack.
fn finish_sequence(stack: Vec<Expression>) -> (result: Result<Expression, ParseError>)
    requires
        all_well_formed(syntaxes(stack@)),
    ensures
        match result {
            Ok(e) => stack.len() > 0 && e@ == concatenation(syntaxes(stack@)) && e@.well_formed(),
            Err(error) => stack.len() == 0 && error == ParseError::EmptyExpression,
        },
{
    let mut rest = stack;
    let ghost trees = syntaxes(rest@);
    do_concat(&mut rest);
    let ghost joined = rest@;
    assert(syntaxes(joined).len() == joined.len());
    match rest.pop() {
        Some(e) => {
            proof {
                lemma_concatenation_well_formed(trees);
                assert(syntaxes(joined)[joined.len() - 1] == e@);
            }
            Ok(e)
        },
        None => Err(ParseError::EmptyExpression),
    }
}

/// Reads a group, behind its `(`.
pub fn parse_group(parser: &mut Parser) -> (result: Result<Expression, ParseError>)
    requires
        old(parser).wf(),
        old(parser).captures < old(parser).next,
    ensures
        final(parser).wf(),
        final(parser).pattern == old(parser).pattern,
        final(parser).next >= old(parser).next,
        sequence_read(
            result,
            group(old(parser).pattern@, old(parser).next as int, old(parser).captures as nat),
            *final(parser),
        ),
        result is Ok ==> final(parser).stands_at(')'),
    decreases old(parser).pattern@.len() - old(parser).next, 1int,
{
    let mut capture = false;
    match parser.peek(1) {
        Some(first) => {
            if first == '?' {
                match parser.peek(2) {
                    Some(second) => {
                        if second == ':' {
                            parser.consume_chars(2);
                        } else if second == '=' || second == '!' {
                            return Err(ParseError::NotImplemented);
                        } else {
                            capture = true;
                        }
                    },
                    None => {
                        return Err(ParseError::UnterminatedSubExpression);
                    },
                }
            } else {
                capture = true;
            }
        },
        None => {
            return Err(ParseError::UnterminatedSubExpression);
        },
    }
    let capture_slot = if capture {
        parser.captures += 1;
        Some(parser.captures)
    } else {
        None
    };
    match parse_recursive(parser) {
        Err(error) => Err(error),
        Ok(e) => {
            let closed = match parser.current {
                Some(c) => c == ')',
                None => false,
            };
            if closed {
                Ok(Expression::SubExpression(Box::new(e), capture_slot))
            } else {
                Err(ParseError::UnterminatedGroup)
            }
        },
    }
}

/// Reads a sequence, up to a `)` or the end of the pattern.
pub fn parse_recursive(parser: &mut Parser) -> (result: Result<Expression, ParseError>)
    requires
        old(parser).wf(),
    ensures
        final(parser).wf(),
        final(parser).pattern == old(parser).pattern,
        final(parser).next >= old(parser).next,
        sequence_read(
            result,
            sequence(
                old(parser).pattern@,
                old(parser).next as int,
                old(parser).captures as nat,
                Seq::empty(),
            ),
            *final(parser),
        ),
        result is Ok ==> if sequence(
            old(parser).pattern@,
            old(parser).next as int,
            old(parser).captures as nat,
            Seq::empty(),
        )->Ok_0.closed {
            final(parser).stands_at(')')
        } else {
            final(parser).stands_at_end()
        },
    decreases old(parser).pattern@.len() - old(parser).next, 0int,
{
    let mut stack: Vec<Expression> = Vec::new();
    let ghost p = parser.pattern@;
    let ghost goal = sequence(p, parser.next as int, parser.captures as nat, Seq::empty());
    assert(syntaxes(stack@) =~= Seq::<Syntax>::empty());
    loop
        invariant
            parser.wf(),
            p == parser.pattern@,
            parser.pattern == old(parser).pattern,
            parser.next >= old(parser).next,
            all_well_formed(syntaxes(stack@)),
            goal == sequence(
                old(parser).pattern@,
                old(parser).next as int,
                old(parser).captures as nat,
                Seq::empty(),
            ),
            goal == sequence(p, parser.next as int, parser.captures as nat, syntaxes(stack@)),
        decreases p.len() - parser.next,
    {
        let ghost i = parser.next as int;
        let ghost trees = syntaxes(stack@);
        match parser.next() {
            None => {
                return finish_sequence(stack);
            },
            Some(c) => {
                let c = code_point(c);
                if c == '.' {
                    stack.push(Expression::AnyLiteral);
                    assert(syntaxes(stack@) =~= trees.push(Syntax::AnyLiteral));
                } else if c == '\\' {
                    match parse_escape(parser) {
                        Ok(e) => {
                            stack.push(e);
                            assert(syntaxes(stack@) =~= trees.push(e@));
                        },
                        Err(error) => {
                            return Err(error);
                        },
                    }
                } else if c == '|' {
                    match finish_sequence(stack) {
                        Ok(left) => {
                            match parse_recursive(parser) {
                                Ok(right) => {
                                    return Ok(
                                        Expression::Alternate(Box::new(left), Box::new(right)),
                                    );
                                },
                                Err(error) => {
                                    return Err(error);
                                },
                            }
                        },
                        Err(_) => {
                            return Err(ParseError::MissingOperand('|'));
                        },
                    }
                } else if c == '*' {
                    match stack.pop() {
                        Some(e) => {
                            assert(e@ == trees.last());
                            if !is_repeatable(&e) {
                                return Err(ParseError::NothingToRepeat);
                            }
                            let starred = Expression::Star(Box::new(e), QuantifierType::Greedy);
                            stack.push(starred);
                            assert(syntaxes(stack@) =~= trees.drop_last().push(starred@));
                        },
                        None => {
                            return Err(ParseError::MissingOperand('*'));
                        },
                    }
                } else if c == '+' {
                    match stack.pop() {
                        Some(e) => {
                            assert(e@ == trees.last());
                            if !is_repeatable(&e) {
                                return Err(ParseError::NothingToRepeat);
                            }
                            let repeated = Expression::Plus(Box::new(e), QuantifierType::Greedy);
                            stack.push(repeated);
                            assert(syntaxes(stack@) =~= trees.drop_last().push(repeated@));
                        },
                        None => {
                            return Err(ParseError::MissingOperand('+'));
                        },
                    }
                } else if c == '?' {
                    match stack.pop() {
                        Some(e) => {
                            assert(e@ == trees.last());
                            let optional = question(e);
                            stack.push(optional);
                            assert(syntaxes(stack@) =~= trees.drop_last().push(optional@));
                        },
                        None => {
                            return Err(ParseError::MissingOperand('?'));
                        },
                    }
                } else if c == '(' {
                    proof {
                        if trees.len() > 1 {
                            lemma_concatenation_well_formed(trees);
                        }
                    }
                    do_concat(&mut stack);
                    let ghost joined = syntaxes(stack@);
                    match parse_group(parser) {
                        Ok(e) => {
                            stack.push(e);
                            assert(syntaxes(stack@) =~= joined.push(e@));
                        },
                        Err(error) => {
                            return Err(error);
                        },
                    }
                } else if c == ')' {
                    return finish_sequence(stack);
                } else if c == '[' {
                    match parse_charclass(parser) {
                        Ok(e) => {
                            stack.push(e);
                            assert(syntaxes(stack@) =~= trees.push(e@));
                        },
                        Err(error) => {
                            return Err(error);
                        },
                    }
                } else if c == '{' {
                    match stack.pop() {
                        Some(e) => {
                            assert(e@ == trees.last());
                            match parse_repetition(parser, e) {
                                Ok(repeated) => {
                                    stack.push(repeated);
                                    assert(syntaxes(stack@) =~= trees.drop_last().push(
                                        repeated@,
                                    ));
                                },
                                Err(error) => {
                                    return Err(error);
                                },
                            }
                        },
                        None => {
                            return Err(ParseError::UnexpectedOpenBrace);
                        },
                    }
                } else if c == '^' {
                    stack.push(Expression::AssertStart);
                    assert(syntaxes(stack@) =~= trees.push(Syntax::AssertStart));
                } else if c == '$' {
                    stack.push(Expression::AssertEnd);
                    assert(syntaxes(stack@) =~= trees.push(Syntax::AssertEnd));
                } else {
                    stack.push(Expression::Literal(c));
                    assert(syntaxes(stack@) =~= trees.push(Syntax::Literal(c)));
                }
            },
        }
    }
}

/// Reads a pattern: the expression it stands for, or why it stands for
/// none. In the expression every character class holds a range, every
/// range runs from a code point to one that is not smaller, and the
/// capturing groups are numbered from 1 in the order of their opening
/// parentheses.
pub fn parse(pattern: &str) -> (result: Result<Expression, ParseError>)
    ensures
        match result {
            Ok(e) => {
                &&& parse_pattern(pattern@) == Ok::<Syntax, ParseError>(e@)
                &&& e@.well_formed()
                &&& ordered(e@)
                &&& numbered(e@, 0) is Some
            },
            Err(error) => parse_pattern(pattern@) == Err::<Syntax, ParseError>(error),
        },
{
    let chars = chars_of(pattern);
    proof {
        assert(chars@.len() == chars.len());
        lemma_parse_ordered(pattern@);
        lemma_parse_numbered(pattern@);
    }
    let mut parser = Parser::new(&chars);
    match parse_recursive(&mut parser) {
        Err(error) => Err(error),
        Ok(e) => {
            let closed = match parser.current {
                Some(c) => c == ')',
                None => false,
            };
            if closed {
                Err(ParseError::UnexpectedCloseParen)
            } else {
                Ok(e)
            }
        },
    }
}

} // verus!
