//! The shape of the trees that the parser gives: every range runs from a
//! code point to one that is not smaller, and the capturing groups are
//! numbered from 1 in the order of their opening parentheses.

use crate::charclass::{gaps, is_scalar, scalar_after, scalar_before, sort_ranges, LAST_CODE_POINT};
use crate::parse::{
    charclass, class_escape, common_escape, concatenation, escape, escape_ranges, finished_class,
    folded, group, group_opening, number, parse_pattern, questioned, repetition, sequence,
    QuantifierType, Syntax,
};
use crate::text::lemma_char_is_scalar;
use vstd::prelude::*;

verus! {

/// Every range runs from a code point to one that is not smaller.
pub open spec fn ranges_ordered(ranges: Seq<(char, char)>) -> bool {
    forall|i: int| 0 <= i < ranges.len() ==> (#[trigger] ranges[i]).0 <= ranges[i].1
}

/// Every range in the tree runs from a code point to one that is not
/// smaller.
pub open spec fn ordered(tree: Syntax) -> bool
    decreases tree,
{
    match tree {
        Syntax::RangeLiteral(lo, hi) => lo <= hi,
        Syntax::CharacterClass(ranges) => ranges_ordered(ranges),
        Syntax::Concatenate(l, r) => ordered(*l) && ordered(*r),
        Syntax::Alternate(l, r) => ordered(*l) && ordered(*r),
        Syntax::SubExpression(e, _) => ordered(*e),
        Syntax::Question(e, _) => ordered(*e),
        Syntax::Star(e, _) => ordered(*e),
        Syntax::Plus(e, _) => ordered(*e),
        Syntax::ExactRepetition(e, _, _) => ordered(*e),
        Syntax::UnboundedRepetition(e, _, _) => ordered(*e),
        Syntax::BoundedRepetition(e, _, _, _) => ordered(*e),
        _ => true,
    }
}

/// Every tree of the sequence is ordered.
pub open spec fn all_ordered(trees: Seq<Syntax>) -> bool {
    forall|i: int| 0 <= i < trees.len() ==> ordered(#[trigger] trees[i])
}

/// The number of the last capturing group, counted on from `from`, if the
/// capturing groups of the tree are numbered one by one in the order in
/// which they open; nothing if they are not.
pub open spec fn numbered(tree: Syntax, from: nat) -> Option<nat>
    decreases tree,
{
    match tree {
        Syntax::Concatenate(l, r) => match numbered(*l, from) {
            Some(k) => numbered(*r, k),
            None => None,
        },
        Syntax::Alternate(l, r) => match numbered(*l, from) {
            Some(k) => numbered(*r, k),
            None => None,
        },
        Syntax::SubExpression(e, slot) => match slot {
            Some(index) => if index == from + 1 {
                numbered(*e, from + 1)
            } else {
                None
            },
            None => numbered(*e, from),
        },
        Syntax::Question(e, _) => numbered(*e, from),
        Syntax::Star(e, _) => numbered(*e, from),
        Syntax::Plus(e, _) => numbered(*e, from),
        Syntax::ExactRepetition(e, _, _) => numbered(*e, from),
        Syntax::UnboundedRepetition(e, _, _) => numbered(*e, from),
        Syntax::BoundedRepetition(e, _, _, _) => numbered(*e, from),
        _ => Some(from),
    }
}

/// The number of the last capturing group of a sequence of trees, counted
/// on from `from` through the trees in turn.
pub open spec fn numbered_all(trees: Seq<Syntax>, from: nat) -> Option<nat>
    decreases trees.len(),
{
    if trees.len() == 0 {
        Some(from)
    } else {
        match numbered_all(trees.drop_last(), from) {
            Some(k) => numbered(trees.last(), k),
            None => None,
        }
    }
}

/// The gaps between ranges are ordered.
pub proof fn lemma_gaps_ordered(sorted: Seq<(char, char)>, cursor: int)
    requires
        is_scalar(cursor) || cursor == 0x110000,
    ensures
        ranges_ordered(gaps(sorted, cursor)),
    decreases sorted.len(),
{
    let result = gaps(sorted, cursor);
    if sorted.len() == 0 {
        if cursor <= LAST_CODE_POINT as int {
            assert(result[0] == (cursor as char, LAST_CODE_POINT));
        }
    } else {
        let range = sorted[0];
        lemma_char_is_scalar(range.0);
        lemma_char_is_scalar(range.1);
        let before = if range.0 as int > cursor {
            seq![(cursor as char, scalar_before(range.0) as char)]
        } else {
            Seq::empty()
        };
        let after = if scalar_after(range.1) > cursor {
            scalar_after(range.1)
        } else {
            cursor
        };
        lemma_gaps_ordered(sorted.drop_first(), after);
        let tail = gaps(sorted.drop_first(), after);
        assert forall|i: int| 0 <= i < result.len() implies (#[trigger] result[i]).0
            <= result[i].1 by {
            if i < before.len() {
                assert(result[i] == before[i]);
            } else {
                assert(result[i] == tail[i - before.len()]);
            }
        }
    }
}

/// The ranges of the escaped letters, and their complements, are ordered.
pub proof fn lemma_common_escape_ordered(c: char)
    ensures
        common_escape(c) matches Some(tree) ==> ordered(tree),
{
    if escape_ranges(c) is Some {
        let ranges = escape_ranges(c)->0;
        lemma_gaps_ordered(sort_ranges(ranges), 0);
        assert(ranges_ordered(ranges));
    }
}

/// What stands behind a backslash is ordered.
pub proof fn lemma_escape_ordered(p: Seq<char>, i: int)
    ensures
        class_escape(p, i) matches Ok(item) ==> ordered(item.tree),
        escape(p, i) matches Ok(item) ==> ordered(item.tree),
{
    if i < p.len() {
        lemma_common_escape_ordered(p[i]);
    }
}

/// A class that is read from ordered ranges is ordered.
pub proof fn lemma_finished_class_ordered(ranges: Seq<(char, char)>, negated: bool)
    requires
        ranges_ordered(ranges),
    ensures
        finished_class(ranges, negated) matches Ok(tree) ==> ordered(tree),
{
    lemma_gaps_ordered(sort_ranges(ranges), 0);
}

/// The classes that the parser reads are ordered.
pub proof fn lemma_charclass_ordered(
    p: Seq<char>,
    i: int,
    ranges: Seq<(char, char)>,
    negated: bool,
)
    requires
        ranges_ordered(ranges),
    ensures
        charclass(p, i, ranges, negated) matches Ok(item) ==> ordered(item.tree),
    decreases p.len() - i,
{
    if 0 <= i < p.len() {
        let c = p[i];
        lemma_char_is_scalar(c);
        let hyphen = ('-', '-');
        if c == '^' && ranges.len() == 0 && !negated {
            lemma_charclass_ordered(p, i + 1, ranges, true);
        } else if c == '\\' {
            lemma_escape_ordered(p, i + 1);
            match class_escape(p, i + 1) {
                Ok(item) => match item.tree {
                    Syntax::CharacterClass(more) => {
                        assert(ranges_ordered(ranges + more)) by {
                            assert forall|k: int| 0 <= k < (ranges + more).len() implies (
                            #[trigger] (ranges + more)[k]).0 <= (ranges + more)[k].1 by {
                                if k < ranges.len() {
                                    assert((ranges + more)[k] == ranges[k]);
                                } else {
                                    assert((ranges + more)[k] == more[k - ranges.len()]);
                                }
                            }
                        }
                        lemma_charclass_ordered(p, i + 2, ranges + more, negated);
                    },
                    Syntax::Literal(l) => {
                        lemma_pushed_ordered(ranges, (l, l));
                        lemma_charclass_ordered(p, i + 2, ranges.push((l, l)), negated);
                    },
                    _ => {},
                },
                Err(_) => {},
            }
        } else if c == '-' {
            if ranges.len() == 0 {
                lemma_pushed_ordered(ranges, hyphen);
                lemma_charclass_ordered(p, i + 1, ranges.push(hyphen), negated);
            } else if i + 1 < p.len() {
                if p[i + 1] == ']' {
                    lemma_pushed_ordered(ranges, hyphen);
                    lemma_finished_class_ordered(ranges.push(hyphen), negated);
                } else if ranges.last().0 == ranges.last().1 && ranges.last().0 < p[i + 1] {
                    lemma_char_is_scalar(p[i + 1]);
                    let front = ranges.drop_last();
                    assert(ranges_ordered(front)) by {
                        assert forall|k: int| 0 <= k < front.len() implies (
                        #[trigger] front[k]).0 <= front[k].1 by {
                            assert(front[k] == ranges[k]);
                        }
                    }
                    lemma_pushed_ordered(front, (ranges.last().0, p[i + 1]));
                    lemma_charclass_ordered(
                        p,
                        i + 2,
                        front.push((ranges.last().0, p[i + 1])),
                        negated,
                    );
                }
            }
        } else if c == ']' {
            lemma_finished_class_ordered(ranges, negated);
        } else {
            lemma_pushed_ordered(ranges, (c, c));
            lemma_charclass_ordered(p, i + 1, ranges.push((c, c)), negated);
        }
    }
}

/// Ordered ranges with one more ordered range are ordered.
pub proof fn lemma_pushed_ordered(ranges: Seq<(char, char)>, range: (char, char))
    requires
        ranges_ordered(ranges),
        range.0 <= range.1,
    ensures
        ranges_ordered(ranges.push(range)),
{
    assert forall|k: int| 0 <= k < ranges.push(range).len() implies (
    #[trigger] ranges.push(range)[k]).0 <= ranges.push(range)[k].1 by {
        if k < ranges.len() {
            assert(ranges.push(range)[k] == ranges[k]);
        }
    }
}

/// A brace quantifier around an ordered tree with groups numbered is
/// ordered, and numbers the groups as the tree does.
pub proof fn lemma_repetition_shape(
    p: Seq<char>,
    i: int,
    low: Option<usize>,
    digits: Seq<char>,
    tree: Syntax,
)
    ensures
        repetition(p, i, low, digits, tree) matches Ok(item) ==> (ordered(tree) ==> ordered(
            item.tree,
        )) && (forall|from: nat| #[trigger] numbered(item.tree, from) == numbered(tree, from)),
    decreases p.len() - i,
{
    if 0 <= i < p.len() {
        let c = p[i];
        if '0' <= c <= '9' {
            lemma_repetition_shape(p, i + 1, low, digits.push(c), tree);
        } else if c == ',' {
            if !(digits.len() == 0 && low is None) {
                lemma_repetition_shape(
                    p,
                    i + 1,
                    number(digits),
                    Seq::empty(),
                    tree,
                );
            }
        }
    }
}

/// `?` keeps a tree ordered and the numbers of its groups.
pub proof fn lemma_questioned_shape(tree: Syntax)
    ensures
        ordered(tree) ==> ordered(questioned(tree)),
        forall|from: nat| #[trigger] numbered(questioned(tree), from) == numbered(tree, from),
{
}

/// The concatenation of ordered trees is ordered.
pub proof fn lemma_concatenation_ordered(trees: Seq<Syntax>)
    requires
        trees.len() > 0,
        all_ordered(trees),
    ensures
        ordered(concatenation(trees)),
    decreases trees.len(),
{
    assert(ordered(trees[0]));
    if trees.len() > 1 {
        assert forall|i: int| 0 <= i < trees.drop_first().len() implies ordered(
            #[trigger] trees.drop_first()[i],
        ) by {
            assert(trees.drop_first()[i] == trees[i + 1]);
        }
        lemma_concatenation_ordered(trees.drop_first());
    }
}

/// Ordered trees stay ordered when the last one is replaced by an ordered
/// tree, when an ordered tree is added, and when they are folded.
pub proof fn lemma_stack_ordered(stack: Seq<Syntax>, tree: Syntax)
    requires
        all_ordered(stack),
        ordered(tree),
    ensures
        all_ordered(stack.push(tree)),
        stack.len() > 0 ==> all_ordered(stack.drop_last().push(tree)),
        all_ordered(folded(stack).push(tree)),
        all_ordered(folded(stack)),
{
    assert forall|i: int| 0 <= i < stack.push(tree).len() implies ordered(
        #[trigger] stack.push(tree)[i],
    ) by {
        if i < stack.len() {
            assert(stack.push(tree)[i] == stack[i]);
        }
    }
    if stack.len() > 0 {
        let replaced = stack.drop_last().push(tree);
        assert forall|i: int| 0 <= i < replaced.len() implies ordered(#[trigger] replaced[i]) by {
            if i < stack.len() - 1 {
                assert(replaced[i] == stack[i]);
            }
        }
    }
    if stack.len() > 1 {
        lemma_concatenation_ordered(stack);
        let one = folded(stack);
        assert(one[0] == concatenation(stack));
        assert forall|i: int| 0 <= i < one.push(tree).len() implies ordered(
            #[trigger] one.push(tree)[i],
        ) by {
            if i == 0 {
                assert(one.push(tree)[0] == one[0]);
            }
        }
    }
}

/// The sequences that the parser reads are ordered, if the trees read
/// before are.
pub proof fn lemma_sequence_ordered(p: Seq<char>, i: int, captures: nat, stack: Seq<Syntax>)
    requires
        all_ordered(stack),
    ensures
        sequence(p, i, captures, stack) matches Ok(all) ==> ordered(all.tree),
    decreases p.len() - i, 0int,
{
    if 0 <= i < p.len() {
        let c = p[i];
        lemma_char_is_scalar(c);
        if stack.len() > 0 {
            lemma_concatenation_ordered(stack);
            assert(ordered(stack[stack.len() - 1]));
        }
        if c == '.' {
            lemma_stack_ordered(stack, Syntax::AnyLiteral);
            lemma_sequence_ordered(p, i + 1, captures, stack.push(Syntax::AnyLiteral));
        } else if c == '\\' {
            lemma_escape_ordered(p, i + 1);
            if escape(p, i + 1) is Ok {
                let item = escape(p, i + 1)->Ok_0;
                lemma_stack_ordered(stack, item.tree);
                lemma_sequence_ordered(p, i + 2, captures, stack.push(item.tree));
            }
        } else if c == '|' {
            if stack.len() > 0 {
                lemma_sequence_ordered(p, i + 1, captures, Seq::empty());
            }
        } else if c == '*' {
            if stack.len() > 0 {
                let tree = Syntax::Star(Box::new(stack.last()), QuantifierType::Greedy);
                lemma_stack_ordered(stack, tree);
                lemma_sequence_ordered(p, i + 1, captures, stack.drop_last().push(tree));
            }
        } else if c == '+' {
            if stack.len() > 0 {
                let tree = Syntax::Plus(Box::new(stack.last()), QuantifierType::Greedy);
                lemma_stack_ordered(stack, tree);
                lemma_sequence_ordered(p, i + 1, captures, stack.drop_last().push(tree));
            }
        } else if c == '?' {
            if stack.len() > 0 {
                lemma_questioned_shape(stack.last());
                lemma_stack_ordered(stack, questioned(stack.last()));
                lemma_sequence_ordered(
                    p,
                    i + 1,
                    captures,
                    stack.drop_last().push(questioned(stack.last())),
                );
            }
        } else if c == '(' {
            lemma_group_ordered(p, i + 1, captures);
            if group(p, i + 1, captures) is Ok {
                let inner = group(p, i + 1, captures)->Ok_0;
                if i < inner.next <= p.len() {
                    lemma_stack_ordered(stack, inner.tree);
                    lemma_sequence_ordered(
                        p,
                        inner.next,
                        inner.captures,
                        folded(stack).push(inner.tree),
                    );
                }
            }
        } else if c == ')' {
        } else if c == '[' {
            let none = Seq::<(char, char)>::empty();
            assert(ranges_ordered(none));
            lemma_charclass_ordered(p, i + 1, none, false);
            if charclass(p, i + 1, none, false) is Ok {
                let item = charclass(p, i + 1, none, false)->Ok_0;
                if i < item.next <= p.len() {
                    lemma_stack_ordered(stack, item.tree);
                    lemma_sequence_ordered(p, item.next, captures, stack.push(item.tree));
                }
            }
        } else if c == '{' {
            if stack.len() > 0 {
                let none = Seq::<char>::empty();
                lemma_repetition_shape(p, i + 1, None, none, stack.last());
                if repetition(p, i + 1, None, none, stack.last()) is Ok {
                    let item = repetition(p, i + 1, None, none, stack.last())->Ok_0;
                    if i < item.next <= p.len() {
                        lemma_stack_ordered(stack, item.tree);
                        lemma_sequence_ordered(
                            p,
                            item.next,
                            captures,
                            stack.drop_last().push(item.tree),
                        );
                    }
                }
            }
        } else if c == '^' {
            lemma_stack_ordered(stack, Syntax::AssertStart);
            lemma_sequence_ordered(p, i + 1, captures, stack.push(Syntax::AssertStart));
        } else if c == '$' {
            lemma_stack_ordered(stack, Syntax::AssertEnd);
            lemma_sequence_ordered(p, i + 1, captures, stack.push(Syntax::AssertEnd));
        } else {
            lemma_stack_ordered(stack, Syntax::Literal(c));
            lemma_sequence_ordered(p, i + 1, captures, stack.push(Syntax::Literal(c)));
        }
    } else if stack.len() > 0 {
        lemma_concatenation_ordered(stack);
    }
}

/// The groups that the parser reads are ordered.
pub proof fn lemma_group_ordered(p: Seq<char>, i: int, captures: nat)
    ensures
        group(p, i, captures) matches Ok(all) ==> ordered(all.tree),
    decreases p.len() - i, 1int,
{
    match group_opening(p, i) {
        Ok((capturing, start)) => {
            if start >= i {
                let opened = if capturing {
                    captures + 1
                } else {
                    captures
                };
                let none = Seq::<Syntax>::empty();
                assert(all_ordered(none));
                lemma_sequence_ordered(p, start, opened, none);
            }
        },
        Err(_) => {},
    }
}

/// Every range in the tree of a pattern runs from a code point to one
/// that is not smaller.
pub proof fn lemma_parse_ordered(p: Seq<char>)
    ensures
        parse_pattern(p) matches Ok(tree) ==> ordered(tree),
{
    let none = Seq::<Syntax>::empty();
    assert(all_ordered(none));
    lemma_sequence_ordered(p, 0, 0, none);
}

/// The numbering of a sequence of trees goes through the first tree, then
/// through the others.
pub proof fn lemma_numbered_all_front(trees: Seq<Syntax>, from: nat)
    requires
        trees.len() > 0,
    ensures
        numbered_all(trees, from) == match numbered(trees[0], from) {
            Some(k) => numbered_all(trees.drop_first(), k),
            None => None,
        },
    decreases trees.len(),
{
    let none = Seq::<Syntax>::empty();
    if trees.len() == 1 {
        assert(trees.drop_last() =~= none);
        assert(trees.drop_first() =~= none);
        assert(numbered_all(none, from) == Some(from));
        assert(trees.last() == trees[0]);
        if numbered(trees[0], from) is Some {
            assert(numbered_all(none, numbered(trees[0], from)->0) == numbered(trees[0], from));
        }
    } else {
        lemma_numbered_all_front(trees.drop_last(), from);
        assert(trees.drop_last()[0] == trees[0]);
        assert(trees.drop_last().drop_first() =~= trees.drop_first().drop_last());
        assert(trees.drop_first().last() == trees.last());
    }
}

/// The concatenation of trees numbers the groups as the trees in turn do.
pub proof fn lemma_concatenation_numbered(trees: Seq<Syntax>, from: nat)
    requires
        trees.len() > 0,
    ensures
        numbered(concatenation(trees), from) == numbered_all(trees, from),
    decreases trees.len(),
{
    lemma_numbered_all_front(trees, from);
    if trees.len() == 1 {
        let none = Seq::<Syntax>::empty();
        assert(trees.drop_first() =~= none);
        if numbered(trees[0], from) is Some {
            assert(numbered_all(none, numbered(trees[0], from)->0) == numbered(trees[0], from));
        }
    } else if numbered(trees[0], from) is Some {
        lemma_concatenation_numbered(trees.drop_first(), numbered(trees[0], from)->0);
    }
}

/// A stack numbers the groups as before when its last tree is replaced by
/// one that numbers them as that tree did, and when it is folded; and a
/// tree more on it goes on numbering where the stack ended.
pub proof fn lemma_stack_numbered(stack: Seq<Syntax>, tree: Syntax, from: nat)
    ensures
        numbered_all(stack.push(tree), from) == match numbered_all(stack, from) {
            Some(k) => numbered(tree, k),
            None => None,
        },
        numbered_all(folded(stack), from) == numbered_all(stack, from),
        stack.len() > 0 && (forall|k: nat|
            #[trigger] numbered(tree, k) == numbered(stack.last(), k)) ==> numbered_all(
            stack.drop_last().push(tree),
            from,
        ) == numbered_all(stack, from),
{
    assert(stack.push(tree).drop_last() =~= stack);
    assert(stack.push(tree).last() == tree);
    if stack.len() > 1 {
        lemma_concatenation_numbered(stack, from);
        let one = folded(stack);
        let none = Seq::<Syntax>::empty();
        assert(one.drop_last() =~= none);
        assert(one.last() == concatenation(stack));
        assert(numbered_all(none, from) == Some(from));
    }
    if stack.len() > 0 {
        let replaced = stack.drop_last().push(tree);
        assert(replaced.drop_last() =~= stack.drop_last());
        assert(replaced.last() == tree);
    }
}

/// The sequences that the parser reads number their capturing groups one
/// by one, on from the groups of the trees read before.
pub proof fn lemma_sequence_numbered(
    p: Seq<char>,
    i: int,
    captures: nat,
    stack: Seq<Syntax>,
    from: nat,
)
    requires
        p.len() <= usize::MAX,
        0 <= i <= p.len(),
        captures <= i,
        numbered_all(stack, from) == Some(captures),
    ensures
        sequence(p, i, captures, stack) matches Ok(all) ==> numbered(all.tree, from) == Some(
            all.captures,
        ) && all.captures <= all.next <= p.len() + 1,
    decreases p.len() - i, 0int,
{
    if i < p.len() {
        let c = p[i];
        lemma_char_is_scalar(c);
        if stack.len() > 0 {
            lemma_concatenation_numbered(stack, from);
        }
        if c == '.' {
            lemma_stack_numbered(stack, Syntax::AnyLiteral, from);
            lemma_sequence_numbered(p, i + 1, captures, stack.push(Syntax::AnyLiteral), from);
        } else if c == '\\' {
            if escape(p, i + 1) is Ok {
                let item = escape(p, i + 1)->Ok_0;
                assert(numbered(item.tree, captures) == Some(captures));
                lemma_stack_numbered(stack, item.tree, from);
                lemma_sequence_numbered(p, i + 2, captures, stack.push(item.tree), from);
            }
        } else if c == '|' {
            if stack.len() > 0 {
                let none = Seq::<Syntax>::empty();
                assert(numbered_all(none, captures) == Some(captures));
                lemma_sequence_numbered(p, i + 1, captures, none, captures);
            }
        } else if c == '*' {
            if stack.len() > 0 {
                let tree = Syntax::Star(
                    Box::new(stack.last()),
                    QuantifierType::Greedy,
                );
                lemma_stack_numbered(stack, tree, from);
                lemma_sequence_numbered(p, i + 1, captures, stack.drop_last().push(tree), from);
            }
        } else if c == '+' {
            if stack.len() > 0 {
                let tree = Syntax::Plus(
                    Box::new(stack.last()),
                    QuantifierType::Greedy,
                );
                lemma_stack_numbered(stack, tree, from);
                lemma_sequence_numbered(p, i + 1, captures, stack.drop_last().push(tree), from);
            }
        } else if c == '?' {
            if stack.len() > 0 {
                lemma_questioned_shape(stack.last());
                lemma_stack_numbered(stack, questioned(stack.last()), from);
                lemma_sequence_numbered(
                    p,
                    i + 1,
                    captures,
                    stack.drop_last().push(questioned(stack.last())),
                    from,
                );
            }
        } else if c == '(' {
            lemma_group_numbered(p, i + 1, captures);
            if group(p, i + 1, captures) is Ok {
                let inner = group(p, i + 1, captures)->Ok_0;
                if i < inner.next <= p.len() {
                    lemma_stack_numbered(stack, inner.tree, from);
                    lemma_stack_numbered(folded(stack), inner.tree, from);
                    lemma_sequence_numbered(
                        p,
                        inner.next,
                        inner.captures,
                        folded(stack).push(inner.tree),
                        from,
                    );
                }
            }
        } else if c == ')' {
        } else if c == '[' {
            let none = Seq::<(char, char)>::empty();
            if charclass(p, i + 1, none, false) is Ok {
                let item = charclass(p, i + 1, none, false)->Ok_0;
                lemma_charclass_is_class(p, i + 1, none, false);
                if i < item.next <= p.len() {
                    lemma_stack_numbered(stack, item.tree, from);
                    lemma_sequence_numbered(p, item.next, captures, stack.push(item.tree), from);
                }
            }
        } else if c == '{' {
            if stack.len() > 0 {
                let none = Seq::<char>::empty();
                lemma_repetition_shape(p, i + 1, None, none, stack.last());
                if repetition(p, i + 1, None, none, stack.last()) is Ok {
                    let item = repetition(p, i + 1, None, none, stack.last())->Ok_0;
                    if i < item.next <= p.len() {
                        lemma_stack_numbered(stack, item.tree, from);
                        lemma_sequence_numbered(
                            p,
                            item.next,
                            captures,
                            stack.drop_last().push(item.tree),
                            from,
                        );
                    }
                }
            }
        } else if c == '^' {
            lemma_stack_numbered(stack, Syntax::AssertStart, from);
            lemma_sequence_numbered(p, i + 1, captures, stack.push(Syntax::AssertStart), from);
        } else if c == '$' {
            lemma_stack_numbered(stack, Syntax::AssertEnd, from);
            lemma_sequence_numbered(p, i + 1, captures, stack.push(Syntax::AssertEnd), from);
        } else {
            lemma_stack_numbered(stack, Syntax::Literal(c), from);
            lemma_sequence_numbered(p, i + 1, captures, stack.push(Syntax::Literal(c)), from);
        }
    } else if stack.len() > 0 {
        lemma_concatenation_numbered(stack, from);
    }
}

/// What the parser reads in brackets is a class.
pub proof fn lemma_charclass_is_class(
    p: Seq<char>,
    i: int,
    ranges: Seq<(char, char)>,
    negated: bool,
)
    ensures
        charclass(p, i, ranges, negated) matches Ok(item) ==> item.tree is CharacterClass,
    decreases p.len() - i,
{
    if 0 <= i < p.len() {
        let c = p[i];
        if c == '^' && ranges.len() == 0 && !negated {
            lemma_charclass_is_class(p, i + 1, ranges, true);
        } else if c == '\\' {
            match class_escape(p, i + 1) {
                Ok(item) => match item.tree {
                    Syntax::CharacterClass(more) => {
                        lemma_charclass_is_class(p, i + 2, ranges + more, negated);
                    },
                    Syntax::Literal(l) => {
                        lemma_charclass_is_class(p, i + 2, ranges.push((l, l)), negated);
                    },
                    _ => {},
                },
                Err(_) => {},
            }
        } else if c == '-' {
            if ranges.len() == 0 {
                lemma_charclass_is_class(p, i + 1, ranges.push(('-', '-')), negated);
            } else if i + 1 < p.len() && p[i + 1] != ']' {
                lemma_charclass_is_class(
                    p,
                    i + 2,
                    ranges.drop_last().push((ranges.last().0, p[i + 1])),
                    negated,
                );
            }
        } else if c != ']' {
            lemma_charclass_is_class(p, i + 1, ranges.push((c, c)), negated);
        }
    }
}

/// The groups that the parser reads number their capturing groups one by
/// one, on from the groups opened before.
pub proof fn lemma_group_numbered(p: Seq<char>, i: int, captures: nat)
    requires
        p.len() <= usize::MAX,
        0 <= i <= p.len(),
        captures < i,
    ensures
        group(p, i, captures) matches Ok(all) ==> numbered(all.tree, captures) == Some(
            all.captures,
        ) && all.captures <= all.next <= p.len() + 1,
    decreases p.len() - i, 1int,
{
    match group_opening(p, i) {
        Ok((capturing, start)) => {
            if start >= i {
                let opened = if capturing {
                    captures + 1
                } else {
                    captures
                };
                let none = Seq::<Syntax>::empty();
                assert(numbered_all(none, opened) == Some(opened));
                lemma_sequence_numbered(p, start, opened, none, opened);
            }
        },
        Err(_) => {},
    }
}

/// The capturing groups of the tree of a pattern are numbered from 1 in
/// the order of their opening parentheses, each number once.
pub proof fn lemma_parse_numbered(p: Seq<char>)
    requires
        p.len() <= usize::MAX,
    ensures
        parse_pattern(p) matches Ok(tree) ==> numbered(tree, 0) is Some,
{
    let none = Seq::<Syntax>::empty();
    assert(numbered_all(none, 0) == Some(0nat));
    lemma_sequence_numbered(p, 0, 0, none, 0);
}

} // verus!
