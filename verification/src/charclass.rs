//! Character classes as sequences of ranges: sorting them, and taking
//! their complement over all code points.

use crate::parse::{Expression, Syntax};
use crate::text::lemma_char_is_scalar;
use vstd::prelude::*;

verus! {

/// The last code point.
pub const LAST_CODE_POINT: char = '\u{10FFFF}';

/// Whether a number is a Unicode scalar value: a code point that is no
/// surrogate.
pub open spec fn is_scalar(x: int) -> bool {
    0 <= x <= 0xD7FF || 0xE000 <= x <= 0x10FFFF
}

/// The first scalar value above a code point; `0x110000` above the last.
pub open spec fn scalar_after(c: char) -> int {
    if c as int == 0xD7FF {
        0xE000
    } else {
        c as int + 1
    }
}

/// The last scalar value below a code point other than the first.
pub open spec fn scalar_before(c: char) -> int {
    if c as int == 0xE000 {
        0xD7FF
    } else {
        c as int - 1
    }
}

/// Whether a code point lies in one of the ranges.
pub open spec fn in_ranges(ranges: Seq<(char, char)>, c: char) -> bool {
    exists|i: int| 0 <= i < ranges.len() && (#[trigger] ranges[i]).0 <= c <= ranges[i].1
}

/// A sequence of ranges, in order of their first code points, with one
/// more range put behind those that do not start after it.
pub open spec fn insert_range(sorted: Seq<(char, char)>, range: (char, char)) -> Seq<(char, char)>
    decreases sorted.len(),
{
    if sorted.len() == 0 {
        seq![range]
    } else if sorted.last().0 <= range.0 {
        sorted.push(range)
    } else {
        insert_range(sorted.drop_last(), range).push(sorted.last())
    }
}

/// The ranges in order of their first code points; ranges that start at
/// the same code point keep their order.
pub open spec fn sort_ranges(ranges: Seq<(char, char)>) -> Seq<(char, char)>
    decreases ranges.len(),
{
    if ranges.len() == 0 {
        Seq::empty()
    } else {
        insert_range(sort_ranges(ranges.drop_last()), ranges.last())
    }
}

/// The ranges that cover what sorted ranges leave out, from the scalar
/// value `cursor` up to the last code point. `cursor` is a scalar value, or
/// `0x110000` when nothing is left.
pub open spec fn gaps(sorted: Seq<(char, char)>, cursor: int) -> Seq<(char, char)>
    decreases sorted.len(),
{
    if sorted.len() == 0 {
        if cursor <= LAST_CODE_POINT as int {
            seq![(cursor as char, LAST_CODE_POINT)]
        } else {
            Seq::empty()
        }
    } else {
        let range = sorted[0];
        let before = if range.0 as int > cursor {
            seq![(cursor as char, scalar_before(range.0) as char)]
        } else {
            Seq::empty()
        };
        let after = if scalar_after(range.1) > cursor {
            scalar_after(range.1)
        } else {
            cursor
        };
        before + gaps(sorted.drop_first(), after)
    }
}

/// The ranges that cover exactly the code points outside the given ranges.
pub open spec fn complement(ranges: Seq<(char, char)>) -> Seq<(char, char)> {
    gaps(sort_ranges(ranges), 0)
}

/// `char::from_u32` of the standard library: the code point with the given
/// number, for a number that is a Unicode scalar value, and nothing for a
/// surrogate or a number above `0x10FFFF`.
#[verifier::external_body]
fn char_from_u32(x: u32) -> (c: Option<char>)
    ensures
        is_scalar(x as int) ==> c == Some(x as char),
        !is_scalar(x as int) ==> c is None,
{
    char::from_u32(x)
}

/// The first code point of the range at index `i`.
pub fn range_start(ranges: &Vec<(char, char)>, i: usize) -> (start: char)
    requires
        i < ranges.len(),
    ensures
        start == ranges@[i as int].0,
{
    ranges[i].0
}

/// The last code point of the range at index `i`.
pub fn range_end(ranges: &Vec<(char, char)>, i: usize) -> (end: char)
    requires
        i < ranges.len(),
    ensures
        end == ranges@[i as int].1,
{
    ranges[i].1
}

/// The ranges in order of their first code points; ranges that start at
/// the same code point keep their order.
pub fn sorted_ranges(ranges: &Vec<(char, char)>) -> (sorted: Vec<(char, char)>)
    ensures
        sorted@ == sort_ranges(ranges@),
{
    let mut sorted: Vec<(char, char)> = Vec::new();
    let mut i: usize = 0;
    while i < ranges.len()
        invariant
            i <= ranges.len(),
            sorted@ == sort_ranges(ranges@.take(i as int)),
        decreases ranges.len() - i,
    {
        let lo = range_start(ranges, i);
        let hi = range_end(ranges, i);
        let ghost range = (lo, hi);
        let mut j: usize = sorted.len();
        proof {
            assert(sorted@.take(j as int) =~= sorted@);
            assert(sorted@.skip(j as int) =~= Seq::<(char, char)>::empty());
            assert(insert_range(sorted@, range) =~= insert_range(sorted@.take(j as int), range)
                + sorted@.skip(j as int));
        }
        while j > 0 && range_start(&sorted, j - 1) > lo
            invariant
                j <= sorted.len(),
                range == (lo, hi),
                insert_range(sorted@, range) == insert_range(sorted@.take(j as int), range)
                    + sorted@.skip(j as int),
            decreases j,
        {
            proof {
                let head = sorted@.take(j as int);
                assert(head.last() == sorted@[j - 1]);
                assert(head.drop_last() =~= sorted@.take(j - 1));
                assert(insert_range(head, range) == insert_range(sorted@.take(j - 1), range).push(
                    sorted@[j - 1],
                ));
                assert(seq![sorted@[j - 1]] + sorted@.skip(j as int) =~= sorted@.skip(j - 1));
                assert(insert_range(sorted@.take(j - 1), range).push(sorted@[j - 1]) + sorted@.skip(
                    j as int,
                ) =~= insert_range(sorted@.take(j - 1), range) + sorted@.skip(j - 1));
            }
            j -= 1;
        }
        proof {
            let head = sorted@.take(j as int);
            if j > 0 {
                assert(head.last() == sorted@[j - 1]);
            }
            assert(insert_range(head, range) == head.push(range));
            assert(sorted@.insert(j as int, range) =~= head.push(range) + sorted@.skip(j as int));
            assert(ranges@.take(i + 1).drop_last() =~= ranges@.take(i as int));
            assert(ranges@.take(i + 1).last() == range);
        }
        sorted.insert(j, (lo, hi));
        i += 1;
    }
    proof {
        assert(ranges@.take(i as int) =~= ranges@);
    }
    sorted
}

/// The class of all code points outside the given ranges.
pub fn negate_char_ranges(ranges: &Vec<(char, char)>) -> (negated: Expression)
    ensures
        negated@ == Syntax::CharacterClass(complement(ranges@)),
{
    Expression::CharacterClass(complement_ranges(ranges))
}

/// The ranges that cover the code points outside the given ranges: the
/// gaps that the ranges, sorted, leave between the first and the last code
/// point.
pub fn complement_ranges(ranges: &Vec<(char, char)>) -> (inverted: Vec<(char, char)>)
    ensures
        inverted@ == complement(ranges@),
        forall|c: char| in_ranges(inverted@, c) <==> !in_ranges(ranges@, c),
{
    proof {
        assert forall|c: char| in_ranges(complement(ranges@), c) <==> !in_ranges(ranges@, c) by {
            lemma_complement(ranges@, c);
        }
    }
    let sorted = sorted_ranges(ranges);
    let mut inverted: Vec<(char, char)> = Vec::new();
    let mut cursor: u32 = 0;
    let mut i: usize = 0;
    proof {
        assert(sorted@.skip(0) =~= sorted@);
        assert(inverted@ + gaps(sorted@, 0) =~= gaps(sorted@, 0));
    }
    while i < sorted.len()
        invariant
            i <= sorted.len(),
            is_scalar(cursor as int) || cursor == 0x110000,
            inverted@ + gaps(sorted@.skip(i as int), cursor as int) == gaps(sorted@, 0),
        decreases sorted.len() - i,
    {
        let lo = range_start(&sorted, i);
        let hi = range_end(&sorted, i);
        let ghost rest = sorted@.skip(i as int);
        let ghost before = inverted@;
        proof {
            assert(rest[0] == (lo, hi));
            assert(rest.drop_first() =~= sorted@.skip(i + 1));
        }
        if lo as u32 > cursor {
            let below = if lo as u32 == 0xE000 {
                0xD7FF
            } else {
                lo as u32 - 1
            };
            let first = char_from_u32(cursor).unwrap();
            let last = char_from_u32(below).unwrap();
            inverted.push((first, last));
        }
        let above = if hi as u32 == 0xD7FF {
            0xE000
        } else {
            hi as u32 + 1
        };
        proof {
            let head = if lo as int > cursor as int {
                seq![(cursor as char, scalar_before(lo) as char)]
            } else {
                Seq::empty()
            };
            assert(inverted@ =~= before + head);
            let after = if above > cursor {
                above as int
            } else {
                cursor as int
            };
            assert(gaps(rest, cursor as int) == head + gaps(sorted@.skip(i + 1), after));
            assert(before + (head + gaps(sorted@.skip(i + 1), after)) =~= (before + head) + gaps(
                sorted@.skip(i + 1),
                after,
            ));
        }
        if above > cursor {
            cursor = above;
        }
        i += 1;
    }
    proof {
        assert(sorted@.skip(i as int) =~= Seq::<(char, char)>::empty());
    }
    let ghost before = inverted@;
    if cursor <= 0x10FFFF {
        let first = char_from_u32(cursor).unwrap();
        inverted.push((first, LAST_CODE_POINT));
        assert(inverted@ =~= before + seq![(cursor as char, LAST_CODE_POINT)]);
    } else {
        assert(inverted@ =~= before + Seq::<(char, char)>::empty());
    }
    inverted
}

/// Sorting keeps the number of ranges and an upper bound on them.
pub proof fn lemma_sort_keeps_bound(ranges: Seq<(char, char)>, bound: char)
    requires
        forall|i: int| 0 <= i < ranges.len() ==> (#[trigger] ranges[i]).1 < bound,
    ensures
        sort_ranges(ranges).len() == ranges.len(),
        forall|i: int|
            0 <= i < sort_ranges(ranges).len() ==> (#[trigger] sort_ranges(ranges)[i]).1 < bound,
    decreases ranges.len(),
{
    if ranges.len() > 0 {
        assert forall|i: int| 0 <= i < ranges.drop_last().len() implies (
        #[trigger] ranges.drop_last()[i]).1 < bound by {
            assert(ranges.drop_last()[i] == ranges[i]);
        }
        lemma_sort_keeps_bound(ranges.drop_last(), bound);
        assert(ranges.last() == ranges[ranges.len() - 1]);
        lemma_insert_keeps_bound(sort_ranges(ranges.drop_last()), ranges.last(), bound);
    }
}

/// Inserting a range adds one range and keeps an upper bound.
pub proof fn lemma_insert_keeps_bound(sorted: Seq<(char, char)>, range: (char, char), bound: char)
    requires
        forall|i: int| 0 <= i < sorted.len() ==> (#[trigger] sorted[i]).1 < bound,
        range.1 < bound,
    ensures
        insert_range(sorted, range).len() == sorted.len() + 1,
        forall|i: int|
            0 <= i < insert_range(sorted, range).len() ==> (#[trigger] insert_range(
                sorted,
                range,
            )[i]).1 < bound,
    decreases sorted.len(),
{
    if sorted.len() > 0 && !(sorted.last().0 <= range.0) {
        assert forall|i: int| 0 <= i < sorted.drop_last().len() implies (
        #[trigger] sorted.drop_last()[i]).1 < bound by {
            assert(sorted.drop_last()[i] == sorted[i]);
        }
        lemma_insert_keeps_bound(sorted.drop_last(), range, bound);
        assert(sorted.last() == sorted[sorted.len() - 1]);
    }
}

/// Ranges that all end below the last code point leave a gap.
pub proof fn lemma_gaps_reach_end(sorted: Seq<(char, char)>, cursor: int)
    requires
        0 <= cursor <= LAST_CODE_POINT as int,
        forall|i: int| 0 <= i < sorted.len() ==> (#[trigger] sorted[i]).1 < LAST_CODE_POINT,
    ensures
        gaps(sorted, cursor).len() > 0,
    decreases sorted.len(),
{
    if sorted.len() > 0 {
        let range = sorted[0];
        let after = if scalar_after(range.1) > cursor {
            scalar_after(range.1)
        } else {
            cursor
        };
        assert forall|i: int| 0 <= i < sorted.drop_first().len() implies (
        #[trigger] sorted.drop_first()[i]).1 < LAST_CODE_POINT by {
            assert(sorted.drop_first()[i] == sorted[i + 1]);
        }
        lemma_gaps_reach_end(sorted.drop_first(), after);
    }
}

/// The complement of ranges that all end below the last code point holds
/// a range.
pub proof fn lemma_complement_not_empty(ranges: Seq<(char, char)>)
    requires
        forall|i: int| 0 <= i < ranges.len() ==> (#[trigger] ranges[i]).1 < LAST_CODE_POINT,
    ensures
        complement(ranges).len() > 0,
{
    lemma_sort_keeps_bound(ranges, LAST_CODE_POINT);
    lemma_gaps_reach_end(sort_ranges(ranges), 0);
}

/// The ranges come in order of their first code points.
pub open spec fn sorted_by_start(ranges: Seq<(char, char)>) -> bool {
    forall|i: int, j: int| 0 <= i <= j < ranges.len() ==> ranges[i].0 <= ranges[j].0
}

/// Inserting a range keeps the order and adds the code points of the
/// range, and no others.
pub proof fn lemma_insert_range(sorted: Seq<(char, char)>, range: (char, char))
    requires
        sorted_by_start(sorted),
    ensures
        sorted_by_start(insert_range(sorted, range)),
        forall|c: char|
            in_ranges(insert_range(sorted, range), c) <==> (in_ranges(sorted, c) || range.0 <= c
                <= range.1),
    decreases sorted.len(),
{
    let result = insert_range(sorted, range);
    if sorted.len() == 0 {
        assert forall|c: char| in_ranges(result, c) <==> (in_ranges(sorted, c) || range.0 <= c
            <= range.1) by {
            if range.0 <= c <= range.1 {
                assert(result[0].0 <= c <= result[0].1);
            }
        }
    } else if sorted.last().0 <= range.0 {
        assert forall|c: char| in_ranges(result, c) <==> (in_ranges(sorted, c) || range.0 <= c
            <= range.1) by {
            if in_ranges(sorted, c) {
                let i = choose|i: int| 0 <= i < sorted.len() && (#[trigger] sorted[i]).0 <= c
                    <= sorted[i].1;
                assert(result[i] == sorted[i]);
            }
            if range.0 <= c <= range.1 {
                assert(result[sorted.len() as int] == range);
            }
            if in_ranges(result, c) {
                let i = choose|i: int| 0 <= i < result.len() && (#[trigger] result[i]).0 <= c
                    <= result[i].1;
                if i < sorted.len() {
                    assert(result[i] == sorted[i]);
                }
            }
        }
    } else {
        let front = sorted.drop_last();
        let last = sorted.last();
        assert(sorted_by_start(front)) by {
            assert forall|i: int, j: int| 0 <= i <= j < front.len() implies front[i].0
                <= front[j].0 by {
                assert(front[i] == sorted[i] && front[j] == sorted[j]);
            }
        }
        lemma_insert_range(front, range);
        lemma_insert_keeps_len(front, range);
        let inner = insert_range(front, range);
        assert forall|i: int, j: int| 0 <= i <= j < result.len() implies result[i].0
            <= result[j].0 by {
            if j == result.len() - 1 {
                if i < j {
                    // every range of `inner` is `range` or one of `front`
                    lemma_insert_members(front, range, i);
                    if inner[i] != range {
                        let k = choose|k: int| 0 <= k < front.len() && front[k] == inner[i];
                        assert(front[k] == sorted[k]);
                        assert(sorted[k].0 <= sorted[sorted.len() - 1].0);
                    }
                }
            } else {
                assert(result[i] == inner[i] && result[j] == inner[j]);
            }
        }
        assert forall|c: char| in_ranges(result, c) <==> (in_ranges(sorted, c) || range.0 <= c
            <= range.1) by {
            if in_ranges(inner, c) {
                let i = choose|i: int| 0 <= i < inner.len() && (#[trigger] inner[i]).0 <= c
                    <= inner[i].1;
                assert(result[i] == inner[i]);
            }
            if last.0 <= c <= last.1 {
                assert(result[result.len() - 1] == last);
                assert(sorted[sorted.len() - 1] == last);
            }
            if in_ranges(front, c) {
                let i = choose|i: int| 0 <= i < front.len() && (#[trigger] front[i]).0 <= c
                    <= front[i].1;
                assert(sorted[i] == front[i]);
            }
            if in_ranges(sorted, c) {
                let i = choose|i: int| 0 <= i < sorted.len() && (#[trigger] sorted[i]).0 <= c
                    <= sorted[i].1;
                if i < front.len() {
                    assert(front[i] == sorted[i]);
                }
            }
            if in_ranges(result, c) {
                let i = choose|i: int| 0 <= i < result.len() && (#[trigger] result[i]).0 <= c
                    <= result[i].1;
                if i < inner.len() {
                    assert(inner[i] == result[i]);
                }
            }
        }
    }
}

/// Inserting a range adds one range.
pub proof fn lemma_insert_keeps_len(sorted: Seq<(char, char)>, range: (char, char))
    ensures
        insert_range(sorted, range).len() == sorted.len() + 1,
    decreases sorted.len(),
{
    if sorted.len() > 0 && !(sorted.last().0 <= range.0) {
        lemma_insert_keeps_len(sorted.drop_last(), range);
    }
}

/// Every range of a sequence with a range inserted is that range or one
/// of the sequence.
pub proof fn lemma_insert_members(sorted: Seq<(char, char)>, range: (char, char), i: int)
    requires
        0 <= i < insert_range(sorted, range).len(),
    ensures
        insert_range(sorted, range)[i] == range || exists|k: int|
            0 <= k < sorted.len() && sorted[k] == insert_range(sorted, range)[i],
    decreases sorted.len(),
{
    let result = insert_range(sorted, range);
    if sorted.len() == 0 {
    } else if sorted.last().0 <= range.0 {
        if i < sorted.len() {
            assert(sorted[i] == result[i]);
        }
    } else {
        lemma_insert_keeps_len(sorted.drop_last(), range);
        if i < result.len() - 1 {
            lemma_insert_members(sorted.drop_last(), range, i);
            let inner = insert_range(sorted.drop_last(), range);
            if inner[i] != range {
                let k = choose|k: int|
                    0 <= k < sorted.drop_last().len() && sorted.drop_last()[k] == inner[i];
                assert(sorted[k] == inner[i]);
            }
        } else {
            assert(sorted[sorted.len() - 1] == result[i]);
        }
    }
}

/// Sorting puts the ranges in order and keeps their code points.
pub proof fn lemma_sort_ranges(ranges: Seq<(char, char)>)
    ensures
        sorted_by_start(sort_ranges(ranges)),
        forall|c: char| in_ranges(sort_ranges(ranges), c) <==> in_ranges(ranges, c),
    decreases ranges.len(),
{
    if ranges.len() > 0 {
        let front = ranges.drop_last();
        lemma_sort_ranges(front);
        lemma_insert_range(sort_ranges(front), ranges.last());
        assert forall|c: char| in_ranges(sort_ranges(ranges), c) <==> in_ranges(ranges, c) by {
            if in_ranges(front, c) {
                let i = choose|i: int| 0 <= i < front.len() && (#[trigger] front[i]).0 <= c
                    <= front[i].1;
                assert(ranges[i] == front[i]);
            }
            if ranges.last().0 <= c <= ranges.last().1 {
                assert(ranges[ranges.len() - 1] == ranges.last());
            }
            if in_ranges(ranges, c) {
                let i = choose|i: int| 0 <= i < ranges.len() && (#[trigger] ranges[i]).0 <= c
                    <= ranges[i].1;
                if i < front.len() {
                    assert(front[i] == ranges[i]);
                }
            }
        }
    }
}

/// The gaps of sorted ranges from a cursor on hold exactly the code points
/// from the cursor on that lie in none of the ranges.
pub proof fn lemma_gaps(sorted: Seq<(char, char)>, cursor: int, c: char)
    requires
        sorted_by_start(sorted),
        is_scalar(cursor) || cursor == 0x110000,
    ensures
        in_ranges(gaps(sorted, cursor), c) <==> (c as int >= cursor && !in_ranges(sorted, c)),
    decreases sorted.len(),
{
    lemma_char_is_scalar(c);
    let result = gaps(sorted, cursor);
    if sorted.len() == 0 {
        if cursor <= LAST_CODE_POINT as int {
            assert(result[0] == (cursor as char, LAST_CODE_POINT));
            if c as int >= cursor {
                assert(result[0].0 <= c <= result[0].1);
            }
        }
    } else {
        let range = sorted[0];
        lemma_char_is_scalar(range.0);
        lemma_char_is_scalar(range.1);
        let before = if range.0 as int > cursor {
            seq![(cursor as char, scalar_before(range.0) as char)]
        } else {
            Seq::empty()
        };
        let after = if scalar_after(range.1) > cursor {
            scalar_after(range.1)
        } else {
            cursor
        };
        let rest = sorted.drop_first();
        assert(sorted_by_start(rest)) by {
            assert forall|i: int, j: int| 0 <= i <= j < rest.len() implies rest[i].0
                <= rest[j].0 by {
                assert(rest[i] == sorted[i + 1] && rest[j] == sorted[j + 1]);
            }
        }
        lemma_gaps(rest, after, c);
        let tail = gaps(rest, after);
        assert(result == before + tail);
        // membership in the parts of `result`
        if in_ranges(result, c) {
            let i = choose|i: int| 0 <= i < result.len() && (#[trigger] result[i]).0 <= c
                <= result[i].1;
            if i < before.len() {
                assert(result[i] == before[i]);
            } else {
                assert(result[i] == tail[i - before.len()]);
            }
        }
        if in_ranges(tail, c) {
            let i = choose|i: int| 0 <= i < tail.len() && (#[trigger] tail[i]).0 <= c
                <= tail[i].1;
            assert(result[i + before.len()] == tail[i]);
        }
        if range.0 as int > cursor && cursor <= c as int <= scalar_before(range.0) {
            assert(result[0] == before[0]);
            assert(result[0].0 <= c <= result[0].1);
        }
        // membership in the parts of `sorted`
        if in_ranges(sorted, c) {
            let i = choose|i: int| 0 <= i < sorted.len() && (#[trigger] sorted[i]).0 <= c
                <= sorted[i].1;
            if i > 0 {
                assert(rest[i - 1] == sorted[i]);
            }
        }
        if in_ranges(rest, c) {
            let i = choose|i: int| 0 <= i < rest.len() && (#[trigger] rest[i]).0 <= c
                <= rest[i].1;
            assert(sorted[i + 1] == rest[i]);
        }
        if range.0 <= c <= range.1 {
            assert(sorted[0].0 <= c <= sorted[0].1);
        }
        if (c as int) < range.0 as int {
            // no later range starts before `c`
            assert forall|i: int| 0 <= i < rest.len() implies !((#[trigger] rest[i]).0 <= c
                <= rest[i].1) by {
                assert(rest[i] == sorted[i + 1]);
                assert(sorted[0].0 <= sorted[i + 1].0);
            }
        }
    }
}

/// The complement holds exactly the code points that lie in none of the
/// ranges.
pub proof fn lemma_complement(ranges: Seq<(char, char)>, c: char)
    ensures
        in_ranges(complement(ranges), c) <==> !in_ranges(ranges, c),
{
    lemma_char_is_scalar(c);
    lemma_sort_ranges(ranges);
    lemma_gaps(sort_ranges(ranges), 0, c);
}

} // verus!
