//! Counting marks: there are only so many lists of counters that a
//! program can tell apart, and no instruction is marked with more.

use vstd::prelude::*;

verus! {

/// `base` to the power of `exponent`.
pub open spec fn power(base: nat, exponent: nat) -> nat
    decreases exponent,
{
    if exponent == 0 {
        1
    } else {
        base * power(base, (exponent - 1) as nat)
    }
}

/// A list of counters as one number: its counters are the digits, the
/// first counter the most significant.
pub open spec fn number_of_counters(counters: Seq<usize>, base: nat) -> nat
    decreases counters.len(),
{
    if counters.len() == 0 {
        0
    } else {
        number_of_counters(counters.drop_last(), base) * base + counters.last() as nat
    }
}

/// A list of `count` counters, none of them above `cap`.
pub open spec fn within(counters: Seq<usize>, count: nat, cap: usize) -> bool {
    counters.len() == count && forall|i: int|
        0 <= i < counters.len() ==> #[trigger] counters[i] <= cap
}

/// The number of a list of counters is below the power of the base.
pub proof fn lemma_number_is_small(counters: Seq<usize>, count: nat, cap: usize)
    requires
        within(counters, count, cap),
    ensures
        number_of_counters(counters, (cap + 1) as nat) < power((cap + 1) as nat, count),
    decreases count,
{
    let base = (cap + 1) as nat;
    if count > 0 {
        let front = counters.drop_last();
        assert forall|i: int| 0 <= i < front.len() implies #[trigger] front[i] <= cap by {
            assert(front[i] == counters[i]);
        }
        lemma_number_is_small(front, (count - 1) as nat, cap);
        let high = number_of_counters(front, base);
        let below = power(base, (count - 1) as nat);
        assert(counters.last() == counters[counters.len() - 1]);
        assert(high * base + counters.last() < base * below) by (nonlinear_arith)
            requires
                high < below,
                counters.last() < base,
        ;
    }
}

/// Two lists of counters with the same number are the same list.
pub proof fn lemma_number_tells_apart(a: Seq<usize>, b: Seq<usize>, count: nat, cap: usize)
    requires
        within(a, count, cap),
        within(b, count, cap),
        number_of_counters(a, (cap + 1) as nat) == number_of_counters(b, (cap + 1) as nat),
    ensures
        a == b,
    decreases count,
{
    let base = (cap + 1) as nat;
    if count > 0 {
        let front = a.drop_last();
        let other = b.drop_last();
        assert forall|i: int| 0 <= i < front.len() implies #[trigger] front[i] <= cap by {
            assert(front[i] == a[i]);
        }
        assert forall|i: int| 0 <= i < other.len() implies #[trigger] other[i] <= cap by {
            assert(other[i] == b[i]);
        }
        assert(a.last() == a[a.len() - 1]);
        assert(b.last() == b[b.len() - 1]);
        let x = number_of_counters(front, base);
        let y = number_of_counters(other, base);
        assert(x == y && a.last() == b.last()) by (nonlinear_arith)
            requires
                x * base + a.last() == y * base + b.last(),
                a.last() < base,
                b.last() < base,
        ;
        lemma_number_tells_apart(front, other, (count - 1) as nat, cap);
        assert(a =~= front.push(a.last()));
        assert(b =~= other.push(b.last()));
    } else {
        assert(a =~= b);
    }
}

/// There are no more than `bound` different numbers from 0 up to, but not
/// including, `bound`.
pub proof fn lemma_few_numbers(numbers: Seq<int>, bound: int)
    requires
        0 <= bound,
        numbers.no_duplicates(),
        forall|i: int| 0 <= i < numbers.len() ==> 0 <= #[trigger] numbers[i] < bound,
    ensures
        numbers.len() <= bound,
{
    if numbers.len() > 0 {
        assert(0 <= numbers[0] < bound);
        numbers.unique_seq_to_set();
        vstd::set_lib::lemma_int_range(0, bound);
        let all = vstd::set_lib::set_int_range(0, bound);
        assert(numbers.to_set().subset_of(all)) by {
            assert forall|x: int| numbers.to_set().contains(x) implies all.contains(x) by {
                let i = choose|i: int| 0 <= i < numbers.len() && numbers[i] == x;
                assert(0 <= numbers[i] < bound);
            }
        }
        vstd::set_lib::lemma_len_subset(numbers.to_set(), all);
    }
}

/// There are no more different lists of `count` counters, none above
/// `cap`, than `cap + 1` to the power of `count`.
pub proof fn lemma_few_lists(lists: Seq<Seq<usize>>, count: nat, cap: usize)
    requires
        lists.no_duplicates(),
        forall|k: int| 0 <= k < lists.len() ==> within(#[trigger] lists[k], count, cap),
    ensures
        lists.len() <= power((cap + 1) as nat, count),
{
    let base = (cap + 1) as nat;
    let numbers = Seq::new(lists.len(), |k: int| number_of_counters(lists[k], base) as int);
    assert forall|i: int, j: int|
        0 <= i < numbers.len() && 0 <= j < numbers.len() && i != j implies numbers[i]
        != numbers[j] by {
        if numbers[i] == numbers[j] {
            lemma_number_tells_apart(lists[i], lists[j], count, cap);
        }
    }
    assert forall|i: int| 0 <= i < numbers.len() implies 0 <= #[trigger] numbers[i] < power(
        base,
        count,
    ) by {
        lemma_number_is_small(lists[i], count, cap);
    }
    lemma_few_numbers(numbers, power(base, count) as int);
}

} // verus!
