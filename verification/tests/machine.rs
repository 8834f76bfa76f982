use pike_regex::compile::Instruction;
use pike_regex::matcher::{Match, Matcher};
use pike_regex::pike::{is_word_char, PikeMatcher};
use pike_regex::regex::Regex;

use Instruction::{
    Accept, Any, AssertEnd, AssertStart, Char, ConditionalJumpEq, ConditionalJumpLE, Fork,
    Increment, Jump, Range, SaveEnd, SaveStart,
};

fn span(start: usize, end: usize) -> Match {
    Match { start, end }
}

fn run(code: &[Instruction], input: &str) -> Option<Vec<Match>> {
    PikeMatcher::do_match(code, input)
}

#[test]
fn accept_alone_matches_the_empty_span_at_the_start() {
    assert_eq!(run(&[Accept], "abc"), Some(vec![span(0, 0)]));
    assert_eq!(run(&[Accept], ""), Some(vec![span(0, 0)]));
}

#[test]
fn the_search_is_not_anchored() {
    assert_eq!(run(&[Char('a'), Accept], "xa"), Some(vec![span(1, 2)]));
    assert_eq!(run(&[Char('a'), Accept], "xxaxa"), Some(vec![span(2, 3)]));
    assert_eq!(run(&[Char('a'), Accept], "xyz"), None);
}

#[test]
fn range_takes_both_ends() {
    let code = [Range('b', 'd'), Accept];
    assert_eq!(run(&code, "a"), None);
    assert_eq!(run(&code, "b"), Some(vec![span(0, 1)]));
    assert_eq!(run(&code, "d"), Some(vec![span(0, 1)]));
    assert_eq!(run(&code, "e"), None);
}

#[test]
fn the_first_target_of_a_fork_has_priority() {
    let greedy = [Fork(1, 3), Char('a'), Jump(0), Accept];
    assert_eq!(run(&greedy, "aaa"), Some(vec![span(0, 3)]));
    let lazy = [Fork(3, 1), Char('a'), Jump(0), Accept];
    assert_eq!(run(&lazy, "aaa"), Some(vec![span(0, 0)]));
}

#[test]
fn conditional_jump_le_is_strict() {
    assert_eq!(
        run(&[ConditionalJumpLE(0, 0, 2), Accept, Char('x'), Accept], ""),
        Some(vec![span(0, 0)])
    );
    assert_eq!(
        run(&[ConditionalJumpLE(0, 1, 2), Accept, Char('x'), Accept], ""),
        None
    );
    assert_eq!(
        run(&[Increment(0), ConditionalJumpLE(0, 1, 3), Accept, Char('x'), Accept], ""),
        Some(vec![span(0, 0)])
    );
}

#[test]
fn a_thread_runs_to_its_end_before_the_next_one() {
    let code = [ConditionalJumpLE(0, 0, 2), Accept, Char('a'), Accept];
    assert_eq!(run(&code, "b"), Some(vec![span(0, 0)]));
    let taken = [Fork(1, 3), Char('a'), Accept, Char('b'), Accept];
    assert_eq!(run(&taken, "b"), Some(vec![span(0, 1)]));
    assert_eq!(run(&taken, "ab"), Some(vec![span(0, 1)]));
    assert_eq!(run(&taken, "c"), None);
}

#[test]
fn a_state_runs_once_at_a_position() {
    let twice = [Fork(1, 1), Fork(2, 2), Fork(3, 3), Char('a'), Accept];
    assert_eq!(run(&twice, "xa"), Some(vec![span(1, 2)]));
    let counted = [Fork(1, 3), Increment(0), Jump(0), Char('a'), Accept];
    assert_eq!(run(&counted, "a"), Some(vec![span(0, 1)]));
    let wide = [
        ConditionalJumpEq(70, 1000, 4),
        Increment(70),
        Char('a'),
        Jump(0),
        Accept,
    ];
    assert_eq!(run(&wide, "aaa"), None);
}

#[test]
fn conditional_jump_eq_compares_the_counter() {
    assert_eq!(
        run(&[ConditionalJumpEq(0, 0, 2), Char('x'), Accept], ""),
        Some(vec![span(0, 0)])
    );
    assert_eq!(
        run(&[Increment(0), ConditionalJumpEq(0, 0, 3), Char('x'), Accept], ""),
        None
    );
    assert_eq!(
        run(&[Increment(0), Increment(0), ConditionalJumpEq(0, 2, 4), Char('x'), Accept], ""),
        Some(vec![span(0, 0)])
    );
}

#[test]
fn saves_record_the_position() {
    let code = [Char('a'), SaveStart(1), Char('b'), SaveEnd(1), Char('c'), Accept];
    assert_eq!(run(&code, "xabc"), Some(vec![span(1, 4), span(2, 3)]));
}

#[test]
fn a_group_that_started_and_did_not_end_is_empty() {
    let code = [Char('a'), SaveStart(3), Char('b'), Accept];
    assert_eq!(run(&code, "ab"), Some(vec![span(0, 2), span(1, 1)]));
}

#[test]
fn a_group_that_ends_without_a_start_is_not_recorded() {
    assert_eq!(run(&[SaveEnd(1), Accept], "a"), Some(vec![span(0, 0)]));
}

#[test]
fn groups_come_in_the_order_of_their_slots() {
    let code = [
        SaveStart(5),
        Char('a'),
        SaveEnd(5),
        SaveStart(2),
        Char('b'),
        SaveEnd(2),
        SaveStart(0),
        SaveEnd(0),
        Accept,
    ];
    assert_eq!(
        run(&code, "ab"),
        Some(vec![span(0, 2), span(2, 2), span(1, 2), span(0, 1)])
    );
}

#[test]
fn groups_without_a_slot_are_dropped() {
    let code = [SaveStart(10), Char('a'), SaveEnd(10), SaveStart(9), SaveEnd(9), Accept];
    assert_eq!(run(&code, "a"), Some(vec![span(0, 1), span(1, 1)]));
    let many = Regex::new("(a)(b)(c)(d)(e)(f)(g)(h)(i)(j)(k)").unwrap();
    let found = many.partial_match("abcdefghijk").unwrap();
    assert_eq!(found.len(), 10);
    assert_eq!(found[0], span(0, 11));
    assert_eq!(found[9], span(8, 9));
}

#[test]
fn anchors() {
    assert_eq!(run(&[AssertStart, Accept], "abc"), Some(vec![span(0, 0)]));
    assert_eq!(run(&[AssertEnd, Accept], "abc"), Some(vec![span(3, 3)]));
    assert_eq!(run(&[AssertEnd, Accept], ""), Some(vec![span(0, 0)]));
    assert_eq!(run(&[Char('b'), AssertStart, Accept], "ab"), None);
    assert_eq!(run(&[AssertEnd, Char('b'), Accept], "ab"), None);
}

#[test]
fn positions_count_code_points() {
    assert_eq!(run(&[Char('b'), Accept], "éb"), Some(vec![span(1, 2)]));
    assert_eq!(run(&[AssertEnd, Accept], "éé"), Some(vec![span(2, 2)]));
    let re = Regex::new("\\bé").unwrap();
    assert_eq!(re.partial_match("aé"), Some(vec![span(1, 2)]));
    assert_eq!(re.partial_match("-é"), None);
}

#[test]
fn the_terminator_is_taken_but_leads_nowhere() {
    assert_eq!(run(&[Char('\u{3}'), Accept], ""), None);
    assert_eq!(run(&[Any, Accept], ""), None);
    assert_eq!(run(&[Any, Accept], "\u{3}"), Some(vec![span(0, 1)]));
}

#[test]
fn a_thread_outside_the_program_dies() {
    assert_eq!(run(&[Jump(5)], "a"), None);
    assert_eq!(run(&[Fork(7, 1), Accept], "a"), Some(vec![span(0, 0)]));
    assert_eq!(run(&[Char('a')], "a"), None);
    assert_eq!(run(&[], "a"), None);
}

#[test]
fn a_loop_that_takes_nothing_ends() {
    assert_eq!(run(&[Jump(0)], "ab"), None);
    assert_eq!(run(&[Fork(0, 1), Accept], "ab"), Some(vec![span(0, 0)]));
    assert_eq!(run(&[Fork(0, 0)], "ab"), None);
}

#[test]
fn a_loop_that_only_counts_ends() {
    assert_eq!(run(&[Increment(0), Jump(0)], "a"), None);
    assert_eq!(
        run(&[Fork(1, 3), Increment(0), Jump(0), Accept], "a"),
        Some(vec![span(0, 0)])
    );
    assert_eq!(
        run(
            &[Fork(1, 3), Increment(0), Jump(0), ConditionalJumpEq(0, 7, 5), Char('x'), Accept],
            "a"
        ),
        Some(vec![span(0, 0)])
    );
    assert_eq!(
        run(
            &[Fork(1, 3), Increment(0), Jump(0), ConditionalJumpLE(0, 7, 4), Accept],
            "a"
        ),
        Some(vec![span(0, 0)])
    );
    assert_eq!(
        run(
            &[Increment(0), ConditionalJumpEq(0, 7, 3), Jump(0), Accept],
            "a"
        ),
        Some(vec![span(0, 0)])
    );
}

#[test]
fn a_counter_stays_at_its_largest_value() {
    let code = [
        ConditionalJumpEq(0, usize::MAX, 3),
        Increment(0),
        Char('a'),
        Accept,
    ];
    assert_eq!(run(&code, "a"), Some(vec![span(0, 1)]));
}

#[test]
fn the_trait_runs_the_same_machine() {
    let code = [Char('a'), Accept];
    assert_eq!(
        <PikeMatcher as Matcher>::do_match(&code, "xa"),
        Some(vec![span(1, 2)])
    );
}

#[test]
fn word_symbols() {
    for c in ['a', 'z', 'A', 'Z', '0', '9', '_', 'm', 'Q', '5'] {
        assert!(is_word_char(c));
    }
    for c in ['-', ' ', '`', '{', '@', '[', '/', ':', 'é', '\u{3}', '\0'] {
        assert!(!is_word_char(c));
    }
}
