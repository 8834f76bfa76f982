use pike_regex::matcher::Match;
use pike_regex::parse::ParseError;
use pike_regex::regex::Regex;

fn texts(pattern: &str, input: &str) -> Option<Vec<String>> {
    let re = Regex::new(pattern).unwrap();
    re.partial_match(input).map(|spans| {
        spans
            .iter()
            .map(|m| input.chars().skip(m.start).take(m.end - m.start).collect())
            .collect()
    })
}

fn spans(pattern: &str, input: &str) -> Option<Vec<Match>> {
    Regex::new(pattern).unwrap().partial_match(input)
}

fn found(all: &[&str]) -> Option<Vec<String>> {
    Some(all.iter().map(|s| s.to_string()).collect())
}

#[test]
fn star_between_literals() {
    assert_eq!(texts("ab*c", "abbbc"), found(&["abbbc"]));
}

#[test]
fn two_groups() {
    assert_eq!(texts("(a)(b)c", "abc"), found(&["abc", "a", "b"]));
}

#[test]
fn a_repeated_group_keeps_its_last_capture() {
    assert_eq!(texts("a(b|c)*d", "abcd"), found(&["abcd", "c"]));
}

#[test]
fn ip_address() {
    let octet = "(25[0-5]|2[0-4][0-9]|[01]?[0-9][0-9]?)";
    let pattern = format!("\\b{}\\.{}\\.{}\\.{}\\b", octet, octet, octet, octet);
    assert_eq!(
        texts(&pattern, "127.0.0.1"),
        found(&["127.0.0.1", "127", "0", "0", "1"])
    );
    assert_eq!(texts(&pattern, "127.0.0.999"), None);
}

#[test]
fn bounded_repetition() {
    assert_eq!(texts("ab{3,4}bc", "abbbbc"), found(&["abbbbc"]));
    assert_eq!(texts("ab{4,5}bc", "abbbbc"), None);
}

#[test]
fn negated_class_with_hyphen() {
    assert_eq!(texts("a[^-b]c", "a-c"), None);
    assert_eq!(texts("a[^-b]c", "adc"), found(&["adc"]));
}

#[test]
fn unterminated_group_is_a_parse_error() {
    assert_eq!(
        Regex::new("(").err(),
        Some(ParseError::UnterminatedSubExpression)
    );
    assert_eq!(Regex::new("(a").err(), Some(ParseError::UnterminatedGroup));
}

#[test]
fn mail_address() {
    let pattern = "\\b[a-zA-Z0-9._%+-]+@(?:[a-zA-Z0-9-]+\\.)+[a-zA-Z]{2,4}\\b";
    assert_eq!(texts(pattern, "john@aol...com"), None);
    assert_eq!(
        texts(pattern, "john@server.department.company.com"),
        found(&["john@server.department.company.com"])
    );
}

#[test]
fn empty_input_between_anchors() {
    assert_eq!(spans("^$", ""), Some(vec![Match { start: 0, end: 0 }]));
    assert_eq!(spans("^$", "a"), None);
}

#[test]
fn empty_input_under_a_star() {
    assert_eq!(spans("a*", ""), Some(vec![Match { start: 0, end: 0 }]));
}

#[test]
fn end_anchor_matches_at_the_end_of_every_input() {
    for input in ["", "a", "abc", "a\nb", "ééé"] {
        let len = input.chars().count();
        assert_eq!(spans("$", input), Some(vec![Match { start: len, end: len }]));
    }
}

#[test]
fn start_anchor_matches_at_the_start_of_every_input() {
    for input in ["", "a", "abc", "a\nb", "ééé"] {
        assert_eq!(spans("^", input), Some(vec![Match { start: 0, end: 0 }]));
    }
}

#[test]
fn anchors_take_no_symbol() {
    assert_eq!(spans("^a", "ab"), Some(vec![Match { start: 0, end: 1 }]));
    assert_eq!(spans("b$", "ab"), Some(vec![Match { start: 1, end: 2 }]));
    assert_eq!(spans("^^a$$", "a"), Some(vec![Match { start: 0, end: 1 }]));
}

#[test]
fn a_plain_text_finds_itself_whole() {
    for text in ["a", "abc", "hello world", "aaaa", "abab", "äöü", "a-b_c,d", "x"] {
        let len = text.chars().count();
        assert_eq!(spans(text, text), Some(vec![Match { start: 0, end: len }]));
    }
}

#[test]
fn the_match_starts_as_early_as_it_can() {
    assert_eq!(texts("b+", "abbabbb"), found(&["bb"]));
    assert_eq!(texts("a|ab", "xab"), found(&["a"]));
    assert_eq!(texts("ab|a", "xab"), found(&["ab"]));
    assert_eq!(texts("b|ab", "ab"), found(&["ab"]));
    assert_eq!(texts("a*?", "aaa"), found(&[""]));
    assert_eq!(texts("a+?", "aaa"), found(&["a"]));
    assert_eq!(texts("a{2,3}?", "aaaa"), found(&["aa"]));
    assert_eq!(texts("a{2,3}", "aaaa"), found(&["aaa"]));
}

#[test]
fn every_span_lies_inside_the_match_and_the_input() {
    let cases = [
        ("(a+)(b*)", "xxaabbyy"),
        ("((a)|(b))+", "abab"),
        ("(.*)c(.*)", "abcde"),
        ("(x?)?", "x"),
        ("(a*)*", "aaa"),
        ("a(b|c)*d", "abcd"),
        ("(ä+)", "xäääy"),
    ];
    for (pattern, input) in cases {
        let len = input.chars().count();
        let all = spans(pattern, input).unwrap();
        assert!(!all.is_empty());
        for m in all.iter() {
            assert!(m.start <= m.end && m.end <= len);
            assert!(all[0].start <= m.start && m.end <= all[0].end);
        }
    }
}

#[test]
fn a_star_under_a_star_ends() {
    assert_eq!(texts("(a*)*", "aaa"), found(&["aaa", "aaa"]));
    assert_eq!(texts("(a*)*", "b"), found(&[""]));
    assert_eq!(texts("(a*)+b", "aab"), found(&["aab", "aa"]));
    assert_eq!(texts("(a|b*)*c", "abbac"), found(&["abbac", "a"]));
}

#[test]
fn a_count_without_end_of_what_may_be_empty() {
    assert_eq!(texts("(?:a?){1,}", "b"), found(&[""]));
    assert_eq!(texts("(a*){2,}", "b"), found(&["", ""]));
    assert_eq!(texts("(?:a?){1,}b", "aab"), found(&["aab"]));
    assert_eq!(texts("^(?:a*){500,}$", "aaa"), found(&["aaa"]));
    assert_eq!(texts("(?:a*){3,}?b", "aab"), found(&["aab"]));
}

#[test]
fn a_long_count_of_what_may_be_empty() {
    assert_eq!(texts("(?:a?){5000}", ""), found(&[""]));
    assert_eq!(texts("(?:a?){1500}b", "aab"), found(&["aab"]));
}

#[test]
fn counters_are_not_set_back() {
    assert_eq!(texts("(?:a{2}b)*", "aabaab"), found(&["aab"]));
}

#[test]
fn an_exact_count_may_stop_early() {
    assert_eq!(texts("a{3}", "aab"), found(&["aa"]));
    assert_eq!(texts("^a{3}$", "aa"), found(&["aa"]));
    assert_eq!(texts("^a{3}$", "aaaa"), None);
}

#[test]
fn a_pattern_too_long_for_its_input() {
    assert_eq!(texts("abc", ""), None);
    assert_eq!(texts("abc", "ab"), None);
}
