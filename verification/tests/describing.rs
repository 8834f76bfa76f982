use pike_regex::compile::{compile, Instruction};
use pike_regex::debug::{
    append_number, print_code, print_expression_tree, quantifier_type_to_str,
};
use pike_regex::parse::{parse, Expression, QuantifierType};

fn tree_of(pattern: &str) -> String {
    print_expression_tree(&parse(pattern).unwrap())
        .iter()
        .collect()
}

fn listing_of(pattern: &str) -> String {
    print_code(&compile(&parse(pattern).unwrap()))
        .iter()
        .collect()
}

fn numeral(n: usize) -> String {
    let mut out = Vec::new();
    append_number(&mut out, n);
    out.iter().collect()
}

#[test]
fn numerals() {
    assert_eq!(numeral(0), "0");
    assert_eq!(numeral(7), "7");
    assert_eq!(numeral(10), "10");
    assert_eq!(numeral(1234567890), "1234567890");
    assert_eq!(numeral(usize::MAX), usize::MAX.to_string());
}

#[test]
fn quantifier_names() {
    assert_eq!(quantifier_type_to_str(QuantifierType::Greedy), "Greedy");
    assert_eq!(quantifier_type_to_str(QuantifierType::NonGreedy), "NonGreedy");
}

#[test]
fn leaves() {
    assert_eq!(tree_of("a"), "Literal(a)\n");
    assert_eq!(tree_of("."), "Any\n");
    assert_eq!(tree_of("^"), "AssertStart\n");
    assert_eq!(tree_of("$"), "AssertEnd\n");
    assert_eq!(tree_of("\\b"), "AssertWordBoundary\n");
    assert_eq!(tree_of("\\B"), "AssertNonWordBoundary\n");
    let range: String = print_expression_tree(&Expression::RangeLiteral('a', 'f'))
        .iter()
        .collect();
    assert_eq!(range, "Range(a, f)\n");
}

#[test]
fn nested_trees_are_indented() {
    assert_eq!(
        tree_of("a(b|c)*"),
        "Concatenate\n  Literal(a)\n  Star Greedy\n    Group 1\n      Alternate\n        Literal(b)\n        Literal(c)\n"
    );
    assert_eq!(
        tree_of("(?:a)+?"),
        "Plus NonGreedy\n  Non-capture Group\n    Literal(a)\n"
    );
    assert_eq!(tree_of("a?"), "Question Greedy\n  Literal(a)\n");
}

#[test]
fn brace_quantifiers_show_their_bounds() {
    assert_eq!(tree_of("a{3}"), "ExactRepetition 3 Greedy\n  Literal(a)\n");
    assert_eq!(
        tree_of("a{2,}?"),
        "Unboundedrepetition 2- NonGreedy\n  Literal(a)\n"
    );
    assert_eq!(
        tree_of("a{2,15}"),
        "BoundedRepetition 2-15 Greedy\n  Literal(a)\n"
    );
}

#[test]
fn classes_list_their_ranges() {
    assert_eq!(
        tree_of("[a-cx]"),
        "CharacterClass\n  [97, 99] <a, c>\n  [120, 120] <x, x>\n"
    );
    assert_eq!(
        tree_of("x[0-9]"),
        "Concatenate\n  Literal(x)\n  CharacterClass\n    [48, 57] <0, 9>\n"
    );
}

#[test]
fn listing() {
    assert_eq!(
        listing_of("a|b"),
        "0 FRK 1 3\n1 CHR a\n2 JMP 4\n3 CHR b\n4 ACC\n"
    );
    assert_eq!(
        listing_of("^(a){2,3}$"),
        "0 AS^\n1 JEQ 0 3 9\n2 JLE 0 2 4\n3 FRK 4 9\n4 SVS 1\n5 CHR a\n6 SVE 1\n7 INC 0\n8 JMP 1\n9 AS$\n10 ACC\n"
    );
    assert_eq!(listing_of("[a-c]."), "0 RNG a c\n1 ANY\n2 ACC\n");
    assert_eq!(listing_of("\\b\\B"), "0 ASb\n1 ASB\n2 ACC\n");
    assert_eq!(listing_of("a{2}"), "0 JEQ 0 2 5\n1 FRK 2 5\n2 CHR a\n3 INC 0\n4 JMP 0\n5 ACC\n");
    let empty: String = print_code(&[]).iter().collect();
    assert_eq!(empty, "");
    let lone: String = print_code(&[Instruction::Jump(12)]).iter().collect();
    assert_eq!(lone, "0 JMP 12\n");
}
