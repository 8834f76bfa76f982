use pike_regex::parse::{parse, Expression};
use pike_regex::regex::Regex;

#[derive(Clone, Copy, Debug, PartialEq)]
enum TestResult {
    Match,
    NoMatch,
    ParseError,
}

// Tuple parameters:
//      1: pattern
//      2: input
//      3: expected result
//      4: expected match string
//      5: list of expected captures
fn test_cases() -> Vec<(&'static str, &'static str, TestResult, &'static str, Vec<&'static str>)> {
    vec![
        ("[^^]+", "abc", TestResult::Match, "abc", vec![]),
        ("[^^]+", "^", TestResult::NoMatch, "", vec![]),
        ("[^al-obc]+", "kpd", TestResult::Match, "kpd", vec![]),
        ("[^al-obc]+", "abc", TestResult::NoMatch, "", vec![]),
        ("[al-obc]+", "almocb", TestResult::Match, "almocb", vec![]),
        ("[al-obc]+", "defzx", TestResult::NoMatch, "", vec![]),
        ("<TAG\\b[^>]*>(.*?)</TAG>", "one<TAG>two</TAG>three", TestResult::Match, "<TAG>two</TAG>", vec!["two"]),
        ("\\b(25[0-5]|2[0-4][0-9]|[01]?[0-9][0-9]?)\\.(25[0-5]|2[0-4][0-9]|[01]?[0-9][0-9]?)\\.(25[0-5]|2[0-4][0-9]|[01]?[0-9][0-9]?)\\.(25[0-5]|2[0-4][0-9]|[01]?[0-9][0-9]?)\\b", "127.0.0.1", TestResult::Match, "127.0.0.1", vec!["127", "0", "0", "1"]),
        ("\\b(25[0-5]|2[0-4][0-9]|[01]?[0-9][0-9]?)\\.(25[0-5]|2[0-4][0-9]|[01]?[0-9][0-9]?)\\.(25[0-5]|2[0-4][0-9]|[01]?[0-9][0-9]?)\\.(25[0-5]|2[0-4][0-9]|[01]?[0-9][0-9]?)\\b", "127.0.0.999", TestResult::NoMatch, "", vec![]),
        ("^[-+]?[0-9]*\\.?[0-9]+$", "3.14", TestResult::Match, "3.14", vec![]),
        ("^[-+]?[0-9]*\\.?[0-9]+([eE][-+]?[0-9]+)?$", "1.602e-19", TestResult::Match, "1.602e-19", vec!["e-19"]),
        ("\\b[a-zA-Z0-9._%+-]+@(?:[a-zA-Z0-9-]+\\.)+[a-zA-Z]{2,4}\\b", "john@server.department.company.com", TestResult::Match, "john@server.department.company.com", vec![]),
        ("\\b[a-zA-Z0-9._%+-]+@(?:[a-zA-Z0-9-]+\\.)+[a-zA-Z]{2,4}\\b", "john@aol...com", TestResult::NoMatch, "", vec![]),
        ("[a-z0-9!#$%&'*+/=?^_`{|}~-]+(?:\\.[a-z0-9!#$%&'*+/=?^_`{|}~-]+)*@(?:[a-z0-9](?:[a-z0-9-]*[a-z0-9])?\\.)+[a-z0-9](?:[a-z0-9-]*[a-z0-9])?", "john@server.department.company.com", TestResult::Match, "john@server.department.company.com", vec![]),
        ("[a-z0-9!#$%&'*+/=?^_`{|}~-]+(?:\\.[a-z0-9!#$%&'*+/=?^_`{|}~-]+)*@(?:[a-z0-9](?:[a-z0-9-]*[a-z0-9])?\\.)+[a-z0-9](?:[a-z0-9-]*[a-z0-9])?", "john@aol...com", TestResult::NoMatch, "", vec![]),
        ("^((?:19|20)\\d\\d)[- /.](0[1-9]|1[012])[- /.](0[1-9]|[12][0-9]|3[01])$", "1999-01-01", TestResult::Match, "1999-01-01", vec!["1999", "01", "01"]),
        ("^((?:19|20)\\d\\d)[- /.](0[1-9]|1[012])[- /.](0[1-9]|[12][0-9]|3[01])$", "1999/01-01", TestResult::Match, "1999/01-01", vec!["1999", "01", "01"]),
        ("^((?:19|20)\\d\\d)[- /.](0[1-9]|1[012])[- /.](0[1-9]|[12][0-9]|3[01])$", "1999-13-33", TestResult::NoMatch, "", vec![]),
        ("\\bword1\\W+(?:\\w+\\W+){1,6}?word2\\b", "word1 word2", TestResult::NoMatch, "", vec![]),
        ("\\bword1\\W+(?:\\w+\\W+){1,6}?word2\\b", "word1 1 word2", TestResult::Match, "word1 1 word2", vec![]),
        ("\\bword1\\W+(?:\\w+\\W+){1,6}?word2\\b", "word1 1 2 3 4 5 6 word2", TestResult::Match, "word1 1 2 3 4 5 6 word2", vec![]),
        ("\\bword1\\W+(?:\\w+\\W+){1,6}?word2\\b", "word1 1 2 3 4 5 6 7 word", TestResult::NoMatch, "", vec![]),
        (")", "", TestResult::ParseError, "", vec![]),
        ("abc", "abc", TestResult::Match, "abc", vec![]),
        ("abc", "xbc", TestResult::NoMatch, "", vec![]),
        ("abc", "axc", TestResult::NoMatch, "", vec![]),
        ("abc", "abx", TestResult::NoMatch, "", vec![]),
        ("abc", "xabcy", TestResult::Match, "abc", vec![]),
        ("abc", "ababc", TestResult::Match, "abc", vec![]),
        ("ab*c", "abc", TestResult::Match, "abc", vec![]),
        ("ab*bc", "abc", TestResult::Match, "abc", vec![]),
        ("ab*bc", "abbc", TestResult::Match, "abbc", vec![]),
        ("ab*bc", "abbbbc", TestResult::Match, "abbbbc", vec![]),
        ("ab+bc", "abbc", TestResult::Match, "abbc", vec![]),
        ("ab+bc", "abc", TestResult::NoMatch, "", vec![]),
        ("ab+bc", "abq", TestResult::NoMatch, "", vec![]),
        ("ab+bc", "abbbbc", TestResult::Match, "abbbbc", vec![]),
        ("ab?bc", "abbc", TestResult::Match, "abbc", vec![]),
        ("ab?bc", "abc", TestResult::Match, "abc", vec![]),
        ("ab?bc", "abbbbc", TestResult::NoMatch, "", vec![]),
        ("ab?c", "abc", TestResult::Match, "abc", vec![]),
        ("^abc$", "abc", TestResult::Match, "abc", vec![]),
        ("^abc$", "abcc", TestResult::NoMatch, "", vec![]),
        ("^abc", "abcc", TestResult::Match, "abc", vec![]),
        ("^abc$", "aabc", TestResult::NoMatch, "", vec![]),
        ("abc$", "aabc", TestResult::Match, "abc", vec![]),
        ("^", "abc", TestResult::Match, "", vec![]),
        ("$", "abc", TestResult::Match, "", vec![]),
        ("a.c", "abc", TestResult::Match, "abc", vec![]),
        ("a.c", "axc", TestResult::Match, "axc", vec![]),
        ("a.*c", "axyzc", TestResult::Match, "axyzc", vec![]),
        ("a.*c", "axyzd", TestResult::NoMatch, "", vec![]),
        ("a[bc]d", "abc", TestResult::NoMatch, "", vec![]),
        ("a[bc]d", "abd", TestResult::Match, "abd", vec![]),
        ("a[b-d]e", "abd", TestResult::NoMatch, "", vec![]),
        ("a[b-d]e", "ace", TestResult::Match, "ace", vec![]),
        ("a[b-d]", "aac", TestResult::Match, "ac", vec![]),
        ("a[-b]", "a-", TestResult::Match, "a-", vec![]),
        ("a[\\-b]", "a-", TestResult::Match, "a-", vec![]),
        ("a[]b", "-", TestResult::ParseError, "", vec![]),
        ("a[", "-", TestResult::ParseError, "", vec![]),
        ("a\\", "-", TestResult::ParseError, "", vec![]),
        ("abc)", "-", TestResult::ParseError, "", vec![]),
        ("(abc", "-", TestResult::ParseError, "", vec![]),
        ("a]", "a]", TestResult::Match, "a]", vec![]),
        ("a[^bc]d", "aed", TestResult::Match, "aed", vec![]),
        ("a[^bc]d", "abd", TestResult::NoMatch, "", vec![]),
        ("a[^-b]c", "adc", TestResult::Match, "adc", vec![]),
        ("a[^-b]c", "a-c", TestResult::NoMatch, "", vec![]),
        ("\\ba\\b", "a-", TestResult::Match, "a", vec![]),
        ("\\ba\\b", "-a", TestResult::Match, "a", vec![]),
        ("\\ba\\b", "-a-", TestResult::Match, "a", vec![]),
        ("\\by\\b", "xy", TestResult::NoMatch, "", vec![]),
        ("\\by\\b", "yz", TestResult::NoMatch, "", vec![]),
        ("\\by\\b", "xyz", TestResult::NoMatch, "", vec![]),
        ("x\\b", "xyz", TestResult::NoMatch, "", vec![]),
        ("x\\B", "xyz", TestResult::Match, "x", vec![]),
        ("\\Bz", "xyz", TestResult::Match, "z", vec![]),
        ("z\\B", "xyz", TestResult::NoMatch, "", vec![]),
        ("\\Bx", "xyz", TestResult::NoMatch, "", vec![]),
        ("\\Ba\\B", "a-", TestResult::NoMatch, "", vec![]),
        ("\\Ba\\B", "-a", TestResult::NoMatch, "", vec![]),
        ("\\Ba\\B", "-a-", TestResult::NoMatch, "", vec![]),
        ("\\By\\B", "xy", TestResult::NoMatch, "", vec![]),
        ("\\By\\B", "yz", TestResult::NoMatch, "", vec![]),
        ("\\By\\b", "xy", TestResult::Match, "y", vec![]),
        ("\\by\\B", "yz", TestResult::Match, "y", vec![]),
        ("\\By\\B", "xyz", TestResult::Match, "y", vec![]),
        ("ab|cd", "abc", TestResult::Match, "ab", vec![]),
        ("ab|cd", "abcd", TestResult::Match, "ab", vec![]),
        ("$b", "b", TestResult::NoMatch, "", vec![]),
        ("a\\(b", "a(b", TestResult::Match, "a(b", vec![]),
        ("a\\(*b", "ab", TestResult::Match, "ab", vec![]),
        ("a\\(*b", "a((b", TestResult::Match, "a((b", vec![]),
        ("a\\\\b", "a\\b", TestResult::Match, "a\\b", vec![]),
        ("((a))", "abc", TestResult::Match, "a", vec!["a", "a"]),
        ("(a)b(c)", "abc", TestResult::Match, "abc", vec!["a", "c"]),
        ("a+b+c", "aabbabc", TestResult::Match, "abc", vec![]),
        ("(a+|b)*", "ab", TestResult::Match, "ab", vec!["b"]),
        ("(a+|b)+", "ab", TestResult::Match, "ab", vec!["b"]),
        ("(a+|b)?", "ab", TestResult::Match, "a", vec!["a"]),
        (")(", "-", TestResult::ParseError, "", vec![]),
        ("[^ab]*", "cde", TestResult::Match, "cde", vec![]),
        ("abc", "", TestResult::NoMatch, "", vec![]),
        ("a*", "", TestResult::Match, "", vec![]),
        ("a|b|c|d|e", "e", TestResult::Match, "e", vec![]),
        ("(a|b|c|d|e)f", "ef", TestResult::Match, "ef", vec!["e"]),
        ("abcd*efg", "abcdefg", TestResult::Match, "abcdefg", vec![]),
        ("ab*", "xabyabbbz", TestResult::Match, "ab", vec![]),
        ("ab*", "xayabbbz", TestResult::Match, "a", vec![]),
        ("(ab|cd)e", "abcde", TestResult::Match, "cde", vec!["cd"]),
        ("[abhgefdc]ij", "hij", TestResult::Match, "hij", vec![]),
        ("^(ab|cd)e", "abcde", TestResult::NoMatch, "", vec![]),
        ("(a|b)c*d", "abcd", TestResult::Match, "bcd", vec!["b"]),
        ("(ab|ab*)bc", "abc", TestResult::Match, "abc", vec!["a"]),
        ("a([bc]*)c*", "abc", TestResult::Match, "abc", vec!["bc"]),
        ("a([bc]*)(c*d)", "abcd", TestResult::Match, "abcd", vec!["bc", "d"]),
        ("a([bc]+)(c*d)", "abcd", TestResult::Match, "abcd", vec!["bc", "d"]),
        ("a([bc]*)(c+d)", "abcd", TestResult::Match, "abcd", vec!["b", "cd"]),
        ("a[bcd]*dcdcde", "adcdcde", TestResult::Match, "adcdcde", vec![]),
        ("a[bcd]+dcdcde", "adcdcde", TestResult::NoMatch, "", vec![]),
        ("(ab|a)b*c", "abc", TestResult::Match, "abc", vec!["ab"]),
        ("((a)(b)c)(d)", "abcd", TestResult::Match, "abcd", vec!["abc", "a", "b", "d"]),
        ("[a-zA-Z_][a-zA-Z0-9_]*", "alpha", TestResult::Match, "alpha", vec![]),
        ("(bc+d$|ef*g.|h?i(j|k))", "ij", TestResult::Match, "ij", vec!["ij", "j"]),
        ("(bc+d$|ef*g.|h?i(j|k))", "effg", TestResult::NoMatch, "", vec![]),
        ("(bc+d$|ef*g.|h?i(j|k))", "bcdd", TestResult::NoMatch, "", vec![]),
        ("(((((((((a)))))))))", "a", TestResult::Match, "a", vec!["a", "a", "a", "a", "a", "a", "a", "a", "a"]),
        ("multiple words of text", "uh-uh", TestResult::NoMatch, "", vec![]),
        ("multiple words", "multiple words, yeah", TestResult::Match, "multiple words", vec![]),
        ("(.*)c(.*)", "abcde", TestResult::Match, "abcde", vec!["ab", "de"]),
        ("\\((.*), (.*)\\)", "(a, b)", TestResult::Match, "(a, b)", vec!["a", "b"]),
        ("[k]", "ab", TestResult::NoMatch, "", vec![]),
        ("a[-]?c", "ac", TestResult::Match, "ac", vec![]),
        ("^(.+)?B", "AB", TestResult::Match, "AB", vec!["A"]),
        ("(a)+x", "aaax", TestResult::Match, "aaax", vec!["a"]),
        ("([ac])+x", "aacx", TestResult::Match, "aacx", vec!["c"]),
        ("([^/]*/)*sub1/", "d:msgs/tdir/sub1/trial/away.cpp", TestResult::Match, "d:msgs/tdir/sub1/", vec!["tdir/"]),
        ("([^.]*)\\.([^:]*):[T ]+(.*)", "track1.title:TBlah blah blah", TestResult::Match, "track1.title:TBlah blah blah", vec!["track1", "title", "Blah blah blah"]),
        ("([^N]*N)+", "abNNxyzN", TestResult::Match, "abNNxyzN", vec!["xyzN"]),
        ("([^N]*N)+", "abNNxyz", TestResult::Match, "abNN", vec!["N"]),
        ("([abc]*)x", "abcx", TestResult::Match, "abcx", vec!["abc"]),
        ("([abc]*)x", "abc", TestResult::NoMatch, "", vec![]),
        ("([xyz]*)x", "abcx", TestResult::Match, "x", vec![""]),
        ("abc", "abc", TestResult::Match, "abc", vec![]),
        ("abc", "xbc", TestResult::NoMatch, "", vec![]),
        ("abc", "axc", TestResult::NoMatch, "", vec![]),
        ("abc", "abx", TestResult::NoMatch, "", vec![]),
        ("abc", "xabcy", TestResult::Match, "abc", vec![]),
        ("abc", "ababc", TestResult::Match, "abc", vec![]),
        ("ab*c", "abc", TestResult::Match, "abc", vec![]),
        ("ab*bc", "abc", TestResult::Match, "abc", vec![]),
        ("ab*bc", "abbc", TestResult::Match, "abbc", vec![]),
        ("ab*bc", "abbbbc", TestResult::Match, "abbbbc", vec![]),
        ("ab{0,}bc", "abbbbc", TestResult::Match, "abbbbc", vec![]),
        ("ab+bc", "abbc", TestResult::Match, "abbc", vec![]),
        ("ab+bc", "abc", TestResult::NoMatch, "", vec![]),
        ("ab+bc", "abq", TestResult::NoMatch, "", vec![]),
        ("ab{1,}bc", "abq", TestResult::NoMatch, "", vec![]),
        ("ab+bc", "abbbbc", TestResult::Match, "abbbbc", vec![]),
        ("ab{1,}bc", "abbbbc", TestResult::Match, "abbbbc", vec![]),
        ("ab{1,3}bc", "abbbbc", TestResult::Match, "abbbbc", vec![]),
        ("ab{3,4}bc", "abbbbc", TestResult::Match, "abbbbc", vec![]),
        ("ab{4,5}bc", "abbbbc", TestResult::NoMatch, "abbbbc", vec![]),
        ("ab?bc", "abbc", TestResult::Match, "abbc", vec![]),
        ("ab?bc", "abc", TestResult::Match, "abc", vec![]),
        ("ab{0,1}bc", "abc", TestResult::Match, "abc", vec![]),
        ("ab?bc", "abbbbc", TestResult::NoMatch, "", vec![]),
        ("ab?c", "abc", TestResult::Match, "abc", vec![]),
        ("ab{0,1}c", "abc", TestResult::Match, "abc", vec![]),
        ("^abc$", "abc", TestResult::Match, "abc", vec![]),
        ("^abc$", "abcc", TestResult::NoMatch, "", vec![]),
        ("^abc", "abcc", TestResult::Match, "abc", vec![]),
        ("^abc$", "aabc", TestResult::NoMatch, "", vec![]),
        ("abc$", "aabc", TestResult::Match, "abc", vec![]),
        ("^", "abc", TestResult::Match, "", vec![]),
        ("$", "abc", TestResult::Match, "", vec![]),
        ("a.c", "abc", TestResult::Match, "abc", vec![]),
        ("a.c", "axc", TestResult::Match, "axc", vec![]),
        ("a.*c", "axyzc", TestResult::Match, "axyzc", vec![]),
        ("a.*c", "axyzd", TestResult::NoMatch, "", vec![]),
        ("a[bc]d", "abc", TestResult::NoMatch, "", vec![]),
        ("a[bc]d", "abd", TestResult::Match, "abd", vec![]),
        ("a[b-d]e", "abd", TestResult::NoMatch, "", vec![]),
        ("a[b-d]e", "ace", TestResult::Match, "ace", vec![]),
        ("a[b-d]", "aac", TestResult::Match, "ac", vec![]),
        ("a[-b]", "a-", TestResult::Match, "a-", vec![]),
        ("a[b-]", "a-", TestResult::Match, "a-", vec![]),
        ("a[b-a]", "-", TestResult::ParseError, "", vec![]),
        ("a[]b", "-", TestResult::ParseError, "", vec![]),
        ("a[", "-", TestResult::ParseError, "", vec![]),
        ("a]", "a]", TestResult::Match, "a]", vec![]),
        ("a[^bc]d", "aed", TestResult::Match, "aed", vec![]),
        ("a[^bc]d", "abd", TestResult::NoMatch, "", vec![]),
        ("a[^-b]c", "adc", TestResult::Match, "adc", vec![]),
        ("a[^-b]c", "a-c", TestResult::NoMatch, "", vec![]),
        ("ab|cd", "abc", TestResult::Match, "ab", vec![]),
        ("ab|cd", "abcd", TestResult::Match, "ab", vec![]),
        ("*a", "-", TestResult::ParseError, "", vec![]),
        ("(*)b", "-", TestResult::ParseError, "", vec![]),
        ("$b", "b", TestResult::NoMatch, "", vec![]),
        ("a\\", "-", TestResult::ParseError, "", vec![]),
        ("a\\(b", "a(b", TestResult::Match, "a(b", vec![]),
        ("a\\(*b", "ab", TestResult::Match, "ab", vec![]),
        ("a\\(*b", "a((b", TestResult::Match, "a((b", vec![]),
        ("a\\\\b", "a\\b", TestResult::Match, "a\\b", vec![]),
        ("abc)", "-", TestResult::ParseError, "", vec![]),
        ("(abc", "-", TestResult::ParseError, "", vec![]),
        ("((a))", "abc", TestResult::Match, "a", vec!["a", "a"]),
        ("(a)b(c)", "abc", TestResult::Match, "abc", vec!["a", "c"]),
        ("a+b+c", "aabbabc", TestResult::Match, "abc", vec![]),
        ("a{1,}b{1,}c", "aabbabc", TestResult::Match, "abc", vec![]),
        ("a**", "-", TestResult::ParseError, "", vec![]),
        ("a.+?c", "abcabc", TestResult::Match, "abc", vec![]),
        ("(a+|b)*", "ab", TestResult::Match, "ab", vec!["b"]),
        ("(a+|b){0,}", "ab", TestResult::Match, "ab", vec!["b"]),
        ("(a+|b)+", "ab", TestResult::Match, "ab", vec!["b"]),
        ("(a+|b){1,}", "ab", TestResult::Match, "ab", vec!["b"]),
        ("(a+|b)?", "ab", TestResult::Match, "a", vec!["a"]),
        ("(a+|b){0,1}", "ab", TestResult::Match, "a", vec!["a"]),
        (")(", "-", TestResult::ParseError, "", vec![]),
        ("[^ab]*", "cde", TestResult::Match, "cde", vec![]),
        ("abc", "", TestResult::NoMatch, "", vec![]),
        ("a*", "", TestResult::Match, "", vec![]),
        ("([abc])*d", "abbbcd", TestResult::Match, "abbbcd", vec!["c"]),
        ("([abc])*bcd", "abcd", TestResult::Match, "abcd", vec!["a"]),
        ("a|b|c|d|e", "e", TestResult::Match, "e", vec![]),
        ("(a|b|c|d|e)f", "ef", TestResult::Match, "ef", vec!["e"]),
        ("abcd*efg", "abcdefg", TestResult::Match, "abcdefg", vec![]),
        ("ab*", "xabyabbbz", TestResult::Match, "ab", vec![]),
        ("ab*", "xayabbbz", TestResult::Match, "a", vec![]),
        ("(ab|cd)e", "abcde", TestResult::Match, "cde", vec!["cd"]),
        ("[abhgefdc]ij", "hij", TestResult::Match, "hij", vec![]),
        ("^(ab|cd)e", "abcde", TestResult::NoMatch, "", vec![]),
        ("(a|b)c*d", "abcd", TestResult::Match, "bcd", vec!["b"]),
        ("(ab|ab*)bc", "abc", TestResult::Match, "abc", vec!["a"]),
        ("a([bc]*)c*", "abc", TestResult::Match, "abc", vec!["bc"]),
        ("a([bc]*)(c*d)", "abcd", TestResult::Match, "abcd", vec!["bc", "d"]),
        ("a([bc]+)(c*d)", "abcd", TestResult::Match, "abcd", vec!["bc", "d"]),
        ("a([bc]*)(c+d)", "abcd", TestResult::Match, "abcd", vec!["b", "cd"]),
        ("a[bcd]*dcdcde", "adcdcde", TestResult::Match, "adcdcde", vec![]),
        ("a[bcd]+dcdcde", "adcdcde", TestResult::NoMatch, "", vec![]),
        ("(ab|a)b*c", "abc", TestResult::Match, "abc", vec!["ab"]),
        ("((a)(b)c)(d)", "abcd", TestResult::Match, "abcd", vec!["abc", "a", "b", "d"]),
        ("[a-zA-Z_][a-zA-Z0-9_]*", "alpha", TestResult::Match, "alpha", vec![]),
        ("(bc+d$|ef*g.|h?i(j|k))", "ij", TestResult::Match, "ij", vec!["ij", "j"]),
        ("(bc+d$|ef*g.|h?i(j|k))", "effg", TestResult::NoMatch, "", vec![]),
        ("(bc+d$|ef*g.|h?i(j|k))", "bcdd", TestResult::NoMatch, "", vec![]),
        ("(((((((((a)))))))))", "a", TestResult::Match, "a", vec!["a", "a", "a", "a", "a", "a", "a", "a", "a"]),
        ("multiple words of text", "uh-uh", TestResult::NoMatch, "", vec![]),
        ("multiple words", "multiple words, yeah", TestResult::Match, "multiple words", vec![]),
        ("(.*)c(.*)", "abcde", TestResult::Match, "abcde", vec!["ab", "de"]),
        ("\\((.*), (.*)\\)", "(a, b)", TestResult::Match, "(a, b)", vec!["a", "b"]),
        ("[k]", "ab", TestResult::NoMatch, "", vec![]),
        ("a[-]?c", "ac", TestResult::Match, "ac", vec![]),
        ("a(?:b|c|d)(.)", "ace", TestResult::Match, "ace", vec!["e"]),
        ("a(?:b|c|d)*(.)", "ace", TestResult::Match, "ace", vec!["e"]),
        ("a(?:b|c|d)+?(.)", "ace", TestResult::Match, "ace", vec!["e"]),
        ("^(.+)?B", "AB", TestResult::Match, "AB", vec!["A"]),
        ("\\w+", "--ab_cd0123--", TestResult::Match, "ab_cd0123", vec![]),
        ("[\\w]+", "--ab_cd0123--", TestResult::Match, "ab_cd0123", vec![]),
        ("\\D+", "1234abc5678", TestResult::Match, "abc", vec![]),
        ("[\\D]+", "1234abc5678", TestResult::Match, "abc", vec![]),
        ("[\\da-fA-F]+", "123abc", TestResult::Match, "123abc", vec![]),
        (r"((.)\1+)", "", TestResult::ParseError, "", vec![]),
        (r"(", "", TestResult::ParseError, "", vec![]),
        (r"(x?)?", "x", TestResult::Match, "x", vec!["x"]),
        (r".*?\S *:", "xx:", TestResult::Match, "xx:", vec![]),
        (r"a[ ]*?\ (\d+).*", "a   10", TestResult::Match, "a   10", vec!["10"]),
        (r"a[ ]*?\ (\d+).*", "a    10", TestResult::Match, "a    10", vec!["10"]),
        (r"a[^>]*?b", "a>b", TestResult::NoMatch, "", vec![]),
        (r"^a*?$", "foo", TestResult::NoMatch, "", vec![]),
    ]
}

fn slice_chars(input: &str, start: usize, end: usize) -> String {
    input.chars().skip(start).take(end - start).collect()
}

// One case of the table. `Err` stands for a failure of the case: a parse
// error, or an outcome other than the expected one.
fn run_case(
    pattern: &str,
    input: &str,
    result: TestResult,
    expected_match: &str,
    expected_captures: &[&str],
) -> Result<(), String> {
    let re = match Regex::new(pattern) {
        Ok(re) => re,
        Err(error) => return Err(format!("Parse error: {}", error.message())),
    };
    match re.partial_match(input) {
        Some(matches) => {
            let m = matches[0];
            let captures = &matches[1..];
            let actual_match = slice_chars(input, m.start, m.end);

            match result {
                TestResult::Match => {
                    let mut match_error = false;
                    if actual_match != expected_match {
                        println!("Expected match \"{}\". Got \"{}\"", expected_match, actual_match);
                        match_error = true;
                    }

                    if captures.len() != expected_captures.len() {
                        println!(
                            "Expected {} captures. Got {}",
                            expected_captures.len(),
                            captures.len()
                        );
                        match_error = true;
                    } else {
                        for (i, m) in captures.iter().enumerate() {
                            let capture = slice_chars(input, m.start, m.end);
                            if capture != expected_captures[i] {
                                println!(
                                    "Expected capture {} to be \"{}\". Got \"{}\"",
                                    i, expected_captures[i], capture
                                );
                                match_error = true;
                            }
                        }
                    }
                    if match_error {
                        return Err(format!("Match failed."));
                    }
                    Ok(())
                }
                TestResult::NoMatch => {
                    Err(format!("Expected NO match. Got match: {}", actual_match))
                }
                TestResult::ParseError => Err(format!("Expected parse error. Got match.")),
            }
        }
        None => match result {
            TestResult::Match => Err(format!("Expected match. Got nothing.")),
            TestResult::NoMatch => Ok(()),
            TestResult::ParseError => Err(format!("Expected parse error. Got no match.")),
        },
    }
}

#[test]
fn test_all_the_things() {
    let cases = test_cases();
    let mut errors = 0;
    for (pattern, input, result, expected_match, expected_captures) in cases.iter() {
        let task_result = run_case(pattern, input, *result, expected_match, expected_captures);
        match task_result {
            Ok(_) => (),
            Err(_) => match result {
                TestResult::Match | TestResult::NoMatch => {
                    println!("\tFAIL: Test pattern \"{}\" on \"{}\" failed.\n", pattern, input);
                    errors += 1;
                }
                TestResult::ParseError => {
                    // A parse error cannot be told from another failure of the case.
                }
            },
        }
    }
    if errors > 0 {
        panic!("{} tests FAILED. {} passed.", errors, cases.len() - errors);
    }

    println!("{} tests PASSED", cases.len());
}

#[test]
fn parse_error_cases_of_the_table() {
    let mut accepted = Vec::new();
    for (pattern, _, result, _, _) in test_cases().iter() {
        if *result == TestResult::ParseError && Regex::new(pattern).is_ok() {
            accepted.push(*pattern);
        }
    }
    println!("{:?}", accepted);
    assert_eq!(accepted, vec![r"((.)\1+)"]);
}

// The capture indices of a tree in the order in which its groups open, and
// whether every range of the tree runs from a code point to one that is not
// smaller.
fn survey(tree: &Expression, groups: &mut Vec<usize>, ordered: &mut bool) {
    match tree {
        Expression::RangeLiteral(lo, hi) => *ordered &= lo <= hi,
        Expression::CharacterClass(ranges) => {
            *ordered &= !ranges.is_empty() && ranges.iter().all(|r| r.0 <= r.1)
        }
        Expression::Concatenate(l, r) | Expression::Alternate(l, r) => {
            survey(l, groups, ordered);
            survey(r, groups, ordered);
        }
        Expression::SubExpression(e, slot) => {
            if let Some(index) = slot {
                groups.push(*index);
            }
            survey(e, groups, ordered);
        }
        Expression::Question(e, _)
        | Expression::Star(e, _)
        | Expression::Plus(e, _)
        | Expression::ExactRepetition(e, _, _)
        | Expression::UnboundedRepetition(e, _, _)
        | Expression::BoundedRepetition(e, _, _, _) => survey(e, groups, ordered),
        _ => (),
    }
}

#[test]
fn the_trees_of_the_table_are_in_shape() {
    let mut parsed = 0;
    for (pattern, _, _, _, _) in test_cases().iter() {
        if let Ok(tree) = parse(pattern) {
            let mut groups = Vec::new();
            let mut ordered = true;
            survey(&tree, &mut groups, &mut ordered);
            assert!(ordered, "{}", pattern);
            let expected: Vec<usize> = (1..=groups.len()).collect();
            assert_eq!(groups, expected, "{}", pattern);
            parsed += 1;
        }
    }
    assert!(parsed > 200);
}

#[test]
fn every_span_of_the_table_lies_inside_its_match() {
    for (pattern, input, _, _, _) in test_cases().iter() {
        if let Ok(re) = Regex::new(pattern) {
            if let Some(spans) = re.partial_match(input) {
                let len = input.chars().count();
                assert!(!spans.is_empty());
                for m in spans.iter() {
                    assert!(m.start <= m.end && m.end <= len, "{}", pattern);
                    assert!(spans[0].start <= m.start && m.end <= spans[0].end, "{}", pattern);
                }
            }
        }
    }
}
