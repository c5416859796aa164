use nfa_grep::grep::Grep;
use nfa_grep::parser::ParseError;

fn test_grep(pattern: &str, input: &str, expected: bool) {
    let grep = Grep {
        pattern: pattern.to_string(),
        input: input.to_string(),
    };
    assert_eq!(
        grep.is_match(),
        Ok(expected),
        "pattern: {}, input: {}",
        pattern,
        input
    );
}

fn test_rejected(pattern: &str, expected: ParseError) {
    let grep = Grep {
        pattern: pattern.to_string(),
        input: "anything".to_string(),
    };
    assert_eq!(grep.is_match(), Err(expected), "pattern: {}", pattern);
}

#[test]
fn grep_literal_pattern() {
    test_grep("abc", "abc", true);
    test_grep("abc", "abcd", true);
    test_grep("abc", "ab", false);
    test_grep("abc", "abce", true);
    test_grep("abc", "uvwxyzabde", false);
}

#[test]
fn grep_digit_pattern() {
    test_grep(r"\d", "1", true);
    test_grep(r"\d", "a", false);
    test_grep(r"\d", " ", false);
}

#[test]
fn grep_sample_pattern() {
    test_grep(r"\d", "apple123", true);
    test_grep(r"\w", "alpha-num3ric", true);
    test_grep("[abc]", "apple", true);
    test_grep("[^abc]", "apple", true);
    test_grep(r"\d apple", "1 apple", true);
    test_grep(r"\d apple", "x apple", false);
    test_grep("^log", "log", true);
    test_grep("^log", "1log", false);
    test_grep("dog$", "dog", true);
    test_grep("dog$", "dog1", false);
    test_grep("^dog$", "dog", true);
    test_grep("ca+ts", "caaaats", true);
}

#[test]
fn one_or_more_needs_one() {
    test_grep("ca+ts", "caaaats", true);
    test_grep("ca+ts", "cats", true);
    test_grep("ca+ts", "cts", false);
}

#[test]
fn alternation_in_a_group() {
    test_grep("(cat|dog)", "a cat here", true);
    test_grep("(cat|dog)", "a dog here", true);
    test_grep("(cat|dog)", "a bird here", false);
}

#[test]
fn word_and_space_classes() {
    test_grep(r"\w", "-+_", true);
    test_grep(r"\w", "-+=", false);
    test_grep(r"\s", "a\tb", true);
    test_grep(r"\s", "ab", false);
    test_grep(r"a\Sb", "a b", false);
    test_grep(r"a\Sb", "axb", true);
    test_grep(r"a\Db", "a1b", false);
    test_grep(r"a\Wb", "a-b", true);
    test_grep(r"a\Wb", "a_b", false);
}

#[test]
fn anchors_tie_the_match_to_the_ends() {
    test_grep("^abc", "abcd", true);
    test_grep("^abc", "xabc", false);
    test_grep("abc$", "xabc", true);
    test_grep("abc$", "abcx", false);
    test_grep("^abc$", "abc", true);
    test_grep("^abc$", "abcabc", false);
    test_grep("^$", "", true);
    test_grep("^$", "a", false);
    test_grep("^", "", true);
    test_grep("$", "anything", true);
}

#[test]
fn trailing_newline_belongs_to_the_line() {
    test_grep("dog$", "dog\n", false);
    test_grep("dog\\s$", "dog\n", true);
}

#[test]
fn optional_matches_the_empty_line() {
    test_grep("a?", "", true);
    test_grep("a?", "bbb", true);
    test_grep("(ab)?", "", true);
    test_grep("^a?$", "", true);
    test_grep("^a?$", "a", true);
    test_grep("^a?$", "b", false);
    test_grep("^ca?t$", "ct", true);
    test_grep("^ca?t$", "cat", true);
}

#[test]
fn star_matches_the_empty_line_and_plus_does_not() {
    test_grep("a*", "", true);
    test_grep("(ab)*", "", true);
    test_grep("a+", "", false);
    test_grep("(ab)+", "", false);
    test_grep("^a*$", "", true);
    test_grep("^a*$", "aaa", true);
    test_grep("^a*$", "aba", false);
    test_grep("^(ab)*$", "abab", true);
    test_grep("^(ab)*$", "aba", false);
    test_grep("^(a|b)*$", "abba", true);
    test_grep("^(a|b)*$", "abca", false);
}

#[test]
fn plus_over_a_pattern_that_may_take_a_marker() {
    test_grep("(a.)+", "", false);
    test_grep("(a.)+", "a", true);
    test_grep("(.a)+", "", false);
    test_grep(".+", "", true);
}

#[test]
fn anchored_pattern_that_may_take_a_marker() {
    test_grep("^.", "a", true);
    test_grep("^a.", "ab", true);
    test_grep("^a.", "a", true);
    test_grep(".$", "a", true);
}

#[test]
fn sequences_split_the_line() {
    test_grep("^a*b+$", "b", true);
    test_grep("^a*b+$", "aabbb", true);
    test_grep("^a*b+$", "aa", false);
    test_grep("^a*b+$", "ba", false);
}

#[test]
fn the_dot_consumes_the_marker() {
    test_grep("", "", true);
    test_grep(".", "", true);
    test_grep(".+", "", true);
    test_grep("^.", "", true);
    test_grep("^\\D", "", true);
    test_grep("[^a]", "a", true);
    test_grep("a.", "a", true);
    test_grep("...", "", false);
}

#[test]
fn a_bar_outside_a_group_matches_either_side() {
    test_grep("a|b", "a", true);
    test_grep("a|b", "b", true);
    test_grep("a|b", "c", false);
    test_grep("^a|b", "a", true);
    test_grep("a|b$", "a", true);
    test_grep("^a|b$", "a", true);
    test_grep("^a|b$", "b", true);
    test_grep("^a|b$", "ab", false);
    test_grep("^a|b$", "", false);
    test_grep("^a|bc$", "ac", true);
    test_grep("^a|bc$", "bc", true);
    test_grep("^a|bc$", "a", false);
    test_grep("^(cat)|(dog)$", "dog", true);
}

#[test]
fn malformed_patterns_are_errors() {
    test_rejected("[abc", ParseError::UnclosedClass);
    test_rejected("(abc", ParseError::UnclosedGroup);
    test_rejected("abc\\", ParseError::DanglingEscape);
    test_rejected("*abc", ParseError::MissingOperand);
    test_rejected("abc|", ParseError::MissingOperand);
}

#[test]
fn a_marker_in_the_line_looks_like_an_end() {
    test_grep("^a", "x\x01a", true);
    test_grep("x$", "x\x01a", true);
    test_grep("^a", "xa", false);
    test_grep("x$", "xa", false);
}

#[test]
fn classes_know_no_ranges() {
    test_grep("^[a-c]$", "b", false);
    test_grep("^[a-c]$", "-", true);
    test_grep("^[a-c]$", "c", true);
}

#[test]
fn nested_quantifiers_repeat() {
    test_grep("^(ab)+$", "ababab", true);
    test_grep("^(ab)+$", "", false);
    test_grep("^(a|b)+c$", "abbac", true);
    test_grep("^(a|b)+c$", "c", false);
    test_grep("^x(\\d\\d)*y$", "x1234y", true);
    test_grep("^x(\\d\\d)*y$", "x123y", false);
}
