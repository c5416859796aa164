use nfa_grep::parser::{chars_of, ParseError, PatternParser};
use nfa_grep::pattern::Pattern;

fn parse(text: &str) -> Result<Pattern, ParseError> {
    let chars: Vec<char> = text.chars().collect();
    PatternParser::new(&chars).parse()
}

fn lit(c: char) -> Pattern {
    Pattern::Literal(c)
}

fn boxed(p: Pattern) -> Box<Pattern> {
    Box::new(p)
}

const WORD: &str = "abcdefghijklmnopqrstuvwxyzABCDEFGHIJKLMNOPQRSTUVWXYZ0123456789_";

#[test]
fn chars_of_keeps_every_character_in_order() {
    assert_eq!(chars_of(""), Vec::<char>::new());
    assert_eq!(chars_of("a\\d"), vec!['a', '\\', 'd']);
    assert_eq!(chars_of("é√"), vec!['é', '√']);
}

#[test]
fn empty_pattern_is_any_char() {
    assert_eq!(parse(""), Ok(Pattern::AnyChar));
}

#[test]
fn single_token_is_returned_bare() {
    assert_eq!(parse("a"), Ok(lit('a')));
    assert_eq!(parse("."), Ok(Pattern::AnyChar));
    assert_eq!(parse("^"), Ok(Pattern::Start));
    assert_eq!(parse("$"), Ok(Pattern::End));
}

#[test]
fn several_tokens_make_a_sequence() {
    assert_eq!(
        parse("abc"),
        Ok(Pattern::Sequence(vec![lit('a'), lit('b'), lit('c')]))
    );
    assert_eq!(
        parse("^a.$"),
        Ok(Pattern::Sequence(vec![
            Pattern::Start,
            lit('a'),
            Pattern::AnyChar,
            Pattern::End
        ]))
    );
}

#[test]
fn escapes_give_classes_or_literals() {
    assert_eq!(parse("\\d"), Ok(Pattern::AnyDigit));
    assert_eq!(parse("\\w"), Ok(Pattern::AnyCharIn(WORD.chars().collect())));
    assert_eq!(
        parse("\\s"),
        Ok(Pattern::AnyCharIn(vec![' ', '\t', '\r', '\n']))
    );
    assert_eq!(
        parse("\\D"),
        Ok(Pattern::AnyCharNotIn("0123456789".chars().collect()))
    );
    assert_eq!(
        parse("\\W"),
        Ok(Pattern::AnyCharNotIn(WORD.chars().collect()))
    );
    assert_eq!(
        parse("\\S"),
        Ok(Pattern::AnyCharNotIn(vec![' ', '\t', '\r', '\n']))
    );
    assert_eq!(parse("\\."), Ok(lit('.')));
    assert_eq!(parse("\\\\"), Ok(lit('\\')));
    assert_eq!(parse("\\("), Ok(lit('(')));
}

#[test]
fn classes_hold_their_members_without_ranges() {
    assert_eq!(parse("[abc]"), Ok(Pattern::AnyCharIn(vec!['a', 'b', 'c'])));
    assert_eq!(
        parse("[^abc]"),
        Ok(Pattern::AnyCharNotIn(vec!['a', 'b', 'c']))
    );
    assert_eq!(parse("[a-z]"), Ok(Pattern::AnyCharIn(vec!['a', '-', 'z'])));
    assert_eq!(parse("[aa]"), Ok(Pattern::AnyCharIn(vec!['a', 'a'])));
    assert_eq!(parse("[]"), Ok(Pattern::AnyCharIn(vec![])));
    assert_eq!(parse("[^]"), Ok(Pattern::AnyCharNotIn(vec![])));
    assert_eq!(parse("[\\d(]"), Ok(Pattern::AnyCharIn(vec!['\\', 'd', '('])));
    assert_eq!(
        parse("[a]b"),
        Ok(Pattern::Sequence(vec![
            Pattern::AnyCharIn(vec!['a']),
            lit('b')
        ]))
    );
}

#[test]
fn quantifiers_wrap_the_preceding_sibling() {
    assert_eq!(parse("a*"), Ok(Pattern::KleeneStar(boxed(lit('a')))));
    assert_eq!(parse("a+"), Ok(Pattern::OneOrMore(boxed(lit('a')))));
    assert_eq!(
        parse("a?"),
        Ok(Pattern::Or(
            boxed(Pattern::Sequence(vec![])),
            boxed(Pattern::OneOrMore(boxed(lit('a'))))
        ))
    );
    assert_eq!(
        parse("ca+ts"),
        Ok(Pattern::Sequence(vec![
            lit('c'),
            Pattern::OneOrMore(boxed(lit('a'))),
            lit('t'),
            lit('s')
        ]))
    );
    assert_eq!(
        parse("a**"),
        Ok(Pattern::KleeneStar(boxed(Pattern::KleeneStar(boxed(lit(
            'a'
        ))))))
    );
}

#[test]
fn groups_are_parsed_on_their_own() {
    assert_eq!(
        parse("(ab)"),
        Ok(Pattern::Sequence(vec![lit('a'), lit('b')]))
    );
    assert_eq!(parse("(a)"), Ok(lit('a')));
    assert_eq!(parse("()"), Ok(Pattern::AnyChar));
    assert_eq!(
        parse("(ab)*"),
        Ok(Pattern::KleeneStar(boxed(Pattern::Sequence(vec![
            lit('a'),
            lit('b')
        ]))))
    );
    assert_eq!(
        parse("x(ab)y"),
        Ok(Pattern::Sequence(vec![
            lit('x'),
            Pattern::Sequence(vec![lit('a'), lit('b')]),
            lit('y')
        ]))
    );
}

#[test]
fn a_bar_inside_a_group_makes_an_alternation() {
    assert_eq!(
        parse("(cat|dog)"),
        Ok(Pattern::Or(
            boxed(Pattern::Sequence(vec![lit('c'), lit('a'), lit('t')])),
            boxed(Pattern::Sequence(vec![lit('d'), lit('o'), lit('g')]))
        ))
    );
    assert_eq!(
        parse("(|a)"),
        Ok(Pattern::Or(boxed(Pattern::AnyChar), boxed(lit('a'))))
    );
    assert_eq!(
        parse("(a|)"),
        Ok(Pattern::Or(boxed(lit('a')), boxed(Pattern::AnyChar)))
    );
}

#[test]
fn a_bar_after_the_group_is_not_part_of_it() {
    assert_eq!(
        parse("(a)|b"),
        Ok(Pattern::Or(boxed(lit('a')), boxed(lit('b'))))
    );
    assert_eq!(
        parse("(ab)|(cd)"),
        Ok(Pattern::Or(
            boxed(Pattern::Sequence(vec![lit('a'), lit('b')])),
            boxed(Pattern::Sequence(vec![lit('c'), lit('d')]))
        ))
    );
}

#[test]
fn a_group_ends_at_the_first_closing_paren() {
    assert_eq!(parse("((a)b)"), Err(ParseError::UnclosedGroup));
    assert_eq!(
        parse("(a))"),
        Ok(Pattern::Sequence(vec![lit('a'), lit(')')]))
    );
}

#[test]
fn a_bar_outside_a_group_takes_the_next_token() {
    assert_eq!(
        parse("a|b"),
        Ok(Pattern::Or(boxed(lit('a')), boxed(lit('b'))))
    );
    assert_eq!(
        parse("a|\\d"),
        Ok(Pattern::Or(boxed(lit('a')), boxed(Pattern::AnyDigit)))
    );
    assert_eq!(
        parse("a|[xy]"),
        Ok(Pattern::Or(
            boxed(lit('a')),
            boxed(Pattern::AnyCharIn(vec!['x', 'y']))
        ))
    );
    assert_eq!(
        parse("^a|bc$"),
        Ok(Pattern::Sequence(vec![
            Pattern::Start,
            Pattern::Or(boxed(lit('a')), boxed(lit('b'))),
            lit('c'),
            Pattern::End
        ]))
    );
}

#[test]
fn a_quantifier_after_a_bar_wraps_the_alternation() {
    assert_eq!(
        parse("a|b*"),
        Ok(Pattern::KleeneStar(boxed(Pattern::Or(
            boxed(lit('a')),
            boxed(lit('b'))
        ))))
    );
}

#[test]
fn bars_in_a_row_group_to_the_left() {
    assert_eq!(
        parse("a|b|c"),
        Ok(Pattern::Or(
            boxed(Pattern::Or(boxed(lit('a')), boxed(lit('b')))),
            boxed(lit('c'))
        ))
    );
}

#[test]
fn next_pattern_consumes_the_operand_of_a_bar() {
    let chars: Vec<char> = "a|b".chars().collect();
    let mut parser = PatternParser::new(&chars);
    parser.index = 1;
    parser.patterns.push(lit('a'));
    assert_eq!(
        parser.next_pattern(),
        Ok(Some(Pattern::Or(boxed(lit('a')), boxed(lit('b')))))
    );
    assert_eq!(parser.patterns.len(), 0);
    assert_eq!(parser.index, 3);
    assert_eq!(parser.next_pattern(), Ok(None));
}

#[test]
fn unclosed_class_is_rejected() {
    assert_eq!(parse("[abc"), Err(ParseError::UnclosedClass));
    assert_eq!(parse("["), Err(ParseError::UnclosedClass));
    assert_eq!(parse("[^"), Err(ParseError::UnclosedClass));
    assert_eq!(parse("a[^b"), Err(ParseError::UnclosedClass));
}

#[test]
fn unclosed_group_is_rejected() {
    assert_eq!(parse("(ab"), Err(ParseError::UnclosedGroup));
    assert_eq!(parse("("), Err(ParseError::UnclosedGroup));
    assert_eq!(parse("a(b|c"), Err(ParseError::UnclosedGroup));
}

#[test]
fn trailing_backslash_is_rejected() {
    assert_eq!(parse("\\"), Err(ParseError::DanglingEscape));
    assert_eq!(parse("ab\\"), Err(ParseError::DanglingEscape));
    assert_eq!(parse("(a\\)"), Err(ParseError::DanglingEscape));
}

#[test]
fn quantifier_without_operand_is_rejected() {
    assert_eq!(parse("*"), Err(ParseError::MissingOperand));
    assert_eq!(parse("+a"), Err(ParseError::MissingOperand));
    assert_eq!(parse("?"), Err(ParseError::MissingOperand));
    assert_eq!(parse("(*a)"), Err(ParseError::MissingOperand));
}

#[test]
fn bar_without_operand_is_rejected() {
    assert_eq!(parse("|a"), Err(ParseError::MissingOperand));
    assert_eq!(parse("a|"), Err(ParseError::MissingOperand));
    assert_eq!(parse("a|*"), Err(ParseError::MissingOperand));
    assert_eq!(parse("a||b"), Err(ParseError::MissingOperand));
}

#[test]
fn the_first_error_is_reported() {
    assert_eq!(parse("*[a"), Err(ParseError::MissingOperand));
    assert_eq!(parse("[a(b"), Err(ParseError::UnclosedClass));
    assert_eq!(parse("a|(b"), Err(ParseError::UnclosedGroup));
}

#[test]
fn next_index_finds_the_first_occurrence_from_the_index() {
    let chars: Vec<char> = "a)b)".chars().collect();
    let mut parser = PatternParser::new(&chars);
    assert_eq!(parser.next_index(')'), Some(1));
    parser.index = 2;
    assert_eq!(parser.next_index(')'), Some(3));
    assert_eq!(parser.next_index('a'), None);
    parser.index = 9;
    assert_eq!(parser.next_index(')'), None);
}

#[test]
fn next_pattern_reads_one_token_at_a_time() {
    let chars: Vec<char> = "a\\d*".chars().collect();
    let mut parser = PatternParser::new(&chars);
    assert_eq!(parser.next_pattern(), Ok(Some(lit('a'))));
    assert_eq!(parser.index, 1);
    assert_eq!(parser.next_pattern(), Ok(Some(Pattern::AnyDigit)));
    assert_eq!(parser.index, 3);
    parser.patterns.push(Pattern::AnyDigit);
    assert_eq!(
        parser.next_pattern(),
        Ok(Some(Pattern::KleeneStar(boxed(Pattern::AnyDigit))))
    );
    assert_eq!(parser.patterns.len(), 0);
    assert_eq!(parser.next_pattern(), Ok(None));
    assert_eq!(parser.index, 4);
}

#[test]
fn internal_parse_empties_the_sibling_list() {
    let chars: Vec<char> = "ab".chars().collect();
    let mut parser = PatternParser::new(&chars);
    assert_eq!(
        parser.internal_parse(),
        Ok(Pattern::Sequence(vec![lit('a'), lit('b')]))
    );
    assert_eq!(parser.patterns.len(), 0);
    assert_eq!(parser.index, 2);
}
