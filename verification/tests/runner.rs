use nfa_grep::builder::NfaBuilder;
use nfa_grep::label::{contains_char, StateInput};
use nfa_grep::nfa::{Nfa, NfaState};
use nfa_grep::pattern::Pattern;
use nfa_grep::runner::{append_new, contains_id, successors, NfaRunner};
use std::collections::HashMap;

fn table(states: Vec<(usize, Vec<(StateInput, usize)>)>) -> HashMap<usize, NfaState> {
    let mut map = HashMap::new();
    for (id, transition) in states {
        map.insert(id, NfaState { id, transition });
    }
    map
}

// 1 -eps-> 2 -a-> 3 -eps-> 4 -eps-> 2, 3 -b-> 5
fn sample() -> Nfa {
    Nfa {
        start: 1,
        end: vec![5],
        states: table(vec![
            (1, vec![(StateInput::Epsilon, 2)]),
            (2, vec![(StateInput::Literal('a'), 3)]),
            (
                3,
                vec![(StateInput::Epsilon, 4), (StateInput::Literal('b'), 5)],
            ),
            (4, vec![(StateInput::Epsilon, 2)]),
            (5, vec![]),
        ]),
    }
}

fn compiled(pattern: Pattern) -> Nfa {
    NfaBuilder::new().of(pattern)
}

fn accepts(pattern: Pattern, input: &str) -> bool {
    NfaRunner::new(compiled(pattern)).run(input)
}

fn lit(c: char) -> Pattern {
    Pattern::Literal(c)
}

#[test]
fn labels_accept_by_their_semantics() {
    assert!(StateInput::Literal('a').accepts('a'));
    assert!(!StateInput::Literal('a').accepts('b'));
    assert!(StateInput::AnyDigit.accepts('0'));
    assert!(StateInput::AnyDigit.accepts('9'));
    assert!(!StateInput::AnyDigit.accepts('a'));
    assert!(!StateInput::AnyDigit.accepts('/'));
    assert!(!StateInput::AnyDigit.accepts(':'));
    assert!(!StateInput::AnyDigit.accepts('٣'));
    assert!(StateInput::AnyChar.accepts('a'));
    assert!(StateInput::AnyChar.accepts('\x01'));
    assert!(StateInput::AnyCharIn(vec!['a', 'b']).accepts('b'));
    assert!(!StateInput::AnyCharIn(vec!['a', 'b']).accepts('c'));
    assert!(!StateInput::AnyCharIn(vec![]).accepts('c'));
    assert!(StateInput::AnyCharNotIn(vec!['a', 'b']).accepts('c'));
    assert!(!StateInput::AnyCharNotIn(vec!['a', 'b']).accepts('a'));
    assert!(StateInput::AnyCharNotIn(vec![]).accepts('a'));
    assert!(!StateInput::Epsilon.accepts('a'));
}

#[test]
fn labels_fire_on_a_character_or_on_nothing() {
    assert!(StateInput::Epsilon.fires(None));
    assert!(!StateInput::Epsilon.fires(Some('a')));
    assert!(StateInput::Literal('a').fires(Some('a')));
    assert!(!StateInput::Literal('a').fires(None));
    assert!(!StateInput::AnyChar.fires(None));
}

#[test]
fn class_and_negated_class_never_agree() {
    let sets: Vec<Vec<char>> = vec![vec![], vec!['a'], vec!['a', 'b', 'a'], vec!['\x01', 'z']];
    for set in sets {
        for c in ['a', 'b', 'z', '\x01', '0', ' '] {
            assert_ne!(
                StateInput::AnyCharIn(set.clone()).accepts(c),
                StateInput::AnyCharNotIn(set.clone()).accepts(c)
            );
        }
    }
}

#[test]
fn contains_char_is_linear_membership() {
    assert!(contains_char(&vec!['a', 'b'], 'b'));
    assert!(!contains_char(&vec!['a', 'b'], 'c'));
    assert!(!contains_char(&vec![], 'c'));
}

#[test]
fn contains_id_is_linear_membership() {
    assert!(contains_id(&[3, 1, 2], 1));
    assert!(!contains_id(&[3, 1, 2], 4));
    assert!(!contains_id(&[], 4));
}

#[test]
fn diff_keeps_order_and_duplicates() {
    assert_eq!(NfaRunner::diff(&[1, 2, 3, 2, 4], &[2, 5]), vec![1, 3, 4]);
    assert_eq!(NfaRunner::diff(&[1, 1, 2], &[]), vec![1, 1, 2]);
    assert_eq!(NfaRunner::diff(&[], &[1]), Vec::<usize>::new());
    assert_eq!(NfaRunner::diff(&[1, 2], &[2, 1]), Vec::<usize>::new());
}

#[test]
fn successors_follow_the_edges_that_fire() {
    let nfa = sample();
    assert_eq!(successors(&nfa.states, &vec![1, 3], None), vec![2, 4]);
    assert_eq!(successors(&nfa.states, &vec![2, 3], Some('a')), vec![3]);
    assert_eq!(successors(&nfa.states, &vec![2, 3], Some('b')), vec![5]);
    assert_eq!(
        successors(&nfa.states, &vec![2, 3], Some('c')),
        Vec::<usize>::new()
    );
    assert_eq!(successors(&nfa.states, &vec![], None), Vec::<usize>::new());
}

#[test]
fn append_new_adds_each_new_state_once() {
    let mut held = vec![1, 2];
    let added = append_new(&mut held, &[3, 2, 3, 4, 1, 4]);
    assert_eq!(added, vec![3, 4]);
    assert_eq!(held, vec![1, 2, 3, 4]);

    let mut held: Vec<usize> = vec![];
    assert_eq!(append_new(&mut held, &[]), Vec::<usize>::new());
    assert_eq!(held, Vec::<usize>::new());

    let mut held = vec![7, 7];
    assert_eq!(append_new(&mut held, &[7, 8, 8]), vec![8]);
    assert_eq!(held, vec![7, 7, 8]);
}

#[test]
fn closure_adds_what_epsilon_edges_reach() {
    let nfa = sample();
    let mut current = vec![3];
    NfaRunner::closure(&nfa.states, &mut current);
    assert_eq!(current, vec![3, 4, 2]);

    let mut current = vec![5];
    NfaRunner::closure(&nfa.states, &mut current);
    assert_eq!(current, vec![5]);

    let mut current: Vec<usize> = vec![];
    NfaRunner::closure(&nfa.states, &mut current);
    assert_eq!(current, Vec::<usize>::new());
}

#[test]
fn closure_ends_on_a_cycle_and_lists_each_state_once() {
    let states = table(vec![
        (1, vec![(StateInput::Epsilon, 2)]),
        (2, vec![(StateInput::Epsilon, 1)]),
    ]);
    let mut current = vec![1];
    NfaRunner::closure(&states, &mut current);
    assert_eq!(current, vec![1, 2]);

    let states = table(vec![
        (1, vec![(StateInput::Epsilon, 2), (StateInput::Epsilon, 2)]),
        (2, vec![(StateInput::Epsilon, 1), (StateInput::Epsilon, 2)]),
    ]);
    let mut current = vec![1];
    NfaRunner::closure(&states, &mut current);
    assert_eq!(current, vec![1, 2]);
}

#[test]
fn new_runner_starts_in_the_closure_of_the_start_state() {
    let runner = NfaRunner::new(sample());
    assert_eq!(runner.current_states, vec![1, 2]);
}

#[test]
fn next_consumes_one_character() {
    let mut runner = NfaRunner::new(sample());
    runner.next('a');
    assert_eq!(runner.current_states, vec![3, 4, 2]);
    assert!(!runner.is_match());
    runner.next('a');
    assert_eq!(runner.current_states, vec![3, 4, 2]);
    runner.next('b');
    assert_eq!(runner.current_states, vec![5]);
    assert!(runner.is_match());
    runner.next('b');
    assert_eq!(runner.current_states, Vec::<usize>::new());
    assert!(!runner.is_match());
}

#[test]
fn next_lists_a_state_once_that_several_edges_reach() {
    let nfa = Nfa {
        start: 1,
        end: vec![3],
        states: table(vec![
            (
                1,
                vec![
                    (StateInput::Epsilon, 2),
                    (StateInput::Literal('a'), 3),
                    (StateInput::AnyChar, 3),
                ],
            ),
            (2, vec![(StateInput::Literal('a'), 3)]),
            (3, vec![]),
        ]),
    };
    let mut runner = NfaRunner::new(nfa);
    assert_eq!(runner.current_states, vec![1, 2]);
    runner.next('a');
    assert_eq!(runner.current_states, vec![3]);
}

#[test]
fn is_match_needs_an_active_accept_state() {
    let runner = NfaRunner {
        nfa: sample(),
        current_states: vec![2, 5],
    };
    assert!(runner.is_match());
    let runner = NfaRunner {
        nfa: sample(),
        current_states: vec![2, 3],
    };
    assert!(!runner.is_match());
    let runner = NfaRunner {
        nfa: sample(),
        current_states: vec![],
    };
    assert!(!runner.is_match());
}

#[test]
fn run_accepts_whole_words_only() {
    assert!(NfaRunner::new(sample()).run("ab"));
    assert!(NfaRunner::new(sample()).run("aaab"));
    assert!(!NfaRunner::new(sample()).run(""));
    assert!(!NfaRunner::new(sample()).run("a"));
    assert!(!NfaRunner::new(sample()).run("b"));
    assert!(!NfaRunner::new(sample()).run("abb"));
    assert!(!NfaRunner::new(sample()).run("xab"));
}

#[test]
fn run_handles_several_accept_states() {
    let nfa = Nfa {
        start: 1,
        end: vec![2, 3],
        states: table(vec![
            (
                1,
                vec![(StateInput::Literal('a'), 2), (StateInput::AnyDigit, 3)],
            ),
            (2, vec![]),
            (3, vec![]),
        ]),
    };
    assert!(NfaRunner::new(nfa).run("a"));
    assert!(NfaRunner::new(sample()).run("ab"));
}

#[test]
fn compiled_atoms_accept_one_character() {
    assert!(accepts(lit('a'), "a"));
    assert!(!accepts(lit('a'), "b"));
    assert!(!accepts(lit('a'), ""));
    assert!(!accepts(lit('a'), "aa"));
    assert!(accepts(Pattern::AnyDigit, "7"));
    assert!(!accepts(Pattern::AnyDigit, "x"));
    assert!(accepts(Pattern::AnyChar, "\x01"));
    assert!(accepts(Pattern::Start, "\x01"));
    assert!(!accepts(Pattern::End, "$"));
}

#[test]
fn compiled_class_accepts_iff_negated_class_rejects() {
    for c in ["a", "b", "c", "1", " "] {
        assert_ne!(
            accepts(Pattern::AnyCharIn(vec!['a', 'b']), c),
            accepts(Pattern::AnyCharNotIn(vec!['a', 'b']), c)
        );
    }
}

#[test]
fn compiled_sequence_accepts_the_splits() {
    let ab = || Pattern::Sequence(vec![Pattern::KleeneStar(Box::new(lit('a'))), lit('b')]);
    assert!(accepts(ab(), "b"));
    assert!(accepts(ab(), "aab"));
    assert!(!accepts(ab(), "a"));
    assert!(!accepts(ab(), "ba"));
    assert!(accepts(Pattern::Sequence(vec![]), ""));
    assert!(!accepts(Pattern::Sequence(vec![]), "a"));
}

#[test]
fn compiled_alternation_accepts_either_branch() {
    let either = || Pattern::Or(Box::new(lit('a')), Box::new(Pattern::AnyDigit));
    assert!(accepts(either(), "a"));
    assert!(accepts(either(), "5"));
    assert!(!accepts(either(), "b"));
    assert!(!accepts(either(), "a5"));
}

#[test]
fn compiled_star_accepts_the_empty_word_and_plus_does_not() {
    let star = || Pattern::KleeneStar(Box::new(lit('a')));
    let plus = || Pattern::OneOrMore(Box::new(lit('a')));
    assert!(accepts(star(), ""));
    assert!(accepts(star(), "aaa"));
    assert!(!accepts(star(), "ab"));
    assert!(!accepts(plus(), ""));
    assert!(accepts(plus(), "a"));
    assert!(accepts(plus(), "aaa"));
    assert!(!accepts(plus(), "ba"));
}

#[test]
fn compiled_optional_accepts_the_empty_word() {
    let optional = Pattern::Or(
        Box::new(Pattern::Sequence(vec![])),
        Box::new(Pattern::OneOrMore(Box::new(lit('a')))),
    );
    assert!(accepts(optional, ""));
}

#[test]
fn star_over_a_pattern_with_quantified_ends_accepts_more() {
    // (a*b)* : the skip edge of the outer star meets the loop of the inner one.
    let pattern = Pattern::KleeneStar(Box::new(Pattern::Sequence(vec![
        Pattern::KleeneStar(Box::new(lit('a'))),
        lit('b'),
    ])));
    assert!(accepts(pattern, "a"));
}
