use nfa_grep::builder::{
    absorb, fan_out_all, ids_in, link_all, push_transition, InsertNfaState, NfaBuilder,
};
use nfa_grep::label::StateInput;
use nfa_grep::nfa::{Nfa, NfaState};
use nfa_grep::pattern::Pattern;
use std::collections::HashMap;

fn edges(nfa: &Nfa, id: usize) -> &Vec<(StateInput, usize)> {
    &nfa.states.get(&id).unwrap().transition
}

fn sorted_ids(nfa: &Nfa) -> Vec<usize> {
    let mut ids: Vec<usize> = nfa.states.keys().copied().collect();
    ids.sort();
    ids
}

#[test]
fn new_builder_has_issued_no_id() {
    assert_eq!(NfaBuilder::new().id_, 0);
}

#[test]
fn next_id_counts_from_one() {
    let mut builder = NfaBuilder::new();
    assert_eq!(builder.next_id(), 1);
    assert_eq!(builder.next_id(), 2);
    assert_eq!(builder.id_, 2);
}

#[test]
fn literal_has_two_states_and_one_edge() {
    let mut builder = NfaBuilder::new();
    let nfa = builder.literal('a');
    assert_eq!(builder.id_, 2);
    assert_eq!(nfa.start, 2);
    assert_eq!(nfa.end, vec![1]);
    assert_eq!(sorted_ids(&nfa), vec![1, 2]);
    assert_eq!(edges(&nfa, 2), &vec![(StateInput::Literal('a'), 1)]);
    assert_eq!(edges(&nfa, 1), &vec![]);
    assert_eq!(nfa.states.get(&1).unwrap().id, 1);
    assert_eq!(nfa.states.get(&2).unwrap().id, 2);
}

#[test]
fn atoms_carry_their_label() {
    let mut builder = NfaBuilder::new();
    let digit = builder.any_digit();
    assert_eq!(edges(&digit, 2), &vec![(StateInput::AnyDigit, 1)]);
    let any = builder.any_char();
    assert_eq!(any.start, 4);
    assert_eq!(any.end, vec![3]);
    assert_eq!(edges(&any, 4), &vec![(StateInput::AnyChar, 3)]);
    let inside = builder.any_char_in(vec!['x', 'y']);
    assert_eq!(
        edges(&inside, 6),
        &vec![(StateInput::AnyCharIn(vec!['x', 'y']), 5)]
    );
    let outside = builder.any_char_not_in(vec!['x']);
    assert_eq!(
        edges(&outside, 8),
        &vec![(StateInput::AnyCharNotIn(vec!['x']), 7)]
    );
    let bare = builder.atom(StateInput::Epsilon);
    assert_eq!(edges(&bare, 10), &vec![(StateInput::Epsilon, 9)]);
    assert_eq!(builder.id_, 10);
}

#[test]
fn or_adds_a_start_and_an_accept_state() {
    let mut builder = NfaBuilder::new();
    let left = builder.literal('a');
    let right = builder.literal('b');
    let nfa = builder.or(left, right);
    assert_eq!(builder.id_, 6);
    assert_eq!(nfa.start, 6);
    assert_eq!(nfa.end, vec![5]);
    assert_eq!(sorted_ids(&nfa), vec![1, 2, 3, 4, 5, 6]);
    assert_eq!(
        edges(&nfa, 6),
        &vec![(StateInput::Epsilon, 2), (StateInput::Epsilon, 4)]
    );
    assert_eq!(edges(&nfa, 5), &vec![]);
    assert_eq!(edges(&nfa, 1), &vec![(StateInput::Epsilon, 5)]);
    assert_eq!(edges(&nfa, 3), &vec![(StateInput::Epsilon, 5)]);
    assert_eq!(edges(&nfa, 2), &vec![(StateInput::Literal('a'), 1)]);
    assert_eq!(edges(&nfa, 4), &vec![(StateInput::Literal('b'), 3)]);
}

#[test]
fn one_or_more_links_accept_back_to_start() {
    let mut builder = NfaBuilder::new();
    let inner = builder.literal('a');
    let nfa = builder.one_or_more(inner);
    assert_eq!(builder.id_, 2);
    assert_eq!(nfa.start, 2);
    assert_eq!(nfa.end, vec![1]);
    assert_eq!(edges(&nfa, 1), &vec![(StateInput::Epsilon, 2)]);
    assert_eq!(edges(&nfa, 2), &vec![(StateInput::Literal('a'), 1)]);
}

#[test]
fn kleene_star_adds_the_skip_edge() {
    let mut builder = NfaBuilder::new();
    let inner = builder.literal('a');
    let nfa = builder.kleene_star(inner);
    assert_eq!(builder.id_, 2);
    assert_eq!(nfa.start, 2);
    assert_eq!(nfa.end, vec![1]);
    assert_eq!(edges(&nfa, 1), &vec![(StateInput::Epsilon, 2)]);
    assert_eq!(
        edges(&nfa, 2),
        &vec![(StateInput::Literal('a'), 1), (StateInput::Epsilon, 1)]
    );
}

#[test]
fn empty_sequence_is_one_epsilon_edge() {
    let mut builder = NfaBuilder::new();
    let nfa = builder.sequence(vec![]);
    assert_eq!(builder.id_, 2);
    assert_eq!(nfa.start, 2);
    assert_eq!(nfa.end, vec![1]);
    assert_eq!(edges(&nfa, 2), &vec![(StateInput::Epsilon, 1)]);
    assert_eq!(edges(&nfa, 1), &vec![]);
}

#[test]
fn sequence_links_each_accept_to_the_next_start() {
    let mut builder = NfaBuilder::new();
    let nfa = builder.sequence(vec![
        Pattern::Literal('a'),
        Pattern::AnyDigit,
        Pattern::Literal('c'),
    ]);
    assert_eq!(builder.id_, 6);
    assert_eq!(nfa.start, 2);
    assert_eq!(nfa.end, vec![5]);
    assert_eq!(sorted_ids(&nfa), vec![1, 2, 3, 4, 5, 6]);
    assert_eq!(edges(&nfa, 2), &vec![(StateInput::Literal('a'), 1)]);
    assert_eq!(edges(&nfa, 1), &vec![(StateInput::Epsilon, 4)]);
    assert_eq!(edges(&nfa, 4), &vec![(StateInput::AnyDigit, 3)]);
    assert_eq!(edges(&nfa, 3), &vec![(StateInput::Epsilon, 6)]);
    assert_eq!(edges(&nfa, 6), &vec![(StateInput::Literal('c'), 5)]);
    assert_eq!(edges(&nfa, 5), &vec![]);
}

#[test]
fn sequence_of_one_is_the_pattern_itself() {
    let mut builder = NfaBuilder::new();
    let nfa = builder.sequence(vec![Pattern::Literal('a')]);
    assert_eq!(nfa.start, 2);
    assert_eq!(nfa.end, vec![1]);
    assert_eq!(sorted_ids(&nfa), vec![1, 2]);
    assert_eq!(edges(&nfa, 1), &vec![]);
}

#[test]
fn anchors_compile_to_the_marker() {
    let mut builder = NfaBuilder::new();
    let start = builder.of(Pattern::Start);
    assert_eq!(edges(&start, 2), &vec![(StateInput::Literal('\x01'), 1)]);
    let end = builder.of(Pattern::End);
    assert_eq!(edges(&end, 4), &vec![(StateInput::Literal('\x01'), 3)]);
}

#[test]
fn of_numbers_states_in_construction_order() {
    let mut builder = NfaBuilder::new();
    let pattern = Pattern::Or(
        Box::new(Pattern::KleeneStar(Box::new(Pattern::Literal('a')))),
        Box::new(Pattern::OneOrMore(Box::new(Pattern::AnyChar))),
    );
    let nfa = builder.of(pattern);
    assert_eq!(builder.id_, 6);
    assert_eq!(nfa.start, 6);
    assert_eq!(nfa.end, vec![5]);
    assert_eq!(
        edges(&nfa, 6),
        &vec![(StateInput::Epsilon, 2), (StateInput::Epsilon, 4)]
    );
    assert_eq!(
        edges(&nfa, 2),
        &vec![(StateInput::Literal('a'), 1), (StateInput::Epsilon, 1)]
    );
    assert_eq!(
        edges(&nfa, 1),
        &vec![(StateInput::Epsilon, 2), (StateInput::Epsilon, 5)]
    );
    assert_eq!(edges(&nfa, 4), &vec![(StateInput::AnyChar, 3)]);
    assert_eq!(
        edges(&nfa, 3),
        &vec![(StateInput::Epsilon, 4), (StateInput::Epsilon, 5)]
    );
}

#[test]
fn of_continues_from_the_counter() {
    let mut builder = NfaBuilder::new();
    builder.id_ = 40;
    let nfa = builder.of(Pattern::Sequence(vec![
        Pattern::Literal('a'),
        Pattern::Literal('b'),
    ]));
    assert_eq!(builder.id_, 44);
    assert_eq!(nfa.start, 42);
    assert_eq!(nfa.end, vec![43]);
    assert_eq!(sorted_ids(&nfa), vec![41, 42, 43, 44]);
}

fn state(id: usize, transition: Vec<(StateInput, usize)>) -> NfaState {
    NfaState { id, transition }
}

#[test]
fn insert_nfa_state_files_under_the_own_id() {
    let mut states: HashMap<usize, NfaState> = HashMap::new();
    states.insert_nfa_state(state(7, vec![(StateInput::AnyChar, 7)]));
    assert_eq!(states.len(), 1);
    assert_eq!(
        states.get(&7).unwrap().transition,
        vec![(StateInput::AnyChar, 7)]
    );
}

#[test]
fn ids_in_lists_every_key_once() {
    let mut states: HashMap<usize, NfaState> = HashMap::new();
    assert_eq!(ids_in(&states), Vec::<usize>::new());
    states.insert(3, state(3, vec![]));
    states.insert(9, state(9, vec![]));
    let mut ids = ids_in(&states);
    ids.sort();
    assert_eq!(ids, vec![3, 9]);
}

#[test]
fn absorb_prefers_the_absorbed_table() {
    let mut dst: HashMap<usize, NfaState> = HashMap::new();
    dst.insert(1, state(1, vec![]));
    dst.insert(2, state(2, vec![(StateInput::AnyDigit, 1)]));
    let mut src: HashMap<usize, NfaState> = HashMap::new();
    src.insert(2, state(2, vec![(StateInput::AnyChar, 3)]));
    src.insert(3, state(3, vec![]));
    absorb(&mut dst, src);
    assert_eq!(dst.len(), 3);
    assert_eq!(dst.get(&1).unwrap().transition, vec![]);
    assert_eq!(
        dst.get(&2).unwrap().transition,
        vec![(StateInput::AnyChar, 3)]
    );
    assert_eq!(dst.get(&3).unwrap().transition, vec![]);
}

#[test]
fn push_transition_appends_at_the_end() {
    let mut states: HashMap<usize, NfaState> = HashMap::new();
    states.insert(1, state(1, vec![(StateInput::AnyDigit, 2)]));
    states.insert(2, state(2, vec![]));
    push_transition(&mut states, 1, StateInput::Epsilon, 1);
    assert_eq!(
        states.get(&1).unwrap().transition,
        vec![(StateInput::AnyDigit, 2), (StateInput::Epsilon, 1)]
    );
    assert_eq!(states.get(&1).unwrap().id, 1);
    assert_eq!(states.get(&2).unwrap().transition, vec![]);
}

#[test]
fn link_all_adds_one_edge_for_each_listed_state() {
    let mut states: HashMap<usize, NfaState> = HashMap::new();
    states.insert(1, state(1, vec![]));
    states.insert(2, state(2, vec![]));
    states.insert(3, state(3, vec![]));
    link_all(&mut states, &vec![1, 2, 1], 3);
    assert_eq!(
        states.get(&1).unwrap().transition,
        vec![(StateInput::Epsilon, 3), (StateInput::Epsilon, 3)]
    );
    assert_eq!(
        states.get(&2).unwrap().transition,
        vec![(StateInput::Epsilon, 3)]
    );
    assert_eq!(states.get(&3).unwrap().transition, vec![]);
}

#[test]
fn fan_out_all_adds_the_edges_in_order() {
    let mut states: HashMap<usize, NfaState> = HashMap::new();
    states.insert(1, state(1, vec![]));
    states.insert(2, state(2, vec![]));
    states.insert(3, state(3, vec![]));
    fan_out_all(&mut states, 3, &vec![2, 1]);
    assert_eq!(
        states.get(&3).unwrap().transition,
        vec![(StateInput::Epsilon, 2), (StateInput::Epsilon, 1)]
    );
    assert_eq!(states.get(&1).unwrap().transition, vec![]);
}
