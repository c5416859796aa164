//! Transition labels: what a single edge of an automaton accepts.

use vstd::prelude::*;

verus! {

/// The mathematical model of a transition label.
pub enum Sym {
    Literal(char),
    AnyDigit,
    AnyChar,
    AnyCharIn(Seq<char>),
    AnyCharNotIn(Seq<char>),
    Epsilon,
}

/// Whether `c` is one of the ten ASCII decimal digits.
pub open spec fn is_decimal_digit(c: char) -> bool {
    '0' <= c && c <= '9'
}

impl Sym {
    /// Whether an edge with this label may be taken by consuming `c`.
    /// An epsilon edge consumes nothing, so it accepts no character.
    pub open spec fn accepts(self, c: char) -> bool {
        match self {
            Sym::Literal(l) => l == c,
            Sym::AnyDigit => is_decimal_digit(c),
            Sym::AnyChar => true,
            Sym::AnyCharIn(set) => set.contains(c),
            Sym::AnyCharNotIn(set) => !set.contains(c),
            Sym::Epsilon => false,
        }
    }

    /// Whether an edge with this label is taken on `on`: on a character if
    /// the label accepts it, on no character if the label is epsilon.
    pub open spec fn fires(self, on: Option<char>) -> bool {
        match on {
            Some(c) => self.accepts(c),
            None => self is Epsilon,
        }
    }
}

/// The label of a transition between two states.
#[derive(Debug, PartialEq, Eq)]
pub enum StateInput {
    Literal(char),
    AnyDigit,
    AnyChar,
    AnyCharIn(Vec<char>),
    AnyCharNotIn(Vec<char>),
    Epsilon,
}

impl View for StateInput {
    type V = Sym;

    open spec fn view(&self) -> Sym {
        match self {
            StateInput::Literal(c) => Sym::Literal(*c),
            StateInput::AnyDigit => Sym::AnyDigit,
            StateInput::AnyChar => Sym::AnyChar,
            StateInput::AnyCharIn(set) => Sym::AnyCharIn(set@),
            StateInput::AnyCharNotIn(set) => Sym::AnyCharNotIn(set@),
            StateInput::Epsilon => Sym::Epsilon,
        }
    }
}

/// Linear membership test on a character set.
pub fn contains_char(set: &Vec<char>, c: char) -> (found: bool)
    ensures
        found == set@.contains(c),
{
    let mut i: usize = 0;
    while i < set.len()
        invariant
            i <= set.len(),
            forall|j: int| 0 <= j < i ==> set@[j] != c,
        decreases set.len() - i,
    {
        if set[i] == c {
            return true;
        }
        i += 1;
    }
    false
}

impl StateInput {
    /// Decides whether this label lets the simulator consume `c`.
    pub fn accepts(&self, c: char) -> (taken: bool)
        ensures
            taken == self@.accepts(c),
    {
        match self {
            StateInput::Literal(literal) => *literal == c,
            StateInput::AnyDigit => '0' <= c && c <= '9',
            StateInput::AnyChar => true,
            StateInput::AnyCharIn(set) => contains_char(set, c),
            StateInput::AnyCharNotIn(set) => !contains_char(set, c),
            StateInput::Epsilon => false,
        }
    }
}

impl StateInput {
    /// Decides whether an edge with this label is taken on `on`.
    pub fn fires(&self, on: Option<char>) -> (taken: bool)
        ensures
            taken == self@.fires(on),
    {
        match on {
            Some(c) => self.accepts(c),
            None => matches!(self, StateInput::Epsilon),
        }
    }
}

/// A character class and its negation never agree on a character.
pub proof fn lemma_class_negation(set: Seq<char>, c: char)
    ensures
        Sym::AnyCharIn(set).accepts(c) <==> !Sym::AnyCharNotIn(set).accepts(c),
{
}

} // verus!
