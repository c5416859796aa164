//! A small regular-expression engine that answers one question: does a
//! pattern match somewhere within a line?
//!
//! The engine is a pipeline of three stages. The parser ([`parser`]) turns
//! the text of a pattern into a syntax tree ([`pattern`]). The builder
//! ([`builder`]) compiles the tree into a nondeterministic automaton
//! ([`nfa`], [`label`]) by a Thompson-style construction. The simulator
//! ([`runner`]) runs the automaton on a word. The driver ([`grep`]) puts the
//! line between two marker characters, lets the pattern start and end
//! anywhere, and runs the pipeline.
//!
//! Every function states what it returns over mathematical models: the
//! grammar as functions on sequences of characters, automata as maps from
//! states to edges, and acceptance as the existence of a path. On top of
//! that, [`language`] and [`correctness`] relate the automaton of a pattern
//! to the words that the pattern matches, [`laws`] and [`anchors`] state what
//! a search finds, [`grammar`] holds facts about the parser's grammar, and
//! [`size`] bounds the number of states by the length of the pattern.

pub mod anchors;
pub mod builder;
pub mod correctness;
pub mod grammar;
pub mod grep;
pub mod label;
pub mod language;
pub mod laws;
pub mod nfa;
pub mod parser;
pub mod pattern;
pub mod runner;
pub mod size;
