//! The pattern syntax tree and its meaning as a set of character sequences.

use crate::label::Sym;
use vstd::prelude::*;

verus! {

/// The reserved character that stands for both ends of the input.
pub const SPECIAL_MARKER: char = '\x01';

/// The mathematical model of a pattern: the same tree over `Seq`.
pub enum Ast {
    Start,
    End,
    Literal(char),
    AnyDigit,
    AnyChar,
    AnyCharIn(Seq<char>),
    AnyCharNotIn(Seq<char>),
    OneOrMore(Box<Ast>),
    KleeneStar(Box<Ast>),
    Sequence(Seq<Ast>),
    Or(Box<Ast>, Box<Ast>),
}

/// A parsed regular expression.
#[derive(Debug, PartialEq, Eq)]
pub enum Pattern {
    Start,
    End,
    Literal(char),
    AnyDigit,
    AnyChar,
    AnyCharIn(Vec<char>),
    AnyCharNotIn(Vec<char>),
    OneOrMore(Box<Pattern>),
    KleeneStar(Box<Pattern>),
    Sequence(Vec<Pattern>),
    Or(Box<Pattern>, Box<Pattern>),
}

impl Pattern {
    /// The model of this pattern.
    pub open spec fn ast(&self) -> Ast
        decreases self,
    {
        match *self {
            Pattern::Start => Ast::Start,
            Pattern::End => Ast::End,
            Pattern::Literal(c) => Ast::Literal(c),
            Pattern::AnyDigit => Ast::AnyDigit,
            Pattern::AnyChar => Ast::AnyChar,
            Pattern::AnyCharIn(set) => Ast::AnyCharIn(set@),
            Pattern::AnyCharNotIn(set) => Ast::AnyCharNotIn(set@),
            Pattern::OneOrMore(p) => Ast::OneOrMore(Box::new(p.ast())),
            Pattern::KleeneStar(p) => Ast::KleeneStar(Box::new(p.ast())),
            Pattern::Sequence(ps) => Ast::Sequence(
                Seq::new(
                    ps.len() as nat,
                    |i: int|
                        if 0 <= i < ps.len() {
                            ps[i].ast()
                        } else {
                            Ast::AnyChar
                        },
                ),
            ),
            Pattern::Or(l, r) => Ast::Or(Box::new(l.ast()), Box::new(r.ast())),
        }
    }
}

impl View for Pattern {
    type V = Ast;

    open spec fn view(&self) -> Ast {
        self.ast()
    }
}

/// The models of a list of patterns, in order.
pub open spec fn asts(ps: Seq<Pattern>) -> Seq<Ast> {
    Seq::new(ps.len(), |i: int| ps[i]@)
}

/// Zero or more words of `lang`, one after another. Each piece that is
/// split off is nonempty, which loses nothing: an empty piece adds nothing.
pub open spec fn star_of(lang: spec_fn(Seq<char>) -> bool, s: Seq<char>) -> bool
    decreases s.len(),
{
    s.len() == 0 || exists|k: int|
        0 < k <= s.len() && lang(#[trigger] s.subrange(0, k)) && star_of(
            lang,
            s.subrange(k, s.len() as int),
        )
}

impl Ast {
    /// The label of a pattern that consumes exactly one character. Both
    /// anchors are read as the marker character.
    pub open spec fn atom(self) -> Option<Sym> {
        match self {
            Ast::Start => Some(Sym::Literal(SPECIAL_MARKER)),
            Ast::End => Some(Sym::Literal(SPECIAL_MARKER)),
            Ast::Literal(c) => Some(Sym::Literal(c)),
            Ast::AnyDigit => Some(Sym::AnyDigit),
            Ast::AnyChar => Some(Sym::AnyChar),
            Ast::AnyCharIn(set) => Some(Sym::AnyCharIn(set)),
            Ast::AnyCharNotIn(set) => Some(Sym::AnyCharNotIn(set)),
            _ => None,
        }
    }

    /// The pattern for an optional `p`: nothing, or one or more times `p`.
    pub open spec fn optional(p: Ast) -> Ast {
        Ast::Or(Box::new(Ast::Sequence(Seq::empty())), Box::new(Ast::OneOrMore(Box::new(p))))
    }

    /// Whether the pattern holds no anchor and consumes the marker nowhere.
    /// Such a pattern matches only words without the marker.
    pub open spec fn marker_free(self) -> bool
        decreases self,
    {
        match self {
            Ast::Start => false,
            Ast::End => false,
            Ast::OneOrMore(p) => p.marker_free(),
            Ast::KleeneStar(p) => p.marker_free(),
            Ast::Sequence(ps) => forall|i: int| 0 <= i < ps.len() ==> (#[trigger] ps[i]).marker_free(),
            Ast::Or(l, r) => l.marker_free() && r.marker_free(),
            _ => !self.atom().unwrap().accepts(SPECIAL_MARKER),
        }
    }

    /// The set of words that this pattern matches, as a predicate.
    pub open spec fn language(self) -> spec_fn(Seq<char>) -> bool
        decreases self, 1nat,
    {
        |u: Seq<char>| self.matches(u)
    }

    /// Whether the pattern matches the whole of `s`, where `s` is a word
    /// over the input alphabet extended by the marker.
    pub open spec fn matches(self, s: Seq<char>) -> bool
        decreases self, 0nat,
    {
        match self {
            Ast::OneOrMore(p) => exists|k: int|
                0 <= k <= s.len() && p.matches(#[trigger] s.subrange(0, k)) && star_of(
                    p.language(),
                    s.subrange(k, s.len() as int),
                ),
            Ast::KleeneStar(p) => star_of(p.language(), s),
            Ast::Sequence(ps) => Ast::matches_all(ps, s),
            Ast::Or(l, r) => l.matches(s) || r.matches(s),
            _ => s.len() == 1 && self.atom().unwrap().accepts(s[0]),
        }
    }

    /// Whether `s` splits into consecutive pieces matched by `ps` in order.
    pub open spec fn matches_all(ps: Seq<Ast>, s: Seq<char>) -> bool
        decreases ps, 2nat,
    {
        if ps.len() == 0 {
            s.len() == 0
        } else {
            exists|k: int|
                0 <= k <= s.len() && Ast::matches_all(ps.drop_last(), #[trigger] s.subrange(0, k))
                    && ps.last().matches(s.subrange(k, s.len() as int))
        }
    }
}

} // verus!
