//! The construction is correct: the automaton of a pattern accepts every
//! word that the pattern matches and, for the patterns named here, no other.

use crate::builder::{
    lemma_atom_wf, lemma_edges_of_closed, lemma_followed_by_wf, lemma_or_wf, lemma_plus_wf,
    lemma_star_wf,
};
use crate::label::Sym;
use crate::language::{
    accepts_final, language_of, lemma_atom_language, lemma_followed_by_edges,
    lemma_followed_by_language, lemma_or_edges, lemma_or_language, lemma_plus_language,
    lemma_star_edges, lemma_star_language, lemma_star_widen, start_fresh,
};
use crate::builder::lemma_link;
use crate::nfa::{continues, has_edge, reaches, walks, Automaton, Graph, StateId};
use crate::pattern::{star_of, Ast, SPECIAL_MARKER};
use vstd::prelude::*;

verus! {

impl Ast {
    /// Whether the pattern does not begin with a quantified pattern. No
    /// edge of its automaton then leads into the start state.
    pub open spec fn opens_fresh(self) -> bool
        decreases self,
    {
        match self {
            Ast::OneOrMore(_) => false,
            Ast::KleeneStar(_) => false,
            Ast::Sequence(ps) => ps.len() == 0 || ps[0].opens_fresh(),
            _ => true,
        }
    }

    /// Whether the pattern does not end with a quantified pattern. No edge
    /// of its automaton then leaves an accept state.
    pub open spec fn closes_fresh(self) -> bool
        decreases self,
    {
        match self {
            Ast::OneOrMore(_) => false,
            Ast::KleeneStar(_) => false,
            Ast::Sequence(ps) => ps.len() == 0 || ps.last().closes_fresh(),
            _ => true,
        }
    }

    /// Whether every pattern under a `*` neither begins nor ends with a
    /// quantified pattern. For such patterns the automaton accepts exactly
    /// the words that the pattern matches.
    pub open spec fn star_safe(self) -> bool
        decreases self,
    {
        match self {
            Ast::OneOrMore(p) => p.star_safe(),
            Ast::KleeneStar(p) => p.star_safe() && p.opens_fresh() && p.closes_fresh(),
            Ast::Sequence(ps) => forall|i: int| 0 <= i < ps.len() ==> (#[trigger] ps[i]).star_safe(),
            Ast::Or(l, r) => l.star_safe() && r.star_safe(),
            _ => true,
        }
    }
}

/// The automaton of a pattern is well formed, and its state ids are those
/// that follow the counter.
pub proof fn lemma_thompson_wf(p: Ast, k: StateId)
    requires
        k + p.state_count() <= usize::MAX,
    ensures
        p.thompson(k).wf(),
        p.thompson(k).within(k as int, k + p.state_count()),
    decreases p, 0nat,
{
    match p {
        Ast::OneOrMore(q) => {
            lemma_thompson_wf(*q, k);
            lemma_plus_wf(q.thompson(k));
        },
        Ast::KleeneStar(q) => {
            lemma_thompson_wf(*q, k);
            lemma_star_wf(q.thompson(k));
        },
        Ast::Sequence(ps) => {
            assert(p.thompson(k) == Ast::thompson_chain(ps, k));
            if ps.len() == 0 {
                assert(Ast::thompson_chain(ps, k) == Automaton::atom(Sym::Epsilon, k));
                lemma_atom_wf(Sym::Epsilon, k);
            } else {
                lemma_chain_wf(ps, k);
            }
        },
        Ast::Or(l, r) => {
            let kl = (k + l.state_count()) as StateId;
            let kr = (k + l.state_count() + r.state_count()) as StateId;
            lemma_thompson_wf(*l, k);
            lemma_thompson_wf(*r, kl);
            lemma_disjoint(l.thompson(k), k as int, kl as int, r.thompson(kl), kr as int);
            lemma_or_wf(l.thompson(k), r.thompson(kl), kr);
        },
        _ => {
            lemma_atom_wf(p.atom().unwrap(), k);
        },
    }
}

/// Automata whose ids lie in ranges that follow one another share no state.
pub proof fn lemma_disjoint(a: Automaton, lo: int, mid: int, b: Automaton, hi: int)
    requires
        lo <= mid <= hi,
        a.within(lo, mid),
        b.within(mid, hi),
    ensures
        a.edges.dom().disjoint(b.edges.dom()),
        forall|id: StateId| a.edges.contains_key(id) || b.edges.contains_key(id) ==> lo < id <= hi,
{
    assert forall|id: StateId| !(a.edges.dom().contains(id) && b.edges.dom().contains(id)) by {
        if a.edges.contains_key(id) && b.edges.contains_key(id) {
        }
    }
}

/// The automaton of a nonempty list of patterns is well formed, and its
/// state ids are those that follow the counter.
pub proof fn lemma_chain_wf(ps: Seq<Ast>, k: StateId)
    requires
        ps.len() > 0,
        k + Ast::chain_count(ps) <= usize::MAX,
    ensures
        Ast::thompson_chain(ps, k).wf(),
        Ast::thompson_chain(ps, k).within(k as int, k + Ast::chain_count(ps)),
    decreases ps, 1nat,
{
    let front = ps.drop_last();
    if ps.len() == 1 {
        assert(Ast::chain_count(front) == 0);
        lemma_thompson_wf(ps[0], k);
    } else {
        let mid = (k + Ast::chain_count(front)) as StateId;
        lemma_chain_wf(front, k);
        lemma_thompson_wf(ps.last(), mid);
        lemma_disjoint(
            Ast::thompson_chain(front, k),
            k as int,
            mid as int,
            ps.last().thompson(mid),
            k + Ast::chain_count(ps),
        );
        lemma_followed_by_wf(Ast::thompson_chain(front, k), ps.last().thompson(mid));
    }
}

/// No edge of the automaton of a single edge leads into its start state,
/// and none leaves its accept state.
pub proof fn lemma_atom_fresh(sym: Sym, k: StateId)
    requires
        k + 2 <= usize::MAX,
    ensures
        start_fresh(Automaton::atom(sym, k)),
        accepts_final(Automaton::atom(sym, k)),
{
    let a = Automaton::atom(sym, k);
    let g = a.edges;
    assert forall|x: StateId, s: Sym| !#[trigger] has_edge(g, x, s, a.start) by {
        if has_edge(g, x, s, a.start) {
            let j = choose|j: int| 0 <= j < g[x].len() && g[x][j] == (s, a.start);
        }
    }
    assert forall|x: StateId, s: Sym, t: StateId| a.accepts.contains(x) implies !#[trigger] has_edge(
        g,
        x,
        s,
        t,
    ) by {
        let i = choose|i: int| 0 <= i < a.accepts.len() && a.accepts[i] == x;
        if has_edge(g, x, s, t) {
            let j = choose|j: int| 0 <= j < g[x].len() && g[x][j] == (s, t);
        }
    }
}

/// No edge of an alternation leads into its start state, and none leaves
/// its accept state.
pub proof fn lemma_or_fresh(l: Automaton, r: Automaton, k: StateId)
    requires
        l.wf(),
        r.wf(),
        l.edges.dom().disjoint(r.edges.dom()),
        forall|id: StateId| l.edges.contains_key(id) || r.edges.contains_key(id) ==> id <= k,
        k + 2 <= usize::MAX,
    ensures
        start_fresh(Automaton::or(l, r, k)),
        accepts_final(Automaton::or(l, r, k)),
{
    let m = Automaton::or(l, r, k);
    lemma_or_edges(l, r, k);
    lemma_edges_of_closed(l.edges);
    lemma_edges_of_closed(r.edges);
    assert forall|x: StateId, s: Sym| !#[trigger] has_edge(m.edges, x, s, m.start) by {}
    assert forall|x: StateId, s: Sym, t: StateId| m.accepts.contains(x) implies !#[trigger] has_edge(
        m.edges,
        x,
        s,
        t,
    ) by {
        let i = choose|i: int| 0 <= i < m.accepts.len() && m.accepts[i] == x;
        if l.accepts.contains(x) {
            let j = choose|j: int| 0 <= j < l.accepts.len() && l.accepts[j] == x;
        }
        if r.accepts.contains(x) {
            let j = choose|j: int| 0 <= j < r.accepts.len() && r.accepts[j] == x;
        }
    }
}

/// Where no edge of the first of two automata leads into its start state,
/// none of the two in a row does.
pub proof fn lemma_followed_by_opens(a: Automaton, b: Automaton)
    requires
        a.wf(),
        b.wf(),
        a.edges.dom().disjoint(b.edges.dom()),
        start_fresh(a),
    ensures
        start_fresh(a.followed_by(b)),
{
    let m = a.followed_by(b);
    lemma_followed_by_edges(a, b);
    lemma_edges_of_closed(b.edges);
    assert(!(a.edges.dom().contains(a.start) && b.edges.dom().contains(a.start)));
    assert(!(a.edges.dom().contains(b.start) && b.edges.dom().contains(b.start)));
    assert forall|x: StateId, s: Sym| !#[trigger] has_edge(m.edges, x, s, m.start) by {}
}

/// Where no edge of the second of two automata leaves one of its accept
/// states, none of the two in a row does.
pub proof fn lemma_followed_by_closes(a: Automaton, b: Automaton)
    requires
        a.wf(),
        b.wf(),
        a.edges.dom().disjoint(b.edges.dom()),
        accepts_final(b),
    ensures
        accepts_final(a.followed_by(b)),
{
    let m = a.followed_by(b);
    lemma_followed_by_edges(a, b);
    assert forall|x: StateId, s: Sym, t: StateId| m.accepts.contains(x) implies !#[trigger] has_edge(
        m.edges,
        x,
        s,
        t,
    ) by {
        let i = choose|i: int| 0 <= i < b.accepts.len() && b.accepts[i] == x;
        assert(!(a.edges.dom().contains(x) && b.edges.dom().contains(x)));
        if a.accepts.contains(x) {
            let j = choose|j: int| 0 <= j < a.accepts.len() && a.accepts[j] == x;
        }
    }
}

/// No edge of the automaton of a pattern that does not begin with a
/// quantified pattern leads into its start state.
pub proof fn lemma_opens_fresh(p: Ast, k: StateId)
    requires
        k + p.state_count() <= usize::MAX,
        p.opens_fresh(),
    ensures
        start_fresh(p.thompson(k)),
    decreases p, 0nat,
{
    match p {
        Ast::OneOrMore(q) => {},
        Ast::KleeneStar(q) => {},
        Ast::Sequence(ps) => {
            assert(p.thompson(k) == Ast::thompson_chain(ps, k));
            if ps.len() == 0 {
                assert(Ast::thompson_chain(ps, k) == Automaton::atom(Sym::Epsilon, k));
                lemma_atom_fresh(Sym::Epsilon, k);
            } else {
                lemma_chain_opens(ps, k);
            }
        },
        Ast::Or(l, r) => {
            let kl = (k + l.state_count()) as StateId;
            let kr = (k + l.state_count() + r.state_count()) as StateId;
            lemma_thompson_wf(*l, k);
            lemma_thompson_wf(*r, kl);
            lemma_disjoint(l.thompson(k), k as int, kl as int, r.thompson(kl), kr as int);
            lemma_or_fresh(l.thompson(k), r.thompson(kl), kr);
        },
        _ => {
            lemma_atom_fresh(p.atom().unwrap(), k);
        },
    }
}

/// No edge of the automaton of a list of patterns leads into its start
/// state, where the first pattern does not begin with a quantified pattern.
pub proof fn lemma_chain_opens(ps: Seq<Ast>, k: StateId)
    requires
        ps.len() > 0,
        k + Ast::chain_count(ps) <= usize::MAX,
        ps[0].opens_fresh(),
    ensures
        start_fresh(Ast::thompson_chain(ps, k)),
    decreases ps, 1nat,
{
    let front = ps.drop_last();
    if ps.len() == 1 {
        assert(Ast::chain_count(front) == 0);
        lemma_opens_fresh(ps[0], k);
    } else {
        let mid = (k + Ast::chain_count(front)) as StateId;
        lemma_chain_wf(front, k);
        lemma_thompson_wf(ps.last(), mid);
        lemma_disjoint(
            Ast::thompson_chain(front, k),
            k as int,
            mid as int,
            ps.last().thompson(mid),
            k + Ast::chain_count(ps),
        );
        assert(front[0] == ps[0]);
        lemma_chain_opens(front, k);
        lemma_followed_by_opens(Ast::thompson_chain(front, k), ps.last().thompson(mid));
    }
}

/// No edge of the automaton of a pattern that does not end with a
/// quantified pattern leaves one of its accept states.
pub proof fn lemma_closes_fresh(p: Ast, k: StateId)
    requires
        k + p.state_count() <= usize::MAX,
        p.closes_fresh(),
    ensures
        accepts_final(p.thompson(k)),
    decreases p, 0nat,
{
    match p {
        Ast::OneOrMore(q) => {},
        Ast::KleeneStar(q) => {},
        Ast::Sequence(ps) => {
            assert(p.thompson(k) == Ast::thompson_chain(ps, k));
            if ps.len() == 0 {
                assert(Ast::thompson_chain(ps, k) == Automaton::atom(Sym::Epsilon, k));
                lemma_atom_fresh(Sym::Epsilon, k);
            } else if ps.len() == 1 {
                assert(Ast::chain_count(ps.drop_last()) == 0);
                assert(Ast::chain_count(ps) == ps[0].state_count());
                lemma_closes_fresh(ps[0], k);
            } else {
                let front = ps.drop_last();
                assert(Ast::chain_count(ps) == Ast::chain_count(front) + ps.last().state_count());
                let mid = (k + Ast::chain_count(front)) as StateId;
                lemma_chain_wf(front, k);
                lemma_thompson_wf(ps.last(), mid);
                lemma_disjoint(
                    Ast::thompson_chain(front, k),
                    k as int,
                    mid as int,
                    ps.last().thompson(mid),
                    k + Ast::chain_count(ps),
                );
                lemma_closes_fresh(ps.last(), mid);
                lemma_followed_by_closes(Ast::thompson_chain(front, k), ps.last().thompson(mid));
            }
        },
        Ast::Or(l, r) => {
            let kl = (k + l.state_count()) as StateId;
            let kr = (k + l.state_count() + r.state_count()) as StateId;
            lemma_thompson_wf(*l, k);
            lemma_thompson_wf(*r, kl);
            lemma_disjoint(l.thompson(k), k as int, kl as int, r.thompson(kl), kr as int);
            lemma_or_fresh(l.thompson(k), r.thompson(kl), kr);
        },
        _ => {
            lemma_atom_fresh(p.atom().unwrap(), k);
        },
    }
}

/// **Completeness.** The automaton of a pattern accepts every word that
/// the pattern matches.
pub proof fn lemma_thompson_complete(p: Ast, k: StateId, w: Seq<char>)
    requires
        k + p.state_count() <= usize::MAX,
        p.matches(w),
    ensures
        p.thompson(k).accepts(w),
    decreases p, 0nat,
{
    match p {
        Ast::OneOrMore(q) => {
            let a = q.thompson(k);
            let inner = q.language();
            lemma_thompson_wf(*q, k);
            let j = choose|j: int|
                0 <= j <= w.len() && q.matches(#[trigger] w.subrange(0, j)) && star_of(
                    inner,
                    w.subrange(j, w.len() as int),
                );
            lemma_thompson_complete(*q, k, w.subrange(0, j));
            assert forall|u: Seq<char>| #[trigger] inner(u) implies language_of(a)(u) by {
                lemma_thompson_complete(*q, k, u);
            }
            lemma_star_widen(inner, language_of(a), w.subrange(j, w.len() as int));
            lemma_plus_language(a, w);
            assert(p.thompson(k).accepts(w));
        },
        Ast::KleeneStar(q) => {
            let a = q.thompson(k);
            let inner = q.language();
            lemma_thompson_wf(*q, k);
            assert forall|u: Seq<char>| #[trigger] inner(u) implies language_of(a)(u) by {
                lemma_thompson_complete(*q, k, u);
            }
            lemma_star_widen(inner, language_of(a), w);
            lemma_star_language(a, w);
            assert(p.thompson(k).accepts(w));
        },
        Ast::Sequence(ps) => {
            assert(p.thompson(k) == Ast::thompson_chain(ps, k));
            if ps.len() == 0 {
                assert(Ast::thompson_chain(ps, k) == Automaton::atom(Sym::Epsilon, k));
                lemma_atom_language(Sym::Epsilon, k, w);
            } else {
                lemma_chain_complete(ps, k, w);
            }
            assert(p.thompson(k).accepts(w));
        },
        Ast::Or(l, r) => {
            let kl = (k + l.state_count()) as StateId;
            let kr = (k + l.state_count() + r.state_count()) as StateId;
            lemma_thompson_wf(*l, k);
            lemma_thompson_wf(*r, kl);
            lemma_disjoint(l.thompson(k), k as int, kl as int, r.thompson(kl), kr as int);
            if l.matches(w) {
                lemma_thompson_complete(*l, k, w);
            } else {
                lemma_thompson_complete(*r, kl, w);
            }
            lemma_or_language(l.thompson(k), r.thompson(kl), kr, w);
            assert(p.thompson(k).accepts(w));
        },
        _ => {
            lemma_atom_language(p.atom().unwrap(), k, w);
        },
    }
}

/// The automaton of a nonempty list of patterns accepts every word that
/// splits into consecutive pieces matched by the patterns in order.
pub proof fn lemma_chain_complete(ps: Seq<Ast>, k: StateId, w: Seq<char>)
    requires
        ps.len() > 0,
        k + Ast::chain_count(ps) <= usize::MAX,
        Ast::matches_all(ps, w),
    ensures
        Ast::thompson_chain(ps, k).accepts(w),
    decreases ps, 1nat,
{
    let front = ps.drop_last();
    let j = choose|j: int|
        0 <= j <= w.len() && Ast::matches_all(front, #[trigger] w.subrange(0, j))
            && ps.last().matches(w.subrange(j, w.len() as int));
    if ps.len() == 1 {
        assert(Ast::chain_count(front) == 0);
        assert(j == 0);
        assert(w.subrange(0, w.len() as int) =~= w);
        lemma_thompson_complete(ps[0], k, w);
    } else {
        let mid = (k + Ast::chain_count(front)) as StateId;
        let a = Ast::thompson_chain(front, k);
        let b = ps.last().thompson(mid);
        lemma_chain_wf(front, k);
        lemma_thompson_wf(ps.last(), mid);
        lemma_disjoint(a, k as int, mid as int, b, k + Ast::chain_count(ps));
        lemma_chain_complete(front, k, w.subrange(0, j));
        lemma_thompson_complete(ps.last(), mid, w.subrange(j, w.len() as int));
        lemma_followed_by_language(a, b, w);
    }
}

/// **Soundness.** Where every pattern under a `*` neither begins nor ends
/// with a quantified pattern, the automaton of a pattern accepts only words
/// that the pattern matches.
pub proof fn lemma_thompson_sound(p: Ast, k: StateId, w: Seq<char>)
    requires
        k + p.state_count() <= usize::MAX,
        p.star_safe(),
        p.thompson(k).accepts(w),
    ensures
        p.matches(w),
    decreases p, 0nat,
{
    match p {
        Ast::OneOrMore(q) => {
            let a = q.thompson(k);
            let inner = q.language();
            lemma_thompson_wf(*q, k);
            lemma_plus_language(a, w);
            let j = choose|j: int|
                0 <= j <= w.len() && a.accepts(#[trigger] w.subrange(0, j)) && star_of(
                    language_of(a),
                    w.subrange(j, w.len() as int),
                );
            lemma_thompson_sound(*q, k, w.subrange(0, j));
            assert forall|u: Seq<char>| #[trigger] language_of(a)(u) implies inner(u) by {
                lemma_thompson_sound(*q, k, u);
            }
            lemma_star_widen(language_of(a), inner, w.subrange(j, w.len() as int));
        },
        Ast::KleeneStar(q) => {
            let a = q.thompson(k);
            let inner = q.language();
            lemma_thompson_wf(*q, k);
            lemma_opens_fresh(*q, k);
            lemma_closes_fresh(*q, k);
            lemma_star_language(a, w);
            assert forall|u: Seq<char>| #[trigger] language_of(a)(u) implies inner(u) by {
                lemma_thompson_sound(*q, k, u);
            }
            lemma_star_widen(language_of(a), inner, w);
        },
        Ast::Sequence(ps) => {
            assert(p.thompson(k) == Ast::thompson_chain(ps, k));
            if ps.len() == 0 {
                assert(Ast::thompson_chain(ps, k) == Automaton::atom(Sym::Epsilon, k));
                lemma_atom_language(Sym::Epsilon, k, w);
            } else {
                lemma_chain_sound(ps, k, w);
            }
        },
        Ast::Or(l, r) => {
            let kl = (k + l.state_count()) as StateId;
            let kr = (k + l.state_count() + r.state_count()) as StateId;
            lemma_thompson_wf(*l, k);
            lemma_thompson_wf(*r, kl);
            lemma_disjoint(l.thompson(k), k as int, kl as int, r.thompson(kl), kr as int);
            lemma_or_language(l.thompson(k), r.thompson(kl), kr, w);
            if l.thompson(k).accepts(w) {
                lemma_thompson_sound(*l, k, w);
            } else {
                lemma_thompson_sound(*r, kl, w);
            }
        },
        _ => {
            lemma_atom_language(p.atom().unwrap(), k, w);
        },
    }
}

/// The automaton of a nonempty list of such patterns accepts only words
/// that split into consecutive pieces matched by the patterns in order.
pub proof fn lemma_chain_sound(ps: Seq<Ast>, k: StateId, w: Seq<char>)
    requires
        ps.len() > 0,
        k + Ast::chain_count(ps) <= usize::MAX,
        forall|i: int| 0 <= i < ps.len() ==> (#[trigger] ps[i]).star_safe(),
        Ast::thompson_chain(ps, k).accepts(w),
    ensures
        Ast::matches_all(ps, w),
    decreases ps, 1nat,
{
    let front = ps.drop_last();
    if ps.len() == 1 {
        assert(Ast::chain_count(front) == 0);
        lemma_thompson_sound(ps[0], k, w);
        assert(w.subrange(0, 0).len() == 0);
        assert(w.subrange(0, w.len() as int) =~= w);
        assert(Ast::matches_all(front, w.subrange(0, 0)) && ps.last().matches(
            w.subrange(0, w.len() as int),
        ));
    } else {
        let mid = (k + Ast::chain_count(front)) as StateId;
        let a = Ast::thompson_chain(front, k);
        let b = ps.last().thompson(mid);
        lemma_chain_wf(front, k);
        lemma_thompson_wf(ps.last(), mid);
        lemma_disjoint(a, k as int, mid as int, b, k + Ast::chain_count(ps));
        lemma_followed_by_language(a, b, w);
        let j = choose|j: int|
            0 <= j <= w.len() && a.accepts(#[trigger] w.subrange(0, j)) && b.accepts(
                w.subrange(j, w.len() as int),
            );
        assert forall|i: int| 0 <= i < front.len() implies (#[trigger] front[i]).star_safe() by {
            assert(front[i] == ps[i]);
        }
        lemma_chain_sound(front, k, w.subrange(0, j));
        lemma_thompson_sound(ps.last(), mid, w.subrange(j, w.len() as int));
    }
}

/// Whether every pattern of the list is one that the automaton is exact for.
pub open spec fn all_star_safe(ps: Seq<Ast>) -> bool {
    forall|i: int| 0 <= i < ps.len() ==> (#[trigger] ps[i]).star_safe()
}

/// **Soundness for the empty word.** The automaton of a pattern, whatever
/// the pattern, accepts the empty word only where the pattern matches it.
pub proof fn lemma_accepts_empty(p: Ast, k: StateId)
    requires
        k + p.state_count() <= usize::MAX,
        p.thompson(k).accepts(Seq::empty()),
    ensures
        p.matches(Seq::empty()),
    decreases p, 0nat,
{
    let e = Seq::<char>::empty();
    match p {
        Ast::OneOrMore(q) => {
            let a = q.thompson(k);
            lemma_thompson_wf(*q, k);
            lemma_plus_language(a, e);
            let j = choose|j: int|
                0 <= j <= e.len() && a.accepts(#[trigger] e.subrange(0, j)) && star_of(
                    language_of(a),
                    e.subrange(j, e.len() as int),
                );
            assert(e.subrange(0, j) =~= e);
            lemma_accepts_empty(*q, k);
            assert(q.matches(e.subrange(0, 0)) && star_of(q.language(), e.subrange(0, 0)));
        },
        Ast::KleeneStar(q) => {},
        Ast::Sequence(ps) => {
            assert(p.thompson(k) == Ast::thompson_chain(ps, k));
            if ps.len() == 0 {
                assert(Ast::matches_all(ps, e));
            } else {
                lemma_chain_accepts_empty(ps, k);
            }
        },
        Ast::Or(l, r) => {
            let kl = (k + l.state_count()) as StateId;
            let kr = (k + l.state_count() + r.state_count()) as StateId;
            lemma_thompson_wf(*l, k);
            lemma_thompson_wf(*r, kl);
            lemma_disjoint(l.thompson(k), k as int, kl as int, r.thompson(kl), kr as int);
            lemma_or_language(l.thompson(k), r.thompson(kl), kr, e);
            if l.thompson(k).accepts(e) {
                lemma_accepts_empty(*l, k);
            } else {
                lemma_accepts_empty(*r, kl);
            }
        },
        _ => {
            lemma_atom_language(p.atom().unwrap(), k, e);
        },
    }
}

/// The automaton of a nonempty list of patterns accepts the empty word
/// only where each pattern of the list matches it.
pub proof fn lemma_chain_accepts_empty(ps: Seq<Ast>, k: StateId)
    requires
        ps.len() > 0,
        k + Ast::chain_count(ps) <= usize::MAX,
        Ast::thompson_chain(ps, k).accepts(Seq::empty()),
    ensures
        Ast::matches_all(ps, Seq::empty()),
    decreases ps, 1nat,
{
    let e = Seq::<char>::empty();
    let front = ps.drop_last();
    if ps.len() == 1 {
        assert(Ast::chain_count(front) == 0);
        lemma_accepts_empty(ps[0], k);
        assert(e.subrange(0, 0) =~= e);
        assert(Ast::matches_all(front, e.subrange(0, 0)) && ps.last().matches(
            e.subrange(0, e.len() as int),
        ));
    } else {
        let mid = (k + Ast::chain_count(front)) as StateId;
        let a = Ast::thompson_chain(front, k);
        let b = ps.last().thompson(mid);
        lemma_chain_wf(front, k);
        lemma_thompson_wf(ps.last(), mid);
        lemma_disjoint(a, k as int, mid as int, b, k + Ast::chain_count(ps));
        lemma_followed_by_language(a, b, e);
        let j = choose|j: int|
            0 <= j <= e.len() && a.accepts(#[trigger] e.subrange(0, j)) && b.accepts(
                e.subrange(j, e.len() as int),
            );
        assert(e.subrange(0, j) =~= e);
        lemma_chain_accepts_empty(front, k);
        lemma_accepts_empty(ps.last(), mid);
        assert(Ast::matches_all(front, e.subrange(0, 0)) && ps.last().matches(
            e.subrange(0, e.len() as int),
        ));
    }
}

/// Whether no edge of `g` can be taken by consuming `c`.
pub open spec fn graph_avoids(g: Graph, c: char) -> bool {
    forall|x: StateId, sym: Sym, t: StateId| #[trigger] has_edge(g, x, sym, t) ==> !sym.accepts(c)
}

/// Where no edge consumes `c`, no path consumes a word that holds `c`.
pub proof fn lemma_walk_avoids(g: Graph, c: char, a: StateId, w: Seq<char>, b: StateId, n: nat)
    requires
        graph_avoids(g, c),
        walks(g, a, w, b, n),
    ensures
        !w.contains(c),
    decreases n,
{
    if n > 0 {
        let (sym, t) = choose|sym: Sym, t: StateId| #[trigger]
            has_edge(g, a, sym, t) && continues(g, sym, t, w, b, (n - 1) as nat);
        if sym is Epsilon {
            lemma_walk_avoids(g, c, t, w, b, (n - 1) as nat);
        } else {
            lemma_walk_avoids(g, c, t, w.drop_first(), b, (n - 1) as nat);
            if w.contains(c) {
                let i = choose|i: int| 0 <= i < w.len() && w[i] == c;
                if i > 0 {
                    assert(w.drop_first()[i - 1] == c);
                }
            }
        }
    } else if w.contains(c) {
        let i = choose|i: int| 0 <= i < w.len() && w[i] == c;
    }
}

/// No edge of the automaton of a pattern without anchors that consumes the
/// marker nowhere consumes the marker.
pub proof fn lemma_thompson_avoids(p: Ast, k: StateId)
    requires
        k + p.state_count() <= usize::MAX,
        p.marker_free(),
    ensures
        graph_avoids(p.thompson(k).edges, SPECIAL_MARKER),
    decreases p, 0nat,
{
    match p {
        Ast::OneOrMore(q) => {
            let a = q.thompson(k);
            lemma_thompson_wf(*q, k);
            lemma_thompson_avoids(*q, k);
            lemma_link(a.edges, a.accepts, a.start);
        },
        Ast::KleeneStar(q) => {
            let a = q.thompson(k);
            lemma_thompson_wf(*q, k);
            lemma_thompson_avoids(*q, k);
            lemma_star_edges(a);
        },
        Ast::Sequence(ps) => {
            assert(p.thompson(k) == Ast::thompson_chain(ps, k));
            if ps.len() == 0 {
                assert(Ast::thompson_chain(ps, k) == Automaton::atom(Sym::Epsilon, k));
                lemma_atom_avoids(Sym::Epsilon, k, SPECIAL_MARKER);
            } else {
                lemma_chain_avoids(ps, k);
            }
        },
        Ast::Or(l, r) => {
            let kl = (k + l.state_count()) as StateId;
            let kr = (k + l.state_count() + r.state_count()) as StateId;
            lemma_thompson_wf(*l, k);
            lemma_thompson_wf(*r, kl);
            lemma_disjoint(l.thompson(k), k as int, kl as int, r.thompson(kl), kr as int);
            lemma_thompson_avoids(*l, k);
            lemma_thompson_avoids(*r, kl);
            lemma_or_edges(l.thompson(k), r.thompson(kl), kr);
        },
        _ => {
            lemma_atom_avoids(p.atom().unwrap(), k, SPECIAL_MARKER);
        },
    }
}

/// No edge of the automaton of a single edge consumes what its label does
/// not accept.
pub proof fn lemma_atom_avoids(sym: Sym, k: StateId, c: char)
    requires
        k + 2 <= usize::MAX,
        !sym.accepts(c),
    ensures
        graph_avoids(Automaton::atom(sym, k).edges, c),
{
    let g = Automaton::atom(sym, k).edges;
    assert forall|x: StateId, s: Sym, t: StateId| #[trigger] has_edge(g, x, s, t) implies !s.accepts(
        c,
    ) by {
        let j = choose|j: int| 0 <= j < g[x].len() && g[x][j] == (s, t);
    }
}

/// No edge of the automaton of a nonempty list of such patterns consumes
/// the marker.
pub proof fn lemma_chain_avoids(ps: Seq<Ast>, k: StateId)
    requires
        ps.len() > 0,
        k + Ast::chain_count(ps) <= usize::MAX,
        forall|i: int| 0 <= i < ps.len() ==> (#[trigger] ps[i]).marker_free(),
    ensures
        graph_avoids(Ast::thompson_chain(ps, k).edges, SPECIAL_MARKER),
    decreases ps, 1nat,
{
    let front = ps.drop_last();
    if ps.len() == 1 {
        assert(Ast::chain_count(front) == 0);
        lemma_thompson_avoids(ps[0], k);
    } else {
        let mid = (k + Ast::chain_count(front)) as StateId;
        let a = Ast::thompson_chain(front, k);
        let b = ps.last().thompson(mid);
        lemma_chain_wf(front, k);
        lemma_thompson_wf(ps.last(), mid);
        lemma_disjoint(a, k as int, mid as int, b, k + Ast::chain_count(ps));
        assert forall|i: int| 0 <= i < front.len() implies (#[trigger] front[i]).marker_free() by {
            assert(front[i] == ps[i]);
        }
        lemma_chain_avoids(front, k);
        lemma_thompson_avoids(ps.last(), mid);
        lemma_followed_by_edges(a, b);
    }
}

/// The automaton of a pattern without anchors that consumes the marker
/// nowhere accepts only words without the marker, whatever the pattern.
pub proof fn lemma_accepts_marker_free(p: Ast, k: StateId, w: Seq<char>)
    requires
        k + p.state_count() <= usize::MAX,
        p.marker_free(),
        p.thompson(k).accepts(w),
    ensures
        !w.contains(SPECIAL_MARKER),
{
    let a = p.thompson(k);
    lemma_thompson_avoids(p, k);
    let i = choose|i: int|
        0 <= i < a.accepts.len() && reaches(a.edges, a.start, w, #[trigger] a.accepts[i]);
    let n = choose|n: nat| walks(a.edges, a.start, w, a.accepts[i], n);
    lemma_walk_avoids(a.edges, SPECIAL_MARKER, a.start, w, a.accepts[i], n);
}


/// The automaton of a nonempty list of patterns starts where the automaton
/// of the first pattern starts, and accepts where that of the last accepts.
pub proof fn lemma_chain_ends(ps: Seq<Ast>, k: StateId)
    requires
        ps.len() > 0,
    ensures
        Ast::thompson_chain(ps, k).start == ps[0].thompson(k).start,
        Ast::thompson_chain(ps, k).accepts == ps.last().thompson(
            (k + Ast::chain_count(ps.drop_last())) as StateId,
        ).accepts,
    decreases ps.len(),
{
    let front = ps.drop_last();
    if ps.len() == 1 {
        assert(Ast::chain_count(front) == 0);
    } else {
        lemma_chain_ends(front, k);
        assert(front[0] == ps[0]);
    }
}

/// **Concatenation, for lists.** The automaton of a list of patterns
/// accepts exactly the words that split into consecutive pieces of which
/// the automata of the patterns accept one each, in order.
pub proof fn lemma_chain_language(ps: Seq<Ast>, k: StateId, w: Seq<char>)
    requires
        k + Ast::Sequence(ps).state_count() <= usize::MAX,
    ensures
        Ast::thompson_chain(ps, k).accepts(w) <==> Ast::accepted_in_turn(ps, k, w),
    decreases ps.len(),
{
    let front = ps.drop_last();
    if ps.len() == 0 {
        assert(Ast::thompson_chain(ps, k) == Automaton::atom(Sym::Epsilon, k));
        lemma_atom_language(Sym::Epsilon, k, w);
    } else if ps.len() == 1 {
        let a = ps[0].thompson(k);
        assert(Ast::chain_count(front) == 0);
        assert(Ast::thompson_chain(ps, k) == a);
        if a.accepts(w) {
            assert(w.subrange(0, 0).len() == 0);
            assert(w.subrange(0, w.len() as int) =~= w);
            assert(Ast::accepted_in_turn(front, k, w.subrange(0, 0)) && a.accepts(
                w.subrange(0, w.len() as int),
            ));
        }
        if Ast::accepted_in_turn(ps, k, w) {
            let j = choose|j: int|
                0 <= j <= w.len() && Ast::accepted_in_turn(front, k, #[trigger] w.subrange(0, j))
                    && a.accepts(w.subrange(j, w.len() as int));
            assert(j == 0);
            assert(w.subrange(0, w.len() as int) =~= w);
        }
    } else {
        let mid = (k + Ast::chain_count(front)) as StateId;
        let a = Ast::thompson_chain(front, k);
        let b = ps.last().thompson(mid);
        assert(Ast::chain_count(ps) == Ast::chain_count(front) + ps.last().state_count());
        lemma_chain_wf(front, k);
        lemma_thompson_wf(ps.last(), mid);
        lemma_disjoint(a, k as int, mid as int, b, k + Ast::chain_count(ps));
        lemma_followed_by_language(a, b, w);
        assert forall|j: int| 0 <= j <= w.len() implies (a.accepts(#[trigger] w.subrange(0, j))
            <==> Ast::accepted_in_turn(front, k, w.subrange(0, j))) by {
            lemma_chain_language(front, k, w.subrange(0, j));
        }
        if a.followed_by(b).accepts(w) {
            let j = choose|j: int|
                0 <= j <= w.len() && a.accepts(#[trigger] w.subrange(0, j)) && b.accepts(
                    w.subrange(j, w.len() as int),
                );
            assert(Ast::accepted_in_turn(front, k, w.subrange(0, j)) && b.accepts(
                w.subrange(j, w.len() as int),
            ));
        }
        if Ast::accepted_in_turn(ps, k, w) {
            let j = choose|j: int|
                0 <= j <= w.len() && Ast::accepted_in_turn(front, k, #[trigger] w.subrange(0, j))
                    && b.accepts(w.subrange(j, w.len() as int));
            assert(a.accepts(w.subrange(0, j)) && b.accepts(w.subrange(j, w.len() as int)));
        }
    }
}

} // verus!
