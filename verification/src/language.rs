//! The words that the automata of the construction accept, stated over the
//! words that their parts accept.

use crate::builder::{lemma_edges_of_closed, lemma_fan_out, lemma_link, link};
use crate::label::Sym;
use crate::nfa::{
    continues, has_edge, lemma_char_edge, lemma_epsilon_edge, lemma_reaches_concat,
    lemma_reaches_self, reaches, walks, Automaton, Graph, StateId,
};
use crate::pattern::star_of;
use vstd::prelude::*;

verus! {

/// The set of words that `a` accepts, as a predicate.
pub open spec fn language_of(a: Automaton) -> spec_fn(Seq<char>) -> bool {
    |w: Seq<char>| a.accepts(w)
}

/// Whether some path from `x` consumes a front part of `w` and ends in one
/// of `stops`, while `rest` holds of what is left of `w`.
pub open spec fn stops_in(
    g: Graph,
    x: StateId,
    w: Seq<char>,
    stops: Seq<StateId>,
    rest: spec_fn(Seq<char>) -> bool,
) -> bool {
    exists|k: int, i: int|
        0 <= k <= w.len() && 0 <= i < stops.len() && #[trigger] reaches(
            g,
            x,
            w.subrange(0, k),
            stops[i],
        ) && rest(w.subrange(k, w.len() as int))
}

/// A path in a graph is a path in every graph that has all its edges.
pub proof fn lemma_walks_embed(g: Graph, h: Graph, a: StateId, w: Seq<char>, b: StateId, n: nat)
    requires
        forall|x: StateId, sym: Sym, t: StateId| #[trigger]
            has_edge(g, x, sym, t) ==> has_edge(h, x, sym, t),
        walks(g, a, w, b, n),
    ensures
        walks(h, a, w, b, n),
    decreases n,
{
    if n > 0 {
        let (sym, t) = choose|sym: Sym, t: StateId| #[trigger]
            has_edge(g, a, sym, t) && continues(g, sym, t, w, b, (n - 1) as nat);
        if sym is Epsilon {
            lemma_walks_embed(g, h, t, w, b, (n - 1) as nat);
        } else {
            lemma_walks_embed(g, h, t, w.drop_first(), b, (n - 1) as nat);
        }
        assert(has_edge(h, a, sym, t) && continues(h, sym, t, w, b, (n - 1) as nat));
    }
}

/// What `reaches` in a graph, `reaches` in every graph that has all its edges.
pub proof fn lemma_reaches_embed(g: Graph, h: Graph, a: StateId, w: Seq<char>, b: StateId)
    requires
        forall|x: StateId, sym: Sym, t: StateId| #[trigger]
            has_edge(g, x, sym, t) ==> has_edge(h, x, sym, t),
        reaches(g, a, w, b),
    ensures
        reaches(h, a, w, b),
{
    let n = choose|n: nat| walks(g, a, w, b, n);
    lemma_walks_embed(g, h, a, w, b, n);
}

/// A path of `h` that starts inside a region which no edge of `h` leaves,
/// and in which `h` has only edges of `g`, is a path of `g` that stays
/// inside the region.
pub proof fn lemma_walks_frame(
    g: Graph,
    h: Graph,
    inside: Set<StateId>,
    a: StateId,
    w: Seq<char>,
    b: StateId,
    n: nat,
)
    requires
        forall|x: StateId, sym: Sym, t: StateId|
            inside.contains(x) && #[trigger] has_edge(h, x, sym, t) ==> has_edge(g, x, sym, t)
                && inside.contains(t),
        inside.contains(a),
        walks(h, a, w, b, n),
    ensures
        walks(g, a, w, b, n),
        inside.contains(b),
    decreases n,
{
    if n > 0 {
        let (sym, t) = choose|sym: Sym, t: StateId| #[trigger]
            has_edge(h, a, sym, t) && continues(h, sym, t, w, b, (n - 1) as nat);
        if sym is Epsilon {
            lemma_walks_frame(g, h, inside, t, w, b, (n - 1) as nat);
        } else {
            lemma_walks_frame(g, h, inside, t, w.drop_first(), b, (n - 1) as nat);
        }
        assert(has_edge(g, a, sym, t) && continues(g, sym, t, w, b, (n - 1) as nat));
    }
}

/// An edge followed by a path is a path.
pub proof fn lemma_reaches_step(
    g: Graph,
    a: StateId,
    sym: Sym,
    t: StateId,
    w: Seq<char>,
    b: StateId,
)
    requires
        has_edge(g, a, sym, t),
        if sym is Epsilon {
            reaches(g, t, w, b)
        } else {
            w.len() > 0 && sym.accepts(w[0]) && reaches(g, t, w.drop_first(), b)
        },
    ensures
        reaches(g, a, w, b),
{
    if sym is Epsilon {
        let n = choose|n: nat| walks(g, t, w, b, n);
        assert(continues(g, sym, t, w, b, n));
        assert(walks(g, a, w, b, n + 1));
    } else {
        let n = choose|n: nat| walks(g, t, w.drop_first(), b, n);
        assert(continues(g, sym, t, w, b, n));
        assert(walks(g, a, w, b, n + 1));
    }
}

/// A state among the stops stops at once, with all of the word left.
pub proof fn lemma_stops_here(
    g: Graph,
    x: StateId,
    w: Seq<char>,
    stops: Seq<StateId>,
    rest: spec_fn(Seq<char>) -> bool,
)
    requires
        stops.contains(x),
        rest(w),
    ensures
        stops_in(g, x, w, stops, rest),
{
    let i = choose|i: int| 0 <= i < stops.len() && stops[i] == x;
    lemma_reaches_self(g, x);
    assert(w.subrange(0, 0) =~= Seq::<char>::empty());
    assert(w.subrange(0, w.len() as int) =~= w);
    assert(reaches(g, x, w.subrange(0, 0), stops[i]));
}

/// An edge before a path that stops keeps the rest as it is.
pub proof fn lemma_stops_after_edge(
    g: Graph,
    x: StateId,
    sym: Sym,
    t: StateId,
    w: Seq<char>,
    stops: Seq<StateId>,
    rest: spec_fn(Seq<char>) -> bool,
)
    requires
        has_edge(g, x, sym, t),
        if sym is Epsilon {
            stops_in(g, t, w, stops, rest)
        } else {
            w.len() > 0 && sym.accepts(w[0]) && stops_in(g, t, w.drop_first(), stops, rest)
        },
    ensures
        stops_in(g, x, w, stops, rest),
{
    if sym is Epsilon {
        let (k, i) = choose|k: int, i: int|
            0 <= k <= w.len() && 0 <= i < stops.len() && #[trigger] reaches(
                g,
                t,
                w.subrange(0, k),
                stops[i],
            ) && rest(w.subrange(k, w.len() as int));
        lemma_reaches_step(g, x, sym, t, w.subrange(0, k), stops[i]);
    } else {
        let v = w.drop_first();
        let (k, i) = choose|k: int, i: int|
            0 <= k <= v.len() && 0 <= i < stops.len() && #[trigger] reaches(
                g,
                t,
                v.subrange(0, k),
                stops[i],
            ) && rest(v.subrange(k, v.len() as int));
        assert(w.subrange(0, k + 1).drop_first() =~= v.subrange(0, k));
        assert(w.subrange(k + 1, w.len() as int) =~= v.subrange(k, v.len() as int));
        lemma_reaches_step(g, x, sym, t, w.subrange(0, k + 1), stops[i]);
    }
}

/// The automaton of a single edge accepts the words of one character that
/// its label accepts, or, for an epsilon edge, the empty word alone.
pub proof fn lemma_atom_language(sym: Sym, k: StateId, w: Seq<char>)
    requires
        k + 2 <= usize::MAX,
    ensures
        Automaton::atom(sym, k).accepts(w) <==> if sym is Epsilon {
            w.len() == 0
        } else {
            w.len() == 1 && sym.accepts(w[0])
        },
{
    let a = Automaton::atom(sym, k);
    let g = a.edges;
    let end = (k + 1) as StateId;
    let start = (k + 2) as StateId;
    assert(a.accepts[0] == end);
    assert(g[start][0] == (sym, end));
    assert(has_edge(g, start, sym, end));
    if a.accepts(w) {
        let i = choose|i: int|
            0 <= i < a.accepts.len() && reaches(g, a.start, w, #[trigger] a.accepts[i]);
        let n = choose|n: nat| walks(g, start, w, end, n);
        let (s1, t1) = choose|s1: Sym, t1: StateId| #[trigger]
            has_edge(g, start, s1, t1) && continues(g, s1, t1, w, end, (n - 1) as nat);
        let j = choose|j: int| 0 <= j < g[start].len() && g[start][j] == (s1, t1);
        assert(s1 == sym && t1 == end);
        let rest = if sym is Epsilon {
            w
        } else {
            w.drop_first()
        };
        assert(walks(g, end, rest, end, (n - 1) as nat));
        if n - 1 > 0 {
            let (s2, t2) = choose|s2: Sym, t2: StateId| #[trigger]
                has_edge(g, end, s2, t2) && continues(g, s2, t2, rest, end, (n - 2) as nat);
            let j2 = choose|j2: int| 0 <= j2 < g[end].len() && g[end][j2] == (s2, t2);
        }
    }
    if sym is Epsilon && w.len() == 0 {
        lemma_epsilon_edge(g, start, end);
        assert(w =~= Seq::<char>::empty());
        assert(reaches(g, a.start, w, a.accepts[0]));
    }
    if !(sym is Epsilon) && w.len() == 1 && sym.accepts(w[0]) {
        lemma_char_edge(g, start, sym, w[0], end);
        assert(w =~= seq![w[0]]);
        assert(reaches(g, a.start, w, a.accepts[0]));
    }
}

/// The edges of one automaton followed by another: those of the two, and
/// an epsilon edge from each accept state of the first to the start state
/// of the second.
pub proof fn lemma_followed_by_edges(a: Automaton, b: Automaton)
    requires
        a.wf(),
        b.wf(),
        a.edges.dom().disjoint(b.edges.dom()),
    ensures
        forall|x: StateId, sym: Sym, t: StateId| #[trigger]
            has_edge(a.followed_by(b).edges, x, sym, t) <==> has_edge(a.edges, x, sym, t)
                || has_edge(b.edges, x, sym, t) || (a.accepts.contains(x) && sym == Sym::Epsilon
                && t == b.start),
{
    let both = a.edges.union_prefer_right(b.edges);
    lemma_link(both, a.accepts, b.start);
    assert forall|x: StateId, sym: Sym, t: StateId| #[trigger]
        has_edge(both, x, sym, t) <==> has_edge(a.edges, x, sym, t) || has_edge(
            b.edges,
            x,
            sym,
            t,
        ) by {
        if a.edges.contains_key(x) && b.edges.contains_key(x) {
            assert(a.edges.dom().contains(x) && b.edges.dom().contains(x));
        }
    }
}

/// A path through one automaton followed by another, from a state of the
/// first to a state `y` of the second, stops at an accept state of the
/// first, and the second consumes the rest from its start state to `y`.
pub proof fn lemma_followed_by_walk(
    a: Automaton,
    b: Automaton,
    x: StateId,
    w: Seq<char>,
    y: StateId,
    n: nat,
)
    requires
        a.wf(),
        b.wf(),
        a.edges.dom().disjoint(b.edges.dom()),
        a.edges.contains_key(x),
        b.edges.contains_key(y),
        walks(a.followed_by(b).edges, x, w, y, n),
    ensures
        stops_in(a.edges, x, w, a.accepts, |v: Seq<char>| reaches(b.edges, b.start, v, y)),
    decreases n,
{
    let h = a.followed_by(b).edges;
    let rest = |v: Seq<char>| reaches(b.edges, b.start, v, y);
    lemma_followed_by_edges(a, b);
    lemma_edges_of_closed(a.edges);
    lemma_edges_of_closed(b.edges);
    assert(!(a.edges.dom().contains(y) && b.edges.dom().contains(y)));
    assert(!(a.edges.dom().contains(x) && b.edges.dom().contains(x)));
    assert(n > 0);
    let (sym, t) = choose|sym: Sym, t: StateId| #[trigger]
        has_edge(h, x, sym, t) && continues(h, sym, t, w, y, (n - 1) as nat);
    if has_edge(a.edges, x, sym, t) {
        if sym is Epsilon {
            lemma_followed_by_walk(a, b, t, w, y, (n - 1) as nat);
        } else {
            lemma_followed_by_walk(a, b, t, w.drop_first(), y, (n - 1) as nat);
        }
        lemma_stops_after_edge(a.edges, x, sym, t, w, a.accepts, rest);
    } else {
        assert(a.accepts.contains(x) && sym == Sym::Epsilon && t == b.start);
        assert forall|x2: StateId, s2: Sym, t2: StateId|
            b.edges.dom().contains(x2) && #[trigger] has_edge(h, x2, s2, t2) implies has_edge(
            b.edges,
            x2,
            s2,
            t2,
        ) && b.edges.dom().contains(t2) by {
            assert(!(a.edges.dom().contains(x2) && b.edges.dom().contains(x2)));
            if a.accepts.contains(x2) {
                let i = choose|i: int| 0 <= i < a.accepts.len() && a.accepts[i] == x2;
            }
        }
        lemma_walks_frame(b.edges, h, b.edges.dom(), b.start, w, y, (n - 1) as nat);
        assert(rest(w));
        lemma_stops_here(a.edges, x, w, a.accepts, rest);
    }
}

/// **Concatenation.** One automaton followed by another accepts a word exactly
/// when the word splits into a front part that the first accepts and a rest
/// that the second accepts.
pub proof fn lemma_followed_by_language(a: Automaton, b: Automaton, w: Seq<char>)
    requires
        a.wf(),
        b.wf(),
        a.edges.dom().disjoint(b.edges.dom()),
    ensures
        a.followed_by(b).accepts(w) <==> exists|k: int|
            0 <= k <= w.len() && a.accepts(#[trigger] w.subrange(0, k)) && b.accepts(
                w.subrange(k, w.len() as int),
            ),
{
    let m = a.followed_by(b);
    let h = m.edges;
    lemma_followed_by_edges(a, b);
    if m.accepts(w) {
        let i = choose|i: int|
            0 <= i < m.accepts.len() && reaches(h, m.start, w, #[trigger] m.accepts[i]);
        let y = b.accepts[i];
        let n = choose|n: nat| walks(h, a.start, w, y, n);
        lemma_followed_by_walk(a, b, a.start, w, y, n);
        let rest = |v: Seq<char>| reaches(b.edges, b.start, v, y);
        let (k, j) = choose|k: int, j: int|
            0 <= k <= w.len() && 0 <= j < a.accepts.len() && #[trigger] reaches(
                a.edges,
                a.start,
                w.subrange(0, k),
                a.accepts[j],
            ) && rest(w.subrange(k, w.len() as int));
        assert(reaches(b.edges, b.start, w.subrange(k, w.len() as int), b.accepts[i]));
        assert(a.accepts(w.subrange(0, k)) && b.accepts(w.subrange(k, w.len() as int)));
    }
    if exists|k: int|
        0 <= k <= w.len() && a.accepts(#[trigger] w.subrange(0, k)) && b.accepts(
            w.subrange(k, w.len() as int),
        ) {
        let k = choose|k: int|
            0 <= k <= w.len() && a.accepts(#[trigger] w.subrange(0, k)) && b.accepts(
                w.subrange(k, w.len() as int),
            );
        let front = w.subrange(0, k);
        let back = w.subrange(k, w.len() as int);
        let i = choose|i: int|
            0 <= i < a.accepts.len() && reaches(a.edges, a.start, front, #[trigger] a.accepts[i]);
        let j = choose|j: int|
            0 <= j < b.accepts.len() && reaches(b.edges, b.start, back, #[trigger] b.accepts[j]);
        lemma_reaches_embed(a.edges, h, a.start, front, a.accepts[i]);
        lemma_reaches_embed(b.edges, h, b.start, back, b.accepts[j]);
        assert(a.accepts.contains(a.accepts[i]));
        assert(has_edge(h, a.accepts[i], Sym::Epsilon, b.start));
        lemma_reaches_step(h, a.accepts[i], Sym::Epsilon, b.start, back, b.accepts[j]);
        lemma_reaches_concat(h, a.start, front, a.accepts[i], back, b.accepts[j]);
        assert(front + back =~= w);
        assert(reaches(h, m.start, w, m.accepts[j]));
    }
}

/// The edges of an alternation: those of the two branches, an epsilon edge
/// from each accept state of a branch to the new accept state, and an
/// epsilon edge from the new start state to the start state of each branch.
pub proof fn lemma_or_edges(l: Automaton, r: Automaton, k: StateId)
    requires
        l.wf(),
        r.wf(),
        l.edges.dom().disjoint(r.edges.dom()),
        forall|id: StateId| l.edges.contains_key(id) || r.edges.contains_key(id) ==> id <= k,
        k + 2 <= usize::MAX,
    ensures
        forall|x: StateId, sym: Sym, t: StateId| #[trigger]
            has_edge(Automaton::or(l, r, k).edges, x, sym, t) <==> has_edge(l.edges, x, sym, t)
                || has_edge(r.edges, x, sym, t) || ((l.accepts.contains(x) || r.accepts.contains(
                x,
            )) && sym == Sym::Epsilon && t == (k + 1) as StateId) || (x == (k + 2) as StateId
                && sym == Sym::Epsilon && (t == l.start || t == r.start)),
{
    let end = (k + 1) as StateId;
    let start = (k + 2) as StateId;
    let m = Automaton::or(l, r, k);
    let ll = link(l.edges, l.accepts, end);
    let rl = link(r.edges, r.accepts, end);
    let fan = seq![(Sym::Epsilon, l.start), (Sym::Epsilon, r.start)];
    lemma_link(l.edges, l.accepts, end);
    lemma_link(r.edges, r.accepts, end);
    assert forall|x: StateId, sym: Sym, t: StateId| #[trigger]
        has_edge(m.edges, x, sym, t) <==> has_edge(l.edges, x, sym, t) || has_edge(
            r.edges,
            x,
            sym,
            t,
        ) || ((l.accepts.contains(x) || r.accepts.contains(x)) && sym == Sym::Epsilon && t == end)
            || (x == start && sym == Sym::Epsilon && (t == l.start || t == r.start)) by {
        assert(!(l.edges.dom().contains(x) && r.edges.dom().contains(x)));
        if l.accepts.contains(x) {
            let i = choose|i: int| 0 <= i < l.accepts.len() && l.accepts[i] == x;
        }
        if r.accepts.contains(x) {
            let i = choose|i: int| 0 <= i < r.accepts.len() && r.accepts[i] == x;
        }
        if x == start {
            assert(m.edges[x] == fan);
            assert(fan[0] == (Sym::Epsilon, l.start));
            assert(fan[1] == (Sym::Epsilon, r.start));
            if fan.contains((sym, t)) {
                let j = choose|j: int| 0 <= j < fan.len() && fan[j] == (sym, t);
            }
        } else if x == end {
            assert(m.edges[x] == Seq::<(Sym, StateId)>::empty());
        } else if r.edges.contains_key(x) {
            assert(m.edges[x] == rl[x]);
            assert(has_edge(m.edges, x, sym, t) <==> has_edge(rl, x, sym, t));
        } else if l.edges.contains_key(x) {
            assert(m.edges[x] == ll[x]);
            assert(has_edge(m.edges, x, sym, t) <==> has_edge(ll, x, sym, t));
        } else {
            assert(!m.edges.contains_key(x));
        }
    }
}

/// A path in an alternation from a state of one branch to the new accept
/// state consumes a word that takes the branch from that state to one of
/// its accept states.
pub proof fn lemma_or_walk(
    l: Automaton,
    r: Automaton,
    k: StateId,
    left: bool,
    x: StateId,
    w: Seq<char>,
    n: nat,
)
    requires
        l.wf(),
        r.wf(),
        l.edges.dom().disjoint(r.edges.dom()),
        forall|id: StateId| l.edges.contains_key(id) || r.edges.contains_key(id) ==> id <= k,
        k + 2 <= usize::MAX,
        if left {
            l.edges.contains_key(x)
        } else {
            r.edges.contains_key(x)
        },
        walks(Automaton::or(l, r, k).edges, x, w, (k + 1) as StateId, n),
    ensures
        stops_in(
            if left {
                l.edges
            } else {
                r.edges
            },
            x,
            w,
            if left {
                l.accepts
            } else {
                r.accepts
            },
            |v: Seq<char>| v.len() == 0,
        ),
    decreases n,
{
    let h = Automaton::or(l, r, k).edges;
    let end = (k + 1) as StateId;
    let branch = if left {
        l
    } else {
        r
    };
    let rest = |v: Seq<char>| v.len() == 0;
    lemma_or_edges(l, r, k);
    lemma_edges_of_closed(l.edges);
    lemma_edges_of_closed(r.edges);
    assert(!(l.edges.dom().contains(x) && r.edges.dom().contains(x)));
    assert(n > 0);
    let (sym, t) = choose|sym: Sym, t: StateId| #[trigger]
        has_edge(h, x, sym, t) && continues(h, sym, t, w, end, (n - 1) as nat);
    if has_edge(branch.edges, x, sym, t) {
        if sym is Epsilon {
            lemma_or_walk(l, r, k, left, t, w, (n - 1) as nat);
        } else {
            lemma_or_walk(l, r, k, left, t, w.drop_first(), (n - 1) as nat);
        }
        lemma_stops_after_edge(branch.edges, x, sym, t, w, branch.accepts, rest);
    } else {
        assert(sym == Sym::Epsilon && t == end);
        if l.accepts.contains(x) {
            let i = choose|i: int| 0 <= i < l.accepts.len() && l.accepts[i] == x;
        }
        if r.accepts.contains(x) {
            let i = choose|i: int| 0 <= i < r.accepts.len() && r.accepts[i] == x;
        }
        assert(branch.accepts.contains(x));
        assert(walks(h, end, w, end, (n - 1) as nat));
        if n - 1 > 0 {
            let (s2, t2) = choose|s2: Sym, t2: StateId| #[trigger]
                has_edge(h, end, s2, t2) && continues(h, s2, t2, w, end, (n - 2) as nat);
            if l.accepts.contains(end) {
                let i = choose|i: int| 0 <= i < l.accepts.len() && l.accepts[i] == end;
            }
            if r.accepts.contains(end) {
                let i = choose|i: int| 0 <= i < r.accepts.len() && r.accepts[i] == end;
            }
            assert(false);
        }
        assert(rest(w));
        lemma_stops_here(branch.edges, x, w, branch.accepts, rest);
    }
}

/// An alternation accepts what either branch accepts.
pub proof fn lemma_or_language(l: Automaton, r: Automaton, k: StateId, w: Seq<char>)
    requires
        l.wf(),
        r.wf(),
        l.edges.dom().disjoint(r.edges.dom()),
        forall|id: StateId| l.edges.contains_key(id) || r.edges.contains_key(id) ==> id <= k,
        k + 2 <= usize::MAX,
    ensures
        Automaton::or(l, r, k).accepts(w) <==> l.accepts(w) || r.accepts(w),
{
    let m = Automaton::or(l, r, k);
    let h = m.edges;
    let end = (k + 1) as StateId;
    let start = (k + 2) as StateId;
    let rest = |v: Seq<char>| v.len() == 0;
    lemma_or_edges(l, r, k);
    assert(m.accepts[0] == end);
    if m.accepts(w) {
        let i = choose|i: int|
            0 <= i < m.accepts.len() && reaches(h, m.start, w, #[trigger] m.accepts[i]);
        let n = choose|n: nat| walks(h, start, w, end, n);
        let (sym, t) = choose|sym: Sym, t: StateId| #[trigger]
            has_edge(h, start, sym, t) && continues(h, sym, t, w, end, (n - 1) as nat);
        if l.accepts.contains(start) {
            let i = choose|i: int| 0 <= i < l.accepts.len() && l.accepts[i] == start;
        }
        if r.accepts.contains(start) {
            let i = choose|i: int| 0 <= i < r.accepts.len() && r.accepts[i] == start;
        }
        assert(sym == Sym::Epsilon && (t == l.start || t == r.start));
        assert(!(l.edges.dom().contains(t) && r.edges.dom().contains(t)));
        let left = t == l.start;
        let branch = if left {
            l
        } else {
            r
        };
        lemma_or_walk(l, r, k, left, t, w, (n - 1) as nat);
        let (cut, j) = choose|cut: int, j: int|
            0 <= cut <= w.len() && 0 <= j < branch.accepts.len() && #[trigger] reaches(
                branch.edges,
                t,
                w.subrange(0, cut),
                branch.accepts[j],
            ) && rest(w.subrange(cut, w.len() as int));
        assert(w.subrange(0, cut) =~= w);
        assert(reaches(branch.edges, branch.start, w, branch.accepts[j]));
    }
    if l.accepts(w) || r.accepts(w) {
        let left = l.accepts(w);
        let branch = if left {
            l
        } else {
            r
        };
        let j = choose|j: int|
            0 <= j < branch.accepts.len() && reaches(
                branch.edges,
                branch.start,
                w,
                #[trigger] branch.accepts[j],
            );
        let acc = branch.accepts[j];
        lemma_reaches_embed(branch.edges, h, branch.start, w, acc);
        assert(branch.accepts.contains(acc));
        assert(has_edge(h, acc, Sym::Epsilon, end));
        lemma_reaches_self(h, end);
        lemma_reaches_step(h, acc, Sym::Epsilon, end, Seq::empty(), end);
        lemma_reaches_concat(h, branch.start, w, acc, Seq::empty(), end);
        assert(w + Seq::<char>::empty() =~= w);
        assert(has_edge(h, start, Sym::Epsilon, branch.start));
        lemma_reaches_step(h, start, Sym::Epsilon, branch.start, w, end);
        assert(reaches(h, m.start, w, m.accepts[0]));
    }
}

/// A word of a language followed by a repetition of the language is a
/// repetition of it.
pub proof fn lemma_star_prepend(lang: spec_fn(Seq<char>) -> bool, w: Seq<char>, k: int)
    requires
        0 <= k <= w.len(),
        lang(w.subrange(0, k)),
        star_of(lang, w.subrange(k, w.len() as int)),
    ensures
        star_of(lang, w),
{
    if k == 0 {
        assert(w.subrange(0, w.len() as int) =~= w);
    }
}

/// A repetition of a language is a repetition of every language around it.
pub proof fn lemma_star_widen(
    small: spec_fn(Seq<char>) -> bool,
    wide: spec_fn(Seq<char>) -> bool,
    w: Seq<char>,
)
    requires
        forall|u: Seq<char>| #[trigger] small(u) ==> wide(u),
        star_of(small, w),
    ensures
        star_of(wide, w),
    decreases w.len(),
{
    if w.len() > 0 {
        let k = choose|k: int|
            0 < k <= w.len() && small(#[trigger] w.subrange(0, k)) && star_of(
                small,
                w.subrange(k, w.len() as int),
            );
        lemma_star_widen(small, wide, w.subrange(k, w.len() as int));
    }
}

/// A path in a quantified automaton from one of its states to an accept
/// state: the automaton takes the state to an accept state on a front part
/// of the word, and the rest is a repetition of words that it accepts.
pub proof fn lemma_plus_walk(a: Automaton, x: StateId, w: Seq<char>, y: StateId, n: nat)
    requires
        a.wf(),
        a.edges.contains_key(x),
        a.accepts.contains(y),
        walks(a.plus().edges, x, w, y, n),
    ensures
        stops_in(a.edges, x, w, a.accepts, |v: Seq<char>| star_of(language_of(a), v)),
    decreases n,
{
    let h = a.plus().edges;
    let rest = |v: Seq<char>| star_of(language_of(a), v);
    lemma_link(a.edges, a.accepts, a.start);
    lemma_edges_of_closed(a.edges);
    if n == 0 {
        assert(rest(w));
        lemma_stops_here(a.edges, x, w, a.accepts, rest);
    } else {
        let (sym, t) = choose|sym: Sym, t: StateId| #[trigger]
            has_edge(h, x, sym, t) && continues(h, sym, t, w, y, (n - 1) as nat);
        if has_edge(a.edges, x, sym, t) {
            if sym is Epsilon {
                lemma_plus_walk(a, t, w, y, (n - 1) as nat);
            } else {
                lemma_plus_walk(a, t, w.drop_first(), y, (n - 1) as nat);
            }
            lemma_stops_after_edge(a.edges, x, sym, t, w, a.accepts, rest);
        } else {
            assert(a.accepts.contains(x) && sym == Sym::Epsilon && t == a.start);
            lemma_plus_walk(a, a.start, w, y, (n - 1) as nat);
            let (cut, j) = choose|cut: int, j: int|
                0 <= cut <= w.len() && 0 <= j < a.accepts.len() && #[trigger] reaches(
                    a.edges,
                    a.start,
                    w.subrange(0, cut),
                    a.accepts[j],
                ) && rest(w.subrange(cut, w.len() as int));
            assert(language_of(a)(w.subrange(0, cut)));
            lemma_star_prepend(language_of(a), w, cut);
            assert(rest(w));
            lemma_stops_here(a.edges, x, w, a.accepts, rest);
        }
    }
}

/// A quantified automaton accepts a word that the automaton accepts,
/// followed by a repetition of such words; the star-shaped one does too.
pub proof fn lemma_rounds(a: Automaton, h: Graph, u: Seq<char>, v: Seq<char>)
    requires
        a.wf(),
        forall|x: StateId, sym: Sym, t: StateId| #[trigger]
            has_edge(a.edges, x, sym, t) ==> has_edge(h, x, sym, t),
        forall|i: int|
            0 <= i < a.accepts.len() ==> has_edge(h, #[trigger] a.accepts[i], Sym::Epsilon, a.start),
        a.accepts(u),
        star_of(language_of(a), v),
    ensures
        exists|i: int| 0 <= i < a.accepts.len() && reaches(h, a.start, u + v, #[trigger] a.accepts[i]),
    decreases v.len(),
{
    let i = choose|i: int|
        0 <= i < a.accepts.len() && reaches(a.edges, a.start, u, #[trigger] a.accepts[i]);
    lemma_reaches_embed(a.edges, h, a.start, u, a.accepts[i]);
    if v.len() == 0 {
        assert(u + v =~= u);
    } else {
        let k = choose|k: int|
            0 < k <= v.len() && language_of(a)(#[trigger] v.subrange(0, k)) && star_of(
                language_of(a),
                v.subrange(k, v.len() as int),
            );
        lemma_rounds(a, h, v.subrange(0, k), v.subrange(k, v.len() as int));
        assert(v.subrange(0, k) + v.subrange(k, v.len() as int) =~= v);
        let j = choose|j: int|
            0 <= j < a.accepts.len() && reaches(h, a.start, v, #[trigger] a.accepts[j]);
        lemma_reaches_step(h, a.accepts[i], Sym::Epsilon, a.start, v, a.accepts[j]);
        lemma_reaches_concat(h, a.start, u, a.accepts[i], v, a.accepts[j]);
    }
}

/// `plus` accepts exactly one word that the automaton accepts, followed by
/// a repetition of such words.
pub proof fn lemma_plus_language(a: Automaton, w: Seq<char>)
    requires
        a.wf(),
    ensures
        a.plus().accepts(w) <==> exists|k: int|
            0 <= k <= w.len() && a.accepts(#[trigger] w.subrange(0, k)) && star_of(
                language_of(a),
                w.subrange(k, w.len() as int),
            ),
{
    let m = a.plus();
    let h = m.edges;
    let rest = |v: Seq<char>| star_of(language_of(a), v);
    lemma_link(a.edges, a.accepts, a.start);
    if m.accepts(w) {
        let i = choose|i: int|
            0 <= i < m.accepts.len() && reaches(h, m.start, w, #[trigger] m.accepts[i]);
        let n = choose|n: nat| walks(h, a.start, w, a.accepts[i], n);
        assert(a.accepts.contains(a.accepts[i]));
        lemma_plus_walk(a, a.start, w, a.accepts[i], n);
        let (cut, j) = choose|cut: int, j: int|
            0 <= cut <= w.len() && 0 <= j < a.accepts.len() && #[trigger] reaches(
                a.edges,
                a.start,
                w.subrange(0, cut),
                a.accepts[j],
            ) && rest(w.subrange(cut, w.len() as int));
        assert(a.accepts(w.subrange(0, cut)));
    }
    if exists|k: int|
        0 <= k <= w.len() && a.accepts(#[trigger] w.subrange(0, k)) && star_of(
            language_of(a),
            w.subrange(k, w.len() as int),
        ) {
        let k = choose|k: int|
            0 <= k <= w.len() && a.accepts(#[trigger] w.subrange(0, k)) && star_of(
                language_of(a),
                w.subrange(k, w.len() as int),
            );
        assert forall|i: int| 0 <= i < a.accepts.len() implies has_edge(
            h,
            #[trigger] a.accepts[i],
            Sym::Epsilon,
            a.start,
        ) by {
            assert(a.accepts.contains(a.accepts[i]));
        }
        lemma_rounds(a, h, w.subrange(0, k), w.subrange(k, w.len() as int));
        assert(w.subrange(0, k) + w.subrange(k, w.len() as int) =~= w);
        let i = choose|i: int|
            0 <= i < a.accepts.len() && reaches(h, a.start, w, #[trigger] a.accepts[i]);
        assert(reaches(h, m.start, w, m.accepts[i]));
    }
}

/// Whether no edge of `a` leads into its start state.
pub open spec fn start_fresh(a: Automaton) -> bool {
    forall|x: StateId, sym: Sym| !#[trigger] has_edge(a.edges, x, sym, a.start)
}

/// Whether no edge of `a` leaves one of its accept states.
pub open spec fn accepts_final(a: Automaton) -> bool {
    forall|x: StateId, sym: Sym, t: StateId|
        a.accepts.contains(x) ==> !#[trigger] has_edge(a.edges, x, sym, t)
}

/// The edges of a starred automaton: its own, an epsilon edge from each
/// accept state to the start state, and an epsilon edge from the start
/// state to each accept state.
pub proof fn lemma_star_edges(a: Automaton)
    requires
        a.wf(),
    ensures
        forall|x: StateId, sym: Sym, t: StateId| #[trigger]
            has_edge(a.star().edges, x, sym, t) <==> has_edge(a.edges, x, sym, t) || (
            a.accepts.contains(x) && sym == Sym::Epsilon && t == a.start) || (x == a.start && sym
                == Sym::Epsilon && a.accepts.contains(t)),
{
    let linked = link(a.edges, a.accepts, a.start);
    lemma_link(a.edges, a.accepts, a.start);
    lemma_fan_out(linked, a.start, a.accepts);
}

/// From a state that no edge leaves, only the empty word leads anywhere.
pub proof fn lemma_final_stays(a: Automaton, x: StateId, u: Seq<char>, b: StateId)
    requires
        accepts_final(a),
        a.accepts.contains(x),
        reaches(a.edges, x, u, b),
    ensures
        u.len() == 0,
{
    let n = choose|n: nat| walks(a.edges, x, u, b, n);
    if n > 0 {
        let (sym, t) = choose|sym: Sym, t: StateId| #[trigger]
            has_edge(a.edges, x, sym, t) && continues(a.edges, sym, t, u, b, (n - 1) as nat);
    }
}

/// A path in a starred automaton from one of its states to an accept state,
/// where no edge of the automaton leads into its start state or out of an
/// accept state: either the path starts at the start state and its word is
/// a repetition of words that the automaton accepts, or the automaton takes
/// the state to an accept state on a front part of the word, and the rest
/// is such a repetition.
pub proof fn lemma_star_walk(a: Automaton, x: StateId, w: Seq<char>, y: StateId, n: nat)
    requires
        a.wf(),
        start_fresh(a),
        accepts_final(a),
        a.edges.contains_key(x),
        a.accepts.contains(y),
        walks(a.star().edges, x, w, y, n),
    ensures
        (x == a.start && star_of(language_of(a), w)) || stops_in(
            a.edges,
            x,
            w,
            a.accepts,
            |v: Seq<char>| star_of(language_of(a), v),
        ),
    decreases n,
{
    let h = a.star().edges;
    let rest = |v: Seq<char>| star_of(language_of(a), v);
    lemma_star_edges(a);
    lemma_edges_of_closed(a.edges);
    if n == 0 {
        assert(rest(w));
        lemma_stops_here(a.edges, x, w, a.accepts, rest);
    } else {
        let (sym, t) = choose|sym: Sym, t: StateId| #[trigger]
            has_edge(h, x, sym, t) && continues(h, sym, t, w, y, (n - 1) as nat);
        if has_edge(a.edges, x, sym, t) {
            assert(t != a.start);
            if sym is Epsilon {
                lemma_star_walk(a, t, w, y, (n - 1) as nat);
            } else {
                lemma_star_walk(a, t, w.drop_first(), y, (n - 1) as nat);
            }
            lemma_stops_after_edge(a.edges, x, sym, t, w, a.accepts, rest);
        } else {
            if t == a.accepts[0] && a.accepts.len() > 0 {
            }
            assert(sym == Sym::Epsilon);
            if a.accepts.contains(t) {
                let i = choose|i: int| 0 <= i < a.accepts.len() && a.accepts[i] == t;
            }
            lemma_star_walk(a, t, w, y, (n - 1) as nat);
            let whole = if t == a.start && star_of(language_of(a), w) {
                true
            } else {
                let (cut, j) = choose|cut: int, j: int|
                    0 <= cut <= w.len() && 0 <= j < a.accepts.len() && #[trigger] reaches(
                        a.edges,
                        t,
                        w.subrange(0, cut),
                        a.accepts[j],
                    ) && rest(w.subrange(cut, w.len() as int));
                if t == a.start {
                    assert(language_of(a)(w.subrange(0, cut)));
                } else {
                    lemma_final_stays(a, t, w.subrange(0, cut), a.accepts[j]);
                    assert(cut == 0);
                }
                lemma_star_prepend_or_all(language_of(a), w, cut);
                true
            };
            assert(star_of(language_of(a), w));
            if a.accepts.contains(x) && t == a.start {
                assert(rest(w));
                lemma_stops_here(a.edges, x, w, a.accepts, rest);
            }
        }
    }
}

/// If the rest of a word after a cut is a repetition of a language, and the
/// front part is either empty or a word of the language, the word is such a
/// repetition.
pub proof fn lemma_star_prepend_or_all(lang: spec_fn(Seq<char>) -> bool, w: Seq<char>, k: int)
    requires
        0 <= k <= w.len(),
        k == 0 || lang(w.subrange(0, k)),
        star_of(lang, w.subrange(k, w.len() as int)),
    ensures
        star_of(lang, w),
{
    if k == 0 {
        assert(w.subrange(0, w.len() as int) =~= w);
    }
}

/// A starred automaton accepts every repetition of words that the
/// automaton accepts. Where no edge of the automaton leads into its start
/// state or out of an accept state, it accepts nothing else.
pub proof fn lemma_star_language(a: Automaton, w: Seq<char>)
    requires
        a.wf(),
    ensures
        star_of(language_of(a), w) ==> a.star().accepts(w),
        start_fresh(a) && accepts_final(a) ==> (a.star().accepts(w) <==> star_of(
            language_of(a),
            w,
        )),
{
    let m = a.star();
    let h = m.edges;
    let rest = |v: Seq<char>| star_of(language_of(a), v);
    lemma_star_edges(a);
    if star_of(language_of(a), w) {
        if w.len() == 0 {
            assert(a.accepts.contains(a.accepts[0]));
            lemma_reaches_self(h, a.accepts[0]);
            assert(w =~= Seq::<char>::empty());
            lemma_reaches_step(h, a.start, Sym::Epsilon, a.accepts[0], w, a.accepts[0]);
            assert(reaches(h, m.start, w, m.accepts[0]));
        } else {
            let k = choose|k: int|
                0 < k <= w.len() && language_of(a)(#[trigger] w.subrange(0, k)) && star_of(
                    language_of(a),
                    w.subrange(k, w.len() as int),
                );
            assert forall|i: int| 0 <= i < a.accepts.len() implies has_edge(
                h,
                #[trigger] a.accepts[i],
                Sym::Epsilon,
                a.start,
            ) by {
                assert(a.accepts.contains(a.accepts[i]));
            }
            lemma_rounds(a, h, w.subrange(0, k), w.subrange(k, w.len() as int));
            assert(w.subrange(0, k) + w.subrange(k, w.len() as int) =~= w);
            let i = choose|i: int|
                0 <= i < a.accepts.len() && reaches(h, a.start, w, #[trigger] a.accepts[i]);
            assert(reaches(h, m.start, w, m.accepts[i]));
        }
    }
    if start_fresh(a) && accepts_final(a) && m.accepts(w) {
        let i = choose|i: int|
            0 <= i < m.accepts.len() && reaches(h, m.start, w, #[trigger] m.accepts[i]);
        let n = choose|n: nat| walks(h, a.start, w, a.accepts[i], n);
        assert(a.accepts.contains(a.accepts[i]));
        lemma_star_walk(a, a.start, w, a.accepts[i], n);
        if !star_of(language_of(a), w) {
            let (cut, j) = choose|cut: int, j: int|
                0 <= cut <= w.len() && 0 <= j < a.accepts.len() && #[trigger] reaches(
                    a.edges,
                    a.start,
                    w.subrange(0, cut),
                    a.accepts[j],
                ) && rest(w.subrange(cut, w.len() as int));
            assert(language_of(a)(w.subrange(0, cut)));
            lemma_star_prepend(language_of(a), w, cut);
        }
    }
}

} // verus!
