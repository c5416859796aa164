//! The compiler from patterns to automata: a Thompson-style construction in
//! which every new state gets the next id of a running counter.

use crate::correctness::{lemma_chain_ends, lemma_chain_language};
use crate::label::{StateInput, Sym};
use crate::nfa::{edges_of, graph_closed, graph_of, has_edge, Automaton, Graph, Nfa, NfaState, StateId};
use crate::pattern::{asts, Ast, Pattern, SPECIAL_MARKER};
use std::collections::HashMap;
use vstd::prelude::*;
use vstd::std_specs::iter::IteratorSpec;

verus! {

broadcast use vstd::std_specs::hash::group_hash_axioms;

/// `g` with one more edge at the end of the list of `from`.
pub open spec fn with_edge(g: Graph, from: StateId, sym: Sym, to: StateId) -> Graph {
    g.insert(from, g[from].push((sym, to)))
}

/// `g` with an epsilon edge from each of `from`, in order, to `to`.
pub open spec fn link(g: Graph, from: Seq<StateId>, to: StateId) -> Graph
    decreases from.len(),
{
    if from.len() == 0 {
        g
    } else {
        with_edge(link(g, from.drop_last(), to), from.last(), Sym::Epsilon, to)
    }
}

/// `g` with an epsilon edge from `from` to each of `to`, in order.
pub open spec fn fan_out(g: Graph, from: StateId, to: Seq<StateId>) -> Graph
    decreases to.len(),
{
    if to.len() == 0 {
        g
    } else {
        with_edge(fan_out(g, from, to.drop_last()), from, Sym::Epsilon, to.last())
    }
}

impl Automaton {
    /// Two fresh states after the counter value `k`, joined by one edge
    /// labelled `sym`. The accept state gets the first id, the start state
    /// the second.
    pub open spec fn atom(sym: Sym, k: StateId) -> Automaton {
        let end = (k + 1) as StateId;
        let start = (k + 2) as StateId;
        Automaton {
            start,
            accepts: seq![end],
            edges: Map::<StateId, Seq<(Sym, StateId)>>::empty().insert(
                start,
                seq![(sym, end)],
            ).insert(end, Seq::empty()),
        }
    }

    /// Either branch: a fresh start state with an epsilon edge to each
    /// branch's start, and a fresh accept state that every accept state of
    /// either branch leads to by an epsilon edge.
    pub open spec fn or(left: Automaton, right: Automaton, k: StateId) -> Automaton {
        let end = (k + 1) as StateId;
        let start = (k + 2) as StateId;
        Automaton {
            start,
            accepts: seq![end],
            edges: link(left.edges, left.accepts, end).union_prefer_right(
                link(right.edges, right.accepts, end),
            ).insert(start, seq![(Sym::Epsilon, left.start), (Sym::Epsilon, right.start)]).insert(
                end,
                Seq::empty(),
            ),
        }
    }

    /// One or more rounds: every accept state leads back to the start state.
    pub open spec fn plus(self) -> Automaton {
        Automaton {
            start: self.start,
            accepts: self.accepts,
            edges: link(self.edges, self.accepts, self.start),
        }
    }

    /// Zero or more rounds: every accept state leads back to the start
    /// state, and the start state leads to every accept state.
    pub open spec fn star(self) -> Automaton {
        Automaton {
            start: self.start,
            accepts: self.accepts,
            edges: fan_out(link(self.edges, self.accepts, self.start), self.start, self.accepts),
        }
    }

    /// `self` and after it `next`: every accept state of `self` leads to the start
    /// state of `next`.
    pub open spec fn followed_by(self, next: Automaton) -> Automaton {
        Automaton {
            start: self.start,
            accepts: next.accepts,
            edges: link(self.edges.union_prefer_right(next.edges), self.accepts, next.start),
        }
    }

    /// Whether every state id lies in `lo < id <= hi`.
    pub open spec fn within(self, lo: int, hi: int) -> bool {
        forall|id: StateId| self.edges.contains_key(id) ==> lo < id <= hi
    }
}

impl Ast {
    /// How many states the construction makes for this pattern.
    pub open spec fn state_count(self) -> nat
        decreases self, 0nat,
    {
        match self {
            Ast::OneOrMore(p) => p.state_count(),
            Ast::KleeneStar(p) => p.state_count(),
            Ast::Sequence(ps) => if ps.len() == 0 {
                2
            } else {
                Ast::chain_count(ps)
            },
            Ast::Or(l, r) => l.state_count() + r.state_count() + 2,
            _ => 2,
        }
    }

    /// How many states the construction makes for the patterns of a list.
    pub open spec fn chain_count(ps: Seq<Ast>) -> nat
        decreases ps, 1nat,
    {
        if ps.len() == 0 {
            0
        } else {
            Ast::chain_count(ps.drop_last()) + ps.last().state_count()
        }
    }

    /// The automaton that the construction makes for this pattern when the
    /// id counter stands at `k`.
    pub open spec fn thompson(self, k: StateId) -> Automaton
        decreases self, 0nat,
    {
        match self {
            Ast::OneOrMore(p) => p.thompson(k).plus(),
            Ast::KleeneStar(p) => p.thompson(k).star(),
            Ast::Sequence(ps) => Ast::thompson_chain(ps, k),
            Ast::Or(l, r) => Automaton::or(
                l.thompson(k),
                r.thompson((k + l.state_count()) as StateId),
                (k + l.state_count() + r.state_count()) as StateId,
            ),
            _ => Automaton::atom(self.atom().unwrap(), k),
        }
    }

    /// Whether `w` splits into consecutive pieces of which the automata of
    /// `ps` accept one each, in order; each automaton is the one that the
    /// construction makes for its pattern when it comes to it, the counter
    /// having started at `k`.
    pub open spec fn accepted_in_turn(ps: Seq<Ast>, k: StateId, w: Seq<char>) -> bool
        decreases ps.len(),
    {
        if ps.len() == 0 {
            w.len() == 0
        } else {
            exists|j: int|
                0 <= j <= w.len() && Ast::accepted_in_turn(
                    ps.drop_last(),
                    k,
                    #[trigger] w.subrange(0, j),
                ) && ps.last().thompson((k + Ast::chain_count(ps.drop_last())) as StateId).accepts(
                    w.subrange(j, w.len() as int),
                )
        }
    }

    /// The automaton for a list of patterns, one after another. An empty
    /// list gives two fresh states joined by an epsilon edge.
    pub open spec fn thompson_chain(ps: Seq<Ast>, k: StateId) -> Automaton
        decreases ps, 1nat,
    {
        if ps.len() == 0 {
            Automaton::atom(Sym::Epsilon, k)
        } else if ps.len() == 1 {
            ps[0].thompson(k)
        } else {
            Ast::thompson_chain(ps.drop_last(), k).followed_by(
                ps.last().thompson((k + Ast::chain_count(ps.drop_last())) as StateId),
            )
        }
    }
}

/// The states of a list count at least as many as those of any part of it
/// that starts at the front.
pub proof fn lemma_chain_count_prefix(ps: Seq<Ast>, i: int)
    requires
        0 <= i <= ps.len(),
    ensures
        Ast::chain_count(ps.take(i)) <= Ast::chain_count(ps),
    decreases ps.len(),
{
    if i == ps.len() {
        assert(ps.take(i) =~= ps);
    } else {
        lemma_chain_count_prefix(ps.drop_last(), i);
        assert(ps.drop_last().take(i) =~= ps.take(i));
    }
}

/// Whether two tables file the same ids, each state keeping its own id.
pub open spec fn same_ids(before: Map<StateId, NfaState>, after: Map<StateId, NfaState>) -> bool {
    &&& after.dom() == before.dom()
    &&& forall|id: StateId| #[trigger] before.contains_key(id) ==> after[id].id == before[id].id
}

/// Whether each state of the table is filed under its own id.
pub open spec fn filed(states: Map<StateId, NfaState>) -> bool {
    forall|id: StateId| #[trigger] states.contains_key(id) ==> states[id].id == id
}

/// Insertion of a state into a table, under the state's own id.
pub trait InsertNfaState {
    /// The table as a map.
    spec fn table(&self) -> Map<StateId, NfaState>;

    /// Files `state` under its id, which must be new to the table.
    fn insert_nfa_state(&mut self, state: NfaState)
        requires
            !old(self).table().contains_key(state.id),
        ensures
            final(self).table() == old(self).table().insert(state.id, state),
    ;
}

impl InsertNfaState for HashMap<StateId, NfaState> {
    open spec fn table(&self) -> Map<StateId, NfaState> {
        self@
    }

    fn insert_nfa_state(&mut self, state: NfaState) {
        self.insert(state.id, state);
    }
}

/// The ids under which `states` files its entries.
pub fn ids_in(states: &HashMap<StateId, NfaState>) -> (ids: Vec<StateId>)
    ensures
        forall|id: StateId| ids@.contains(id) <==> states@.contains_key(id),
{
    let mut ids: Vec<StateId> = Vec::new();
    let ghost all = states.keys().remaining().unref();
    for id in it: states.keys()
        invariant
            it.seq().unref() == all,
            ids@ == all.take(it.index() as int),
    {
        ids.push(*id);
        assert(ids@ =~= all.take(it.index() + 1));
    }
    proof {
        assert(all.take(all.len() as int) =~= all);
        assert(ids@ == all);
        assert(ids@.to_set() == states@.dom());
        assert forall|id: StateId| ids@.contains(id) <==> states@.contains_key(id) by {
            assert(ids@.to_set().contains(id) <==> states@.dom().contains(id));
        }
    }
    ids
}

/// Moves every state of `src` into `dst`. Where both file a state under
/// the same id, the one of `src` stays.
pub fn absorb(dst: &mut HashMap<StateId, NfaState>, src: HashMap<StateId, NfaState>)
    ensures
        final(dst)@ == old(dst)@.union_prefer_right(src@),
{
    let ghost into = dst@;
    let ghost from = src@;
    let ids = ids_in(&src);
    let mut src = src;
    let mut i: usize = 0;
    while i < ids.len()
        invariant
            i <= ids.len(),
            forall|id: StateId| ids@.contains(id) <==> from.contains_key(id),
            forall|id: StateId|
                src@.contains_key(id) <==> from.contains_key(id) && !ids@.take(i as int).contains(id),
            forall|id: StateId| src@.contains_key(id) ==> src@[id] == from[id],
            forall|id: StateId|
                dst@.contains_key(id) <==> into.contains_key(id) || (from.contains_key(id)
                    && ids@.take(i as int).contains(id)),
            forall|id: StateId|
                dst@.contains_key(id) ==> dst@[id] == if from.contains_key(id) && ids@.take(
                    i as int,
                ).contains(id) {
                    from[id]
                } else {
                    into[id]
                },
        decreases ids.len() - i,
    {
        let id = ids[i];
        let ghost shorter = ids@.take(i as int);
        let ghost longer = ids@.take(i + 1);
        proof {
            assert(longer =~= shorter.push(id));
            assert forall|x: StateId| longer.contains(x) <==> shorter.contains(x) || x == id by {
                if shorter.contains(x) {
                    let at = choose|at: int| 0 <= at < shorter.len() && shorter[at] == x;
                    assert(longer[at] == x);
                }
                if x == id {
                    assert(longer[i as int] == x);
                }
                if longer.contains(x) {
                    let at = choose|at: int| 0 <= at < longer.len() && longer[at] == x;
                    if at < i {
                        assert(shorter[at] == x);
                    }
                }
            }
        }
        let ghost src_before = src@;
        let ghost dst_before = dst@;
        match src.remove(&id) {
            Some(state) => {
                dst.insert(id, state);
            },
            None => {},
        }
        proof {
            assert(ids@.contains(id)) by {
                assert(ids@[i as int] == id);
            }
            assert forall|x: StateId|
                src@.contains_key(x) <==> from.contains_key(x) && !longer.contains(x) by {
                assert(src_before.contains_key(x) <==> from.contains_key(x) && !shorter.contains(x));
            }
            assert forall|x: StateId|
                dst@.contains_key(x) <==> into.contains_key(x) || (from.contains_key(x)
                    && longer.contains(x)) by {
                assert(dst_before.contains_key(x) <==> into.contains_key(x) || (from.contains_key(x)
                    && shorter.contains(x)));
            }
            assert forall|x: StateId| dst@.contains_key(x) implies dst@[x] == if from.contains_key(
                x,
            ) && longer.contains(x) {
                from[x]
            } else {
                into[x]
            } by {
                assert(dst_before.contains_key(x) <==> into.contains_key(x) || (from.contains_key(x)
                    && shorter.contains(x)));
            }
        }
        i += 1;
    }
    proof {
        assert(ids@.take(ids@.len() as int) =~= ids@);
        assert(dst@ =~= into.union_prefer_right(from));
    }
}

/// Appends the transition `(input, to)` to the state filed under `from`.
pub fn push_transition(
    states: &mut HashMap<StateId, NfaState>,
    from: StateId,
    input: StateInput,
    to: StateId,
)
    requires
        old(states)@.contains_key(from),
    ensures
        same_ids(old(states)@, final(states)@),
        graph_of(final(states)@) == with_edge(graph_of(old(states)@), from, input@, to),
{
    let ghost before = states@;
    let mut state = states.remove(&from).unwrap();
    let ghost edges = state.transition@;
    state.transition.push((input, to));
    proof {
        assert(edges_of(state.transition@) =~= edges_of(edges).push((input@, to)));
    }
    states.insert(from, state);
    proof {
        assert(states@.dom() =~= before.dom());
        assert(graph_of(states@) =~= with_edge(graph_of(before), from, input@, to));
    }
}

/// Adds an epsilon transition from each of `from` to `to`.
pub fn link_all(states: &mut HashMap<StateId, NfaState>, from: &Vec<StateId>, to: StateId)
    requires
        forall|i: int| 0 <= i < from@.len() ==> old(states)@.contains_key(from@[i]),
    ensures
        same_ids(old(states)@, final(states)@),
        graph_of(final(states)@) == link(graph_of(old(states)@), from@, to),
{
    let ghost before = states@;
    for i in 0..from.len()
        invariant
            forall|k: int| 0 <= k < from@.len() ==> before.contains_key(from@[k]),
            same_ids(before, states@),
            graph_of(states@) == link(graph_of(before), from@.take(i as int), to),
    {
        proof {
            assert(from@.take(i + 1).drop_last() =~= from@.take(i as int));
            assert(from@.take(i + 1).last() == from@[i as int]);
            assert(before.contains_key(from@[i as int]));
        }
        push_transition(states, from[i], StateInput::Epsilon, to);
    }
    proof {
        assert(from@.take(from@.len() as int) =~= from@);
    }
}

/// Adds an epsilon transition from `from` to each of `to`.
pub fn fan_out_all(states: &mut HashMap<StateId, NfaState>, from: StateId, to: &Vec<StateId>)
    requires
        old(states)@.contains_key(from),
    ensures
        same_ids(old(states)@, final(states)@),
        graph_of(final(states)@) == fan_out(graph_of(old(states)@), from, to@),
{
    let ghost before = states@;
    for i in 0..to.len()
        invariant
            before.contains_key(from),
            same_ids(before, states@),
            graph_of(states@) == fan_out(graph_of(before), from, to@.take(i as int)),
    {
        proof {
            assert(to@.take(i + 1).drop_last() =~= to@.take(i as int));
            assert(to@.take(i + 1).last() == to@[i as int]);
        }
        push_transition(states, from, StateInput::Epsilon, to[i]);
    }
    proof {
        assert(to@.take(to@.len() as int) =~= to@);
    }
}

/// What a sequence holds after a push: what it held, and the new element.
pub proof fn lemma_push_contains<T>(s: Seq<T>, e: T, y: T)
    ensures
        s.push(e).contains(y) <==> s.contains(y) || y == e,
{
    if s.contains(y) {
        let i = choose|i: int| 0 <= i < s.len() && s[i] == y;
        assert(s.push(e)[i] == y);
    }
    if y == e {
        assert(s.push(e)[s.len() as int] == y);
    }
    if s.push(e).contains(y) {
        let i = choose|i: int| 0 <= i < s.push(e).len() && s.push(e)[i] == y;
        if i < s.len() {
            assert(s[i] == y);
        }
    }
}

/// `link` adds no state and removes none; a state that is not among `from`
/// keeps its edges; and the edges afterwards are the former ones and an
/// epsilon edge from each of `from` to `to`.
pub proof fn lemma_link(g: Graph, from: Seq<StateId>, to: StateId)
    requires
        forall|i: int| 0 <= i < from.len() ==> g.contains_key(from[i]),
    ensures
        link(g, from, to).dom() == g.dom(),
        forall|x: StateId| g.contains_key(x) && !from.contains(x) ==> link(g, from, to)[x] == g[x],
        forall|x: StateId, sym: Sym, t: StateId| #[trigger]
            has_edge(link(g, from, to), x, sym, t) <==> has_edge(g, x, sym, t) || (from.contains(x)
                && sym == Sym::Epsilon && t == to),
    decreases from.len(),
{
    if from.len() > 0 {
        let front = from.drop_last();
        let last = from.last();
        let inner = link(g, front, to);
        lemma_link(g, front, to);
        assert(link(g, from, to).dom() =~= g.dom());
        assert forall|x: StateId| from.contains(x) <==> front.contains(x) || x == last by {
            assert(from =~= front.push(last));
            lemma_push_contains(front, last, x);
        }
        assert forall|x: StateId, sym: Sym, t: StateId| #[trigger]
            has_edge(link(g, from, to), x, sym, t) <==> has_edge(g, x, sym, t) || (from.contains(x)
                && sym == Sym::Epsilon && t == to) by {
            assert(has_edge(inner, x, sym, t) <==> has_edge(g, x, sym, t) || (front.contains(x)
                && sym == Sym::Epsilon && t == to));
            if x == last {
                lemma_push_contains(inner[last], (Sym::Epsilon, to), (sym, t));
            }
        }
    }
}

/// `fan_out` adds no state and removes none; every state but `from` keeps
/// its edges; and the edges afterwards are the former ones and an epsilon
/// edge from `from` to each of `to`.
pub proof fn lemma_fan_out(g: Graph, from: StateId, to: Seq<StateId>)
    requires
        g.contains_key(from),
    ensures
        fan_out(g, from, to).dom() == g.dom(),
        forall|x: StateId| g.contains_key(x) && x != from ==> fan_out(g, from, to)[x] == g[x],
        forall|x: StateId, sym: Sym, t: StateId| #[trigger]
            has_edge(fan_out(g, from, to), x, sym, t) <==> has_edge(g, x, sym, t) || (x == from
                && sym == Sym::Epsilon && to.contains(t)),
    decreases to.len(),
{
    if to.len() > 0 {
        let front = to.drop_last();
        let last = to.last();
        let inner = fan_out(g, from, front);
        lemma_fan_out(g, from, front);
        assert(fan_out(g, from, to).dom() =~= g.dom());
        assert forall|t: StateId| to.contains(t) <==> front.contains(t) || t == last by {
            assert(to =~= front.push(last));
            lemma_push_contains(front, last, t);
        }
        assert forall|x: StateId, sym: Sym, t: StateId| #[trigger]
            has_edge(fan_out(g, from, to), x, sym, t) <==> has_edge(g, x, sym, t) || (x == from
                && sym == Sym::Epsilon && to.contains(t)) by {
            assert(has_edge(inner, x, sym, t) <==> has_edge(g, x, sym, t) || (x == from && sym
                == Sym::Epsilon && front.contains(t)));
            if x == from {
                lemma_push_contains(inner[from], (Sym::Epsilon, last), (sym, t));
            }
        }
    }
}

/// A graph is closed when each of its edges, as `has_edge` sees them, leads
/// to one of its states.
pub proof fn lemma_closed_by_edges(g: Graph)
    requires
        forall|x: StateId, sym: Sym, t: StateId| #[trigger]
            has_edge(g, x, sym, t) ==> g.contains_key(t),
    ensures
        graph_closed(g),
{
    assert forall|a: StateId, j: int| g.contains_key(a) && 0 <= j < g[a].len() implies g.contains_key(
        (#[trigger] g[a][j]).1,
    ) by {
        assert(has_edge(g, a, g[a][j].0, g[a][j].1));
    }
}

/// In a closed graph every edge leads to one of its states.
pub proof fn lemma_edges_of_closed(g: Graph)
    requires
        graph_closed(g),
    ensures
        forall|x: StateId, sym: Sym, t: StateId| #[trigger]
            has_edge(g, x, sym, t) ==> g.contains_key(t),
{
    assert forall|x: StateId, sym: Sym, t: StateId| #[trigger]
        has_edge(g, x, sym, t) implies g.contains_key(t) by {
        let j = choose|j: int| 0 <= j < g[x].len() && g[x][j] == (sym, t);
        assert(g.contains_key(g[x][j].1));
    }
}

/// The automaton of a single edge is well formed, and its two ids are the
/// next two of the counter.
pub proof fn lemma_atom_wf(sym: Sym, k: StateId)
    requires
        k + 2 <= usize::MAX,
    ensures
        Automaton::atom(sym, k).wf(),
        Automaton::atom(sym, k).within(k as int, k + 2),
        Automaton::atom(sym, k).edges.dom() =~= set![(k + 1) as StateId, (k + 2) as StateId],
{
    let a = Automaton::atom(sym, k);
    assert(a.edges.dom() =~= set![(k + 1) as StateId, (k + 2) as StateId]);
    assert(a.edges.dom().finite());
}

/// Quantifying keeps an automaton well formed and adds no state.
pub proof fn lemma_plus_wf(a: Automaton)
    requires
        a.wf(),
    ensures
        a.plus().wf(),
        a.plus().edges.dom() == a.edges.dom(),
{
    lemma_link(a.edges, a.accepts, a.start);
    lemma_edges_of_closed(a.edges);
    lemma_closed_by_edges(a.plus().edges);
}

/// Quantifying keeps an automaton well formed and adds no state.
pub proof fn lemma_star_wf(a: Automaton)
    requires
        a.wf(),
    ensures
        a.star().wf(),
        a.star().edges.dom() == a.edges.dom(),
{
    let linked = link(a.edges, a.accepts, a.start);
    lemma_link(a.edges, a.accepts, a.start);
    lemma_fan_out(linked, a.start, a.accepts);
    lemma_edges_of_closed(a.edges);
    assert forall|x: StateId, sym: Sym, t: StateId| #[trigger]
        has_edge(a.star().edges, x, sym, t) implies a.star().edges.contains_key(t) by {
        if has_edge(linked, x, sym, t) {
        } else {
            let i = choose|i: int| 0 <= i < a.accepts.len() && a.accepts[i] == t;
        }
    }
    lemma_closed_by_edges(a.star().edges);
}

/// One automaton after another, with no state in common, is well formed,
/// and its states are those of the two.
pub proof fn lemma_followed_by_wf(a: Automaton, b: Automaton)
    requires
        a.wf(),
        b.wf(),
        a.edges.dom().disjoint(b.edges.dom()),
    ensures
        a.followed_by(b).wf(),
        a.followed_by(b).edges.dom() == a.edges.dom().union(b.edges.dom()),
{
    let both = a.edges.union_prefer_right(b.edges);
    assert(both.dom() =~= a.edges.dom().union(b.edges.dom()));
    lemma_link(both, a.accepts, b.start);
    lemma_edges_of_closed(a.edges);
    lemma_edges_of_closed(b.edges);
    assert forall|x: StateId, sym: Sym, t: StateId| #[trigger]
        has_edge(a.followed_by(b).edges, x, sym, t) implies a.followed_by(b).edges.contains_key(
        t,
    ) by {
        if has_edge(both, x, sym, t) {
            if b.edges.contains_key(x) {
                assert(has_edge(b.edges, x, sym, t));
            } else {
                assert(has_edge(a.edges, x, sym, t));
            }
        }
    }
    lemma_closed_by_edges(a.followed_by(b).edges);
    assert(a.followed_by(b).edges.dom().finite());
}

/// The alternation of two automata with no state in common, whose ids the
/// counter has passed, is well formed; its states are those of the two and
/// the next two ids of the counter.
pub proof fn lemma_or_wf(l: Automaton, r: Automaton, k: StateId)
    requires
        l.wf(),
        r.wf(),
        l.edges.dom().disjoint(r.edges.dom()),
        forall|id: StateId| l.edges.contains_key(id) || r.edges.contains_key(id) ==> id <= k,
        k + 2 <= usize::MAX,
    ensures
        Automaton::or(l, r, k).wf(),
        Automaton::or(l, r, k).edges.dom() == l.edges.dom().union(r.edges.dom()).insert(
            (k + 1) as StateId,
        ).insert((k + 2) as StateId),
{
    let end = (k + 1) as StateId;
    let start = (k + 2) as StateId;
    let m = Automaton::or(l, r, k);
    let ll = link(l.edges, l.accepts, end);
    let rl = link(r.edges, r.accepts, end);
    lemma_link(l.edges, l.accepts, end);
    lemma_link(r.edges, r.accepts, end);
    lemma_edges_of_closed(l.edges);
    lemma_edges_of_closed(r.edges);
    assert(m.edges.dom() =~= l.edges.dom().union(r.edges.dom()).insert(end).insert(start));
    assert forall|x: StateId, sym: Sym, t: StateId| #[trigger]
        has_edge(m.edges, x, sym, t) implies m.edges.contains_key(t) by {
        if x == end {
        } else if x == start {
            let both = seq![(Sym::Epsilon, l.start), (Sym::Epsilon, r.start)];
            let j = choose|j: int| 0 <= j < both.len() && both[j] == (sym, t);
        } else if r.edges.contains_key(x) {
            assert(has_edge(rl, x, sym, t));
        } else {
            assert(has_edge(ll, x, sym, t));
        }
    }
    lemma_closed_by_edges(m.edges);
    assert(m.edges.dom().finite());
}

/// The view of a table after two tables are merged.
pub proof fn lemma_graph_of_union(a: Map<StateId, NfaState>, b: Map<StateId, NfaState>)
    ensures
        graph_of(a.union_prefer_right(b)) == graph_of(a).union_prefer_right(graph_of(b)),
{
    assert(graph_of(a.union_prefer_right(b)) =~= graph_of(a).union_prefer_right(graph_of(b)));
}

/// The view of a table after a state is filed.
pub proof fn lemma_graph_of_insert(a: Map<StateId, NfaState>, id: StateId, state: NfaState)
    ensures
        graph_of(a.insert(id, state)) == graph_of(a).insert(id, state@),
{
    assert(graph_of(a.insert(id, state)) =~= graph_of(a).insert(id, state@));
}

/// The automaton that a start state, accept states and a table make up.
pub open spec fn assembled(
    start: StateId,
    accepts: Seq<StateId>,
    states: Map<StateId, NfaState>,
) -> Automaton {
    Automaton { start, accepts, edges: graph_of(states) }
}

/// The issuer of state ids and builder of automata.
pub struct NfaBuilder {
    /// The id that was issued last; 0 before the first.
    pub id_: usize,
}

impl NfaBuilder {
    /// A builder that has issued no id.
    pub fn new() -> (builder: NfaBuilder)
        ensures
            builder.id_ == 0,
    {
        NfaBuilder { id_: 0 }
    }

    /// Compiles `pattern`. The states get the ids that follow the counter,
    /// in the order in which the construction makes them; both anchors
    /// compile to the marker character.
    pub fn of(&mut self, pattern: Pattern) -> (nfa: Nfa)
        requires
            old(self).id_ + pattern@.state_count() <= usize::MAX,
        ensures
            final(self).id_ == old(self).id_ + pattern@.state_count(),
            nfa@ == pattern@.thompson(old(self).id_),
            nfa.wf(),
            nfa@.within(old(self).id_ as int, final(self).id_ as int),
        decreases pattern, 0nat,
    {
        match pattern {
            Pattern::Literal(c) => self.literal(c),
            Pattern::AnyDigit => self.any_digit(),
            Pattern::AnyChar => self.any_char(),
            Pattern::AnyCharIn(chars) => self.any_char_in(chars),
            Pattern::AnyCharNotIn(chars) => self.any_char_not_in(chars),
            Pattern::OneOrMore(pattern) => {
                let inner = self.of(*pattern);
                self.one_or_more(inner)
            },
            Pattern::KleeneStar(pattern) => {
                let inner = self.of(*pattern);
                self.kleene_star(inner)
            },
            Pattern::Sequence(patterns) => {
                assert(pattern@ == Ast::Sequence(asts(patterns@))) by {
                    assert(pattern@->Sequence_0 =~= asts(patterns@));
                }
                self.sequence(patterns)
            },
            Pattern::Or(left, right) => {
                let left = self.of(*left);
                let right = self.of(*right);
                proof {
                    assert forall|id: StateId|
                        !(left.states@.dom().contains(id) && right.states@.dom().contains(
                            id,
                        )) by {
                        assert(left@.edges.contains_key(id) == left.states@.contains_key(id));
                        assert(right@.edges.contains_key(id) == right.states@.contains_key(id));
                    }
                    assert forall|id: StateId|
                        left.states@.contains_key(id) || right.states@.contains_key(
                            id,
                        ) implies id <= self.id_ by {
                        assert(left@.edges.contains_key(id) == left.states@.contains_key(id));
                        assert(right@.edges.contains_key(id) == right.states@.contains_key(id));
                    }
                }
                self.or(left, right)
            },
            Pattern::Start => self.literal(SPECIAL_MARKER),
            Pattern::End => self.literal(SPECIAL_MARKER),
        }
    }

    /// Issues the next id.
    pub fn next_id(&mut self) -> (id: usize)
        requires
            old(self).id_ < usize::MAX,
        ensures
            final(self).id_ == old(self).id_ + 1,
            id == final(self).id_,
    {
        self.id_ += 1;
        self.id_
    }

    /// Two fresh states joined by one transition labelled `input`.
    pub fn atom(&mut self, input: StateInput) -> (nfa: Nfa)
        requires
            old(self).id_ + 2 <= usize::MAX,
        ensures
            final(self).id_ == old(self).id_ + 2,
            nfa@ == Automaton::atom(input@, old(self).id_),
            nfa.wf(),
            nfa@.within(old(self).id_ as int, final(self).id_ as int),
    {
        let ghost k = self.id_;
        let ghost sym = input@;
        let end = NfaState { id: self.next_id(), transition: Vec::new() };
        let start = NfaState { id: self.next_id(), transition: vec![(input, end.id)] };
        let start_id = start.id;
        let end_id = end.id;
        let mut states: HashMap<StateId, NfaState> = HashMap::new();
        proof {
            assert(start@ =~= seq![(sym, end_id)]);
            assert(end@ =~= Seq::<(Sym, StateId)>::empty());
            lemma_graph_of_insert(states@, start_id, start);
            lemma_graph_of_insert(states@.insert(start_id, start), end_id, end);
            assert(graph_of(states@) =~= Map::<StateId, Seq<(Sym, StateId)>>::empty());
        }
        states.insert_nfa_state(start);
        states.insert_nfa_state(end);
        let nfa = Nfa { start: start_id, end: vec![end_id], states };
        proof {
            lemma_atom_wf(sym, k);
            assert(nfa@.accepts =~= seq![end_id]);
        }
        nfa
    }

    /// The automaton of the single character `c`.
    pub fn literal(&mut self, c: char) -> (nfa: Nfa)
        requires
            old(self).id_ + 2 <= usize::MAX,
        ensures
            final(self).id_ == old(self).id_ + 2,
            nfa@ == Automaton::atom(Sym::Literal(c), old(self).id_),
            nfa.wf(),
            nfa@.within(old(self).id_ as int, final(self).id_ as int),
    {
        self.atom(StateInput::Literal(c))
    }

    /// The automaton of one decimal digit.
    pub fn any_digit(&mut self) -> (nfa: Nfa)
        requires
            old(self).id_ + 2 <= usize::MAX,
        ensures
            final(self).id_ == old(self).id_ + 2,
            nfa@ == Automaton::atom(Sym::AnyDigit, old(self).id_),
            nfa.wf(),
            nfa@.within(old(self).id_ as int, final(self).id_ as int),
    {
        self.atom(StateInput::AnyDigit)
    }

    /// The automaton of one arbitrary character.
    pub fn any_char(&mut self) -> (nfa: Nfa)
        requires
            old(self).id_ + 2 <= usize::MAX,
        ensures
            final(self).id_ == old(self).id_ + 2,
            nfa@ == Automaton::atom(Sym::AnyChar, old(self).id_),
            nfa.wf(),
            nfa@.within(old(self).id_ as int, final(self).id_ as int),
    {
        self.atom(StateInput::AnyChar)
    }

    /// The automaton of one character out of `chars`.
    pub fn any_char_in(&mut self, chars: Vec<char>) -> (nfa: Nfa)
        requires
            old(self).id_ + 2 <= usize::MAX,
        ensures
            final(self).id_ == old(self).id_ + 2,
            nfa@ == Automaton::atom(Sym::AnyCharIn(chars@), old(self).id_),
            nfa.wf(),
            nfa@.within(old(self).id_ as int, final(self).id_ as int),
    {
        self.atom(StateInput::AnyCharIn(chars))
    }

    /// The alternation of `left` and `right`: a new start state with an
    /// epsilon transition to either start state, and a new accept state that
    /// every former accept state leads to.
    pub fn or(&mut self, left: Nfa, right: Nfa) -> (nfa: Nfa)
        requires
            old(self).id_ + 2 <= usize::MAX,
            left.wf(),
            right.wf(),
            left.states@.dom().disjoint(right.states@.dom()),
            forall|id: StateId|
                left.states@.contains_key(id) || right.states@.contains_key(id) ==> id <= old(
                    self,
                ).id_,
        ensures
            final(self).id_ == old(self).id_ + 2,
            nfa@ == Automaton::or(left@, right@, old(self).id_),
            nfa.wf(),
            nfa@.edges.dom() == left@.edges.dom().union(right@.edges.dom()).insert(
                (old(self).id_ + 1) as StateId,
            ).insert((old(self).id_ + 2) as StateId),
    {
        let ghost k = self.id_;
        let ghost l = left@;
        let ghost r = right@;
        let mut left = left;
        let mut right = right;
        let end = NfaState { id: self.next_id(), transition: Vec::new() };
        let start = NfaState {
            id: self.next_id(),
            transition: vec![(StateInput::Epsilon, left.start), (StateInput::Epsilon, right.start)],
        };

        let start_id = start.id;
        let end_id = end.id;

        link_all(&mut left.states, &left.end, end_id);
        link_all(&mut right.states, &right.end, end_id);

        left.start = start_id;
        left.end = vec![end_id];

        let ghost linked_left = left.states@;
        let ghost linked_right = right.states@;
        absorb(&mut left.states, right.states);
        proof {
            lemma_graph_of_union(linked_left, linked_right);
            lemma_graph_of_insert(left.states@, start_id, start);
            lemma_graph_of_insert(left.states@.insert(start_id, start), end_id, end);
            assert(start@ =~= seq![(Sym::Epsilon, l.start), (Sym::Epsilon, r.start)]);
            assert(end@ =~= Seq::<(Sym, StateId)>::empty());
            assert(!left.states@.contains_key(start_id));
            assert(!left.states@.contains_key(end_id));
        }
        left.states.insert_nfa_state(start);
        left.states.insert_nfa_state(end);
        proof {
            lemma_or_wf(l, r, k);
            assert(left@.accepts =~= seq![end_id]);
            assert(left@.edges == Automaton::or(l, r, k).edges);
        }
        left
    }

    /// Zero or more rounds of `nfa`: every accept state leads back to the
    /// start state, and the start state leads to every accept state.
    pub fn kleene_star(&mut self, nfa: Nfa) -> (starred: Nfa)
        requires
            nfa.wf(),
        ensures
            final(self).id_ == old(self).id_,
            starred@ == nfa@.star(),
            starred.wf(),
            starred@.edges.dom() == nfa@.edges.dom(),
    {
        let ghost a = nfa@;
        let mut nfa = nfa;
        let start = nfa.start;
        proof {
            lemma_link(a.edges, a.accepts, a.start);
        }
        link_all(&mut nfa.states, &nfa.end, start);
        fan_out_all(&mut nfa.states, start, &nfa.end);
        proof {
            lemma_star_wf(a);
        }
        nfa
    }

    /// The automaton of one character that is not in `chars`.
    pub fn any_char_not_in(&mut self, chars: Vec<char>) -> (nfa: Nfa)
        requires
            old(self).id_ + 2 <= usize::MAX,
        ensures
            final(self).id_ == old(self).id_ + 2,
            nfa@ == Automaton::atom(Sym::AnyCharNotIn(chars@), old(self).id_),
            nfa.wf(),
            nfa@.within(old(self).id_ as int, final(self).id_ as int),
    {
        self.atom(StateInput::AnyCharNotIn(chars))
    }

    /// One or more rounds of `nfa`: every accept state leads back to the
    /// start state.
    pub fn one_or_more(&mut self, nfa: Nfa) -> (repeated: Nfa)
        requires
            nfa.wf(),
        ensures
            final(self).id_ == old(self).id_,
            repeated@ == nfa@.plus(),
            repeated.wf(),
            repeated@.edges.dom() == nfa@.edges.dom(),
    {
        let ghost a = nfa@;
        let mut nfa = nfa;
        let start = nfa.start;
        link_all(&mut nfa.states, &nfa.end, start);
        proof {
            lemma_plus_wf(a);
        }
        nfa
    }

    /// Compiles each of `patterns` and chains the automata: every accept
    /// state of one leads to the start state of the next. No pattern at all
    /// gives two fresh states joined by an epsilon transition.
    pub fn sequence(&mut self, patterns: Vec<Pattern>) -> (nfa: Nfa)
        requires
            old(self).id_ + Ast::Sequence(asts(patterns@)).state_count() <= usize::MAX,
        ensures
            final(self).id_ == old(self).id_ + Ast::Sequence(asts(patterns@)).state_count(),
            nfa@ == Ast::Sequence(asts(patterns@)).thompson(old(self).id_),
            nfa.wf(),
            nfa@.within(old(self).id_ as int, final(self).id_ as int),
            forall|w: Seq<char>| #[trigger]
                nfa@.accepts(w) <==> Ast::accepted_in_turn(asts(patterns@), old(self).id_, w),
            patterns@.len() > 0 ==> nfa.start == asts(patterns@)[0].thompson(old(self).id_).start
                && nfa.end@ == asts(patterns@).last().thompson(
                (old(self).id_ + Ast::chain_count(asts(patterns@).drop_last())) as StateId,
            ).accepts,
        decreases patterns, 1nat,
    {
        let ghost k = self.id_;
        let ghost all = patterns@;
        let ghost ps = asts(patterns@);
        let mut states: HashMap<StateId, NfaState> = HashMap::new();
        let mut prev_end: Vec<usize> = Vec::new();
        let mut start: Option<usize> = None;
        proof {
            assert(Ast::Sequence(ps).thompson(k) == Ast::thompson_chain(ps, k));
            assert forall|w: Seq<char>| #[trigger]
                Ast::thompson_chain(ps, k).accepts(w) <==> Ast::accepted_in_turn(ps, k, w) by {
                lemma_chain_language(ps, k, w);
            }
            if ps.len() > 0 {
                lemma_chain_ends(ps, k);
            }
        }
        if patterns.len() == 0 {
            assert(ps.len() == 0);
            assert(Ast::thompson_chain(ps, k) == Automaton::atom(Sym::Epsilon, k));
            return self.atom(StateInput::Epsilon);
        }
        for pattern in it: patterns
            invariant
                it.seq() == all,
                ps == asts(all),
                k + Ast::chain_count(ps) <= usize::MAX,
                self.id_ == k + Ast::chain_count(ps.take(it.index() as int)),
                it.index() == 0 ==> states@ == Map::<StateId, NfaState>::empty() && prev_end@.len()
                    == 0 && start is None,
                it.index() > 0 ==> {
                    &&& start is Some
                    &&& assembled(start.unwrap(), prev_end@, states@) == Ast::thompson_chain(
                        ps.take(it.index() as int),
                        k,
                    )
                    &&& assembled(start.unwrap(), prev_end@, states@).wf()
                    &&& assembled(start.unwrap(), prev_end@, states@).within(
                        k as int,
                        self.id_ as int,
                    )
                    &&& filed(states@)
                },
        {
            let ghost i = it.index() as int;
            let ghost before = assembled(start.unwrap(), prev_end@, states@);
            proof {
                assert(pattern@ == ps[i]);
                assert(ps.take(i + 1).drop_last() =~= ps.take(i));
                assert(ps.take(i + 1).last() == ps[i]);
                lemma_chain_count_prefix(ps, i + 1);
            }
            let next_nfa = self.of(pattern);
            let ghost next = next_nfa@;
            if start.is_none() {
                start = Some(next_nfa.start);
            }
            let next_start = next_nfa.start;
            let ghost held = states@;
            absorb(&mut states, next_nfa.states);
            proof {
                lemma_graph_of_union(held, next_nfa.states@);
                if i > 0 {
                    lemma_followed_by_wf(before, next);
                    lemma_link(graph_of(states@), prev_end@, next_start);
                } else {
                    assert(graph_of(states@) =~= next.edges);
                }
            }
            link_all(&mut states, &prev_end, next_start);
            prev_end = next_nfa.end;
            proof {
                let now = assembled(start.unwrap(), prev_end@, states@);
                if i > 0 {
                    assert(now == before.followed_by(next));
                } else {
                    assert(ps.take(1).len() == 1);
                    assert(now == next);
                }
            }
        }
        proof {
            assert(ps.take(ps.len() as int) =~= ps);
        }
        let end = prev_end;
        Nfa { start: start.unwrap(), end, states }
    }
}

} // verus!
