//! Nondeterministic finite automata: a flat table of states keyed by id, and
//! what it means for such a table to accept a word.

use crate::label::{StateInput, Sym};
use std::collections::HashMap;
use vstd::prelude::*;

verus! {

pub type StateId = usize;

/// The edges of an automaton: for each state, its outgoing transitions in order.
pub type Graph = Map<StateId, Seq<(Sym, StateId)>>;

/// One state: its id and its outgoing transitions.
#[derive(Debug)]
pub struct NfaState {
    pub id: StateId,
    pub transition: Vec<(StateInput, StateId)>,
}

/// An automaton: a start state, the accept states and the table of states.
#[derive(Debug)]
pub struct Nfa {
    pub start: StateId,
    pub end: Vec<StateId>,
    pub states: HashMap<StateId, NfaState>,
}

/// The mathematical model of an automaton.
pub struct Automaton {
    pub start: StateId,
    pub accepts: Seq<StateId>,
    pub edges: Graph,
}

/// The model of a list of transitions.
pub open spec fn edges_of(transition: Seq<(StateInput, StateId)>) -> Seq<(Sym, StateId)> {
    Seq::new(transition.len(), |i: int| (transition[i].0@, transition[i].1))
}

impl View for NfaState {
    type V = Seq<(Sym, StateId)>;

    open spec fn view(&self) -> Seq<(Sym, StateId)> {
        edges_of(self.transition@)
    }
}

/// The edges that a table of states holds.
pub open spec fn graph_of(states: Map<StateId, NfaState>) -> Graph {
    Map::new(|id: StateId| states.contains_key(id), |id: StateId| states[id]@)
}

impl View for Nfa {
    type V = Automaton;

    open spec fn view(&self) -> Automaton {
        Automaton { start: self.start, accepts: self.end@, edges: graph_of(self.states@) }
    }
}

/// Whether `g` has an edge from `a` to `b` labelled `sym`.
pub open spec fn has_edge(g: Graph, a: StateId, sym: Sym, b: StateId) -> bool {
    g.contains_key(a) && g[a].contains((sym, b))
}

/// Whether every edge of `g` leads to a state of `g`.
pub open spec fn graph_closed(g: Graph) -> bool {
    forall|a: StateId, j: int|
        g.contains_key(a) && 0 <= j < g[a].len() ==> g.contains_key((#[trigger] g[a][j]).1)
}

/// Whether `g` has a path of exactly `n` edges from `a` to `b` whose labels
/// consume exactly the word `w`: an epsilon edge consumes nothing, any other
/// edge consumes one character that its label accepts.
pub open spec fn walks(g: Graph, a: StateId, w: Seq<char>, b: StateId, n: nat) -> bool
    decreases n, 0nat,
{
    if n == 0 {
        a == b && w.len() == 0
    } else {
        exists|sym: Sym, t: StateId| #[trigger]
            has_edge(g, a, sym, t) && continues(g, sym, t, w, b, (n - 1) as nat)
    }
}

/// Whether, after an edge labelled `sym` into `t`, `n` more edges lead to
/// `b`, the whole path consuming `w`.
pub open spec fn continues(g: Graph, sym: Sym, t: StateId, w: Seq<char>, b: StateId, n: nat) -> bool
    decreases n, 1nat,
{
    if sym is Epsilon {
        walks(g, t, w, b, n)
    } else {
        w.len() > 0 && sym.accepts(w[0]) && walks(g, t, w.drop_first(), b, n)
    }
}

/// Whether some path of `g` from `a` to `b` consumes exactly `w`.
pub open spec fn reaches(g: Graph, a: StateId, w: Seq<char>, b: StateId) -> bool {
    exists|n: nat| walks(g, a, w, b, n)
}

impl Automaton {
    /// Every id that the automaton mentions is a state of it, and it has an
    /// accept state.
    pub open spec fn wf(self) -> bool {
        &&& self.edges.dom().finite()
        &&& self.edges.contains_key(self.start)
        &&& self.accepts.len() > 0
        &&& forall|i: int| 0 <= i < self.accepts.len() ==> self.edges.contains_key(self.accepts[i])
        &&& graph_closed(self.edges)
    }

    /// Whether the automaton accepts the whole of `w`: some path from the
    /// start state to an accept state consumes exactly `w`.
    pub open spec fn accepts(self, w: Seq<char>) -> bool {
        exists|i: int|
            0 <= i < self.accepts.len() && reaches(self.edges, self.start, w, #[trigger] self.accepts[i])
    }
}

impl Nfa {
    /// The table is consistent: each state is filed under its own id, and
    /// every id that is mentioned exists.
    pub open spec fn wf(&self) -> bool {
        &&& self@.wf()
        &&& forall|id: StateId| #[trigger]
            self.states@.contains_key(id) ==> self.states@[id].id == id
    }
}

/// An edge is a path of length one. An epsilon edge consumes nothing.
pub proof fn lemma_epsilon_edge(g: Graph, a: StateId, b: StateId)
    requires
        has_edge(g, a, Sym::Epsilon, b),
    ensures
        walks(g, a, Seq::empty(), b, 1),
{
    assert(walks(g, b, Seq::empty(), b, 0));
    assert(continues(g, Sym::Epsilon, b, Seq::empty(), b, 0));
}

/// An edge is a path of length one. A labelled edge consumes one character.
pub proof fn lemma_char_edge(g: Graph, a: StateId, sym: Sym, c: char, b: StateId)
    requires
        has_edge(g, a, sym, b),
        sym.accepts(c),
    ensures
        walks(g, a, seq![c], b, 1),
{
    assert(seq![c].drop_first() =~= Seq::<char>::empty());
    assert(walks(g, b, seq![c].drop_first(), b, 0));
    assert(continues(g, sym, b, seq![c], b, 0));
}

/// Two paths that meet make one path, which consumes both words in turn.
pub proof fn lemma_walks_concat(
    g: Graph,
    a: StateId,
    w1: Seq<char>,
    m: StateId,
    n1: nat,
    w2: Seq<char>,
    b: StateId,
    n2: nat,
)
    requires
        walks(g, a, w1, m, n1),
        walks(g, m, w2, b, n2),
    ensures
        walks(g, a, w1 + w2, b, n1 + n2),
    decreases n1,
{
    if n1 == 0 {
        assert(w1 + w2 =~= w2);
    } else {
        let (sym, t) = choose|sym: Sym, t: StateId| #[trigger]
            has_edge(g, a, sym, t) && continues(g, sym, t, w1, m, (n1 - 1) as nat);
        if sym is Epsilon {
            lemma_walks_concat(g, t, w1, m, (n1 - 1) as nat, w2, b, n2);
        } else {
            lemma_walks_concat(g, t, w1.drop_first(), m, (n1 - 1) as nat, w2, b, n2);
            assert((w1 + w2).drop_first() =~= w1.drop_first() + w2);
        }
        assert(continues(g, sym, t, w1 + w2, b, (n1 - 1 + n2) as nat));
    }
}

/// `reaches` is transitive, and the words are consumed in turn.
pub proof fn lemma_reaches_concat(
    g: Graph,
    a: StateId,
    w1: Seq<char>,
    m: StateId,
    w2: Seq<char>,
    b: StateId,
)
    requires
        reaches(g, a, w1, m),
        reaches(g, m, w2, b),
    ensures
        reaches(g, a, w1 + w2, b),
{
    let n1 = choose|n: nat| walks(g, a, w1, m, n);
    let n2 = choose|n: nat| walks(g, m, w2, b, n);
    lemma_walks_concat(g, a, w1, m, n1, w2, b, n2);
}

/// Every state reaches itself on the empty word.
pub proof fn lemma_reaches_self(g: Graph, a: StateId)
    ensures
        reaches(g, a, Seq::empty(), a),
{
    assert(walks(g, a, Seq::empty(), a, 0));
}

/// A path can be cut at any position of its word: some state lies between
/// the part that consumes the first `k` characters and the rest.
pub proof fn lemma_walks_split(g: Graph, a: StateId, w: Seq<char>, k: int, b: StateId, n: nat)
    requires
        walks(g, a, w, b, n),
        0 <= k <= w.len(),
    ensures
        exists|m: StateId| #[trigger]
            reaches(g, a, w.subrange(0, k), m) && reaches(g, m, w.subrange(k, w.len() as int), b),
    decreases n,
{
    if k == 0 {
        lemma_reaches_self(g, a);
        assert(w.subrange(0, 0) =~= Seq::<char>::empty());
        assert(w.subrange(0, w.len() as int) =~= w);
        assert(reaches(g, a, w.subrange(0, k), a) && reaches(
            g,
            a,
            w.subrange(k, w.len() as int),
            b,
        ));
    } else {
        let (sym, t) = choose|sym: Sym, t: StateId| #[trigger]
            has_edge(g, a, sym, t) && continues(g, sym, t, w, b, (n - 1) as nat);
        if sym is Epsilon {
            lemma_walks_split(g, t, w, k, b, (n - 1) as nat);
            let m = choose|m: StateId| #[trigger]
                reaches(g, t, w.subrange(0, k), m) && reaches(
                    g,
                    m,
                    w.subrange(k, w.len() as int),
                    b,
                );
            lemma_epsilon_edge(g, a, t);
            lemma_reaches_concat(g, a, Seq::empty(), t, w.subrange(0, k), m);
            assert(Seq::<char>::empty() + w.subrange(0, k) =~= w.subrange(0, k));
            assert(reaches(g, a, w.subrange(0, k), m));
        } else {
            let rest = w.drop_first();
            lemma_walks_split(g, t, rest, k - 1, b, (n - 1) as nat);
            let m = choose|m: StateId| #[trigger]
                reaches(g, t, rest.subrange(0, k - 1), m) && reaches(
                    g,
                    m,
                    rest.subrange(k - 1, rest.len() as int),
                    b,
                );
            lemma_char_edge(g, a, sym, w[0], t);
            lemma_reaches_concat(g, a, seq![w[0]], t, rest.subrange(0, k - 1), m);
            assert(seq![w[0]] + rest.subrange(0, k - 1) =~= w.subrange(0, k));
            assert(rest.subrange(k - 1, rest.len() as int) =~= w.subrange(k, w.len() as int));
            assert(reaches(g, a, w.subrange(0, k), m));
        }
    }
}

/// A path that consumes the single character `c` is a run of epsilon edges,
/// one edge that accepts `c`, and a run of epsilon edges.
pub proof fn lemma_walks_one_char(g: Graph, a: StateId, c: char, b: StateId, n: nat)
    requires
        walks(g, a, seq![c], b, n),
    ensures
        exists|s: StateId, sym: Sym, t: StateId|
            reaches(g, a, Seq::empty(), s) && #[trigger] has_edge(g, s, sym, t) && sym.accepts(c)
                && reaches(g, t, Seq::empty(), b),
    decreases n,
{
    let (sym, t) = choose|sym: Sym, t: StateId| #[trigger]
        has_edge(g, a, sym, t) && continues(g, sym, t, seq![c], b, (n - 1) as nat);
    if sym is Epsilon {
        lemma_walks_one_char(g, t, c, b, (n - 1) as nat);
        let (s, sym2, t2) = choose|s: StateId, sym: Sym, t2: StateId|
            reaches(g, t, Seq::empty(), s) && #[trigger] has_edge(g, s, sym, t2) && sym.accepts(c)
                && reaches(g, t2, Seq::empty(), b);
        lemma_epsilon_edge(g, a, t);
        lemma_reaches_concat(g, a, Seq::empty(), t, Seq::empty(), s);
        assert(Seq::<char>::empty() + Seq::<char>::empty() =~= Seq::<char>::empty());
        assert(reaches(g, a, Seq::empty(), s) && has_edge(g, s, sym2, t2));
    } else {
        lemma_reaches_self(g, a);
        assert(seq![c].drop_first() =~= Seq::<char>::empty());
        assert(walks(g, t, Seq::empty(), b, (n - 1) as nat));
        assert(reaches(g, a, Seq::empty(), a) && has_edge(g, a, sym, t));
    }
}

/// A set of states that every epsilon edge leads back into holds every state
/// that one of its members reaches on the empty word.
pub proof fn lemma_closed_holds(g: Graph, held: Set<StateId>, a: StateId, b: StateId, n: nat)
    requires
        forall|s: StateId, t: StateId|
            held.contains(s) && #[trigger] has_edge(g, s, Sym::Epsilon, t) ==> held.contains(t),
        held.contains(a),
        walks(g, a, Seq::empty(), b, n),
    ensures
        held.contains(b),
    decreases n,
{
    if n > 0 {
        let (sym, t) = choose|sym: Sym, t: StateId| #[trigger]
            has_edge(g, a, sym, t) && continues(g, sym, t, Seq::empty(), b, (n - 1) as nat);
        lemma_closed_holds(g, held, t, b, (n - 1) as nat);
    }
}

} // verus!
