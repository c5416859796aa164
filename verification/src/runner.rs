//! The simulator: it keeps the set of active states and advances it one
//! input character at a time.

use crate::label::Sym;
use crate::nfa::{
    Automaton,
    graph_closed, graph_of, has_edge, lemma_char_edge, lemma_closed_holds, lemma_epsilon_edge,
    lemma_reaches_concat, lemma_reaches_self, lemma_walks_one_char, lemma_walks_split, reaches,
    walks, Graph, Nfa, NfaState, StateId,
};
use std::collections::HashMap;
use vstd::prelude::*;

verus! {

broadcast use vstd::std_specs::hash::group_hash_axioms;

/// An automaton together with its set of active states.
pub struct NfaRunner {
    pub nfa: Nfa,
    pub current_states: Vec<StateId>,
}

/// Whether `x` occurs in `ids`.
pub fn contains_id(ids: &[StateId], x: StateId) -> (found: bool)
    ensures
        found == ids@.contains(x),
{
    let mut i: usize = 0;
    while i < ids.len()
        invariant
            i <= ids.len(),
            forall|j: int| 0 <= j < i ==> ids@[j] != x,
        decreases ids.len() - i,
    {
        if ids[i] == x {
            return true;
        }
        i += 1;
    }
    false
}

/// The targets of all edges that leave one of `sources` and are taken on
/// `on`: on the character, or, for `None`, on nothing (the epsilon edges).
pub fn successors(
    states: &HashMap<StateId, NfaState>,
    sources: &Vec<StateId>,
    on: Option<char>,
) -> (targets: Vec<StateId>)
    requires
        forall|i: int| 0 <= i < sources@.len() ==> states@.contains_key(sources@[i]),
    ensures
        forall|t: StateId|
            targets@.contains(t) <==> exists|s: StateId, sym: Sym|
                sources@.contains(s) && #[trigger] has_edge(graph_of(states@), s, sym, t)
                    && sym.fires(on),
{
    let ghost g = graph_of(states@);
    let mut targets: Vec<StateId> = Vec::new();
    for i in 0..sources.len()
        invariant
            g == graph_of(states@),
            forall|k: int| 0 <= k < sources@.len() ==> states@.contains_key(sources@[k]),
            forall|t: StateId|
                targets@.contains(t) ==> exists|s: StateId, sym: Sym|
                    sources@.contains(s) && #[trigger] has_edge(g, s, sym, t) && sym.fires(on),
            forall|k: int, j: int|
                0 <= k < i && 0 <= j < g[sources@[k]].len() && (#[trigger] g[sources@[k]][j]).0.fires(
                    on,
                ) ==> targets@.contains(g[sources@[k]][j].1),
    {
        let source = sources[i];
        let state = states.get(&source).unwrap();
        assert(state@ == g[source]);
        for j in 0..state.transition.len()
            invariant
                g == graph_of(states@),
                0 <= i < sources@.len(),
                source == sources@[i as int],
                states@.contains_key(source),
                state@ == g[source],
                state@.len() == state.transition@.len(),
                forall|t: StateId|
                    targets@.contains(t) ==> exists|s: StateId, sym: Sym|
                        sources@.contains(s) && #[trigger] has_edge(g, s, sym, t) && sym.fires(on),
                forall|k: int, j2: int|
                    0 <= k < i && 0 <= j2 < g[sources@[k]].len() && (
                    #[trigger] g[sources@[k]][j2]).0.fires(on) ==> targets@.contains(
                        g[sources@[k]][j2].1,
                    ),
                forall|j2: int|
                    0 <= j2 < j && (#[trigger] g[source][j2]).0.fires(on) ==> targets@.contains(
                        g[source][j2].1,
                    ),
        {
            let edge = &state.transition[j];
            if edge.0.fires(on) {
                let ghost before = targets@;
                targets.push(edge.1);
                proof {
                    assert(g[source][j as int] == (edge.0@, edge.1));
                    assert forall|x: StateId| before.contains(x) implies targets@.contains(x) by {
                        let at = choose|at: int| 0 <= at < before.len() && before[at] == x;
                        assert(targets@[at] == x);
                    }
                    assert(targets@[before.len() as int] == edge.1);
                    assert(has_edge(g, source, edge.0@, edge.1));
                    assert forall|t: StateId| targets@.contains(t) implies exists|
                        s: StateId,
                        sym: Sym,
                    |
                        sources@.contains(s) && #[trigger] has_edge(g, s, sym, t) && sym.fires(
                            on,
                        ) by {
                        let at = choose|at: int| 0 <= at < targets@.len() && targets@[at] == t;
                        if at < before.len() {
                            assert(before.contains(t));
                        } else {
                            assert(sources@.contains(source) && has_edge(g, source, edge.0@, t));
                        }
                    }
                }
            }
        }
    }
    proof {
        assert forall|t: StateId|
            (exists|s: StateId, sym: Sym|
                sources@.contains(s) && #[trigger] has_edge(g, s, sym, t) && sym.fires(
                    on,
                )) implies targets@.contains(t) by {
            let (s, sym) = choose|s: StateId, sym: Sym|
                sources@.contains(s) && #[trigger] has_edge(g, s, sym, t) && sym.fires(on);
            let k = choose|k: int| 0 <= k < sources@.len() && sources@[k] == s;
            let j = choose|j: int| 0 <= j < g[s].len() && g[s][j] == (sym, t);
            assert(g[sources@[k]][j].0.fires(on));
        }
    }
    targets
}

/// Appends to `held` each of `candidates` that it does not hold yet, once,
/// in the order of their first occurrence, and returns what it appended.
pub fn append_new(held: &mut Vec<StateId>, candidates: &[StateId]) -> (added: Vec<StateId>)
    ensures
        final(held)@ == old(held)@ + added@,
        forall|x: StateId|
            added@.contains(x) <==> candidates@.contains(x) && !old(held)@.contains(x),
        added@.no_duplicates(),
        old(held)@.no_duplicates() ==> final(held)@.no_duplicates(),
{
    let ghost before = held@;
    let mut added: Vec<StateId> = Vec::new();
    let mut i: usize = 0;
    while i < candidates.len()
        invariant
            i <= candidates.len(),
            held@ == before + added@,
            forall|x: StateId| #[trigger]
                added@.contains(x) ==> candidates@.contains(x) && !before.contains(x),
            forall|k: int|
                0 <= k < i && !before.contains(candidates@[k]) ==> added@.contains(
                    #[trigger] candidates@[k],
                ),
            added@.no_duplicates(),
        decreases candidates.len() - i,
    {
        let item = candidates[i];
        if !contains_id(held.as_slice(), item) {
            let ghost so_far = added@;
            proof {
                assert(!so_far.contains(item)) by {
                    if so_far.contains(item) {
                        let at = choose|at: int| 0 <= at < so_far.len() && so_far[at] == item;
                        assert(held@[before.len() + at] == item);
                    }
                }
                assert(!before.contains(item)) by {
                    if before.contains(item) {
                        let at = choose|at: int| 0 <= at < before.len() && before[at] == item;
                        assert(held@[at] == item);
                    }
                }
            }
            held.push(item);
            added.push(item);
            proof {
                assert(held@ =~= before + added@);
                assert(added@[so_far.len() as int] == item);
                assert forall|x: StateId| so_far.contains(x) implies added@.contains(x) by {
                    let at = choose|at: int| 0 <= at < so_far.len() && so_far[at] == x;
                    assert(added@[at] == x);
                }
                assert forall|x: StateId| #[trigger] added@.contains(x) implies candidates@.contains(
                    x,
                ) && !before.contains(x) by {
                    let at = choose|at: int| 0 <= at < added@.len() && added@[at] == x;
                    if at < so_far.len() {
                        assert(so_far.contains(x));
                    } else {
                        assert(candidates@[i as int] == x);
                    }
                }
            }
        } else {
            proof {
                if !before.contains(item) {
                    let at = choose|at: int| 0 <= at < held@.len() && held@[at] == item;
                    assert(added@[at - before.len()] == item);
                }
            }
        }
        i += 1;
    }
    proof {
        assert forall|x: StateId| candidates@.contains(x) && !before.contains(x) implies added@.contains(
            x,
        ) by {
            let k = choose|k: int| 0 <= k < candidates@.len() && candidates@[k] == x;
            assert(added@.contains(candidates@[k]));
        }
        if before.no_duplicates() {
            assert forall|a: int, b: int| 0 <= a < held@.len() && 0 <= b < held@.len() && a
                != b implies held@[a] != held@[b] by {
                if a >= before.len() {
                    assert(added@.contains(added@[a - before.len()]));
                }
                if b >= before.len() {
                    assert(added@.contains(added@[b - before.len()]));
                }
                if a < before.len() {
                    assert(before.contains(before[a]));
                }
                if b < before.len() {
                    assert(before.contains(before[b]));
                }
            }
        }
    }
    added
}

/// If the frontier of a closure step reaches a state that was not held
/// before, the set of held states grows, and it stays within the table.
proof fn lemma_grows(before: Seq<StateId>, extra: Seq<StateId>, x: StateId, dom: Set<StateId>)
    requires
        dom.finite(),
        forall|y: StateId| (before + extra).contains(y) ==> dom.contains(y),
        extra.contains(x),
        !before.contains(x),
    ensures
        before.to_set().len() < (before + extra).to_set().len() <= dom.len(),
{
    let small = before.to_set();
    let big = (before + extra).to_set();
    let at = choose|at: int| 0 <= at < extra.len() && extra[at] == x;
    assert((before + extra)[before.len() + at] == x);
    assert(big.contains(x));
    assert(big.subset_of(dom));
    vstd::set_lib::lemma_len_subset(big, dom);
    assert forall|y: StateId| small.contains(y) implies big.remove(x).contains(y) by {
        let i = choose|i: int| 0 <= i < before.len() && before[i] == y;
        assert((before + extra)[i] == y);
    }
    assert(small.subset_of(big.remove(x)));
    vstd::set_lib::lemma_len_subset(small, big.remove(x));
}

/// What is held after a closure is closed under paths that consume nothing.
proof fn lemma_closure_closed(g: Graph, initial: Seq<StateId>, held: Seq<StateId>)
    requires
        forall|b: StateId|
            held.contains(b) <==> exists|a: StateId|
                initial.contains(a) && #[trigger] reaches(g, a, Seq::empty(), b),
    ensures
        forall|s: StateId, t: StateId|
            held.contains(s) && #[trigger] reaches(g, s, Seq::empty(), t) ==> held.contains(t),
{
    assert forall|s: StateId, t: StateId|
        held.contains(s) && #[trigger] reaches(g, s, Seq::empty(), t) implies held.contains(
        t,
    ) by {
        let a = choose|a: StateId| initial.contains(a) && #[trigger] reaches(g, a, Seq::empty(), s);
        lemma_reaches_concat(g, a, Seq::empty(), s, Seq::empty(), t);
        assert(Seq::<char>::empty() + Seq::<char>::empty() =~= Seq::<char>::empty());
    }
}

impl NfaRunner {
    /// The automaton is consistent, every active state is one of its states,
    /// and the active set is closed under paths that consume nothing.
    pub open spec fn wf(&self) -> bool {
        &&& self.nfa.wf()
        &&& forall|i: int|
            0 <= i < self.current_states@.len() ==> self.nfa.states@.contains_key(
                self.current_states@[i],
            )
        &&& forall|s: StateId, t: StateId|
            self.current_states@.contains(s) && #[trigger] reaches(
                self.nfa@.edges,
                s,
                Seq::empty(),
                t,
            ) ==> self.current_states@.contains(t)
    }

    /// Whether the active states are those that the start state reaches
    /// without consuming anything, as in a runner that has read no input.
    pub open spec fn at_start(&self) -> bool {
        forall|b: StateId|
            self.current_states@.contains(b) <==> reaches(
                self.nfa@.edges,
                self.nfa.start,
                Seq::empty(),
                b,
            )
    }

    /// A runner that has read no input. Each active state is listed once.
    pub fn new(nfa: Nfa) -> (runner: NfaRunner)
        requires
            nfa.wf(),
        ensures
            runner.nfa == nfa,
            runner.wf(),
            runner.at_start(),
            runner.current_states@.no_duplicates(),
    {
        let start = nfa.start;
        let mut current_states = vec![start];
        let ghost initial = current_states@;
        assert(initial =~= seq![start]);
        NfaRunner::closure(&nfa.states, &mut current_states);
        proof {
            let g = nfa@.edges;
            lemma_closure_closed(g, initial, current_states@);
            assert forall|b: StateId| current_states@.contains(b) <==> reaches(
                g,
                start,
                Seq::empty(),
                b,
            ) by {
                assert(initial.contains(start)) by {
                    assert(initial[0] == start);
                }
                if current_states@.contains(b) {
                    let a = choose|a: StateId|
                        initial.contains(a) && #[trigger] reaches(g, a, Seq::empty(), b);
                    assert(a == start);
                }
            }
        }
        NfaRunner { nfa, current_states }
    }

    /// Feeds the whole of `input` to the runner and says whether an accept
    /// state is active at the end.
    pub fn run(self, input: &str) -> (matched: bool)
        requires
            self.wf(),
        ensures
            matched == (exists|s: StateId, f: StateId|
                self.current_states@.contains(s) && self.nfa.end@.contains(f) && #[trigger] reaches(
                    self.nfa@.edges,
                    s,
                    input@,
                    f,
                )),
            self.at_start() ==> matched == self.nfa@.accepts(input@),
    {
        let ghost g = self.nfa@.edges;
        let ghost initial = self.current_states@;
        let ghost accepts = self.nfa.end@;
        let mut runner = self;
        proof {
            assert forall|b: StateId| runner.current_states@.contains(b) implies exists|
                s: StateId,
            |
                initial.contains(s) && #[trigger] reaches(g, s, Seq::empty(), b) by {
                lemma_reaches_self(g, b);
                assert(initial.contains(b) && reaches(g, b, Seq::empty(), b));
            }
            assert(input@.take(0) =~= Seq::<char>::empty());
        }
        let ghost mut read: Seq<char> = Seq::empty();
        for c in it: input.chars()
            invariant
                it.seq() == input@,
                read == input@.take(it.index() as int),
                runner.wf(),
                runner.nfa@.edges == g,
                runner.nfa.end@ == accepts,
                forall|b: StateId|
                    runner.current_states@.contains(b) <==> exists|s: StateId|
                        initial.contains(s) && #[trigger] reaches(g, s, read, b),
        {
            let ghost held = runner.current_states@;
            let ghost longer = input@.take(it.index() + 1);
            runner.next(c);
            proof {
                assert(longer =~= read + seq![c]);
                assert forall|b: StateId| runner.current_states@.contains(b) implies exists|
                    s: StateId,
                |
                    initial.contains(s) && #[trigger] reaches(g, s, longer, b) by {
                    let m = choose|m: StateId|
                        held.contains(m) && #[trigger] reaches(g, m, seq![c], b);
                    let s = choose|s: StateId| initial.contains(s) && #[trigger] reaches(g, s, read, m);
                    lemma_reaches_concat(g, s, read, m, seq![c], b);
                }
                assert forall|b: StateId|
                    (exists|s: StateId|
                        initial.contains(s) && #[trigger] reaches(
                            g,
                            s,
                            longer,
                            b,
                        )) implies runner.current_states@.contains(b) by {
                    let s = choose|s: StateId| initial.contains(s) && #[trigger] reaches(g, s, longer, b);
                    let n = choose|n: nat| walks(g, s, longer, b, n);
                    lemma_walks_split(g, s, longer, read.len() as int, b, n);
                    assert(longer.subrange(0, read.len() as int) =~= read);
                    assert(longer.subrange(read.len() as int, longer.len() as int) =~= seq![c]);
                    let m = choose|m: StateId| #[trigger]
                        reaches(g, s, longer.subrange(0, read.len() as int), m) && reaches(
                            g,
                            m,
                            longer.subrange(read.len() as int, longer.len() as int),
                            b,
                        );
                    assert(held.contains(m));
                }
                read = longer;
            }
        }
        assert(read == input@) by {
            assert(input@.take(input@.len() as int) =~= input@);
        }
        let matched = runner.is_match();
        proof {
            if matched {
                let f = choose|f: StateId|
                    runner.current_states@.contains(f) && runner.nfa.end@.contains(f);
                let s = choose|s: StateId| initial.contains(s) && #[trigger] reaches(g, s, read, f);
                assert(initial.contains(s) && accepts.contains(f) && reaches(g, s, input@, f));
            }
            if exists|s: StateId, f: StateId|
                initial.contains(s) && accepts.contains(f) && #[trigger] reaches(g, s, input@, f) {
                let (s, f) = choose|s: StateId, f: StateId|
                    initial.contains(s) && accepts.contains(f) && #[trigger] reaches(
                        g,
                        s,
                        input@,
                        f,
                    );
                assert(runner.current_states@.contains(f) && runner.nfa.end@.contains(f));
            }
            if self.at_start() {
                lemma_run_from_start(self.nfa@.edges, self.nfa.start, initial, accepts, input@);
            }
            assert(matched == (exists|s: StateId, f: StateId|
                initial.contains(s) && accepts.contains(f) && #[trigger] reaches(g, s, input@, f)));
        }
        matched
    }

    /// Consumes the character `c`: the active states become those that an
    /// active state reaches by a path that consumes exactly `c`, each listed
    /// once.
    pub fn next(&mut self, c: char)
        requires
            old(self).wf(),
        ensures
            final(self).nfa == old(self).nfa,
            final(self).wf(),
            final(self).current_states@.no_duplicates(),
            forall|b: StateId|
                final(self).current_states@.contains(b) <==> exists|s: StateId|
                    old(self).current_states@.contains(s) && #[trigger] reaches(
                        old(self).nfa@.edges,
                        s,
                        seq![c],
                        b,
                    ),
    {
        let ghost g = self.nfa@.edges;
        let ghost held = self.current_states@;
        let targets = successors(&self.nfa.states, &self.current_states, Some(c));
        let mut new_states: Vec<StateId> = Vec::new();
        append_new(&mut new_states, targets.as_slice());
        let ghost moved = new_states@;
        assert(moved =~= Seq::<StateId>::empty() + moved);
        proof {
            assert forall|i: int| 0 <= i < moved.len() implies self.nfa.states@.contains_key(
                moved[i],
            ) by {
                assert(moved.contains(moved[i]));
                let (s, sym) = choose|s: StateId, sym: Sym|
                    held.contains(s) && #[trigger] has_edge(g, s, sym, moved[i]) && sym.fires(
                        Some(c),
                    );
                let j = choose|j: int| 0 <= j < g[s].len() && g[s][j] == (sym, moved[i]);
                assert(g.contains_key(g[s][j].1));
            }
        }
        NfaRunner::closure(&self.nfa.states, &mut new_states);
        self.current_states = new_states;
        proof {
            lemma_closure_closed(g, moved, self.current_states@);
            assert forall|b: StateId| self.current_states@.contains(b) implies exists|s: StateId|
                held.contains(s) && #[trigger] reaches(g, s, seq![c], b) by {
                let t = choose|t: StateId| moved.contains(t) && #[trigger] reaches(g, t, Seq::empty(), b);
                let (s, sym) = choose|s: StateId, sym: Sym|
                    held.contains(s) && #[trigger] has_edge(g, s, sym, t) && sym.fires(Some(c));
                lemma_char_edge(g, s, sym, c, t);
                assert(reaches(g, s, seq![c], t));
                lemma_reaches_concat(g, s, seq![c], t, Seq::empty(), b);
                assert(seq![c] + Seq::<char>::empty() =~= seq![c]);
            }
            assert forall|b: StateId|
                (exists|s: StateId|
                    held.contains(s) && #[trigger] reaches(
                        g,
                        s,
                        seq![c],
                        b,
                    )) implies self.current_states@.contains(b) by {
                let s = choose|s: StateId| held.contains(s) && #[trigger] reaches(g, s, seq![c], b);
                let n = choose|n: nat| walks(g, s, seq![c], b, n);
                lemma_walks_one_char(g, s, c, b, n);
                let (s2, sym, t) = choose|s2: StateId, sym: Sym, t: StateId|
                    reaches(g, s, Seq::empty(), s2) && #[trigger] has_edge(g, s2, sym, t)
                        && sym.accepts(c) && reaches(g, t, Seq::empty(), b);
                assert(held.contains(s2));
                assert(sym.fires(Some(c)));
                assert(moved.contains(t));
            }
        }
    }

    /// Whether an accept state is active.
    pub fn is_match(&self) -> (matched: bool)
        ensures
            matched == (exists|s: StateId|
                self.current_states@.contains(s) && self.nfa.end@.contains(s)),
    {
        for i in 0..self.current_states.len()
            invariant
                forall|k: int|
                    0 <= k < i ==> !self.nfa.end@.contains(#[trigger] self.current_states@[k]),
        {
            if contains_id(self.nfa.end.as_slice(), self.current_states[i]) {
                assert(self.current_states@.contains(self.current_states@[i as int]));
                return true;
            }
        }
        false
    }

    /// Extends `current` to its epsilon-closure: it then holds exactly the
    /// states that one of its former members reaches without consuming
    /// anything. The former members stay in front, in their order; each
    /// state that is added is added once, so a list without repeats stays
    /// without repeats.
    pub fn closure(states: &HashMap<StateId, NfaState>, current: &mut Vec<StateId>)
        requires
            graph_closed(graph_of(states@)),
            forall|i: int| 0 <= i < old(current)@.len() ==> states@.contains_key(old(current)@[i]),
        ensures
            forall|b: StateId|
                final(current)@.contains(b) <==> exists|a: StateId|
                    old(current)@.contains(a) && #[trigger] reaches(
                        graph_of(states@),
                        a,
                        Seq::empty(),
                        b,
                    ),
            forall|i: int| 0 <= i < final(current)@.len() ==> states@.contains_key(final(current)@[i]),
            old(current)@.is_prefix_of(final(current)@),
            old(current)@.no_duplicates() ==> final(current)@.no_duplicates(),
    {
        let ghost g = graph_of(states@);
        let ghost initial = current@;
        let mut new_states = current.clone();
        assert(new_states@ =~= current@);
        proof {
            assert forall|x: StateId| #[trigger] current@.contains(x) implies exists|a: StateId|
                initial.contains(a) && #[trigger] reaches(g, a, Seq::empty(), x) by {
                lemma_reaches_self(g, x);
            }
        }
        while new_states.len() > 0
            invariant
                g == graph_of(states@),
                graph_closed(g),
                initial.is_prefix_of(current@),
                initial.no_duplicates() ==> current@.no_duplicates(),
                forall|i: int| 0 <= i < current@.len() ==> states@.contains_key(current@[i]),
                forall|x: StateId| #[trigger]
                    current@.contains(x) ==> exists|a: StateId|
                        initial.contains(a) && #[trigger] reaches(g, a, Seq::empty(), x),
                forall|x: StateId| new_states@.contains(x) ==> current@.contains(x),
                forall|x: StateId, t: StateId|
                    current@.contains(x) && !new_states@.contains(x) && #[trigger] has_edge(
                        g,
                        x,
                        Sym::Epsilon,
                        t,
                    ) ==> current@.contains(t),
            decreases
                    states@.dom().len() - current@.to_set().len() + (if new_states@.len() > 0 {
                        1int
                    } else {
                        0int
                    }),
        {
            let ghost before = current@;
            let ghost frontier = new_states@;
            proof {
                assert forall|i: int| 0 <= i < frontier.len() implies states@.contains_key(
                    frontier[i],
                ) by {
                    assert(frontier.contains(frontier[i]));
                    let at = choose|at: int| 0 <= at < before.len() && before[at] == frontier[i];
                }
            }
            let epsilon_transitions = successors(states, &new_states, None);
            let ghost reached = epsilon_transitions@;
            let fresh = NfaRunner::diff(epsilon_transitions.as_slice(), current.as_slice());
            new_states = append_new(current, fresh.as_slice());
            let ghost added = new_states@;
            proof {
                assert forall|x: StateId| added.contains(x) <==> reached.contains(x)
                    && !before.contains(x) by {}
                assert forall|x: StateId| current@.contains(x) <==> before.contains(x)
                    || added.contains(x) by {
                    if before.contains(x) {
                        let i = choose|i: int| 0 <= i < before.len() && before[i] == x;
                        assert(current@[i] == x);
                    }
                    if added.contains(x) {
                        let i = choose|i: int| 0 <= i < added.len() && added[i] == x;
                        assert(current@[before.len() + i] == x);
                    }
                    if current@.contains(x) {
                        let i = choose|i: int| 0 <= i < current@.len() && current@[i] == x;
                        if i < before.len() {
                            assert(before[i] == x);
                        } else {
                            assert(added[i - before.len()] == x);
                        }
                    }
                }
                assert forall|x: StateId| reached.contains(x) implies states@.contains_key(x) && (
                exists|a: StateId|
                    initial.contains(a) && #[trigger] reaches(g, a, Seq::empty(), x)) by {
                    let (s, sym) = choose|s: StateId, sym: Sym|
                        frontier.contains(s) && #[trigger] has_edge(g, s, sym, x) && sym.fires(
                            None,
                        );
                    let j = choose|j: int| 0 <= j < g[s].len() && g[s][j] == (sym, x);
                    assert(g.contains_key(g[s][j].1));
                    assert(before.contains(s));
                    let a = choose|a: StateId|
                        initial.contains(a) && #[trigger] reaches(g, a, Seq::empty(), s);
                    lemma_epsilon_edge(g, s, x);
                    assert(reaches(g, s, Seq::empty(), x));
                    lemma_reaches_concat(g, a, Seq::empty(), s, Seq::empty(), x);
                    assert(Seq::<char>::empty() + Seq::<char>::empty() =~= Seq::<char>::empty());
                }
                assert forall|x: StateId| #[trigger] current@.contains(x) implies exists|
                    a: StateId,
                |
                    initial.contains(a) && #[trigger] reaches(g, a, Seq::empty(), x) by {
                    if before.contains(x) {
                        let a = choose|a: StateId|
                            initial.contains(a) && #[trigger] reaches(g, a, Seq::empty(), x);
                        assert(initial.contains(a) && reaches(g, a, Seq::empty(), x));
                    } else {
                        assert(reached.contains(x));
                    }
                }
                assert forall|i: int| 0 <= i < current@.len() implies states@.contains_key(
                    current@[i],
                ) by {
                    assert(current@.contains(current@[i]));
                    if before.contains(current@[i]) {
                        let at = choose|at: int| 0 <= at < before.len() && before[at] == current@[i];
                    } else {
                        assert(reached.contains(current@[i]));
                    }
                }
                assert forall|x: StateId, t: StateId|
                    current@.contains(x) && !new_states@.contains(x) && #[trigger] has_edge(
                        g,
                        x,
                        Sym::Epsilon,
                        t,
                    ) implies current@.contains(t) by {
                    if frontier.contains(x) {
                        assert(Sym::Epsilon.fires(None));
                        assert(reached.contains(t));
                    }
                }
                assert forall|y: StateId| #[trigger] current@.contains(y) implies states@.dom().contains(
                    y,
                ) by {
                    let i = choose|i: int| 0 <= i < current@.len() && current@[i] == y;
                }
                if new_states@.len() > 0 {
                    let x = new_states@[0];
                    assert(added.contains(x));
                    lemma_grows(before, added, x, states@.dom());
                } else {
                    assert(current@ =~= before);
                    vstd::set_lib::lemma_len_subset(current@.to_set(), states@.dom());
                }
            }
        }
        proof {
            let held = current@.to_set();
            assert forall|a: StateId, b: StateId|
                initial.contains(a) && #[trigger] reaches(
                    g,
                    a,
                    Seq::empty(),
                    b,
                ) implies current@.contains(b) by {
                let n = choose|n: nat| walks(g, a, Seq::empty(), b, n);
                let i = choose|i: int| 0 <= i < initial.len() && initial[i] == a;
                assert(current@[i] == a);
                assert forall|s: StateId, t: StateId|
                    held.contains(s) && #[trigger] has_edge(
                        g,
                        s,
                        Sym::Epsilon,
                        t,
                    ) implies held.contains(t) by {
                    assert(!new_states@.contains(s));
                }
                lemma_closed_holds(g, held, a, b, n);
            }
        }
    }

    /// The members of `a` that do not occur in `b`, in their order.
    pub fn diff(a: &[StateId], b: &[StateId]) -> (rest: Vec<StateId>)
        ensures
            rest@ == a@.filter(|x: StateId| !b@.contains(x)),
            forall|x: StateId| rest@.contains(x) <==> a@.contains(x) && !b@.contains(x),
    {
        let ghost keep = |x: StateId| !b@.contains(x);
        let mut rest: Vec<StateId> = Vec::new();
        assert(a@.take(0).filter(keep) =~= Seq::<StateId>::empty()) by {
            reveal(Seq::filter);
        }
        for i in 0..a.len()
            invariant
                keep == |x: StateId| !b@.contains(x),
                rest@ == a@.take(i as int).filter(keep),
                forall|x: StateId| rest@.contains(x) ==> a@.contains(x) && !b@.contains(x),
                forall|k: int| 0 <= k < i && !b@.contains(a@[k]) ==> rest@.contains(#[trigger] a@[k]),
        {
            let item = a[i];
            let ghost before = rest@;
            proof {
                reveal(Seq::filter);
                assert(a@.take(i + 1).drop_last() =~= a@.take(i as int));
                assert(a@.take(i + 1).last() == item);
            }
            if !contains_id(b, item) {
                rest.push(item);
                proof {
                    assert(rest@[before.len() as int] == item);
                    assert forall|x: StateId| before.contains(x) implies rest@.contains(x) by {
                        let at = choose|at: int| 0 <= at < before.len() && before[at] == x;
                        assert(rest@[at] == x);
                    }
                    assert forall|x: StateId| rest@.contains(x) implies a@.contains(x)
                        && !b@.contains(x) by {
                        let at = choose|at: int| 0 <= at < rest@.len() && rest@[at] == x;
                        if at < before.len() {
                            assert(before.contains(x));
                        }
                    }
                }
            }
        }
        assert(a@.take(a@.len() as int) =~= a@);
        rest
    }
}

/// For a runner that has read no input, reaching an accept state from an
/// active state is acceptance by the automaton.
proof fn lemma_run_from_start(
    g: Graph,
    start: StateId,
    initial: Seq<StateId>,
    accepts: Seq<StateId>,
    w: Seq<char>,
)
    requires
        forall|b: StateId| initial.contains(b) <==> reaches(g, start, Seq::empty(), b),
    ensures
        (exists|s: StateId, f: StateId|
            initial.contains(s) && accepts.contains(f) && #[trigger] reaches(g, s, w, f)) == (
        Automaton { start, accepts, edges: g }).accepts(w),
{
    let m = Automaton { start, accepts, edges: g };
    if exists|s: StateId, f: StateId|
        initial.contains(s) && accepts.contains(f) && #[trigger] reaches(g, s, w, f) {
        let (s, f) = choose|s: StateId, f: StateId|
            initial.contains(s) && accepts.contains(f) && #[trigger] reaches(g, s, w, f);
        lemma_reaches_concat(g, start, Seq::empty(), s, w, f);
        assert(Seq::<char>::empty() + w =~= w);
        let i = choose|i: int| 0 <= i < accepts.len() && accepts[i] == f;
        assert(reaches(m.edges, m.start, w, m.accepts[i]));
    }
    if m.accepts(w) {
        let i = choose|i: int|
            0 <= i < m.accepts.len() && reaches(m.edges, m.start, w, #[trigger] m.accepts[i]);
        lemma_reaches_self(g, start);
        assert(initial.contains(start) && accepts.contains(accepts[i]) && reaches(
            g,
            start,
            w,
            accepts[i],
        ));
    }
}

} // verus!
