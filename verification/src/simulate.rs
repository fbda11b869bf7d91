//! Running an automaton on an input: which states are live after each
//! character, and whether the whole input is accepted.

use crate::automaton::{
    has_edge, lemma_unseen_shrinks, targets_inside, unseen, Automaton, Edge,
};
use crate::lists::{contains_char, contains_id};
use crate::nfa::{edges_of, nodes_of, NFA};
use vstd::prelude::*;

verus! {

/// The targets of the edges among `edges` that are taken on reading `c`, in
/// the order of the edges.
pub open spec fn moves(edges: Seq<Edge>, c: char) -> Seq<usize> {
    edges.filter(|e: Edge| e.reads(c)).map_values(|e: Edge| e.target)
}

/// The targets of those of `edges` that are taken without input and lead to
/// a state that `states` does not list, in the order of the edges.
pub open spec fn fresh_targets(edges: Seq<Edge>, states: Seq<usize>) -> Seq<usize> {
    edges.filter(|e: Edge| e.is_epsilon() && !states.contains(e.target)).map_values(
        |e: Edge| e.target,
    )
}

/// Every fresh target is the target of one of the edges, and is not listed.
pub proof fn lemma_fresh_targets(edges: Seq<Edge>, states: Seq<usize>, k: int)
    requires
        0 <= k < fresh_targets(edges, states).len(),
    ensures
        !states.contains(fresh_targets(edges, states)[k]),
        exists|j: int|
            0 <= j < edges.len() && (#[trigger] edges[j]).is_epsilon() && edges[j].target
                == fresh_targets(edges, states)[k],
{
    broadcast use vstd::seq_lib::group_filter_ensures;

    let keep = |e: Edge| e.is_epsilon() && !states.contains(e.target);
    let kept = edges.filter(keep);
    assert(keep(kept[k]));
    assert(kept.contains(kept[k]));
    edges.lemma_filter_contains_rev(keep, kept[k]);
    let j = choose|j: int| 0 <= j < edges.len() && edges[j] == kept[k];
    assert(edges[j].is_epsilon() && edges[j].target == fresh_targets(edges, states)[k]);
}

impl Automaton {
    /// The fresh targets of a state are nodes, and there are fewer unseen
    /// nodes once any of them was added to the list.
    pub proof fn lemma_close_step(self, states: Seq<usize>, i: nat)
        requires
            targets_inside(self.nodes),
            self.nodes.len() <= usize::MAX,
            i < states.len(),
        ensures
            ({
                let more = fresh_targets(self.edges_at(states[i as int]), states);
                &&& self.holds(more)
                &&& unseen(self.nodes.len(), states + more).len() <= unseen(
                    self.nodes.len(),
                    states,
                ).len()
                &&& more.len() > 0 ==> unseen(self.nodes.len(), states + more).len() < unseen(
                    self.nodes.len(),
                    states,
                ).len()
                &&& more.len() == 0 ==> states + more == states
            }),
    {
        let state = states[i as int];
        let edges = self.edges_at(state);
        let more = fresh_targets(edges, states);
        assert forall|k: int| 0 <= k < more.len() implies (#[trigger] more[k]) < self.nodes.len()
            && !states.contains(more[k]) by {
            lemma_fresh_targets(edges, states, k);
            let j = choose|j: int|
                0 <= j < edges.len() && (#[trigger] edges[j]).is_epsilon() && edges[j].target
                    == more[k];
            assert(has_edge(self.nodes, state as int, j));
        }
        lemma_unseen_shrinks(self.nodes.len(), states, more);
        if more.len() == 0 {
            assert(states + more =~= states);
        }
    }

    /// What closing makes of the list `states` from its place `i` on: the
    /// fresh targets of the state at `i` are added at the end, all at once,
    /// and closing goes on from the next place, until the list is through.
    pub open spec fn close_from(self, states: Seq<usize>, i: nat) -> Seq<usize>
        decreases unseen(self.nodes.len(), states).len(), states.len() - i,
        when targets_inside(self.nodes) && self.nodes.len() <= usize::MAX
    {
        if i >= states.len() {
            states
        } else {
            proof {
                self.lemma_close_step(states, i);
            }
            self.close_from(states + fresh_targets(self.edges_at(states[i as int]), states), i + 1)
        }
    }

    /// What closing makes of the list `states`.
    pub open spec fn eps_closure_seq(self, states: Seq<usize>) -> Seq<usize> {
        self.close_from(states, 0)
    }

    /// Whether an edge that is taken on reading `c` leads from `p` to `q`.
    pub open spec fn reads(self, p: usize, c: char, q: usize) -> bool {
        exists|j: int| #[trigger]
            self.has_edge(p as int, j) && self.edge(p as int, j).reads(c) && self.edge(
                p as int,
                j,
            ).target == q
    }

    /// Whether `q` can be reached from `p` without input.
    pub open spec fn eps_reach(self, p: usize, q: usize) -> bool {
        self.connected(true, p, q)
    }

    /// Everything that can be reached from a member of `from` without input.
    pub open spec fn eps_closure(self, from: Set<usize>) -> Set<usize> {
        self.closure(true, from)
    }

    /// Whether no edge without input leads out of `states`.
    pub open spec fn eps_closed(self, states: Set<usize>) -> bool {
        self.closed(true, states)
    }

    /// The states entered from a member of `from` on reading `c`.
    pub open spec fn step_set(self, from: Set<usize>, c: char) -> Set<usize> {
        Set::new(|q: usize| exists|p: usize| from.contains(p) && #[trigger] self.reads(p, c, q))
    }

    /// What one step on `c` makes of the list `states`: for each of its
    /// states in turn, the targets of that state's edges on `c`.
    pub open spec fn step_seq(self, states: Seq<usize>, c: char) -> Seq<usize> {
        states.map_values(|s: usize| moves(self.edges_at(s), c)).flatten()
    }

    /// Whether the automaton can get from `p` to `q` by reading exactly
    /// `input`: edges without input may be taken anywhere, and each character
    /// takes one edge that reads it.
    pub open spec fn reach(self, p: usize, input: Seq<char>, q: usize) -> bool
        decreases input.len(),
    {
        if input.len() == 0 {
            self.eps_reach(p, q)
        } else {
            exists|before: usize, after: usize|
                self.reach(p, input.drop_last(), before) && #[trigger] self.reads(
                    before,
                    input.last(),
                    after,
                ) && self.eps_reach(after, q)
        }
    }

    /// Whether reading exactly `input` can take the automaton from its start
    /// to a state that accepts.
    pub open spec fn accepts(self, input: Seq<char>) -> bool {
        exists|q: usize| #[trigger]
            self.reach(self.start, input, q) && q < self.nodes.len()
                && self.nodes[q as int].accepting
    }
}

/// A state is among `moves(edges, c)` exactly if one of the edges reads `c`
/// and leads to it.
pub proof fn lemma_moves_contains(edges: Seq<Edge>, c: char, q: usize)
    ensures
        moves(edges, c).contains(q) <==> exists|j: int|
            0 <= j < edges.len() && (#[trigger] edges[j]).reads(c) && edges[j].target == q,
{
    broadcast use vstd::seq_lib::group_filter_ensures;

    let taken = edges.filter(|e: Edge| e.reads(c));
    if moves(edges, c).contains(q) {
        let k = choose|k: int| 0 <= k < moves(edges, c).len() && moves(edges, c)[k] == q;
        assert(taken.contains(taken[k]));
        edges.lemma_filter_contains_rev(|e: Edge| e.reads(c), taken[k]);
        let j = choose|j: int| 0 <= j < edges.len() && edges[j] == taken[k];
        assert(edges[j].reads(c) && edges[j].target == q);
    }
    if exists|j: int| 0 <= j < edges.len() && (#[trigger] edges[j]).reads(c) && edges[j].target == q {
        let j = choose|j: int|
            0 <= j < edges.len() && (#[trigger] edges[j]).reads(c) && edges[j].target == q;
        assert(taken.contains(edges[j]));
        let k = choose|k: int| 0 <= k < taken.len() && taken[k] == edges[j];
        assert(moves(edges, c)[k] == q);
    }
}

impl Automaton {
    /// A state is among `step_seq(states, c)` exactly if an edge that reads
    /// `c` leads to it from one of `states`.
    pub proof fn lemma_step_seq_contains(self, states: Seq<usize>, c: char, q: usize)
        ensures
            self.step_seq(states, c).contains(q) <==> exists|k: int|
                0 <= k < states.len() && #[trigger] self.reads(states[k], c, q),
        decreases states.len(),
    {
        let each = |s: usize| moves(self.edges_at(s), c);
        if states.len() == 0 {
            assert(states.map_values(each) =~= Seq::<Seq<usize>>::empty());
            assert(self.step_seq(states, c) =~= Seq::<usize>::empty());
        } else {
            let front = states.drop_last();
            let last = states.last();
            let tail = moves(self.edges_at(last), c);
            self.lemma_step_seq_contains(front, c, q);
            assert(states.map_values(each) =~= front.map_values(each).push(tail));
            front.map_values(each).lemma_flatten_push(tail);
            assert(self.step_seq(states, c) =~= self.step_seq(front, c) + tail);
            lemma_moves_contains(self.edges_at(last), c, q);
            if self.step_seq(states, c).contains(q) {
                let at = choose|at: int|
                    0 <= at < self.step_seq(states, c).len() && self.step_seq(states, c)[at] == q;
                if at < self.step_seq(front, c).len() {
                    assert(self.step_seq(front, c)[at] == q);
                    let k = choose|k: int|
                        0 <= k < front.len() && #[trigger] self.reads(front[k], c, q);
                    assert(states[k] == front[k]);
                } else {
                    assert(tail[at - self.step_seq(front, c).len()] == q);
                    let j = choose|j: int|
                        0 <= j < self.edges_at(last).len() && (#[trigger] self.edges_at(
                            last,
                        )[j]).reads(c) && self.edges_at(last)[j].target == q;
                    assert(self.has_edge(last as int, j));
                    assert(self.reads(states[states.len() - 1], c, q));
                }
            }
            if exists|k: int| 0 <= k < states.len() && #[trigger] self.reads(states[k], c, q) {
                let k = choose|k: int|
                    0 <= k < states.len() && #[trigger] self.reads(states[k], c, q);
                if k < front.len() {
                    assert(front[k] == states[k]);
                    let at = choose|at: int|
                        0 <= at < self.step_seq(front, c).len() && self.step_seq(front, c)[at] == q;
                    assert(self.step_seq(states, c)[at] == q);
                } else {
                    let j = choose|j: int| #[trigger]
                        self.has_edge(last as int, j) && self.edge(last as int, j).reads(c)
                            && self.edge(last as int, j).target == q;
                    assert(self.edges_at(last)[j].reads(c));
                    let at = choose|at: int| 0 <= at < tail.len() && tail[at] == q;
                    assert(self.step_seq(states, c)[self.step_seq(front, c).len() + at] == q);
                }
            }
        }
    }

    /// As sets: a step on the list is the step on its members.
    pub proof fn lemma_step_seq_set(self, states: Seq<usize>, c: char)
        ensures
            self.step_seq(states, c).to_set() == self.step_set(states.to_set(), c),
    {
        let listed = self.step_seq(states, c).to_set();
        let stepped = self.step_set(states.to_set(), c);
        assert forall|q: usize| listed.contains(q) <==> stepped.contains(q) by {
            self.lemma_step_seq_contains(states, c, q);
            if listed.contains(q) {
                let k = choose|k: int|
                    0 <= k < states.len() && #[trigger] self.reads(states[k], c, q);
                assert(states.to_set().contains(states[k]));
            }
            if stepped.contains(q) {
                let p = choose|p: usize|
                    states.to_set().contains(p) && #[trigger] self.reads(p, c, q);
                let k = choose|k: int| 0 <= k < states.len() && states[k] == p;
                assert(self.reads(states[k], c, q));
            }
        }
        assert(listed =~= stepped);
    }
}

impl NFA {
    /// Adds to `current_states` every state that can be reached from one of
    /// them without input. What the list held stays in front, in its order;
    /// a list that no edge without input leads out of is left as it is. An id
    /// that names no state counts as a state without transitions.
    pub fn epsilon_closure(&self, current_states: &mut Vec<usize>)
        ensures
            final(current_states)@ == self@.eps_closure_seq(old(current_states)@),
            old(current_states)@.is_prefix_of(final(current_states)@),
            self@.holds(old(current_states)@) ==> self@.holds(final(current_states)@),
            final(current_states)@.to_set() == self@.eps_closure(old(current_states)@.to_set()),
            self@.eps_closed(final(current_states)@.to_set()),
            self@.eps_closed(old(current_states)@.to_set()) ==> final(current_states)@ == old(
                current_states,
            )@,
    {
        let states = self.states();
        let ghost graph = self@;
        let ghost given = current_states@;
        let mut i: usize = 0;
        proof {
            use_type_invariant(self);
            assert forall|k: int| 0 <= k < given.len() implies graph.eps_closure(
                given.to_set(),
            ).contains(#[trigger] given[k]) by {
                graph.lemma_connected_self(true, given[k]);
                assert(given.to_set().contains(given[k]));
            }
            assert(states.len() <= usize::MAX);
            lemma_unseen_shrinks(graph.nodes.len(), given, Seq::empty());
        }
        while i < current_states.len()
            invariant
                self.wf(),
                graph == self@,
                nodes_of(states@) == graph.nodes,
                graph.nodes.len() <= usize::MAX,
                i <= current_states.len(),
                graph.holds(given) ==> graph.holds(current_states@),
                given.is_prefix_of(current_states@),
                forall|k: int|
                    0 <= k < current_states.len() ==> graph.eps_closure(given.to_set()).contains(
                        #[trigger] current_states@[k],
                    ),
                forall|k: int, q: usize|
                    0 <= k < i && #[trigger] graph.linked(true, current_states@[k], q)
                        ==> current_states@.contains(q),
                graph.eps_closed(given.to_set()) ==> current_states@ == given,
                graph.close_from(current_states@, i as nat) == graph.close_from(given, 0),
                unseen(graph.nodes.len(), current_states@).finite(),
            decreases unseen(graph.nodes.len(), current_states@).len(), current_states.len() - i,
        {
            let state = current_states[i];
            let ghost edges = graph.edges_at(state);
            let ghost before = current_states@;
            let mut ep_transitions: Vec<usize> = Vec::new();
            proof {
                reveal(Seq::filter);
                assert(fresh_targets(edges.take(0), before) =~= Seq::<usize>::empty());
                assert(edges.take(edges.len() as int) =~= edges);
            }
            if state < states.len() {
                let transitions = &states[state].transitions;
                assert(edges == edges_of(transitions@));
                let mut j: usize = 0;
                while j < transitions.len()
                    invariant
                        self.wf(),
                        graph == self@,
                        ep_transitions@ == fresh_targets(edges.take(j as int), before),
                        state < graph.nodes.len(),
                        graph.nodes.len() <= usize::MAX,
                        edges == graph.nodes[state as int].edges,
                        edges == edges_of(transitions@),
                        j <= transitions.len(),
                        current_states@ == before,
                        forall|m: int|
                            0 <= m < ep_transitions.len() ==> !before.contains(
                                #[trigger] ep_transitions@[m],
                            ) && ep_transitions@[m] < graph.nodes.len() && graph.linked(
                                true,
                                state,
                                ep_transitions@[m],
                            ),
                        forall|l: int|
                            0 <= l < j && (#[trigger] edges[l]).is_epsilon() ==> before.contains(
                                edges[l].target,
                            ) || ep_transitions@.contains(edges[l].target),
                    decreases transitions.len() - j,
                {
                    let tran = &transitions[j];
                    assert(edges[j as int] == tran@);
                    assert(graph.has_edge(state as int, j as int));
                    proof {
                        reveal(Seq::filter);
                        assert(edges.take(j + 1).drop_last() =~= edges.take(j as int));
                        assert(edges.take(j + 1).last() == tran@);
                        if tran@.is_epsilon() && !before.contains(tran.next_state) {
                            assert(fresh_targets(edges.take(j + 1), before) =~= fresh_targets(
                                edges.take(j as int),
                                before,
                            ).push(tran.next_state));
                        }
                    }
                    if tran.symbol.is_empty() && !contains_id(current_states, tran.next_state) {
                        let ghost batch = ep_transitions@;
                        ep_transitions.push(tran.next_state);
                        proof {
                            assert(graph.edge(state as int, j as int).is_epsilon());
                            assert(graph.linked(true, state, tran.next_state));
                            assert forall|l: int|
                                0 <= l < j + 1 && (#[trigger] edges[l]).is_epsilon() implies before.contains(
                                edges[l].target,
                            ) || ep_transitions@.contains(edges[l].target) by {
                                if l < j {
                                    if batch.contains(edges[l].target) {
                                        let m = choose|m: int|
                                            0 <= m < batch.len() && batch[m] == edges[l].target;
                                        assert(ep_transitions@[m] == edges[l].target);
                                    }
                                } else {
                                    assert(ep_transitions@[batch.len() as int] == edges[l].target);
                                }
                            }
                        }
                    }
                    j += 1;
                }
            }
            let ghost batch = ep_transitions@;
            current_states.append(&mut ep_transitions);
            proof {
                let after = current_states@;
                assert(after == before + batch);
                assert(batch == fresh_targets(edges, before));
                assert(graph.close_from(before, i as nat) == graph.close_from(
                    after,
                    (i + 1) as nat,
                ));
                lemma_unseen_shrinks(graph.nodes.len(), before, batch);
                assert forall|k: int| 0 <= k < after.len() implies graph.eps_closure(
                    given.to_set(),
                ).contains(#[trigger] after[k]) by {
                    if k >= before.len() {
                        let q = batch[k - before.len()];
                        assert(graph.eps_closure(given.to_set()).contains(before[i as int]));
                        let origin = choose|o: usize|
                            given.to_set().contains(o) && #[trigger] graph.connected(true, o, state);
                        graph.lemma_connected_step(true, origin, state, q);
                    } else {
                        assert(after[k] == before[k]);
                    }
                }
                assert forall|k: int, q: usize|
                    0 <= k < i + 1 && #[trigger] graph.linked(true, after[k], q) implies after.contains(
                    q,
                ) by {
                    assert(after[k] == before[k]);
                    if k < i {
                        assert(before.contains(q));
                        let at = choose|at: int| 0 <= at < before.len() && before[at] == q;
                        assert(after[at] == q);
                    } else {
                        let l = choose|l: int| #[trigger]
                            graph.has_edge(state as int, l) && graph.edge(state as int, l).is_epsilon()
                                && graph.edge(state as int, l).target == q;
                        assert(edges[l].is_epsilon());
                        if before.contains(q) {
                            let at = choose|at: int| 0 <= at < before.len() && before[at] == q;
                            assert(after[at] == q);
                        } else {
                            let at = choose|at: int| 0 <= at < batch.len() && batch[at] == q;
                            assert(after[before.len() + at] == q);
                        }
                    }
                }
                if graph.eps_closed(given.to_set()) {
                    if batch.len() > 0 {
                        assert(given.to_set().contains(given[i as int]));
                        assert(graph.linked(true, state, batch[0]));
                        assert(given.to_set().contains(batch[0]));
                        assert(false);
                    }
                    assert(after =~= given);
                }
                assert(given.is_prefix_of(after));
            }
            i += 1;
        }
        proof {
            let all = current_states@.to_set();
            assert forall|p: usize, q: usize|
                all.contains(p) && #[trigger] graph.linked(true, p, q) implies all.contains(q) by {
                let k = choose|k: int| 0 <= k < current_states.len() && current_states@[k] == p;
                assert(graph.linked(true, current_states@[k], q));
            }
            assert forall|q: usize| graph.eps_closure(given.to_set()).contains(q) implies all.contains(
                q,
            ) by {
                let origin = choose|o: usize|
                    given.to_set().contains(o) && #[trigger] graph.connected(true, o, q);
                let k = choose|k: int| 0 <= k < given.len() && given[k] == origin;
                assert(current_states@[k] == origin);
                graph.lemma_closed_keeps(true, all, origin, q);
            }
            assert(all =~= graph.eps_closure(given.to_set()));
        }
    }

    /// Replaces `current_states` by the states entered from them on reading
    /// `c`: for each state in turn, the targets of its transitions that list
    /// `c`, in their order. An id that names no state counts as a state
    /// without transitions.
    pub fn step(&self, current_states: &mut Vec<usize>, c: char)
        ensures
            final(current_states)@ == self@.step_seq(old(current_states)@, c),
            final(current_states)@.to_set() == self@.step_set(old(current_states)@.to_set(), c),
            self@.holds(final(current_states)@),
    {
        let states = self.states();
        let ghost graph = self@;
        let ghost given = current_states@;
        let ghost each = |s: usize| moves(graph.edges_at(s), c);
        let mut next_states: Vec<usize> = Vec::new();
        let mut i: usize = 0;
        proof {
            use_type_invariant(self);
            assert(given.take(0).map_values(each) =~= Seq::<Seq<usize>>::empty());
            assert(graph.step_seq(given.take(0), c) =~= Seq::<usize>::empty());
        }
        while i < current_states.len()
            invariant
                self.wf(),
                graph == self@,
                nodes_of(states@) == graph.nodes,
                current_states@ == given,
                i <= given.len(),
                each == (|s: usize| moves(graph.edges_at(s), c)),
                next_states@ == graph.step_seq(given.take(i as int), c),
            decreases current_states.len() - i,
        {
            let state = current_states[i];
            let ghost edges = graph.edges_at(state);
            let ghost front = next_states@;
            proof {
                reveal(Seq::filter);
                assert(moves(edges.take(0), c) =~= Seq::<usize>::empty());
                assert(edges.take(edges.len() as int) =~= edges);
                assert(front + Seq::<usize>::empty() =~= front);
            }
            if state < states.len() {
                let transitions = &states[state].transitions;
                assert(edges == edges_of(transitions@));
                let mut j: usize = 0;
                while j < transitions.len()
                    invariant
                        edges == edges_of(transitions@),
                        j <= transitions.len(),
                        next_states@ == front + moves(edges.take(j as int), c),
                    decreases transitions.len() - j,
                {
                    let tran = &transitions[j];
                    proof {
                        reveal(Seq::filter);
                        assert(edges.take(j + 1).drop_last() =~= edges.take(j as int));
                        assert(edges.take(j + 1).last() == tran@);
                        if tran@.reads(c) {
                            assert(moves(edges.take(j + 1), c) =~= moves(edges.take(j as int), c).push(
                                tran.next_state,
                            ));
                        }
                    }
                    if contains_char(&tran.symbol, c) {
                        next_states.push(tran.next_state);
                    }
                    j += 1;
                }
            }
            proof {
                assert(next_states@ == front + moves(edges, c));
                let seen = given.take(i as int);
                assert(given.take(i + 1) =~= seen.push(state));
                assert(given.take(i + 1).map_values(each) =~= seen.map_values(each).push(
                    each(state),
                ));
                seen.map_values(each).lemma_flatten_push(each(state));
            }
            i += 1;
        }
        proof {
            assert(given.take(i as int) =~= given);
            graph.lemma_step_seq_set(given, c);
            assert forall|k: int| 0 <= k < next_states.len() implies (#[trigger] next_states@[k])
                < graph.nodes.len() by {
                let q = next_states@[k];
                assert(next_states@.contains(q));
                graph.lemma_step_seq_contains(given, c, q);
                let from = choose|from: int|
                    0 <= from < given.len() && #[trigger] graph.reads(given[from], c, q);
                let l = choose|l: int| #[trigger]
                    graph.has_edge(given[from] as int, l) && graph.edge(given[from] as int, l).reads(
                        c,
                    ) && graph.edge(given[from] as int, l).target == q;
                assert(has_edge(graph.nodes, given[from] as int, l));
            }
        }
        current_states.clear();
        current_states.append(&mut next_states);
        assert(current_states@ =~= graph.step_seq(given, c));
    }

    /// Whether one of `states` accepts.
    fn any_accepting(&self, states: &Vec<usize>) -> (found: bool)
        requires
            self@.holds(states@),
        ensures
            found == exists|k: int|
                0 <= k < states.len() && self@.nodes[(#[trigger] states@[k]) as int].accepting,
    {
        let all = self.states();
        let mut i: usize = 0;
        while i < states.len()
            invariant
                nodes_of(all@) == self@.nodes,
                self@.holds(states@),
                i <= states.len(),
                forall|k: int| 0 <= k < i ==> !self@.nodes[(#[trigger] states@[k]) as int].accepting,
            decreases states.len() - i,
        {
            if all[states[i]].accepting {
                return true;
            }
            i += 1;
        }
        false
    }

    /// Whether the automaton accepts `input` as a whole.
    pub fn run(&self, input: &str) -> (accepted: bool)
        ensures
            accepted == self@.accepts(input@),
    {
        let ghost graph = self@;
        let ghost text = input@;
        let mut current_states: Vec<usize> = Vec::new();
        current_states.push(self.start());
        proof {
            use_type_invariant(self);
            assert(current_states@ =~= seq![graph.start]);
            assert forall|q: usize|
                graph.eps_closure(current_states@.to_set()).contains(q) <==> graph.reach(
                    graph.start,
                    text.take(0),
                    q,
                ) by {
                assert(current_states@[0] == graph.start);
                assert(current_states@.to_set().contains(current_states@[0]));
                assert(text.take(0).len() == 0);
            }
        }
        for c in it: input.chars()
            invariant
                self.wf(),
                graph == self@,
                it.seq() == text,
                graph.holds(current_states@),
                forall|q: usize|
                    graph.eps_closure(current_states@.to_set()).contains(q) <==> graph.reach(
                        graph.start,
                        text.take(it.index() as int),
                        q,
                    ),
        {
            let ghost read = text.take(it.index() as int);
            let ghost live = graph.eps_closure(current_states@.to_set());
            self.epsilon_closure(&mut current_states);
            self.step(&mut current_states, c);
            proof {
                let next = text.take(it.index() + 1);
                assert(next.drop_last() =~= read);
                assert(next.last() == c);
                let entered = current_states@.to_set();
                assert(entered == graph.step_set(live, c));
                assert forall|q: usize|
                    graph.eps_closure(entered).contains(q) <==> graph.reach(
                        graph.start,
                        next,
                        q,
                    ) by {
                    if graph.eps_closure(entered).contains(q) {
                        let after = choose|after: usize|
                            entered.contains(after) && #[trigger] graph.connected(true, after, q);
                        let before = choose|before: usize|
                            live.contains(before) && #[trigger] graph.reads(before, c, after);
                        assert(graph.reach(graph.start, read, before));
                    }
                    if graph.reach(graph.start, next, q) {
                        let (before, after) = choose|before: usize, after: usize|
                            graph.reach(graph.start, next.drop_last(), before)
                                && #[trigger] graph.reads(before, next.last(), after)
                                && graph.eps_reach(after, q);
                        assert(live.contains(before));
                        assert(entered.contains(after));
                    }
                }
            }
        }
        proof {
            assert(text.take(text.len() as int) =~= text);
        }
        let ghost live = graph.eps_closure(current_states@.to_set());
        self.epsilon_closure(&mut current_states);
        let accepted = self.any_accepting(&current_states);
        proof {
            if accepted {
                let k = choose|k: int|
                    0 <= k < current_states.len() && graph.nodes[(
                    #[trigger] current_states@[k]) as int].accepting;
                assert(current_states@.to_set().contains(current_states@[k]));
                assert(graph.reach(graph.start, text, current_states@[k]));
            }
            if graph.accepts(text) {
                let q = choose|q: usize| #[trigger]
                    graph.reach(graph.start, text, q) && q < graph.nodes.len()
                        && graph.nodes[q as int].accepting;
                assert(live.contains(q));
                let k = choose|k: int| 0 <= k < current_states.len() && current_states@[k] == q;
                assert(graph.nodes[current_states@[k] as int].accepting);
            }
        }
        accepted
    }
}

} // verus!
