//! Looking for structural ambiguity: states to which two different loops
//! return on the same input.

use crate::automaton::{
    has_edge, lemma_unseen_shrinks, targets_inside, unseen, Automaton, Edge,
};
use crate::laws::{filed_twice_iff_ambiguous, loops_pairwise_different};
use crate::lists::{contains_id, copy_chars};
use crate::loops::{distinct_inputs, filed_at, find_loops, paths_of, table, InputLoops, InputMap};
use crate::nfa::{edges_of, nodes_of, NFA};
use std::collections::HashMap;
use vstd::prelude::*;

verus! {

/// A finding: `loops` loops at `state`, two or more and no two of them the
/// same, read the same `input`.
#[derive(Debug, PartialEq, Eq)]
pub struct Ambiguity {
    pub state: usize,
    pub input: Vec<char>,
    pub loops: usize,
}

impl Clone for Ambiguity {
    fn clone(&self) -> (copy: Ambiguity)
        ensures
            copy.state == self.state,
            copy.input@ == self.input@,
            copy.loops == self.loops,
    {
        Ambiguity { state: self.state, input: copy_chars(&self.input), loops: self.loops }
    }
}

/// `states`, with the target of each of `edges` in turn added at the end
/// where the list does not hold it yet.
pub open spec fn noted(states: Seq<usize>, edges: Seq<Edge>) -> Seq<usize>
    decreases edges.len(),
{
    if edges.len() == 0 {
        states
    } else {
        let before = noted(states, edges.drop_last());
        if before.contains(edges.last().target) {
            before
        } else {
            before.push(edges.last().target)
        }
    }
}

/// Noting the targets of edges that lead to one of the first `n` nodes keeps
/// the list among those nodes, and there are fewer unseen nodes once the list
/// has grown.
pub proof fn lemma_noted(n: nat, states: Seq<usize>, edges: Seq<Edge>)
    requires
        n <= usize::MAX,
        forall|k: int| 0 <= k < states.len() ==> (#[trigger] states[k]) < n,
        forall|j: int| 0 <= j < edges.len() ==> (#[trigger] edges[j]).target < n,
    ensures
        states.is_prefix_of(noted(states, edges)),
        forall|k: int|
            0 <= k < noted(states, edges).len() ==> (#[trigger] noted(states, edges)[k]) < n,
        unseen(n, noted(states, edges)).len() <= unseen(n, states).len(),
        noted(states, edges).len() > states.len() ==> unseen(n, noted(states, edges)).len()
            < unseen(n, states).len(),
        noted(states, edges).len() == states.len() ==> noted(states, edges) == states,
    decreases edges.len(),
{
    if edges.len() == 0 {
    } else {
        let before = noted(states, edges.drop_last());
        lemma_noted(n, states, edges.drop_last());
        let target = edges.last().target;
        if !before.contains(target) {
            lemma_unseen_shrinks(n, before, seq![target]);
            assert(before.push(target) =~= before + seq![target]);
        } else {
            if before.len() == states.len() {
                assert(before =~= states);
            }
        }
        if noted(states, edges).len() == states.len() {
            assert(noted(states, edges) =~= states);
        }
    }
}

impl Automaton {
    /// What exploring makes of the list `states` from its place `i` on: the
    /// targets of the state at `i` are noted, and exploring goes on from the
    /// next place, until the list is through.
    pub open spec fn explore_from(self, states: Seq<usize>, i: nat) -> Seq<usize>
        decreases unseen(self.nodes.len(), states).len(), states.len() - i,
        when targets_inside(self.nodes) && self.nodes.len() <= usize::MAX && self.holds(states)
    {
        if i >= states.len() {
            states
        } else {
            proof {
                self.lemma_explore_step(states, i);
            }
            self.explore_from(noted(states, self.nodes[states[i as int] as int].edges), i + 1)
        }
    }

    /// Noting the targets of one of the listed states keeps the list inside
    /// the automaton, and there are fewer unseen nodes once the list has
    /// grown.
    pub proof fn lemma_explore_step(self, states: Seq<usize>, i: nat)
        requires
            targets_inside(self.nodes),
            self.nodes.len() <= usize::MAX,
            self.holds(states),
            i < states.len(),
        ensures
            ({
                let next = noted(states, self.nodes[states[i as int] as int].edges);
                &&& self.holds(next)
                &&& states.is_prefix_of(next)
                &&& unseen(self.nodes.len(), next).len() <= unseen(self.nodes.len(), states).len()
                &&& next.len() > states.len() ==> unseen(self.nodes.len(), next).len() < unseen(
                    self.nodes.len(),
                    states,
                ).len()
                &&& next.len() == states.len() ==> next == states
            }),
    {
        let state = states[i as int];
        let edges = self.nodes[state as int].edges;
        assert forall|j: int| 0 <= j < edges.len() implies (#[trigger] edges[j]).target
            < self.nodes.len() by {
            assert(has_edge(self.nodes, state as int, j));
        }
        lemma_noted(self.nodes.len(), states, edges);
    }

    /// The states that can be reached from the start, in the order in which
    /// a breadth-first search meets them.
    pub open spec fn reached_list(self) -> Seq<usize> {
        self.explore_from(seq![self.start], 0)
    }

    /// Whether the automaton is ambiguous at `state` on `input`: the state can
    /// be reached from the start, and two ways back to it that take different
    /// transitions read `input`.
    pub open spec fn ambiguous_at(self, state: usize, input: Seq<char>) -> bool {
        self.reachable(state) && self.two_ways_back(state, input)
    }

    /// Whether `state` can be reached from the start and the search files two
    /// or more loops at it under `input`.
    pub open spec fn filed_twice(self, state: usize, input: Seq<char>) -> bool {
        &&& self.reachable(state)
        &&& self.loops_at(state).contains_key(input)
        &&& self.loops_at(state)[input].len() >= 2
    }
}

/// Whether `finding` says of `graph` what holds of it: the automaton is
/// ambiguous at the state on the input, and the finding gives the number of
/// loops at the state that read the input.
pub open spec fn true_of(graph: Automaton, finding: Ambiguity) -> bool {
    &&& graph.ambiguous_at(finding.state, finding.input@)
    &&& graph.loops_at(finding.state).contains_key(finding.input@)
    &&& graph.loops_at(finding.state)[finding.input@].no_duplicates()
    &&& finding.loops == graph.loops_at(finding.state)[finding.input@].len()
}

/// Whether `finding` gives a state and an input under which two or more
/// loops are filed, and their number.
spec fn counted(graph: Automaton, finding: Ambiguity) -> bool {
    &&& graph.filed_twice(finding.state, finding.input@)
    &&& finding.loops == graph.loops_at(finding.state)[finding.input@].len()
}

/// Whether one of the first `upto` of `states` is `state`.
spec fn among(states: Seq<usize>, upto: int, state: usize) -> bool {
    exists|a: int| 0 <= a < upto && a < states.len() && #[trigger] states[a] == state
}

/// Whether one of the first `upto` of `entries` is filed under `input`.
spec fn filed_among(entries: Seq<InputLoops>, upto: int, input: Seq<char>) -> bool {
    exists|b: int| 0 <= b < upto && #[trigger] filed_at(entries, input, b)
}

/// Whether one of `report` is about `state` and `input`.
spec fn reported(report: Seq<Ambiguity>, state: usize, input: Seq<char>) -> bool {
    exists|k: int| 0 <= k < report.len() && about(#[trigger] report[k], state, input)
}

/// Whether `finding` is about `state` and `input`.
pub open spec fn about(finding: Ambiguity, state: usize, input: Seq<char>) -> bool {
    finding.state == state && finding.input@ == input
}

impl NFA {
    /// The ids of the states that can be reached from the start, the start
    /// first, each one once.
    pub fn get_states(&self) -> (states: Vec<usize>)
        ensures
            states@ == self@.reached_list(),
            states@.no_duplicates(),
            states@.len() > 0,
            states@[0] == self@.start,
            self@.holds(states@),
            forall|q: usize| states@.contains(q) <==> self@.reachable(q),
    {
        let all = self.states();
        let ghost graph = self@;
        let mut states: Vec<usize> = Vec::new();
        states.push(self.start());
        let mut i: usize = 0;
        proof {
            use_type_invariant(self);
            graph.lemma_connected_self(false, graph.start);
            assert(all.len() <= usize::MAX);
            lemma_unseen_shrinks(graph.nodes.len(), states@, Seq::empty());
            assert(states@ =~= seq![graph.start]);
        }
        while i < states.len()
            invariant
                self.wf(),
                graph == self@,
                graph.explore_from(states@, i as nat) == graph.reached_list(),
                nodes_of(all@) == graph.nodes,
                graph.nodes.len() <= usize::MAX,
                i <= states.len(),
                states@.len() > 0,
                states@[0] == graph.start,
                states@.no_duplicates(),
                graph.holds(states@),
                forall|k: int| 0 <= k < states.len() ==> graph.reachable(#[trigger] states@[k]),
                forall|k: int, q: usize|
                    0 <= k < i && #[trigger] graph.linked(false, states@[k], q) ==> states@.contains(
                        q,
                    ),
                unseen(graph.nodes.len(), states@).finite(),
            decreases unseen(graph.nodes.len(), states@).len(), states.len() - i,
        {
            let current = states[i];
            let transitions = &all[current].transitions;
            let ghost edges = graph.nodes[current as int].edges;
            let ghost before = states@;
            assert(edges == edges_of(transitions@));
            let mut j: usize = 0;
            while j < transitions.len()
                invariant
                    self.wf(),
                    graph == self@,
                    graph.nodes.len() <= usize::MAX,
                    i < before.len(),
                    current == before[i as int],
                    current < graph.nodes.len(),
                    edges == graph.nodes[current as int].edges,
                    edges == edges_of(transitions@),
                    j <= transitions.len(),
                    before.is_prefix_of(states@),
                    states@ == noted(before, edges.take(j as int)),
                    states@.no_duplicates(),
                    graph.holds(states@),
                    forall|k: int| 0 <= k < states.len() ==> graph.reachable(#[trigger] states@[k]),
                    forall|l: int| 0 <= l < j ==> states@.contains((#[trigger] edges[l]).target),
                    unseen(graph.nodes.len(), states@).finite(),
                    unseen(graph.nodes.len(), states@).len() <= unseen(
                        graph.nodes.len(),
                        before,
                    ).len(),
                    states.len() > before.len() ==> unseen(graph.nodes.len(), states@).len()
                        < unseen(graph.nodes.len(), before).len(),
                decreases transitions.len() - j,
            {
                let tran = &transitions[j];
                assert(edges[j as int] == tran@);
                assert(graph.has_edge(current as int, j as int));
                assert(has_edge(graph.nodes, current as int, j as int));
                proof {
                    assert(edges.take(j + 1).drop_last() =~= edges.take(j as int));
                    assert(edges.take(j + 1).last() == tran@);
                }
                if !contains_id(&states, tran.next_state) {
                    let ghost held = states@;
                    states.push(tran.next_state);
                    proof {
                        assert(states@ == held + seq![tran.next_state]);
                        lemma_unseen_shrinks(graph.nodes.len(), held, seq![tran.next_state]);
                        assert(graph.linked(false, current, tran.next_state));
                        assert(held[i as int] == current);
                        graph.lemma_connected_step(false, graph.start, current, tran.next_state);
                        assert forall|l: int| 0 <= l < j + 1 implies states@.contains(
                            (#[trigger] edges[l]).target,
                        ) by {
                            if l < j {
                                let at = choose|at: int|
                                    0 <= at < held.len() && held[at] == edges[l].target;
                                assert(states@[at] == edges[l].target);
                            } else {
                                assert(states@[held.len() as int] == edges[l].target);
                            }
                        }
                    }
                }
                j += 1;
            }
            proof {
                assert(edges.take(j as int) =~= edges);
                assert(graph.explore_from(before, i as nat) == graph.explore_from(
                    states@,
                    (i + 1) as nat,
                ));
                assert forall|k: int, q: usize|
                    0 <= k < i + 1 && #[trigger] graph.linked(
                        false,
                        states@[k],
                        q,
                    ) implies states@.contains(q) by {
                    assert(states@[k] == before[k]);
                    if k < i {
                        let at = choose|at: int| 0 <= at < before.len() && before[at] == q;
                        assert(states@[at] == q);
                    } else {
                        let l = choose|l: int| #[trigger]
                            graph.has_edge(current as int, l) && graph.edge(current as int, l).target
                                == q;
                        assert(states@.contains(edges[l].target));
                    }
                }
            }
            i += 1;
        }
        proof {
            let listed = states@.to_set();
            assert forall|p: usize, q: usize|
                listed.contains(p) && #[trigger] graph.linked(false, p, q) implies listed.contains(
                q,
            ) by {
                let k = choose|k: int| 0 <= k < states.len() && states@[k] == p;
                assert(graph.linked(false, states@[k], q));
            }
            assert forall|q: usize| graph.reachable(q) implies states@.contains(q) by {
                assert(listed.contains(states@[0]));
                graph.lemma_closed_keeps(false, listed, graph.start, q);
            }
        }
        states
    }

    /// For each state that can be reached from the start, the loops at it,
    /// filed under their inputs.
    pub fn all_loops(&self) -> (loop_map: HashMap<usize, InputMap>)
        ensures
            forall|state: usize| loop_map@.contains_key(state) <==> self@.reachable(state),
            forall|state: usize| #[trigger]
                loop_map@.contains_key(state) ==> loop_map@[state]@ == self@.loops_at(state),
            forall|state: usize, input: Seq<char>|
                loop_map@.contains_key(state) && #[trigger] loop_map@[state]@.contains_key(input)
                    ==> loop_map@[state]@[input].no_duplicates(),
    {
        broadcast use vstd::std_specs::hash::group_hash_axioms;

        let mut loop_map: HashMap<usize, InputMap> = HashMap::new();
        let states = self.get_states();
        let ghost graph = self@;
        let mut i: usize = 0;
        while i < states.len()
            invariant
                graph == self@,
                i <= states.len(),
                forall|state: usize|
                    loop_map@.contains_key(state) <==> states@.take(i as int).contains(state),
                forall|state: usize| #[trigger]
                    loop_map@.contains_key(state) ==> loop_map@[state]@ == graph.loops_at(state),
            decreases states.len() - i,
        {
            let state = states[i];
            let mut found = InputMap::new();
            let loops = find_loops(self, state, state, &mut found, Vec::new(), Vec::new());
            let ghost before = loop_map@;
            loop_map.insert(state, loops);
            proof {
                let seen = states@.take(i as int);
                let next = states@.take(i + 1);
                assert(next =~= seen.push(state));
                assert forall|other: usize|
                    loop_map@.contains_key(other) <==> next.contains(other) by {
                    if seen.contains(other) {
                        let k = choose|k: int| 0 <= k < seen.len() && seen[k] == other;
                        assert(next[k] == other);
                    }
                    if next.contains(other) && other != state {
                        let k = choose|k: int| 0 <= k < next.len() && next[k] == other;
                        assert(seen[k] == other);
                    }
                    assert(next[i as int] == state);
                }
            }
            i += 1;
        }
        proof {
            assert(states@.take(i as int) =~= states@);
            use_type_invariant(self);
            assert forall|state: usize, input: Seq<char>|
                loop_map@.contains_key(state) && #[trigger] loop_map@[state]@.contains_key(
                    input,
                ) implies loop_map@[state]@[input].no_duplicates() by {
                loops_pairwise_different(graph, state, input);
            }
        }
        loop_map
    }

    /// The findings: one for each state that can be reached from the start
    /// and each input that two or more loops at that state read, with the
    /// number of those loops.
    pub fn find_ambiguity(&self) -> (report: Vec<Ambiguity>)
        ensures
            forall|k: int| 0 <= k < report.len() ==> true_of(self@, #[trigger] report@[k]),
            forall|state: usize, input: Seq<char>| #[trigger]
                self@.ambiguous_at(state, input) ==> exists|k: int|
                    0 <= k < report.len() && about(#[trigger] report@[k], state, input),
            forall|k: int, l: int|
                0 <= k < l < report.len() ==> !about(
                    #[trigger] report@[k],
                    (#[trigger] report@[l]).state,
                    report@[l].input@,
                ),
    {
        broadcast use vstd::std_specs::hash::group_hash_axioms;

        let loop_map = self.all_loops();
        let states = self.get_states();
        let ghost graph = self@;
        let mut report: Vec<Ambiguity> = Vec::new();
        let mut i: usize = 0;
        while i < states.len()
            invariant
                graph == self@,
                i <= states.len(),
                states@.no_duplicates(),
                forall|q: usize| states@.contains(q) <==> graph.reachable(q),
                forall|state: usize| loop_map@.contains_key(state) <==> graph.reachable(state),
                forall|state: usize| #[trigger]
                    loop_map@.contains_key(state) ==> loop_map@[state]@ == graph.loops_at(state),
                forall|k: int| 0 <= k < report.len() ==> counted(graph, #[trigger] report@[k]),
                forall|k: int|
                    0 <= k < report.len() ==> among(states@, i as int, (#[trigger] report@[k]).state),
                forall|a: int, input: Seq<char>|
                    0 <= a < i && #[trigger] graph.filed_twice(states@[a], input) ==> reported(
                        report@,
                        states@[a],
                        input,
                    ),
                forall|k: int, l: int|
                    0 <= k < l < report.len() ==> !about(
                        #[trigger] report@[k],
                        (#[trigger] report@[l]).state,
                        report@[l].input@,
                    ),
            decreases states.len() - i,
        {
            let state = states[i];
            assert(states@.contains(state));
            let ghost filed = report@;
            match loop_map.get(&state) {
                Some(found) => {
                    let entries = found.entries();
                    let mut j: usize = 0;
                    while j < entries.len()
                        invariant
                            j <= entries.len(),
                            i < states.len(),
                            state == states@[i as int],
                            states@.no_duplicates(),
                            graph.reachable(state),
                            distinct_inputs(entries@),
                            table(entries@) == graph.loops_at(state),
                            forall|b: int|
                                0 <= b < entries.len() ==> graph.loops_at(state).contains_key(
                                    (#[trigger] entries@[b]).input@,
                                ) && graph.loops_at(state)[entries@[b].input@] == paths_of(
                                    entries@[b].loops@,
                                ),
                            filed.is_prefix_of(report@),
                            forall|k: int|
                                0 <= k < report.len() ==> counted(graph, #[trigger] report@[k]),
                            forall|k: int|
                                0 <= k < filed.len() ==> among(
                                    states@,
                                    i as int,
                                    (#[trigger] filed[k]).state,
                                ),
                            forall|k: int|
                                filed.len() <= k < report.len() ==> (#[trigger] report@[k]).state
                                    == state && filed_among(entries@, j as int, report@[k].input@),
                            forall|b: int|
                                0 <= b < j && (#[trigger] entries@[b]).loops.len() >= 2 ==> reported(
                                    report@,
                                    state,
                                    entries@[b].input@,
                                ),
                            forall|k: int, l: int|
                                0 <= k < l < report.len() ==> !about(
                                    #[trigger] report@[k],
                                    (#[trigger] report@[l]).state,
                                    report@[l].input@,
                                ),
                        decreases entries.len() - j,
                    {
                        let entry = &entries[j];
                        let ghost held = report@;
                        assert(filed_at(entries@, entry.input@, j as int));
                        if entry.loops.len() > 1 {
                            let finding = Ambiguity {
                                state,
                                input: copy_chars(&entry.input),
                                loops: entry.loops.len(),
                            };
                            report.push(finding);
                            proof {
                                let last = held.len() as int;
                                assert(paths_of(entry.loops@).len() == entry.loops.len());
                                assert(counted(graph, report@[last]));
                                assert forall|k: int| 0 <= k < last implies report@[k]
                                    == held[k] by {}
                                assert forall|k: int, l: int|
                                    0 <= k < l < report.len() implies !about(
                                    #[trigger] report@[k],
                                    (#[trigger] report@[l]).state,
                                    report@[l].input@,
                                ) by {
                                    if l == last {
                                        if k < filed.len() {
                                            assert(report@[k] == filed[k]);
                                            assert(among(states@, i as int, filed[k].state));
                                        } else {
                                            assert(held[k] == report@[k]);
                                            assert(filed_among(entries@, j as int, held[k].input@));
                                        }
                                    } else {
                                        assert(held[k] == report@[k]);
                                        assert(held[l] == report@[l]);
                                    }
                                }
                                assert forall|b: int|
                                    0 <= b < j + 1 && (#[trigger] entries@[b]).loops.len()
                                        >= 2 implies reported(report@, state, entries@[b].input@) by {
                                    if b < j {
                                        let k = choose|k: int|
                                            0 <= k < held.len() && about(
                                                #[trigger] held[k],
                                                state,
                                                entries@[b].input@,
                                            );
                                        assert(report@[k] == held[k]);
                                    } else {
                                        assert(about(report@[last], state, entries@[b].input@));
                                    }
                                }
                            }
                        }
                        proof {
                            assert forall|k: int| filed.len() <= k < report.len() implies (
                            #[trigger] report@[k]).state == state && filed_among(
                                entries@,
                                j + 1,
                                report@[k].input@,
                            ) by {
                                if k < held.len() {
                                    assert(held[k] == report@[k]);
                                    let b = choose|b: int|
                                        0 <= b < j && #[trigger] filed_at(
                                            entries@,
                                            held[k].input@,
                                            b,
                                        );
                                    assert(filed_at(entries@, report@[k].input@, b));
                                } else {
                                    assert(filed_at(entries@, report@[k].input@, j as int));
                                }
                            }
                        }
                        j += 1;
                    }
                    proof {
                        assert forall|input: Seq<char>| #[trigger]
                            graph.filed_twice(state, input) implies reported(
                            report@,
                            state,
                            input,
                        ) by {
                            let b = choose|b: int| filed_at(entries@, input, b);
                            assert(paths_of(entries@[b].loops@).len() == entries@[b].loops.len());
                        }
                    }
                },
                None => {},
            }
            proof {
                assert forall|k: int| 0 <= k < report.len() implies among(
                    states@,
                    i + 1,
                    (#[trigger] report@[k]).state,
                ) by {
                    if k < filed.len() {
                        assert(report@[k] == filed[k]);
                        let a = choose|a: int|
                            0 <= a < i && a < states@.len() && #[trigger] states@[a]
                                == filed[k].state;
                        assert(states@[a] == report@[k].state);
                    } else {
                        assert(states@[i as int] == report@[k].state);
                    }
                }
                assert forall|a: int, input: Seq<char>|
                    0 <= a < i + 1 && #[trigger] graph.filed_twice(
                        states@[a],
                        input,
                    ) implies reported(report@, states@[a], input) by {
                    if a < i {
                        let k = choose|k: int|
                            0 <= k < filed.len() && about(#[trigger] filed[k], states@[a], input);
                        assert(report@[k] == filed[k]);
                    }
                }
            }
            i += 1;
        }
        proof {
            assert forall|state: usize, input: Seq<char>| #[trigger]
                graph.filed_twice(state, input) implies exists|k: int|
                0 <= k < report.len() && about(#[trigger] report@[k], state, input) by {
                assert(states@.contains(state));
                let a = choose|a: int| 0 <= a < states.len() && states@[a] == state;
                assert(graph.filed_twice(states@[a], input));
                assert(reported(report@, states@[a], input));
            }
            use_type_invariant(self);
            assert forall|k: int| 0 <= k < report.len() implies true_of(
                graph,
                #[trigger] report@[k],
            ) by {
                assert(counted(graph, report@[k]));
                filed_twice_iff_ambiguous(graph, report@[k].state, report@[k].input@);
                loops_pairwise_different(graph, report@[k].state, report@[k].input@);
            }
            assert forall|state: usize, input: Seq<char>| #[trigger]
                graph.ambiguous_at(state, input) implies exists|k: int|
                0 <= k < report.len() && about(#[trigger] report@[k], state, input) by {
                filed_twice_iff_ambiguous(graph, state, input);
                assert(graph.filed_twice(state, input));
            }
        }
        report
    }
}

/// Whether two loops that take different transitions return to some state
/// that can be reached from the start and read the same input: the sign that
/// matching may take exponential time.
pub fn check_ambig(nfa: &NFA) -> (ambiguous: bool)
    ensures
        ambiguous == exists|state: usize, input: Seq<char>| #[trigger]
            nfa@.ambiguous_at(state, input),
{
    let report = nfa.find_ambiguity();
    proof {
        if report.len() > 0 {
            assert(true_of(nfa@, report@[0]));
        }
    }
    report.len() > 0
}

} // verus!
