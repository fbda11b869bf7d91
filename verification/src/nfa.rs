//! The automaton as it is held in memory: states in one list, each transition
//! naming its target by the target's place in that list.

use crate::automaton::{has_edge, Automaton, Edge, Node};
use crate::lists::copy_chars;
use std::collections::HashSet;
use vstd::prelude::*;

verus! {

/// A move from the state that holds it to `next_state`: without input where
/// `symbol` is empty, else on one character that `symbol` lists.
#[derive(Debug, PartialEq, Eq)]
pub struct Transition {
    pub id: usize,
    pub symbol: Vec<char>,
    pub next_state: usize,
}

/// A state and the transitions that leave it, in the order they were added.
#[derive(Debug, PartialEq, Eq)]
pub struct State {
    pub id: usize,
    pub accepting: bool,
    pub transitions: Vec<Transition>,
}

/// A nondeterministic finite automaton. It can only be made well formed, and
/// is never changed afterwards.
#[derive(Debug, PartialEq, Eq)]
pub struct NFA {
    states: Vec<State>,
    start: usize,
}

impl View for Transition {
    type V = Edge;

    open spec fn view(&self) -> Edge {
        Edge { id: self.id, symbol: self.symbol@, target: self.next_state }
    }
}

/// The edges that a list of transitions stands for.
pub open spec fn edges_of(transitions: Seq<Transition>) -> Seq<Edge> {
    transitions.map_values(|t: Transition| t@)
}

impl View for State {
    type V = Node;

    open spec fn view(&self) -> Node {
        Node { id: self.id, accepting: self.accepting, edges: edges_of(self.transitions@) }
    }
}

/// The nodes that a list of states stands for.
pub open spec fn nodes_of(states: Seq<State>) -> Seq<Node> {
    states.map_values(|s: State| s@)
}

impl View for NFA {
    type V = Automaton;

    closed spec fn view(&self) -> Automaton {
        Automaton { nodes: nodes_of(self.states@), start: self.start }
    }
}

impl Clone for Transition {
    fn clone(&self) -> (copy: Transition)
        ensures
            copy@ == self@,
    {
        Transition { id: self.id, symbol: copy_chars(&self.symbol), next_state: self.next_state }
    }
}

impl Clone for State {
    fn clone(&self) -> (copy: State)
        ensures
            copy@ == self@,
    {
        let mut transitions: Vec<Transition> = Vec::new();
        let mut i: usize = 0;
        while i < self.transitions.len()
            invariant
                i <= self.transitions.len(),
                transitions.len() == i,
                forall|k: int| 0 <= k < i ==> (#[trigger] transitions@[k])@ == self.transitions@[k]@,
            decreases self.transitions.len() - i,
        {
            transitions.push(self.transitions[i].clone());
            i += 1;
        }
        proof {
            assert(edges_of(transitions@) =~= edges_of(self.transitions@));
        }
        State { id: self.id, accepting: self.accepting, transitions }
    }
}

impl Clone for NFA {
    fn clone(&self) -> (copy: NFA)
        ensures
            copy@ == self@,
    {
        let mut states: Vec<State> = Vec::new();
        let mut i: usize = 0;
        while i < self.states.len()
            invariant
                i <= self.states.len(),
                states.len() == i,
                forall|k: int| 0 <= k < i ==> (#[trigger] states@[k])@ == self.states@[k]@,
            decreases self.states.len() - i,
        {
            states.push(self.states[i].clone());
            i += 1;
        }
        proof {
            use_type_invariant(self);
            assert(nodes_of(states@) =~= nodes_of(self.states@));
        }
        NFA { states, start: self.start }
    }
}

impl State {
    /// A state without transitions.
    pub fn new(id: usize, accepting: bool) -> (state: State)
        ensures
            state@ == (Node { id, accepting, edges: Seq::empty() }),
    {
        let state = State { id, accepting, transitions: Vec::new() };
        assert(state@.edges =~= Seq::empty());
        state
    }

    /// Adds a transition behind those that the state has.
    pub fn add_transition(&mut self, id: usize, symbol: Vec<char>, next_state: usize)
        ensures
            final(self)@ == (Node {
                edges: old(self)@.edges.push(Edge { id, symbol: symbol@, target: next_state }),
                ..old(self)@
            }),
    {
        self.transitions.push(Transition { id, symbol, next_state });
        assert(self@.edges =~= old(self)@.edges.push(
            Edge { id, symbol: symbol@, target: next_state },
        ));
    }
}

impl NFA {
    /// What holds of every automaton of this type: see [`Automaton::wf`].
    #[verifier::type_invariant]
    pub open spec fn wf(&self) -> bool {
        self@.wf()
    }

    /// The automaton of the given states that starts at `start`, where that
    /// is well formed: every state's id is its place in `states`, every
    /// transition leads to one of the states, no two transitions share an id,
    /// and `start` is one of the states. Otherwise `None`.
    pub fn new(states: Vec<State>, start: usize) -> (nfa: Option<NFA>)
        ensures
            nfa is Some <==> (Automaton { nodes: nodes_of(states@), start }).wf(),
            nfa matches Some(made) ==> made@ == (Automaton { nodes: nodes_of(states@), start })
                && made@.wf(),
    {
        broadcast use vstd::std_specs::hash::group_hash_axioms;

        let ghost nodes = nodes_of(states@);
        if start >= states.len() {
            return None;
        }
        let mut seen: HashSet<usize> = HashSet::new();
        let mut i: usize = 0;
        while i < states.len()
            invariant
                i <= states.len(),
                nodes == nodes_of(states@),
                forall|k: int| 0 <= k < i ==> (#[trigger] nodes[k]).id == k,
                forall|k: int, l: int| #[trigger]
                    has_edge(nodes, k, l) && k < i ==> nodes[k].edges[l].target < nodes.len(),
                forall|k: int, l: int| #[trigger]
                    has_edge(nodes, k, l) && k < i ==> seen@.contains(nodes[k].edges[l].id),
                forall|id: usize|
                    seen@.contains(id) ==> exists|k: int, l: int| #[trigger]
                        has_edge(nodes, k, l) && k < i && nodes[k].edges[l].id == id,
                forall|k: int, l: int, m: int, n: int|
                    #![trigger has_edge(nodes, k, l), has_edge(nodes, m, n)]
                    has_edge(nodes, k, l) && k < i && has_edge(nodes, m, n) && m < i
                        && nodes[k].edges[l].id == nodes[m].edges[n].id ==> k == m && l == n,
            decreases states.len() - i,
        {
            assert(nodes[i as int] == states[i as int]@);
            if states[i].id != i {
                return None;
            }
            let mut j: usize = 0;
            while j < states[i].transitions.len()
                invariant
                    i < states.len(),
                    j <= states[i as int].transitions.len(),
                    nodes == nodes_of(states@),
                    forall|k: int, l: int| #[trigger]
                        has_edge(nodes, k, l) && (k < i || (k == i && l < j)) ==> nodes[k].edges[l].target
                            < nodes.len(),
                    forall|k: int, l: int| #[trigger]
                        has_edge(nodes, k, l) && (k < i || (k == i && l < j)) ==> seen@.contains(
                            nodes[k].edges[l].id,
                        ),
                    forall|id: usize|
                        seen@.contains(id) ==> exists|k: int, l: int| #[trigger]
                            has_edge(nodes, k, l) && (k < i || (k == i && l < j))
                                && nodes[k].edges[l].id == id,
                    forall|k: int, l: int, m: int, n: int|
                        #![trigger has_edge(nodes, k, l), has_edge(nodes, m, n)]
                        has_edge(nodes, k, l) && (k < i || (k == i && l < j)) && has_edge(
                            nodes,
                            m,
                            n,
                        ) && (m < i || (m == i && n < j)) && nodes[k].edges[l].id
                            == nodes[m].edges[n].id ==> k == m && l == n,
                decreases states[i as int].transitions.len() - j,
            {
                let transition = &states[i].transitions[j];
                assert(has_edge(nodes, i as int, j as int));
                assert(nodes[i as int].edges[j as int] == transition@);
                if transition.next_state >= states.len() {
                    return None;
                }
                let fresh = seen.insert(transition.id);
                if !fresh {
                    proof {
                        let (k, l) = choose|k: int, l: int| #[trigger]
                            has_edge(nodes, k, l) && (k < i || (k == i && l < j))
                                && nodes[k].edges[l].id == transition.id;
                        assert(has_edge(nodes, k, l));
                    }
                    return None;
                }
                j += 1;
            }
            i += 1;
        }
        let made = NFA { states, start };
        Some(made)
    }

    /// The automaton of the given states that starts at `start`.
    pub(crate) fn from_parts(states: Vec<State>, start: usize) -> (nfa: NFA)
        requires
            (Automaton { nodes: nodes_of(states@), start }).wf(),
        ensures
            nfa@ == (Automaton { nodes: nodes_of(states@), start }),
    {
        NFA { states, start }
    }

    /// The states, in the order of their ids.
    pub fn states(&self) -> (states: &Vec<State>)
        ensures
            nodes_of(states@) == self@.nodes,
    {
        &self.states
    }

    /// The id of the state at which a run starts.
    pub fn start(&self) -> (start: usize)
        ensures
            start == self@.start,
    {
        self.start
    }
}

} // verus!
