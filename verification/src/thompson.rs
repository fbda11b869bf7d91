//! Thompson's construction: from a syntax tree to an automaton.

use crate::automaton::{
    distinct_edge_ids, has_edge, numbered, targets_inside, Automaton, Edge, Node,
};
use crate::correctness::lemma_compile_speaks;
use crate::language::{class_chars, matched};
use crate::lists::copy_chars;
use crate::nfa::{nodes_of, State, NFA};
use crate::regex_ast::{alphabet_spec, complement, Pattern, RegexAst};
use vstd::prelude::*;

verus! {

/// An automaton under construction: the nodes made so far, none of them
/// accepting yet, and the number of edges made so far.
pub struct Draft {
    pub nodes: Seq<Node>,
    pub edges_made: nat,
}

/// A draft together with the two ends of the part built last: the part is
/// entered at `entry` and left at `exit`.
pub struct Fragment {
    pub draft: Draft,
    pub entry: usize,
    pub exit: usize,
}

impl Draft {
    /// The draft without nodes.
    pub open spec fn empty() -> Draft {
        Draft { nodes: Seq::empty(), edges_made: 0 }
    }

    /// The id that the next node gets: its place in the list.
    pub open spec fn next_node(self) -> usize {
        self.nodes.len() as usize
    }

    /// The draft with one more node, which has no edges yet.
    pub open spec fn with_node(self) -> Draft {
        Draft {
            nodes: self.nodes.push(
                Node { id: self.next_node(), accepting: false, edges: Seq::empty() },
            ),
            ..self
        }
    }

    /// The draft with one more edge, from `from` to `to`, behind the edges that
    /// `from` has; its id is the number of edges made before it. Nothing else
    /// changes.
    pub open spec fn with_edge(self, from: usize, symbol: Seq<char>, to: usize) -> Draft {
        let node = self.nodes[from as int];
        let edge = Edge { id: self.edges_made as usize, symbol, target: to };
        Draft {
            nodes: self.nodes.update(from as int, Node { edges: node.edges.push(edge), ..node }),
            edges_made: self.edges_made + 1,
        }
    }

    /// The draft with an edge from `from` to `to` that is taken without input.
    pub open spec fn with_epsilon(self, from: usize, to: usize) -> Draft {
        self.with_edge(from, Seq::empty(), to)
    }

    /// The nodes are numbered by their place and none accepts; every edge
    /// leads to a node; the edges carry distinct ids below `edges_made`.
    pub open spec fn consistent(self) -> bool {
        &&& numbered(self.nodes)
        &&& targets_inside(self.nodes)
        &&& distinct_edge_ids(self.nodes)
        &&& forall|i: int| 0 <= i < self.nodes.len() ==> !(#[trigger] self.nodes[i]).accepting
        &&& forall|i: int, j: int| #[trigger]
            has_edge(self.nodes, i, j) ==> self.nodes[i].edges[j].id < self.edges_made
    }

    /// The draft with a part that reads one character of `symbol`: a new entry,
    /// from it an edge without input to a new middle node, and from there an
    /// edge on `symbol` to a new exit.
    pub open spec fn with_step(self, symbol: Seq<char>) -> Fragment {
        let entry = self.next_node();
        let middle = self.with_node().next_node();
        let exit = self.with_node().with_node().next_node();
        Fragment {
            draft: self.with_node().with_node().with_node().with_epsilon(entry, middle).with_edge(
                middle,
                symbol,
                exit,
            ),
            entry,
            exit,
        }
    }

    /// The draft with the part for `pattern` added behind what it holds. Each
    /// part has one entry and one exit, both new; parts are joined by edges
    /// without input only.
    pub open spec fn fragment(self, pattern: Pattern) -> Fragment
        decreases pattern,
    {
        let entry = self.next_node();
        let exit = self.with_node().next_node();
        let ends = self.with_node().with_node();
        match pattern {
            Pattern::Epsilon => Fragment { draft: ends.with_epsilon(entry, exit), entry, exit },
            Pattern::Any => self.with_step(alphabet_spec()),
            Pattern::CharClass(complemented, chars) => self.with_step(
                class_chars(complemented, chars),
            ),
            Pattern::Literal(c) => self.with_step(seq![c]),
            Pattern::Concat(first, second) => {
                let head = ends.fragment(*first);
                let tail = head.draft.fragment(*second);
                Fragment {
                    draft: tail.draft.with_epsilon(entry, head.entry).with_epsilon(
                        head.exit,
                        tail.entry,
                    ).with_epsilon(tail.exit, exit),
                    entry,
                    exit,
                }
            },
            Pattern::Or(left, right) => {
                let one = ends.fragment(*left);
                let other = one.draft.fragment(*right);
                Fragment {
                    draft: other.draft.with_epsilon(entry, one.entry).with_epsilon(
                        entry,
                        other.entry,
                    ).with_epsilon(one.exit, exit).with_epsilon(other.exit, exit),
                    entry,
                    exit,
                }
            },
            Pattern::Star(body) => {
                let inner = ends.fragment(*body);
                Fragment {
                    draft: inner.draft.with_epsilon(entry, inner.entry).with_epsilon(
                        inner.entry,
                        inner.exit,
                    ).with_epsilon(inner.exit, inner.entry).with_epsilon(inner.exit, exit),
                    entry,
                    exit,
                }
            },
        }
    }
}

/// The number of nodes that the part for `pattern` has.
pub open spec fn node_count(pattern: Pattern) -> nat
    decreases pattern,
{
    match pattern {
        Pattern::Epsilon => 2,
        Pattern::Any => 3,
        Pattern::CharClass(_, _) => 3,
        Pattern::Literal(_) => 3,
        Pattern::Concat(first, second) => 2 + node_count(*first) + node_count(*second),
        Pattern::Or(left, right) => 2 + node_count(*left) + node_count(*right),
        Pattern::Star(body) => 2 + node_count(*body),
    }
}

/// The automaton for `pattern`: the part built for it on the empty draft,
/// started at the part's entry, with the part's exit as its one accepting node.
pub open spec fn compile(pattern: Pattern) -> Automaton {
    let built = Draft::empty().fragment(pattern);
    let last = built.draft.nodes[built.exit as int];
    Automaton {
        nodes: built.draft.nodes.update(built.exit as int, Node { accepting: true, ..last }),
        start: built.entry,
    }
}

/// Whether `exit` is a node of `automaton`, and the only one that accepts.
pub open spec fn only_accepting(automaton: Automaton, exit: int) -> bool {
    &&& 0 <= exit < automaton.nodes.len()
    &&& forall|i: int|
        0 <= i < automaton.nodes.len() ==> ((#[trigger] automaton.nodes[i]).accepting <==> i
            == exit)
}

/// Whether exactly one node of `automaton` accepts.
pub open spec fn one_accepting(automaton: Automaton) -> bool {
    exists|exit: int| #[trigger] only_accepting(automaton, exit)
}

/// A new node keeps a draft consistent.
proof fn lemma_with_node(draft: Draft)
    requires
        draft.consistent(),
        draft.nodes.len() < usize::MAX,
    ensures
        draft.with_node().consistent(),
{
    let next = draft.with_node();
    assert forall|i: int, j: int| #[trigger] has_edge(next.nodes, i, j) implies has_edge(
        draft.nodes,
        i,
        j,
    ) && next.nodes[i].edges[j] == draft.nodes[i].edges[j] by {}
}

/// A new edge between two nodes keeps a draft consistent.
proof fn lemma_with_edge(draft: Draft, from: usize, symbol: Seq<char>, to: usize)
    requires
        draft.consistent(),
        from < draft.nodes.len(),
        to < draft.nodes.len(),
        draft.edges_made < usize::MAX,
    ensures
        draft.with_edge(from, symbol, to).consistent(),
{
    let next = draft.with_edge(from, symbol, to);
    let last = draft.nodes[from as int].edges.len() as int;
    assert forall|i: int, j: int| #[trigger]
        has_edge(next.nodes, i, j) && !(i == from && j == last) implies has_edge(draft.nodes, i, j)
        && next.nodes[i].edges[j] == draft.nodes[i].edges[j] by {}
    assert forall|i: int, j: int, k: int, l: int|
        #![trigger has_edge(next.nodes, i, j), has_edge(next.nodes, k, l)]
        has_edge(next.nodes, i, j) && has_edge(next.nodes, k, l) && next.nodes[i].edges[j].id
            == next.nodes[k].edges[l].id implies i == k && j == l by {
        if !(i == from && j == last) {
            assert(has_edge(draft.nodes, i, j));
        }
        if !(k == from && l == last) {
            assert(has_edge(draft.nodes, k, l));
        }
    }
}

/// The states and transitions made so far. `sources[t]` is the state that
/// transition `t` leaves, so the list's length is the next transition's id.
struct Builder {
    states: Vec<State>,
    sources: Vec<usize>,
}

impl View for Builder {
    type V = Draft;

    closed spec fn view(&self) -> Draft {
        Draft { nodes: nodes_of(self.states@), edges_made: self.sources@.len() }
    }
}

impl Builder {
    /// A builder that holds nothing yet.
    fn new() -> (builder: Builder)
        ensures
            builder@ == Draft::empty(),
            builder@.consistent(),
    {
        let builder = Builder { states: Vec::new(), sources: Vec::new() };
        assert(builder@.nodes =~= Seq::empty());
        builder
    }

    /// Adds a state without transitions and returns its id.
    fn add_state(&mut self) -> (id: usize)
        requires
            old(self)@.consistent(),
        ensures
            final(self)@.consistent(),
            final(self)@ == old(self)@.with_node(),
            id == old(self)@.next_node(),
            id == old(self)@.nodes.len(),
    {
        let id = self.states.len();
        self.states.push(State::new(id, false));
        proof {
            assert(self.states.len() <= usize::MAX);
            assert(self@.nodes =~= old(self)@.with_node().nodes);
            lemma_with_node(old(self)@);
        }
        id
    }

    /// Adds a transition from `from` to `to`, behind those that `from` has.
    fn link(&mut self, from: usize, symbol: Vec<char>, to: usize)
        requires
            old(self)@.consistent(),
            from < old(self)@.nodes.len(),
            to < old(self)@.nodes.len(),
        ensures
            final(self)@.consistent(),
            final(self)@ == old(self)@.with_edge(from, symbol@, to),
    {
        let id = self.sources.len();
        self.states[from].add_transition(id, symbol, to);
        self.sources.push(from);
        proof {
            assert(self.sources.len() <= usize::MAX);
            assert(self@.nodes =~= old(self)@.with_edge(from, symbol@, to).nodes);
            lemma_with_edge(old(self)@, from, symbol@, to);
        }
    }

    /// Adds a transition from `from` to `to` that is taken without input.
    fn link_epsilon(&mut self, from: usize, to: usize)
        requires
            old(self)@.consistent(),
            from < old(self)@.nodes.len(),
            to < old(self)@.nodes.len(),
        ensures
            final(self)@.consistent(),
            final(self)@ == old(self)@.with_epsilon(from, to),
    {
        self.link(from, Vec::new(), to);
    }

    /// Adds the part that reads one character of `symbol`.
    fn add_step(&mut self, symbol: Vec<char>) -> (ends: (usize, usize))
        requires
            old(self)@.consistent(),
        ensures
            final(self)@.consistent(),
            final(self)@ == old(self)@.with_step(symbol@).draft,
            ends.0 == old(self)@.with_step(symbol@).entry,
            ends.1 == old(self)@.with_step(symbol@).exit,
            ends.0 < final(self)@.nodes.len(),
            ends.1 < final(self)@.nodes.len(),
            final(self)@.nodes.len() == old(self)@.nodes.len() + 3,
    {
        let entry = self.add_state();
        let middle = self.add_state();
        let exit = self.add_state();
        self.link_epsilon(entry, middle);
        self.link(middle, symbol, exit);
        (entry, exit)
    }

    /// Marks `exit` as accepting and hands the states over as an automaton
    /// that starts at `entry`.
    fn finish(self, entry: usize, exit: usize) -> (nfa: NFA)
        requires
            self@.consistent(),
            entry < self@.nodes.len(),
            exit < self@.nodes.len(),
        ensures
            nfa@ == (Automaton {
                nodes: self@.nodes.update(
                    exit as int,
                    Node { accepting: true, ..self@.nodes[exit as int] },
                ),
                start: entry,
            }),
            only_accepting(nfa@, exit as int),
    {
        let mut states = self.states;
        states[exit].accepting = true;
        proof {
            let before = self@.nodes;
            let after = nodes_of(states@);
            assert(after =~= before.update(
                exit as int,
                Node { accepting: true, ..before[exit as int] },
            ));
            assert forall|i: int, j: int| #[trigger] has_edge(after, i, j) implies has_edge(
                before,
                i,
                j,
            ) && after[i].edges[j] == before[i].edges[j] by {}
            assert forall|i: int, j: int, k: int, l: int|
                #![trigger has_edge(after, i, j), has_edge(after, k, l)]
                has_edge(after, i, j) && has_edge(after, k, l) && after[i].edges[j].id
                    == after[k].edges[l].id implies i == k && j == l by {
                assert(has_edge(before, i, j) && has_edge(before, k, l));
            }
        }
        NFA::from_parts(states, entry)
    }
}

/// Adds the part for `re` to what `builder` holds, and returns the part's
/// entry and exit.
fn convert(builder: &mut Builder, re: &RegexAst) -> (ends: (usize, usize))
    requires
        old(builder)@.consistent(),
    ensures
        final(builder)@.consistent(),
        final(builder)@ == old(builder)@.fragment(re@).draft,
        ends.0 == old(builder)@.fragment(re@).entry,
        ends.1 == old(builder)@.fragment(re@).exit,
        ends.0 < final(builder)@.nodes.len(),
        ends.1 < final(builder)@.nodes.len(),
        final(builder)@.nodes.len() == old(builder)@.nodes.len() + node_count(re@),
    decreases re,
{
    match re {
        RegexAst::Epsilon => {
            let start = builder.add_state();
            let end = builder.add_state();
            builder.link_epsilon(start, end);
            (start, end)
        },
        RegexAst::Any => builder.add_step(RegexAst::alphabet()),
        RegexAst::CharClass(is_complement, char_vec) => {
            let characters = if *is_complement {
                complement(&RegexAst::alphabet(), char_vec)
            } else {
                copy_chars(char_vec)
            };
            builder.add_step(characters)
        },
        RegexAst::Literal(character) => {
            let mut symbol: Vec<char> = Vec::new();
            symbol.push(*character);
            assert(symbol@ =~= seq![*character]);
            builder.add_step(symbol)
        },
        RegexAst::Concat(reg1, reg2) => {
            let start = builder.add_state();
            let end = builder.add_state();
            let (state11, state12) = convert(builder, reg1);
            let (state21, state22) = convert(builder, reg2);
            builder.link_epsilon(start, state11);
            builder.link_epsilon(state12, state21);
            builder.link_epsilon(state22, end);
            (start, end)
        },
        RegexAst::Or(reg1, reg2) => {
            let start = builder.add_state();
            let end = builder.add_state();
            let (state11, state12) = convert(builder, reg1);
            let (state21, state22) = convert(builder, reg2);
            builder.link_epsilon(start, state11);
            builder.link_epsilon(start, state21);
            builder.link_epsilon(state12, end);
            builder.link_epsilon(state22, end);
            (start, end)
        },
        RegexAst::Star(reg) => {
            let start = builder.add_state();
            let end = builder.add_state();
            let (state11, state12) = convert(builder, reg);
            builder.link_epsilon(start, state11);
            builder.link_epsilon(state11, state12);
            builder.link_epsilon(state12, state11);
            builder.link_epsilon(state12, end);
            (start, end)
        },
    }
}

/// The automaton for `re`: it accepts exactly what `re` matches. It is
/// built by Thompson's construction and has one accepting state.
pub fn create_nfa(re: &RegexAst) -> (nfa: NFA)
    ensures
        nfa@ == compile(re@),
        nfa@.wf(),
        nfa@.nodes.len() == node_count(re@),
        node_count(re@) <= usize::MAX,
        one_accepting(nfa@),
        forall|input: Seq<char>| #[trigger] nfa@.accepts(input) <==> matched(re@, input),
{
    let mut builder = Builder::new();
    let (start, end) = convert(&mut builder, re);
    proof {
        assert(builder.states.len() <= usize::MAX);
        lemma_compile_speaks(re@);
    }
    let nfa = builder.finish(start, end);
    proof {
        use_type_invariant(&nfa);
        assert(only_accepting(nfa@, end as int));
        assert(nfa@.nodes =~= compile(re@).nodes);
        assert(nfa@ == compile(re@));
    }
    nfa
}

} // verus!
