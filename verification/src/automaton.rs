//! The mathematical model of an automaton: a list of nodes, each with its
//! ordered outgoing edges, and the node at which a run starts.

use vstd::prelude::*;

verus! {

/// A transition: taken without input where `symbol` is empty, and otherwise on
/// one input character that `symbol` lists.
pub struct Edge {
    pub id: usize,
    pub symbol: Seq<char>,
    pub target: usize,
}

/// A state with its outgoing transitions, in the order in which they were added.
pub struct Node {
    pub id: usize,
    pub accepting: bool,
    pub edges: Seq<Edge>,
}

/// An automaton: its nodes, and the index of the node at which it starts.
pub struct Automaton {
    pub nodes: Seq<Node>,
    pub start: usize,
}

impl Edge {
    /// Whether the edge is taken without reading input.
    pub open spec fn is_epsilon(self) -> bool {
        self.symbol.len() == 0
    }

    /// Whether the edge is taken on reading `c`.
    pub open spec fn reads(self, c: char) -> bool {
        self.symbol.contains(c)
    }
}

/// Whether `(i, j)` names an edge of `nodes`: the `j`-th one that leaves node `i`.
pub open spec fn has_edge(nodes: Seq<Node>, i: int, j: int) -> bool {
    0 <= i < nodes.len() && 0 <= j < nodes[i].edges.len()
}

/// Every node is numbered by its place in the list.
pub open spec fn numbered(nodes: Seq<Node>) -> bool {
    forall|i: int| 0 <= i < nodes.len() ==> (#[trigger] nodes[i]).id == i
}

/// Every edge leads to a node of the list.
pub open spec fn targets_inside(nodes: Seq<Node>) -> bool {
    forall|i: int, j: int| #[trigger]
        has_edge(nodes, i, j) ==> nodes[i].edges[j].target < nodes.len()
}

/// No two edges carry the same id.
pub open spec fn distinct_edge_ids(nodes: Seq<Node>) -> bool {
    forall|i: int, j: int, k: int, l: int|
        #![trigger has_edge(nodes, i, j), has_edge(nodes, k, l)]
        has_edge(nodes, i, j) && has_edge(nodes, k, l) && nodes[i].edges[j].id
            == nodes[k].edges[l].id ==> i == k && j == l
}

impl Automaton {
    /// Whether `(i, j)` names an edge: the `j`-th one that leaves node `i`.
    pub open spec fn has_edge(self, i: int, j: int) -> bool {
        has_edge(self.nodes, i, j)
    }

    /// The `j`-th edge that leaves node `i`.
    pub open spec fn edge(self, i: int, j: int) -> Edge {
        self.nodes[i].edges[j]
    }

    /// The edges that leave `state`: none where `state` is no node.
    pub open spec fn edges_at(self, state: usize) -> Seq<Edge> {
        if state < self.nodes.len() {
            self.nodes[state as int].edges
        } else {
            Seq::empty()
        }
    }

    /// The nodes are numbered by their place, every edge leads to a node, no
    /// two edges share an id, and the start is a node.
    pub open spec fn wf(self) -> bool {
        &&& numbered(self.nodes)
        &&& targets_inside(self.nodes)
        &&& distinct_edge_ids(self.nodes)
        &&& self.start < self.nodes.len()
    }

    /// Whether every state that `states` lists is a node.
    pub open spec fn holds(self, states: Seq<usize>) -> bool {
        forall|k: int| 0 <= k < states.len() ==> (#[trigger] states[k]) < self.nodes.len()
    }

    /// Whether an edge leads from `p` to `q`; where `eps_only` is set, one
    /// that is taken without input.
    pub open spec fn linked(self, eps_only: bool, p: usize, q: usize) -> bool {
        exists|j: int| #[trigger]
            self.has_edge(p as int, j) && (eps_only ==> self.edge(p as int, j).is_epsilon())
                && self.edge(p as int, j).target == q
    }

    /// Whether `n` such edges in a row lead from `p` to `q`.
    pub open spec fn hops(self, eps_only: bool, p: usize, q: usize, n: nat) -> bool
        decreases n,
    {
        if n == 0 {
            p == q
        } else {
            exists|m: usize|
                self.hops(eps_only, p, m, (n - 1) as nat) && #[trigger] self.linked(eps_only, m, q)
        }
    }

    /// Whether `q` can be reached from `p` along such edges, in any number of
    /// them, none included.
    pub open spec fn connected(self, eps_only: bool, p: usize, q: usize) -> bool {
        exists|n: nat| self.hops(eps_only, p, q, n)
    }

    /// Whether no such edge leads out of `states`.
    pub open spec fn closed(self, eps_only: bool, states: Set<usize>) -> bool {
        forall|p: usize, q: usize|
            states.contains(p) && #[trigger] self.linked(eps_only, p, q) ==> states.contains(q)
    }

    /// Everything that can be reached from a member of `from` along such edges.
    pub open spec fn closure(self, eps_only: bool, from: Set<usize>) -> Set<usize> {
        Set::new(
            |q: usize| exists|p: usize| from.contains(p) && #[trigger] self.connected(eps_only, p, q),
        )
    }

    /// Whether `q` can be reached from the start along edges of any kind.
    pub open spec fn reachable(self, q: usize) -> bool {
        self.connected(false, self.start, q)
    }

    /// Every state is connected to itself.
    pub proof fn lemma_connected_self(self, eps_only: bool, p: usize)
        ensures
            self.connected(eps_only, p, p),
    {
        assert(self.hops(eps_only, p, p, 0));
    }

    /// A connection can be extended by one edge.
    pub proof fn lemma_connected_step(self, eps_only: bool, p: usize, m: usize, q: usize)
        requires
            self.connected(eps_only, p, m),
            self.linked(eps_only, m, q),
        ensures
            self.connected(eps_only, p, q),
    {
        let n = choose|n: nat| self.hops(eps_only, p, m, n);
        assert(self.hops(eps_only, p, q, n + 1));
    }

    /// Connections compose.
    pub proof fn lemma_connected_trans(self, eps_only: bool, p: usize, m: usize, q: usize)
        requires
            self.connected(eps_only, p, m),
            self.connected(eps_only, m, q),
        ensures
            self.connected(eps_only, p, q),
    {
        let n = choose|n: nat| self.hops(eps_only, m, q, n);
        self.lemma_hops_after(eps_only, p, m, q, n);
    }

    /// A connection followed by `n` edges is a connection.
    proof fn lemma_hops_after(self, eps_only: bool, p: usize, m: usize, q: usize, n: nat)
        requires
            self.connected(eps_only, p, m),
            self.hops(eps_only, m, q, n),
        ensures
            self.connected(eps_only, p, q),
        decreases n,
    {
        if n > 0 {
            let k = choose|k: usize|
                self.hops(eps_only, m, k, (n - 1) as nat) && #[trigger] self.linked(eps_only, k, q);
            self.lemma_hops_after(eps_only, p, m, k, (n - 1) as nat);
            self.lemma_connected_step(eps_only, p, k, q);
        }
    }

    /// A closed set holds whatever is connected to one of its members.
    pub proof fn lemma_closed_keeps(self, eps_only: bool, states: Set<usize>, p: usize, q: usize)
        requires
            self.closed(eps_only, states),
            states.contains(p),
            self.connected(eps_only, p, q),
        ensures
            states.contains(q),
    {
        let n = choose|n: nat| self.hops(eps_only, p, q, n);
        self.lemma_closed_keeps_hops(eps_only, states, p, q, n);
    }

    /// A closed set holds whatever lies `n` edges from one of its members.
    proof fn lemma_closed_keeps_hops(
        self,
        eps_only: bool,
        states: Set<usize>,
        p: usize,
        q: usize,
        n: nat,
    )
        requires
            self.closed(eps_only, states),
            states.contains(p),
            self.hops(eps_only, p, q, n),
        ensures
            states.contains(q),
        decreases n,
    {
        if n > 0 {
            let k = choose|k: usize|
                self.hops(eps_only, p, k, (n - 1) as nat) && #[trigger] self.linked(eps_only, k, q);
            self.lemma_closed_keeps_hops(eps_only, states, p, k, (n - 1) as nat);
        }
    }

    /// A closure is closed, and holds what it was taken of.
    pub proof fn lemma_closure_closed(self, eps_only: bool, from: Set<usize>)
        ensures
            self.closed(eps_only, self.closure(eps_only, from)),
            from.subset_of(self.closure(eps_only, from)),
    {
        let all = self.closure(eps_only, from);
        assert forall|p: usize, q: usize|
            all.contains(p) && #[trigger] self.linked(eps_only, p, q) implies all.contains(q) by {
            let origin = choose|o: usize|
                from.contains(o) && #[trigger] self.connected(eps_only, o, p);
            self.lemma_connected_step(eps_only, origin, p, q);
        }
        assert forall|p: usize| from.contains(p) implies all.contains(p) by {
            self.lemma_connected_self(eps_only, p);
        }
    }

    /// A closed set is its own closure.
    pub proof fn lemma_closure_of_closed(self, eps_only: bool, states: Set<usize>)
        requires
            self.closed(eps_only, states),
        ensures
            self.closure(eps_only, states) == states,
    {
        let all = self.closure(eps_only, states);
        assert forall|q: usize| all.contains(q) implies states.contains(q) by {
            let origin = choose|o: usize|
                states.contains(o) && #[trigger] self.connected(eps_only, o, q);
            self.lemma_closed_keeps(eps_only, states, origin, q);
        }
        self.lemma_closure_closed(eps_only, states);
        assert(all =~= states);
    }
}

/// The nodes among the first `n` that `seen` does not list.
pub open spec fn unseen(n: nat, seen: Seq<usize>) -> Set<int> {
    Set::new(|s: int| 0 <= s < n && !seen.contains(s as usize))
}

/// There are finitely many unseen nodes, and fewer once a new one is seen.
pub proof fn lemma_unseen_shrinks(n: nat, seen: Seq<usize>, more: Seq<usize>)
    requires
        n <= usize::MAX + 1,
    ensures
        unseen(n, seen).finite(),
        unseen(n, seen + more).finite(),
        unseen(n, seen + more).len() <= unseen(n, seen).len(),
        more.len() > 0 && more[0] < n && !seen.contains(more[0]) ==> unseen(n, seen + more).len()
            < unseen(n, seen).len(),
{
    let range = vstd::set_lib::set_int_range(0, n as int);
    vstd::set_lib::lemma_int_range(0, n as int);
    let before = unseen(n, seen);
    let after = unseen(n, seen + more);
    vstd::set_lib::lemma_len_subset(before, range);
    assert forall|s: int| after.contains(s) implies before.contains(s) by {
        if seen.contains(s as usize) {
            let k = choose|k: int| 0 <= k < seen.len() && seen[k] == s as usize;
            assert((seen + more)[k] == s as usize);
        }
    }
    vstd::set_lib::lemma_len_subset(after, before);
    if more.len() > 0 && more[0] < n && !seen.contains(more[0]) {
        let x = more[0] as int;
        assert((seen + more)[seen.len() as int] == more[0]);
        assert(before.contains(x));
        assert(after.subset_of(before.remove(x)));
        vstd::set_lib::lemma_len_subset(after, before.remove(x));
    }
}

} // verus!
