//! Why the automaton built for a pattern accepts exactly what the pattern
//! matches.

use crate::automaton::{Automaton, Edge};
use crate::language::{class_chars, lemma_star_append, matched, read_by};
use crate::regex_ast::{alphabet_spec, Pattern};
use crate::thompson::{compile, node_count, Draft, Fragment};
use vstd::prelude::*;

verus! {

impl Automaton {
    /// Whether every edge of `small` is an edge of this automaton, at the
    /// same place.
    pub open spec fn extends(self, small: Automaton) -> bool {
        &&& small.nodes.len() <= self.nodes.len()
        &&& forall|i: int|
            0 <= i < small.nodes.len() ==> (#[trigger] small.nodes[i]).edges.is_prefix_of(
                self.nodes[i].edges,
            )
    }

    /// What is reached stays reached after going on without input.
    pub proof fn lemma_reach_then_eps(self, p: usize, input: Seq<char>, m: usize, q: usize)
        requires
            self.reach(p, input, m),
            self.eps_reach(m, q),
        ensures
            self.reach(p, input, q),
    {
        if input.len() == 0 {
            self.lemma_connected_trans(true, p, m, q);
        } else {
            let (before, after) = choose|before: usize, after: usize|
                self.reach(p, input.drop_last(), before) && #[trigger] self.reads(
                    before,
                    input.last(),
                    after,
                ) && self.eps_reach(after, m);
            self.lemma_connected_trans(true, after, m, q);
        }
    }

    /// What is reached stays reached after one edge without input.
    pub proof fn lemma_reach_then_edge(self, p: usize, input: Seq<char>, m: usize, q: usize)
        requires
            self.reach(p, input, m),
            self.linked(true, m, q),
        ensures
            self.reach(p, input, q),
    {
        self.lemma_connected_self(true, m);
        self.lemma_connected_step(true, m, m, q);
        self.lemma_reach_then_eps(p, input, m, q);
    }

    /// Reading one more character along an edge extends what is reached.
    pub proof fn lemma_reach_then_read(self, p: usize, input: Seq<char>, m: usize, c: char, q: usize)
        requires
            self.reach(p, input, m),
            self.reads(m, c, q),
        ensures
            self.reach(p, input.push(c), q),
    {
        let longer = input.push(c);
        assert(longer.drop_last() =~= input);
        assert(longer.last() == c);
        self.lemma_connected_self(true, q);
    }

    /// Every state reaches itself on the empty input.
    pub proof fn lemma_reach_self(self, p: usize)
        ensures
            self.reach(p, Seq::empty(), p),
    {
        self.lemma_connected_self(true, p);
    }

    /// Runs compose: what the second reads comes behind what the first read.
    pub proof fn lemma_reach_concat(
        self,
        p: usize,
        first: Seq<char>,
        m: usize,
        second: Seq<char>,
        q: usize,
    )
        requires
            self.reach(p, first, m),
            self.reach(m, second, q),
        ensures
            self.reach(p, first + second, q),
        decreases second.len(),
    {
        if second.len() == 0 {
            assert(first + second =~= first);
            self.lemma_reach_then_eps(p, first, m, q);
        } else {
            let (before, after) = choose|before: usize, after: usize|
                self.reach(m, second.drop_last(), before) && #[trigger] self.reads(
                    before,
                    second.last(),
                    after,
                ) && self.eps_reach(after, q);
            self.lemma_reach_concat(p, first, m, second.drop_last(), before);
            assert((first + second).drop_last() =~= first + second.drop_last());
            assert((first + second).last() == second.last());
        }
    }

    /// A property of inputs and states that holds at `p` on the empty input
    /// and is kept by every edge holds wherever the automaton gets from `p`.
    pub proof fn lemma_reach_invariant(
        self,
        p: usize,
        inv: spec_fn(Seq<char>, usize) -> bool,
        input: Seq<char>,
        q: usize,
    )
        requires
            inv(Seq::empty(), p),
            forall|t: Seq<char>, a: usize, b: usize|
                inv(t, a) && #[trigger] self.linked(true, a, b) ==> #[trigger] inv(t, b),
            forall|t: Seq<char>, a: usize, c: char, b: usize|
                inv(t, a) && #[trigger] self.reads(a, c, b) ==> #[trigger] inv(t.push(c), b),
            self.reach(p, input, q),
        ensures
            inv(input, q),
        decreases input.len(),
    {
        if input.len() == 0 {
            assert(input =~= Seq::<char>::empty());
            let n = choose|n: nat| self.hops(true, p, q, n);
            self.lemma_hops_invariant(p, inv, input, p, q, n);
        } else {
            let (before, after) = choose|before: usize, after: usize|
                self.reach(p, input.drop_last(), before) && #[trigger] self.reads(
                    before,
                    input.last(),
                    after,
                ) && self.eps_reach(after, q);
            self.lemma_reach_invariant(p, inv, input.drop_last(), before);
            assert(input.drop_last().push(input.last()) =~= input);
            assert(inv(input.drop_last().push(input.last()), after));
            let n = choose|n: nat| self.hops(true, after, q, n);
            self.lemma_hops_invariant(p, inv, input, after, q, n);
        }
    }

    /// A property that every edge without input keeps holds `n` such edges on.
    proof fn lemma_hops_invariant(
        self,
        p: usize,
        inv: spec_fn(Seq<char>, usize) -> bool,
        input: Seq<char>,
        from: usize,
        q: usize,
        n: nat,
    )
        requires
            inv(input, from),
            forall|t: Seq<char>, a: usize, b: usize|
                inv(t, a) && #[trigger] self.linked(true, a, b) ==> #[trigger] inv(t, b),
            self.hops(true, from, q, n),
        ensures
            inv(input, q),
        decreases n,
    {
        if n > 0 {
            let m = choose|m: usize|
                self.hops(true, from, m, (n - 1) as nat) && #[trigger] self.linked(true, m, q);
            self.lemma_hops_invariant(p, inv, input, from, m, (n - 1) as nat);
        }
    }

    /// What a part of the automaton reaches, the whole reaches.
    pub proof fn lemma_extends_reach(
        self,
        small: Automaton,
        p: usize,
        input: Seq<char>,
        q: usize,
    )
        requires
            self.extends(small),
            small.reach(p, input, q),
        ensures
            self.reach(p, input, q),
    {
        let inv = |t: Seq<char>, a: usize| self.reach(p, t, a);
        self.lemma_reach_self(p);
        assert forall|t: Seq<char>, a: usize, b: usize|
            inv(t, a) && #[trigger] small.linked(true, a, b) implies #[trigger] inv(t, b) by {
            let j = choose|j: int| #[trigger]
                small.has_edge(a as int, j) && small.edge(a as int, j).is_epsilon() && small.edge(
                    a as int,
                    j,
                ).target == b;
            assert(small.nodes[a as int].edges.is_prefix_of(self.nodes[a as int].edges));
            assert(self.has_edge(a as int, j));
            assert(self.edge(a as int, j) == small.edge(a as int, j));
            self.lemma_reach_then_edge(p, t, a, b);
        }
        assert forall|t: Seq<char>, a: usize, c: char, b: usize|
            inv(t, a) && #[trigger] small.reads(a, c, b) implies #[trigger] inv(t.push(c), b) by {
            let j = choose|j: int| #[trigger]
                small.has_edge(a as int, j) && small.edge(a as int, j).reads(c) && small.edge(
                    a as int,
                    j,
                ).target == b;
            assert(small.nodes[a as int].edges.is_prefix_of(self.nodes[a as int].edges));
            assert(self.has_edge(a as int, j));
            assert(self.edge(a as int, j) == small.edge(a as int, j));
            self.lemma_reach_then_read(p, t, a, c, b);
        }
        small.lemma_reach_invariant(p, inv, input, q);
    }
}

/// The edge without input that bears `id` and leads to `target`.
pub open spec fn silent(id: nat, target: usize) -> Edge {
    Edge { id: id as usize, symbol: Seq::empty(), target }
}

/// A draft as an automaton; where it starts does not matter here.
pub open spec fn graph(draft: Draft) -> Automaton {
    Automaton { nodes: draft.nodes, start: 0 }
}

/// Whether `part` is what a construction step makes of `before`: the old
/// nodes are untouched and the part's nodes come behind them, the entry
/// first; within the part no edge leads out of it or into its entry, and
/// none leaves its exit.
pub open spec fn shaped(before: Draft, part: Fragment) -> bool {
    let lo = before.nodes.len();
    let hi = part.draft.nodes.len();
    &&& lo < hi <= usize::MAX
    &&& part.entry == lo
    &&& lo < part.exit < hi
    &&& forall|i: int| 0 <= i < lo ==> #[trigger] part.draft.nodes[i] == before.nodes[i]
    &&& forall|i: int, j: int|
        lo <= i < hi && 0 <= j < part.draft.nodes[i].edges.len() ==> lo < (
        #[trigger] part.draft.nodes[i].edges[j]).target < hi
    &&& part.draft.nodes[part.exit as int].edges.len() == 0
    &&& forall|i: int| lo <= i < hi ==> !(#[trigger] part.draft.nodes[i]).accepting
}

/// Whether `part` reads from its entry to its exit exactly what `pattern`
/// matches.
pub open spec fn speaks(part: Fragment, pattern: Pattern) -> bool {
    forall|input: Seq<char>| #[trigger]
        graph(part.draft).reach(part.entry, input, part.exit) <==> matched(pattern, input)
}

/// The part that reads one character of `symbol` is shaped as a part, and
/// reads exactly what a transition that bears `symbol` reads.
proof fn lemma_step_part(before: Draft, symbol: Seq<char>)
    requires
        before.nodes.len() + 3 <= usize::MAX,
    ensures
        shaped(before, before.with_step(symbol)),
        before.with_step(symbol).draft.nodes.len() == before.nodes.len() + 3,
        forall|input: Seq<char>| #[trigger]
            graph(before.with_step(symbol).draft).reach(
                before.with_step(symbol).entry,
                input,
                before.with_step(symbol).exit,
            ) <==> read_by(symbol, input),
{
    let part = before.with_step(symbol);
    let g = graph(part.draft);
    let entry = part.entry;
    let middle = (entry + 1) as usize;
    let exit = part.exit;
    let none = Seq::<char>::empty();
    assert(g.nodes[entry as int].edges =~= seq![silent(before.edges_made, middle)]);
    assert(g.nodes[middle as int].edges =~= seq![
        Edge { id: (before.edges_made + 1) as usize, symbol, target: exit },
    ]);
    assert(g.nodes[exit as int].edges =~= Seq::<Edge>::empty());
    let inv = |t: Seq<char>, q: usize|
        (q == entry && t.len() == 0) || (q == middle && t.len() == 0) || (q == exit && read_by(
            symbol,
            t,
        ));
    assert forall|t: Seq<char>, a: usize, b: usize|
        inv(t, a) && #[trigger] g.linked(true, a, b) implies #[trigger] inv(t, b) by {
        let j = choose|j: int| #[trigger]
            g.has_edge(a as int, j) && g.edge(a as int, j).is_epsilon() && g.edge(a as int, j).target
                == b;
    }
    assert forall|t: Seq<char>, a: usize, c: char, b: usize|
        inv(t, a) && #[trigger] g.reads(a, c, b) implies #[trigger] inv(t.push(c), b) by {
        let j = choose|j: int| #[trigger]
            g.has_edge(a as int, j) && g.edge(a as int, j).reads(c) && g.edge(a as int, j).target
                == b;
        if a == middle {
            assert(t.push(c)[0] == c);
        }
    }
    assert forall|input: Seq<char>| #[trigger]
        g.reach(entry, input, exit) <==> read_by(symbol, input) by {
        if g.reach(entry, input, exit) {
            g.lemma_reach_invariant(entry, inv, input, exit);
        }
        if read_by(symbol, input) {
            g.lemma_reach_self(entry);
            assert(g.has_edge(entry as int, 0));
            assert(g.linked(true, entry, middle));
            g.lemma_reach_then_edge(entry, none, entry, middle);
            assert(g.has_edge(middle as int, 0));
            if symbol.len() == 0 {
                assert(input =~= none);
                assert(g.edge(middle as int, 0).is_epsilon());
                assert(g.linked(true, middle, exit));
                g.lemma_reach_then_edge(entry, none, middle, exit);
            } else {
                assert(g.edge(middle as int, 0).reads(input[0]));
                assert(g.reads(middle, input[0], exit));
                g.lemma_reach_then_read(entry, none, middle, input[0], exit);
                assert(none.push(input[0]) =~= input);
            }
        }
    }
}

/// The part for the empty pattern reads nothing.
proof fn lemma_epsilon_part(before: Draft)
    requires
        before.nodes.len() + 2 <= usize::MAX,
    ensures
        shaped(before, before.fragment(Pattern::Epsilon)),
        speaks(before.fragment(Pattern::Epsilon), Pattern::Epsilon),
        before.fragment(Pattern::Epsilon).draft.nodes.len() == before.nodes.len() + 2,
{
    let part = before.fragment(Pattern::Epsilon);
    let g = graph(part.draft);
    let entry = part.entry;
    let exit = part.exit;
    let none = Seq::<char>::empty();
    assert(g.nodes[entry as int].edges =~= seq![silent(before.edges_made, exit)]);
    assert(g.nodes[exit as int].edges =~= Seq::<Edge>::empty());
    let inv = |t: Seq<char>, q: usize| (q == entry || q == exit) && t.len() == 0;
    assert forall|t: Seq<char>, a: usize, b: usize|
        inv(t, a) && #[trigger] g.linked(true, a, b) implies #[trigger] inv(t, b) by {
        let j = choose|j: int| #[trigger]
            g.has_edge(a as int, j) && g.edge(a as int, j).is_epsilon() && g.edge(a as int, j).target
                == b;
    }
    assert forall|t: Seq<char>, a: usize, c: char, b: usize|
        inv(t, a) && #[trigger] g.reads(a, c, b) implies #[trigger] inv(t.push(c), b) by {
        let j = choose|j: int| #[trigger]
            g.has_edge(a as int, j) && g.edge(a as int, j).reads(c) && g.edge(a as int, j).target
                == b;
    }
    assert forall|input: Seq<char>| #[trigger]
        g.reach(entry, input, exit) <==> matched(Pattern::Epsilon, input) by {
        if g.reach(entry, input, exit) {
            g.lemma_reach_invariant(entry, inv, input, exit);
        }
        if matched(Pattern::Epsilon, input) {
            assert(input =~= none);
            g.lemma_reach_self(entry);
            assert(g.has_edge(entry as int, 0));
            assert(g.linked(true, entry, exit));
            g.lemma_reach_then_edge(entry, none, entry, exit);
        }
    }
}

/// The part for two patterns in a row reads what the first matches followed
/// by what the second matches.
proof fn lemma_concat_part(before: Draft, first: Pattern, second: Pattern)
    requires
        before.nodes.len() + 2 + node_count(first) + node_count(second) <= usize::MAX,
        ({
            let ends = before.with_node().with_node();
            let head = ends.fragment(first);
            let tail = head.draft.fragment(second);
            &&& shaped(ends, head)
            &&& speaks(head, first)
            &&& head.draft.nodes.len() == ends.nodes.len() + node_count(first)
            &&& shaped(head.draft, tail)
            &&& speaks(tail, second)
            &&& tail.draft.nodes.len() == head.draft.nodes.len() + node_count(second)
        }),
    ensures
        shaped(before, before.fragment(Pattern::Concat(Box::new(first), Box::new(second)))),
        speaks(
            before.fragment(Pattern::Concat(Box::new(first), Box::new(second))),
            Pattern::Concat(Box::new(first), Box::new(second)),
        ),
        before.fragment(Pattern::Concat(Box::new(first), Box::new(second))).draft.nodes.len()
            == before.nodes.len() + 2 + node_count(first) + node_count(second),
{
    let pattern = Pattern::Concat(Box::new(first), Box::new(second));
    let whole = before.fragment(pattern);
    let ends = before.with_node().with_node();
    let head = ends.fragment(first);
    let tail = head.draft.fragment(second);
    let g = graph(whole.draft);
    let g1 = graph(head.draft);
    let g2 = graph(tail.draft);
    let entry = whole.entry;
    let exit = whole.exit;
    let lo1 = ends.nodes.len();
    let h1 = head.draft.nodes.len();
    let h2 = tail.draft.nodes.len();
    let none = Seq::<char>::empty();
    let e0 = tail.draft.edges_made;
    assert(whole.draft == tail.draft.with_epsilon(entry, head.entry).with_epsilon(
        head.exit,
        tail.entry,
    ).with_epsilon(tail.exit, exit));
    assert(head.draft.nodes[entry as int] == ends.nodes[entry as int]);
    assert(tail.draft.nodes[entry as int] == head.draft.nodes[entry as int]);
    assert(head.draft.nodes[exit as int] == ends.nodes[exit as int]);
    assert(tail.draft.nodes[exit as int] == head.draft.nodes[exit as int]);
    assert(tail.draft.nodes[head.exit as int] == head.draft.nodes[head.exit as int]);
    assert(g.nodes[entry as int].edges =~= seq![silent(e0, head.entry)]);
    assert(g.nodes[head.exit as int].edges =~= seq![silent(e0 + 1, tail.entry)]);
    assert(g.nodes[tail.exit as int].edges =~= seq![silent(e0 + 2, exit)]);
    assert(g.nodes[exit as int].edges =~= Seq::<Edge>::empty());
    assert forall|i: int| lo1 <= i < h1 && i != head.exit implies #[trigger] g.nodes[i]
        == g1.nodes[i] by {
        assert(tail.draft.nodes[i] == head.draft.nodes[i]);
    }
    assert forall|i: int| h1 <= i < h2 && i != tail.exit implies #[trigger] g.nodes[i]
        == g2.nodes[i] by {}
    assert(g.extends(g2));
    assert(g2.extends(g1)) by {
        assert forall|i: int| 0 <= i < g1.nodes.len() implies (
        #[trigger] g1.nodes[i]).edges.is_prefix_of(g2.nodes[i].edges) by {
            assert(tail.draft.nodes[i] == head.draft.nodes[i]);
        }
    }
    assert(g.extends(g1));

    let inv = |t: Seq<char>, q: usize|
        (q == entry && t.len() == 0) || (lo1 <= q < h1 && g1.reach(head.entry, t, q)) || (h1 <= q
            < h2 && exists|k: int|
            #![trigger t.take(k)]
            0 <= k <= t.len() && matched(first, t.take(k)) && g2.reach(tail.entry, t.skip(k), q))
            || (q == exit && matched(pattern, t));
    assert forall|t: Seq<char>, a: usize, b: usize|
        inv(t, a) && #[trigger] g.linked(true, a, b) implies #[trigger] inv(t, b) by {
        let j = choose|j: int| #[trigger]
            g.has_edge(a as int, j) && g.edge(a as int, j).is_epsilon() && g.edge(a as int, j).target
                == b;
        if a == entry {
            assert(t =~= none);
            g1.lemma_reach_self(head.entry);
        } else if a == head.exit {
            assert(matched(first, t));
            assert(t.take(t.len() as int) =~= t);
            assert(t.skip(t.len() as int) =~= none);
            g2.lemma_reach_self(tail.entry);
        } else if a == tail.exit {
            let k = choose|k: int|
                #![trigger t.take(k)]
                0 <= k <= t.len() && matched(first, t.take(k)) && g2.reach(
                    tail.entry,
                    t.skip(k),
                    a,
                );
            assert(matched(second, t.skip(k)));
        } else if lo1 <= a < h1 {
            assert(g1.has_edge(a as int, j));
            assert(g1.linked(true, a, b));
            g1.lemma_reach_then_edge(head.entry, t, a, b);
        } else if h1 <= a < h2 {
            assert(g2.has_edge(a as int, j));
            assert(g2.linked(true, a, b));
            let k = choose|k: int|
                #![trigger t.take(k)]
                0 <= k <= t.len() && matched(first, t.take(k)) && g2.reach(
                    tail.entry,
                    t.skip(k),
                    a,
                );
            g2.lemma_reach_then_edge(tail.entry, t.skip(k), a, b);
        }
    }
    assert forall|t: Seq<char>, a: usize, c: char, b: usize|
        inv(t, a) && #[trigger] g.reads(a, c, b) implies #[trigger] inv(t.push(c), b) by {
        let j = choose|j: int| #[trigger]
            g.has_edge(a as int, j) && g.edge(a as int, j).reads(c) && g.edge(a as int, j).target
                == b;
        if a == entry || a == head.exit || a == tail.exit || a == exit {
        } else if lo1 <= a < h1 {
            assert(g1.has_edge(a as int, j));
            assert(g1.reads(a, c, b));
            g1.lemma_reach_then_read(head.entry, t, a, c, b);
        } else if h1 <= a < h2 {
            assert(g2.has_edge(a as int, j));
            assert(g2.reads(a, c, b));
            let k = choose|k: int|
                #![trigger t.take(k)]
                0 <= k <= t.len() && matched(first, t.take(k)) && g2.reach(
                    tail.entry,
                    t.skip(k),
                    a,
                );
            g2.lemma_reach_then_read(tail.entry, t.skip(k), a, c, b);
            assert(t.push(c).take(k) =~= t.take(k));
            assert(t.push(c).skip(k) =~= t.skip(k).push(c));
        }
    }
    assert forall|input: Seq<char>| #[trigger]
        g.reach(entry, input, exit) <==> matched(pattern, input) by {
        if g.reach(entry, input, exit) {
            g.lemma_reach_invariant(entry, inv, input, exit);
        }
        if matched(pattern, input) {
            let k = choose|k: int|
                #![trigger input.take(k)]
                0 <= k <= input.len() && matched(first, input.take(k)) && matched(
                    second,
                    input.skip(k),
                );
            g.lemma_extends_reach(g1, head.entry, input.take(k), head.exit);
            g.lemma_extends_reach(g2, tail.entry, input.skip(k), tail.exit);
            g.lemma_reach_self(entry);
            assert(g.has_edge(entry as int, 0));
            assert(g.linked(true, entry, head.entry));
            g.lemma_reach_then_edge(entry, none, entry, head.entry);
            g.lemma_reach_concat(entry, none, head.entry, input.take(k), head.exit);
            assert(g.has_edge(head.exit as int, 0));
            assert(g.linked(true, head.exit, tail.entry));
            g.lemma_reach_then_edge(entry, none + input.take(k), head.exit, tail.entry);
            g.lemma_reach_concat(
                entry,
                none + input.take(k),
                tail.entry,
                input.skip(k),
                tail.exit,
            );
            assert(g.has_edge(tail.exit as int, 0));
            assert(g.linked(true, tail.exit, exit));
            assert((none + input.take(k)) + input.skip(k) =~= input);
            g.lemma_reach_then_edge(entry, input, tail.exit, exit);
        }
    }
}

/// The part for a choice reads what either pattern matches.
proof fn lemma_or_part(before: Draft, left: Pattern, right: Pattern)
    requires
        before.nodes.len() + 2 + node_count(left) + node_count(right) <= usize::MAX,
        ({
            let ends = before.with_node().with_node();
            let one = ends.fragment(left);
            let other = one.draft.fragment(right);
            &&& shaped(ends, one)
            &&& speaks(one, left)
            &&& one.draft.nodes.len() == ends.nodes.len() + node_count(left)
            &&& shaped(one.draft, other)
            &&& speaks(other, right)
            &&& other.draft.nodes.len() == one.draft.nodes.len() + node_count(right)
        }),
    ensures
        shaped(before, before.fragment(Pattern::Or(Box::new(left), Box::new(right)))),
        speaks(
            before.fragment(Pattern::Or(Box::new(left), Box::new(right))),
            Pattern::Or(Box::new(left), Box::new(right)),
        ),
        before.fragment(Pattern::Or(Box::new(left), Box::new(right))).draft.nodes.len()
            == before.nodes.len() + 2 + node_count(left) + node_count(right),
{
    let pattern = Pattern::Or(Box::new(left), Box::new(right));
    let whole = before.fragment(pattern);
    let ends = before.with_node().with_node();
    let one = ends.fragment(left);
    let other = one.draft.fragment(right);
    let g = graph(whole.draft);
    let g1 = graph(one.draft);
    let g2 = graph(other.draft);
    let entry = whole.entry;
    let exit = whole.exit;
    let lo1 = ends.nodes.len();
    let h1 = one.draft.nodes.len();
    let h2 = other.draft.nodes.len();
    let none = Seq::<char>::empty();
    let e0 = other.draft.edges_made;
    assert(whole.draft == other.draft.with_epsilon(entry, one.entry).with_epsilon(
        entry,
        other.entry,
    ).with_epsilon(one.exit, exit).with_epsilon(other.exit, exit));
    assert(one.draft.nodes[entry as int] == ends.nodes[entry as int]);
    assert(other.draft.nodes[entry as int] == one.draft.nodes[entry as int]);
    assert(one.draft.nodes[exit as int] == ends.nodes[exit as int]);
    assert(other.draft.nodes[exit as int] == one.draft.nodes[exit as int]);
    assert(other.draft.nodes[one.exit as int] == one.draft.nodes[one.exit as int]);
    assert(g.nodes[entry as int].edges =~= seq![
        silent(e0, one.entry),
        silent(e0 + 1, other.entry),
    ]);
    assert(g.nodes[one.exit as int].edges =~= seq![silent(e0 + 2, exit)]);
    assert(g.nodes[other.exit as int].edges =~= seq![silent(e0 + 3, exit)]);
    assert(g.nodes[exit as int].edges =~= Seq::<Edge>::empty());
    assert forall|i: int| lo1 <= i < h1 && i != one.exit implies #[trigger] g.nodes[i]
        == g1.nodes[i] by {
        assert(other.draft.nodes[i] == one.draft.nodes[i]);
    }
    assert forall|i: int| h1 <= i < h2 && i != other.exit implies #[trigger] g.nodes[i]
        == g2.nodes[i] by {}
    assert(g.extends(g2));
    assert(g2.extends(g1)) by {
        assert forall|i: int| 0 <= i < g1.nodes.len() implies (
        #[trigger] g1.nodes[i]).edges.is_prefix_of(g2.nodes[i].edges) by {
            assert(other.draft.nodes[i] == one.draft.nodes[i]);
        }
    }
    assert(g.extends(g1));

    let inv = |t: Seq<char>, q: usize|
        (q == entry && t.len() == 0) || (lo1 <= q < h1 && g1.reach(one.entry, t, q)) || (h1 <= q
            < h2 && g2.reach(other.entry, t, q)) || (q == exit && matched(pattern, t));
    assert forall|t: Seq<char>, a: usize, b: usize|
        inv(t, a) && #[trigger] g.linked(true, a, b) implies #[trigger] inv(t, b) by {
        let j = choose|j: int| #[trigger]
            g.has_edge(a as int, j) && g.edge(a as int, j).is_epsilon() && g.edge(a as int, j).target
                == b;
        if a == entry {
            assert(t =~= none);
            g1.lemma_reach_self(one.entry);
            g2.lemma_reach_self(other.entry);
        } else if a == one.exit {
            assert(matched(left, t));
        } else if a == other.exit {
            assert(matched(right, t));
        } else if lo1 <= a < h1 {
            assert(g1.has_edge(a as int, j));
            assert(g1.linked(true, a, b));
            g1.lemma_reach_then_edge(one.entry, t, a, b);
        } else if h1 <= a < h2 {
            assert(g2.has_edge(a as int, j));
            assert(g2.linked(true, a, b));
            g2.lemma_reach_then_edge(other.entry, t, a, b);
        }
    }
    assert forall|t: Seq<char>, a: usize, c: char, b: usize|
        inv(t, a) && #[trigger] g.reads(a, c, b) implies #[trigger] inv(t.push(c), b) by {
        let j = choose|j: int| #[trigger]
            g.has_edge(a as int, j) && g.edge(a as int, j).reads(c) && g.edge(a as int, j).target
                == b;
        if a == entry || a == one.exit || a == other.exit || a == exit {
        } else if lo1 <= a < h1 {
            assert(g1.has_edge(a as int, j));
            assert(g1.reads(a, c, b));
            g1.lemma_reach_then_read(one.entry, t, a, c, b);
        } else if h1 <= a < h2 {
            assert(g2.has_edge(a as int, j));
            assert(g2.reads(a, c, b));
            g2.lemma_reach_then_read(other.entry, t, a, c, b);
        }
    }
    assert forall|input: Seq<char>| #[trigger]
        g.reach(entry, input, exit) <==> matched(pattern, input) by {
        if g.reach(entry, input, exit) {
            g.lemma_reach_invariant(entry, inv, input, exit);
        }
        if matched(pattern, input) {
            g.lemma_reach_self(entry);
            assert(none + input =~= input);
            if matched(left, input) {
                g.lemma_extends_reach(g1, one.entry, input, one.exit);
                assert(g.has_edge(entry as int, 0));
                assert(g.linked(true, entry, one.entry));
                g.lemma_reach_then_edge(entry, none, entry, one.entry);
                g.lemma_reach_concat(entry, none, one.entry, input, one.exit);
                assert(g.has_edge(one.exit as int, 0));
                assert(g.linked(true, one.exit, exit));
                g.lemma_reach_then_edge(entry, input, one.exit, exit);
            } else {
                g.lemma_extends_reach(g2, other.entry, input, other.exit);
                assert(g.has_edge(entry as int, 1));
                assert(g.linked(true, entry, other.entry));
                g.lemma_reach_then_edge(entry, none, entry, other.entry);
                g.lemma_reach_concat(entry, none, other.entry, input, other.exit);
                assert(g.has_edge(other.exit as int, 0));
                assert(g.linked(true, other.exit, exit));
                g.lemma_reach_then_edge(entry, input, other.exit, exit);
            }
        }
    }
}

/// A part is not entered a second time: from its entry, the automaton gets
/// back to the entry on the empty input only.
proof fn lemma_entry_once(before: Draft, part: Fragment, input: Seq<char>)
    requires
        shaped(before, part),
        graph(part.draft).reach(part.entry, input, part.entry),
    ensures
        input.len() == 0,
{
    let g = graph(part.draft);
    let lo = before.nodes.len();
    let hi = part.draft.nodes.len();
    let inv = |t: Seq<char>, q: usize| lo <= q < hi && (q == part.entry ==> t.len() == 0);
    assert forall|t: Seq<char>, a: usize, b: usize|
        inv(t, a) && #[trigger] g.linked(true, a, b) implies #[trigger] inv(t, b) by {
        let j = choose|j: int| #[trigger]
            g.has_edge(a as int, j) && g.edge(a as int, j).is_epsilon() && g.edge(a as int, j).target
                == b;
        assert(lo < part.draft.nodes[a as int].edges[j].target < hi);
    }
    assert forall|t: Seq<char>, a: usize, c: char, b: usize|
        inv(t, a) && #[trigger] g.reads(a, c, b) implies #[trigger] inv(t.push(c), b) by {
        let j = choose|j: int| #[trigger]
            g.has_edge(a as int, j) && g.edge(a as int, j).reads(c) && g.edge(a as int, j).target
                == b;
        assert(lo < part.draft.nodes[a as int].edges[j].target < hi);
    }
    g.lemma_reach_invariant(part.entry, inv, input, part.entry);
}

/// With an edge to skip the body and one to repeat it, the automaton gets
/// from the body's entry to its exit on whatever the starred body matches.
proof fn lemma_star_loop(
    g: Automaton,
    inner: Automaton,
    body: Pattern,
    entry: usize,
    exit: usize,
    input: Seq<char>,
)
    requires
        g.extends(inner),
        forall|v: Seq<char>| #[trigger] inner.reach(entry, v, exit) <==> matched(body, v),
        g.linked(true, entry, exit),
        g.linked(true, exit, entry),
        matched(Pattern::Star(Box::new(body)), input),
    ensures
        g.reach(entry, input, exit),
    decreases input.len(),
{
    let starred = Pattern::Star(Box::new(body));
    g.lemma_reach_self(entry);
    if input.len() == 0 {
        assert(input =~= Seq::<char>::empty());
        g.lemma_reach_then_edge(entry, input, entry, exit);
    } else {
        let k = choose|k: int|
            #![trigger input.take(k)]
            0 < k <= input.len() && matched(body, input.take(k)) && matched(
                starred,
                input.skip(k),
            );
        assert(inner.reach(entry, input.take(k), exit));
        g.lemma_extends_reach(inner, entry, input.take(k), exit);
        g.lemma_reach_then_edge(entry, input.take(k), exit, entry);
        lemma_star_loop(g, inner, body, entry, exit, input.skip(k));
        g.lemma_reach_concat(entry, input.take(k), entry, input.skip(k), exit);
        assert(input.take(k) + input.skip(k) =~= input);
    }
}

/// The part for a starred pattern reads any number of matches of the body
/// in a row.
proof fn lemma_star_part(before: Draft, body: Pattern)
    requires
        before.nodes.len() + 2 + node_count(body) <= usize::MAX,
        ({
            let ends = before.with_node().with_node();
            let inner = ends.fragment(body);
            &&& shaped(ends, inner)
            &&& speaks(inner, body)
            &&& inner.draft.nodes.len() == ends.nodes.len() + node_count(body)
        }),
    ensures
        shaped(before, before.fragment(Pattern::Star(Box::new(body)))),
        speaks(before.fragment(Pattern::Star(Box::new(body))), Pattern::Star(Box::new(body))),
        before.fragment(Pattern::Star(Box::new(body))).draft.nodes.len() == before.nodes.len() + 2
            + node_count(body),
{
    let pattern = Pattern::Star(Box::new(body));
    let whole = before.fragment(pattern);
    let ends = before.with_node().with_node();
    let inner = ends.fragment(body);
    let g = graph(whole.draft);
    let g1 = graph(inner.draft);
    let entry = whole.entry;
    let exit = whole.exit;
    let lo1 = ends.nodes.len();
    let h1 = inner.draft.nodes.len();
    let none = Seq::<char>::empty();
    let e0 = inner.draft.edges_made;
    let first = g1.nodes[inner.entry as int].edges;
    assert(whole.draft == inner.draft.with_epsilon(entry, inner.entry).with_epsilon(
        inner.entry,
        inner.exit,
    ).with_epsilon(inner.exit, inner.entry).with_epsilon(inner.exit, exit));
    assert(inner.draft.nodes[entry as int] == ends.nodes[entry as int]);
    assert(inner.draft.nodes[exit as int] == ends.nodes[exit as int]);
    assert(g.nodes[entry as int].edges =~= seq![silent(e0, inner.entry)]);
    assert(g.nodes[inner.entry as int].edges =~= first.push(
        silent(e0 + 1, inner.exit),
    ));
    assert(g.nodes[inner.exit as int].edges =~= seq![
        silent(e0 + 2, inner.entry),
        silent(e0 + 3, exit),
    ]);
    assert(g.nodes[exit as int].edges =~= Seq::<Edge>::empty());
    assert forall|i: int|
        lo1 <= i < h1 && i != inner.exit && i != inner.entry implies #[trigger] g.nodes[i]
        == g1.nodes[i] by {}
    assert(g.extends(g1));
    assert(g.has_edge(inner.entry as int, first.len() as int));
    assert(g.linked(true, inner.entry, inner.exit));
    assert(g.has_edge(inner.exit as int, 0));
    assert(g.linked(true, inner.exit, inner.entry));
    assert(g.has_edge(inner.exit as int, 1));
    assert(g.linked(true, inner.exit, exit));
    assert(g.has_edge(entry as int, 0));
    assert(g.linked(true, entry, inner.entry));

    let inv = |t: Seq<char>, q: usize|
        (q == entry && t.len() == 0) || (lo1 <= q < h1 && exists|k: int|
            #![trigger t.take(k)]
            0 <= k <= t.len() && matched(pattern, t.take(k)) && g1.reach(
                inner.entry,
                t.skip(k),
                q,
            )) || ((q == inner.exit || q == exit) && matched(pattern, t));
    assert forall|t: Seq<char>| #[trigger] inv(t, inner.exit) implies matched(pattern, t) by {
        if !matched(pattern, t) {
            let k = choose|k: int|
                #![trigger t.take(k)]
                0 <= k <= t.len() && matched(pattern, t.take(k)) && g1.reach(
                    inner.entry,
                    t.skip(k),
                    inner.exit,
                );
            assert(matched(body, t.skip(k)));
            lemma_star_append(body, t.take(k), t.skip(k));
            assert(t.take(k) + t.skip(k) =~= t);
        }
    }
    assert forall|t: Seq<char>, a: usize, b: usize|
        inv(t, a) && #[trigger] g.linked(true, a, b) implies #[trigger] inv(t, b) by {
        let j = choose|j: int| #[trigger]
            g.has_edge(a as int, j) && g.edge(a as int, j).is_epsilon() && g.edge(a as int, j).target
                == b;
        if a == entry {
            assert(t =~= none);
            assert(t.take(0) =~= none);
            assert(t.skip(0) =~= none);
            g1.lemma_reach_self(inner.entry);
        } else if a == inner.exit {
            assert(matched(pattern, t));
            if b == inner.entry {
                assert(t.take(t.len() as int) =~= t);
                assert(t.skip(t.len() as int) =~= none);
                g1.lemma_reach_self(inner.entry);
            }
        } else if a == exit {
        } else if lo1 <= a < h1 {
            let k = choose|k: int|
                #![trigger t.take(k)]
                0 <= k <= t.len() && matched(pattern, t.take(k)) && g1.reach(
                    inner.entry,
                    t.skip(k),
                    a,
                );
            if a == inner.entry && j == first.len() {
                lemma_entry_once(ends, inner, t.skip(k));
                assert(t.take(k) =~= t);
            } else {
                assert(g1.has_edge(a as int, j));
                assert(g1.edge(a as int, j) == g.edge(a as int, j));
                assert(g1.linked(true, a, b));
                g1.lemma_reach_then_edge(inner.entry, t.skip(k), a, b);
            }
        }
    }
    assert forall|t: Seq<char>, a: usize, c: char, b: usize|
        inv(t, a) && #[trigger] g.reads(a, c, b) implies #[trigger] inv(t.push(c), b) by {
        let j = choose|j: int| #[trigger]
            g.has_edge(a as int, j) && g.edge(a as int, j).reads(c) && g.edge(a as int, j).target
                == b;
        if a == entry || a == inner.exit || a == exit {
        } else if lo1 <= a < h1 {
            let k = choose|k: int|
                #![trigger t.take(k)]
                0 <= k <= t.len() && matched(pattern, t.take(k)) && g1.reach(
                    inner.entry,
                    t.skip(k),
                    a,
                );
            assert(g1.has_edge(a as int, j));
            assert(g1.edge(a as int, j) == g.edge(a as int, j));
            assert(g1.reads(a, c, b));
            g1.lemma_reach_then_read(inner.entry, t.skip(k), a, c, b);
            assert(t.push(c).take(k) =~= t.take(k));
            assert(t.push(c).skip(k) =~= t.skip(k).push(c));
        }
    }
    assert forall|input: Seq<char>| #[trigger]
        g.reach(entry, input, exit) <==> matched(pattern, input) by {
        if g.reach(entry, input, exit) {
            g.lemma_reach_invariant(entry, inv, input, exit);
        }
        if matched(pattern, input) {
            lemma_star_loop(g, g1, body, inner.entry, inner.exit, input);
            g.lemma_reach_self(entry);
            g.lemma_reach_then_edge(entry, none, entry, inner.entry);
            g.lemma_reach_concat(entry, none, inner.entry, input, inner.exit);
            assert(none + input =~= input);
            g.lemma_reach_then_edge(entry, input, inner.exit, exit);
        }
    }
}

/// The part built for a pattern is shaped as a part and reads, from its
/// entry to its exit, exactly what the pattern matches.
pub proof fn lemma_fragment_speaks(before: Draft, pattern: Pattern)
    requires
        before.nodes.len() + node_count(pattern) <= usize::MAX,
    ensures
        shaped(before, before.fragment(pattern)),
        speaks(before.fragment(pattern), pattern),
        before.fragment(pattern).draft.nodes.len() == before.nodes.len() + node_count(pattern),
    decreases pattern,
{
    let ends = before.with_node().with_node();
    match pattern {
        Pattern::Epsilon => {
            lemma_epsilon_part(before);
        },
        Pattern::Any => {
            lemma_step_part(before, alphabet_spec());
        },
        Pattern::CharClass(complemented, chars) => {
            lemma_step_part(before, class_chars(complemented, chars));
        },
        Pattern::Literal(c) => {
            lemma_step_part(before, seq![c]);
            assert forall|input: Seq<char>| read_by(seq![c], input) <==> input == seq![c] by {
                if read_by(seq![c], input) {
                    assert(seq![c][0] == c);
                    assert(input =~= seq![c]);
                }
                if input == seq![c] {
                    assert(seq![c][0] == c);
                }
            }
        },
        Pattern::Concat(first, second) => {
            lemma_fragment_speaks(ends, *first);
            lemma_fragment_speaks(ends.fragment(*first).draft, *second);
            lemma_concat_part(before, *first, *second);
        },
        Pattern::Or(left, right) => {
            lemma_fragment_speaks(ends, *left);
            lemma_fragment_speaks(ends.fragment(*left).draft, *right);
            lemma_or_part(before, *left, *right);
        },
        Pattern::Star(body) => {
            lemma_fragment_speaks(ends, *body);
            lemma_star_part(before, *body);
        },
    }
}

/// The automaton built for a pattern accepts exactly what the pattern
/// matches.
pub proof fn lemma_compile_speaks(pattern: Pattern)
    requires
        node_count(pattern) <= usize::MAX,
    ensures
        forall|input: Seq<char>| #[trigger]
            compile(pattern).accepts(input) <==> matched(pattern, input),
{
    let built = Draft::empty().fragment(pattern);
    let g = graph(built.draft);
    let made = compile(pattern);
    lemma_fragment_speaks(Draft::empty(), pattern);
    assert(made.extends(g));
    assert(g.extends(made));
    assert forall|input: Seq<char>| #[trigger]
        made.accepts(input) <==> matched(pattern, input) by {
        if made.accepts(input) {
            let q = choose|q: usize| #[trigger]
                made.reach(made.start, input, q) && q < made.nodes.len()
                    && made.nodes[q as int].accepting;
            assert(q == built.exit);
            g.lemma_extends_reach(made, built.entry, input, built.exit);
        }
        if matched(pattern, input) {
            assert(g.reach(built.entry, input, built.exit));
            made.lemma_extends_reach(g, built.entry, input, built.exit);
            assert(made.start == built.entry);
            assert(made.reach(made.start, input, built.exit));
            assert(made.nodes[built.exit as int].accepting);
        }
    }
}

} // verus!
