//! What the search for loops finds, said without the search: the ways back
//! to a state that take no transition twice.

use crate::automaton::{distinct_edge_ids, has_edge, Automaton, Edge};
use crate::loops::{free_ids, labels, lemma_free_ids, lemma_labels, Trail};
use vstd::prelude::*;

verus! {

/// One step of a walk: which of the edges of the state at hand is taken, and
/// which of the things that the edge may read is read.
pub struct Step {
    pub edge: int,
    pub read: int,
}

impl Automaton {
    /// Whether `step` can be taken at `at`.
    pub open spec fn allows(self, at: usize, step: Step) -> bool {
        &&& self.has_edge(at as int, step.edge)
        &&& 0 <= step.read < labels(self.edge(at as int, step.edge)).len()
    }

    /// Whether `steps` can be taken from `at`, one after the other.
    pub open spec fn walkable(self, at: usize, steps: Seq<Step>) -> bool
        decreases steps.len(),
    {
        if steps.len() == 0 {
            true
        } else {
            self.allows(at, steps[0]) && self.walkable(
                self.edge(at as int, steps[0].edge).target,
                steps.drop_first(),
            )
        }
    }

    /// The state to which `steps` lead from `at`.
    pub open spec fn walk_end(self, at: usize, steps: Seq<Step>) -> usize
        decreases steps.len(),
    {
        if steps.len() == 0 {
            at
        } else {
            self.walk_end(self.edge(at as int, steps[0].edge).target, steps.drop_first())
        }
    }

    /// The ids of the transitions that `steps` take from `at`, in their order.
    pub open spec fn walk_ids(self, at: usize, steps: Seq<Step>) -> Seq<usize>
        decreases steps.len(),
    {
        if steps.len() == 0 {
            Seq::empty()
        } else {
            seq![self.edge(at as int, steps[0].edge).id] + self.walk_ids(
                self.edge(at as int, steps[0].edge).target,
                steps.drop_first(),
            )
        }
    }

    /// What `steps` read from `at`, in their order.
    pub open spec fn walk_input(self, at: usize, steps: Seq<Step>) -> Seq<char>
        decreases steps.len(),
    {
        if steps.len() == 0 {
            Seq::empty()
        } else {
            labels(self.edge(at as int, steps[0].edge))[steps[0].read] + self.walk_input(
                self.edge(at as int, steps[0].edge).target,
                steps.drop_first(),
            )
        }
    }

    /// Whether `steps` are a way back from `at` to `home` that the search
    /// takes when `used` lists the transitions taken before: at least one
    /// step, no transition taken twice, and none that `used` lists.
    pub open spec fn leads_back(
        self,
        home: usize,
        at: usize,
        used: Seq<usize>,
        steps: Seq<Step>,
    ) -> bool {
        &&& steps.len() > 0
        &&& self.walkable(at, steps)
        &&& self.walk_end(at, steps) == home
        &&& self.walk_ids(at, steps).no_duplicates()
        &&& forall|i: int|
            0 <= i < self.walk_ids(at, steps).len() ==> !used.contains(
                #[trigger] self.walk_ids(at, steps)[i],
            )
    }

    /// The trail that `steps` leave: what they read behind `input`, and the
    /// transitions that they take behind `used`.
    pub open spec fn trail_of(
        self,
        at: usize,
        used: Seq<usize>,
        input: Seq<char>,
        steps: Seq<Step>,
    ) -> Trail {
        Trail { input: input + self.walk_input(at, steps), path: used + self.walk_ids(at, steps) }
    }

    /// Whether `trail` is left by a way back from `at` to `home`.
    pub open spec fn left_by_return(
        self,
        home: usize,
        at: usize,
        used: Seq<usize>,
        input: Seq<char>,
        trail: Trail,
    ) -> bool {
        exists|steps: Seq<Step>| #[trigger]
            self.leads_back(home, at, used, steps) && trail == self.trail_of(at, used, input, steps)
    }

    /// Whether two ways back to `state` that take different transitions read
    /// `input`.
    pub open spec fn two_ways_back(self, state: usize, input: Seq<char>) -> bool {
        exists|one: Seq<Step>, other: Seq<Step>|
            #![trigger self.walk_ids(state, one), self.walk_ids(state, other)]
            self.leads_back(state, state, Seq::empty(), one) && self.leads_back(
                state,
                state,
                Seq::empty(),
                other,
            ) && self.walk_input(state, one) == input && self.walk_input(state, other) == input
                && self.walk_ids(state, one) != self.walk_ids(state, other)
    }

    /// A walk takes one transition with each step.
    pub proof fn lemma_walk_ids_len(self, at: usize, steps: Seq<Step>)
        ensures
            self.walk_ids(at, steps).len() == steps.len(),
        decreases steps.len(),
    {
        if steps.len() > 0 {
            self.lemma_walk_ids_len(self.edge(at as int, steps[0].edge).target, steps.drop_first());
        }
    }

    /// A walk that begins with one step and goes on from the step's target.
    pub proof fn lemma_walk_cons(self, at: usize, first: Step, rest: Seq<Step>)
        ensures
            ({
                let steps = seq![first] + rest;
                let edge = self.edge(at as int, first.edge);
                &&& self.walkable(at, steps) == (self.allows(at, first) && self.walkable(
                    edge.target,
                    rest,
                ))
                &&& self.walk_end(at, steps) == self.walk_end(edge.target, rest)
                &&& self.walk_ids(at, steps) == seq![edge.id] + self.walk_ids(edge.target, rest)
                &&& self.walk_input(at, steps) == labels(edge)[first.read] + self.walk_input(
                    edge.target,
                    rest,
                )
            }),
    {
        let steps = seq![first] + rest;
        assert(steps[0] == first);
        assert(steps.drop_first() =~= rest);
    }
}

/// What one of two lists holds, the two in a row hold, and the other way
/// round.
pub proof fn lemma_concat_contains<A>(first: Seq<A>, second: Seq<A>, item: A)
    ensures
        (first + second).contains(item) <==> first.contains(item) || second.contains(item),
{
    let both = first + second;
    if first.contains(item) {
        let k = choose|k: int| 0 <= k < first.len() && first[k] == item;
        assert(both[k] == item);
    }
    if second.contains(item) {
        let k = choose|k: int| 0 <= k < second.len() && second[k] == item;
        assert(both[first.len() + k] == item);
    }
    if both.contains(item) {
        let k = choose|k: int| 0 <= k < both.len() && both[k] == item;
        if k < first.len() {
            assert(first[k] == item);
        } else {
            assert(second[k - first.len()] == item);
        }
    }
}

impl Automaton {
    /// What the search finds through one edge of a state, it finds from that
    /// state.
    pub proof fn lemma_through_in_trails(
        self,
        home: usize,
        at: usize,
        used: Seq<usize>,
        input: Seq<char>,
        j: nat,
        taken: int,
        trail: Trail,
    )
        requires
            j <= taken < self.edges_at(at).len(),
            self.through(home, self.edges_at(at)[taken], used, input).contains(trail),
        ensures
            self.trails(home, at, used, input, j).contains(trail),
        decreases taken - j,
    {
        let edges = self.edges_at(at);
        let here = self.through(home, edges[j as int], used, input);
        let rest = self.trails(home, at, used, input, j + 1);
        assert(self.trails(home, at, used, input, j) == here + rest);
        lemma_concat_contains(here, rest, trail);
        if j < taken {
            self.lemma_through_in_trails(home, at, used, input, j + 1, taken, trail);
        }
    }

    /// What the search finds behind an edge for one of the things that the
    /// edge may read, it finds behind the edge.
    pub proof fn lemma_trails_in_beyond(
        self,
        home: usize,
        edge: Edge,
        path: Seq<usize>,
        input: Seq<char>,
        k: nat,
        read: int,
        trail: Trail,
    )
        requires
            k <= read < labels(edge).len(),
            self.trails(home, edge.target, path, input + labels(edge)[read], 0).contains(trail),
        ensures
            self.beyond(home, edge, path, input, k).contains(trail),
        decreases read - k,
    {
        let here = self.trails(home, edge.target, path, input + labels(edge)[k as int], 0);
        let rest = self.beyond(home, edge, path, input, k + 1);
        assert(self.beyond(home, edge, path, input, k) == here + rest);
        lemma_concat_contains(here, rest, trail);
        if k < read {
            self.lemma_trails_in_beyond(home, edge, path, input, k + 1, read, trail);
        }
    }

    /// Every way back is found: its trail is among those of the search.
    pub proof fn lemma_return_is_found(
        self,
        home: usize,
        at: usize,
        used: Seq<usize>,
        input: Seq<char>,
        steps: Seq<Step>,
    )
        requires
            self.leads_back(home, at, used, steps),
        ensures
            self.trails(home, at, used, input, 0).contains(self.trail_of(at, used, input, steps)),
        decreases steps.len(),
    {
        let first = steps[0];
        let rest = steps.drop_first();
        let edge = self.edge(at as int, first.edge);
        let read = labels(edge)[first.read];
        let path = used.push(edge.id);
        let trail = self.trail_of(at, used, input, steps);
        let ids = self.walk_ids(at, steps);
        let later = self.walk_ids(edge.target, rest);
        assert(ids == seq![edge.id] + later);
        assert(ids[0] == edge.id);
        assert(!used.contains(edge.id));
        let closing = Self::closing(home, edge, path, input);
        let beyond = self.beyond(home, edge, path, input, 0);
        assert(self.through(home, edge, used, input) == closing + beyond);
        lemma_concat_contains(closing, beyond, trail);
        if rest.len() == 0 {
            assert(self.walk_end(edge.target, rest) == edge.target);
            assert(self.walk_ids(edge.target, rest) =~= Seq::<usize>::empty());
            assert(self.walk_input(edge.target, rest) =~= Seq::<char>::empty());
            assert(edge.target == home);
            assert(input + (read + Seq::<char>::empty()) =~= input + read);
            assert(used + (seq![edge.id] + Seq::<usize>::empty()) =~= path);
            assert(closing[first.read] == trail);
        } else {
            assert forall|i: int| 0 <= i < later.len() implies !path.contains(
                #[trigger] later[i],
            ) by {
                assert(ids[i + 1] == later[i]);
                assert(!used.contains(ids[i + 1]));
                assert(ids[i + 1] != ids[0]);
                if path.contains(later[i]) {
                    let at_path = choose|p: int| 0 <= p < path.len() && path[p] == later[i];
                    if at_path < used.len() {
                        assert(used[at_path] == later[i]);
                    }
                }
            }
            assert(later.no_duplicates()) by {
                assert forall|a: int, b: int|
                    0 <= a < later.len() && 0 <= b < later.len() && a != b implies later[a]
                    != later[b] by {
                    assert(ids[a + 1] == later[a]);
                    assert(ids[b + 1] == later[b]);
                }
            }
            assert(self.leads_back(home, edge.target, path, rest));
            self.lemma_return_is_found(home, edge.target, path, input + read, rest);
            assert(input + (read + self.walk_input(edge.target, rest)) =~= (input + read)
                + self.walk_input(edge.target, rest));
            assert(used + (seq![edge.id] + later) =~= path + later);
            assert(self.trail_of(edge.target, path, input + read, rest) == trail);
            self.lemma_trails_in_beyond(home, edge, path, input, 0, first.read, trail);
        }
        self.lemma_through_in_trails(home, at, used, input, 0, first.edge, trail);
    }

    /// A way back from an edge's target, taken after the edge, is a way back
    /// from the edge's source.
    proof fn lemma_step_then_return(
        self,
        home: usize,
        at: usize,
        used: Seq<usize>,
        input: Seq<char>,
        first: Step,
        trail: Trail,
    )
        requires
            self.allows(at, first),
            !used.contains(self.edge(at as int, first.edge).id),
            self.left_by_return(
                home,
                self.edge(at as int, first.edge).target,
                used.push(self.edge(at as int, first.edge).id),
                input + labels(self.edge(at as int, first.edge))[first.read],
                trail,
            ),
        ensures
            self.left_by_return(home, at, used, input, trail),
    {
        let edge = self.edge(at as int, first.edge);
        let read = labels(edge)[first.read];
        let path = used.push(edge.id);
        let rest = choose|rest: Seq<Step>| #[trigger]
            self.leads_back(home, edge.target, path, rest) && trail == self.trail_of(
                edge.target,
                path,
                input + read,
                rest,
            );
        let steps = seq![first] + rest;
        self.lemma_walk_cons(at, first, rest);
        let later = self.walk_ids(edge.target, rest);
        let ids = self.walk_ids(at, steps);
        assert(path[used.len() as int] == edge.id);
        assert forall|i: int| 0 <= i < ids.len() implies !used.contains(#[trigger] ids[i]) by {
            if i > 0 {
                assert(ids[i] == later[i - 1]);
                if used.contains(later[i - 1]) {
                    let p = choose|p: int| 0 <= p < used.len() && used[p] == later[i - 1];
                    assert(path[p] == later[i - 1]);
                }
            }
        }
        assert(ids.no_duplicates()) by {
            assert forall|a: int, b: int|
                0 <= a < ids.len() && 0 <= b < ids.len() && a != b implies ids[a] != ids[b] by {
                if a > 0 {
                    assert(ids[a] == later[a - 1]);
                }
                if b > 0 {
                    assert(ids[b] == later[b - 1]);
                }
            }
        }
        assert(input + (read + self.walk_input(edge.target, rest)) =~= (input + read)
            + self.walk_input(edge.target, rest));
        assert(used + (seq![edge.id] + later) =~= path + later);
        assert(self.leads_back(home, at, used, steps));
        assert(trail == self.trail_of(at, used, input, steps));
    }

    /// Whatever the search finds behind an edge is left by a way back from
    /// the edge's target, after one of the things that the edge may read.
    proof fn lemma_beyond_is_return(
        self,
        home: usize,
        edge: Edge,
        path: Seq<usize>,
        input: Seq<char>,
        k: nat,
        trail: Trail,
    ) -> (read: int)
        requires
            self.beyond(home, edge, path, input, k).contains(trail),
        ensures
            k <= read < labels(edge).len(),
            self.left_by_return(home, edge.target, path, input + labels(edge)[read], trail),
        decreases free_ids(path), 1nat, labels(edge).len() - k,
    {
        let here = self.trails(home, edge.target, path, input + labels(edge)[k as int], 0);
        let rest = self.beyond(home, edge, path, input, k + 1);
        assert(self.beyond(home, edge, path, input, k) == here + rest);
        lemma_concat_contains(here, rest, trail);
        if here.contains(trail) {
            self.lemma_found_is_return(
                home,
                edge.target,
                path,
                input + labels(edge)[k as int],
                0,
                trail,
            );
            k as int
        } else {
            self.lemma_beyond_is_return(home, edge, path, input, k + 1, trail)
        }
    }

    /// Whatever the search finds is left by a way back: a walk from `at` to
    /// `home` of at least one step that takes no transition twice and none
    /// that `used` lists.
    pub proof fn lemma_found_is_return(
        self,
        home: usize,
        at: usize,
        used: Seq<usize>,
        input: Seq<char>,
        j: nat,
        trail: Trail,
    )
        requires
            self.trails(home, at, used, input, j).contains(trail),
        ensures
            self.left_by_return(home, at, used, input, trail),
        decreases free_ids(used), 0nat, self.edges_at(at).len() - j,
    {
        let edges = self.edges_at(at);
        let edge = edges[j as int];
        let here = self.through(home, edge, used, input);
        let rest = self.trails(home, at, used, input, j + 1);
        assert(self.trails(home, at, used, input, j) == here + rest);
        lemma_concat_contains(here, rest, trail);
        if here.contains(trail) {
            let path = used.push(edge.id);
            let closing = Self::closing(home, edge, path, input);
            let beyond = self.beyond(home, edge, path, input, 0);
            assert(here == closing + beyond);
            lemma_concat_contains(closing, beyond, trail);
            assert(has_edge(self.nodes, at as int, j as int));
            if closing.contains(trail) {
                let k = choose|k: int| 0 <= k < closing.len() && closing[k] == trail;
                let first = Step { edge: j as int, read: k };
                let none = Seq::<Step>::empty();
                let steps = seq![first] + none;
                self.lemma_walk_cons(at, first, none);
                assert(self.walkable(edge.target, none));
                assert(self.walk_end(edge.target, none) == edge.target);
                assert(self.walk_ids(edge.target, none) =~= Seq::<usize>::empty());
                assert(self.walk_input(edge.target, none) =~= Seq::<char>::empty());
                assert(self.walk_ids(at, steps) =~= seq![edge.id]);
                assert(self.walk_input(at, steps) =~= labels(edge)[k]);
                assert(used + seq![edge.id] =~= path);
                assert(self.leads_back(home, at, used, steps));
                assert(trail == self.trail_of(at, used, input, steps));
            } else {
                lemma_free_ids(used, edge.id);
                let read = self.lemma_beyond_is_return(home, edge, path, input, 0, trail);
                self.lemma_step_then_return(
                    home,
                    at,
                    used,
                    input,
                    Step { edge: j as int, read },
                    trail,
                );
            }
        } else {
            self.lemma_found_is_return(home, at, used, input, j + 1, trail);
        }
    }
}

/// Of two lists of equal length that both begin a third, each is the other.
pub proof fn lemma_prefixes_agree<A>(first: Seq<A>, second: Seq<A>, whole: Seq<A>)
    requires
        first.is_prefix_of(whole),
        second.is_prefix_of(whole),
        first.len() == second.len(),
    ensures
        first == second,
{
    assert(first =~= second);
}

/// What is added behind a list can be told from the whole.
pub proof fn lemma_same_tail<A>(front: Seq<A>, first: Seq<A>, second: Seq<A>)
    requires
        front + first == front + second,
    ensures
        first == second,
{
    assert((front + first).skip(front.len() as int) =~= first);
    assert((front + second).skip(front.len() as int) =~= second);
}

impl Automaton {
    /// Whether `trail` goes on from `used` and `input` with one of the edges
    /// of `at` from number `j` on.
    pub open spec fn begins(
        self,
        at: usize,
        j: nat,
        used: Seq<usize>,
        input: Seq<char>,
        trail: Trail,
    ) -> bool {
        &&& used.len() < trail.path.len()
        &&& used.is_prefix_of(trail.path)
        &&& input.is_prefix_of(trail.input)
        &&& exists|e: int|
            j <= e < self.edges_at(at).len() && (#[trigger] self.edges_at(at)[e]).id
                == trail.path[used.len() as int]
    }

    /// Every trail found behind an edge goes on from the path and from the
    /// input with one of the things that the edge may read.
    pub proof fn lemma_beyond_begins(
        self,
        home: usize,
        edge: Edge,
        path: Seq<usize>,
        input: Seq<char>,
        k: nat,
        trail: Trail,
    ) -> (read: int)
        requires
            self.beyond(home, edge, path, input, k).contains(trail),
        ensures
            k <= read < labels(edge).len(),
            path.len() < trail.path.len(),
            path.is_prefix_of(trail.path),
            (input + labels(edge)[read]).is_prefix_of(trail.input),
        decreases free_ids(path), 1nat, labels(edge).len() - k,
    {
        let here = self.trails(home, edge.target, path, input + labels(edge)[k as int], 0);
        let rest = self.beyond(home, edge, path, input, k + 1);
        assert(self.beyond(home, edge, path, input, k) == here + rest);
        lemma_concat_contains(here, rest, trail);
        if here.contains(trail) {
            self.lemma_trails_begin(home, edge.target, path, input + labels(edge)[k as int], 0, trail);
            k as int
        } else {
            self.lemma_beyond_begins(home, edge, path, input, k + 1, trail)
        }
    }

    /// Every trail found through an edge goes on from `used` with that edge,
    /// and from `input`.
    pub proof fn lemma_through_begins(
        self,
        home: usize,
        edge: Edge,
        used: Seq<usize>,
        input: Seq<char>,
        trail: Trail,
    )
        requires
            self.through(home, edge, used, input).contains(trail),
        ensures
            used.push(edge.id).is_prefix_of(trail.path),
            input.is_prefix_of(trail.input),
        decreases free_ids(used), 0nat, 0nat,
    {
        let path = used.push(edge.id);
        let closing = Self::closing(home, edge, path, input);
        let beyond = self.beyond(home, edge, path, input, 0);
        assert(self.through(home, edge, used, input) == closing + beyond);
        lemma_concat_contains(closing, beyond, trail);
        if closing.contains(trail) {
            let k = choose|k: int| 0 <= k < closing.len() && closing[k] == trail;
            assert(trail == Trail { input: input + labels(edge)[k], path });
        } else {
            lemma_free_ids(used, edge.id);
            let read = self.lemma_beyond_begins(home, edge, path, input, 0, trail);
            assert(input.is_prefix_of(input + labels(edge)[read]));
        }
    }

    /// Every trail found from a state goes on from `used` with one of the
    /// state's edges, and from `input`.
    pub proof fn lemma_trails_begin(
        self,
        home: usize,
        at: usize,
        used: Seq<usize>,
        input: Seq<char>,
        j: nat,
        trail: Trail,
    )
        requires
            self.trails(home, at, used, input, j).contains(trail),
        ensures
            self.begins(at, j, used, input, trail),
        decreases free_ids(used), 0nat, self.edges_at(at).len() - j,
    {
        let edges = self.edges_at(at);
        let edge = edges[j as int];
        let here = self.through(home, edge, used, input);
        let rest = self.trails(home, at, used, input, j + 1);
        assert(self.trails(home, at, used, input, j) == here + rest);
        lemma_concat_contains(here, rest, trail);
        if here.contains(trail) {
            self.lemma_through_begins(home, edge, used, input, trail);
            let path = used.push(edge.id);
            assert(used.is_prefix_of(path));
            assert(trail.path[used.len() as int] == path[used.len() as int]);
            assert(edges[j as int].id == trail.path[used.len() as int]);
        } else {
            self.lemma_trails_begin(home, at, used, input, j + 1, trail);
            let e = choose|e: int|
                j + 1 <= e < edges.len() && (#[trigger] edges[e]).id == trail.path[used.len() as int];
            assert(edges[e].id == trail.path[used.len() as int]);
        }
    }

    /// Behind an edge no trail is found twice.
    pub proof fn lemma_beyond_distinct(
        self,
        home: usize,
        edge: Edge,
        path: Seq<usize>,
        input: Seq<char>,
        k: nat,
    )
        requires
            distinct_edge_ids(self.nodes),
        ensures
            self.beyond(home, edge, path, input, k).no_duplicates(),
        decreases free_ids(path), 1nat, labels(edge).len() - k,
    {
        if k < labels(edge).len() {
            let next = input + labels(edge)[k as int];
            let here = self.trails(home, edge.target, path, next, 0);
            let rest = self.beyond(home, edge, path, input, k + 1);
            assert(self.beyond(home, edge, path, input, k) == here + rest);
            self.lemma_trails_distinct(home, edge.target, path, next, 0);
            self.lemma_beyond_distinct(home, edge, path, input, k + 1);
            lemma_labels(edge);
            assert forall|i: int, l: int| 0 <= i < here.len() && 0 <= l < rest.len() implies here[i]
                != rest[l] by {
                if here[i] == rest[l] {
                    let trail = here[i];
                    assert(here.contains(trail));
                    assert(rest.contains(trail));
                    self.lemma_trails_begin(home, edge.target, path, next, 0, trail);
                    let read = self.lemma_beyond_begins(home, edge, path, input, k + 1, trail);
                    let other = input + labels(edge)[read];
                    assert(labels(edge)[k as int].len() == labels(edge)[read].len());
                    lemma_prefixes_agree(next, other, trail.input);
                    lemma_same_tail(input, labels(edge)[k as int], labels(edge)[read]);
                }
            }
            vstd::seq_lib::lemma_no_dup_in_concat(here, rest);
        }
    }

    /// Through an edge no trail is found twice.
    pub proof fn lemma_through_distinct(
        self,
        home: usize,
        edge: Edge,
        used: Seq<usize>,
        input: Seq<char>,
    )
        requires
            distinct_edge_ids(self.nodes),
        ensures
            self.through(home, edge, used, input).no_duplicates(),
        decreases free_ids(used), 0nat, 0nat,
    {
        if !used.contains(edge.id) {
            let path = used.push(edge.id);
            let closing = Self::closing(home, edge, path, input);
            let beyond = self.beyond(home, edge, path, input, 0);
            assert(self.through(home, edge, used, input) == closing + beyond);
            lemma_free_ids(used, edge.id);
            self.lemma_beyond_distinct(home, edge, path, input, 0);
            lemma_labels(edge);
            assert forall|i: int, l: int|
                0 <= i < closing.len() && 0 <= l < closing.len() && i != l implies closing[i]
                != closing[l] by {
                if closing[i] == closing[l] {
                    lemma_same_tail(input, labels(edge)[i], labels(edge)[l]);
                }
            }
            assert forall|i: int, l: int|
                0 <= i < closing.len() && 0 <= l < beyond.len() implies closing[i] != beyond[l] by {
                assert(beyond.contains(beyond[l]));
                let read = self.lemma_beyond_begins(home, edge, path, input, 0, beyond[l]);
                assert(closing[i].path.len() == path.len());
            }
            vstd::seq_lib::lemma_no_dup_in_concat(closing, beyond);
        }
    }

    /// The search finds no trail twice: where the transitions bear different
    /// ids, the trails found from a state are pairwise different.
    pub proof fn lemma_trails_distinct(
        self,
        home: usize,
        at: usize,
        used: Seq<usize>,
        input: Seq<char>,
        j: nat,
    )
        requires
            distinct_edge_ids(self.nodes),
        ensures
            self.trails(home, at, used, input, j).no_duplicates(),
        decreases free_ids(used), 0nat, self.edges_at(at).len() - j,
    {
        let edges = self.edges_at(at);
        if j < edges.len() {
            let edge = edges[j as int];
            let here = self.through(home, edge, used, input);
            let rest = self.trails(home, at, used, input, j + 1);
            assert(self.trails(home, at, used, input, j) == here + rest);
            self.lemma_through_distinct(home, edge, used, input);
            self.lemma_trails_distinct(home, at, used, input, j + 1);
            assert forall|i: int, l: int| 0 <= i < here.len() && 0 <= l < rest.len() implies here[i]
                != rest[l] by {
                if here[i] == rest[l] {
                    let trail = here[i];
                    assert(here.contains(trail));
                    assert(rest.contains(trail));
                    self.lemma_through_begins(home, edge, used, input, trail);
                    self.lemma_trails_begin(home, at, used, input, j + 1, trail);
                    let e = choose|e: int|
                        j + 1 <= e < edges.len() && (#[trigger] edges[e]).id
                            == trail.path[used.len() as int];
                    assert(used.push(edge.id)[used.len() as int] == edge.id);
                    assert(has_edge(self.nodes, at as int, j as int));
                    assert(has_edge(self.nodes, at as int, e));
                }
            }
            vstd::seq_lib::lemma_no_dup_in_concat(here, rest);
        }
    }
}

} // verus!
