//! What holds of the library's functions taken together.

use crate::automaton::{
    distinct_edge_ids, has_edge, targets_inside, unseen, Automaton, Edge,
};
use crate::correctness::lemma_compile_speaks;
use crate::language::matched;
use crate::loops::{held, labels, lemma_labels, paths_reading, record_all, recorded, Trail};
use crate::regex_ast::Pattern;
use crate::simulate::{fresh_targets, lemma_fresh_targets};
use crate::thompson::{compile, node_count};
use crate::walks::{lemma_prefixes_agree, lemma_same_tail, Step};
use vstd::prelude::*;

verus! {

/// The automaton built for a pattern accepts an input exactly if the pattern
/// matches it.
pub proof fn compiled_accepts_what_matches(pattern: Pattern, input: Seq<char>)
    requires
        node_count(pattern) <= usize::MAX,
    ensures
        compile(pattern).accepts(input) <==> matched(pattern, input),
{
    lemma_compile_speaks(pattern);
}

/// The automaton built for a literal accepts that character, and no other
/// single character.
pub proof fn literal_accepts_itself_only(c: char, other: char)
    ensures
        compile(Pattern::Literal(c)).accepts(seq![other]) <==> other == c,
{
    lemma_compile_speaks(Pattern::Literal(c));
    assert(seq![other][0] == other);
    assert(seq![c][0] == c);
}

/// Closing a set of states under the edges without input a second time
/// changes nothing.
pub proof fn eps_closure_idempotent(graph: Automaton, states: Set<usize>)
    ensures
        graph.eps_closed(graph.eps_closure(states)),
        graph.eps_closure(graph.eps_closure(states)) == graph.eps_closure(states),
{
    graph.lemma_closure_closed(true, states);
    graph.lemma_closure_of_closed(true, graph.eps_closure(states));
}

/// The closure of a set that no edge without input leads out of is that set.
pub proof fn eps_closure_of_closed(graph: Automaton, states: Set<usize>)
    requires
        graph.eps_closed(states),
    ensures
        graph.eps_closure(states) == states,
{
    graph.lemma_closure_of_closed(true, states);
}

/// Closing leaves a list as it is where no edge without input leads out of
/// what the list holds.
pub proof fn closed_list_stays(graph: Automaton, states: Seq<usize>, i: nat)
    requires
        targets_inside(graph.nodes),
        graph.nodes.len() <= usize::MAX,
        graph.eps_closed(states.to_set()),
    ensures
        graph.close_from(states, i) == states,
    decreases states.len() - i,
{
    if i < states.len() {
        let state = states[i as int];
        let more = fresh_targets(graph.edges_at(state), states);
        if more.len() > 0 {
            lemma_fresh_targets(graph.edges_at(state), states, 0);
            let j = choose|j: int|
                0 <= j < graph.edges_at(state).len() && (#[trigger] graph.edges_at(
                    state,
                )[j]).is_epsilon() && graph.edges_at(state)[j].target == more[0];
            assert(graph.has_edge(state as int, j));
            assert(graph.linked(true, state, more[0]));
            assert(states.to_set().contains(state));
            assert(states.to_set().contains(more[0]));
        }
        assert(states + more =~= states);
        closed_list_stays(graph, states, i + 1);
    }
}

/// What closing makes of a list from its place `i` on, where the list holds
/// the targets of the edges without input that leave its states before `i`:
/// a list that begins with the given one, and that no edge without input
/// leads out of.
pub proof fn closing_closes(graph: Automaton, states: Seq<usize>, i: nat)
    requires
        targets_inside(graph.nodes),
        graph.nodes.len() <= usize::MAX,
        i <= states.len(),
        forall|k: int, q: usize|
            0 <= k < i && #[trigger] graph.linked(true, states[k], q) ==> states.contains(q),
    ensures
        states.is_prefix_of(graph.close_from(states, i)),
        graph.eps_closed(graph.close_from(states, i).to_set()),
    decreases unseen(graph.nodes.len(), states).len(), states.len() - i,
{
    broadcast use vstd::seq_lib::group_filter_ensures;

    if i >= states.len() {
        assert forall|p: usize, q: usize|
            states.to_set().contains(p) && #[trigger] graph.linked(
                true,
                p,
                q,
            ) implies states.to_set().contains(q) by {
            let k = choose|k: int| 0 <= k < states.len() && states[k] == p;
            assert(graph.linked(true, states[k], q));
        }
    } else {
        let state = states[i as int];
        let edges = graph.edges_at(state);
        let more = fresh_targets(edges, states);
        let next = states + more;
        graph.lemma_close_step(states, i);
        assert forall|k: int, q: usize|
            0 <= k < i + 1 && #[trigger] graph.linked(true, next[k], q) implies next.contains(
            q,
        ) by {
            assert(next[k] == states[k]);
            if k == i && !states.contains(q) {
                let j = choose|j: int| #[trigger]
                    graph.has_edge(state as int, j) && graph.edge(state as int, j).is_epsilon()
                        && graph.edge(state as int, j).target == q;
                let keep = |e: Edge| e.is_epsilon() && !states.contains(e.target);
                assert(keep(edges[j]));
                assert(edges.filter(keep).contains(edges[j]));
                let at = choose|at: int|
                    0 <= at < edges.filter(keep).len() && edges.filter(keep)[at] == edges[j];
                assert(more[at] == q);
                assert(next[states.len() + at] == q);
            } else {
                let at = choose|at: int| 0 <= at < states.len() && states[at] == q;
                assert(next[at] == q);
            }
        }
        closing_closes(graph, next, i + 1);
    }
}

/// Closing a list a second time leaves it as the first closing made it.
pub proof fn eps_closure_seq_idempotent(graph: Automaton, states: Seq<usize>)
    requires
        targets_inside(graph.nodes),
        graph.nodes.len() <= usize::MAX,
    ensures
        graph.eps_closure_seq(graph.eps_closure_seq(states)) == graph.eps_closure_seq(states),
{
    closing_closes(graph, states, 0);
    closed_list_stays(graph, graph.eps_closure_seq(states), 0);
}

/// Whether an input is accepted depends on the nodes, the start and the input
/// alone: automata that agree in these accept the same inputs.
pub proof fn acceptance_deterministic(
    first: Automaton,
    second: Automaton,
    input: Seq<char>,
    again: Seq<char>,
)
    requires
        first.nodes == second.nodes,
        first.start == second.start,
        input == again,
    ensures
        first.accepts(input) == second.accepts(again),
{
}

/// What `record_all` files under `input`: what `map` held there, and behind
/// it the paths of the trails that read `input`, in their order.
pub proof fn record_all_at(
    map: Map<Seq<char>, Seq<Seq<usize>>>,
    trails: Seq<Trail>,
    input: Seq<char>,
)
    ensures
        record_all(map, trails).contains_key(input) <==> map.contains_key(input) || paths_reading(
            trails,
            input,
        ).len() > 0,
        record_all(map, trails).contains_key(input) ==> record_all(map, trails)[input] == held(
            map,
            input,
        ) + paths_reading(trails, input),
    decreases trails.len(),
{
    reveal(Seq::filter);
    if trails.len() > 0 {
        let front = trails.drop_last();
        let last = trails.last();
        record_all_at(map, front, input);
        let so_far = record_all(map, front);
        assert(record_all(map, trails) == recorded(so_far, last.input, last.path));
        if last.input == input {
            assert(paths_reading(trails, input) =~= paths_reading(front, input).push(last.path));
            let base = held(map, input);
            assert((base + paths_reading(front, input)).push(last.path) =~= base + paths_reading(
                trails,
                input,
            ));
        } else {
            assert(paths_reading(trails, input) =~= paths_reading(front, input));
        }
    } else {
        assert(paths_reading(trails, input) =~= Seq::<Seq<usize>>::empty());
        assert(held(map, input) + paths_reading(trails, input) =~= held(map, input));
    }
}

/// An edge back to `home` that the search takes closes a trail for each
/// thing that it may read.
pub proof fn trails_hold_closing(
    graph: Automaton,
    home: usize,
    at: usize,
    used: Seq<usize>,
    input: Seq<char>,
    j: nat,
    taken: int,
    read: Seq<char>,
)
    requires
        j <= taken < graph.edges_at(at).len(),
        !used.contains(graph.edges_at(at)[taken].id),
        graph.edges_at(at)[taken].target == home,
        labels(graph.edges_at(at)[taken]).contains(read),
    ensures
        graph.trails(home, at, used, input, j).contains(
            Trail { input: input + read, path: used.push(graph.edges_at(at)[taken].id) },
        ),
    decreases taken - j,
{
    let edges = graph.edges_at(at);
    let edge = edges[taken];
    let wanted = Trail { input: input + read, path: used.push(edge.id) };
    let here = graph.through(home, edges[j as int], used, input);
    let rest = graph.trails(home, at, used, input, j + 1);
    assert(graph.trails(home, at, used, input, j) == here + rest);
    if j == taken {
        let closing = Automaton::closing(home, edge, used.push(edge.id), input);
        let beyond = graph.beyond(home, edge, used.push(edge.id), input, 0);
        assert(here == closing + beyond);
        let k = choose|k: int| 0 <= k < labels(edge).len() && labels(edge)[k] == read;
        assert(closing[k] == wanted);
        assert((here + rest)[k] == wanted);
    } else {
        trails_hold_closing(graph, home, at, used, input, j + 1, taken, read);
        let k = choose|k: int| 0 <= k < rest.len() && rest[k] == wanted;
        assert((here + rest)[here.len() + k] == wanted);
    }
}

/// Two different transitions of a state that both lead back to it and bear
/// the same symbols give two loops at that state for whatever they may
/// read: the state is ambiguous on that input, and is reported so where it
/// can be reached from the start.
pub proof fn twin_loops_ambiguous(
    graph: Automaton,
    state: usize,
    one: int,
    other: int,
    read: Seq<char>,
)
    requires
        graph.wf(),
        graph.has_edge(state as int, one),
        graph.has_edge(state as int, other),
        one != other,
        graph.edge(state as int, one).target == state,
        graph.edge(state as int, other).target == state,
        graph.edge(state as int, one).symbol == graph.edge(state as int, other).symbol,
        labels(graph.edge(state as int, one)).contains(read),
    ensures
        graph.loops_at(state).contains_key(read),
        graph.loops_at(state)[read].len() >= 2,
        graph.reachable(state) ==> graph.ambiguous_at(state, read),
{
    broadcast use vstd::seq_lib::group_filter_ensures;

    let first = graph.edge(state as int, one);
    let second = graph.edge(state as int, other);
    let none = Seq::<usize>::empty();
    let found = graph.trails(state, state, none, Seq::empty(), 0);
    assert(has_edge(graph.nodes, state as int, one));
    assert(has_edge(graph.nodes, state as int, other));
    assert(first.id != second.id);
    assert(labels(second) == labels(first));
    assert(Seq::<char>::empty() + read =~= read);
    trails_hold_closing(graph, state, state, none, Seq::empty(), 0, one, read);
    trails_hold_closing(graph, state, state, none, Seq::empty(), 0, other, read);
    let a = Trail { input: read, path: none.push(first.id) };
    let b = Trail { input: read, path: none.push(second.id) };
    assert(found.contains(a));
    assert(found.contains(b));
    let reading = found.filter(|t: Trail| t.input == read);
    let at_a = choose|k: int| 0 <= k < found.len() && found[k] == a;
    let at_b = choose|k: int| 0 <= k < found.len() && found[k] == b;
    assert(reading.contains(found[at_a]));
    assert(reading.contains(found[at_b]));
    let k = choose|k: int| 0 <= k < reading.len() && reading[k] == a;
    let l = choose|l: int| 0 <= l < reading.len() && reading[l] == b;
    assert(a.path[0] == first.id);
    assert(b.path[0] == second.id);
    assert(k != l);
    assert(paths_reading(found, read).len() >= 2);
    record_all_at(Map::empty(), found, read);
    assert(Seq::<Seq<usize>>::empty() + paths_reading(found, read) =~= paths_reading(found, read));
    filed_twice_iff_ambiguous(graph, state, read);
}

/// A path is among those of the trails that read `input` exactly if one of
/// the trails reads `input` along it.
pub proof fn paths_reading_contains(trails: Seq<Trail>, input: Seq<char>, path: Seq<usize>)
    ensures
        paths_reading(trails, input).contains(path) <==> trails.contains(Trail { input, path }),
{
    broadcast use vstd::seq_lib::group_filter_ensures;

    let reads = |t: Trail| t.input == input;
    let reading = trails.filter(reads);
    let wanted = Trail { input, path };
    if paths_reading(trails, input).contains(path) {
        let k = choose|k: int|
            0 <= k < paths_reading(trails, input).len() && paths_reading(trails, input)[k] == path;
        assert(reads(reading[k]));
        assert(reading.contains(reading[k]));
        trails.lemma_filter_contains_rev(reads, reading[k]);
        assert(reading[k] == wanted);
    }
    if trails.contains(wanted) {
        let i = choose|i: int| 0 <= i < trails.len() && trails[i] == wanted;
        assert(reads(trails[i]));
        assert(reading.contains(trails[i]));
        let k = choose|k: int| 0 <= k < reading.len() && reading[k] == wanted;
        assert(paths_reading(trails, input)[k] == path);
    }
}

/// Among trails that are pairwise different, those that read one input go
/// along pairwise different paths.
pub proof fn paths_reading_distinct(trails: Seq<Trail>, input: Seq<char>)
    requires
        trails.no_duplicates(),
    ensures
        paths_reading(trails, input).no_duplicates(),
    decreases trails.len(),
{
    reveal(Seq::filter);
    if trails.len() > 0 {
        let front = trails.drop_last();
        let last = trails.last();
        paths_reading_distinct(front, input);
        if last.input == input {
            assert(paths_reading(trails, input) =~= paths_reading(front, input).push(last.path));
            paths_reading_contains(front, input, last.path);
            if front.contains(last) {
                let i = choose|i: int| 0 <= i < front.len() && front[i] == last;
                assert(trails[i] == trails[trails.len() - 1]);
            }
            assert(!paths_reading(front, input).contains(last.path));
        } else {
            assert(paths_reading(trails, input) =~= paths_reading(front, input));
        }
    } else {
        assert(paths_reading(trails, input) =~= Seq::<Seq<usize>>::empty());
    }
}

/// Into an empty map the search files, under each input, pairwise different
/// paths: no loop is counted twice.
pub proof fn found_paths_differ(
    graph: Automaton,
    home: usize,
    at: usize,
    used: Seq<usize>,
    input: Seq<char>,
    read: Seq<char>,
)
    requires
        distinct_edge_ids(graph.nodes),
    ensures
        ({
            let filed = record_all(Map::empty(), graph.trails(home, at, used, input, 0));
            filed.contains_key(read) ==> filed[read].no_duplicates() && filed[read]
                == paths_reading(graph.trails(home, at, used, input, 0), read)
        }),
{
    let found = graph.trails(home, at, used, input, 0);
    graph.lemma_trails_distinct(home, at, used, input, 0);
    paths_reading_distinct(found, read);
    record_all_at(Map::empty(), found, read);
    assert(Seq::<Seq<usize>>::empty() + paths_reading(found, read) =~= paths_reading(found, read));
}

/// The loops filed at a state under one input are pairwise different
/// sequences of transition ids.
pub proof fn loops_pairwise_different(graph: Automaton, state: usize, input: Seq<char>)
    requires
        graph.wf(),
    ensures
        graph.loops_at(state).contains_key(input) ==> graph.loops_at(state)[input].no_duplicates(),
{
    found_paths_differ(graph, state, state, Seq::empty(), Seq::empty(), input);
}

/// A walk is told by the transitions that it takes and by what it reads:
/// two walks from one state that agree in both are the same walk.
pub proof fn walk_told_by_trail(graph: Automaton, at: usize, one: Seq<Step>, other: Seq<Step>)
    requires
        distinct_edge_ids(graph.nodes),
        graph.walkable(at, one),
        graph.walkable(at, other),
        graph.walk_ids(at, one) == graph.walk_ids(at, other),
        graph.walk_input(at, one) == graph.walk_input(at, other),
    ensures
        one == other,
    decreases one.len(),
{
    graph.lemma_walk_ids_len(at, one);
    graph.lemma_walk_ids_len(at, other);
    if one.len() == 0 {
        assert(one =~= other);
    } else {
        let a = one[0];
        let b = other[0];
        let ea = graph.edge(at as int, a.edge);
        let eb = graph.edge(at as int, b.edge);
        let ids = graph.walk_ids(at, one);
        let read = graph.walk_input(at, one);
        assert(ids[0] == ea.id);
        assert(ids[0] == eb.id);
        assert(has_edge(graph.nodes, at as int, a.edge));
        assert(has_edge(graph.nodes, at as int, b.edge));
        assert(a.edge == b.edge);
        lemma_labels(ea);
        let la = labels(ea)[a.read];
        let lb = labels(ea)[b.read];
        let ra = graph.walk_input(ea.target, one.drop_first());
        let rb = graph.walk_input(ea.target, other.drop_first());
        assert(read == la + ra);
        assert(read == lb + rb);
        assert(la.is_prefix_of(read));
        assert(lb.is_prefix_of(read));
        lemma_prefixes_agree(la, lb, read);
        assert(a.read == b.read);
        lemma_same_tail(la, ra, rb);
        lemma_same_tail(
            seq![ea.id],
            graph.walk_ids(ea.target, one.drop_first()),
            graph.walk_ids(ea.target, other.drop_first()),
        );
        walk_told_by_trail(graph, ea.target, one.drop_first(), other.drop_first());
        assert(a == b);
        assert(one =~= seq![a] + one.drop_first());
        assert(other =~= seq![b] + other.drop_first());
    }
}

/// Every way back is filed exactly once: its trail is among those that the
/// search finds, no trail is found twice, and no other way back leaves the
/// same trail.
pub proof fn way_back_filed_once(
    graph: Automaton,
    home: usize,
    at: usize,
    used: Seq<usize>,
    input: Seq<char>,
    steps: Seq<Step>,
)
    requires
        distinct_edge_ids(graph.nodes),
        graph.leads_back(home, at, used, steps),
    ensures
        graph.trails(home, at, used, input, 0).contains(graph.trail_of(at, used, input, steps)),
        graph.trails(home, at, used, input, 0).no_duplicates(),
        forall|other: Seq<Step>| #[trigger]
            graph.leads_back(home, at, used, other) && graph.trail_of(at, used, input, other)
                == graph.trail_of(at, used, input, steps) ==> other == steps,
{
    graph.lemma_return_is_found(home, at, used, input, steps);
    graph.lemma_trails_distinct(home, at, used, input, 0);
    assert forall|other: Seq<Step>| #[trigger]
        graph.leads_back(home, at, used, other) && graph.trail_of(at, used, input, other)
            == graph.trail_of(at, used, input, steps) implies other == steps by {
        lemma_same_tail(used, graph.walk_ids(at, other), graph.walk_ids(at, steps));
        lemma_same_tail(input, graph.walk_input(at, other), graph.walk_input(at, steps));
        walk_told_by_trail(graph, at, other, steps);
    }
}

/// The search files two or more loops at a state under an input exactly if
/// the automaton is ambiguous there: the state can be reached from the
/// start, and two ways back to it that take different transitions read that
/// input.
pub proof fn filed_twice_iff_ambiguous(graph: Automaton, state: usize, input: Seq<char>)
    requires
        graph.wf(),
    ensures
        graph.filed_twice(state, input) <==> graph.ambiguous_at(state, input),
{
    let none = Seq::<usize>::empty();
    let silent = Seq::<char>::empty();
    let found = graph.trails(state, state, none, silent, 0);
    let filed = paths_reading(found, input);
    found_paths_differ(graph, state, state, none, silent, input);
    record_all_at(Map::empty(), found, input);
    if graph.filed_twice(state, input) {
        let p = filed[0];
        let q = filed[1];
        assert(filed.contains(p));
        assert(filed.contains(q));
        paths_reading_contains(found, input, p);
        paths_reading_contains(found, input, q);
        graph.lemma_found_is_return(state, state, none, silent, 0, Trail { input, path: p });
        graph.lemma_found_is_return(state, state, none, silent, 0, Trail { input, path: q });
        let one = choose|steps: Seq<Step>| #[trigger]
            graph.leads_back(state, state, none, steps) && (Trail { input, path: p })
                == graph.trail_of(state, none, silent, steps);
        let other = choose|steps: Seq<Step>| #[trigger]
            graph.leads_back(state, state, none, steps) && (Trail { input, path: q })
                == graph.trail_of(state, none, silent, steps);
        assert(none + graph.walk_ids(state, one) =~= graph.walk_ids(state, one));
        assert(none + graph.walk_ids(state, other) =~= graph.walk_ids(state, other));
        assert(silent + graph.walk_input(state, one) =~= graph.walk_input(state, one));
        assert(silent + graph.walk_input(state, other) =~= graph.walk_input(state, other));
        assert(graph.walk_ids(state, one) != graph.walk_ids(state, other));
    }
    if graph.two_ways_back(state, input) {
        let (one, other) = choose|one: Seq<Step>, other: Seq<Step>|
            #![trigger graph.walk_ids(state, one), graph.walk_ids(state, other)]
            graph.leads_back(state, state, none, one) && graph.leads_back(
                state,
                state,
                none,
                other,
            ) && graph.walk_input(state, one) == input && graph.walk_input(state, other) == input
                && graph.walk_ids(state, one) != graph.walk_ids(state, other);
        graph.lemma_return_is_found(state, state, none, silent, one);
        graph.lemma_return_is_found(state, state, none, silent, other);
        let p = graph.walk_ids(state, one);
        let q = graph.walk_ids(state, other);
        assert(none + p =~= p);
        assert(none + q =~= q);
        assert(silent + graph.walk_input(state, one) =~= input);
        assert(silent + graph.walk_input(state, other) =~= input);
        assert(graph.trail_of(state, none, silent, one) == Trail { input, path: p });
        assert(graph.trail_of(state, none, silent, other) == Trail { input, path: q });
        paths_reading_contains(found, input, p);
        paths_reading_contains(found, input, q);
        let k = choose|k: int| 0 <= k < filed.len() && filed[k] == p;
        let l = choose|l: int| 0 <= l < filed.len() && filed[l] == q;
        assert(k != l);
        assert(filed.len() >= 2);
        assert(Seq::<Seq<usize>>::empty() + filed =~= filed);
    }
}

} // verus!
