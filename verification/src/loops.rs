//! Loops: paths that lead from a state back to it and take no transition
//! twice, filed under the input that is read along them.

use crate::automaton::{has_edge, lemma_unseen_shrinks, unseen, Automaton, Edge};
use crate::laws::found_paths_differ;
use crate::lists::{
    contains_id, copy_chars, copy_ids, distinct_chars, lemma_distinct_chars,
    lemma_distinct_chars_prefix, occurs_before, same_chars,
};
use crate::nfa::{edges_of, NFA};
use vstd::prelude::*;

verus! {

/// The loops found on one input: the ids of the transitions of each, in the
/// order taken. Where the search began with an empty map, no two of them
/// are the same.
#[derive(Debug, PartialEq, Eq)]
pub struct InputLoops {
    pub input: Vec<char>,
    pub loops: Vec<Vec<usize>>,
}

/// The loops found so far, filed under their inputs. No input is held twice;
/// the inputs stand in the order in which each was first met. (A list, and
/// no hash map: of a hash map whose keys are lists of characters nothing
/// could be proved.)
#[derive(Debug, PartialEq, Eq)]
pub struct InputMap {
    entries: Vec<InputLoops>,
}

/// The paths that a list of loops stands for.
pub open spec fn paths_of(loops: Seq<Vec<usize>>) -> Seq<Seq<usize>> {
    loops.map_values(|l: Vec<usize>| l@)
}

/// Whether entry `i` of `entries` is filed under `input`.
pub open spec fn filed_at(entries: Seq<InputLoops>, input: Seq<char>, i: int) -> bool {
    0 <= i < entries.len() && entries[i].input@ == input
}

/// Whether no two entries are filed under the same input.
pub open spec fn distinct_inputs(entries: Seq<InputLoops>) -> bool {
    forall|i: int, j: int|
        0 <= i < entries.len() && 0 <= j < entries.len() && (#[trigger] entries[i]).input@ == (
        #[trigger] entries[j]).input@ ==> i == j
}

/// The map that a list of entries stands for: from each input to its paths.
pub open spec fn table(entries: Seq<InputLoops>) -> Map<Seq<char>, Seq<Seq<usize>>> {
    Map::new(
        |input: Seq<char>| exists|i: int| filed_at(entries, input, i),
        |input: Seq<char>| paths_of(entries[choose|i: int| filed_at(entries, input, i)].loops@),
    )
}

/// The paths that `map` holds for `input`: none where it holds no entry.
pub open spec fn held(map: Map<Seq<char>, Seq<Seq<usize>>>, input: Seq<char>) -> Seq<
    Seq<usize>,
> {
    if map.contains_key(input) {
        map[input]
    } else {
        Seq::empty()
    }
}

/// `map` with `path` added behind the paths that it holds for `input`.
pub open spec fn recorded(
    map: Map<Seq<char>, Seq<Seq<usize>>>,
    input: Seq<char>,
    path: Seq<usize>,
) -> Map<Seq<char>, Seq<Seq<usize>>> {
    map.insert(input, held(map, input).push(path))
}

impl View for InputMap {
    type V = Map<Seq<char>, Seq<Seq<usize>>>;

    closed spec fn view(&self) -> Map<Seq<char>, Seq<Seq<usize>>> {
        table(self.entries@)
    }
}

impl Clone for InputLoops {
    fn clone(&self) -> (copy: InputLoops)
        ensures
            copy.input@ == self.input@,
            paths_of(copy.loops@) == paths_of(self.loops@),
    {
        let mut loops: Vec<Vec<usize>> = Vec::new();
        let mut i: usize = 0;
        while i < self.loops.len()
            invariant
                i <= self.loops.len(),
                loops.len() == i,
                forall|k: int| 0 <= k < i ==> (#[trigger] loops@[k])@ == self.loops@[k]@,
            decreases self.loops.len() - i,
        {
            loops.push(copy_ids(&self.loops[i]));
            i += 1;
        }
        proof {
            assert(paths_of(loops@) =~= paths_of(self.loops@));
        }
        InputLoops { input: copy_chars(&self.input), loops }
    }
}

impl InputMap {
    /// What holds of every map: no input is filed twice.
    #[verifier::type_invariant]
    spec fn wf(&self) -> bool {
        distinct_inputs(self.entries@)
    }

    /// A map that holds no loops.
    pub fn new() -> (map: InputMap)
        ensures
            map@ == Map::<Seq<char>, Seq<Seq<usize>>>::empty(),
    {
        let map = InputMap { entries: Vec::new() };
        assert(map@ =~= Map::<Seq<char>, Seq<Seq<usize>>>::empty());
        map
    }

    /// The place of the entry filed under `input`, if there is one.
    fn find(&self, input: &Vec<char>) -> (place: Option<usize>)
        ensures
            match place {
                Some(i) => filed_at(self.entries@, input@, i as int),
                None => forall|i: int| !filed_at(self.entries@, input@, i),
            },
    {
        let mut i: usize = 0;
        while i < self.entries.len()
            invariant
                i <= self.entries.len(),
                forall|k: int| 0 <= k < i ==> !filed_at(self.entries@, input@, k),
            decreases self.entries.len() - i,
        {
            if same_chars(&self.entries[i].input, input) {
                return Some(i);
            }
            i += 1;
        }
        None
    }

    /// The loops filed under `input`, if there are any.
    pub fn get(&self, input: &Vec<char>) -> (loops: Option<&Vec<Vec<usize>>>)
        ensures
            loops is Some <==> self@.contains_key(input@),
            loops matches Some(found) ==> paths_of(found@) == self@[input@],
    {
        match self.find(input) {
            Some(i) => {
                proof {
                    use_type_invariant(self);
                    let chosen = choose|k: int| filed_at(self.entries@, input@, k);
                    assert(chosen == i);
                }
                Some(&self.entries[i].loops)
            },
            None => None,
        }
    }

    /// The entries, one for each input, in the order in which the inputs were
    /// first met.
    pub fn entries(&self) -> (entries: &Vec<InputLoops>)
        ensures
            distinct_inputs(entries@),
            table(entries@) == self@,
            forall|i: int|
                0 <= i < entries.len() ==> self@.contains_key((#[trigger] entries@[i]).input@)
                    && self@[entries@[i].input@] == paths_of(entries@[i].loops@),
            forall|input: Seq<char>|
                self@.contains_key(input) ==> exists|i: int| filed_at(entries@, input, i),
    {
        proof {
            use_type_invariant(self);
            assert forall|i: int| 0 <= i < self.entries.len() implies self@.contains_key(
                (#[trigger] self.entries@[i]).input@,
            ) && self@[self.entries@[i].input@] == paths_of(self.entries@[i].loops@) by {
                let input = self.entries@[i].input@;
                assert(filed_at(self.entries@, input, i));
                let chosen = choose|k: int| filed_at(self.entries@, input, k);
                assert(chosen == i);
            }
        }
        &self.entries
    }

    /// Files `path` under `input`, behind the loops that are filed there.
    pub fn record(&mut self, input: Vec<char>, path: Vec<usize>)
        ensures
            final(self)@ == recorded(old(self)@, input@, path@),
    {
        let ghost before = self.entries@;
        proof {
            use_type_invariant(&*self);
        }
        let place = self.find(&input);
        let mut entries: Vec<InputLoops> = Vec::new();
        std::mem::swap(&mut self.entries, &mut entries);
        match place {
            Some(i) => {
                entries[i].loops.push(path);
                proof {
                    let after = entries@;
                    assert(after.len() == before.len());
                    assert forall|k: int| 0 <= k < after.len() implies (#[trigger] after[k]).input@
                        == before[k].input@ by {}
                    assert forall|key: Seq<char>, k: int|
                        filed_at(after, key, k) <==> filed_at(before, key, k) by {}
                    assert(distinct_inputs(after)) by {
                        assert forall|k: int, l: int|
                            0 <= k < after.len() && 0 <= l < after.len() && (
                            #[trigger] after[k]).input@ == (#[trigger] after[l]).input@ implies k
                            == l by {
                            assert(before[k].input@ == before[l].input@);
                        }
                    }
                    assert(paths_of(after[i as int].loops@) =~= paths_of(
                        before[i as int].loops@,
                    ).push(path@));
                    let chosen = choose|k: int| filed_at(before, input@, k);
                    assert(chosen == i);
                    assert forall|key: Seq<char>| #[trigger]
                        table(after).contains_key(key) implies table(after)[key] == recorded(
                        table(before),
                        input@,
                        path@,
                    )[key] by {
                        let k = choose|k: int| filed_at(after, key, k);
                        let l = choose|l: int| filed_at(before, key, l);
                        assert(filed_at(before, key, k));
                        assert(k == l);
                    }
                    assert(table(after) =~= recorded(table(before), input@, path@));
                }
            },
            None => {
                let mut loops: Vec<Vec<usize>> = Vec::new();
                loops.push(path);
                entries.push(InputLoops { input, loops });
                proof {
                    let after = entries@;
                    let last = before.len() as int;
                    assert(paths_of(after[last].loops@) =~= Seq::<Seq<usize>>::empty().push(path@));
                    assert forall|key: Seq<char>, k: int|
                        filed_at(after, key, k) <==> (filed_at(before, key, k) || (k == last
                            && key == input@)) by {}
                    assert(distinct_inputs(after)) by {
                        assert forall|k: int, l: int|
                            0 <= k < after.len() && 0 <= l < after.len() && (
                            #[trigger] after[k]).input@ == (#[trigger] after[l]).input@ implies k
                            == l by {
                            if k < last && l < last {
                                assert(before[k].input@ == before[l].input@);
                            } else if k < last {
                                assert(filed_at(before, input@, k));
                            } else if l < last {
                                assert(filed_at(before, input@, l));
                            }
                        }
                    }
                    assert forall|key: Seq<char>| #[trigger]
                        table(after).contains_key(key) implies table(after)[key] == recorded(
                        table(before),
                        input@,
                        path@,
                    )[key] by {
                        let k = choose|k: int| filed_at(after, key, k);
                        if key != input@ {
                            let l = choose|l: int| filed_at(before, key, l);
                            assert(filed_at(before, key, k));
                            assert(filed_at(after, key, l));
                            assert(k == l);
                        } else {
                            assert(filed_at(after, key, last));
                            assert(k == last);
                        }
                    }
                    assert(filed_at(after, input@, last));
                    assert(table(after) =~= recorded(table(before), input@, path@));
                }
            },
        }
        std::mem::swap(&mut self.entries, &mut entries);
    }
}

impl Clone for InputMap {
    /// A copy of the map: it holds what the map holds.
    fn clone(&self) -> (copy: InputMap)
        ensures
            copy@ == self@,
    {
        proof {
            use_type_invariant(self);
        }
        let mut entries: Vec<InputLoops> = Vec::new();
        let mut i: usize = 0;
        while i < self.entries.len()
            invariant
                i <= self.entries.len(),
                entries.len() == i,
                forall|k: int|
                    0 <= k < i ==> (#[trigger] entries@[k]).input@ == self.entries@[k].input@
                        && paths_of(entries@[k].loops@) == paths_of(self.entries@[k].loops@),
            decreases self.entries.len() - i,
        {
            entries.push(self.entries[i].clone());
            i += 1;
        }
        proof {
            let mine = self.entries@;
            let theirs = entries@;
            assert forall|key: Seq<char>, k: int|
                filed_at(theirs, key, k) <==> filed_at(mine, key, k) by {}
            assert(distinct_inputs(theirs)) by {
                assert forall|k: int, l: int|
                    0 <= k < theirs.len() && 0 <= l < theirs.len() && (#[trigger] theirs[k]).input@
                        == (#[trigger] theirs[l]).input@ implies k == l by {
                    assert(mine[k].input@ == mine[l].input@);
                }
            }
            assert forall|key: Seq<char>| #[trigger]
                table(theirs).contains_key(key) implies table(theirs)[key] == table(mine)[key] by {
                let k = choose|k: int| filed_at(theirs, key, k);
                let l = choose|l: int| filed_at(mine, key, l);
                assert(filed_at(mine, key, k));
                assert(k == l);
            }
            assert(table(theirs) =~= table(mine));
        }
        InputMap { entries }
    }
}

/// One way back to the home state: the input read on the way, and the ids of
/// the transitions taken.
pub struct Trail {
    pub input: Seq<char>,
    pub path: Seq<usize>,
}

/// `map` with each of `trails` recorded, in their order.
pub open spec fn record_all(
    map: Map<Seq<char>, Seq<Seq<usize>>>,
    trails: Seq<Trail>,
) -> Map<Seq<char>, Seq<Seq<usize>>>
    decreases trails.len(),
{
    if trails.len() == 0 {
        map
    } else {
        recorded(record_all(map, trails.drop_last()), trails.last().input, trails.last().path)
    }
}

/// The paths of those of `trails` that read `input`, in their order.
pub open spec fn paths_reading(trails: Seq<Trail>, input: Seq<char>) -> Seq<Seq<usize>> {
    trails.filter(|t: Trail| t.input == input).map_values(|t: Trail| t.path)
}

/// What taking an edge may read: nothing, for an edge without input, and
/// otherwise any one of its characters. Each character counts once, however
/// often the symbol lists it.
pub open spec fn labels(edge: Edge) -> Seq<Seq<char>> {
    if edge.is_epsilon() {
        seq![Seq::empty()]
    } else {
        distinct_chars(edge.symbol).map_values(|c: char| seq![c])
    }
}

/// The things that an edge may read are pairwise different and equally
/// long, and there is at least one.
pub proof fn lemma_labels(edge: Edge)
    ensures
        labels(edge).no_duplicates(),
        labels(edge).len() > 0,
        forall|k: int, l: int|
            0 <= k < labels(edge).len() && 0 <= l < labels(edge).len() ==> (#[trigger] labels(
                edge,
            )[k]).len() == (#[trigger] labels(edge)[l]).len(),
{
    lemma_distinct_chars(edge.symbol);
    if !edge.is_epsilon() {
        let chars = distinct_chars(edge.symbol);
        assert forall|k: int, l: int|
            0 <= k < labels(edge).len() && 0 <= l < labels(edge).len() && k != l implies labels(
            edge,
        )[k] != labels(edge)[l] by {
            assert(labels(edge)[k][0] == chars[k]);
            assert(labels(edge)[l][0] == chars[l]);
        }
    }
}

/// How many of the things that an edge with `symbol` may read are met among
/// the first `k` characters of the symbol.
pub open spec fn met(symbol: Seq<char>, k: int) -> int {
    distinct_chars(symbol.take(k)).len() as int
}

/// Going one character on in a symbol: a character that stood before adds
/// nothing, and any other is the next thing that the edge may read.
pub proof fn lemma_met_step(edge: Edge, k: int)
    requires
        0 <= k < edge.symbol.len(),
    ensures
        0 <= met(edge.symbol, k) <= met(edge.symbol, k + 1) <= labels(edge).len(),
        edge.symbol.take(k).contains(edge.symbol[k]) ==> met(edge.symbol, k + 1) == met(
            edge.symbol,
            k,
        ),
        !edge.symbol.take(k).contains(edge.symbol[k]) ==> met(edge.symbol, k + 1) == met(
            edge.symbol,
            k,
        ) + 1 && labels(edge)[met(edge.symbol, k)] == seq![edge.symbol[k]],
{
    let symbol = edge.symbol;
    lemma_distinct_chars_prefix(symbol, k + 1);
    assert(symbol.take(k + 1).drop_last() =~= symbol.take(k));
    assert(symbol.take(k + 1).last() == symbol[k]);
    if !symbol.take(k).contains(symbol[k]) {
        let m = met(symbol, k);
        assert(distinct_chars(symbol.take(k + 1))[m] == symbol[k]);
        assert(distinct_chars(symbol)[m] == symbol[k]);
    }
}

/// At the ends of a symbol: nothing is met before its first character, and
/// everything that the edge may read after its last.
pub proof fn lemma_met_ends(edge: Edge)
    requires
        !edge.is_epsilon(),
    ensures
        met(edge.symbol, 0) == 0,
        met(edge.symbol, edge.symbol.len() as int) == labels(edge).len(),
{
    assert(edge.symbol.take(0) =~= Seq::<char>::empty());
    assert(edge.symbol.take(edge.symbol.len() as int) =~= edge.symbol);
}

/// The number of transition ids that `used` does not list.
pub open spec fn free_ids(used: Seq<usize>) -> nat {
    unseen((usize::MAX + 1) as nat, used).len()
}

/// An id that is put on the list is no longer free.
pub proof fn lemma_free_ids(used: Seq<usize>, id: usize)
    requires
        !used.contains(id),
    ensures
        free_ids(used.push(id)) < free_ids(used),
{
    lemma_unseen_shrinks((usize::MAX + 1) as nat, used, seq![id]);
    assert(used.push(id) =~= used + seq![id]);
}

impl Automaton {
    /// The trails that an edge into `home` closes: one for each thing that
    /// the edge may read, behind `input`, all along `path`. None where the
    /// edge leads elsewhere.
    pub open spec fn closing(home: usize, edge: Edge, path: Seq<usize>, input: Seq<char>) -> Seq<
        Trail,
    > {
        if edge.target == home {
            labels(edge).map_values(|read: Seq<char>| Trail { input: input + read, path })
        } else {
            Seq::empty()
        }
    }

    /// The trails found behind `edge`, for the things that it may read from
    /// number `k` on, in turn: those found from the edge's target with that
    /// reading added to `input`.
    pub open spec fn beyond(
        self,
        home: usize,
        edge: Edge,
        path: Seq<usize>,
        input: Seq<char>,
        k: nat,
    ) -> Seq<Trail>
        decreases free_ids(path), 1nat, labels(edge).len() - k,
    {
        if k >= labels(edge).len() {
            Seq::empty()
        } else {
            self.trails(home, edge.target, path, input + labels(edge)[k as int], 0) + self.beyond(
                home,
                edge,
                path,
                input,
                k + 1,
            )
        }
    }

    /// The trails found from state `at` through its edges from number `j` on,
    /// in the order of a depth-first search: `used` lists the ids of the
    /// transitions taken so far, and `input` is what was read along them. An
    /// edge whose id is listed is passed over. Any other is taken: it first
    /// closes a trail where it leads to `home`, and then the search goes on
    /// from its target. (No edge leaves an `at` that is no node, and so no
    /// trail is found from there.)
    pub open spec fn trails(
        self,
        home: usize,
        at: usize,
        used: Seq<usize>,
        input: Seq<char>,
        j: nat,
    ) -> Seq<Trail>
        decreases free_ids(used), 0nat, self.edges_at(at).len() - j,
    {
        let edges = self.edges_at(at);
        if j >= edges.len() {
            Seq::empty()
        } else {
            self.through(home, edges[j as int], used, input) + self.trails(
                home,
                at,
                used,
                input,
                j + 1,
            )
        }
    }

    /// The trails found through one edge.
    pub open spec fn through(
        self,
        home: usize,
        edge: Edge,
        used: Seq<usize>,
        input: Seq<char>,
    ) -> Seq<Trail>
        decreases free_ids(used), 0nat, 0nat,
    {
        if used.contains(edge.id) {
            Seq::empty()
        } else {
            proof {
                lemma_free_ids(used, edge.id);
            }
            Self::closing(home, edge, used.push(edge.id), input) + self.beyond(
                home,
                edge,
                used.push(edge.id),
                input,
                0,
            )
        }
    }

    /// The loops at `state`, filed under their inputs: every trail found from
    /// `state` back to it. Under one input they are pairwise different.
    pub open spec fn loops_at(self, state: usize) -> Map<Seq<char>, Seq<Seq<usize>>> {
        record_all(Map::empty(), self.trails(state, state, Seq::empty(), Seq::empty(), 0))
    }
}

/// Recording one list of trails and then another is recording both in a row.
pub proof fn lemma_record_all_concat(
    map: Map<Seq<char>, Seq<Seq<usize>>>,
    first: Seq<Trail>,
    second: Seq<Trail>,
)
    ensures
        record_all(map, first + second) == record_all(record_all(map, first), second),
    decreases second.len(),
{
    if second.len() == 0 {
        assert(first + second =~= first);
    } else {
        assert((first + second).drop_last() =~= first + second.drop_last());
        lemma_record_all_concat(map, first, second.drop_last());
    }
}

/// Records in `input_map` every trail found from `current` back to `start`,
/// where `current_loop` holds the ids of the transitions taken so far and
/// `current_input` what was read along them.
fn visit(
    nfa: &NFA,
    start: usize,
    current: usize,
    input_map: &mut InputMap,
    current_loop: &Vec<usize>,
    current_input: &Vec<char>,
)
    ensures
        final(input_map)@ == record_all(
            old(input_map)@,
            nfa@.trails(start, current, current_loop@, current_input@, 0),
        ),
    decreases free_ids(current_loop@),
{
    let states = nfa.states();
    if current >= states.len() {
        return;
    }
    let transitions = &states[current].transitions;
    let ghost graph = nfa@;
    let ghost used = current_loop@;
    let ghost input = current_input@;
    let ghost edges = graph.edges_at(current);
    let ghost given = input_map@;
    proof {
        use_type_invariant(nfa);
        assert(edges == edges_of(transitions@));
    }
    let mut j: usize = 0;
    while j < transitions.len()
        invariant
            graph == nfa@,
            graph.wf(),
            current < graph.nodes.len(),
            used == current_loop@,
            input == current_input@,
            edges == graph.edges_at(current),
            edges == edges_of(transitions@),
            j <= transitions.len(),
            record_all(input_map@, graph.trails(start, current, used, input, j as nat))
                == record_all(given, graph.trails(start, current, used, input, 0)),
        decreases transitions.len() - j,
    {
        let tran = &transitions[j];
        let ghost edge = edges[j as int];
        let ghost at_edge = input_map@;
        proof {
            assert(edge == tran@);
            assert(has_edge(graph.nodes, current as int, j as int));
            lemma_record_all_concat(
                at_edge,
                graph.through(start, edge, used, input),
                graph.trails(start, current, used, input, (j + 1) as nat),
            );
        }
        if !contains_id(current_loop, tran.id) {
            let mut new_loop = copy_ids(current_loop);
            new_loop.push(tran.id);
            let ghost path = new_loop@;
            let ghost closing = Automaton::closing(start, edge, path, input);
            proof {
                lemma_free_ids(used, tran.id);
            }
            if tran.next_state == start {
                if tran.symbol.is_empty() {
                    input_map.record(copy_chars(current_input), copy_ids(&new_loop));
                    proof {
                        assert(input + Seq::<char>::empty() =~= input);
                        assert(labels(edge).len() == 1);
                        assert(closing.len() == 1);
                        assert(closing.last() == Trail { input, path });
                        assert(closing.drop_last() =~= Seq::<Trail>::empty());
                        assert(record_all(at_edge, closing.drop_last()) == at_edge);
                        assert(record_all(at_edge, closing) == recorded(at_edge, input, path));
                    }
                }
                let mut k: usize = 0;
                proof {
                    assert(closing.take(0) =~= Seq::<Trail>::empty());
                    if !edge.is_epsilon() {
                        lemma_met_ends(edge);
                    }
                }
                while k < tran.symbol.len()
                    invariant
                        k <= tran.symbol.len(),
                        edge == tran@,
                        edge.target == start,
                        path == new_loop@,
                        input == current_input@,
                        closing == Automaton::closing(start, edge, path, input),
                        edge.is_epsilon() ==> input_map@ == record_all(at_edge, closing),
                        !edge.is_epsilon() ==> input_map@ == record_all(
                            at_edge,
                            closing.take(met(edge.symbol, k as int)),
                        ),
                    decreases tran.symbol.len() - k,
                {
                    proof {
                        lemma_met_step(edge, k as int);
                    }
                    if !occurs_before(&tran.symbol, k) {
                        let mut new_input = copy_chars(current_input);
                        new_input.push(tran.symbol[k]);
                        input_map.record(new_input, copy_ids(&new_loop));
                        proof {
                            let m = met(edge.symbol, k as int);
                            assert(input + seq![tran.symbol@[k as int]] =~= input.push(
                                tran.symbol@[k as int],
                            ));
                            assert(closing.take(m + 1).drop_last() =~= closing.take(m));
                            assert(closing.take(m + 1).last() == Trail { input: new_input@, path });
                        }
                    }
                    k += 1;
                }
                proof {
                    if !edge.is_epsilon() {
                        assert(closing.take(closing.len() as int) =~= closing);
                    }
                }
            }
            let ghost closed = input_map@;
            assert(closed == record_all(at_edge, closing));
            if tran.symbol.is_empty() {
                visit(nfa, start, tran.next_state, input_map, &new_loop, current_input);
                proof {
                    assert(input + labels(edge)[0] =~= input);
                    assert(graph.beyond(start, edge, path, input, 1) =~= Seq::<Trail>::empty());
                    assert(graph.beyond(start, edge, path, input, 0) =~= graph.trails(
                        start,
                        edge.target,
                        path,
                        input,
                        0,
                    ));
                }
            }
            let mut k: usize = 0;
            proof {
                if !edge.is_epsilon() {
                    lemma_met_ends(edge);
                }
            }
            while k < tran.symbol.len()
                invariant
                    k <= tran.symbol.len(),
                    graph == nfa@,
                    graph.wf(),
                    edge == tran@,
                    path == new_loop@,
                    input == current_input@,
                    free_ids(path) < free_ids(current_loop@),
                    edge.is_epsilon() ==> input_map@ == record_all(
                        closed,
                        graph.beyond(start, edge, path, input, 0),
                    ),
                    !edge.is_epsilon() ==> record_all(
                        input_map@,
                        graph.beyond(start, edge, path, input, met(edge.symbol, k as int) as nat),
                    ) == record_all(closed, graph.beyond(start, edge, path, input, 0)),
                decreases tran.symbol.len() - k,
            {
                proof {
                    lemma_met_step(edge, k as int);
                }
                if !occurs_before(&tran.symbol, k) {
                    let mut new_input = copy_chars(current_input);
                    new_input.push(tran.symbol[k]);
                    let ghost before = input_map@;
                    visit(nfa, start, tran.next_state, input_map, &new_loop, &new_input);
                    proof {
                        let m = met(edge.symbol, k as int);
                        assert(input + labels(edge)[m] =~= new_input@);
                        lemma_record_all_concat(
                            before,
                            graph.trails(start, edge.target, path, new_input@, 0),
                            graph.beyond(start, edge, path, input, (m + 1) as nat),
                        );
                    }
                }
                k += 1;
            }
            proof {
                lemma_record_all_concat(
                    at_edge,
                    closing,
                    graph.beyond(start, edge, path, input, 0),
                );
            }
        }
        j += 1;
    }
}

/// Records in `input_map` every trail found from `current` back to `start`
/// in a depth-first search that takes no transition twice on one path, where
/// `current_loop` holds the ids of the transitions taken so far and
/// `current_input` what was read along them. Returns a copy of the map.
/// Nothing is found from a `current` that names no state. A transition reads
/// each character of its symbol once, however often the symbol lists it, so
/// that no way back is filed twice: into an empty map the search files,
/// under each input, pairwise different paths.
pub fn find_loops(
    nfa: &NFA,
    start: usize,
    current: usize,
    input_map: &mut InputMap,
    current_loop: Vec<usize>,
    current_input: Vec<char>,
) -> (found: InputMap)
    ensures
        final(input_map)@ == record_all(
            old(input_map)@,
            nfa@.trails(start, current, current_loop@, current_input@, 0),
        ),
        found@ == final(input_map)@,
        old(input_map)@ == Map::<Seq<char>, Seq<Seq<usize>>>::empty() ==> forall|read: Seq<char>|
            #![trigger final(input_map)@.contains_key(read)]
            final(input_map)@.contains_key(read) ==> final(input_map)@[read].no_duplicates(),
{
    visit(nfa, start, current, input_map, &current_loop, &current_input);
    proof {
        use_type_invariant(nfa);
        assert forall|read: Seq<char>|
            old(input_map)@ == Map::<Seq<char>, Seq<Seq<usize>>>::empty()
                && #[trigger] input_map@.contains_key(
                read,
            ) implies input_map@[read].no_duplicates() by {
            found_paths_differ(nfa@, start, current, current_loop@, current_input@, read);
        }
    }
    input_map.clone()
}

} // verus!
