use regex_nfa::ambiguity::{check_ambig, Ambiguity};
use regex_nfa::loops::{find_loops, InputLoops, InputMap};
use regex_nfa::nfa::{State, NFA};
use regex_nfa::regex_ast::RegexAst;
use regex_nfa::thompson::create_nfa;

fn state(id: usize, accepting: bool, transitions: &[(usize, &str, usize)]) -> State {
    let mut state = State::new(id, accepting);
    for (tid, symbol, next) in transitions {
        state.add_transition(*tid, symbol.chars().collect(), *next);
    }
    state
}

fn chars(text: &str) -> Vec<char> {
    text.chars().collect()
}

fn entry(input: &str, loops: &[&[usize]]) -> InputLoops {
    InputLoops { input: chars(input), loops: loops.iter().map(|l| l.to_vec()).collect() }
}

fn star(body: RegexAst) -> RegexAst {
    RegexAst::Star(Box::new(body))
}

fn or(left: RegexAst, right: RegexAst) -> RegexAst {
    RegexAst::Or(Box::new(left), Box::new(right))
}

/// One state with two transitions on `b` back to itself.
fn twin_loops() -> NFA {
    NFA::new(vec![state(0, true, &[(0, "b", 0), (1, "b", 0)])], 0).unwrap()
}

#[test]
fn get_states_lists_what_the_start_reaches() {
    // 3 is not reached from 0.
    let states = vec![
        state(0, false, &[(0, "a", 2), (1, "", 1), (2, "b", 2)]),
        state(1, false, &[(3, "", 0)]),
        state(2, true, &[(4, "c", 1)]),
        state(3, false, &[(5, "", 0)]),
    ];
    let nfa = NFA::new(states.clone(), 0).unwrap();
    assert_eq!(nfa.get_states(), vec![0, 2, 1]);
    let nfa = NFA::new(states, 3).unwrap();
    assert_eq!(nfa.get_states(), vec![3, 0, 2, 1]);
}

#[test]
fn get_states_of_a_built_automaton_are_all_its_states() {
    let nfa = create_nfa(&star(or(RegexAst::Literal('a'), RegexAst::Any)));
    let mut reached = nfa.get_states();
    assert_eq!(reached[0], nfa.start());
    reached.sort();
    assert_eq!(reached, (0..nfa.states().len()).collect::<Vec<_>>());
}

#[test]
fn input_map_files_loops_under_their_inputs() {
    let mut map = InputMap::new();
    assert!(map.entries().is_empty());
    assert!(map.get(&chars("a")).is_none());
    map.record(chars("a"), vec![1, 2]);
    map.record(chars(""), vec![3]);
    map.record(chars("a"), vec![4]);
    assert_eq!(map.get(&chars("a")), Some(&vec![vec![1, 2], vec![4]]));
    assert_eq!(map.get(&chars("")), Some(&vec![vec![3]]));
    assert!(map.get(&chars("b")).is_none());
    assert_eq!(map.entries(), &vec![entry("a", &[&[1, 2], &[4]]), entry("", &[&[3]])]);
    let copy = map.clone();
    assert_eq!(copy, map);
    map.record(chars("b"), vec![]);
    assert_eq!(copy.entries().len(), 2);
    assert_eq!(map.entries().len(), 3);
}

#[test]
fn find_loops_records_each_way_back_once() {
    let nfa = twin_loops();
    let mut map = InputMap::new();
    let found = find_loops(&nfa, 0, 0, &mut map, Vec::new(), Vec::new());
    assert_eq!(found, map);
    assert_eq!(
        map.entries(),
        &vec![entry("b", &[&[0], &[1]]), entry("bb", &[&[0, 1], &[1, 0]])]
    );
}

#[test]
fn find_loops_adds_to_what_the_map_holds() {
    let nfa = twin_loops();
    let mut map = InputMap::new();
    map.record(chars("xb"), vec![9]);
    map.record(chars("q"), vec![8]);
    // Transition 0 counts as taken, and `x` as read.
    find_loops(&nfa, 0, 0, &mut map, vec![0], chars("x"));
    assert_eq!(map.entries(), &vec![entry("xb", &[&[9], &[0, 1]]), entry("q", &[&[8]])]);
}

#[test]
fn find_loops_branches_on_each_symbol_and_follows_epsilon() {
    // 0 -{xy}-> 1 -e-> 0, and 1 -{z}-> 1.
    let states = vec![
        state(0, false, &[(0, "xy", 1)]),
        state(1, true, &[(1, "", 0), (2, "z", 1)]),
    ];
    let nfa = NFA::new(states, 0).unwrap();
    let mut map = InputMap::new();
    find_loops(&nfa, 0, 0, &mut map, Vec::new(), Vec::new());
    assert_eq!(
        map.entries(),
        &vec![
            entry("x", &[&[0, 1]]),
            entry("xz", &[&[0, 2, 1]]),
            entry("y", &[&[0, 1]]),
            entry("yz", &[&[0, 2, 1]]),
        ]
    );
    let mut map = InputMap::new();
    find_loops(&nfa, 1, 1, &mut map, Vec::new(), Vec::new());
    assert_eq!(
        map.entries(),
        &vec![
            entry("x", &[&[1, 0]]),
            entry("y", &[&[1, 0]]),
            entry("xz", &[&[1, 0, 2]]),
            entry("yz", &[&[1, 0, 2]]),
            entry("z", &[&[2]]),
            entry("zx", &[&[2, 1, 0]]),
            entry("zy", &[&[2, 1, 0]]),
        ]
    );
}

#[test]
fn find_loops_finds_nothing_from_an_id_that_names_no_state() {
    let nfa = twin_loops();
    let mut map = InputMap::new();
    map.record(chars("q"), vec![8]);
    let found = find_loops(&nfa, 0, 5, &mut map, Vec::new(), Vec::new());
    assert_eq!(found.entries(), &vec![entry("q", &[&[8]])]);
    assert_eq!(map.entries(), &vec![entry("q", &[&[8]])]);
    // A home that names no state is never come back to.
    let mut map = InputMap::new();
    find_loops(&nfa, 5, 0, &mut map, Vec::new(), Vec::new());
    assert!(map.entries().is_empty());
}

#[test]
fn find_loops_goes_on_past_a_return() {
    // 0 -a-> 0 and 0 -b-> 1 -c-> 0.
    let states = vec![state(0, true, &[(0, "a", 0), (1, "b", 1)]), state(1, false, &[(2, "c", 0)])];
    let nfa = NFA::new(states, 0).unwrap();
    let mut map = InputMap::new();
    find_loops(&nfa, 0, 0, &mut map, Vec::new(), Vec::new());
    assert_eq!(
        map.entries(),
        &vec![
            entry("a", &[&[0]]),
            entry("abc", &[&[0, 1, 2]]),
            entry("bc", &[&[1, 2]]),
            entry("bca", &[&[1, 2, 0]]),
        ]
    );
}

#[test]
fn all_loops_covers_the_reachable_states() {
    let states = vec![
        state(0, false, &[(0, "a", 1)]),
        state(1, true, &[(1, "b", 0)]),
        state(2, false, &[(2, "c", 2)]),
    ];
    let nfa = NFA::new(states, 0).unwrap();
    let loops = nfa.all_loops();
    let mut keys: Vec<usize> = loops.keys().copied().collect();
    keys.sort();
    assert_eq!(keys, vec![0, 1]);
    assert_eq!(loops[&0].entries(), &vec![entry("ab", &[&[0, 1]])]);
    assert_eq!(loops[&1].entries(), &vec![entry("ba", &[&[1, 0]])]);
}

#[test]
fn twin_loops_are_reported_as_ambiguous() {
    let nfa = twin_loops();
    let loops = nfa.all_loops();
    assert!(loops[&0].get(&chars("b")).unwrap().len() >= 2);
    assert_eq!(
        nfa.find_ambiguity(),
        vec![
            Ambiguity { state: 0, input: chars("b"), loops: 2 },
            Ambiguity { state: 0, input: chars("bb"), loops: 2 },
        ]
    );
    assert!(check_ambig(&nfa));
}

#[test]
fn twin_loops_without_input_are_reported_under_the_empty_input() {
    let nfa = NFA::new(vec![state(0, true, &[(0, "", 0), (1, "", 0)])], 0).unwrap();
    assert_eq!(
        nfa.find_ambiguity(),
        vec![Ambiguity { state: 0, input: chars(""), loops: 4 }]
    );
}

#[test]
fn twin_loops_out_of_reach_are_not_reported() {
    let states = vec![state(0, true, &[]), state(1, false, &[(0, "b", 1), (1, "b", 1)])];
    let nfa = NFA::new(states, 0).unwrap();
    assert!(nfa.find_ambiguity().is_empty());
    assert!(!check_ambig(&nfa));
}

#[test]
fn a_character_listed_twice_counts_once() {
    // One transition back to the state, whose symbol lists `a` twice.
    let nfa = NFA::new(vec![state(0, true, &[(0, "aa", 0)])], 0).unwrap();
    let mut map = InputMap::new();
    find_loops(&nfa, 0, 0, &mut map, Vec::new(), Vec::new());
    assert_eq!(map.entries(), &vec![entry("a", &[&[0]])]);
    assert_eq!(nfa.all_loops()[&0].entries(), &vec![entry("a", &[&[0]])]);
    assert!(nfa.find_ambiguity().is_empty());
    assert!(!check_ambig(&nfa));
    assert!(nfa.run("aaa"));
}

#[test]
fn characters_of_a_symbol_are_read_in_the_order_they_come_first() {
    // 0 -{abab}-> 1 -{ba}-> 0.
    let states = vec![state(0, false, &[(0, "abab", 1)]), state(1, true, &[(1, "bba", 0)])];
    let nfa = NFA::new(states, 0).unwrap();
    let mut map = InputMap::new();
    find_loops(&nfa, 0, 0, &mut map, Vec::new(), Vec::new());
    assert_eq!(
        map.entries(),
        &vec![
            entry("ab", &[&[0, 1]]),
            entry("aa", &[&[0, 1]]),
            entry("bb", &[&[0, 1]]),
            entry("ba", &[&[0, 1]]),
        ]
    );
    assert!(nfa.find_ambiguity().is_empty());
}

#[test]
fn a_repeated_class_with_a_character_listed_twice_is_not_ambiguous() {
    let nfa = create_nfa(&star(RegexAst::CharClass(false, vec!['a', 'a'])));
    assert!(nfa.run(""));
    assert!(nfa.run("aa"));
    assert!(!nfa.run("b"));
    assert!(nfa.find_ambiguity().is_empty());
    assert!(!check_ambig(&nfa));
    for (_, loops) in nfa.all_loops() {
        for filed in loops.entries() {
            let mut paths = filed.loops.clone();
            paths.sort();
            paths.dedup();
            assert_eq!(paths.len(), filed.loops.len());
        }
    }
}

#[test]
fn filed_loops_are_pairwise_different() {
    let trees = [
        star(or(RegexAst::Literal('b'), RegexAst::Literal('b'))),
        star(or(RegexAst::CharClass(false, vec!['a', 'b', 'a']), RegexAst::Any)),
        star(star(RegexAst::Literal('a'))),
    ];
    for tree in trees {
        let nfa = create_nfa(&tree);
        for (_, loops) in nfa.all_loops() {
            for filed in loops.entries() {
                let mut paths = filed.loops.clone();
                paths.sort();
                paths.dedup();
                assert_eq!(paths.len(), filed.loops.len());
            }
        }
    }
}

#[test]
fn a_single_loop_is_not_ambiguous() {
    let nfa = create_nfa(&star(RegexAst::Literal('a')));
    assert!(nfa.find_ambiguity().is_empty());
    assert!(!check_ambig(&nfa));
    assert!(!check_ambig(&create_nfa(&RegexAst::Literal('a'))));
}

#[test]
fn a_repeated_choice_between_equals_is_ambiguous() {
    let nfa = create_nfa(&star(or(RegexAst::Literal('b'), RegexAst::Literal('b'))));
    assert!(check_ambig(&nfa));
    let report = nfa.find_ambiguity();
    assert!(report.iter().any(|f| f.input == chars("b") && f.loops == 2));
    assert!(report.iter().all(|f| f.loops >= 2));
    let loops = nfa.all_loops();
    for finding in &report {
        assert_eq!(loops[&finding.state].get(&finding.input).unwrap().len(), finding.loops);
    }
}
