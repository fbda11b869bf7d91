use regex_nfa::nfa::{State, NFA};
use regex_nfa::lists::{
    contains_char, contains_id, copy_chars, copy_ids, occurs_before, same_chars,
};
use regex_nfa::regex_ast::{complement, RegexAst};
use regex_nfa::thompson::create_nfa;

fn lit(c: char) -> RegexAst {
    RegexAst::Literal(c)
}

fn cat(first: RegexAst, second: RegexAst) -> RegexAst {
    RegexAst::Concat(Box::new(first), Box::new(second))
}

fn or(left: RegexAst, right: RegexAst) -> RegexAst {
    RegexAst::Or(Box::new(left), Box::new(right))
}

fn star(body: RegexAst) -> RegexAst {
    RegexAst::Star(Box::new(body))
}

#[test]
fn literal_accepts_its_character_only() {
    for c in ['a', 'z', 'Q', '0', ' ', 'é'] {
        let nfa = create_nfa(&lit(c));
        assert!(nfa.run(&c.to_string()));
        for other in ['a', 'b', 'z', 'Q', 'R', '0', '1', ' ', 'é', 'è'] {
            assert_eq!(nfa.run(&other.to_string()), other == c, "{} on {}", c, other);
        }
        assert!(!nfa.run(""));
        assert!(!nfa.run(&format!("{}{}", c, c)));
    }
}

#[test]
fn concat_reads_one_then_the_other() {
    let nfa = create_nfa(&cat(lit('a'), lit('b')));
    assert!(nfa.run("ab"));
    assert!(!nfa.run("a"));
    assert!(!nfa.run("ba"));
    assert!(!nfa.run(""));
    assert!(!nfa.run("abb"));
}

#[test]
fn star_repeats_any_number_of_times() {
    let nfa = create_nfa(&star(lit('a')));
    assert!(nfa.run(""));
    assert!(nfa.run("a"));
    assert!(nfa.run("aaa"));
    assert!(!nfa.run("b"));
    assert!(!nfa.run("aab"));
}

#[test]
fn or_takes_either_branch() {
    let nfa = create_nfa(&or(lit('a'), lit('b')));
    assert!(nfa.run("a"));
    assert!(nfa.run("b"));
    assert!(!nfa.run("ab"));
    assert!(!nfa.run(""));
}

#[test]
fn complemented_class_is_case_sensitive() {
    let nfa = create_nfa(&RegexAst::CharClass(true, vec!['a', 'b', 'c', 'A', 'B', 'C']));
    assert!(nfa.run("d"));
    assert!(nfa.run("D"));
    assert!(!nfa.run("a"));
    assert!(!nfa.run("A"));
    assert!(!nfa.run("dd"));
    assert!(!nfa.run(""));
}

#[test]
fn complemented_class_stays_inside_the_alphabet() {
    let nfa = create_nfa(&RegexAst::CharClass(true, vec!['a']));
    assert!(nfa.run("b"));
    assert!(!nfa.run("1"));
    assert!(!nfa.run("-"));
}

#[test]
fn plain_class_accepts_what_it_lists() {
    let nfa = create_nfa(&RegexAst::CharClass(false, vec!['x', '7']));
    assert!(nfa.run("x"));
    assert!(nfa.run("7"));
    assert!(!nfa.run("y"));
}

#[test]
fn class_without_characters_is_a_move_without_input() {
    let nfa = create_nfa(&RegexAst::CharClass(false, vec![]));
    assert!(nfa.run(""));
    assert!(!nfa.run("a"));
    let everything: Vec<char> = RegexAst::alphabet();
    let nfa = create_nfa(&RegexAst::CharClass(true, everything));
    assert!(nfa.run(""));
    assert!(!nfa.run("a"));
    assert!(!nfa.run("1"));
}

#[test]
fn any_accepts_one_letter() {
    let nfa = create_nfa(&RegexAst::Any);
    assert!(nfa.run("a"));
    assert!(nfa.run("Z"));
    assert!(!nfa.run("1"));
    assert!(!nfa.run(""));
    assert!(!nfa.run("ab"));
}

#[test]
fn epsilon_accepts_the_empty_input_only() {
    let nfa = create_nfa(&RegexAst::Epsilon);
    assert!(nfa.run(""));
    assert!(!nfa.run("a"));
}

#[test]
fn repeated_runs_agree() {
    let nfa = create_nfa(&cat(star(or(lit('a'), lit('b'))), lit('c')));
    for input in ["", "c", "abc", "abab", "bbac", "cc"] {
        let first = nfa.run(input);
        for _ in 0..5 {
            assert_eq!(nfa.run(input), first);
        }
    }
    let copy = nfa.clone();
    for input in ["", "c", "abc", "abab", "bbac", "cc"] {
        assert_eq!(copy.run(input), nfa.run(input));
    }
}

fn shared_between_threads<T: Send + Sync>() {}

#[test]
fn an_automaton_can_be_shared_between_threads() {
    shared_between_threads::<NFA>();
    shared_between_threads::<RegexAst>();
}

#[test]
fn the_alphabet_is_the_latin_letters() {
    let letters = RegexAst::alphabet();
    let expected: Vec<char> = ('a'..='z').chain('A'..='Z').collect();
    assert_eq!(letters, expected);
    assert_eq!(letters.len(), 52);
}

#[test]
fn complement_keeps_the_order_of_the_alphabet() {
    let rest = complement(&vec!['a', 'b', 'c', 'd', 'b'], &vec!['d', 'a', 'x']);
    assert_eq!(rest, vec!['b', 'c', 'b']);
    assert_eq!(complement(&vec![], &vec!['a']), Vec::<char>::new());
    assert_eq!(complement(&vec!['a'], &vec![]), vec!['a']);
}

#[test]
fn contains_char_finds_listed_characters() {
    assert!(contains_char(&vec!['a', 'b'], 'b'));
    assert!(!contains_char(&vec!['a', 'b'], 'c'));
    assert!(!contains_char(&vec![], 'a'));
}

#[test]
fn contains_id_finds_listed_ids() {
    assert!(contains_id(&vec![3, 1, 2], 2));
    assert!(!contains_id(&vec![3, 1, 2], 0));
    assert!(!contains_id(&vec![], 0));
}

#[test]
fn occurs_before_looks_at_earlier_places_only() {
    let chars = vec!['a', 'b', 'a', 'c', 'b'];
    assert!(!occurs_before(&chars, 0));
    assert!(!occurs_before(&chars, 1));
    assert!(occurs_before(&chars, 2));
    assert!(!occurs_before(&chars, 3));
    assert!(occurs_before(&chars, 4));
    assert!(!occurs_before(&chars, 5));
    assert!(!occurs_before(&vec![], 0));
}

#[test]
fn same_chars_compares_length_and_content() {
    assert!(same_chars(&vec![], &vec![]));
    assert!(same_chars(&vec!['a', 'b'], &vec!['a', 'b']));
    assert!(!same_chars(&vec!['a', 'b'], &vec!['a']));
    assert!(!same_chars(&vec!['a', 'b'], &vec!['a', 'c']));
    assert!(!same_chars(&vec!['a', 'b'], &vec!['b', 'a']));
}

#[test]
fn copies_hold_the_same_items() {
    assert_eq!(copy_chars(&vec!['x', 'y', 'x']), vec!['x', 'y', 'x']);
    assert_eq!(copy_chars(&vec![]), Vec::<char>::new());
    assert_eq!(copy_ids(&vec![4, 0, 4]), vec![4, 0, 4]);
    assert_eq!(copy_ids(&vec![]), Vec::<usize>::new());
}

#[test]
fn literal_is_built_as_three_states_in_a_row() {
    let nfa = create_nfa(&lit('k'));
    let states = nfa.states();
    assert_eq!(nfa.start(), 0);
    assert_eq!(states.len(), 3);
    for (place, state) in states.iter().enumerate() {
        assert_eq!(state.id, place);
    }
    assert_eq!(states[0].transitions.len(), 1);
    assert_eq!(states[0].transitions[0].id, 0);
    assert_eq!(states[0].transitions[0].symbol, Vec::<char>::new());
    assert_eq!(states[0].transitions[0].next_state, 1);
    assert_eq!(states[1].transitions.len(), 1);
    assert_eq!(states[1].transitions[0].id, 1);
    assert_eq!(states[1].transitions[0].symbol, vec!['k']);
    assert_eq!(states[1].transitions[0].next_state, 2);
    assert!(states[2].transitions.is_empty());
    assert_eq!(states.iter().map(|s| s.accepting).collect::<Vec<_>>(), vec![false, false, true]);
}

#[test]
fn star_is_wired_with_skip_and_repeat_edges() {
    let nfa = create_nfa(&star(RegexAst::Epsilon));
    let states = nfa.states();
    // 0: entry, 1: exit, 2 and 3: the body's entry and exit.
    assert_eq!(states.len(), 4);
    let edges: Vec<Vec<(usize, usize)>> = states
        .iter()
        .map(|s| s.transitions.iter().map(|t| (t.id, t.next_state)).collect())
        .collect();
    assert_eq!(
        edges,
        vec![vec![(1, 2)], vec![], vec![(0, 3), (2, 3)], vec![(3, 2), (4, 1)]]
    );
    assert!(states.iter().all(|s| s.transitions.iter().all(|t| t.symbol.is_empty())));
}

#[test]
fn concat_and_or_join_their_parts_without_input() {
    let nfa = create_nfa(&cat(RegexAst::Epsilon, RegexAst::Epsilon));
    let edges: Vec<Vec<(usize, usize)>> = nfa
        .states()
        .iter()
        .map(|s| s.transitions.iter().map(|t| (t.id, t.next_state)).collect())
        .collect();
    assert_eq!(
        edges,
        vec![vec![(2, 2)], vec![], vec![(0, 3)], vec![(3, 4)], vec![(1, 5)], vec![(4, 1)]]
    );
    let nfa = create_nfa(&or(RegexAst::Epsilon, RegexAst::Epsilon));
    let edges: Vec<Vec<(usize, usize)>> = nfa
        .states()
        .iter()
        .map(|s| s.transitions.iter().map(|t| (t.id, t.next_state)).collect())
        .collect();
    assert_eq!(
        edges,
        vec![vec![(2, 2), (3, 4)], vec![], vec![(0, 3)], vec![(4, 1)], vec![(1, 5)], vec![(5, 1)]]
    );
}

#[test]
fn exactly_one_state_accepts_after_construction() {
    let trees = [
        RegexAst::Epsilon,
        RegexAst::Any,
        lit('a'),
        cat(lit('a'), star(lit('b'))),
        or(star(cat(lit('a'), lit('b'))), RegexAst::CharClass(true, vec!['q'])),
    ];
    for tree in trees {
        let nfa = create_nfa(&tree);
        assert_eq!(nfa.states().iter().filter(|s| s.accepting).count(), 1);
        let ids: Vec<usize> = nfa
            .states()
            .iter()
            .flat_map(|s| s.transitions.iter().map(|t| t.id))
            .collect();
        let mut sorted = ids.clone();
        sorted.sort();
        sorted.dedup();
        assert_eq!(sorted.len(), ids.len());
        assert_eq!(sorted, (0..ids.len()).collect::<Vec<_>>());
    }
}

#[test]
fn cloned_tree_builds_the_same_automaton() {
    let tree = or(star(cat(lit('a'), lit('b'))), RegexAst::CharClass(true, vec!['q']));
    assert_eq!(create_nfa(&tree.clone()), create_nfa(&tree));
}

fn state(id: usize, accepting: bool, transitions: &[(usize, &str, usize)]) -> State {
    let mut state = State::new(id, accepting);
    for (tid, symbol, next) in transitions {
        state.add_transition(*tid, symbol.chars().collect(), *next);
    }
    state
}

#[test]
fn state_new_and_add_transition_fill_the_fields() {
    let mut made = State::new(7, true);
    assert_eq!(made.id, 7);
    assert!(made.accepting);
    assert!(made.transitions.is_empty());
    made.add_transition(3, vec!['x', 'y'], 9);
    made.add_transition(4, vec![], 7);
    assert_eq!(made.transitions.len(), 2);
    assert_eq!(made.transitions[0].id, 3);
    assert_eq!(made.transitions[0].symbol, vec!['x', 'y']);
    assert_eq!(made.transitions[0].next_state, 9);
    assert_eq!(made.transitions[1].id, 4);
    assert_eq!(made.transitions[1].symbol, Vec::<char>::new());
    assert_eq!(made.transitions[1].next_state, 7);
    assert!(!State::new(0, false).accepting);
}

#[test]
fn nfa_new_takes_a_well_formed_graph() {
    let states = vec![state(0, false, &[(0, "a", 1)]), state(1, true, &[(1, "", 0)])];
    let nfa = NFA::new(states.clone(), 0).expect("well formed");
    assert_eq!(nfa.start(), 0);
    assert_eq!(nfa.states(), &states);
    assert!(nfa.run("a"));
    assert!(nfa.run("aa"));
    assert!(!nfa.run(""));
    let nfa = NFA::new(states, 1).expect("well formed");
    assert_eq!(nfa.start(), 1);
    assert!(nfa.run(""));
    assert!(nfa.run("a"));
}

#[test]
fn nfa_new_refuses_a_start_that_is_no_state() {
    assert!(NFA::new(vec![state(0, true, &[])], 1).is_none());
    assert!(NFA::new(vec![], 0).is_none());
}

#[test]
fn nfa_new_refuses_an_id_that_is_not_the_place() {
    assert!(NFA::new(vec![state(1, true, &[])], 0).is_none());
    assert!(NFA::new(vec![state(0, true, &[]), state(0, true, &[])], 0).is_none());
}

#[test]
fn nfa_new_refuses_a_transition_to_no_state() {
    assert!(NFA::new(vec![state(0, true, &[(0, "a", 1)])], 0).is_none());
}

#[test]
fn nfa_new_refuses_a_transition_id_used_twice() {
    assert!(NFA::new(vec![state(0, true, &[(5, "a", 0), (5, "b", 0)])], 0).is_none());
    let states = vec![state(0, false, &[(0, "a", 1)]), state(1, true, &[(0, "", 0)])];
    assert!(NFA::new(states, 0).is_none());
}

#[test]
fn epsilon_closure_adds_what_is_reached_without_input() {
    // 0 -e-> 1 -e-> 2 -a-> 3 -e-> 0, and 1 -e-> 0.
    let states = vec![
        state(0, false, &[(0, "", 1)]),
        state(1, false, &[(1, "", 2), (2, "", 0)]),
        state(2, false, &[(3, "a", 3)]),
        state(3, true, &[(4, "", 0)]),
    ];
    let nfa = NFA::new(states, 0).unwrap();
    let mut current = vec![0];
    nfa.epsilon_closure(&mut current);
    assert_eq!(current, vec![0, 1, 2]);
    let mut current = vec![2];
    nfa.epsilon_closure(&mut current);
    assert_eq!(current, vec![2]);
    let mut current = vec![3, 3];
    nfa.epsilon_closure(&mut current);
    assert_eq!(current, vec![3, 3, 0, 1, 2]);
    let mut current: Vec<usize> = vec![];
    nfa.epsilon_closure(&mut current);
    assert!(current.is_empty());
}

#[test]
fn an_id_that_names_no_state_has_no_transitions() {
    let nfa = NFA::new(vec![state(0, true, &[(0, "", 0), (1, "a", 0)])], 0).unwrap();
    let mut current = vec![7, 0];
    nfa.epsilon_closure(&mut current);
    assert_eq!(current, vec![7, 0]);
    nfa.step(&mut current, 'a');
    assert_eq!(current, vec![0]);
    let mut current = vec![7];
    nfa.step(&mut current, 'a');
    assert!(current.is_empty());
}

#[test]
fn epsilon_closure_leaves_a_closed_set_as_it_is() {
    let nfa = create_nfa(&cat(star(or(lit('a'), lit('b'))), lit('c')));
    for start in 0..nfa.states().len() {
        let mut once = vec![start];
        nfa.epsilon_closure(&mut once);
        let mut twice = once.clone();
        nfa.epsilon_closure(&mut twice);
        assert_eq!(twice, once);
    }
}

#[test]
fn step_follows_the_transitions_that_list_the_character() {
    let states = vec![
        state(0, false, &[(0, "ab", 1), (1, "b", 2), (2, "", 2), (3, "ba", 0)]),
        state(1, false, &[(4, "a", 2)]),
        state(2, true, &[]),
    ];
    let nfa = NFA::new(states, 0).unwrap();
    let mut current = vec![0, 1, 0];
    nfa.step(&mut current, 'a');
    assert_eq!(current, vec![1, 0, 2, 1, 0]);
    let mut current = vec![0, 1];
    nfa.step(&mut current, 'b');
    assert_eq!(current, vec![1, 2, 0]);
    let mut current = vec![0, 1, 2];
    nfa.step(&mut current, 'c');
    assert!(current.is_empty());
    let mut current = vec![2];
    nfa.step(&mut current, 'a');
    assert!(current.is_empty());
}
