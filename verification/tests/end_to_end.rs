use regex_nfa::nfa::NFA;
use regex_nfa::regex_ast::RegexAst;
use regex_nfa::thompson::create_nfa;

fn lit(c: char) -> RegexAst {
    RegexAst::Literal(c)
}

fn cat(first: RegexAst, second: RegexAst) -> RegexAst {
    RegexAst::Concat(Box::new(first), Box::new(second))
}

fn or(left: RegexAst, right: RegexAst) -> RegexAst {
    RegexAst::Or(Box::new(left), Box::new(right))
}

fn star(body: RegexAst) -> RegexAst {
    RegexAst::Star(Box::new(body))
}

/// `r+`: one `r`, then any number of them.
fn plus(body: RegexAst) -> RegexAst {
    cat(body.clone(), star(body))
}

/// `r?`: `r` or nothing.
fn opt(body: RegexAst) -> RegexAst {
    or(body, RegexAst::Epsilon)
}

fn range(from: char, to: char) -> Vec<char> {
    (from..=to).collect()
}

/// The tree that each pattern of the table below is written for.
fn tree(pattern: &str) -> RegexAst {
    match pattern {
        "a" => lit('a'),
        "a|b" => or(lit('a'), lit('b')),
        "a*" => star(lit('a')),
        "a*|b" => or(star(lit('a')), lit('b')),
        "(ab)*" => star(cat(lit('a'), lit('b'))),
        "(ab)+" => plus(cat(lit('a'), lit('b'))),
        "a?" => opt(lit('a')),
        "(a*b?)+" => plus(cat(star(lit('a')), opt(lit('b')))),
        "[a-v]" => RegexAst::CharClass(false, range('a', 'v')),
        "[^a-cA-C]" => {
            let mut chars = range('a', 'c');
            chars.extend(range('A', 'C'));
            RegexAst::CharClass(true, chars)
        }
        "ab.+c" => cat(cat(cat(lit('a'), lit('b')), plus(RegexAst::Any)), lit('c')),
        _ => panic!("no tree for {}", pattern),
    }
}

fn nfa_from_string(string: &str) -> NFA {
    create_nfa(&tree(string))
}

fn fill_nfas() -> Vec<(String, NFA, Vec<(String, bool)>)> {
    let mut nfas: Vec<(String, NFA, Vec<(String, bool)>)> = Vec::new();

    let re = "a".to_string();
    let nfa = nfa_from_string(&re);
    let strings = vec![
        ("a".to_string(), true),
        ("b".to_string(), false),
        ("aa".to_string(), false),
    ];
    nfas.push((re, nfa, strings));

    let re = "a|b".to_string();
    let nfa = nfa_from_string(&re);
    let strings = vec![
        ("a".to_string(), true),
        ("b".to_string(), true),
        ("c".to_string(), false),
        ("ab".to_string(), false),
    ];
    nfas.push((re, nfa, strings));

    let re = "a*".to_string();
    let nfa = nfa_from_string(&re);
    let strings = vec![
        ("a".to_string(), true),
        ("aa".to_string(), true),
        ("b".to_string(), false),
        ("ab".to_string(), false),
    ];
    nfas.push((re, nfa, strings));

    let re = "a*|b".to_string();
    let nfa = nfa_from_string(&re);
    let strings = vec![
        ("a".to_string(), true),
        ("aa".to_string(), true),
        ("b".to_string(), true),
        ("ab".to_string(), false),
    ];
    nfas.push((re, nfa, strings));

    let re = "(ab)*".to_string();
    let nfa = nfa_from_string(&re);
    let strings = vec![
        ("ab".to_string(), true),
        ("abab".to_string(), true),
        ("a".to_string(), false),
        ("b".to_string(), false),
        ("".to_string(), true),
    ];
    nfas.push((re, nfa, strings));

    let re = "(ab)+".to_string();
    let nfa = nfa_from_string(&re);
    let strings = vec![
        ("ab".to_string(), true),
        ("abab".to_string(), true),
        ("a".to_string(), false),
        ("b".to_string(), false),
        ("".to_string(), false),
    ];
    nfas.push((re, nfa, strings));

    let re = "a?".to_string();
    let nfa = nfa_from_string(&re);
    let strings = vec![
        ("a".to_string(), true),
        ("".to_string(), true),
        ("aa".to_string(), false),
    ];
    nfas.push((re, nfa, strings));

    let re = "(a*b?)+".to_string();
    let nfa = nfa_from_string(&re);
    let strings = vec![
        ("a".to_string(), true),
        ("b".to_string(), true),
        ("ab".to_string(), true),
        ("ba".to_string(), true),
        ("aa".to_string(), true),
        ("bb".to_string(), true),
        ("aba".to_string(), true),
        ("bab".to_string(), true),
        ("a".to_string(), true),
        ("b".to_string(), true),
        ("".to_string(), true),
    ];
    nfas.push((re, nfa, strings));

    // This one is built and not run: the table does not take it up.
    let re = "[a-v]".to_string();
    let _nfa = nfa_from_string(&re);
    let _strings = vec![
        ("a".to_string(), true),
        ("b".to_string(), true),
        ("v".to_string(), true),
        ("w".to_string(), false),
        ("z".to_string(), false),
    ];

    let re = "[^a-cA-C]".to_string();
    let nfa = nfa_from_string(&re);
    let strings = vec![
        ("a".to_string(), false),
        ("b".to_string(), false),
        ("c".to_string(), false),
        ("A".to_string(), false),
        ("B".to_string(), false),
        ("C".to_string(), false),
        ("d".to_string(), true),
        ("e".to_string(), true),
        ("f".to_string(), true),
        ("D".to_string(), true),
        ("E".to_string(), true),
        ("F".to_string(), true),
    ];
    nfas.push((re, nfa, strings));

    let re = "ab.+c".to_string();
    let nfa = nfa_from_string(&re);
    let strings = vec![
        ("abbbc".to_string(), true),
        ("abbc".to_string(), true),
        ("abalskjdcc".to_string(), true),
        ("abcalksjdcc".to_string(), true),
        ("ablkjlkj".to_string(), false),
        ("ac".to_string(), false),
        ("abc".to_string(), false),
    ];
    nfas.push((re, nfa, strings));

    nfas
}

#[test]
pub fn test_regex_parser() {
    let examples = fill_nfas();
    for (pattern, nfa, strings) in examples {
        for (string, expected) in strings {
            assert_eq!(
                nfa.run(&string),
                expected,
                "Regex: {}, String: {}, Expected: {}",
                pattern,
                string,
                expected
            );
        }
    }
}

#[test]
fn character_range_accepts_its_members_only() {
    let nfa = nfa_from_string("[a-v]");
    for (string, expected) in [("a", true), ("b", true), ("v", true), ("w", false), ("z", false)] {
        assert_eq!(nfa.run(string), expected, "String: {}", string);
    }
}
