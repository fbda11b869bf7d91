//! Regular expressions as nondeterministic finite automata.
//!
//! A syntax tree ([`regex_ast::RegexAst`]) is compiled into an automaton
//! ([`nfa::NFA`]) by Thompson's construction ([`thompson::create_nfa`]). The
//! automaton is then run on whole input strings ([`nfa::NFA::run`]), or
//! searched for states to which two different loops return on the same
//! input ([`nfa::NFA::find_ambiguity`]): the sign that matching may take
//! exponential time.
//!
//! Every function is verified against the mathematical model of its data:
//! [`automaton::Automaton`] for the automaton, [`regex_ast::Pattern`] for the
//! syntax tree, [`language::matched`] for what a pattern matches. The
//! automaton built for a pattern accepts exactly what the pattern matches
//! ([`correctness`]); what the search for loops finds are exactly the ways
//! back to a state that take no transition twice, each filed once
//! ([`walks`], [`laws`]).

pub mod ambiguity;
pub mod automaton;
pub mod correctness;
pub mod language;
pub mod laws;
pub mod lists;
pub mod loops;
pub mod nfa;
pub mod regex_ast;
pub mod simulate;
pub mod thompson;
pub mod walks;
