//! The syntax tree of a regular expression, and the alphabet it is read over.

use crate::lists::{contains_char, copy_chars};
use vstd::prelude::*;

verus! {

/// A regular expression, as a parser hands it over.
#[derive(Debug)]
pub enum RegexAst {
    /// Matches the empty string.
    Epsilon,
    /// Matches any one character of the alphabet.
    Any,
    /// Matches one character of the listed ones or, where the flag is set,
    /// one character of the alphabet that is not listed.
    CharClass(bool, Vec<char>),
    /// Matches exactly this character.
    Literal(char),
    /// The first expression followed by the second.
    Concat(Box<RegexAst>, Box<RegexAst>),
    /// Either of the two expressions.
    Or(Box<RegexAst>, Box<RegexAst>),
    /// Any number of repetitions of the expression, none included.
    Star(Box<RegexAst>),
}

/// What a [`RegexAst`] stands for: the same tree over mathematical sequences.
pub enum Pattern {
    Epsilon,
    Any,
    CharClass(bool, Seq<char>),
    Literal(char),
    Concat(Box<Pattern>, Box<Pattern>),
    Or(Box<Pattern>, Box<Pattern>),
    Star(Box<Pattern>),
}

impl RegexAst {
    /// The tree that this value stands for.
    pub open spec fn pattern(&self) -> Pattern
        decreases self,
    {
        match self {
            RegexAst::Epsilon => Pattern::Epsilon,
            RegexAst::Any => Pattern::Any,
            RegexAst::CharClass(complement, chars) => Pattern::CharClass(*complement, chars@),
            RegexAst::Literal(c) => Pattern::Literal(*c),
            RegexAst::Concat(first, second) => Pattern::Concat(
                Box::new(first.pattern()),
                Box::new(second.pattern()),
            ),
            RegexAst::Or(left, right) => Pattern::Or(
                Box::new(left.pattern()),
                Box::new(right.pattern()),
            ),
            RegexAst::Star(body) => Pattern::Star(Box::new(body.pattern())),
        }
    }
}

impl View for RegexAst {
    type V = Pattern;

    open spec fn view(&self) -> Pattern {
        self.pattern()
    }
}

/// The alphabet: the characters that `Any` and a complemented class range over.
pub open spec fn alphabet_spec() -> Seq<char> {
    "abcdefghijklmnopqrstuvwxyzABCDEFGHIJKLMNOPQRSTUVWXYZ"@
}

/// The alphabet is the Latin letters: the lower-case ones, then the
/// upper-case ones.
pub proof fn lemma_alphabet()
    ensures
        alphabet_spec() == seq![
            'a', 'b', 'c', 'd', 'e', 'f', 'g', 'h', 'i', 'j', 'k', 'l', 'm',
            'n', 'o', 'p', 'q', 'r', 's', 't', 'u', 'v', 'w', 'x', 'y', 'z',
            'A', 'B', 'C', 'D', 'E', 'F', 'G', 'H', 'I', 'J', 'K', 'L', 'M',
            'N', 'O', 'P', 'Q', 'R', 'S', 'T', 'U', 'V', 'W', 'X', 'Y', 'Z',
        ],
{
    reveal_strlit("abcdefghijklmnopqrstuvwxyzABCDEFGHIJKLMNOPQRSTUVWXYZ");
    assert(alphabet_spec() =~= seq![
        'a', 'b', 'c', 'd', 'e', 'f', 'g', 'h', 'i', 'j', 'k', 'l', 'm',
        'n', 'o', 'p', 'q', 'r', 's', 't', 'u', 'v', 'w', 'x', 'y', 'z',
        'A', 'B', 'C', 'D', 'E', 'F', 'G', 'H', 'I', 'J', 'K', 'L', 'M',
        'N', 'O', 'P', 'Q', 'R', 'S', 'T', 'U', 'V', 'W', 'X', 'Y', 'Z',
    ]);
}

/// The characters of `alphabet`, in order, that `excluded` does not list.
pub open spec fn complement_spec(alphabet: Seq<char>, excluded: Seq<char>) -> Seq<char> {
    alphabet.filter(|c: char| !excluded.contains(c))
}

/// The characters of `alphabet`, in order, that `excluded` does not list.
pub fn complement(alphabet: &Vec<char>, excluded: &Vec<char>) -> (rest: Vec<char>)
    ensures
        rest@ == complement_spec(alphabet@, excluded@),
{
    let mut rest: Vec<char> = Vec::new();
    let mut i: usize = 0;
    proof {
        reveal(Seq::filter);
    }
    while i < alphabet.len()
        invariant
            i <= alphabet.len(),
            rest@ == complement_spec(alphabet@.take(i as int), excluded@),
        decreases alphabet.len() - i,
    {
        let c = alphabet[i];
        proof {
            reveal(Seq::filter);
            assert(alphabet@.take(i + 1).drop_last() =~= alphabet@.take(i as int));
        }
        if !contains_char(excluded, c) {
            rest.push(c);
        }
        i += 1;
    }
    proof {
        assert(alphabet@.take(i as int) =~= alphabet@);
    }
    rest
}

impl Clone for RegexAst {
    fn clone(&self) -> (copy: RegexAst)
        ensures
            copy@ == self@,
    {
        self.copy_tree()
    }
}

impl RegexAst {
    /// A copy of the whole tree.
    fn copy_tree(&self) -> (copy: RegexAst)
        ensures
            copy@ == self@,
        decreases self,
    {
        match self {
            RegexAst::Epsilon => RegexAst::Epsilon,
            RegexAst::Any => RegexAst::Any,
            RegexAst::CharClass(complement, chars) => RegexAst::CharClass(
                *complement,
                copy_chars(chars),
            ),
            RegexAst::Literal(c) => RegexAst::Literal(*c),
            RegexAst::Concat(first, second) => RegexAst::Concat(
                Box::new(first.copy_tree()),
                Box::new(second.copy_tree()),
            ),
            RegexAst::Or(left, right) => RegexAst::Or(
                Box::new(left.copy_tree()),
                Box::new(right.copy_tree()),
            ),
            RegexAst::Star(body) => RegexAst::Star(Box::new(body.copy_tree())),
        }
    }

    /// The alphabet, as a list: the lower-case letters, then the upper-case ones.
    pub fn alphabet() -> (letters: Vec<char>)
        ensures
            letters@ == alphabet_spec(),
    {
        let text = "abcdefghijklmnopqrstuvwxyzABCDEFGHIJKLMNOPQRSTUVWXYZ";
        let mut letters: Vec<char> = Vec::new();
        for c in it: text.chars()
            invariant
                it.seq() == text@,
                letters@ == text@.take(it.index() as int),
        {
            proof {
                assert(text@.take(it.index() + 1) =~= text@.take(it.index() as int).push(c));
            }
            letters.push(c);
        }
        proof {
            assert(text@.take(text@.len() as int) =~= text@);
        }
        letters
    }
}

} // verus!
