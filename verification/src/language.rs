//! What a regular expression matches.

use crate::regex_ast::{alphabet_spec, complement_spec, Pattern};
use vstd::prelude::*;

verus! {

/// Whether a transition that bears `symbol` reads exactly `input`: one
/// character that `symbol` lists or, where it lists none, nothing. (A
/// transition without symbols is a move without input.)
pub open spec fn read_by(symbol: Seq<char>, input: Seq<char>) -> bool {
    if symbol.len() == 0 {
        input.len() == 0
    } else {
        input.len() == 1 && symbol.contains(input[0])
    }
}

/// The characters that a class stands for: those listed or, where it is
/// complemented, those of the alphabet that are not listed.
pub open spec fn class_chars(complemented: bool, chars: Seq<char>) -> Seq<char> {
    if complemented {
        complement_spec(alphabet_spec(), chars)
    } else {
        chars
    }
}

/// Whether `pattern` matches the whole of `input`. A class that stands for
/// no character at all matches the empty input, as a move without input.
pub open spec fn matched(pattern: Pattern, input: Seq<char>) -> bool
    decreases pattern, input.len(),
{
    match pattern {
        Pattern::Epsilon => input.len() == 0,
        Pattern::Any => read_by(alphabet_spec(), input),
        Pattern::CharClass(complemented, chars) => read_by(
            class_chars(complemented, chars),
            input,
        ),
        Pattern::Literal(c) => input == seq![c],
        Pattern::Concat(first, second) => exists|k: int|
            #![trigger input.take(k)]
            0 <= k <= input.len() && matched(*first, input.take(k)) && matched(
                *second,
                input.skip(k),
            ),
        Pattern::Or(left, right) => matched(*left, input) || matched(*right, input),
        Pattern::Star(body) => input.len() == 0 || exists|k: int|
            #![trigger input.take(k)]
            0 < k <= input.len() && matched(*body, input.take(k)) && matched(
                pattern,
                input.skip(k),
            ),
    }
}

/// What a starred pattern matches, followed by one more match of its body, is
/// matched by the starred pattern.
pub proof fn lemma_star_append(body: Pattern, front: Seq<char>, back: Seq<char>)
    requires
        matched(Pattern::Star(Box::new(body)), front),
        matched(body, back),
    ensures
        matched(Pattern::Star(Box::new(body)), front + back),
    decreases front.len(),
{
    let starred = Pattern::Star(Box::new(body));
    let whole = front + back;
    if front.len() == 0 {
        assert(whole =~= back);
        if back.len() > 0 {
            assert(whole.take(whole.len() as int) =~= whole);
            assert(whole.skip(whole.len() as int).len() == 0);
            assert(matched(body, whole.take(whole.len() as int)));
            assert(matched(starred, whole.skip(whole.len() as int)));
        }
    } else {
        let k = choose|k: int|
            #![trigger front.take(k)]
            0 < k <= front.len() && matched(body, front.take(k)) && matched(
                starred,
                front.skip(k),
            );
        lemma_star_append(body, front.skip(k), back);
        assert(whole.take(k) =~= front.take(k));
        assert(whole.skip(k) =~= front.skip(k) + back);
    }
}

} // verus!
