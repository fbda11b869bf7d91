//! Small helpers on lists of characters and of ids.

use vstd::prelude::*;

verus! {

/// The characters of `chars`, each once, in the order in which each comes
/// first.
pub open spec fn distinct_chars(chars: Seq<char>) -> Seq<char>
    decreases chars.len(),
{
    if chars.len() == 0 {
        Seq::empty()
    } else if chars.drop_last().contains(chars.last()) {
        distinct_chars(chars.drop_last())
    } else {
        distinct_chars(chars.drop_last()).push(chars.last())
    }
}

/// `distinct_chars` lists what the list holds, and nothing twice.
pub proof fn lemma_distinct_chars(chars: Seq<char>)
    ensures
        distinct_chars(chars).no_duplicates(),
        distinct_chars(chars).len() <= chars.len(),
        chars.len() > 0 ==> distinct_chars(chars).len() > 0,
        forall|c: char| distinct_chars(chars).contains(c) <==> chars.contains(c),
    decreases chars.len(),
{
    if chars.len() > 0 {
        let front = chars.drop_last();
        let last = chars.last();
        let held = distinct_chars(front);
        lemma_distinct_chars(front);
        assert forall|c: char| distinct_chars(chars).contains(c) <==> chars.contains(c) by {
            if chars.contains(c) {
                let k = choose|k: int| 0 <= k < chars.len() && chars[k] == c;
                if k < front.len() {
                    assert(front[k] == c);
                    assert(front.contains(c));
                    assert(held.contains(c));
                    let at = choose|at: int| 0 <= at < held.len() && held[at] == c;
                    assert(distinct_chars(chars)[at] == c);
                } else if front.contains(last) {
                    assert(held.contains(c));
                } else {
                    assert(distinct_chars(chars)[held.len() as int] == c);
                }
            }
            if distinct_chars(chars).contains(c) {
                let at = choose|at: int|
                    0 <= at < distinct_chars(chars).len() && distinct_chars(chars)[at] == c;
                if at < held.len() {
                    assert(held[at] == c);
                    assert(held.contains(c));
                    assert(front.contains(c));
                    let k = choose|k: int| 0 <= k < front.len() && front[k] == c;
                    assert(chars[k] == c);
                } else {
                    assert(chars[chars.len() - 1] == c);
                }
            }
        }
        if !front.contains(last) {
            assert(!held.contains(last));
        }
    }
}

/// The distinct characters of the first `k` come first among the distinct
/// characters of the whole list.
pub proof fn lemma_distinct_chars_prefix(chars: Seq<char>, k: int)
    requires
        0 <= k <= chars.len(),
    ensures
        distinct_chars(chars.take(k)).is_prefix_of(distinct_chars(chars)),
    decreases chars.len() - k,
{
    if k == chars.len() {
        assert(chars.take(k) =~= chars);
    } else {
        lemma_distinct_chars_prefix(chars, k + 1);
        assert(chars.take(k + 1).drop_last() =~= chars.take(k));
    }
}

/// Whether the character at place `k` of `chars` also stands before that
/// place. `false` where `chars` has no place `k`.
pub fn occurs_before(chars: &Vec<char>, k: usize) -> (found: bool)
    ensures
        found == (k < chars.len() && chars@.take(k as int).contains(chars@[k as int])),
{
    if k >= chars.len() {
        return false;
    }
    let c = chars[k];
    let mut i: usize = 0;
    while i < k
        invariant
            i <= k < chars.len(),
            c == chars@[k as int],
            forall|j: int| 0 <= j < i ==> chars@[j] != c,
        decreases k - i,
    {
        if chars[i] == c {
            assert(chars@.take(k as int)[i as int] == c);
            return true;
        }
        i += 1;
    }
    proof {
        assert forall|j: int| 0 <= j < k implies chars@.take(k as int)[j] != c by {}
    }
    false
}

/// Whether `chars` lists `c`.
pub fn contains_char(chars: &Vec<char>, c: char) -> (found: bool)
    ensures
        found == chars@.contains(c),
{
    let mut i: usize = 0;
    while i < chars.len()
        invariant
            i <= chars.len(),
            forall|j: int| 0 <= j < i ==> chars@[j] != c,
        decreases chars.len() - i,
    {
        if chars[i] == c {
            return true;
        }
        i += 1;
    }
    false
}

/// Whether `ids` lists `id`.
pub fn contains_id(ids: &Vec<usize>, id: usize) -> (found: bool)
    ensures
        found == ids@.contains(id),
{
    let mut i: usize = 0;
    while i < ids.len()
        invariant
            i <= ids.len(),
            forall|k: int| 0 <= k < i ==> ids@[k] != id,
        decreases ids.len() - i,
    {
        if ids[i] == id {
            return true;
        }
        i += 1;
    }
    false
}

/// Whether the two lists hold the same characters in the same order.
pub fn same_chars(a: &Vec<char>, b: &Vec<char>) -> (same: bool)
    ensures
        same == (a@ == b@),
{
    if a.len() != b.len() {
        return false;
    }
    let mut i: usize = 0;
    while i < a.len()
        invariant
            a.len() == b.len(),
            i <= a.len(),
            forall|k: int| 0 <= k < i ==> a@[k] == b@[k],
        decreases a.len() - i,
    {
        if a[i] != b[i] {
            return false;
        }
        i += 1;
    }
    proof {
        assert(a@ =~= b@);
    }
    true
}

/// A copy of `chars`.
pub fn copy_chars(chars: &Vec<char>) -> (copy: Vec<char>)
    ensures
        copy@ == chars@,
{
    let mut copy: Vec<char> = Vec::new();
    let mut i: usize = 0;
    while i < chars.len()
        invariant
            i <= chars.len(),
            copy@ == chars@.take(i as int),
        decreases chars.len() - i,
    {
        copy.push(chars[i]);
        proof {
            assert(chars@.take(i + 1) =~= chars@.take(i as int).push(chars@[i as int]));
        }
        i += 1;
    }
    proof {
        assert(chars@.take(i as int) =~= chars@);
    }
    copy
}

/// A copy of `ids`.
pub fn copy_ids(ids: &Vec<usize>) -> (copy: Vec<usize>)
    ensures
        copy@ == ids@,
{
    let mut copy: Vec<usize> = Vec::new();
    let mut i: usize = 0;
    while i < ids.len()
        invariant
            i <= ids.len(),
            copy@ == ids@.take(i as int),
        decreases ids.len() - i,
    {
        copy.push(ids[i]);
        proof {
            assert(ids@.take(i + 1) =~= ids@.take(i as int).push(ids@[i as int]));
        }
        i += 1;
    }
    proof {
        assert(ids@.take(i as int) =~= ids@);
    }
    copy
}

} // verus!
