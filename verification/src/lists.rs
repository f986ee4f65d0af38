//! Small functions on lists, sets and strings.

use std::collections::HashSet;
use vstd::prelude::*;
use vstd::std_specs::hash::*;
use vstd::std_specs::iter::IteratorSpec;
use vstd::string::*;

verus! {

broadcast use {vstd::std_specs::hash::group_hash_axioms, vstd::string::group_string_axioms};

/// The characters of a string.
pub fn chars_of(text: &str) -> (chars: Vec<char>)
    ensures
        chars@ == text@,
{
    let mut chars: Vec<char> = Vec::new();
    for c in it: text.chars()
        invariant
            it.seq() == text@,
            chars@ == text@.take(it.index()),
    {
        assert(text@.take(it.index() + 1) =~= text@.take(it.index()).push(c));
        chars.push(c);
    }
    assert(text@.take(text@.len() as int) =~= text@);
    chars
}

/// What two lists hold together: what either holds.
pub proof fn lemma_concat_contains<T>(first: Seq<T>, second: Seq<T>, x: T)
    ensures
        (first + second).contains(x) <==> first.contains(x) || second.contains(x),
{
    let both = first + second;
    if first.contains(x) {
        let i = choose|i: int| 0 <= i < first.len() && first[i] == x;
        assert(both[i] == x);
    }
    if second.contains(x) {
        let i = choose|i: int| 0 <= i < second.len() && second[i] == x;
        assert(both[first.len() + i] == x);
    }
    if both.contains(x) {
        let i = choose|i: int| 0 <= i < both.len() && both[i] == x;
        if i < first.len() {
            assert(first[i] == x);
        } else {
            assert(second[i - first.len()] == x);
        }
    }
}

/// What a longer list holds: what the list held, and the new member.
pub proof fn lemma_push_contains<T>(list: Seq<T>, last: T, x: T)
    ensures
        list.push(last).contains(x) <==> list.contains(x) || x == last,
{
    let longer = list.push(last);
    if list.contains(x) {
        let i = choose|i: int| 0 <= i < list.len() && list[i] == x;
        assert(longer[i] == x);
    }
    if x == last {
        assert(longer[list.len() as int] == x);
    }
    if longer.contains(x) {
        let i = choose|i: int| 0 <= i < longer.len() && longer[i] == x;
        if i < list.len() {
            assert(list[i] == x);
        }
    }
}

/// The members of `list` that are in `set` (`wanted`) or that are not
/// (`!wanted`).
pub fn select(list: &Vec<usize>, set: &HashSet<usize>, wanted: bool) -> (picked: Vec<usize>)
    ensures
        forall|x: usize|
            picked@.contains(x) <==> list@.contains(x) && set@.contains(x) == wanted,
{
    let mut picked: Vec<usize> = Vec::new();
    for i in 0..list.len()
        invariant
            forall|x: usize|
                picked@.contains(x) <==> list@.take(i as int).contains(x) && set@.contains(x)
                    == wanted,
    {
        let ghost earlier = list@.take(i as int);
        let ghost before = picked@;
        let x = list[i];
        assert(list@.take(i + 1) =~= earlier.push(x));
        if set.contains(&x) == wanted {
            picked.push(x);
        }
        assert forall|y: usize|
            picked@.contains(y) <==> earlier.push(x).contains(y) && set@.contains(y)
                == wanted by {
            if earlier.push(x).contains(y) {
                let j = choose|j: int| 0 <= j < earlier.push(x).len() && earlier.push(x)[j] == y;
                if j < earlier.len() {
                    assert(earlier[j] == y);
                }
            }
            if earlier.contains(y) {
                let j = choose|j: int| 0 <= j < earlier.len() && earlier[j] == y;
                assert(earlier.push(x)[j] == y);
            }
            assert(earlier.push(x)[earlier.len() as int] == x);
            if before.contains(y) {
                let j = choose|j: int| 0 <= j < before.len() && before[j] == y;
                assert(picked@[j] == y);
            }
            if picked@.contains(y) {
                let j = choose|j: int| 0 <= j < picked@.len() && picked@[j] == y;
                if j < before.len() {
                    assert(before[j] == y);
                }
            }
            if picked@.len() > before.len() {
                assert(picked@[before.len() as int] == x);
            }
        }
    }
    assert(list@.take(list@.len() as int) =~= list@);
    picked
}

/// Whether some member of `list` is in `set`.
pub fn some_in(list: &Vec<usize>, set: &HashSet<usize>) -> (found: bool)
    ensures
        found <==> exists|i: int| 0 <= i < list@.len() && set@.contains(#[trigger] list@[i]),
{
    for i in 0..list.len()
        invariant
            forall|j: int| 0 <= j < i ==> !set@.contains(#[trigger] list@[j]),
    {
        if set.contains(&list[i]) {
            return true;
        }
    }
    false
}

/// The members of a list, each once.
pub fn unique(list: &[usize]) -> (out: Vec<usize>)
    ensures
        out@.no_duplicates(),
        out@.to_set() == list@.to_set(),
{
    let mut out: Vec<usize> = Vec::new();
    let mut seen: HashSet<usize> = HashSet::new();
    for i in 0..list.len()
        invariant
            out@.no_duplicates(),
            out@.to_set() == seen@,
            seen@ == list@.take(i as int).to_set(),
    {
        let x = list[i];
        let ghost earlier = list@.take(i as int);
        assert(list@.take(i + 1) =~= earlier.push(x));
        proof {
            earlier.lemma_push_to_set_commute(x);
            out@.lemma_push_to_set_commute(x);
        }
        if !seen.contains(&x) {
            assert(!out@.contains(x)) by {
                assert(out@.to_set().contains(x) <==> out@.contains(x));
            }
            seen.insert(x);
            out.push(x);
        } else {
            assert(seen@.insert(x) =~= seen@);
        }
    }
    assert(list@.take(list@.len() as int) =~= list@);
    out
}

} // verus!
