//! What it is to fill a label and to add one.

use crate::model::graph::{listed, placed};
use crate::keys::is_mark;
use crate::model::kripke::{Kripke, TRUE_ID};
use vstd::prelude::*;
use vstd::std_specs::hash::*;

verus! {

broadcast use vstd::std_specs::hash::group_hash_axioms;

/// `after` is `before` with the states of `target` added to the extension
/// of the label `id`, and nothing else changed.
pub open spec fn filled(before: &Kripke, after: &Kripke, id: usize, target: Set<usize>) -> bool {
    &&& after.wf()
    &&& after.states == before.states
    &&& after.transitions == before.transitions
    &&& after.labels == before.labels
    &&& after.initial_state == before.initial_state
    &&& forall|l: usize, s: usize| #[trigger]
        after.holds(l, s) <==> before.holds(l, s) || (l == id && target.contains(s))
}

/// `after` is `before` with states added under the label `id`, whatever the
/// model: the frame and the labels are as they were, nothing was taken
/// from a table, nothing was added under another label, and tables that
/// agreed still agree.
#[verifier::opaque]
pub open spec fn grew(before: &Kripke, after: &Kripke, id: usize) -> bool {
    &&& after.states == before.states
    &&& after.transitions == before.transitions
    &&& after.labels == before.labels
    &&& after.initial_state == before.initial_state
    &&& forall|l: usize, s: usize| #[trigger] before.holds(l, s) ==> after.holds(l, s)
    &&& forall|l: usize, s: usize| #[trigger] after.holds(l, s) ==> before.holds(l, s) || l == id
    &&& forall|s: usize, l: usize| #[trigger] before.carries(s, l) ==> after.carries(s, l)
    &&& forall|s: usize, l: usize| #[trigger]
        after.carries(s, l) ==> before.carries(s, l) || l == id
    &&& before.tables_agree() ==> after.tables_agree()
}

/// Recording that a label holds in a state is growing.
pub proof fn lemma_grew_step(before: &Kripke, after: &Kripke, id: usize, state: usize)
    requires
        after.states == before.states,
        after.transitions == before.transitions,
        after.labels == before.labels,
        after.initial_state == before.initial_state,
        forall|l: usize, s: usize| #[trigger]
            after.holds(l, s) <==> before.holds(l, s) || (l == id && s == state),
        forall|s: usize, l: usize| #[trigger]
            after.carries(s, l) <==> before.carries(s, l) || (l == id && s == state),
        before.tables_agree() ==> after.tables_agree(),
    ensures
        grew(before, after, id),
{
    reveal(grew);
    assert forall|l: usize, s: usize| #[trigger] before.holds(l, s) implies after.holds(l, s) by {
        assert(after.holds(l, s) <==> before.holds(l, s) || (l == id && s == state));
    }
    assert forall|s: usize, l: usize| #[trigger] before.carries(s, l) implies after.carries(
        s,
        l,
    ) by {
        assert(after.carries(s, l) <==> before.carries(s, l) || (l == id && s == state));
    }
}

/// Growing twice is growing.
pub proof fn lemma_grew_twice(a: &Kripke, b: &Kripke, c: &Kripke, id: usize)
    requires
        grew(a, b, id),
        grew(b, c, id),
    ensures
        grew(a, c, id),
{
    reveal(grew);
    assert forall|l: usize, s: usize| #[trigger] a.holds(l, s) implies c.holds(l, s) by {
        assert(b.holds(l, s));
    }
    assert forall|l: usize, s: usize| #[trigger] c.holds(l, s) implies a.holds(l, s) || l == id by {
        if l != id {
            assert(b.holds(l, s));
        }
    }
    assert forall|s: usize, l: usize| #[trigger] a.carries(s, l) implies c.carries(s, l) by {
        assert(b.carries(s, l));
    }
    assert forall|s: usize, l: usize| #[trigger] c.carries(s, l) implies a.carries(s, l) || l
        == id by {
        if l != id {
            assert(b.carries(s, l));
        }
    }
}

/// Labelling only adds.  Where a model grew under the label `id`, the frame
/// and the labels are the same, every label holds where it held, the labels
/// other than `id` hold nowhere else, and tables that agreed still agree.
pub proof fn lemma_grew_keeps(before: &Kripke, after: &Kripke, id: usize)
    requires
        grew(before, after, id),
    ensures
        after@.frame == before@.frame,
        after.labels == before.labels,
        after.initial_state == before.initial_state,
        forall|l: usize, s: usize| before.holds(l, s) ==> #[trigger] after.holds(l, s),
        forall|s: usize, l: usize| before.carries(s, l) ==> #[trigger] after.carries(s, l),
        forall|l: usize| before.extension(l).subset_of(#[trigger] after.extension(l)),
        forall|l: usize| l != id ==> #[trigger] after.extension(l) == before.extension(l),
        before.tables_agree() ==> after.tables_agree(),
{
    reveal(grew);
    assert(after@.frame.edges =~= before@.frame.edges) by {
        assert forall|e: (usize, usize)| after.has_edge(e.0, e.1) <==> before.has_edge(
            e.0,
            e.1,
        ) by {}
    }
    assert forall|l: usize| before.extension(l).subset_of(#[trigger] after.extension(l)) by {
        assert forall|s: usize| before.extension(l).contains(s) implies after.extension(
            l,
        ).contains(s) by {
            if l != TRUE_ID {
                assert(before.holds(l, s));
            }
        }
    }
    assert forall|l: usize| l != id implies #[trigger] after.extension(l) == before.extension(
        l,
    ) by {
        assert forall|s: usize| after.extension(l).contains(s) <==> before.extension(l).contains(
            s,
        ) by {
            if l != TRUE_ID {
                if after.holds(l, s) {
                    assert(before.holds(l, s));
                }
                if before.holds(l, s) {
                    assert(after.holds(l, s));
                }
            }
        }
        assert(after.extension(l) =~= before.extension(l));
    }
}

/// The states that are not marked with the label `id` yet, among those
/// that have an entry in `transitions`.
pub open spec fn unmarked(model: &Kripke, id: usize) -> Set<usize> {
    model.transitions@.dom().difference(Set::new(|t: usize| model.carries(t, id)))
}

/// What `filled` says of extensions: that of `id` has grown by `target`,
/// the others are as they were.
pub proof fn lemma_filled_extensions(before: &Kripke, after: &Kripke, id: usize, target: Set<usize>)
    requires
        before.wf(),
        before.labels@.contains_key(id),
        filled(before, after, id, target),
    ensures
        after.extension(id) == before.extension(id).union(target),
        forall|l: usize| l != id ==> #[trigger] after.extension(l) == before.extension(l),
        after@.frame == before@.frame,
{
    assert(id != TRUE_ID);
    assert(after.extension(id) =~= before.extension(id).union(target)) by {
        assert forall|s: usize|
            after.extension(id).contains(s) <==> before.extension(id).union(target).contains(
                s,
            ) by {
            assert(after.holds(id, s) <==> before.holds(id, s) || target.contains(s));
        }
    }
    assert forall|l: usize| l != id implies #[trigger] after.extension(l) == before.extension(l) by {
        if l != TRUE_ID {
            assert forall|s: usize|
                after.extension(l).contains(s) <==> before.extension(l).contains(s) by {
                assert(after.holds(l, s) <==> before.holds(l, s));
            }
        }
        assert(after.extension(l) =~= before.extension(l));
    }
    assert(after@.frame.edges =~= before@.frame.edges);
}

/// Filling a label twice fills it with the union.
pub proof fn lemma_filled_twice(
    before: &Kripke,
    between: &Kripke,
    after: &Kripke,
    id: usize,
    first: Set<usize>,
    second: Set<usize>,
)
    requires
        filled(before, between, id, first),
        filled(between, after, id, second),
    ensures
        filled(before, after, id, first.union(second)),
{
    assert forall|l: usize, s: usize| #[trigger]
        after.holds(l, s) <==> before.holds(l, s) || (l == id && first.union(second).contains(
            s,
        )) by {
        assert(between.holds(l, s) <==> before.holds(l, s) || (l == id && first.contains(s)));
    }
}

/// A label holds in states only.
pub proof fn lemma_extension_in_states(model: &Kripke, label: usize)
    requires
        model.wf(),
    ensures
        model.extension(label).subset_of(model.states@.dom()),
{
    assert forall|s: usize| model.extension(label).contains(s) implies model.states@.contains_key(
        s,
    ) by {
        if label != TRUE_ID {
            assert(model.holds(label, s));
        }
    }
}

/// The members of all lists, one list after the other.
pub open spec fn chained(lists: Seq<Vec<usize>>) -> Seq<usize>
    decreases lists.len(),
{
    if lists.len() == 0 {
        Seq::empty()
    } else {
        chained(lists.drop_last()) + lists.last()@
    }
}

/// A state is in the chain of the lists exactly if it stands in one of
/// them.
pub proof fn lemma_chained_holds(lists: Seq<Vec<usize>>, x: usize)
    ensures
        chained(lists).contains(x) <==> listed(lists, x),
    decreases lists.len(),
{
    if lists.len() > 0 {
        let front = lists.drop_last();
        lemma_chained_holds(front, x);
        crate::lists::lemma_concat_contains(chained(front), lists.last()@, x);
        if listed(front, x) {
            let (a, b) = choose|a: int, b: int| #[trigger] placed(front, a, b) && front[a]@[b] == x;
            assert(placed(lists, a, b) && lists[a]@[b] == x);
        }
        if lists.last()@.contains(x) {
            let b = choose|b: int| 0 <= b < lists.last()@.len() && lists.last()@[b] == x;
            assert(placed(lists, lists.len() - 1, b) && lists[lists.len() - 1]@[b] == x);
        }
        if listed(lists, x) {
            let (a, b) = choose|a: int, b: int| #[trigger] placed(lists, a, b) && lists[a]@[b] == x;
            if a < lists.len() - 1 {
                assert(placed(front, a, b) && front[a]@[b] == x);
            } else {
                assert(lists.last()@[b] == x);
            }
        }
    } else {
        if listed(lists, x) {
            let (a, b) = choose|a: int, b: int| #[trigger] placed(lists, a, b) && lists[a]@[b] == x;
        }
    }
}

/// A name that begins like the key of a composite formula.
pub open spec fn derived_name(name: Seq<char>) -> bool {
    name.len() > 0 && is_mark(name[0])
}

/// `after` is `before` with more labels: the frame is the same, every label
/// of `before` has kept its name and its extension, and every new label has
/// a derived name of at most `bound` characters.
pub open spec fn extends(before: &Kripke, after: &Kripke, bound: nat) -> bool {
    &&& after.states == before.states
    &&& after.transitions == before.transitions
    &&& after.initial_state == before.initial_state
    &&& before.labels@.len() <= after.labels@.len()
    &&& forall|l: usize| #[trigger]
        before.labels@.contains_key(l) ==> after.labels@.contains_key(l) && after.labels@[l]@
            == before.labels@[l]@
    &&& forall|l: usize, s: usize|
        before.labels@.contains_key(l) ==> (#[trigger] after.holds(l, s) <==> before.holds(l, s))
    &&& forall|l: usize| #[trigger]
        after.labels@.contains_key(l) && !before.labels@.contains_key(l) ==> derived_name(
            after.labels@[l]@,
        ) && after.labels@[l]@.len() <= bound
}

/// More labels after more labels are more labels.
pub proof fn lemma_extends_twice(a: &Kripke, b: &Kripke, c: &Kripke, k1: nat, k2: nat, k: nat)
    requires
        extends(a, b, k1),
        extends(b, c, k2),
        k1 <= k,
        k2 <= k,
    ensures
        extends(a, c, k),
{
    assert forall|l: usize, s: usize| a.labels@.contains_key(l) implies (#[trigger] c.holds(l, s)
        <==> a.holds(l, s)) by {
        assert(b.labels@.contains_key(l));
        assert(b.holds(l, s) <==> a.holds(l, s));
    }
    assert forall|l: usize| #[trigger] c.labels@.contains_key(l) && !a.labels@.contains_key(
        l,
    ) implies derived_name(c.labels@[l]@) && c.labels@[l]@.len() <= k by {
        if b.labels@.contains_key(l) {
            assert(c.labels@[l]@ == b.labels@[l]@);
        }
    }
}

/// A name of a label is still one where labels are added.
pub proof fn lemma_still_named(before: &Kripke, after: &Kripke, bound: nat, name: Seq<char>)
    requires
        extends(before, after, bound),
        before.has_label_named(name),
    ensures
        after.has_label_named(name),
{
    let l = choose|l: usize| before.names_label(l, name);
    assert(after.names_label(l, name));
}

/// After a memo miss and the checking of operands, the key is still no
/// label.
pub proof fn lemma_still_unnamed(start: &Kripke, before: &Kripke, bound: nat, key: Seq<char>)
    requires
        extends(start, before, bound),
        bound < key.len(),
        !start.has_label_named(key),
    ensures
        !before.has_label_named(key),
{
    if before.has_label_named(key) {
        let l = choose|l: usize| before.names_label(l, key);
        if start.labels@.contains_key(l) {
            assert(start.names_label(l, key));
        }
    }
}

/// A label that was known, or `TRUE_ID`, keeps its extension where labels
/// are added.
pub proof fn lemma_kept(before: &Kripke, after: &Kripke, bound: nat, id: usize)
    requires
        extends(before, after, bound),
        id == TRUE_ID || before.labels@.contains_key(id),
    ensures
        after.extension(id) == before.extension(id),
        id == TRUE_ID || after.labels@.contains_key(id),
{
    if id != TRUE_ID {
        assert forall|s: usize| after.extension(id).contains(s) <==> before.extension(id).contains(
            s,
        ) by {
            assert(after.holds(id, s) <==> before.holds(id, s));
        }
    }
    assert(after.extension(id) =~= before.extension(id));
}

/// `named` is `before` with one more label, `id`, called `key`; the tables
/// are as they were.
pub open spec fn named_after(before: &Kripke, named: &Kripke, id: usize, key: Seq<char>) -> bool {
    &&& named.wf()
    &&& named.names_label(id, key)
    &&& id == before.labels@.len()
    &&& named.states == before.states
    &&& named.transitions == before.transitions
    &&& named.label_to_states == before.label_to_states
    &&& named.state_to_labels == before.state_to_labels
    &&& named.initial_state == before.initial_state
    &&& named.labels@.dom() == before.labels@.dom().insert(id)
    &&& forall|other: usize| #[trigger]
        before.labels@.contains_key(other) && other != id ==> named.labels@[other]
            == before.labels@[other]
}

/// A new name changes neither the frame nor any extension.
pub proof fn lemma_named_same(before: &Kripke, named: &Kripke, id: usize, key: Seq<char>)
    requires
        named_after(before, named, id, key),
    ensures
        named@.frame == before@.frame,
        forall|l: usize| #[trigger] named.extension(l) == before.extension(l),
{
    assert(named@.frame.edges =~= before@.frame.edges);
    assert forall|l: usize| #[trigger] named.extension(l) == before.extension(l) by {
        assert(named.extension(l) =~= before.extension(l));
    }
}

/// A label that was just made holds nowhere, and is none of the labels
/// that were there.
pub proof fn lemma_fresh_is_empty(before: &Kripke, named: &Kripke, id: usize, key: Seq<char>)
    requires
        before.wf(),
        named_after(before, named, id, key),
    ensures
        forall|s: usize| !named.holds(id, s),
        !before.labels@.contains_key(id),
        id != TRUE_ID,
{
    assert(before.labels@.dom().finite());
    assert forall|s: usize| !named.holds(id, s) by {
        if named.holds(id, s) {
            assert(before.holds(id, s));
        }
    }
}

/// Naming a new label and filling it gives a model with more labels.
pub proof fn lemma_named_filled_extends(
    before: &Kripke,
    named: &Kripke,
    after: &Kripke,
    id: usize,
    key: Seq<char>,
    target: Set<usize>,
)
    requires
        before.wf(),
        derived_name(key),
        named_after(before, named, id, key),
        filled(named, after, id, target),
    ensures
        extends(before, after, key.len()),
        !before.labels@.contains_key(id),
        after.labels@.contains_key(id),
        after.labels@[id]@ == key,
        after.labels@.len() == before.labels@.len() + 1,
        after.extension(id) == target,
        forall|l: usize| l != id ==> #[trigger] after.extension(l) == before.extension(l),
{
    assert(!before.labels@.contains_key(id));
    assert(before.labels@.dom().finite());
    assert forall|l: usize, s: usize| before.labels@.contains_key(l) implies (#[trigger] after.holds(
        l,
        s,
    ) <==> before.holds(l, s)) by {
        assert(named.holds(l, s) <==> before.holds(l, s));
    }
    assert forall|s: usize| !named.holds(id, s) by {
        if named.holds(id, s) {
            assert(before.holds(id, s));
        }
    }
    assert(after.extension(id) =~= target) by {
        assert(id != TRUE_ID);
        assert forall|s: usize| after.extension(id).contains(s) <==> target.contains(s) by {
            assert(after.holds(id, s) <==> named.holds(id, s) || target.contains(s));
        }
    }
    assert forall|l: usize| l != id implies #[trigger] after.extension(l) == before.extension(l) by {
        if l != TRUE_ID {
            assert forall|s: usize|
                after.extension(l).contains(s) <==> before.extension(l).contains(s) by {
                assert(after.holds(l, s) <==> named.holds(l, s));
                assert(named.holds(l, s) <==> before.holds(l, s));
            }
        }
        assert(after.extension(l) =~= before.extension(l));
    }
}

} // verus!
