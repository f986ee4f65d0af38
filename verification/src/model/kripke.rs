//! Kripke structures with a labelling that grows while formulae are checked.

use crate::semantics::{Frame, Structure};
use std::collections::{HashMap, HashSet};
use vstd::prelude::*;
use vstd::string::*;
use vstd::std_specs::hash::*;
use vstd::std_specs::iter::IteratorSpec;

verus! {

broadcast use vstd::std_specs::hash::group_hash_axioms;

/// The label that holds in every state.  It is never stored: whoever looks
/// it up gets all states.
pub const TRUE_ID: usize = usize::MAX;

/// Kripke structure.
#[derive(Debug)]
pub struct Kripke {
    /// The states: id to name.
    pub states: HashMap<usize, String>,
    /// The transitions: from a state to the set of its successors.
    pub transitions: HashMap<usize, HashSet<usize>>,
    /// The labels: id to name.
    pub labels: HashMap<usize, String>,
    /// For each label the states in which it holds.
    pub label_to_states: HashMap<usize, HashSet<usize>>,
    /// For each state the labels that hold in it.
    pub state_to_labels: HashMap<usize, HashSet<usize>>,
    /// The initial state.
    pub initial_state: usize,
}

impl Kripke {
    /// There is a transition from `from` to `to`.
    pub open spec fn has_edge(&self, from: usize, to: usize) -> bool {
        self.transitions@.contains_key(from) && self.transitions@[from]@.contains(to)
    }

    /// `label_to_states` lists `state` under `label`.
    pub open spec fn holds(&self, label: usize, state: usize) -> bool {
        self.label_to_states@.contains_key(label) && self.label_to_states@[label]@.contains(state)
    }

    /// `state_to_labels` lists `label` under `state`.
    pub open spec fn carries(&self, state: usize, label: usize) -> bool {
        self.state_to_labels@.contains_key(state) && self.state_to_labels@[state]@.contains(label)
    }

    /// The states in which a label holds; all states for `TRUE_ID`.
    pub open spec fn extension(&self, label: usize) -> Set<usize> {
        if label == TRUE_ID {
            self.states@.dom()
        } else {
            Set::new(|s: usize| self.holds(label, s))
        }
    }

    /// `id` is the label called `name`.
    pub open spec fn names_label(&self, id: usize, name: Seq<char>) -> bool {
        self.labels@.contains_key(id) && self.labels@[id]@ == name
    }

    /// Some label is called `name`.
    pub open spec fn has_label_named(&self, name: Seq<char>) -> bool {
        exists|id: usize| self.names_label(id, name)
    }

    /// The label called `name`, where there is one.
    pub open spec fn label_named(&self, name: Seq<char>) -> usize {
        choose|id: usize| self.names_label(id, name)
    }

    /// The two label tables list the same pairs.
    pub open spec fn tables_agree(&self) -> bool {
        forall|l: usize, s: usize| #[trigger] self.holds(l, s) <==> #[trigger] self.carries(s, l)
    }

    /// The invariant of a model.
    ///
    /// Every state has an entry in `transitions` and every successor is a
    /// state; the initial state is a state; label ids are 0, 1, 2, ... in
    /// the order in which the labels came, and no two labels share a name;
    /// the two label tables agree, and speak of known labels and of states
    /// only.
    pub open spec fn wf(&self) -> bool {
        &&& self.transitions@.dom() =~= self.states@.dom()
        &&& forall|a: usize, b: usize| #[trigger]
            self.has_edge(a, b) ==> self.states@.contains_key(b)
        &&& self.states@.contains_key(self.initial_state)
        &&& self.labels@.len() <= usize::MAX
        &&& forall|id: usize| #[trigger] self.labels@.contains_key(id) <==> id < self.labels@.len()
        &&& forall|a: usize, b: usize|
            self.labels@.contains_key(a) && self.labels@.contains_key(b) && #[trigger] self.labels@[a]@
                == #[trigger] self.labels@[b]@ ==> a == b
        &&& self.tables_agree()
        &&& forall|l: usize, s: usize| #[trigger]
            self.holds(l, s) ==> self.labels@.contains_key(l) && self.states@.contains_key(s)
    }
}

/// The names of the labels of a model, by id.
pub open spec fn names_of(model: &Kripke) -> Seq<Seq<char>> {
    Seq::new(model.labels@.len(), |l: int| model.labels@[l as usize]@)
}

/// A name is among the names of the labels exactly if a label has it.
pub proof fn lemma_names_of(model: &Kripke, name: Seq<char>)
    requires
        model.wf(),
    ensures
        names_of(model).contains(name) <==> model.has_label_named(name),
        names_of(model).no_duplicates(),
        names_of(model).len() == model.labels@.len(),
{
    let names = names_of(model);
    if names.contains(name) {
        let l = choose|l: int| 0 <= l < names.len() && names[l] == name;
        assert(model.labels@.contains_key(l as usize));
        assert(model.names_label(l as usize, name));
    }
    if model.has_label_named(name) {
        let id = choose|id: usize| model.names_label(id, name);
        assert(names[id as int] == name);
    }
    assert forall|a: int, b: int| 0 <= a < names.len() && 0 <= b < names.len() && a != b implies names[a]
        != names[b] by {
        assert(model.labels@.contains_key(a as usize));
        assert(model.labels@.contains_key(b as usize));
        if names[a] == names[b] {
            assert(model.labels@[a as usize]@ == model.labels@[b as usize]@);
        }
    }
}

/// In a well-formed model a label holds in a state exactly if the state
/// carries the label: the two tables are each other's inverse.
pub proof fn lemma_tables_agree(model: &Kripke, label: usize, state: usize)
    requires
        model.wf(),
    ensures
        model.holds(label, state) <==> model.carries(state, label),
        label != TRUE_ID ==> (model.extension(label).contains(state) <==> model.carries(
            state,
            label,
        )),
        model.holds(label, state) ==> model.labels@.contains_key(label)
            && model.states@.contains_key(state),
{
}

impl View for Kripke {
    type V = Structure;

    /// The structure that the model stands for.  A proposition is known by
    /// the name of its label.
    open spec fn view(&self) -> Structure {
        Structure {
            frame: Frame {
                states: self.states@.dom(),
                edges: Set::new(|e: (usize, usize)| self.has_edge(e.0, e.1)),
            },
            atoms: Map::new(
                |name: Seq<char>| self.has_label_named(name),
                |name: Seq<char>| self.extension(self.label_named(name)),
            ),
        }
    }
}

/// The members of a set, each once.
pub fn set_members(set: &HashSet<usize>) -> (members: Vec<usize>)
    ensures
        members@.to_set() == set@,
        members@.no_duplicates(),
{
    let mut members: Vec<usize> = Vec::new();
    let ghost all: Seq<usize> = set.iter().remaining().unref();
    for k in it: set.iter()
        invariant
            it.seq().unref() == all,
            all.to_set() == set@,
            it.seq().no_duplicates(),
            members@.len() == it.index(),
            forall|i: int| 0 <= i < it.index() ==> members@[i] == all[i],
    {
        members.push(*k);
    }
    assert(members@ =~= all);
    members
}

/// A copy of a set.
pub fn set_copy(set: &HashSet<usize>) -> (copy: HashSet<usize>)
    ensures
        copy@ == set@,
{
    let mut copy: HashSet<usize> = HashSet::new();
    let ghost all: Seq<usize> = set.iter().remaining().unref();
    for k in it: set.iter()
        invariant
            it.seq().unref() == all,
            all.to_set() == set@,
            forall|j: int| 0 <= j < it.index() ==> copy@.contains(#[trigger] all[j]),
            forall|x: usize| copy@.contains(x) ==> set@.contains(x),
    {
        assert(all.to_set().contains(all[it.index()]));
        copy.insert(*k);
    }
    assert forall|x: usize| set@.contains(x) implies copy@.contains(x) by {
        assert(all.to_set().contains(x));
        let j = choose|j: int| 0 <= j < all.len() && all[j] == x;
        assert(copy@.contains(all[j]));
    }
    assert(copy@ =~= set@);
    copy
}

/// The keys of a map, each once.
pub fn map_keys(map: &HashMap<usize, String>) -> (keys: Vec<usize>)
    ensures
        keys@.to_set() == map@.dom(),
        keys@.no_duplicates(),
{
    let mut keys: Vec<usize> = Vec::new();
    let ghost all: Seq<usize> = map.keys().remaining().unref();
    for k in it: map.keys()
        invariant
            it.seq().unref() == all,
            all.to_set() == map@.dom(),
            it.seq().no_duplicates(),
            keys@.len() == it.index(),
            forall|i: int| 0 <= i < it.index() ==> keys@[i] == all[i],
    {
        keys.push(*k);
    }
    assert(keys@ =~= all);
    keys
}

impl Kripke {
    /// The id of the label called `label`, if there is one.
    pub fn contains_label(&self, label: &str) -> (found: Option<usize>)
        ensures
            match found {
                Some(id) => self.names_label(id, label@),
                None => !self.has_label_named(label@),
            },
    {
        let wanted = String::from_str(label);
        let ghost all: Seq<(usize, String)> = self.labels.iter().remaining().unref();
        for pair in it: self.labels.iter()
            invariant
                it.seq().unref() == all,
                all.to_set() == self.labels@.kv_pairs(),
                wanted@ == label@,
                forall|i: int| 0 <= i < it.index() ==> (#[trigger] all[i]).1@ != label@,
        {
            let (id, name) = pair;
            assert(all[it.index()] == (*id, *name));
            assert(all.to_set().contains(all[it.index()]));
            if *name == wanted {
                return Some(*id);
            }
        }
        proof {
            if self.has_label_named(label@) {
                let id = choose|id: usize| self.names_label(id, label@);
                let kv = (id, self.labels@[id]);
                assert(self.labels@.kv_pairs().contains(kv));
                assert(all.to_set().contains(kv));
                let i = choose|i: int| 0 <= i < all.len() && all[i] == kv;
                assert(all[i].1@ == label@);
            }
        }
        None
    }

    /// The id of the label called `label`; a label of that name is added
    /// where there is none, with the next free id.
    pub fn get_label_id_or_add(&mut self, label: &str) -> (id: usize)
        ensures
            final(self).names_label(id, label@),
            final(self).states == old(self).states,
            final(self).transitions == old(self).transitions,
            final(self).label_to_states == old(self).label_to_states,
            final(self).state_to_labels == old(self).state_to_labels,
            final(self).initial_state == old(self).initial_state,
            old(self).has_label_named(label@) ==> final(self).labels == old(self).labels
                && old(self).names_label(id, label@),
            !old(self).has_label_named(label@) ==> id == old(self).labels@.len()
                && final(self).labels@.dom() == old(self).labels@.dom().insert(id)
                && forall|other: usize| #[trigger]
                old(self).labels@.contains_key(other) && other != id ==> final(self).labels@[other]
                    == old(self).labels@[other],
            old(self).wf() && old(self).labels@.len() < usize::MAX ==> final(self).wf(),
    {
        if let Some(id) = self.contains_label(label) {
            id
        } else {
            let id = self.labels.len();
            self.labels.insert(id, String::from_str(label));
            proof {
                if old(self).wf() && old(self).labels@.len() < usize::MAX {
                    assert(!old(self).labels@.contains_key(id));
                    assert forall|l: usize, s: usize| #[trigger] self.holds(l, s) implies self.labels@.contains_key(l)
                        && self.states@.contains_key(s) by {
                        assert(old(self).holds(l, s));
                    }
                    assert forall|l: usize, s: usize| #[trigger]
                        self.holds(l, s) <==> #[trigger] self.carries(s, l) by {
                        assert(old(self).holds(l, s) <==> old(self).carries(s, l));
                    }
                    assert forall|a: usize, b: usize|
                        self.labels@.contains_key(a) && self.labels@.contains_key(b) && #[trigger] self.labels@[a]@
                            == #[trigger] self.labels@[b]@ implies a == b by {
                        if a == id && b != id {
                            assert(old(self).names_label(b, label@));
                        }
                        if b == id && a != id {
                            assert(old(self).names_label(a, label@));
                        }
                    }
                    assert forall|a: usize, b: usize| #[trigger] self.has_edge(a, b) implies self.states@.contains_key(b) by {
                        assert(old(self).has_edge(a, b));
                    }
                }
            }
            id
        }
    }
}

impl Kripke {
    /// The states in which the label holds, each once; all states for
    /// `TRUE_ID`, none for an id that no table knows.
    pub fn get_state_with_label(&self, label_index: usize) -> (found: Vec<usize>)
        ensures
            found@.to_set() == self.extension(label_index),
            found@.no_duplicates(),
    {
        if label_index == usize::MAX {
            map_keys(&self.states)
        } else {
            match self.label_to_states.get(&label_index) {
                Some(set) => {
                    let found = set_members(set);
                    assert(found@.to_set() =~= self.extension(label_index));
                    found
                },
                None => {
                    let found: Vec<usize> = Vec::new();
                    assert(found@.to_set() =~= self.extension(label_index));
                    found
                },
            }
        }
    }

    /// The states in which the label holds, as a set; all states for
    /// `TRUE_ID`, none for an id that no table knows.
    pub fn get_state_with_label_as_set(&self, label_index: usize) -> (found: HashSet<usize>)
        ensures
            found@ == self.extension(label_index),
    {
        if label_index == usize::MAX {
            let keys = map_keys(&self.states);
            let mut found: HashSet<usize> = HashSet::new();
            for i in 0..keys.len()
                invariant
                    keys@.to_set() == self.states@.dom(),
                    forall|j: int| 0 <= j < i ==> found@.contains(#[trigger] keys@[j]),
                    forall|x: usize| found@.contains(x) ==> self.states@.contains_key(x),
            {
                assert(keys@.to_set().contains(keys@[i as int]));
                found.insert(keys[i]);
            }
            assert forall|x: usize| self.states@.contains_key(x) implies found@.contains(x) by {
                assert(keys@.to_set().contains(x));
                let j = choose|j: int| 0 <= j < keys@.len() && keys@[j] == x;
                assert(found@.contains(keys@[j]));
            }
            assert(found@ =~= self.extension(label_index));
            found
        } else {
            match self.label_to_states.get(&label_index) {
                Some(set) => {
                    let found = set_copy(set);
                    assert(found@ =~= self.extension(label_index));
                    found
                },
                None => {
                    let found: HashSet<usize> = HashSet::new();
                    assert(found@ =~= self.extension(label_index));
                    found
                },
            }
        }
    }

    /// Whether `state_to_labels` lists the label under the state.
    pub fn state_has_label(&self, state: usize, label: usize) -> (yes: bool)
        ensures
            yes == self.carries(state, label),
    {
        match self.state_to_labels.get(&state) {
            Some(labels) => labels.contains(&label),
            None => false,
        }
    }

    /// Records in both tables that the label holds in the state.  Nothing
    /// else changes, nothing is ever taken out of a table, and tables that
    /// agreed still agree.
    pub fn add_state_for_label(&mut self, label: usize, state: usize)
        ensures
            final(self).states == old(self).states,
            final(self).transitions == old(self).transitions,
            final(self).labels == old(self).labels,
            final(self).initial_state == old(self).initial_state,
            forall|l: usize, s: usize| #[trigger]
                final(self).holds(l, s) <==> old(self).holds(l, s) || (l == label && s == state),
            forall|s: usize, l: usize| #[trigger]
                final(self).carries(s, l) <==> old(self).carries(s, l) || (l == label && s
                    == state),
            old(self).tables_agree() ==> final(self).tables_agree(),
            old(self).wf() && old(self).labels@.contains_key(label) && old(
                self,
            ).states@.contains_key(state) ==> final(self).wf(),
    {
        let mut states = match self.label_to_states.remove(&label) {
            Some(states) => states,
            None => HashSet::new(),
        };
        states.insert(state);
        self.label_to_states.insert(label, states);

        let mut labels = match self.state_to_labels.remove(&state) {
            Some(labels) => labels,
            None => HashSet::new(),
        };
        labels.insert(label);
        self.state_to_labels.insert(state, labels);
        proof {
            assert forall|l: usize, s: usize| #[trigger]
                self.holds(l, s) <==> old(self).holds(l, s) || (l == label && s == state) by {}
            assert forall|s: usize, l: usize| #[trigger]
                self.carries(s, l) <==> old(self).carries(s, l) || (l == label && s == state) by {}
            if old(self).tables_agree() {
                assert forall|l: usize, s: usize| #[trigger]
                    self.holds(l, s) <==> #[trigger] self.carries(s, l) by {
                    assert(old(self).holds(l, s) <==> old(self).carries(s, l));
                }
            }
            if old(self).wf() && old(self).labels@.contains_key(label) && old(
                self,
            ).states@.contains_key(state) {
                assert forall|l: usize, s: usize| #[trigger]
                    self.holds(l, s) <==> #[trigger] self.carries(s, l) by {
                    assert(old(self).holds(l, s) <==> old(self).carries(s, l));
                }
                assert forall|l: usize, s: usize| #[trigger] self.holds(l, s) implies self.labels@.contains_key(l)
                    && self.states@.contains_key(s) by {
                    if old(self).holds(l, s) {
                    }
                }
                assert forall|a: usize, b: usize| #[trigger] self.has_edge(a, b) implies self.states@.contains_key(b) by {
                    assert(old(self).has_edge(a, b));
                }
            }
        }
    }

    /// The predecessors of a state, each once.
    pub fn transitable_to(&self, state: usize) -> (sources: Vec<usize>)
        ensures
            forall|t: usize| sources@.contains(t) <==> self.has_edge(t, state),
            sources@.no_duplicates(),
    {
        let mut sources: Vec<usize> = Vec::new();
        let ghost raw = self.transitions.iter().remaining();
        let ghost all: Seq<(usize, HashSet<usize>)> = raw.unref();
        for pair in it: self.transitions.iter()
            invariant
                it.seq() == raw,
                raw.unref() == all,
                raw.no_duplicates(),
                all.to_set() == self.transitions@.kv_pairs(),
                forall|i: int|
                    0 <= i < all.len() ==> self.transitions@.contains_key((#[trigger] all[i]).0)
                        && self.transitions@[all[i].0] == all[i].1,
                forall|j: int|
                    0 <= j < it.index() && self.has_edge((#[trigger] all[j]).0, state)
                        ==> sources@.contains(all[j].0),
                forall|x: usize| #[trigger]
                    sources@.contains(x) ==> self.has_edge(x, state) && exists|j: int|
                        0 <= j < it.index() && (#[trigger] all[j]).0 == x,
                sources@.no_duplicates(),
        {
            let (from, to) = pair;
            let ghost at = it.index();
            assert(all[at] == (*from, *to));
            if to.contains(&state) {
                let ghost before = sources@;
                assert(!before.contains(*from)) by {
                    if before.contains(*from) {
                        let j = choose|j: int| 0 <= j < at && (#[trigger] all[j]).0 == *from;
                        assert(all[j].1 == all[at].1);
                        assert(*raw[j].0 == *raw[at].0);
                        assert(raw[j] == raw[at]);
                    }
                }
                sources.push(*from);
                assert forall|x: usize| #[trigger] sources@.contains(x) implies self.has_edge(x, state)
                    && exists|j: int| 0 <= j < at + 1 && (#[trigger] all[j]).0 == x by {
                    if x == *from {
                        assert(all[at].0 == x);
                    } else {
                        let i = choose|i: int| 0 <= i < sources@.len() && sources@[i] == x;
                        assert(before[i] == x);
                        assert(before.contains(x));
                    }
                }
                assert forall|j: int|
                    0 <= j < at + 1 && self.has_edge((#[trigger] all[j]).0, state) implies sources@.contains(
                    all[j].0,
                ) by {
                    if j < at {
                        assert(before.contains(all[j].0));
                        let i = choose|i: int| 0 <= i < before.len() && before[i] == all[j].0;
                        assert(sources@[i] == all[j].0);
                    } else {
                        assert(sources@[sources@.len() - 1] == *from);
                    }
                }
            }
        }
        proof {
            assert forall|t: usize| self.has_edge(t, state) implies sources@.contains(t) by {
                let kv = (t, self.transitions@[t]);
                assert(self.transitions@.kv_pairs().contains(kv));
                assert(all.to_set().contains(kv));
                let j = choose|j: int| 0 <= j < all.len() && all[j] == kv;
                assert(all[j].0 == t);
            }
        }
        sources
    }
}

impl Kripke {
    /// Every label has a name that is the key of no formula that gets a
    /// label but of its own atom: not `true`, and not beginning with `!`,
    /// `(` or `E`.
    pub open spec fn atom_labels(&self) -> bool {
        forall|l: usize| #[trigger]
            self.labels@.contains_key(l) ==> crate::keys::atom_only_name(self.labels@[l]@)
    }

    /// Whether every label has such a name.  The labels of a model that was
    /// built from a description and has such labels are sound.
    pub fn has_atom_labels(&self) -> (yes: bool)
        ensures
            yes == self.atom_labels(),
    {
        let ghost all: Seq<(usize, String)> = self.labels.iter().remaining().unref();
        for pair in it: self.labels.iter()
            invariant
                it.seq().unref() == all,
                all.to_set() == self.labels@.kv_pairs(),
                forall|i: int|
                    0 <= i < it.index() ==> crate::keys::atom_only_name((#[trigger] all[i]).1@),
        {
            let (id, name) = pair;
            assert(all[it.index()] == (*id, *name));
            assert(all.to_set().contains(all[it.index()]));
            if !crate::keys::is_atom_only_name(name.as_str()) {
                assert(self.labels@.contains_key(*id) && self.labels@[*id] == *name);
                return false;
            }
        }
        proof {
            assert forall|l: usize| #[trigger] self.labels@.contains_key(l) implies crate::keys::atom_only_name(
                self.labels@[l]@,
            ) by {
                let kv = (l, self.labels@[l]);
                assert(self.labels@.kv_pairs().contains(kv));
                assert(all.to_set().contains(kv));
                let i = choose|i: int| 0 <= i < all.len() && all[i] == kv;
                assert(crate::keys::atom_only_name(all[i].1@));
            }
        }
        true
    }
}

} // verus!
