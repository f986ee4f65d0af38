//! Building a model from the description of its states.

use crate::model::kripke::{lemma_names_of, names_of, Kripke};
use std::collections::{HashMap, HashSet};
use vstd::prelude::*;
use vstd::std_specs::hash::*;
use vstd::string::*;

verus! {

broadcast use vstd::std_specs::hash::group_hash_axioms;

/// One state as it is described: its id and name, the propositions that
/// hold in it and the ids of its successors.
#[derive(Debug, Clone)]
pub struct StateInfo {
    pub id: usize,
    pub name: String,
    pub labels: Vec<String>,
    pub transit_to: Vec<usize>,
}

/// The description of a model: its states and the id of the initial one.
#[derive(Debug, Clone)]
pub struct KripkeBuilder {
    pub states: Vec<StateInfo>,
    pub initial_state: usize,
}

/// Why a description is not the description of a model.
#[derive(Debug, Clone, Copy, PartialEq, Eq)]
pub enum ModelLoadError {
    /// Two states have the same id.
    DuplicateState,
    /// A successor is the id of no state.
    UnknownSuccessor,
    /// The initial state is the id of no state.
    UnknownInitialState,
    /// There are more labels than can be numbered.
    TooManyLabels,
}

/// Some state has the id `id`.
pub open spec fn declared(states: Seq<StateInfo>, id: usize) -> bool {
    exists|i: int| 0 <= i < states.len() && (#[trigger] states[i]).id == id
}

/// No two states have the same id.
pub open spec fn distinct_ids(states: Seq<StateInfo>) -> bool {
    forall|i: int, j: int|
        0 <= i < states.len() && 0 <= j < states.len() && i != j ==> (#[trigger] states[i]).id
            != (#[trigger] states[j]).id
}

/// `to` is listed as a successor of the state at place `i`.
pub open spec fn lists_successor(states: Seq<StateInfo>, i: int, to: usize) -> bool {
    0 <= i < states.len() && states[i].transit_to@.contains(to)
}

/// Every successor is the id of a state.
pub open spec fn successors_declared(states: Seq<StateInfo>) -> bool {
    forall|i: int, to: usize| #[trigger] lists_successor(states, i, to) ==> declared(states, to)
}

/// The description says that there is a transition from `from` to `to`.
pub open spec fn transits(states: Seq<StateInfo>, from: usize, to: usize) -> bool {
    exists|i: int| #[trigger] lists_successor(states, i, to) && states[i].id == from
}

/// The name at place `k` of the labels of the state at place `i`.
pub open spec fn label_at(states: Seq<StateInfo>, i: int, k: int) -> Seq<char> {
    states[i].labels@[k]@
}

/// `(i, k)` is a place in the lists of labels.
pub open spec fn label_place(states: Seq<StateInfo>, i: int, k: int) -> bool {
    0 <= i < states.len() && 0 <= k < states[i].labels@.len()
}

/// The description says that the proposition `name` holds in the state
/// `state`.
pub open spec fn says(states: Seq<StateInfo>, state: usize, name: Seq<char>) -> bool {
    exists|i: int, k: int| #[trigger]
        label_place(states, i, k) && states[i].id == state && label_at(states, i, k) == name
}

/// The names of `labels`, each added to `known` at its first occurrence.
pub open spec fn first_seen(known: Seq<Seq<char>>, labels: Seq<String>) -> Seq<Seq<char>>
    decreases labels.len(),
{
    if labels.len() == 0 {
        known
    } else {
        let before = first_seen(known, labels.drop_last());
        if before.contains(labels.last()@) {
            before
        } else {
            before.push(labels.last()@)
        }
    }
}

/// The label names of a description in the order of their first
/// occurrence: a label's place in this list is its id.
pub open spec fn label_names(states: Seq<StateInfo>) -> Seq<Seq<char>>
    decreases states.len(),
{
    if states.len() == 0 {
        Seq::empty()
    } else {
        first_seen(label_names(states.drop_last()), states.last().labels@)
    }
}

/// The model is the one that the description describes.
pub open spec fn describes(states: Seq<StateInfo>, initial: usize, model: &Kripke) -> bool {
    &&& model.initial_state == initial
    &&& forall|id: usize| model.states@.contains_key(id) <==> declared(states, id)
    &&& forall|i: int|
        0 <= i < states.len() ==> model.states@[(#[trigger] states[i]).id]@ == states[i].name@
    &&& forall|from: usize, to: usize| #[trigger]
        model.has_edge(from, to) <==> transits(states, from, to)
    &&& model.labels@.len() == label_names(states).len()
    &&& forall|l: usize|
        l < label_names(states).len() ==> #[trigger] model.names_label(l, label_names(states)[l as int])
    &&& forall|l: usize, s: usize| #[trigger]
        model.holds(l, s) <==> l < label_names(states).len() && says(
            states,
            s,
            label_names(states)[l as int],
        )
}

/// The table lists `to` under `from`.
pub open spec fn table_edge(table: Map<usize, HashSet<usize>>, from: usize, to: usize) -> bool {
    table.contains_key(from) && table[from]@.contains(to)
}

/// The set of the members of a list.
pub fn set_of(list: &Vec<usize>) -> (set: HashSet<usize>)
    ensures
        forall|x: usize| set@.contains(x) <==> list@.contains(x),
{
    let mut set: HashSet<usize> = HashSet::new();
    for k in 0..list.len()
        invariant
            forall|x: usize| set@.contains(x) <==> list@.take(k as int).contains(x),
    {
        let ghost earlier = list@.take(k as int);
        assert(list@.take(k + 1) =~= earlier.push(list@[k as int]));
        proof {
            assert forall|x: usize|
                set@.insert(list@[k as int]).contains(x) <==> earlier.push(
                    list@[k as int],
                ).contains(x) by {
                crate::lists::lemma_push_contains(earlier, list@[k as int], x);
            }
        }
        set.insert(list[k]);
    }
    assert(list@.take(list@.len() as int) =~= list@);
    set
}

/// The names and the transitions of the described states, unless two
/// states have the same id.
pub fn build_frame(states: &Vec<StateInfo>) -> (frame: Option<
    (HashMap<usize, String>, HashMap<usize, HashSet<usize>>),
>)
    ensures
        frame is Some <==> distinct_ids(states@),
        frame matches Some((names, transitions)) ==> {
            &&& forall|id: usize| names@.contains_key(id) <==> declared(states@, id)
            &&& forall|i: int|
                0 <= i < states@.len() ==> names@[(#[trigger] states@[i]).id]@ == states@[i].name@
            &&& transitions@.dom() =~= names@.dom()
            &&& forall|from: usize, to: usize| #[trigger]
                table_edge(transitions@, from, to) <==> transits(states@, from, to)
        },
{
    let mut names: HashMap<usize, String> = HashMap::new();
    let mut transitions: HashMap<usize, HashSet<usize>> = HashMap::new();
    for i in 0..states.len()
        invariant
            distinct_ids(states@.take(i as int)),
            forall|id: usize| names@.contains_key(id) <==> declared(states@.take(i as int), id),
            forall|j: int| 0 <= j < i ==> names@[(#[trigger] states@[j]).id]@ == states@[j].name@,
            transitions@.dom() =~= names@.dom(),
            forall|from: usize, to: usize| #[trigger]
                table_edge(transitions@, from, to) <==> transits(states@.take(i as int), from, to),
    {
        let state = &states[i];
        let ghost earlier = states@.take(i as int);
        let ghost grown = states@.take(i + 1);
        assert(grown =~= earlier.push(states@[i as int]));
        if names.contains_key(&state.id) {
            proof {
                let j = choose|j: int| 0 <= j < earlier.len() && (#[trigger] earlier[j]).id == state.id;
                assert(states@[j].id == states@[i as int].id);
            }
            return None;
        }
        let ghost names_before = names@;
        let ghost transitions_before = transitions@;
        names.insert(state.id, state.name.clone());
        let successors = set_of(&state.transit_to);
        transitions.insert(state.id, successors);
        proof {
            assert forall|a: int, b: int|
                0 <= a < grown.len() && 0 <= b < grown.len() && a != b implies (#[trigger] grown[a]).id
                != (#[trigger] grown[b]).id by {
                if a < i && b < i {
                    assert(earlier[a].id != earlier[b].id);
                } else if a < i {
                    assert(declared(earlier, earlier[a].id));
                } else {
                    assert(declared(earlier, earlier[b].id));
                }
            }
            assert forall|id: usize| names@.contains_key(id) <==> declared(grown, id) by {
                if declared(earlier, id) {
                    let j = choose|j: int| 0 <= j < earlier.len() && (#[trigger] earlier[j]).id == id;
                    assert(grown[j].id == id);
                }
                if id == state.id {
                    assert(grown[i as int].id == id);
                }
                if declared(grown, id) {
                    let j = choose|j: int| 0 <= j < grown.len() && (#[trigger] grown[j]).id == id;
                    if j < i {
                        assert(earlier[j].id == id);
                    }
                }
            }
            assert forall|j: int| 0 <= j < i + 1 implies names@[(#[trigger] states@[j]).id]@
                == states@[j].name@ by {
                if j < i {
                    assert(declared(earlier, earlier[j].id));
                }
            }
            assert forall|from: usize, to: usize| #[trigger]
                table_edge(transitions@, from, to) <==> transits(grown, from, to) by {
                assert(table_edge(transitions_before, from, to) <==> transits(earlier, from, to));
                if from == state.id {
                    assert(!declared(earlier, from));
                    if transits(earlier, from, to) {
                        let j = choose|j: int| #[trigger]
                            lists_successor(earlier, j, to) && earlier[j].id == from;
                        assert(declared(earlier, earlier[j].id));
                    }
                    if successors@.contains(to) {
                        assert(lists_successor(grown, i as int, to) && grown[i as int].id == from);
                    }
                    if transits(grown, from, to) {
                        let j = choose|j: int| #[trigger]
                            lists_successor(grown, j, to) && grown[j].id == from;
                        if j < i {
                            assert(declared(earlier, earlier[j].id));
                        }
                    }
                } else {
                    if transitions@.contains_key(from) {
                        assert(transitions@[from] == transitions_before[from]);
                    }
                    if transits(earlier, from, to) {
                        let j = choose|j: int| #[trigger]
                            lists_successor(earlier, j, to) && earlier[j].id == from;
                        assert(lists_successor(grown, j, to) && grown[j].id == from);
                    }
                    if transits(grown, from, to) {
                        let j = choose|j: int| #[trigger]
                            lists_successor(grown, j, to) && grown[j].id == from;
                        assert(lists_successor(earlier, j, to) && earlier[j].id == from);
                    }
                }
            }
        }
    }
    assert(states@.take(states@.len() as int) =~= states@);
    Some((names, transitions))
}

/// Whether every successor is the id of a state.
pub fn check_successors(states: &Vec<StateInfo>, names: &HashMap<usize, String>) -> (ok: bool)
    requires
        forall|id: usize| names@.contains_key(id) <==> declared(states@, id),
    ensures
        ok == successors_declared(states@),
{
    for i in 0..states.len()
        invariant
            forall|id: usize| names@.contains_key(id) <==> declared(states@, id),
            forall|j: int, to: usize|
                0 <= j < i && #[trigger] lists_successor(states@, j, to) ==> declared(states@, to),
    {
        let targets = &states[i].transit_to;
        for k in 0..targets.len()
            invariant
                0 <= i < states@.len(),
                *targets == states@[i as int].transit_to,
                forall|id: usize| names@.contains_key(id) <==> declared(states@, id),
                forall|x: int| 0 <= x < k ==> declared(states@, #[trigger] targets@[x]),
        {
            if !names.contains_key(&targets[k]) {
                assert(lists_successor(states@, i as int, targets@[k as int]));
                return false;
            }
        }
        assert forall|j: int, to: usize|
            0 <= j < i + 1 && #[trigger] lists_successor(states@, j, to) implies declared(
            states@,
            to,
        ) by {
            if j == i {
                let x = choose|x: int| 0 <= x < targets@.len() && targets@[x] == to;
                assert(declared(states@, targets@[x]));
            }
        }
    }
    true
}

/// Records that the proposition called `label` holds in `state`.  The label
/// is made where the name is new; where it is new and no id is left,
/// nothing is done and `false` is returned.
pub fn add_label(model: &mut Kripke, state: usize, label: &String) -> (ok: bool)
    requires
        old(model).wf(),
        old(model).states@.contains_key(state),
    ensures
        final(model).wf(),
        final(model).states == old(model).states,
        final(model).transitions == old(model).transitions,
        final(model).initial_state == old(model).initial_state,
        ok ==> names_of(final(model)) == if names_of(old(model)).contains(label@) {
            names_of(old(model))
        } else {
            names_of(old(model)).push(label@)
        },
        ok ==> forall|l: usize, s: usize| #[trigger]
            final(model).holds(l, s) <==> old(model).holds(l, s) || (s == state && l < names_of(
                final(model),
            ).len() && names_of(final(model))[l as int] == label@),
        !ok ==> *final(model) == *old(model) && !names_of(old(model)).contains(label@) && names_of(
            old(model),
        ).len() == usize::MAX,
{
    proof {
        lemma_names_of(model, label@);
    }
    let known = model.contains_label(label.as_str());
    if known.is_none() && model.labels.len() == usize::MAX {
        return false;
    }
    let id = model.get_label_id_or_add(label.as_str());
    let ghost named = *model;
    model.add_state_for_label(id, state);
    proof {
        let before = names_of(old(model));
        let after = names_of(model);
        assert(model.labels == named.labels);
        if old(model).has_label_named(label@) {
            assert(after =~= before);
        } else {
            assert(id == before.len());
            assert(named.labels@.dom().finite());
            assert(old(model).labels@.dom().finite());
            assert(named.labels@.len() == old(model).labels@.len() + 1);
            assert(after =~= before.push(label@)) by {
                assert forall|l: int| 0 <= l < after.len() implies after[l] == before.push(
                    label@,
                )[l] by {
                    if l < before.len() {
                        assert(old(model).labels@.contains_key(l as usize));
                    }
                }
            }
        }
        lemma_names_of(model, label@);
        assert forall|l: usize, s: usize| #[trigger]
            model.holds(l, s) <==> old(model).holds(l, s) || (s == state && l < after.len()
                && after[l as int] == label@) by {
            assert(model.holds(l, s) <==> named.holds(l, s) || (l == id && s == state));
            assert(named.holds(l, s) <==> old(model).holds(l, s));
            if l < after.len() && after[l as int] == label@ {
                assert(model.labels@.contains_key(l));
                assert(model.names_label(l, label@));
                assert(model.names_label(id, label@));
            }
        }
    }
    true
}

/// The label names after the first `i` states and the first `k` labels of
/// the next.
pub open spec fn names_at(states: Seq<StateInfo>, i: int, k: int) -> Seq<Seq<char>> {
    first_seen(label_names(states.take(i)), states[i].labels@.take(k))
}

/// The place `(a, b)` comes before the place `(i, k)`.
pub open spec fn place_before(a: int, b: int, i: int, k: int) -> bool {
    a < i || (a == i && b < k)
}

/// The description says at a place before `(i, k)` that the proposition
/// `name` holds in `state`.
pub open spec fn says_before(states: Seq<StateInfo>, i: int, k: int, state: usize, name: Seq<char>) -> bool {
    exists|a: int, b: int| #[trigger]
        label_place(states, a, b) && place_before(a, b, i, k) && states[a].id == state
            && label_at(states, a, b) == name
}

/// Names are added at the end and never taken away.
pub proof fn lemma_first_seen_grows(known: Seq<Seq<char>>, labels: Seq<String>)
    ensures
        known.len() <= first_seen(known, labels).len(),
    decreases labels.len(),
{
    if labels.len() > 0 {
        lemma_first_seen_grows(known, labels.drop_last());
    }
}

/// After part of the labels there are no more names than after all.
pub proof fn lemma_first_seen_part(known: Seq<Seq<char>>, labels: Seq<String>, k: int)
    requires
        0 <= k <= labels.len(),
    ensures
        first_seen(known, labels.take(k)).len() <= first_seen(known, labels).len(),
    decreases labels.len(),
{
    if k == labels.len() {
        assert(labels.take(k) =~= labels);
    } else {
        assert(labels.drop_last().take(k) =~= labels.take(k));
        lemma_first_seen_part(known, labels.drop_last(), k);
    }
}

/// After part of the states there are no more names than after all.
pub proof fn lemma_label_names_part(states: Seq<StateInfo>, i: int)
    requires
        0 <= i <= states.len(),
    ensures
        label_names(states.take(i)).len() <= label_names(states).len(),
    decreases states.len(),
{
    if i == states.len() {
        assert(states.take(i) =~= states);
    } else {
        assert(states.drop_last().take(i) =~= states.take(i));
        lemma_label_names_part(states.drop_last(), i);
        lemma_first_seen_grows(label_names(states.drop_last()), states.last().labels@);
    }
}

impl KripkeBuilder {
    /// The model that is described.
    ///
    /// Labels get their ids in the order in which their names first occur:
    /// 0 for the first, 1 for the next.  A description in which two states
    /// share an id, or a successor or the initial state is no state, is
    /// refused.
    pub fn build(self) -> (result: Result<Kripke, ModelLoadError>)
        ensures
            match result {
                Ok(model) => {
                    &&& model.wf()
                    &&& describes(self.states@, self.initial_state, &model)
                    &&& distinct_ids(self.states@)
                    &&& successors_declared(self.states@)
                    &&& declared(self.states@, self.initial_state)
                },
                Err(ModelLoadError::DuplicateState) => !distinct_ids(self.states@),
                Err(ModelLoadError::UnknownSuccessor) => distinct_ids(self.states@)
                    && !successors_declared(self.states@),
                Err(ModelLoadError::UnknownInitialState) => distinct_ids(self.states@)
                    && successors_declared(self.states@) && !declared(
                    self.states@,
                    self.initial_state,
                ),
                Err(ModelLoadError::TooManyLabels) => distinct_ids(self.states@)
                    && successors_declared(self.states@) && declared(
                    self.states@,
                    self.initial_state,
                ) && label_names(self.states@).len() > usize::MAX,
            },
    {
        let (names, transitions) = match build_frame(&self.states) {
            Some(frame) => frame,
            None => {
                return Err(ModelLoadError::DuplicateState);
            },
        };
        if !check_successors(&self.states, &names) {
            return Err(ModelLoadError::UnknownSuccessor);
        }
        if !names.contains_key(&self.initial_state) {
            return Err(ModelLoadError::UnknownInitialState);
        }
        let ghost states = self.states@;
        let mut model = Kripke {
            states: names,
            transitions,
            labels: HashMap::new(),
            label_to_states: HashMap::new(),
            state_to_labels: HashMap::new(),
            initial_state: self.initial_state,
        };
        proof {
            assert forall|a: usize, b: usize| #[trigger] model.has_edge(a, b) implies model.states@.contains_key(
                b,
            ) by {
                assert(table_edge(model.transitions@, a, b));
                let i = choose|i: int| #[trigger]
                    lists_successor(states, i, b) && states[i].id == a;
                assert(declared(states, b));
            }
            assert(model.labels@.len() == 0);
            assert(states.take(0) =~= Seq::<StateInfo>::empty());
        }
        let ghost frame = model;
        for i in 0..self.states.len()
            invariant
                states == self.states@,
                distinct_ids(states),
                successors_declared(states),
                declared(states, self.initial_state),
                model.wf(),
                model.states == frame.states,
                model.transitions == frame.transitions,
                model.initial_state == frame.initial_state,
                forall|id: usize| frame.states@.contains_key(id) <==> declared(states, id),
                names_of(&model) == label_names(states.take(i as int)),
                forall|l: usize, s: usize| #[trigger]
                    model.holds(l, s) <==> l < names_of(&model).len() && says_before(
                        states,
                        i as int,
                        0,
                        s,
                        names_of(&model)[l as int],
                    ),
        {
            let state = &self.states[i];
            assert(declared(states, states[i as int].id));
            assert(states.take(i + 1).drop_last() =~= states.take(i as int));
            assert(states[i as int].labels@.take(0) =~= Seq::<String>::empty());
            for k in 0..state.labels.len()
                invariant
                    states == self.states@,
                    distinct_ids(states),
                    successors_declared(states),
                    declared(states, self.initial_state),
                    0 <= i < states.len(),
                    *state == states[i as int],
                    model.wf(),
                    model.states == frame.states,
                    model.transitions == frame.transitions,
                    model.initial_state == frame.initial_state,
                    model.states@.contains_key(state.id),
                    names_of(&model) == names_at(states, i as int, k as int),
                    forall|l: usize, s: usize| #[trigger]
                        model.holds(l, s) <==> l < names_of(&model).len() && says_before(
                            states,
                            i as int,
                            k as int,
                            s,
                            names_of(&model)[l as int],
                        ),
            {
                let ghost before = model;
                let ghost known = names_of(&model);
                let label = &state.labels[k];
                proof {
                    assert(state.labels@.take(k + 1).drop_last() =~= state.labels@.take(k as int));
                    lemma_names_of(&model, label@);
                }
                if !add_label(&mut model, state.id, label) {
                    proof {
                        lemma_first_seen_part(
                            label_names(states.take(i as int)),
                            state.labels@,
                            k + 1,
                        );
                        assert(states.take(i + 1).last() == states[i as int]);
                        assert(states.take(i + 1).drop_last() =~= states.take(i as int));
                        assert(names_at(states, i as int, k + 1) == known.push(label@));
                        lemma_label_names_part(states, i + 1);
                    }
                    return Err(ModelLoadError::TooManyLabels);
                }
                proof {
                    let now = names_of(&model);
                    lemma_names_of(&model, label@);
                    assert forall|l: usize, s: usize| #[trigger]
                        model.holds(l, s) <==> l < now.len() && says_before(
                            states,
                            i as int,
                            k + 1,
                            s,
                            now[l as int],
                        ) by {
                        assert(before.holds(l, s) <==> l < known.len() && says_before(
                            states,
                            i as int,
                            k as int,
                            s,
                            known[l as int],
                        ));
                        if l < known.len() {
                            assert(now[l as int] == known[l as int]);
                        }
                        if l < now.len() {
                            let name = now[l as int];
                            if says_before(states, i as int, k as int, s, name) {
                                let (a, b) = choose|a: int, b: int| #[trigger]
                                    label_place(states, a, b) && place_before(a, b, i as int, k as int)
                                        && states[a].id == s && label_at(states, a, b) == name;
                                assert(label_place(states, a, b) && place_before(
                                    a,
                                    b,
                                    i as int,
                                    k + 1,
                                ));
                                if l >= known.len() {
                                    lemma_says_known(states, &before, i as int, k as int, s, name);
                                }
                            }
                            if s == state.id && name == label@ {
                                assert(label_place(states, i as int, k as int) && place_before(
                                    i as int,
                                    k as int,
                                    i as int,
                                    k + 1,
                                ) && label_at(states, i as int, k as int) == name);
                            }
                            if says_before(states, i as int, k + 1, s, name) {
                                let (a, b) = choose|a: int, b: int| #[trigger]
                                    label_place(states, a, b) && place_before(a, b, i as int, k + 1)
                                        && states[a].id == s && label_at(states, a, b) == name;
                                if place_before(a, b, i as int, k as int) {
                                    assert(says_before(states, i as int, k as int, s, name));
                                    lemma_says_known(states, &before, i as int, k as int, s, name);
                                }
                            }
                        }
                    }
                }
            }
            proof {
                assert(state.labels@.take(state.labels@.len() as int) =~= state.labels@);
                assert(states.take(i + 1).last() == states[i as int]);
                assert forall|l: usize, s: usize| #[trigger]
                    model.holds(l, s) <==> l < names_of(&model).len() && says_before(
                        states,
                        i + 1,
                        0,
                        s,
                        names_of(&model)[l as int],
                    ) by {
                    let full = state.labels@.len() as int;
                    if l < names_of(&model).len() {
                        let name = names_of(&model)[l as int];
                        if says_before(states, i as int, full, s, name) {
                            let (a, b) = choose|a: int, b: int| #[trigger]
                                label_place(states, a, b) && place_before(a, b, i as int, full)
                                    && states[a].id == s && label_at(states, a, b) == name;
                            assert(label_place(states, a, b) && place_before(a, b, i + 1, 0));
                        }
                        if says_before(states, i + 1, 0, s, name) {
                            let (a, b) = choose|a: int, b: int| #[trigger]
                                label_place(states, a, b) && place_before(a, b, i + 1, 0) && states[a].id
                                    == s && label_at(states, a, b) == name;
                            assert(label_place(states, a, b) && place_before(a, b, i as int, full));
                        }
                    }
                }
            }
        }
        proof {
            assert(states.take(states.len() as int) =~= states);
            let names = label_names(states);
            assert forall|l: usize| l < names.len() implies #[trigger] model.names_label(
                l,
                names[l as int],
            ) by {
                assert(names_of(&model)[l as int] == names[l as int]);
            }
            assert forall|l: usize, s: usize| #[trigger]
                model.holds(l, s) <==> l < names.len() && says(states, s, names[l as int]) by {
                let n = states.len() as int;
                if l < names.len() {
                    let name = names[l as int];
                    if says_before(states, n, 0, s, name) {
                        let (a, b) = choose|a: int, b: int| #[trigger]
                            label_place(states, a, b) && place_before(a, b, n, 0) && states[a].id == s
                                && label_at(states, a, b) == name;
                        assert(label_place(states, a, b) && states[a].id == s && label_at(states, a, b)
                            == name);
                    }
                    if says(states, s, name) {
                        let (a, b) = choose|a: int, b: int| #[trigger]
                            label_place(states, a, b) && states[a].id == s && label_at(states, a, b)
                                == name;
                        assert(label_place(states, a, b) && place_before(a, b, n, 0));
                    }
                }
            }
            assert forall|from: usize, to: usize| #[trigger]
                model.has_edge(from, to) <==> transits(states, from, to) by {
                assert(table_edge(model.transitions@, from, to) <==> transits(states, from, to));
            }
        }
        Ok(model)
    }
}

/// A name that the description has used before is the name of a label.
pub proof fn lemma_says_known(states: Seq<StateInfo>, model: &Kripke, i: int, k: int, s: usize, name: Seq<char>)
    requires
        model.wf(),
        0 <= i < states.len(),
        0 <= k <= states[i].labels@.len(),
        names_of(model) == names_at(states, i, k),
        says_before(states, i, k, s, name),
    ensures
        names_of(model).contains(name),
{
    let (a, b) = choose|a: int, b: int| #[trigger]
        label_place(states, a, b) && place_before(a, b, i, k) && states[a].id == s && label_at(
            states,
            a,
            b,
        ) == name;
    if a == i {
        lemma_seen_in_part(label_names(states.take(i)), states[i].labels@, k, b);
    } else {
        lemma_seen_in_states(states, i, a, b);
        lemma_seen_kept(label_names(states.take(i)), states[i].labels@.take(k), name);
    }
}

/// What was known stays known.
pub proof fn lemma_seen_kept(known: Seq<Seq<char>>, labels: Seq<String>, name: Seq<char>)
    requires
        known.contains(name),
    ensures
        first_seen(known, labels).contains(name),
    decreases labels.len(),
{
    if labels.len() > 0 {
        lemma_seen_kept(known, labels.drop_last(), name);
        crate::lists::lemma_push_contains(first_seen(known, labels.drop_last()), labels.last()@, name);
    }
}

/// The name at place `b` is known after `k > b` labels.
pub proof fn lemma_seen_in_part(known: Seq<Seq<char>>, labels: Seq<String>, k: int, b: int)
    requires
        0 <= b < k <= labels.len(),
    ensures
        first_seen(known, labels.take(k)).contains(labels[b]@),
    decreases k,
{
    let part = labels.take(k);
    assert(part.drop_last() =~= labels.take(k - 1));
    let before = first_seen(known, part.drop_last());
    crate::lists::lemma_push_contains(before, part.last()@, labels[b]@);
    if b < k - 1 {
        lemma_seen_in_part(known, labels, k - 1, b);
    }
}

/// The name at place `(a, b)` is known after `i > a` states.
pub proof fn lemma_seen_in_states(states: Seq<StateInfo>, i: int, a: int, b: int)
    requires
        0 <= a < i <= states.len(),
        0 <= b < states[a].labels@.len(),
    ensures
        label_names(states.take(i)).contains(states[a].labels@[b]@),
    decreases i,
{
    let part = states.take(i);
    assert(part.drop_last() =~= states.take(i - 1));
    assert(part.last() == states[i - 1]);
    if a == i - 1 {
        let labels = states[a].labels@;
        assert(labels.take(labels.len() as int) =~= labels);
        lemma_seen_in_part(label_names(states.take(i - 1)), labels, labels.len() as int, b);
    } else {
        lemma_seen_in_states(states, i - 1, a, b);
        lemma_seen_kept(label_names(states.take(i - 1)), states[i - 1].labels@, states[a].labels@[b]@);
    }
}

} // verus!
