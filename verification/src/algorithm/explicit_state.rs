//! Explicit-state CTL model checking by labelling.
//!
//! Every subformula gets a label whose extension is the set of states in
//! which it holds.  Labels are found again by the canonical key of their
//! formula, so nothing is computed twice.

use crate::algorithm::labelling::{
    chained, filled, grew, lemma_chained_holds, lemma_extension_in_states,
    lemma_filled_extensions, lemma_filled_twice, lemma_fresh_is_empty, lemma_grew_step,
    lemma_grew_twice, lemma_kept, lemma_named_same, lemma_still_unnamed, unmarked,
};
use crate::algorithm::soundness::{
    all_labelled, answer_ext, answers, binary_of, checkable, first_fault, fresh_keys, grown,
    labelled, labels_sound, lemma_basis_is_normal, lemma_composite_key, lemma_fault_meaning,
    lemma_found, lemma_label_made, lemma_label_sound, lemma_labelled_twice, lemma_operand,
    lemma_still_labelled, memo_ok, normal, refused_root, state_part, unary_of,
};
use crate::ctl::{to_normal_form, CTLFormulae, Ctl};
use crate::keys::{lemma_rewrite_plain, plain};
use crate::laws::{lemma_normalize_keeps_sat, needs_successors};
use crate::lists::{select, some_in};
use crate::model::graph::{listed, placed};
use crate::model::kripke::{lemma_names_of, names_of, Kripke, TRUE_ID};
use crate::semantics::{
    lemma_eg_by_cycles, lemma_eu_least, lemma_eu_seed, lemma_eu_step,
    lemma_on_cycle_in, sat,
};
use vstd::prelude::*;
use vstd::std_specs::hash::*;

verus! {

broadcast use vstd::std_specs::hash::group_hash_axioms;

/// Why a formula could not be checked.
#[derive(Debug)]
pub enum CheckError {
    /// The formula names a proposition that labels no state of the model.
    UnknownAtomic(String),
    /// The formula is not over the operator basis.
    NotInNormalForm,
    /// The labels of the model and those that the formula may need are more
    /// than can be numbered.
    TooManyLabels,
}

/// Adds the listed states to the extension of a label.  Nothing is taken
/// from a table, whatever the model and the label.
pub fn add_states_for_label(model: &mut Kripke, id: usize, states: &Vec<usize>)
    ensures
        grew(old(model), final(model), id),
        states@.len() == 0 ==> *final(model) == *old(model),
        old(model).wf() && old(model).labels@.contains_key(id) && (forall|i: int|
            0 <= i < states@.len() ==> old(model).states@.contains_key(states@[i])) ==> filled(
            old(model),
            final(model),
            id,
            states@.to_set(),
        ),
{
    let ghost exact = old(model).wf() && old(model).labels@.contains_key(id) && (forall|i: int|
        0 <= i < states@.len() ==> old(model).states@.contains_key(states@[i]));
    proof {
        reveal(grew);
        if exact {
            assert(states@.take(0).to_set() =~= Set::<usize>::empty());
        }
    }
    for i in 0..states.len()
        invariant
            grew(old(model), model, id),
            states@.len() == 0 ==> *model == *old(model),
            exact ==> model.labels@.contains_key(id),
            exact ==> forall|i: int|
                0 <= i < states@.len() ==> model.states@.contains_key(states@[i]),
            exact ==> filled(old(model), model, id, states@.take(i as int).to_set()),
    {
        let ghost before = *model;
        model.add_state_for_label(id, states[i]);
        proof {
            lemma_grew_step(&before, model, id, states@[i as int]);
            lemma_grew_twice(old(model), &before, model, id);
            if exact {
                let earlier = states@.take(i as int);
                let seen = earlier.to_set();
                let grown = states@.take(i + 1).to_set();
                assert(states@.take(i + 1) =~= earlier.push(states@[i as int]));
                earlier.lemma_push_to_set_commute(states@[i as int]);
                assert(grown == seen.insert(states@[i as int]));
                assert forall|l: usize, s: usize| #[trigger]
                    model.holds(l, s) <==> old(model).holds(l, s) || (l == id && grown.contains(
                        s,
                    )) by {
                    assert(before.holds(l, s) <==> old(model).holds(l, s) || (l == id
                        && seen.contains(s)));
                }
            }
        }
    }
    assert(states@.take(states@.len() as int) =~= states@);
}

/// Labels with `not_id` the states in which `f_idx` does not hold.
///
/// Whatever the model and the labels, nothing is taken from a table.  That
/// the label then holds in those states, and besides them only where it
/// held before, is promised where it is a label of a well-formed model.
pub fn check_not(model: &mut Kripke, not_id: usize, f_idx: usize)
    ensures
        grew(old(model), final(model), not_id),
        old(model).wf() && old(model).labels@.contains_key(not_id) ==> filled(
            old(model),
            final(model),
            not_id,
            old(model)@.frame.complement(old(model).extension(f_idx)),
        ),
{
    let held = model.get_state_with_label_as_set(f_idx);
    let all = model.get_state_with_label(usize::MAX);
    let picked = select(&all, &held, false);
    proof {
        if model.wf() {
            assert forall|x: usize| picked@.to_set().contains(x) <==> model@.frame.complement(
                model.extension(f_idx),
            ).contains(x) by {
                assert(all@.to_set().contains(x) <==> all@.contains(x));
            }
            assert(picked@.to_set() =~= model@.frame.complement(model.extension(f_idx)));
            assert forall|i: int| 0 <= i < picked@.len() implies model.states@.contains_key(
                picked@[i],
            ) by {
                assert(picked@.contains(picked@[i]));
                assert(all@.to_set().contains(picked@[i]));
            }
        }
    }
    add_states_for_label(model, not_id, &picked);
}

/// Labels with `and_id` the states in which both `f1_idx` and `f2_idx` hold.
///
/// Whatever the model and the labels, nothing is taken from a table.  That
/// the label then holds in those states, and besides them only where it
/// held before, is promised where it is a label of a well-formed model.
pub fn check_and(model: &mut Kripke, and_id: usize, f1_idx: usize, f2_idx: usize)
    ensures
        grew(old(model), final(model), and_id),
        old(model).wf() && old(model).labels@.contains_key(and_id) ==> filled(
            old(model),
            final(model),
            and_id,
            old(model).extension(f1_idx).intersect(old(model).extension(f2_idx)),
        ),
{
    let s1 = model.get_state_with_label(f1_idx);
    let s2 = model.get_state_with_label_as_set(f2_idx);
    let picked = select(&s1, &s2, true);
    proof {
        if model.wf() {
            lemma_extension_in_states(model, f1_idx);
            assert forall|x: usize| picked@.to_set().contains(x) <==> model.extension(
                f1_idx,
            ).intersect(model.extension(f2_idx)).contains(x) by {
                assert(s1@.to_set().contains(x) <==> s1@.contains(x));
            }
            assert(picked@.to_set() =~= model.extension(f1_idx).intersect(
                model.extension(f2_idx),
            ));
            assert forall|i: int| 0 <= i < picked@.len() implies model.states@.contains_key(
                picked@[i],
            ) by {
                assert(picked@.contains(picked@[i]));
                assert(s1@.to_set().contains(picked@[i]));
            }
        }
    }
    add_states_for_label(model, and_id, &picked);
}

/// Labels with `or_id` the states in which `f1_idx` or `f2_idx` holds.
///
/// Whatever the model and the labels, nothing is taken from a table.  That
/// the label then holds in those states, and besides them only where it
/// held before, is promised where it is a label of a well-formed model.
pub fn check_or(model: &mut Kripke, or_id: usize, f1_idx: usize, f2_idx: usize)
    ensures
        grew(old(model), final(model), or_id),
        old(model).wf() && old(model).labels@.contains_key(or_id) ==> filled(
            old(model),
            final(model),
            or_id,
            old(model).extension(f1_idx).union(old(model).extension(f2_idx)),
        ),
{
    let s1 = model.get_state_with_label(f1_idx);
    let s2 = model.get_state_with_label(f2_idx);
    proof {
        if model.wf() {
            lemma_extension_in_states(model, f1_idx);
            lemma_extension_in_states(model, f2_idx);
            assert forall|i: int| 0 <= i < s1@.len() implies model.states@.contains_key(
                s1@[i],
            ) by {
                assert(s1@.to_set().contains(s1@[i]));
            }
            assert forall|i: int| 0 <= i < s2@.len() implies model.states@.contains_key(
                s2@[i],
            ) by {
                assert(s2@.to_set().contains(s2@[i]));
            }
        }
    }
    add_states_for_label(model, or_id, &s1);
    let ghost between = *model;
    add_states_for_label(model, or_id, &s2);
    proof {
        lemma_grew_twice(old(model), &between, model, or_id);
        if old(model).wf() && old(model).labels@.contains_key(or_id) {
            lemma_filled_twice(old(model), &between, model, or_id, s1@.to_set(), s2@.to_set());
        }
    }
}

/// Labels with `en_id` the states that have a successor in which `f_idx`
/// holds.
///
/// Whatever the model and the labels, nothing is taken from a table.  That
/// the label then holds in those states, and besides them only where it
/// held before, is promised where it is a label of a well-formed model.
pub fn check_exist_next(model: &mut Kripke, en_id: usize, f_idx: usize)
    ensures
        grew(old(model), final(model), en_id),
        old(model).wf() && old(model).labels@.contains_key(en_id) ==> filled(
            old(model),
            final(model),
            en_id,
            old(model)@.frame.ex(old(model).extension(f_idx)),
        ),
{
    let targets = model.get_state_with_label(f_idx);
    let all = model.get_state_with_label(usize::MAX);
    let mut picked: Vec<usize> = Vec::new();
    let ghost goal = model.extension(f_idx);
    for i in 0..all.len()
        invariant
            *model == *old(model),
            targets@.to_set() == goal,
            all@.to_set() == model.states@.dom(),
            model.wf() ==> forall|x: usize| #[trigger]
                picked@.contains(x) ==> model.states@.contains_key(x) && model@.frame.ex(
                    goal,
                ).contains(x),
            model.wf() ==> forall|j: int|
                0 <= j < i && model@.frame.ex(goal).contains(#[trigger] all@[j])
                    ==> picked@.contains(all@[j]),
    {
        let s = all[i];
        let ghost before = picked@;
        match model.transitions.get(&s) {
            Some(successors) => {
                if some_in(&targets, successors) {
                    picked.push(s);
                    proof {
                        if model.wf() {
                            let k = choose|k: int|
                                0 <= k < targets@.len() && successors@.contains(#[trigger] targets@[k]);
                            let t = targets@[k];
                            assert(targets@.to_set().contains(t));
                            assert(model.has_edge(s, t));
                            assert(model@.frame.edge(s, t));
                            assert(picked@[before.len() as int] == s);
                            assert forall|x: usize| #[trigger] picked@.contains(x) implies model.states@.contains_key(
                                x,
                            ) && model@.frame.ex(goal).contains(x) by {
                                let j = choose|j: int| 0 <= j < picked@.len() && picked@[j] == x;
                                if j < before.len() {
                                    assert(before[j] == x);
                                    assert(before.contains(x));
                                } else {
                                    assert(model@.frame.edge(s, t) && goal.contains(t));
                                }
                            }
                        }
                    }
                } else {
                    proof {
                        if model.wf() {
                            if model@.frame.ex(goal).contains(s) {
                                let t = choose|t: usize| #[trigger] model@.frame.edge(s, t) && goal.contains(t);
                                assert(targets@.to_set().contains(t));
                                let k = choose|k: int| 0 <= k < targets@.len() && targets@[k] == t;
                                assert(successors@.contains(targets@[k]));
                            }
                        }
                    }
                }
            },
            None => {
                proof {
                    if model.wf() {
                        if model@.frame.ex(goal).contains(s) {
                            let t = choose|t: usize| #[trigger] model@.frame.edge(s, t) && goal.contains(t);
                            assert(model.has_edge(s, t));
                        }
                    }
                }
            },
        }
        proof {
            if model.wf() {
                assert forall|j: int|
                    0 <= j < i + 1 && model@.frame.ex(goal).contains(#[trigger] all@[j]) implies picked@.contains(
                    all@[j],
                ) by {
                    if j < i {
                        assert(before.contains(all@[j]));
                        let k = choose|k: int| 0 <= k < before.len() && before[k] == all@[j];
                        assert(picked@[k] == all@[j]);
                    }
                }
            }
        }
    }
    proof {
        if model.wf() {
            assert forall|x: usize| model@.frame.ex(goal).contains(x) implies picked@.to_set().contains(
                x,
            ) by {
                let t = choose|t: usize| #[trigger] model@.frame.edge(x, t) && goal.contains(t);
                assert(all@.to_set().contains(x));
                let j = choose|j: int| 0 <= j < all@.len() && all@[j] == x;
                assert(picked@.contains(all@[j]));
            }
            assert(picked@.to_set() =~= model@.frame.ex(goal));
            assert forall|i: int| 0 <= i < picked@.len() implies model.states@.contains_key(
                picked@[i],
            ) by {
                assert(picked@.contains(picked@[i]));
            }
        }
    }
    add_states_for_label(model, en_id, &picked);
}

/// The labels of the model are known, `id` is one of them, is not
/// `hold_idx` and holds nowhere yet, and the seeds are states: what
/// `propagate_back` is made for.
pub open spec fn fresh_for(model: &Kripke, id: usize, hold_idx: usize, seeds: Seq<usize>) -> bool {
    &&& model.wf()
    &&& model.labels@.contains_key(id)
    &&& id != hold_idx
    &&& forall|s: usize| !model.holds(id, s)
    &&& forall|i: int| 0 <= i < seeds.len() ==> model.states@.contains_key(seeds[i])
}

/// Labels with `id` every state from which a walk through the extension of
/// `hold_idx` leads to one of the seeds.
///
/// The seeds are labelled first and form the worklist.  Each state taken
/// from the worklist has its predecessors looked at: one that is in the
/// extension of `hold_idx` and not labelled yet is labelled and put on the
/// worklist.  A state is labelled once and never unlabelled, so each state
/// comes on the worklist at most once.
///
/// Whatever the model and the label, nothing is taken from a table.  That
/// the label then holds exactly in those states is promised where it is a
/// label of a well-formed model that held nowhere and is not `hold_idx`.
pub fn propagate_back(model: &mut Kripke, id: usize, hold_idx: usize, seeds: Vec<usize>)
    ensures
        grew(old(model), final(model), id),
        seeds@.len() == 0 ==> *final(model) == *old(model),
        fresh_for(old(model), id, hold_idx, seeds@) ==> filled(
            old(model),
            final(model),
            id,
            old(model)@.frame.eu(old(model).extension(hold_idx), seeds@.to_set()),
        ),
{
    let ghost exact = fresh_for(old(model), id, hold_idx, seeds@);
    let ghost m = old(model)@.frame;
    let ghost hold = old(model).extension(hold_idx);
    let ghost goal = seeds@.to_set();
    let ghost target = m.eu(hold, goal);
    add_states_for_label(model, id, &seeds);
    let mut worklist = seeds;
    proof {
        reveal(grew);
        if exact {
            assert forall|s: usize| model.extension(id).contains(s) implies target.contains(s) by {
                assert(model.holds(id, s));
                assert(goal.contains(s));
                let i = choose|i: int| 0 <= i < seeds@.len() && seeds@[i] == s;
                lemma_eu_seed(m, hold, goal, s);
            }
            assert forall|i: int| 0 <= i < worklist@.len() implies model.extension(id).contains(
                #[trigger] worklist@[i],
            ) by {
                assert(goal.contains(worklist@[i]));
                assert(model.holds(id, worklist@[i]));
            }
            assert forall|s: usize| #[trigger]
                model.extension(id).contains(s) implies worklist@.contains(s) || m.closed_at(
                hold,
                model.extension(id),
                s,
            ) by {
                assert(model.holds(id, s));
                assert(goal.contains(s));
            }
            assert(model.extension(id) =~= model.extension(id));
            assert forall|l: usize, x: usize| #[trigger]
                model.holds(l, x) <==> old(model).holds(l, x) || (l == id && model.extension(
                    id,
                ).contains(x)) by {}
        }
    }
    while worklist.len() > 0
        invariant
            grew(old(model), model, id),
            seeds@.len() == 0 ==> worklist@.len() == 0 && *model == *old(model),
            exact == fresh_for(old(model), id, hold_idx, seeds@),
            m == old(model)@.frame,
            hold == old(model).extension(hold_idx),
            goal == seeds@.to_set(),
            target == m.eu(hold, goal),
            exact ==> filled(old(model), model, id, model.extension(id)),
            exact ==> model.extension(id).subset_of(target),
            exact ==> goal.subset_of(model.extension(id)),
            exact ==> forall|i: int|
                0 <= i < worklist@.len() ==> model.extension(id).contains(#[trigger] worklist@[i]),
            exact ==> forall|s: usize| #[trigger]
                model.extension(id).contains(s) ==> worklist@.contains(s) || m.closed_at(
                    hold,
                    model.extension(id),
                    s,
                ),
        decreases unmarked(model, id).len(), worklist@.len(),
    {
        let ghost marked_at_start = model.extension(id);
        let ghost unmarked_at_start = unmarked(model, id);
        let ghost worklist_at_start = worklist@;
        let s = worklist.pop().unwrap();
        let sources = model.transitable_to(s);
        proof {
            reveal(grew);
            if exact {
                assert(marked_at_start.contains(s)) by {
                    assert(marked_at_start.contains(
                        worklist_at_start[worklist_at_start.len() - 1],
                    ));
                }
                assert forall|x: usize| #[trigger] model.extension(id).contains(x) implies x == s
                    || worklist@.contains(x) || m.closed_at(hold, model.extension(id), x) by {
                    if worklist_at_start.contains(x) {
                        let i = choose|i: int|
                            0 <= i < worklist_at_start.len() && worklist_at_start[i] == x;
                        if i < worklist@.len() {
                            assert(worklist@[i] == x);
                        }
                    }
                }
            }
        }
        for j in 0..sources.len()
            invariant
                grew(old(model), model, id),
                seeds@.len() > 0,
                exact == fresh_for(old(model), id, hold_idx, seeds@),
                m == old(model)@.frame,
                hold == old(model).extension(hold_idx),
                goal == seeds@.to_set(),
                target == m.eu(hold, goal),
                forall|t: usize| sources@.contains(t) <==> old(model).has_edge(t, s),
                unmarked(model, id).subset_of(unmarked_at_start),
                unmarked_at_start.finite(),
                (unmarked(model, id) == unmarked_at_start && worklist@.len() + 1
                    == worklist_at_start.len()) || unmarked(model, id).len()
                    < unmarked_at_start.len(),
                exact ==> filled(old(model), model, id, model.extension(id)),
                exact ==> model.extension(id).subset_of(target),
                exact ==> goal.subset_of(model.extension(id)),
                exact ==> marked_at_start.subset_of(model.extension(id)),
                exact ==> model.extension(id).contains(s),
                exact ==> forall|i: int|
                    0 <= i < worklist@.len() ==> model.extension(id).contains(
                        #[trigger] worklist@[i],
                    ),
                exact ==> forall|x: usize| #[trigger]
                    model.extension(id).contains(x) ==> x == s || worklist@.contains(x)
                        || m.closed_at(hold, model.extension(id), x),
                exact ==> forall|k: int|
                    0 <= k < j && hold.contains(#[trigger] sources@[k]) ==> model.extension(
                        id,
                    ).contains(sources@[k]),
        {
            let t = sources[j];
            let ghost before = *model;
            let ghost marked = model.extension(id);
            let ghost listed = worklist@;
            proof {
                reveal(grew);
            }
            assert(sources@.contains(t));
            assert(old(model).has_edge(t, s));
            let in_hold = hold_idx == usize::MAX || model.state_has_label(t, hold_idx);
            let is_marked = model.state_has_label(t, id);
            proof {
                if exact {
                    assert(m.edge(t, s)) by {
                        lemma_extension_in_states(old(model), TRUE_ID);
                        lemma_filled_extensions(old(model), &before, id, marked);
                        assert(target.contains(s));
                        let p = choose|p: Seq<usize>| #[trigger] m.leads(p, s, hold, goal);
                        assert(m.states.contains(p[0]));
                    }
                    assert(in_hold == hold.contains(t)) by {
                        if hold_idx != TRUE_ID {
                            assert(model.holds(hold_idx, t) <==> model.carries(t, hold_idx));
                            assert(model.holds(hold_idx, t) <==> old(model).holds(hold_idx, t));
                        }
                    }
                    assert(is_marked == marked.contains(t)) by {
                        assert(model.holds(id, t) <==> model.carries(t, id));
                    }
                }
            }
            if in_hold && !is_marked {
                model.add_state_for_label(id, t);
                worklist.push(t);
                proof {
                    lemma_grew_step(&before, model, id, t);
                    lemma_grew_twice(old(model), &before, model, id);
                    assert(unmarked(model, id) =~= unmarked(&before, id).remove(t)) by {
                        assert forall|x: usize| unmarked(model, id).contains(x) <==> unmarked(
                            &before,
                            id,
                        ).remove(t).contains(x) by {
                            assert(model.carries(x, id) <==> before.carries(x, id) || x == t);
                        }
                    }
                    assert(unmarked(&before, id).contains(t));
                    vstd::set_lib::lemma_len_subset(unmarked(&before, id), unmarked_at_start);
                    if exact {
                        let now = model.extension(id);
                        assert(now =~= marked.insert(t)) by {
                            assert forall|x: usize| now.contains(x) <==> marked.insert(
                                t,
                            ).contains(x) by {
                                assert(model.holds(id, x) <==> before.holds(id, x) || x == t);
                            }
                        }
                        assert forall|l: usize, x: usize| #[trigger]
                            model.holds(l, x) <==> old(model).holds(l, x) || (l == id
                                && now.contains(x)) by {
                            assert(before.holds(l, x) <==> old(model).holds(l, x) || (l == id
                                && marked.contains(x)));
                        }
                        lemma_eu_step(m, hold, goal, t, s);
                        assert forall|i: int| 0 <= i < worklist@.len() implies now.contains(
                            #[trigger] worklist@[i],
                        ) by {
                            if i < listed.len() {
                                assert(marked.contains(listed[i]));
                            }
                        }
                        assert forall|x: usize| #[trigger] now.contains(x) implies x == s
                            || worklist@.contains(x) || m.closed_at(hold, now, x) by {
                            if x == t {
                                assert(worklist@[listed.len() as int] == t);
                            } else if x != s {
                                assert(marked.contains(x));
                                if listed.contains(x) {
                                    let i = choose|i: int| 0 <= i < listed.len() && listed[i] == x;
                                    assert(worklist@[i] == x);
                                } else {
                                    assert(m.closed_at(hold, marked, x));
                                }
                            }
                        }
                    }
                }
            }
        }
        proof {
            if exact {
                let now = model.extension(id);
                assert(m.closed_at(hold, now, s)) by {
                    assert forall|t: usize| #[trigger] m.edge(t, s) && hold.contains(t) implies now.contains(
                        t,
                    ) by {
                        assert(old(model).has_edge(t, s));
                        assert(sources@.contains(t));
                        let k = choose|k: int| 0 <= k < sources@.len() && sources@[k] == t;
                        assert(hold.contains(sources@[k]));
                    }
                }
            }
        }
    }
    proof {
        if exact {
            let marked = model.extension(id);
            assert(m.closed_back(hold, marked)) by {
                assert forall|t: usize, s: usize| #[trigger]
                    m.edge(t, s) && hold.contains(t) && marked.contains(s) implies marked.contains(
                    t,
                ) by {
                    assert(!worklist@.contains(s));
                    assert(m.closed_at(hold, marked, s));
                }
            }
            lemma_eu_least(m, hold, goal, marked);
            assert(marked =~= target);
        }
    }
}

/// Labels with `eu_id` the states from which a walk through the extension
/// of `f1_idx` leads into the extension of `f2_idx`.
///
/// Whatever the model and the labels, nothing is taken from a table.  That
/// the label then holds exactly in those states is promised where it is a
/// label of a well-formed model that held nowhere and is not `f1_idx`.
pub fn check_exist_until(model: &mut Kripke, eu_id: usize, f1_idx: usize, f2_idx: usize)
    ensures
        grew(old(model), final(model), eu_id),
        old(model).wf() && old(model).labels@.contains_key(eu_id) && eu_id != f1_idx && (
        forall|s: usize| !old(model).holds(eu_id, s)) ==> filled(
            old(model),
            final(model),
            eu_id,
            old(model)@.frame.eu(old(model).extension(f1_idx), old(model).extension(f2_idx)),
        ),
{
    let seeds = model.get_state_with_label(f2_idx);
    proof {
        if model.wf() {
            lemma_extension_in_states(model, f2_idx);
            assert forall|i: int| 0 <= i < seeds@.len() implies model.states@.contains_key(
                seeds@[i],
            ) by {
                assert(seeds@.to_set().contains(seeds@[i]));
            }
        }
    }
    propagate_back(model, eu_id, f1_idx, seeds);
}

/// All members of all lists, in one list.
pub fn flatten(lists: &Vec<Vec<usize>>) -> (flat: Vec<usize>)
    ensures
        flat@ == chained(lists@),
        forall|x: usize| flat@.contains(x) <==> listed(lists@, x),
{
    let mut flat: Vec<usize> = Vec::new();
    assert(lists@.take(0) =~= Seq::<Vec<usize>>::empty());
    for i in 0..lists.len()
        invariant
            flat@ == chained(lists@.take(i as int)),
    {
        let list = &lists[i];
        let ghost at_start = flat@;
        for j in 0..list.len()
            invariant
                flat@ == at_start + list@.take(j as int),
        {
            assert(list@.take(j + 1) =~= list@.take(j as int).push(list@[j as int]));
            flat.push(list[j]);
            assert(flat@ =~= at_start + list@.take(j + 1));
        }
        proof {
            assert(list@.take(list@.len() as int) =~= list@);
            assert(lists@.take(i + 1).drop_last() =~= lists@.take(i as int));
            assert(lists@.take(i + 1).last() == lists@[i as int]);
        }
    }
    proof {
        assert(lists@.take(lists@.len() as int) =~= lists@);
        assert forall|x: usize| flat@.contains(x) <==> listed(lists@, x) by {
            lemma_chained_holds(lists@, x);
        }
    }
    flat
}

/// Labels with `eg_id` the states from which a run stays in the extension
/// of `f_idx` for ever.
///
/// The states of that extension that lie on a cycle inside it are found as
/// the members of its strongly connected components; every state from which
/// a walk inside the extension leads to one of them is labelled.
///
/// Whatever the labels, nothing is taken from a table, and nothing is done
/// at all where `f_idx` holds nowhere.  That the label then holds exactly in
/// those states is promised where it is a label that held nowhere and is
/// not `f_idx`.
pub fn check_exist_globally(model: &mut Kripke, eg_id: usize, f_idx: usize)
    requires
        old(model).wf(),
    ensures
        grew(old(model), final(model), eg_id),
        old(model).extension(f_idx) =~= Set::<usize>::empty() ==> *final(model) == *old(model),
        old(model).labels@.contains_key(eg_id) && eg_id != f_idx && (forall|s: usize|
            !old(model).holds(eg_id, s)) ==> filled(
            old(model),
            final(model),
            eg_id,
            old(model)@.frame.eg(old(model).extension(f_idx)),
        ),
{
    let s_prime = model.get_state_with_label(f_idx);
    let sccs = model.non_trivial_scc_of(s_prime.as_slice());
    let seeds = flatten(&sccs);
    let ghost m = model@.frame;
    let ghost hold = model.extension(f_idx);
    proof {
        assert(s_prime@.to_set() == hold);
        assert forall|x: usize| seeds@.to_set().contains(x) <==> m.cyclic(hold).contains(x) by {
            assert(seeds@.to_set().contains(x) <==> seeds@.contains(x));
            if listed(sccs@, x) {
                let (a, b) = choose|a: int, b: int| #[trigger]
                    placed(sccs@, a, b) && sccs@[a]@[b] == x;
            }
        }
        assert(seeds@.to_set() =~= m.cyclic(hold));
        assert forall|i: int| 0 <= i < seeds@.len() implies model.states@.contains_key(
            seeds@[i],
        ) by {
            assert(seeds@.to_set().contains(seeds@[i]));
            lemma_on_cycle_in(m, seeds@[i], hold);
        }
        lemma_eg_by_cycles(m, hold);
        if hold =~= Set::<usize>::empty() {
            if seeds@.len() > 0 {
                assert(seeds@.to_set().contains(seeds@[0]));
                lemma_on_cycle_in(m, seeds@[0], hold);
            }
        }
    }
    propagate_back(model, eg_id, f_idx, seeds);
}

/// The formulae with one operand that get a label.
#[derive(Clone, Copy, Debug, PartialEq, Eq)]
pub enum Unary {
    /// `!g`
    Not,
    /// `EX g`
    Next,
    /// `EG g`
    Globally,
    /// `E g` where `g` is no temporal operator: read as `EX g`
    Bare,
}

/// The formulae with two operands that get a label.
#[derive(Clone, Copy, Debug, PartialEq, Eq)]
pub enum Binary {
    /// `a && b`
    And,
    /// `a || b`
    Or,
    /// `E(a U b)`
    Until,
}

/// A formula with one operand whose key is no label yet: the operand is
/// processed, then a label is made for the formula and filled.
fn process_unary(model: &mut Kripke, f: &CTLFormulae, g: &CTLFormulae, kind: Unary) -> (result:
    Result<usize, CheckError>)
    requires
        checkable(old(model), f@),
        f@ == unary_of(kind, g@),
        kind == Unary::Bare ==> !g@.is_temporal(),
        !old(model).has_label_named(f@.key()),
    ensures
        labelled(old(model), final(model), f@),
        answers(old(model), final(model), f@, result),
    decreases f@.size(), 0nat,
{
    let ghost known = names_of(old(model));
    proof {
        reveal_with_fuel(Ctl::size, 3);
        reveal_with_fuel(plain, 3);
        reveal_with_fuel(Ctl::key, 3);
        reveal_with_fuel(normal, 2);
        reveal_with_fuel(state_part, 2);
        reveal_with_fuel(fresh_keys, 2);
        reveal_with_fuel(first_fault, 2);
        reveal_with_fuel(answer_ext, 2);
        reveal_with_fuel(grown, 2);
        lemma_composite_key(f@);
        if kind == Unary::Next || kind == Unary::Globally {
            lemma_composite_key(*f@->Exist_0);
        }
        lemma_names_of(old(model), f@.key());
        lemma_found(old(model), 0, f@.key());
    }
    let answer = process(model, g);
    let ghost m1 = *model;
    proof {
        lemma_operand(old(model), old(model), &m1, f@, g@, answer, 0);
    }
    let g_id = match answer {
        Ok(id) => id,
        Err(e) => {
            return Err(e);
        },
    };
    proof {
        lemma_still_unnamed(old(model), &m1, (f@.key().len() - 1) as nat, f@.key());
    }
    let key = f.get_str();
    let id = model.get_label_id_or_add(key.as_str());
    let ghost m2 = *model;
    proof {
        lemma_named_same(&m1, &m2, id, f@.key());
        lemma_fresh_is_empty(&m1, &m2, id, f@.key());
    }
    match kind {
        Unary::Not => check_not(model, id, g_id),
        Unary::Next => check_exist_next(model, id, g_id),
        Unary::Globally => check_exist_globally(model, id, g_id),
        Unary::Bare => check_exist_next(model, id, g_id),
    }
    proof {
        let target = match kind {
            Unary::Not => m2@.frame.complement(m2.extension(g_id)),
            Unary::Next => m2@.frame.ex(m2.extension(g_id)),
            Unary::Globally => m2@.frame.eg(m2.extension(g_id)),
            Unary::Bare => m2@.frame.ex(m2.extension(g_id)),
        };
        let bound = (f@.key().len() - 1) as nat;
        lemma_label_made(old(model), &m1, &m2, model, f@, id, target, bound);
        assert(names_of(model) =~= known + fresh_keys(known, g@).push(f@.key()));
        if plain(f@) && labels_sound(old(model)) {
            if normal(f@) {
                assert forall|h: Ctl| #[trigger] state_part(h, f@) && h != f@ && !(h is True) implies m1.has_label_named(
                    h.key(),
                ) by {
                    assert(state_part(h, g@));
                }
            }
            lemma_label_sound(old(model), &m1, &m2, model, f@, id, target, bound);
        }
    }
    Ok(id)
}

/// A formula with two operands whose key is no label yet: the operands are
/// processed, the left one first, then a label is made for the formula and
/// filled.
#[verifier::rlimit(40)]
fn process_binary(
    model: &mut Kripke,
    f: &CTLFormulae,
    a: &CTLFormulae,
    b: &CTLFormulae,
    kind: Binary,
) -> (result: Result<usize, CheckError>)
    requires
        checkable(old(model), f@),
        f@ == binary_of(kind, a@, b@),
        !old(model).has_label_named(f@.key()),
    ensures
        labelled(old(model), final(model), f@),
        answers(old(model), final(model), f@, result),
    decreases f@.size(), 0nat,
{
    let ghost known = names_of(old(model));
    proof {
        reveal_with_fuel(Ctl::size, 3);
        reveal_with_fuel(plain, 3);
        reveal_with_fuel(Ctl::key, 3);
        reveal_with_fuel(normal, 2);
        reveal_with_fuel(state_part, 2);
        reveal_with_fuel(fresh_keys, 2);
        reveal_with_fuel(first_fault, 2);
        reveal_with_fuel(answer_ext, 2);
        reveal_with_fuel(grown, 2);
        lemma_composite_key(f@);
        if kind == Binary::Until {
            lemma_composite_key(*f@->Exist_0);
        }
        lemma_names_of(old(model), f@.key());
        lemma_found(old(model), 0, f@.key());
    }
    let answer_a = process(model, a);
    let ghost m1 = *model;
    proof {
        lemma_operand(old(model), old(model), &m1, f@, a@, answer_a, 0);
    }
    let a_id = match answer_a {
        Ok(id) => id,
        Err(e) => {
            return Err(e);
        },
    };
    let answer_b = process(model, b);
    let ghost m1b = *model;
    proof {
        lemma_operand(old(model), &m1, &m1b, f@, b@, answer_b, (f@.key().len() - 1) as nat);
        lemma_labelled_twice(old(model), &m1, &m1b, f@, a@, b@);
    }
    let b_id = match answer_b {
        Ok(id) => id,
        Err(e) => {
            return Err(e);
        },
    };
    proof {
        lemma_still_unnamed(old(model), &m1b, (f@.key().len() - 1) as nat, f@.key());
        lemma_kept(&m1, &m1b, b@.key().len(), a_id);
    }
    let key = f.get_str();
    let id = model.get_label_id_or_add(key.as_str());
    let ghost m2 = *model;
    proof {
        lemma_named_same(&m1b, &m2, id, f@.key());
        lemma_fresh_is_empty(&m1b, &m2, id, f@.key());
    }
    match kind {
        Binary::And => check_and(model, id, a_id, b_id),
        Binary::Or => check_or(model, id, a_id, b_id),
        Binary::Until => check_exist_until(model, id, a_id, b_id),
    }
    proof {
        let target = match kind {
            Binary::And => m2.extension(a_id).intersect(m2.extension(b_id)),
            Binary::Or => m2.extension(a_id).union(m2.extension(b_id)),
            Binary::Until => m2@.frame.eu(m2.extension(a_id), m2.extension(b_id)),
        };
        let bound = (f@.key().len() - 1) as nat;
        let left = fresh_keys(known, a@);
        let right = fresh_keys(known + left, b@);
        lemma_label_made(old(model), &m1b, &m2, model, f@, id, target, bound);
        assert(names_of(model) =~= known + (left + right).push(f@.key()));
        if plain(f@) && labels_sound(old(model)) {
            if normal(f@) {
                lemma_still_labelled(&m1, &m1b, b@.key().len(), a@);
                assert forall|h: Ctl| #[trigger] state_part(h, f@) && h != f@ && !(h is True) implies m1b.has_label_named(
                    h.key(),
                ) by {
                    assert(state_part(h, a@) || state_part(h, b@));
                }
            }
            lemma_label_sound(old(model), &m1b, &m2, model, f@, id, target, bound);
        }
    }
    Ok(id)
}

/// Process the formula and return the id of the label of the formula.
///
/// `TRUE_ID` is returned for `true`.  A formula whose key is the name of a
/// label is not looked at again: the id of that label is returned and the
/// model is left as it is.  A formula with a root outside the basis is
/// refused and the model left as it is.  For any other formula the operands
/// are processed first; then a label is made, called by the key of the
/// formula, and filled.
///
/// This is so for every formula.  That the label holds exactly in the
/// states in which the formula holds is promised where the atoms of the
/// formula are plain, so that no two formulae share a key, and the labels of
/// the model were sound.
pub fn process(model: &mut Kripke, f: &CTLFormulae) -> (result: Result<usize, CheckError>)
    requires
        checkable(old(model), f@),
    ensures
        labelled(old(model), final(model), f@),
        answers(old(model), final(model), f@, result),
        old(model).has_label_named(f@.key()) || f@ is True || f@ is Atomic || refused_root(f@)
            ==> *final(model) == *old(model),
        old(model).has_label_named(f@.key()) ==> (result matches Ok(id) && old(
            model,
        ).names_label(id, f@.key())),
        !old(model).has_label_named(f@.key()) ==> match f@ {
            Ctl::True => (result matches Ok(id) && id == TRUE_ID),
            Ctl::Atomic(name) => (result matches Err(CheckError::UnknownAtomic(unknown))
                && unknown@ == name),
            _ => refused_root(f@) ==> result matches Err(CheckError::NotInNormalForm),
        },
    decreases f@.size(), 1nat,
{
    proof {
        reveal_with_fuel(CTLFormulae::model, 3);
        reveal_with_fuel(normal, 2);
        reveal_with_fuel(first_fault, 2);
        reveal_with_fuel(fresh_keys, 2);
        reveal_with_fuel(state_part, 2);
        reveal_with_fuel(answer_ext, 2);
        reveal_with_fuel(grown, 2);
        lemma_names_of(model, f@.key());
        lemma_found(model, 0, f@.key());
        assert(names_of(model) + Seq::<Seq<char>>::empty() =~= names_of(model));
    }
    let key = f.get_str();
    if let Some(id) = model.contains_label(key.as_str()) {
        proof {
            lemma_found(model, id, f@.key());
            if plain(f@) && normal(f@) && labels_sound(model) {
                assert(memo_ok(model, id, f@));
            }
        }
        return Ok(id);
    }
    match f {
        CTLFormulae::True => Ok(usize::MAX),
        CTLFormulae::Atomic(name) => Err(CheckError::UnknownAtomic(name.clone())),
        CTLFormulae::Not(g) => process_unary(model, f, g, Unary::Not),
        CTLFormulae::And(a, b) => process_binary(model, f, a, b, Binary::And),
        CTLFormulae::Or(a, b) => process_binary(model, f, a, b, Binary::Or),
        CTLFormulae::Exist(q) => match &**q {
            CTLFormulae::Next(g) => process_unary(model, f, g, Unary::Next),
            CTLFormulae::Globally(g) => process_unary(model, f, g, Unary::Globally),
            CTLFormulae::Until(a, b) => process_binary(model, f, a, b, Binary::Until),
            CTLFormulae::Finally(_) => Err(CheckError::NotInNormalForm),
            CTLFormulae::Release(_, _) => Err(CheckError::NotInNormalForm),
            other => process_unary(model, f, other, Unary::Bare),
        },
        _ => Err(CheckError::NotInNormalForm),
    }
}

/// Checks a formula against a model: the formula is brought to normal form
/// and every subformula of the normal form is labelled.  The id of the
/// label of the whole formula is returned.
///
/// Every formula is accepted.  Where the formula is well-formed, its atoms
/// are plain and the labels of the model were sound, the extension of the
/// label is the set of states in which the formula holds.  Nothing is
/// labelled where the labels could not be numbered.
pub fn explicit_state_checking(model: &mut Kripke, formula: CTLFormulae) -> (result: Result<
    usize,
    CheckError,
>)
    requires
        old(model).wf(),
    ensures
        labelled(old(model), final(model), formula@.normalize()),
        answers(old(model), final(model), formula@.normalize(), result),
        result matches Err(CheckError::TooManyLabels) ==> *final(model) == *old(model),
        formula@.well_formed() ==> !(result matches Err(CheckError::NotInNormalForm)),
        formula@.well_formed() && plain(formula@) && labels_sound(old(model)) ==> (
        result matches Ok(id) ==> final(model).extension(id) == sat(
            old(model)@,
            formula@.normalize(),
        ) && all_labelled(final(model), formula@.normalize())),
        formula@.well_formed() && plain(formula@) && labels_sound(old(model)) && (
        needs_successors(formula@) ==> old(model)@.frame.total()) ==> (result matches Ok(id)
            ==> final(model).extension(id) == sat(old(model)@, formula@)),
{
    let normal_form = to_normal_form(formula);
    proof {
        lemma_fault_meaning(names_of(model), normal_form@);
        if formula@.well_formed() {
            lemma_basis_is_normal(normal_form@);
            if needs_successors(formula@) ==> model@.frame.total() {
                lemma_normalize_keeps_sat(model@, formula@);
            }
        }
        if plain(formula@) {
            lemma_rewrite_plain(formula@);
            lemma_rewrite_plain(formula@.rewrite());
        }
    }
    let fits = match normal_form.node_count() {
        Some(count) => model.labels.len() <= usize::MAX - count,
        None => false,
    };
    if !fits {
        return Err(CheckError::TooManyLabels);
    }
    process(model, &normal_form)
}

} // verus!
