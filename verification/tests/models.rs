use model_checker::model::builder::{KripkeBuilder, ModelLoadError, StateInfo};
use model_checker::model::kripke::{Kripke, TRUE_ID};
use std::collections::HashSet;

fn state(id: usize, labels: &[&str], transit_to: &[usize]) -> StateInfo {
    StateInfo {
        id,
        name: format!("s{}", id),
        labels: labels.iter().map(|l| l.to_string()).collect(),
        transit_to: transit_to.to_vec(),
    }
}

fn seven_states(initial_state: usize) -> KripkeBuilder {
    KripkeBuilder {
        states: vec![
            state(1, &[], &[2, 3]),
            state(2, &["s", "e"], &[5]),
            state(3, &["c"], &[1, 6]),
            state(4, &["c", "h"], &[1, 3, 4]),
            state(5, &["s", "c", "e"], &[2, 3]),
            state(6, &["s", "c"], &[7]),
            state(7, &["s", "c", "h"], &[4]),
        ],
        initial_state,
    }
}

fn sorted(mut list: Vec<usize>) -> Vec<usize> {
    list.sort();
    list
}

fn set(list: &[usize]) -> HashSet<usize> {
    list.iter().cloned().collect()
}

/// The two label tables list the same pairs.
fn tables_agree(k: &Kripke) -> bool {
    k.label_to_states.iter().all(|(l, states)| {
        states.iter().all(|s| k.state_to_labels.get(s).map_or(false, |ls| ls.contains(l)))
    }) && k.state_to_labels.iter().all(|(s, labels)| {
        labels.iter().all(|l| k.label_to_states.get(l).map_or(false, |ss| ss.contains(s)))
    })
}

#[test]
fn test_kripke() {
    let res = seven_states(0).build();
    assert_eq!(res.as_ref().err(), Some(&ModelLoadError::UnknownInitialState));
    let res = seven_states(1).build();
    if let Ok(mut k) = res {
        let formula = model_checker::parser::ctl_parser::parse_ctl("AG(s -> AF h)");
        if let Ok(formula) = formula {
            let id = model_checker::algorithm::explicit_state::explicit_state_checking(
                &mut k,
                formula.clone(),
            )
            .unwrap();
            assert_eq!(k.get_state_with_label(id), Vec::<usize>::new());

            let labels = k.labels;
            let mut labels: Vec<(usize, String)> = labels.into_iter().collect();
            labels.sort_by(|a, b| a.0.cmp(&b.0));
            println!("{:?}", labels);
            assert_eq!(labels.len(), 4 + 8);
            assert_eq!(labels[11].1, "!E(trueU!(!s||!EG!h))");

            let states = k.label_to_states;
            let mut states: Vec<(usize, HashSet<usize>)> = states.into_iter().collect();
            states.sort_by(|a, b| a.0.cmp(&b.0));
            println!("{:?}", states);
        } else {
            panic!("Error: {:?}", formula.err().unwrap());
        }
    } else {
        panic!("Error: {:?}", res.err().unwrap());
    }
}

#[test]
fn test_explicit() {
    let builder = KripkeBuilder { states: vec![state(0, &["a"], &[1, 2])], initial_state: 0 };
    let k = builder.build();
    println!("{:?}", k);
    assert_eq!(k.err(), Some(ModelLoadError::UnknownSuccessor));
}

#[test]
fn the_built_model_is_the_described_one() {
    let k = seven_states(1).build().unwrap();
    assert_eq!(k.initial_state, 1);
    assert_eq!(sorted(k.states.keys().cloned().collect()), vec![1, 2, 3, 4, 5, 6, 7]);
    assert_eq!(k.states[&4], "s4");
    assert_eq!(k.transitions[&1], set(&[2, 3]));
    assert_eq!(k.transitions[&4], set(&[1, 3, 4]));
    assert_eq!(k.transitions[&7], set(&[4]));
}

#[test]
fn labels_are_numbered_in_the_order_of_first_occurrence() {
    let k = seven_states(1).build().unwrap();
    assert_eq!(k.labels.len(), 4);
    assert_eq!(k.labels[&0], "s");
    assert_eq!(k.labels[&1], "e");
    assert_eq!(k.labels[&2], "c");
    assert_eq!(k.labels[&3], "h");
    assert_eq!(k.label_to_states[&0], set(&[2, 5, 6, 7]));
    assert_eq!(k.label_to_states[&1], set(&[2, 5]));
    assert_eq!(k.label_to_states[&2], set(&[3, 4, 5, 6, 7]));
    assert_eq!(k.label_to_states[&3], set(&[4, 7]));
}

#[test]
fn every_label_of_a_state_is_kept() {
    let k = seven_states(1).build().unwrap();
    assert_eq!(k.state_to_labels[&5], set(&[0, 1, 2]));
    assert_eq!(k.state_to_labels[&2], set(&[0, 1]));
    assert!(tables_agree(&k));
}

#[test]
fn a_label_that_is_listed_twice_is_one_label() {
    let k = KripkeBuilder { states: vec![state(0, &["p", "p", "q", "p"], &[0])], initial_state: 0 }
        .build()
        .unwrap();
    assert_eq!(k.labels.len(), 2);
    assert_eq!(k.labels[&0], "p");
    assert_eq!(k.labels[&1], "q");
    assert_eq!(k.label_to_states[&0], set(&[0]));
}

#[test]
fn duplicate_state_is_refused() {
    let builder = KripkeBuilder {
        states: vec![state(0, &[], &[0]), state(1, &[], &[0]), state(0, &["p"], &[1])],
        initial_state: 0,
    };
    assert_eq!(builder.build().unwrap_err(), ModelLoadError::DuplicateState);
}

#[test]
fn unknown_successor_is_refused() {
    let builder = KripkeBuilder { states: vec![state(0, &["a"], &[1, 2])], initial_state: 0 };
    assert_eq!(builder.build().unwrap_err(), ModelLoadError::UnknownSuccessor);
}

#[test]
fn unknown_initial_state_is_refused() {
    assert_eq!(seven_states(0).build().unwrap_err(), ModelLoadError::UnknownInitialState);
}

#[test]
fn duplicate_state_is_found_before_unknown_successor() {
    let builder = KripkeBuilder {
        states: vec![state(0, &[], &[9]), state(0, &[], &[0])],
        initial_state: 5,
    };
    assert_eq!(builder.build().unwrap_err(), ModelLoadError::DuplicateState);
    let builder = KripkeBuilder { states: vec![state(0, &[], &[9])], initial_state: 5 };
    assert_eq!(builder.build().unwrap_err(), ModelLoadError::UnknownSuccessor);
}

#[test]
fn state_ids_need_not_be_contiguous() {
    let k = KripkeBuilder {
        states: vec![state(10, &["p"], &[70]), state(70, &[], &[10])],
        initial_state: 70,
    }
    .build()
    .unwrap();
    assert_eq!(sorted(k.get_state_with_label(TRUE_ID)), vec![10, 70]);
    assert_eq!(k.transitable_to(70), vec![10]);
}

#[test]
fn contains_label_finds_by_name() {
    let k = seven_states(1).build().unwrap();
    assert_eq!(k.contains_label("s"), Some(0));
    assert_eq!(k.contains_label("h"), Some(3));
    assert_eq!(k.contains_label("x"), None);
    assert_eq!(k.contains_label(""), None);
}

#[test]
fn get_label_id_or_add_gives_the_next_free_id() {
    let mut k = seven_states(1).build().unwrap();
    assert_eq!(k.get_label_id_or_add("c"), 2);
    assert_eq!(k.labels.len(), 4);
    assert_eq!(k.get_label_id_or_add("!c"), 4);
    assert_eq!(k.get_label_id_or_add("EXc"), 5);
    assert_eq!(k.get_label_id_or_add("!c"), 4);
    assert_eq!(k.labels.len(), 6);
    assert_eq!(k.labels[&4], "!c");
    assert_eq!(k.get_state_with_label(4), Vec::<usize>::new());
}

#[test]
fn states_with_label() {
    let k = seven_states(1).build().unwrap();
    assert_eq!(sorted(k.get_state_with_label(0)), vec![2, 5, 6, 7]);
    assert_eq!(sorted(k.get_state_with_label(3)), vec![4, 7]);
    assert_eq!(sorted(k.get_state_with_label(TRUE_ID)), vec![1, 2, 3, 4, 5, 6, 7]);
    assert_eq!(k.get_state_with_label(17), Vec::<usize>::new());
    assert_eq!(k.get_state_with_label_as_set(2), set(&[3, 4, 5, 6, 7]));
    assert_eq!(k.get_state_with_label_as_set(TRUE_ID), set(&[1, 2, 3, 4, 5, 6, 7]));
    assert_eq!(k.get_state_with_label_as_set(17), set(&[]));
}

#[test]
fn add_state_for_label_fills_both_tables() {
    let mut k = seven_states(1).build().unwrap();
    let id = k.get_label_id_or_add("x");
    k.add_state_for_label(id, 3);
    k.add_state_for_label(id, 1);
    k.add_state_for_label(id, 3);
    assert_eq!(sorted(k.get_state_with_label(id)), vec![1, 3]);
    assert_eq!(k.state_to_labels[&1], set(&[id]));
    assert_eq!(k.state_to_labels[&3], set(&[2, id]));
    assert!(k.state_has_label(3, id));
    assert!(!k.state_has_label(2, id));
    assert_eq!(sorted(k.get_state_with_label(2)), vec![3, 4, 5, 6, 7]);
    assert!(tables_agree(&k));
}

#[test]
fn predecessors() {
    let k = seven_states(1).build().unwrap();
    assert_eq!(sorted(k.transitable_to(1)), vec![3, 4]);
    assert_eq!(sorted(k.transitable_to(4)), vec![4, 7]);
    assert_eq!(sorted(k.transitable_to(3)), vec![1, 4, 5]);
    assert_eq!(k.transitable_to(9), Vec::<usize>::new());
}

#[test]
fn label_names_that_are_keys_of_nothing_else() {
    let k = seven_states(1).build().unwrap();
    assert!(k.has_atom_labels());
    for name in ["true", "!p", "(p", "EXIT", "E"] {
        let k = KripkeBuilder { states: vec![state(0, &["p", name], &[0])], initial_state: 0 }
            .build()
            .unwrap();
        assert!(!k.has_atom_labels());
    }
    for name in ["x-y", "bUc", "", "pX", "Up", "Go", "Xp", "Green", "After", "isReady", "RUN"] {
        let k = KripkeBuilder { states: vec![state(0, &["p", name], &[0])], initial_state: 0 }
            .build()
            .unwrap();
        assert!(k.has_atom_labels());
    }
}

#[test]
fn a_model_needs_its_initial_state() {
    let builder = KripkeBuilder { states: vec![], initial_state: 0 };
    assert_eq!(builder.build().unwrap_err(), ModelLoadError::UnknownInitialState);
}

#[test]
fn a_state_without_successors_has_an_empty_set() {
    let k = KripkeBuilder { states: vec![state(3, &["p"], &[])], initial_state: 3 }
        .build()
        .unwrap();
    assert_eq!(k.transitions[&3], set(&[]));
    assert_eq!(k.transitable_to(3), Vec::<usize>::new());
    assert_eq!(k.state_to_labels[&3], set(&[0]));
}
