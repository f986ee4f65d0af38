use model_checker::algorithm::explicit_state::{
    check_and, check_exist_globally, check_exist_next, check_exist_until, check_not, check_or,
    explicit_state_checking, flatten, process, propagate_back, CheckError,
};
use model_checker::model::kripke::TRUE_ID;
use model_checker::ctl::CTLFormulae;
use model_checker::model::builder::{KripkeBuilder, StateInfo};
use model_checker::model::kripke::Kripke;
use model_checker::parser::ctl_parser::parse_ctl;

fn state(id: usize, labels: &[&str], transit_to: &[usize]) -> StateInfo {
    StateInfo {
        id,
        name: format!("s{}", id),
        labels: labels.iter().map(|l| l.to_string()).collect(),
        transit_to: transit_to.to_vec(),
    }
}

fn model(states: Vec<StateInfo>, initial_state: usize) -> Kripke {
    KripkeBuilder { states, initial_state }.build().unwrap()
}

fn sat(model: &mut Kripke, text: &str) -> Vec<usize> {
    let formula = parse_ctl(text).unwrap();
    let id = explicit_state_checking(model, formula).unwrap();
    let mut states = model.get_state_with_label(id);
    states.sort();
    states
}

fn two_states() -> Kripke {
    model(vec![state(0, &["p"], &[1]), state(1, &[], &[1])], 0)
}

fn seven_states() -> Kripke {
    model(
        vec![
            state(1, &[], &[2, 3]),
            state(2, &["s", "e"], &[5]),
            state(3, &["c"], &[1, 6]),
            state(4, &["c", "h"], &[1, 3, 4]),
            state(5, &["s", "c", "e"], &[2, 3]),
            state(6, &["s", "c"], &[7]),
            state(7, &["s", "c", "h"], &[4]),
        ],
        1,
    )
}

#[test]
fn atomic_holds_where_labelled() {
    let mut k = two_states();
    assert_eq!(sat(&mut k, "p"), vec![0]);
}

#[test]
fn exist_next_needs_a_labelled_successor() {
    let mut k = two_states();
    assert_eq!(sat(&mut k, "EX p"), Vec::<usize>::new());
}

#[test]
fn exist_globally_on_a_self_loop() {
    let mut k = model(vec![state(0, &["p"], &[0])], 0);
    assert_eq!(sat(&mut k, "EG p"), vec![0]);
}

#[test]
fn exist_until_walks_back_from_the_goal() {
    let mut k = model(
        vec![state(0, &["p"], &[1]), state(1, &["p"], &[2]), state(2, &["q"], &[2])],
        0,
    );
    assert_eq!(sat(&mut k, "E(p U q)"), vec![0, 1, 2]);
}

#[test]
fn after_start_a_heat_does_not_always_follow() {
    let mut k = seven_states();
    let states = sat(&mut k, "AG(s -> AF h)");
    assert!(!states.contains(&1));
    assert_eq!(states, Vec::<usize>::new());
}

#[test]
fn unknown_atomic_is_reported() {
    let mut k = two_states();
    let formula = parse_ctl("EX q").unwrap();
    match explicit_state_checking(&mut k, formula) {
        Err(CheckError::UnknownAtomic(name)) => assert_eq!(name, "q"),
        other => panic!("{:?}", other),
    }
}

#[test]
fn raw_temporal_operator_is_not_in_normal_form() {
    let mut k = two_states();
    let formula = CTLFormulae::Next(Box::new(CTLFormulae::Atomic("p".to_string())));
    assert!(matches!(
        explicit_state_checking(&mut k, formula),
        Err(CheckError::NotInNormalForm)
    ));
}

fn all_states(model: &Kripke) -> Vec<usize> {
    let mut states = model.get_state_with_label(TRUE_ID);
    states.sort();
    states
}

fn without(all: &[usize], out: &[usize]) -> Vec<usize> {
    all.iter().cloned().filter(|s| !out.contains(s)).collect()
}

#[test]
fn operators_on_the_seven_states() {
    let mut k = seven_states();
    assert_eq!(sat(&mut k, "s"), vec![2, 5, 6, 7]);
    assert_eq!(sat(&mut k, "!h"), vec![1, 2, 3, 5, 6]);
    assert_eq!(sat(&mut k, "s && c"), vec![5, 6, 7]);
    assert_eq!(sat(&mut k, "e || h"), vec![2, 4, 5, 7]);
    assert_eq!(sat(&mut k, "s -> h"), vec![1, 3, 4, 7]);
    assert_eq!(sat(&mut k, "true"), vec![1, 2, 3, 4, 5, 6, 7]);
    assert_eq!(sat(&mut k, "!true"), Vec::<usize>::new());
    assert_eq!(sat(&mut k, "EX h"), vec![4, 6, 7]);
    assert_eq!(sat(&mut k, "AX c"), vec![2, 6, 7]);
    assert_eq!(sat(&mut k, "EF h"), vec![1, 2, 3, 4, 5, 6, 7]);
    assert_eq!(sat(&mut k, "EG s"), vec![2, 5]);
    assert_eq!(sat(&mut k, "E(s U h)"), vec![4, 6, 7]);
    assert_eq!(sat(&mut k, "AF h"), vec![4, 6, 7]);
    assert_eq!(sat(&mut k, "AG c"), Vec::<usize>::new());
    assert_eq!(sat(&mut k, "A(s U h)"), vec![4, 6, 7]);
    assert_eq!(sat(&mut k, "A(h R c)"), vec![4, 6, 7]);
    assert_eq!(sat(&mut k, "E(h R c)"), vec![3, 4, 5, 6, 7]);
    assert_eq!(sat(&mut k, "EG true"), vec![1, 2, 3, 4, 5, 6, 7]);
    assert_eq!(sat(&mut k, "E(true U e)"), vec![1, 2, 3, 4, 5, 6, 7]);
}

#[test]
fn a_dead_end_has_no_run() {
    let mut k = model(vec![state(0, &["p"], &[1]), state(1, &["p"], &[])], 0);
    assert_eq!(sat(&mut k, "EG p"), Vec::<usize>::new());
    assert_eq!(sat(&mut k, "EX p"), vec![0]);
    assert_eq!(sat(&mut k, "AX p"), vec![0, 1]);
    assert_eq!(sat(&mut k, "AF !p"), vec![0, 1]);
}

#[test]
fn exist_globally_of_nothing_is_nothing() {
    let mut k = seven_states();
    assert_eq!(sat(&mut k, "EG (s && !s)"), Vec::<usize>::new());
    assert_eq!(sat(&mut k, "EG !true"), Vec::<usize>::new());
}

#[test]
fn double_negation_holds_where_the_formula_holds() {
    for text in ["s", "EX h", "EG s", "E(s U h)", "s && !c"] {
        let mut k = seven_states();
        let plain = sat(&mut k, text);
        let formula = parse_ctl(text).unwrap();
        let doubled = CTLFormulae::Not(Box::new(CTLFormulae::Not(Box::new(formula))));
        let id = explicit_state_checking(&mut k, doubled).unwrap();
        assert_eq!(sorted(k.get_state_with_label(id)), plain);
    }
}

fn sorted(mut list: Vec<usize>) -> Vec<usize> {
    list.sort();
    list
}

#[test]
fn finally_is_until_from_true() {
    for text in ["h", "e && h", "!c", "EG s"] {
        let mut k = seven_states();
        let finally = sat(&mut k, &format!("EF ({})", text));
        let mut k = seven_states();
        let until = sat(&mut k, &format!("E(true U ({}))", text));
        assert_eq!(finally, until);
    }
}

#[test]
fn all_globally_is_the_complement_of_exist_finally_not() {
    for text in ["c", "s -> EX s", "!e", "true"] {
        let mut k = seven_states();
        let globally = sat(&mut k, &format!("AG ({})", text));
        let mut k = seven_states();
        let finally_not = sat(&mut k, &format!("EF !({})", text));
        let all = all_states(&k);
        assert_eq!(globally, without(&all, &finally_not));
    }
}

#[test]
fn all_next_is_the_complement_of_exist_next_not() {
    let mut k = seven_states();
    let all_next = sat(&mut k, "AX c");
    let mut k = seven_states();
    let exist_next_not = sat(&mut k, "EX !c");
    assert_eq!(all_next, without(&all_states(&k), &exist_next_not));
}

#[test]
fn the_label_of_a_formula_is_called_by_its_key() {
    let mut k = two_states();
    let formula = parse_ctl("EX p").unwrap();
    let id = explicit_state_checking(&mut k, formula).unwrap();
    assert_eq!(id, 1);
    assert_eq!(k.labels[&1], "EXp");
    assert_eq!(k.contains_label("EXp"), Some(1));
}

#[test]
fn labels_are_made_for_operands_first() {
    let mut k = two_states();
    let formula = parse_ctl("!EX p || p").unwrap();
    let id = explicit_state_checking(&mut k, formula).unwrap();
    assert_eq!(k.labels[&0], "p");
    assert_eq!(k.labels[&1], "EXp");
    assert_eq!(k.labels[&2], "!EXp");
    assert_eq!(k.labels[&3], "(!EXp||p)");
    assert_eq!(id, 3);
    assert_eq!(k.labels.len(), 4);
}

#[test]
fn a_formula_is_labelled_once() {
    let mut k = seven_states();
    let first = explicit_state_checking(&mut k, parse_ctl("AG(s -> AF h)").unwrap()).unwrap();
    let labels = k.labels.len();
    let second = explicit_state_checking(&mut k, parse_ctl("AG(s -> AF h)").unwrap()).unwrap();
    assert_eq!(first, second);
    assert_eq!(k.labels.len(), labels);
    let third = explicit_state_checking(&mut k, parse_ctl("AF h").unwrap()).unwrap();
    assert_eq!(k.labels.len(), labels);
    assert_eq!(sorted(k.get_state_with_label(third)), vec![4, 6, 7]);
}

#[test]
fn extensions_only_grow() {
    let mut k = seven_states();
    let before: Vec<(usize, Vec<usize>)> =
        (0..4).map(|l| (l, sorted(k.get_state_with_label(l)))).collect();
    let first = explicit_state_checking(&mut k, parse_ctl("E(s U h)").unwrap()).unwrap();
    let first_states = sorted(k.get_state_with_label(first));
    explicit_state_checking(&mut k, parse_ctl("AG(c -> EG !h)").unwrap()).unwrap();
    for (l, states) in before {
        assert_eq!(sorted(k.get_state_with_label(l)), states);
    }
    assert_eq!(sorted(k.get_state_with_label(first)), first_states);
}

#[test]
fn the_tables_agree_after_a_check() {
    let mut k = seven_states();
    explicit_state_checking(&mut k, parse_ctl("A(s U h) || EG (c && !h)").unwrap()).unwrap();
    for (l, states) in &k.label_to_states {
        for s in states {
            assert!(k.state_to_labels[s].contains(l));
        }
        assert!(k.labels.contains_key(l));
    }
    for (s, labels) in &k.state_to_labels {
        for l in labels {
            assert!(k.label_to_states[l].contains(s));
        }
        assert!(k.states.contains_key(s));
    }
}

#[test]
fn true_has_no_label() {
    let mut k = two_states();
    let id = process(&mut k, &CTLFormulae::True).unwrap();
    assert_eq!(id, usize::MAX);
    assert_eq!(id, TRUE_ID);
    assert_eq!(k.labels.len(), 1);
    assert!(k.label_to_states.get(&id).is_none());
}

#[test]
fn bare_exist_is_read_as_exist_next() {
    let mut k = two_states();
    let bare = CTLFormulae::Exist(Box::new(CTLFormulae::Not(Box::new(CTLFormulae::Atomic(
        "p".to_string(),
    )))));
    let id = process(&mut k, &bare).unwrap();
    assert_eq!(sorted(k.get_state_with_label(id)), vec![0, 1]);
    assert_eq!(k.labels[&id], "E!p");
}

#[test]
fn shapes_outside_the_basis_are_refused() {
    let p = || Box::new(CTLFormulae::Atomic("p".to_string()));
    let shapes = vec![
        CTLFormulae::All(Box::new(CTLFormulae::Next(p()))),
        CTLFormulae::Exist(Box::new(CTLFormulae::Finally(p()))),
        CTLFormulae::Exist(Box::new(CTLFormulae::Release(p(), p()))),
        CTLFormulae::Globally(p()),
        CTLFormulae::Not(Box::new(CTLFormulae::Until(p(), p()))),
    ];
    for shape in shapes {
        let mut k = two_states();
        assert!(matches!(
            process(&mut k, &shape),
            Err(CheckError::NotInNormalForm)
        ));
    }
}

#[test]
fn the_first_unknown_atomic_is_reported() {
    let mut k = two_states();
    let formula = parse_ctl("(p && x) || y").unwrap();
    match explicit_state_checking(&mut k, formula) {
        Err(CheckError::UnknownAtomic(name)) => assert_eq!(name, "x"),
        other => panic!("{:?}", other),
    }
}

#[test]
fn atoms_that_hold_operator_letters_are_checked() {
    let mut k = model(
        vec![
            state(0, &["isReady", "Up"], &[1]),
            state(1, &["doorUnlocked"], &[2]),
            state(2, &["RUN", "U", "bUc", "a"], &[2]),
        ],
        0,
    );
    assert_eq!(sat(&mut k, "isReady"), vec![0]);
    assert_eq!(sat(&mut k, "U"), vec![2]);
    assert_eq!(sat(&mut k, "EX doorUnlocked"), vec![0]);
    assert_eq!(sat(&mut k, "E(Up U doorUnlocked)"), vec![0, 1]);
    assert_eq!(sat(&mut k, "AG RUN"), vec![2]);
    assert_eq!(sat(&mut k, "EF RUN"), vec![0, 1, 2]);
    assert_eq!(sat(&mut k, "E(true U RUN)"), vec![0, 1, 2]);
    assert_eq!(sat(&mut k, "!EF !isReady"), Vec::<usize>::new());
    let formula = parse_ctl("E(a U bUc)").unwrap();
    assert_eq!(formula.get_str(), "E(aUbUc)");
    let id = explicit_state_checking(&mut k, formula).unwrap();
    assert_eq!(sorted(k.get_state_with_label(id)), vec![2]);
}

#[test]
fn an_unknown_atomic_beside_one_with_operator_letters() {
    let mut k = model(vec![state(0, &["U", "isReady"], &[0])], 0);
    let labels = k.labels.len();
    match explicit_state_checking(&mut k, parse_ctl("q && U").unwrap()) {
        Err(CheckError::UnknownAtomic(name)) => assert_eq!(name, "q"),
        other => panic!("{:?}", other),
    }
    match explicit_state_checking(&mut k, parse_ctl("isUp").unwrap()) {
        Err(CheckError::UnknownAtomic(name)) => assert_eq!(name, "isUp"),
        other => panic!("{:?}", other),
    }
    assert_eq!(k.labels.len(), labels);
}

#[test]
fn a_root_outside_the_basis_changes_nothing() {
    let p = || Box::new(CTLFormulae::Atomic("p".to_string()));
    let not_p = || Box::new(CTLFormulae::Not(p()));
    let shapes = vec![
        CTLFormulae::All(Box::new(CTLFormulae::Next(not_p()))),
        CTLFormulae::Next(not_p()),
        CTLFormulae::Finally(not_p()),
        CTLFormulae::Globally(not_p()),
        CTLFormulae::Until(not_p(), p()),
        CTLFormulae::Release(not_p(), p()),
        CTLFormulae::Exist(Box::new(CTLFormulae::Finally(not_p()))),
        CTLFormulae::Exist(Box::new(CTLFormulae::Release(not_p(), p()))),
    ];
    for shape in shapes {
        let mut k = two_states();
        assert!(matches!(process(&mut k, &shape), Err(CheckError::NotInNormalForm)));
        assert_eq!(k.labels.len(), 1);
        assert_eq!(k.label_to_states.len(), 1);
        assert_eq!(sorted(k.get_state_with_label(0)), vec![0]);
    }
}

#[test]
fn a_label_called_true_is_found_for_true() {
    let mut k = model(vec![state(0, &["true"], &[1]), state(1, &[], &[0])], 0);
    let id = process(&mut k, &CTLFormulae::True).unwrap();
    assert_eq!(id, 0);
    assert_eq!(k.labels.len(), 1);
}

#[test]
fn a_memoized_formula_is_returned_unchanged() {
    let mut k = model(vec![state(0, &["isReady"], &[1]), state(1, &[], &[0])], 0);
    let formula = parse_ctl("EX isReady").unwrap();
    let first = process(&mut k, &formula).unwrap();
    let labels = k.labels.len();
    let states = sorted(k.get_state_with_label(first));
    let second = process(&mut k, &formula).unwrap();
    assert_eq!(first, second);
    assert_eq!(k.labels.len(), labels);
    assert_eq!(sorted(k.get_state_with_label(second)), states);
    assert_eq!(states, vec![1]);
}

#[test]
fn labelling_steps() {
    let mut k = seven_states();
    let (s, c, h) = (0, 2, 3);
    let id = k.get_label_id_or_add("!s");
    check_not(&mut k, id, s);
    assert_eq!(sorted(k.get_state_with_label(id)), vec![1, 3, 4]);
    let id = k.get_label_id_or_add("(s&&c)");
    check_and(&mut k, id, s, c);
    assert_eq!(sorted(k.get_state_with_label(id)), vec![5, 6, 7]);
    let id = k.get_label_id_or_add("(s||h)");
    check_or(&mut k, id, s, h);
    assert_eq!(sorted(k.get_state_with_label(id)), vec![2, 4, 5, 6, 7]);
    let id = k.get_label_id_or_add("EXh");
    check_exist_next(&mut k, id, h);
    assert_eq!(sorted(k.get_state_with_label(id)), vec![4, 6, 7]);
    let id = k.get_label_id_or_add("E(sUh)");
    check_exist_until(&mut k, id, s, h);
    assert_eq!(sorted(k.get_state_with_label(id)), vec![4, 6, 7]);
    let id = k.get_label_id_or_add("E(trueUh)");
    check_exist_until(&mut k, id, usize::MAX, h);
    assert_eq!(sorted(k.get_state_with_label(id)), vec![1, 2, 3, 4, 5, 6, 7]);
    let id = k.get_label_id_or_add("EGs");
    check_exist_globally(&mut k, id, s);
    assert_eq!(sorted(k.get_state_with_label(id)), vec![2, 5]);
    let id = k.get_label_id_or_add("EGc");
    check_exist_globally(&mut k, id, c);
    assert_eq!(sorted(k.get_state_with_label(id)), vec![3, 4, 5, 6, 7]);
}

#[test]
fn back_propagation_from_seeds() {
    let mut k = seven_states();
    let id = k.get_label_id_or_add("x");
    propagate_back(&mut k, id, 2, vec![1]);
    assert_eq!(sorted(k.get_state_with_label(id)), vec![1, 3, 4, 5, 6, 7]);
    let id = k.get_label_id_or_add("y");
    propagate_back(&mut k, id, 1, vec![3]);
    assert_eq!(sorted(k.get_state_with_label(id)), vec![2, 3, 5]);
    assert_eq!(flatten(&vec![vec![1, 2], vec![], vec![3]]), vec![1, 2, 3]);
}

#[test]
fn every_part_of_a_checked_formula_has_its_label() {
    let mut k = seven_states();
    explicit_state_checking(&mut k, parse_ctl("E(s U EX h) && !EG c").unwrap()).unwrap();
    let expected: Vec<(&str, Vec<usize>)> = vec![
        ("EXh", vec![4, 6, 7]),
        ("E(sUEXh)", vec![4, 6, 7]),
        ("EGc", vec![3, 4, 5, 6, 7]),
        ("!EGc", vec![1, 2]),
        ("(E(sUEXh)&&!EGc)", vec![]),
    ];
    for (key, states) in expected {
        let id = k.contains_label(key).unwrap();
        assert_eq!(sorted(k.get_state_with_label(id)), states, "{}", key);
    }
    assert_eq!(k.labels.len(), 4 + 5);
}

#[test]
fn until_on_a_structure_with_a_dead_end() {
    // 0 has no successor; 1 has a transition to itself and carries a and b.
    let mut k = model(vec![state(0, &[], &[]), state(1, &["a", "b"], &[1])], 1);
    assert_eq!(sat(&mut k, "A(a U b)"), vec![1]);
    assert_eq!(sat(&mut k, "E(b R a)"), vec![1]);
}

#[test]
fn a_part_that_comes_twice_is_labelled_once() {
    let mut k = two_states();
    let id = explicit_state_checking(&mut k, parse_ctl("EX p && (q_or || EX p)").unwrap());
    assert!(matches!(id, Err(CheckError::UnknownAtomic(_))));
    let mut k = two_states();
    let id = explicit_state_checking(&mut k, parse_ctl("!EX p && (p || !EX p)").unwrap()).unwrap();
    assert_eq!(k.labels.len(), 5);
    assert_eq!(k.labels[&1], "EXp");
    assert_eq!(k.labels[&2], "!EXp");
    assert_eq!(k.labels[&3], "(p||!EXp)");
    assert_eq!(k.labels[&4], "(!EXp&&(p||!EXp))");
    assert_eq!(id, 4);
    assert_eq!(sorted(k.get_state_with_label(id)), vec![0, 1]);
}

#[test]
fn equivalences_over_atoms_with_operator_letters() {
    let states = || {
        vec![
            state(0, &["isReady"], &[1]),
            state(1, &["Up", "isReady"], &[2, 0]),
            state(2, &["RUN"], &[2]),
        ]
    };
    for text in ["isReady", "Up && isReady", "!RUN", "EX Up"] {
        let mut k1 = model(states(), 0);
        let mut k2 = model(states(), 0);
        let finally = sat(&mut k1, &format!("EF ({})", text));
        let until = sat(&mut k2, &format!("E(true U ({}))", text));
        assert_eq!(finally, until);
        let mut k1 = model(states(), 0);
        let mut k2 = model(states(), 0);
        let globally = sat(&mut k1, &format!("AG ({})", text));
        let finally_not = sat(&mut k2, &format!("EF !({})", text));
        assert_eq!(globally, without(&all_states(&k2), &finally_not));
    }
    let mut k = model(states(), 0);
    assert_eq!(sat(&mut k, "AG isReady"), Vec::<usize>::new());
    assert_eq!(sat(&mut k, "EF Up"), vec![0, 1]);
    assert_eq!(sat(&mut k, "AG RUN"), vec![2]);
}

#[test]
fn a_step_on_a_label_that_holds_somewhere_removes_nothing() {
    let mut k = seven_states();
    let (s, e, c, h) = (0, 1, 2, 3);
    assert_eq!(sorted(k.get_state_with_label(e)), vec![2, 5]);
    check_exist_until(&mut k, e, s, h);
    assert_eq!(sorted(k.get_state_with_label(e)), vec![2, 4, 5, 6, 7]);
    assert_eq!(sorted(k.get_state_with_label(s)), vec![2, 5, 6, 7]);
    assert_eq!(sorted(k.get_state_with_label(c)), vec![3, 4, 5, 6, 7]);
    assert_eq!(sorted(k.get_state_with_label(h)), vec![4, 7]);
    for state in [2, 4, 5, 6, 7] {
        assert!(k.state_has_label(state, e));
    }
    assert!(!k.state_has_label(1, e));
    assert!(!k.state_has_label(3, e));
}

#[test]
fn a_step_on_the_label_of_its_own_operand_removes_nothing() {
    let mut k = seven_states();
    let (s, c, h) = (0, 2, 3);
    check_exist_until(&mut k, s, s, h);
    assert_eq!(sorted(k.get_state_with_label(s)), vec![2, 4, 5, 6, 7]);
    assert_eq!(sorted(k.get_state_with_label(c)), vec![3, 4, 5, 6, 7]);
    assert_eq!(sorted(k.get_state_with_label(h)), vec![4, 7]);
    check_exist_globally(&mut k, c, c);
    assert_eq!(sorted(k.get_state_with_label(c)), vec![3, 4, 5, 6, 7]);
    check_not(&mut k, h, h);
    assert_eq!(sorted(k.get_state_with_label(h)), vec![1, 2, 3, 4, 5, 6, 7]);
}

#[test]
fn exist_globally_of_nothing_changes_nothing() {
    let mut k = seven_states();
    let e = 1;
    let nowhere = k.get_label_id_or_add("n");
    let labels = k.labels.clone();
    let label_to_states = k.label_to_states.clone();
    let state_to_labels = k.state_to_labels.clone();
    check_exist_globally(&mut k, e, nowhere);
    assert_eq!(k.labels, labels);
    assert_eq!(k.label_to_states, label_to_states);
    assert_eq!(k.state_to_labels, state_to_labels);
    let fresh = k.get_label_id_or_add("EGn");
    check_exist_globally(&mut k, fresh, nowhere);
    assert!(k.get_state_with_label(fresh).is_empty());
    assert_eq!(sorted(k.get_state_with_label(e)), vec![2, 5]);
}
