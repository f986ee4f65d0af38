use model_checker::model::builder::{KripkeBuilder, StateInfo};
use model_checker::model::kripke::Kripke;

fn state(id: usize, transit_to: &[usize]) -> StateInfo {
    StateInfo { id, name: format!("s{}", id), labels: vec![], transit_to: transit_to.to_vec() }
}

fn model(states: Vec<StateInfo>) -> Kripke {
    let initial_state = states[0].id;
    KripkeBuilder { states, initial_state }.build().unwrap()
}

fn seven_states() -> Kripke {
    model(vec![
        state(1, &[2, 3]),
        state(2, &[5]),
        state(3, &[1, 6]),
        state(4, &[1, 3, 4]),
        state(5, &[2, 3]),
        state(6, &[7]),
        state(7, &[4]),
    ])
}

/// Two cycles and a chain: 10 <-> 11 -> 12 -> 13 <-> 14, and 13 -> 15.
fn two_cycles() -> Kripke {
    model(vec![
        state(10, &[11]),
        state(11, &[10, 12]),
        state(12, &[13]),
        state(13, &[14, 15]),
        state(14, &[13]),
        state(15, &[]),
    ])
}

fn sorted(mut list: Vec<usize>) -> Vec<usize> {
    list.sort();
    list
}

fn each_sorted(sccs: Vec<Vec<usize>>) -> Vec<Vec<usize>> {
    sccs.into_iter().map(sorted).collect()
}

#[test]
fn one_component_of_seven() {
    let k = seven_states();
    assert_eq!(each_sorted(k.non_trivial_scc()), vec![vec![1, 2, 3, 4, 5, 6, 7]]);
}

#[test]
fn components_come_in_reverse_topological_order() {
    let k = two_cycles();
    assert_eq!(each_sorted(k.non_trivial_scc()), vec![vec![13, 14], vec![10, 11]]);
}

#[test]
fn components_of_an_induced_part() {
    let k = seven_states();
    assert_eq!(each_sorted(k.non_trivial_scc_of(&[2, 5, 6, 7])), vec![vec![2, 5]]);
    assert_eq!(each_sorted(k.non_trivial_scc_of(&[7, 6, 5, 2])), vec![vec![2, 5]]);
    assert_eq!(k.non_trivial_scc_of(&[6, 7]), Vec::<Vec<usize>>::new());
    assert_eq!(each_sorted(k.non_trivial_scc_of(&[1, 2, 3])), vec![vec![1, 3]]);
}

#[test]
fn an_edge_counts_only_between_listed_states() {
    let k = seven_states();
    // 1 -> 3 -> 1 is a cycle, and 1 has a successor outside the list.
    assert_eq!(each_sorted(k.non_trivial_scc_of(&[1, 3])), vec![vec![1, 3]]);
    // 2 -> 5 -> 2, with 5 -> 3 leading out.
    assert_eq!(each_sorted(k.non_trivial_scc_of(&[5, 2])), vec![vec![2, 5]]);
}

#[test]
fn a_state_with_a_transition_to_itself_is_a_component() {
    let k = seven_states();
    assert_eq!(k.non_trivial_scc_of(&[4]), vec![vec![4]]);
    assert_eq!(k.non_trivial_scc_of(&[7]), Vec::<Vec<usize>>::new());
    assert_eq!(each_sorted(k.non_trivial_scc_of(&[4, 7])), vec![vec![4]]);
}

#[test]
fn nothing_induces_nothing() {
    let k = seven_states();
    assert_eq!(k.non_trivial_scc_of(&[]), Vec::<Vec<usize>>::new());
}

#[test]
fn states_listed_twice_and_states_that_are_none() {
    let k = seven_states();
    assert_eq!(each_sorted(k.non_trivial_scc_of(&[2, 5, 2, 99, 5])), vec![vec![2, 5]]);
}

#[test]
fn the_graph_of_the_model() {
    let k = two_cycles();
    let g = k.to_graph();
    assert_eq!(g.node_count(), 6);
    assert_eq!(g.edge_count(), 7);
    let mut weights: Vec<usize> = g.node_weights().cloned().collect();
    weights.sort();
    assert_eq!(weights, vec![10, 11, 12, 13, 14, 15]);
    let mut edges: Vec<(usize, usize)> = g
        .edge_indices()
        .map(|e| {
            let (a, b) = g.edge_endpoints(e).unwrap();
            (g[a], g[b])
        })
        .collect();
    edges.sort();
    assert_eq!(edges, vec![(10, 11), (11, 10), (11, 12), (12, 13), (13, 14), (13, 15), (14, 13)]);
}

#[test]
fn the_graph_of_listed_states() {
    let k = two_cycles();
    let g = k.induced_graph(&vec![13, 10, 14]);
    let weights: Vec<usize> = g.node_weights().cloned().collect();
    assert_eq!(weights, vec![13, 10, 14]);
    let mut edges: Vec<(usize, usize)> = g
        .edge_indices()
        .map(|e| {
            let (a, b) = g.edge_endpoints(e).unwrap();
            (a.index(), b.index())
        })
        .collect();
    edges.sort();
    assert_eq!(edges, vec![(0, 2), (2, 0)]);
}

#[test]
fn induced_transitions_are_those_inside() {
    let k = seven_states();
    let mut pairs = k.induced_transitions(&vec![2, 5, 3]);
    pairs.sort();
    assert_eq!(pairs, vec![(2, 5), (5, 2), (5, 3)]);
    assert!(k.has_self_loop(4));
    assert!(!k.has_self_loop(1));
}
