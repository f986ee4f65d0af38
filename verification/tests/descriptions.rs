use model_checker::kripke;
use model_checker::model::{Label, Model, State, Transition};

struct Listed {
    states: Vec<State>,
    transitions: Vec<Transition>,
    labels: Vec<Label>,
    initial_state: usize,
}

impl Model for Listed {
    fn get_states(&self) -> &Vec<State> {
        &self.states
    }

    fn get_transitions(&self) -> &Vec<Transition> {
        &self.transitions
    }

    fn get_labels(&self) -> &Vec<Label> {
        &self.labels
    }

    fn get_initial_state(&self) -> usize {
        self.initial_state
    }
}

#[test]
fn a_model_lists_what_it_holds() {
    let m = Listed {
        states: vec![State { id: 0, name: "s0".to_string() }],
        transitions: vec![(0, 0), (0, 1)],
        labels: vec![Label { state: 0, labels: vec!["a".to_string()] }],
        initial_state: 0,
    };
    assert_eq!(m.get_states().len(), 1);
    assert_eq!(m.get_states()[0].name, "s0");
    assert_eq!(m.get_transitions(), &vec![(0, 0), (0, 1)]);
    assert_eq!(m.get_labels()[0].labels, vec!["a".to_string()]);
    assert_eq!(m.get_initial_state(), 0);
}

#[test]
fn a_flat_structure_keeps_its_lists() {
    let k = kripke::Kripke {
        states: vec![kripke::State { id: 0, name: "s0".to_string() }],
        transitions: vec![(0, 0), (0, 1)],
        labels: vec![kripke::Label { state: 0, labels: vec!["a".to_string()] }],
        initial_state: 0,
    };
    let copy = k.clone();
    assert_eq!(copy.states[0].id, 0);
    assert_eq!(copy.states[0].name, "s0");
    assert_eq!(copy.transitions, vec![(0, 0), (0, 1)]);
    assert_eq!(copy.labels[0].state, 0);
    assert_eq!(copy.labels[0].labels, vec!["a".to_string()]);
    assert_eq!(copy.initial_state, 0);
}
