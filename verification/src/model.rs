//! Models that formulae are checked against.

use vstd::prelude::*;

pub mod builder;
pub mod graph;
pub mod kripke;
pub mod scc;

verus! {

/// A state: its id and its name.
#[derive(Debug, Clone)]
pub struct State {
    pub id: usize,
    pub name: String,
}

/// A transition: from a state to a state.
pub type Transition = (usize, usize);

/// The propositions that hold in a state.
#[derive(Debug, Clone)]
pub struct Label {
    pub state: usize,
    pub labels: Vec<String>,
}

/// A model that lists its states, transitions and labels.
pub trait Model {
    /// The states.
    fn get_states(&self) -> &Vec<State>;

    /// The transitions.
    fn get_transitions(&self) -> &Vec<Transition>;

    /// For each state that has any, the propositions that hold in it.
    fn get_labels(&self) -> &Vec<Label>;

    /// The id of the initial state.
    fn get_initial_state(&self) -> usize;
}

} // verus!
