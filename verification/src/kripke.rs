//! A Kripke structure as flat lists, as it is written down.

use vstd::prelude::*;

verus! {

/// A Kripke structure as lists of states, transitions and labels.
#[derive(Debug, Clone)]
pub struct Kripke {
    pub states: Vec<State>,
    pub transitions: Vec<Transition>,
    pub labels: Vec<Label>,
    pub initial_state: usize,
}

/// A state: its id and its name.
#[derive(Debug, Clone)]
pub struct State {
    pub id: usize,
    pub name: String,
}

/// A transition: from a state to a state.
pub type Transition = (usize, usize);

/// The propositions that hold in a state.
#[derive(Debug, Clone)]
pub struct Label {
    pub state: usize,
    pub labels: Vec<String>,
}

} // verus!
