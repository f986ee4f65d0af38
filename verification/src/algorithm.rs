//! Model checking algorithms.

pub mod explicit_state;
pub mod labelling;
pub mod soundness;
