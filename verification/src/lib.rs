//! An explicit-state model checker for Computation Tree Logic.
//!
//! A [`model::kripke::Kripke`] structure is a finite transition graph whose
//! states carry named propositions.  A [`ctl::CTLFormulae`] is rewritten to a
//! small operator basis and then labelled bottom-up: every subformula gets a
//! label whose extension is the set of states that satisfy it.

pub mod algorithm;
pub mod ctl;
pub mod keys;
pub mod kripke;
pub mod laws;
pub mod ltl;
pub mod lists;
pub mod model;
pub mod parser;
pub mod semantics;
