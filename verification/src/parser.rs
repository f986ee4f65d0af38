//! Parsers for formulae.

pub mod ctl_parser;
pub mod ltl_parser;
pub mod scanner;
