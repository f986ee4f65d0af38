//! Syntax of LTL formulae.

use vstd::prelude::*;
use vstd::string::*;

verus! {

/// An LTL formula as it is held in memory.
#[derive(Debug)]
pub enum LTLFormulae {
    True,
    Atomic(String),
    And(Box<LTLFormulae>, Box<LTLFormulae>),
    Not(Box<LTLFormulae>),
    Next(Box<LTLFormulae>),
    Until(Box<LTLFormulae>, Box<LTLFormulae>),
}

/// The mathematical model of a formula: the same tree with atom names as
/// character sequences.
pub enum Ltl {
    True,
    Atomic(Seq<char>),
    And(Box<Ltl>, Box<Ltl>),
    Not(Box<Ltl>),
    Next(Box<Ltl>),
    Until(Box<Ltl>, Box<Ltl>),
}

impl Ltl {
    /// The formula as it is shown to a reader.
    pub open spec fn display(self) -> Seq<char>
        decreases self,
    {
        match self {
            Ltl::True => seq!['t', 'r', 'u', 'e'],
            Ltl::Atomic(s) => s,
            Ltl::Not(f) => seq!['¬'] + f.display(),
            Ltl::And(f, g) => seq!['('] + f.display() + seq![' ', '∧', ' '] + g.display() + seq![
                ')',
            ],
            Ltl::Next(f) => seq!['X'] + f.display(),
            Ltl::Until(f, g) => seq!['('] + f.display() + seq![' ', 'U', ' '] + g.display() + seq![
                ')',
            ],
        }
    }
}

impl LTLFormulae {
    /// The tree that this value stands for.
    pub open spec fn model(self) -> Ltl
        decreases self,
    {
        match self {
            LTLFormulae::True => Ltl::True,
            LTLFormulae::Atomic(s) => Ltl::Atomic(s@),
            LTLFormulae::And(f, g) => Ltl::And(Box::new(f.model()), Box::new(g.model())),
            LTLFormulae::Not(f) => Ltl::Not(Box::new(f.model())),
            LTLFormulae::Next(f) => Ltl::Next(Box::new(f.model())),
            LTLFormulae::Until(f, g) => Ltl::Until(Box::new(f.model()), Box::new(g.model())),
        }
    }

    /// The formula in readable form.
    pub fn to_string(&self) -> (text: String)
        ensures
            text@ == self@.display(),
        decreases self,
    {
        proof {
            reveal_strlit("true");
            reveal_strlit("¬");
            reveal_strlit("X");
            reveal_strlit("(");
            reveal_strlit(")");
            reveal_strlit(" ∧ ");
            reveal_strlit(" U ");
        }
        match self {
            LTLFormulae::True => {
                let text = String::from_str("true");
                assert(text@ =~= seq!['t', 'r', 'u', 'e']);
                text
            },
            LTLFormulae::Atomic(s) => s.clone(),
            LTLFormulae::Not(f) => String::from_str("¬").concat(f.to_string().as_str()),
            LTLFormulae::Next(f) => String::from_str("X").concat(f.to_string().as_str()),
            LTLFormulae::And(f, g) => {
                let text = String::from_str("(").concat(f.to_string().as_str()).concat(
                    " ∧ ",
                ).concat(g.to_string().as_str()).concat(")");
                assert(text@ =~= self@.display());
                text
            },
            LTLFormulae::Until(f, g) => {
                let text = String::from_str("(").concat(f.to_string().as_str()).concat(
                    " U ",
                ).concat(g.to_string().as_str()).concat(")");
                assert(text@ =~= self@.display());
                text
            },
        }
    }
}

impl Clone for LTLFormulae {
    fn clone(&self) -> (copy: Self)
        ensures
            copy@ == self@,
        decreases self,
    {
        match self {
            LTLFormulae::True => LTLFormulae::True,
            LTLFormulae::Atomic(s) => LTLFormulae::Atomic(s.clone()),
            LTLFormulae::And(f, g) => LTLFormulae::And(
                Box::new((**f).clone()),
                Box::new((**g).clone()),
            ),
            LTLFormulae::Not(f) => LTLFormulae::Not(Box::new((**f).clone())),
            LTLFormulae::Next(f) => LTLFormulae::Next(Box::new((**f).clone())),
            LTLFormulae::Until(f, g) => LTLFormulae::Until(
                Box::new((**f).clone()),
                Box::new((**g).clone()),
            ),
        }
    }
}

impl View for LTLFormulae {
    type V = Ltl;

    open spec fn view(&self) -> Ltl {
        self.model()
    }
}

} // verus!
