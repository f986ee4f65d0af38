//! Syntax of CTL formulae, their canonical keys and their normal form.

use crate::laws::{lemma_normalize_keeps_sat, needs_successors};
use crate::semantics::{sat, Structure};
use vstd::prelude::*;
use vstd::string::*;

verus! {

/// A CTL formula as it is held in memory.
#[derive(Debug)]
pub enum CTLFormulae {
    True,
    Atomic(String),
    Not(Box<CTLFormulae>),
    And(Box<CTLFormulae>, Box<CTLFormulae>),
    Or(Box<CTLFormulae>, Box<CTLFormulae>),
    All(Box<CTLFormulae>),
    Exist(Box<CTLFormulae>),
    Next(Box<CTLFormulae>),
    Finally(Box<CTLFormulae>),
    Globally(Box<CTLFormulae>),
    Until(Box<CTLFormulae>, Box<CTLFormulae>),
    Release(Box<CTLFormulae>, Box<CTLFormulae>),
}

/// The mathematical model of a formula: the same tree with atom names as
/// character sequences.
pub enum Ctl {
    True,
    Atomic(Seq<char>),
    Not(Box<Ctl>),
    And(Box<Ctl>, Box<Ctl>),
    Or(Box<Ctl>, Box<Ctl>),
    All(Box<Ctl>),
    Exist(Box<Ctl>),
    Next(Box<Ctl>),
    Finally(Box<Ctl>),
    Globally(Box<Ctl>),
    Until(Box<Ctl>, Box<Ctl>),
    Release(Box<Ctl>, Box<Ctl>),
}

impl CTLFormulae {
    /// The tree that this value stands for.
    pub open spec fn model(self) -> Ctl
        decreases self,
    {
        match self {
            CTLFormulae::True => Ctl::True,
            CTLFormulae::Atomic(s) => Ctl::Atomic(s@),
            CTLFormulae::Not(f) => Ctl::Not(Box::new(f.model())),
            CTLFormulae::And(f, g) => Ctl::And(Box::new(f.model()), Box::new(g.model())),
            CTLFormulae::Or(f, g) => Ctl::Or(Box::new(f.model()), Box::new(g.model())),
            CTLFormulae::All(f) => Ctl::All(Box::new(f.model())),
            CTLFormulae::Exist(f) => Ctl::Exist(Box::new(f.model())),
            CTLFormulae::Next(f) => Ctl::Next(Box::new(f.model())),
            CTLFormulae::Finally(f) => Ctl::Finally(Box::new(f.model())),
            CTLFormulae::Globally(f) => Ctl::Globally(Box::new(f.model())),
            CTLFormulae::Until(f, g) => Ctl::Until(Box::new(f.model()), Box::new(g.model())),
            CTLFormulae::Release(f, g) => Ctl::Release(Box::new(f.model()), Box::new(g.model())),
        }
    }
}

impl Clone for CTLFormulae {
    fn clone(&self) -> (copy: Self)
        ensures
            copy@ == self@,
        decreases self,
    {
        match self {
            CTLFormulae::True => CTLFormulae::True,
            CTLFormulae::Atomic(s) => CTLFormulae::Atomic(s.clone()),
            CTLFormulae::Not(f) => CTLFormulae::Not(Box::new((**f).clone())),
            CTLFormulae::And(f, g) => CTLFormulae::And(
                Box::new((**f).clone()),
                Box::new((**g).clone()),
            ),
            CTLFormulae::Or(f, g) => CTLFormulae::Or(
                Box::new((**f).clone()),
                Box::new((**g).clone()),
            ),
            CTLFormulae::All(f) => CTLFormulae::All(Box::new((**f).clone())),
            CTLFormulae::Exist(f) => CTLFormulae::Exist(Box::new((**f).clone())),
            CTLFormulae::Next(f) => CTLFormulae::Next(Box::new((**f).clone())),
            CTLFormulae::Finally(f) => CTLFormulae::Finally(Box::new((**f).clone())),
            CTLFormulae::Globally(f) => CTLFormulae::Globally(Box::new((**f).clone())),
            CTLFormulae::Until(f, g) => CTLFormulae::Until(
                Box::new((**f).clone()),
                Box::new((**g).clone()),
            ),
            CTLFormulae::Release(f, g) => CTLFormulae::Release(
                Box::new((**f).clone()),
                Box::new((**g).clone()),
            ),
        }
    }
}

impl View for CTLFormulae {
    type V = Ctl;

    open spec fn view(&self) -> Ctl {
        self.model()
    }
}

impl Ctl {
    /// The canonical key: ASCII, one string per tree shape.
    pub open spec fn key(self) -> Seq<char>
        decreases self,
    {
        match self {
            Ctl::True => seq!['t', 'r', 'u', 'e'],
            Ctl::Atomic(s) => s,
            Ctl::Not(f) => seq!['!'] + f.key(),
            Ctl::And(f, g) => seq!['('] + f.key() + seq!['&', '&'] + g.key() + seq![')'],
            Ctl::Or(f, g) => seq!['('] + f.key() + seq!['|', '|'] + g.key() + seq![')'],
            Ctl::All(f) => seq!['A'] + f.key(),
            Ctl::Exist(f) => seq!['E'] + f.key(),
            Ctl::Next(f) => seq!['X'] + f.key(),
            Ctl::Finally(f) => seq!['F'] + f.key(),
            Ctl::Globally(f) => seq!['G'] + f.key(),
            Ctl::Until(f, g) => seq!['('] + f.key() + seq!['U'] + g.key() + seq![')'],
            Ctl::Release(f, g) => seq!['('] + f.key() + seq!['R'] + g.key() + seq![')'],
        }
    }
}

impl Ctl {
    /// `!self`
    pub open spec fn neg(self) -> Ctl {
        Ctl::Not(Box::new(self))
    }

    /// `self && other`
    pub open spec fn conj(self, other: Ctl) -> Ctl {
        Ctl::And(Box::new(self), Box::new(other))
    }

    /// `self || other`
    pub open spec fn disj(self, other: Ctl) -> Ctl {
        Ctl::Or(Box::new(self), Box::new(other))
    }

    /// `EX self`
    pub open spec fn ex(self) -> Ctl {
        Ctl::Exist(Box::new(Ctl::Next(Box::new(self))))
    }

    /// `EF self`
    pub open spec fn ef(self) -> Ctl {
        Ctl::Exist(Box::new(Ctl::Finally(Box::new(self))))
    }

    /// `EG self`
    pub open spec fn eg(self) -> Ctl {
        Ctl::Exist(Box::new(Ctl::Globally(Box::new(self))))
    }

    /// `E(self U other)`
    pub open spec fn eu(self, other: Ctl) -> Ctl {
        Ctl::Exist(Box::new(Ctl::Until(Box::new(self), Box::new(other))))
    }

    /// The number of nodes of the tree.
    pub open spec fn size(self) -> nat
        decreases self,
    {
        match self {
            Ctl::True => 1,
            Ctl::Atomic(_) => 1,
            Ctl::Not(f) => 1 + f.size(),
            Ctl::And(f, g) => 1 + f.size() + g.size(),
            Ctl::Or(f, g) => 1 + f.size() + g.size(),
            Ctl::All(f) => 1 + f.size(),
            Ctl::Exist(f) => 1 + f.size(),
            Ctl::Next(f) => 1 + f.size(),
            Ctl::Finally(f) => 1 + f.size(),
            Ctl::Globally(f) => 1 + f.size(),
            Ctl::Until(f, g) => 1 + f.size() + g.size(),
            Ctl::Release(f, g) => 1 + f.size() + g.size(),
        }
    }

    /// Whether the root is one of the temporal operators X, F, G, U, R.
    pub open spec fn is_temporal(self) -> bool {
        self is Next || self is Finally || self is Globally || self is Until || self is Release
    }

    /// One pass of the rewrite to the basis {true, p, !, &&, ||, EX, EG, EU}.
    ///
    /// Universal quantifiers are replaced by their existential duals, `EF f`
    /// by `E(true U f)`, `E(f R g)` by `E(g U (f && g)) || EG g`, and a double
    /// negation is dropped.  A quantifier over something that is no temporal
    /// operator is not CTL: `A` is then dropped and `E` left as it is.
    pub open spec fn rewrite(self) -> Ctl
        decreases self,
    {
        match self {
            Ctl::True => Ctl::True,
            Ctl::Atomic(s) => Ctl::Atomic(s),
            Ctl::Not(f) => match *f {
                Ctl::Not(g) => g.rewrite(),
                _ => f.rewrite().neg(),
            },
            Ctl::And(f, g) => f.rewrite().conj(g.rewrite()),
            Ctl::Or(f, g) => f.rewrite().disj(g.rewrite()),
            Ctl::All(a) => match *a {
                Ctl::Next(f) => f.rewrite().neg().ex().neg(),
                Ctl::Finally(f) => f.rewrite().neg().eg().neg(),
                Ctl::Globally(f) => f.rewrite().neg().ef().neg(),
                Ctl::Until(f, g) => g.rewrite().neg().eu(
                    f.rewrite().neg().conj(g.rewrite().neg()),
                ).neg().conj(g.rewrite().neg().eg().neg()),
                Ctl::Release(f, g) => f.rewrite().neg().eu(g.rewrite().neg()).neg(),
                _ => a.rewrite(),
            },
            Ctl::Exist(e) => match *e {
                Ctl::Next(f) => f.rewrite().ex(),
                Ctl::Finally(f) => Ctl::True.eu(f.rewrite()),
                Ctl::Globally(f) => f.rewrite().eg(),
                Ctl::Until(f, g) => f.rewrite().eu(g.rewrite()),
                Ctl::Release(f, g) => g.rewrite().eu(f.rewrite().conj(g.rewrite())).disj(
                    g.rewrite().eg(),
                ),
                _ => Ctl::Exist(e),
            },
            Ctl::Next(f) => Ctl::Next(Box::new(f.rewrite())),
            Ctl::Finally(f) => Ctl::Finally(Box::new(f.rewrite())),
            Ctl::Globally(f) => Ctl::Globally(Box::new(f.rewrite())),
            Ctl::Until(f, g) => Ctl::Until(Box::new(f.rewrite()), Box::new(g.rewrite())),
            Ctl::Release(f, g) => Ctl::Release(Box::new(f.rewrite()), Box::new(g.rewrite())),
        }
    }

    /// The normal form: two passes of `rewrite`.  The second pass turns the
    /// `EF` that `AG` leaves behind into `EU` and drops the double negations
    /// that the first pass introduced.
    pub open spec fn normalize(self) -> Ctl {
        self.rewrite().rewrite()
    }

    /// Well-formed CTL: every path quantifier stands directly over one
    /// temporal operator, and every temporal operator directly under a path
    /// quantifier.
    pub open spec fn well_formed(self) -> bool
        decreases self,
    {
        match self {
            Ctl::True => true,
            Ctl::Atomic(_) => true,
            Ctl::Not(f) => f.well_formed(),
            Ctl::And(f, g) => f.well_formed() && g.well_formed(),
            Ctl::Or(f, g) => f.well_formed() && g.well_formed(),
            Ctl::All(q) | Ctl::Exist(q) => match *q {
                Ctl::Next(f) => f.well_formed(),
                Ctl::Finally(f) => f.well_formed(),
                Ctl::Globally(f) => f.well_formed(),
                Ctl::Until(f, g) => f.well_formed() && g.well_formed(),
                Ctl::Release(f, g) => f.well_formed() && g.well_formed(),
                _ => false,
            },
            _ => false,
        }
    }

    /// Formulae over the basis {true, p, !, &&, ||, EX, EG, EU}.
    pub open spec fn in_basis(self) -> bool
        decreases self,
    {
        match self {
            Ctl::True => true,
            Ctl::Atomic(_) => true,
            Ctl::Not(f) => f.in_basis(),
            Ctl::And(f, g) => f.in_basis() && g.in_basis(),
            Ctl::Or(f, g) => f.in_basis() && g.in_basis(),
            Ctl::Exist(q) => match *q {
                Ctl::Next(f) => f.in_basis(),
                Ctl::Globally(f) => f.in_basis(),
                Ctl::Until(f, g) => f.in_basis() && g.in_basis(),
                _ => false,
            },
            _ => false,
        }
    }
}

impl Ctl {
    /// The formula as it is shown to a reader, with the usual symbols.
    pub open spec fn display(self) -> Seq<char>
        decreases self,
    {
        match self {
            Ctl::True => seq!['t', 'r', 'u', 'e'],
            Ctl::Atomic(s) => s,
            Ctl::Not(f) => seq!['¬'] + f.display(),
            Ctl::And(f, g) => seq!['('] + f.display() + seq![' ', '∧', ' '] + g.display() + seq![
                ')',
            ],
            Ctl::Or(f, g) => seq!['('] + f.display() + seq![' ', '∨', ' '] + g.display() + seq![
                ')',
            ],
            Ctl::All(f) => seq!['A'] + f.display(),
            Ctl::Exist(f) => seq!['E'] + f.display(),
            Ctl::Next(f) => seq!['X'] + f.display(),
            Ctl::Finally(f) => seq!['F'] + f.display(),
            Ctl::Globally(f) => seq!['G'] + f.display(),
            Ctl::Until(f, g) => seq!['('] + f.display() + seq![' ', 'U', ' '] + g.display() + seq![
                ')',
            ],
            Ctl::Release(f, g) => seq!['('] + f.display() + seq![' ', 'R', ' '] + g.display()
                + seq![')'],
        }
    }
}

/// `mark` and then `inner`.
fn prefixed(mark: &str, inner: String) -> (out: String)
    ensures
        out@ == mark@ + inner@,
{
    String::from_str(mark).concat(inner.as_str())
}

/// `left`, `infix` and `right` in parentheses.
fn bracketed(left: String, infix: &str, right: String) -> (out: String)
    ensures
        out@ == seq!['('] + left@ + infix@ + right@ + seq![')'],
{
    proof {
        reveal_strlit("(");
        reveal_strlit(")");
    }
    let out = String::from_str("(").concat(left.as_str()).concat(infix).concat(right.as_str()).concat(")");
    assert(out@ =~= seq!['('] + left@ + infix@ + right@ + seq![')']);
    out
}

impl CTLFormulae {
    /// The formula in readable form: `¬`, `∧`, `∨` for the connectives, the
    /// letters A, E, X, F, G, U, R for the rest.
    pub fn to_string(&self) -> (text: String)
        ensures
            text@ == self@.display(),
        decreases self,
    {
        proof {
            reveal_strlit("true");
            reveal_strlit("¬");
            reveal_strlit(" ∧ ");
            reveal_strlit(" ∨ ");
            reveal_strlit("A");
            reveal_strlit("E");
            reveal_strlit("X");
            reveal_strlit("F");
            reveal_strlit("G");
            reveal_strlit(" U ");
            reveal_strlit(" R ");
        }
        match self {
            CTLFormulae::True => {
                let text = String::from_str("true");
                assert(text@ =~= seq!['t', 'r', 'u', 'e']);
                text
            },
            CTLFormulae::Atomic(s) => s.clone(),
            CTLFormulae::Not(f) => prefixed("¬", f.to_string()),
            CTLFormulae::And(f, g) => bracketed(f.to_string(), " ∧ ", g.to_string()),
            CTLFormulae::Or(f, g) => bracketed(f.to_string(), " ∨ ", g.to_string()),
            CTLFormulae::All(f) => prefixed("A", f.to_string()),
            CTLFormulae::Exist(f) => prefixed("E", f.to_string()),
            CTLFormulae::Next(f) => prefixed("X", f.to_string()),
            CTLFormulae::Finally(f) => prefixed("F", f.to_string()),
            CTLFormulae::Globally(f) => prefixed("G", f.to_string()),
            CTLFormulae::Until(f, g) => bracketed(f.to_string(), " U ", g.to_string()),
            CTLFormulae::Release(f, g) => bracketed(f.to_string(), " R ", g.to_string()),
        }
    }

    /// The canonical key of the formula, used as its label name.
    pub fn get_str(&self) -> (key: String)
        ensures
            key@ == self@.key(),
        decreases self,
    {
        proof {
            reveal_strlit("true");
            reveal_strlit("!");
            reveal_strlit("&&");
            reveal_strlit("||");
            reveal_strlit("A");
            reveal_strlit("E");
            reveal_strlit("X");
            reveal_strlit("F");
            reveal_strlit("G");
            reveal_strlit("U");
            reveal_strlit("R");
        }
        match self {
            CTLFormulae::True => {
                let key = String::from_str("true");
                assert(key@ =~= seq!['t', 'r', 'u', 'e']);
                key
            },
            CTLFormulae::Atomic(s) => s.clone(),
            CTLFormulae::Not(f) => prefixed("!", f.get_str()),
            CTLFormulae::And(f, g) => bracketed(f.get_str(), "&&", g.get_str()),
            CTLFormulae::Or(f, g) => bracketed(f.get_str(), "||", g.get_str()),
            CTLFormulae::All(f) => prefixed("A", f.get_str()),
            CTLFormulae::Exist(f) => prefixed("E", f.get_str()),
            CTLFormulae::Next(f) => prefixed("X", f.get_str()),
            CTLFormulae::Finally(f) => prefixed("F", f.get_str()),
            CTLFormulae::Globally(f) => prefixed("G", f.get_str()),
            CTLFormulae::Until(f, g) => bracketed(f.get_str(), "U", g.get_str()),
            CTLFormulae::Release(f, g) => bracketed(f.get_str(), "R", g.get_str()),
        }
    }
}

impl CTLFormulae {
    /// `!f`
    pub fn not(f: CTLFormulae) -> (out: CTLFormulae)
        ensures
            out@ == f@.neg(),
    {
        CTLFormulae::Not(Box::new(f))
    }

    /// `f && g`
    pub fn and(f: CTLFormulae, g: CTLFormulae) -> (out: CTLFormulae)
        ensures
            out@ == f@.conj(g@),
    {
        CTLFormulae::And(Box::new(f), Box::new(g))
    }

    /// `f || g`
    pub fn or(f: CTLFormulae, g: CTLFormulae) -> (out: CTLFormulae)
        ensures
            out@ == f@.disj(g@),
    {
        CTLFormulae::Or(Box::new(f), Box::new(g))
    }

    /// `EX f`
    pub fn exist_next(f: CTLFormulae) -> (out: CTLFormulae)
        ensures
            out@ == f@.ex(),
    {
        proof {
            reveal_with_fuel(CTLFormulae::model, 2);
        }
        CTLFormulae::Exist(Box::new(CTLFormulae::Next(Box::new(f))))
    }

    /// `EF f`
    pub fn exist_finally(f: CTLFormulae) -> (out: CTLFormulae)
        ensures
            out@ == f@.ef(),
    {
        proof {
            reveal_with_fuel(CTLFormulae::model, 2);
        }
        CTLFormulae::Exist(Box::new(CTLFormulae::Finally(Box::new(f))))
    }

    /// `EG f`
    pub fn exist_globally(f: CTLFormulae) -> (out: CTLFormulae)
        ensures
            out@ == f@.eg(),
    {
        proof {
            reveal_with_fuel(CTLFormulae::model, 2);
        }
        CTLFormulae::Exist(Box::new(CTLFormulae::Globally(Box::new(f))))
    }

    /// `E(f U g)`
    pub fn exist_until(f: CTLFormulae, g: CTLFormulae) -> (out: CTLFormulae)
        ensures
            out@ == f@.eu(g@),
    {
        proof {
            reveal_with_fuel(CTLFormulae::model, 2);
        }
        CTLFormulae::Exist(Box::new(CTLFormulae::Until(Box::new(f), Box::new(g))))
    }
}

/// One pass of the rewrite to the operator basis.
pub fn to_normal_form_rec(formulae: CTLFormulae) -> (out: CTLFormulae)
    ensures
        out@ == formulae@.rewrite(),
    decreases formulae,
{
    proof {
        reveal_with_fuel(CTLFormulae::model, 2);
    }
    match formulae {
        CTLFormulae::True => CTLFormulae::True,
        CTLFormulae::Atomic(s) => CTLFormulae::Atomic(s),
        CTLFormulae::And(f, g) => {
            let f = to_normal_form_rec(*f);
            let g = to_normal_form_rec(*g);
            CTLFormulae::and(f, g)
        },
        CTLFormulae::Or(f, g) => {
            let f = to_normal_form_rec(*f);
            let g = to_normal_form_rec(*g);
            CTLFormulae::or(f, g)
        },
        CTLFormulae::All(all) => match *all {
            CTLFormulae::Next(f) => {
                let f = to_normal_form_rec(*f);
                CTLFormulae::not(CTLFormulae::exist_next(CTLFormulae::not(f)))
            },
            CTLFormulae::Finally(f) => {
                let f = to_normal_form_rec(*f);
                CTLFormulae::not(CTLFormulae::exist_globally(CTLFormulae::not(f)))
            },
            CTLFormulae::Globally(f) => {
                let f = to_normal_form_rec(*f);
                CTLFormulae::not(CTLFormulae::exist_finally(CTLFormulae::not(f)))
            },
            CTLFormulae::Until(f, g) => {
                let f = to_normal_form_rec(*f);
                let g = to_normal_form_rec(*g);
                let g2 = g.clone();
                let g3 = g.clone();
                CTLFormulae::and(
                    CTLFormulae::not(
                        CTLFormulae::exist_until(
                            CTLFormulae::not(g2),
                            CTLFormulae::and(CTLFormulae::not(f), CTLFormulae::not(g3)),
                        ),
                    ),
                    CTLFormulae::not(CTLFormulae::exist_globally(CTLFormulae::not(g))),
                )
            },
            CTLFormulae::Release(f, g) => {
                let f = to_normal_form_rec(*f);
                let g = to_normal_form_rec(*g);
                CTLFormulae::not(CTLFormulae::exist_until(CTLFormulae::not(f), CTLFormulae::not(g)))
            },
            other => to_normal_form_rec(other),
        },
        CTLFormulae::Exist(e) => match *e {
            CTLFormulae::Next(f) => CTLFormulae::exist_next(to_normal_form_rec(*f)),
            CTLFormulae::Finally(f) => CTLFormulae::exist_until(
                CTLFormulae::True,
                to_normal_form_rec(*f),
            ),
            CTLFormulae::Globally(f) => CTLFormulae::exist_globally(to_normal_form_rec(*f)),
            CTLFormulae::Until(f, g) => {
                let f = to_normal_form_rec(*f);
                let g = to_normal_form_rec(*g);
                CTLFormulae::exist_until(f, g)
            },
            CTLFormulae::Release(f, g) => {
                let f = to_normal_form_rec(*f);
                let g = to_normal_form_rec(*g);
                let g2 = g.clone();
                let g3 = g.clone();
                CTLFormulae::or(
                    CTLFormulae::exist_until(g2, CTLFormulae::and(f, g3)),
                    CTLFormulae::exist_globally(g),
                )
            },
            other => CTLFormulae::Exist(Box::new(other)),
        },
        CTLFormulae::Next(f) => {
            let f = Box::new(to_normal_form_rec(*f));
            CTLFormulae::Next(f)
        },
        CTLFormulae::Finally(f) => {
            let f = Box::new(to_normal_form_rec(*f));
            CTLFormulae::Finally(f)
        },
        CTLFormulae::Globally(f) => {
            let f = Box::new(to_normal_form_rec(*f));
            CTLFormulae::Globally(f)
        },
        CTLFormulae::Until(f, g) => {
            let f = Box::new(to_normal_form_rec(*f));
            let g = Box::new(to_normal_form_rec(*g));
            CTLFormulae::Until(f, g)
        },
        CTLFormulae::Release(f, g) => {
            let f = Box::new(to_normal_form_rec(*f));
            let g = Box::new(to_normal_form_rec(*g));
            CTLFormulae::Release(f, g)
        },
        CTLFormulae::Not(f) => match *f {
            CTLFormulae::Not(g) => to_normal_form_rec(*g),
            other => CTLFormulae::not(to_normal_form_rec(other)),
        },
    }
}

/// The normal form of a formula.  Of a well-formed formula it is a formula
/// over the operator basis that holds in the same states of every
/// structure; for a formula with `A(f U g)` or `E(f R g)` in it, of every
/// structure in which every state has a successor.
pub fn to_normal_form(formulae: CTLFormulae) -> (out: CTLFormulae)
    ensures
        out@ == formulae@.normalize(),
        out@.normalize() == out@,
        formulae@.well_formed() ==> out@.in_basis(),
        formulae@.well_formed() ==> forall|m: Structure|
            (needs_successors(formulae@) ==> m.frame.total()) ==> #[trigger] sat(m, out@) == sat(
                m,
                formulae@,
            ),
{
    proof {
        lemma_normalize_settled(formulae@);
        lemma_normalize_idempotent(formulae@);
        if formulae@.well_formed() {
            lemma_normalize_in_basis(formulae@);
            assert forall|m: Structure|
                (needs_successors(formulae@) ==> m.frame.total()) implies #[trigger] sat(
                m,
                formulae@.normalize(),
            ) == sat(m, formulae@) by {
                lemma_normalize_keeps_sat(m, formulae@);
            }
        }
    }
    let pass1 = to_normal_form_rec(formulae);
    let pass2 = to_normal_form_rec(pass1);
    pass2
}

impl Ctl {
    /// No universal quantifier is left, but inside an `E` that stands over
    /// something that is no temporal operator.
    pub open spec fn reduced(self) -> bool
        decreases self,
    {
        match self {
            Ctl::True => true,
            Ctl::Atomic(_) => true,
            Ctl::Not(f) => f.reduced(),
            Ctl::And(f, g) => f.reduced() && g.reduced(),
            Ctl::Or(f, g) => f.reduced() && g.reduced(),
            Ctl::All(_) => false,
            Ctl::Exist(e) => match *e {
                Ctl::Next(f) => f.reduced(),
                Ctl::Finally(f) => f.reduced(),
                Ctl::Globally(f) => f.reduced(),
                Ctl::Until(f, g) => f.reduced() && g.reduced(),
                Ctl::Release(f, g) => f.reduced() && g.reduced(),
                _ => true,
            },
            Ctl::Next(f) => f.reduced(),
            Ctl::Finally(f) => f.reduced(),
            Ctl::Globally(f) => f.reduced(),
            Ctl::Until(f, g) => f.reduced() && g.reduced(),
            Ctl::Release(f, g) => f.reduced() && g.reduced(),
        }
    }

    /// Nothing is left for `rewrite` to do: no `A`, no `EF`, no `E(f R g)` and
    /// no double negation.
    pub open spec fn settled(self) -> bool
        decreases self,
    {
        match self {
            Ctl::True => true,
            Ctl::Atomic(_) => true,
            Ctl::Not(f) => !(*f is Not) && f.settled(),
            Ctl::And(f, g) => f.settled() && g.settled(),
            Ctl::Or(f, g) => f.settled() && g.settled(),
            Ctl::All(_) => false,
            Ctl::Exist(e) => match *e {
                Ctl::Next(f) => f.settled(),
                Ctl::Globally(f) => f.settled(),
                Ctl::Until(f, g) => f.settled() && g.settled(),
                Ctl::Finally(_) => false,
                Ctl::Release(_, _) => false,
                _ => true,
            },
            Ctl::Next(f) => f.settled(),
            Ctl::Finally(f) => f.settled(),
            Ctl::Globally(f) => f.settled(),
            Ctl::Until(f, g) => f.settled() && g.settled(),
            Ctl::Release(f, g) => f.settled() && g.settled(),
        }
    }
}

/// One pass removes every universal quantifier that it reaches.
pub proof fn lemma_rewrite_reduces(f: Ctl)
    ensures
        f.rewrite().reduced(),
    decreases f,
{
    reveal_with_fuel(Ctl::reduced, 6);
    match f {
        Ctl::True => {},
        Ctl::Atomic(_) => {},
        Ctl::Not(x) => match *x {
            Ctl::Not(g) => lemma_rewrite_reduces(*g),
            _ => lemma_rewrite_reduces(*x),
        },
        Ctl::And(a, b) => {
            lemma_rewrite_reduces(*a);
            lemma_rewrite_reduces(*b);
        },
        Ctl::Or(a, b) => {
            lemma_rewrite_reduces(*a);
            lemma_rewrite_reduces(*b);
        },
        Ctl::All(q) => match *q {
            Ctl::Next(a) => lemma_rewrite_reduces(*a),
            Ctl::Finally(a) => lemma_rewrite_reduces(*a),
            Ctl::Globally(a) => lemma_rewrite_reduces(*a),
            Ctl::Until(a, b) => {
                lemma_rewrite_reduces(*a);
                lemma_rewrite_reduces(*b);
            },
            Ctl::Release(a, b) => {
                lemma_rewrite_reduces(*a);
                lemma_rewrite_reduces(*b);
            },
            _ => lemma_rewrite_reduces(*q),
        },
        Ctl::Exist(q) => match *q {
            Ctl::Next(a) => lemma_rewrite_reduces(*a),
            Ctl::Finally(a) => lemma_rewrite_reduces(*a),
            Ctl::Globally(a) => lemma_rewrite_reduces(*a),
            Ctl::Until(a, b) => {
                lemma_rewrite_reduces(*a);
                lemma_rewrite_reduces(*b);
            },
            Ctl::Release(a, b) => {
                lemma_rewrite_reduces(*a);
                lemma_rewrite_reduces(*b);
            },
            _ => {},
        },
        Ctl::Next(a) => lemma_rewrite_reduces(*a),
        Ctl::Finally(a) => lemma_rewrite_reduces(*a),
        Ctl::Globally(a) => lemma_rewrite_reduces(*a),
        Ctl::Until(a, b) => {
            lemma_rewrite_reduces(*a);
            lemma_rewrite_reduces(*b);
        },
        Ctl::Release(a, b) => {
            lemma_rewrite_reduces(*a);
            lemma_rewrite_reduces(*b);
        },
    }
}

/// On a reduced formula one pass leaves nothing to do, and puts no negation
/// on top where there was none.
pub proof fn lemma_rewrite_settles(f: Ctl)
    requires
        f.reduced(),
    ensures
        f.rewrite().settled(),
        !(f is Not) ==> !(f.rewrite() is Not),
    decreases f,
{
    reveal_with_fuel(Ctl::reduced, 2);
    reveal_with_fuel(Ctl::settled, 6);
    match f {
        Ctl::True => {},
        Ctl::Atomic(_) => {},
        Ctl::Not(x) => match *x {
            Ctl::Not(g) => lemma_rewrite_settles(*g),
            _ => lemma_rewrite_settles(*x),
        },
        Ctl::And(a, b) => {
            lemma_rewrite_settles(*a);
            lemma_rewrite_settles(*b);
        },
        Ctl::Or(a, b) => {
            lemma_rewrite_settles(*a);
            lemma_rewrite_settles(*b);
        },
        Ctl::All(_) => {},
        Ctl::Exist(q) => match *q {
            Ctl::Next(a) => lemma_rewrite_settles(*a),
            Ctl::Finally(a) => lemma_rewrite_settles(*a),
            Ctl::Globally(a) => lemma_rewrite_settles(*a),
            Ctl::Until(a, b) => {
                lemma_rewrite_settles(*a);
                lemma_rewrite_settles(*b);
            },
            Ctl::Release(a, b) => {
                lemma_rewrite_settles(*a);
                lemma_rewrite_settles(*b);
            },
            _ => {},
        },
        Ctl::Next(a) => lemma_rewrite_settles(*a),
        Ctl::Finally(a) => lemma_rewrite_settles(*a),
        Ctl::Globally(a) => lemma_rewrite_settles(*a),
        Ctl::Until(a, b) => {
            lemma_rewrite_settles(*a);
            lemma_rewrite_settles(*b);
        },
        Ctl::Release(a, b) => {
            lemma_rewrite_settles(*a);
            lemma_rewrite_settles(*b);
        },
    }
}

/// A settled formula is a fixpoint of `rewrite`.
pub proof fn lemma_settled_is_fixpoint(f: Ctl)
    requires
        f.settled(),
    ensures
        f.rewrite() == f,
    decreases f,
{
    match f {
        Ctl::True => {},
        Ctl::Atomic(_) => {},
        Ctl::Not(x) => lemma_settled_is_fixpoint(*x),
        Ctl::And(a, b) => {
            lemma_settled_is_fixpoint(*a);
            lemma_settled_is_fixpoint(*b);
        },
        Ctl::Or(a, b) => {
            lemma_settled_is_fixpoint(*a);
            lemma_settled_is_fixpoint(*b);
        },
        Ctl::All(_) => {},
        Ctl::Exist(q) => match *q {
            Ctl::Next(a) => lemma_settled_is_fixpoint(*a),
            Ctl::Globally(a) => lemma_settled_is_fixpoint(*a),
            Ctl::Until(a, b) => {
                lemma_settled_is_fixpoint(*a);
                lemma_settled_is_fixpoint(*b);
            },
            _ => {},
        },
        Ctl::Next(a) => lemma_settled_is_fixpoint(*a),
        Ctl::Finally(a) => lemma_settled_is_fixpoint(*a),
        Ctl::Globally(a) => lemma_settled_is_fixpoint(*a),
        Ctl::Until(a, b) => {
            lemma_settled_is_fixpoint(*a);
            lemma_settled_is_fixpoint(*b);
        },
        Ctl::Release(a, b) => {
            lemma_settled_is_fixpoint(*a);
            lemma_settled_is_fixpoint(*b);
        },
    }
}

/// Two passes reach a fixpoint of `rewrite`, whatever the formula.
pub proof fn lemma_normalize_settled(f: Ctl)
    ensures
        f.normalize().settled(),
        f.normalize().rewrite() == f.normalize(),
{
    lemma_rewrite_reduces(f);
    lemma_rewrite_settles(f.rewrite());
    lemma_settled_is_fixpoint(f.normalize());
}

/// Normalising is idempotent: the normal form of a normal form is itself.
pub proof fn lemma_normalize_idempotent(f: Ctl)
    ensures
        f.normalize().normalize() == f.normalize(),
{
    lemma_normalize_settled(f);
}

/// `rewrite` keeps well-formed CTL well-formed.
pub proof fn lemma_rewrite_well_formed(f: Ctl)
    requires
        f.well_formed(),
    ensures
        f.rewrite().well_formed(),
    decreases f,
{
    reveal_with_fuel(Ctl::well_formed, 6);
    match f {
        Ctl::Not(x) => match *x {
            Ctl::Not(g) => lemma_rewrite_well_formed(*g),
            _ => lemma_rewrite_well_formed(*x),
        },
        Ctl::And(a, b) => {
            lemma_rewrite_well_formed(*a);
            lemma_rewrite_well_formed(*b);
        },
        Ctl::Or(a, b) => {
            lemma_rewrite_well_formed(*a);
            lemma_rewrite_well_formed(*b);
        },
        Ctl::All(q) => match *q {
            Ctl::Next(a) => lemma_rewrite_well_formed(*a),
            Ctl::Finally(a) => lemma_rewrite_well_formed(*a),
            Ctl::Globally(a) => lemma_rewrite_well_formed(*a),
            Ctl::Until(a, b) => {
                lemma_rewrite_well_formed(*a);
                lemma_rewrite_well_formed(*b);
            },
            Ctl::Release(a, b) => {
                lemma_rewrite_well_formed(*a);
                lemma_rewrite_well_formed(*b);
            },
            _ => {},
        },
        Ctl::Exist(q) => match *q {
            Ctl::Next(a) => lemma_rewrite_well_formed(*a),
            Ctl::Finally(a) => lemma_rewrite_well_formed(*a),
            Ctl::Globally(a) => lemma_rewrite_well_formed(*a),
            Ctl::Until(a, b) => {
                lemma_rewrite_well_formed(*a);
                lemma_rewrite_well_formed(*b);
            },
            Ctl::Release(a, b) => {
                lemma_rewrite_well_formed(*a);
                lemma_rewrite_well_formed(*b);
            },
            _ => {},
        },
        _ => {},
    }
}

/// A well-formed formula with nothing left to rewrite is over the basis.
pub proof fn lemma_settled_in_basis(f: Ctl)
    requires
        f.well_formed(),
        f.settled(),
    ensures
        f.in_basis(),
    decreases f,
{
    match f {
        Ctl::Not(x) => lemma_settled_in_basis(*x),
        Ctl::And(a, b) => {
            lemma_settled_in_basis(*a);
            lemma_settled_in_basis(*b);
        },
        Ctl::Or(a, b) => {
            lemma_settled_in_basis(*a);
            lemma_settled_in_basis(*b);
        },
        Ctl::Exist(q) => match *q {
            Ctl::Next(a) => lemma_settled_in_basis(*a),
            Ctl::Globally(a) => lemma_settled_in_basis(*a),
            Ctl::Until(a, b) => {
                lemma_settled_in_basis(*a);
                lemma_settled_in_basis(*b);
            },
            _ => {},
        },
        _ => {},
    }
}

/// The normal form of well-formed CTL is over the basis
/// {true, p, !, &&, ||, EX, EG, EU}.
pub proof fn lemma_normalize_in_basis(f: Ctl)
    requires
        f.well_formed(),
    ensures
        f.normalize().well_formed(),
        f.normalize().in_basis(),
{
    lemma_rewrite_well_formed(f);
    lemma_rewrite_well_formed(f.rewrite());
    lemma_normalize_settled(f);
    lemma_settled_in_basis(f.normalize());
}

} // verus!
