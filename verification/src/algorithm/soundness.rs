//! Why a label that is found by the key of a formula is the right one.
//!
//! Labels are only added, whatever the formula.  Where the atoms of the
//! formula are plain, the labelling keeps two more things true of a model:
//! every label that is called by the key of a formula of an accepted shape
//! holds where that formula holds, and every part of such a formula has its
//! label too.

use crate::algorithm::labelling::{
    derived_name, extends, filled, lemma_extends_twice, lemma_extension_in_states,
    lemma_named_filled_extends, lemma_still_named, named_after,
};
use crate::algorithm::explicit_state::{Binary, CheckError, Unary};
use crate::ctl::Ctl;
use crate::keys::{atom_only_name, lemma_key_injective, plain, plain_name};
use crate::lists::lemma_concat_contains;
use crate::model::kripke::{names_of, Kripke, TRUE_ID};
use crate::semantics::{sat, Frame, Structure};
use vstd::prelude::*;
use vstd::std_specs::hash::*;

verus! {

broadcast use vstd::std_specs::hash::group_hash_axioms;

/// The shapes that the labelling accepts: formulae over the basis
/// {true, p, !, &&, ||, EX, EG, EU}, and `E` over such a formula, which is
/// read as `EX`.
pub open spec fn normal(f: Ctl) -> bool
    decreases f,
{
    match f {
        Ctl::True => true,
        Ctl::Atomic(_) => true,
        Ctl::Not(a) => normal(*a),
        Ctl::And(a, b) => normal(*a) && normal(*b),
        Ctl::Or(a, b) => normal(*a) && normal(*b),
        Ctl::Exist(q) => match *q {
            Ctl::Next(a) => normal(*a),
            Ctl::Globally(a) => normal(*a),
            Ctl::Until(a, b) => normal(*a) && normal(*b),
            _ => normal(*q),
        },
        _ => false,
    }
}

/// A formula over the basis has a shape that the labelling accepts.
pub proof fn lemma_basis_is_normal(f: Ctl)
    requires
        f.in_basis(),
    ensures
        normal(f),
    decreases f,
{
    match f {
        Ctl::Not(a) => lemma_basis_is_normal(*a),
        Ctl::And(a, b) => {
            lemma_basis_is_normal(*a);
            lemma_basis_is_normal(*b);
        },
        Ctl::Or(a, b) => {
            lemma_basis_is_normal(*a);
            lemma_basis_is_normal(*b);
        },
        Ctl::Exist(q) => match *q {
            Ctl::Next(a) => lemma_basis_is_normal(*a),
            Ctl::Globally(a) => lemma_basis_is_normal(*a),
            Ctl::Until(a, b) => {
                lemma_basis_is_normal(*a);
                lemma_basis_is_normal(*b);
            },
            _ => {},
        },
        _ => {},
    }
}

/// The formula has an atom called `name`.
pub open spec fn mentions(f: Ctl, name: Seq<char>) -> bool
    decreases f,
{
    match f {
        Ctl::True => false,
        Ctl::Atomic(n) => n == name,
        Ctl::Not(a) => mentions(*a, name),
        Ctl::And(a, b) => mentions(*a, name) || mentions(*b, name),
        Ctl::Or(a, b) => mentions(*a, name) || mentions(*b, name),
        Ctl::All(a) => mentions(*a, name),
        Ctl::Exist(a) => mentions(*a, name),
        Ctl::Next(a) => mentions(*a, name),
        Ctl::Finally(a) => mentions(*a, name),
        Ctl::Globally(a) => mentions(*a, name),
        Ctl::Until(a, b) => mentions(*a, name) || mentions(*b, name),
        Ctl::Release(a, b) => mentions(*a, name) || mentions(*b, name),
    }
}

/// What stops the labelling of a formula.
pub enum Fault {
    /// An atom that is the name of no label.
    UnknownAtomic(Seq<char>),
    /// A shape that the labelling does not accept.
    NotInNormalForm,
}

/// The fault that a failed check reports.
pub open spec fn fault_of(e: CheckError) -> Option<Fault> {
    match e {
        CheckError::UnknownAtomic(name) => Some(Fault::UnknownAtomic(name@)),
        CheckError::NotInNormalForm => Some(Fault::NotInNormalForm),
        _ => None,
    }
}

/// The first fault that the labelling of `f` comes upon, if any; `known`
/// are the names of the labels that are there.
///
/// A formula whose key is known is not looked into.  Of any other formula
/// the operands are looked into from left to right, the right one with the
/// labels that the left one got.
pub open spec fn first_fault(known: Seq<Seq<char>>, f: Ctl) -> Option<Fault>
    decreases f,
{
    if known.contains(f.key()) {
        None
    } else {
        match f {
            Ctl::True => None,
            Ctl::Atomic(name) => Some(Fault::UnknownAtomic(name)),
            Ctl::Not(a) => first_fault(known, *a),
            Ctl::And(a, b) | Ctl::Or(a, b) => match first_fault(known, *a) {
                Some(fault) => Some(fault),
                None => first_fault(known + fresh_keys(known, *a), *b),
            },
            Ctl::Exist(q) => match *q {
                Ctl::Next(a) => first_fault(known, *a),
                Ctl::Globally(a) => first_fault(known, *a),
                Ctl::Until(a, b) => match first_fault(known, *a) {
                    Some(fault) => Some(fault),
                    None => first_fault(known + fresh_keys(known, *a), *b),
                },
                Ctl::Finally(_) => Some(Fault::NotInNormalForm),
                Ctl::Release(_, _) => Some(Fault::NotInNormalForm),
                _ => first_fault(known, *q),
            },
            _ => Some(Fault::NotInNormalForm),
        }
    }
}

/// Every atom of the formula is among the names.
pub open spec fn atoms_among(known: Seq<Seq<char>>, f: Ctl) -> bool {
    forall|name: Seq<char>| #[trigger] mentions(f, name) ==> known.contains(name)
}

/// Where the atoms of a formula are among the names, those of a part are
/// among these names and any more.
pub proof fn lemma_atoms_among(known: Seq<Seq<char>>, more: Seq<Seq<char>>, f: Ctl, part: Ctl)
    requires
        forall|name: Seq<char>| mentions(part, name) ==> mentions(f, name),
    ensures
        atoms_among(known, f) ==> atoms_among(known + more, part),
{
    if atoms_among(known, f) {
        assert forall|name: Seq<char>| #[trigger] mentions(part, name) implies (known
            + more).contains(name) by {
            assert(mentions(f, name));
            lemma_concat_contains(known, more, name);
        }
    }
}

/// What a fault means: a formula of an accepted shape whose atoms are all
/// known has none; a formula with the fault `NotInNormalForm` has no
/// accepted shape; the atom of the fault `UnknownAtomic` is an atom of the
/// formula and is not known.
pub proof fn lemma_fault_meaning(known: Seq<Seq<char>>, f: Ctl)
    ensures
        normal(f) && atoms_among(known, f) ==> first_fault(known, f) is None,
        first_fault(known, f) == Some(Fault::NotInNormalForm) ==> !normal(f),
        first_fault(known, f) matches Some(Fault::UnknownAtomic(name)) ==> mentions(f, name)
            && !known.contains(name),
    decreases f,
{
    reveal_with_fuel(mentions, 2);
    reveal_with_fuel(normal, 2);
    let empty = Seq::<Seq<char>>::empty();
    assert(known + empty =~= known);
    match f {
        Ctl::Atomic(name) => {
            assert(mentions(f, name));
        },
        Ctl::Not(a) => {
            lemma_fault_meaning(known, *a);
            lemma_atoms_among(known, empty, f, *a);
        },
        Ctl::And(a, b) | Ctl::Or(a, b) => {
            let more = fresh_keys(known, *a);
            lemma_fault_meaning(known, *a);
            lemma_fault_meaning(known + more, *b);
            lemma_atoms_among(known, empty, f, *a);
            lemma_atoms_among(known, more, f, *b);
            match first_fault(known + more, *b) {
                Some(Fault::UnknownAtomic(name)) => lemma_concat_contains(known, more, name),
                _ => {},
            }
        },
        Ctl::Exist(q) => match *q {
            Ctl::Next(a) => {
                lemma_fault_meaning(known, *a);
                lemma_atoms_among(known, empty, f, *a);
            },
            Ctl::Globally(a) => {
                lemma_fault_meaning(known, *a);
                lemma_atoms_among(known, empty, f, *a);
            },
            Ctl::Until(a, b) => {
                let more = fresh_keys(known, *a);
                lemma_fault_meaning(known, *a);
                lemma_fault_meaning(known + more, *b);
                lemma_atoms_among(known, empty, f, *a);
                lemma_atoms_among(known, more, f, *b);
                match first_fault(known + more, *b) {
                    Some(Fault::UnknownAtomic(name)) => lemma_concat_contains(known, more, name),
                    _ => {},
                }
            },
            Ctl::Finally(_) => {},
            Ctl::Release(_, _) => {},
            _ => {
                lemma_fault_meaning(known, *q);
                lemma_atoms_among(known, empty, f, *q);
            },
        },
        _ => {},
    }
}

/// `h` is `g` or one of the formulae inside `g` that are labelled when `g`
/// is: the operands of `!`, `&&`, `||`, `EX`, `EG` and `EU`, and theirs.
pub open spec fn state_part(h: Ctl, g: Ctl) -> bool
    decreases g,
{
    h == g || match g {
        Ctl::Not(a) => state_part(h, *a),
        Ctl::And(a, b) | Ctl::Or(a, b) => state_part(h, *a) || state_part(h, *b),
        Ctl::Exist(q) => match *q {
            Ctl::Next(a) => state_part(h, *a),
            Ctl::Globally(a) => state_part(h, *a),
            Ctl::Until(a, b) => state_part(h, *a) || state_part(h, *b),
            Ctl::Finally(_) => false,
            Ctl::Release(_, _) => false,
            _ => state_part(h, *q),
        },
        _ => false,
    }
}

/// Every part of `g` but `true` has a label that is called by its key.
pub open spec fn all_labelled(model: &Kripke, g: Ctl) -> bool {
    forall|h: Ctl| #[trigger] state_part(h, g) && !(h is True) ==> model.has_label_named(h.key())
}

/// What was labelled is labelled where labels are added.
pub proof fn lemma_still_labelled(before: &Kripke, after: &Kripke, bound: nat, g: Ctl)
    requires
        extends(before, after, bound),
        all_labelled(before, g),
    ensures
        all_labelled(after, g),
{
    assert forall|h: Ctl| #[trigger] state_part(h, g) && !(h is True) implies after.has_label_named(
        h.key(),
    ) by {
        lemma_still_named(before, after, bound, h.key());
    }
}

/// If the label `l` is called by the key of `g`, a formula of an accepted
/// shape, it holds where `g` holds, and every part of `g` has its label
/// too.
pub open spec fn memo_ok(model: &Kripke, l: usize, g: Ctl) -> bool {
    model.labels@.contains_key(l) && plain(g) && normal(g) && g.key() == model.labels@[l]@
        ==> model.extension(l) == sat(model@, g) && all_labelled(model, g)
}

/// Every label that is called by the key of a formula of an accepted shape
/// holds exactly where that formula holds, and the parts of that formula
/// have their labels.  What is found by the key of a formula with plain
/// atoms is the right label under this condition.
pub open spec fn labels_sound(model: &Kripke) -> bool {
    forall|l: usize, g: Ctl| #[trigger] memo_ok(model, l, g)
}

/// The key of a composite formula begins with a mark and is longer than
/// the keys of its operands.  That of a formula with an accepted shape
/// begins with `!`, `(` or `E`.
pub proof fn lemma_composite_key(f: Ctl)
    requires
        !(f is True),
        !(f is Atomic),
    ensures
        derived_name(f.key()),
        !plain_name(f.key()),
        f is Not || f is And || f is Or || f is Exist ==> !atom_only_name(f.key()),
        match f {
            Ctl::Not(a) => a.key().len() < f.key().len(),
            Ctl::And(a, b) => a.key().len() < f.key().len() && b.key().len() < f.key().len(),
            Ctl::Or(a, b) => a.key().len() < f.key().len() && b.key().len() < f.key().len(),
            Ctl::Until(a, b) => a.key().len() < f.key().len() && b.key().len() < f.key().len(),
            Ctl::Release(a, b) => a.key().len() < f.key().len() && b.key().len() < f.key().len(),
            Ctl::All(a) => a.key().len() < f.key().len(),
            Ctl::Exist(a) => a.key().len() < f.key().len(),
            Ctl::Next(a) => a.key().len() < f.key().len(),
            Ctl::Finally(a) => a.key().len() < f.key().len(),
            Ctl::Globally(a) => a.key().len() < f.key().len(),
            _ => true,
        },
{
}

/// The label called `name` holds where the atom `name` holds.
pub proof fn lemma_atom_extension(model: &Kripke, l: usize, name: Seq<char>)
    requires
        model.wf(),
        model.names_label(l, name),
    ensures
        model.extension(l) == sat(model@, Ctl::Atomic(name)),
{
    let chosen = model.label_named(name);
    assert(model.names_label(chosen, name));
    assert(chosen == l);
    lemma_extension_in_states(model, l);
    assert(model.extension(l).intersect(model@.frame.states) =~= model.extension(l));
}

/// A model none of whose labels is called `true` or by a name that begins
/// with `!`, `(` or `E` has sound labels: each is the key of its own atom
/// only.
pub proof fn lemma_atom_labels_sound(model: &Kripke)
    requires
        model.wf(),
        forall|l: usize| #[trigger]
            model.labels@.contains_key(l) ==> atom_only_name(model.labels@[l]@),
    ensures
        labels_sound(model),
{
    assert forall|l: usize, g: Ctl| #[trigger] memo_ok(model, l, g) by {
        if model.labels@.contains_key(l) && plain(g) && normal(g) && g.key()
            == model.labels@[l]@ {
            let name = model.labels@[l]@;
            assert(atom_only_name(name));
            match g {
                Ctl::Atomic(n) => {
                    lemma_atom_extension(model, l, n);
                    assert(model.names_label(l, g.key()));
                },
                Ctl::True => {},
                _ => {
                    lemma_composite_key(g);
                },
            }
        }
    }
}

/// Two structures with the same frame that agree on the atoms with plain
/// names agree on every formula with plain atoms.
pub proof fn lemma_sat_stable(m1: Structure, m2: Structure, f: Ctl)
    requires
        m1.frame == m2.frame,
        forall|name: Seq<char>| plain_name(name) ==> #[trigger] m1.atom(name) == m2.atom(name),
        plain(f),
    ensures
        sat(m1, f) == sat(m2, f),
    decreases f,
{
    reveal_with_fuel(plain, 2);
    match f {
        Ctl::True => {},
        Ctl::Atomic(_) => {},
        Ctl::Not(a) => lemma_sat_stable(m1, m2, *a),
        Ctl::And(a, b) => {
            lemma_sat_stable(m1, m2, *a);
            lemma_sat_stable(m1, m2, *b);
        },
        Ctl::Or(a, b) => {
            lemma_sat_stable(m1, m2, *a);
            lemma_sat_stable(m1, m2, *b);
        },
        Ctl::Exist(q) => match *q {
            Ctl::Next(a) => lemma_sat_stable(m1, m2, *a),
            Ctl::Finally(a) => lemma_sat_stable(m1, m2, *a),
            Ctl::Globally(a) => lemma_sat_stable(m1, m2, *a),
            Ctl::Until(a, b) => {
                lemma_sat_stable(m1, m2, *a);
                lemma_sat_stable(m1, m2, *b);
            },
            Ctl::Release(a, b) => {
                lemma_sat_stable(m1, m2, *a);
                lemma_sat_stable(m1, m2, *b);
            },
            _ => lemma_sat_stable(m1, m2, *q),
        },
        Ctl::All(q) => match *q {
            Ctl::Next(a) => lemma_sat_stable(m1, m2, *a),
            Ctl::Finally(a) => lemma_sat_stable(m1, m2, *a),
            Ctl::Globally(a) => lemma_sat_stable(m1, m2, *a),
            Ctl::Until(a, b) => {
                lemma_sat_stable(m1, m2, *a);
                lemma_sat_stable(m1, m2, *b);
            },
            Ctl::Release(a, b) => {
                lemma_sat_stable(m1, m2, *a);
                lemma_sat_stable(m1, m2, *b);
            },
            _ => {},
        },
        _ => {},
    }
}

/// Labels with derived names change nothing about the atoms with plain
/// names, so nothing about what a formula with plain atoms means.
pub proof fn lemma_extends_keeps_sat(before: &Kripke, after: &Kripke, bound: nat, f: Ctl)
    requires
        before.wf(),
        after.wf(),
        extends(before, after, bound),
        plain(f),
    ensures
        sat(before@, f) == sat(after@, f),
        after@.frame == before@.frame,
{
    assert(after@.frame.edges =~= before@.frame.edges);
    assert forall|name: Seq<char>| plain_name(name) implies #[trigger] before@.atom(name)
        == after@.atom(name) by {
        if before.has_label_named(name) {
            let l = before.label_named(name);
            assert(before.names_label(l, name));
            assert(after.names_label(l, name));
            let l2 = after.label_named(name);
            assert(after.names_label(l2, name));
            assert(l2 == l);
            assert(before.extension(l) =~= after.extension(l));
        } else if after.has_label_named(name) {
            let l2 = after.label_named(name);
            assert(after.names_label(l2, name));
            if before.labels@.contains_key(l2) {
                assert(before.names_label(l2, name));
            }
        }
    }
    lemma_sat_stable(before@, after@, f);
}

/// The names of the labels that are made when `f` is labelled, in the order
/// in which they are made; `known` are the names of the labels that are
/// there.  A formula whose key is known gets none; any other gets those of
/// its operands, from left to right, and then its own.
pub open spec fn fresh_keys(known: Seq<Seq<char>>, f: Ctl) -> Seq<Seq<char>>
    decreases f,
{
    if known.contains(f.key()) {
        Seq::empty()
    } else {
        match f {
            Ctl::Not(a) => fresh_keys(known, *a).push(f.key()),
            Ctl::And(a, b) | Ctl::Or(a, b) => {
                let left = fresh_keys(known, *a);
                (left + fresh_keys(known + left, *b)).push(f.key())
            },
            Ctl::Exist(q) => match *q {
                Ctl::Next(a) => fresh_keys(known, *a).push(f.key()),
                Ctl::Globally(a) => fresh_keys(known, *a).push(f.key()),
                Ctl::Until(a, b) => {
                    let left = fresh_keys(known, *a);
                    (left + fresh_keys(known + left, *b)).push(f.key())
                },
                Ctl::Finally(_) => Seq::empty(),
                Ctl::Release(_, _) => Seq::empty(),
                _ => fresh_keys(known, *q).push(f.key()),
            },
            _ => Seq::empty(),
        }
    }
}

/// The labels of a model as the checker sees them, by id: the name of each
/// and the states in which it holds.
pub open spec fn table_of(model: &Kripke) -> Seq<(Seq<char>, Set<usize>)> {
    Seq::new(
        model.labels@.len(),
        |l: int| (model.labels@[l as usize]@, model.extension(l as usize)),
    )
}

/// The names of a table of labels.
pub open spec fn names_in(table: Seq<(Seq<char>, Set<usize>)>) -> Seq<Seq<char>> {
    Seq::new(table.len(), |l: int| table[l].0)
}

/// The states of the label that is called `name`.
pub open spec fn found(table: Seq<(Seq<char>, Set<usize>)>, name: Seq<char>) -> Set<usize> {
    table[choose|l: int| 0 <= l < table.len() && table[l].0 == name].1
}

/// The states of the answer to a formula, as the labelling computes them
/// from the labels that are there: those of the label that is called by the
/// key of the formula where there is one, else what the operator makes of
/// the answers to the operands, the right one asked after the left.
///
/// This says what is computed for every formula.  That it is the set of
/// states in which the formula holds is a matter of the keys; see
/// `labels_sound`.
pub open spec fn answer_ext(table: Seq<(Seq<char>, Set<usize>)>, m: Frame, f: Ctl) -> Set<usize>
    decreases f, 0nat,
{
    if names_in(table).contains(f.key()) {
        found(table, f.key())
    } else {
        match f {
            Ctl::True => m.states,
            Ctl::Not(a) => m.complement(answer_ext(table, m, *a)),
            Ctl::And(a, b) => answer_ext(table, m, *a).intersect(
                answer_ext(grown(table, m, *a), m, *b),
            ),
            Ctl::Or(a, b) => answer_ext(table, m, *a).union(
                answer_ext(grown(table, m, *a), m, *b),
            ),
            Ctl::Exist(q) => match *q {
                Ctl::Next(a) => m.ex(answer_ext(table, m, *a)),
                Ctl::Globally(a) => m.eg(answer_ext(table, m, *a)),
                Ctl::Until(a, b) => m.eu(
                    answer_ext(table, m, *a),
                    answer_ext(grown(table, m, *a), m, *b),
                ),
                Ctl::Finally(_) => Set::empty(),
                Ctl::Release(_, _) => Set::empty(),
                _ => m.ex(answer_ext(table, m, *q)),
            },
            _ => Set::empty(),
        }
    }
}

/// The labels after a formula was labelled: those that were there, then
/// those of the operands, from left to right, then that of the formula.
pub open spec fn grown(table: Seq<(Seq<char>, Set<usize>)>, m: Frame, f: Ctl) -> Seq<
    (Seq<char>, Set<usize>),
>
    decreases f, 1nat,
{
    if names_in(table).contains(f.key()) {
        table
    } else {
        match f {
            Ctl::Not(a) => grown(table, m, *a).push((f.key(), answer_ext(table, m, f))),
            Ctl::And(a, b) | Ctl::Or(a, b) => grown(grown(table, m, *a), m, *b).push(
                (f.key(), answer_ext(table, m, f)),
            ),
            Ctl::Exist(q) => match *q {
                Ctl::Next(a) => grown(table, m, *a).push((f.key(), answer_ext(table, m, f))),
                Ctl::Globally(a) => grown(table, m, *a).push((f.key(), answer_ext(table, m, f))),
                Ctl::Until(a, b) => grown(grown(table, m, *a), m, *b).push(
                    (f.key(), answer_ext(table, m, f)),
                ),
                Ctl::Finally(_) => table,
                Ctl::Release(_, _) => table,
                _ => grown(table, m, *q).push((f.key(), answer_ext(table, m, f))),
            },
            _ => table,
        }
    }
}

/// The label that is called `name` is found in the table of the model by
/// that name.
pub proof fn lemma_found(model: &Kripke, id: usize, name: Seq<char>)
    requires
        model.wf(),
    ensures
        names_in(table_of(model)) == names_of(model),
        model.names_label(id, name) ==> found(table_of(model), name) == model.extension(id),
{
    let table = table_of(model);
    assert(names_in(table) =~= names_of(model));
    if model.names_label(id, name) {
        assert(table[id as int].0 == name);
        let l = choose|l: int| 0 <= l < table.len() && table[l].0 == name;
        assert(model.labels@.contains_key(l as usize));
        assert(model.names_label(l as usize, name));
    }
}

/// What `process` asks of its arguments: a well-formed model, and that
/// the labels that may be made can be numbered.
pub open spec fn checkable(model: &Kripke, f: Ctl) -> bool {
    &&& model.wf()
    &&& model.labels@.len() + f.size() <= usize::MAX
}

/// What `process` promises of the model, whatever the formula and the
/// result: the model is still well-formed, so its tables agree; the frame
/// is as it was; every label that was there has kept its name and its
/// extension; at most one label was made for each node of the formula; and
/// where the atoms of the formula are plain, sound labels are still sound.
pub open spec fn labelled(before: &Kripke, after: &Kripke, f: Ctl) -> bool {
    &&& after.wf()
    &&& extends(before, after, f.key().len())
    &&& after.labels@.len() <= before.labels@.len() + f.size()
    &&& plain(f) && labels_sound(before) ==> labels_sound(after)
}

/// The id that a successful check of `f` returns: `TRUE_ID` for `true`
/// where no label is called `true`, else the label that is called by the
/// key of `f`.
pub open spec fn is_answer(before: &Kripke, after: &Kripke, f: Ctl, id: usize) -> bool {
    if f is True && !before.has_label_named(f.key()) {
        id == TRUE_ID
    } else {
        id != TRUE_ID && after.names_label(id, f.key())
    }
}

/// What `process` promises of its result, whatever the formula.
///
/// The result is an error exactly where the labelling comes upon a fault,
/// and then the first.  Else it is the id of the label of the formula, the
/// labels that were made are `fresh_keys`, in their order, and the table of
/// labels is `grown`: the tables after a check are a function of the tables
/// before it and the formula.  Where the
/// formula has plain atoms and an accepted shape and the labels were sound,
/// the label holds exactly where the formula holds, and every part of the
/// formula has its label.
pub open spec fn answers(before: &Kripke, after: &Kripke, f: Ctl, result: Result<usize, CheckError>) -> bool {
    match result {
        Ok(id) => {
            &&& before.labels@.len() + f.size() <= usize::MAX
            &&& first_fault(names_of(before), f) is None
            &&& is_answer(before, after, f, id)
            &&& names_of(after) == names_of(before) + fresh_keys(names_of(before), f)
            &&& table_of(after) == grown(table_of(before), before@.frame, f)
            &&& after.extension(id) == answer_ext(table_of(before), before@.frame, f)
            &&& plain(f) && normal(f) && labels_sound(before) ==> after.extension(id) == sat(
                before@,
                f,
            ) && all_labelled(after, f)
        },
        Err(CheckError::TooManyLabels) => before.labels@.len() + f.size() > usize::MAX,
        Err(e) => {
            &&& before.labels@.len() + f.size() <= usize::MAX
            &&& first_fault(names_of(before), f) == fault_of(e)
        },
    }
}

/// The root of the formula is one that is refused at once: a universal
/// quantifier, a temporal operator that stands alone, `EF` or `E(f R g)`.
pub open spec fn refused_root(f: Ctl) -> bool {
    match f {
        Ctl::All(_) => true,
        Ctl::Next(_) => true,
        Ctl::Finally(_) => true,
        Ctl::Globally(_) => true,
        Ctl::Until(_, _) => true,
        Ctl::Release(_, _) => true,
        Ctl::Exist(q) => *q is Finally || *q is Release,
        _ => false,
    }
}

/// The model after the check of an operand, seen from the model in which
/// the check of the whole formula began.
pub proof fn lemma_operand(
    start: &Kripke,
    before: &Kripke,
    after: &Kripke,
    f: Ctl,
    part: Ctl,
    result: Result<usize, CheckError>,
    bound: nat,
)
    requires
        start.wf(),
        before.wf(),
        extends(start, before, bound),
        bound < f.key().len(),
        part.key().len() < f.key().len(),
        labelled(before, after, part),
        answers(before, after, part, result),
        checkable(before, part),
        plain(f) ==> plain(part),
        normal(f) ==> normal(part),
        plain(f) && labels_sound(start) ==> labels_sound(before),
    ensures
        extends(start, after, (f.key().len() - 1) as nat),
        after@.frame == start@.frame,
        plain(f) && labels_sound(start) ==> labels_sound(after),
        result matches Ok(id) ==> (id == TRUE_ID || after.labels@.contains_key(id)) && (plain(f)
            && normal(f) && labels_sound(start) ==> after.extension(id) == sat(start@, part)
            && all_labelled(after, part)),
        result matches Ok(id) ==> table_of(after) == grown(table_of(before), start@.frame, part)
            && after.extension(id) == answer_ext(table_of(before), start@.frame, part),
{
    lemma_extends_keeps_sat(start, before, bound, Ctl::True);
    lemma_extends_twice(
        start,
        before,
        after,
        bound,
        part.key().len(),
        (f.key().len() - 1) as nat,
    );
    lemma_extends_keeps_sat(start, after, (f.key().len() - 1) as nat, Ctl::True);
    if plain(f) {
        lemma_extends_keeps_sat(start, before, bound, part);
    }
}

/// A label that was made for a formula and filled: the model has one label
/// more, called by the key of the formula, and is as it was but for that.
pub proof fn lemma_label_made(
    start: &Kripke,
    before: &Kripke,
    named: &Kripke,
    after: &Kripke,
    f: Ctl,
    id: usize,
    target: Set<usize>,
    bound: nat,
)
    requires
        start.wf(),
        before.wf(),
        extends(start, before, bound),
        bound < f.key().len(),
        !(f is True),
        !(f is Atomic),
        named_after(before, named, id, f.key()),
        filled(named, after, id, target),
    ensures
        extends(start, after, f.key().len()),
        extends(before, after, f.key().len()),
        id != TRUE_ID,
        after.names_label(id, f.key()),
        after.labels@.len() == before.labels@.len() + 1,
        after.extension(id) == target,
        names_of(after) == names_of(before).push(f.key()),
        table_of(after) == table_of(before).push((f.key(), target)),
{
    lemma_composite_key(f);
    lemma_named_filled_extends(before, named, after, id, f.key(), target);
    lemma_extends_twice(start, before, after, bound, f.key().len(), f.key().len());
    assert(table_of(after) =~= table_of(before).push((f.key(), target))) by {
        assert(before.labels@.dom().finite());
        assert forall|l: int| 0 <= l < table_of(after).len() implies table_of(after)[l]
            == table_of(before).push((f.key(), target))[l] by {
            if l < table_of(before).len() {
                assert(before.labels@.contains_key(l as usize));
                assert(after.extension(l as usize) == before.extension(l as usize));
            }
        }
    }
    assert(names_of(after) =~= names_of(before).push(f.key())) by {
        assert(before.labels@.dom().finite());
        assert forall|l: int| 0 <= l < names_of(after).len() implies names_of(after)[l]
            == names_of(before).push(f.key())[l] by {
            if l < names_of(before).len() {
                assert(before.labels@.contains_key(l as usize));
            }
        }
    }
}

/// The step that keeps the labels sound: the label that was made for a
/// formula with plain atoms was filled with the states in which the formula
/// holds, if the formula has an accepted shape.
pub proof fn lemma_label_sound(
    start: &Kripke,
    before: &Kripke,
    named: &Kripke,
    after: &Kripke,
    f: Ctl,
    id: usize,
    target: Set<usize>,
    bound: nat,
)
    requires
        start.wf(),
        before.wf(),
        extends(start, before, bound),
        bound < f.key().len(),
        !(f is True),
        !(f is Atomic),
        named_after(before, named, id, f.key()),
        filled(named, after, id, target),
        plain(f),
        labels_sound(before),
        normal(f) ==> target == sat(start@, f),
        normal(f) ==> forall|h: Ctl| #[trigger]
            state_part(h, f) && h != f && !(h is True) ==> before.has_label_named(h.key()),
    ensures
        labels_sound(after),
        normal(f) ==> after.extension(id) == sat(start@, f) && all_labelled(after, f),
{
    lemma_label_made(start, before, named, after, f, id, target, bound);
    lemma_composite_key(f);
    lemma_named_filled_extends(before, named, after, id, f.key(), target);
    lemma_extends_keeps_sat(start, after, f.key().len(), f);
    assert forall|l: usize, g: Ctl| #[trigger] memo_ok(after, l, g) by {
        if after.labels@.contains_key(l) && plain(g) && normal(g) && g.key()
            == after.labels@[l]@ {
            if l == id {
                lemma_key_injective(g, f);
                assert forall|h: Ctl| #[trigger] state_part(h, g) && !(h is True) implies after.has_label_named(
                    h.key(),
                ) by {
                    if h == f {
                        assert(after.names_label(id, h.key()));
                    } else {
                        lemma_still_named(before, after, f.key().len(), h.key());
                    }
                }
            } else {
                assert(before.labels@.contains_key(l));
                assert(memo_ok(before, l, g));
                lemma_extends_keeps_sat(before, after, f.key().len(), g);
                lemma_still_labelled(before, after, f.key().len(), g);
            }
        }
    }
    if normal(f) {
        assert(memo_ok(after, id, f));
    }
}

/// The formula of the given kind over `g`.
pub open spec fn unary_of(kind: Unary, g: Ctl) -> Ctl {
    match kind {
        Unary::Not => g.neg(),
        Unary::Next => g.ex(),
        Unary::Globally => g.eg(),
        Unary::Bare => Ctl::Exist(Box::new(g)),
    }
}

/// The formula of the given kind over `a` and `b`.
pub open spec fn binary_of(kind: Binary, a: Ctl, b: Ctl) -> Ctl {
    match kind {
        Binary::And => a.conj(b),
        Binary::Or => a.disj(b),
        Binary::Until => a.eu(b),
    }
}

/// The labels made for two operands are no more than the formula has
/// nodes.
pub proof fn lemma_labelled_twice(start: &Kripke, m1: &Kripke, m2: &Kripke, f: Ctl, a: Ctl, b: Ctl)
    requires
        labelled(start, m1, a),
        m2.labels@.len() <= m1.labels@.len() + b.size(),
        a.size() + b.size() < f.size(),
    ensures
        m2.labels@.len() + 1 <= start.labels@.len() + f.size(),
{
}

} // verus!
