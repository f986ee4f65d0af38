//! Canonical keys can be read back in one way only.
//!
//! A key is a label name, and the checker finds the label of a subformula by
//! its key.  That is sound where two different formulae never share a key.
//! With arbitrary atom names they may: the atom `aUb` under `U c` and the atom
//! `a` under `U` with the atom `bUc` both give `(aUbUc)`.  This module names
//! the atom names that cannot be confused with a part of a key and proves
//! that over them the key determines the formula.

use crate::ctl::{CTLFormulae, Ctl};
use crate::lists::chars_of;
use vstd::prelude::*;

verus! {

/// A character that opens the key of a composite formula.
pub open spec fn is_mark(c: char) -> bool {
    c == '!' || c == '(' || c == 'A' || c == 'E' || c == 'X' || c == 'F' || c == 'G'
}

/// A character that may follow a complete key inside a longer one.
pub open spec fn is_stop(c: char) -> bool {
    c == '&' || c == '|' || c == 'U' || c == 'R' || c == ')'
}

/// An atom name that cannot be taken for a part of a composite key: it is not
/// `true`, does not begin like a composite key and holds no character that
/// ends a key.
pub open spec fn plain_name(name: Seq<char>) -> bool {
    &&& name != seq!['t', 'r', 'u', 'e']
    &&& name.len() > 0 ==> !is_mark(name[0])
    &&& forall|i: int| 0 <= i < name.len() ==> !is_stop(#[trigger] name[i])
}

/// A character that opens the key of a formula that gets a label: `!`, `(`
/// for `&&` and `||`, `E` for `EX`, `EG` and `EU`.
pub open spec fn is_label_mark(c: char) -> bool {
    c == '!' || c == '(' || c == 'E'
}

/// A name that is the key of no formula that gets a label, but of the atom
/// of that name: it is not `true` and does not begin with `!`, `(` or `E`.
pub open spec fn atom_only_name(name: Seq<char>) -> bool {
    &&& name != seq!['t', 'r', 'u', 'e']
    &&& name.len() > 0 ==> !is_label_mark(name[0])
}

/// Every atom of the formula has a plain name.
pub open spec fn plain(f: Ctl) -> bool
    decreases f,
{
    match f {
        Ctl::True => true,
        Ctl::Atomic(name) => plain_name(name),
        Ctl::Not(a) => plain(*a),
        Ctl::And(a, b) => plain(*a) && plain(*b),
        Ctl::Or(a, b) => plain(*a) && plain(*b),
        Ctl::All(a) => plain(*a),
        Ctl::Exist(a) => plain(*a),
        Ctl::Next(a) => plain(*a),
        Ctl::Finally(a) => plain(*a),
        Ctl::Globally(a) => plain(*a),
        Ctl::Until(a, b) => plain(*a) && plain(*b),
        Ctl::Release(a, b) => plain(*a) && plain(*b),
    }
}

/// What follows a key inside a longer key: nothing, or text that begins with
/// a stop character.
pub open spec fn stop_led(rest: Seq<char>) -> bool {
    rest.len() > 0 ==> is_stop(rest[0])
}

/// The operands and the infix of a binary formula.
pub open spec fn binary_parts(f: Ctl) -> Option<(Ctl, Seq<char>, Ctl)> {
    match f {
        Ctl::And(a, b) => Some((*a, seq!['&', '&'], *b)),
        Ctl::Or(a, b) => Some((*a, seq!['|', '|'], *b)),
        Ctl::Until(a, b) => Some((*a, seq!['U'], *b)),
        Ctl::Release(a, b) => Some((*a, seq!['R'], *b)),
        _ => None,
    }
}

/// The operand of a unary formula.
pub open spec fn unary_part(f: Ctl) -> Option<Ctl> {
    match f {
        Ctl::Not(a) => Some(*a),
        Ctl::All(a) => Some(*a),
        Ctl::Exist(a) => Some(*a),
        Ctl::Next(a) => Some(*a),
        Ctl::Finally(a) => Some(*a),
        Ctl::Globally(a) => Some(*a),
        _ => None,
    }
}

/// Texts that are equal and begin with texts of the same length begin with
/// the same text and end with the same text.
proof fn lemma_cancel_prefix(p: Seq<char>, q: Seq<char>, x: Seq<char>, y: Seq<char>)
    requires
        p + x == q + y,
        p.len() == q.len(),
    ensures
        p == q,
        x == y,
{
    let l = p.add(x);
    let r = q.add(y);
    assert(l == r);
    assert(l.len() == p.len() + x.len());
    assert(r.len() == q.len() + y.len());
    assert forall|i: int| 0 <= i < p.len() implies p[i] == q[i] by {
        assert(p.add(x)[i] == p[i]);
        assert(q.add(y)[i] == q[i]);
    }
    assert(p =~= q);
    assert forall|i: int| 0 <= i < x.len() implies x[i] == y[i] by {
        assert(p.add(x)[i + p.len()] == x[i]);
        assert(q.add(y)[i + q.len()] == y[i]);
    }
    assert(x =~= y);
}

/// How a key followed by stop-led text begins.
proof fn lemma_key_opening(f: Ctl, rest: Seq<char>)
    requires
        plain(f),
        stop_led(rest),
    ensures
        ({
            let t = f.key() + rest;
            match f {
                Ctl::True => t.len() >= 4 && t[0] == 't',
                Ctl::Atomic(_) => t.len() > 0 ==> !is_mark(t[0]),
                Ctl::Not(_) => t.len() > 0 && t[0] == '!',
                Ctl::All(_) => t.len() > 0 && t[0] == 'A',
                Ctl::Exist(_) => t.len() > 0 && t[0] == 'E',
                Ctl::Next(_) => t.len() > 0 && t[0] == 'X',
                Ctl::Finally(_) => t.len() > 0 && t[0] == 'F',
                Ctl::Globally(_) => t.len() > 0 && t[0] == 'G',
                _ => t.len() > 0 && t[0] == '(',
            }
        }),
{
}

/// The key of a unary formula is its mark and the key of its operand.
proof fn lemma_unary_key(f: Ctl, rest: Seq<char>)
    requires
        unary_part(f) is Some,
    ensures
        f.key().len() > 0,
        f.key() + rest == seq![f.key()[0]] + (unary_part(f)->0.key() + rest),
{
    let a = unary_part(f)->0;
    assert(f.key() + rest =~= seq![f.key()[0]] + (a.key() + rest));
}

/// The key of a binary formula is a bracket around both operands' keys and
/// the infix between them.
proof fn lemma_binary_key(f: Ctl, rest: Seq<char>)
    requires
        binary_parts(f) is Some,
    ensures
        ({
            let (a, op, b) = binary_parts(f)->0;
            &&& f.key() + rest == seq!['('] + (a.key() + (op + (b.key() + (seq![')'] + rest))))
            &&& op.len() > 0
            &&& is_stop(op[0])
        }),
{
    let (a, op, b) = binary_parts(f)->0;
    assert(f.key() + rest =~= seq!['('] + (a.key() + (op + (b.key() + (seq![')'] + rest)))));
}

/// A plain name followed by stop-led text is never `true` followed by
/// stop-led text.
proof fn lemma_name_is_not_true(name: Seq<char>, r1: Seq<char>, r2: Seq<char>)
    requires
        plain_name(name),
        stop_led(r1),
        stop_led(r2),
    ensures
        name + r1 != seq!['t', 'r', 'u', 'e'] + r2,
{
    let t = seq!['t', 'r', 'u', 'e'];
    let l = name + r1;
    let r = t + r2;
    if l != r {
    } else if name.len() < 4 {
        let k = name.len() as int;
        assert(l[k] == r1[0]);
        assert(r[k] == t[k]);
    } else if name.len() == 4 {
        assert forall|i: int| 0 <= i < 4 implies name[i] == t[i] by {
            assert(l[i] == r[i]);
        }
        assert(name =~= t);
    } else {
        assert(l[4] == name[4]);
        assert(r[4] == r2[0]);
    }
}

/// Two plain names followed by stop-led text agree only if they are the same
/// name.
proof fn lemma_names_agree(n1: Seq<char>, n2: Seq<char>, r1: Seq<char>, r2: Seq<char>)
    requires
        plain_name(n1),
        plain_name(n2),
        stop_led(r1),
        stop_led(r2),
        n1 + r1 == n2 + r2,
    ensures
        n1 == n2,
        r1 == r2,
{
    let l = n1 + r1;
    let r = n2 + r2;
    if n1.len() < n2.len() {
        let k = n1.len() as int;
        assert(l[k] == r1[0]);
        assert(r[k] == n2[k]);
    } else if n2.len() < n1.len() {
        let k = n2.len() as int;
        assert(r[k] == r2[0]);
        assert(l[k] == n1[k]);
    } else {
        lemma_cancel_prefix(n1, n2, r1, r2);
    }
}

/// Keys are uniquely readable: where the keys of two formulae with plain
/// atoms, each followed by stop-led text, give the same text, the formulae
/// are the same and so is what follows.
pub proof fn lemma_key_unique_prefix(f: Ctl, g: Ctl, r1: Seq<char>, r2: Seq<char>)
    requires
        plain(f),
        plain(g),
        stop_led(r1),
        stop_led(r2),
        f.key() + r1 == g.key() + r2,
    ensures
        f == g,
        r1 == r2,
    decreases f,
{
    lemma_key_opening(f, r1);
    lemma_key_opening(g, r2);
    let t = f.key() + r1;
    match f {
        Ctl::True => {
            match g {
                Ctl::True => {
                    lemma_cancel_prefix(f.key(), g.key(), r1, r2);
                },
                Ctl::Atomic(m) => {
                    lemma_name_is_not_true(m, r2, r1);
                },
                _ => {},
            }
        },
        Ctl::Atomic(n) => {
            match g {
                Ctl::True => {
                    lemma_name_is_not_true(n, r1, r2);
                },
                Ctl::Atomic(m) => {
                    lemma_names_agree(n, m, r1, r2);
                },
                _ => {},
            }
        },
        _ => {
            if unary_part(f) is Some {
                assert(unary_part(g) is Some && g.key()[0] == f.key()[0]) by {
                    assert((g.key() + r2)[0] == t[0]);
                }
                let a = unary_part(f)->0;
                let b = unary_part(g)->0;
                lemma_unary_key(f, r1);
                lemma_unary_key(g, r2);
                lemma_cancel_prefix(seq![f.key()[0]], seq![g.key()[0]], a.key() + r1, b.key() + r2);
                lemma_key_unique_prefix(a, b, r1, r2);
            } else {
                assert(binary_parts(f) is Some);
                assert(binary_parts(g) is Some) by {
                    assert((g.key() + r2)[0] == t[0]);
                }
                let (a1, op1, b1) = binary_parts(f)->0;
                let (a2, op2, b2) = binary_parts(g)->0;
                lemma_binary_key(f, r1);
                lemma_binary_key(g, r2);
                let close1 = seq![')'] + r1;
                let close2 = seq![')'] + r2;
                let tail1 = op1 + (b1.key() + close1);
                let tail2 = op2 + (b2.key() + close2);
                lemma_cancel_prefix(seq!['('], seq!['('], a1.key() + tail1, a2.key() + tail2);
                assert(tail1[0] == op1[0]);
                assert(tail2[0] == op2[0]);
                lemma_key_unique_prefix(a1, a2, tail1, tail2);
                assert(op1 == op2) by {
                    assert(tail1[0] == tail2[0]);
                }
                lemma_cancel_prefix(op1, op2, b1.key() + close1, b2.key() + close2);
                assert(close1[0] == ')');
                assert(close2[0] == ')');
                lemma_key_unique_prefix(b1, b2, close1, close2);
                lemma_cancel_prefix(seq![')'], seq![')'], r1, r2);
            }
        },
    }
}

/// Over plain atom names the canonical key determines the formula.
pub proof fn lemma_key_injective(f: Ctl, g: Ctl)
    requires
        plain(f),
        plain(g),
        f.key() == g.key(),
    ensures
        f == g,
{
    let e = Seq::<char>::empty();
    assert(f.key() + e =~= f.key());
    assert(g.key() + e =~= g.key());
    lemma_key_unique_prefix(f, g, e, e);
}

/// Whether the character opens the key of a composite formula.
pub fn is_mark_char(c: char) -> (yes: bool)
    ensures
        yes == is_mark(c),
{
    c == '!' || c == '(' || c == 'A' || c == 'E' || c == 'X' || c == 'F' || c == 'G'
}

/// Whether the character may follow a complete key inside a longer one.
pub fn is_stop_char(c: char) -> (yes: bool)
    ensures
        yes == is_stop(c),
{
    c == '&' || c == '|' || c == 'U' || c == 'R' || c == ')'
}

/// Whether the characters spell `true`.
pub fn spells_true(chars: &Vec<char>) -> (yes: bool)
    ensures
        yes == (chars@ == seq!['t', 'r', 'u', 'e']),
{
    let yes = chars.len() == 4 && chars[0] == 't' && chars[1] == 'r' && chars[2] == 'u' && chars[3]
        == 'e';
    proof {
        if yes {
            assert(chars@ =~= seq!['t', 'r', 'u', 'e']);
        }
    }
    yes
}

/// Whether the name is the key of no formula that gets a label, but of the
/// atom of that name.
pub fn is_atom_only_name(name: &str) -> (yes: bool)
    ensures
        yes == atom_only_name(name@),
{
    let chars = chars_of(name);
    if spells_true(&chars) {
        return false;
    }
    chars.len() == 0 || !(chars[0] == '!' || chars[0] == '(' || chars[0] == 'E')
}

/// Whether the name is plain: not `true`, no mark at its beginning and no
/// stop character in it.
pub fn is_plain_name(name: &str) -> (yes: bool)
    ensures
        yes == plain_name(name@),
{
    let chars = chars_of(name);
    if spells_true(&chars) {
        return false;
    }
    if chars.len() > 0 && is_mark_char(chars[0]) {
        return false;
    }
    for i in 0..chars.len()
        invariant
            chars@ == name@,
            name@ != seq!['t', 'r', 'u', 'e'],
            name@.len() > 0 ==> !is_mark(name@[0]),
            forall|j: int| 0 <= j < i ==> !is_stop(#[trigger] chars@[j]),
    {
        if is_stop_char(chars[i]) {
            assert(is_stop(name@[i as int]));
            return false;
        }
    }
    true
}

impl CTLFormulae {
    /// Whether every atom of the formula has a plain name.
    pub fn has_plain_atoms(&self) -> (yes: bool)
        ensures
            yes == plain(self@),
        decreases self,
    {
        match self {
            CTLFormulae::True => true,
            CTLFormulae::Atomic(name) => is_plain_name(name.as_str()),
            CTLFormulae::Not(a) => a.has_plain_atoms(),
            CTLFormulae::And(a, b) => a.has_plain_atoms() && b.has_plain_atoms(),
            CTLFormulae::Or(a, b) => a.has_plain_atoms() && b.has_plain_atoms(),
            CTLFormulae::All(a) => a.has_plain_atoms(),
            CTLFormulae::Exist(a) => a.has_plain_atoms(),
            CTLFormulae::Next(a) => a.has_plain_atoms(),
            CTLFormulae::Finally(a) => a.has_plain_atoms(),
            CTLFormulae::Globally(a) => a.has_plain_atoms(),
            CTLFormulae::Until(a, b) => a.has_plain_atoms() && b.has_plain_atoms(),
            CTLFormulae::Release(a, b) => a.has_plain_atoms() && b.has_plain_atoms(),
        }
    }

    /// The number of nodes of the formula, if it can be counted in `usize`.
    pub fn node_count(&self) -> (count: Option<usize>)
        ensures
            match count {
                Some(n) => n == self@.size(),
                None => self@.size() > usize::MAX,
            },
        decreases self,
    {
        match self {
            CTLFormulae::True => Some(1),
            CTLFormulae::Atomic(_) => Some(1),
            CTLFormulae::Not(a) | CTLFormulae::All(a) | CTLFormulae::Exist(a) | CTLFormulae::Next(
                a,
            ) | CTLFormulae::Finally(a) | CTLFormulae::Globally(a) => match a.node_count() {
                Some(n) => n.checked_add(1),
                None => None,
            },
            CTLFormulae::And(a, b) | CTLFormulae::Or(a, b) | CTLFormulae::Until(a, b)
            | CTLFormulae::Release(a, b) => match a.node_count() {
                Some(n) => match b.node_count() {
                    Some(k) => match n.checked_add(k) {
                        Some(sum) => sum.checked_add(1),
                        None => None,
                    },
                    None => None,
                },
                None => None,
            },
        }
    }
}

/// Rewriting makes no atoms: a formula with plain atoms keeps them.
pub proof fn lemma_rewrite_plain(f: Ctl)
    requires
        plain(f),
    ensures
        plain(f.rewrite()),
    decreases f,
{
    reveal_with_fuel(plain, 6);
    match f {
        Ctl::Not(x) => match *x {
            Ctl::Not(g) => lemma_rewrite_plain(*g),
            _ => lemma_rewrite_plain(*x),
        },
        Ctl::And(a, b) => {
            lemma_rewrite_plain(*a);
            lemma_rewrite_plain(*b);
        },
        Ctl::Or(a, b) => {
            lemma_rewrite_plain(*a);
            lemma_rewrite_plain(*b);
        },
        Ctl::All(q) => match *q {
            Ctl::Next(a) => lemma_rewrite_plain(*a),
            Ctl::Finally(a) => lemma_rewrite_plain(*a),
            Ctl::Globally(a) => lemma_rewrite_plain(*a),
            Ctl::Until(a, b) => {
                lemma_rewrite_plain(*a);
                lemma_rewrite_plain(*b);
            },
            Ctl::Release(a, b) => {
                lemma_rewrite_plain(*a);
                lemma_rewrite_plain(*b);
            },
            _ => lemma_rewrite_plain(*q),
        },
        Ctl::Exist(q) => match *q {
            Ctl::Next(a) => lemma_rewrite_plain(*a),
            Ctl::Finally(a) => lemma_rewrite_plain(*a),
            Ctl::Globally(a) => lemma_rewrite_plain(*a),
            Ctl::Until(a, b) => {
                lemma_rewrite_plain(*a);
                lemma_rewrite_plain(*b);
            },
            Ctl::Release(a, b) => {
                lemma_rewrite_plain(*a);
                lemma_rewrite_plain(*b);
            },
            _ => {},
        },
        Ctl::Next(a) => lemma_rewrite_plain(*a),
        Ctl::Finally(a) => lemma_rewrite_plain(*a),
        Ctl::Globally(a) => lemma_rewrite_plain(*a),
        Ctl::Until(a, b) => {
            lemma_rewrite_plain(*a);
            lemma_rewrite_plain(*b);
        },
        Ctl::Release(a, b) => {
            lemma_rewrite_plain(*a);
            lemma_rewrite_plain(*b);
        },
        _ => {},
    }
}

} // verus!
