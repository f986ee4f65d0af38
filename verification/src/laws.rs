//! Laws of the semantics: the dualities between the operators, and that
//! rewriting a formula to the operator basis does not change where it holds.

use crate::ctl::{lemma_rewrite_well_formed, Ctl};
use crate::semantics::{lemma_sat_in_states, lemma_walk_in_states, sat, segment, Frame, Structure};
use vstd::prelude::*;

verus! {

/// `AX` is the dual of `EX`.
pub proof fn lemma_ax_dual(m: Frame, target: Set<usize>)
    ensures
        m.ax(target) == m.complement(m.ex(m.complement(target))),
{
    let other = m.complement(m.ex(m.complement(target)));
    assert forall|s: usize| m.ax(target).contains(s) <==> other.contains(s) by {
        if m.ax(target).contains(s) && m.ex(m.complement(target)).contains(s) {
            let t = choose|t: usize| #[trigger] m.edge(s, t) && m.complement(target).contains(t);
        }
        if other.contains(s) {
            assert forall|t: usize| #[trigger] m.edge(s, t) implies target.contains(t) by {
                if !target.contains(t) {
                    assert(m.edge(s, t) && m.complement(target).contains(t));
                }
            }
        }
    }
    assert(m.ax(target) =~= other);
}

/// `AF` is the dual of `EG`.
pub proof fn lemma_af_dual(m: Frame, goal: Set<usize>)
    ensures
        m.af(goal) == m.complement(m.eg(m.complement(goal))),
{
    let avoid = m.complement(goal);
    let other = m.complement(m.eg(avoid));
    assert forall|s: usize| m.af(goal).contains(s) <==> other.contains(s) by {
        if m.af(goal).contains(s) && m.eg(avoid).contains(s) {
            let r = choose|r: spec_fn(nat) -> usize| #[trigger] m.stays(r, s, avoid);
            assert(m.run_from(r, s));
            let i = choose|i: nat| goal.contains(#[trigger] r(i));
            assert(avoid.contains(r(i)));
        }
        if other.contains(s) {
            assert forall|r: spec_fn(nat) -> usize| #[trigger] m.run_from(r, s) implies exists|i: nat|
                goal.contains(#[trigger] r(i)) by {
                if !m.stays(r, s, avoid) {
                    let i = choose|i: nat| !avoid.contains(#[trigger] r(i));
                    assert(m.step(r, i));
                    assert(goal.contains(r(i)));
                }
            }
        }
    }
    assert(m.af(goal) =~= other);
}

/// `AG` is the dual of `EF`.
pub proof fn lemma_ag_dual(m: Frame, hold: Set<usize>)
    ensures
        m.ag(hold) == m.complement(m.ef(m.complement(hold))),
{
    let avoid = m.complement(hold);
    let other = m.complement(m.ef(avoid));
    assert forall|s: usize| m.ag(hold).contains(s) <==> other.contains(s) by {
        if m.ag(hold).contains(s) && m.ef(avoid).contains(s) {
            let p = choose|p: Seq<usize>| #[trigger] m.arrives(p, s, avoid);
            assert(m.walk_from(p, s));
        }
        if other.contains(s) {
            assert forall|p: Seq<usize>| #[trigger] m.walk_from(p, s) implies hold.contains(
                p.last(),
            ) by {
                lemma_walk_in_states(m, p, p.len() - 1);
                if !hold.contains(p.last()) {
                    assert(m.arrives(p, s, avoid));
                }
            }
        }
    }
    assert(m.ag(hold) =~= other);
}

/// `EF` is `EU` with every state allowed on the way.
pub proof fn lemma_ef_is_eu(m: Frame, goal: Set<usize>)
    ensures
        m.ef(goal) == m.eu(m.states, goal),
{
    assert forall|s: usize| m.ef(goal).contains(s) <==> m.eu(m.states, goal).contains(s) by {
        if m.ef(goal).contains(s) {
            let p = choose|p: Seq<usize>| #[trigger] m.arrives(p, s, goal);
            assert forall|i: int| 0 <= i < p.len() - 1 implies m.states.contains(#[trigger] p[i]) by {
                lemma_walk_in_states(m, p, i);
            }
            assert(m.leads(p, s, m.states, goal));
        }
        if m.eu(m.states, goal).contains(s) {
            let p = choose|p: Seq<usize>| #[trigger] m.leads(p, s, m.states, goal);
            assert(m.arrives(p, s, goal));
        }
    }
    assert(m.ef(goal) =~= m.eu(m.states, goal));
}

/// `A(free R keep)` is the dual of `E(!free U !keep)`.
pub proof fn lemma_ar_dual(m: Frame, free: Set<usize>, keep: Set<usize>)
    ensures
        m.ar(free, keep) == m.complement(m.eu(m.complement(free), m.complement(keep))),
{
    let nf = m.complement(free);
    let nk = m.complement(keep);
    let other = m.complement(m.eu(nf, nk));
    assert forall|s: usize| m.ar(free, keep).contains(s) <==> other.contains(s) by {
        if m.ar(free, keep).contains(s) && m.eu(nf, nk).contains(s) {
            let p = choose|p: Seq<usize>| #[trigger] m.leads(p, s, nf, nk);
            assert(m.walk_from(p, s));
            assert(Frame::released(p, free, keep));
            let j = choose|j: int| 0 <= j < p.len() - 1 && free.contains(#[trigger] p[j]);
            assert(nf.contains(p[j]));
        }
        if other.contains(s) {
            assert forall|p: Seq<usize>| #[trigger] m.walk_from(p, s) implies Frame::released(
                p,
                free,
                keep,
            ) by {
                if !Frame::released(p, free, keep) {
                    lemma_walk_in_states(m, p, p.len() - 1);
                    assert forall|i: int| 0 <= i < p.len() - 1 implies nf.contains(#[trigger] p[i]) by {
                        lemma_walk_in_states(m, p, i);
                    }
                    assert(m.leads(p, s, nf, nk));
                }
            }
        }
    }
    assert(m.ar(free, keep) =~= other);
}

/// The run that follows the walk `p` and then goes on from successor to
/// successor.
pub open spec fn continued(m: Frame, p: Seq<usize>, i: nat) -> usize
    decreases i,
{
    if i < p.len() || i == 0 {
        p[i as int]
    } else {
        let before = continued(m, p, (i - 1) as nat);
        choose|t: usize| m.edge(before, t)
    }
}

/// Where every state has a successor, every walk is the beginning of a run.
pub proof fn lemma_continued_runs(m: Frame, p: Seq<usize>)
    requires
        m.total(),
        m.walk(p),
    ensures
        m.run(|i: nat| continued(m, p, i)),
        forall|i: nat| i < p.len() ==> continued(m, p, i) == p[i as int],
{
    let r = |i: nat| continued(m, p, i);
    assert forall|i: nat| #[trigger] m.step(r, i) by {
        lemma_continued_step(m, p, i);
    }
}

/// Every state of the continued walk is a state and is joined to the next.
proof fn lemma_continued_step(m: Frame, p: Seq<usize>, i: nat)
    requires
        m.total(),
        m.walk(p),
    ensures
        m.states.contains(continued(m, p, i)),
        m.edge(continued(m, p, i), continued(m, p, i + 1)),
    decreases i,
{
    if i < p.len() {
        lemma_walk_in_states(m, p, i as int);
    } else {
        lemma_continued_step(m, p, (i - 1) as nat);
    }
    if i + 1 < p.len() {
        assert(m.hop(p, i as int));
    } else {
        let here = continued(m, p, i);
        let t = choose|t: usize| #[trigger] m.edge(here, t);
        assert(m.edge(here, t));
        assert(continued(m, p, i + 1) == choose|t: usize| m.edge(here, t));
    }
}

/// The least number at which something holds, if it holds at `upto`.
pub proof fn lemma_least(holds: spec_fn(nat) -> bool, upto: nat) -> (least: nat)
    requires
        holds(upto),
    ensures
        holds(least),
        least <= upto,
        forall|j: nat| j < least ==> !#[trigger] holds(j),
    decreases upto,
{
    if exists|j: nat| j < upto && #[trigger] holds(j) {
        let j = choose|j: nat| j < upto && #[trigger] holds(j);
        lemma_least(holds, j)
    } else {
        upto
    }
}

/// A beginning of a run is a walk.
proof fn lemma_beginning(m: Frame, r: spec_fn(nat) -> usize, count: nat)
    requires
        m.run(r),
        count > 0,
    ensures
        m.walk(segment(r, 0, count)),
        segment(r, 0, count).len() == count,
        forall|i: int| 0 <= i < count ==> segment(r, 0, count)[i] == r(i as nat),
{
    let p = segment(r, 0, count);
    assert(m.step(r, 0));
    assert forall|k: int| 0 <= k < p.len() - 1 implies #[trigger] m.hop(p, k) by {
        assert(m.step(r, k as nat));
    }
}

/// Where every state has a successor, `A(hold U goal)` is
/// `!E(!goal U (!hold && !goal)) && !EG !goal`.
pub proof fn lemma_au_dual(m: Frame, hold: Set<usize>, goal: Set<usize>)
    requires
        m.total(),
    ensures
        m.au(hold, goal) == m.complement(
            m.eu(m.complement(goal), m.complement(hold).intersect(m.complement(goal))),
        ).intersect(m.complement(m.eg(m.complement(goal)))),
{
    let ng = m.complement(goal);
    let nh = m.complement(hold);
    let bad = nh.intersect(ng);
    let other = m.complement(m.eu(ng, bad)).intersect(m.complement(m.eg(ng)));
    assert forall|s: usize| m.au(hold, goal).contains(s) implies other.contains(s) by {
        if m.eg(ng).contains(s) {
            let r = choose|r: spec_fn(nat) -> usize| #[trigger] m.stays(r, s, ng);
            assert(m.run_from(r, s));
            let k = choose|k: nat| #[trigger] Frame::until_at(r, k, hold, goal);
            assert(ng.contains(r(k)));
        }
        if m.eu(ng, bad).contains(s) {
            let p = choose|p: Seq<usize>| #[trigger] m.leads(p, s, ng, bad);
            lemma_continued_runs(m, p);
            let r = |i: nat| continued(m, p, i);
            assert(m.run_from(r, s));
            let k = choose|k: nat| #[trigger] Frame::until_at(r, k, hold, goal);
            let last = (p.len() - 1) as nat;
            assert(r(last) == p.last());
            if k < p.len() {
                assert(r(k) == p[k as int]);
                if k < last {
                    assert(ng.contains(p[k as int]));
                }
            } else {
                assert(hold.contains(r(last)));
            }
        }
    }
    assert forall|s: usize| other.contains(s) implies m.au(hold, goal).contains(s) by {
        assert forall|r: spec_fn(nat) -> usize| #[trigger] m.run_from(r, s) implies exists|k: nat| #[trigger]
            Frame::until_at(r, k, hold, goal) by {
            assert(!m.stays(r, s, ng));
            let i = choose|i: nat| !ng.contains(#[trigger] r(i));
            assert(m.step(r, i));
            let at_goal = |j: nat| goal.contains(r(j));
            assert(at_goal(i));
            let k = lemma_least(at_goal, i);
            assert(at_goal(k));
            assert forall|j: nat| j < k implies hold.contains(#[trigger] r(j)) by {
                if !hold.contains(r(j)) {
                    lemma_beginning(m, r, j + 1);
                    let p = segment(r, 0, j + 1);
                    assert(m.step(r, j));
                    assert forall|x: int| 0 <= x < p.len() - 1 implies ng.contains(#[trigger] p[x]) by {
                        assert(m.step(r, x as nat));
                        assert(!at_goal(x as nat));
                    }
                    assert(!at_goal(j));
                    assert(bad.contains(p.last()));
                    assert(m.leads(p, s, ng, bad));
                }
            }
            assert(Frame::until_at(r, k, hold, goal));
        }
    }
    assert(m.au(hold, goal) =~= other);
}

/// Where every state has a successor, `E(free R keep)` is
/// `E(keep U (free && keep)) || EG keep`.
pub proof fn lemma_er_split(m: Frame, free: Set<usize>, keep: Set<usize>)
    requires
        m.total(),
    ensures
        m.er(free, keep) == m.eu(keep, free.intersect(keep)).union(m.eg(keep)),
{
    let both = free.intersect(keep);
    let other = m.eu(keep, both).union(m.eg(keep));
    assert forall|s: usize| other.contains(s) implies m.er(free, keep).contains(s) by {
        if m.eg(keep).contains(s) {
            let r = choose|r: spec_fn(nat) -> usize| #[trigger] m.stays(r, s, keep);
            assert(m.run_from(r, s));
            assert forall|k: nat| #[trigger] Frame::released_at(r, k, free, keep) by {
                assert(keep.contains(r(k)));
            }
        } else {
            let p = choose|p: Seq<usize>| #[trigger] m.leads(p, s, keep, both);
            lemma_continued_runs(m, p);
            let r = |i: nat| continued(m, p, i);
            assert(m.run_from(r, s));
            let last = (p.len() - 1) as nat;
            assert(r(last) == p.last());
            assert forall|k: nat| #[trigger] Frame::released_at(r, k, free, keep) by {
                if k < last {
                    assert(r(k) == p[k as int]);
                    assert(keep.contains(p[k as int]));
                } else if k == last {
                } else {
                    assert(last < k && free.contains(r(last)));
                }
            }
        }
    }
    assert forall|s: usize| m.er(free, keep).contains(s) implies other.contains(s) by {
        let r = choose|r: spec_fn(nat) -> usize| #[trigger]
            m.run_from(r, s) && forall|k: nat| #[trigger] Frame::released_at(r, k, free, keep);
        if m.stays(r, s, keep) {
        } else {
            let k = choose|k: nat| !keep.contains(#[trigger] r(k));
            assert(Frame::released_at(r, k, free, keep));
            let j = choose|j: nat| j < k && free.contains(#[trigger] r(j));
            let is_free = |i: nat| free.contains(r(i));
            assert(is_free(j));
            let j0 = lemma_least(is_free, j);
            assert(is_free(j0));
            assert forall|i: nat| i <= j0 implies keep.contains(#[trigger] r(i)) by {
                assert(Frame::released_at(r, i, free, keep));
                if !keep.contains(r(i)) {
                    let x = choose|x: nat| x < i && free.contains(#[trigger] r(x));
                    assert(is_free(x));
                }
            }
            lemma_beginning(m, r, j0 + 1);
            let p = segment(r, 0, j0 + 1);
            assert forall|x: int| 0 <= x < p.len() - 1 implies keep.contains(#[trigger] p[x]) by {
                assert(keep.contains(r(x as nat)));
            }
            assert(both.contains(p.last()));
            assert(m.leads(p, s, keep, both));
        }
    }
    assert(m.er(free, keep) =~= other);
}

/// A double negation holds where the formula holds:
/// `Sat(!!f) = Sat(f)`.
pub proof fn lemma_double_negation(m: Structure, f: Ctl)
    ensures
        sat(m, f.neg().neg()) == sat(m, f),
{
    reveal_with_fuel(sat, 3);
    lemma_sat_in_states(m, f);
    assert(m.frame.complement(m.frame.complement(sat(m, f))) =~= sat(m, f));
}

/// `EF f` holds where `E(true U f)` holds:
/// `Sat(EF f) = Sat(E(true U f))`.
pub proof fn lemma_finally_is_until(m: Structure, f: Ctl)
    ensures
        sat(m, f.ef()) == sat(m, Ctl::True.eu(f)),
{
    reveal_with_fuel(sat, 3);
    lemma_ef_is_eu(m.frame, sat(m, f));
}

/// `AG f` holds where `EF !f` does not:
/// `Sat(AG f) = S \ Sat(EF !f)`.
pub proof fn lemma_globally_dual(m: Structure, f: Ctl)
    ensures
        sat(m, Ctl::All(Box::new(Ctl::Globally(Box::new(f))))) == m.frame.states.difference(
            sat(m, f.neg().ef()),
        ),
{
    reveal_with_fuel(sat, 4);
    lemma_ag_dual(m.frame, sat(m, f));
}

/// The formula has an `A(f U g)` or an `E(f R g)` in it.  Those are the
/// operators whose rewriting is right only where every walk is the
/// beginning of a run.
pub open spec fn needs_successors(f: Ctl) -> bool
    decreases f,
{
    match f {
        Ctl::True => false,
        Ctl::Atomic(_) => false,
        Ctl::Not(a) => needs_successors(*a),
        Ctl::And(a, b) => needs_successors(*a) || needs_successors(*b),
        Ctl::Or(a, b) => needs_successors(*a) || needs_successors(*b),
        Ctl::All(q) => (*q is Until) || needs_successors(*q),
        Ctl::Exist(q) => (*q is Release) || needs_successors(*q),
        Ctl::Next(a) => needs_successors(*a),
        Ctl::Finally(a) => needs_successors(*a),
        Ctl::Globally(a) => needs_successors(*a),
        Ctl::Until(a, b) => needs_successors(*a) || needs_successors(*b),
        Ctl::Release(a, b) => needs_successors(*a) || needs_successors(*b),
    }
}

/// One pass of the rewrite leaves no `A(f U g)` and no `E(f R g)` in a
/// well-formed formula.
pub proof fn lemma_rewrite_needs_none(f: Ctl)
    requires
        f.well_formed(),
    ensures
        !needs_successors(f.rewrite()),
    decreases f,
{
    reveal_with_fuel(needs_successors, 7);
    reveal_with_fuel(Ctl::well_formed, 2);
    match f {
        Ctl::Not(x) => match *x {
            Ctl::Not(g) => lemma_rewrite_needs_none(*g),
            _ => lemma_rewrite_needs_none(*x),
        },
        Ctl::And(a, b) => {
            lemma_rewrite_needs_none(*a);
            lemma_rewrite_needs_none(*b);
        },
        Ctl::Or(a, b) => {
            lemma_rewrite_needs_none(*a);
            lemma_rewrite_needs_none(*b);
        },
        Ctl::All(q) | Ctl::Exist(q) => match *q {
            Ctl::Next(a) => lemma_rewrite_needs_none(*a),
            Ctl::Finally(a) => lemma_rewrite_needs_none(*a),
            Ctl::Globally(a) => lemma_rewrite_needs_none(*a),
            Ctl::Until(a, b) => {
                lemma_rewrite_needs_none(*a);
                lemma_rewrite_needs_none(*b);
            },
            Ctl::Release(a, b) => {
                lemma_rewrite_needs_none(*a);
                lemma_rewrite_needs_none(*b);
            },
            _ => {},
        },
        _ => {},
    }
}

/// One pass of the rewrite does not change where a well-formed formula
/// holds.  For `A(f U g)` and `E(f R g)` this is so where every state has a
/// successor.
pub proof fn lemma_rewrite_keeps_sat(m: Structure, f: Ctl)
    requires
        f.well_formed(),
        needs_successors(f) ==> m.frame.total(),
    ensures
        sat(m, f.rewrite()) == sat(m, f),
    decreases f,
{
    reveal_with_fuel(sat, 6);
    reveal_with_fuel(Ctl::well_formed, 2);
    reveal_with_fuel(needs_successors, 2);
    match f {
        Ctl::True => {},
        Ctl::Atomic(_) => {},
        Ctl::Not(x) => match *x {
            Ctl::Not(g) => {
                lemma_rewrite_keeps_sat(m, *g);
                lemma_double_negation(m, *g);
            },
            _ => lemma_rewrite_keeps_sat(m, *x),
        },
        Ctl::And(a, b) => {
            lemma_rewrite_keeps_sat(m, *a);
            lemma_rewrite_keeps_sat(m, *b);
        },
        Ctl::Or(a, b) => {
            lemma_rewrite_keeps_sat(m, *a);
            lemma_rewrite_keeps_sat(m, *b);
        },
        Ctl::All(q) => match *q {
            Ctl::Next(a) => {
                lemma_rewrite_keeps_sat(m, *a);
                lemma_ax_dual(m.frame, sat(m, *a));
            },
            Ctl::Finally(a) => {
                lemma_rewrite_keeps_sat(m, *a);
                lemma_af_dual(m.frame, sat(m, *a));
            },
            Ctl::Globally(a) => {
                lemma_rewrite_keeps_sat(m, *a);
                lemma_ag_dual(m.frame, sat(m, *a));
            },
            Ctl::Until(a, b) => {
                lemma_rewrite_keeps_sat(m, *a);
                lemma_rewrite_keeps_sat(m, *b);
                lemma_au_dual(m.frame, sat(m, *a), sat(m, *b));
            },
            Ctl::Release(a, b) => {
                lemma_rewrite_keeps_sat(m, *a);
                lemma_rewrite_keeps_sat(m, *b);
                lemma_ar_dual(m.frame, sat(m, *a), sat(m, *b));
            },
            _ => {},
        },
        Ctl::Exist(q) => match *q {
            Ctl::Next(a) => lemma_rewrite_keeps_sat(m, *a),
            Ctl::Finally(a) => {
                lemma_rewrite_keeps_sat(m, *a);
                lemma_ef_is_eu(m.frame, sat(m, *a));
            },
            Ctl::Globally(a) => lemma_rewrite_keeps_sat(m, *a),
            Ctl::Until(a, b) => {
                lemma_rewrite_keeps_sat(m, *a);
                lemma_rewrite_keeps_sat(m, *b);
            },
            Ctl::Release(a, b) => {
                lemma_rewrite_keeps_sat(m, *a);
                lemma_rewrite_keeps_sat(m, *b);
                lemma_er_split(m.frame, sat(m, *a), sat(m, *b));
            },
            _ => {},
        },
        _ => {},
    }
}

/// The normal form of a well-formed formula holds exactly where the
/// formula holds: `Sat(f) = Sat(normalize(f))`.  For a formula with
/// `A(f U g)` or `E(f R g)` in it this is so where every state has a
/// successor.
pub proof fn lemma_normalize_keeps_sat(m: Structure, f: Ctl)
    requires
        f.well_formed(),
        needs_successors(f) ==> m.frame.total(),
    ensures
        sat(m, f.normalize()) == sat(m, f),
{
    lemma_rewrite_keeps_sat(m, f);
    lemma_rewrite_well_formed(f);
    lemma_rewrite_needs_none(f);
    lemma_rewrite_keeps_sat(m, f.rewrite());
}

/// Formulae with plain atoms and the same key hold in the same states.
pub proof fn lemma_equal_keys_equal_sat(m: Structure, f: Ctl, g: Ctl)
    requires
        crate::keys::plain(f),
        crate::keys::plain(g),
        f.key() == g.key(),
    ensures
        f == g,
        sat(m, f) == sat(m, g),
{
    crate::keys::lemma_key_injective(f, g);
}

} // verus!
