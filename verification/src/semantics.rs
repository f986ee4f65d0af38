//! What it means for a CTL formula to hold in a state.
//!
//! `EX` asks for a successor, `EU` and `EF` for a finite walk, `EG` for an
//! infinite run; the universal operators ask the same of all successors,
//! walks and runs.  Where every state has a successor these are the usual
//! path semantics of CTL.

use crate::ctl::Ctl;
use vstd::prelude::*;

verus! {

/// A transition graph as a mathematical object: states and a transition
/// relation.
pub struct Frame {
    pub states: Set<usize>,
    pub edges: Set<(usize, usize)>,
}

/// A Kripke structure as a mathematical object: a frame, and for each named
/// proposition the states in which it holds.
pub struct Structure {
    pub frame: Frame,
    pub atoms: Map<Seq<char>, Set<usize>>,
}

impl Structure {
    /// The states in which the proposition called `name` holds.
    pub open spec fn atom(self, name: Seq<char>) -> Set<usize> {
        if self.atoms.contains_key(name) {
            self.atoms[name].intersect(self.frame.states)
        } else {
            Set::empty()
        }
    }
}

impl Frame {
    /// A transition between two states.
    pub open spec fn edge(self, a: usize, b: usize) -> bool {
        self.states.contains(a) && self.states.contains(b) && self.edges.contains((a, b))
    }

    /// Every state has a successor.
    pub open spec fn total(self) -> bool {
        forall|s: usize| self.states.contains(s) ==> exists|t: usize| #[trigger] self.edge(s, t)
    }

    /// A transition joins the state at place `i` of `p` to the next.
    pub open spec fn hop(self, p: Seq<usize>, i: int) -> bool {
        self.edge(p[i], p[i + 1])
    }

    /// A transition joins the state at step `i` of `r` to the next.
    pub open spec fn step(self, r: spec_fn(nat) -> usize, i: nat) -> bool {
        self.edge(r(i), r(i + 1))
    }

    /// A finite walk: states, at least one, each joined to the next by a
    /// transition.
    pub open spec fn walk(self, p: Seq<usize>) -> bool {
        &&& p.len() > 0
        &&& self.states.contains(p[0])
        &&& forall|i: int| 0 <= i < p.len() - 1 ==> #[trigger] self.hop(p, i)
    }

    /// An infinite run: states without end, each joined to the next by a
    /// transition.
    pub open spec fn run(self, r: spec_fn(nat) -> usize) -> bool {
        forall|i: nat| #[trigger] self.step(r, i)
    }

    /// The walk `p` starts in `s`, ends in `goal` and is in `hold` before its
    /// end.
    pub open spec fn leads(self, p: Seq<usize>, s: usize, hold: Set<usize>, goal: Set<usize>) -> bool {
        &&& self.walk(p)
        &&& p[0] == s
        &&& goal.contains(p.last())
        &&& forall|i: int| 0 <= i < p.len() - 1 ==> hold.contains(#[trigger] p[i])
    }

    /// The walk `p` starts in `s` and ends in `goal`.
    pub open spec fn arrives(self, p: Seq<usize>, s: usize, goal: Set<usize>) -> bool {
        &&& self.walk(p)
        &&& p[0] == s
        &&& goal.contains(p.last())
    }

    /// The run `r` starts in `s` and never leaves `hold`.
    pub open spec fn stays(self, r: spec_fn(nat) -> usize, s: usize, hold: Set<usize>) -> bool {
        &&& self.run(r)
        &&& r(0) == s
        &&& forall|i: nat| hold.contains(#[trigger] r(i))
    }

    /// The run `r` starts in `s`.
    pub open spec fn run_from(self, r: spec_fn(nat) -> usize, s: usize) -> bool {
        self.run(r) && r(0) == s
    }

    /// The walk `p` starts in `s`.
    pub open spec fn walk_from(self, p: Seq<usize>, s: usize) -> bool {
        self.walk(p) && p[0] == s
    }

    /// At step `k` of the run, `goal` holds and `hold` has held at every
    /// step before.
    pub open spec fn until_at(r: spec_fn(nat) -> usize, k: nat, hold: Set<usize>, goal: Set<usize>) -> bool {
        goal.contains(r(k)) && forall|j: nat| j < k ==> hold.contains(#[trigger] r(j))
    }

    /// At step `k` of the run, `keep` holds or `free` has held at a step
    /// before.
    pub open spec fn released_at(r: spec_fn(nat) -> usize, k: nat, free: Set<usize>, keep: Set<usize>) -> bool {
        keep.contains(r(k)) || exists|j: nat| j < k && free.contains(#[trigger] r(j))
    }

    /// The walk ends in `keep`, or `free` holds somewhere before its end.
    pub open spec fn released(p: Seq<usize>, free: Set<usize>, keep: Set<usize>) -> bool {
        keep.contains(p.last()) || exists|j: int| 0 <= j < p.len() - 1 && free.contains(#[trigger] p[j])
    }

    /// EX: some successor is in `target`.
    pub open spec fn ex(self, target: Set<usize>) -> Set<usize> {
        Set::new(|s: usize| exists|t: usize| #[trigger] self.edge(s, t) && target.contains(t))
    }

    /// E(hold U goal): some walk leads to `goal` through `hold`.
    pub open spec fn eu(self, hold: Set<usize>, goal: Set<usize>) -> Set<usize> {
        Set::new(|s: usize| exists|p: Seq<usize>| #[trigger] self.leads(p, s, hold, goal))
    }

    /// EF: some walk arrives in `goal`.
    pub open spec fn ef(self, goal: Set<usize>) -> Set<usize> {
        Set::new(|s: usize| exists|p: Seq<usize>| #[trigger] self.arrives(p, s, goal))
    }

    /// EG: some run stays in `hold` for ever.
    pub open spec fn eg(self, hold: Set<usize>) -> Set<usize> {
        Set::new(|s: usize| exists|r: spec_fn(nat) -> usize| #[trigger] self.stays(r, s, hold))
    }

    /// E(free R keep): on some run `keep` holds at every step up to and
    /// including the first at which `free` holds.
    pub open spec fn er(self, free: Set<usize>, keep: Set<usize>) -> Set<usize> {
        Set::new(
            |s: usize|
                exists|r: spec_fn(nat) -> usize| #[trigger]
                    self.run_from(r, s) && forall|k: nat| #[trigger]
                        Self::released_at(r, k, free, keep),
        )
    }

    /// AX: every successor is in `target`.
    pub open spec fn ax(self, target: Set<usize>) -> Set<usize> {
        Set::new(
            |s: usize|
                self.states.contains(s) && forall|t: usize| #[trigger]
                    self.edge(s, t) ==> target.contains(t),
        )
    }

    /// AF: every run comes to `goal`.
    pub open spec fn af(self, goal: Set<usize>) -> Set<usize> {
        Set::new(
            |s: usize|
                self.states.contains(s) && forall|r: spec_fn(nat) -> usize| #[trigger]
                    self.run_from(r, s) ==> exists|i: nat| goal.contains(#[trigger] r(i)),
        )
    }

    /// AG: every walk ends in `hold`.
    pub open spec fn ag(self, hold: Set<usize>) -> Set<usize> {
        Set::new(
            |s: usize|
                self.states.contains(s) && forall|p: Seq<usize>| #[trigger]
                    self.walk_from(p, s) ==> hold.contains(p.last()),
        )
    }

    /// A(hold U goal): every run comes to `goal`, through `hold`.
    pub open spec fn au(self, hold: Set<usize>, goal: Set<usize>) -> Set<usize> {
        Set::new(
            |s: usize|
                self.states.contains(s) && forall|r: spec_fn(nat) -> usize| #[trigger]
                    self.run_from(r, s) ==> exists|k: nat| #[trigger]
                        Self::until_at(r, k, hold, goal),
        )
    }

    /// A(free R keep): every walk ends in `keep` unless `free` held before
    /// its end.
    pub open spec fn ar(self, free: Set<usize>, keep: Set<usize>) -> Set<usize> {
        Set::new(
            |s: usize|
                self.states.contains(s) && forall|p: Seq<usize>| #[trigger]
                    self.walk_from(p, s) ==> Self::released(p, free, keep),
        )
    }

    /// The complement of a set of states.
    pub open spec fn complement(self, of: Set<usize>) -> Set<usize> {
        self.states.difference(of)
    }
}

/// Sat: the states of `m` in which `f` holds.
///
/// A temporal operator with no path quantifier over it holds nowhere.  `A`
/// over something that is no temporal operator holds nowhere; `E` over a
/// state formula is read as `EX`.
pub open spec fn sat(m: Structure, f: Ctl) -> Set<usize>
    decreases f,
{
    match f {
        Ctl::True => m.frame.states,
        Ctl::Atomic(name) => m.atom(name),
        Ctl::Not(a) => m.frame.complement(sat(m, *a)),
        Ctl::And(a, b) => sat(m, *a).intersect(sat(m, *b)),
        Ctl::Or(a, b) => sat(m, *a).union(sat(m, *b)),
        Ctl::Exist(q) => match *q {
            Ctl::Next(a) => m.frame.ex(sat(m, *a)),
            Ctl::Finally(a) => m.frame.ef(sat(m, *a)),
            Ctl::Globally(a) => m.frame.eg(sat(m, *a)),
            Ctl::Until(a, b) => m.frame.eu(sat(m, *a), sat(m, *b)),
            Ctl::Release(a, b) => m.frame.er(sat(m, *a), sat(m, *b)),
            _ => m.frame.ex(sat(m, *q)),
        },
        Ctl::All(q) => match *q {
            Ctl::Next(a) => m.frame.ax(sat(m, *a)),
            Ctl::Finally(a) => m.frame.af(sat(m, *a)),
            Ctl::Globally(a) => m.frame.ag(sat(m, *a)),
            Ctl::Until(a, b) => m.frame.au(sat(m, *a), sat(m, *b)),
            Ctl::Release(a, b) => m.frame.ar(sat(m, *a), sat(m, *b)),
            _ => Set::empty(),
        },
        _ => Set::empty(),
    }
}

/// A formula holds in states only.
pub proof fn lemma_sat_in_states(m: Structure, f: Ctl)
    ensures
        sat(m, f).subset_of(m.frame.states),
    decreases f,
{
    match f {
        Ctl::And(a, b) => {
            lemma_sat_in_states(m, *a);
        },
        Ctl::Or(a, b) => {
            lemma_sat_in_states(m, *a);
            lemma_sat_in_states(m, *b);
        },
        Ctl::Exist(q) => {
            assert forall|s: usize| sat(m, f).contains(s) implies m.frame.states.contains(s) by {
                match *q {
                    Ctl::Next(a) => {},
                    Ctl::Finally(a) => {},
                    Ctl::Globally(a) => {
                        let r = choose|r: spec_fn(nat) -> usize| #[trigger] m.frame.stays(r, s, sat(m, *a));
                        assert(m.frame.step(r, 0));
                    },
                    Ctl::Until(a, b) => {},
                    Ctl::Release(a, b) => {
                        let r = choose|r: spec_fn(nat) -> usize| #[trigger]
                            m.frame.run_from(r, s) && forall|k: nat| #[trigger]
                                Frame::released_at(r, k, sat(m, *a), sat(m, *b));
                        assert(m.frame.step(r, 0));
                    },
                    _ => {},
                }
            }
        },
        _ => {},
    }
}

impl Frame {
    /// `marked` holds every predecessor in `hold` of each of its members.
    pub open spec fn closed_back(self, hold: Set<usize>, marked: Set<usize>) -> bool {
        forall|t: usize, s: usize| #[trigger]
            self.edge(t, s) && hold.contains(t) && marked.contains(s) ==> marked.contains(t)
    }

    /// `marked` holds every predecessor in `hold` of the state `s`.
    pub open spec fn closed_at(self, hold: Set<usize>, marked: Set<usize>, s: usize) -> bool {
        forall|t: usize| #[trigger] self.edge(t, s) && hold.contains(t) ==> marked.contains(t)
    }
}

/// A goal state is in `E(hold U goal)`.
pub proof fn lemma_eu_seed(m: Frame, hold: Set<usize>, goal: Set<usize>, s: usize)
    requires
        m.states.contains(s),
        goal.contains(s),
    ensures
        m.eu(hold, goal).contains(s),
{
    let p = seq![s];
    assert(m.leads(p, s, hold, goal));
}

/// A predecessor in `hold` of a state in `E(hold U goal)` is in it too.
pub proof fn lemma_eu_step(m: Frame, hold: Set<usize>, goal: Set<usize>, t: usize, s: usize)
    requires
        m.edge(t, s),
        hold.contains(t),
        m.eu(hold, goal).contains(s),
    ensures
        m.eu(hold, goal).contains(t),
{
    let p = choose|p: Seq<usize>| #[trigger] m.leads(p, s, hold, goal);
    let q = seq![t] + p;
    assert forall|i: int| 0 <= i < q.len() - 1 implies #[trigger] m.hop(q, i) by {
        if i > 0 {
            assert(m.hop(p, i - 1));
        }
    }
    assert forall|i: int| 0 <= i < q.len() - 1 implies hold.contains(#[trigger] q[i]) by {
        if i > 0 {
            assert(q[i] == p[i - 1]);
        }
    }
    assert(q.last() == p.last());
    assert(m.leads(q, t, hold, goal));
}

/// On a walk through `hold` into a set that is closed under predecessors in
/// `hold`, every state is in that set.
proof fn lemma_walk_back(m: Frame, hold: Set<usize>, marked: Set<usize>, p: Seq<usize>, i: int)
    requires
        m.walk(p),
        forall|k: int| 0 <= k < p.len() - 1 ==> hold.contains(#[trigger] p[k]),
        marked.contains(p.last()),
        m.closed_back(hold, marked),
        0 <= i < p.len(),
    ensures
        marked.contains(p[i]),
    decreases p.len() - i,
{
    if i < p.len() - 1 {
        lemma_walk_back(m, hold, marked, p, i + 1);
        assert(m.hop(p, i));
    }
}

/// `E(hold U goal)` is the least set that holds the goal states and is
/// closed under predecessors in `hold`.
pub proof fn lemma_eu_least(m: Frame, hold: Set<usize>, goal: Set<usize>, marked: Set<usize>)
    requires
        forall|s: usize| goal.contains(s) && m.states.contains(s) ==> marked.contains(s),
        m.closed_back(hold, marked),
    ensures
        m.eu(hold, goal).subset_of(marked),
{
    assert forall|s: usize| m.eu(hold, goal).contains(s) implies marked.contains(s) by {
        let p = choose|p: Seq<usize>| #[trigger] m.leads(p, s, hold, goal);
        lemma_walk_in_states(m, p, p.len() - 1);
        lemma_walk_back(m, hold, marked, p, 0);
    }
}

/// Every state of a walk is a state.
pub proof fn lemma_walk_in_states(m: Frame, p: Seq<usize>, i: int)
    requires
        m.walk(p),
        0 <= i < p.len(),
    ensures
        m.states.contains(p[i]),
{
    if i > 0 {
        assert(m.hop(p, i - 1));
    }
}

impl Frame {
    /// A walk all of whose states are in `within`.
    pub open spec fn walk_within(self, p: Seq<usize>, within: Set<usize>) -> bool {
        self.walk(p) && forall|i: int| 0 <= i < p.len() ==> within.contains(#[trigger] p[i])
    }

    /// The walk `p` goes from `a` to `b` inside `within`.
    pub open spec fn joins(self, p: Seq<usize>, a: usize, b: usize, within: Set<usize>) -> bool {
        self.walk_within(p, within) && p[0] == a && p.last() == b
    }

    /// Some walk goes from `a` to `b` inside `within`.
    pub open spec fn joined(self, a: usize, b: usize, within: Set<usize>) -> bool {
        exists|p: Seq<usize>| #[trigger] self.joins(p, a, b, within)
    }

    /// The walk `p` goes from `x` back to `x` inside `within`, over at least
    /// one transition.
    pub open spec fn cycles(self, p: Seq<usize>, x: usize, within: Set<usize>) -> bool {
        self.joins(p, x, x, within) && p.len() >= 2
    }

    /// `x` lies on a cycle inside `within`.
    pub open spec fn on_cycle(self, x: usize, within: Set<usize>) -> bool {
        exists|p: Seq<usize>| #[trigger] self.cycles(p, x, within)
    }

    /// The states that lie on a cycle inside `within`.
    pub open spec fn cyclic(self, within: Set<usize>) -> Set<usize> {
        Set::new(|x: usize| self.on_cycle(x, within))
    }

    /// The run that follows the walk `p` to its end and then goes round the
    /// cycle `c` for ever.
    pub open spec fn lasso(p: Seq<usize>, c: Seq<usize>) -> spec_fn(nat) -> usize {
        |i: nat|
            if i < p.len() - 1 {
                p[i as int]
            } else {
                c[(i - (p.len() - 1)) % (c.len() - 1)]
            }
    }
}

/// The remainder of the next number: one more, or none.
proof fn lemma_mod_next(x: int, l: int)
    requires
        0 <= x,
        0 < l,
    ensures
        0 <= x % l < l,
        x < l ==> x % l == x,
        (x + 1) % l == if x % l + 1 < l {
            x % l + 1
        } else {
            0
        },
{
    if x < l {
        vstd::arithmetic::div_mod::lemma_small_mod(x as nat, l as nat);
    }
    vstd::arithmetic::div_mod::lemma_fundamental_div_mod(x, l);
    vstd::arithmetic::div_mod::lemma_mod_pos_bound(x, l);
    let q = x / l;
    let r = x % l;
    if r + 1 < l {
        assert(x + 1 == q * l + (r + 1)) by (nonlinear_arith)
            requires
                x == l * q + r,
        ;
        vstd::arithmetic::div_mod::lemma_fundamental_div_mod_converse(x + 1, l, q, r + 1);
    } else {
        assert(x + 1 == (q + 1) * l + 0) by (nonlinear_arith)
            requires
                x == l * q + r,
                r + 1 == l,
        ;
        vstd::arithmetic::div_mod::lemma_fundamental_div_mod_converse(x + 1, l, q + 1, 0);
    }
}

/// A walk through `hold` to a state on a cycle inside `hold` gives a run
/// that stays in `hold`.
proof fn lemma_lasso_stays(m: Frame, hold: Set<usize>, p: Seq<usize>, c: Seq<usize>, s: usize)
    requires
        m.leads(p, s, hold, m.cyclic(hold)),
        m.cycles(c, p.last(), hold),
    ensures
        m.stays(Frame::lasso(p, c), s, hold),
{
    let r = Frame::lasso(p, c);
    let n = (p.len() - 1) as nat;
    let l = c.len() - 1;
    assert forall|i: nat| #[trigger] m.step(r, i) by {
        if i + 1 < n {
            assert(m.hop(p, i as int));
        } else if i + 1 == n {
            lemma_mod_next(0, l);
            assert(r(i + 1) == c[0]);
            assert(m.hop(p, i as int));
        } else {
            let x = i - n;
            lemma_mod_next(x, l);
            let k = x % l;
            assert(r(i) == c[k]);
            assert(m.hop(c, k));
            if k + 1 < l {
                assert(r(i + 1) == c[k + 1]);
            } else {
                assert(r(i + 1) == c[0]);
                assert(c[k + 1] == c.last());
            }
        }
    }
    assert forall|i: nat| hold.contains(#[trigger] r(i)) by {
        if i < n {
            assert(hold.contains(p[i as int]));
        } else {
            let x = i - n;
            lemma_mod_next(x, l);
            assert(hold.contains(c[x % l]));
        }
    }
    assert(r(0) == s) by {
        if n == 0 {
            lemma_mod_next(0, l);
        }
    }
}

/// The part of a run that begins at step `from` and has `count` states.
pub open spec fn segment(r: spec_fn(nat) -> usize, from: nat, count: nat) -> Seq<usize> {
    Seq::new(count, |k: int| r((from + k) as nat))
}

/// A part of a run is a walk, and is inside `hold` where the run is.
proof fn lemma_segment_walks(m: Frame, hold: Set<usize>, r: spec_fn(nat) -> usize, from: nat, count: nat)
    requires
        m.run(r),
        forall|i: nat| hold.contains(#[trigger] r(i)),
        count > 0,
    ensures
        m.walk_within(segment(r, from, count), hold),
{
    let p = segment(r, from, count);
    assert(m.step(r, from));
    assert forall|k: int| 0 <= k < p.len() - 1 implies #[trigger] m.hop(p, k) by {
        assert(m.step(r, (from + k) as nat));
    }
    assert forall|k: int| 0 <= k < p.len() implies hold.contains(#[trigger] p[k]) by {
        assert(hold.contains(r((from + k) as nat)));
    }
}

/// Among more states of a run than there are states, one comes twice.
proof fn lemma_run_repeats(m: Frame, r: spec_fn(nat) -> usize) -> (ij: (nat, nat))
    requires
        m.states.finite(),
        m.run(r),
    ensures
        ij.0 < ij.1,
        r(ij.0) == r(ij.1),
{
    let n = m.states.len() + 1;
    let q = Seq::new(n, |i: int| r(i as nat));
    assert forall|x: usize| q.to_set().contains(x) implies m.states.contains(x) by {
        let i = choose|i: int| 0 <= i < q.len() && q[i] == x;
        assert(m.step(r, i as nat));
    }
    if q.no_duplicates() {
        q.unique_seq_to_set();
        vstd::set_lib::lemma_len_subset(q.to_set(), m.states);
    }
    let (i, j) = choose|i: int, j: int| 0 <= i < q.len() && 0 <= j < q.len() && i != j && q[i] == q[j];
    if i < j {
        (i as nat, j as nat)
    } else {
        (j as nat, i as nat)
    }
}

/// A run that stays in `hold` comes to a state on a cycle inside `hold`.
proof fn lemma_run_gives_lasso(m: Frame, hold: Set<usize>, r: spec_fn(nat) -> usize, s: usize)
    requires
        m.states.finite(),
        m.stays(r, s, hold),
    ensures
        m.eu(hold, m.cyclic(hold)).contains(s),
{
    let (i, j) = lemma_run_repeats(m, r);
    let c = segment(r, i, (j - i + 1) as nat);
    lemma_segment_walks(m, hold, r, i, (j - i + 1) as nat);
    assert(m.cycles(c, r(i), hold));
    let p = segment(r, 0, i + 1);
    lemma_segment_walks(m, hold, r, 0, i + 1);
    assert(m.cyclic(hold).contains(p.last()));
    assert(m.leads(p, s, hold, m.cyclic(hold)));
}

/// In a finite structure `EG` is `EU` into the cycles: a run stays in
/// `hold` for ever exactly if a walk through `hold` leads to a state that
/// lies on a cycle inside `hold`.
pub proof fn lemma_eg_by_cycles(m: Frame, hold: Set<usize>)
    requires
        m.states.finite(),
    ensures
        m.eg(hold) == m.eu(hold, m.cyclic(hold)),
{
    let cyc = m.cyclic(hold);
    assert forall|s: usize| m.eu(hold, cyc).contains(s) implies m.eg(hold).contains(s) by {
        let p = choose|p: Seq<usize>| #[trigger] m.leads(p, s, hold, cyc);
        let c = choose|c: Seq<usize>| #[trigger] m.cycles(c, p.last(), hold);
        lemma_lasso_stays(m, hold, p, c, s);
    }
    assert forall|s: usize| m.eg(hold).contains(s) implies m.eu(hold, cyc).contains(s) by {
        let r = choose|r: spec_fn(nat) -> usize| #[trigger] m.stays(r, s, hold);
        lemma_run_gives_lasso(m, hold, r, s);
    }
    assert(m.eg(hold) =~= m.eu(hold, cyc));
}

/// A state on a cycle inside `within` is a state, and is in `within`.
pub proof fn lemma_on_cycle_in(m: Frame, x: usize, within: Set<usize>)
    requires
        m.on_cycle(x, within),
    ensures
        m.states.contains(x),
        within.contains(x),
{
    let c = choose|c: Seq<usize>| #[trigger] m.cycles(c, x, within);
    assert(within.contains(c[0]));
}

/// No run stays in the empty set: `EG` of nothing is nothing.
pub proof fn lemma_eg_of_nothing(m: Frame)
    ensures
        m.eg(Set::empty()) == Set::<usize>::empty(),
{
    assert forall|s: usize| !m.eg(Set::empty()).contains(s) by {
        if m.eg(Set::empty()).contains(s) {
            let r = choose|r: spec_fn(nat) -> usize| #[trigger] m.stays(r, s, Set::empty());
            assert(Set::<usize>::empty().contains(r(0)));
        }
    }
    assert(m.eg(Set::empty()) =~= Set::<usize>::empty());
}

} // verus!
