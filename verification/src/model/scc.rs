//! Strongly connected components of a model and of its induced subgraphs.

use crate::model::graph::{
    connects, graph_add_edge, graph_add_node, graph_edges, graph_new, graph_node_weight,
    graph_nodes, graph_tarjan_scc, is_scc_list, link, listed, path_between, placed,
    StateGraph,
};
use crate::lists::{lemma_push_contains, select, unique};
use crate::model::kripke::{map_keys, set_members, Kripke};
use crate::semantics::Frame;
use std::collections::{HashMap, HashSet};
use vstd::prelude::*;
use vstd::std_specs::hash::*;

verus! {

broadcast use vstd::std_specs::hash::group_hash_axioms;

/// The graph with one node for each listed state, in the order of the list,
/// and one edge for each listed transition.
fn construct_graph(states: &[usize], transitions: &[(usize, usize)]) -> (g: StateGraph)
    requires
        states@.no_duplicates(),
        forall|k: int|
            0 <= k < transitions@.len() ==> states@.contains((#[trigger] transitions@[k]).0)
                && states@.contains(transitions@[k].1),
    ensures
        graph_nodes(g) == states@,
        forall|a: usize, b: usize| #[trigger]
            graph_edges(g).contains((a, b)) <==> a < states@.len() && b < states@.len()
                && transitions@.contains((states@[a as int], states@[b as int])),
{
    let mut g = graph_new();
    let mut nodes: HashMap<usize, usize> = HashMap::new();
    for i in 0..states.len()
        invariant
            states@.no_duplicates(),
            graph_nodes(g) == states@.take(i as int),
            graph_edges(g) == Set::<(usize, usize)>::empty(),
            forall|k: int|
                0 <= k < i ==> nodes@.contains_key(#[trigger] states@[k]) && nodes@[states@[k]]
                    == k,
    {
        let index = graph_add_node(&mut g, states[i]);
        nodes.insert(states[i], index);
        assert(states@.take(i + 1) =~= states@.take(i as int).push(states@[i as int]));
    }
    assert(states@.take(states@.len() as int) =~= states@);
    for k in 0..transitions.len()
        invariant
            states@.no_duplicates(),
            graph_nodes(g) == states@,
            forall|k: int|
                0 <= k < transitions@.len() ==> states@.contains((#[trigger] transitions@[k]).0)
                    && states@.contains(transitions@[k].1),
            forall|j: int|
                0 <= j < states@.len() ==> nodes@.contains_key(#[trigger] states@[j])
                    && nodes@[states@[j]] == j,
            forall|a: usize, b: usize| #[trigger]
                graph_edges(g).contains((a, b)) <==> a < states@.len() && b < states@.len()
                    && transitions@.take(k as int).contains((states@[a as int], states@[b as int])),
    {
        let from = transitions[k].0;
        let to = transitions[k].1;
        let ghost seen = transitions@.take(k as int);
        let ghost edges_before = graph_edges(g);
        proof {
            assert(states@.contains(transitions@[k as int].0));
            assert(states@.contains(transitions@[k as int].1));
            let i = choose|i: int| 0 <= i < states@.len() && states@[i] == from;
            let j = choose|j: int| 0 <= j < states@.len() && states@[j] == to;
            assert(nodes@.contains_key(states@[i]));
            assert(nodes@.contains_key(states@[j]));
        }
        let a = *nodes.get(&from).unwrap();
        let b = *nodes.get(&to).unwrap();
        graph_add_edge(&mut g, a, b);
        proof {
            let grown = transitions@.take(k + 1);
            assert(grown =~= seen.push(transitions@[k as int]));
            assert(transitions@[k as int] == (from, to));
            assert(states@[a as int] == from && states@[b as int] == to) by {
                let i = choose|i: int| 0 <= i < states@.len() && states@[i] == from;
                let j = choose|j: int| 0 <= j < states@.len() && states@[j] == to;
                assert(nodes@[states@[i]] == i);
                assert(nodes@[states@[j]] == j);
            }
            assert forall|x: usize, y: usize| #[trigger]
                graph_edges(g).contains((x, y)) <==> x < states@.len() && y < states@.len()
                    && grown.contains((states@[x as int], states@[y as int])) by {
                let pair = (states@[x as int], states@[y as int]);
                assert(edges_before.contains((x, y)) <==> x < states@.len() && y < states@.len()
                    && seen.contains(pair));
                if x < states@.len() && y < states@.len() {
                    if seen.contains(pair) {
                        let i = choose|i: int| 0 <= i < seen.len() && seen[i] == pair;
                        assert(grown[i] == pair);
                    }
                    if grown.contains(pair) {
                        let i = choose|i: int| 0 <= i < grown.len() && grown[i] == pair;
                        if i < seen.len() {
                            assert(seen[i] == pair);
                        } else {
                            assert(pair == (from, to));
                            assert(x == a && y == b);
                        }
                    }
                    if x == a && y == b {
                        assert(grown[seen.len() as int] == pair);
                    }
                }
            }
        }
    }
    assert(transitions@.take(transitions@.len() as int) =~= transitions@);
    g
}

/// The graph with the given node weights and edges is the part of the
/// structure that the weights induce: no state is the weight of two nodes,
/// and an edge joins two nodes exactly if a transition joins their states.
pub open spec fn mirrors(m: Frame, nodes: Seq<usize>, edges: Set<(usize, usize)>) -> bool {
    &&& nodes.no_duplicates()
    &&& nodes.len() <= usize::MAX
    &&& forall|a: usize, b: usize| #[trigger]
        edges.contains((a, b)) <==> a < nodes.len() && b < nodes.len() && m.edge(
            nodes[a as int],
            nodes[b as int],
        )
}

/// The number of the node that carries the state `x`.
pub open spec fn index_of(nodes: Seq<usize>, x: usize) -> usize {
    choose|i: usize| i < nodes.len() && nodes[i as int] == x
}

/// The states along a path of node numbers.
pub open spec fn lift(nodes: Seq<usize>, p: Seq<usize>) -> Seq<usize> {
    Seq::new(p.len(), |k: int| nodes[p[k] as int])
}

/// The node numbers along a walk of states.
pub open spec fn lower(nodes: Seq<usize>, q: Seq<usize>) -> Seq<usize> {
    Seq::new(q.len(), |k: int| index_of(nodes, q[k]))
}

/// A state that is the weight of a node is the weight of the node that
/// `index_of` gives.
proof fn lemma_index_of(nodes: Seq<usize>, x: usize)
    requires
        nodes.no_duplicates(),
        nodes.len() <= usize::MAX,
        nodes.contains(x),
    ensures
        index_of(nodes, x) < nodes.len(),
        nodes[index_of(nodes, x) as int] == x,
{
    let i = choose|i: int| 0 <= i < nodes.len() && nodes[i] == x;
    assert((i as usize) < nodes.len() && nodes[(i as usize) as int] == x);
}

/// `index_of` gives a node for its own weight.
proof fn lemma_index_of_node(nodes: Seq<usize>, v: usize)
    requires
        nodes.no_duplicates(),
        nodes.len() <= usize::MAX,
        v < nodes.len(),
    ensures
        index_of(nodes, nodes[v as int]) == v,
{
    assert(nodes.contains(nodes[v as int]));
    lemma_index_of(nodes, nodes[v as int]);
}

/// A path in the graph is a walk in the structure.
proof fn lemma_lift(m: Frame, nodes: Seq<usize>, edges: Set<(usize, usize)>, p: Seq<usize>, a: usize, b: usize)
    requires
        mirrors(m, nodes, edges),
        path_between(nodes.len(), edges, p, a, b),
        p.len() >= 2 || m.states.contains(nodes[a as int]),
    ensures
        m.joins(lift(nodes, p), nodes[a as int], nodes[b as int], nodes.to_set()),
{
    let q = lift(nodes, p);
    if p.len() >= 2 {
        assert(link(edges, p, 0));
        assert(edges.contains((p[0], p[1])));
    }
    assert forall|i: int| 0 <= i < q.len() - 1 implies #[trigger] m.hop(q, i) by {
        assert(link(edges, p, i));
        assert(edges.contains((p[i], p[i + 1])));
    }
    assert forall|i: int| 0 <= i < q.len() implies nodes.to_set().contains(#[trigger] q[i]) by {
        assert(p[i] < nodes.len());
        assert(nodes.contains(nodes[p[i] as int]));
    }
}

/// A walk inside the induced part is a path in the graph.
proof fn lemma_lower(m: Frame, nodes: Seq<usize>, edges: Set<(usize, usize)>, q: Seq<usize>, x: usize, y: usize)
    requires
        mirrors(m, nodes, edges),
        m.joins(q, x, y, nodes.to_set()),
    ensures
        path_between(nodes.len(), edges, lower(nodes, q), index_of(nodes, x), index_of(nodes, y)),
{
    let p = lower(nodes, q);
    assert forall|i: int| 0 <= i < p.len() implies (#[trigger] p[i]) < nodes.len() && nodes[p[i] as int]
        == q[i] by {
        assert(nodes.to_set().contains(q[i]));
        lemma_index_of(nodes, q[i]);
    }
    assert forall|i: int| 0 <= i < p.len() - 1 implies #[trigger] link(edges, p, i) by {
        assert(m.hop(q, i));
        assert(p[i] < nodes.len() && nodes[p[i] as int] == q[i]);
        assert(p[i + 1] < nodes.len() && nodes[p[i + 1] as int] == q[i + 1]);
        assert(edges.contains((p[i], p[i + 1])));
    }
}

/// Two walks, the second from where the first ends, make one walk.
proof fn lemma_joins_concat(m: Frame, p1: Seq<usize>, p2: Seq<usize>, x: usize, y: usize, z: usize, within: Set<usize>)
    requires
        m.joins(p1, x, y, within),
        m.joins(p2, y, z, within),
    ensures
        m.joins(p1 + p2.drop_first(), x, z, within),
        (p1 + p2.drop_first()).len() == p1.len() + p2.len() - 1,
{
    let q = p1 + p2.drop_first();
    assert forall|i: int| 0 <= i < q.len() - 1 implies #[trigger] m.hop(q, i) by {
        if i < p1.len() - 1 {
            assert(m.hop(p1, i));
        } else {
            let k = i - (p1.len() - 1);
            assert(m.hop(p2, k));
            assert(q[i + 1] == p2[k + 1]);
            if k == 0 {
                assert(q[i] == p1.last());
            } else {
                assert(q[i] == p2[k]);
            }
        }
    }
    assert forall|i: int| 0 <= i < q.len() implies within.contains(#[trigger] q[i]) by {
        if i < p1.len() {
            assert(within.contains(p1[i]));
        } else {
            assert(q[i] == p2[i - p1.len() + 1]);
            assert(within.contains(p2[i - p1.len() + 1]));
        }
    }
    if p2.len() == 1 {
        assert(q =~= p1);
    } else {
        assert(q.last() == p2.last());
    }
}

/// A state on a cycle has a transition to itself, or shares the cycle with
/// another state.
proof fn lemma_cycle_split(m: Frame, x: usize, within: Set<usize>)
    requires
        m.on_cycle(x, within),
    ensures
        within.contains(x),
        m.states.contains(x),
        m.edge(x, x) || exists|y: usize|
            y != x && #[trigger] m.joined(x, y, within) && m.joined(y, x, within),
{
    let c = choose|c: Seq<usize>| #[trigger] m.cycles(c, x, within);
    assert(within.contains(c[0]));
    assert(m.hop(c, 0));
    if c[1] != x {
        let y = c[1];
        let out = seq![x, y];
        assert(m.joins(out, x, y, within)) by {
            assert forall|i: int| 0 <= i < out.len() - 1 implies #[trigger] m.hop(out, i) by {}
            assert(within.contains(c[1]));
        }
        let back = c.subrange(1, c.len() as int);
        assert(m.joins(back, y, x, within)) by {
            assert forall|i: int| 0 <= i < back.len() - 1 implies #[trigger] m.hop(back, i) by {
                assert(m.hop(c, i + 1));
            }
            assert forall|i: int| 0 <= i < back.len() implies within.contains(#[trigger] back[i]) by {
                assert(within.contains(c[i + 1]));
            }
        }
        assert(y != x && m.joined(x, y, within) && m.joined(y, x, within));
    } else {
        assert(m.edge(c[0], c[1]));
    }
}

/// A state with a transition to itself, or one that can reach another state
/// and be reached from it, lies on a cycle.
proof fn lemma_cycle_join(m: Frame, x: usize, y: usize, within: Set<usize>)
    requires
        within.contains(x),
        m.edge(x, x) || (y != x && m.joined(x, y, within) && m.joined(y, x, within)),
    ensures
        m.on_cycle(x, within),
{
    if m.edge(x, x) {
        let c = seq![x, x];
        assert forall|i: int| 0 <= i < c.len() - 1 implies #[trigger] m.hop(c, i) by {}
        assert(m.cycles(c, x, within));
    } else {
        let p1 = choose|p: Seq<usize>| #[trigger] m.joins(p, x, y, within);
        let p2 = choose|p: Seq<usize>| #[trigger] m.joins(p, y, x, within);
        lemma_joins_concat(m, p1, p2, x, y, x, within);
        assert(m.cycles(p1 + p2.drop_first(), x, within));
    }
}

/// A component with more than one node, or whose one node has an edge to
/// itself.
pub open spec fn non_trivial(edges: Set<(usize, usize)>, component: Seq<usize>) -> bool {
    component.len() > 1 || (component.len() == 1 && edges.contains((component[0], component[0])))
}

/// The nodes of a non-trivial component carry states on a cycle, and no
/// other node does.
proof fn lemma_cyclic_iff_non_trivial(
    m: Frame,
    nodes: Seq<usize>,
    edges: Set<(usize, usize)>,
    components: Seq<Vec<usize>>,
    i: int,
    j: int,
)
    requires
        mirrors(m, nodes, edges),
        is_scc_list(nodes.len(), edges, components),
        placed(components, i, j),
    ensures
        non_trivial(edges, components[i]@) <==> m.on_cycle(
            nodes[components[i]@[j] as int],
            nodes.to_set(),
        ),
{
    let n = nodes.len();
    let within = nodes.to_set();
    let v = components[i]@[j];
    let x = nodes[v as int];
    assert(v < n);
    assert(nodes.contains(x));
    lemma_index_of_node(nodes, v);
    if non_trivial(edges, components[i]@) {
        if components[i]@.len() > 1 {
            let j2 = if j == 0 {
                1int
            } else {
                0int
            };
            assert(placed(components, i, j2));
            let w = components[i]@[j2];
            assert(w != v);
            let y = nodes[w as int];
            assert(connects(n, edges, v, w) && connects(n, edges, w, v));
            let p1 = choose|p: Seq<usize>| #[trigger] path_between(n, edges, p, v, w);
            let p2 = choose|p: Seq<usize>| #[trigger] path_between(n, edges, p, w, v);
            lemma_lift(m, nodes, edges, p1, v, w);
            lemma_lift(m, nodes, edges, p2, w, v);
            assert(m.joined(x, y, within));
            assert(m.joined(y, x, within));
            lemma_cycle_join(m, x, y, within);
        } else {
            lemma_cycle_join(m, x, x, within);
        }
    }
    if m.on_cycle(x, within) {
        lemma_cycle_split(m, x, within);
        if m.edge(x, x) {
            assert(edges.contains((v, v)));
            if components[i]@.len() == 1 {
                assert(placed(components, i, 0));
            }
        } else {
            let y = choose|y: usize|
                y != x && #[trigger] m.joined(x, y, within) && m.joined(y, x, within);
            let q1 = choose|p: Seq<usize>| #[trigger] m.joins(p, x, y, within);
            let q2 = choose|p: Seq<usize>| #[trigger] m.joins(p, y, x, within);
            lemma_lower(m, nodes, edges, q1, x, y);
            lemma_lower(m, nodes, edges, q2, y, x);
            assert(within.contains(q1.last()));
            lemma_index_of(nodes, y);
            let w = index_of(nodes, y);
            assert(listed(components, w));
            let (i2, j2) = choose|i2: int, j2: int| #[trigger]
                placed(components, i2, j2) && components[i2]@[j2] == w;
            assert(path_between(n, edges, lower(nodes, q1), v, w));
            assert(path_between(n, edges, lower(nodes, q2), w, v));
            assert(connects(n, edges, v, w) && connects(n, edges, w, v));
            assert(i == i2);
            assert(j != j2);
        }
    }
}

/// Nodes are joined by paths exactly as their states are joined by walks,
/// where the states lie on cycles.
proof fn lemma_connects_iff_joined(
    m: Frame,
    nodes: Seq<usize>,
    edges: Set<(usize, usize)>,
    v: usize,
    w: usize,
)
    requires
        mirrors(m, nodes, edges),
        v < nodes.len(),
        w < nodes.len(),
        m.states.contains(nodes[v as int]),
    ensures
        connects(nodes.len(), edges, v, w) <==> m.joined(
            nodes[v as int],
            nodes[w as int],
            nodes.to_set(),
        ),
{
    let n = nodes.len();
    let within = nodes.to_set();
    lemma_index_of_node(nodes, v);
    lemma_index_of_node(nodes, w);
    if connects(n, edges, v, w) {
        let p = choose|p: Seq<usize>| #[trigger] path_between(n, edges, p, v, w);
        lemma_lift(m, nodes, edges, p, v, w);
    }
    if m.joined(nodes[v as int], nodes[w as int], within) {
        let q = choose|q: Seq<usize>| #[trigger] m.joins(q, nodes[v as int], nodes[w as int], within);
        lemma_lower(m, nodes, edges, q, nodes[v as int], nodes[w as int]);
    }
}

/// `sccs` lists the strongly connected components of the part of `m`
/// inside `within`, but those that have one state and no transition from it
/// to itself: exactly the states on a cycle inside `within` are listed, each
/// once; two of them stand in the same component exactly if each can be
/// reached from the other inside `within`; and no state of a component can
/// reach a state of a component that comes later in the list.
pub open spec fn is_cyclic_scc_list(m: Frame, within: Set<usize>, sccs: Seq<Vec<usize>>) -> bool {
    &&& forall|i: int, j: int| #[trigger] placed(sccs, i, j) ==> m.on_cycle(sccs[i]@[j], within)
    &&& forall|x: usize| #[trigger] m.on_cycle(x, within) ==> listed(sccs, x)
    &&& forall|i: int| 0 <= i < sccs.len() ==> (#[trigger] sccs[i])@.len() > 0
    &&& forall|i1: int, j1: int, i2: int, j2: int|
        #[trigger] placed(sccs, i1, j1) && #[trigger] placed(sccs, i2, j2) && sccs[i1]@[j1]
            == sccs[i2]@[j2] ==> i1 == i2 && j1 == j2
    &&& forall|i1: int, j1: int, i2: int, j2: int|
        #[trigger] placed(sccs, i1, j1) && #[trigger] placed(sccs, i2, j2) ==> (i1 == i2 <==> m.joined(
            sccs[i1]@[j1],
            sccs[i2]@[j2],
            within,
        ) && m.joined(sccs[i2]@[j2], sccs[i1]@[j1], within))
    &&& forall|i1: int, j1: int, i2: int, j2: int|
        #[trigger] placed(sccs, i1, j1) && #[trigger] placed(sccs, i2, j2) && i1 < i2 ==> !m.joined(
            sccs[i1]@[j1],
            sccs[i2]@[j2],
            within,
        )
}

/// `sccs[k]` holds the states of the component `chosen[k]`.
pub open spec fn copies(nodes: Seq<usize>, components: Seq<Vec<usize>>, sccs: Seq<Vec<usize>>, chosen: Seq<int>, k: int) -> bool {
    &&& 0 <= chosen[k] < components.len()
    &&& sccs[k]@.len() == components[chosen[k]]@.len()
    &&& forall|j: int|
        0 <= j < sccs[k]@.len() ==> #[trigger] sccs[k]@[j] == nodes[components[chosen[k]]@[j] as int]
}

/// Each list of `sccs` is a copy of a non-trivial one among the first `upto`
/// components; `chosen` says of which.
pub open spec fn picked_well(
    nodes: Seq<usize>,
    edges: Set<(usize, usize)>,
    components: Seq<Vec<usize>>,
    sccs: Seq<Vec<usize>>,
    chosen: Seq<int>,
    upto: int,
) -> bool {
    forall|k: int|
        0 <= k < chosen.len() ==> #[trigger] copies(nodes, components, sccs, chosen, k) && chosen[k]
            < upto && non_trivial(edges, components[chosen[k]]@)
}

/// The chosen components come in their order.
pub open spec fn picked_in_order(chosen: Seq<int>) -> bool {
    forall|k1: int, k2: int|
        0 <= k1 < k2 < chosen.len() ==> #[trigger] chosen[k1] < #[trigger] chosen[k2]
}

/// None of the first `upto` components that is non-trivial was left out.
pub open spec fn picked_all(
    edges: Set<(usize, usize)>,
    components: Seq<Vec<usize>>,
    chosen: Seq<int>,
    upto: int,
) -> bool {
    forall|i: int|
        0 <= i < upto && i < components.len() && non_trivial(edges, (#[trigger] components[i])@)
            ==> chosen.contains(i)
}

/// Passing over a trivial component keeps what was picked in order.
proof fn lemma_pick_none(
    nodes: Seq<usize>,
    edges: Set<(usize, usize)>,
    components: Seq<Vec<usize>>,
    sccs: Seq<Vec<usize>>,
    chosen: Seq<int>,
    c: int,
)
    requires
        0 <= c < components.len(),
        !non_trivial(edges, components[c]@),
        picked_well(nodes, edges, components, sccs, chosen, c),
        picked_all(edges, components, chosen, c),
    ensures
        picked_well(nodes, edges, components, sccs, chosen, c + 1),
        picked_all(edges, components, chosen, c + 1),
{
    assert forall|k: int| 0 <= k < chosen.len() implies #[trigger] copies(
        nodes,
        components,
        sccs,
        chosen,
        k,
    ) && chosen[k] < c + 1 && non_trivial(edges, components[chosen[k]]@) by {
        assert(copies(nodes, components, sccs, chosen, k));
        assert(chosen[k] < c);
    }
}

/// Copying a non-trivial component to the end of the list keeps what was
/// picked in order.
proof fn lemma_pick_one(
    nodes: Seq<usize>,
    edges: Set<(usize, usize)>,
    components: Seq<Vec<usize>>,
    sccs: Seq<Vec<usize>>,
    chosen: Seq<int>,
    c: int,
    copy: Vec<usize>,
)
    requires
        0 <= c < components.len(),
        non_trivial(edges, components[c]@),
        chosen.len() == sccs.len(),
        picked_well(nodes, edges, components, sccs, chosen, c),
        picked_in_order(chosen),
        picked_all(edges, components, chosen, c),
        copy@.len() == components[c]@.len(),
        forall|j: int| 0 <= j < copy@.len() ==> #[trigger] copy@[j] == nodes[components[c]@[j] as int],
    ensures
        picked_well(nodes, edges, components, sccs.push(copy), chosen.push(c), c + 1),
        picked_in_order(chosen.push(c)),
        picked_all(edges, components, chosen.push(c), c + 1),
{
    let sccs2 = sccs.push(copy);
    let chosen2 = chosen.push(c);
    assert forall|k: int| 0 <= k < chosen2.len() implies #[trigger] copies(
        nodes,
        components,
        sccs2,
        chosen2,
        k,
    ) && chosen2[k] < c + 1 && non_trivial(edges, components[chosen2[k]]@) by {
        if k < chosen.len() {
            assert(copies(nodes, components, sccs, chosen, k) && chosen[k] < c);
            assert(sccs2[k] == sccs[k]);
            assert(chosen2[k] == chosen[k]);
        } else {
            assert(sccs2[k] == copy);
            assert(chosen2[k] == c);
        }
    }
    assert forall|k1: int, k2: int| 0 <= k1 < k2 < chosen2.len() implies #[trigger] chosen2[k1]
        < #[trigger] chosen2[k2] by {
        if k2 < chosen.len() {
            assert(chosen[k1] < chosen[k2]);
        } else {
            assert(copies(nodes, components, sccs, chosen, k1) && chosen[k1] < c);
        }
    }
    assert forall|i: int|
        0 <= i < c + 1 && i < components.len() && non_trivial(
            edges,
            (#[trigger] components[i])@,
        ) implies chosen2.contains(i) by {
        if i < c {
            assert(chosen.contains(i));
            let k = choose|k: int| 0 <= k < chosen.len() && chosen[k] == i;
            assert(chosen2[k] == i);
        } else {
            assert(chosen2[chosen.len() as int] == i);
        }
    }
}

/// What was picked is the list of the components that hold a cycle.
proof fn lemma_picks_give_list(
    m: Frame,
    nodes: Seq<usize>,
    edges: Set<(usize, usize)>,
    components: Seq<Vec<usize>>,
    sccs: Seq<Vec<usize>>,
    chosen: Seq<int>,
)
    requires
        mirrors(m, nodes, edges),
        is_scc_list(nodes.len(), edges, components),
        chosen.len() == sccs.len(),
        picked_well(nodes, edges, components, sccs, chosen, components.len() as int),
        picked_in_order(chosen),
        picked_all(edges, components, chosen, components.len() as int),
    ensures
        is_cyclic_scc_list(m, nodes.to_set(), sccs),
{
    let n = nodes.len();
    let within = nodes.to_set();
    // Every place of `sccs` is a place of a non-trivial component.
    assert forall|k: int, j: int| #[trigger] placed(sccs, k, j) implies placed(
        components,
        chosen[k],
        j,
    ) && sccs[k]@[j] == nodes[components[chosen[k]]@[j] as int] && m.on_cycle(
        sccs[k]@[j],
        within,
    ) && components[chosen[k]]@[j] < n by {
        assert(copies(nodes, components, sccs, chosen, k));
        assert(placed(components, chosen[k], j));
        lemma_cyclic_iff_non_trivial(m, nodes, edges, components, chosen[k], j);
    }
    assert forall|x: usize| #[trigger] m.on_cycle(x, within) implies listed(sccs, x) by {
        lemma_cycle_split(m, x, within);
        lemma_index_of(nodes, x);
        let v = index_of(nodes, x);
        assert(listed(components, v));
        let (i, j) = choose|i: int, j: int| #[trigger]
            placed(components, i, j) && components[i]@[j] == v;
        lemma_cyclic_iff_non_trivial(m, nodes, edges, components, i, j);
        assert(non_trivial(edges, components[i]@));
        assert(chosen.contains(i));
        let k = choose|k: int| 0 <= k < chosen.len() && chosen[k] == i;
        assert(copies(nodes, components, sccs, chosen, k));
        assert(placed(sccs, k, j));
        assert(sccs[k]@[j] == x);
    }
    assert forall|i: int| 0 <= i < sccs.len() implies (#[trigger] sccs[i])@.len() > 0 by {
        assert(copies(nodes, components, sccs, chosen, i));
    }
    assert forall|k1: int, j1: int, k2: int, j2: int|
        #[trigger] placed(sccs, k1, j1) && #[trigger] placed(sccs, k2, j2) implies (sccs[k1]@[j1]
        == sccs[k2]@[j2] ==> k1 == k2 && j1 == j2) && (k1 == k2 <==> m.joined(
        sccs[k1]@[j1],
        sccs[k2]@[j2],
        within,
    ) && m.joined(sccs[k2]@[j2], sccs[k1]@[j1], within)) && (k1 < k2 ==> !m.joined(
        sccs[k1]@[j1],
        sccs[k2]@[j2],
        within,
    )) by {
        let i1 = chosen[k1];
        let i2 = chosen[k2];
        let v1 = components[i1]@[j1];
        let v2 = components[i2]@[j2];
        assert(placed(components, i1, j1) && placed(components, i2, j2));
        lemma_cycle_split(m, sccs[k1]@[j1], within);
        lemma_cycle_split(m, sccs[k2]@[j2], within);
        lemma_connects_iff_joined(m, nodes, edges, v1, v2);
        lemma_connects_iff_joined(m, nodes, edges, v2, v1);
        assert(i1 == i2 <==> k1 == k2) by {
            if k1 < k2 {
                assert(chosen[k1] < chosen[k2]);
            }
            if k2 < k1 {
                assert(chosen[k2] < chosen[k1]);
            }
        }
        assert(k1 < k2 ==> i1 < i2);
        if sccs[k1]@[j1] == sccs[k2]@[j2] {
            assert(v1 == v2);
        }
    }
}

impl Kripke {
    /// Whether the state has a transition to itself.
    pub fn has_self_loop(&self, state: usize) -> (yes: bool)
        ensures
            yes == self.has_edge(state, state),
    {
        match self.transitions.get(&state) {
            Some(successors) => successors.contains(&state),
            None => false,
        }
    }

    /// `pair` is a transition between two listed states.
    pub open spec fn induces(&self, states: Seq<usize>, pair: (usize, usize)) -> bool {
        states.contains(pair.0) && states.contains(pair.1) && self.has_edge(pair.0, pair.1)
    }

    /// The transitions between listed states, as pairs.
    pub fn induced_transitions(&self, states: &Vec<usize>) -> (pairs: Vec<(usize, usize)>)
        ensures
            forall|pair: (usize, usize)| #[trigger]
                pairs@.contains(pair) <==> self.induces(states@, pair),
    {
        let mut inside: HashSet<usize> = HashSet::new();
        for i in 0..states.len()
            invariant
                inside@ == states@.take(i as int).to_set(),
        {
            proof {
                states@.take(i as int).lemma_push_to_set_commute(states@[i as int]);
                assert(states@.take(i + 1) =~= states@.take(i as int).push(states@[i as int]));
            }
            inside.insert(states[i]);
        }
        assert(states@.take(states@.len() as int) =~= states@);
        assert(forall|x: usize| inside@.contains(x) <==> states@.contains(x));
        let mut pairs: Vec<(usize, usize)> = Vec::new();
        for i in 0..states.len()
            invariant
                forall|x: usize| inside@.contains(x) <==> states@.contains(x),
                forall|pair: (usize, usize)| #[trigger]
                    pairs@.contains(pair) <==> states@.take(i as int).contains(pair.0)
                        && self.induces(states@, pair),
        {
            let from = states[i];
            let ghost earlier = states@.take(i as int);
            let ghost at_start = pairs@;
            assert(states@.take(i + 1) =~= earlier.push(from));
            assert(states@.contains(from));
            match self.transitions.get(&from) {
                Some(successors) => {
                    let targets = set_members(successors);
                    let kept = select(&targets, &inside, true);
                    for k in 0..kept.len()
                        invariant
                            forall|pair: (usize, usize)| #[trigger]
                                pairs@.contains(pair) <==> at_start.contains(pair) || (pair.0
                                    == from && kept@.take(k as int).contains(pair.1)),
                    {
                        let ghost seen = kept@.take(k as int);
                        let ghost before = pairs@;
                        assert(kept@.take(k + 1) =~= seen.push(kept@[k as int]));
                        pairs.push((from, kept[k]));
                        proof {
                            assert forall|pair: (usize, usize)| #[trigger]
                                pairs@.contains(pair) <==> at_start.contains(pair) || (pair.0
                                    == from && seen.push(kept@[k as int]).contains(pair.1)) by {
                                lemma_push_contains(before, (from, kept@[k as int]), pair);
                                lemma_push_contains(seen, kept@[k as int], pair.1);
                                assert(before.contains(pair) <==> at_start.contains(pair) || (pair.0
                                    == from && seen.contains(pair.1)));
                            }
                        }
                    }
                    proof {
                        assert(kept@.take(kept@.len() as int) =~= kept@);
                        assert forall|pair: (usize, usize)| #[trigger]
                            pairs@.contains(pair) <==> earlier.push(from).contains(pair.0)
                                && self.induces(states@, pair) by {
                            lemma_push_contains(earlier, from, pair.0);
                            assert(targets@.to_set().contains(pair.1) <==> targets@.contains(
                                pair.1,
                            ));
                            assert(at_start.contains(pair) <==> earlier.contains(pair.0)
                                && self.induces(states@, pair));
                        }
                    }
                },
                None => {
                    proof {
                        assert forall|pair: (usize, usize)| #[trigger]
                            pairs@.contains(pair) <==> earlier.push(from).contains(pair.0)
                                && self.induces(states@, pair) by {
                            lemma_push_contains(earlier, from, pair.0);
                        }
                    }
                },
            }
        }
        assert(states@.take(states@.len() as int) =~= states@);
        pairs
    }

    /// The graph of the part of the model that the listed states induce:
    /// one node for each listed state, in the order of the list, and an edge
    /// wherever a transition joins two of them.
    pub fn induced_graph(&self, states: &Vec<usize>) -> (g: StateGraph)
        requires
            self.wf(),
            states@.no_duplicates(),
        ensures
            graph_nodes(g) == states@,
            mirrors(self@.frame, states@, graph_edges(g)),
    {
        let pairs = self.induced_transitions(states);
        proof {
            assert forall|k: int| 0 <= k < pairs@.len() implies states@.contains(
                (#[trigger] pairs@[k]).0,
            ) && states@.contains(pairs@[k].1) by {
                assert(pairs@.contains(pairs@[k]));
            }
        }
        let g = construct_graph(states.as_slice(), pairs.as_slice());
        let count = states.len();
        proof {
            assert(states@.len() == count);
            assert forall|a: usize, b: usize| #[trigger]
                graph_edges(g).contains((a, b)) <==> a < states@.len() && b < states@.len()
                    && self@.frame.edge(states@[a as int], states@[b as int]) by {
                if a < states@.len() && b < states@.len() {
                    let x = states@[a as int];
                    let y = states@[b as int];
                    assert(states@.contains(x) && states@.contains(y));
                    assert(pairs@.contains((x, y)) <==> self.induces(states@, (x, y)));
                    if self.has_edge(x, y) {
                        assert(self.states@.contains_key(y));
                        assert(self.transitions@.dom().contains(x));
                    }
                }
            }
        }
        g
    }

    /// The transition graph of the whole model.
    pub fn to_graph(&self) -> (g: StateGraph)
        requires
            self.wf(),
        ensures
            graph_nodes(g).to_set() == self@.frame.states,
            mirrors(self@.frame, graph_nodes(g), graph_edges(g)),
    {
        let all = map_keys(&self.states);
        self.induced_graph(&all)
    }

    /// The strongly connected components of the part of the model that the
    /// listed states induce, but those that have one state and no transition
    /// from it to itself.
    pub fn non_trivial_scc_of(&self, states: &[usize]) -> (sccs: Vec<Vec<usize>>)
        requires
            self.wf(),
        ensures
            is_cyclic_scc_list(self@.frame, states@.to_set(), sccs@),
    {
        let nodes = unique(states);
        let g = self.induced_graph(&nodes);
        let components = graph_tarjan_scc(&g);
        let ghost m = self@.frame;
        let ghost edges = graph_edges(g);
        let mut sccs: Vec<Vec<usize>> = Vec::new();
        let ghost mut chosen: Seq<int> = Seq::empty();
        for c in 0..components.len()
            invariant
                self.wf(),
                m == self@.frame,
                graph_nodes(g) == nodes@,
                edges == graph_edges(g),
                mirrors(m, nodes@, edges),
                is_scc_list(nodes@.len(), edges, components@),
                chosen.len() == sccs@.len(),
                picked_well(nodes@, edges, components@, sccs@, chosen, c as int),
                picked_in_order(chosen),
                picked_all(edges, components@, chosen, c as int),
        {
            let component = &components[c];
            assert(component@.len() > 0);
            assert(placed(components@, c as int, 0));
            let first = component[0];
            let keep = if component.len() > 1 {
                true
            } else {
                match graph_node_weight(&g, first) {
                    Some(state) => {
                        let looped = self.has_self_loop(state);
                        proof {
                            assert(edges.contains((first, first)) <==> m.edge(state, state));
                            if self.has_edge(state, state) {
                                assert(self.transitions@.dom().contains(state));
                            }
                        }
                        looped
                    },
                    None => false,
                }
            };
            assert(keep == non_trivial(edges, component@));
            assert forall|k: int| 0 <= k < component@.len() implies (#[trigger] component@[k])
                < nodes@.len() by {
                assert(placed(components@, c as int, k));
            }
            if keep {
                let mut scc: Vec<usize> = Vec::new();
                for j in 0..component.len()
                    invariant
                        graph_nodes(g) == nodes@,
                        forall|k: int|
                            0 <= k < component@.len() ==> (#[trigger] component@[k]) < nodes@.len(),
                        scc@.len() == j,
                        forall|k: int|
                            0 <= k < j ==> #[trigger] scc@[k] == nodes@[component@[k] as int],
                {
                    match graph_node_weight(&g, component[j]) {
                        Some(state) => scc.push(state),
                        None => {
                            assert(component@[j as int] < nodes@.len());
                        },
                    }
                }
                proof {
                    lemma_pick_one(nodes@, edges, components@, sccs@, chosen, c as int, scc);
                    chosen = chosen.push(c as int);
                }
                sccs.push(scc);
            } else {
                proof {
                    lemma_pick_none(nodes@, edges, components@, sccs@, chosen, c as int);
                }
            }
        }
        proof {
            lemma_picks_give_list(m, nodes@, edges, components@, sccs@, chosen);
        }
        sccs
    }

    /// The strongly connected components of the model, but those that have
    /// one state and no transition from it to itself.
    pub fn non_trivial_scc(&self) -> (sccs: Vec<Vec<usize>>)
        requires
            self.wf(),
        ensures
            is_cyclic_scc_list(self@.frame, self@.frame.states, sccs@),
    {
        let all = map_keys(&self.states);
        self.non_trivial_scc_of(all.as_slice())
    }
}

} // verus!
