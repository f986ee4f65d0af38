//! Directed graphs of petgraph, as far as the model uses them.
//!
//! The graph type and the functions of petgraph are not verified here.  What
//! this module states of them is taken on trust: the nodes of a graph are
//! numbered in the order in which they were added, an edge joins two node
//! numbers, and `tarjan_scc` returns the strongly connected components.

use vstd::prelude::*;

verus! {

/// `Graph` of petgraph, as a type of which nothing is known but what the
/// functions below state.
#[verifier::external_type_specification]
#[verifier::external_body]
#[verifier::reject_recursive_types(N)]
#[verifier::reject_recursive_types(E)]
#[verifier::reject_recursive_types(Ty)]
#[verifier::reject_recursive_types(Ix)]
pub struct ExGraph<N, E, Ty, Ix>(petgraph::graph::Graph<N, E, Ty, Ix>);

/// `Directed` of petgraph, the marker of graphs with directed edges.
#[verifier::external_type_specification]
#[verifier::external_body]
pub struct ExDirected(petgraph::Directed);

/// A directed graph whose nodes carry state ids.  Nodes are numbered by
/// `usize`, so the graph has no limit on its size but memory.
pub type StateGraph = petgraph::graph::Graph<usize, (), petgraph::Directed, usize>;

/// The weights of the nodes of a graph, by node number.
pub uninterp spec fn graph_nodes(g: StateGraph) -> Seq<usize>;

/// The pairs of node numbers that an edge of the graph joins, source first.
pub uninterp spec fn graph_edges(g: StateGraph) -> Set<(usize, usize)>;

/// A path in a graph of `n` nodes: node numbers, at least one, each joined
/// to the next by an edge.
pub open spec fn path_in(n: nat, edges: Set<(usize, usize)>, p: Seq<usize>) -> bool {
    &&& p.len() > 0
    &&& forall|i: int| 0 <= i < p.len() ==> (#[trigger] p[i]) < n
    &&& forall|i: int| 0 <= i < p.len() - 1 ==> #[trigger] link(edges, p, i)
}

/// An edge joins the node at place `i` of `p` to the next.
pub open spec fn link(edges: Set<(usize, usize)>, p: Seq<usize>, i: int) -> bool {
    edges.contains((p[i], p[i + 1]))
}

/// The path `p` goes from `a` to `b`.
pub open spec fn path_between(n: nat, edges: Set<(usize, usize)>, p: Seq<usize>, a: usize, b: usize) -> bool {
    path_in(n, edges, p) && p[0] == a && p.last() == b
}

/// Some path goes from `a` to `b`.
pub open spec fn connects(n: nat, edges: Set<(usize, usize)>, a: usize, b: usize) -> bool {
    exists|p: Seq<usize>| #[trigger] path_between(n, edges, p, a, b)
}

/// `(i, j)` is a place in a list of lists.
pub open spec fn placed(lists: Seq<Vec<usize>>, i: int, j: int) -> bool {
    0 <= i < lists.len() && 0 <= j < lists[i]@.len()
}

/// `v` stands somewhere in a list of lists.
pub open spec fn listed(lists: Seq<Vec<usize>>, v: usize) -> bool {
    exists|i: int, j: int| #[trigger] placed(lists, i, j) && lists[i]@[j] == v
}

/// `components` lists the strongly connected components of the graph with
/// nodes `0..n` and the given edges: every node stands in one place; two
/// nodes stand in the same component exactly if each can be reached from
/// the other; and no node of a component can reach a node of a component
/// that comes later in the list.
pub open spec fn is_scc_list(n: nat, edges: Set<(usize, usize)>, components: Seq<Vec<usize>>) -> bool {
    &&& forall|i: int, j: int| #[trigger] placed(components, i, j) ==> components[i]@[j] < n
    &&& forall|v: usize| v < n ==> #[trigger] listed(components, v)
    &&& forall|i: int| 0 <= i < components.len() ==> (#[trigger] components[i])@.len() > 0
    &&& forall|i1: int, j1: int, i2: int, j2: int|
        #[trigger] placed(components, i1, j1) && #[trigger] placed(components, i2, j2)
            && components[i1]@[j1] == components[i2]@[j2] ==> i1 == i2 && j1 == j2
    &&& forall|i1: int, j1: int, i2: int, j2: int|
        #[trigger] placed(components, i1, j1) && #[trigger] placed(components, i2, j2) ==> (i1
            == i2 <==> connects(n, edges, components[i1]@[j1], components[i2]@[j2]) && connects(
            n,
            edges,
            components[i2]@[j2],
            components[i1]@[j1],
        ))
    &&& forall|i1: int, j1: int, i2: int, j2: int|
        #[trigger] placed(components, i1, j1) && #[trigger] placed(components, i2, j2) && i1 < i2
            ==> !connects(n, edges, components[i1]@[j1], components[i2]@[j2])
}

/// `Graph::with_capacity(0, 0)` of petgraph: a graph without nodes and
/// edges.
#[verifier::external_body]
pub(crate) fn graph_new() -> (g: StateGraph)
    ensures
        graph_nodes(g) == Seq::<usize>::empty(),
        graph_edges(g) == Set::<(usize, usize)>::empty(),
{
    petgraph::graph::Graph::with_capacity(0, 0)
}

/// `Graph::add_node` of petgraph: the new node gets the next number and the
/// given weight; the edges stay.  It cannot fail where nodes are numbered by
/// `usize`.
#[verifier::external_body]
pub(crate) fn graph_add_node(g: &mut StateGraph, weight: usize) -> (index: usize)
    ensures
        index == graph_nodes(*old(g)).len(),
        graph_nodes(*final(g)) == graph_nodes(*old(g)).push(weight),
        graph_edges(*final(g)) == graph_edges(*old(g)),
{
    g.add_node(weight).index()
}

/// `Graph::add_edge` of petgraph: an edge from node `a` to node `b` is
/// added; the nodes stay.  Both nodes have to exist.
#[verifier::external_body]
pub(crate) fn graph_add_edge(g: &mut StateGraph, a: usize, b: usize)
    requires
        a < graph_nodes(*old(g)).len(),
        b < graph_nodes(*old(g)).len(),
    ensures
        graph_nodes(*final(g)) == graph_nodes(*old(g)),
        graph_edges(*final(g)) == graph_edges(*old(g)).insert((a, b)),
{
    g.add_edge(petgraph::graph::NodeIndex::new(a), petgraph::graph::NodeIndex::new(b), ());
}

/// `Graph::node_weight` of petgraph: the weight of the node with the given
/// number, if there is such a node.
#[verifier::external_body]
pub(crate) fn graph_node_weight(g: &StateGraph, index: usize) -> (weight: Option<usize>)
    ensures
        weight == if index < graph_nodes(*g).len() {
            Some(graph_nodes(*g)[index as int])
        } else {
            None
        },
{
    g.node_weight(petgraph::graph::NodeIndex::new(index)).copied()
}

/// `tarjan_scc` of petgraph: the strongly connected components of the
/// graph, each as the list of its node numbers, in reverse topological
/// order.
#[verifier::external_body]
pub(crate) fn graph_tarjan_scc(g: &StateGraph) -> (components: Vec<Vec<usize>>)
    ensures
        is_scc_list(graph_nodes(*g).len(), graph_edges(*g), components@),
{
    petgraph::algo::tarjan_scc(g).into_iter().map(
        |c| c.into_iter().map(|n| n.index()).collect(),
    ).collect()
}

} // verus!
