//! Trusted boundary to petgraph: the graph container, its node handles, and
//! the unit-cost Dijkstra search. Every contract here is believed, not
//! proved; each doc comment names the petgraph item relied on.

use vstd::prelude::*;

verus! {

#[verifier::external_type_specification]
#[verifier::external_body]
pub struct ExUndirected(petgraph::Undirected);

#[verifier::external_type_specification]
#[verifier::external_body]
#[verifier::reject_recursive_types(Ix)]
pub struct ExNodeIndex<Ix>(petgraph::graph::NodeIndex<Ix>);

#[verifier::external_type_specification]
#[verifier::external_body]
#[verifier::reject_recursive_types(N)]
#[verifier::reject_recursive_types(E)]
#[verifier::reject_recursive_types(Ty)]
#[verifier::reject_recursive_types(Ix)]
pub struct ExGraph<N, E, Ty, Ix>(petgraph::graph::Graph<N, E, Ty, Ix>);

/// The position a node handle stands for: what `NodeIndex::index` returns.
pub uninterp spec fn node_id(n: petgraph::graph::NodeIndex) -> usize;

/// The node weights a graph holds, in node-index order.
pub uninterp spec fn graph_nodes(g: petgraph::graph::Graph<u64, (), petgraph::Undirected>) -> Seq<
    u64,
>;

/// The edges a graph holds, as endpoint index pairs, in insertion order.
pub uninterp spec fn graph_edges(g: petgraph::graph::Graph<u64, (), petgraph::Undirected>) -> Seq<
    (usize, usize),
>;

/// Relies on `NodeIndex::index`: the position wrapped by the handle.
#[verifier::external_body]
pub(crate) fn node_index_of(n: &petgraph::graph::NodeIndex) -> (r: usize)
    ensures
        r == node_id(*n),
{
    n.index()
}

/// Relies on `NodeIndex::new`: wraps a position (`u32`-backed, so the
/// position must fit) into a handle whose `index` gives it back.
#[verifier::external_body]
pub(crate) fn node_index_new(i: usize) -> (r: petgraph::graph::NodeIndex)
    requires
        i < 0xffff_ffff,
    ensures
        node_id(r) == i,
{
    petgraph::graph::NodeIndex::new(i)
}

/// Relies on `Graph::new_undirected`: a graph with no nodes and no edges.
#[verifier::external_body]
pub(crate) fn graph_new() -> (g: petgraph::graph::Graph<u64, (), petgraph::Undirected>)
    ensures
        graph_nodes(g) == Seq::<u64>::empty(),
        graph_edges(g) == Seq::<(usize, usize)>::empty(),
{
    petgraph::graph::Graph::new_undirected()
}

/// Relies on `Graph::add_node`: appends one node and returns its index,
/// which is the previous node count. Panics at the `u32` index limit, so
/// the count must stay below it.
#[verifier::external_body]
pub(crate) fn graph_add_node(
    g: &mut petgraph::graph::Graph<u64, (), petgraph::Undirected>,
    weight: u64,
) -> (r: petgraph::graph::NodeIndex)
    requires
        graph_nodes(*old(g)).len() < 0xffff_ffff,
    ensures
        graph_nodes(*final (g)) == graph_nodes(*old(g)).push(weight),
        graph_edges(*final (g)) == graph_edges(*old(g)),
        node_id(r) == graph_nodes(*old(g)).len(),
{
    g.add_node(weight)
}

/// Relies on `Graph::add_edge`: appends one edge between two existing
/// nodes (endpoints out of range panic, as does the `u32` edge limit).
#[verifier::external_body]
pub(crate) fn graph_add_edge(
    g: &mut petgraph::graph::Graph<u64, (), petgraph::Undirected>,
    a: petgraph::graph::NodeIndex,
    b: petgraph::graph::NodeIndex,
)
    requires
        node_id(a) < graph_nodes(*old(g)).len(),
        node_id(b) < graph_nodes(*old(g)).len(),
        graph_edges(*old(g)).len() < 0xffff_ffff,
    ensures
        graph_nodes(*final (g)) == graph_nodes(*old(g)),
        graph_edges(*final (g)) == graph_edges(*old(g)).push((node_id(a), node_id(b))),
{
    let _ = g.add_edge(a, b, ());
}

/// Relies on `Graph::node_count`: the number of nodes.
#[verifier::external_body]
pub(crate) fn graph_node_count(g: &petgraph::graph::Graph<u64, (), petgraph::Undirected>) -> (r:
    usize)
    ensures
        r == graph_nodes(*g).len(),
{
    g.node_count()
}

/// What the unit-cost shortest-path search from `start` computes over a
/// given edge list: the map from each reachable node position to its
/// least hop count. A pure function of the edges and the start alone.
pub uninterp spec fn dijkstra_of(edges: Seq<(usize, usize)>, start: usize) -> Map<usize, i32>;

/// Relies on `petgraph::algo::dijkstra` with unit edge cost: the least hop
/// count from `start` to every reachable node, the start itself held at 0.
/// Every key is a node of the graph; every score is a hop count along a
/// path of distinct nodes, hence non-negative and below the node count.
/// Relaxation adds 1 to a score not yet past the visited check, so every
/// intermediate sum must also fit the `i32` scores: the node count stays
/// strictly below 2^31.
#[verifier::external_body]
pub(crate) fn dijkstra_distances(
    g: &petgraph::graph::Graph<u64, (), petgraph::Undirected>,
    start: &petgraph::graph::NodeIndex,
) -> (r: Vec<(usize, i32)>)
    requires
        node_id(*start) < graph_nodes(*g).len(),
        graph_nodes(*g).len() < 0x8000_0000,
    ensures
        forall|j: usize, d: i32|
            #![trigger dijkstra_of(graph_edges(*g), node_id(*start)).contains_pair(j, d)]
            #![trigger r@.contains((j, d))]
            dijkstra_of(graph_edges(*g), node_id(*start)).contains_pair(j, d) <==> r@.contains(
                (j, d),
            ),
        forall|p: int, q: int| 0 <= p < q < r@.len() ==> (#[trigger] r@[p]).0 != (#[trigger] r@[q]).0,
        forall|t: (usize, i32)|
            r@.contains(t) ==> t.0 < graph_nodes(*g).len() && 0 <= t.1 < graph_nodes(*g).len(),
        r@.contains((node_id(*start), 0i32)),
{
    let scores = petgraph::algo::dijkstra(g, *start, None, |_e| 1i32);
    scores.into_iter().map(|(n, d)| (n.index(), d)).collect()
}

/// Relies on `Graph::node_indices`: handles for positions `0..node_count`,
/// in order.
#[verifier::external_body]
pub(crate) fn graph_node_indices(g: &petgraph::graph::Graph<u64, (), petgraph::Undirected>) -> (r:
    Vec<petgraph::graph::NodeIndex>)
    ensures
        r@.len() == graph_nodes(*g).len(),
        forall|i: int| 0 <= i < r@.len() ==> node_id(#[trigger] r@[i]) == i,
{
    g.node_indices().collect()
}

} // verus!
