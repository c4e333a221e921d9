use vstd::prelude::*;
use petgraph::graph::{EdgeIndex, NodeIndex};
use petgraph::visit::EdgeRef;
use petgraph::{Directed, Direction, Graph};

verus! {

/// petgraph's `Graph`, held opaque: what it contains is stated through
/// `graph_node_count` and `graph_edges`.
#[verifier::external_type_specification]
#[verifier::external_body]
#[verifier::reject_recursive_types(N)]
#[verifier::reject_recursive_types(E)]
#[verifier::reject_recursive_types(Ty)]
#[verifier::reject_recursive_types(Ix)]
pub struct ExGraph<N, E, Ty, Ix>(Graph<N, E, Ty, Ix>);

/// petgraph's marker for directed edges.
#[verifier::external_type_specification]
#[verifier::external_body]
pub struct ExDirected(Directed);

/// The adjacency structure of a circuit: one node per box (the box itself
/// lives in the container's arena), one edge per ordered pair of boxes that
/// has wires, weighted with the `(output index, input index)` pairs of those
/// wires.
pub type WireGraph = Graph<(), Vec<(usize, usize)>, Directed, usize>;

/// The number of nodes held by a wire graph.
pub uninterp spec fn graph_node_count(g: Graph<(), Vec<(usize, usize)>, Directed, usize>) -> nat;

/// The edges of a wire graph in edge-index order: source node, target node
/// and the weight's elements.
pub uninterp spec fn graph_edges(g: Graph<(), Vec<(usize, usize)>, Directed, usize>) -> Seq<
    (usize, usize, Seq<(usize, usize)>),
>;

/// The edge list after removing edge `e` the way petgraph does: the last
/// edge takes over index `e`.
pub open spec fn swap_removed<T>(s: Seq<T>, e: int) -> Seq<T> {
    if e == s.len() - 1 {
        s.drop_last()
    } else {
        s.drop_last().update(e, s.last())
    }
}

/// Relies on `Graph::default`: a graph with no nodes and no edges.
#[verifier::external_body]
pub(crate) fn graph_new() -> (g: WireGraph)
    ensures
        graph_node_count(g) == 0,
        graph_edges(g) == Seq::<(usize, usize, Seq<(usize, usize)>)>::empty(),
{
    Graph::default()
}

/// Relies on `Graph::add_node`: the new node takes the next index; with
/// `usize` indices there is no node limit.
#[verifier::external_body]
pub(crate) fn graph_add_node(g: &mut WireGraph) -> (r: usize)
    ensures
        r == graph_node_count(*old(g)),
        graph_node_count(*final(g)) == graph_node_count(*old(g)) + 1,
        graph_edges(*final(g)) == graph_edges(*old(g)),
{
    g.add_node(()).index()
}

/// Relies on `Graph::add_edge`: the edge is appended to the edge list. It
/// panics when an endpoint is not a node, which `requires` leaves out.
#[verifier::external_body]
pub(crate) fn graph_add_edge(g: &mut WireGraph, a: usize, b: usize, w: Vec<(usize, usize)>) -> (r: usize)
    requires
        a < graph_node_count(*old(g)),
        b < graph_node_count(*old(g)),
    ensures
        r == graph_edges(*old(g)).len(),
        graph_node_count(*final(g)) == graph_node_count(*old(g)),
        graph_edges(*final(g)) == graph_edges(*old(g)).push((a, b, w@)),
{
    g.add_edge(NodeIndex::new(a), NodeIndex::new(b), w).index()
}

/// Relies on `Graph::edge_count`.
#[verifier::external_body]
pub(crate) fn graph_edge_count(g: &WireGraph) -> (r: usize)
    ensures
        r == graph_edges(*g).len(),
{
    g.edge_count()
}

/// Relies on `Graph::find_edge`: some edge from `a` to `b`, or none when
/// there is no such edge.
#[verifier::external_body]
pub(crate) fn graph_find_edge(g: &WireGraph, a: usize, b: usize) -> (r: Option<usize>)
    ensures
        r matches Some(e) ==> e < graph_edges(*g).len() && graph_edges(*g)[e as int].0 == a
            && graph_edges(*g)[e as int].1 == b,
        r is None ==> forall|e: int|
            0 <= e < graph_edges(*g).len() ==> !(#[trigger] graph_edges(*g)[e].0 == a
                && graph_edges(*g)[e].1 == b),
{
    g.find_edge(NodeIndex::new(a), NodeIndex::new(b)).map(|e| e.index())
}

/// Relies on `Graph::edge_endpoints`: source and target of an existing edge.
#[verifier::external_body]
pub(crate) fn graph_edge_endpoints(g: &WireGraph, e: usize) -> (r: Option<(usize, usize)>)
    ensures
        e < graph_edges(*g).len() ==> r == Some(
            (graph_edges(*g)[e as int].0, graph_edges(*g)[e as int].1),
        ),
        e >= graph_edges(*g).len() ==> r is None,
{
    g.edge_endpoints(EdgeIndex::new(e)).map(|(a, b)| (a.index(), b.index()))
}

/// Relies on indexing a `Graph` by edge: the weight of an existing edge. It
/// panics on a missing edge, which `requires` leaves out.
#[verifier::external_body]
pub(crate) fn graph_edge_weight(g: &WireGraph, e: usize) -> (r: &Vec<(usize, usize)>)
    requires
        e < graph_edges(*g).len(),
    ensures
        r@ == graph_edges(*g)[e as int].2,
{
    &g[EdgeIndex::new(e)]
}

/// Relies on mutable indexing of a `Graph` by edge: replaces the weight of
/// an existing edge and nothing else.
#[verifier::external_body]
pub(crate) fn graph_set_edge_weight(g: &mut WireGraph, e: usize, w: Vec<(usize, usize)>)
    requires
        e < graph_edges(*old(g)).len(),
    ensures
        graph_node_count(*final(g)) == graph_node_count(*old(g)),
        graph_edges(*final(g)) == graph_edges(*old(g)).update(
            e as int,
            (graph_edges(*old(g))[e as int].0, graph_edges(*old(g))[e as int].1, w@),
        ),
{
    g[EdgeIndex::new(e)] = w;
}

/// Relies on `Graph::remove_edge`: the edge leaves the list and the last edge
/// takes over its index.
#[verifier::external_body]
pub(crate) fn graph_remove_edge(g: &mut WireGraph, e: usize)
    requires
        e < graph_edges(*old(g)).len(),
    ensures
        graph_node_count(*final(g)) == graph_node_count(*old(g)),
        graph_edges(*final(g)) == swap_removed(graph_edges(*old(g)), e as int),
{
    g.remove_edge(EdgeIndex::new(e));
}

/// The node at the incoming (target) or outgoing (source) end of edge `e`.
pub open spec fn edge_end(es: Seq<(usize, usize, Seq<(usize, usize)>)>, e: int, incoming: bool) -> usize {
    if incoming {
        es[e].1
    } else {
        es[e].0
    }
}

/// `list` holds exactly the indices of the edges whose incoming (or
/// outgoing) end is node `n`.
pub open spec fn lists_edges_at(
    es: Seq<(usize, usize, Seq<(usize, usize)>)>,
    list: Seq<usize>,
    n: usize,
    incoming: bool,
) -> bool {
    &&& forall|i: int| 0 <= i < list.len() ==> #[trigger] list[i] < es.len() && edge_end(es, list[i] as int, incoming) == n
    &&& forall|e: int| 0 <= e < es.len() && #[trigger] edge_end(es, e, incoming) == n ==> list.contains(e as usize)
}

/// Relies on `Graph::edges_directed` on a directed graph: it walks the
/// node's list of incoming (or outgoing) edges, which holds every edge that
/// ends (or starts) at the node; of each edge the index is kept. A node that
/// does not exist has no edges.
#[verifier::external_body]
pub(crate) fn graph_edges_at(g: &WireGraph, n: usize, incoming: bool) -> (r: Vec<usize>)
    ensures
        lists_edges_at(graph_edges(*g), r@, n, incoming),
{
    let dir = if incoming { Direction::Incoming } else { Direction::Outgoing };
    g.edges_directed(NodeIndex::new(n), dir).map(|e| e.id().index()).collect()
}

} // verus!
