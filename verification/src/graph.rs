//! The graph of modules, kept in a `petgraph` stable graph.
//!
//! A node stands for a module and carries the module's position in the
//! engine's list of modules. An edge leads from a module to a module that
//! imports it, so that a topological order puts every module after the
//! modules it depends on.

use vstd::prelude::*;

verus! {

/// `petgraph::stable_graph::StableGraph`, carried as it is. What a graph
/// holds is known through [`graph_nodes`] and [`graph_edges`] alone.
#[verifier::external_type_specification]
#[verifier::external_body]
#[verifier::reject_recursive_types(N)]
#[verifier::reject_recursive_types(E)]
#[verifier::reject_recursive_types(Ty)]
#[verifier::reject_recursive_types(Ix)]
pub struct ExStableGraph<N, E, Ty, Ix>(petgraph::stable_graph::StableGraph<N, E, Ty, Ix>);

/// `petgraph::Directed`, the marker of graphs whose edges have a direction.
#[verifier::external_type_specification]
#[verifier::external_body]
pub struct ExDirected(petgraph::Directed);

/// A directed graph whose nodes carry a position and whose edges carry
/// nothing, with indices as wide as the machine's addresses.
pub type DependencyGraph = petgraph::stable_graph::StableGraph<
    usize,
    (),
    petgraph::Directed,
    usize,
>;

/// The nodes of `graph`: the index of each node, with the weight it carries.
pub uninterp spec fn graph_nodes(
    graph: petgraph::stable_graph::StableGraph<usize, (), petgraph::Directed, usize>,
) -> Map<int, int>;

/// The edges of `graph`: for each edge the index of its source and the index
/// of its target. Parallel edges count once.
pub uninterp spec fn graph_edges(
    graph: petgraph::stable_graph::StableGraph<usize, (), petgraph::Directed, usize>,
) -> Set<(int, int)>;

/// The nodes of a graph without nodes.
pub open spec fn no_nodes() -> Map<int, int> {
    Map::empty()
}

/// The edges of a graph without edges.
pub open spec fn no_edges() -> Set<(int, int)> {
    Set::empty()
}

/// Whether the edges `path[0] -> path[1] -> ... -> path[0]` are all in
/// `edges`. A single node with an edge to itself is such a path.
pub open spec fn is_cycle(edges: Set<(int, int)>, path: Seq<int>) -> bool {
    &&& path.len() >= 1
    &&& forall|k: int| 0 <= k < path.len() - 1 ==> edges.contains((#[trigger] path[k], path[k + 1]))
    &&& edges.contains((path.last(), path[0]))
}

/// Whether `node` lies on a cycle of `edges`.
pub open spec fn on_cycle(edges: Set<(int, int)>, node: int) -> bool {
    exists|path: Seq<int>| #[trigger] is_cycle(edges, path) && path[0] == node
}

/// Whether `order` lists every one of `nodes` once, each before the targets of
/// its edges.
pub open spec fn is_topological_order(
    order: Seq<int>,
    nodes: Set<int>,
    edges: Set<(int, int)>,
) -> bool {
    &&& forall|i: int, j: int|
        0 <= i < order.len() && 0 <= j < order.len() && i != j ==> order[i] != order[j]
    &&& forall|i: int| 0 <= i < order.len() ==> nodes.contains(#[trigger] order[i])
    &&& forall|node: int| #[trigger]
        nodes.contains(node) ==> exists|i: int| 0 <= i < order.len() && order[i] == node
    &&& forall|i: int, j: int|
        0 <= i < order.len() && 0 <= j < order.len() && edges.contains(
            (#[trigger] order[i], #[trigger] order[j]),
        ) ==> i < j
}

/// The indices of a list of nodes, as mathematical integers.
pub open spec fn as_ints(indices: Seq<usize>) -> Seq<int> {
    Seq::new(indices.len(), |i: int| indices[i] as int)
}

/// Along a path of edges between listed nodes, a topological order only goes
/// forward.
proof fn lemma_path_goes_forward(
    order: Seq<int>,
    nodes: Set<int>,
    edges: Set<(int, int)>,
    path: Seq<int>,
    upto: int,
    first: int,
) -> (last: int)
    requires
        is_topological_order(order, nodes, edges),
        forall|a: int, b: int| #[trigger]
            edges.contains((a, b)) ==> nodes.contains(a) && nodes.contains(b),
        0 <= upto < path.len(),
        forall|k: int|
            0 <= k < path.len() - 1 ==> edges.contains((#[trigger] path[k], path[k + 1])),
        0 <= first < order.len(),
        order[first] == path[0],
        nodes.contains(path[0]),
    ensures
        first <= last < order.len(),
        order[last] == path[upto],
    decreases upto,
{
    if upto == 0 {
        first
    } else {
        let before = lemma_path_goes_forward(order, nodes, edges, path, upto - 1, first);
        let last = choose|i: int| 0 <= i < order.len() && order[i] == path[upto];
        assert(edges.contains((order[before], order[last])));
        last
    }
}

/// A graph that has a topological order has no cycle.
pub proof fn lemma_ordered_graph_has_no_cycle(
    order: Seq<int>,
    nodes: Set<int>,
    edges: Set<(int, int)>,
    path: Seq<int>,
)
    requires
        is_topological_order(order, nodes, edges),
        forall|a: int, b: int| #[trigger]
            edges.contains((a, b)) ==> nodes.contains(a) && nodes.contains(b),
    ensures
        !is_cycle(edges, path),
{
    if is_cycle(edges, path) {
        let first = choose|i: int| 0 <= i < order.len() && order[i] == path[0];
        let last = lemma_path_goes_forward(
            order,
            nodes,
            edges,
            path,
            path.len() - 1,
            first,
        );
        assert(edges.contains((order[last], order[first])));
    }
}

/// `StableGraph::with_capacity`, asked for no capacity: a graph without nodes
/// and without edges.
#[verifier::external_body]
pub(crate) fn graph_new() -> (empty: petgraph::stable_graph::StableGraph<
    usize,
    (),
    petgraph::Directed,
    usize,
>)
    ensures
        graph_nodes(empty) == no_nodes(),
        graph_edges(empty) == no_edges(),
{
    petgraph::stable_graph::StableGraph::with_capacity(0, 0)
}

/// `StableGraph::add_node`: adds a node that carries `weight` and returns its
/// index, which no node had before. The other nodes and the edges stay. With
/// indices of the width of `usize` the graph has no limit of its own to run
/// into.
#[verifier::external_body]
pub(crate) fn graph_add_node(graph: &mut DependencyGraph, weight: usize) -> (index: usize)
    ensures
        !graph_nodes(*old(graph)).contains_key(index as int),
        graph_nodes(*final(graph)) == graph_nodes(*old(graph)).insert(index as int, weight as int),
        graph_edges(*final(graph)) == graph_edges(*old(graph)),
{
    graph.add_node(weight).index()
}

/// `StableGraph::add_edge`: adds an edge from the node `source` to the node
/// `target`, both of which must exist. The nodes stay. With indices of the
/// width of `usize` the graph has no limit of its own to run into.
#[verifier::external_body]
pub(crate) fn graph_add_edge(graph: &mut DependencyGraph, source: usize, target: usize)
    requires
        graph_nodes(*old(graph)).contains_key(source as int),
        graph_nodes(*old(graph)).contains_key(target as int),
    ensures
        graph_nodes(*final(graph)) == graph_nodes(*old(graph)),
        graph_edges(*final(graph)) == graph_edges(*old(graph)).insert(
            (source as int, target as int),
        ),
{
    graph.add_edge(
        petgraph::stable_graph::NodeIndex::new(source),
        petgraph::stable_graph::NodeIndex::new(target),
        (),
    );
}

/// `StableGraph::node_weight`: the weight that the node `index` carries, if
/// there is such a node.
#[verifier::external_body]
pub(crate) fn graph_node_weight(graph: &DependencyGraph, index: usize) -> (weight: Option<usize>)
    ensures
        weight is Some <==> graph_nodes(*graph).contains_key(index as int),
        weight is Some ==> graph_nodes(*graph)[index as int] == weight->0,
{
    graph.node_weight(petgraph::stable_graph::NodeIndex::new(index)).copied()
}

/// `petgraph::algo::toposort`: the nodes in a topological order, or, where
/// the graph has a cycle, a node that lies on one.
#[verifier::external_body]
pub(crate) fn graph_toposort(graph: &DependencyGraph) -> (sorted: Result<Vec<usize>, usize>)
    ensures
        sorted is Ok ==> is_topological_order(
            as_ints(sorted->Ok_0@),
            graph_nodes(*graph).dom(),
            graph_edges(*graph),
        ),
        sorted is Err ==> graph_nodes(*graph).contains_key(sorted->Err_0 as int) && on_cycle(
            graph_edges(*graph),
            sorted->Err_0 as int,
        ),
{
    match petgraph::algo::toposort(graph, None) {
        Ok(order) => Ok(order.into_iter().map(|node| node.index()).collect()),
        Err(cycle) => Err(cycle.node_id().index()),
    }
}

} // verus!
