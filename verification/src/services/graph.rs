use petgraph::algo::toposort;
use petgraph::graph::{Graph, NodeIndex};
use petgraph::Directed;
use vstd::prelude::*;

verus! {

#[verifier::external_type_specification]
#[verifier::external_body]
#[verifier::reject_recursive_types(N)]
#[verifier::reject_recursive_types(E)]
#[verifier::reject_recursive_types(Ty)]
#[verifier::reject_recursive_types(Ix)]
pub struct ExGraph<N, E, Ty, Ix>(Graph<N, E, Ty, Ix>);

#[verifier::external_type_specification]
#[verifier::external_body]
pub struct ExDirected(Directed);

/// The dependency graph of a set of tasks: one node per task, weighted by its id.
pub type TaskGraph = Graph<String, (), Directed, u32>;

/// The node weights of a graph, in the order of their indices.
pub uninterp spec fn graph_nodes(g: Graph<String, (), Directed, u32>) -> Seq<Seq<char>>;

/// The edges of a graph, as (source, target) node indices, in the order they were added.
pub uninterp spec fn graph_edges(g: Graph<String, (), Directed, u32>) -> Seq<(usize, usize)>;

/// `order` lists every node of a graph with `n` nodes exactly once, and each edge's
/// source comes before its target.
pub open spec fn is_topological_order(n: nat, edges: Seq<(usize, usize)>, order: Seq<usize>) -> bool {
    &&& order.len() == n
    &&& forall|i: int| 0 <= i < n ==> #[trigger] order[i] < n
    &&& forall|i: int, j: int| 0 <= i < j < n ==> order[i] != order[j]
    &&& forall|v: usize| v < n ==> #[trigger] order.contains(v)
    &&& forall|e: int, i: int, j: int|
        #![trigger edges[e], order[i], order[j]]
        0 <= e < edges.len() && 0 <= i < n && 0 <= j < n && order[i] == edges[e].0 && order[j]
            == edges[e].1 ==> i < j
}

/// A graph is acyclic when its nodes can be put in a topological order.
pub open spec fn is_acyclic(n: nat, edges: Seq<(usize, usize)>) -> bool {
    exists|order: Seq<usize>| is_topological_order(n, edges, order)
}

/// `DiGraph::new`: a graph with no nodes and no edges.
#[verifier::external_body]
pub fn new_task_graph() -> (g: TaskGraph)
    ensures
        graph_nodes(g) == Seq::<Seq<char>>::empty(),
        graph_edges(g) == Seq::<(usize, usize)>::empty(),
{
    Graph::new()
}

/// `Graph::add_node`: appends a node with the given weight and returns its index, the
/// former node count. It panics when the node count has reached `u32::MAX`, the end
/// index of the default index type.
#[verifier::external_body]
pub fn add_task_node(g: &mut TaskGraph, weight: String) -> (idx: usize)
    requires
        graph_nodes(*old(g)).len() < u32::MAX,
    ensures
        graph_nodes(*final(g)) == graph_nodes(*old(g)).push(weight@),
        graph_edges(*final(g)) == graph_edges(*old(g)),
        idx == graph_nodes(*old(g)).len(),
{
    g.add_node(weight).index()
}

/// `Graph::add_edge`: appends an edge from node `source` to node `target`. It panics
/// when either index is out of bounds or the edge count has reached `u32::MAX`.
#[verifier::external_body]
pub fn add_dependency_edge(g: &mut TaskGraph, source: usize, target: usize)
    requires
        source < graph_nodes(*old(g)).len(),
        target < graph_nodes(*old(g)).len(),
        graph_edges(*old(g)).len() < u32::MAX,
    ensures
        graph_nodes(*final(g)) == graph_nodes(*old(g)),
        graph_edges(*final(g)) == graph_edges(*old(g)).push((source, target)),
{
    g.add_edge(NodeIndex::new(source), NodeIndex::new(target), ());
}

/// Indexing a graph by a node index: a copy of that node's weight. It panics when the
/// index is out of bounds.
#[verifier::external_body]
pub fn node_weight(g: &TaskGraph, idx: usize) -> (w: String)
    requires
        idx < graph_nodes(*g).len(),
    ensures
        w@ == graph_nodes(*g)[idx as int],
{
    g[NodeIndex::new(idx)].clone()
}

/// `petgraph::algo::toposort`: on an acyclic graph, every node in an order where each
/// node comes before its successors; on a graph with a cycle (a self loop counts),
/// an error, here `None`.
#[verifier::external_body]
pub fn topological_order(g: &TaskGraph) -> (r: Option<Vec<usize>>)
    ensures
        match r {
            Some(order) => is_topological_order(
                graph_nodes(*g).len(),
                graph_edges(*g),
                order@,
            ),
            None => !is_acyclic(graph_nodes(*g).len(), graph_edges(*g)),
        },
{
    match toposort(g, None) {
        Ok(order) => Some(order.iter().map(|i| i.index()).collect()),
        Err(_) => None,
    }
}

} // verus!
