//! The petgraph graph that holds the notes and the edges between them, as seen
//! by the verified code: its nodes as a sequence of notes, its edges as a
//! sequence of `(source, target, kind)` triples in the order they were added.
use vstd::prelude::*;
use petgraph::graph::{Graph, NodeIndex};
use petgraph::visit::EdgeRef;
use petgraph::Direction;
use crate::model::Note;

verus! {

/// How one note relates to another in the index.
#[derive(Debug, Clone, Copy, PartialEq, Eq, Structural)]
pub enum EdgeKind {
    Contains,
    Links,
    Transcludes,
}

#[verifier::external_type_specification]
#[verifier::external_body]
#[verifier::reject_recursive_types(N)]
#[verifier::reject_recursive_types(E)]
#[verifier::reject_recursive_types(Ty)]
#[verifier::reject_recursive_types(Ix)]
pub struct ExGraph<N, E, Ty, Ix>(Graph<N, E, Ty, Ix>);

#[verifier::external_type_specification]
#[verifier::external_body]
pub struct ExDirected(petgraph::Directed);

#[verifier::external_type_specification]
#[verifier::external_body]
#[verifier::reject_recursive_types(Ix)]
pub struct ExNodeIndex<Ix>(NodeIndex<Ix>);

/// The node weights of the graph, by node index.
pub uninterp spec fn graph_nodes(g: Graph<Note, EdgeKind>) -> Seq<Note>;

/// The edges of the graph as `(source, target, kind)`, in the order of addition.
pub uninterp spec fn graph_edges(g: Graph<Note, EdgeKind>) -> Seq<(int, int, EdgeKind)>;

/// The position that a node index stands for (`NodeIndex::index`).
pub uninterp spec fn node_index_value(n: NodeIndex) -> int;

/// `Graph::new`: a graph without nodes or edges.
#[verifier::external_body]
pub(crate) fn new_graph() -> (g: Graph<Note, EdgeKind>)
    ensures
        graph_nodes(g) == Seq::<Note>::empty(),
        graph_edges(g) == Seq::<(int, int, EdgeKind)>::empty(),
{
    Graph::new()
}

/// `NodeIndex::new`: the index of position `i`, exact below `u32::MAX`.
#[verifier::external_body]
pub(crate) fn node_index(i: usize) -> (n: NodeIndex)
    requires
        i < u32::MAX,
    ensures
        node_index_value(n) == i,
{
    NodeIndex::new(i)
}

/// `NodeIndex::index`: the position that the index stands for.
#[verifier::external_body]
pub(crate) fn index_of(n: NodeIndex) -> (i: usize)
    ensures
        i == node_index_value(n),
        i <= u32::MAX,
{
    n.index()
}

/// `Graph::add_node`: appends a node and returns its index. It panics when the
/// graph already holds `u32::MAX` nodes.
#[verifier::external_body]
pub(crate) fn add_node(g: &mut Graph<Note, EdgeKind>, note: Note) -> (n: NodeIndex)
    requires
        graph_nodes(*old(g)).len() < u32::MAX,
    ensures
        graph_nodes(*final(g)) == graph_nodes(*old(g)).push(note),
        graph_edges(*final(g)) == graph_edges(*old(g)),
        node_index_value(n) == graph_nodes(*old(g)).len(),
{
    g.add_node(note)
}

/// `Graph::add_edge`: appends an edge. It panics when an endpoint is not a node,
/// or when the graph already holds `u32::MAX` edges.
#[verifier::external_body]
pub(crate) fn add_edge(g: &mut Graph<Note, EdgeKind>, a: NodeIndex, b: NodeIndex, kind: EdgeKind)
    requires
        0 <= node_index_value(a) < graph_nodes(*old(g)).len(),
        0 <= node_index_value(b) < graph_nodes(*old(g)).len(),
        graph_edges(*old(g)).len() < u32::MAX,
    ensures
        graph_nodes(*final(g)) == graph_nodes(*old(g)),
        graph_edges(*final(g)) == graph_edges(*old(g)).push(
            (node_index_value(a), node_index_value(b), kind),
        ),
{
    g.add_edge(a, b, kind);
}

/// `Graph::node_count`.
#[verifier::external_body]
pub(crate) fn node_count(g: &Graph<Note, EdgeKind>) -> (n: usize)
    ensures
        n == graph_nodes(*g).len(),
{
    g.node_count()
}

/// `&graph[n]`: the note at a node. It panics for an index that is no node.
#[verifier::external_body]
pub(crate) fn node_weight(g: &Graph<Note, EdgeKind>, n: NodeIndex) -> (r: &Note)
    requires
        0 <= node_index_value(n) < graph_nodes(*g).len(),
    ensures
        *r == graph_nodes(*g)[node_index_value(n)],
{
    &g[n]
}

/// The `(target, kind)` of the edges that leave `a`, most recently added first.
pub open spec fn outgoing(es: Seq<(int, int, EdgeKind)>, a: int) -> Seq<(int, EdgeKind)>
    decreases es.len(),
{
    if es.len() == 0 {
        seq![]
    } else {
        let e = es.last();
        let rest = outgoing(es.drop_last(), a);
        if e.0 == a {
            seq![(e.1, e.2)] + rest
        } else {
            rest
        }
    }
}

/// The `(source, kind)` of the edges that enter `a`, most recently added first.
pub open spec fn incoming(es: Seq<(int, int, EdgeKind)>, a: int) -> Seq<(int, EdgeKind)>
    decreases es.len(),
{
    if es.len() == 0 {
        seq![]
    } else {
        let e = es.last();
        let rest = incoming(es.drop_last(), a);
        if e.1 == a {
            seq![(e.0, e.2)] + rest
        } else {
            rest
        }
    }
}

/// The positions of a sequence of `(node, kind)` pairs.
pub open spec fn pair_values(v: Seq<(NodeIndex, EdgeKind)>) -> Seq<(int, EdgeKind)> {
    v.map_values(|p: (NodeIndex, EdgeKind)| (node_index_value(p.0), p.1))
}

/// `Graph::edges_directed(a, Outgoing)`: for a directed graph, the edges that
/// leave `a` in reverse order of addition, taken as `(target, kind)`.
#[verifier::external_body]
pub(crate) fn out_edges(g: &Graph<Note, EdgeKind>, a: NodeIndex) -> (r: Vec<(NodeIndex, EdgeKind)>)
    ensures
        pair_values(r@) == outgoing(graph_edges(*g), node_index_value(a)),
{
    g.edges_directed(a, Direction::Outgoing).map(|e| (e.target(), *e.weight())).collect()
}

/// `Graph::edges_directed(a, Incoming)`: for a directed graph, the edges that
/// enter `a` in reverse order of addition, taken as `(source, kind)`.
#[verifier::external_body]
pub(crate) fn in_edges(g: &Graph<Note, EdgeKind>, a: NodeIndex) -> (r: Vec<(NodeIndex, EdgeKind)>)
    ensures
        pair_values(r@) == incoming(graph_edges(*g), node_index_value(a)),
{
    g.edges_directed(a, Direction::Incoming).map(|e| (e.source(), *e.weight())).collect()
}

} // verus!
