//! The directed graphs of `petgraph` that the networks are made of, as the
//! library sees them.
//!
//! A graph is seen as the sequence of its node weights (a node's index is its
//! position) and the sequence of its edges (source index, target index,
//! weight), in edge-index order. The order in which `edges_directed` lists the
//! edges at a node has a name of its own.
use vstd::prelude::*;
use std::collections::BTreeMap;
use petgraph::dot::{Config, Dot};
use petgraph::graph::{EdgeIndex, EdgeReference, NodeIndex};
use petgraph::visit::EdgeRef;
use petgraph::{Directed, Direction, Graph};

use crate::queries::{LineId, StationQid};

verus! {

/// `petgraph::Graph`, opaque: what the library knows of a graph is what the
/// names below and the contracts of the wrappers say.
#[verifier::external_type_specification]
#[verifier::external_body]
#[verifier::reject_recursive_types(N)]
#[verifier::reject_recursive_types(E)]
#[verifier::reject_recursive_types(Ty)]
#[verifier::reject_recursive_types(Ix)]
pub struct ExGraph<N, E, Ty, Ix>(Graph<N, E, Ty, Ix>);

/// `petgraph::Directed`, the edge type of the graphs, opaque.
#[verifier::external_type_specification]
#[verifier::external_body]
pub struct ExDirected(Directed);

/// The node weights of a station graph, by node index.
pub uninterp spec fn station_nodes(g: Graph<StationQid, LineId>) -> Seq<StationQid>;

/// The edges of a station graph (source, target, line), by edge index.
pub uninterp spec fn station_edges(g: Graph<StationQid, LineId>) -> Seq<(usize, usize, LineId)>;

/// What `edges_directed` lists at node `n` of a station graph, in its order:
/// the edges leaving `n` when `outgoing`, else the edges entering `n`.
pub uninterp spec fn station_edges_directed(
    g: Graph<StationQid, LineId>,
    n: usize,
    outgoing: bool,
) -> Seq<(usize, usize, LineId)>;

/// Every edge of the sequence joins two nodes among the first `nb_nodes`.
pub open spec fn edges_within<E>(edges: Seq<(usize, usize, E)>, nb_nodes: nat) -> bool {
    forall|i: int| 0 <= i < edges.len() ==> #[trigger] edges[i].0 < nb_nodes && edges[i].1 < nb_nodes
}

/// The edges of the sequence that leave `n` (when `outgoing`) or enter `n`.
pub open spec fn edges_at<E>(edges: Seq<(usize, usize, E)>, n: usize, outgoing: bool) -> Seq<(usize, usize, E)> {
    edges.filter(at_node(n, outgoing))
}

/// Whether an edge leaves (`outgoing`) or enters node `n`.
pub open spec fn at_node<E>(n: usize, outgoing: bool) -> spec_fn((usize, usize, E)) -> bool {
    |e: (usize, usize, E)| if outgoing { e.0 == n } else { e.1 == n }
}

/// The sequence with its element `i` replaced by its last element, and one
/// element shorter: what `Vec::swap_remove(i)` leaves.
pub open spec fn swap_removed<A>(s: Seq<A>, i: int) -> Seq<A> {
    s.update(i, s.last()).drop_last()
}

/// Where node `x` stands once node `n` is removed and the last node, `last`,
/// has taken its index.
pub open spec fn moved_index(x: usize, n: usize, last: usize) -> usize {
    if x == last {
        n
    } else {
        x
    }
}

/// The edges that remain once node `n` is removed and the last node, `last`,
/// has taken its index: those that do not touch `n`, renamed.
pub open spec fn edges_without_node<E>(edges: Seq<(usize, usize, E)>, n: usize, last: usize) -> Seq<
    (usize, usize, E),
> {
    edges.filter(off_node(n)).map_values(renamed(n, last))
}

/// Whether an edge touches neither end of node `n`.
pub open spec fn off_node<E>(n: usize) -> spec_fn((usize, usize, E)) -> bool {
    |e: (usize, usize, E)| e.0 != n && e.1 != n
}

/// An edge once the last node, `last`, has taken index `n`.
pub open spec fn renamed<E>(n: usize, last: usize) -> spec_fn((usize, usize, E)) -> (usize, usize, E) {
    |e: (usize, usize, E)| (moved_index(e.0, n, last), moved_index(e.1, n, last), e.2)
}

/// What holds of every station graph: its edges join its nodes, its indices
/// fit `u32`, and at every node `edges_directed` lists each edge leaving
/// (entering) it once.
pub open spec fn station_graph_wf(g: Graph<StationQid, LineId>) -> bool {
    &&& edges_within(station_edges(g), station_nodes(g).len())
    &&& station_nodes(g).len() <= u32::MAX
    &&& station_edges(g).len() <= u32::MAX
    &&& forall|n: usize, d: bool|
        #![trigger station_edges_directed(g, n, d)]
        station_edges_directed(g, n, d).to_multiset() == edges_at(station_edges(g), n, d).to_multiset()
}

/// `Graph::new`: a graph without nodes or edges.
#[verifier::external_body]
pub(crate) fn station_graph_new() -> (g: Graph<StationQid, LineId>)
    ensures
        station_nodes(g) == Seq::<StationQid>::empty(),
        station_edges(g) == Seq::<(usize, usize, LineId)>::empty(),
        forall|n: usize, d: bool|
            station_edges_directed(g, n, d) == Seq::<(usize, usize, LineId)>::empty(),
        station_graph_wf(g),
{
    Graph::new()
}

/// `Graph::node_count`: the number of nodes.
#[verifier::external_body]
pub(crate) fn station_node_count(g: &Graph<StationQid, LineId>) -> (r: usize)
    ensures
        r == station_nodes(*g).len(),
{
    g.node_count()
}

/// `Graph::edge_count`: the number of edges.
#[verifier::external_body]
pub(crate) fn station_edge_count(g: &Graph<StationQid, LineId>) -> (r: usize)
    ensures
        r == station_edges(*g).len(),
{
    g.edge_count()
}

/// `Graph::add_node`: appends a node, whose index is the former node count.
/// It panics when the count reaches `u32::MAX`, the end marker of the index
/// type.
#[verifier::external_body]
pub(crate) fn station_add_node(g: &mut Graph<StationQid, LineId>, w: StationQid) -> (r: usize)
    requires
        station_nodes(*old(g)).len() < u32::MAX,
    ensures
        r == station_nodes(*old(g)).len(),
        station_nodes(*final(g)) == station_nodes(*old(g)).push(w),
        station_edges(*final(g)) == station_edges(*old(g)),
        forall|n: usize, d: bool|
            #![trigger station_edges_directed(*final(g), n, d)]
            station_edges_directed(*final(g), n, d) == station_edges_directed(*old(g), n, d),
        station_graph_wf(*final(g)),
{
    g.add_node(w).index()
}

/// `Graph::add_edge`: appends the edge `a -> b` with weight `w`, and puts it
/// first in the outgoing list of `a` and the incoming list of `b` (the
/// documentation: "edges are listed in reverse order of their addition").
/// It panics when a node is missing or the edge count reaches `u32::MAX`.
#[verifier::external_body]
pub(crate) fn station_add_edge(g: &mut Graph<StationQid, LineId>, a: usize, b: usize, w: LineId)
    requires
        a < station_nodes(*old(g)).len(),
        b < station_nodes(*old(g)).len(),
        station_edges(*old(g)).len() < u32::MAX,
    ensures
        station_nodes(*final(g)) == station_nodes(*old(g)),
        station_edges(*final(g)) == station_edges(*old(g)).push((a, b, w)),
        forall|n: usize, d: bool|
            #![trigger station_edges_directed(*final(g), n, d)]
            station_edges_directed(*final(g), n, d) == if (d && n == a) || (!d && n == b) {
                seq![(a, b, w)] + station_edges_directed(*old(g), n, d)
            } else {
                station_edges_directed(*old(g), n, d)
            },
        station_graph_wf(*final(g)),
{
    g.add_edge(NodeIndex::new(a), NodeIndex::new(b), w);
}

/// `Graph::remove_node`: removes node `n` and every edge that touches it;
/// the last node takes index `n`. The order of the remaining edges is left
/// unsaid here (it follows from how `remove_edge` swaps edges), only which
/// edges remain.
#[verifier::external_body]
pub(crate) fn station_remove_node(g: &mut Graph<StationQid, LineId>, n: usize)
    requires
        n < station_nodes(*old(g)).len(),
    ensures
        station_nodes(*final(g)) == swap_removed(station_nodes(*old(g)), n as int),
        station_edges(*final(g)).to_multiset() == edges_without_node(
            station_edges(*old(g)),
            n,
            (station_nodes(*old(g)).len() - 1) as usize,
        ).to_multiset(),
        station_graph_wf(*final(g)),
{
    g.remove_node(NodeIndex::new(n));
}

/// `graph[node]`: the weight of node `n`, which must exist.
#[verifier::external_body]
pub(crate) fn station_node_weight(g: &Graph<StationQid, LineId>, n: usize) -> (r: StationQid)
    requires
        n < station_nodes(*g).len(),
    ensures
        r == station_nodes(*g)[n as int],
{
    g[NodeIndex::new(n)]
}

/// `Graph::edge_endpoints`: source and target of edge `e`, which must exist.
#[verifier::external_body]
pub(crate) fn station_edge_endpoints(g: &Graph<StationQid, LineId>, e: usize) -> (r: (usize, usize))
    requires
        e < station_edges(*g).len(),
    ensures
        r.0 == station_edges(*g)[e as int].0,
        r.1 == station_edges(*g)[e as int].1,
{
    let (a, b) = g.edge_endpoints(EdgeIndex::new(e)).unwrap();
    (a.index(), b.index())
}

/// `graph[edge]`: the weight of edge `e`, which must exist.
#[verifier::external_body]
pub(crate) fn station_edge_weight(g: &Graph<StationQid, LineId>, e: usize) -> (r: LineId)
    requires
        e < station_edges(*g).len(),
    ensures
        r == station_edges(*g)[e as int].2,
{
    g[EdgeIndex::new(e)]
}

/// `Graph::edges_directed`: the edges leaving (`outgoing`) or entering node
/// `n`, each as (source, target, weight), in the order the graph lists them.
#[verifier::external_body]
pub(crate) fn station_edges_directed_at(g: &Graph<StationQid, LineId>, n: usize, outgoing: bool) -> (r: Vec<
    (usize, usize, LineId),
>)
    requires
        n < station_nodes(*g).len(),
    ensures
        r@ == station_edges_directed(*g, n, outgoing),
{
    let dir = if outgoing { Direction::Outgoing } else { Direction::Incoming };
    g.edges_directed(NodeIndex::new(n), dir).map(|e| (e.source().index(), e.target().index(), *e.weight())).collect()
}

/// The node weights of a line graph, by node index.
pub uninterp spec fn line_nodes(g: Graph<LineId, StationQid>) -> Seq<LineId>;

/// The edges of a line graph (source, target, station), by edge index.
pub uninterp spec fn line_edges(g: Graph<LineId, StationQid>) -> Seq<(usize, usize, StationQid)>;

/// What `neighbors` lists at node `n` of a line graph, in its order: the
/// targets of the edges leaving `n`.
pub uninterp spec fn line_neighbors(g: Graph<LineId, StationQid>, n: usize) -> Seq<usize>;

/// What holds of every line graph: its edges join its nodes, its indices fit
/// `u32`, and at every node `neighbors` lists the target of each edge
/// leaving it once.
pub open spec fn line_graph_wf(g: Graph<LineId, StationQid>) -> bool {
    &&& edges_within(line_edges(g), line_nodes(g).len())
    &&& line_nodes(g).len() <= u32::MAX
    &&& line_edges(g).len() <= u32::MAX
    &&& forall|n: usize|
        #![trigger line_neighbors(g, n)]
        line_neighbors(g, n).to_multiset() == edges_at(line_edges(g), n, true).map_values(
            |e: (usize, usize, StationQid)| e.1,
        ).to_multiset()
}

/// `Graph::new`: a graph without nodes or edges.
#[verifier::external_body]
pub(crate) fn line_graph_new() -> (g: Graph<LineId, StationQid>)
    ensures
        line_nodes(g) == Seq::<LineId>::empty(),
        line_edges(g) == Seq::<(usize, usize, StationQid)>::empty(),
        forall|n: usize| line_neighbors(g, n) == Seq::<usize>::empty(),
        line_graph_wf(g),
{
    Graph::new()
}

/// `Graph::node_count`: the number of nodes.
#[verifier::external_body]
pub(crate) fn line_node_count(g: &Graph<LineId, StationQid>) -> (r: usize)
    ensures
        r == line_nodes(*g).len(),
{
    g.node_count()
}

/// `Graph::edge_count`: the number of edges.
#[verifier::external_body]
pub(crate) fn line_edge_count(g: &Graph<LineId, StationQid>) -> (r: usize)
    ensures
        r == line_edges(*g).len(),
{
    g.edge_count()
}

/// `graph[edge]`: the weight of edge `e`, which must exist.
#[verifier::external_body]
pub(crate) fn line_edge_weight(g: &Graph<LineId, StationQid>, e: usize) -> (r: StationQid)
    requires
        e < line_edges(*g).len(),
    ensures
        r == line_edges(*g)[e as int].2,
{
    g[EdgeIndex::new(e)]
}

/// `Graph::add_node`: appends a node, whose index is the former node count.
/// It panics when the count reaches `u32::MAX`.
#[verifier::external_body]
pub(crate) fn line_add_node(g: &mut Graph<LineId, StationQid>, w: LineId) -> (r: usize)
    requires
        line_nodes(*old(g)).len() < u32::MAX,
    ensures
        r == line_nodes(*old(g)).len(),
        line_nodes(*final(g)) == line_nodes(*old(g)).push(w),
        line_edges(*final(g)) == line_edges(*old(g)),
        forall|n: usize| #[trigger] line_neighbors(*final(g), n) == line_neighbors(*old(g), n),
        line_graph_wf(*final(g)),
{
    g.add_node(w).index()
}

/// `Graph::add_edge`: appends the edge `a -> b` with weight `w`, and lists
/// `b` first among the neighbors of `a` (the documentation: "neighbors are
/// listed in reverse order of their addition"). It panics when a node is
/// missing or the edge count reaches `u32::MAX`.
#[verifier::external_body]
pub(crate) fn line_add_edge(g: &mut Graph<LineId, StationQid>, a: usize, b: usize, w: StationQid)
    requires
        a < line_nodes(*old(g)).len(),
        b < line_nodes(*old(g)).len(),
        line_edges(*old(g)).len() < u32::MAX,
    ensures
        line_nodes(*final(g)) == line_nodes(*old(g)),
        line_edges(*final(g)) == line_edges(*old(g)).push((a, b, w)),
        forall|n: usize| #[trigger]
            line_neighbors(*final(g), n) == if n == a {
                seq![b] + line_neighbors(*old(g), n)
            } else {
                line_neighbors(*old(g), n)
            },
        line_graph_wf(*final(g)),
{
    g.add_edge(NodeIndex::new(a), NodeIndex::new(b), w);
}

/// `graph[node]`: the weight of node `n`, which must exist.
#[verifier::external_body]
pub(crate) fn line_node_weight(g: &Graph<LineId, StationQid>, n: usize) -> (r: LineId)
    requires
        n < line_nodes(*g).len(),
    ensures
        r == line_nodes(*g)[n as int],
{
    g[NodeIndex::new(n)]
}

/// `Graph::neighbors`: the targets of the edges leaving node `n`, in the
/// order the graph lists them.
#[verifier::external_body]
pub(crate) fn line_neighbors_at(g: &Graph<LineId, StationQid>, n: usize) -> (r: Vec<usize>)
    requires
        n < line_nodes(*g).len(),
    ensures
        r@ == line_neighbors(*g, n),
{
    g.neighbors(NodeIndex::new(n)).map(|m| m.index()).collect()
}

/// The Graphviz text `Dot` writes for a station graph without edge labels:
/// each node labelled by the text `labels` gives its station's entity
/// number and carrying the attributes `node_attrs` gives it, each edge
/// carrying the attributes `edge_attrs` gives it by edge index.
pub uninterp spec fn station_dot_text(
    nodes: Seq<StationQid>,
    edges: Seq<(usize, usize, LineId)>,
    labels: Map<u32, Seq<char>>,
    node_attrs: Map<u32, Seq<char>>,
    edge_attrs: Seq<Seq<char>>,
) -> Seq<char>;

/// `Dot::with_attr_getters` with `Config::EdgeNoLabel`, then `graph_fmt`:
/// the drawing of a station graph, each node labelled and given attributes
/// by its station's entity number, each edge given attributes by its index.
/// Every station must have a label and attributes, and every edge
/// attributes, else the lookups panic. The text is named
/// `station_dot_text`, of the graph's nodes and edges and of the texts.
#[verifier::external_body]
pub(crate) fn station_dot(
    g: &Graph<StationQid, LineId>,
    labels: &BTreeMap<u32, String>,
    node_attrs: &BTreeMap<u32, String>,
    edge_attrs: &Vec<String>,
) -> (r: String)
    requires
        forall|i: int|
            0 <= i < station_nodes(*g).len() ==> labels@.contains_key(#[trigger] station_nodes(*g)[i].0.0)
                && node_attrs@.contains_key(station_nodes(*g)[i].0.0),
        edge_attrs@.len() == station_edges(*g).len(),
    ensures
        r@ == station_dot_text(
            station_nodes(*g),
            station_edges(*g),
            labels@.map_values(|t: String| t@),
            node_attrs@.map_values(|t: String| t@),
            edge_attrs@.map_values(|t: String| t@),
        ),
{
    let node_attrs_of = |_g: &Graph<StationQid, LineId>, n: (NodeIndex, &StationQid)| node_attrs[&n.1.0.0].clone();
    let edge_attrs_of = |_g: &Graph<StationQid, LineId>, e: EdgeReference<'_, LineId>| edge_attrs[e.id().index()].clone();
    let dot = Dot::with_attr_getters(g, &[Config::EdgeNoLabel], &edge_attrs_of, &node_attrs_of);
    std::fmt::from_fn(|f| dot.graph_fmt(f, |w, f| f.write_str(&labels[&w.0.0]), |_, _| Ok(()))).to_string()
}

/// The Graphviz text `Dot` writes for a line graph without node or edge
/// labels: each node carrying the attributes `node_attrs` gives it by node
/// index, each edge those `edge_attrs` gives it by edge index.
pub uninterp spec fn line_dot_text(
    nodes: Seq<LineId>,
    edges: Seq<(usize, usize, StationQid)>,
    node_attrs: Seq<Seq<char>>,
    edge_attrs: Seq<Seq<char>>,
) -> Seq<char>;

/// `Dot::with_attr_getters` with `Config::NodeNoLabel` and
/// `Config::EdgeNoLabel`, then `graph_fmt`: the drawing of a line graph,
/// each node and edge given attributes by its index (with no labels
/// written, the label writers are never called). Every node and edge must
/// have attributes, else the lookups panic. The text is named
/// `line_dot_text`, of the graph's nodes and edges and of the attributes.
#[verifier::external_body]
pub(crate) fn line_dot(g: &Graph<LineId, StationQid>, node_attrs: &Vec<String>, edge_attrs: &Vec<String>) -> (r: String)
    requires
        node_attrs@.len() == line_nodes(*g).len(),
        edge_attrs@.len() == line_edges(*g).len(),
    ensures
        r@ == line_dot_text(
            line_nodes(*g),
            line_edges(*g),
            node_attrs@.map_values(|t: String| t@),
            edge_attrs@.map_values(|t: String| t@),
        ),
{
    let node_attrs_of = |_g: &Graph<LineId, StationQid>, n: (NodeIndex, &LineId)| node_attrs[n.0.index()].clone();
    let edge_attrs_of = |_g: &Graph<LineId, StationQid>, e: EdgeReference<'_, StationQid>| edge_attrs[e.id().index()].clone();
    let dot = Dot::with_attr_getters(g, &[Config::NodeNoLabel, Config::EdgeNoLabel], &edge_attrs_of, &node_attrs_of);
    std::fmt::from_fn(|f| dot.graph_fmt(f, |_, _| Ok(()), |_, _| Ok(()))).to_string()
}

} // verus!
