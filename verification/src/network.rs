//! The station graph of a subway network, its stripping down to the stations
//! that matter, and the line graph derived from it.
use vstd::prelude::*;
use std::collections::BTreeMap;
use std::collections::HashMap;
use vstd::std_specs::iter::IteratorSpec;
use vstd::std_specs::cmp::OrdSpec;
use vstd::multiset::Multiset;
use petgraph::Graph;

use crate::graph::{line_add_edge, line_add_node, line_edges, line_graph_new, line_graph_wf, line_nodes, station_edge_count, station_edge_endpoints, station_edge_weight, station_node_weight, station_node_count, station_remove_node, edges_within, edges_without_node, moved_index, off_node, station_edges_directed_at, edges_at, swap_removed, station_edges_directed, station_add_edge, station_add_node, station_edges, station_graph_new, station_graph_wf, station_nodes};
use crate::queries::{lemma_line_id_byte, lemma_line_id_view_eq, Connection, LineId, Qid, StationQid, SubwayData};

verus! {

broadcast use vstd::std_specs::btree::group_btree_axioms, vstd::laws_cmp::group_laws_cmp;

/// A subway network: one node per station, one edge per connection, weighted
/// by the line of the connection.
pub struct Network {
    pub graph: Graph<StationQid, LineId>,
}

/// The entity numbers of a sequence of stations.
pub open spec fn station_ids(nodes: Seq<StationQid>) -> Seq<u32> {
    nodes.map_values(|q: StationQid| q.0.0)
}

/// The sequence lists the numbers of `dom` in increasing order.
pub open spec fn sorted_listing(s: Seq<u32>, dom: Set<u32>) -> bool {
    &&& forall|i: int, j: int| 0 <= i < j < s.len() ==> s[i] < s[j]
    &&& s.to_set() == dom
}

/// The numbers of a set in increasing order.
pub open spec fn sorted_ids(dom: Set<u32>) -> Seq<u32> {
    choose|s: Seq<u32>| sorted_listing(s, dom)
}

/// An increasing listing of a set is the one `sorted_ids` names.
pub proof fn lemma_sorted_ids(s: Seq<u32>, dom: Set<u32>)
    requires
        sorted_listing(s, dom),
    ensures
        sorted_ids(dom) == s,
{
    let t = sorted_ids(dom);
    assert(sorted_listing(t, dom));
    lemma_sorted_listing_unique(s, t, dom);
}

/// A set of entity numbers has one increasing listing.
pub proof fn lemma_sorted_listing_unique(s: Seq<u32>, t: Seq<u32>, dom: Set<u32>)
    requires
        sorted_listing(s, dom),
        sorted_listing(t, dom),
    ensures
        s == t,
    decreases s.len(),
{
    if s.len() == 0 {
        if t.len() > 0 {
            assert(t.contains(t[0]));
            assert(t.to_set().contains(t[0]));
            assert(s.to_set().contains(t[0]));
        }
        assert(s =~= t);
    } else {
        assert(s.contains(s[0]));
        assert(t.to_set().contains(s[0]));
        let j = choose|j: int| 0 <= j < t.len() && t[j] == s[0];
        assert(t.contains(t[0]));
        assert(s.to_set().contains(t[0]));
        let i = choose|i: int| 0 <= i < s.len() && s[i] == t[0];
        assert(s[0] <= s[i]);
        assert(t[0] <= t[j]);
        assert(s[0] == t[0]);
        let x = s[0];
        let d1 = dom.remove(x);
        let s1 = s.drop_first();
        let t1 = t.drop_first();
        assert forall|y: u32| s1.to_set().contains(y) <==> d1.contains(y) by {
            if s1.to_set().contains(y) {
                assert(s1.contains(y));
                let k = choose|k: int| 0 <= k < s1.len() && s1[k] == y;
                assert(s[k + 1] == y);
                assert(s.contains(y));
                assert(x < y);
            }
            if d1.contains(y) {
                assert(s.to_set().contains(y));
                let k = choose|k: int| 0 <= k < s.len() && s[k] == y;
                assert(k != 0);
                assert(s1[k - 1] == y);
                assert(s1.contains(y));
            }
        }
        assert forall|y: u32| t1.to_set().contains(y) <==> d1.contains(y) by {
            if t1.to_set().contains(y) {
                assert(t1.contains(y));
                let k = choose|k: int| 0 <= k < t1.len() && t1[k] == y;
                assert(t[k + 1] == y);
                assert(t.contains(y));
                assert(x < y);
            }
            if d1.contains(y) {
                assert(t.to_set().contains(y));
                let k = choose|k: int| 0 <= k < t.len() && t[k] == y;
                assert(k != 0);
                assert(t1[k - 1] == y);
                assert(t1.contains(y));
            }
        }
        assert(s1.to_set() =~= d1);
        assert(t1.to_set() =~= d1);
        lemma_sorted_listing_unique(s1, t1, d1);
        assert(s =~= t) by {
            assert forall|k: int| 0 <= k < s.len() implies s[k] == t[k] by {
                if k > 0 {
                    assert(s[k] == s1[k - 1]);
                    assert(t[k] == t1[k - 1]);
                }
            }
        }
    }
}

/// The position of the station with entity number `id` among the nodes.
pub open spec fn node_of(nodes: Seq<StationQid>, id: u32) -> int {
    choose|j: int| 0 <= j < nodes.len() && nodes[j].0.0 == id
}

/// The edge a connection becomes among the given nodes.
pub open spec fn connection_edge(nodes: Seq<StationQid>, line_map: Map<u32, LineId>, c: Connection) -> (
    usize,
    usize,
    LineId,
) {
    (
        node_of(nodes, c.station_qid.0.0) as usize,
        node_of(nodes, c.adjacent_station_qid.0.0) as usize,
        line_map[c.line_qid.0.0],
    )
}

/// In a strictly increasing listing, the position of an entity number is
/// the one where it stands.
proof fn lemma_node_of_sorted(nodes: Seq<StationQid>, j: int)
    requires
        forall|a: int, b: int| 0 <= a < b < nodes.len() ==> nodes[a].0.0 < nodes[b].0.0,
        0 <= j < nodes.len(),
    ensures
        node_of(nodes, nodes[j].0.0) == j,
{
    let id = nodes[j].0.0;
    assert(0 <= j < nodes.len() && nodes[j].0.0 == id);
    let c = node_of(nodes, id);
    if c < j {
        assert(nodes[c].0.0 < nodes[j].0.0);
    } else if c > j {
        assert(nodes[j].0.0 < nodes[c].0.0);
    }
}

/// Keys listed in increasing order are strictly increasing numbers.
pub proof fn lemma_increasing_keys(s: Seq<&u32>, a: int, b: int)
    requires
        vstd::std_specs::btree::increasing_seq(s),
        0 <= a < b < s.len(),
    ensures
        *s[a] < *s[b],
{
    assert(vstd::laws_cmp::obeys_cmp::<u32>());
    assert(vstd::laws_cmp::obeys_cmp::<&u32>());
    vstd::std_specs::btree::axiom_increasing_seq_meaning(s);
    assert(OrdSpec::cmp_spec(&s[a], &s[b]) is Less);
}

impl Network {
    /// The network of the data: its stations as nodes, in increasing entity
    /// order, and one edge per connection, in the order of the connections.
    /// Every connection must name known stations and a known line.
    pub fn from_data(data: &SubwayData) -> (r: Network)
        requires
            data.connections_known(),
            data.stations@.dom().len() < u32::MAX,
            data.connections@.len() < u32::MAX,
        ensures
            sorted_listing(station_ids(station_nodes(r.graph)), data.stations@.dom()),
            station_edges(r.graph) == data.connections@.map_values(
                |c: Connection| connection_edge(station_nodes(r.graph), data.line_map@, c),
            ),
            r.wf(),
    {
        let mut station_index: BTreeMap<u32, usize> = BTreeMap::new();
        let mut graph = station_graph_new();

        // Collect all stations
        for k in iter: data.stations.keys()
            invariant
                iter.seq() == vstd::std_specs::btree::spec_keys_iter(&data.stations).remaining(),
                data.stations@.dom().len() < u32::MAX,
                iter.seq().len() == data.stations@.dom().len(),
                station_graph_wf(graph),
                station_edges(graph).len() == 0,
                station_nodes(graph).len() == iter.index(),
                station_ids(station_nodes(graph)) == iter.seq().take(iter.index()).unref(),
                vstd::std_specs::btree::increasing_seq(iter.seq()),
                forall|a: int, b: int| 0 <= a < b < station_nodes(graph).len() ==> station_nodes(graph)[a].0.0 < station_nodes(graph)[b].0.0,
                forall|id: u32| #[trigger] station_index@.contains_key(id) <==> station_ids(station_nodes(graph)).contains(id),
                forall|id: u32| #[trigger] station_index@.contains_key(id) ==> {
                    &&& station_index@[id] < station_nodes(graph).len()
                    &&& station_nodes(graph)[station_index@[id] as int].0.0 == id
                },
            ensures
                station_ids(station_nodes(graph)) == iter.seq().unref(),
                forall|a: int, b: int| 0 <= a < b < station_nodes(graph).len() ==> station_nodes(graph)[a].0.0 < station_nodes(graph)[b].0.0,
        {
            let ghost i0 = iter.index();
            let ghost nodes0 = station_nodes(graph);
            assert(*k == *iter.seq()[i0]);
            assert forall|a: int| 0 <= a < i0 implies *iter.seq()[a] < *k by {
                lemma_increasing_keys(iter.seq(), a, i0);
            }
            let idx = station_add_node(&mut graph, StationQid(Qid(*k)));
            station_index.insert(*k, idx);
            proof {
                assert(station_ids(station_nodes(graph)) =~= station_ids(nodes0).push(*k));
                assert(iter.seq().take(i0 + 1).unref() =~= iter.seq().take(i0).unref().push(*k));
                assert(station_ids(station_nodes(graph))[i0] == *k);
                assert forall|a: int| 0 <= a < i0 implies station_nodes(graph)[a].0.0 == *iter.seq()[a] by {
                    assert(station_ids(nodes0)[a] == iter.seq().take(i0).unref()[a]);
                }
                assert forall|a: int, b: int| 0 <= a < b < station_nodes(graph).len() implies station_nodes(graph)[a].0.0 < station_nodes(graph)[b].0.0 by {
                    if b < i0 {
                        assert(station_nodes(graph)[a] == nodes0[a]);
                        assert(station_nodes(graph)[b] == nodes0[b]);
                    } else {
                        assert(station_nodes(graph)[a].0.0 == *iter.seq()[a]);
                    }
                }
                assert forall|id: u32| #[trigger] station_index@.contains_key(id) <==> station_ids(station_nodes(graph)).contains(id) by {
                    if station_ids(nodes0).contains(id) {
                        let w = choose|w: int| 0 <= w < station_ids(nodes0).len() && station_ids(nodes0)[w] == id;
                        assert(station_ids(station_nodes(graph))[w] == id);
                    }
                    if station_ids(station_nodes(graph)).contains(id) && id != *k {
                        let w = choose|w: int| 0 <= w < station_ids(station_nodes(graph)).len() && station_ids(station_nodes(graph))[w] == id;
                        assert(station_ids(nodes0)[w] == id);
                    }
                }
            }
        }
        let ghost nodes = station_nodes(graph);
        proof {
        }

        // Link stations
        let mut i: usize = 0;
        while i < data.connections.len()
            invariant
                data.connections_known(),
                data.connections@.len() < u32::MAX,
                i <= data.connections@.len(),
                station_graph_wf(graph),
                station_nodes(graph) == nodes,
                forall|a: int, b: int| 0 <= a < b < nodes.len() ==> nodes[a].0.0 < nodes[b].0.0,
                forall|id: u32| #[trigger] station_index@.contains_key(id) <==> station_ids(nodes).contains(id),
                forall|id: u32| #[trigger] station_index@.contains_key(id) ==> {
                    &&& station_index@[id] < nodes.len()
                    &&& nodes[station_index@[id] as int].0.0 == id
                },
                station_ids(nodes).to_set() == data.stations@.dom(),
                station_edges(graph) == data.connections@.take(i as int).map_values(
                    |c: Connection| connection_edge(nodes, data.line_map@, c),
                ),
            decreases data.connections@.len() - i,
        {
            let c = &data.connections[i];
            proof {
                assert(data.stations@.contains_key(c.station_qid.0.0));
                assert(station_ids(nodes).to_set().contains(c.station_qid.0.0));
                assert(station_ids(nodes).to_set().contains(c.adjacent_station_qid.0.0));
            }
            let a = *station_index.get(&c.station_qid.0.0).unwrap();
            let b = *station_index.get(&c.adjacent_station_qid.0.0).unwrap();
            let l = *data.line_map.get(&c.line_qid.0.0).unwrap();
            let ghost edges0 = station_edges(graph);
            station_add_edge(&mut graph, a, b, l);
            proof {
                lemma_node_of_sorted(nodes, a as int);
                lemma_node_of_sorted(nodes, b as int);
                assert(data.connections@.take(i + 1) =~= data.connections@.take(i as int).push(*c));
            }
            i = i + 1;
        }
        proof {
            assert(data.connections@.take(i as int) =~= data.connections@);
            assert forall|a: int, b: int| 0 <= a < nodes.len() && 0 <= b < nodes.len() && a != b implies nodes[a]
                != nodes[b] by {
                if a < b {
                    assert(nodes[a].0.0 < nodes[b].0.0);
                } else {
                    assert(nodes[b].0.0 < nodes[a].0.0);
                }
            }
        }
        Network { graph }
    }
}

/// An edge named by the stations it joins: (source, target, line).
pub type StationEdge = (StationQid, StationQid, LineId);

/// The edge `e` of a graph whose nodes are `nodes`, named by its stations.
pub open spec fn label_edge(nodes: Seq<StationQid>, e: (usize, usize, LineId)) -> StationEdge {
    (nodes[e.0 as int], nodes[e.1 as int], e.2)
}

/// The edges of a graph, named by their stations.
pub open spec fn station_edge_multiset(nodes: Seq<StationQid>, edges: Seq<(usize, usize, LineId)>) -> Multiset<
    StationEdge,
> {
    edges.map_values(labeller(nodes)).to_multiset()
}

/// Names an edge by its stations.
pub open spec fn labeller(nodes: Seq<StationQid>) -> spec_fn((usize, usize, LineId)) -> StationEdge {
    |e: (usize, usize, LineId)| label_edge(nodes, e)
}

/// Whether edge `le` starts or ends at station `s`.
pub open spec fn touches(le: StationEdge, s: StationQid) -> bool {
    le.0 == s || le.1 == s
}

/// The station at the other end of an edge of `s`.
pub open spec fn far_end(le: StationEdge, s: StationQid) -> StationQid {
    if le.1 == s {
        le.0
    } else {
        le.1
    }
}

/// No edge touches `s`.
pub open spec fn isolated(edges: Multiset<StationEdge>, s: StationQid) -> bool {
    forall|le: StationEdge| #[trigger] edges.contains(le) ==> !touches(le, s)
}

/// Every edge of `s` joins it to `t` along line `l`.
pub open spec fn single_neighbor(edges: Multiset<StationEdge>, s: StationQid, t: StationQid, l: LineId) -> bool {
    forall|le: StationEdge| #[trigger] edges.contains(le) && touches(le, s) ==> far_end(le, s) == t && le.2 == l
}

/// Every edge of `t` is on line `l`.
pub open spec fn all_on_line(edges: Multiset<StationEdge>, t: StationQid, l: LineId) -> bool {
    forall|le: StationEdge| #[trigger] edges.contains(le) && touches(le, t) ==> le.2 == l
}

/// A station is a line end, irrelevant to riding every line, when nothing
/// reaches it, or when it hangs off a single neighbor along a single line and
/// that neighbor serves that line alone.
pub open spec fn is_line_end(edges: Multiset<StationEdge>, s: StationQid) -> bool {
    ||| isolated(edges, s)
    ||| exists|t: StationQid, l: LineId| single_neighbor(edges, s, t, l) && all_on_line(edges, t, l)
}

/// The edges that remain once station `s` is gone.
pub open spec fn without_station(edges: Multiset<StationEdge>, s: StationQid) -> Multiset<StationEdge> {
    edges.filter(away_from(s))
}

/// Whether an edge does not touch station `s`.
pub open spec fn away_from(s: StationQid) -> spec_fn(StationEdge) -> bool {
    |le: StationEdge| !touches(le, s)
}

/// The first position from `i` on whose station is a line end, or the
/// length when there is none.
pub open spec fn first_line_end(nodes: Seq<StationQid>, edges: Multiset<StationEdge>, i: int) -> int
    decreases nodes.len() - i,
{
    if i < 0 || i >= nodes.len() {
        nodes.len() as int
    } else if is_line_end(edges, nodes[i]) {
        i
    } else {
        first_line_end(nodes, edges, i + 1)
    }
}

/// Repeatedly removes the first line end, the last station taking its
/// place, until none is left: the stations and edges that remain, and the
/// number of stations removed.
pub open spec fn stripped(nodes: Seq<StationQid>, edges: Multiset<StationEdge>) -> (Seq<StationQid>, Multiset<StationEdge>, nat)
    decreases nodes.len(),
{
    let n = first_line_end(nodes, edges, 0);
    if 0 <= n < nodes.len() {
        let r = stripped(swap_removed(nodes, n), without_station(edges, nodes[n]));
        (r.0, r.1, r.2 + 1)
    } else {
        (nodes, edges, 0)
    }
}

/// The (neighbor, line) pairs that the lists of edges entering and leaving a
/// node give, entering first.
pub open spec fn neighbor_pairs(ins: Seq<(usize, usize, LineId)>, outs: Seq<(usize, usize, LineId)>) -> Seq<(usize, LineId)> {
    ins.map_values(|e: (usize, usize, LineId)| (e.0, e.2)) + outs.map_values(|e: (usize, usize, LineId)| (e.1, e.2))
}

/// What the neighbors of a node amount to.
enum LineNeighbors {
    Nothing,
    One { neighbor: usize, line: LineId },
    Many,
}

/// Sums up a list of (neighbor, line) pairs: empty, all equal to one pair,
/// or holding two different pairs.
fn line_neighbors(pairs: &Vec<(usize, LineId)>) -> (r: LineNeighbors)
    ensures
        match r {
            LineNeighbors::Nothing => pairs@.len() == 0,
            LineNeighbors::One { neighbor, line } => pairs@.len() > 0 && forall|k: int|
                0 <= k < pairs@.len() ==> #[trigger] pairs@[k] == (neighbor, line),
            LineNeighbors::Many => exists|a: int, b: int|
                0 <= a < pairs@.len() && 0 <= b < pairs@.len() && #[trigger] pairs@[a] != #[trigger] pairs@[b],
        },
{
    let mut acc = LineNeighbors::Nothing;
    let mut k: usize = 0;
    while k < pairs.len()
        invariant
            k <= pairs@.len(),
            match acc {
                LineNeighbors::Nothing => k == 0,
                LineNeighbors::One { neighbor, line } => k > 0 && forall|j: int|
                    0 <= j < k ==> #[trigger] pairs@[j] == (neighbor, line),
                LineNeighbors::Many => exists|a: int, b: int|
                    0 <= a < pairs@.len() && 0 <= b < pairs@.len() && #[trigger] pairs@[a] != #[trigger] pairs@[b],
            },
        decreases pairs@.len() - k,
    {
        let (neighbor, line) = pairs[k];
        proof {
            lemma_line_id_view_eq(pairs@[0].1, line);
        }
        acc = match acc {
            LineNeighbors::Nothing => LineNeighbors::One { neighbor, line },
            LineNeighbors::One { neighbor: cur_neighbor, line: cur_line } => {
                if cur_neighbor == neighbor && cur_line == line {
                    LineNeighbors::One { neighbor: cur_neighbor, line: cur_line }
                } else {
                    assert(pairs@[0] != pairs@[k as int]);
                    LineNeighbors::Many
                }
            },
            LineNeighbors::Many => LineNeighbors::Many,
        };
        k = k + 1;
    }
    acc
}

/// The edges entering or leaving node `n` of a graph are its edges that
/// end or start at `n`.
pub(crate) proof fn lemma_directed_member(g: Graph<StationQid, LineId>, n: usize, d: bool, e: (usize, usize, LineId))
    requires
        station_graph_wf(g),
    ensures
        station_edges_directed(g, n, d).contains(e) <==> station_edges(g).contains(e) && (if d {
            e.0 == n
        } else {
            e.1 == n
        }),
{
    broadcast use vstd::seq_lib::group_to_multiset_ensures;
    let l = station_edges_directed(g, n, d);
    let at = edges_at(station_edges(g), n, d);
    assert(l.to_multiset() == at.to_multiset());
    assert(l.contains(e) <==> l.to_multiset().count(e) > 0);
    assert(at.contains(e) <==> at.to_multiset().count(e) > 0);
    crate::lemmas::lemma_filter_member(station_edges(g), crate::graph::at_node(n, d), e);
}

/// An edge of the graph, named by its stations, is one of the station edges.
proof fn lemma_label_member(nodes: Seq<StationQid>, edges: Seq<(usize, usize, LineId)>, le: StationEdge)
    ensures
        station_edge_multiset(nodes, edges).contains(le) <==> exists|i: int|
            0 <= i < edges.len() && #[trigger] label_edge(nodes, edges[i]) == le,
{
    broadcast use vstd::seq_lib::group_to_multiset_ensures;
    let m = edges.map_values(labeller(nodes));
    assert(m.contains(le) <==> m.to_multiset().count(le) > 0);
    if m.contains(le) {
        let i = choose|i: int| 0 <= i < m.len() && m[i] == le;
        assert(label_edge(nodes, edges[i]) == le);
    }
    if exists|i: int| 0 <= i < edges.len() && #[trigger] label_edge(nodes, edges[i]) == le {
        let i = choose|i: int| 0 <= i < edges.len() && #[trigger] label_edge(nodes, edges[i]) == le;
        assert(m[i] == le);
    }
}

/// The edge behind pair `k` of `neighbor_pairs(ins, outs)`, named by its
/// stations.
pub open spec fn pair_edge(
    nodes: Seq<StationQid>,
    ins: Seq<(usize, usize, LineId)>,
    outs: Seq<(usize, usize, LineId)>,
    k: int,
) -> StationEdge {
    label_edge(nodes, (ins + outs)[k])
}

/// The pairs of the edges entering and leaving node `n` are exactly the
/// (far end, line) of the station edges of `nodes[n]`.
proof fn lemma_incident(g: Graph<StationQid, LineId>, n: usize)
    requires
        station_graph_wf(g),
        station_nodes(g).no_duplicates(),
        n < station_nodes(g).len(),
    ensures
        ({
            let nodes = station_nodes(g);
            let ins = station_edges_directed(g, n, false);
            let outs = station_edges_directed(g, n, true);
            let pairs = neighbor_pairs(ins, outs);
            let lab = station_edge_multiset(nodes, station_edges(g));
            let s = nodes[n as int];
            &&& forall|k: int|
                0 <= k < pairs.len() ==> {
                    &&& #[trigger] pairs[k].0 < nodes.len()
                    &&& lab.contains(pair_edge(nodes, ins, outs, k))
                    &&& touches(pair_edge(nodes, ins, outs, k), s)
                    &&& far_end(pair_edge(nodes, ins, outs, k), s) == nodes[pairs[k].0 as int]
                    &&& pair_edge(nodes, ins, outs, k).2 == pairs[k].1
                }
            &&& forall|le: StationEdge|
                #[trigger] lab.contains(le) && touches(le, s) ==> exists|k: int|
                    0 <= k < pairs.len() && far_end(le, s) == nodes[#[trigger] pairs[k].0 as int] && le.2 == pairs[k].1
        }),
{
    let nodes = station_nodes(g);
    let edges = station_edges(g);
    let ins = station_edges_directed(g, n, false);
    let outs = station_edges_directed(g, n, true);
    let pairs = neighbor_pairs(ins, outs);
    let lab = station_edge_multiset(nodes, edges);
    let s = nodes[n as int];
    assert forall|k: int| 0 <= k < pairs.len() implies {
        &&& #[trigger] pairs[k].0 < nodes.len()
        &&& lab.contains(pair_edge(nodes, ins, outs, k))
        &&& touches(pair_edge(nodes, ins, outs, k), s)
        &&& far_end(pair_edge(nodes, ins, outs, k), s) == nodes[pairs[k].0 as int]
        &&& pair_edge(nodes, ins, outs, k).2 == pairs[k].1
    } by {
        let e = (ins + outs)[k];
        let d = k >= ins.len();
        if d {
            assert(outs.contains(e)) by {
                assert(outs[k - ins.len()] == e);
            }
        } else {
            assert(ins.contains(e)) by {
                assert(ins[k] == e);
            }
        }
        lemma_directed_member(g, n, d, e);
        let i = choose|i: int| 0 <= i < edges.len() && edges[i] == e;
        assert(e.0 < nodes.len() && e.1 < nodes.len());
        lemma_label_member(nodes, edges, label_edge(nodes, e));
        assert(label_edge(nodes, edges[i]) == label_edge(nodes, e));
    }
    assert forall|le: StationEdge| #[trigger] lab.contains(le) && touches(le, s) implies exists|k: int|
        0 <= k < pairs.len() && far_end(le, s) == nodes[#[trigger] pairs[k].0 as int] && le.2 == pairs[k].1 by {
        lemma_label_member(nodes, edges, le);
        let i = choose|i: int| 0 <= i < edges.len() && #[trigger] label_edge(nodes, edges[i]) == le;
        let e = edges[i];
        assert(e.0 < nodes.len() && e.1 < nodes.len());
        assert(edges.contains(e));
        if e.1 == n {
            lemma_directed_member(g, n, false, e);
            let k = choose|k: int| 0 <= k < ins.len() && ins[k] == e;
            assert(pairs[k] == (e.0, e.2));
            assert(le.1 == s);
            assert(far_end(le, s) == nodes[e.0 as int]);
            assert(0 <= k < pairs.len() && far_end(le, s) == nodes[pairs[k].0 as int] && le.2 == pairs[k].1);
        } else {
            assert(nodes[e.0 as int] == s) by {
                if nodes[e.1 as int] == s {
                    assert(nodes[e.1 as int] == nodes[n as int]);
                }
            }
            assert(e.0 == n) by {
                if e.0 != n {
                    assert(nodes[e.0 as int] != nodes[n as int]);
                }
            }
            assert(nodes[e.1 as int] != s);
            lemma_directed_member(g, n, true, e);
            let k = choose|k: int| 0 <= k < outs.len() && outs[k] == e;
            let kk = ins.len() + k;
            assert(pairs[kk] == (e.1, e.2));
            assert(far_end(le, s) == nodes[e.1 as int]);
            assert(0 <= kk < pairs.len() && far_end(le, s) == nodes[pairs[kk].0 as int] && le.2 == pairs[kk].1);
        }
    }
}

/// All the edges of node `t` are on line `l` exactly when all the edges
/// that `edges_directed` lists at `t` are.
proof fn lemma_all_on_line(g: Graph<StationQid, LineId>, t: usize, l: LineId)
    requires
        station_graph_wf(g),
        station_nodes(g).no_duplicates(),
        t < station_nodes(g).len(),
    ensures
        all_on_line(station_edge_multiset(station_nodes(g), station_edges(g)), station_nodes(g)[t as int], l)
            <==> (forall|k: int|
            0 <= k < station_edges_directed(g, t, true).len() ==> #[trigger] station_edges_directed(g, t, true)[k].2
                == l) && (forall|k: int|
            0 <= k < station_edges_directed(g, t, false).len() ==> #[trigger] station_edges_directed(g, t, false)[k].2
                == l),
{
    let nodes = station_nodes(g);
    let edges = station_edges(g);
    let lab = station_edge_multiset(nodes, edges);
    let outs = station_edges_directed(g, t, true);
    let ins = station_edges_directed(g, t, false);
    let st = nodes[t as int];
    if all_on_line(lab, st, l) {
        assert forall|k: int| 0 <= k < outs.len() implies #[trigger] outs[k].2 == l by {
            let e = outs[k];
            lemma_directed_member(g, t, true, e);
            let i = choose|i: int| 0 <= i < edges.len() && edges[i] == e;
            lemma_label_member(nodes, edges, label_edge(nodes, e));
            assert(label_edge(nodes, edges[i]) == label_edge(nodes, e));
            assert(lab.contains(label_edge(nodes, e)));
        }
        assert forall|k: int| 0 <= k < ins.len() implies #[trigger] ins[k].2 == l by {
            let e = ins[k];
            lemma_directed_member(g, t, false, e);
            let i = choose|i: int| 0 <= i < edges.len() && edges[i] == e;
            lemma_label_member(nodes, edges, label_edge(nodes, e));
            assert(label_edge(nodes, edges[i]) == label_edge(nodes, e));
            assert(lab.contains(label_edge(nodes, e)));
        }
    }
    if (forall|k: int| 0 <= k < outs.len() ==> #[trigger] outs[k].2 == l) && (forall|k: int|
        0 <= k < ins.len() ==> #[trigger] ins[k].2 == l) {
        assert forall|le: StationEdge| #[trigger] lab.contains(le) && touches(le, st) implies le.2 == l by {
            lemma_label_member(nodes, edges, le);
            let i = choose|i: int| 0 <= i < edges.len() && #[trigger] label_edge(nodes, edges[i]) == le;
            let e = edges[i];
            assert(e.0 < nodes.len() && e.1 < nodes.len());
            assert(edges.contains(e));
            if e.0 == t {
                lemma_directed_member(g, t, true, e);
                let k = choose|k: int| 0 <= k < outs.len() && outs[k] == e;
                assert(outs[k].2 == l);
            } else {
                assert(nodes[e.0 as int] != nodes[t as int]);
                assert(e.1 == t) by {
                    if e.1 != t {
                        assert(nodes[e.1 as int] != nodes[t as int]);
                    }
                }
                lemma_directed_member(g, t, false, e);
                let k = choose|k: int| 0 <= k < ins.len() && ins[k] == e;
                assert(ins[k].2 == l);
            }
        }
    }
}

/// Removing node `n` from a graph of distinct stations removes station
/// `nodes[n]` and its edges, and nothing else.
proof fn lemma_remove_step(
    nodes: Seq<StationQid>,
    edges: Seq<(usize, usize, LineId)>,
    nodes2: Seq<StationQid>,
    edges2: Seq<(usize, usize, LineId)>,
    n: usize,
)
    requires
        edges_within(edges, nodes.len()),
        nodes.no_duplicates(),
        n < nodes.len(),
        nodes.len() <= u32::MAX,
        nodes2 == swap_removed(nodes, n as int),
        edges2.to_multiset() == edges_without_node(edges, n, (nodes.len() - 1) as usize).to_multiset(),
    ensures
        station_edge_multiset(nodes2, edges2) == without_station(station_edge_multiset(nodes, edges), nodes[n as int]),
        nodes2.no_duplicates(),
        nodes2.len() == nodes.len() - 1,
{
    let last = (nodes.len() - 1) as usize;
    let s = nodes[n as int];
    crate::lemmas::lemma_swap_removed_distinct(nodes, n as int);
    let kept = edges.filter(off_node(n));
    let w = edges_without_node(edges, n, last);
    crate::lemmas::lemma_map_to_multiset(edges2, w, labeller(nodes2));
    assert forall|i: int| 0 <= i < kept.len() implies kept[i].0 < nodes.len() && kept[i].1 < nodes.len()
        && kept[i].0 != n && kept[i].1 != n by {
        broadcast use vstd::seq_lib::group_filter_ensures;
        assert(kept.contains(kept[i]));
        crate::lemmas::lemma_filter_member(edges, off_node(n), kept[i]);
        let k = choose|k: int| 0 <= k < edges.len() && edges[k] == kept[i];
    }
    assert(w.map_values(labeller(nodes2)) =~= kept.map_values(labeller(nodes))) by {
        assert forall|i: int| 0 <= i < kept.len() implies #[trigger] w.map_values(labeller(nodes2))[i]
            == kept.map_values(labeller(nodes))[i] by {
            let e = kept[i];
            let we = (moved_index(e.0, n, last), moved_index(e.1, n, last), e.2);
            assert(w[i] == we);
            assert(nodes2[we.0 as int] == nodes[e.0 as int]) by {
                if e.0 == last {
                    assert(nodes2[n as int] == nodes[nodes.len() - 1]);
                } else {
                    assert(nodes2[e.0 as int] == nodes[e.0 as int]);
                }
            }
            assert(nodes2[we.1 as int] == nodes[e.1 as int]) by {
                if e.1 == last {
                    assert(nodes2[n as int] == nodes[nodes.len() - 1]);
                } else {
                    assert(nodes2[e.1 as int] == nodes[e.1 as int]);
                }
            }
            assert(w.map_values(labeller(nodes2))[i] == label_edge(nodes2, we));
            assert(kept.map_values(labeller(nodes))[i] == label_edge(nodes, e));
        }
    }
    assert forall|i: int| 0 <= i < edges.len() implies off_node(n)(#[trigger] edges[i]) == away_from(s)(
        labeller(nodes)(edges[i]),
    ) by {
        let e = edges[i];
        assert(e.0 < nodes.len() && e.1 < nodes.len());
        if e.0 != n {
            assert(nodes[e.0 as int] != nodes[n as int]);
        }
        if e.1 != n {
            assert(nodes[e.1 as int] != nodes[n as int]);
        }
    }
    crate::lemmas::lemma_filter_map_commute(edges, off_node(n), labeller(nodes), away_from(s));
    crate::lemmas::lemma_filter_to_multiset(edges.map_values(labeller(nodes)), away_from(s));
}

/// The (neighbor, line) pairs of the edges entering then leaving node `n`.
fn neighbor_pairs_at(graph: &Graph<StationQid, LineId>, n: usize) -> (pairs: Vec<(usize, LineId)>)
    requires
        n < station_nodes(*graph).len(),
    ensures
        pairs@ == neighbor_pairs(station_edges_directed(*graph, n, false), station_edges_directed(*graph, n, true)),
{
    let ins = station_edges_directed_at(graph, n, false);
    let outs = station_edges_directed_at(graph, n, true);
    let mut pairs: Vec<(usize, LineId)> = Vec::new();
    let mut k: usize = 0;
    while k < ins.len()
        invariant
            k <= ins@.len(),
            pairs@ == ins@.take(k as int).map_values(|e: (usize, usize, LineId)| (e.0, e.2)),
        decreases ins@.len() - k,
    {
        pairs.push((ins[k].0, ins[k].2));
        proof {
            assert(ins@.take(k + 1) =~= ins@.take(k as int).push(ins@[k as int]));
        }
        k = k + 1;
    }
    proof {
        assert(ins@.take(ins@.len() as int) =~= ins@);
    }
    let mut k: usize = 0;
    while k < outs.len()
        invariant
            k <= outs@.len(),
            pairs@ == ins@.map_values(|e: (usize, usize, LineId)| (e.0, e.2)) + outs@.take(k as int).map_values(
                |e: (usize, usize, LineId)| (e.1, e.2),
            ),
        decreases outs@.len() - k,
    {
        pairs.push((outs[k].1, outs[k].2));
        proof {
            assert(outs@.take(k + 1) =~= outs@.take(k as int).push(outs@[k as int]));
        }
        k = k + 1;
    }
    proof {
        assert(outs@.take(outs@.len() as int) =~= outs@);
        assert(pairs@ =~= neighbor_pairs(ins@, outs@));
    }
    pairs
}

/// Whether every edge of node `t` is on line `line`.
fn serves_only_line(graph: &Graph<StationQid, LineId>, t: usize, line: LineId) -> (r: bool)
    requires
        station_graph_wf(*graph),
        station_nodes(*graph).no_duplicates(),
        t < station_nodes(*graph).len(),
    ensures
        r == all_on_line(
            station_edge_multiset(station_nodes(*graph), station_edges(*graph)),
            station_nodes(*graph)[t as int],
            line,
        ),
{
    let outs_t = station_edges_directed_at(graph, t, true);
    let ins_t = station_edges_directed_at(graph, t, false);
    let mut all = true;
    let mut k: usize = 0;
    while k < outs_t.len()
        invariant
            k <= outs_t@.len(),
            all <==> forall|j: int| 0 <= j < k ==> #[trigger] outs_t@[j].2 == line,
        decreases outs_t@.len() - k,
    {
        proof {
            lemma_line_id_view_eq(outs_t@[k as int].2, line);
        }
        if outs_t[k].2 != line {
            all = false;
        }
        k = k + 1;
    }
    let mut k: usize = 0;
    while k < ins_t.len()
        invariant
            k <= ins_t@.len(),
            all <==> (forall|j: int| 0 <= j < outs_t@.len() ==> #[trigger] outs_t@[j].2 == line) && forall|j: int|
                0 <= j < k ==> #[trigger] ins_t@[j].2 == line,
        decreases ins_t@.len() - k,
    {
        proof {
            lemma_line_id_view_eq(ins_t@[k as int].2, line);
        }
        if ins_t[k].2 != line {
            all = false;
        }
        k = k + 1;
    }
    proof {
        lemma_all_on_line(*graph, t, line);
    }
    all
}

/// A node without (neighbor, line) pairs is a line end.
proof fn lemma_line_end_nothing(g: Graph<StationQid, LineId>, n: usize)
    requires
        station_graph_wf(g),
        station_nodes(g).no_duplicates(),
        n < station_nodes(g).len(),
        neighbor_pairs(station_edges_directed(g, n, false), station_edges_directed(g, n, true)).len() == 0,
    ensures
        is_line_end(station_edge_multiset(station_nodes(g), station_edges(g)), station_nodes(g)[n as int]),
{
    let nodes = station_nodes(g);
    let lab = station_edge_multiset(nodes, station_edges(g));
    let s = nodes[n as int];
    let pairs = neighbor_pairs(station_edges_directed(g, n, false), station_edges_directed(g, n, true));
    lemma_incident(g, n);
    assert forall|le: StationEdge| #[trigger] lab.contains(le) implies !touches(le, s) by {
        if touches(le, s) {
            assert(exists|k: int|
                0 <= k < pairs.len() && far_end(le, s) == nodes[#[trigger] pairs[k].0 as int] && le.2 == pairs[k].1);
        }
    }
}

/// A node whose pairs are all one (neighbor, line) is a line end exactly
/// when that neighbor serves that line alone.
proof fn lemma_line_end_one(g: Graph<StationQid, LineId>, n: usize, neighbor: usize, line: LineId)
    requires
        station_graph_wf(g),
        station_nodes(g).no_duplicates(),
        n < station_nodes(g).len(),
        ({
            let pairs = neighbor_pairs(station_edges_directed(g, n, false), station_edges_directed(g, n, true));
            pairs.len() > 0 && forall|k: int| 0 <= k < pairs.len() ==> #[trigger] pairs[k] == (neighbor, line)
        }),
    ensures
        neighbor < station_nodes(g).len(),
        is_line_end(station_edge_multiset(station_nodes(g), station_edges(g)), station_nodes(g)[n as int])
            == all_on_line(
            station_edge_multiset(station_nodes(g), station_edges(g)),
            station_nodes(g)[neighbor as int],
            line,
        ),
{
    let nodes = station_nodes(g);
    let lab = station_edge_multiset(nodes, station_edges(g));
    let s = nodes[n as int];
    let ins = station_edges_directed(g, n, false);
    let outs = station_edges_directed(g, n, true);
    let pairs = neighbor_pairs(ins, outs);
    lemma_incident(g, n);
    assert(pairs[0] == (neighbor, line));
    assert(pairs[0].0 < nodes.len());
    assert forall|le: StationEdge| #[trigger] lab.contains(le) && touches(le, s) implies far_end(le, s)
        == nodes[neighbor as int] && le.2 == line by {
        let k = choose|k: int|
            0 <= k < pairs.len() && far_end(le, s) == nodes[#[trigger] pairs[k].0 as int] && le.2 == pairs[k].1;
        assert(pairs[k] == (neighbor, line));
    }
    assert(single_neighbor(lab, s, nodes[neighbor as int], line));
    let le0 = pair_edge(nodes, ins, outs, 0);
    assert(lab.contains(le0) && touches(le0, s));
    if !all_on_line(lab, nodes[neighbor as int], line) {
        assert forall|t: StationQid, l: LineId| !(single_neighbor(lab, s, t, l) && all_on_line(lab, t, l)) by {
            if single_neighbor(lab, s, t, l) {
                assert(far_end(le0, s) == t && le0.2 == l);
            }
        }
    }
}

/// A node with two different (neighbor, line) pairs is no line end.
proof fn lemma_line_end_many(g: Graph<StationQid, LineId>, n: usize, a: int, b: int)
    requires
        station_graph_wf(g),
        station_nodes(g).no_duplicates(),
        n < station_nodes(g).len(),
        ({
            let pairs = neighbor_pairs(station_edges_directed(g, n, false), station_edges_directed(g, n, true));
            0 <= a < pairs.len() && 0 <= b < pairs.len() && pairs[a] != pairs[b]
        }),
    ensures
        !is_line_end(station_edge_multiset(station_nodes(g), station_edges(g)), station_nodes(g)[n as int]),
{
    let nodes = station_nodes(g);
    let lab = station_edge_multiset(nodes, station_edges(g));
    let s = nodes[n as int];
    let ins = station_edges_directed(g, n, false);
    let outs = station_edges_directed(g, n, true);
    let pairs = neighbor_pairs(ins, outs);
    lemma_incident(g, n);
    assert(pairs[a].0 < nodes.len());
    assert(pairs[b].0 < nodes.len());
    let la = pair_edge(nodes, ins, outs, a);
    let lb = pair_edge(nodes, ins, outs, b);
    assert(lab.contains(la) && touches(la, s));
    assert(lab.contains(lb) && touches(lb, s));
    assert forall|t: StationQid, l: LineId| !(single_neighbor(lab, s, t, l) && all_on_line(lab, t, l)) by {
        if single_neighbor(lab, s, t, l) {
            assert(far_end(la, s) == t && la.2 == l);
            assert(far_end(lb, s) == t && lb.2 == l);
            if pairs[a].0 != pairs[b].0 {
                assert(nodes[pairs[a].0 as int] != nodes[pairs[b].0 as int]);
            }
        }
    }
}

/// Whether node `n` of the graph is a line end: nothing reaches it, or it
/// hangs off a single neighbor along a single line that this neighbor
/// serves alone.
fn is_line_end_at(graph: &Graph<StationQid, LineId>, n: usize) -> (r: bool)
    requires
        station_graph_wf(*graph),
        station_nodes(*graph).no_duplicates(),
        n < station_nodes(*graph).len(),
    ensures
        r == is_line_end(
            station_edge_multiset(station_nodes(*graph), station_edges(*graph)),
            station_nodes(*graph)[n as int],
        ),
{
    let pairs = neighbor_pairs_at(graph, n);
    match line_neighbors(&pairs) {
        LineNeighbors::Nothing => {
            proof {
                lemma_line_end_nothing(*graph, n);
            }
            true
        },
        LineNeighbors::One { neighbor, line } => {
            proof {
                lemma_line_end_one(*graph, n, neighbor, line);
            }
            serves_only_line(graph, neighbor, line)
        },
        LineNeighbors::Many => {
            proof {
                let (a, b) = choose|a: int, b: int|
                    0 <= a < pairs@.len() && 0 <= b < pairs@.len() && #[trigger] pairs@[a] != #[trigger] pairs@[b];
                lemma_line_end_many(*graph, n, a, b);
            }
            false
        },
    }
}

/// A line end is found at `i` when none stands before it.
proof fn lemma_first_line_end_step(nodes: Seq<StationQid>, edges: Multiset<StationEdge>, i: int)
    requires
        0 <= i < nodes.len(),
    ensures
        first_line_end(nodes, edges, i) == if is_line_end(edges, nodes[i]) {
            i
        } else {
            first_line_end(nodes, edges, i + 1)
        },
{
}

impl Network {
    /// A network has distinct stations, and its graph is a `petgraph` graph.
    pub open spec fn wf(&self) -> bool {
        &&& station_graph_wf(self.graph)
        &&& station_nodes(self.graph).no_duplicates()
    }

    /// The stations of the network, by node index.
    pub open spec fn stations(&self) -> Seq<StationQid> {
        station_nodes(self.graph)
    }

    /// The edges of the network, named by their stations.
    pub open spec fn links(&self) -> Multiset<StationEdge> {
        station_edge_multiset(station_nodes(self.graph), station_edges(self.graph))
    }

    /// Remove every station that is irrelevant to the subway problem,
    /// i.e. stations that are on line ends: again and again, the first line
    /// end in node order goes (the last node taking its index), until none
    /// is left. Returns the number of stations removed.
    pub fn strip_line_ends(&mut self) -> (r: u32)
        requires
            old(self).wf(),
        ensures
            final(self).wf(),
            stripped(old(self).stations(), old(self).links()) == (final(self).stations(), final(self).links(), r as nat),
            r == 0 ==> final(self).graph == old(self).graph,
    {
        let ghost orig_graph = self.graph;
        let ghost orig_nodes = self.stations();
        let ghost orig_links = self.links();
        let mut nb_stripped: u32 = 0;
        loop
            invariant
                self.wf(),
                nb_stripped == 0 ==> self.graph == orig_graph,
                nb_stripped + self.stations().len() == orig_nodes.len(),
                orig_nodes.len() <= u32::MAX,
                stripped(orig_nodes, orig_links) == ({
                    let rest = stripped(self.stations(), self.links());
                    (rest.0, rest.1, (rest.2 + nb_stripped) as nat)
                }),
            ensures
                self.wf(),
                nb_stripped == 0 ==> self.graph == orig_graph,
                stripped(orig_nodes, orig_links) == (self.stations(), self.links(), nb_stripped as nat),
            decreases self.stations().len(),
        {
            let count = station_node_count(&self.graph);
            let ghost nodes = self.stations();
            let ghost links = self.links();
            let mut i: usize = 0;
            let mut found = false;
            while i < count
                invariant
                    self.wf(),
                    nb_stripped == 0 ==> self.graph == orig_graph,
                    nodes == self.stations(),
                    links == self.links(),
                    count == nodes.len(),
                    i <= count,
                    found ==> i < count && is_line_end(links, nodes[i as int]),
                    first_line_end(nodes, links, 0) == first_line_end(nodes, links, i as int),
                ensures
                    !found ==> i == count,
                decreases count - i,
            {
                proof {
                    lemma_first_line_end_step(nodes, links, i as int);
                }
                if is_line_end_at(&self.graph, i) {
                    found = true;
                    break;
                }
                i = i + 1;
            }
            if !found {
                proof {
                    assert(first_line_end(nodes, links, i as int) == nodes.len());
                }
                break;
            }
            proof {
                lemma_first_line_end_step(nodes, links, i as int);
            }
            let ghost edges = station_edges(self.graph);
            station_remove_node(&mut self.graph, i);
            proof {
                lemma_remove_step(nodes, edges, self.stations(), station_edges(self.graph), i);
            }
            nb_stripped = nb_stripped + 1;
        }
        nb_stripped
    }
}

/// Every edge joins two of the given stations.
pub open spec fn edges_among(edges: Multiset<StationEdge>, nodes: Seq<StationQid>) -> bool {
    forall|le: StationEdge| #[trigger] edges.contains(le) ==> nodes.contains(le.0) && nodes.contains(le.1)
}

/// The edges that join two of the given stations.
pub open spec fn edges_between(edges: Multiset<StationEdge>, nodes: Seq<StationQid>) -> Multiset<StationEdge> {
    edges.filter(|le: StationEdge| nodes.contains(le.0) && nodes.contains(le.1))
}

/// The search for a line end from `i` finds one, or finds none from `i` on.
proof fn lemma_first_line_end(nodes: Seq<StationQid>, edges: Multiset<StationEdge>, i: int)
    requires
        0 <= i <= nodes.len(),
    ensures
        i <= first_line_end(nodes, edges, i) <= nodes.len(),
        first_line_end(nodes, edges, i) < nodes.len() ==> is_line_end(
            edges,
            nodes[first_line_end(nodes, edges, i)],
        ),
        first_line_end(nodes, edges, i) == nodes.len() ==> forall|j: int|
            i <= j < nodes.len() ==> !is_line_end(edges, #[trigger] nodes[j]),
    decreases nodes.len() - i,
{
    if i < nodes.len() {
        lemma_first_line_end(nodes, edges, i + 1);
    }
}

/// What stripping leaves: no line end, only stations it was given, as many
/// fewer stations as it counts, and the edges between the stations left.
proof fn lemma_stripped(nodes: Seq<StationQid>, edges: Multiset<StationEdge>)
    requires
        nodes.no_duplicates(),
        edges_among(edges, nodes),
    ensures
        ({
            let r = stripped(nodes, edges);
            &&& forall|i: int| 0 <= i < r.0.len() ==> !is_line_end(r.1, #[trigger] r.0[i])
            &&& forall|i: int| 0 <= i < r.0.len() ==> nodes.contains(#[trigger] r.0[i])
            &&& r.0.no_duplicates()
            &&& r.0.len() + r.2 == nodes.len()
            &&& r.1 == edges_between(edges, r.0)
        }),
    decreases nodes.len(),
{
    let r = stripped(nodes, edges);
    let n = first_line_end(nodes, edges, 0);
    lemma_first_line_end(nodes, edges, 0);
    if n < nodes.len() {
        let s = nodes[n];
        let nodes2 = swap_removed(nodes, n);
        let edges2 = without_station(edges, s);
        crate::lemmas::lemma_swap_removed_distinct(nodes, n);
        assert forall|j: int| 0 <= j < nodes2.len() implies #[trigger] nodes2[j] != s && nodes.contains(nodes2[j]) by {
            if j == n {
                assert(nodes2[j] == nodes[nodes.len() - 1]);
            } else {
                assert(nodes2[j] == nodes[j]);
            }
        }
        assert forall|le: StationEdge| #[trigger] edges2.contains(le) implies nodes2.contains(le.0) && nodes2.contains(
            le.1,
        ) by {
            assert(edges.contains(le) && !touches(le, s));
            let a = choose|a: int| 0 <= a < nodes.len() && nodes[a] == le.0;
            let b = choose|b: int| 0 <= b < nodes.len() && nodes[b] == le.1;
            assert(nodes2[if a == nodes.len() - 1 { n } else { a }] == le.0);
            assert(nodes2[if b == nodes.len() - 1 { n } else { b }] == le.1);
        }
        lemma_stripped(nodes2, edges2);
        assert forall|i: int| 0 <= i < r.0.len() implies nodes.contains(#[trigger] r.0[i]) by {
            assert(nodes2.contains(r.0[i]));
        }
        assert(r.1 =~= edges_between(edges, r.0)) by {
            assert forall|le: StationEdge| #[trigger] r.1.count(le) == edges_between(edges, r.0).count(le) by {
                if r.0.contains(le.0) && r.0.contains(le.1) {
                    assert(nodes2.contains(le.0) && nodes2.contains(le.1));
                    assert(le.0 != s && le.1 != s);
                }
            }
        }
    } else {
        assert(edges =~= edges_between(edges, nodes)) by {
            assert forall|le: StationEdge| #[trigger] edges.count(le) == edges_between(edges, nodes).count(le) by {
                if edges.count(le) > 0 {
                    assert(edges.contains(le));
                }
            }
        }
    }
}

/// The stripping of a set of stations without line ends removes nothing.
proof fn lemma_stripped_done(nodes: Seq<StationQid>, edges: Multiset<StationEdge>)
    requires
        forall|i: int| 0 <= i < nodes.len() ==> !is_line_end(edges, #[trigger] nodes[i]),
    ensures
        stripped(nodes, edges) == (nodes, edges, 0nat),
{
    lemma_first_line_end(nodes, edges, 0);
    if first_line_end(nodes, edges, 0) < nodes.len() {
        assert(!is_line_end(edges, nodes[first_line_end(nodes, edges, 0)]));
    }
}

/// The edges of a network join its stations.
proof fn lemma_links_among(net: Network)
    requires
        net.wf(),
    ensures
        edges_among(net.links(), net.stations()),
{
    let nodes = net.stations();
    let edges = station_edges(net.graph);
    assert forall|le: StationEdge| #[trigger] net.links().contains(le) implies nodes.contains(le.0) && nodes.contains(
        le.1,
    ) by {
        lemma_label_member(nodes, edges, le);
        let i = choose|i: int| 0 <= i < edges.len() && #[trigger] label_edge(nodes, edges[i]) == le;
        assert(edges[i].0 < nodes.len() && edges[i].1 < nodes.len());
        assert(nodes[edges[i].0 as int] == le.0);
        assert(nodes[edges[i].1 as int] == le.1);
    }
}

/// Stripping a network leaves no line end; it removes exactly as many
/// stations as it counts, all the others staying; the edges left are
/// exactly those of the network between the stations left; and stripping
/// the result again removes nothing.
pub proof fn lemma_strip_line_ends_laws(net: Network)
    requires
        net.wf(),
    ensures
        ({
            let r = stripped(net.stations(), net.links());
            &&& forall|i: int| 0 <= i < r.0.len() ==> !is_line_end(r.1, #[trigger] r.0[i])
            &&& forall|i: int| 0 <= i < r.0.len() ==> net.stations().contains(#[trigger] r.0[i])
            &&& r.0.len() + r.2 == net.stations().len()
            &&& r.1 == edges_between(net.links(), r.0)
            &&& stripped(r.0, r.1) == (r.0, r.1, 0nat)
        }),
{
    lemma_links_among(net);
    lemma_stripped(net.stations(), net.links());
    let r = stripped(net.stations(), net.links());
    lemma_stripped_done(r.0, r.1);
}

/// The line graph of a network: one node per transition, that is per pair
/// of neighboring stations and line joining them (weighted by the line), and
/// an edge from one transition to each transition that continues it from its
/// target station (weighted by that station).
pub struct InvertedNetwork {
    pub graph: Graph<LineId, StationQid>,
}

/// A transition: the lower and higher node of an edge, and its line.
pub type TransitionKey = (usize, usize, LineId);

/// The transition an edge belongs to.
pub open spec fn transition_key(e: (usize, usize, LineId)) -> TransitionKey {
    if e.0 <= e.1 {
        (e.0, e.1, e.2)
    } else {
        (e.1, e.0, e.2)
    }
}

/// The transitions known once `k` is known: `k` joins them when new.
pub open spec fn with_key(keys: Seq<TransitionKey>, k: TransitionKey) -> Seq<TransitionKey> {
    if keys.contains(k) {
        keys
    } else {
        keys.push(k)
    }
}

/// The transitions and line-graph edges once transition `tn` has been linked,
/// at station `station`, to the transitions of the first `j` edges of `adj`.
pub open spec fn link_transitions(
    keys: Seq<TransitionKey>,
    edges: Seq<(usize, usize, StationQid)>,
    tn: int,
    adj: Seq<(usize, usize, LineId)>,
    j: int,
    station: StationQid,
) -> (Seq<TransitionKey>, Seq<(usize, usize, StationQid)>)
    decreases j,
{
    if j <= 0 {
        (keys, edges)
    } else {
        let prev = link_transitions(keys, edges, tn, adj, j - 1, station);
        let k = transition_key(adj[j - 1]);
        let keys2 = with_key(prev.0, k);
        (keys2, prev.1.push((tn as usize, keys2.index_of(k) as usize, station)))
    }
}

/// The transitions and line-graph edges once the first `i` edges of the
/// network graph are done: each edge's transition is linked to the
/// transitions of the edges leaving its target, in the order the graph lists
/// them.
pub open spec fn inverted_state(g: Graph<StationQid, LineId>, i: int) -> (
    Seq<TransitionKey>,
    Seq<(usize, usize, StationQid)>,
)
    decreases i,
{
    if i <= 0 {
        (Seq::empty(), Seq::empty())
    } else {
        let prev = inverted_state(g, i - 1);
        let e = station_edges(g)[i - 1];
        let keys = with_key(prev.0, transition_key(e));
        let adj = station_edges_directed(g, e.1, true);
        link_transitions(
            keys,
            prev.1,
            keys.index_of(transition_key(e)),
            adj,
            adj.len() as int,
            station_nodes(g)[e.1 as int],
        )
    }
}

/// The lines of a sequence of transitions.
pub open spec fn key_lines(keys: Seq<TransitionKey>) -> Seq<LineId> {
    keys.map_values(|k: TransitionKey| k.2)
}

/// Linking only adds transitions and edges.
proof fn lemma_link_grows(
    keys: Seq<TransitionKey>,
    edges: Seq<(usize, usize, StationQid)>,
    tn: int,
    adj: Seq<(usize, usize, LineId)>,
    j: int,
    station: StationQid,
)
    ensures
        keys.is_prefix_of(link_transitions(keys, edges, tn, adj, j, station).0),
        edges.is_prefix_of(link_transitions(keys, edges, tn, adj, j, station).1),
    decreases j,
{
    if j > 0 {
        lemma_link_grows(keys, edges, tn, adj, j - 1, station);
    }
}

/// The transitions and edges of fewer network edges are a prefix of those of
/// more.
proof fn lemma_inverted_grows(g: Graph<StationQid, LineId>, i: int, i2: int)
    requires
        0 <= i <= i2,
    ensures
        inverted_state(g, i).0.is_prefix_of(inverted_state(g, i2).0),
        inverted_state(g, i).1.is_prefix_of(inverted_state(g, i2).1),
    decreases i2,
{
    if i < i2 {
        lemma_inverted_grows(g, i, i2 - 1);
        let prev = inverted_state(g, i2 - 1);
        let e = station_edges(g)[i2 - 1];
        let keys = with_key(prev.0, transition_key(e));
        let adj = station_edges_directed(g, e.1, true);
        lemma_link_grows(keys, prev.1, keys.index_of(transition_key(e)), adj, adj.len() as int, station_nodes(g)[e.1 as int]);
    }
}

/// Whether a transition's nodes fit `u32` indices (its line fits a byte).
pub open spec fn key_fits(k: TransitionKey) -> bool {
    k.0 <= u32::MAX && k.1 <= u32::MAX
}

/// The number a transition is looked up by: its lower node, its higher node
/// and its line, side by side in bits of their own.
pub open spec fn key_code(k: TransitionKey) -> u128 {
    ((k.0 as u128) << 40u128) | ((k.1 as u128) << 8u128) | (k.2@ as u128)
}

/// The numbers of two transitions whose parts fit their bits are equal
/// only when the parts are.
proof fn lemma_code_parts(a1: u128, b1: u128, l1: u128, a2: u128, b2: u128, l2: u128)
    by (bit_vector)
    requires
        a1 <= 0xffff_ffff,
        b1 <= 0xffff_ffff,
        l1 < 256,
        a2 <= 0xffff_ffff,
        b2 <= 0xffff_ffff,
        l2 < 256,
        (a1 << 40u128) | (b1 << 8u128) | l1 == (a2 << 40u128) | (b2 << 8u128) | l2,
    ensures
        a1 == a2,
        b1 == b2,
        l1 == l2,
{
}

/// Two fitting transitions with the same number are the same.
proof fn lemma_key_code_injective(k1: TransitionKey, k2: TransitionKey)
    requires
        key_fits(k1),
        key_fits(k2),
        key_code(k1) == key_code(k2),
    ensures
        k1 == k2,
{
    lemma_line_id_byte(k1.2);
    lemma_line_id_byte(k2.2);
    lemma_code_parts(k1.0 as u128, k1.1 as u128, k1.2@ as u128, k2.0 as u128, k2.1 as u128, k2.2@ as u128);
    lemma_line_id_view_eq(k1.2, k2.2);
}

/// The lookup table of the known transitions: each one's number leads to
/// its position, and every number in the table is that of the transition at
/// the position it leads to.
pub open spec fn code_table(codes: Map<u128, usize>, keys: Seq<TransitionKey>) -> bool {
    &&& forall|q: int| 0 <= q < keys.len() ==> #[trigger] key_fits(keys[q])
    &&& forall|q: int|
        0 <= q < keys.len() ==> codes.contains_key(#[trigger] key_code(keys[q])) && codes[key_code(keys[q])]
            == q
    &&& forall|c: u128| #[trigger]
        codes.contains_key(c) ==> codes[c] < keys.len() && key_code(keys[codes[c] as int]) == c
}

/// The number of a transition, computed.
fn transition_code(k: TransitionKey) -> (r: u128)
    ensures
        r == key_code(k),
{
    ((k.0 as u128) << 40u128) | ((k.1 as u128) << 8u128) | (k.2.index() as u128)
}

/// Finds transition `k` among the known ones by its number, adding it (and
/// a node of the line graph for it) when new; returns its index.
fn find_or_add_transition(
    keys: &mut Vec<TransitionKey>,
    codes: &mut HashMap<u128, usize>,
    graph: &mut Graph<LineId, StationQid>,
    k: TransitionKey,
    Ghost(bound): Ghost<nat>,
) -> (r: usize)
    requires
        old(keys)@.no_duplicates(),
        code_table(old(codes)@, old(keys)@),
        key_fits(k),
        line_nodes(*old(graph)) == key_lines(old(keys)@),
        line_graph_wf(*old(graph)),
        with_key(old(keys)@, k).len() <= bound,
        bound <= u32::MAX,
    ensures
        final(keys)@ == with_key(old(keys)@, k),
        final(keys)@.no_duplicates(),
        code_table(final(codes)@, final(keys)@),
        r < final(keys)@.len(),
        r == final(keys)@.index_of(k),
        line_nodes(*final(graph)) == key_lines(final(keys)@),
        line_edges(*final(graph)) == line_edges(*old(graph)),
        line_graph_wf(*final(graph)),
{
    broadcast use vstd::std_specs::hash::group_hash_axioms;
    let c = transition_code(k);
    match codes.get(&c) {
        Some(p) => {
            let p = *p;
            proof {
                assert(codes@.contains_key(c));
                lemma_key_code_injective(keys@[p as int], k);
                assert(keys@.contains(k));
                assert(keys@.index_of(k) == p) by {
                    let q = keys@.index_of(k);
                    assert(0 <= q < keys@.len() && keys@[q] == k);
                }
            }
            p
        },
        None => {
            proof {
                assert(!keys@.contains(k)) by {
                    if keys@.contains(k) {
                        let q = keys@.index_of(k);
                        assert(keys@[q] == k);
                        assert(codes@.contains_key(key_code(keys@[q])));
                    }
                }
            }
            let ghost old_codes = codes@;
            let ghost old_keys = keys@;
            let idx = line_add_node(graph, k.2);
            keys.push(k);
            codes.insert(c, idx);
            proof {
                assert(key_lines(keys@) =~= key_lines(old_keys).push(k.2));
                assert(keys@.index_of(k) == idx) by {
                    let q = keys@.index_of(k);
                    assert(keys@[idx as int] == k);
                    assert(0 <= q < keys@.len() && keys@[q] == k);
                }
                assert forall|q: int| 0 <= q < keys@.len() implies codes@.contains_key(
                    #[trigger] key_code(keys@[q]),
                ) && codes@[key_code(keys@[q])] == q by {
                    if q < old_keys.len() {
                        assert(keys@[q] == old_keys[q]);
                        assert(old_codes.contains_key(key_code(old_keys[q])));
                        if key_code(old_keys[q]) == c {
                            lemma_key_code_injective(old_keys[q], k);
                            assert(old_keys.contains(k));
                        }
                    }
                }
                assert forall|d: u128| #[trigger] codes@.contains_key(d) implies codes@[d] < keys@.len()
                    && key_code(keys@[codes@[d] as int]) == d by {
                    if d != c {
                        assert(old_codes.contains_key(d));
                        assert(keys@[old_codes[d] as int] == old_keys[old_codes[d] as int]);
                    }
                }
            }
            idx
        },
    }
}

/// The number of line-graph edges the first `i` network edges give: each
/// gives one per edge leaving its target.
pub open spec fn links_count(g: Graph<StationQid, LineId>, i: int) -> nat
    decreases i,
{
    if i <= 0 {
        0
    } else {
        links_count(g, i - 1) + station_edges_directed(g, station_edges(g)[i - 1].1, true).len()
    }
}

/// Linking `j` edges adds `j` line-graph edges.
proof fn lemma_link_count(
    keys: Seq<TransitionKey>,
    edges: Seq<(usize, usize, StationQid)>,
    tn: int,
    adj: Seq<(usize, usize, LineId)>,
    j: int,
    station: StationQid,
)
    requires
        0 <= j,
    ensures
        link_transitions(keys, edges, tn, adj, j, station).1.len() == edges.len() + j,
    decreases j,
{
    if j > 0 {
        lemma_link_count(keys, edges, tn, adj, j - 1, station);
    }
}

/// The line graph of the first `i` network edges has `links_count` edges.
proof fn lemma_inverted_count(g: Graph<StationQid, LineId>, i: int)
    requires
        0 <= i,
    ensures
        inverted_state(g, i).1.len() == links_count(g, i),
    decreases i,
{
    if i > 0 {
        lemma_inverted_count(g, i - 1);
        let prev = inverted_state(g, i - 1);
        let e = station_edges(g)[i - 1];
        let keys = with_key(prev.0, transition_key(e));
        let adj = station_edges_directed(g, e.1, true);
        lemma_link_count(keys, prev.1, keys.index_of(transition_key(e)), adj, adj.len() as int, station_nodes(g)[e.1 as int]);
    }
}

/// The line graph of a network has no more nodes than the network has
/// edges.
proof fn lemma_inverted_node_bound(net: Network)
    requires
        station_graph_wf(net.graph),
    ensures
        inverted_state(net.graph, station_edges(net.graph).len() as int).0.len() <= station_edges(net.graph).len(),
{
    lemma_inverted_nodes(net);
    let f = |e: (usize, usize, LineId)| transition_key(e);
    station_edges(net.graph).map_values(f).lemma_cardinality_of_set();
}

impl InvertedNetwork {
    /// The line graph of a network: transitions become nodes in the order
    /// the network's edges first show them, and each network edge, in edge
    /// order, links its transition to the transitions of the edges leaving
    /// its target. The line graph must fit `u32` indices, beyond which
    /// `petgraph` panics.
    pub fn from_network(net: &Network) -> (r: InvertedNetwork)
        requires
            station_graph_wf(net.graph),
            links_count(net.graph, station_edges(net.graph).len() as int) <= u32::MAX,
        ensures
            line_nodes(r.graph) == key_lines(inverted_state(net.graph, station_edges(net.graph).len() as int).0),
            line_edges(r.graph) == inverted_state(net.graph, station_edges(net.graph).len() as int).1,
            line_graph_wf(r.graph),
    {
        proof {
            lemma_inverted_node_bound(*net);
            lemma_inverted_count(net.graph, station_edges(net.graph).len() as int);
        }
        let ghost total = station_edges(net.graph).len() as int;
        let ghost fin = inverted_state(net.graph, total);
        let mut graph = line_graph_new();
        let mut keys: Vec<TransitionKey> = Vec::new();
        let mut codes: HashMap<u128, usize> = HashMap::new();
        let nb_edges = station_edge_count(&net.graph);
        let mut i: usize = 0;
        while i < nb_edges
            invariant
                station_graph_wf(net.graph),
                nb_edges == total,
                total == station_edges(net.graph).len(),
                fin == inverted_state(net.graph, total),
                fin.0.len() <= u32::MAX,
                fin.1.len() <= u32::MAX,
                i <= nb_edges,
                keys@ == inverted_state(net.graph, i as int).0,
                line_edges(graph) == inverted_state(net.graph, i as int).1,
                keys@.no_duplicates(),
                code_table(codes@, keys@),
                line_nodes(graph) == key_lines(keys@),
                line_graph_wf(graph),
            decreases nb_edges - i,
        {
            proof {
                lemma_inverted_grows(net.graph, i + 1, total);
            }
            let ghost state_i1 = inverted_state(net.graph, i + 1);
            let (src, target) = station_edge_endpoints(&net.graph, i);
            let line = station_edge_weight(&net.graph, i);
            let key = if src <= target {
                (src, target, line)
            } else {
                (target, src, line)
            };
            let ghost e = station_edges(net.graph)[i as int];
            assert(key == transition_key(e));
            let ghost keys1 = with_key(keys@, key);
            let ghost edges0 = line_edges(graph);
            let adj = station_edges_directed_at(&net.graph, target, true);
            let station = station_node_weight(&net.graph, target);
            proof {
                lemma_link_grows(keys1, edges0, keys1.index_of(key), adj@, adj@.len() as int, station);
                assert(state_i1 == link_transitions(keys1, edges0, keys1.index_of(key), adj@, adj@.len() as int, station));
            }
            proof {
                assert(e.0 < station_nodes(net.graph).len() && e.1 < station_nodes(net.graph).len());
            }
            let tn = find_or_add_transition(&mut keys, &mut codes, &mut graph, key, Ghost(fin.0.len()));
            let mut j: usize = 0;
            while j < adj.len()
                invariant
                    station_graph_wf(net.graph),
                    fin.0.len() <= u32::MAX,
                    fin.1.len() <= u32::MAX,
                    state_i1.0.is_prefix_of(fin.0),
                    state_i1.1.is_prefix_of(fin.1),
                    state_i1 == link_transitions(keys1, edges0, tn as int, adj@, adj@.len() as int, station),
                    j <= adj@.len(),
                    tn < keys@.len(),
                    keys1.is_prefix_of(keys@),
                    keys@ == link_transitions(keys1, edges0, tn as int, adj@, j as int, station).0,
                    line_edges(graph) == link_transitions(keys1, edges0, tn as int, adj@, j as int, station).1,
                    keys@.no_duplicates(),
                    code_table(codes@, keys@),
                    line_nodes(graph) == key_lines(keys@),
                    line_graph_wf(graph),
                    adj@ == station_edges_directed(net.graph, target, true),
                decreases adj@.len() - j,
            {
                proof {
                    lemma_link_grows(
                        link_transitions(keys1, edges0, tn as int, adj@, j + 1, station).0,
                        link_transitions(keys1, edges0, tn as int, adj@, j + 1, station).1,
                        tn as int,
                        adj@,
                        0,
                        station,
                    );
                    lemma_link_prefix(keys1, edges0, tn as int, adj@, j + 1, adj@.len() as int, station);
                }
                let te = adj[j];
                let tkey = if te.0 <= te.1 {
                    (te.0, te.1, te.2)
                } else {
                    (te.1, te.0, te.2)
                };
                proof {
                    assert(station_edges_directed(net.graph, target, true).contains(te));
                    lemma_directed_member(net.graph, target, true, te);
                    let w = station_edges(net.graph).index_of(te);
                    assert(station_edges(net.graph)[w] == te);
                }
                let ttn = find_or_add_transition(&mut keys, &mut codes, &mut graph, tkey, Ghost(fin.0.len()));
                line_add_edge(&mut graph, tn, ttn, station);
                j = j + 1;
            }
            i = i + 1;
        }
        InvertedNetwork { graph }
    }
}

/// Linking fewer edges gives a prefix of what linking more gives.
proof fn lemma_link_prefix(
    keys: Seq<TransitionKey>,
    edges: Seq<(usize, usize, StationQid)>,
    tn: int,
    adj: Seq<(usize, usize, LineId)>,
    j: int,
    j2: int,
    station: StationQid,
)
    requires
        j <= j2,
    ensures
        link_transitions(keys, edges, tn, adj, j, station).0.is_prefix_of(
            link_transitions(keys, edges, tn, adj, j2, station).0,
        ),
        link_transitions(keys, edges, tn, adj, j, station).1.is_prefix_of(
            link_transitions(keys, edges, tn, adj, j2, station).1,
        ),
    decreases j2 - j,
{
    if j < j2 {
        lemma_link_prefix(keys, edges, tn, adj, j, j2 - 1, station);
    }
}

impl InvertedNetwork {
    /// The line graph of a network, when it fits `u32` indices: `None` when
    /// it would have more than `u32::MAX` edges.
    pub fn try_from_network(net: &Network) -> (r: Option<InvertedNetwork>)
        requires
            station_graph_wf(net.graph),
        ensures
            match r {
                Some(inv) => {
                    &&& links_count(net.graph, station_edges(net.graph).len() as int) <= u32::MAX
                    &&& line_nodes(inv.graph) == key_lines(
                        inverted_state(net.graph, station_edges(net.graph).len() as int).0,
                    )
                    &&& line_edges(inv.graph) == inverted_state(net.graph, station_edges(net.graph).len() as int).1
                    &&& line_graph_wf(inv.graph)
                },
                None => links_count(net.graph, station_edges(net.graph).len() as int) > u32::MAX,
            },
    {
        let nb_edges = station_edge_count(&net.graph);
        let mut count: u64 = 0;
        let mut i: usize = 0;
        while i < nb_edges
            invariant
                station_graph_wf(net.graph),
                nb_edges == station_edges(net.graph).len(),
                i <= nb_edges,
                count == links_count(net.graph, i as int),
                count <= u32::MAX,
            decreases nb_edges - i,
        {
            let (_, target) = station_edge_endpoints(&net.graph, i);
            proof {
                assert(station_edges(net.graph)[i as int].1 < station_nodes(net.graph).len());
            }
            let out = station_edges_directed_at(&net.graph, target, true);
            let c = out.len() as u64;
            if c > 0xffff_ffff - count {
                proof {
                    lemma_links_count_grows(net.graph, i as int + 1, nb_edges as int);
                }
                return None;
            }
            count = count + c;
            i = i + 1;
        }
        Some(InvertedNetwork::from_network(net))
    }
}

/// More network edges give at least as many line-graph edges.
proof fn lemma_links_count_grows(g: Graph<StationQid, LineId>, i: int, j: int)
    requires
        0 <= i <= j,
    ensures
        links_count(g, i) <= links_count(g, j),
    decreases j,
{
    if i < j {
        lemma_links_count_grows(g, i, j - 1);
    }
}

/// The transitions of a network: those of its edges.
pub open spec fn network_transitions(g: Graph<StationQid, LineId>) -> Set<TransitionKey> {
    station_edges(g).map_values(|e: (usize, usize, LineId)| transition_key(e)).to_set()
}

/// Linking adds the transitions of the linked edges, each once.
proof fn lemma_link_keys(
    keys: Seq<TransitionKey>,
    edges: Seq<(usize, usize, StationQid)>,
    tn: int,
    adj: Seq<(usize, usize, LineId)>,
    j: int,
    station: StationQid,
)
    requires
        keys.no_duplicates(),
        0 <= j <= adj.len(),
    ensures
        link_transitions(keys, edges, tn, adj, j, station).0.no_duplicates(),
        link_transitions(keys, edges, tn, adj, j, station).0.to_set() == keys.to_set().union(
            adj.take(j).map_values(|e: (usize, usize, LineId)| transition_key(e)).to_set(),
        ),
    decreases j,
{
    let f = |e: (usize, usize, LineId)| transition_key(e);
    if j == 0 {
        assert(adj.take(0).map_values(f).to_set() =~= Set::<TransitionKey>::empty());
        assert(keys.to_set().union(Set::<TransitionKey>::empty()) =~= keys.to_set());
    } else {
        lemma_link_keys(keys, edges, tn, adj, j - 1, station);
        let prev = link_transitions(keys, edges, tn, adj, j - 1, station);
        let k = transition_key(adj[j - 1]);
        assert(adj.take(j).map_values(f) =~= adj.take(j - 1).map_values(f).push(k));
        adj.take(j - 1).map_values(f).lemma_push_to_set_commute(k);
        if prev.0.contains(k) {
            assert(prev.0.to_set().contains(k));
        } else {
            prev.0.lemma_push_to_set_commute(k);
            assert(prev.0.push(k).no_duplicates()) by {
                assert forall|a: int, b: int| 0 <= a < b < prev.0.len() + 1 implies prev.0.push(k)[a] != prev.0.push(
                    k,
                )[b] by {
                    if b == prev.0.len() {
                        assert(prev.0.contains(prev.0[a]));
                    }
                }
            }
        }
        assert(link_transitions(keys, edges, tn, adj, j, station).0.to_set() =~= keys.to_set().union(
            adj.take(j).map_values(f).to_set(),
        ));
    }
}

/// After the first `i` edges, the known transitions are distinct
/// transitions of the network, among them those of these edges.
proof fn lemma_inverted_keys(g: Graph<StationQid, LineId>, i: int)
    requires
        station_graph_wf(g),
        0 <= i <= station_edges(g).len(),
    ensures
        inverted_state(g, i).0.no_duplicates(),
        inverted_state(g, i).0.to_set().subset_of(network_transitions(g)),
        station_edges(g).take(i).map_values(|e: (usize, usize, LineId)| transition_key(e)).to_set().subset_of(
            inverted_state(g, i).0.to_set(),
        ),
    decreases i,
{
    let f = |e: (usize, usize, LineId)| transition_key(e);
    let all = station_edges(g).map_values(f);
    if i == 0 {
        assert(station_edges(g).take(0).map_values(f).to_set() =~= Set::<TransitionKey>::empty());
        assert(inverted_state(g, 0).0.to_set() =~= Set::<TransitionKey>::empty());
    } else {
        lemma_inverted_keys(g, i - 1);
        let prev = inverted_state(g, i - 1);
        let e = station_edges(g)[i - 1];
        let k = transition_key(e);
        let keys = with_key(prev.0, k);
        let adj = station_edges_directed(g, e.1, true);
        assert(all[i - 1] == k);
        assert(all.contains(k));
        if !prev.0.contains(k) {
            prev.0.lemma_push_to_set_commute(k);
            assert(keys.no_duplicates()) by {
                assert forall|a: int, b: int| 0 <= a < b < keys.len() implies keys[a] != keys[b] by {
                    if b == prev.0.len() {
                        assert(prev.0.contains(prev.0[a]));
                    }
                }
            }
        }
        assert(keys.to_set() =~= prev.0.to_set().insert(k));
        lemma_link_keys(keys, prev.1, keys.index_of(k), adj, adj.len() as int, station_nodes(g)[e.1 as int]);
        assert(adj.take(adj.len() as int) =~= adj);
        let now = inverted_state(g, i).0;
        assert forall|t: TransitionKey| adj.map_values(f).to_set().contains(t) implies network_transitions(g).contains(t) by {
            assert(adj.map_values(f).contains(t));
            let m = choose|m: int| 0 <= m < adj.map_values(f).len() && adj.map_values(f)[m] == t;
            assert(adj.contains(adj[m]));
            lemma_directed_member(g, e.1, true, adj[m]);
            let q = choose|q: int| 0 <= q < station_edges(g).len() && station_edges(g)[q] == adj[m];
            assert(all[q] == t);
            assert(all.contains(t));
        }
        assert(station_edges(g).take(i).map_values(f) =~= station_edges(g).take(i - 1).map_values(f).push(k));
        station_edges(g).take(i - 1).map_values(f).lemma_push_to_set_commute(k);
    }
}

/// The line graph of a network has one node per transition of the network:
/// each transition of its edges becomes one node, and no two nodes are the
/// same transition.
pub proof fn lemma_inverted_nodes(net: Network)
    requires
        station_graph_wf(net.graph),
    ensures
        inverted_state(net.graph, station_edges(net.graph).len() as int).0.no_duplicates(),
        inverted_state(net.graph, station_edges(net.graph).len() as int).0.to_set() == network_transitions(net.graph),
        inverted_state(net.graph, station_edges(net.graph).len() as int).0.len() == network_transitions(
            net.graph,
        ).len(),
{
    let g = net.graph;
    let n = station_edges(g).len() as int;
    lemma_inverted_keys(g, n);
    let keys = inverted_state(g, n).0;
    assert(station_edges(g).take(n) =~= station_edges(g));
    assert(keys.to_set() =~= network_transitions(g));
    keys.unique_seq_to_set();
}

/// In a sequence without repeats, an element of a prefix stands where it
/// stands in the prefix.
proof fn lemma_index_in_prefix<A>(a: Seq<A>, b: Seq<A>, x: A)
    requires
        a.is_prefix_of(b),
        b.no_duplicates(),
        a.contains(x),
    ensures
        b.contains(x),
        b.index_of(x) == a.index_of(x),
{
    let i = a.index_of(x);
    assert(b[i] == x);
    let j = b.index_of(x);
    assert(b[j] == x);
}

/// The `q`-th edge linked is the `q`-th new line-graph edge: from `tn` to
/// the transition of the `q`-th edge of `adj`, at `station`.
proof fn lemma_link_edge_at(
    keys: Seq<TransitionKey>,
    edges: Seq<(usize, usize, StationQid)>,
    tn: int,
    adj: Seq<(usize, usize, LineId)>,
    j: int,
    station: StationQid,
    q: int,
)
    requires
        0 <= q < j <= adj.len(),
    ensures
        link_transitions(keys, edges, tn, adj, j, station).1[edges.len() + q] == (
            tn as usize,
            link_transitions(keys, edges, tn, adj, q + 1, station).0.index_of(transition_key(adj[q])) as usize,
            station,
        ),
    decreases j,
{
    lemma_link_count(keys, edges, tn, adj, j - 1, station);
    if q < j - 1 {
        lemma_link_edge_at(keys, edges, tn, adj, j - 1, station, q);
    }
}

/// The transition of the `q`-th linked edge is among the transitions known
/// once it is linked.
proof fn lemma_link_key_known(
    keys: Seq<TransitionKey>,
    edges: Seq<(usize, usize, StationQid)>,
    tn: int,
    adj: Seq<(usize, usize, LineId)>,
    station: StationQid,
    q: int,
)
    requires
        0 <= q < adj.len(),
    ensures
        link_transitions(keys, edges, tn, adj, q + 1, station).0.contains(transition_key(adj[q])),
{
    let prev = link_transitions(keys, edges, tn, adj, q, station).0;
    let k = transition_key(adj[q]);
    if !prev.contains(k) {
        assert(prev.push(k)[prev.len() as int] == k);
    }
}

/// The edges of the line graph of a network, in order: for each network
/// edge `e` in edge order, and each edge leaving `e`'s target in the order
/// the graph lists them (the `q`-th), one edge from the transition of `e`
/// to the transition of that edge, weighted by the target station; it
/// stands at position `links_count(g, e) + q`, the transitions being nodes
/// by their positions among the transitions.
pub proof fn lemma_inverted_edges(g: Graph<StationQid, LineId>, e: int, q: int)
    requires
        station_graph_wf(g),
        0 <= e < station_edges(g).len(),
        0 <= q < station_edges_directed(g, station_edges(g)[e].1, true).len(),
    ensures
        inverted_state(g, station_edges(g).len() as int).1.len() == links_count(g, station_edges(g).len() as int),
        links_count(g, e) + q < links_count(g, station_edges(g).len() as int),
        inverted_state(g, station_edges(g).len() as int).1[links_count(g, e) + q] == (
            inverted_state(g, station_edges(g).len() as int).0.index_of(transition_key(station_edges(g)[e])) as usize,
            inverted_state(g, station_edges(g).len() as int).0.index_of(
                transition_key(station_edges_directed(g, station_edges(g)[e].1, true)[q]),
            ) as usize,
            station_nodes(g)[station_edges(g)[e].1 as int],
        ),
{
    let total = station_edges(g).len() as int;
    let fin = inverted_state(g, total);
    let prev = inverted_state(g, e);
    let ed = station_edges(g)[e];
    let k = transition_key(ed);
    let keys = with_key(prev.0, k);
    let adj = station_edges_directed(g, ed.1, true);
    let tn = keys.index_of(k);
    let station = station_nodes(g)[ed.1 as int];
    let now = inverted_state(g, e + 1);
    assert(now == link_transitions(keys, prev.1, tn, adj, adj.len() as int, station));
    lemma_inverted_count(g, e);
    lemma_inverted_count(g, e + 1);
    lemma_inverted_count(g, total);
    lemma_inverted_grows(g, e + 1, total);
    lemma_links_count_grows(g, e + 1, total);
    lemma_inverted_keys(g, total);
    // the edge itself
    lemma_link_edge_at(keys, prev.1, tn, adj, adj.len() as int, station, q);
    assert(fin.1[links_count(g, e) + q] == now.1[links_count(g, e) + q]);
    // the transition of `e`
    lemma_link_grows(keys, prev.1, tn, adj, adj.len() as int, station);
    assert(keys.contains(k)) by {
        if !prev.0.contains(k) {
            assert(keys[prev.0.len() as int] == k);
        }
    }
    assert(keys.is_prefix_of(fin.0)) by {
        assert(keys.is_prefix_of(now.0));
    }
    lemma_index_in_prefix(keys, fin.0, k);
    // the transition of the `q`-th edge leaving the target
    let later = link_transitions(keys, prev.1, tn, adj, q + 1, station).0;
    lemma_link_key_known(keys, prev.1, tn, adj, station, q);
    lemma_link_prefix(keys, prev.1, tn, adj, q + 1, adj.len() as int, station);
    assert(later.is_prefix_of(fin.0)) by {
        assert(later.is_prefix_of(now.0));
    }
    lemma_index_in_prefix(later, fin.0, transition_key(adj[q]));
}

} // verus!
