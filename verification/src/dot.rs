//! The labels and attributes that the Graphviz drawings of the networks give
//! their nodes and edges.
use vstd::prelude::*;
use std::collections::{BTreeMap, BTreeSet};

use crate::graph::{
    line_dot, line_dot_text, line_edge_count, line_edge_weight, line_edges, line_graph_wf, line_node_count,
    line_node_weight, line_nodes, station_dot, station_dot_text, station_edge_count, station_edge_endpoints,
    station_edge_weight, station_edges, station_graph_wf, station_node_count, station_node_weight, station_nodes,
};
use crate::network::{InvertedNetwork, Network};
use crate::queries::{Line, LineId, StationQid, SubwayData};

verus! {

broadcast use vstd::std_specs::btree::group_btree_axioms, vstd::laws_cmp::group_laws_cmp;

/// The attributes of an edge drawn in the color `color` (six hex digits).
pub open spec fn edge_attrs_text(color: Seq<char>) -> Seq<char> {
    "color = \"#"@ + color + "\" penwidth = 2.0"@
}

/// The attributes of the node of a line in the drawing of the line graph:
/// filled with the color of the line, its name as tooltip.
pub open spec fn line_node_attrs_text(color: Seq<char>, name: Seq<char>) -> Seq<char> {
    "style = \"filled\" fillcolor = \"#"@ + color + "\" fontsize = 12.0 tooltip = \""@ + name + "\""@
}

/// The attributes of an edge of the line graph: the name of its station as
/// tooltip.
pub open spec fn station_edge_attrs_text(name: Seq<char>) -> Seq<char> {
    "fontsize = 12.0 tooltip = \""@ + name + "\""@
}

/// The color an arc is drawn in: that of its line when the solution takes
/// it, else light grey.
pub open spec fn arc_color(taken: bool, color: Seq<char>) -> Seq<char> {
    if taken {
        color
    } else {
        "ccc"@
    }
}

/// The name of a station, its label in the drawings. The station must be
/// known.
pub fn station_label(data: &SubwayData, station: StationQid) -> (r: &String)
    requires
        data.stations@.contains_key(station.0.0),
    ensures
        r@ == data.stations@[station.0.0].name@,
{
    data.stations.get(&station.0.0).unwrap().display_name()
}

/// The name of a line, its label in the drawings. The line must be one of
/// the data.
pub fn line_label(data: &SubwayData, line: LineId) -> (r: &String)
    requires
        line@ < data.lines@.len(),
    ensures
        r@ == data.lines@[line@ as int].name@,
{
    data.lines[line.index()].display_name()
}

/// The attributes of an edge of the network along `line`: the color of the
/// line. The line must be one of the data.
pub fn line_edge_attributes(data: &SubwayData, line: LineId) -> (r: String)
    requires
        line@ < data.lines@.len(),
    ensures
        r@ == edge_attrs_text(data.lines@[line@ as int].color@),
{
    let mut r = String::from_str("color = \"#");
    r.append(data.lines[line.index()].color.as_str());
    r.append("\" penwidth = 2.0");
    r
}

/// The attributes of the edge `source -> target` along `line` in the
/// drawing of a solution: the color of the line when the solution takes the
/// arc, else light grey. The line must be one of the data.
pub fn arc_edge_attributes(
    data: &SubwayData,
    arcs: &BTreeSet<(u32, u32, u32)>,
    source: StationQid,
    target: StationQid,
    line: LineId,
) -> (r: String)
    requires
        line@ < data.lines@.len(),
    ensures
        r@ == edge_attrs_text(
            arc_color(
                arcs@.contains((source.0.0, target.0.0, data.lines@[line@ as int].qid.0.0)),
                data.lines@[line@ as int].color@,
            ),
        ),
{
    let l = &data.lines[line.index()];
    let key = (source.0.0, target.0.0, l.qid.0.0);
    let mut r = String::from_str("color = \"#");
    if arcs.contains(&key) {
        r.append(l.color.as_str());
    } else {
        r.append("ccc");
    }
    r.append("\" penwidth = 2.0");
    r
}

/// The attributes of the node of `line` in the drawing of the line graph.
/// The line must be one of the data.
pub fn line_node_attributes(data: &SubwayData, line: LineId) -> (r: String)
    requires
        line@ < data.lines@.len(),
    ensures
        r@ == line_node_attrs_text(data.lines@[line@ as int].color@, data.lines@[line@ as int].name@),
{
    let l = &data.lines[line.index()];
    let mut r = String::from_str("style = \"filled\" fillcolor = \"#");
    r.append(l.color.as_str());
    r.append("\" fontsize = 12.0 tooltip = \"");
    r.append(l.name.as_str());
    r.append("\"");
    r
}

/// The attributes of an edge of the line graph at `station`. The station
/// must be known.
pub fn station_edge_attributes(data: &SubwayData, station: StationQid) -> (r: String)
    requires
        data.stations@.contains_key(station.0.0),
    ensures
        r@ == station_edge_attrs_text(data.stations@[station.0.0].name@),
{
    let mut r = String::from_str("fontsize = 12.0 tooltip = \"");
    r.append(station_label(data, station).as_str());
    r.append("\"");
    r
}

/// Whether `k` is the entity number of one of the stations.
pub open spec fn has_station_id(nodes: Seq<StationQid>, k: u32) -> bool {
    exists|i: int| 0 <= i < nodes.len() && nodes[i].0.0 == k
}

/// The attributes of a station's node: placed at `pos`, pinned there.
pub open spec fn station_node_attrs_text(pos: Seq<char>) -> Seq<char> {
    "pos = \""@ + pos + "!\" fontsize = 12.0"@
}

/// The labels of the stations of a drawing: each station's name, by entity
/// number.
pub open spec fn station_labels(nodes: Seq<StationQid>, stations: Map<u32, crate::queries::Station>) -> Map<
    u32,
    Seq<char>,
> {
    Map::new(|k: u32| has_station_id(nodes, k), |k: u32| stations[k].name@)
}

/// The node attributes of the stations of a drawing, by entity number: each
/// placed at its position.
pub open spec fn station_node_attrs(nodes: Seq<StationQid>, positions: Map<u32, Seq<char>>) -> Map<u32, Seq<char>> {
    Map::new(|k: u32| has_station_id(nodes, k), |k: u32| station_node_attrs_text(positions[k]))
}

/// The edge attributes of a drawing of a network: each edge in the color of
/// its line.
pub open spec fn line_edge_attrs(edges: Seq<(usize, usize, LineId)>, lines: Seq<Line>) -> Seq<Seq<char>> {
    Seq::new(edges.len(), |i: int| edge_attrs_text(lines[edges[i].2@ as int].color@))
}

/// The arc an edge stands for in a solution: the entity numbers of its
/// source, its target and its line.
pub open spec fn edge_arc(nodes: Seq<StationQid>, lines: Seq<Line>, e: (usize, usize, LineId)) -> (u32, u32, u32) {
    (nodes[e.0 as int].0.0, nodes[e.1 as int].0.0, lines[e.2@ as int].qid.0.0)
}

/// The edge attributes of the drawing of a solution: each edge in the color
/// of its line when the solution takes its arc, else grey.
pub open spec fn arc_edge_attrs(
    nodes: Seq<StationQid>,
    edges: Seq<(usize, usize, LineId)>,
    lines: Seq<Line>,
    arcs: Set<(u32, u32, u32)>,
) -> Seq<Seq<char>> {
    Seq::new(
        edges.len(),
        |i: int|
            edge_attrs_text(arc_color(arcs.contains(edge_arc(nodes, lines, edges[i])), lines[edges[i].2@ as int].color@)),
    )
}

/// The drawing of a network: its stations labelled by name and placed at
/// their positions, its edges in the colors of their lines.
pub open spec fn network_dot_text(net: Network, data: SubwayData, positions: Map<u32, Seq<char>>) -> Seq<char> {
    station_dot_text(
        station_nodes(net.graph),
        station_edges(net.graph),
        station_labels(station_nodes(net.graph), data.stations@),
        station_node_attrs(station_nodes(net.graph), positions),
        line_edge_attrs(station_edges(net.graph), data.lines@),
    )
}

/// The drawing of a solution over a network: as that of the network, but
/// the edges whose arcs the solution does not take are grey.
pub open spec fn arcs_dot_text(
    net: Network,
    data: SubwayData,
    positions: Map<u32, Seq<char>>,
    arcs: Set<(u32, u32, u32)>,
) -> Seq<char> {
    station_dot_text(
        station_nodes(net.graph),
        station_edges(net.graph),
        station_labels(station_nodes(net.graph), data.stations@),
        station_node_attrs(station_nodes(net.graph), positions),
        arc_edge_attrs(station_nodes(net.graph), station_edges(net.graph), data.lines@, arcs),
    )
}

/// What a drawing of a network asks: its edges join its stations, each on a
/// line of the data, and each station known to the data and placed.
pub open spec fn drawable(net: Network, data: SubwayData, positions: Map<u32, String>) -> bool {
    &&& station_graph_wf(net.graph)
    &&& forall|i: int| 0 <= i < station_edges(net.graph).len() ==> (#[trigger] station_edges(net.graph)[i]).2@ < data.lines@.len()
    &&& forall|i: int|
        0 <= i < station_nodes(net.graph).len() ==> data.stations@.contains_key(
            (#[trigger] station_nodes(net.graph)[i]).0.0,
        ) && positions.contains_key(station_nodes(net.graph)[i].0.0)
}

/// The labels and node attributes of the stations of a network.
fn station_texts(net: &Network, data: &SubwayData, positions: &BTreeMap<u32, String>) -> (r: (
    BTreeMap<u32, String>,
    BTreeMap<u32, String>,
))
    requires
        drawable(*net, *data, positions@),
    ensures
        r.0@.map_values(|t: String| t@) == station_labels(station_nodes(net.graph), data.stations@),
        r.1@.map_values(|t: String| t@) == station_node_attrs(
            station_nodes(net.graph),
            positions@.map_values(|t: String| t@),
        ),
        forall|i: int|
            0 <= i < station_nodes(net.graph).len() ==> r.0@.contains_key(#[trigger] station_nodes(net.graph)[i].0.0)
                && r.1@.contains_key(station_nodes(net.graph)[i].0.0),
{
    let ghost nodes = station_nodes(net.graph);
    let n = station_node_count(&net.graph);
    let mut labels: BTreeMap<u32, String> = BTreeMap::new();
    let mut attrs: BTreeMap<u32, String> = BTreeMap::new();
    let mut i: usize = 0;
    while i < n
        invariant
            drawable(*net, *data, positions@),
            nodes == station_nodes(net.graph),
            n == nodes.len(),
            i <= n,
            forall|k: u32|
                labels@.contains_key(k) <==> exists|j: int| 0 <= j < i && #[trigger] nodes[j].0.0 == k,
            forall|k: u32| attrs@.contains_key(k) <==> labels@.contains_key(k),
            forall|k: u32| #[trigger]
                labels@.contains_key(k) ==> labels@[k]@ == data.stations@[k].name@ && attrs@[k]@
                    == station_node_attrs_text(positions@[k]@),
        decreases n - i,
    {
        let st = station_node_weight(&net.graph, i);
        let id = st.0.0;
        proof {
            assert(nodes[i as int].0.0 == id);
        }
        let name = station_label(data, st).clone();
        let mut a = String::from_str("pos = \"");
        a.append(positions.get(&id).unwrap().as_str());
        a.append("!\" fontsize = 12.0");
        labels.insert(id, name);
        attrs.insert(id, a);
        proof {
            assert forall|k: u32| labels@.contains_key(k) implies exists|j: int|
                0 <= j < i + 1 && #[trigger] nodes[j].0.0 == k by {
                if k != id {
                    let j = choose|j: int| 0 <= j < i && #[trigger] nodes[j].0.0 == k;
                    assert(0 <= j < i + 1 && nodes[j].0.0 == k);
                } else {
                    assert(nodes[i as int].0.0 == k);
                }
            }
            assert forall|k: u32| (exists|j: int| 0 <= j < i + 1 && #[trigger] nodes[j].0.0 == k) implies labels@.contains_key(k) by {
                let j = choose|j: int| 0 <= j < i + 1 && #[trigger] nodes[j].0.0 == k;
                if j < i {
                    assert(exists|j2: int| 0 <= j2 < i && #[trigger] nodes[j2].0.0 == k);
                }
            }
        }
        i = i + 1;
    }
    proof {
        assert(labels@.map_values(|t: String| t@) =~= station_labels(nodes, data.stations@)) by {
            assert forall|k: u32| labels@.contains_key(k) <==> has_station_id(nodes, k) by {
                if has_station_id(nodes, k) {
                    let j = choose|j: int| 0 <= j < nodes.len() && nodes[j].0.0 == k;
                    assert(0 <= j < i && nodes[j].0.0 == k);
                }
            }
        }
        assert(attrs@.map_values(|t: String| t@) =~= station_node_attrs(nodes, positions@.map_values(|t: String| t@))) by {
            assert forall|k: u32| attrs@.contains_key(k) <==> has_station_id(nodes, k) by {
                if has_station_id(nodes, k) {
                    let j = choose|j: int| 0 <= j < nodes.len() && nodes[j].0.0 == k;
                    assert(0 <= j < i && nodes[j].0.0 == k);
                }
            }
        }
        assert forall|j: int| 0 <= j < nodes.len() implies labels@.contains_key(#[trigger] nodes[j].0.0) && attrs@.contains_key(nodes[j].0.0) by {
            assert(0 <= j < i && nodes[j].0.0 == nodes[j].0.0);
        }
    }
    (labels, attrs)
}

impl Network {
    /// The drawing of the network: its stations labelled by name and pinned
    /// at their positions (`positions` gives each station's `x,y` by entity
    /// number), its edges in the colors of their lines.
    pub fn to_dot(&self, data: &SubwayData, positions: &BTreeMap<u32, String>) -> (r: String)
        requires
            drawable(*self, *data, positions@),
        ensures
            r@ == network_dot_text(*self, *data, positions@.map_values(|t: String| t@)),
    {
        let (labels, attrs) = station_texts(self, data, positions);
        let m = station_edge_count(&self.graph);
        let mut edge_attrs: Vec<String> = Vec::new();
        let mut i: usize = 0;
        while i < m
            invariant
                drawable(*self, *data, positions@),
                m == station_edges(self.graph).len(),
                i <= m,
                edge_attrs@.len() == i,
                forall|j: int|
                    0 <= j < i ==> (#[trigger] edge_attrs@[j])@ == line_edge_attrs(station_edges(self.graph), data.lines@)[j],
            decreases m - i,
        {
            let line = station_edge_weight(&self.graph, i);
            proof {
                assert(station_edges(self.graph)[i as int].2@ < data.lines@.len());
            }
            let a = line_edge_attributes(data, line);
            edge_attrs.push(a);
            i = i + 1;
        }
        proof {
            assert(edge_attrs@.map_values(|t: String| t@) =~= line_edge_attrs(station_edges(self.graph), data.lines@));
        }
        station_dot(&self.graph, &labels, &attrs, &edge_attrs)
    }

    /// The drawing of a solution over the network: as `to_dot`, but an edge
    /// whose arc (source, target and line entity numbers) the solution does
    /// not take is grey.
    pub fn to_dot_arcs(&self, data: &SubwayData, positions: &BTreeMap<u32, String>, arcs: &BTreeSet<(u32, u32, u32)>) -> (r: String)
        requires
            drawable(*self, *data, positions@),
        ensures
            r@ == arcs_dot_text(*self, *data, positions@.map_values(|t: String| t@), arcs@),
    {
        let (labels, attrs) = station_texts(self, data, positions);
        let ghost nodes = station_nodes(self.graph);
        let ghost edges = station_edges(self.graph);
        let m = station_edge_count(&self.graph);
        let mut edge_attrs: Vec<String> = Vec::new();
        let mut i: usize = 0;
        while i < m
            invariant
                drawable(*self, *data, positions@),
                nodes == station_nodes(self.graph),
                edges == station_edges(self.graph),
                m == edges.len(),
                i <= m,
                edge_attrs@.len() == i,
                forall|j: int| 0 <= j < i ==> (#[trigger] edge_attrs@[j])@ == arc_edge_attrs(nodes, edges, data.lines@, arcs@)[j],
            decreases m - i,
        {
            let line = station_edge_weight(&self.graph, i);
            let (src, dst) = station_edge_endpoints(&self.graph, i);
            proof {
                assert(edges[i as int].2@ < data.lines@.len());
                assert(src < nodes.len() && dst < nodes.len());
            }
            let a = arc_edge_attributes(
                data,
                arcs,
                station_node_weight(&self.graph, src),
                station_node_weight(&self.graph, dst),
                line,
            );
            edge_attrs.push(a);
            i = i + 1;
        }
        proof {
            assert(edge_attrs@.map_values(|t: String| t@) =~= arc_edge_attrs(nodes, edges, data.lines@, arcs@));
        }
        station_dot(&self.graph, &labels, &attrs, &edge_attrs)
    }
}

/// A drawing of a solution that takes the arc of every edge is the drawing
/// of the network; one that takes none draws every edge grey.
pub proof fn lemma_arcs_dot(net: Network, data: SubwayData, positions: Map<u32, Seq<char>>, arcs: Set<(u32, u32, u32)>)
    ensures
        (forall|i: int|
            0 <= i < station_edges(net.graph).len() ==> arcs.contains(
                edge_arc(station_nodes(net.graph), data.lines@, #[trigger] station_edges(net.graph)[i]),
            )) ==> arcs_dot_text(net, data, positions, arcs) == network_dot_text(net, data, positions),
        arcs.is_empty() ==> arcs_dot_text(net, data, positions, arcs) == station_dot_text(
            station_nodes(net.graph),
            station_edges(net.graph),
            station_labels(station_nodes(net.graph), data.stations@),
            station_node_attrs(station_nodes(net.graph), positions),
            Seq::new(station_edges(net.graph).len(), |i: int| edge_attrs_text("ccc"@)),
        ),
{
    let nodes = station_nodes(net.graph);
    let edges = station_edges(net.graph);
    if forall|i: int| 0 <= i < edges.len() ==> arcs.contains(edge_arc(nodes, data.lines@, #[trigger] edges[i])) {
        assert(arc_edge_attrs(nodes, edges, data.lines@, arcs) =~= line_edge_attrs(edges, data.lines@));
    }
    if arcs.is_empty() {
        assert(arc_edge_attrs(nodes, edges, data.lines@, arcs) =~= Seq::new(edges.len(), |i: int| edge_attrs_text("ccc"@)));
    }
}

/// The drawing of a line graph: each node filled with the color of its line
/// and the line's name as tooltip, each edge with its station's name as
/// tooltip.
pub open spec fn inverted_dot_text(inv: InvertedNetwork, data: SubwayData) -> Seq<char> {
    let nodes = line_nodes(inv.graph);
    let edges = line_edges(inv.graph);
    line_dot_text(
        nodes,
        edges,
        Seq::new(
            nodes.len(),
            |i: int| line_node_attrs_text(data.lines@[nodes[i]@ as int].color@, data.lines@[nodes[i]@ as int].name@),
        ),
        Seq::new(edges.len(), |i: int| station_edge_attrs_text(data.stations@[edges[i].2.0.0].name@)),
    )
}

impl InvertedNetwork {
    /// The drawing of the line graph: its nodes filled with the colors of
    /// their lines, the lines' names as tooltips, its edges with their
    /// stations' names as tooltips. Every line must be one of the data and
    /// every station known.
    pub fn to_dot(&self, data: &SubwayData) -> (r: String)
        requires
            forall|i: int| 0 <= i < line_nodes(self.graph).len() ==> (#[trigger] line_nodes(self.graph)[i])@ < data.lines@.len(),
            forall|i: int|
                0 <= i < line_edges(self.graph).len() ==> data.stations@.contains_key(
                    (#[trigger] line_edges(self.graph)[i]).2.0.0,
                ),
        ensures
            r@ == inverted_dot_text(*self, *data),
    {
        let ghost nodes = line_nodes(self.graph);
        let ghost edges = line_edges(self.graph);
        let n = line_node_count(&self.graph);
        let mut node_attrs: Vec<String> = Vec::new();
        let mut i: usize = 0;
        while i < n
            invariant
                nodes == line_nodes(self.graph),
                n == nodes.len(),
                forall|j: int| 0 <= j < nodes.len() ==> (#[trigger] nodes[j])@ < data.lines@.len(),
                i <= n,
                node_attrs@.len() == i,
                forall|j: int|
                    0 <= j < i ==> (#[trigger] node_attrs@[j])@ == line_node_attrs_text(
                        data.lines@[nodes[j]@ as int].color@,
                        data.lines@[nodes[j]@ as int].name@,
                    ),
            decreases n - i,
        {
            let line = line_node_weight(&self.graph, i);
            proof {
                assert(nodes[i as int]@ < data.lines@.len());
            }
            node_attrs.push(line_node_attributes(data, line));
            i = i + 1;
        }
        let m = line_edge_count(&self.graph);
        let mut edge_attrs: Vec<String> = Vec::new();
        let mut k: usize = 0;
        while k < m
            invariant
                edges == line_edges(self.graph),
                m == edges.len(),
                forall|j: int| 0 <= j < edges.len() ==> data.stations@.contains_key((#[trigger] edges[j]).2.0.0),
                k <= m,
                edge_attrs@.len() == k,
                forall|j: int|
                    0 <= j < k ==> (#[trigger] edge_attrs@[j])@ == station_edge_attrs_text(data.stations@[edges[j].2.0.0].name@),
            decreases m - k,
        {
            let st = line_edge_weight(&self.graph, k);
            proof {
                assert(data.stations@.contains_key(edges[k as int].2.0.0));
            }
            edge_attrs.push(station_edge_attributes(data, st));
            k = k + 1;
        }
        proof {
            assert(node_attrs@.map_values(|t: String| t@) =~= Seq::new(
                nodes.len(),
                |i: int| line_node_attrs_text(data.lines@[nodes[i]@ as int].color@, data.lines@[nodes[i]@ as int].name@),
            ));
            assert(edge_attrs@.map_values(|t: String| t@) =~= Seq::new(
                edges.len(),
                |i: int| station_edge_attrs_text(data.stations@[edges[i].2.0.0].name@),
            ));
        }
        line_dot(&self.graph, &node_attrs, &edge_attrs)
    }
}

} // verus!
