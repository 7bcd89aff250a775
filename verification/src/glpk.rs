//! The data of the model that the GLPK solver `glpsol` takes, where its
//! solution is cached, and how the legs of a solution read.
use vstd::prelude::*;
use std::collections::BTreeMap;
use vstd::std_specs::iter::IteratorSpec;

use crate::cache::{blake3_hex, cache_file, cache_file_name, fingerprint, fingerprint_of};
use crate::graph::{
    station_edge_count, station_edge_endpoints, station_edge_weight, station_edges, station_graph_wf,
    station_node_weight, station_nodes,
};
use crate::network::{lemma_increasing_keys, lemma_sorted_ids, sorted_ids, sorted_listing, Network};
use crate::queries::{Line, LineId, LineQid, Qid, StationQid, SubwayData};
use crate::scip::edges_on_lines;
use crate::text::qid_text;

verus! {

broadcast use vstd::std_specs::btree::group_btree_axioms, vstd::laws_cmp::group_laws_cmp;

/// The model of riding every line, as GLPK solves it.
pub struct PaperOpt {}

/// Texts joined by line breaks.
pub open spec fn joined_lines(items: Seq<Seq<char>>) -> Seq<char>
    decreases items.len(),
{
    if items.len() == 0 {
        Seq::empty()
    } else if items.len() == 1 {
        items[0]
    } else {
        joined_lines(items.drop_last()) + "\n"@ + items.last()
    }
}

/// An arc as the model data writes it: `(source,target,line)`.
pub open spec fn arc_tuple(source: u32, target: u32, line: u32) -> Seq<char> {
    "("@ + qid_text(source) + ","@ + qid_text(target) + ","@ + qid_text(line) + ")"@
}

/// The arc that an edge of the network is, as the model data writes it.
pub open spec fn edge_tuple(nodes: Seq<StationQid>, lines: Seq<Line>, e: (usize, usize, LineId)) -> Seq<char> {
    arc_tuple(nodes[e.0 as int].0.0, nodes[e.1 as int].0.0, lines[e.2@ as int].qid.0.0)
}

/// The data of the model: the set of real stations (by increasing entity
/// number), the set of real lines (in order) and the set of real arcs (one
/// per edge, in edge order), one element per line.
pub open spec fn model_data_text(
    stations: Seq<u32>,
    lines: Seq<Line>,
    nodes: Seq<StationQid>,
    edges: Seq<(usize, usize, LineId)>,
) -> Seq<char> {
    "set RealStations := \n"@ + joined_lines(stations.map_values(|s: u32| qid_text(s))) + "\n;\nset RealLines := \n"@
        + joined_lines(lines.map_values(|l: Line| qid_text(l.qid.0.0))) + "\n;\nset RealArcs := \n"@
        + joined_lines(edges.map_values(|e: (usize, usize, LineId)| edge_tuple(nodes, lines, e))) + "\n;\nend;\n"@
}

/// The texts of a list of strings.
pub open spec fn texts(items: Seq<String>) -> Seq<Seq<char>> {
    items.map_values(|s: String| s@)
}

/// Appends the items, joined by line breaks.
fn push_joined(r: &mut String, items: &Vec<String>)
    ensures
        final(r)@ == old(r)@ + joined_lines(texts(items@)),
{
    let ghost r0 = r@;
    let mut k: usize = 0;
    while k < items.len()
        invariant
            k <= items@.len(),
            r@ == r0 + joined_lines(texts(items@.take(k as int))),
        decreases items@.len() - k,
    {
        if k > 0 {
            r.append("\n");
        }
        r.append(items[k].as_str());
        proof {
            let t = texts(items@.take(k + 1));
            assert(t.drop_last() =~= texts(items@.take(k as int)));
            assert(t.last() == items@[k as int]@);
            if k == 0 {
                assert(texts(items@.take(0)) =~= Seq::<Seq<char>>::empty());
                assert(r@ =~= r0 + joined_lines(t));
            } else {
                assert(r@ =~= r0 + joined_lines(t));
            }
        }
        k = k + 1;
    }
    proof {
        assert(items@.take(k as int) =~= items@);
    }
}

/// The entity numbers of the stations of the data, increasing.
fn station_numbers(data: &SubwayData) -> (r: Vec<u32>)
    ensures
        r@ == sorted_ids(data.stations@.dom()),
{
    let mut r: Vec<u32> = Vec::new();
    for k in iter: data.stations.keys()
        invariant
            iter.seq() == vstd::std_specs::btree::spec_keys_iter(&data.stations).remaining(),
            iter.seq().len() == data.stations@.dom().len(),
            vstd::std_specs::btree::increasing_seq(iter.seq()),
            r@ == iter.seq().take(iter.index()).unref(),
        ensures
            r@ == vstd::std_specs::btree::spec_keys_iter(&data.stations).remaining().unref(),
    {
        let ghost i0 = iter.index();
        assert(*k == *iter.seq()[i0]);
        r.push(*k);
        proof {
            assert(iter.seq().take(i0 + 1).unref() =~= iter.seq().take(i0).unref().push(*k));
        }
    }
    proof {
        let s = r@;
        let keys = vstd::std_specs::btree::spec_keys_iter(&data.stations).remaining();
        assert forall|a: int, b: int| 0 <= a < b < s.len() implies s[a] < s[b] by {
            lemma_increasing_keys(keys, a, b);
        }
        assert(s.to_set() == data.stations@.dom());
        lemma_sorted_ids(s, data.stations@.dom());
    }
    r
}

impl PaperOpt {
    /// The data of the model for the network: its stations, the lines of the
    /// data and its edges as arcs. Every edge must be on a line of the data.
    pub fn model_data(network: &Network, data: &SubwayData) -> (r: String)
        requires
            station_graph_wf(network.graph),
            edges_on_lines(station_edges(network.graph), data.lines@),
        ensures
            r@ == model_data_text(
                sorted_ids(data.stations@.dom()),
                data.lines@,
                station_nodes(network.graph),
                station_edges(network.graph),
            ),
    {
        let ghost nodes = station_nodes(network.graph);
        let ghost edges = station_edges(network.graph);
        let ids = station_numbers(data);
        let mut station_texts: Vec<String> = Vec::new();
        let mut i: usize = 0;
        while i < ids.len()
            invariant
                i <= ids@.len(),
                texts(station_texts@) == ids@.take(i as int).map_values(|s: u32| qid_text(s)),
            decreases ids@.len() - i,
        {
            let ghost prev = station_texts@;
            station_texts.push(Qid(ids[i]).to_text());
            proof {
                assert(texts(station_texts@) =~= texts(prev).push(qid_text(ids@[i as int])));
                assert(ids@.take(i + 1).map_values(|s: u32| qid_text(s)) =~= ids@.take(i as int).map_values(
                    |s: u32| qid_text(s),
                ).push(qid_text(ids@[i as int])));
            }
            i = i + 1;
        }
        let mut line_texts: Vec<String> = Vec::new();
        let mut i: usize = 0;
        while i < data.lines.len()
            invariant
                i <= data.lines@.len(),
                texts(line_texts@) == data.lines@.take(i as int).map_values(|l: Line| qid_text(l.qid.0.0)),
            decreases data.lines@.len() - i,
        {
            let ghost prev = line_texts@;
            line_texts.push(data.lines[i].qid.0.to_text());
            proof {
                assert(texts(line_texts@) =~= texts(prev).push(qid_text(data.lines@[i as int].qid.0.0)));
                assert(data.lines@.take(i + 1).map_values(|l: Line| qid_text(l.qid.0.0)) =~= data.lines@.take(
                    i as int,
                ).map_values(|l: Line| qid_text(l.qid.0.0)).push(qid_text(data.lines@[i as int].qid.0.0)));
            }
            i = i + 1;
        }
        let mut arc_texts: Vec<String> = Vec::new();
        let nb_edges = station_edge_count(&network.graph);
        let mut i: usize = 0;
        while i < nb_edges
            invariant
                station_graph_wf(network.graph),
                edges_on_lines(station_edges(network.graph), data.lines@),
                nodes == station_nodes(network.graph),
                edges == station_edges(network.graph),
                nb_edges == edges.len(),
                i <= nb_edges,
                texts(arc_texts@) == edges.take(i as int).map_values(
                    |e: (usize, usize, LineId)| edge_tuple(nodes, data.lines@, e),
                ),
            decreases nb_edges - i,
        {
            let (a, b) = station_edge_endpoints(&network.graph, i);
            let w = station_edge_weight(&network.graph, i);
            let sa = station_node_weight(&network.graph, a);
            let sb = station_node_weight(&network.graph, b);
            assert(edges[i as int].2@ < data.lines@.len());
            let mut t = String::from_str("(");
            t.append(sa.0.to_text().as_str());
            t.append(",");
            t.append(sb.0.to_text().as_str());
            t.append(",");
            t.append(data.lines[w.index()].qid.0.to_text().as_str());
            t.append(")");
            let ghost prev = arc_texts@;
            proof {
                assert(t@ =~= edge_tuple(nodes, data.lines@, edges[i as int]));
            }
            arc_texts.push(t);
            proof {
                assert(texts(arc_texts@) =~= texts(prev).push(edge_tuple(nodes, data.lines@, edges[i as int])));
                assert(edges.take(i + 1).map_values(|e: (usize, usize, LineId)| edge_tuple(nodes, data.lines@, e))
                    =~= edges.take(i as int).map_values(
                    |e: (usize, usize, LineId)| edge_tuple(nodes, data.lines@, e),
                ).push(edge_tuple(nodes, data.lines@, edges[i as int])));
            }
            i = i + 1;
        }
        proof {
            assert(ids@.take(ids@.len() as int) =~= ids@);
            assert(data.lines@.take(data.lines@.len() as int) =~= data.lines@);
            assert(edges.take(nb_edges as int) =~= edges);
        }
        let mut r = String::from_str("set RealStations := \n");
        push_joined(&mut r, &station_texts);
        r.append("\n;\nset RealLines := \n");
        push_joined(&mut r, &line_texts);
        r.append("\n;\nset RealArcs := \n");
        push_joined(&mut r, &arc_texts);
        r.append("\n;\nend;\n");
        r
    }

    /// Where the solution of the model `name` on `data` is cached:
    /// `.cache/glpsol/name_fingerprint.txt`, the fingerprint being that of
    /// the model followed by its data.
    pub fn solution_cache_file(name: &str, model: &str, data: &str) -> (r: String)
        ensures
            r@ == cache_file_name(".cache/glpsol"@, name@, fingerprint_of(blake3_hex(model@ + data@)), "txt"@),
    {
        let mut both = String::from_str(model);
        both.append(data);
        let fp = fingerprint(both.as_str());
        cache_file(".cache/glpsol", name, fp.as_str(), "txt")
    }

    /// The directory where `glpsol` works on the model `name` of the given
    /// fingerprint: `/tmp/glpsol-name-fingerprint`.
    pub fn work_dir(name: &str, fingerprint: &str) -> (r: String)
        ensures
            r@ == "/tmp/glpsol-"@ + name@ + "-"@ + fingerprint@,
    {
        let mut r = String::from_str("/tmp/glpsol-");
        r.append(name);
        r.append("-");
        r.append(fingerprint);
        r
    }

    /// How a leg of a solution reads: `source → target | line`, by the names
    /// of its stations and of its line. Its stations and its line must be
    /// known to the data.
    pub fn leg_text(data: &SubwayData, source: StationQid, target: StationQid, line: LineQid) -> (r: String)
        requires
            data.wf(),
            data.stations@.contains_key(source.0.0),
            data.stations@.contains_key(target.0.0),
            data.line_map@.contains_key(line.0.0),
        ensures
            r@ == data.stations@[source.0.0].name@ + " → "@ + data.stations@[target.0.0].name@ + " | "@
                + data.lines@[data.line_map@[line.0.0]@ as int].name@,
    {
        let from = data.stations.get(&source.0.0).unwrap();
        let to = data.stations.get(&target.0.0).unwrap();
        let id = data.line_map.get(&line.0.0).unwrap();
        let mut r = String::from_str(from.display_name().as_str());
        r.append(" → ");
        r.append(to.display_name().as_str());
        r.append(" | ");
        r.append(data.lines[id.index()].display_name().as_str());
        r
    }
}

} // verus!
