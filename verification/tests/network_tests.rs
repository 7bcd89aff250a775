use metro_speedrun::network::{InvertedNetwork, Network};
use metro_speedrun::queries::{Connection, Line, LineQid, Qid, Station, StationQid, SubwayData};
use petgraph::graph::NodeIndex;

fn data(lines: &[u32], stations: &[u32], links: &[(u32, u32, u32)]) -> SubwayData {
    let lines = lines
        .iter()
        .map(|q| Line { qid: LineQid(Qid(*q)), name: format!("L{q}"), color: "abcdef".to_string() })
        .collect();
    let stations = stations
        .iter()
        .map(|q| Station { qid: StationQid(Qid(*q)), name: format!("S{q}") })
        .collect();
    let connections = links
        .iter()
        .map(|(a, b, l)| Connection {
            station_qid: StationQid(Qid(*a)),
            adjacent_station_qid: StationQid(Qid(*b)),
            line_qid: LineQid(Qid(*l)),
        })
        .collect();
    SubwayData::from_records(lines, stations, connections)
}

fn both_ways(links: &[(u32, u32, u32)]) -> Vec<(u32, u32, u32)> {
    links.iter().flat_map(|(a, b, l)| [(*a, *b, *l), (*b, *a, *l)]).collect()
}

#[test]
fn network_nodes_are_sorted_stations() {
    let d = data(&[10], &[30, 10, 20], &[(30, 10, 10)]);
    let net = Network::from_data(&d);
    assert_eq!(net.graph.node_count(), 3);
    assert_eq!(net.graph.edge_count(), 1);
    assert_eq!(net.graph[NodeIndex::new(0)], StationQid(Qid(10)));
    assert_eq!(net.graph[NodeIndex::new(1)], StationQid(Qid(20)));
    assert_eq!(net.graph[NodeIndex::new(2)], StationQid(Qid(30)));
    let e = net.graph.edge_indices().next().unwrap();
    assert_eq!(net.graph.edge_endpoints(e), Some((NodeIndex::new(2), NodeIndex::new(0))));
    assert_eq!(net.graph[e].index(), 0);
}

#[test]
fn single_line_is_stripped_entirely() {
    let d = data(&[10], &[1, 2, 3], &both_ways(&[(1, 2, 10), (2, 3, 10)]));
    let mut net = Network::from_data(&d);
    assert_eq!(net.strip_line_ends(), 3);
    assert_eq!(net.graph.node_count(), 0);
    assert_eq!(net.graph.edge_count(), 0);
}

#[test]
fn crossing_lines_keep_every_station() {
    let d = data(&[10, 20], &[1, 2, 3, 4, 5], &both_ways(&[(1, 2, 10), (2, 3, 10), (4, 2, 20), (2, 5, 20)]));
    let mut net = Network::from_data(&d);
    assert_eq!(net.strip_line_ends(), 0);
    assert_eq!(net.graph.node_count(), 5);
    assert_eq!(net.graph.edge_count(), 8);
}

#[test]
fn branch_end_is_stripped() {
    let d = data(&[10, 20], &[1, 2, 3, 4, 5], &both_ways(&[(1, 2, 10), (2, 3, 10), (3, 4, 10), (3, 5, 20)]));
    let mut net = Network::from_data(&d);
    assert_eq!(net.strip_line_ends(), 1);
    assert_eq!(net.graph.node_count(), 4);
    assert_eq!(net.graph.edge_count(), 6);
    let left: Vec<u32> = net.graph.node_weights().map(|s| s.0.id()).collect();
    assert_eq!(left, vec![5, 2, 3, 4]);
    // stripping again finds nothing more
    assert_eq!(net.strip_line_ends(), 0);
}

#[test]
fn isolated_station_is_stripped() {
    let d = data(&[10, 20], &[1, 2, 3, 4], &both_ways(&[(1, 2, 10), (2, 3, 20)]));
    let mut net = Network::from_data(&d);
    assert_eq!(net.strip_line_ends(), 1);
    let left: Vec<u32> = net.graph.node_weights().map(|s| s.0.id()).collect();
    assert_eq!(left, vec![1, 2, 3]);
}

#[test]
fn inverted_network_has_one_node_per_transition() {
    let d = data(&[10, 20], &[1, 2, 3], &both_ways(&[(1, 2, 10), (2, 3, 20)]));
    let net = Network::from_data(&d);
    let inv = InvertedNetwork::from_network(&net);
    assert_eq!(inv.graph.node_count(), 2);
    assert_eq!(inv.graph[NodeIndex::new(0)].index(), 0);
    assert_eq!(inv.graph[NodeIndex::new(1)].index(), 1);
    assert_eq!(inv.graph.edge_count(), 6);
    let edges: Vec<(usize, usize, u32)> = inv
        .graph
        .edge_indices()
        .map(|e| {
            let (a, b) = inv.graph.edge_endpoints(e).unwrap();
            (a.index(), b.index(), inv.graph[e].0.id())
        })
        .collect();
    assert_eq!(edges, vec![(0, 1, 2), (0, 0, 2), (0, 0, 1), (1, 1, 3), (1, 1, 2), (1, 0, 2)]);
}

#[test]
fn checked_line_graph_of_a_small_network() {
    let d = data(&[10, 20], &[1, 2, 3], &both_ways(&[(1, 2, 10), (2, 3, 20)]));
    let net = Network::from_data(&d);
    let inv = InvertedNetwork::try_from_network(&net).unwrap();
    assert_eq!(inv.graph.node_count(), 2);
    assert_eq!(inv.graph.edge_count(), 6);
}
