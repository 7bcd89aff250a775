use metro_speedrun::network::{InvertedNetwork, Network};
use metro_speedrun::queries::{Connection, Line, LineId, LineQid, Qid, Station, StationQid, SubwayData};
use metro_speedrun::traversals::{
    count_ones, InvertedBfs, NormalDfs, Streak, MAX_DEPTH, MAX_LINE_STREAK, MAX_ROUTE_LENGTH, MIN_DEPTH,
};

fn data(lines: &[u32], stations: &[u32], links: &[(u32, u32, u32)]) -> SubwayData {
    let lines = lines
        .iter()
        .map(|q| Line { qid: LineQid(Qid(*q)), name: format!("L{q}"), color: "abcdef".to_string() })
        .collect();
    let stations = stations
        .iter()
        .map(|q| Station { qid: StationQid(Qid(*q)), name: format!("S{q}") })
        .collect();
    let connections = links
        .iter()
        .map(|(a, b, l)| Connection {
            station_qid: StationQid(Qid(*a)),
            adjacent_station_qid: StationQid(Qid(*b)),
            line_qid: LineQid(Qid(*l)),
        })
        .collect();
    SubwayData::from_records(lines, stations, connections)
}

fn two_lines() -> SubwayData {
    data(&[10, 20], &[1, 2, 3], &[(1, 2, 10), (2, 1, 10), (2, 3, 20), (3, 2, 20)])
}

#[test]
fn count_ones_counts_lines() {
    assert_eq!(count_ones(0), 0);
    assert_eq!(count_ones(0b1011), 3);
    assert_eq!(count_ones(u32::MAX), 32);
    assert_eq!(count_ones(1 << 31), 1);
}

#[test]
fn streak_records_and_saves() {
    let mut s = Streak::new(5u32);
    assert_eq!(s.current, 0);
    let saved = s.record_kind_and_save(5);
    assert_eq!((saved.kind, saved.current), (5, 0));
    assert_eq!((s.kind, s.current), (5, 1));
    let saved = s.record_kind_and_save(7);
    assert_eq!((saved.kind, saved.current), (5, 1));
    assert_eq!((s.kind, s.current), (7, 1));
    s.record_kind_and_save(7);
    assert_eq!((s.kind, s.current), (7, 2));
    // restoring the saved streak undoes the record
    let before = s;
    let saved = s.record_kind_and_save(9);
    s = saved;
    assert_eq!((s.kind, s.current), (before.kind, before.current));
}

#[test]
fn search_limits() {
    assert_eq!(MAX_LINE_STREAK, 4);
    assert_eq!(MAX_ROUTE_LENGTH, 27);
    assert_eq!((MIN_DEPTH, MAX_DEPTH), (25, 30));
}

#[test]
fn depth_first_routes_from_each_station() {
    let d = two_lines();
    let net = Network::from_data(&d);
    let found = NormalDfs::traverse(&net, &d);
    assert_eq!(found.len(), 3);
    // never straight back to the station just left
    assert_eq!(found[0], vec![vec![0, 1, 2]]);
    assert!(found[1].is_empty());
    assert_eq!(found[2], vec![vec![2, 1, 0]]);
}

#[test]
fn continue_at_leaves_the_search_as_it_was() {
    let d = two_lines();
    let net = Network::from_data(&d);
    let mut dfs = NormalDfs {
        graph: &net.graph,
        data: &d,
        route: vec![2],
        lines_taken: 0,
        line_streak: Streak::new(LineId::default()),
    };
    let mut found = vec![vec![9]];
    dfs.continue_at(2, &mut found);
    assert_eq!(found, vec![vec![9], vec![2, 1, 0]]);
    assert_eq!(dfs.route, vec![2]);
    assert_eq!(dfs.lines_taken, 0);
    assert_eq!(dfs.line_streak.current, 0);
}

#[test]
fn routes_of_a_single_line_end_at_once() {
    let d = data(&[10], &[1, 2], &[(1, 2, 10), (2, 1, 10)]);
    let net = Network::from_data(&d);
    let found = NormalDfs::traverse(&net, &d);
    assert_eq!(found, vec![vec![vec![0, 1]], vec![vec![1, 0]]]);
}

#[test]
fn deepening_search_finds_the_long_chain() {
    // 26 stations on one line: 25 transitions in a row
    let stations: Vec<u32> = (1..=26).collect();
    let mut links = Vec::new();
    for i in 1..26 {
        links.push((i, i + 1, 10));
        links.push((i + 1, i, 10));
    }
    let d = data(&[10], &stations, &links);
    let net = Network::from_data(&d);
    let inv = InvertedNetwork::from_network(&net);
    assert_eq!(inv.graph.node_count(), 25);
    let found = InvertedBfs::iddfs(&inv, &d, 0);
    assert_eq!(found.len(), 6);
    assert_eq!(found[0], vec![((0..25).collect::<Vec<usize>>(), 1)]);
    for depth in &found[1..] {
        assert!(depth.is_empty());
    }
    let from_end = InvertedBfs::iddfs(&inv, &d, 24);
    assert_eq!(from_end[0], vec![((0..25).rev().collect::<Vec<usize>>(), 1)]);
}

#[test]
fn deepening_search_of_a_small_network_finds_nothing() {
    let d = two_lines();
    let net = Network::from_data(&d);
    let inv = InvertedNetwork::from_network(&net);
    let all = InvertedBfs::traverse(&inv, &d);
    assert_eq!(all.len(), 2);
    for per_start in &all {
        assert_eq!(per_start.len(), 6);
        assert!(per_start.iter().all(|found| found.is_empty()));
    }
}

#[test]
fn found_routes_extend_their_start() {
    let d = two_lines();
    let net = Network::from_data(&d);
    let found = NormalDfs::traverse(&net, &d);
    for (start, routes) in found.iter().enumerate() {
        for route in routes {
            assert_eq!(route[0], start);
            assert!(route.len() <= MAX_ROUTE_LENGTH);
        }
    }
}

#[test]
fn found_paths_are_simple_and_complete() {
    let stations: Vec<u32> = (1..=26).collect();
    let mut links = Vec::new();
    for i in 1..26 {
        links.push((i, i + 1, 10));
        links.push((i + 1, i, 10));
    }
    let d = data(&[10], &stations, &links);
    let net = Network::from_data(&d);
    let inv = InvertedNetwork::from_network(&net);
    let found = InvertedBfs::iddfs(&inv, &d, 3);
    for (depth, paths) in found.iter().enumerate() {
        for (path, lines) in paths {
            assert_eq!(path.len(), MIN_DEPTH + depth);
            assert_eq!(path[0], 3);
            assert_eq!(lines.count_ones(), 1);
            let mut seen = path.clone();
            seen.sort();
            seen.dedup();
            assert_eq!(seen.len(), path.len());
        }
    }
}

#[test]
fn search_goes_on_from_a_long_route() {
    let d = two_lines();
    let net = Network::from_data(&d);
    let mut dfs = NormalDfs {
        graph: &net.graph,
        data: &d,
        route: vec![0; MAX_ROUTE_LENGTH + 3],
        lines_taken: 0,
        line_streak: Streak::new(LineId::default()),
    };
    let mut found = Vec::new();
    dfs.continue_at(0, &mut found);
    assert!(found.is_empty());
    assert_eq!(dfs.route.len(), MAX_ROUTE_LENGTH + 3);
}

#[test]
fn streak_of_a_run_of_kinds() {
    let mut s = Streak::new(0u32);
    for k in [1, 1, 2, 2, 2] {
        s.record_kind_and_save(k);
    }
    assert_eq!((s.kind, s.current), (2, 3));
    let mut full = Streak { kind: 1u32, current: u32::MAX };
    full.record_kind_and_save(2);
    assert_eq!((full.kind, full.current), (2, 1));
}

#[test]
fn recording_a_list_of_kinds() {
    let mut s = Streak::new(0u32);
    s.record_kinds(&vec![1, 1, 2, 2, 2]);
    assert_eq!((s.kind, s.current), (2, 3));
    s.record_kinds(&vec![2, 3]);
    assert_eq!((s.kind, s.current), (3, 1));
    let mut t = Streak::new(4u32);
    t.record_kinds(&vec![4, 4]);
    assert_eq!((t.kind, t.current), (4, 2));
    let mut u = Streak::new(8u32);
    u.record_kinds(&vec![]);
    assert_eq!((u.kind, u.current), (8, 0));
}
