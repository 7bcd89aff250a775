use metro_speedrun::cache::{cache_file, fingerprint};
use metro_speedrun::dot::{
    arc_edge_attributes, line_edge_attributes, line_label, line_node_attributes, station_edge_attributes,
    station_label,
};
use metro_speedrun::glpk::PaperOpt;
use metro_speedrun::network::{InvertedNetwork, Network};
use metro_speedrun::text::{point_fields, PointError};
use metro_speedrun::queries::{Connection, Line, LineId, LineQid, Qid, Station, StationQid, SubwayData};
use metro_speedrun::scip::route_to_csv;
use metro_speedrun::solution::{read_solution, SolutionError};
use std::collections::{BTreeMap, BTreeSet};

fn two_lines() -> SubwayData {
    let lines = vec![
        Line { qid: LineQid(Qid(10)), name: "M1".to_string(), color: "ff0000".to_string() },
        Line { qid: LineQid(Qid(20)), name: "M2".to_string(), color: "00ff00".to_string() },
    ];
    let stations = vec![
        Station { qid: StationQid(Qid(1)), name: "Alpha".to_string() },
        Station { qid: StationQid(Qid(2)), name: "Beta".to_string() },
        Station { qid: StationQid(Qid(3)), name: "Gamma".to_string() },
    ];
    let connections = [(1, 2, 10), (2, 1, 10), (2, 3, 20), (3, 2, 20)]
        .iter()
        .map(|(a, b, l)| Connection {
            station_qid: StationQid(Qid(*a)),
            adjacent_station_qid: StationQid(Qid(*b)),
            line_qid: LineQid(Qid(*l)),
        })
        .collect();
    SubwayData::from_records(lines, stations, connections)
}

fn header(fields: &[&str]) -> Vec<String> {
    fields.iter().map(|f| f.to_string()).collect()
}

fn row(a: &str, b: &str, c: &str) -> (String, String, String) {
    (a.to_string(), b.to_string(), c.to_string())
}

#[test]
fn glpk_model_data() {
    let d = two_lines();
    let net = Network::from_data(&d);
    assert_eq!(
        PaperOpt::model_data(&net, &d),
        "set RealStations := \nQ1\nQ2\nQ3\n;\nset RealLines := \nQ10\nQ20\n;\nset RealArcs := \n\
         (Q1,Q2,Q10)\n(Q2,Q1,Q10)\n(Q2,Q3,Q20)\n(Q3,Q2,Q20)\n;\nend;\n"
    );
}

#[test]
fn glpk_files() {
    assert_eq!(PaperOpt::solution_cache_file("metro", "", ""), ".cache/glpsol/metro_af1349b9.txt");
    assert_eq!(PaperOpt::solution_cache_file("metro", "a", "bc"), ".cache/glpsol/metro_6437b3ac.txt");
    assert_eq!(PaperOpt::solution_cache_file("metro", "ab", "c"), format!(".cache/glpsol/metro_{}.txt", fingerprint("abc")));
    assert_eq!(PaperOpt::work_dir("metro", "6437b3ac"), "/tmp/glpsol-metro-6437b3ac");
    assert_eq!(cache_file("dir", "name", "fp", "ext"), "dir/name_fp.ext");
}

#[test]
fn glpk_leg_text() {
    let d = two_lines();
    assert_eq!(
        PaperOpt::leg_text(&d, StationQid(Qid(1)), StationQid(Qid(2)), LineQid(Qid(10))),
        "Alpha → Beta | M1"
    );
    assert_eq!(
        PaperOpt::leg_text(&d, StationQid(Qid(3)), StationQid(Qid(2)), LineQid(Qid(20))),
        "Gamma → Beta | M2"
    );
}

#[test]
fn solution_rows_read() {
    let rows = vec![row("Q1", "Q2", "Q10"), row("http://www.wikidata.org/entity/Q2", "Q3", "Q20"), row("Q1", "Q2", "Q10")];
    let set = read_solution(&header(&["source", "target", "line"]), &rows).unwrap();
    assert_eq!(set, BTreeSet::from([(1, 2, 10), (2, 3, 20)]));
    assert_eq!(read_solution(&header(&["source", "target", "line"]), &vec![]), Ok(BTreeSet::new()));
}

#[test]
fn solution_errors() {
    let rows = vec![row("Q1", "Q2", "Q10")];
    assert_eq!(read_solution(&header(&["sourcet", "arget", "line"]), &rows), Err(SolutionError::Header));
    assert_eq!(read_solution(&header(&["source", "target"]), &rows), Err(SolutionError::Header));
    let bad = vec![row("Q1", "Q2", "Q10"), row("Q2", "X3", "Q20"), row("Q", "Q", "Q")];
    assert_eq!(read_solution(&header(&["source", "target", "line"]), &bad), Err(SolutionError::Entity { row: 1 }));
}

#[test]
fn written_route_reads_back() {
    let legs = vec![
        (StationQid(Qid(1)), StationQid(Qid(2)), LineQid(Qid(10))),
        (StationQid(Qid(2)), StationQid(Qid(3)), LineQid(Qid(20))),
    ];
    let text = route_to_csv(&legs);
    let mut lines = text.lines();
    let fields: Vec<String> = lines.next().unwrap().split(',').map(|f| f.to_string()).collect();
    let rows: Vec<(String, String, String)> = lines
        .map(|l| {
            let f: Vec<&str> = l.split(',').collect();
            row(f[0], f[1], f[2])
        })
        .collect();
    assert_eq!(read_solution(&fields, &rows), Ok(BTreeSet::from([(1, 2, 10), (2, 3, 20)])));
}

#[test]
fn drawing_attributes() {
    let d = two_lines();
    let m1 = LineId::new(0);
    let m2 = LineId::new(1);
    assert_eq!(line_edge_attributes(&d, m1), "color = \"#ff0000\" penwidth = 2.0");
    assert_eq!(line_edge_attributes(&d, m2), "color = \"#00ff00\" penwidth = 2.0");
    let arcs = BTreeSet::from([(1, 2, 10)]);
    assert_eq!(
        arc_edge_attributes(&d, &arcs, StationQid(Qid(1)), StationQid(Qid(2)), m1),
        "color = \"#ff0000\" penwidth = 2.0"
    );
    assert_eq!(
        arc_edge_attributes(&d, &arcs, StationQid(Qid(2)), StationQid(Qid(1)), m1),
        "color = \"#ccc\" penwidth = 2.0"
    );
    assert_eq!(
        line_node_attributes(&d, m2),
        "style = \"filled\" fillcolor = \"#00ff00\" fontsize = 12.0 tooltip = \"M2\""
    );
    assert_eq!(station_edge_attributes(&d, StationQid(Qid(2))), "fontsize = 12.0 tooltip = \"Beta\"");
    assert_eq!(station_label(&d, StationQid(Qid(3))), "Gamma");
    assert_eq!(line_label(&d, m1), "M1");
}

fn positions() -> BTreeMap<u32, String> {
    [(1, "0,0"), (2, "1,0"), (3, "2,1.5")].iter().map(|(k, p)| (*k, p.to_string())).collect()
}

const NODES: &str = "digraph {\n    0 [ label = \"Alpha\" pos = \"0,0!\" fontsize = 12.0]\n    \
                     1 [ label = \"Beta\" pos = \"1,0!\" fontsize = 12.0]\n    \
                     2 [ label = \"Gamma\" pos = \"2,1.5!\" fontsize = 12.0]\n";

#[test]
fn network_drawing() {
    let d = two_lines();
    let net = Network::from_data(&d);
    let expected = format!(
        "{NODES}    0 -> 1 [ color = \"#ff0000\" penwidth = 2.0]\n    1 -> 0 [ color = \"#ff0000\" penwidth = 2.0]\n    \
         1 -> 2 [ color = \"#00ff00\" penwidth = 2.0]\n    2 -> 1 [ color = \"#00ff00\" penwidth = 2.0]\n}}\n"
    );
    assert_eq!(net.to_dot(&d, &positions()), expected);
}

#[test]
fn solution_drawing() {
    let d = two_lines();
    let net = Network::from_data(&d);
    let taken: BTreeSet<(u32, u32, u32)> = [(2, 1, 10)].into_iter().collect();
    let expected = format!(
        "{NODES}    0 -> 1 [ color = \"#ccc\" penwidth = 2.0]\n    1 -> 0 [ color = \"#ff0000\" penwidth = 2.0]\n    \
         1 -> 2 [ color = \"#ccc\" penwidth = 2.0]\n    2 -> 1 [ color = \"#ccc\" penwidth = 2.0]\n}}\n"
    );
    assert_eq!(net.to_dot_arcs(&d, &positions(), &taken), expected);
    // every arc taken: the drawing of the network
    let all: BTreeSet<(u32, u32, u32)> = [(1, 2, 10), (2, 1, 10), (2, 3, 20), (3, 2, 20)].into_iter().collect();
    assert_eq!(net.to_dot_arcs(&d, &positions(), &all), net.to_dot(&d, &positions()));
    // none taken: every edge grey
    let none = BTreeSet::new();
    let grey = net.to_dot_arcs(&d, &positions(), &none);
    assert_eq!(grey.matches("color = \"#ccc\"").count(), 4);
    assert!(grey.starts_with(NODES));
}

#[test]
fn line_graph_drawing() {
    let d = two_lines();
    let net = Network::from_data(&d);
    let inv = InvertedNetwork::from_network(&net);
    let text = inv.to_dot(&d);
    assert!(text.starts_with(
        "digraph {\n    0 [ style = \"filled\" fillcolor = \"#ff0000\" fontsize = 12.0 tooltip = \"M1\"]\n    \
         1 [ style = \"filled\" fillcolor = \"#00ff00\" fontsize = 12.0 tooltip = \"M2\"]\n"
    ));
    assert!(text.ends_with("}\n"));
    assert_eq!(text.lines().filter(|l| l.contains("->")).count(), inv.graph.edge_count());
    for (line, e) in text.lines().filter(|l| l.contains("->")).zip(inv.graph.raw_edges()) {
        let name = &d.stations[&e.weight.0.0].name;
        assert_eq!(
            line,
            format!(
                "    {} -> {} [ fontsize = 12.0 tooltip = \"{}\"]",
                e.source().index(),
                e.target().index(),
                name
            )
        );
    }
}

#[test]
fn point_words() {
    assert_eq!(point_fields("Point(1.5 2)"), Ok(("1.5".to_string(), Some("2".to_string()))));
    assert_eq!(point_fields("Point(  3\t4  5 )"), Ok(("3".to_string(), Some("4".to_string()))));
    assert_eq!(point_fields("Point(7)"), Ok(("7".to_string(), None)));
    assert_eq!(point_fields("Point( )"), Err(PointError::MissingX));
    assert_eq!(point_fields("Point()"), Err(PointError::MissingX));
    assert_eq!(point_fields("Point("), Err(PointError::Format));
    assert_eq!(point_fields("Point(1 2"), Err(PointError::Format));
    assert_eq!(point_fields("Pt(1 2)"), Err(PointError::Format));
    assert_eq!(point_fields(""), Err(PointError::Format));
}
