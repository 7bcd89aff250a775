use metro_speedrun::network::Network;
use metro_speedrun::queries::{Connection, Line, LineQid, Qid, Station, StationQid, SubwayData};
use metro_speedrun::scip::{
    line_to_text, order_solution_path, route_to_csv, station_to_text, Domain, ModelArc, ModelLine, ModelStation,
    PaperOpt, PathError, Sense,
};

fn two_lines() -> SubwayData {
    let lines = vec![
        Line { qid: LineQid(Qid(10)), name: "M1".to_string(), color: "ff0000".to_string() },
        Line { qid: LineQid(Qid(20)), name: "M2".to_string(), color: "00ff00".to_string() },
    ];
    let stations = vec![
        Station { qid: StationQid(Qid(1)), name: "Alpha".to_string() },
        Station { qid: StationQid(Qid(2)), name: "Beta".to_string() },
        Station { qid: StationQid(Qid(3)), name: "Gamma".to_string() },
    ];
    let connections = [(1, 2, 10), (2, 1, 10), (2, 3, 20), (3, 2, 20)]
        .iter()
        .map(|(a, b, l)| Connection {
            station_qid: StationQid(Qid(*a)),
            adjacent_station_qid: StationQid(Qid(*b)),
            line_qid: LineQid(Qid(*l)),
        })
        .collect();
    SubwayData::from_records(lines, stations, connections)
}

fn real_station(q: u32) -> ModelStation {
    ModelStation::Real(StationQid(Qid(q)))
}

fn on(q: u32) -> ModelLine {
    ModelLine::Real(LineQid(Qid(q)))
}

fn names(v: &[&str]) -> Vec<String> {
    v.iter().map(|s| s.to_string()).collect()
}

#[test]
fn model_texts() {
    assert_eq!(station_to_text(&real_station(12)), "Q12");
    assert_eq!(station_to_text(&ModelStation::Source), "source");
    assert_eq!(station_to_text(&ModelStation::Target), "target");
    assert_eq!(line_to_text(&on(7)), "Q7");
    assert_eq!(line_to_text(&ModelLine::Dummy), "dummy");
}

#[test]
fn model_of_two_lines() {
    let d = two_lines();
    let net = Network::from_data(&d);
    let m = PaperOpt::new(&net, &d);
    assert_eq!(m.stations, vec![real_station(1), real_station(2), real_station(3), ModelStation::Source, ModelStation::Target]);
    assert_eq!(m.lines, vec![on(10), on(20), ModelLine::Dummy]);
    assert_eq!(m.arcs.len(), 10);
    assert_eq!(m.arcs[0], ModelArc(real_station(1), real_station(2), on(10)));
    assert_eq!(m.arcs[3], ModelArc(real_station(3), real_station(2), on(20)));
    assert_eq!(m.arcs[4], ModelArc(ModelStation::Source, real_station(1), ModelLine::Dummy));
    assert_eq!(m.arcs[9], ModelArc(real_station(3), ModelStation::Target, ModelLine::Dummy));

    assert_eq!(m.variables.len(), 25);
    assert_eq!(m.variables[0].name, "follow_Q1_Q2_Q10");
    assert_eq!(m.variables[0].domain, Domain::Binary);
    assert_eq!(m.variables[0].objective, 1);
    assert_eq!(m.variables[4].name, "follow_source_Q1_dummy");
    assert_eq!(m.variables[10].name, "flow_Q1_Q2_Q10");
    assert_eq!(m.variables[10].domain, Domain::NonNegative);
    assert_eq!(m.variables[10].objective, 0);
    assert_eq!(m.variables[20].name, "y_Q1");
    assert_eq!(m.variables[23].name, "y_source");
    assert_eq!(m.variables[24].name, "y_target");

    assert_eq!(m.constraints.len(), 27);
    // degree balance at Q1: arrivals minus departures
    assert_eq!(m.constraints[0].terms, vec![(1, 1), (4, 1), (0, -1), (7, -1)]);
    assert_eq!(m.constraints[0].sense, Sense::Equal);
    assert_eq!(m.constraints[0].rhs, 0);
    // one arc leaves the source, one reaches the target
    assert_eq!(m.constraints[3].terms, vec![(4, 1), (5, 1), (6, 1)]);
    assert_eq!((m.constraints[3].sense, m.constraints[3].rhs), (Sense::Equal, 1));
    assert_eq!(m.constraints[4].terms, vec![(7, 1), (8, 1), (9, 1)]);
    // each line is ridden
    assert_eq!(m.constraints[5].terms, vec![(0, 1), (1, 1)]);
    assert_eq!((m.constraints[5].sense, m.constraints[5].rhs), (Sense::AtLeast, 1));
    assert_eq!(m.constraints[7].terms, vec![(4, 1), (5, 1), (6, 1), (7, 1), (8, 1), (9, 1)]);
    // flow capacity of the first arc
    assert_eq!(m.constraints[8].terms, vec![(0, 20), (10, -1)]);
    assert_eq!((m.constraints[8].sense, m.constraints[8].rhs), (Sense::AtLeast, 0));
    // flow at Q1
    assert_eq!(m.constraints[18].terms, vec![(11, 1), (14, 1), (10, -1), (17, -1), (20, -1)]);
    // connectivity at the target
    assert_eq!(m.constraints[26].terms, vec![(24, 1), (7, -1), (8, -1), (9, -1)]);
}

#[test]
fn follow_variables_name_their_arcs() {
    let d = two_lines();
    let net = Network::from_data(&d);
    let m = PaperOpt::new(&net, &d);
    assert_eq!(m.follow_arc_named("follow_Q2_Q3_Q20"), Some(ModelArc(real_station(2), real_station(3), on(20))));
    assert_eq!(m.follow_arc_named("flow_Q2_Q3_Q20"), None);
    assert_eq!(m.follow_arc_named("follow_Q1_Q3_Q20"), None);
    let arcs = m.follow_arcs(&names(&["t_y_Q1", "t_follow_Q3_target_dummy", "t_follow_source_Q2_dummy"]));
    assert_eq!(
        arcs,
        vec![
            ModelArc(real_station(3), ModelStation::Target, ModelLine::Dummy),
            ModelArc(ModelStation::Source, real_station(2), ModelLine::Dummy)
        ]
    );
}

#[test]
fn solution_path_from_names() {
    let d = two_lines();
    let net = Network::from_data(&d);
    let m = PaperOpt::new(&net, &d);
    let text = m.solution_path_csv(&names(&[
        "t_follow_Q3_target_dummy",
        "t_flow_Q1_Q2_Q10",
        "t_follow_Q1_Q2_Q10",
        "t_y_Q1",
        "t_follow_Q2_Q3_Q20",
        "t_follow_source_Q1_dummy",
    ]));
    assert_eq!(text, Ok("source,target,line\nQ1,Q2,Q10\nQ2,Q3,Q20\n".to_string()));
    assert_eq!(m.solution_path_csv(&names(&["t_follow_source_Q1_dummy"])), Err(PathError::Malformed));
    assert_eq!(
        m.solution_path_csv(&names(&["t_follow_source_Q1_dummy", "t_follow_Q1_Q2_Q10", "t_follow_Q2_Q1_Q10"])),
        Err(PathError::Malformed)
    );
}

#[test]
fn ordering_arcs_into_a_route() {
    let arcs = vec![
        ModelArc(real_station(2), real_station(3), on(20)),
        ModelArc(real_station(3), ModelStation::Target, ModelLine::Dummy),
        ModelArc(ModelStation::Source, real_station(1), ModelLine::Dummy),
        ModelArc(real_station(1), real_station(2), on(10)),
    ];
    let legs = order_solution_path(&arcs).unwrap();
    assert_eq!(
        legs,
        vec![
            (StationQid(Qid(1)), StationQid(Qid(2)), LineQid(Qid(10))),
            (StationQid(Qid(2)), StationQid(Qid(3)), LineQid(Qid(20)))
        ]
    );
    assert_eq!(route_to_csv(&legs), "source,target,line\nQ1,Q2,Q10\nQ2,Q3,Q20\n");
    assert_eq!(order_solution_path(&vec![]), Err(PathError::Malformed));
    // straight from the source to the target: an empty route
    let direct = vec![ModelArc(ModelStation::Source, ModelStation::Target, ModelLine::Dummy)];
    assert_eq!(order_solution_path(&direct), Ok(vec![]));
    assert_eq!(route_to_csv(&vec![]), "source,target,line\n");
}

#[test]
fn reached_arcs_that_no_trail_uses_are_refused() {
    let arcs = vec![
        ModelArc(ModelStation::Source, real_station(1), ModelLine::Dummy),
        ModelArc(real_station(1), ModelStation::Target, ModelLine::Dummy),
        ModelArc(real_station(1), real_station(2), on(10)),
        ModelArc(real_station(2), ModelStation::Target, ModelLine::Dummy),
    ];
    // no order of these arcs uses them all on the way to the target
    assert_eq!(order_solution_path(&arcs), Err(PathError::Malformed));
}

#[test]
fn arcs_off_the_route_are_left_aside() {
    // a loop 4 -> 5 -> 4 that no walk from the source reaches
    let arcs = vec![
        ModelArc(ModelStation::Source, real_station(1), ModelLine::Dummy),
        ModelArc(real_station(4), real_station(5), on(10)),
        ModelArc(real_station(1), real_station(2), on(10)),
        ModelArc(real_station(5), real_station(4), on(10)),
        ModelArc(real_station(2), ModelStation::Target, ModelLine::Dummy),
    ];
    assert_eq!(
        order_solution_path(&arcs),
        Ok(vec![(StationQid(Qid(1)), StationQid(Qid(2)), LineQid(Qid(10)))])
    );
}

#[test]
fn route_passing_a_station_twice() {
    // source -> a -> b -> a -> c -> target, the arc a -> c listed first
    let arcs = vec![
        ModelArc(ModelStation::Source, real_station(1), ModelLine::Dummy),
        ModelArc(real_station(1), real_station(3), on(10)),
        ModelArc(real_station(3), ModelStation::Target, ModelLine::Dummy),
        ModelArc(real_station(1), real_station(2), on(10)),
        ModelArc(real_station(2), real_station(1), on(20)),
    ];
    let legs = order_solution_path(&arcs).unwrap();
    assert_eq!(
        legs,
        vec![
            (StationQid(Qid(1)), StationQid(Qid(2)), LineQid(Qid(10))),
            (StationQid(Qid(2)), StationQid(Qid(1)), LineQid(Qid(20))),
            (StationQid(Qid(1)), StationQid(Qid(3)), LineQid(Qid(10)))
        ]
    );
}

#[test]
fn balance_terms_follow_arc_order() {
    let lines = vec![Line { qid: LineQid(Qid(10)), name: "M1".to_string(), color: "ff0000".to_string() }];
    let stations = (1..=3)
        .map(|q| Station { qid: StationQid(Qid(q)), name: format!("S{q}") })
        .collect();
    let connections = [(3, 1), (2, 1), (1, 2), (1, 3), (2, 1)]
        .iter()
        .map(|(a, b)| Connection {
            station_qid: StationQid(Qid(*a)),
            adjacent_station_qid: StationQid(Qid(*b)),
            line_qid: LineQid(Qid(10)),
        })
        .collect();
    let d = SubwayData::from_records(lines, stations, connections);
    let net = Network::from_data(&d);
    let m = PaperOpt::new(&net, &d);
    assert_eq!(m.arcs.len(), 11);
    assert_eq!(m.variables.len(), 27);
    // arrivals at Q1 from Q2 (last seen at 4), Q3, then the source; departures to Q2, Q3, then the target
    assert_eq!(m.constraints[0].terms, vec![(4, 1), (0, 1), (5, 1), (2, -1), (3, -1), (8, -1)]);
    // the line counts every occurrence of an arc, by its last one
    assert_eq!(m.constraints[5].terms, vec![(0, 1), (4, 1), (2, 1), (3, 1), (4, 1)]);
}

#[test]
fn follow_names_are_distinct() {
    let d = two_lines();
    let net = Network::from_data(&d);
    let m = PaperOpt::new(&net, &d);
    let n = m.arcs.len();
    for p in 0..n {
        for q in 0..n {
            if m.variables[p].name == m.variables[q].name {
                assert_eq!(m.arcs[p], m.arcs[q]);
            }
        }
        assert_eq!(m.follow_position(&m.variables[p].name), Some(p));
    }
}
