use metro_speedrun::cache::{fingerprint, fingerprint_from_hex};
use metro_speedrun::text::{replace_text, QidError};
use metro_speedrun::queries::{
    query_cache_file, query_text, Connection, Line, LineId, LineQid, Qid, Station, StationQid, SubwayData,
};

fn line(q: u32, name: &str, color: &str) -> Line {
    Line { qid: LineQid(Qid(q)), name: name.to_string(), color: color.to_string() }
}

fn station(q: u32, name: &str) -> Station {
    Station { qid: StationQid(Qid(q)), name: name.to_string() }
}

#[test]
fn line_id_bitmask_and_index() {
    let l = LineId::new(3);
    assert_eq!(l.bitmask(), 8);
    assert_eq!(l.index(), 3);
    assert_eq!(LineId::new(0).bitmask(), 1);
    assert_eq!(LineId::new(31).bitmask(), 1u32 << 31);
    assert_eq!(LineId::default().index(), 0);
}

#[test]
fn distinct_lines_have_disjoint_bits() {
    for i in 0..32 {
        for j in 0..32 {
            let a = LineId::new(i).bitmask();
            let b = LineId::new(j).bitmask();
            assert_eq!(a.count_ones(), 1);
            if i != j {
                assert_eq!(a & b, 0);
            }
        }
    }
}

#[test]
fn qid_accessors() {
    assert_eq!(Qid(42).id(), 42);
    assert_eq!(LineQid(Qid(7)).qid(), Qid(7));
    assert_eq!(StationQid(Qid(9)).qid(), Qid(9));
}

#[test]
fn qid_text_and_parse() {
    assert_eq!(Qid(0).to_text(), "Q0");
    assert_eq!(Qid(50716).to_text(), "Q50716");
    assert_eq!(Qid(u32::MAX).to_text(), "Q4294967295");
    assert_eq!(Qid::parse("Q42"), Ok(Qid(42)));
    assert_eq!(Qid::parse("http://www.wikidata.org/entity/Q7"), Ok(Qid(7)));
    assert_eq!(Qid::parse("Q007"), Ok(Qid(7)));
    assert_eq!(Qid::parse("Q+5"), Ok(Qid(5)));
    assert_eq!(Qid::parse("X1"), Err(QidError::Format));
    assert_eq!(Qid::parse("Q"), Err(QidError::Number));
    assert_eq!(Qid::parse(""), Err(QidError::Format));
    assert_eq!(Qid::parse("Q4294967296"), Err(QidError::Number));
    assert_eq!(Qid::parse("Q-1"), Err(QidError::Number));
    assert_eq!(Qid::parse("Q12a"), Err(QidError::Number));
    assert_eq!(Qid::parse("http://www.wikidata.org/entity/X1"), Err(QidError::Format));
    assert_eq!(Qid::parse("http://www.wikidata.org/entity/Qabc"), Err(QidError::Number));
}

#[test]
fn qid_text_reads_back() {
    for n in [0u32, 1, 9, 10, 99, 12345, u32::MAX] {
        assert_eq!(Qid::parse(&Qid(n).to_text()), Ok(Qid(n)));
    }
}

#[test]
fn records_make_subway_data() {
    let lines = vec![line(10, "A", "111111"), line(20, "B", "222222"), line(10, "C", "333333")];
    let stations = vec![station(5, "Five"), station(3, "Three"), station(5, "Again")];
    let connections = vec![Connection {
        station_qid: StationQid(Qid(3)),
        adjacent_station_qid: StationQid(Qid(5)),
        line_qid: LineQid(Qid(20)),
    }];
    let data = SubwayData::from_records(lines, stations, connections);
    assert_eq!(data.nb_lines(), 3);
    assert_eq!(data.lines.len(), 3);
    assert_eq!(data.lines[2].display_name(), "C");
    assert_eq!(data.line_map.len(), 2);
    assert_eq!(data.line_map[&10].index(), 2);
    assert_eq!(data.line_map[&20].index(), 1);
    assert_eq!(data.stations.len(), 2);
    assert_eq!(data.stations[&5].display_name(), "Again");
    assert_eq!(data.stations[&3].name, "Three");
    assert_eq!(data.connections.len(), 1);
}

#[test]
fn fingerprints_are_blake3_prefixes() {
    assert_eq!(fingerprint(""), "af1349b9");
    assert_eq!(fingerprint("abc"), "6437b3ac");
    assert_eq!(fingerprint_from_hex(&"0123456789".chars().collect()), "01234567");
    assert_eq!(fingerprint_from_hex(&"abc".chars().collect()), "abc");
}

#[test]
fn query_cache_file_names() {
    assert_eq!(query_cache_file("lines", ""), ".cache/queries/lines_af1349b9.csv");
    assert_eq!(query_cache_file("stations", "abc"), ".cache/queries/stations_6437b3ac.csv");
}

#[test]
fn query_text_fills_in_the_subway() {
    let template = "SELECT ?line WHERE { ?line wdt:P16 wd:{subway} . ?s wdt:P81 wd:{subway} }";
    assert_eq!(
        query_text(template, "Q50716"),
        "SELECT ?line WHERE { ?line wdt:P16 wd:Q50716 . ?s wdt:P81 wd:Q50716 }"
    );
    assert_eq!(query_text("no placeholder", "Q1"), "no placeholder");
    assert_eq!(query_text("{subway}{subway}", "Q7"), "Q7Q7");
    assert_eq!(query_text("{subway", "Q7"), "{subway");
    assert_eq!(query_text("", "Q7"), "");
}

#[test]
fn replacement_takes_occurrences_left_to_right() {
    assert_eq!(replace_text("aaa", "aa", "b"), "ba");
    assert_eq!(replace_text("abcabc", "bc", "XY"), "aXYaXY");
    assert_eq!(replace_text("été {x}", "{x}", "ü"), "été ü");
}
