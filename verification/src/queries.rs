//! The records a subway network is made of: Wikidata entities, lines,
//! stations and the connections between them; and where the results of the
//! queries that fetch them are cached.
use vstd::prelude::*;
use vstd::std_specs::cmp::PartialEqSpecImpl;
use std::collections::BTreeMap;

use crate::cache::{blake3_hex, cache_file, cache_file_name, fingerprint, fingerprint_of};
use crate::text::{replace_text, replaced};

verus! {

/// A Wikidata entity number: the `123` of `Q123`.
#[derive(Debug, Clone, Copy, Default, PartialEq, Eq, Structural, PartialOrd, Ord, Hash)]
pub struct Qid(pub u32);

impl Qid {
    /// The entity number.
    pub fn id(&self) -> (r: u32)
        ensures
            r == self.0,
    {
        self.0
    }
}

/// The Wikidata entity of a subway line.
#[derive(Debug, Clone, Copy, Default, PartialEq, Eq, Structural, PartialOrd, Ord, Hash)]
pub struct LineQid(pub Qid);

/// The Wikidata entity of a station.
#[derive(Debug, Clone, Copy, Default, PartialEq, Eq, Structural, PartialOrd, Ord, Hash)]
pub struct StationQid(pub Qid);

impl LineQid {
    /// The entity this line is.
    pub fn qid(&self) -> (r: Qid)
        ensures
            r == self.0,
    {
        self.0
    }
}

impl StationQid {
    /// The entity this station is.
    pub fn qid(&self) -> (r: Qid)
        ensures
            r == self.0,
    {
        self.0
    }
}

/// The number of lines a network may hold: a set of lines is a `u32` bit set.
pub const MAX_LINES: usize = 32;

/// A line number between 0 and 31, the position of the line in the list of
/// lines of a network.
#[derive(Debug, Clone, Copy, Eq, Hash)]
pub struct LineId(u8);

impl PartialEq for LineId {
    fn eq(&self, other: &LineId) -> (r: bool) {
        self.0 == other.0
    }
}

impl PartialEqSpecImpl for LineId {
    open spec fn obeys_eq_spec() -> bool {
        true
    }

    open spec fn eq_spec(&self, other: &LineId) -> bool {
        self@ == other@
    }
}

/// The first line of a network.
pub closed spec fn first_line() -> LineId {
    LineId(0)
}

impl Default for LineId {
    /// The first line.
    fn default() -> (r: LineId)
        ensures
            r == first_line(),
            r@ == 0,
    {
        LineId(0)
    }
}

/// Two lines are the same exactly when their numbers are.
pub proof fn lemma_line_id_view_eq(a: LineId, b: LineId)
    ensures
        a@ == b@ <==> a == b,
{
}

/// A line number fits a byte.
pub proof fn lemma_line_id_byte(l: LineId)
    ensures
        l@ < 256,
{
}

/// Lines compare by their numbers.
pub proof fn lemma_line_id_concrete_eq()
    ensures
        vstd::laws_eq::obeys_concrete_eq::<LineId>(),
{
    reveal(vstd::laws_eq::obeys_concrete_eq);
}

impl View for LineId {
    type V = nat;

    closed spec fn view(&self) -> nat {
        self.0 as nat
    }
}

impl LineId {
    /// Whether the number fits the bit set of lines.
    pub open spec fn wf(self) -> bool {
        self@ < MAX_LINES
    }

    /// The line at position `index`.
    pub fn new(index: usize) -> (r: Self)
        requires
            index < MAX_LINES,
        ensures
            r@ == index,
            r.wf(),
    {
        LineId(index as u8)
    }

    /// The set holding this line alone, as a bit set.
    pub fn bitmask(&self) -> (r: u32)
        requires
            self.wf(),
        ensures
            r == line_bit(self@),
    {
        1u32 << self.0
    }

    /// The position of the line in the list of lines.
    pub fn index(&self) -> (r: usize)
        ensures
            r == self@,
    {
        self.0 as usize
    }
}

/// The bit that stands for line `i` in a set of lines.
pub open spec fn line_bit(i: nat) -> u32 {
    (1u32 << i) as u32
}

/// A subway line: its entity, its name and its color (six hex digits).
#[derive(Debug)]
pub struct Line {
    pub qid: LineQid,
    pub name: String,
    pub color: String,
}

impl Line {
    /// The text a line is shown as: its name.
    pub fn display_name(&self) -> (r: &String)
        ensures
            r@ == self.name@,
    {
        &self.name
    }
}

/// A station: its entity and its name.
#[derive(Debug)]
pub struct Station {
    pub qid: StationQid,
    pub name: String,
}

impl Station {
    /// The text a station is shown as: its name.
    pub fn display_name(&self) -> (r: &String)
        ensures
            r@ == self.name@,
    {
        &self.name
    }
}

/// Two stations next to each other on a line.
#[derive(Debug, Clone, Copy)]
pub struct Connection {
    pub station_qid: StationQid,
    pub adjacent_station_qid: StationQid,
    pub line_qid: LineQid,
}

/// What a subway network is made of: its lines (a line's `LineId` is its
/// position here), the `LineId` of each line entity, its stations keyed by
/// entity number, and the connections between stations.
#[derive(Debug)]
pub struct SubwayData {
    pub lines: Vec<Line>,
    pub line_map: BTreeMap<u32, LineId>,
    pub stations: BTreeMap<u32, Station>,
    pub connections: Vec<Connection>,
}

/// The `LineId` of each line entity in a list of lines: its position in the
/// list, the last one where an entity occurs twice.
pub closed spec fn line_positions(lines: Seq<Line>) -> Map<u32, LineId>
    decreases lines.len(),
{
    if lines.len() == 0 {
        Map::empty()
    } else {
        line_positions(lines.drop_last()).insert(
            lines.last().qid.0.0,
            LineId((lines.len() - 1) as u8),
        )
    }
}

/// The stations of a list keyed by entity number, the last one where an
/// entity occurs twice.
pub open spec fn station_map(stations: Seq<Station>) -> Map<u32, Station>
    decreases stations.len(),
{
    if stations.len() == 0 {
        Map::empty()
    } else {
        station_map(stations.drop_last()).insert(stations.last().qid.0.0, stations.last())
    }
}

/// A list of lines is at most as long as the bit set of lines is wide.
pub open spec fn lines_fit(lines: Seq<Line>) -> bool {
    lines.len() <= MAX_LINES
}

impl SubwayData {
    /// The lines fit a bit set, the `LineId` of each line entity names a line
    /// of that entity, and each station is keyed by its own entity number.
    pub open spec fn wf(&self) -> bool {
        &&& lines_fit(self.lines@)
        &&& forall|k: u32| #[trigger]
            self.line_map@.contains_key(k) ==> {
                &&& self.line_map@[k].wf()
                &&& self.line_map@[k]@ < self.lines@.len()
                &&& self.lines@[self.line_map@[k]@ as int].qid.0.0 == k
            }
        &&& forall|k: u32| #[trigger]
            self.stations@.contains_key(k) ==> self.stations@[k].qid.0.0 == k
    }

    /// Every connection joins known stations along a known line.
    pub open spec fn connections_known(&self) -> bool {
        forall|i: int|
            0 <= i < self.connections@.len() ==> {
                &&& self.stations@.contains_key(#[trigger] self.connections@[i].station_qid.0.0)
                &&& self.stations@.contains_key(self.connections@[i].adjacent_station_qid.0.0)
                &&& self.line_map@.contains_key(self.connections@[i].line_qid.0.0)
            }
    }

    /// Gathers the records of a network: lines are numbered in the order
    /// given, stations are keyed by entity number, connections are kept as
    /// they come. At most `MAX_LINES` lines fit.
    pub fn from_records(lines: Vec<Line>, stations: Vec<Station>, connections: Vec<Connection>) -> (r:
        SubwayData)
        requires
            lines_fit(lines@),
        ensures
            r.lines@ == lines@,
            r.line_map@ == line_positions(lines@),
            forall|k: u32|
                #[trigger] r.line_map@.contains_key(k) <==> exists|i: int| 0 <= i < lines@.len() && lines@[i].qid.0.0 == k,
            forall|k: u32| #[trigger]
                r.line_map@.contains_key(k) ==> {
                    &&& r.line_map@[k]@ < lines@.len()
                    &&& lines@[r.line_map@[k]@ as int].qid.0.0 == k
                    &&& forall|j: int| r.line_map@[k]@ < j < lines@.len() ==> lines@[j].qid.0.0 != k
                },
            r.stations@ == station_map(stations@),
            r.connections@ == connections@,
            r.wf(),
    {
        proof {
            lemma_line_positions(lines@);
        }
        let mut kept_lines: Vec<Line> = Vec::new();
        let mut line_map: BTreeMap<u32, LineId> = BTreeMap::new();
        let mut lines = lines;
        let ghost all_lines = lines@;
        // lines are taken from the back, so reverse first to keep their order
        let mut rev: Vec<Line> = Vec::new();
        while lines.len() > 0
            invariant
                rev@.len() + lines@.len() == all_lines.len(),
                lines@ == all_lines.take(lines@.len() as int),
                forall|j: int| 0 <= j < rev@.len() ==> #[trigger] rev@[j] == all_lines[all_lines.len() - 1 - j],
            decreases lines@.len(),
        {
            let line = lines.pop().unwrap();
            rev.push(line);
        }
        while rev.len() > 0
            invariant
                rev@.len() + kept_lines@.len() == all_lines.len(),
                all_lines.len() <= MAX_LINES,
                kept_lines@ == all_lines.take(kept_lines@.len() as int),
                forall|j: int| 0 <= j < rev@.len() ==> #[trigger] rev@[j] == all_lines[all_lines.len() - 1 - j],
                line_map@ == line_positions(kept_lines@),
            decreases rev@.len(),
        {
            let line = rev.pop().unwrap();
            let i = kept_lines.len();
            let line_id = LineId::new(i);
            line_map.insert(line.qid.0.0, line_id);
            kept_lines.push(line);
            proof {
                assert(kept_lines@.drop_last() == all_lines.take(i as int));
                assert(kept_lines@ == all_lines.take(kept_lines@.len() as int));
            }
        }
        proof {
            assert(kept_lines@ == all_lines);
            lemma_line_positions_wf(all_lines);
        }

        let mut station_by_id: BTreeMap<u32, Station> = BTreeMap::new();
        let nb_stations: usize = stations.len();
        let ghost all_stations = stations@;
        let mut i: usize = 0;
        let mut stations = stations;
        let mut srev: Vec<Station> = Vec::new();
        while stations.len() > 0
            invariant
                srev@.len() + stations@.len() == all_stations.len(),
                all_stations.len() <= usize::MAX,
                stations@ == all_stations.take(stations@.len() as int),
                forall|j: int| 0 <= j < srev@.len() ==> #[trigger] srev@[j] == all_stations[all_stations.len() - 1 - j],
            decreases stations@.len(),
        {
            let st = stations.pop().unwrap();
            srev.push(st);
        }
        while srev.len() > 0
            invariant
                i + srev@.len() == all_stations.len(),
                all_stations.len() <= usize::MAX,
                forall|j: int| 0 <= j < srev@.len() ==> #[trigger] srev@[j] == all_stations[all_stations.len() - 1 - j],
                station_by_id@ == station_map(all_stations.take(i as int)),
            decreases srev@.len(),
        {
            let st = srev.pop().unwrap();
            proof {
                assert(all_stations.take(i + 1).drop_last() == all_stations.take(i as int));
            }
            station_by_id.insert(st.qid.0.0, st);
            i = i + 1;
        }
        proof {
            assert(all_stations.take(i as int) == all_stations);
            lemma_station_map_keys(all_stations);
        }
        SubwayData { lines: kept_lines, line_map, stations: station_by_id, connections }
    }

    /// The number of lines.
    pub fn nb_lines(&self) -> (r: u32)
        requires
            lines_fit(self.lines@),
        ensures
            r == self.lines@.len(),
    {
        self.lines.len() as u32
    }
}

/// The `LineId`s of a list of lines: the entities with a `LineId` are
/// exactly those of the lines, and each gets the last position where its
/// entity stands.
pub proof fn lemma_line_positions(lines: Seq<Line>)
    requires
        lines_fit(lines),
    ensures
        forall|k: u32|
            #[trigger] line_positions(lines).contains_key(k) <==> exists|i: int|
                0 <= i < lines.len() && lines[i].qid.0.0 == k,
        forall|k: u32| #[trigger]
            line_positions(lines).contains_key(k) ==> {
                &&& line_positions(lines)[k].wf()
                &&& line_positions(lines)[k]@ < lines.len()
                &&& lines[line_positions(lines)[k]@ as int].qid.0.0 == k
                &&& forall|j: int| line_positions(lines)[k]@ < j < lines.len() ==> lines[j].qid.0.0 != k
            },
    decreases lines.len(),
{
    lemma_line_positions_wf(lines);
    if lines.len() > 0 {
        let init = lines.drop_last();
        lemma_line_positions(init);
        let last = lines.last().qid.0.0;
        assert forall|k: u32| #[trigger] line_positions(lines).contains_key(k) <==> exists|i: int|
            0 <= i < lines.len() && lines[i].qid.0.0 == k by {
            if k != last {
                if exists|i: int| 0 <= i < lines.len() && lines[i].qid.0.0 == k {
                    let i = choose|i: int| 0 <= i < lines.len() && lines[i].qid.0.0 == k;
                    assert(init[i].qid.0.0 == k);
                }
                if line_positions(init).contains_key(k) {
                    let i = choose|i: int| 0 <= i < init.len() && init[i].qid.0.0 == k;
                    assert(lines[i].qid.0.0 == k);
                }
            } else {
                assert(lines[lines.len() - 1].qid.0.0 == k);
            }
        }
        assert forall|k: u32| #[trigger] line_positions(lines).contains_key(k) implies forall|j: int|
            line_positions(lines)[k]@ < j < lines.len() ==> lines[j].qid.0.0 != k by {
            if k != last {
                assert(line_positions(lines)[k] == line_positions(init)[k]);
                assert forall|j: int| line_positions(lines)[k]@ < j < lines.len() implies lines[j].qid.0.0 != k by {
                    if j < lines.len() - 1 {
                        assert(lines[j] == init[j]);
                    }
                }
            }
        }
    }
}

/// Each entity of a list of lines gets the position of one of its lines.
proof fn lemma_line_positions_wf(lines: Seq<Line>)
    requires
        lines_fit(lines),
    ensures
        forall|k: u32| #[trigger]
            line_positions(lines).contains_key(k) ==> {
                &&& line_positions(lines)[k].wf()
                &&& line_positions(lines)[k]@ < lines.len()
                &&& lines[line_positions(lines)[k]@ as int].qid.0.0 == k
            },
    decreases lines.len(),
{
    if lines.len() > 0 {
        let init = lines.drop_last();
        lemma_line_positions_wf(init);
        let last_id = LineId((lines.len() - 1) as u8);
        assert(last_id@ == lines.len() - 1);
        assert forall|k: u32| #[trigger]
            line_positions(lines).contains_key(k) implies {
                &&& line_positions(lines)[k].wf()
                &&& line_positions(lines)[k]@ < lines.len()
                &&& lines[line_positions(lines)[k]@ as int].qid.0.0 == k
            } by {
            if k != lines.last().qid.0.0 {
                assert(line_positions(init).contains_key(k));
                assert(init[line_positions(init)[k]@ as int] == lines[line_positions(init)[k]@ as int]);
            }
        }
    }
}

/// Each station of a list is keyed by its own entity number.
proof fn lemma_station_map_keys(stations: Seq<Station>)
    ensures
        forall|k: u32| #[trigger]
            station_map(stations).contains_key(k) ==> station_map(stations)[k].qid.0.0 == k,
    decreases stations.len(),
{
    if stations.len() > 0 {
        lemma_station_map_keys(stations.drop_last());
        assert forall|k: u32| #[trigger]
            station_map(stations).contains_key(k) implies station_map(stations)[k].qid.0.0 == k by {
            if k != stations.last().qid.0.0 {
                assert(station_map(stations.drop_last()).contains_key(k));
            }
        }
    }
}

/// The text of a query sent for the subway `subway_qid`: its template with
/// every `{subway}` replaced by the subway's entity id.
pub fn query_text(template: &str, subway_qid: &str) -> (r: String)
    ensures
        r@ == replaced(template@, "{subway}"@, subway_qid@),
{
    proof {
        reveal_strlit("{subway}");
    }
    replace_text(template, "{subway}", subway_qid)
}

/// Where the result of the query `name` is cached:
/// `.cache/queries/name_fingerprint.csv`, the fingerprint being that of the
/// query.
pub fn query_cache_file(name: &str, query: &str) -> (r: String)
    ensures
        r@ == cache_file_name(".cache/queries"@, name@, fingerprint_of(blake3_hex(query@)), "csv"@),
{
    let fp = fingerprint(query);
    cache_file(".cache/queries", name, fp.as_str(), "csv")
}

} // verus!
