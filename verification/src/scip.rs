//! The integer program, handed to the SCIP solver, whose optimum is a
//! shortest route riding every line: a route from a virtual source, through
//! the network, to a virtual target, that takes each line at least once and
//! stays connected.
use vstd::prelude::*;
use vstd::std_specs::iter::IteratorSpec;
use std::collections::BTreeMap;
use petgraph::Graph;

use crate::graph::{station_edge_count, station_edge_endpoints, station_edge_weight, station_edges, station_graph_wf,
    station_node_count, station_node_weight, station_nodes};
use crate::network::Network;
use crate::queries::{Line, LineId, LineQid, Qid, StationQid, SubwayData};
use crate::text::{decimal, lemma_decimal_parses, lemma_qid_text_roundtrip, qid_text};

verus! {

broadcast use vstd::std_specs::btree::group_btree_axioms, vstd::laws_cmp::group_laws_cmp;

/// A station of the model: a real station, or the source the route leaves
/// from, or the target it arrives at.
#[derive(Debug, Clone, Copy, PartialEq, Eq, Structural)]
pub enum ModelStation {
    Real(StationQid),
    Source,
    Target,
}

/// A line of the model: a real line, or the dummy line of the arcs that
/// leave the source or reach the target.
#[derive(Debug, Clone, Copy, PartialEq, Eq, Structural)]
pub enum ModelLine {
    Real(LineQid),
    Dummy,
}

/// An arc of the model: from a station to a station along a line.
#[derive(Debug, Clone, Copy, PartialEq, Eq, Structural)]
pub struct ModelArc(pub ModelStation, pub ModelStation, pub ModelLine);

/// The values a variable may take.
#[derive(Debug, Clone, Copy, PartialEq, Eq, Structural)]
pub enum Domain {
    /// 0 or 1.
    Binary,
    /// Any real number from 0 on.
    NonNegative,
}

/// A variable of the model: its name, its domain and its weight in the
/// objective, which is minimized.
#[derive(Debug)]
pub struct ModelVariable {
    pub name: String,
    pub domain: Domain,
    pub objective: i64,
}

/// How the weighted sum of a constraint compares to its bound.
#[derive(Debug, Clone, Copy, PartialEq, Eq, Structural)]
pub enum Sense {
    Equal,
    AtLeast,
    AtMost,
}

/// A linear constraint: the sum of coefficient times variable, for each
/// (variable index, coefficient) term, compared to `rhs`.
#[derive(Debug)]
pub struct ModelConstraint {
    pub terms: Vec<(usize, i64)>,
    pub sense: Sense,
    pub rhs: i64,
}

/// The model: its stations (the real ones, then source and target), its
/// lines (the real ones, then the dummy), its arcs (along the network's
/// edges, then from the source to each station, then from each station to
/// the target), its variables and its constraints.
///
/// Variables come in three blocks: for each arc in turn a binary `follow`
/// variable, telling whether the route takes it; for each arc a
/// non-negative `flow` variable; for each station a non-negative `y`
/// variable. Where an arc occurs twice, its `follow` and `flow` variables
/// are those of its last occurrence.
#[derive(Debug)]
pub struct PaperOpt {
    pub stations: Vec<ModelStation>,
    pub lines: Vec<ModelLine>,
    pub arcs: Vec<ModelArc>,
    pub variables: Vec<ModelVariable>,
    pub constraints: Vec<ModelConstraint>,
}

/// How a model station is written.
pub open spec fn station_text(s: ModelStation) -> Seq<char> {
    match s {
        ModelStation::Real(q) => qid_text(q.0.0),
        ModelStation::Source => "source"@,
        ModelStation::Target => "target"@,
    }
}

/// How a model line is written.
pub open spec fn line_text(l: ModelLine) -> Seq<char> {
    match l {
        ModelLine::Real(q) => qid_text(q.0.0),
        ModelLine::Dummy => "dummy"@,
    }
}

/// How an arc is written in variable names: `source_target_line`.
pub open spec fn arc_text(a: ModelArc) -> Seq<char> {
    station_text(a.0) + "_"@ + station_text(a.1) + "_"@ + line_text(a.2)
}

/// Whether a text has no underscore.
pub open spec fn no_underscore(t: Seq<char>) -> bool {
    forall|i: int| 0 <= i < t.len() ==> t[i] != '_'
}

/// An entity's name has no underscore and starts with `Q`.
proof fn lemma_qid_text_plain(n: u32)
    ensures
        no_underscore(qid_text(n)),
        qid_text(n)[0] == 'Q',
{
    lemma_decimal_parses(n as nat);
    let t = qid_text(n);
    assert forall|i: int| 0 <= i < t.len() implies t[i] != '_' by {
        if i > 0 {
            assert(t[i] == decimal(n as nat)[i - 1]);
            assert(crate::text::is_digit(decimal(n as nat)[i - 1]));
        }
    }
}

/// Different stations are written differently, without underscores.
proof fn lemma_station_text(a: ModelStation, b: ModelStation)
    ensures
        no_underscore(station_text(a)),
        station_text(a) == station_text(b) ==> a == b,
{
    reveal_strlit("source");
    reveal_strlit("target");
    match a {
        ModelStation::Real(q) => lemma_qid_text_plain(q.0.0),
        _ => {},
    }
    match b {
        ModelStation::Real(q) => lemma_qid_text_plain(q.0.0),
        _ => {},
    }
    if station_text(a) == station_text(b) {
        match (a, b) {
            (ModelStation::Real(x), ModelStation::Real(y)) => {
                lemma_qid_text_roundtrip(x.0.0);
                lemma_qid_text_roundtrip(y.0.0);
                assert(x == y);
            },
            (ModelStation::Real(x), _) => {
                assert(station_text(a)[0] != station_text(b)[0]);
            },
            (_, ModelStation::Real(y)) => {
                assert(station_text(a)[0] != station_text(b)[0]);
            },
            _ => {
                if a != b {
                    assert(station_text(a)[0] != station_text(b)[0]);
                }
            },
        }
    }
}

/// Different lines are written differently, without underscores.
proof fn lemma_line_text(a: ModelLine, b: ModelLine)
    ensures
        no_underscore(line_text(a)),
        line_text(a) == line_text(b) ==> a == b,
{
    reveal_strlit("dummy");
    match a {
        ModelLine::Real(q) => lemma_qid_text_plain(q.0.0),
        _ => {},
    }
    match b {
        ModelLine::Real(q) => lemma_qid_text_plain(q.0.0),
        _ => {},
    }
    if line_text(a) == line_text(b) {
        match (a, b) {
            (ModelLine::Real(x), ModelLine::Real(y)) => {
                lemma_qid_text_roundtrip(x.0.0);
                lemma_qid_text_roundtrip(y.0.0);
                assert(x == y);
            },
            (ModelLine::Real(x), _) => {
                assert(line_text(a)[0] != line_text(b)[0]);
            },
            (_, ModelLine::Real(y)) => {
                assert(line_text(a)[0] != line_text(b)[0]);
            },
            _ => {},
        }
    }
}

/// Texts joined by an underscore, neither first part holding one, split
/// back into their parts.
proof fn lemma_split_underscore(x1: Seq<char>, y1: Seq<char>, x2: Seq<char>, y2: Seq<char>)
    requires
        no_underscore(x1),
        no_underscore(x2),
        x1 + "_"@ + y1 == x2 + "_"@ + y2,
    ensures
        x1 == x2,
        y1 == y2,
{
    reveal_strlit("_");
    let t = x1 + "_"@ + y1;
    assert(t[x1.len() as int] == '_');
    assert(t[x2.len() as int] == '_');
    if x1.len() < x2.len() {
        assert(t[x1.len() as int] == x2[x1.len() as int]);
    } else if x2.len() < x1.len() {
        assert(t[x2.len() as int] == x1[x2.len() as int]);
    }
    assert(x1 =~= t.take(x1.len() as int));
    assert(x2 =~= t.take(x2.len() as int));
    assert(y1 =~= t.skip(x1.len() as int + 1));
    assert(y2 =~= t.skip(x2.len() as int + 1));
}

/// Different arcs are written differently.
proof fn lemma_arc_text_injective(a: ModelArc, b: ModelArc)
    requires
        arc_text(a) == arc_text(b),
    ensures
        a == b,
{
    lemma_station_text(a.0, b.0);
    lemma_station_text(b.0, a.0);
    lemma_station_text(a.1, b.1);
    lemma_station_text(b.1, a.1);
    lemma_line_text(a.2, b.2);
    lemma_line_text(b.2, a.2);
    let ra = station_text(a.1) + "_"@ + line_text(a.2);
    let rb = station_text(b.1) + "_"@ + line_text(b.2);
    assert(arc_text(a) =~= station_text(a.0) + "_"@ + ra);
    assert(arc_text(b) =~= station_text(b.0) + "_"@ + rb);
    lemma_split_underscore(station_text(a.0), ra, station_text(b.0), rb);
    lemma_split_underscore(station_text(a.1), line_text(a.2), station_text(b.1), line_text(b.2));
}

/// The arc of a network edge.
pub open spec fn real_arc(nodes: Seq<StationQid>, lines: Seq<Line>, e: (usize, usize, LineId)) -> ModelArc {
    ModelArc(
        ModelStation::Real(nodes[e.0 as int]),
        ModelStation::Real(nodes[e.1 as int]),
        ModelLine::Real(lines[e.2@ as int].qid),
    )
}

/// The arcs of the model: one per network edge, in edge order, then one
/// from the source to each station of the network, then one from each
/// station of the network to the target, in node order.
pub open spec fn model_arcs(nodes: Seq<StationQid>, edges: Seq<(usize, usize, LineId)>, lines: Seq<Line>) -> Seq<
    ModelArc,
> {
    edges.map_values(|e: (usize, usize, LineId)| real_arc(nodes, lines, e)) + nodes.map_values(
        |st: StationQid| ModelArc(ModelStation::Source, ModelStation::Real(st), ModelLine::Dummy),
    ) + nodes.map_values(|st: StationQid| ModelArc(ModelStation::Real(st), ModelStation::Target, ModelLine::Dummy))
}

/// The lines of the model: the real ones in order, then the dummy line.
pub open spec fn model_lines(lines: Seq<Line>) -> Seq<ModelLine> {
    lines.map_values(|l: Line| ModelLine::Real(l.qid)).push(ModelLine::Dummy)
}

/// The stations of the model: the stations of `dom` in increasing order,
/// then the source, then the target.
pub open spec fn model_stations_of(stations: Seq<ModelStation>, dom: Set<u32>) -> bool {
    let n = stations.len() - 2;
    &&& stations.len() >= 2
    &&& stations[n] == ModelStation::Source
    &&& stations[n + 1] == ModelStation::Target
    &&& forall|i: int| 0 <= i < n ==> (#[trigger] stations[i]) is Real
    &&& crate::network::sorted_listing(stations.take(n).map_values(|st: ModelStation| real_id(st)), dom)
}

/// The last position of `a` among the arcs, or -1.
pub open spec fn last_position(arcs: Seq<ModelArc>, a: ModelArc) -> int
    decreases arcs.len(),
{
    if arcs.len() == 0 {
        -1
    } else if arcs.last() == a {
        arcs.len() - 1
    } else {
        last_position(arcs.drop_last(), a)
    }
}

/// The `follow` (or, when `flow`, the `flow`) variable of the arc at
/// position `p`: that of its last occurrence.
pub open spec fn arc_var(arcs: Seq<ModelArc>, p: int, flow: bool) -> int {
    (if flow {
        arcs.len() as int
    } else {
        0
    }) + last_position(arcs, arcs[p])
}

/// The `y` variable of station `j`.
pub open spec fn station_var(arcs: Seq<ModelArc>, j: int) -> int {
    2 * arcs.len() + j
}

/// Which arcs a sum runs over.
#[derive(Debug, Clone, Copy)]
pub enum ArcSelector {
    EndsAt(ModelStation),
    StartsAt(ModelStation),
    OnLine(ModelLine),
}

/// Whether the selector takes arc `a`.
pub open spec fn selects(sel: ArcSelector, a: ModelArc) -> bool {
    match sel {
        ArcSelector::EndsAt(st) => a.1 == st,
        ArcSelector::StartsAt(st) => a.0 == st,
        ArcSelector::OnLine(l) => a.2 == l,
    }
}

/// The terms, `coef` times the `follow` (or `flow`) variable, of the
/// selected arcs among the first `k`, in order.
pub open spec fn selected_terms(
    arcs: Seq<ModelArc>,
    sel: ArcSelector,
    flow: bool,
    coef: i64,
    k: int,
) -> Seq<(usize, i64)>
    decreases k,
{
    if k <= 0 {
        Seq::empty()
    } else {
        let prev = selected_terms(arcs, sel, flow, coef, k - 1);
        let p = k - 1;
        if selects(sel, arcs[p]) {
            prev.push((arc_var(arcs, p, flow) as usize, coef))
        } else {
            prev
        }
    }
}

/// A constraint as values: its terms, its sense, its bound.
pub type ConstraintView = (Seq<(usize, i64)>, Sense, i64);

/// The view of a constraint.
pub open spec fn constraint_view(c: ModelConstraint) -> ConstraintView {
    (c.terms@, c.sense, c.rhs)
}

/// Every arc sum of the model runs over all arcs.
pub open spec fn all_terms(arcs: Seq<ModelArc>, sel: ArcSelector, flow: bool, coef: i64) -> Seq<
    (usize, i64),
> {
    selected_terms(arcs, sel, flow, coef, arcs.len() as int)
}

/// The rank of a station in the order of stations: real stations by entity
/// number, then the source, then the target.
pub open spec fn station_rank(s: ModelStation) -> int {
    match s {
        ModelStation::Real(q) => q.0.0 as int,
        ModelStation::Source => 0x1_0000_0000,
        ModelStation::Target => 0x1_0000_0001,
    }
}

/// The rank of a line in the order of lines: real lines by entity number,
/// then the dummy line.
pub open spec fn line_rank(l: ModelLine) -> int {
    match l {
        ModelLine::Real(q) => q.0.0 as int,
        ModelLine::Dummy => 0x1_0000_0000,
    }
}

/// Whether arc `a` comes before arc `b` in the order of arcs: by source,
/// then by target, then by line.
pub open spec fn arc_before(a: ModelArc, b: ModelArc) -> bool {
    ||| station_rank(a.0) < station_rank(b.0)
    ||| station_rank(a.0) == station_rank(b.0) && station_rank(a.1) < station_rank(b.1)
    ||| station_rank(a.0) == station_rank(b.0) && station_rank(a.1) == station_rank(b.1) && line_rank(a.2)
        < line_rank(b.2)
}

/// The positions of the distinct arcs the selector takes, each at its last
/// occurrence.
pub open spec fn distinct_selected(arcs: Seq<ModelArc>, sel: ArcSelector) -> Set<usize> {
    Set::new(
        |p: usize| p < arcs.len() && selects(sel, arcs[p as int]) && last_position(arcs, arcs[p as int]) == p,
    )
}

/// The arcs at the positions come in the order of arcs.
pub open spec fn in_arc_order(arcs: Seq<ModelArc>, ps: Seq<usize>) -> bool {
    forall|i: int, j: int| 0 <= i < j < ps.len() ==> arc_before(arcs[ps[i] as int], arcs[ps[j] as int])
}

/// The positions of the distinct arcs the selector takes, in the order of
/// arcs.
pub open spec fn sorted_selection(arcs: Seq<ModelArc>, sel: ArcSelector) -> Seq<usize> {
    choose|ps: Seq<usize>| in_arc_order(arcs, ps) && ps.to_set() == distinct_selected(arcs, sel)
}

/// The terms, `coef` times the `follow` variable, of the distinct arcs the
/// selector takes, in the order of arcs.
pub open spec fn sorted_terms(arcs: Seq<ModelArc>, sel: ArcSelector, coef: i64) -> Seq<(usize, i64)> {
    sorted_selection(arcs, sel).map_values(|p: usize| (p, coef))
}

/// Degree balance: at a real station, as many chosen arcs arrive as leave
/// (each distinct arc counted once, in the order of arcs).
pub open spec fn balance_constraint(arcs: Seq<ModelArc>, st: ModelStation) -> ConstraintView {
    (
        sorted_terms(arcs, ArcSelector::EndsAt(st), 1) + sorted_terms(arcs, ArcSelector::StartsAt(st), -1i64),
        Sense::Equal,
        0,
    )
}

/// Exactly one chosen arc leaves the source, and one reaches the target.
pub open spec fn endpoint_constraints(arcs: Seq<ModelArc>) -> Seq<ConstraintView> {
    seq![
        (all_terms(arcs, ArcSelector::StartsAt(ModelStation::Source), false, 1), Sense::Equal, 1),
        (all_terms(arcs, ArcSelector::EndsAt(ModelStation::Target), false, 1), Sense::Equal, 1),
    ]
}

/// Some chosen arc is on line `l`.
pub open spec fn line_constraint(arcs: Seq<ModelArc>, l: ModelLine) -> ConstraintView {
    (all_terms(arcs, ArcSelector::OnLine(l), false, 1), Sense::AtLeast, 1)
}

/// Flow only runs along a chosen arc: `bound * follow - flow >= 0`.
pub open spec fn capacity_constraint(arcs: Seq<ModelArc>, p: int, bound: int) -> ConstraintView {
    (seq![(arc_var(arcs, p, false) as usize, bound as i64), (arc_var(arcs, p, true) as usize, -1i64)], Sense::AtLeast, 0)
}

/// Flow in minus flow out at station `j` is at least its `y`.
pub open spec fn flow_constraint(arcs: Seq<ModelArc>, st: ModelStation, j: int) -> ConstraintView {
    (
        all_terms(arcs, ArcSelector::EndsAt(st), true, 1) + all_terms(arcs, ArcSelector::StartsAt(st), true, -1i64)
            + seq![(station_var(arcs, j) as usize, -1i64)],
        Sense::AtLeast,
        0,
    )
}

/// The `y` of station `j` is at least the number of chosen arcs at it.
pub open spec fn connectivity_constraint(arcs: Seq<ModelArc>, st: ModelStation, j: int) -> ConstraintView {
    (
        seq![(station_var(arcs, j) as usize, 1i64)] + all_terms(arcs, ArcSelector::EndsAt(st), false, -1i64)
            + all_terms(arcs, ArcSelector::StartsAt(st), false, -1i64),
        Sense::AtLeast,
        0,
    )
}

/// Degree balance at each real station among the first `k`.
pub open spec fn balance_family(stations: Seq<ModelStation>, arcs: Seq<ModelArc>, k: int) -> Seq<ConstraintView>
    decreases k,
{
    if k <= 0 {
        Seq::empty()
    } else {
        let prev = balance_family(stations, arcs, k - 1);
        if stations[k - 1] is Real {
            prev.push(balance_constraint(arcs, stations[k - 1]))
        } else {
            prev
        }
    }
}

/// A line constraint for each of the first `k` lines.
pub open spec fn line_family(lines: Seq<ModelLine>, arcs: Seq<ModelArc>, k: int) -> Seq<ConstraintView>
    decreases k,
{
    if k <= 0 {
        Seq::empty()
    } else {
        line_family(lines, arcs, k - 1).push(line_constraint(arcs, lines[k - 1]))
    }
}

/// The most flow an arc needs to carry: twice the number of arcs. A route
/// sends from the source one unit for each end of each arc it takes at the
/// stations it reaches (the `y` of each station is at least the number of
/// chosen arcs at it), so at most twice as many units as it takes arcs.
pub open spec fn flow_bound(arcs: Seq<ModelArc>) -> int {
    2 * arcs.len() as int
}

/// The value of a sum of terms when each variable `v` is `x[v]`.
pub open spec fn terms_value(terms: Seq<(usize, i64)>, x: Seq<int>) -> int
    decreases terms.len(),
{
    if terms.len() == 0 {
        0
    } else {
        terms_value(terms.drop_last(), x) + terms.last().1 * x[terms.last().0 as int]
    }
}

/// The chosen arcs at station `st` among the first `k`, when each variable
/// `v` is `x[v]`: the arc terms of its connectivity constraint, with the
/// other sign.
pub open spec fn chosen_at(arcs: Seq<ModelArc>, st: ModelStation, x: Seq<int>, k: int) -> int {
    -(terms_value(selected_terms(arcs, ArcSelector::EndsAt(st), false, -1i64, k), x) + terms_value(
        selected_terms(arcs, ArcSelector::StartsAt(st), false, -1i64, k),
        x,
    ))
}

/// The chosen arcs among the first `k` at each of the first `m` stations,
/// summed.
pub open spec fn chosen_at_stations(arcs: Seq<ModelArc>, stations: Seq<ModelStation>, x: Seq<int>, m: int, k: int) -> int
    decreases m,
{
    if m <= 0 {
        0
    } else {
        chosen_at_stations(arcs, stations, x, m - 1, k) + chosen_at(arcs, stations[m - 1], x, k)
    }
}

/// What arc `a`, valued `w`, adds at the first `m` stations: `w` at its
/// target and `w` at its source.
pub open spec fn arc_share(a: ModelArc, stations: Seq<ModelStation>, w: int, m: int) -> int
    decreases m,
{
    if m <= 0 {
        0
    } else {
        arc_share(a, stations, w, m - 1) + (if a.1 == stations[m - 1] {
            w
        } else {
            0
        }) + (if a.0 == stations[m - 1] {
            w
        } else {
            0
        })
    }
}

/// One more arc adds its value at its target and at its source.
proof fn lemma_chosen_at_step(arcs: Seq<ModelArc>, st: ModelStation, x: Seq<int>, k: int)
    requires
        1 <= k <= arcs.len(),
        arcs.len() <= usize::MAX,
    ensures
        chosen_at(arcs, st, x, k) == chosen_at(arcs, st, x, k - 1) + (if arcs[k - 1].1 == st {
            x[arc_var(arcs, k - 1, false)]
        } else {
            0
        }) + (if arcs[k - 1].0 == st {
            x[arc_var(arcs, k - 1, false)]
        } else {
            0
        }),
{
    lemma_last_position_range(arcs, k - 1);
    let v = arc_var(arcs, k - 1, false);
    let t = (v as usize, -1i64);
    assert(t.0 as int == v);
    let ends = selected_terms(arcs, ArcSelector::EndsAt(st), false, -1i64, k - 1);
    let starts = selected_terms(arcs, ArcSelector::StartsAt(st), false, -1i64, k - 1);
    assert(ends.push(t).drop_last() =~= ends);
    assert(starts.push(t).drop_last() =~= starts);
}

/// Summed over the stations, one more arc adds its share.
proof fn lemma_chosen_stations_step(arcs: Seq<ModelArc>, stations: Seq<ModelStation>, x: Seq<int>, m: int, k: int)
    requires
        1 <= k <= arcs.len(),
        arcs.len() <= usize::MAX,
    ensures
        chosen_at_stations(arcs, stations, x, m, k) == chosen_at_stations(arcs, stations, x, m, k - 1) + arc_share(
            arcs[k - 1],
            stations,
            x[arc_var(arcs, k - 1, false)],
            m,
        ),
    decreases m,
{
    if m > 0 {
        lemma_chosen_stations_step(arcs, stations, x, m - 1, k);
        lemma_chosen_at_step(arcs, stations[m - 1], x, k);
    }
}

/// No arc, nothing chosen.
proof fn lemma_chosen_stations_none(arcs: Seq<ModelArc>, stations: Seq<ModelStation>, x: Seq<int>, m: int)
    ensures
        chosen_at_stations(arcs, stations, x, m, 0) == 0,
    decreases m,
{
    if m > 0 {
        lemma_chosen_stations_none(arcs, stations, x, m - 1);
    }
}

/// Among distinct stations, an arc's share is its value once at the
/// station it leaves and once at the station it reaches, where listed.
proof fn lemma_arc_share(a: ModelArc, stations: Seq<ModelStation>, w: int, m: int)
    requires
        stations.no_duplicates(),
        0 <= m <= stations.len(),
    ensures
        arc_share(a, stations, w, m) == (if stations.take(m).contains(a.1) {
            w
        } else {
            0
        }) + (if stations.take(m).contains(a.0) {
            w
        } else {
            0
        }),
    decreases m,
{
    if m > 0 {
        lemma_arc_share(a, stations, w, m - 1);
        lemma_prefix_grows(stations, m, a.1);
        lemma_prefix_grows(stations, m, a.0);
    }
}

/// A station is among the first `m` of distinct stations when it is among
/// the first `m - 1` or is the `m`-th, never both.
proof fn lemma_prefix_grows(stations: Seq<ModelStation>, m: int, e: ModelStation)
    requires
        stations.no_duplicates(),
        1 <= m <= stations.len(),
    ensures
        stations.take(m).contains(e) <==> stations.take(m - 1).contains(e) || e == stations[m - 1],
        !(stations.take(m - 1).contains(e) && e == stations[m - 1]),
{
    let before = stations.take(m - 1);
    let now = stations.take(m);
    if now.contains(e) {
        let i = now.index_of(e);
        if i < m - 1 {
            assert(before[i] == e);
        }
    }
    if before.contains(e) {
        let i = before.index_of(e);
        assert(now[i] == e);
        assert(stations[i] == e);
    }
    if e == stations[m - 1] {
        assert(now[m - 1] == e);
    }
}

/// The flow bound covers what the connectivity constraints ask: with each
/// `follow` variable between 0 and 1, the chosen arcs at distinct stations,
/// summed over the stations, are at most `flow_bound`, so the least `y`
/// those constraints allow the stations sums to no more than it.
pub proof fn lemma_flow_bound_covers_demand(arcs: Seq<ModelArc>, stations: Seq<ModelStation>, x: Seq<int>)
    requires
        arcs.len() <= usize::MAX,
        stations.no_duplicates(),
        forall|v: int| 0 <= v < arcs.len() ==> 0 <= #[trigger] x[v] <= 1,
    ensures
        chosen_at_stations(arcs, stations, x, stations.len() as int, arcs.len() as int) <= flow_bound(arcs),
{
    lemma_chosen_bounded(arcs, stations, x, arcs.len() as int);
}

/// The chosen arcs among the first `k` at distinct stations are at most
/// twice `k`.
proof fn lemma_chosen_bounded(arcs: Seq<ModelArc>, stations: Seq<ModelStation>, x: Seq<int>, k: int)
    requires
        arcs.len() <= usize::MAX,
        stations.no_duplicates(),
        forall|v: int| 0 <= v < arcs.len() ==> 0 <= #[trigger] x[v] <= 1,
        0 <= k <= arcs.len(),
    ensures
        chosen_at_stations(arcs, stations, x, stations.len() as int, k) <= 2 * k,
    decreases k,
{
    let m = stations.len() as int;
    if k == 0 {
        lemma_chosen_stations_none(arcs, stations, x, m);
    } else {
        lemma_chosen_bounded(arcs, stations, x, k - 1);
        lemma_chosen_stations_step(arcs, stations, x, m, k);
        lemma_last_position_range(arcs, k - 1);
        let v = arc_var(arcs, k - 1, false);
        assert(0 <= x[v] <= 1);
        lemma_arc_share(arcs[k - 1], stations, x[v], m);
    }
}

/// A capacity constraint for each of the first `k` arcs.
pub open spec fn capacity_family(arcs: Seq<ModelArc>, bound: int, k: int) -> Seq<ConstraintView>
    decreases k,
{
    if k <= 0 {
        Seq::empty()
    } else {
        capacity_family(arcs, bound, k - 1).push(capacity_constraint(arcs, k - 1, bound))
    }
}

/// A flow constraint for each of the first `k` stations but the source.
pub open spec fn flow_family(stations: Seq<ModelStation>, arcs: Seq<ModelArc>, k: int) -> Seq<ConstraintView>
    decreases k,
{
    if k <= 0 {
        Seq::empty()
    } else {
        let prev = flow_family(stations, arcs, k - 1);
        if stations[k - 1] is Source {
            prev
        } else {
            prev.push(flow_constraint(arcs, stations[k - 1], k - 1))
        }
    }
}

/// A connectivity constraint for each of the first `k` stations.
pub open spec fn connectivity_family(stations: Seq<ModelStation>, arcs: Seq<ModelArc>, k: int) -> Seq<
    ConstraintView,
>
    decreases k,
{
    if k <= 0 {
        Seq::empty()
    } else {
        connectivity_family(stations, arcs, k - 1).push(connectivity_constraint(arcs, stations[k - 1], k - 1))
    }
}

/// The constraints of the model, family after family: degree balance at
/// each real station; source and target; each line; the capacity of each
/// arc; flow at each station but the source; connectivity at each station.
pub open spec fn model_constraints(
    stations: Seq<ModelStation>,
    lines: Seq<ModelLine>,
    arcs: Seq<ModelArc>,
) -> Seq<ConstraintView> {
    balance_family(stations, arcs, stations.len() as int) + endpoint_constraints(arcs) + line_family(
        lines,
        arcs,
        lines.len() as int,
    ) + capacity_family(arcs, flow_bound(arcs), arcs.len() as int) + flow_family(
        stations,
        arcs,
        stations.len() as int,
    ) + connectivity_family(stations, arcs, stations.len() as int)
}

/// Writes a model station.
pub fn station_to_text(st: &ModelStation) -> (r: String)
    ensures
        r@ == station_text(*st),
{
    match st {
        ModelStation::Real(q) => q.0.to_text(),
        ModelStation::Source => String::from_str("source"),
        ModelStation::Target => String::from_str("target"),
    }
}

/// Writes a model line.
pub fn line_to_text(l: &ModelLine) -> (r: String)
    ensures
        r@ == line_text(*l),
{
    match l {
        ModelLine::Real(q) => q.0.to_text(),
        ModelLine::Dummy => String::from_str("dummy"),
    }
}

/// Writes `prefix` followed by an arc.
fn arc_name(prefix: &str, a: &ModelArc) -> (r: String)
    ensures
        r@ == prefix@ + arc_text(*a),
{
    let mut r = String::from_str(prefix);
    let src = station_to_text(&a.0);
    let dst = station_to_text(&a.1);
    let line = line_to_text(&a.2);
    r.append(src.as_str());
    r.append("_");
    r.append(dst.as_str());
    r.append("_");
    r.append(line.as_str());
    proof {
        assert(r@ =~= prefix@ + arc_text(*a));
    }
    r
}

/// The last position of an arc is where it stands last.
proof fn lemma_last_position(arcs: Seq<ModelArc>, a: ModelArc, q: int)
    requires
        0 <= q < arcs.len(),
        arcs[q] == a,
        forall|r: int| q < r < arcs.len() ==> arcs[r] != a,
    ensures
        last_position(arcs, a) == q,
    decreases arcs.len(),
{
    if q < arcs.len() - 1 {
        lemma_last_position(arcs.drop_last(), a, q);
    }
}

/// An arc occurs last at or after any of its positions.
proof fn lemma_last_position_range(arcs: Seq<ModelArc>, p: int)
    requires
        0 <= p < arcs.len(),
    ensures
        p <= last_position(arcs, arcs[p]) < arcs.len(),
        arcs[last_position(arcs, arcs[p])] == arcs[p],
    decreases arcs.len(),
{
    if arcs.last() != arcs[p] {
        lemma_last_position_range(arcs.drop_last(), p);
    }
}

/// The number an arc is looked up by: the ranks of its source, its target
/// and its line, side by side in bits of their own.
pub open spec fn arc_code(a: ModelArc) -> u128 {
    ((station_rank(a.0) as u128) << 66u128) | ((station_rank(a.1) as u128) << 33u128) | (line_rank(a.2) as u128)
}

/// The number of an arc, computed.
fn arc_code_of(a: &ModelArc) -> (r: u128)
    ensures
        r == arc_code(*a),
{
    ((station_rank_of(&a.0) as u128) << 66u128) | ((station_rank_of(&a.1) as u128) << 33u128) | (line_rank_of(
        &a.2,
    ) as u128)
}

/// Numbers made of parts that fit their bits are equal only when the parts
/// are.
proof fn lemma_arc_code_parts(a1: u128, b1: u128, c1: u128, a2: u128, b2: u128, c2: u128)
    by (bit_vector)
    requires
        a1 < 0x2_0000_0000,
        b1 < 0x2_0000_0000,
        c1 < 0x2_0000_0000,
        a2 < 0x2_0000_0000,
        b2 < 0x2_0000_0000,
        c2 < 0x2_0000_0000,
        (a1 << 66u128) | (b1 << 33u128) | c1 == (a2 << 66u128) | (b2 << 33u128) | c2,
    ensures
        a1 == a2,
        b1 == b2,
        c1 == c2,
{
}

/// Two arcs with the same number are the same arc.
proof fn lemma_arc_code_injective(a: ModelArc, b: ModelArc)
    requires
        arc_code(a) == arc_code(b),
    ensures
        a == b,
{
    lemma_arc_code_parts(
        station_rank(a.0) as u128,
        station_rank(a.1) as u128,
        line_rank(a.2) as u128,
        station_rank(b.0) as u128,
        station_rank(b.1) as u128,
        line_rank(b.2) as u128,
    );
    if a != b {
        lemma_arc_total(a, b);
    }
}

/// Whether the numbers arcs are looked up by compare as integers do.
spec fn arc_codes_ordered() -> bool {
    vstd::laws_cmp::obeys_cmp::<u128>()
}

/// Arc numbers compare as integers do.
proof fn lemma_arc_codes_ordered()
    ensures
        arc_codes_ordered(),
{
    broadcast use vstd::laws_cmp::group_laws_cmp;
}

/// For each arc, the position of its last occurrence: a table from each
/// arc's number to the last position it was seen at, filled in arc order.
fn last_positions(arcs: &Vec<ModelArc>) -> (r: Vec<usize>)
    ensures
        r@.len() == arcs@.len(),
        forall|p: int| 0 <= p < arcs@.len() ==> #[trigger] r@[p] == last_position(arcs@, arcs@[p]),
{
    broadcast use vstd::std_specs::btree::group_btree_axioms;
    proof {
        lemma_arc_codes_ordered();
    }
    let n = arcs.len();
    let mut seen: BTreeMap<u128, usize> = BTreeMap::new();
    let mut p: usize = 0;
    while p < n
        invariant
            n == arcs@.len(),
            p <= n,
            arc_codes_ordered(),
            forall|c: u128| #[trigger]
                seen@.contains_key(c) ==> seen@[c] < p && arc_code(arcs@[seen@[c] as int]) == c && forall|t: int|
                    seen@[c] < t < p ==> arc_code(#[trigger] arcs@[t]) != c,
            forall|q: int| 0 <= q < p ==> seen@.contains_key(#[trigger] arc_code(arcs@[q])),
        decreases n - p,
    {
        let c = arc_code_of(&arcs[p]);
        seen.insert(c, p);
        p = p + 1;
    }
    let mut r: Vec<usize> = Vec::new();
    let mut p: usize = 0;
    while p < n
        invariant
            n == arcs@.len(),
            p <= n,
            arc_codes_ordered(),
            forall|c: u128| #[trigger]
                seen@.contains_key(c) ==> seen@[c] < n && arc_code(arcs@[seen@[c] as int]) == c && forall|t: int|
                    seen@[c] < t < n ==> arc_code(#[trigger] arcs@[t]) != c,
            forall|q: int| 0 <= q < n ==> seen@.contains_key(#[trigger] arc_code(arcs@[q])),
            r@.len() == p,
            forall|i: int| 0 <= i < p ==> #[trigger] r@[i] == last_position(arcs@, arcs@[i]),
        decreases n - p,
    {
        let c = arc_code_of(&arcs[p]);
        proof {
            assert(seen@.contains_key(arc_code(arcs@[p as int])));
        }
        let q = *seen.get(&c).unwrap();
        proof {
            lemma_arc_code_injective(arcs@[q as int], arcs@[p as int]);
            assert forall|t: int| q < t < arcs@.len() implies arcs@[t] != arcs@[p as int] by {
                assert(arc_code(arcs@[t]) != c);
            }
            lemma_last_position(arcs@, arcs@[p as int], q as int);
        }
        r.push(q);
        p = p + 1;
    }
    r
}

/// Whether the selector takes arc `a`.
fn arc_selected(sel: &ArcSelector, a: &ModelArc) -> (r: bool)
    ensures
        r == selects(*sel, *a),
{
    match sel {
        ArcSelector::EndsAt(st) => a.1 == *st,
        ArcSelector::StartsAt(st) => a.0 == *st,
        ArcSelector::OnLine(l) => a.2 == *l,
    }
}

/// Distinct arcs come one before the other.
proof fn lemma_arc_total(a: ModelArc, b: ModelArc)
    requires
        a != b,
    ensures
        arc_before(a, b) || arc_before(b, a),
{
    assert(station_rank(a.0) == station_rank(b.0) ==> a.0 == b.0) by {
        match (a.0, b.0) {
            (ModelStation::Real(x), ModelStation::Real(y)) => {
                assert(x.0.0 == y.0.0 ==> x == y);
            },
            _ => {},
        }
    }
    assert(station_rank(a.1) == station_rank(b.1) ==> a.1 == b.1) by {
        match (a.1, b.1) {
            (ModelStation::Real(x), ModelStation::Real(y)) => {
                assert(x.0.0 == y.0.0 ==> x == y);
            },
            _ => {},
        }
    }
    assert(line_rank(a.2) == line_rank(b.2) ==> a.2 == b.2) by {
        match (a.2, b.2) {
            (ModelLine::Real(x), ModelLine::Real(y)) => {
                assert(x.0.0 == y.0.0 ==> x == y);
            },
            _ => {},
        }
    }
}

/// A set of positions has one listing in the order of arcs.
proof fn lemma_arc_order_unique(arcs: Seq<ModelArc>, ps: Seq<usize>, qs: Seq<usize>, set: Set<usize>)
    requires
        in_arc_order(arcs, ps),
        in_arc_order(arcs, qs),
        ps.to_set() == set,
        qs.to_set() == set,
    ensures
        ps == qs,
    decreases ps.len(),
{
    if ps.len() == 0 {
        if qs.len() > 0 {
            assert(qs.contains(qs[0]));
            assert(ps.to_set().contains(qs[0]));
        }
        assert(ps =~= qs);
    } else {
        assert(ps.contains(ps[0]));
        assert(qs.to_set().contains(ps[0]));
        let j = choose|j: int| 0 <= j < qs.len() && qs[j] == ps[0];
        assert(qs.contains(qs[0]));
        assert(ps.to_set().contains(qs[0]));
        let i = choose|i: int| 0 <= i < ps.len() && ps[i] == qs[0];
        if i > 0 && j > 0 {
            assert(arc_before(arcs[ps[0] as int], arcs[ps[i] as int]));
            assert(arc_before(arcs[qs[0] as int], arcs[qs[j] as int]));
        }
        assert(ps[0] == qs[0]);
        let x = ps[0];
        let d = set.remove(x);
        let p1 = ps.drop_first();
        let q1 = qs.drop_first();
        assert forall|y: usize| p1.to_set().contains(y) <==> d.contains(y) by {
            if p1.to_set().contains(y) {
                assert(p1.contains(y));
                let k = choose|k: int| 0 <= k < p1.len() && p1[k] == y;
                assert(ps[k + 1] == y);
                assert(ps.contains(y));
                assert(arc_before(arcs[ps[0] as int], arcs[ps[k + 1] as int]));
            }
            if d.contains(y) {
                assert(ps.to_set().contains(y));
                let k = choose|k: int| 0 <= k < ps.len() && ps[k] == y;
                assert(k != 0);
                assert(p1[k - 1] == y);
                assert(p1.contains(y));
            }
        }
        assert forall|y: usize| q1.to_set().contains(y) <==> d.contains(y) by {
            if q1.to_set().contains(y) {
                assert(q1.contains(y));
                let k = choose|k: int| 0 <= k < q1.len() && q1[k] == y;
                assert(qs[k + 1] == y);
                assert(qs.contains(y));
                assert(arc_before(arcs[qs[0] as int], arcs[qs[k + 1] as int]));
            }
            if d.contains(y) {
                assert(qs.to_set().contains(y));
                let k = choose|k: int| 0 <= k < qs.len() && qs[k] == y;
                assert(k != 0);
                assert(q1[k - 1] == y);
                assert(q1.contains(y));
            }
        }
        assert(p1.to_set() =~= d);
        assert(q1.to_set() =~= d);
        assert(in_arc_order(arcs, p1)) by {
            assert forall|a: int, b: int| 0 <= a < b < p1.len() implies arc_before(
                arcs[p1[a] as int],
                arcs[p1[b] as int],
            ) by {
                assert(p1[a] == ps[a + 1] && p1[b] == ps[b + 1]);
            }
        }
        assert(in_arc_order(arcs, q1)) by {
            assert forall|a: int, b: int| 0 <= a < b < q1.len() implies arc_before(
                arcs[q1[a] as int],
                arcs[q1[b] as int],
            ) by {
                assert(q1[a] == qs[a + 1] && q1[b] == qs[b + 1]);
            }
        }
        lemma_arc_order_unique(arcs, p1, q1, d);
        assert(ps =~= qs) by {
            assert forall|k: int| 0 <= k < ps.len() implies ps[k] == qs[k] by {
                if k > 0 {
                    assert(ps[k] == p1[k - 1]);
                    assert(qs[k] == q1[k - 1]);
                }
            }
        }
    }
}

/// A listing in the order of arcs of the distinct selected arcs is the one
/// `sorted_selection` names.
proof fn lemma_sorted_selection(arcs: Seq<ModelArc>, sel: ArcSelector, ps: Seq<usize>)
    requires
        in_arc_order(arcs, ps),
        ps.to_set() == distinct_selected(arcs, sel),
    ensures
        sorted_selection(arcs, sel) == ps,
{
    let qs = sorted_selection(arcs, sel);
    assert(in_arc_order(arcs, qs) && qs.to_set() == distinct_selected(arcs, sel));
    lemma_arc_order_unique(arcs, ps, qs, distinct_selected(arcs, sel));
}

/// The rank of a station.
fn station_rank_of(s: &ModelStation) -> (r: u64)
    ensures
        r == station_rank(*s),
{
    match s {
        ModelStation::Real(q) => q.0.0 as u64,
        ModelStation::Source => 0x1_0000_0000,
        ModelStation::Target => 0x1_0000_0001,
    }
}

/// The rank of a line.
fn line_rank_of(l: &ModelLine) -> (r: u64)
    ensures
        r == line_rank(*l),
{
    match l {
        ModelLine::Real(q) => q.0.0 as u64,
        ModelLine::Dummy => 0x1_0000_0000,
    }
}

/// Whether arc `a` comes before arc `b`.
fn arc_precedes(a: &ModelArc, b: &ModelArc) -> (r: bool)
    ensures
        r == arc_before(*a, *b),
{
    let (a0, b0) = (station_rank_of(&a.0), station_rank_of(&b.0));
    let (a1, b1) = (station_rank_of(&a.1), station_rank_of(&b.1));
    let (a2, b2) = (line_rank_of(&a.2), line_rank_of(&b.2));
    a0 < b0 || (a0 == b0 && a1 < b1) || (a0 == b0 && a1 == b1 && a2 < b2)
}

/// The positions of the distinct arcs the selector takes, in the order of
/// arcs.
fn sorted_positions(arcs: &Vec<ModelArc>, last: &Vec<usize>, sel: ArcSelector) -> (r: Vec<usize>)
    requires
        last_table(arcs@, last@),
    ensures
        r@ == sorted_selection(arcs@, sel),
{
    let ghost all = distinct_selected(arcs@, sel);
    let mut r: Vec<usize> = Vec::new();
    let mut p: usize = 0;
    while p < arcs.len()
        invariant
            last_table(arcs@, last@),
            all == distinct_selected(arcs@, sel),
            p <= arcs@.len(),
            in_arc_order(arcs@, r@),
            r@.to_set() == all.filter(|q: usize| q < p),
        decreases arcs@.len() - p,
    {
        if arc_selected(&sel, &arcs[p]) && last[p] == p {
            proof {
                assert forall|i: int| 0 <= i < r@.len() implies #[trigger] r@[i] < arcs@.len() by {
                    assert(r@.to_set().contains(r@[i]));
                }
            }
            let mut k: usize = 0;
            while k < r.len() && !arc_precedes(&arcs[p], &arcs[r[k]])
                invariant
                    k <= r@.len(),
                    p < arcs@.len(),
                    forall|i: int| 0 <= i < r@.len() ==> #[trigger] r@[i] < arcs@.len(),
                    forall|i: int| 0 <= i < k ==> !arc_before(arcs@[p as int], #[trigger] arcs@[r@[i] as int]),
                decreases r@.len() - k,
            {
                k = k + 1;
            }
            let ghost old_r = r@;
            proof {
                assert forall|i: int| 0 <= i < old_r.len() implies arcs@[old_r[i] as int] != arcs@[p as int] by {
                    assert(old_r.to_set().contains(old_r[i]));
                    assert(all.contains(old_r[i]));
                }
            }
            r.insert(k, p);
            proof {
                assert(r@ == old_r.insert(k as int, p));
                assert forall|a: int, b: int| 0 <= a < b < r@.len() implies arc_before(
                    arcs@[r@[a] as int],
                    arcs@[r@[b] as int],
                ) by {
                    if b < k {
                        assert(r@[a] == old_r[a] && r@[b] == old_r[b]);
                    } else if b == k {
                        assert(r@[a] == old_r[a]);
                        assert(!arc_before(arcs@[p as int], arcs@[old_r[a] as int]));
                        lemma_arc_total(arcs@[p as int], arcs@[old_r[a] as int]);
                    } else if a == k {
                        assert(r@[b] == old_r[b - 1]);
                        assert(arc_before(arcs@[p as int], arcs@[old_r[k as int] as int]));
                        if b - 1 > k {
                            assert(arc_before(arcs@[old_r[k as int] as int], arcs@[old_r[b - 1] as int]));
                        }
                    } else if a < k {
                        assert(r@[a] == old_r[a] && r@[b] == old_r[b - 1]);
                    } else {
                        assert(r@[a] == old_r[a - 1] && r@[b] == old_r[b - 1]);
                    }
                }
                assert(r@.to_set() =~= all.filter(|q: usize| q < p + 1)) by {
                    assert forall|y: usize| r@.to_set().contains(y) implies all.filter(|q: usize| q < p + 1).contains(y) by {
                        assert(r@.contains(y));
                        let m = choose|m: int| 0 <= m < r@.len() && r@[m] == y;
                        if y != p {
                            if m < k {
                                assert(old_r[m] == y);
                            } else {
                                assert(old_r[m - 1] == y);
                            }
                            assert(old_r.contains(y));
                            assert(old_r.to_set().contains(y));
                        }
                    }
                    assert forall|y: usize| all.filter(|q: usize| q < p + 1).contains(y) implies r@.to_set().contains(y) by {
                        if y == p {
                            assert(r@[k as int] == p);
                            assert(r@.contains(y));
                        } else {
                            assert(old_r.to_set().contains(y));
                            let m = choose|m: int| 0 <= m < old_r.len() && old_r[m] == y;
                            if m < k {
                                assert(r@[m] == y);
                            } else {
                                assert(r@[m + 1] == y);
                            }
                            assert(r@.contains(y));
                        }
                    }
                }
            }
        } else {
            proof {
                assert(r@.to_set() =~= all.filter(|q: usize| q < p + 1)) by {
                    assert forall|y: usize| all.filter(|q: usize| q < p + 1).contains(y) implies r@.to_set().contains(y) by {
                        if y == p {
                            assert(!all.contains(y));
                        }
                    }
                }
            }
        }
        p = p + 1;
    }
    proof {
        assert(all.filter(|q: usize| q < p) =~= all);
        lemma_sorted_selection(arcs@, sel, r@);
    }
    r
}

/// Appends `coef` times the `follow` variable of each position.
fn push_terms(terms: &mut Vec<(usize, i64)>, ps: &Vec<usize>, coef: i64)
    ensures
        final(terms)@ == old(terms)@ + ps@.map_values(|p: usize| (p, coef)),
{
    let ghost start = terms@;
    let mut k: usize = 0;
    while k < ps.len()
        invariant
            k <= ps@.len(),
            terms@ == start + ps@.take(k as int).map_values(|p: usize| (p, coef)),
        decreases ps@.len() - k,
    {
        terms.push((ps[k], coef));
        proof {
            assert(ps@.take(k + 1).map_values(|p: usize| (p, coef)) =~= ps@.take(k as int).map_values(
                |p: usize| (p, coef),
            ).push((ps@[k as int], coef)));
        }
        k = k + 1;
    }
    proof {
        assert(ps@.take(k as int) =~= ps@);
    }
}

/// Appends the terms of the selected arcs.
fn push_selected(
    terms: &mut Vec<(usize, i64)>,
    arcs: &Vec<ModelArc>,
    last: &Vec<usize>,
    sel: ArcSelector,
    flow: bool,
    coef: i64,
)
    requires
        last@.len() == arcs@.len(),
        forall|p: int| 0 <= p < arcs@.len() ==> #[trigger] last@[p] == last_position(arcs@, arcs@[p]),
        2 * arcs@.len() <= usize::MAX,
    ensures
        final(terms)@ == old(terms)@ + all_terms(arcs@, sel, flow, coef),
{
    let ghost start = terms@;
    let mut p: usize = 0;
    while p < arcs.len()
        invariant
            p <= arcs@.len(),
            last@.len() == arcs@.len(),
            forall|q: int| 0 <= q < arcs@.len() ==> #[trigger] last@[q] == last_position(arcs@, arcs@[q]),
            2 * arcs@.len() <= usize::MAX,
            terms@ == start + selected_terms(arcs@, sel, flow, coef, p as int),
        decreases arcs@.len() - p,
    {
        proof {
            lemma_last_position_range(arcs@, p as int);
        }
        if arc_selected(&sel, &arcs[p]) {
            let base: usize = if flow {
                arcs.len()
            } else {
                0
            };
            terms.push((base + last[p], coef));
            proof {
                assert(terms@ =~= start + selected_terms(arcs@, sel, flow, coef, p + 1));
            }
        } else {
            proof {
                assert(terms@ =~= start + selected_terms(arcs@, sel, flow, coef, p + 1));
            }
        }
        p = p + 1;
    }
}

/// The entity number of a real station.
pub open spec fn real_id(st: ModelStation) -> u32 {
    match st {
        ModelStation::Real(q) => q.0.0,
        _ => 0u32,
    }
}

/// The stations of the model: those of the data in increasing entity order,
/// then the source and the target.
fn build_stations(data: &SubwayData) -> (r: Vec<ModelStation>)
    requires
        data.stations@.dom().len() <= usize::MAX - 2,
    ensures
        model_stations_of(r@, data.stations@.dom()),
        r@.len() == data.stations@.dom().len() + 2,
{
    let mut r: Vec<ModelStation> = Vec::new();
    for k in iter: data.stations.keys()
        invariant
            iter.seq() == vstd::std_specs::btree::spec_keys_iter(&data.stations).remaining(),
            iter.seq().len() == data.stations@.dom().len(),
            data.stations@.dom().len() <= usize::MAX - 2,
            vstd::std_specs::btree::increasing_seq(iter.seq()),
            r@.len() == iter.index(),
            forall|i: int| 0 <= i < r@.len() ==> (#[trigger] r@[i]) is Real,
            r@.map_values(|st: ModelStation| real_id(st)) == iter.seq().take(iter.index()).unref(),
            forall|a: int, b: int| 0 <= a < b < r@.len() ==> real_id(r@[a]) < real_id(r@[b]),
        ensures
            r@.len() == data.stations@.dom().len(),
            forall|i: int| 0 <= i < r@.len() ==> (#[trigger] r@[i]) is Real,
            r@.map_values(|st: ModelStation| real_id(st)) == iter.seq().unref(),
            forall|a: int, b: int| 0 <= a < b < r@.len() ==> real_id(r@[a]) < real_id(r@[b]),
    {
        let ghost i0 = iter.index();
        let ghost r0 = r@;
        assert(*k == *iter.seq()[i0]);
        r.push(ModelStation::Real(StationQid(Qid(*k))));
        proof {
            assert(r@.map_values(|st: ModelStation| real_id(st)) =~= r0.map_values(|st: ModelStation| real_id(st)).push(*k));
            assert(iter.seq().take(i0 + 1).unref() =~= iter.seq().take(i0).unref().push(*k));
            assert forall|a: int| 0 <= a < i0 implies real_id(r@[a]) == *iter.seq()[a] by {
                assert(r0.map_values(|st: ModelStation| real_id(st))[a] == iter.seq().take(i0).unref()[a]);
            }
            assert forall|a: int, b: int| 0 <= a < b < r@.len() implies real_id(r@[a]) < real_id(r@[b]) by {
                if b == i0 {
                    crate::network::lemma_increasing_keys(iter.seq(), a, b);
                } else {
                    assert(r@[a] == r0[a] && r@[b] == r0[b]);
                }
            }
        }
    }
    let n = r.len();
    let ghost reals = r@;
    r.push(ModelStation::Source);
    r.push(ModelStation::Target);
    proof {
        assert(r@.take(n as int) =~= reals);
        let ids = reals.map_values(|st: ModelStation| real_id(st));
        assert forall|a: int, b: int| 0 <= a < b < ids.len() implies ids[a] < ids[b] by {
            assert(real_id(reals[a]) < real_id(reals[b]));
        }
        assert forall|i: int| 0 <= i < n implies (#[trigger] r@[i]) is Real by {
            assert(r@[i] == reals[i]);
        }
    }
    r
}

/// The lines of the model: the real ones, then the dummy line.
fn build_lines(data: &SubwayData) -> (r: Vec<ModelLine>)
    ensures
        r@ == model_lines(data.lines@),
{
    let mut r: Vec<ModelLine> = Vec::new();
    let mut i: usize = 0;
    while i < data.lines.len()
        invariant
            i <= data.lines@.len(),
            r@ == data.lines@.take(i as int).map_values(|l: Line| ModelLine::Real(l.qid)),
        decreases data.lines@.len() - i,
    {
        r.push(ModelLine::Real(data.lines[i].qid));
        proof {
            assert(data.lines@.take(i + 1) =~= data.lines@.take(i as int).push(data.lines@[i as int]));
            assert(r@ =~= data.lines@.take(i + 1).map_values(|l: Line| ModelLine::Real(l.qid)));
        }
        i = i + 1;
    }
    r.push(ModelLine::Dummy);
    proof {
        assert(data.lines@.take(i as int) =~= data.lines@);
    }
    r
}

/// Every edge of the graph is on a line of the list.
pub open spec fn edges_on_lines(edges: Seq<(usize, usize, LineId)>, lines: Seq<Line>) -> bool {
    forall|i: int| 0 <= i < edges.len() ==> (#[trigger] edges[i]).2@ < lines.len()
}

/// The arcs of the model.
fn build_arcs(graph: &Graph<StationQid, LineId>, data: &SubwayData) -> (r: Vec<ModelArc>)
    requires
        station_graph_wf(*graph),
        edges_on_lines(station_edges(*graph), data.lines@),
    ensures
        r@ == model_arcs(station_nodes(*graph), station_edges(*graph), data.lines@),
{
    let ghost nodes = station_nodes(*graph);
    let ghost edges = station_edges(*graph);
    let ghost along_edges = edges.map_values(|e: (usize, usize, LineId)| real_arc(nodes, data.lines@, e));
    let ghost from_source = nodes.map_values(
        |st: StationQid| ModelArc(ModelStation::Source, ModelStation::Real(st), ModelLine::Dummy),
    );
    let ghost to_target = nodes.map_values(
        |st: StationQid| ModelArc(ModelStation::Real(st), ModelStation::Target, ModelLine::Dummy),
    );
    let mut r: Vec<ModelArc> = Vec::new();
    let nb_edges = station_edge_count(graph);
    let mut i: usize = 0;
    while i < nb_edges
        invariant
            station_graph_wf(*graph),
            edges_on_lines(station_edges(*graph), data.lines@),
            nodes == station_nodes(*graph),
            edges == station_edges(*graph),
            along_edges == edges.map_values(|e: (usize, usize, LineId)| real_arc(nodes, data.lines@, e)),
            nb_edges == edges.len(),
            i <= nb_edges,
            r@ == along_edges.take(i as int),
        decreases nb_edges - i,
    {
        let (a, b) = station_edge_endpoints(graph, i);
        let w = station_edge_weight(graph, i);
        let sa = station_node_weight(graph, a);
        let sb = station_node_weight(graph, b);
        assert(edges[i as int].2@ < data.lines@.len());
        r.push(ModelArc(ModelStation::Real(sa), ModelStation::Real(sb), ModelLine::Real(data.lines[w.index()].qid)));
        proof {
            assert(along_edges.take(i + 1) =~= along_edges.take(i as int).push(along_edges[i as int]));
        }
        i = i + 1;
    }
    proof {
        assert(along_edges.take(i as int) =~= along_edges);
    }
    let nb_nodes = station_node_count(graph);
    let mut i: usize = 0;
    while i < nb_nodes
        invariant
            nodes == station_nodes(*graph),
            from_source == nodes.map_values(
                |st: StationQid| ModelArc(ModelStation::Source, ModelStation::Real(st), ModelLine::Dummy),
            ),
            nb_nodes == nodes.len(),
            i <= nb_nodes,
            r@ == along_edges + from_source.take(i as int),
        decreases nb_nodes - i,
    {
        let st = station_node_weight(graph, i);
        r.push(ModelArc(ModelStation::Source, ModelStation::Real(st), ModelLine::Dummy));
        proof {
            assert(from_source.take(i + 1) =~= from_source.take(i as int).push(from_source[i as int]));
            assert(r@ =~= along_edges + from_source.take(i + 1));
        }
        i = i + 1;
    }
    proof {
        assert(from_source.take(i as int) =~= from_source);
    }
    let mut i: usize = 0;
    while i < nb_nodes
        invariant
            nodes == station_nodes(*graph),
            to_target == nodes.map_values(
                |st: StationQid| ModelArc(ModelStation::Real(st), ModelStation::Target, ModelLine::Dummy),
            ),
            nb_nodes == nodes.len(),
            i <= nb_nodes,
            r@ == along_edges + from_source + to_target.take(i as int),
        decreases nb_nodes - i,
    {
        let st = station_node_weight(graph, i);
        r.push(ModelArc(ModelStation::Real(st), ModelStation::Target, ModelLine::Dummy));
        proof {
            assert(to_target.take(i + 1) =~= to_target.take(i as int).push(to_target[i as int]));
            assert(r@ =~= along_edges + from_source + to_target.take(i + 1));
        }
        i = i + 1;
    }
    proof {
        assert(to_target.take(i as int) =~= to_target);
    }
    r
}

/// The variables of the model, as its documentation describes them.
pub open spec fn model_variables_are(vars: Seq<ModelVariable>, arcs: Seq<ModelArc>, stations: Seq<ModelStation>) -> bool {
    &&& vars.len() == 2 * arcs.len() + stations.len()
    &&& forall|i: int|
        0 <= i < arcs.len() ==> {
            &&& (#[trigger] vars[i]).name@ == "follow_"@ + arc_text(arcs[i])
            &&& vars[i].domain == Domain::Binary
            &&& vars[i].objective == 1
        }
    &&& forall|i: int|
        0 <= i < arcs.len() ==> {
            &&& (#[trigger] vars[arcs.len() + i]).name@ == "flow_"@ + arc_text(arcs[i])
            &&& vars[arcs.len() + i].domain == Domain::NonNegative
            &&& vars[arcs.len() + i].objective == 0
        }
    &&& forall|j: int|
        0 <= j < stations.len() ==> {
            &&& (#[trigger] vars[2 * arcs.len() + j]).name@ == "y_"@ + station_text(stations[j])
            &&& vars[2 * arcs.len() + j].domain == Domain::NonNegative
            &&& vars[2 * arcs.len() + j].objective == 0
        }
}

/// The variables of the model.
fn build_variables(arcs: &Vec<ModelArc>, stations: &Vec<ModelStation>) -> (r: Vec<ModelVariable>)
    ensures
        model_variables_are(r@, arcs@, stations@),
{
    let mut r: Vec<ModelVariable> = Vec::new();
    let mut i: usize = 0;
    while i < arcs.len()
        invariant
            i <= arcs@.len(),
            r@.len() == i,
            forall|k: int|
                0 <= k < i ==> {
                    &&& (#[trigger] r@[k]).name@ == "follow_"@ + arc_text(arcs@[k])
                    &&& r@[k].domain == Domain::Binary
                    &&& r@[k].objective == 1
                },
        decreases arcs@.len() - i,
    {
        let name = arc_name("follow_", &arcs[i]);
        r.push(ModelVariable { name, domain: Domain::Binary, objective: 1 });
        i = i + 1;
    }
    let mut i: usize = 0;
    while i < arcs.len()
        invariant
            i <= arcs@.len(),
            r@.len() == arcs@.len() + i,
            forall|k: int|
                0 <= k < arcs@.len() ==> {
                    &&& (#[trigger] r@[k]).name@ == "follow_"@ + arc_text(arcs@[k])
                    &&& r@[k].domain == Domain::Binary
                    &&& r@[k].objective == 1
                },
            forall|k: int|
                0 <= k < i ==> {
                    &&& (#[trigger] r@[arcs@.len() + k]).name@ == "flow_"@ + arc_text(arcs@[k])
                    &&& r@[arcs@.len() + k].domain == Domain::NonNegative
                    &&& r@[arcs@.len() + k].objective == 0
                },
        decreases arcs@.len() - i,
    {
        let name = arc_name("flow_", &arcs[i]);
        r.push(ModelVariable { name, domain: Domain::NonNegative, objective: 0 });
        i = i + 1;
    }
    let mut j: usize = 0;
    while j < stations.len()
        invariant
            j <= stations@.len(),
            r@.len() == 2 * arcs@.len() + j,
            forall|k: int|
                0 <= k < arcs@.len() ==> {
                    &&& (#[trigger] r@[k]).name@ == "follow_"@ + arc_text(arcs@[k])
                    &&& r@[k].domain == Domain::Binary
                    &&& r@[k].objective == 1
                },
            forall|k: int|
                0 <= k < arcs@.len() ==> {
                    &&& (#[trigger] r@[arcs@.len() + k]).name@ == "flow_"@ + arc_text(arcs@[k])
                    &&& r@[arcs@.len() + k].domain == Domain::NonNegative
                    &&& r@[arcs@.len() + k].objective == 0
                },
            forall|k: int|
                0 <= k < j ==> {
                    &&& (#[trigger] r@[2 * arcs@.len() + k]).name@ == "y_"@ + station_text(stations@[k])
                    &&& r@[2 * arcs@.len() + k].domain == Domain::NonNegative
                    &&& r@[2 * arcs@.len() + k].objective == 0
                },
        decreases stations@.len() - j,
    {
        let mut name = String::from_str("y_");
        let st = station_to_text(&stations[j]);
        name.append(st.as_str());
        r.push(ModelVariable { name, domain: Domain::NonNegative, objective: 0 });
        j = j + 1;
    }
    r
}

/// The views of a sequence of constraints.
pub open spec fn views(cs: Seq<ModelConstraint>) -> Seq<ConstraintView> {
    cs.map_values(|c: ModelConstraint| constraint_view(c))
}

/// Appending a constraint appends its view.
proof fn lemma_views_push(cs: Seq<ModelConstraint>, c: ModelConstraint)
    ensures
        views(cs.push(c)) == views(cs).push(constraint_view(c)),
{
    assert(views(cs.push(c)) =~= views(cs).push(constraint_view(c)));
}

/// What the arc sums need of the table of last positions.
pub open spec fn last_table(arcs: Seq<ModelArc>, last: Seq<usize>) -> bool {
    &&& last.len() == arcs.len()
    &&& forall|p: int| 0 <= p < arcs.len() ==> #[trigger] last[p] == last_position(arcs, arcs[p])
}

/// Appends the degree balance constraints.
fn push_balance(out: &mut Vec<ModelConstraint>, stations: &Vec<ModelStation>, arcs: &Vec<ModelArc>, last: &Vec<usize>)
    requires
        last_table(arcs@, last@),
        2 * arcs@.len() <= usize::MAX,
    ensures
        views(final(out)@) == views(old(out)@) + balance_family(stations@, arcs@, stations@.len() as int),
{
    let ghost start = views(out@);
    let mut j: usize = 0;
    while j < stations.len()
        invariant
            j <= stations@.len(),
            last_table(arcs@, last@),
            2 * arcs@.len() <= usize::MAX,
            views(out@) == start + balance_family(stations@, arcs@, j as int),
        decreases stations@.len() - j,
    {
        let st = stations[j];
        match st {
            ModelStation::Real(_) => {
                let mut terms: Vec<(usize, i64)> = Vec::new();
                let arriving = sorted_positions(arcs, last, ArcSelector::EndsAt(st));
                let leaving = sorted_positions(arcs, last, ArcSelector::StartsAt(st));
                push_terms(&mut terms, &arriving, 1);
                push_terms(&mut terms, &leaving, -1);
                let ghost before = out@;
                out.push(ModelConstraint { terms, sense: Sense::Equal, rhs: 0 });
                proof {
                    lemma_views_push(before, out@.last());
                    assert(terms@ =~= balance_constraint(arcs@, st).0);
                }
            },
            _ => {},
        }
        j = j + 1;
    }
}

/// Appends the source and target constraints.
fn push_endpoints(out: &mut Vec<ModelConstraint>, arcs: &Vec<ModelArc>, last: &Vec<usize>)
    requires
        last_table(arcs@, last@),
        2 * arcs@.len() <= usize::MAX,
    ensures
        views(final(out)@) == views(old(out)@) + endpoint_constraints(arcs@),
{
    let ghost start = out@;
    let mut terms: Vec<(usize, i64)> = Vec::new();
    push_selected(&mut terms, arcs, last, ArcSelector::StartsAt(ModelStation::Source), false, 1);
    out.push(ModelConstraint { terms, sense: Sense::Equal, rhs: 1 });
    let ghost middle = out@;
    let mut terms: Vec<(usize, i64)> = Vec::new();
    push_selected(&mut terms, arcs, last, ArcSelector::EndsAt(ModelStation::Target), false, 1);
    out.push(ModelConstraint { terms, sense: Sense::Equal, rhs: 1 });
    proof {
        lemma_views_push(start, middle.last());
        lemma_views_push(middle, out@.last());
        assert(views(out@) =~= views(start) + endpoint_constraints(arcs@));
    }
}

/// Appends the line constraints.
fn push_lines(out: &mut Vec<ModelConstraint>, lines: &Vec<ModelLine>, arcs: &Vec<ModelArc>, last: &Vec<usize>)
    requires
        last_table(arcs@, last@),
        2 * arcs@.len() <= usize::MAX,
    ensures
        views(final(out)@) == views(old(out)@) + line_family(lines@, arcs@, lines@.len() as int),
{
    let ghost start = views(out@);
    let mut k: usize = 0;
    while k < lines.len()
        invariant
            k <= lines@.len(),
            last_table(arcs@, last@),
            2 * arcs@.len() <= usize::MAX,
            views(out@) == start + line_family(lines@, arcs@, k as int),
        decreases lines@.len() - k,
    {
        let mut terms: Vec<(usize, i64)> = Vec::new();
        push_selected(&mut terms, arcs, last, ArcSelector::OnLine(lines[k]), false, 1);
        let ghost before = out@;
        out.push(ModelConstraint { terms, sense: Sense::AtLeast, rhs: 1 });
        proof {
            lemma_views_push(before, out@.last());
        }
        k = k + 1;
    }
}

/// Appends the capacity constraints.
fn push_capacities(out: &mut Vec<ModelConstraint>, bound: usize, arcs: &Vec<ModelArc>, last: &Vec<usize>)
    requires
        last_table(arcs@, last@),
        2 * arcs@.len() <= usize::MAX,
        bound <= i64::MAX,
    ensures
        views(final(out)@) == views(old(out)@) + capacity_family(arcs@, bound as int, arcs@.len() as int),
{
    let ghost start = views(out@);
    let mut p: usize = 0;
    while p < arcs.len()
        invariant
            p <= arcs@.len(),
            last_table(arcs@, last@),
            2 * arcs@.len() <= usize::MAX,
            bound <= i64::MAX,
            views(out@) == start + capacity_family(arcs@, bound as int, p as int),
        decreases arcs@.len() - p,
    {
        proof {
            lemma_last_position_range(arcs@, p as int);
        }
        let mut terms: Vec<(usize, i64)> = Vec::new();
        terms.push((last[p], bound as i64));
        terms.push((arcs.len() + last[p], -1));
        let ghost before = out@;
        out.push(ModelConstraint { terms, sense: Sense::AtLeast, rhs: 0 });
        proof {
            lemma_views_push(before, out@.last());
            assert(terms@ =~= capacity_constraint(arcs@, p as int, bound as int).0);
        }
        p = p + 1;
    }
}

/// Appends the flow constraints.
fn push_flows(out: &mut Vec<ModelConstraint>, stations: &Vec<ModelStation>, arcs: &Vec<ModelArc>, last: &Vec<usize>)
    requires
        last_table(arcs@, last@),
        2 * arcs@.len() + stations@.len() <= usize::MAX,
    ensures
        views(final(out)@) == views(old(out)@) + flow_family(stations@, arcs@, stations@.len() as int),
{
    let ghost start = views(out@);
    let mut j: usize = 0;
    while j < stations.len()
        invariant
            j <= stations@.len(),
            last_table(arcs@, last@),
            2 * arcs@.len() + stations@.len() <= usize::MAX,
            views(out@) == start + flow_family(stations@, arcs@, j as int),
        decreases stations@.len() - j,
    {
        let st = stations[j];
        match st {
            ModelStation::Source => {},
            _ => {
                let mut terms: Vec<(usize, i64)> = Vec::new();
                push_selected(&mut terms, arcs, last, ArcSelector::EndsAt(st), true, 1);
                push_selected(&mut terms, arcs, last, ArcSelector::StartsAt(st), true, -1);
                terms.push((2 * arcs.len() + j, -1));
                let ghost before = out@;
                out.push(ModelConstraint { terms, sense: Sense::AtLeast, rhs: 0 });
                proof {
                    lemma_views_push(before, out@.last());
                    assert(terms@ =~= flow_constraint(arcs@, st, j as int).0);
                }
            },
        }
        j = j + 1;
    }
}

/// Appends the connectivity constraints.
fn push_connectivity(
    out: &mut Vec<ModelConstraint>,
    stations: &Vec<ModelStation>,
    arcs: &Vec<ModelArc>,
    last: &Vec<usize>,
)
    requires
        last_table(arcs@, last@),
        2 * arcs@.len() + stations@.len() <= usize::MAX,
    ensures
        views(final(out)@) == views(old(out)@) + connectivity_family(stations@, arcs@, stations@.len() as int),
{
    let ghost start = views(out@);
    let mut j: usize = 0;
    while j < stations.len()
        invariant
            j <= stations@.len(),
            last_table(arcs@, last@),
            2 * arcs@.len() + stations@.len() <= usize::MAX,
            views(out@) == start + connectivity_family(stations@, arcs@, j as int),
        decreases stations@.len() - j,
    {
        let st = stations[j];
        let mut terms: Vec<(usize, i64)> = Vec::new();
        terms.push((2 * arcs.len() + j, 1));
        push_selected(&mut terms, arcs, last, ArcSelector::EndsAt(st), false, -1);
        push_selected(&mut terms, arcs, last, ArcSelector::StartsAt(st), false, -1);
        let ghost before = out@;
        out.push(ModelConstraint { terms, sense: Sense::AtLeast, rhs: 0 });
        proof {
            lemma_views_push(before, out@.last());
            assert(terms@ =~= connectivity_constraint(arcs@, st, j as int).0);
        }
        j = j + 1;
    }
}

/// The number of arcs the model of a network gets.
pub open spec fn nb_model_arcs(net: Network) -> nat {
    station_edges(net.graph).len() + 2 * station_nodes(net.graph).len()
}

impl PaperOpt {
    /// The model of riding every line of `data` over the network: its
    /// stations, lines, arcs, variables and constraints as `PaperOpt`
    /// describes them; the objective, minimized, counts the arcs taken. Every
    /// edge must be on a line of the data, and the variables must be
    /// countable.
    pub fn new(network: &Network, data: &SubwayData) -> (r: PaperOpt)
        requires
            station_graph_wf(network.graph),
            edges_on_lines(station_edges(network.graph), data.lines@),
            2 * nb_model_arcs(*network) + data.stations@.dom().len() + 2 <= usize::MAX,
            2 * nb_model_arcs(*network) <= i64::MAX,
        ensures
            model_stations_of(r.stations@, data.stations@.dom()),
            r.lines@ == model_lines(data.lines@),
            r.arcs@ == model_arcs(station_nodes(network.graph), station_edges(network.graph), data.lines@),
            model_variables_are(r.variables@, r.arcs@, r.stations@),
            views(r.constraints@) == model_constraints(r.stations@, r.lines@, r.arcs@),
    {
        let stations = build_stations(data);
        let lines = build_lines(data);
        let arcs = build_arcs(&network.graph, data);
        let variables = build_variables(&arcs, &stations);
        let last = last_positions(&arcs);
        let mut constraints: Vec<ModelConstraint> = Vec::new();
        push_balance(&mut constraints, &stations, &arcs, &last);
        push_endpoints(&mut constraints, &arcs, &last);
        push_lines(&mut constraints, &lines, &arcs, &last);
        push_capacities(&mut constraints, 2 * arcs.len(), &arcs, &last);
        push_flows(&mut constraints, &stations, &arcs, &last);
        push_connectivity(&mut constraints, &stations, &arcs, &last);
        proof {
            assert(views(Seq::<ModelConstraint>::empty()) =~= Seq::<ConstraintView>::empty());
            assert(views(constraints@) =~= model_constraints(stations@, lines@, arcs@));
        }
        PaperOpt { stations, lines, arcs, variables, constraints }
    }
}

/// Each `follow` variable of a model names one arc: two `follow` variables
/// with the same name are those of the same arc.
pub proof fn lemma_follow_names_distinct(
    vars: Seq<ModelVariable>,
    arcs: Seq<ModelArc>,
    stations: Seq<ModelStation>,
    p: int,
    q: int,
)
    requires
        model_variables_are(vars, arcs, stations),
        0 <= p < arcs.len(),
        0 <= q < arcs.len(),
        vars[p].name@ == vars[q].name@,
    ensures
        arcs[p] == arcs[q],
{
    let prefix = "follow_"@;
    let a = prefix + arc_text(arcs[p]);
    let b = prefix + arc_text(arcs[q]);
    assert(vars[p].name@ == a);
    assert(vars[q].name@ == b);
    assert(arc_text(arcs[p]) =~= a.skip(prefix.len() as int));
    assert(arc_text(arcs[q]) =~= b.skip(prefix.len() as int));
    lemma_arc_text_injective(arcs[p], arcs[q]);
}

/// Whether the variable at `p` is the `follow` variable, named `name`, of
/// the arc at `p`: the arc's last occurrence.
pub open spec fn follow_named_at(arcs: Seq<ModelArc>, vars: Seq<ModelVariable>, name: Seq<char>, p: int) -> bool {
    last_position(arcs, arcs[p]) == p && vars[p].name@ == name
}

/// The first position from `p` on whose `follow` variable is named `name`.
pub open spec fn first_follow_named(arcs: Seq<ModelArc>, vars: Seq<ModelVariable>, name: Seq<char>, p: int) -> Option<
    int,
>
    decreases arcs.len() - p,
{
    if p < 0 || p >= arcs.len() {
        None
    } else if follow_named_at(arcs, vars, name, p) {
        Some(p)
    } else {
        first_follow_named(arcs, vars, name, p + 1)
    }
}

/// A position found is one of the arcs, from `p` on.
proof fn lemma_first_follow_named(arcs: Seq<ModelArc>, vars: Seq<ModelVariable>, name: Seq<char>, p: int)
    requires
        0 <= p,
    ensures
        first_follow_named(arcs, vars, name, p) matches Some(q) ==> p <= q < arcs.len(),
    decreases arcs.len() - p,
{
    if p < arcs.len() && !follow_named_at(arcs, vars, name, p) {
        lemma_first_follow_named(arcs, vars, name, p + 1);
    }
}

/// The arc whose `follow` variable is named `name`, if any.
pub open spec fn follow_arc(arcs: Seq<ModelArc>, vars: Seq<ModelVariable>, name: Seq<char>) -> Option<ModelArc> {
    match first_follow_named(arcs, vars, name, 0) {
        Some(p) => Some(arcs[p]),
        None => None,
    }
}

/// The arcs whose `follow` variables the names name, in the order of the
/// names; a name is that of the solver, `t_` and the variable's name, and a
/// name that names no `follow` variable is passed over.
pub open spec fn follow_arcs_of(arcs: Seq<ModelArc>, vars: Seq<ModelVariable>, names: Seq<Seq<char>>) -> Seq<ModelArc>
    decreases names.len(),
{
    if names.len() == 0 {
        Seq::empty()
    } else {
        let before = follow_arcs_of(arcs, vars, names.drop_last());
        match follow_arc(arcs, vars, names.last().skip(2)) {
            Some(a) => before.push(a),
            None => before,
        }
    }
}

/// Whether a name is one the solver gives a variable: `t_` and the name.
pub open spec fn solver_name(name: Seq<char>) -> bool {
    name.len() >= 2 && name[0] == 't' && name[1] == '_'
}

/// The text of a route, or why there is none.
pub open spec fn route_text(arcs: Seq<ModelArc>) -> Result<Seq<char>, PathError> {
    match route_of(arcs) {
        Some(legs) => Ok(route_csv(legs)),
        None => Err(PathError::Malformed),
    }
}

/// The text from position `k` on.
fn text_from(s: &str, k: usize) -> (r: String)
    requires
        k <= s@.len(),
    ensures
        r@ == s@.skip(k as int),
{
    let n = s.unicode_len();
    let mut r = String::new();
    let mut i: usize = k;
    while i < n
        invariant
            n == s@.len(),
            k <= i <= n,
            r@ == s@.subrange(k as int, i as int),
        decreases n - i,
    {
        crate::text::push_char(&mut r, s.get_char(i));
        proof {
            assert(s@.subrange(k as int, i + 1) =~= s@.subrange(k as int, i as int).push(s@[i as int]));
        }
        i = i + 1;
    }
    proof {
        assert(s@.subrange(k as int, n as int) =~= s@.skip(k as int));
    }
    r
}

impl PaperOpt {
    /// The position of the arc whose `follow` variable is named `name`, which
    /// is also the position of that variable: each arc names its own, at its
    /// last occurrence; the first such arc in arc order.
    pub fn follow_position(&self, name: &str) -> (r: Option<usize>)
        requires
            self.variables@.len() >= self.arcs@.len(),
        ensures
            match r {
                Some(p) => first_follow_named(self.arcs@, self.variables@, name@, 0) == Some(p as int),
                None => first_follow_named(self.arcs@, self.variables@, name@, 0) is None,
            },
    {
        proof {
            lemma_first_follow_named(self.arcs@, self.variables@, name@, 0);
        }
        let last = last_positions(&self.arcs);
        let wanted = String::from_str(name);
        let mut p: usize = 0;
        while p < self.arcs.len()
            invariant
                p <= self.arcs@.len(),
                self.variables@.len() >= self.arcs@.len(),
                last_table(self.arcs@, last@),
                wanted@ == name@,
                first_follow_named(self.arcs@, self.variables@, name@, 0) == first_follow_named(
                    self.arcs@,
                    self.variables@,
                    name@,
                    p as int,
                ),
            decreases self.arcs@.len() - p,
        {
            if last[p] == p && self.variables[p].name == wanted {
                return Some(p);
            }
            p = p + 1;
        }
        None
    }

    /// The arc whose `follow` variable is named `name`: each arc names its
    /// own, at its last occurrence; the first such arc in arc order.
    pub fn follow_arc_named(&self, name: &str) -> (r: Option<ModelArc>)
        requires
            self.variables@.len() >= self.arcs@.len(),
        ensures
            r == follow_arc(self.arcs@, self.variables@, name@),
    {
        proof {
            lemma_first_follow_named(self.arcs@, self.variables@, name@, 0);
        }
        match self.follow_position(name) {
            Some(p) => {
                Some(self.arcs[p])
            },
            None => None,
        }
    }

    /// The arcs whose `follow` variables the solver's names name, in the
    /// order of the names, passing over the other names.
    pub fn follow_arcs(&self, names: &Vec<String>) -> (r: Vec<ModelArc>)
        requires
            self.variables@.len() >= self.arcs@.len(),
            forall|i: int| 0 <= i < names@.len() ==> solver_name(#[trigger] names@[i]@),
        ensures
            r@ == follow_arcs_of(self.arcs@, self.variables@, names@.map_values(|n: String| n@)),
    {
        let ghost all = names@.map_values(|n: String| n@);
        let mut r: Vec<ModelArc> = Vec::new();
        let mut k: usize = 0;
        while k < names.len()
            invariant
                self.variables@.len() >= self.arcs@.len(),
                forall|i: int| 0 <= i < names@.len() ==> solver_name(#[trigger] names@[i]@),
                all == names@.map_values(|n: String| n@),
                k <= names@.len(),
                r@ == follow_arcs_of(self.arcs@, self.variables@, all.take(k as int)),
            decreases names@.len() - k,
        {
            proof {
                assert(solver_name(names@[k as int]@));
                assert(all.take(k + 1).drop_last() =~= all.take(k as int));
                assert(all.take(k + 1).last() == names@[k as int]@);
            }
            let var_name = text_from(names[k].as_str(), 2);
            match self.follow_arc_named(var_name.as_str()) {
                Some(a) => r.push(a),
                None => {},
            }
            k = k + 1;
        }
        proof {
            assert(all.take(k as int) =~= all);
        }
        r
    }

    /// The route of a solution, as text, from the solver's names of its
    /// variables: the arcs they name, ordered from the source to the target
    /// and written one leg per line; or why they make no route.
    pub fn solution_path_csv(&self, names: &Vec<String>) -> (r: Result<String, PathError>)
        requires
            self.variables@.len() >= self.arcs@.len(),
            forall|i: int| 0 <= i < names@.len() ==> solver_name(#[trigger] names@[i]@),
        ensures
            match r {
                Ok(text) => route_text(follow_arcs_of(self.arcs@, self.variables@, names@.map_values(|n: String| n@)))
                    == Ok::<Seq<char>, PathError>(text@),
                Err(e) => route_text(follow_arcs_of(self.arcs@, self.variables@, names@.map_values(|n: String| n@)))
                    == Err::<Seq<char>, PathError>(e),
            },
    {
        let arcs = self.follow_arcs(names);
        match order_solution_path(&arcs) {
            Ok(legs) => Ok(route_to_csv(&legs)),
            Err(e) => Err(e),
        }
    }
}

/// A leg of a route: from a station to a station along a line.
pub type Leg = (StationQid, StationQid, LineQid);

/// Why the arcs of a solution make no route.
#[derive(Debug, Clone, Copy, PartialEq, Eq, Structural)]
pub enum PathError {
    /// No order of the arcs makes a trail from the source to the target.
    Malformed,
}

/// How many arcs are not used yet.
pub open spec fn unused_count(used: Seq<bool>) -> nat
    decreases used.len(),
{
    if used.len() == 0 {
        0
    } else {
        unused_count(used.drop_last()) + if used.last() {
            0nat
        } else {
            1nat
        }
    }
}

/// Using an unused arc leaves one fewer unused.
pub proof fn lemma_use_one(used: Seq<bool>, k: int)
    requires
        0 <= k < used.len(),
        !used[k],
    ensures
        unused_count(used.update(k, true)) + 1 == unused_count(used),
    decreases used.len(),
{
    if k < used.len() - 1 {
        assert(used.update(k, true).drop_last() =~= used.drop_last().update(k, true));
        lemma_use_one(used.drop_last(), k);
    } else {
        assert(used.update(k, true).drop_last() =~= used.drop_last());
    }
}

/// No arc is left unused exactly when none is counted.
proof fn lemma_none_unused(used: Seq<bool>)
    ensures
        unused_count(used) == 0 <==> forall|i: int| 0 <= i < used.len() ==> #[trigger] used[i],
    decreases used.len(),
{
    if used.len() > 0 {
        lemma_none_unused(used.drop_last());
        if unused_count(used) == 0 {
            assert forall|i: int| 0 <= i < used.len() implies #[trigger] used[i] by {
                if i < used.len() - 1 {
                    assert(used.drop_last()[i] == used[i]);
                }
            }
        }
        if forall|i: int| 0 <= i < used.len() ==> #[trigger] used[i] {
            assert forall|i: int| 0 <= i < used.drop_last().len() implies #[trigger] used.drop_last()[i] by {
                assert(used[i]);
            }
            assert(used[used.len() - 1]);
        }
    }
}

/// The order in which a route takes the unused arcs from `cur`: the unused
/// arcs leaving `cur` are tried from position `k` on, each in turn; the
/// first that begins an order of all the unused arcs ending at the target
/// is taken. The target is reached once no arc is left unused.
pub open spec fn trail_order(arcs: Seq<ModelArc>, used: Seq<bool>, cur: ModelStation, k: int) -> Option<Seq<int>>
    decreases unused_count(used), arcs.len() - k,
{
    if unused_count(used) == 0 {
        if cur is Target {
            Some(Seq::empty())
        } else {
            None
        }
    } else if k < 0 || k >= arcs.len() || used.len() != arcs.len() {
        None
    } else if !used[k] && arcs[k].0 == cur {
        proof {
            lemma_use_one(used, k);
        }
        match trail_order(arcs, used.update(k, true), arcs[k].1, 0) {
            Some(rest) => Some(seq![k] + rest),
            None => trail_order(arcs, used, cur, k + 1),
        }
    } else {
        trail_order(arcs, used, cur, k + 1)
    }
}

/// `order` takes each unused arc exactly once, the first leaving `cur`,
/// each leaving the station where the one before it arrives, the last
/// arriving at the target (with no arc left, `cur` is the target).
pub open spec fn is_trail(arcs: Seq<ModelArc>, used: Seq<bool>, cur: ModelStation, order: Seq<int>) -> bool {
    &&& order.no_duplicates()
    &&& forall|i: int| 0 <= i < order.len() ==> 0 <= #[trigger] order[i] < arcs.len() && !used[order[i]]
    &&& forall|j: int| 0 <= j < arcs.len() && !used[j] ==> #[trigger] order.contains(j)
    &&& (order.len() == 0 ==> cur is Target)
    &&& (order.len() > 0 ==> arcs[order[0]].0 == cur && arcs[order.last()].1 is Target)
    &&& forall|i: int| 0 <= i < order.len() - 1 ==> arcs[#[trigger] order[i]].1 == arcs[order[i + 1]].0
}

/// What `trail_order` finds is such an order.
proof fn lemma_trail_order_sound(arcs: Seq<ModelArc>, used: Seq<bool>, cur: ModelStation, k: int)
    requires
        used.len() == arcs.len(),
    ensures
        trail_order(arcs, used, cur, k) matches Some(o) ==> is_trail(arcs, used, cur, o),
    decreases unused_count(used), arcs.len() - k,
{
    if unused_count(used) == 0 {
        lemma_none_unused(used);
        if cur is Target {
            assert(is_trail(arcs, used, cur, Seq::<int>::empty()));
        }
    } else if k < 0 || k >= arcs.len() {
    } else if !used[k] && arcs[k].0 == cur {
        lemma_use_one(used, k);
        let u2 = used.update(k, true);
        lemma_trail_order_sound(arcs, u2, arcs[k].1, 0);
        lemma_trail_order_sound(arcs, used, cur, k + 1);
        if let Some(rest) = trail_order(arcs, u2, arcs[k].1, 0) {
            let o = seq![k] + rest;
            assert forall|i: int| 0 <= i < rest.len() implies #[trigger] rest[i] != k by {
                assert(!u2[rest[i]]);
            }
            assert(o.no_duplicates()) by {
                assert forall|a: int, b: int| 0 <= a < b < o.len() implies o[a] != o[b] by {
                    if a > 0 {
                        assert(o[a] == rest[a - 1] && o[b] == rest[b - 1]);
                    } else {
                        assert(o[b] == rest[b - 1]);
                    }
                }
            }
            assert forall|i: int| 0 <= i < o.len() implies 0 <= #[trigger] o[i] < arcs.len() && !used[o[i]] by {
                if i > 0 {
                    assert(o[i] == rest[i - 1]);
                    assert(!u2[rest[i - 1]]);
                }
            }
            assert forall|j: int| 0 <= j < arcs.len() && !used[j] implies #[trigger] o.contains(j) by {
                if j == k {
                    assert(o[0] == k);
                } else {
                    assert(!u2[j]);
                    assert(rest.contains(j));
                    let m = choose|m: int| 0 <= m < rest.len() && rest[m] == j;
                    assert(o[m + 1] == j);
                }
            }
            assert forall|i: int| 0 <= i < o.len() - 1 implies arcs[#[trigger] o[i]].1 == arcs[o[i + 1]].0 by {
                if i > 0 {
                    assert(o[i] == rest[i - 1] && o[i + 1] == rest[i]);
                } else {
                    assert(o[1] == rest[0]);
                }
            }
            if rest.len() > 0 {
                assert(o.last() == rest.last());
            }
            assert(is_trail(arcs, used, cur, o));
        }
    } else {
        lemma_trail_order_sound(arcs, used, cur, k + 1);
    }
}

/// Where an order of the unused arcs exists whose first arc stands at or
/// after `k`, `trail_order` from `k` finds one.
proof fn lemma_trail_order_found_from(
    arcs: Seq<ModelArc>,
    used: Seq<bool>,
    cur: ModelStation,
    k: int,
    w: Seq<int>,
)
    requires
        used.len() == arcs.len(),
        is_trail(arcs, used, cur, w),
        w.len() > 0,
        0 <= k <= w[0],
    ensures
        trail_order(arcs, used, cur, k) is Some,
    decreases unused_count(used), w[0] - k,
{
    assert(!used[w[0]]);
    lemma_none_unused(used);
    assert(unused_count(used) != 0);
    if !used[k] && arcs[k].0 == cur {
        lemma_use_one(used, k);
        let u2 = used.update(k, true);
        if k == w[0] {
            let rest = w.drop_first();
            assert(is_trail(arcs, u2, arcs[k].1, rest)) by {
                assert forall|i: int| 0 <= i < rest.len() implies 0 <= #[trigger] rest[i] < arcs.len() && !u2[rest[i]] by {
                    assert(rest[i] == w[i + 1]);
                    assert(w[i + 1] != w[0]);
                }
                assert forall|j: int| 0 <= j < arcs.len() && !u2[j] implies #[trigger] rest.contains(j) by {
                    assert(j != k);
                    assert(w.contains(j));
                    let m = choose|m: int| 0 <= m < w.len() && w[m] == j;
                    assert(m != 0);
                    assert(rest[m - 1] == j);
                }
                assert forall|i: int| 0 <= i < rest.len() - 1 implies arcs[#[trigger] rest[i]].1 == arcs[rest[i + 1]].0 by {
                    assert(rest[i] == w[i + 1] && rest[i + 1] == w[i + 2]);
                }
                if rest.len() > 0 {
                    assert(rest[0] == w[1]);
                    assert(rest.last() == w.last());
                } else {
                    assert(w.len() == 1);
                }
            }
            lemma_trail_order_found(arcs, u2, arcs[k].1, rest);
        } else {
            lemma_trail_order_found_from(arcs, used, cur, k + 1, w);
        }
    } else {
        assert(k != w[0]);
        lemma_trail_order_found_from(arcs, used, cur, k + 1, w);
    }
}

/// Where an order of the unused arcs exists, `trail_order` finds one.
proof fn lemma_trail_order_found(arcs: Seq<ModelArc>, used: Seq<bool>, cur: ModelStation, w: Seq<int>)
    requires
        used.len() == arcs.len(),
        is_trail(arcs, used, cur, w),
    ensures
        trail_order(arcs, used, cur, 0) is Some,
    decreases unused_count(used), arcs.len() + 1,
{
    lemma_none_unused(used);
    if unused_count(used) == 0 {
        if w.len() > 0 {
            assert(!used[w[0]]);
        }
    } else {
        let j = choose|j: int| 0 <= j < used.len() && !used[j];
        assert(w.contains(j));
        assert(w[0] < arcs.len());
        lemma_trail_order_found_from(arcs, used, cur, 0, w);
    }
}

/// `trail_order` is exact: what it finds takes every unused arc once, from
/// `cur` to the target, and it finds one whenever such an order exists.
pub proof fn lemma_trail_order(arcs: Seq<ModelArc>, used: Seq<bool>, cur: ModelStation)
    requires
        used.len() == arcs.len(),
    ensures
        trail_order(arcs, used, cur, 0) matches Some(o) ==> is_trail(arcs, used, cur, o),
        (exists|w: Seq<int>| is_trail(arcs, used, cur, w)) ==> trail_order(arcs, used, cur, 0) is Some,
{
    lemma_trail_order_sound(arcs, used, cur, 0);
    if exists|w: Seq<int>| is_trail(arcs, used, cur, w) {
        let w = choose|w: Seq<int>| is_trail(arcs, used, cur, w);
        lemma_trail_order_found(arcs, used, cur, w);
    }
}

/// The legs of a route taking the arcs in `order`: its arcs between real
/// stations, in order.
pub open spec fn legs_of(arcs: Seq<ModelArc>, order: Seq<int>) -> Seq<Leg>
    decreases order.len(),
{
    if order.len() == 0 {
        Seq::empty()
    } else {
        let prev = legs_of(arcs, order.drop_last());
        let a = arcs[order.last()];
        match (a.0, a.1, a.2) {
            (ModelStation::Real(s), ModelStation::Real(d), ModelLine::Real(l)) => prev.push((s, d, l)),
            _ => prev,
        }
    }
}

/// The arcs a walk from the source takes within `k + 1` arcs: those leaving
/// the source, and those leaving a station where one of them arrives.
pub open spec fn reached_arcs(arcs: Seq<ModelArc>, k: nat) -> Set<int>
    decreases k,
{
    if k == 0 {
        Set::new(|i: int| 0 <= i < arcs.len() && arcs[i].0 is Source)
    } else {
        let prev = reached_arcs(arcs, (k - 1) as nat);
        prev.union(
            Set::new(
                |i: int|
                    0 <= i < arcs.len() && exists|j: int|
                        0 <= j < arcs.len() && #[trigger] prev.contains(j) && arcs[j].1 == arcs[i].0,
            ),
        )
    }
}

/// The arcs a walk from the source reaches, within as many arcs as there
/// are.
pub open spec fn reachable_arcs(arcs: Seq<ModelArc>) -> Set<int> {
    reached_arcs(arcs, arcs.len())
}

/// The arcs a route leaves aside: those a walk from the source never
/// reaches, counted as used from the start.
pub open spec fn off_route(arcs: Seq<ModelArc>) -> Seq<bool> {
    Seq::new(arcs.len(), |i: int| !reachable_arcs(arcs).contains(i))
}

/// The route of the arcs of a solution: the legs of the order `trail_order`
/// finds from the source, taking every arc a walk from the source reaches;
/// or none.
pub open spec fn route_of(arcs: Seq<ModelArc>) -> Option<Seq<Leg>> {
    match trail_order(arcs, off_route(arcs), ModelStation::Source, 0) {
        Some(o) => Some(legs_of(arcs, o)),
        None => None,
    }
}

/// Whether an arc runs between two real stations on a real line.
pub open spec fn is_real_arc(a: ModelArc) -> bool {
    a.0 is Real && a.1 is Real && a.2 is Real
}

/// The leg an arc between real stations rides: its source, its target and
/// its line.
pub open spec fn arc_leg(a: ModelArc) -> Leg {
    match (a.0, a.1, a.2) {
        (ModelStation::Real(s), ModelStation::Real(d), ModelLine::Real(l)) => (s, d, l),
        _ => arbitrary(),
    }
}

/// The legs of a route taking the arcs at positions `order`: one leg per
/// arc between real stations, in the order taken.
pub open spec fn real_legs(arcs: Seq<ModelArc>, order: Seq<int>) -> Seq<Leg> {
    order.map_values(|i: int| arcs[i]).filter(|a: ModelArc| is_real_arc(a)).map_values(|a: ModelArc| arc_leg(a))
}

/// `legs_of` gives one leg per real arc taken, in order.
proof fn lemma_legs_of_real(arcs: Seq<ModelArc>, order: Seq<int>)
    ensures
        legs_of(arcs, order) == real_legs(arcs, order),
    decreases order.len(),
{
    reveal(Seq::filter);
    let f = |i: int| arcs[i];
    let p = |a: ModelArc| is_real_arc(a);
    let g = |a: ModelArc| arc_leg(a);
    if order.len() == 0 {
        assert(order.map_values(f) =~= Seq::<ModelArc>::empty());
        assert(real_legs(arcs, order) =~= Seq::<Leg>::empty());
    } else {
        lemma_legs_of_real(arcs, order.drop_last());
        let m = order.map_values(f);
        assert(m.drop_last() =~= order.drop_last().map_values(f));
        assert(m.last() == arcs[order[order.len() - 1]]);
        let sub = m.drop_last().filter(p);
        if is_real_arc(m.last()) {
            assert(m.filter(p) == sub.push(m.last()));
            assert(sub.push(m.last()).map_values(g) =~= sub.map_values(g).push(arc_leg(m.last())));
        } else {
            assert(m.filter(p) == sub);
        }
    }
}

/// The route of a solution is its real arcs: when a route is found, some
/// order of the arcs a walk from the source reaches takes each of them
/// exactly once, from the source to the target, each leaving the station
/// where the one before it arrives; and the legs of the route are the arcs
/// of that order that run between real stations, one leg per arc, in order.
/// A route is found whenever such an order exists.
pub proof fn lemma_route_is_its_real_arcs(arcs: Seq<ModelArc>)
    ensures
        route_of(arcs) matches Some(legs) ==> exists|o: Seq<int>|
            #[trigger] is_trail(arcs, off_route(arcs), ModelStation::Source, o) && legs == real_legs(arcs, o),
        (exists|o: Seq<int>| #[trigger] is_trail(arcs, off_route(arcs), ModelStation::Source, o)) ==> route_of(
            arcs,
        ) is Some,
{
    lemma_trail_order(arcs, off_route(arcs), ModelStation::Source);
    match trail_order(arcs, off_route(arcs), ModelStation::Source, 0) {
        Some(o) => {
            lemma_legs_of_real(arcs, o);
        },
        None => {},
    }
}

/// Marks the arcs a walk from the source reaches.
fn reachable_marks(arcs: &Vec<ModelArc>) -> (r: Vec<bool>)
    ensures
        r@.len() == arcs@.len(),
        forall|i: int| 0 <= i < arcs@.len() ==> #[trigger] r@[i] == reachable_arcs(arcs@).contains(i),
{
    let n = arcs.len();
    let mut cur: Vec<bool> = Vec::new();
    let mut i: usize = 0;
    while i < n
        invariant
            n == arcs@.len(),
            i <= n,
            cur@.len() == i,
            forall|j: int| 0 <= j < i ==> #[trigger] cur@[j] == reached_arcs(arcs@, 0).contains(j),
        decreases n - i,
    {
        let from_source = match arcs[i].0 {
            ModelStation::Source => true,
            _ => false,
        };
        cur.push(from_source);
        i = i + 1;
    }
    let mut k: usize = 0;
    while k < n
        invariant
            n == arcs@.len(),
            k <= n,
            cur@.len() == n,
            forall|j: int| 0 <= j < n ==> #[trigger] cur@[j] == reached_arcs(arcs@, k as nat).contains(j),
        decreases n - k,
    {
        let ghost prev = reached_arcs(arcs@, k as nat);
        let mut next: Vec<bool> = Vec::new();
        let mut i: usize = 0;
        while i < n
            invariant
                n == arcs@.len(),
                i <= n,
                cur@.len() == n,
                prev == reached_arcs(arcs@, k as nat),
                forall|j: int| 0 <= j < n ==> #[trigger] cur@[j] == prev.contains(j),
                next@.len() == i,
                forall|j: int| 0 <= j < i ==> #[trigger] next@[j] == reached_arcs(arcs@, (k + 1) as nat).contains(j),
            decreases n - i,
        {
            let mut hit = cur[i];
            let mut j: usize = 0;
            while j < n
                invariant
                    n == arcs@.len(),
                    i < n,
                    j <= n,
                    cur@.len() == n,
                    forall|m: int| 0 <= m < n ==> #[trigger] cur@[m] == prev.contains(m),
                    hit == (cur@[i as int] || exists|m: int|
                        0 <= m < j && #[trigger] prev.contains(m) && arcs@[m].1 == arcs@[i as int].0),
                decreases n - j,
            {
                if cur[j] && arcs[j].1 == arcs[i].0 {
                    hit = true;
                }
                proof {
                    if cur@[j as int] && arcs@[j as int].1 == arcs@[i as int].0 {
                        assert(prev.contains(j as int));
                    }
                }
                j = j + 1;
            }
            proof {
                assert(hit == reached_arcs(arcs@, (k + 1) as nat).contains(i as int));
            }
            next.push(hit);
            i = i + 1;
        }
        cur = next;
        k = k + 1;
    }
    cur
}

/// Finds the order `trail_order` names, trying the unused arcs leaving
/// `cur` in turn and backing up from each that leads nowhere; `used` is left
/// as it was.
fn find_trail(arcs: &Vec<ModelArc>, used: &mut Vec<bool>, remaining: usize, cur: ModelStation) -> (r: Option<
    Vec<usize>,
>)
    requires
        old(used)@.len() == arcs@.len(),
        remaining == unused_count(old(used)@),
    ensures
        final(used)@ == old(used)@,
        match r {
            Some(v) => trail_order(arcs@, old(used)@, cur, 0) == Some(v@.map_values(|x: usize| x as int)),
            None => trail_order(arcs@, old(used)@, cur, 0) is None,
        },
    decreases remaining,
{
    if remaining == 0 {
        match cur {
            ModelStation::Target => {
                proof {
                    assert(Seq::<usize>::empty().map_values(|x: usize| x as int) =~= Seq::<int>::empty());
                }
                return Some(Vec::new());
            },
            _ => {
                return None;
            },
        }
    }
    let ghost u0 = used@;
    let mut k: usize = 0;
    while k < arcs.len()
        invariant
            used@ == u0,
            old(used)@ == u0,
            u0.len() == arcs@.len(),
            remaining == unused_count(u0),
            remaining > 0,
            k <= arcs@.len(),
            trail_order(arcs@, u0, cur, 0) == trail_order(arcs@, u0, cur, k as int),
        decreases arcs@.len() - k,
    {
        if !used[k] && arcs[k].0 == cur {
            proof {
                lemma_use_one(u0, k as int);
            }
            used.set(k, true);
            let sub = find_trail(arcs, used, remaining - 1, arcs[k].1);
            used.set(k, false);
            proof {
                assert(used@ =~= u0);
            }
            match sub {
                Some(rest) => {
                    let ghost rv = rest@;
                    let mut v = rest;
                    v.insert(0, k);
                    proof {
                        assert(v@.map_values(|x: usize| x as int) =~= seq![k as int] + rv.map_values(
                            |x: usize| x as int,
                        ));
                    }
                    return Some(v);
                },
                None => {},
            }
        }
        k = k + 1;
    }
    None
}

/// Orders the arcs of a solution into a route from the source to the
/// target: arcs that a walk from the source never reaches are left aside;
/// at each station the unused arcs leaving it are tried in turn, backing up
/// from any that leads nowhere, until every reached arc is used and the
/// target reached; the legs between real stations, in that order, are the
/// route. It fails when no order of the reached arcs makes such a trail:
/// the route would leave out an arc it reaches, or never reach the target.
/// (Backing up may take time exponential in the number of stations passed
/// twice.)
pub fn order_solution_path(arcs: &Vec<ModelArc>) -> (r: Result<Vec<Leg>, PathError>)
    ensures
        match route_of(arcs@) {
            Some(legs) => r matches Ok(v) && v@ == legs,
            None => r == Err::<Vec<Leg>, PathError>(PathError::Malformed),
        },
        r matches Ok(v) ==> exists|o: Seq<int>|
            #[trigger] is_trail(arcs@, off_route(arcs@), ModelStation::Source, o) && v@ == real_legs(arcs@, o),
        r is Err ==> !exists|o: Seq<int>| #[trigger] is_trail(arcs@, off_route(arcs@), ModelStation::Source, o),
{
    proof {
        lemma_route_is_its_real_arcs(arcs@);
    }
    let n = arcs.len();
    let marks = reachable_marks(arcs);
    let ghost start = off_route(arcs@);
    let mut used: Vec<bool> = Vec::new();
    let mut remaining: usize = 0;
    let mut i: usize = 0;
    while i < n
        invariant
            n == arcs@.len(),
            marks@.len() == n,
            forall|j: int| 0 <= j < n ==> #[trigger] marks@[j] == reachable_arcs(arcs@).contains(j),
            start == off_route(arcs@),
            i <= n,
            remaining <= i,
            used@ == start.take(i as int),
            remaining == unused_count(used@),
        decreases n - i,
    {
        proof {
            assert(start.take(i + 1) =~= start.take(i as int).push(!marks@[i as int]));
            assert(start.take(i + 1).drop_last() =~= start.take(i as int));
        }
        used.push(!marks[i]);
        if marks[i] {
            remaining = remaining + 1;
        }
        i = i + 1;
    }
    proof {
        assert(start.take(n as int) =~= start);
    }
    match find_trail(arcs, &mut used, remaining, ModelStation::Source) {
        None => Err(PathError::Malformed),
        Some(order) => {
            let ghost o = order@.map_values(|x: usize| x as int);
            proof {
                lemma_trail_order_sound(arcs@, off_route(arcs@), ModelStation::Source, 0);
                assert forall|i: int| 0 <= i < order@.len() implies #[trigger] order@[i] < arcs@.len() by {
                    assert(o[i] == order@[i] as int);
                }
            }
            let mut legs: Vec<Leg> = Vec::new();
            let mut k: usize = 0;
            while k < order.len()
                invariant
                    o == order@.map_values(|x: usize| x as int),
                    trail_order(arcs@, off_route(arcs@), ModelStation::Source, 0) == Some(o),
                    k <= order@.len(),
                    forall|i: int| 0 <= i < order@.len() ==> #[trigger] order@[i] < arcs@.len(),
                    legs@ == legs_of(arcs@, o.take(k as int)),
                decreases order@.len() - k,
            {
                proof {
                    assert(o.take(k + 1).drop_last() =~= o.take(k as int));
                }
                let a = arcs[order[k]];
                match (a.0, a.1, a.2) {
                    (ModelStation::Real(s), ModelStation::Real(d), ModelLine::Real(l)) => {
                        legs.push((s, d, l));
                    },
                    _ => {},
                }
                k = k + 1;
            }
            proof {
                assert(o.take(k as int) =~= o);
            }
            Ok(legs)
        },
    }
}

/// The text of a route, one leg per line under a `source,target,line`
/// header.
pub open spec fn route_csv(legs: Seq<Leg>) -> Seq<char>
    decreases legs.len(),
{
    if legs.len() == 0 {
        "source,target,line\n"@
    } else {
        let l = legs.last();
        route_csv(legs.drop_last()) + qid_text(l.0.0.0) + ","@ + qid_text(l.1.0.0) + ","@ + qid_text(l.2.0.0)
            + "\n"@
    }
}

/// Writes a route as its text.
pub fn route_to_csv(legs: &Vec<Leg>) -> (r: String)
    ensures
        r@ == route_csv(legs@),
{
    let mut r = String::from_str("source,target,line\n");
    let mut k: usize = 0;
    while k < legs.len()
        invariant
            k <= legs@.len(),
            r@ == route_csv(legs@.take(k as int)),
        decreases legs@.len() - k,
    {
        let (s, d, l) = legs[k];
        let st = s.0.to_text();
        let dt = d.0.to_text();
        let lt = l.0.to_text();
        r.append(st.as_str());
        r.append(",");
        r.append(dt.as_str());
        r.append(",");
        r.append(lt.as_str());
        r.append("\n");
        proof {
            assert(legs@.take(k + 1).drop_last() =~= legs@.take(k as int));
            assert(r@ =~= route_csv(legs@.take(k + 1)));
        }
        k = k + 1;
    }
    proof {
        assert(legs@.take(k as int) =~= legs@);
    }
    r
}

} // verus!
