//! Exhaustive searches for routes that ride every line of a network: a
//! depth-first search over the stations, and an iterative-deepening search
//! over the line graph.
//!
//! A set of lines is a `u32` whose bit `i` stands for the line `i`; a route
//! has taken every line once the set holds as many lines as the network has.
use vstd::prelude::*;
use petgraph::Graph;

use crate::graph::{
    edges_within, line_edges, line_graph_wf, line_neighbors, line_neighbors_at, line_node_count,
    line_node_weight, line_nodes, station_edges, station_edges_directed, station_edges_directed_at,
    station_graph_wf, station_node_count, station_nodes,
};
use crate::network::{lemma_directed_member, InvertedNetwork, Network};
use crate::queries::{
    first_line, lemma_line_id_concrete_eq, line_bit, lines_fit, LineId, StationQid, SubwayData,
};

verus! {

/// The number of ones in the binary representation of `x`: the number of
/// lines in a set of lines.
pub open spec fn popcount(x: u32) -> nat
    decreases x,
{
    if x == 0 {
        0
    } else {
        (x % 2) as nat + popcount(x / 2)
    }
}

/// A set of lines holds no more lines than its number.
proof fn lemma_popcount_bound(x: u32)
    ensures
        popcount(x) <= x,
    decreases x,
{
    if x != 0 {
        lemma_popcount_bound(x / 2);
    }
}

/// The set of one line holds one line, and the sets of two different lines
/// share none: a set of lines counts each line it holds once.
pub proof fn lemma_line_bits(i: nat, j: nat)
    requires
        i < 32,
        j < 32,
    ensures
        popcount(line_bit(i)) == 1,
        i != j ==> line_bit(i) & line_bit(j) == 0,
{
    lemma_single_bit(i);
    let a = i as u32;
    let b = j as u32;
    assert(line_bit(i) == (1u32 << a));
    assert(line_bit(j) == (1u32 << b));
    assert(a < 32 && b < 32 && a != b ==> (1u32 << a) & (1u32 << b) == 0) by (bit_vector);
}

/// A single bit counts one.
proof fn lemma_single_bit(i: nat)
    requires
        i < 32,
    ensures
        popcount((1u32 << i) as u32) == 1,
    decreases i,
{
    let a = i as u32;
    assert(((1u32 << i) as u32) == (1u32 << a));
    if i == 0 {
        assert((1u32 << 0u32) == 1u32) by (bit_vector);
        assert(popcount(0) == 0);
    } else {
        let p = (i - 1) as u32;
        assert(0 < a < 32 && p == a - 1 ==> (1u32 << a) % 2 == 0 && (1u32 << a) / 2 == (1u32 << p) && (1u32 << a) != 0)
            by (bit_vector);
        lemma_single_bit((i - 1) as nat);
        assert(((1u32 << (i - 1) as nat) as u32) == (1u32 << p));
    }
}

/// The number of lines in a set of lines (`u32::count_ones`).
pub fn count_ones(x: u32) -> (r: u32)
    ensures
        r == popcount(x),
{
    proof {
        lemma_popcount_bound(x);
    }
    let mut y = x;
    let mut c: u32 = 0;
    while y != 0
        invariant
            c + popcount(y) == popcount(x),
            popcount(x) <= u32::MAX,
        decreases y,
    {
        c = c + y % 2;
        y = y / 2;
    }
    c
}

/// A run of equal kinds: the kind, and how many times in a row it came.
#[derive(Debug, Clone, Copy)]
pub struct Streak<T: Copy + PartialEq> {
    pub kind: T,
    pub current: u32,
}

impl<T: Copy + PartialEq> Streak<T> {
    /// The streak once `kind` comes: one longer when it is the kind of the
    /// streak, else a new streak of one.
    pub open spec fn recorded(self, kind: T) -> Streak<T> {
        if self.kind == kind {
            Streak { kind: self.kind, current: (self.current + 1) as u32 }
        } else {
            Streak { kind, current: 1 }
        }
    }

    /// An empty streak of kind `initial`.
    pub fn new(initial: T) -> (r: Self)
        ensures
            r.kind == initial,
            r.current == 0,
    {
        Self { kind: initial, current: 0 }
    }

    /// Records that `kind` came, and gives back the streak as it was.
    pub fn record_kind_and_save(&mut self, kind: T) -> (r: Self)
        requires
            vstd::laws_eq::obeys_concrete_eq::<T>(),
            old(self).kind == kind ==> old(self).current < u32::MAX,
        ensures
            r == *old(self),
            *final(self) == old(self).recorded(kind),
    {
        proof {
            reveal(vstd::laws_eq::obeys_concrete_eq);
        }
        let save = *self;
        if self.kind == kind {
            self.current = self.current + 1;
        } else {
            self.kind = kind;
            self.current = 1;
        }
        save
    }

    /// Records each kind of `kinds` in turn. From an empty streak, the streak
    /// is then of the last kind and as long as the run of equal kinds that
    /// ends the list.
    pub fn record_kinds(&mut self, kinds: &Vec<T>)
        requires
            vstd::laws_eq::obeys_concrete_eq::<T>(),
            old(self).current + kinds@.len() < u32::MAX,
        ensures
            *final(self) == recorded_all(*old(self), kinds@),
            old(self).current == 0 && kinds@.len() >= 1 ==> final(self).kind == kinds@.last()
                && final(self).current == trailing_run(kinds@),
    {
        let ghost s0 = *self;
        let mut i: usize = 0;
        while i < kinds.len()
            invariant
                vstd::laws_eq::obeys_concrete_eq::<T>(),
                s0.current + kinds@.len() < u32::MAX,
                i <= kinds@.len(),
                *self == recorded_all(s0, kinds@.take(i as int)),
                self.current <= s0.current + i,
            decreases kinds@.len() - i,
        {
            proof {
                assert(kinds@.take(i + 1).drop_last() =~= kinds@.take(i as int));
            }
            self.record_kind_and_save(kinds[i]);
            i = i + 1;
        }
        proof {
            assert(kinds@.take(i as int) =~= kinds@);
            if s0.current == 0 && kinds@.len() >= 1 {
                assert(s0 == Streak { kind: s0.kind, current: 0 });
                lemma_streak_run(s0.kind, kinds@);
            }
        }
    }
}

/// The streak once each kind of `kinds` has come, in turn.
pub open spec fn recorded_all<T: Copy + PartialEq>(s: Streak<T>, kinds: Seq<T>) -> Streak<T>
    decreases kinds.len(),
{
    if kinds.len() == 0 {
        s
    } else {
        recorded_all(s, kinds.drop_last()).recorded(kinds.last())
    }
}

/// How many of the last kinds are the same as the last one.
pub open spec fn trailing_run<T>(kinds: Seq<T>) -> nat
    decreases kinds.len(),
{
    if kinds.len() == 0 {
        0
    } else if kinds.len() >= 2 && kinds[kinds.len() - 2] == kinds.last() {
        trailing_run(kinds.drop_last()) + 1
    } else {
        1
    }
}

/// After a run of kinds, from an empty streak, the streak is of the last
/// kind and as long as the run of equal kinds that ends the list (a run
/// shorter than `u32::MAX`).
pub proof fn lemma_streak_run<T: Copy + PartialEq>(k0: T, kinds: Seq<T>)
    requires
        kinds.len() >= 1,
        kinds.len() < u32::MAX,
    ensures
        recorded_all(Streak { kind: k0, current: 0 }, kinds).kind == kinds.last(),
        recorded_all(Streak { kind: k0, current: 0 }, kinds).current == trailing_run(kinds),
    decreases kinds.len(),
{
    let s0 = Streak { kind: k0, current: 0 };
    if kinds.len() == 1 {
        assert(kinds.drop_last().len() == 0);
        assert(recorded_all(s0, kinds.drop_last()) == s0);
    } else {
        let init = kinds.drop_last();
        lemma_streak_run(k0, init);
        lemma_trailing_run_bound(init);
        assert(init.last() == kinds[kinds.len() - 2]);
    }
}

/// A trailing run is no longer than the list.
proof fn lemma_trailing_run_bound<T>(kinds: Seq<T>)
    ensures
        trailing_run(kinds) <= kinds.len(),
    decreases kinds.len(),
{
    if kinds.len() > 0 {
        lemma_trailing_run_bound(kinds.drop_last());
    }
}

/// The longest a line may be ridden in a row before a route is given up.
pub const MAX_LINE_STREAK: u32 = 4;

/// The most stations a route may pass.
pub const MAX_ROUTE_LENGTH: usize = 27;

/// Every edge of a station graph is on a line that a set of lines can hold.
pub open spec fn station_lines_fit(g: Graph<StationQid, LineId>) -> bool {
    forall|i: int| 0 <= i < station_edges(g).len() ==> #[trigger] station_edges(g)[i].2.wf()
}

/// The routes a depth-first search finds from `route`, standing at `idx`
/// with the lines `lines` taken and the streak `streak`: the route itself
/// once every line is taken; nothing once a line has been ridden more than
/// `MAX_LINE_STREAK` times in a row or the route is `MAX_ROUTE_LENGTH`
/// stations long; else what it finds along each edge leaving `idx`, in the
/// order the graph lists them.
pub open spec fn dfs_routes(
    g: Graph<StationQid, LineId>,
    nb_lines: nat,
    route: Seq<usize>,
    lines: u32,
    streak: Streak<LineId>,
    idx: usize,
) -> Seq<Seq<usize>>
    decreases MAX_ROUTE_LENGTH - route.len(), station_edges_directed(g, idx, true).len() + 1,
{
    if popcount(lines) == nb_lines {
        seq![route]
    } else if streak.current > MAX_LINE_STREAK || route.len() >= MAX_ROUTE_LENGTH {
        Seq::empty()
    } else {
        let outs = station_edges_directed(g, idx, true);
        routes_along(g, nb_lines, route, lines, streak, outs, outs.len() as int)
    }
}

/// Whether the search skips a step to `t` from the end of `route`: a step
/// that stays at the last station, or goes straight back to the station
/// before it.
pub open spec fn skipped_step(route: Seq<usize>, t: usize) -> bool {
    t == route.last() || (route.len() >= 2 && t == route[route.len() - 2])
}

/// The routes found along the first `k` edges of `outs`: an edge that
/// `skipped_step` names is skipped; along another, the route goes
/// on to its target, taking its line.
pub open spec fn routes_along(
    g: Graph<StationQid, LineId>,
    nb_lines: nat,
    route: Seq<usize>,
    lines: u32,
    streak: Streak<LineId>,
    outs: Seq<(usize, usize, LineId)>,
    k: int,
) -> Seq<Seq<usize>>
    decreases MAX_ROUTE_LENGTH - route.len(), k,
{
    if k <= 0 || k > outs.len() || route.len() >= MAX_ROUTE_LENGTH {
        Seq::empty()
    } else {
        let e = outs[k - 1];
        routes_along(g, nb_lines, route, lines, streak, outs, k - 1) + if skipped_step(route, e.1) {
            Seq::<Seq<usize>>::empty()
        } else {
            dfs_routes(g, nb_lines, route.push(e.1), lines | line_bit(e.2@), streak.recorded(e.2), e.1)
        }
    }
}

/// The stations of each route of a list.
pub open spec fn routes_of(found: Seq<Vec<usize>>) -> Seq<Seq<usize>> {
    found.map_values(|r: Vec<usize>| r@)
}

/// An edge leaving node `n` of a station graph joins two of its nodes, on a
/// line that a set of lines can hold.
proof fn lemma_out_edge(g: Graph<StationQid, LineId>, n: usize, k: int)
    requires
        station_graph_wf(g),
        station_lines_fit(g),
        0 <= k < station_edges_directed(g, n, true).len(),
    ensures
        station_edges_directed(g, n, true)[k].1 < station_nodes(g).len(),
        station_edges_directed(g, n, true)[k].2.wf(),
{
    let e = station_edges_directed(g, n, true)[k];
    assert(station_edges_directed(g, n, true).contains(e));
    lemma_directed_member(g, n, true, e);
    let i = choose|i: int| 0 <= i < station_edges(g).len() && station_edges(g)[i] == e;
    assert(station_edges(g)[i].2.wf());
}

/// A depth-first search over the stations of a network for routes that ride
/// every line.
#[derive(Debug)]
pub struct NormalDfs<'a> {
    pub graph: &'a Graph<StationQid, LineId>,
    pub data: &'a SubwayData,
    /// The nodes of the route so far.
    pub route: Vec<usize>,
    /// The lines the route has taken.
    pub lines_taken: u32,
    /// The line the route rides, and for how many stations in a row.
    pub line_streak: Streak<LineId>,
}

impl<'a> NormalDfs<'a> {
    /// Goes on from node `idx`, the end of the route, and appends to `found`
    /// each route found, in the order the search meets them; the search
    /// itself is left as it was.
    pub fn continue_at(&mut self, idx: usize, found: &mut Vec<Vec<usize>>)
        requires
            station_graph_wf(*old(self).graph),
            station_lines_fit(*old(self).graph),
            lines_fit(old(self).data.lines@),
            idx < station_nodes(*old(self).graph).len(),
            1 <= old(self).route@.len(),
        ensures
            final(self).graph == old(self).graph,
            final(self).data == old(self).data,
            final(self).route@ == old(self).route@,
            final(self).lines_taken == old(self).lines_taken,
            final(self).line_streak == old(self).line_streak,
            routes_of(final(found)@) == routes_of(old(found)@) + dfs_routes(
                *old(self).graph,
                old(self).data.lines@.len(),
                old(self).route@,
                old(self).lines_taken,
                old(self).line_streak,
                idx,
            ),
        decreases MAX_ROUTE_LENGTH - self.route@.len(),
    {
        let ghost g = *self.graph;
        let ghost nb = self.data.lines@.len();
        let ghost route0 = self.route@;
        let ghost lines0 = self.lines_taken;
        let ghost streak0 = self.line_streak;
        let ghost found0 = routes_of(found@);
        if count_ones(self.lines_taken) == self.data.nb_lines() {
            let r = self.route.clone();
            proof {
                assert(r@ =~= route0);
            }
            found.push(r);
            proof {
                assert(routes_of(found@) =~= found0 + seq![route0]);
            }
            return;
        }
        if self.line_streak.current > MAX_LINE_STREAK {
            proof {
                assert(routes_of(found@) =~= found0 + Seq::<Seq<usize>>::empty());
            }
            return;
        }
        if self.route.len() >= MAX_ROUTE_LENGTH {
            proof {
                assert(routes_of(found@) =~= found0 + Seq::<Seq<usize>>::empty());
            }
            return;
        }
        let outs = station_edges_directed_at(self.graph, idx, true);
        proof {
            assert(routes_of(found@) =~= found0 + routes_along(g, nb, route0, lines0, streak0, outs@, 0));
        }
        let mut k: usize = 0;
        while k < outs.len()
            invariant
                station_graph_wf(g),
                station_lines_fit(g),
                lines_fit(self.data.lines@),
                *self.graph == g,
                self.graph == old(self).graph,
                self.data == old(self).data,
                nb == self.data.lines@.len(),
                self.route@ == route0,
                old(self).route@ == route0,
                1 <= route0.len() < MAX_ROUTE_LENGTH,
                self.lines_taken == lines0,
                self.line_streak == streak0,
                streak0.current <= MAX_LINE_STREAK,
                popcount(lines0) != nb,
                outs@ == station_edges_directed(g, idx, true),
                k <= outs@.len(),
                routes_of(found@) == found0 + routes_along(g, nb, route0, lines0, streak0, outs@, k as int),
            decreases outs@.len() - k,
        {
            let (_, target, line) = outs[k];
            let ghost before = routes_of(found@);
            proof {
                lemma_out_edge(g, idx, k as int);
            }
            let len = self.route.len();
            let last = self.route[len - 1];
            let back = len >= 2 && target == self.route[len - 2];
            if target != last && !back {
                self.route.push(target);
                let new_lines = self.lines_taken | line.bitmask();
                let old_lines = self.lines_taken;
                self.lines_taken = new_lines;
                proof {
                    lemma_line_id_concrete_eq();
                }
                let old_streak = self.line_streak.record_kind_and_save(line);
                self.continue_at(target, found);
                self.line_streak = old_streak;
                self.lines_taken = old_lines;
                self.route.pop();
                proof {
                    assert(self.route@ =~= route0);
                    assert(routes_of(found@) =~= found0 + routes_along(
                        g,
                        nb,
                        route0,
                        lines0,
                        streak0,
                        outs@,
                        k + 1,
                    ));
                }
            } else {
                proof {
                    assert(routes_of(found@) =~= found0 + routes_along(
                        g,
                        nb,
                        route0,
                        lines0,
                        streak0,
                        outs@,
                        k + 1,
                    ));
                }
            }
            k = k + 1;
        }
        proof {
            assert(dfs_routes(g, nb, route0, lines0, streak0, idx) == routes_along(
                g,
                nb,
                route0,
                lines0,
                streak0,
                outs@,
                outs@.len() as int,
            ));
        }
    }

    /// Searches from every node of the network in turn, starting each time
    /// with a route of that node alone, no line taken and an empty streak:
    /// the routes found from each start node, by node index.
    pub fn traverse(network: &Network, data: &SubwayData) -> (r: Vec<Vec<Vec<usize>>>)
        requires
            station_graph_wf(network.graph),
            station_lines_fit(network.graph),
            lines_fit(data.lines@),
        ensures
            r@.len() == station_nodes(network.graph).len(),
            forall|i: int|
                0 <= i < r@.len() ==> routes_of(#[trigger] r@[i]@) == dfs_routes(
                    network.graph,
                    data.lines@.len(),
                    seq![i as usize],
                    0,
                    Streak { kind: first_line(), current: 0 },
                    i as usize,
                ),
    {
        let mut traversal = NormalDfs {
            graph: &network.graph,
            data,
            route: Vec::new(),
            lines_taken: 0,
            line_streak: Streak::new(LineId::default()),
        };
        let n = station_node_count(&network.graph);
        let mut all: Vec<Vec<Vec<usize>>> = Vec::new();
        let mut start: usize = 0;
        while start < n
            invariant
                station_graph_wf(network.graph),
                station_lines_fit(network.graph),
                lines_fit(data.lines@),
                traversal.graph == &network.graph,
                traversal.data == data,
                n == station_nodes(network.graph).len(),
                start <= n,
                all@.len() == start,
                forall|i: int|
                    0 <= i < start ==> routes_of(#[trigger] all@[i]@) == dfs_routes(
                        network.graph,
                        data.lines@.len(),
                        seq![i as usize],
                        0,
                        Streak { kind: first_line(), current: 0 },
                        i as usize,
                    ),
            decreases n - start,
        {
            traversal.route.clear();
            traversal.lines_taken = 0;
            traversal.line_streak = Streak::new(LineId::default());
            traversal.route.push(start);
            let mut found: Vec<Vec<usize>> = Vec::new();
            proof {
                assert(traversal.route@ =~= seq![start]);
                assert(routes_of(found@) =~= Seq::<Seq<usize>>::empty());
            }
            traversal.continue_at(start, &mut found);
            proof {
                assert(routes_of(found@) =~= dfs_routes(
                    network.graph,
                    data.lines@.len(),
                    seq![start],
                    0,
                    Streak { kind: first_line(), current: 0 },
                    start,
                ));
            }
            all.push(found);
            start = start + 1;
        }
        all
    }
}

/// The fewest line changes `InvertedBfs::iddfs` looks for.
pub const MIN_DEPTH: usize = 25;

/// The most line changes `InvertedBfs::iddfs` looks for.
pub const MAX_DEPTH: usize = 30;

/// Every node of a line graph is a line that a set of lines can hold.
pub open spec fn line_nodes_fit(g: Graph<LineId, StationQid>) -> bool {
    forall|n: int| 0 <= n < line_nodes(g).len() ==> #[trigger] line_nodes(g)[n].wf()
}

/// The paths of exactly `depth` more nodes that a depth-first search of a
/// line graph finds from `path`, standing at `current` with the lines
/// `lines` taken, each with the lines it takes: at depth 0, the path itself
/// if it takes every line; else what it finds through each neighbor of
/// `current`, in the order the graph lists them.
pub open spec fn bfs_paths(
    g: Graph<LineId, StationQid>,
    nb_lines: nat,
    current: usize,
    path: Seq<usize>,
    lines: u32,
    depth: nat,
) -> Seq<(Seq<usize>, u32)>
    decreases depth, line_neighbors(g, current).len() + 1,
{
    if depth == 0 {
        if popcount(lines) == nb_lines {
            seq![(path, lines)]
        } else {
            Seq::empty()
        }
    } else {
        let ns = line_neighbors(g, current);
        paths_along(g, nb_lines, path, lines, depth, ns, ns.len() as int)
    }
}

/// The paths found through the first `k` neighbors of `ns`: a neighbor
/// already on the path is skipped; through another, the path goes on to it,
/// taking its line.
pub open spec fn paths_along(
    g: Graph<LineId, StationQid>,
    nb_lines: nat,
    path: Seq<usize>,
    lines: u32,
    depth: nat,
    ns: Seq<usize>,
    k: int,
) -> Seq<(Seq<usize>, u32)>
    decreases depth, k,
{
    if k <= 0 || k > ns.len() || depth == 0 {
        Seq::empty()
    } else {
        let m = ns[k - 1];
        paths_along(g, nb_lines, path, lines, depth, ns, k - 1) + if path.contains(m) {
            Seq::<(Seq<usize>, u32)>::empty()
        } else {
            bfs_paths(g, nb_lines, m, path.push(m), lines | line_bit(line_nodes(g)[m as int]@), (depth - 1) as nat)
        }
    }
}

/// The nodes and lines of each path of a list.
pub open spec fn paths_of(found: Seq<(Vec<usize>, u32)>) -> Seq<(Seq<usize>, u32)> {
    found.map_values(|f: (Vec<usize>, u32)| (f.0@, f.1))
}

/// What `InvertedBfs::iddfs` finds from `start`: for each depth limit from
/// `MIN_DEPTH` to `MAX_DEPTH`, the paths of that many nodes from `start`.
pub open spec fn iddfs_paths(g: Graph<LineId, StationQid>, nb_lines: nat, start: usize) -> Seq<
    Seq<(Seq<usize>, u32)>,
> {
    Seq::new(
        (MAX_DEPTH - MIN_DEPTH + 1) as nat,
        |d: int|
            bfs_paths(
                g,
                nb_lines,
                start,
                seq![start],
                line_bit(line_nodes(g)[start as int]@),
                (MIN_DEPTH + d - 1) as nat,
            ),
    )
}

/// A neighbor of a node of a line graph is one of its nodes.
proof fn lemma_neighbor_node(g: Graph<LineId, StationQid>, n: usize, k: int)
    requires
        line_graph_wf(g),
        0 <= k < line_neighbors(g, n).len(),
    ensures
        line_neighbors(g, n)[k] < line_nodes(g).len(),
{
    broadcast use vstd::seq_lib::group_to_multiset_ensures;
    let m = line_neighbors(g, n)[k];
    let outs = crate::graph::edges_at(line_edges(g), n, true);
    let targets = outs.map_values(|e: (usize, usize, StationQid)| e.1);
    assert(line_neighbors(g, n).contains(m));
    assert(targets.to_multiset().count(m) > 0);
    assert(targets.contains(m));
    let j = choose|j: int| 0 <= j < targets.len() && targets[j] == m;
    assert(outs.contains(outs[j]));
    crate::lemmas::lemma_filter_member(line_edges(g), crate::graph::at_node(n, true), outs[j]);
    let i = choose|i: int| 0 <= i < line_edges(g).len() && line_edges(g)[i] == outs[j];
    assert(edges_within(line_edges(g), line_nodes(g).len()));
    assert(line_edges(g)[i].1 < line_nodes(g).len());
}

/// Whether `x` is one of the elements of `v`.
fn holds(v: &Vec<usize>, x: usize) -> (r: bool)
    ensures
        r == v@.contains(x),
{
    let mut k: usize = 0;
    while k < v.len()
        invariant
            k <= v@.len(),
            forall|j: int| 0 <= j < k ==> v@[j] != x,
        decreases v@.len() - k,
    {
        if v[k] == x {
            return true;
        }
        k = k + 1;
    }
    false
}

/// An iterative-deepening search over the line graph of a network for paths
/// of line changes that take every line.
pub struct InvertedBfs {}

impl InvertedBfs {
    /// Searches from every node of the line graph in turn: what
    /// `InvertedBfs::iddfs` finds from each start node, by node index.
    pub fn traverse(inv_net: &InvertedNetwork, data: &SubwayData) -> (r: Vec<Vec<Vec<(Vec<usize>, u32)>>>)
        requires
            line_graph_wf(inv_net.graph),
            line_nodes_fit(inv_net.graph),
            lines_fit(data.lines@),
        ensures
            r@.len() == line_nodes(inv_net.graph).len(),
            forall|i: int, d: int|
                0 <= i < r@.len() && 0 <= d < r@[i]@.len() ==> paths_of(#[trigger] r@[i]@[d]@)
                    == iddfs_paths(inv_net.graph, data.lines@.len(), i as usize)[d],
            forall|i: int| 0 <= i < r@.len() ==> #[trigger] r@[i]@.len() == MAX_DEPTH - MIN_DEPTH + 1,
            forall|i: int, d: int, f: (Seq<usize>, u32)|
                0 <= i < r@.len() && 0 <= d < r@[i]@.len() ==> (#[trigger] paths_of(r@[i]@[d]@).contains(f) <==> {
                    &&& simple_path_from(inv_net.graph, i as usize, f.0)
                    &&& f.0.len() == MIN_DEPTH + d
                    &&& f.1 == path_line_bits(inv_net.graph, f.0)
                    &&& popcount(f.1) == data.lines@.len()
                }),
    {
        let n = line_node_count(&inv_net.graph);
        let mut all: Vec<Vec<Vec<(Vec<usize>, u32)>>> = Vec::new();
        let mut start: usize = 0;
        while start < n
            invariant
                line_graph_wf(inv_net.graph),
                line_nodes_fit(inv_net.graph),
                lines_fit(data.lines@),
                n == line_nodes(inv_net.graph).len(),
                start <= n,
                all@.len() == start,
                forall|i: int, d: int|
                    0 <= i < start && 0 <= d < all@[i]@.len() ==> paths_of(#[trigger] all@[i]@[d]@)
                        == iddfs_paths(inv_net.graph, data.lines@.len(), i as usize)[d],
                forall|i: int| 0 <= i < start ==> #[trigger] all@[i]@.len() == MAX_DEPTH - MIN_DEPTH + 1,
            decreases n - start,
        {
            let found = Self::iddfs(inv_net, data, start);
            all.push(found);
            start = start + 1;
        }
        proof {
            assert forall|i: int, d: int, f: (Seq<usize>, u32)|
                0 <= i < all@.len() && 0 <= d < all@[i]@.len() implies (#[trigger] paths_of(all@[i]@[d]@).contains(f) <==> {
                &&& simple_path_from(inv_net.graph, i as usize, f.0)
                &&& f.0.len() == MIN_DEPTH + d
                &&& f.1 == path_line_bits(inv_net.graph, f.0)
                &&& popcount(f.1) == data.lines@.len()
            }) by {
                assert(all@[i]@.len() == MAX_DEPTH - MIN_DEPTH + 1);
                lemma_iddfs_paths_take_every_line(inv_net.graph, data.lines@.len(), i as usize, d, f);
            }
        }
        all
    }

    /// Searches from `start` for paths of `MIN_DEPTH` nodes, then one more
    /// each time up to `MAX_DEPTH`: the paths found at each depth limit.
    pub fn iddfs(inv_net: &InvertedNetwork, data: &SubwayData, start: usize) -> (r: Vec<Vec<(Vec<usize>, u32)>>)
        requires
            line_graph_wf(inv_net.graph),
            line_nodes_fit(inv_net.graph),
            lines_fit(data.lines@),
            start < line_nodes(inv_net.graph).len(),
        ensures
            r@.len() == MAX_DEPTH - MIN_DEPTH + 1,
            forall|d: int|
                0 <= d < r@.len() ==> paths_of(#[trigger] r@[d]@) == iddfs_paths(
                    inv_net.graph,
                    data.lines@.len(),
                    start,
                )[d],
            forall|d: int, f: (Seq<usize>, u32)|
                0 <= d < r@.len() ==> (#[trigger] paths_of(r@[d]@).contains(f) <==> {
                    &&& simple_path_from(inv_net.graph, start, f.0)
                    &&& f.0.len() == MIN_DEPTH + d
                    &&& f.1 == path_line_bits(inv_net.graph, f.0)
                    &&& popcount(f.1) == data.lines@.len()
                }),
    {
        let all = Self::iddfs_levels(inv_net, data, start);
        proof {
            assert forall|d: int, f: (Seq<usize>, u32)| 0 <= d < all@.len() implies (#[trigger] paths_of(all@[d]@).contains(f) <==> {
                &&& simple_path_from(inv_net.graph, start, f.0)
                &&& f.0.len() == MIN_DEPTH + d
                &&& f.1 == path_line_bits(inv_net.graph, f.0)
                &&& popcount(f.1) == data.lines@.len()
            }) by {
                lemma_iddfs_paths_take_every_line(inv_net.graph, data.lines@.len(), start, d, f);
            }
        }
        all
    }

    /// The paths found from `start` at each depth limit.
    fn iddfs_levels(inv_net: &InvertedNetwork, data: &SubwayData, start: usize) -> (r: Vec<Vec<(Vec<usize>, u32)>>)
        requires
            line_graph_wf(inv_net.graph),
            line_nodes_fit(inv_net.graph),
            lines_fit(data.lines@),
            start < line_nodes(inv_net.graph).len(),
        ensures
            r@.len() == MAX_DEPTH - MIN_DEPTH + 1,
            forall|d: int|
                0 <= d < r@.len() ==> paths_of(#[trigger] r@[d]@) == iddfs_paths(
                    inv_net.graph,
                    data.lines@.len(),
                    start,
                )[d],
    {
        let mut all: Vec<Vec<(Vec<usize>, u32)>> = Vec::new();
        let mut depth_limit: usize = MIN_DEPTH;
        while depth_limit <= MAX_DEPTH
            invariant
                line_graph_wf(inv_net.graph),
                line_nodes_fit(inv_net.graph),
                lines_fit(data.lines@),
                start < line_nodes(inv_net.graph).len(),
                MIN_DEPTH <= depth_limit <= MAX_DEPTH + 1,
                all@.len() == depth_limit - MIN_DEPTH,
                forall|d: int|
                    0 <= d < all@.len() ==> paths_of(#[trigger] all@[d]@) == iddfs_paths(
                        inv_net.graph,
                        data.lines@.len(),
                        start,
                    )[d],
            decreases MAX_DEPTH + 1 - depth_limit,
        {
            let mut path: Vec<usize> = Vec::new();
            path.push(start);
            let lines = line_node_weight(&inv_net.graph, start).bitmask();
            let mut found: Vec<(Vec<usize>, u32)> = Vec::new();
            proof {
                assert(paths_of(found@) =~= Seq::<(Seq<usize>, u32)>::empty());
            }
            Self::dfs_recursive(inv_net, data, start, &mut path, lines, depth_limit - 1, &mut found);
            proof {
                assert(path@ =~= seq![start]);
                assert(paths_of(found@) =~= iddfs_paths(inv_net.graph, data.lines@.len(), start)[depth_limit - MIN_DEPTH]);
            }
            all.push(found);
            depth_limit = depth_limit + 1;
        }
        all
    }

    /// Goes on from `current`, the end of `path`, for `depth_remaining` more
    /// nodes, and appends to `found` each path found with its lines; `path`
    /// is left as it was.
    fn dfs_recursive(
        inv_net: &InvertedNetwork,
        data: &SubwayData,
        current: usize,
        path: &mut Vec<usize>,
        lines: u32,
        depth_remaining: usize,
        found: &mut Vec<(Vec<usize>, u32)>,
    )
        requires
            line_graph_wf(inv_net.graph),
            line_nodes_fit(inv_net.graph),
            lines_fit(data.lines@),
            current < line_nodes(inv_net.graph).len(),
        ensures
            final(path)@ == old(path)@,
            paths_of(final(found)@) == paths_of(old(found)@) + bfs_paths(
                inv_net.graph,
                data.lines@.len(),
                current,
                old(path)@,
                lines,
                depth_remaining as nat,
            ),
        decreases depth_remaining,
    {
        let ghost g = inv_net.graph;
        let ghost nb = data.lines@.len();
        let ghost path0 = path@;
        let ghost found0 = paths_of(found@);
        if depth_remaining == 0 {
            if count_ones(lines) == data.nb_lines() {
                let p = path.clone();
                proof {
                    assert(p@ =~= path0);
                }
                found.push((p, lines));
                proof {
                    assert(paths_of(found@) =~= found0 + seq![(path0, lines)]);
                }
            } else {
                proof {
                    assert(paths_of(found@) =~= found0 + Seq::<(Seq<usize>, u32)>::empty());
                }
            }
            return;
        }
        let ns = line_neighbors_at(&inv_net.graph, current);
        proof {
            assert(paths_of(found@) =~= found0 + paths_along(g, nb, path0, lines, depth_remaining as nat, ns@, 0));
        }
        let mut k: usize = 0;
        while k < ns.len()
            invariant
                line_graph_wf(g),
                line_nodes_fit(g),
                lines_fit(data.lines@),
                g == inv_net.graph,
                nb == data.lines@.len(),
                depth_remaining > 0,
                path@ == path0,
                ns@ == line_neighbors(g, current),
                k <= ns@.len(),
                paths_of(found@) == found0 + paths_along(g, nb, path0, lines, depth_remaining as nat, ns@, k as int),
            decreases ns@.len() - k,
        {
            let m = ns[k];
            proof {
                lemma_neighbor_node(g, current, k as int);
            }
            if !holds(path, m) {
                path.push(m);
                let new_lines = lines | line_node_weight(&inv_net.graph, m).bitmask();
                Self::dfs_recursive(inv_net, data, m, path, new_lines, depth_remaining - 1, found);
                path.pop();
                proof {
                    assert(path@ =~= path0);
                }
            }
            proof {
                assert(paths_of(found@) =~= found0 + paths_along(
                    g,
                    nb,
                    path0,
                    lines,
                    depth_remaining as nat,
                    ns@,
                    k + 1,
                ));
            }
            k = k + 1;
        }
    }
}

/// Step `i` of `w` is one the search takes: along an edge leaving the
/// station before it, not one that `skipped_step` names.
pub open spec fn search_step(g: Graph<StationQid, LineId>, w: Seq<usize>, i: int) -> bool {
    &&& exists|j: int|
        0 <= j < station_edges_directed(g, w[i - 1], true).len() && #[trigger] station_edges_directed(
            g,
            w[i - 1],
            true,
        )[j].1 == w[i]
    &&& !skipped_step(w.take(i), w[i])
}

/// A route found from `route`: it begins with `route`, passes at most
/// `MAX_ROUTE_LENGTH` stations, and goes on from `route` by steps the search
/// takes.
pub open spec fn extends_route(g: Graph<StationQid, LineId>, found: Seq<usize>, route: Seq<usize>) -> bool {
    &&& route.len() <= found.len() <= MAX_ROUTE_LENGTH
    &&& found.take(route.len() as int) == route
    &&& forall|i: int| route.len() <= i < found.len() ==> #[trigger] search_step(g, found, i)
}

/// Every route the depth-first search finds begins with the route it
/// started from, passes at most `MAX_ROUTE_LENGTH` stations, and goes on
/// along edges of the graph, never staying at a station nor going straight
/// back to the one it just left.
pub proof fn lemma_dfs_routes_extend(
    g: Graph<StationQid, LineId>,
    nb_lines: nat,
    route: Seq<usize>,
    lines: u32,
    streak: Streak<LineId>,
    idx: usize,
)
    requires
        1 <= route.len() <= MAX_ROUTE_LENGTH,
        route.last() == idx,
    ensures
        forall|k: int|
            0 <= k < dfs_routes(g, nb_lines, route, lines, streak, idx).len() ==> extends_route(
                g,
                #[trigger] dfs_routes(g, nb_lines, route, lines, streak, idx)[k],
                route,
            ),
    decreases MAX_ROUTE_LENGTH - route.len(), station_edges_directed(g, idx, true).len() + 1,
{
    let found = dfs_routes(g, nb_lines, route, lines, streak, idx);
    if popcount(lines) == nb_lines {
        assert(route.take(route.len() as int) =~= route);
        assert(found =~= seq![route]);
        assert(extends_route(g, found[0], route));
    } else if streak.current > MAX_LINE_STREAK || route.len() >= MAX_ROUTE_LENGTH {
        assert(found.len() == 0);
    } else {
        let outs = station_edges_directed(g, idx, true);
        lemma_routes_along_extend(g, nb_lines, route, lines, streak, outs, outs.len() as int);
        assert(found == routes_along(g, nb_lines, route, lines, streak, outs, outs.len() as int));
    }
}

/// Every route found along the first `k` edges leaving the end of `route`
/// extends `route` as `extends_route` says.
proof fn lemma_routes_along_extend(
    g: Graph<StationQid, LineId>,
    nb_lines: nat,
    route: Seq<usize>,
    lines: u32,
    streak: Streak<LineId>,
    outs: Seq<(usize, usize, LineId)>,
    k: int,
)
    requires
        1 <= route.len() <= MAX_ROUTE_LENGTH,
        outs == station_edges_directed(g, route.last(), true),
    ensures
        forall|j: int|
            0 <= j < routes_along(g, nb_lines, route, lines, streak, outs, k).len() ==> extends_route(
                g,
                #[trigger] routes_along(g, nb_lines, route, lines, streak, outs, k)[j],
                route,
            ),
    decreases MAX_ROUTE_LENGTH - route.len(), k,
{
    if k <= 0 || k > outs.len() || route.len() >= MAX_ROUTE_LENGTH {
    } else {
        let e = outs[k - 1];
        let before = routes_along(g, nb_lines, route, lines, streak, outs, k - 1);
        lemma_routes_along_extend(g, nb_lines, route, lines, streak, outs, k - 1);
        if !skipped_step(route, e.1) {
            let next = route.push(e.1);
            let after = dfs_routes(g, nb_lines, next, lines | line_bit(e.2@), streak.recorded(e.2), e.1);
            lemma_dfs_routes_extend(g, nb_lines, next, lines | line_bit(e.2@), streak.recorded(e.2), e.1);
            assert forall|j: int| 0 <= j < after.len() implies extends_route(g, #[trigger] after[j], route) by {
                let w = after[j];
                assert(extends_route(g, w, next));
                assert(w.take(route.len() as int) =~= next.take(route.len() as int));
                assert(next.take(route.len() as int) =~= route);
                assert forall|i: int| route.len() <= i < w.len() implies #[trigger] search_step(g, w, i) by {
                    if i == route.len() {
                        assert(w[i] == next[i]);
                        assert(w[i - 1] == route.last());
                        assert(w.take(i) =~= route);
                        assert(station_edges_directed(g, w[i - 1], true)[k - 1].1 == w[i]);
                    } else {
                        assert(search_step(g, w, i));
                    }
                }
            }
            assert(routes_along(g, nb_lines, route, lines, streak, outs, k) == before + after);
        } else {
            assert(routes_along(g, nb_lines, route, lines, streak, outs, k) =~= before);
        }
    }
}

/// A path found from `path` with `depth` more nodes to go: it takes every
/// line, has exactly `depth` more nodes than `path`, begins with `path`, and
/// passes no node twice when `path` does not.
pub open spec fn completes_path(found: (Seq<usize>, u32), path: Seq<usize>, depth: nat, nb_lines: nat) -> bool {
    &&& popcount(found.1) == nb_lines
    &&& found.0.len() == path.len() + depth
    &&& found.0.take(path.len() as int) == path
    &&& path.no_duplicates() ==> found.0.no_duplicates()
}

/// Every path the search of the line graph finds takes every line, has
/// exactly `depth` more nodes than the path it started from, begins with
/// it, and passes no node twice when that path does not.
pub proof fn lemma_bfs_paths_complete(
    g: Graph<LineId, StationQid>,
    nb_lines: nat,
    current: usize,
    path: Seq<usize>,
    lines: u32,
    depth: nat,
)
    ensures
        forall|k: int|
            0 <= k < bfs_paths(g, nb_lines, current, path, lines, depth).len() ==> completes_path(
                #[trigger] bfs_paths(g, nb_lines, current, path, lines, depth)[k],
                path,
                depth,
                nb_lines,
            ),
    decreases depth, line_neighbors(g, current).len() + 1,
{
    let found = bfs_paths(g, nb_lines, current, path, lines, depth);
    if depth == 0 {
        assert(path.take(path.len() as int) =~= path);
        if popcount(lines) == nb_lines {
            assert(found =~= seq![(path, lines)]);
            assert(completes_path(found[0], path, depth, nb_lines));
        } else {
            assert(found.len() == 0);
        }
    } else {
        let ns = line_neighbors(g, current);
        lemma_paths_along_complete(g, nb_lines, path, lines, depth, ns, ns.len() as int);
        assert(found == paths_along(g, nb_lines, path, lines, depth, ns, ns.len() as int));
    }
}

/// Every path found through the first `k` neighbors of `ns` completes
/// `path` with `depth` more nodes.
proof fn lemma_paths_along_complete(
    g: Graph<LineId, StationQid>,
    nb_lines: nat,
    path: Seq<usize>,
    lines: u32,
    depth: nat,
    ns: Seq<usize>,
    k: int,
)
    ensures
        forall|j: int|
            0 <= j < paths_along(g, nb_lines, path, lines, depth, ns, k).len() ==> completes_path(
                #[trigger] paths_along(g, nb_lines, path, lines, depth, ns, k)[j],
                path,
                depth,
                nb_lines,
            ),
    decreases depth, k,
{
    if k <= 0 || k > ns.len() || depth == 0 {
    } else {
        let m = ns[k - 1];
        let before = paths_along(g, nb_lines, path, lines, depth, ns, k - 1);
        lemma_paths_along_complete(g, nb_lines, path, lines, depth, ns, k - 1);
        if !path.contains(m) {
            let next = path.push(m);
            let l2 = lines | line_bit(line_nodes(g)[m as int]@);
            let after = bfs_paths(g, nb_lines, m, next, l2, (depth - 1) as nat);
            lemma_bfs_paths_complete(g, nb_lines, m, next, l2, (depth - 1) as nat);
            assert forall|j: int| 0 <= j < after.len() implies completes_path(
                #[trigger] after[j],
                path,
                depth,
                nb_lines,
            ) by {
                assert(completes_path(after[j], next, (depth - 1) as nat, nb_lines));
                assert(after[j].0.take(path.len() as int) =~= next.take(path.len() as int));
                assert(next.take(path.len() as int) =~= path);
                if path.no_duplicates() {
                    assert(next.no_duplicates()) by {
                        assert forall|a: int, b: int| 0 <= a < b < next.len() implies next[a] != next[b] by {
                            if b == path.len() {
                                assert(path.contains(path[a]));
                            }
                        }
                    }
                }
            }
            assert(paths_along(g, nb_lines, path, lines, depth, ns, k) == before + after);
        } else {
            assert(paths_along(g, nb_lines, path, lines, depth, ns, k) =~= before);
        }
    }
}

/// An element is in two sequences put together when it is in either.
proof fn lemma_concat_contains<A>(a: Seq<A>, b: Seq<A>, x: A)
    ensures
        (a + b).contains(x) <==> a.contains(x) || b.contains(x),
{
    if a.contains(x) {
        let i = choose|i: int| 0 <= i < a.len() && a[i] == x;
        assert((a + b)[i] == x);
    }
    if b.contains(x) {
        let i = choose|i: int| 0 <= i < b.len() && b[i] == x;
        assert((a + b)[a.len() + i] == x);
    }
    if (a + b).contains(x) {
        let i = choose|i: int| 0 <= i < (a + b).len() && (a + b)[i] == x;
        if i < a.len() {
            assert(a[i] == x);
        } else {
            assert(b[i - a.len()] == x);
        }
    }
}

/// The lines taken once the first `i` edges of `steps` are ridden, having
/// taken `lines` before.
pub open spec fn lines_after(lines: u32, steps: Seq<(usize, usize, LineId)>, i: int) -> u32
    decreases i,
{
    if i <= 0 {
        lines
    } else {
        lines_after(lines, steps, i - 1) | line_bit(steps[i - 1].2@)
    }
}

/// The streak once the first `i` edges of `steps` are ridden, from `streak`.
pub open spec fn streak_after(streak: Streak<LineId>, steps: Seq<(usize, usize, LineId)>, i: int) -> Streak<LineId> {
    recorded_all(streak, steps.take(i).map_values(|e: (usize, usize, LineId)| e.2))
}

/// The stations passed riding the edges `steps` on from `route`.
pub open spec fn walk_stations(route: Seq<usize>, steps: Seq<(usize, usize, LineId)>) -> Seq<usize> {
    route + steps.map_values(|e: (usize, usize, LineId)| e.1)
}

/// Whether riding the edges `steps` on from `route`, having taken `lines`
/// with the streak `streak`, is a ride the depth-first search makes to the
/// end: before each edge, some line is still to be taken, no line has been
/// ridden more than `MAX_LINE_STREAK` times in a row and the route is
/// shorter than `MAX_ROUTE_LENGTH`; each edge leaves the station the route
/// stands at, and neither stays there nor goes straight back to the
/// station before; and once the edges are ridden every line is taken.
pub open spec fn search_walk(
    g: Graph<StationQid, LineId>,
    nb_lines: nat,
    route: Seq<usize>,
    lines: u32,
    streak: Streak<LineId>,
    steps: Seq<(usize, usize, LineId)>,
) -> bool {
    &&& forall|i: int| 0 <= i < steps.len() ==> #[trigger] walk_step(g, nb_lines, route, lines, streak, steps, i)
    &&& popcount(lines_after(lines, steps, steps.len() as int)) == nb_lines
}

/// Step `i` of riding `steps` on from `route`, as `search_walk` asks of it:
/// before it some line is still to be taken, no line has been ridden more
/// than `MAX_LINE_STREAK` times in a row and the route is shorter than
/// `MAX_ROUTE_LENGTH`; its edge leaves the station the route stands at, and
/// neither stays there nor goes straight back to the station before.
#[verifier::opaque]
pub open spec fn walk_step(
    g: Graph<StationQid, LineId>,
    nb_lines: nat,
    route: Seq<usize>,
    lines: u32,
    streak: Streak<LineId>,
    steps: Seq<(usize, usize, LineId)>,
    i: int,
) -> bool {
    let w = walk_stations(route, steps);
    &&& popcount(lines_after(lines, steps, i)) != nb_lines
    &&& streak_after(streak, steps, i).current <= MAX_LINE_STREAK
    &&& route.len() + i < MAX_ROUTE_LENGTH
    &&& station_edges_directed(g, w[route.len() + i - 1], true).contains(steps[i])
    &&& !skipped_step(w.take(route.len() + i), steps[i].1)
}

/// Step `i + 1` of a ride is step `i` of its rest, ridden from the first
/// edge's target; step 0 is the first edge as `first_step_taken` asks.
proof fn lemma_walk_step_shift(
    g: Graph<StationQid, LineId>,
    nb_lines: nat,
    route: Seq<usize>,
    lines: u32,
    streak: Streak<LineId>,
    steps: Seq<(usize, usize, LineId)>,
    i: int,
)
    requires
        1 <= route.len(),
        0 <= i < steps.len(),
    ensures
        i + 1 < steps.len() ==> (walk_step(g, nb_lines, route, lines, streak, steps, i + 1) <==> walk_step(
            g,
            nb_lines,
            route.push(steps[0].1),
            lines | line_bit(steps[0].2@),
            streak.recorded(steps[0].2),
            steps.skip(1),
            i,
        )),
        i == 0 ==> (walk_step(g, nb_lines, route, lines, streak, steps, 0) <==> first_step_taken(
            g,
            nb_lines,
            route,
            lines,
            streak,
            steps[0],
        )),
{
    reveal(walk_step);
    let e = steps[0];
    let next = route.push(e.1);
    let rest = steps.skip(1);
    let w = walk_stations(route, steps);
    assert(w =~= walk_stations(next, rest));
    if i + 1 < steps.len() {
        lemma_walk_shift(lines, streak, steps, i);
        assert(rest[i] == steps[i + 1]);
    }
    if i == 0 {
        assert(w[route.len() - 1] == route.last());
        assert(w.take(route.len() as int) =~= route);
        assert(lines_after(lines, steps, 0) == lines);
        assert(streak_after(streak, steps, 0) == streak) by {
            assert(steps.take(0).map_values(|e: (usize, usize, LineId)| e.2) =~= Seq::<LineId>::empty());
        }
    }
}

/// Recording a kind and then others is recording them all.
proof fn lemma_recorded_all_front<T: Copy + PartialEq>(s: Streak<T>, k: T, ks: Seq<T>)
    ensures
        recorded_all(s, seq![k] + ks) == recorded_all(s.recorded(k), ks),
    decreases ks.len(),
{
    let x = seq![k] + ks;
    if ks.len() == 0 {
        assert(x.drop_last() =~= Seq::<T>::empty());
        assert(x.last() == k);
        assert(recorded_all(s, x.drop_last()) == s);
        assert(recorded_all(s.recorded(k), ks) == s.recorded(k));
    } else {
        lemma_recorded_all_front(s, k, ks.drop_last());
        assert(x.drop_last() =~= seq![k] + ks.drop_last());
        assert(x.last() == ks.last());
    }
}

/// Riding `steps` is riding its first edge, then the others.
proof fn lemma_walk_shift(lines: u32, streak: Streak<LineId>, steps: Seq<(usize, usize, LineId)>, i: int)
    requires
        0 <= i < steps.len(),
    ensures
        lines_after(lines, steps, i + 1) == lines_after(lines | line_bit(steps[0].2@), steps.skip(1), i),
        streak_after(streak, steps, i + 1) == streak_after(streak.recorded(steps[0].2), steps.skip(1), i),
    decreases i,
{
    if i > 0 {
        lemma_walk_shift(lines, streak, steps, i - 1);
        assert(steps.skip(1)[i - 1] == steps[i]);
    } else {
        assert(lines_after(lines, steps, 0) == lines);
        assert(lines_after(lines | line_bit(steps[0].2@), steps.skip(1), 0) == lines | line_bit(steps[0].2@));
    }
    let f = |e: (usize, usize, LineId)| e.2;
    assert(steps.take(i + 1).map_values(f) =~= seq![steps[0].2] + steps.skip(1).take(i).map_values(f));
    lemma_recorded_all_front(streak, steps[0].2, steps.skip(1).take(i).map_values(f));
}

/// A route is found along the first `k` edges of `outs` exactly when it is
/// found from the target of one of them that the search does not skip.
proof fn lemma_routes_along_walks(
    g: Graph<StationQid, LineId>,
    nb_lines: nat,
    route: Seq<usize>,
    lines: u32,
    streak: Streak<LineId>,
    outs: Seq<(usize, usize, LineId)>,
    k: int,
    w: Seq<usize>,
)
    requires
        0 <= k <= outs.len(),
    ensures
        routes_along(g, nb_lines, route, lines, streak, outs, k).contains(w) <==> route.len() < MAX_ROUTE_LENGTH
            && exists|j: int|
            0 <= j < k && !skipped_step(route, outs[j].1) && #[trigger] dfs_routes(
                g,
                nb_lines,
                route.push(outs[j].1),
                lines | line_bit(outs[j].2@),
                streak.recorded(outs[j].2),
                outs[j].1,
            ).contains(w),
    decreases k,
{
    if k > 0 && route.len() < MAX_ROUTE_LENGTH {
        lemma_routes_along_walks(g, nb_lines, route, lines, streak, outs, k - 1, w);
        let e = outs[k - 1];
        let before = routes_along(g, nb_lines, route, lines, streak, outs, k - 1);
        let more = if skipped_step(route, e.1) {
            Seq::<Seq<usize>>::empty()
        } else {
            dfs_routes(g, nb_lines, route.push(e.1), lines | line_bit(e.2@), streak.recorded(e.2), e.1)
        };
        assert(routes_along(g, nb_lines, route, lines, streak, outs, k) == before + more);
        lemma_concat_contains(before, more, w);
        if exists|j: int|
            0 <= j < k && !skipped_step(route, outs[j].1) && #[trigger] dfs_routes(
                g,
                nb_lines,
                route.push(outs[j].1),
                lines | line_bit(outs[j].2@),
                streak.recorded(outs[j].2),
                outs[j].1,
            ).contains(w) {
            let j = choose|j: int|
                0 <= j < k && !skipped_step(route, outs[j].1) && #[trigger] dfs_routes(
                    g,
                    nb_lines,
                    route.push(outs[j].1),
                    lines | line_bit(outs[j].2@),
                    streak.recorded(outs[j].2),
                    outs[j].1,
                ).contains(w);
            if j < k - 1 {
                assert(before.contains(w));
            } else {
                assert(more.contains(w));
            }
        }
        if more.contains(w) {
            assert(!skipped_step(route, outs[k - 1].1));
            assert(dfs_routes(
                g,
                nb_lines,
                route.push(outs[k - 1].1),
                lines | line_bit(outs[k - 1].2@),
                streak.recorded(outs[k - 1].2),
                outs[k - 1].1,
            ).contains(w));
        }
    }
}

/// The first step of a ride, as `search_walk` asks of it.
pub open spec fn first_step_taken(
    g: Graph<StationQid, LineId>,
    nb_lines: nat,
    route: Seq<usize>,
    lines: u32,
    streak: Streak<LineId>,
    e: (usize, usize, LineId),
) -> bool {
    &&& popcount(lines) != nb_lines
    &&& streak.current <= MAX_LINE_STREAK
    &&& route.len() < MAX_ROUTE_LENGTH
    &&& station_edges_directed(g, route.last(), true).contains(e)
    &&& !skipped_step(route, e.1)
}

/// A ride the search makes takes its first edge and makes the rest of the
/// ride from that edge's target.
proof fn lemma_walk_first_step(
    g: Graph<StationQid, LineId>,
    nb_lines: nat,
    route: Seq<usize>,
    lines: u32,
    streak: Streak<LineId>,
    steps: Seq<(usize, usize, LineId)>,
)
    requires
        1 <= route.len(),
        1 <= steps.len(),
        search_walk(g, nb_lines, route, lines, streak, steps),
    ensures
        first_step_taken(g, nb_lines, route, lines, streak, steps[0]),
        search_walk(
            g,
            nb_lines,
            route.push(steps[0].1),
            lines | line_bit(steps[0].2@),
            streak.recorded(steps[0].2),
            steps.skip(1),
        ),
        walk_stations(route, steps) == walk_stations(route.push(steps[0].1), steps.skip(1)),
{
    let rest = steps.skip(1);
    lemma_walk_step_shift(g, nb_lines, route, lines, streak, steps, 0);
    assert(walk_step(g, nb_lines, route, lines, streak, steps, 0));
    assert forall|i: int| 0 <= i < rest.len() implies #[trigger] walk_step(
        g,
        nb_lines,
        route.push(steps[0].1),
        lines | line_bit(steps[0].2@),
        streak.recorded(steps[0].2),
        rest,
        i,
    ) by {
        lemma_walk_step_shift(g, nb_lines, route, lines, streak, steps, i);
        assert(walk_step(g, nb_lines, route, lines, streak, steps, i + 1));
    }
    lemma_walk_shift(lines, streak, steps, rest.len() as int);
    assert(walk_stations(route, steps) =~= walk_stations(route.push(steps[0].1), rest));
}

/// Taking an edge and making a ride from its target is a ride the search
/// makes.
proof fn lemma_walk_prepend(
    g: Graph<StationQid, LineId>,
    nb_lines: nat,
    route: Seq<usize>,
    lines: u32,
    streak: Streak<LineId>,
    e: (usize, usize, LineId),
    rest: Seq<(usize, usize, LineId)>,
)
    requires
        1 <= route.len(),
        first_step_taken(g, nb_lines, route, lines, streak, e),
        search_walk(g, nb_lines, route.push(e.1), lines | line_bit(e.2@), streak.recorded(e.2), rest),
    ensures
        search_walk(g, nb_lines, route, lines, streak, seq![e] + rest),
        walk_stations(route, seq![e] + rest) == walk_stations(route.push(e.1), rest),
{
    let steps = seq![e] + rest;
    assert(steps.skip(1) =~= rest);
    assert(steps[0] == e);
    assert forall|i: int| 0 <= i < steps.len() implies #[trigger] walk_step(g, nb_lines, route, lines, streak, steps, i) by {
        if i == 0 {
            lemma_walk_step_shift(g, nb_lines, route, lines, streak, steps, 0);
        } else {
            lemma_walk_step_shift(g, nb_lines, route, lines, streak, steps, i - 1);
            assert(walk_step(g, nb_lines, route.push(e.1), lines | line_bit(e.2@), streak.recorded(e.2), rest, i - 1));
        }
    }
    lemma_walk_shift(lines, streak, steps, rest.len() as int);
    assert(walk_stations(route, steps) =~= walk_stations(route.push(e.1), rest));
}

/// Every route the depth-first search finds is that of a ride
/// `search_walk` names.
proof fn lemma_found_is_walk(
    g: Graph<StationQid, LineId>,
    nb_lines: nat,
    route: Seq<usize>,
    lines: u32,
    streak: Streak<LineId>,
    w: Seq<usize>,
)
    requires
        1 <= route.len() <= MAX_ROUTE_LENGTH,
        dfs_routes(g, nb_lines, route, lines, streak, route.last()).contains(w),
    ensures
        exists|steps: Seq<(usize, usize, LineId)>|
            #[trigger] search_walk(g, nb_lines, route, lines, streak, steps) && w == walk_stations(route, steps),
    decreases MAX_ROUTE_LENGTH - route.len(),
{
    let idx = route.last();
    let found = dfs_routes(g, nb_lines, route, lines, streak, idx);
    let empty = Seq::<(usize, usize, LineId)>::empty();
    if popcount(lines) == nb_lines {
        assert(found =~= seq![route]);
        assert(w == route);
        assert(walk_stations(route, empty) =~= route);
        assert(lines_after(lines, empty, 0) == lines);
        assert(search_walk(g, nb_lines, route, lines, streak, empty));
    } else if streak.current > MAX_LINE_STREAK || route.len() >= MAX_ROUTE_LENGTH {
        assert(found.len() == 0);
    } else {
        let outs = station_edges_directed(g, idx, true);
        lemma_routes_along_walks(g, nb_lines, route, lines, streak, outs, outs.len() as int, w);
        assert(found == routes_along(g, nb_lines, route, lines, streak, outs, outs.len() as int));
        let j = choose|j: int|
            0 <= j < outs.len() && !skipped_step(route, outs[j].1) && #[trigger] dfs_routes(
                g,
                nb_lines,
                route.push(outs[j].1),
                lines | line_bit(outs[j].2@),
                streak.recorded(outs[j].2),
                outs[j].1,
            ).contains(w);
        let e = outs[j];
        let next = route.push(e.1);
        let l2 = lines | line_bit(e.2@);
        let s2 = streak.recorded(e.2);
        assert(next.last() == e.1);
        lemma_found_is_walk(g, nb_lines, next, l2, s2, w);
        let rest = choose|steps: Seq<(usize, usize, LineId)>|
            #[trigger] search_walk(g, nb_lines, next, l2, s2, steps) && w == walk_stations(next, steps);
        assert(outs[j] == e);
        assert(outs.contains(e));
        lemma_walk_prepend(g, nb_lines, route, lines, streak, e, rest);
    }
}

/// The route of every ride `search_walk` names is one the depth-first
/// search finds.
proof fn lemma_walk_is_found(
    g: Graph<StationQid, LineId>,
    nb_lines: nat,
    route: Seq<usize>,
    lines: u32,
    streak: Streak<LineId>,
    steps: Seq<(usize, usize, LineId)>,
)
    requires
        1 <= route.len() <= MAX_ROUTE_LENGTH,
        search_walk(g, nb_lines, route, lines, streak, steps),
    ensures
        dfs_routes(g, nb_lines, route, lines, streak, route.last()).contains(walk_stations(route, steps)),
    decreases steps.len(),
{
    let idx = route.last();
    let w = walk_stations(route, steps);
    let found = dfs_routes(g, nb_lines, route, lines, streak, idx);
    if steps.len() == 0 {
        assert(lines_after(lines, steps, 0) == lines);
        assert(w =~= route);
        assert(found =~= seq![route]);
        assert(found[0] == w);
    } else {
        lemma_walk_first_step(g, nb_lines, route, lines, streak, steps);
        let e = steps[0];
        let next = route.push(e.1);
        let l2 = lines | line_bit(e.2@);
        let s2 = streak.recorded(e.2);
        let rest = steps.skip(1);
        let outs = station_edges_directed(g, idx, true);
        let j = choose|j: int| 0 <= j < outs.len() && outs[j] == e;
        lemma_walk_is_found(g, nb_lines, next, l2, s2, rest);
        assert(next.last() == e.1);
        assert(walk_stations(route, steps) =~= walk_stations(next, rest));
        assert(dfs_routes(g, nb_lines, next, l2, s2, outs[j].1).contains(w));
        lemma_routes_along_walks(g, nb_lines, route, lines, streak, outs, outs.len() as int, w);
        assert(found == routes_along(g, nb_lines, route, lines, streak, outs, outs.len() as int));
    }
}

/// The routes the depth-first search finds from `route`, standing at its
/// last station, are exactly the routes of the rides `search_walk` names:
/// a route is found when, and only when, some sequence of edges ridden on
/// from `route` leads along it, each leaving the station the route stands
/// at, never staying there nor going straight back, within the limits of
/// streak and length, until every line is taken.
pub proof fn lemma_dfs_routes_are_walks(
    g: Graph<StationQid, LineId>,
    nb_lines: nat,
    route: Seq<usize>,
    lines: u32,
    streak: Streak<LineId>,
    w: Seq<usize>,
)
    requires
        1 <= route.len() <= MAX_ROUTE_LENGTH,
    ensures
        dfs_routes(g, nb_lines, route, lines, streak, route.last()).contains(w) <==> exists|
            steps: Seq<(usize, usize, LineId)>,
        | #[trigger] search_walk(g, nb_lines, route, lines, streak, steps) && w == walk_stations(route, steps),
{
    if dfs_routes(g, nb_lines, route, lines, streak, route.last()).contains(w) {
        lemma_found_is_walk(g, nb_lines, route, lines, streak, w);
    }
    if exists|steps: Seq<(usize, usize, LineId)>|
        #[trigger] search_walk(g, nb_lines, route, lines, streak, steps) && w == walk_stations(route, steps) {
        let steps = choose|steps: Seq<(usize, usize, LineId)>|
            #[trigger] search_walk(g, nb_lines, route, lines, streak, steps) && w == walk_stations(route, steps);
        lemma_walk_is_found(g, nb_lines, route, lines, streak, steps);
    }
}

/// The lines taken once the first `i` nodes of `ms` are passed, having
/// taken `lines` before: the line of each node joins them.
pub open spec fn path_lines(g: Graph<LineId, StationQid>, lines: u32, ms: Seq<usize>, i: int) -> u32
    decreases i,
{
    if i <= 0 {
        lines
    } else {
        path_lines(g, lines, ms, i - 1) | line_bit(line_nodes(g)[ms[i - 1] as int]@)
    }
}

/// Step `i` of going on from `path`, standing at `current`, through the
/// nodes `ms`, as the search of the line graph takes it: the node is a
/// neighbor of the one before (of `current` for the first), and is not yet
/// on the path.
#[verifier::opaque]
pub open spec fn path_step(g: Graph<LineId, StationQid>, current: usize, path: Seq<usize>, ms: Seq<usize>, i: int) -> bool {
    let prev = if i == 0 {
        current
    } else {
        ms[i - 1]
    };
    &&& line_neighbors(g, prev).contains(ms[i])
    &&& !(path + ms.take(i)).contains(ms[i])
}

/// Whether going on from `path`, standing at `current`, through the nodes
/// `ms` is a path the search of the line graph finds with `depth` more
/// nodes: exactly `depth` steps, each to a neighbor not yet on the path,
/// after which every line is taken.
pub open spec fn search_path(
    g: Graph<LineId, StationQid>,
    nb_lines: nat,
    current: usize,
    path: Seq<usize>,
    lines: u32,
    depth: nat,
    ms: Seq<usize>,
) -> bool {
    &&& ms.len() == depth
    &&& forall|i: int| 0 <= i < ms.len() ==> #[trigger] path_step(g, current, path, ms, i)
    &&& popcount(path_lines(g, lines, ms, ms.len() as int)) == nb_lines
}

/// Going through `ms` is going to its first node, then through the rest.
proof fn lemma_path_step_shift(
    g: Graph<LineId, StationQid>,
    current: usize,
    path: Seq<usize>,
    lines: u32,
    ms: Seq<usize>,
    i: int,
)
    requires
        0 <= i < ms.len(),
    ensures
        i + 1 < ms.len() ==> (path_step(g, current, path, ms, i + 1) <==> path_step(
            g,
            ms[0],
            path.push(ms[0]),
            ms.skip(1),
            i,
        )),
        i == 0 ==> (path_step(g, current, path, ms, 0) <==> line_neighbors(g, current).contains(ms[0])
            && !path.contains(ms[0])),
        path_lines(g, lines, ms, i + 1) == path_lines(
            g,
            lines | line_bit(line_nodes(g)[ms[0] as int]@),
            ms.skip(1),
            i,
        ),
    decreases i,
{
    reveal(path_step);
    let rest = ms.skip(1);
    if i + 1 < ms.len() {
        assert(path + ms.take(i + 1) =~= path.push(ms[0]) + rest.take(i));
        assert(rest[i] == ms[i + 1]);
        if i > 0 {
            assert(rest[i - 1] == ms[i]);
        }
    }
    if i == 0 {
        assert(path + ms.take(0) =~= path);
        assert(path_lines(g, lines, ms, 0) == lines);
        assert(path_lines(g, lines | line_bit(line_nodes(g)[ms[0] as int]@), rest, 0) == lines | line_bit(
            line_nodes(g)[ms[0] as int]@,
        ));
    } else {
        lemma_path_step_shift(g, current, path, lines, ms, i - 1);
        assert(rest[i - 1] == ms[i]);
    }
}

/// A path is found through the first `k` neighbors of `ns` exactly when it
/// is found through one of them not yet on the path.
proof fn lemma_paths_along_paths(
    g: Graph<LineId, StationQid>,
    nb_lines: nat,
    path: Seq<usize>,
    lines: u32,
    depth: nat,
    ns: Seq<usize>,
    k: int,
    f: (Seq<usize>, u32),
)
    requires
        0 <= k <= ns.len(),
    ensures
        paths_along(g, nb_lines, path, lines, depth, ns, k).contains(f) <==> depth > 0 && exists|j: int|
            0 <= j < k && !path.contains(ns[j]) && #[trigger] bfs_paths(
                g,
                nb_lines,
                ns[j],
                path.push(ns[j]),
                lines | line_bit(line_nodes(g)[ns[j] as int]@),
                (depth - 1) as nat,
            ).contains(f),
    decreases k,
{
    if k > 0 && depth > 0 {
        lemma_paths_along_paths(g, nb_lines, path, lines, depth, ns, k - 1, f);
        let m = ns[k - 1];
        let before = paths_along(g, nb_lines, path, lines, depth, ns, k - 1);
        let more = if path.contains(m) {
            Seq::<(Seq<usize>, u32)>::empty()
        } else {
            bfs_paths(g, nb_lines, m, path.push(m), lines | line_bit(line_nodes(g)[m as int]@), (depth - 1) as nat)
        };
        assert(paths_along(g, nb_lines, path, lines, depth, ns, k) == before + more);
        lemma_concat_contains(before, more, f);
        if exists|j: int|
            0 <= j < k && !path.contains(ns[j]) && #[trigger] bfs_paths(
                g,
                nb_lines,
                ns[j],
                path.push(ns[j]),
                lines | line_bit(line_nodes(g)[ns[j] as int]@),
                (depth - 1) as nat,
            ).contains(f) {
            let j = choose|j: int|
                0 <= j < k && !path.contains(ns[j]) && #[trigger] bfs_paths(
                    g,
                    nb_lines,
                    ns[j],
                    path.push(ns[j]),
                    lines | line_bit(line_nodes(g)[ns[j] as int]@),
                    (depth - 1) as nat,
                ).contains(f);
            if j < k - 1 {
                assert(before.contains(f));
            } else {
                assert(more.contains(f));
            }
        }
        if more.contains(f) {
            assert(!path.contains(ns[k - 1]));
            assert(bfs_paths(
                g,
                nb_lines,
                ns[k - 1],
                path.push(ns[k - 1]),
                lines | line_bit(line_nodes(g)[ns[k - 1] as int]@),
                (depth - 1) as nat,
            ).contains(f));
        }
    }
}

/// Every path the search of the line graph finds is that of nodes
/// `search_path` names.
proof fn lemma_found_is_path(
    g: Graph<LineId, StationQid>,
    nb_lines: nat,
    current: usize,
    path: Seq<usize>,
    lines: u32,
    depth: nat,
    f: (Seq<usize>, u32),
)
    requires
        bfs_paths(g, nb_lines, current, path, lines, depth).contains(f),
    ensures
        exists|ms: Seq<usize>|
            #[trigger] search_path(g, nb_lines, current, path, lines, depth, ms) && f == (path + ms, path_lines(
                g,
                lines,
                ms,
                ms.len() as int,
            )),
    decreases depth,
{
    let found = bfs_paths(g, nb_lines, current, path, lines, depth);
    let none = Seq::<usize>::empty();
    if depth == 0 {
        if popcount(lines) == nb_lines {
            assert(found =~= seq![(path, lines)]);
        } else {
            assert(found.len() == 0);
        }
        assert(f == (path, lines));
        assert(path + none =~= path);
        assert(path_lines(g, lines, none, 0) == lines);
        assert(search_path(g, nb_lines, current, path, lines, depth, none));
    } else {
        let ns = line_neighbors(g, current);
        lemma_paths_along_paths(g, nb_lines, path, lines, depth, ns, ns.len() as int, f);
        assert(found == paths_along(g, nb_lines, path, lines, depth, ns, ns.len() as int));
        let j = choose|j: int|
            0 <= j < ns.len() && !path.contains(ns[j]) && #[trigger] bfs_paths(
                g,
                nb_lines,
                ns[j],
                path.push(ns[j]),
                lines | line_bit(line_nodes(g)[ns[j] as int]@),
                (depth - 1) as nat,
            ).contains(f);
        let m = ns[j];
        let next = path.push(m);
        let l2 = lines | line_bit(line_nodes(g)[m as int]@);
        lemma_found_is_path(g, nb_lines, m, next, l2, (depth - 1) as nat, f);
        let rest = choose|ms: Seq<usize>|
            #[trigger] search_path(g, nb_lines, m, next, l2, (depth - 1) as nat, ms) && f == (next + ms, path_lines(
                g,
                l2,
                ms,
                ms.len() as int,
            ));
        let ms = seq![m] + rest;
        assert(ms.skip(1) =~= rest);
        assert(ms[0] == m);
        assert(ns.contains(m));
        assert forall|i: int| 0 <= i < ms.len() implies #[trigger] path_step(g, current, path, ms, i) by {
            if i == 0 {
                lemma_path_step_shift(g, current, path, lines, ms, 0);
            } else {
                lemma_path_step_shift(g, current, path, lines, ms, i - 1);
                assert(path_step(g, m, next, rest, i - 1));
            }
        }
        lemma_path_step_shift(g, current, path, lines, ms, rest.len() as int);
        assert(path + ms =~= next + rest);
        assert(search_path(g, nb_lines, current, path, lines, depth, ms));
    }
}

/// The path of every sequence of nodes `search_path` names is one the
/// search of the line graph finds.
proof fn lemma_path_is_found(
    g: Graph<LineId, StationQid>,
    nb_lines: nat,
    current: usize,
    path: Seq<usize>,
    lines: u32,
    depth: nat,
    ms: Seq<usize>,
)
    requires
        search_path(g, nb_lines, current, path, lines, depth, ms),
    ensures
        bfs_paths(g, nb_lines, current, path, lines, depth).contains(
            (path + ms, path_lines(g, lines, ms, ms.len() as int)),
        ),
    decreases depth,
{
    let found = bfs_paths(g, nb_lines, current, path, lines, depth);
    let f = (path + ms, path_lines(g, lines, ms, ms.len() as int));
    if depth == 0 {
        assert(path + ms =~= path);
        assert(path_lines(g, lines, ms, 0) == lines);
        assert(found =~= seq![(path, lines)]);
        assert(found[0] == f);
    } else {
        let m = ms[0];
        let next = path.push(m);
        let l2 = lines | line_bit(line_nodes(g)[m as int]@);
        let rest = ms.skip(1);
        lemma_path_step_shift(g, current, path, lines, ms, 0);
        assert(path_step(g, current, path, ms, 0));
        assert forall|i: int| 0 <= i < rest.len() implies #[trigger] path_step(g, m, next, rest, i) by {
            lemma_path_step_shift(g, current, path, lines, ms, i);
            assert(path_step(g, current, path, ms, i + 1));
        }
        lemma_path_step_shift(g, current, path, lines, ms, rest.len() as int);
        assert(search_path(g, nb_lines, m, next, l2, (depth - 1) as nat, rest));
        lemma_path_is_found(g, nb_lines, m, next, l2, (depth - 1) as nat, rest);
        assert(path + ms =~= next + rest);
        let ns = line_neighbors(g, current);
        let j = choose|j: int| 0 <= j < ns.len() && ns[j] == m;
        assert(bfs_paths(g, nb_lines, ns[j], path.push(ns[j]), l2, (depth - 1) as nat).contains(f));
        lemma_paths_along_paths(g, nb_lines, path, lines, depth, ns, ns.len() as int, f);
        assert(found == paths_along(g, nb_lines, path, lines, depth, ns, ns.len() as int));
    }
}

/// The paths the search of the line graph finds from `path`, standing at
/// `current`, with `depth` more nodes, are exactly those `search_path`
/// names: a path and its lines are found when, and only when, they are
/// those of `depth` steps from `current`, each to a neighbor of the node
/// before that is not yet on the path, after which every line is taken.
pub proof fn lemma_bfs_paths_are_paths(
    g: Graph<LineId, StationQid>,
    nb_lines: nat,
    current: usize,
    path: Seq<usize>,
    lines: u32,
    depth: nat,
    f: (Seq<usize>, u32),
)
    ensures
        bfs_paths(g, nb_lines, current, path, lines, depth).contains(f) <==> exists|ms: Seq<usize>|
            #[trigger] search_path(g, nb_lines, current, path, lines, depth, ms) && f == (path + ms, path_lines(
                g,
                lines,
                ms,
                ms.len() as int,
            )),
{
    if bfs_paths(g, nb_lines, current, path, lines, depth).contains(f) {
        lemma_found_is_path(g, nb_lines, current, path, lines, depth, f);
    }
    if exists|ms: Seq<usize>|
        #[trigger] search_path(g, nb_lines, current, path, lines, depth, ms) && f == (path + ms, path_lines(
            g,
            lines,
            ms,
            ms.len() as int,
        )) {
        let ms = choose|ms: Seq<usize>|
            #[trigger] search_path(g, nb_lines, current, path, lines, depth, ms) && f == (path + ms, path_lines(
                g,
                lines,
                ms,
                ms.len() as int,
            ));
        lemma_path_is_found(g, nb_lines, current, path, lines, depth, ms);
    }
}

/// The lines of the nodes of a path of the line graph, as a set of lines:
/// the line of each of its nodes, its first included.
pub open spec fn path_line_bits(g: Graph<LineId, StationQid>, p: Seq<usize>) -> u32
    decreases p.len(),
{
    if p.len() == 0 {
        0
    } else {
        path_line_bits(g, p.drop_last()) | line_bit(line_nodes(g)[p.last() as int]@)
    }
}

/// Whether `p` is a path of the line graph from `start` that passes no
/// node twice: each node after the first a neighbor of the one before.
pub open spec fn simple_path_from(g: Graph<LineId, StationQid>, start: usize, p: Seq<usize>) -> bool {
    &&& p.len() >= 1
    &&& p[0] == start
    &&& p.no_duplicates()
    &&& forall|i: int| 1 <= i < p.len() ==> line_neighbors(g, #[trigger] p[i - 1]).contains(p[i])
}

/// The lines gathered going through `ms` from a start whose line is
/// counted are the lines of the whole path.
proof fn lemma_path_lines_whole(g: Graph<LineId, StationQid>, start: usize, ms: Seq<usize>, i: int)
    requires
        0 <= i <= ms.len(),
    ensures
        path_lines(g, line_bit(line_nodes(g)[start as int]@), ms, i) == path_line_bits(g, seq![start] + ms.take(i)),
    decreases i,
{
    let p = seq![start] + ms.take(i);
    if i == 0 {
        let b = line_bit(line_nodes(g)[start as int]@);
        assert(p.drop_last() =~= Seq::<usize>::empty());
        assert(path_line_bits(g, p.drop_last()) == 0);
        assert(p.last() == start);
        assert(0u32 | b == b) by (bit_vector);
        assert(path_lines(g, b, ms, 0) == b);
    } else {
        lemma_path_lines_whole(g, start, ms, i - 1);
        assert(p.drop_last() =~= seq![start] + ms.take(i - 1));
        assert(p.last() == ms[i - 1]);
    }
}

/// Going through `ms` from `start` is a search step by step exactly when
/// `start` followed by `ms` is a simple path.
proof fn lemma_search_steps_simple(g: Graph<LineId, StationQid>, start: usize, ms: Seq<usize>)
    ensures
        (forall|i: int| 0 <= i < ms.len() ==> #[trigger] path_step(g, start, seq![start], ms, i))
            <==> simple_path_from(g, start, seq![start] + ms),
{
    reveal(path_step);
    let p = seq![start] + ms;
    assert forall|i: int| 0 <= i < ms.len() implies seq![start] + ms.take(i) =~= p.take(i + 1) && p[i + 1]
        == ms[i] && (if i == 0 {
        start
    } else {
        ms[i - 1]
    }) == p[i] by {}
    if forall|i: int| 0 <= i < ms.len() ==> #[trigger] path_step(g, start, seq![start], ms, i) {
        assert forall|a: int, b: int| 0 <= a < b < p.len() implies p[a] != p[b] by {
            assert(path_step(g, start, seq![start], ms, b - 1));
            assert(p.take(b)[a] == p[a]);
        }
        assert forall|i: int| 1 <= i < p.len() implies line_neighbors(g, #[trigger] p[i - 1]).contains(p[i]) by {
            assert(path_step(g, start, seq![start], ms, i - 1));
        }
    }
    if simple_path_from(g, start, p) {
        assert forall|i: int| 0 <= i < ms.len() implies #[trigger] path_step(g, start, seq![start], ms, i) by {
            assert(line_neighbors(g, p[i]).contains(p[i + 1]));
            if p.take(i + 1).contains(p[i + 1]) {
                let a = choose|a: int| 0 <= a < p.take(i + 1).len() && #[trigger] p.take(i + 1)[a] == p[i + 1];
                assert(p[a] == p[i + 1]);
            }
        }
    }
}

/// What the iterative-deepening search of the line graph finds from
/// `start` at its `d`-th depth limit is exactly every path of
/// `MIN_DEPTH + d` nodes from `start` that passes no node twice and whose
/// nodes' lines, the start's line included, are every line; each found
/// path comes with that set of lines.
pub proof fn lemma_iddfs_paths_take_every_line(
    g: Graph<LineId, StationQid>,
    nb_lines: nat,
    start: usize,
    d: int,
    f: (Seq<usize>, u32),
)
    requires
        0 <= d <= MAX_DEPTH - MIN_DEPTH,
    ensures
        iddfs_paths(g, nb_lines, start)[d].contains(f) <==> {
            &&& simple_path_from(g, start, f.0)
            &&& f.0.len() == MIN_DEPTH + d
            &&& f.1 == path_line_bits(g, f.0)
            &&& popcount(f.1) == nb_lines
        },
{
    let b = line_bit(line_nodes(g)[start as int]@);
    let depth = (MIN_DEPTH + d - 1) as nat;
    assert(iddfs_paths(g, nb_lines, start)[d] == bfs_paths(g, nb_lines, start, seq![start], b, depth));
    lemma_bfs_paths_are_paths(g, nb_lines, start, seq![start], b, depth, f);
    if iddfs_paths(g, nb_lines, start)[d].contains(f) {
        let ms = choose|ms: Seq<usize>|
            #[trigger] search_path(g, nb_lines, start, seq![start], b, depth, ms) && f == (seq![start] + ms, path_lines(
                g,
                b,
                ms,
                ms.len() as int,
            ));
        lemma_search_steps_simple(g, start, ms);
        lemma_path_lines_whole(g, start, ms, ms.len() as int);
        assert(ms.take(ms.len() as int) =~= ms);
    }
    if simple_path_from(g, start, f.0) && f.0.len() == MIN_DEPTH + d && f.1 == path_line_bits(g, f.0) && popcount(
        f.1,
    ) == nb_lines {
        let ms = f.0.skip(1);
        assert(f.0 =~= seq![start] + ms);
        lemma_search_steps_simple(g, start, ms);
        lemma_path_lines_whole(g, start, ms, ms.len() as int);
        assert(ms.take(ms.len() as int) =~= ms);
        assert(search_path(g, nb_lines, start, seq![start], b, depth, ms));
    }
}

} // verus!
