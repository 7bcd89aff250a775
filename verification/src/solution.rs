//! Reading back the route of a solution: rows of `source,target,line`
//! entities become the set of arcs the route takes.
use vstd::prelude::*;
use std::collections::BTreeSet;

use crate::queries::{LineQid, Qid, StationQid};
use crate::scip::{route_csv, Leg};
use crate::text::{lemma_qid_text_roundtrip, qid_from_text, qid_text, same_text};

verus! {

broadcast use vstd::std_specs::btree::group_btree_axioms, vstd::laws_cmp::group_laws_cmp;

/// An arc of a route: from a station to a station along a line.
pub type Arc = (StationQid, StationQid, LineQid);

/// The entity numbers of an arc: how a set of arcs holds it.
pub open spec fn arc_key(a: Arc) -> (u32, u32, u32) {
    (a.0.0.0, a.1.0.0, a.2.0.0)
}

/// The fields of a row of a solution file.
pub type Row = (String, String, String);

/// The header a solution file must have: exactly the fields `source`,
/// `target`, `line`.
pub open spec fn solution_header() -> Seq<Seq<char>> {
    seq!["source"@, "target"@, "line"@]
}

/// Why a solution file makes no set of arcs.
#[derive(Debug, Clone, Copy, PartialEq, Eq, Structural)]
pub enum SolutionError {
    /// The header is not `source,target,line`.
    Header,
    /// A field of row `row` (counted from 0, after the header) names no
    /// entity.
    Entity { row: usize },
}

/// The arc a row names, if each of its fields names an entity.
pub open spec fn row_arc(row: (Seq<char>, Seq<char>, Seq<char>)) -> Option<(u32, u32, u32)> {
    match (qid_from_text(row.0), qid_from_text(row.1), qid_from_text(row.2)) {
        (Some(s), Some(t), Some(l)) => Some((s, t, l)),
        _ => None,
    }
}

/// The set of arcs the rows name, or the first row that names none.
pub open spec fn rows_arcs(rows: Seq<(Seq<char>, Seq<char>, Seq<char>)>) -> Result<Set<(u32, u32, u32)>, SolutionError>
    decreases rows.len(),
{
    if rows.len() == 0 {
        Ok(Set::empty())
    } else {
        match rows_arcs(rows.drop_last()) {
            Err(e) => Err(e),
            Ok(set) => match row_arc(rows.last()) {
                Some(a) => Ok(set.insert(a)),
                None => Err(SolutionError::Entity { row: (rows.len() - 1) as usize }),
            },
        }
    }
}

/// What a solution file with the given header and rows reads as.
pub open spec fn solution_arcs(header: Seq<Seq<char>>, rows: Seq<(Seq<char>, Seq<char>, Seq<char>)>) -> Result<
    Set<(u32, u32, u32)>,
    SolutionError,
> {
    if header != solution_header() {
        Err(SolutionError::Header)
    } else {
        rows_arcs(rows)
    }
}

/// The texts of the fields of each row.
pub open spec fn row_texts(rows: Seq<Row>) -> Seq<(Seq<char>, Seq<char>, Seq<char>)> {
    rows.map_values(|r: Row| (r.0@, r.1@, r.2@))
}

/// A row that names no entity spoils every longer list of rows.
proof fn lemma_rows_error_stays(
    rows: Seq<(Seq<char>, Seq<char>, Seq<char>)>,
    n: int,
    e: SolutionError,
)
    requires
        0 <= n <= rows.len(),
        rows_arcs(rows.take(n)) == Err::<Set<(u32, u32, u32)>, SolutionError>(e),
    ensures
        rows_arcs(rows) == Err::<Set<(u32, u32, u32)>, SolutionError>(e),
    decreases rows.len() - n,
{
    if n < rows.len() {
        assert(rows.take(n + 1).drop_last() =~= rows.take(n));
        lemma_rows_error_stays(rows, n + 1, e);
    } else {
        assert(rows.take(n) =~= rows);
    }
}

/// The texts of the fields of a header.
pub open spec fn header_texts(header: Seq<String>) -> Seq<Seq<char>> {
    header.map_values(|f: String| f@)
}

/// Reads the arcs of a solution file from the fields of its header and its
/// rows.
pub fn read_solution(header: &Vec<String>, rows: &Vec<Row>) -> (r: Result<BTreeSet<(u32, u32, u32)>, SolutionError>)
    ensures
        match r {
            Ok(set) => solution_arcs(header_texts(header@), row_texts(rows@)) == Ok::<
                Set<(u32, u32, u32)>,
                SolutionError,
            >(set@),
            Err(e) => solution_arcs(header_texts(header@), row_texts(rows@)) == Err::<
                Set<(u32, u32, u32)>,
                SolutionError,
            >(e),
        },
{
    let ok = header.len() == 3 && same_text(header[0].as_str(), "source") && same_text(header[1].as_str(), "target")
        && same_text(header[2].as_str(), "line");
    proof {
        if header@.len() == 3 {
            assert(ok == (header_texts(header@) =~= solution_header()));
        } else {
            assert(header_texts(header@).len() != solution_header().len());
        }
    }
    if !ok {
        return Err(SolutionError::Header);
    }
    let mut set: BTreeSet<(u32, u32, u32)> = BTreeSet::new();
    let mut k: usize = 0;
    while k < rows.len()
        invariant
            k <= rows@.len(),
            header_texts(header@) == solution_header(),
            rows_arcs(row_texts(rows@).take(k as int)) == Ok::<Set<(u32, u32, u32)>, SolutionError>(set@),
        decreases rows@.len() - k,
    {
        let ghost texts = row_texts(rows@);
        proof {
            assert(texts.take(k + 1).drop_last() =~= texts.take(k as int));
            assert(texts.take(k + 1).last() == texts[k as int]);
        }
        let (s, t, l) = (Qid::parse(rows[k].0.as_str()), Qid::parse(rows[k].1.as_str()), Qid::parse(rows[k].2.as_str()));
        match (s, t, l) {
            (Ok(s), Ok(t), Ok(l)) => {
                set.insert((s.0, t.0, l.0));
            },
            _ => {
                proof {
                    let texts = row_texts(rows@);
                    assert(row_arc(texts[k as int]) is None);
                    assert(rows_arcs(texts.take(k + 1)) == Err::<Set<(u32, u32, u32)>, SolutionError>(
                        SolutionError::Entity { row: k },
                    ));
                    lemma_rows_error_stays(texts, k + 1, SolutionError::Entity { row: k });
                    assert(solution_arcs(header_texts(header@), texts) == Err::<Set<(u32, u32, u32)>, SolutionError>(
                        SolutionError::Entity { row: k },
                    ));
                }
                return Err(SolutionError::Entity { row: k });
            },
        }
        k = k + 1;
    }
    proof {
        assert(row_texts(rows@).take(k as int) =~= row_texts(rows@));
    }
    Ok(set)
}

/// The fields of the row a leg of a route is written as.
pub open spec fn leg_row(l: Leg) -> (Seq<char>, Seq<char>, Seq<char>) {
    (qid_text(l.0.0.0), qid_text(l.1.0.0), qid_text(l.2.0.0))
}

/// The rows of a route read back as the set of its legs.
proof fn lemma_rows_read_back(legs: Seq<Leg>)
    ensures
        rows_arcs(legs.map_values(|l: Leg| leg_row(l))) == Ok::<Set<(u32, u32, u32)>, SolutionError>(
            legs.map_values(|l: Leg| arc_key(l)).to_set(),
        ),
    decreases legs.len(),
{
    let rows = legs.map_values(|l: Leg| leg_row(l));
    if legs.len() == 0 {
        assert(legs.map_values(|l: Leg| arc_key(l)).to_set() =~= Set::<(u32, u32, u32)>::empty());
    } else {
        let init = legs.drop_last();
        lemma_rows_read_back(init);
        assert(rows.drop_last() =~= init.map_values(|l: Leg| leg_row(l)));
        let l = legs.last();
        lemma_qid_text_roundtrip(l.0.0.0);
        lemma_qid_text_roundtrip(l.1.0.0);
        lemma_qid_text_roundtrip(l.2.0.0);
        assert(row_arc(rows.last()) == Some(arc_key(l)));
        let keys = legs.map_values(|l: Leg| arc_key(l));
        assert(keys =~= init.map_values(|l: Leg| arc_key(l)).push(arc_key(l)));
        init.map_values(|l: Leg| arc_key(l)).lemma_push_to_set_commute(arc_key(l));
    }
}

/// The rows of a route, as `route_csv` writes them, read back under the
/// header it writes, give the set of its legs.
pub proof fn lemma_route_reads_back(legs: Seq<Leg>)
    ensures
        solution_arcs(solution_header(), legs.map_values(|l: Leg| leg_row(l))) == Ok::<
            Set<(u32, u32, u32)>,
            SolutionError,
        >(legs.map_values(|l: Leg| arc_key(l)).to_set()),
{
    lemma_rows_read_back(legs);
}

} // verus!
