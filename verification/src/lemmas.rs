//! Facts about sequences and multisets that the graph proofs rest on.
use vstd::prelude::*;

verus! {

broadcast use vstd::seq_lib::group_to_multiset_ensures;

/// Two sequences with the same elements keep the same elements once mapped.
pub proof fn lemma_map_to_multiset<A, B>(a: Seq<A>, b: Seq<A>, f: spec_fn(A) -> B)
    requires
        a.to_multiset() == b.to_multiset(),
    ensures
        a.map_values(f).to_multiset() == b.map_values(f).to_multiset(),
    decreases a.len(),
{
    if a.len() == 0 {
        assert(b.to_multiset().len() == 0);
        assert(a.map_values(f) =~= Seq::<B>::empty());
        assert(b.map_values(f) =~= Seq::<B>::empty());
    } else {
        let x = a.last();
        let a2 = a.drop_last();
        assert(a =~= a2.push(x));
        assert(a.to_multiset() =~= a2.to_multiset().insert(x));
        assert(a.to_multiset().count(x) > 0);
        assert(b.contains(x));
        let i = choose|i: int| 0 <= i < b.len() && b[i] == x;
        let b2 = b.remove(i);
        assert(b2.to_multiset() =~= b.to_multiset().remove(x));
        assert(b2.to_multiset() =~= a2.to_multiset());
        lemma_map_to_multiset(a2, b2, f);
        assert(a.map_values(f) =~= a2.map_values(f).push(f(x)));
        assert(a.map_values(f).to_multiset() =~= a2.map_values(f).to_multiset().insert(f(x)));
        let bm = b.map_values(f);
        assert(bm.remove(i) =~= b2.map_values(f));
        assert(bm.remove(i).to_multiset() =~= bm.to_multiset().remove(bm[i]));
        assert(bm.to_multiset().count(f(x)) > 0) by {
            assert(bm.contains(bm[i]));
        }
        assert(bm.to_multiset() =~= bm.to_multiset().remove(f(x)).insert(f(x)));
    }
}

/// Filtering a sequence filters its multiset.
pub proof fn lemma_filter_to_multiset<A>(s: Seq<A>, p: spec_fn(A) -> bool)
    ensures
        s.filter(p).to_multiset() == s.to_multiset().filter(p),
    decreases s.len(),
{
    reveal(Seq::filter);
    if s.len() == 0 {
        assert(s.filter(p).to_multiset() =~= s.to_multiset().filter(p));
    } else {
        let x = s.last();
        let s2 = s.drop_last();
        lemma_filter_to_multiset(s2, p);
        assert(s =~= s2.push(x));
        assert(s.to_multiset() =~= s2.to_multiset().insert(x));
        assert(s.filter(p).to_multiset() =~= s.to_multiset().filter(p));
    }
}

/// Filtering then mapping is mapping then filtering, when the two tests agree.
pub proof fn lemma_filter_map_commute<A, B>(
    s: Seq<A>,
    p: spec_fn(A) -> bool,
    f: spec_fn(A) -> B,
    q: spec_fn(B) -> bool,
)
    requires
        forall|i: int| 0 <= i < s.len() ==> p(#[trigger] s[i]) == q(f(s[i])),
    ensures
        s.filter(p).map_values(f) == s.map_values(f).filter(q),
    decreases s.len(),
{
    reveal(Seq::filter);
    if s.len() == 0 {
        assert(s.filter(p).map_values(f) =~= s.map_values(f).filter(q));
    } else {
        let s2 = s.drop_last();
        assert forall|i: int| 0 <= i < s2.len() implies p(#[trigger] s2[i]) == q(f(s2[i])) by {
            assert(s2[i] == s[i]);
        }
        lemma_filter_map_commute(s2, p, f, q);
        assert(s.map_values(f).drop_last() =~= s2.map_values(f));
        assert(p(s.last()) == q(f(s.last())));
        assert(s.filter(p).map_values(f) =~= s.map_values(f).filter(q));
    }
}

/// An element of a filtered sequence is an element of the sequence that
/// passes the test, and conversely.
pub proof fn lemma_filter_member<A>(s: Seq<A>, p: spec_fn(A) -> bool, x: A)
    ensures
        s.filter(p).contains(x) <==> s.contains(x) && p(x),
{
    broadcast use vstd::seq_lib::group_filter_ensures;
    if s.filter(p).contains(x) {
        let i = choose|i: int| 0 <= i < s.filter(p).len() && s.filter(p)[i] == x;
        s.lemma_filter_contains_rev(p, x);
    }
    if s.contains(x) && p(x) {
        let i = choose|i: int| 0 <= i < s.len() && s[i] == x;
        s.lemma_filter_contains(p, i);
    }
}

/// A sequence without duplicates keeps none once an element is swap-removed.
pub proof fn lemma_swap_removed_distinct<A>(s: Seq<A>, i: int)
    requires
        s.no_duplicates(),
        0 <= i < s.len(),
    ensures
        crate::graph::swap_removed(s, i).no_duplicates(),
        crate::graph::swap_removed(s, i).len() == s.len() - 1,
        forall|j: int| 0 <= j < s.len() - 1 ==> #[trigger] crate::graph::swap_removed(s, i)[j] == if j == i {
            s[s.len() - 1]
        } else {
            s[j]
        },
{
    let r = crate::graph::swap_removed(s, i);
    assert forall|a: int, b: int| 0 <= a < r.len() && 0 <= b < r.len() && a != b implies r[a] != r[b] by {
        let sa = if a == i { s.len() - 1 } else { a };
        let sb = if b == i { s.len() - 1 } else { b };
        assert(r[a] == s[sa]);
        assert(r[b] == s[sb]);
    }
}

} // verus!
