//! Sorting of indices and of tuples of indices.
use vstd::prelude::*;
use vstd::relations::{sorted_by, total_ordering};
use vstd::seq_lib::lemma_sorted_unique;

verus! {

/// Indices in ascending order.
pub open spec fn index_le() -> spec_fn(usize, usize) -> bool {
    |x: usize, y: usize| x <= y
}

/// Pairs in the order of their first and then of their second components.
pub open spec fn pair_le() -> spec_fn((usize, usize), (usize, usize)) -> bool {
    |x: (usize, usize), y: (usize, usize)| x.0 < y.0 || (x.0 == y.0 && x.1 <= y.1)
}

/// Triples in the order of their components.
pub open spec fn triple_le() -> spec_fn((usize, usize, usize), (usize, usize, usize)) -> bool {
    |x: (usize, usize, usize), y: (usize, usize, usize)|
        x.0 < y.0 || (x.0 == y.0 && (x.1 < y.1 || (x.1 == y.1 && x.2 <= y.2)))
}

/// The indices in ascending order.
pub open spec fn sorted_indices(s: Seq<usize>) -> Seq<usize> {
    s.sort_by(index_le())
}

/// The pairs in ascending order.
pub open spec fn sorted_pairs(s: Seq<(usize, usize)>) -> Seq<(usize, usize)> {
    s.sort_by(pair_le())
}

/// The triples in ascending order.
pub open spec fn sorted_triples(s: Seq<(usize, usize, usize)>) -> Seq<(usize, usize, usize)> {
    s.sort_by(triple_le())
}

/// `slice::sort_unstable` on indices: the same values, in ascending order.
#[verifier::external_body]
fn std_sort_indices(v: &mut Vec<usize>)
    ensures
        final(v)@.to_multiset() == old(v)@.to_multiset(),
        sorted_by(final(v)@, index_le()),
{
    v.sort_unstable()
}

/// `slice::sort` on pairs: the same pairs, in lexicographic order.
#[verifier::external_body]
fn std_sort_pairs(v: &mut Vec<(usize, usize)>)
    ensures
        final(v)@.to_multiset() == old(v)@.to_multiset(),
        sorted_by(final(v)@, pair_le()),
{
    v.sort()
}

/// `slice::sort` on triples: the same triples, in lexicographic order.
#[verifier::external_body]
fn std_sort_triples(v: &mut Vec<(usize, usize, usize)>)
    ensures
        final(v)@.to_multiset() == old(v)@.to_multiset(),
        sorted_by(final(v)@, triple_le()),
{
    v.sort()
}

/// A sorted arrangement is the only one.
pub proof fn lemma_sort<T>(s: Seq<T>, r: Seq<T>, le: spec_fn(T, T) -> bool)
    requires
        total_ordering(le),
        r.to_multiset() == s.to_multiset(),
        sorted_by(r, le),
    ensures
        r == s.sort_by(le),
{
    s.lemma_sort_by_ensures(le);
    lemma_sorted_unique(r, s.sort_by(le), le);
}

/// Sorting neither adds nor loses a value.
pub proof fn lemma_sort_contains<T>(s: Seq<T>, le: spec_fn(T, T) -> bool)
    requires
        total_ordering(le),
    ensures
        s.sort_by(le).len() == s.len(),
        s.sort_by(le).to_multiset() == s.to_multiset(),
        sorted_by(s.sort_by(le), le),
        forall|x: T| #[trigger] s.sort_by(le).contains(x) <==> s.contains(x),
{
    broadcast use vstd::seq_lib::group_to_multiset_ensures;

    s.lemma_sort_by_ensures(le);
    let r = s.sort_by(le);
    assert(r.to_multiset().len() == s.to_multiset().len());
    assert forall|x: T| #[trigger] r.contains(x) <==> s.contains(x) by {
        assert(r.contains(x) <==> r.to_multiset().count(x) > 0);
        assert(s.contains(x) <==> s.to_multiset().count(x) > 0);
    }
}

/// Sorting keeps different values different.
pub proof fn lemma_sorted_distinct<T>(s: Seq<T>, le: spec_fn(T, T) -> bool)
    requires
        total_ordering(le),
        s.no_duplicates(),
    ensures
        s.sort_by(le).no_duplicates(),
{
    lemma_sort_contains(s, le);
    s.lemma_multiset_has_no_duplicates();
    s.sort_by(le).lemma_multiset_has_no_duplicates_conv();
}

/// The orders are total.
pub proof fn lemma_orders()
    ensures
        total_ordering(index_le()),
        total_ordering(pair_le()),
        total_ordering(triple_le()),
{
}

/// Sorts indices.
pub fn sort_indices(v: &mut Vec<usize>)
    ensures
        final(v)@ == sorted_indices(old(v)@),
{
    let ghost s = v@;
    std_sort_indices(v);
    proof {
        lemma_orders();
        lemma_sort(s, v@, index_le());
    }
}

/// Sorts pairs.
pub fn sort_pairs(v: &mut Vec<(usize, usize)>)
    ensures
        final(v)@ == sorted_pairs(old(v)@),
{
    let ghost s = v@;
    std_sort_pairs(v);
    proof {
        lemma_orders();
        lemma_sort(s, v@, pair_le());
    }
}

/// Sorts triples.
pub fn sort_triples(v: &mut Vec<(usize, usize, usize)>)
    ensures
        final(v)@ == sorted_triples(old(v)@),
{
    let ghost s = v@;
    std_sort_triples(v);
    proof {
        lemma_orders();
        lemma_sort(s, v@, triple_le());
    }
}

} // verus!
