//! Insertion-ordered sets and maps of node indices.
//!
//! The collections themselves come from `indexmap`.  Every function below that
//! calls into it carries the contract that the rest of the library relies on.
use indexmap::IndexMap;
use indexmap::IndexSet;
use vstd::prelude::*;

verus! {

#[verifier::external_type_specification]
#[verifier::external_body]
#[verifier::reject_recursive_types(T)]
#[verifier::reject_recursive_types(S)]
pub struct ExIndexSet<T, S>(indexmap::IndexSet<T, S>);

#[verifier::external_type_specification]
#[verifier::external_body]
#[verifier::reject_recursive_types(K)]
#[verifier::reject_recursive_types(V)]
#[verifier::reject_recursive_types(S)]
pub struct ExIndexMap<K, V, S>(indexmap::IndexMap<K, V, S>);

/// The values of an index set, in the order in which iteration visits them.
pub uninterp spec fn set_items(s: IndexSet<usize>) -> Seq<usize>;

/// The entries of an index map; the order of iteration is left open.
pub uninterp spec fn map_entries(m: IndexMap<usize, usize>) -> Map<usize, usize>;

/// The values of an index set of pairs, in the order in which iteration visits
/// them.
pub uninterp spec fn pair_items(s: IndexSet<(usize, usize)>) -> Seq<(usize, usize)>;

/// `s` after inserting `x`: a value that is already there keeps its place, a
/// new one goes to the end.
pub open spec fn inserted<T>(s: Seq<T>, x: T) -> Seq<T> {
    if s.contains(x) {
        s
    } else {
        s.push(x)
    }
}

/// Inserting a value adds it and nothing else.
pub proof fn lemma_inserted<T>(s: Seq<T>, x: T)
    ensures
        forall|y: T| #[trigger] inserted(s, x).contains(y) <==> s.contains(y) || y == x,
        s.no_duplicates() ==> inserted(s, x).no_duplicates(),
        inserted(s, x).len() <= s.len() + 1,
        s.len() <= inserted(s, x).len(),
{
    let t = inserted(s, x);
    if !s.contains(x) {
        assert forall|y: T| #[trigger] t.contains(y) <==> s.contains(y) || y == x by {
            if s.contains(y) {
                assert(t[s.index_of(y)] == y);
            }
            if y == x {
                assert(t[s.len() as int] == x);
            }
            if t.contains(y) && y != x {
                let i = t.index_of(y);
                assert(s[i] == y);
            }
        }
        if s.no_duplicates() {
            assert forall|i: int, j: int| 0 <= i < t.len() && 0 <= j < t.len() && i != j implies t[i]
                != t[j] by {
                if i == s.len() {
                    assert(s[j] != x);
                } else if j == s.len() {
                    assert(s[i] != x);
                }
            }
        }
    }
}

/// `s` after taking out `x`: the last value moves into the hole.
pub open spec fn swap_removed(s: Seq<usize>, x: usize) -> Seq<usize> {
    if s.contains(x) {
        s.update(s.index_of(x), s.last()).drop_last()
    } else {
        s
    }
}

/// `IndexSet::new`: an empty set.
#[verifier::external_body]
pub(crate) fn set_new() -> (s: IndexSet<usize>)
    ensures
        set_items(s) == Seq::<usize>::empty(),
{
    IndexSet::new()
}

/// `IndexSet::insert`: keeps a value that is already there in its place and
/// appends a new one; says whether the value was new.
#[verifier::external_body]
pub(crate) fn set_insert(s: &mut IndexSet<usize>, x: usize) -> (fresh: bool)
    ensures
        set_items(*final(s)) == inserted(set_items(*old(s)), x),
        fresh == !set_items(*old(s)).contains(x),
{
    s.insert(x)
}

/// `IndexSet::contains`.
#[verifier::external_body]
pub(crate) fn set_contains(s: &IndexSet<usize>, x: usize) -> (r: bool)
    ensures
        r == set_items(*s).contains(x),
{
    s.contains(&x)
}

/// `IndexSet::swap_remove`: takes the value out, moves the last value into its
/// place, and says whether the value was there.
#[verifier::external_body]
pub(crate) fn set_swap_remove(s: &mut IndexSet<usize>, x: usize) -> (found: bool)
    ensures
        set_items(*final(s)) == swap_removed(set_items(*old(s)), x),
        found == set_items(*old(s)).contains(x),
{
    s.swap_remove(&x)
}

/// `IndexSet::len`.
#[verifier::external_body]
pub(crate) fn set_len(s: &IndexSet<usize>) -> (n: usize)
    ensures
        n == set_items(*s).len(),
{
    s.len()
}

/// `IndexSet::get_index`: the value at a position of the iteration order.
#[verifier::external_body]
pub(crate) fn set_at(s: &IndexSet<usize>, i: usize) -> (x: usize)
    requires
        i < set_items(*s).len(),
    ensures
        x == set_items(*s)[i as int],
{
    *s.get_index(i).unwrap()
}

/// `IndexSet::clone`: a set with the same values in the same order.
#[verifier::external_body]
pub(crate) fn set_clone(s: &IndexSet<usize>) -> (r: IndexSet<usize>)
    ensures
        set_items(r) == set_items(*s),
{
    s.clone()
}

/// `IndexSet::new`, for pairs: an empty set.
#[verifier::external_body]
pub(crate) fn pair_set_new() -> (s: IndexSet<(usize, usize)>)
    ensures
        pair_items(s) == (Seq::<(usize, usize)>::empty()),
{
    IndexSet::new()
}

/// `IndexSet::insert`, for pairs: keeps a pair that is already there in its
/// place and appends a new one; says whether the pair was new.
#[verifier::external_body]
pub(crate) fn pair_set_insert(s: &mut IndexSet<(usize, usize)>, x: (usize, usize)) -> (fresh: bool)
    ensures
        pair_items(*final(s)) == inserted(pair_items(*old(s)), x),
        fresh == !pair_items(*old(s)).contains(x),
{
    s.insert(x)
}

/// `IndexMap::new`: an empty map.
#[verifier::external_body]
pub(crate) fn map_new() -> (m: IndexMap<usize, usize>)
    ensures
        map_entries(m) == (Map::<usize, usize>::empty()),
{
    IndexMap::new()
}

/// `IndexMap::get`: the value of a key, if it has one.
#[verifier::external_body]
pub(crate) fn map_get(m: &IndexMap<usize, usize>, k: usize) -> (v: Option<usize>)
    ensures
        v == map_entries(*m).get(k),
{
    m.get(&k).copied()
}

/// `IndexMap::insert`: gives a key its value, replacing the one it had.
#[verifier::external_body]
pub(crate) fn map_insert(m: &mut IndexMap<usize, usize>, k: usize, v: usize)
    ensures
        map_entries(*final(m)) == map_entries(*old(m)).insert(k, v),
{
    m.insert(k, v);
}

/// `IndexMap::swap_remove`: takes a key and its value out.
#[verifier::external_body]
pub(crate) fn map_swap_remove(m: &mut IndexMap<usize, usize>, k: usize)
    ensures
        map_entries(*final(m)) == map_entries(*old(m)).remove(k),
{
    m.swap_remove(&k);
}

/// `IndexMap::len`: the number of keys.
#[verifier::external_body]
pub(crate) fn map_len(m: &IndexMap<usize, usize>) -> (n: usize)
    ensures
        n == map_entries(*m).dom().len(),
{
    m.len()
}

/// `IndexMap::keys`: every key once; the order is left open.
#[verifier::external_body]
pub(crate) fn map_keys(m: &IndexMap<usize, usize>) -> (ks: Vec<usize>)
    ensures
        ks@.no_duplicates(),
        forall|k: usize| ks@.contains(k) <==> #[trigger] map_entries(*m).contains_key(k),
{
    m.keys().copied().collect()
}

} // verus!
