//! Shared bit sets of endpoints, and the classes of nodes that have equal ones.
//!
//! The words of a bit set are shared between the nodes that have the same ones.
//! Sets are compared often, so their hashes are cached.
use crate::collections::inserted;
use cachedhash::CachedHash;
use indexmap::IndexMap;
use indexmap::IndexSet;
use std::hash::BuildHasher;
use std::hash::Hash;
use std::sync::Arc;
use vstd::prelude::*;

verus! {

#[verifier::external_type_specification]
#[verifier::external_body]
#[verifier::reject_recursive_types(T)]
#[verifier::reject_recursive_types(BH)]
pub struct ExCachedHash<T: Eq + Hash, BH: BuildHasher>(cachedhash::CachedHash<T, BH>);

#[verifier::external_type_specification]
#[verifier::external_body]
#[verifier::reject_recursive_types(H)]
pub struct ExBuildHasherDefault<H>(std::hash::BuildHasherDefault<H>);

/// The words of a shared bit set.
pub uninterp spec fn segment_words(s: Arc<CachedHash<Vec<u64>>>) -> Seq<u64>;

/// The bit sets of an index set, in the order of insertion.
pub uninterp spec fn segment_items(s: IndexSet<Arc<CachedHash<Vec<u64>>>>) -> Seq<Seq<u64>>;

/// The bit sets that make up a set of endpoints, block by block.
pub uninterp spec fn set_segments(
    s: CachedHash<Vec<Option<Arc<CachedHash<Vec<u64>>>>>>,
) -> Seq<Option<Seq<u64>>>;

/// The sets of endpoints of an index map and their counts, in the order of
/// insertion.
pub uninterp spec fn class_entries(
    m: IndexMap<CachedHash<Vec<Option<Arc<CachedHash<Vec<u64>>>>>>, usize>,
) -> Seq<(Seq<Option<Seq<u64>>>, usize)>;

/// The words of shared bit sets.
pub open spec fn words_of(v: Seq<Option<Arc<CachedHash<Vec<u64>>>>>) -> Seq<Option<Seq<u64>>> {
    v.map_values(
        |s: Option<Arc<CachedHash<Vec<u64>>>>|
            match s {
                Some(s) => Some(segment_words(s)),
                None => None,
            },
    )
}

/// The keys of entries.
pub open spec fn keys_of(s: Seq<(Seq<Option<Seq<u64>>>, usize)>) -> Seq<Seq<Option<Seq<u64>>>> {
    s.map_values(|e: (Seq<Option<Seq<u64>>>, usize)| e.0)
}

/// The value of a key.
pub open spec fn value_of(
    s: Seq<(Seq<Option<Seq<u64>>>, usize)>,
    k: Seq<Option<Seq<u64>>>,
) -> Option<usize> {
    if keys_of(s).contains(k) {
        Some(s[keys_of(s).index_of(k)].1)
    } else {
        None
    }
}

/// The entries after a key was given a value: a key that is there keeps its
/// place, a new one goes to the end.
pub open spec fn with_value(
    s: Seq<(Seq<Option<Seq<u64>>>, usize)>,
    k: Seq<Option<Seq<u64>>>,
    v: usize,
) -> Seq<(Seq<Option<Seq<u64>>>, usize)> {
    if keys_of(s).contains(k) {
        s.update(keys_of(s).index_of(k), (k, v))
    } else {
        s.push((k, v))
    }
}

/// `CachedHash::new` behind an `Arc`: keeps the words.
#[verifier::external_body]
pub(crate) fn segment_new(words: Vec<u64>) -> (s: Arc<CachedHash<Vec<u64>>>)
    ensures
        segment_words(s) == words@,
{
    Arc::new(CachedHash::new(words))
}

/// `CachedHash::deref`: the words.
#[verifier::external_body]
pub(crate) fn segment_read(s: &Arc<CachedHash<Vec<u64>>>) -> (words: &Vec<u64>)
    ensures
        words@ == segment_words(*s),
{
    s
}

/// `Arc::clone` on an optional bit set: the same bit set.
#[verifier::external_body]
pub(crate) fn segment_clone(s: &Option<Arc<CachedHash<Vec<u64>>>>) -> (r: Option<
    Arc<CachedHash<Vec<u64>>>,
>)
    ensures
        r == *s,
{
    s.clone()
}

/// `IndexSet::new`: no bit sets.
#[verifier::external_body]
pub(crate) fn segment_set_new() -> (s: IndexSet<Arc<CachedHash<Vec<u64>>>>)
    ensures
        segment_items(s) == Seq::<Seq<u64>>::empty(),
{
    IndexSet::new()
}

/// `IndexSet::insert_full`: a bit set with the same words that is there stays,
/// a new one goes to the end; its position.
#[verifier::external_body]
pub(crate) fn segment_set_insert(
    s: &mut IndexSet<Arc<CachedHash<Vec<u64>>>>,
    seg: Arc<CachedHash<Vec<u64>>>,
) -> (i: usize)
    ensures
        segment_items(*final(s)) == inserted(segment_items(*old(s)), segment_words(seg)),
        i < segment_items(*final(s)).len(),
        segment_items(*final(s))[i as int] == segment_words(seg),
{
    s.insert_full(seg).0
}

/// `IndexSet::get_index`: the bit set at a position, shared.
#[verifier::external_body]
pub(crate) fn segment_set_at(s: &IndexSet<Arc<CachedHash<Vec<u64>>>>, i: usize) -> (r: Arc<
    CachedHash<Vec<u64>>,
>)
    requires
        i < segment_items(*s).len(),
    ensures
        segment_words(r) == segment_items(*s)[i as int],
{
    s.get_index(i).unwrap().clone()
}

/// `CachedHash::new`: keeps the bit sets.
#[verifier::external_body]
pub(crate) fn endpoint_set_new(v: Vec<Option<Arc<CachedHash<Vec<u64>>>>>) -> (s: CachedHash<
    Vec<Option<Arc<CachedHash<Vec<u64>>>>>,
>)
    ensures
        set_segments(s) == words_of(v@),
{
    CachedHash::new(v)
}

/// `IndexMap::new`: no entries.
#[verifier::external_body]
pub(crate) fn classes_new() -> (m: IndexMap<
    CachedHash<Vec<Option<Arc<CachedHash<Vec<u64>>>>>>,
    usize,
>)
    ensures
        class_entries(m) == (Seq::<(Seq<Option<Seq<u64>>>, usize)>::empty()),
{
    IndexMap::new()
}

/// `IndexMap::get`: the count of a set of endpoints, compared by its words.
#[verifier::external_body]
pub(crate) fn classes_get(
    m: &IndexMap<CachedHash<Vec<Option<Arc<CachedHash<Vec<u64>>>>>>, usize>,
    k: &CachedHash<Vec<Option<Arc<CachedHash<Vec<u64>>>>>>,
) -> (v: Option<usize>)
    ensures
        v == value_of(class_entries(*m), set_segments(*k)),
{
    m.get(k).copied()
}

/// `IndexMap::insert`: gives a set of endpoints its count.
#[verifier::external_body]
pub(crate) fn classes_insert(
    m: &mut IndexMap<CachedHash<Vec<Option<Arc<CachedHash<Vec<u64>>>>>>, usize>,
    k: CachedHash<Vec<Option<Arc<CachedHash<Vec<u64>>>>>>,
    v: usize,
)
    ensures
        class_entries(*final(m)) == with_value(class_entries(*old(m)), set_segments(k), v),
{
    m.insert(k, v);
}

/// `IndexMap::len`: the number of entries.
#[verifier::external_body]
pub(crate) fn classes_len(
    m: &IndexMap<CachedHash<Vec<Option<Arc<CachedHash<Vec<u64>>>>>>, usize>,
) -> (n: usize)
    ensures
        n == class_entries(*m).len(),
{
    m.len()
}

/// `IndexMap::get_index`: the bit sets and the count at a position.
#[verifier::external_body]
pub(crate) fn classes_at(
    m: &IndexMap<CachedHash<Vec<Option<Arc<CachedHash<Vec<u64>>>>>>, usize>,
    i: usize,
) -> (e: (&Vec<Option<Arc<CachedHash<Vec<u64>>>>>, usize))
    requires
        i < class_entries(*m).len(),
    ensures
        words_of(e.0@) == class_entries(*m)[i as int].0,
        e.1 == class_entries(*m)[i as int].1,
{
    let (k, v) = m.get_index(i).unwrap();
    (k, *v)
}

} // verus!
