//! What every refinement of a clustering satisfies.
use crate::merge_model::{
    build_all, by_stages, choices, cone_lens, is_used, joined, lemma_choices, lemma_try_choices,
    merge_from, merge_one, merge_rounds, merged_with, merging_ok, most_stages, num_used, refined,
    stage_keys, try_choices, Design, Merging, Policy,
};
use crate::pe::Realization;
use crate::seqs::{lemma_tally_bound, lemma_tally_push, tally};
use crate::sorts::{lemma_orders, lemma_sort_contains, pair_le, sorted_pairs};
use vstd::multiset::Multiset;
use vstd::prelude::*;

verus! {

/// The sum of the multisets that `f` gives for the entries.
pub open spec fn sum_by<T>(s: Seq<T>, f: spec_fn(T) -> Multiset<usize>) -> Multiset<usize>
    decreases s.len(),
{
    if s.len() == 0 {
        Multiset::empty()
    } else {
        sum_by(s.drop_last(), f).add(f(s.last()))
    }
}

/// The endpoints of a cluster.
pub open spec fn ids_in() -> spec_fn(Seq<usize>) -> Multiset<usize> {
    |p: Seq<usize>| p.to_multiset()
}

/// The endpoints of a partition.
pub open spec fn ids_of() -> spec_fn(Realization) -> Multiset<usize> {
    |p: Realization| p.endpoints.to_multiset()
}

/// A sum without one of its terms.
proof fn lemma_sum_remove<T>(s: Seq<T>, f: spec_fn(T) -> Multiset<usize>, i: int)
    requires
        0 <= i < s.len(),
    ensures
        sum_by(s, f) =~= sum_by(s.remove(i), f).add(f(s[i])),
    decreases s.len(),
{
    let t = s.drop_last();
    if i < s.len() - 1 {
        lemma_sum_remove(t, f, i);
        assert(s.remove(i).drop_last() =~= t.remove(i));
        assert(s.remove(i).last() == s.last());
    } else {
        assert(s.remove(i) =~= t);
    }
}

/// A sum with one of its terms replaced.
pub proof fn lemma_sum_update<T>(s: Seq<T>, f: spec_fn(T) -> Multiset<usize>, i: int, x: T)
    requires
        0 <= i < s.len(),
    ensures
        sum_by(s.update(i, x), f).add(f(s[i])) =~= sum_by(s, f).add(f(x)),
{
    lemma_sum_remove(s, f, i);
    lemma_sum_remove(s.update(i, x), f, i);
    assert(s.update(i, x).remove(i) =~= s.remove(i));
}

/// Clusters without endpoints.
pub proof fn lemma_sum_empty(s: Seq<Seq<usize>>)
    requires
        forall|i: int| 0 <= i < s.len() ==> (#[trigger] s[i]).len() == 0,
    ensures
        sum_by(s, ids_in()) == Multiset::<usize>::empty(),
    decreases s.len(),
{
    broadcast use vstd::seq_lib::group_to_multiset_ensures;

    if s.len() > 0 {
        assert forall|i: int| 0 <= i < s.drop_last().len() implies (
        #[trigger] s.drop_last()[i]).len() == 0 by {
            assert(s[i].len() == 0);
        }
        lemma_sum_empty(s.drop_last());
        assert(s[s.len() - 1].len() == 0);
        assert(s.last().to_multiset() =~= Multiset::empty()) by {
            assert(s.last().to_multiset().len() == 0);
        }
        assert(sum_by(s, ids_in()) =~= Multiset::empty());
    }
}

/// The endpoints of two lists of clusters.
pub proof fn lemma_sum_concat(s: Seq<Seq<usize>>, t: Seq<Seq<usize>>)
    ensures
        sum_by(s + t, ids_in()) == sum_by(s, ids_in()).add(sum_by(t, ids_in())),
    decreases t.len(),
{
    if t.len() == 0 {
        assert(s + t =~= s);
        assert(sum_by(s + t, ids_in()) =~= sum_by(s, ids_in()).add(sum_by(t, ids_in())));
    } else {
        lemma_sum_concat(s, t.drop_last());
        assert((s + t).drop_last() =~= s + t.drop_last());
        assert(sum_by(s + t, ids_in()) =~= sum_by(s, ids_in()).add(sum_by(t, ids_in())));
    }
}

/// A sum does not depend on the order of its terms.
proof fn lemma_sum_perm<T>(s: Seq<T>, t: Seq<T>, f: spec_fn(T) -> Multiset<usize>)
    requires
        s.to_multiset() == t.to_multiset(),
    ensures
        sum_by(s, f) == sum_by(t, f),
    decreases s.len(),
{
    broadcast use vstd::seq_lib::group_to_multiset_ensures;

    s.to_multiset_ensures();
    t.to_multiset_ensures();
    assert(s.len() == t.len());
    if s.len() > 0 {
        let x = s.last();
        let n = s.len() - 1;
        assert(s.contains(s[n]));
        assert(s.to_multiset().count(x) > 0);
        assert(t.contains(x));
        let i = t.index_of(x);
        assert(s.remove(n) =~= s.drop_last());
        assert(s.drop_last().to_multiset() =~= s.to_multiset().remove(x));
        assert(t.remove(i).to_multiset() =~= t.to_multiset().remove(x));
        lemma_sum_perm(s.drop_last(), t.remove(i), f);
        lemma_sum_remove(t, f, i);
    }
}

/// Sums of equal terms are equal.
proof fn lemma_sum_map<S, T>(
    s: Seq<S>,
    t: Seq<T>,
    g: spec_fn(S) -> Multiset<usize>,
    f: spec_fn(T) -> Multiset<usize>,
)
    requires
        s.len() == t.len(),
        forall|i: int| 0 <= i < s.len() ==> g(#[trigger] s[i]) == f(t[i]),
    ensures
        sum_by(s, g) == sum_by(t, f),
    decreases s.len(),
{
    if s.len() > 0 {
        assert forall|i: int| 0 <= i < s.drop_last().len() implies g(
            #[trigger] s.drop_last()[i],
        ) == f(t.drop_last()[i]) by {
            assert(g(s[i]) == f(t[i]));
        }
        lemma_sum_map(s.drop_last(), t.drop_last(), g, f);
        assert(g(s[s.len() - 1]) == f(t[t.len() - 1]));
    }
}

/// Putting partitions in order neither adds nor loses one.
proof fn lemma_by_stages(ps: Seq<Realization>)
    requires
        ps.len() <= usize::MAX,
    ensures
        by_stages(ps).len() == ps.len(),
        sum_by(by_stages(ps), ids_of()) == sum_by(ps, ids_of()),
        forall|k: int|
            0 <= k < by_stages(ps).len() ==> ps.contains(#[trigger] by_stages(ps)[k]),
        (forall|k: int| 0 <= k < ps.len() ==> (#[trigger] ps[k]).stages.len() <= usize::MAX)
            ==> forall|k: int, l: int|
            0 <= k < l < by_stages(ps).len() ==> (#[trigger] by_stages(ps)[k]).stages.len() >= (
            #[trigger] by_stages(ps)[l]).stages.len(),
{
    let s = stage_keys(ps);
    let keys = sorted_pairs(s);
    let r = by_stages(ps);
    lemma_orders();
    lemma_sort_contains(s, pair_le());
    assert forall|k: int| 0 <= k < keys.len() implies {
        &&& (#[trigger] keys[k]).1 < ps.len()
        &&& keys[k] == s[keys[k].1 as int]
        &&& r[k] == ps[keys[k].1 as int]
    } by {
        assert(keys.contains(keys[k]));
        let i = s.index_of(keys[k]);
        assert(s[i] == keys[k]);
    }
    assert forall|k: int| 0 <= k < r.len() implies ps.contains(#[trigger] r[k]) by {
        let i = keys[k].1 as int;
        assert(ps[i] == r[k]);
    }
    if forall|k: int| 0 <= k < ps.len() ==> (#[trigger] ps[k]).stages.len() <= usize::MAX {
        assert forall|k: int, l: int| 0 <= k < l < r.len() implies (
        #[trigger] r[k]).stages.len() >= (#[trigger] r[l]).stages.len() by {
            assert(pair_le()(keys[k], keys[l]));
        }
    }
    let g = |k: (usize, usize)| ids_of()(ps[k.1 as int]);
    lemma_sum_map(keys, r, g, ids_of());
    lemma_sum_perm(keys, s, g);
    lemma_sum_map(s, ps, g, ids_of());
}

/// Moving one cluster into another keeps the endpoints.
proof fn lemma_joined_ids(parts: Seq<Seq<usize>>, i: int, j: int)
    requires
        0 <= i < j < parts.len(),
    ensures
        sum_by(joined(parts, i, j).skip(i), ids_in()) == sum_by(parts.skip(i), ids_in()),
{
    let s = parts.skip(i);
    let a = parts[i];
    let b = parts[j];
    let t = s.update(0, a + b);
    let u = t.update(j - i, Seq::empty());
    assert(joined(parts, i, j).skip(i) =~= u);
    lemma_sum_update(s, ids_in(), 0, a + b);
    lemma_sum_update(t, ids_in(), j - i, Seq::empty());
    vstd::seq_lib::lemma_multiset_commutative(a, b);
    broadcast use vstd::seq_lib::group_to_multiset_ensures;

    let empty: Seq<usize> = Seq::empty();
    assert(empty.to_multiset() =~= Multiset::empty()) by {
        assert(empty.to_multiset().len() == 0);
    }
    assert((a + b).to_multiset() =~= a.to_multiset().add(b.to_multiset()));
    assert(sum_by(u, ids_in()) =~= sum_by(s, ids_in())) by {
        assert forall|x: usize| sum_by(u, ids_in()).count(x) == sum_by(s, ids_in()).count(x) by {
            let su = sum_by(u, ids_in());
            let st = sum_by(t, ids_in());
            let ss = sum_by(s, ids_in());
            assert(st.add(ids_in()(s[0])).count(x) == ss.add(ids_in()(a + b)).count(x));
            assert(su.add(ids_in()(t[j - i])).count(x) == st.add(ids_in()(empty)).count(x));
        }
    }
}

/// What merging into one cluster keeps.
spec fn merge_keeps(d: Design, pol: Policy, st: Merging, r: Merging, i: int) -> bool {
    &&& r.parts.len() == st.parts.len()
    &&& d.build(r.parts[i]) == Some(r.own)
    &&& r.parts[i].len() > 0
    &&& r.own.stages.len() <= pol.max_stages || r.own == st.own
    &&& num_used(r.parts) <= num_used(st.parts)
    &&& sum_by(r.parts.skip(i), ids_in()) == sum_by(st.parts.skip(i), ids_in())
    &&& forall|j: int|
        i < j < st.parts.len() ==> #[trigger] r.parts[j] == st.parts[j] || r.parts[j].len() == 0
    &&& forall|j: int| 0 <= j < i ==> #[trigger] r.parts[j] == st.parts[j]
}

/// Merging one cluster with others keeps the endpoints.
proof fn lemma_merge_rounds(d: Design, pol: Policy, counts: Seq<nat>, st: Merging, i: int)
    requires
        merging_ok(st, i),
        d.build(st.parts[i]) == Some(st.own),
    ensures
        merge_keeps(d, pol, st, merge_rounds(d, pol, counts, st, i), i),
    decreases num_used(st.parts),
{
    let cs = choices(d, counts, st, i);
    lemma_choices(d, counts, st, i);
    lemma_try_choices(d, pol, st, i, cs, 0);
    let (r, found) = try_choices(d, pol, st, i, cs, 0);
    if found {
        let j = choose|j: int| merged_with(d, pol, st.parts, i, j, r);
        lemma_joined_ids(st.parts, i, j);
        assert(r.parts[i] == st.parts[i] + st.parts[j]);
        lemma_merge_rounds(d, pol, counts, r, i);
        let q = merge_rounds(d, pol, counts, r, i);
        assert forall|k: int| i < k < st.parts.len() implies #[trigger] q.parts[k] == st.parts[k]
            || q.parts[k].len() == 0 by {
            if q.parts[k] == r.parts[k] {
                assert(k == j || r.parts[k] == st.parts[k]);
            }
        }
        assert forall|k: int| 0 <= k < i implies #[trigger] q.parts[k] == st.parts[k] by {
            assert(q.parts[k] == r.parts[k]);
            assert(r.parts[k] == st.parts[k]);
        }
    }
}

/// The clusters from `i` on that have endpoints have their partitions.
spec fn matches_from(
    d: Design,
    originals: Seq<Realization>,
    parts: Seq<Seq<usize>>,
    i: int,
) -> bool {
    &&& parts.len() == originals.len()
    &&& forall|k: int|
        i <= k < parts.len() && (#[trigger] parts[k]).len() > 0 ==> d.build(parts[k]) == Some(
            originals[k],
        )
}

/// The clusters from `i` on that have endpoints.
spec fn used_from(parts: Seq<Seq<usize>>, i: int) -> nat {
    tally(parts.skip(i), is_used())
}

/// The clusters with endpoints, before and behind a place.
proof fn lemma_used_split(parts: Seq<Seq<usize>>, i: int)
    requires
        0 <= i <= parts.len(),
    ensures
        num_used(parts) == num_used(parts.take(i)) + used_from(parts, i),
    decreases parts.len() - i,
{
    if i == parts.len() {
        assert(parts.take(i) =~= parts);
        assert(parts.skip(i) =~= Seq::empty());
    } else {
        lemma_used_split(parts, i + 1);
        lemma_used_next(parts, i);
        assert(parts.take(i + 1) =~= parts.take(i).push(parts[i]));
        lemma_tally_push(parts.take(i), is_used(), parts[i]);
    }
}

/// Counting from the front.
proof fn lemma_tally_first(s: Seq<Seq<usize>>)
    requires
        s.len() > 0,
    ensures
        tally(s, is_used()) == tally(s.drop_first(), is_used()) + (if s[0].len() > 0 {
            1nat
        } else {
            0nat
        }),
    decreases s.len(),
{
    if s.len() > 1 {
        lemma_tally_first(s.drop_last());
        assert(s.drop_first().drop_last() =~= s.drop_last().drop_first());
        assert(s.drop_first().last() == s.last());
    } else {
        assert(s.drop_first() =~= Seq::empty());
        assert(s.drop_last() =~= Seq::empty());
    }
}

/// One cluster less is left.
proof fn lemma_used_next(parts: Seq<Seq<usize>>, i: int)
    requires
        0 <= i < parts.len(),
    ensures
        used_from(parts, i) == used_from(parts, i + 1) + (if parts[i].len() > 0 {
            1nat
        } else {
            0nat
        }),
{
    let s = parts.skip(i);
    lemma_tally_first(s);
    assert(s.drop_first() =~= parts.skip(i + 1));
}

/// The endpoints of one cluster less are left.
proof fn lemma_ids_next(parts: Seq<Seq<usize>>, i: int)
    requires
        0 <= i < parts.len(),
    ensures
        sum_by(parts.skip(i), ids_in()) == sum_by(parts.skip(i + 1), ids_in()).add(
            parts[i].to_multiset(),
        ),
{
    lemma_sum_remove(parts.skip(i), ids_in(), 0);
    assert(parts.skip(i).remove(0) =~= parts.skip(i + 1));
}

/// The merging of the clusters from `i` on.
proof fn lemma_merge_from(
    d: Design,
    pol: Policy,
    counts: Seq<nat>,
    originals: Seq<Realization>,
    parts: Seq<Seq<usize>>,
    i: int,
)
    requires
        0 <= i <= parts.len() <= usize::MAX,
        matches_from(d, originals, parts, i),
    ensures
        ({
            let r = merge_from(d, pol, counts, originals, parts, i);
            &&& sum_by(r, ids_of()) == sum_by(parts.skip(i), ids_in())
            &&& r.len() <= used_from(parts, i)
            &&& forall|k: int|
                0 <= k < r.len() ==> d.build((#[trigger] r[k]).endpoints) == Some(r[k]) && (
                r[k].stages.len() <= pol.max_stages || originals.contains(r[k]))
        }),
    decreases parts.len() - i,
{
    let r = merge_from(d, pol, counts, originals, parts, i);
    if i >= parts.len() {
        assert(parts.skip(i) =~= Seq::empty());
    } else if parts[i].len() == 0 {
        lemma_merge_from(d, pol, counts, originals, parts, i + 1);
        lemma_ids_next(parts, i);
        lemma_used_next(parts, i);
        broadcast use vstd::seq_lib::group_to_multiset_ensures;

        assert(parts[i].to_multiset() =~= Multiset::empty()) by {
            assert(parts[i].to_multiset().len() == 0);
        }
        assert(sum_by(parts.skip(i), ids_in()) =~= sum_by(parts.skip(i + 1), ids_in()));
    } else {
        let st = Merging { parts, own: originals[i], black: Set::empty(), skips: 0 };
        let m = merge_one(d, pol, counts, parts, originals[i], i);
        assert(d.build(parts[i]) == Some(originals[i]));
        if pol.frozen != Some(originals[i].stages.len() as int) {
            lemma_merge_rounds(d, pol, counts, st, i);
        }
        assert(merge_keeps(d, pol, st, m, i));
        assert(matches_from(d, originals, m.parts, i + 1)) by {
            assert forall|k: int|
                i + 1 <= k < m.parts.len() && (#[trigger] m.parts[k]).len() > 0 implies d.build(
                m.parts[k],
            ) == Some(originals[k]) by {
                assert(m.parts[k] == parts[k]);
            }
        }
        lemma_merge_from(d, pol, counts, originals, m.parts, i + 1);
        let rest = merge_from(d, pol, counts, originals, m.parts, i + 1);
        assert(r == seq![m.own] + rest);
        lemma_sum_remove(r, ids_of(), 0);
        assert(r.remove(0) =~= rest);
        lemma_ids_next(m.parts, i);
        assert(m.own.endpoints == m.parts[i]);
        lemma_used_next(m.parts, i);
        lemma_used_split(parts, i);
        lemma_used_split(m.parts, i);
        assert(m.parts.take(i) =~= parts.take(i));
        assert forall|k: int| 0 <= k < r.len() implies d.build((#[trigger] r[k]).endpoints) == Some(
            r[k],
        ) && (r[k].stages.len() <= pol.max_stages || originals.contains(r[k])) by {
            if k == 0 {
                assert(r[0] == m.own);
                assert(originals.contains(originals[i]));
            } else {
                assert(r[k] == rest[k - 1]);
            }
        }
    }
}

/// Where all clusters can be mapped, each can.
proof fn lemma_build_all_each(d: Design, parts: Seq<Seq<usize>>, k: int)
    requires
        build_all(d, parts) is Some,
        0 <= k < parts.len(),
    ensures
        build_all(d, parts).unwrap().len() == parts.len(),
        d.build(parts[k]) == Some(build_all(d, parts).unwrap()[k]),
    decreases parts.len(),
{
    reveal_with_fuel(build_all, 2);
    if parts.len() > 1 {
        lemma_build_all_each(d, parts.drop_last(), if k < parts.len() - 1 {
            k
        } else {
            0
        });
    } else {
        assert(parts.drop_last() =~= Seq::empty());
    }
}

/// No partition has more than the most stages.
proof fn lemma_most_stages(ps: Seq<Realization>, k: int)
    requires
        0 <= k < ps.len(),
    ensures
        ps[k].stages.len() <= most_stages(ps),
    decreases ps.len(),
{
    if k < ps.len() - 1 {
        lemma_most_stages(ps.drop_last(), k);
    }
}

/// A refinement is a clustering of the same endpoints into no more partitions:
/// it loses and adds no endpoint, has at most one partition for each cluster
/// that has endpoints, each of its partitions is the one that is built for its
/// endpoints, and none has more stages than the policy allows.  As long as a
/// `usize` counts the stages, the partitions with the most stages come first.
pub proof fn refinement_keeps_endpoints(
    d: Design,
    pol: Policy,
    parts: Seq<Seq<usize>>,
)
    requires
        parts.len() <= usize::MAX,
        build_all(d, parts) is Some,
        most_stages(build_all(d, parts).unwrap()) <= pol.max_stages,
    ensures
        ({
            let r = refined(d, pol, build_all(d, parts).unwrap(), parts);
            &&& sum_by(r, ids_of()) == sum_by(parts, ids_in())
            &&& r.len() <= num_used(parts)
            &&& r.len() <= parts.len()
            &&& forall|k: int|
                0 <= k < r.len() ==> d.build((#[trigger] r[k]).endpoints) == Some(r[k])
                    && r[k].stages.len() <= pol.max_stages
            &&& pol.max_stages <= usize::MAX ==> forall|k: int, l: int|
                0 <= k < l < r.len() ==> (#[trigger] r[k]).stages.len() >= (
                #[trigger] r[l]).stages.len()
        }),
{
    let originals = build_all(d, parts).unwrap();
    assert(originals.len() == parts.len()) by {
        if parts.len() > 0 {
            lemma_build_all_each(d, parts, 0);
        }
    }
    assert(matches_from(d, originals, parts, 0)) by {
        assert forall|k: int| 0 <= k < parts.len() implies d.build(#[trigger] parts[k]) == Some(
            originals[k],
        ) by {
            lemma_build_all_each(d, parts, k);
        }
    }
    let counts = cone_lens(d, parts);
    lemma_merge_from(d, pol, counts, originals, parts, 0);
    let r0 = merge_from(d, pol, counts, originals, parts, 0);
    let r = refined(d, pol, originals, parts);
    assert(parts.skip(0) =~= parts);
    lemma_tally_bound(parts, is_used());
    assert forall|k: int| 0 <= k < r0.len() implies (#[trigger] r0[k]).stages.len()
        <= pol.max_stages by {
        if originals.contains(r0[k]) {
            lemma_most_stages(originals, originals.index_of(r0[k]));
        }
    }
    lemma_by_stages(r0);
    assert forall|k: int| 0 <= k < r.len() implies d.build((#[trigger] r[k]).endpoints) == Some(
        r[k],
    ) && r[k].stages.len() <= pol.max_stages by {
        assert(r0.contains(r[k]));
        let q = r0.index_of(r[k]);
        assert(r0[q] == r[k]);
    }
}

} // verus!
