//! Which clusters are merged, and in which order they are tried.
use crate::aig::{cone_order, cone_order_is_topological, AIG};
use crate::cone_laws::{is_reached, taken_over, traversals_list_what_is_reached};
use crate::merge::{design, lemma_cone_grows, parts_ok};
use crate::merge_model::{
    refined, build_all, by_stages, choice, choices, choices_ok, choices_upto, cone_lens,
    fewest_stages, is_batch_start, lemma_choices, lemma_try_choices, merge_from, merge_one,
    merge_rounds, merging_ok, most_stages, num_used, plain_policy, relaxed_policy, ruled_out,
    skipping_policy, stage_keys, try_choices, Design, Merging, Policy,
};
use crate::pe::Realization;
use crate::seqs::lemma_short;
use crate::sorts::{
    lemma_orders, lemma_sort_contains, lemma_sorted_distinct, pair_le, sorted_pairs, triple_le,
};
use crate::staging::{ids_ok, inputs_of, lemma_inputs_in_range, StagedAIG};
use vstd::arithmetic::power2::{lemma2_to64, lemma_pow2_unfold, pow2};
use vstd::prelude::*;

verus! {

/// The nodes that the endpoints of `ids` depend on inside a stage.
pub open spec fn nodes_behind(aig: AIG, staged: StagedAIG, ids: Seq<usize>) -> Set<usize> {
    Set::new(
        |u: usize|
            is_reached(aig.drivers@, taken_over(staged), inputs_of(staged.endpoints@, ids), u),
    )
}

/// The size of a cluster is the number of different nodes that its endpoints
/// depend on inside the stage.
pub proof fn clusters_are_as_large_as_their_logic(aig: AIG, staged: StagedAIG, ids: Seq<usize>)
    requires
        staged.wf(aig),
        ids_ok(staged.endpoints@, ids),
    ensures
        nodes_behind(aig, staged, ids).finite(),
        design(aig, staged).cone_len(ids) == nodes_behind(aig, staged, ids).len(),
        design(aig, staged).cone_len(ids) <= aig.drivers@.len(),
{
    let pins = inputs_of(staged.endpoints@, ids);
    let order = cone_order(aig.drivers@, staged.sources(), pins);
    lemma_inputs_in_range(aig.drivers@, staged.endpoints@, ids);
    cone_order_is_topological(aig.drivers@, staged.sources(), pins);
    assert(taken_over(staged) =~= staged.sources());
    assert forall|u: usize| order.to_set().contains(u) <==> nodes_behind(
        aig,
        staged,
        ids,
    ).contains(u) by {
        traversals_list_what_is_reached(aig.drivers@, staged.sources(), pins, u);
    }
    assert(order.to_set() =~= nodes_behind(aig, staged, ids));
    order.unique_seq_to_set();
    vstd::seq_lib::seq_to_set_is_finite(order);
    lemma_short(order, aig.drivers@.len());
}

/// Cluster `j` is a candidate for cluster `i`.
pub open spec fn is_candidate(st: Merging, i: int, j: int) -> bool {
    i < j < st.parts.len() && st.parts[j].len() > 0 && !st.black.contains(j as usize)
}

/// A choice names a candidate, the nodes that both clusters depend on, and how
/// many of these the larger of the two does not depend on.
pub open spec fn weighs(
    aig: AIG,
    staged: StagedAIG,
    st: Merging,
    i: int,
    x: (usize, usize, usize),
) -> bool {
    let own = design(aig, staged).cone_len(st.parts[i]);
    let other = design(aig, staged).cone_len(st.parts[x.2 as int]);
    let both = design(aig, staged).cone_len(st.parts[i] + st.parts[x.2 as int]);
    &&& is_candidate(st, i, x.2 as int)
    &&& x.1 == both
    &&& own >= other ==> x.0 + own == both
    &&& own < other ==> x.0 + other == both
}

/// The choices among the first clusters.
proof fn lemma_weighs(
    aig: AIG,
    staged: StagedAIG,
    counts: Seq<nat>,
    st: Merging,
    i: int,
    end: int,
    j: int,
)
    requires
        staged.wf(aig),
        parts_ok(staged.endpoints@, st.parts),
        0 <= i < st.parts.len() <= usize::MAX,
        end <= st.parts.len(),
        counts.len() == st.parts.len(),
        forall|k: int|
            0 <= k < counts.len() && (#[trigger] st.parts[k]).len() > 0 ==> counts[k] == design(
                aig,
                staged,
            ).cone_len(st.parts[k]),
    ensures
        ({
            let s = choices_upto(design(aig, staged), counts, st, i, end);
            &&& forall|t: int|
                0 <= t < s.len() ==> #[trigger] weighs(aig, staged, st, i, s[t]) && s[t].2 < end
            &&& forall|t: int, u: int|
                0 <= t < u < s.len() ==> (#[trigger] s[t]).2 < (#[trigger] s[u]).2
            &&& is_candidate(st, i, j) && j < end ==> exists|t: int|
                0 <= t < s.len() && (#[trigger] s[t]).2 == j
        }),
    decreases end - i,
{
    let d = design(aig, staged);
    if end > i + 1 {
        lemma_weighs(aig, staged, counts, st, i, end - 1, j);
        let s = choices_upto(d, counts, st, i, end - 1);
        let r = choices_upto(d, counts, st, i, end);
        let k = end - 1;
        if let Some(x) = choice(d, counts, st, i, k) {
            let both = st.parts[i] + st.parts[k];
            assert(ids_ok(staged.endpoints@, st.parts[i]));
            assert(ids_ok(staged.endpoints@, st.parts[k]));
            assert(ids_ok(staged.endpoints@, both));
            lemma_cone_grows(aig, staged, st.parts[i], st.parts[k]);
            clusters_are_as_large_as_their_logic(aig, staged, both);
            assert(aig.drivers@.len() == aig.drivers.len());
            assert(weighs(aig, staged, st, i, x));
            assert(r == s.push(x));
            assert forall|t: int| 0 <= t < r.len() implies #[trigger] weighs(
                aig,
                staged,
                st,
                i,
                r[t],
            ) && r[t].2 < end by {
                if t < s.len() {
                    assert(weighs(aig, staged, st, i, s[t]));
                }
            }
            assert forall|t: int, u: int| 0 <= t < u < r.len() implies (#[trigger] r[t]).2 < (
            #[trigger] r[u]).2 by {
                if u == s.len() {
                    assert(weighs(aig, staged, st, i, s[t]));
                }
            }
        }
        if is_candidate(st, i, j) && j < end {
            if j < k {
                let t = choose|t: int| 0 <= t < s.len() && (#[trigger] s[t]).2 == j;
                assert(r[t] == s[t]);
            } else {
                assert(r[s.len() as int].2 == j);
            }
        }
    }
}

/// Every candidate is a choice, once, and nothing else is; the choices stand in
/// the order of the nodes that are added to the larger cluster, then of the
/// nodes in all, then of the clusters.
pub proof fn cheaper_candidates_come_first(
    aig: AIG,
    staged: StagedAIG,
    counts: Seq<nat>,
    st: Merging,
    i: int,
    j: int,
    t: int,
    u: int,
)
    requires
        staged.wf(aig),
        parts_ok(staged.endpoints@, st.parts),
        0 <= i < st.parts.len() <= usize::MAX,
        counts.len() == st.parts.len(),
        forall|k: int|
            0 <= k < counts.len() && (#[trigger] st.parts[k]).len() > 0 ==> counts[k] == design(
                aig,
                staged,
            ).cone_len(st.parts[k]),
        0 <= t < u < choices(design(aig, staged), counts, st, i).len(),
    ensures
        ({
            let cs = choices(design(aig, staged), counts, st, i);
            &&& weighs(aig, staged, st, i, cs[t])
            &&& weighs(aig, staged, st, i, cs[u])
            &&& cs[t].2 != cs[u].2
            &&& cs[t].0 <= cs[u].0
            &&& cs[t].0 == cs[u].0 ==> cs[t].1 <= cs[u].1
            &&& cs[t].0 == cs[u].0 && cs[t].1 == cs[u].1 ==> cs[t].2 < cs[u].2
            &&& is_candidate(st, i, j) ==> exists|v: int|
                0 <= v < cs.len() && (#[trigger] cs[v]).2 == j
        }),
{
    let d = design(aig, staged);
    let s = choices_upto(d, counts, st, i, st.parts.len() as int);
    let cs = choices(d, counts, st, i);
    lemma_weighs(aig, staged, counts, st, i, st.parts.len() as int, j);
    lemma_orders();
    lemma_sort_contains(s, triple_le());
    assert(cs.contains(cs[t]) && cs.contains(cs[u]));
    let p = s.index_of(cs[t]);
    let q = s.index_of(cs[u]);
    assert(weighs(aig, staged, st, i, s[p]));
    assert(weighs(aig, staged, st, i, s[q]));
    assert(triple_le()(cs[t], cs[u]));
    assert(s.no_duplicates()) by {
        assert forall|a: int, b: int| 0 <= a < s.len() && 0 <= b < s.len() && a != b implies s[a]
            != s[b] by {
            if a < b {
                assert(s[a].2 < s[b].2);
            } else {
                assert(s[b].2 < s[a].2);
            }
        }
    }
    lemma_sorted_distinct(s, triple_le());
    assert(cs[t] != cs[u]);
    if cs[t].2 == cs[u].2 {
        assert(p != q);
        if p < q {
            assert(s[p].2 < s[q].2);
        } else {
            assert(s[q].2 < s[p].2);
        }
    }
    if is_candidate(st, i, j) {
        let a = choose|a: int| 0 <= a < s.len() && (#[trigger] s[a]).2 == j;
        assert(s.contains(s[a]));
        assert(cs.contains(s[a]));
        assert(cs[cs.index_of(s[a])].2 == j);
    }
}

/// The trial of the `t`-th choice fails because the clusters cannot be mapped
/// together, or because that takes too many stages.
pub open spec fn trial_fails(
    d: Design,
    pol: Policy,
    parts: Seq<Seq<usize>>,
    i: int,
    cs: Seq<(usize, usize, usize)>,
    t: int,
) -> bool {
    match d.build(parts[i] + parts[cs[t].2 as int]) {
        None => true,
        Some(p) => p.stages.len() > pol.max_stages,
    }
}

/// How many of the trials before the `t`-th fail because of their stages.
pub open spec fn too_deep(
    d: Design,
    pol: Policy,
    parts: Seq<Seq<usize>>,
    i: int,
    cs: Seq<(usize, usize, usize)>,
    s: int,
    t: int,
) -> int
    decreases t - s,
{
    if t <= s {
        0
    } else {
        too_deep(d, pol, parts, i, cs, s, t - 1) + (match d.build(
            parts[i] + parts[cs[t - 1].2 as int],
        ) {
            Some(p) if p.stages.len() > pol.max_stages => 1int,
            _ => 0int,
        })
    }
}

/// The first trial counts like the others.
proof fn lemma_too_deep(
    d: Design,
    pol: Policy,
    parts: Seq<Seq<usize>>,
    i: int,
    cs: Seq<(usize, usize, usize)>,
    s: int,
    t: int,
)
    requires
        s < t,
    ensures
        too_deep(d, pol, parts, i, cs, s, t) == too_deep(d, pol, parts, i, cs, s, s + 1) + too_deep(
            d,
            pol,
            parts,
            i,
            cs,
            s + 1,
            t,
        ),
        too_deep(d, pol, parts, i, cs, s + 1, t) >= 0,
        too_deep(d, pol, parts, i, cs, s, t) >= 0,
    decreases t - s,
{
    reveal_with_fuel(too_deep, 2);
    if s + 1 < t {
        lemma_too_deep(d, pol, parts, i, cs, s, t - 1);
    }
}

/// Trials are made up to the `t`-th: no batch with more trials before it than
/// wanted starts by then.
pub open spec fn in_trials(pol: Policy, s: int, t: int) -> bool {
    forall|k: nat| s <= #[trigger] batch(k) <= t ==> batch(k) <= pol.max_trials
}

/// Where the batches of trials start: at 0, 4, 12, 28 and so on.
pub open spec fn batch(k: nat) -> int {
    4 * (pow2(k) - 1)
}

/// A batch starts at each of these numbers.
proof fn lemma_batch(k: nat)
    ensures
        is_batch_start(batch(k)),
        batch(k) >= 0,
        k > 0 ==> batch(k) == 2 * batch((k - 1) as nat) + 4,
    decreases k,
{
    lemma2_to64();
    if k > 0 {
        lemma_batch((k - 1) as nat);
        lemma_pow2_unfold(k);
    }
}

/// Nowhere else.
proof fn lemma_batch_only(t: int) -> (k: nat)
    requires
        is_batch_start(t),
        0 <= t,
    ensures
        t == batch(k),
    decreases t,
{
    lemma2_to64();
    if t == 0 {
        0
    } else {
        let k = lemma_batch_only((t - 4) / 2);
        lemma_batch(k + 1);
        k + 1
    }
}

/// The first choice from the `s`-th on whose trial does not fail is merged, as
/// long as trials are made up to it, and, with a cautious policy, fewer than
/// five trials have failed because of their stages.  The clusters of the choices
/// in front of it are ruled out, for later rounds too, and with a cautious policy
/// those that failed because of their stages go on counting.
pub proof fn the_first_choice_that_fits_is_merged(
    d: Design,
    pol: Policy,
    st: Merging,
    i: int,
    cs: Seq<(usize, usize, usize)>,
    s: int,
    t: int,
)
    requires
        0 <= i < st.parts.len(),
        choices_ok(st, i, cs),
        0 <= s <= t < cs.len(),
        forall|k: int| s <= k < t ==> #[trigger] trial_fails(d, pol, st.parts, i, cs, k),
        !trial_fails(d, pol, st.parts, i, cs, t),
        in_trials(pol, s, t),
        pol.cautious ==> st.skips + too_deep(d, pol, st.parts, i, cs, s, t) < 5,
    ensures
        ({
            let (r, found) = try_choices(d, pol, st, i, cs, s);
            let j = cs[t].2 as int;
            &&& found
            &&& r.parts.len() == st.parts.len()
            &&& r.parts[i] == st.parts[i] + st.parts[j]
            &&& r.parts[j].len() == 0
            &&& forall|k: int|
                0 <= k < st.parts.len() && k != i && k != j ==> #[trigger] r.parts[k] == st.parts[k]
            &&& d.build(st.parts[i] + st.parts[j]) == Some(r.own)
            &&& r.skips == st.skips + (if pol.cautious {
                too_deep(d, pol, st.parts, i, cs, s, t)
            } else {
                0
            })
            &&& forall|x: usize| #[trigger]
                r.black.contains(x) <==> st.black.contains(x) || exists|k: int|
                    s <= k < t && (#[trigger] cs[k]).2 == x
        }),
    decreases t - s,
{
    assert(i < cs[s].2 && i < cs[t].2);
    if is_batch_start(s) {
        let k = lemma_batch_only(s);
        assert(batch(k) <= pol.max_trials);
    }
    if s < t {
        assert(trial_fails(d, pol, st.parts, i, cs, s));
        lemma_too_deep(d, pol, st.parts, i, cs, s, t);
        reveal_with_fuel(too_deep, 2);
        let j = cs[s].2;
        let next = match d.build(st.parts[i] + st.parts[j as int]) {
            None => ruled_out(st, j, false),
            Some(p) => ruled_out(st, j, pol.cautious),
        };
        assert(choices_ok(next, i, cs));
        the_first_choice_that_fits_is_merged(d, pol, next, i, cs, s + 1, t);
        let r = try_choices(d, pol, st, i, cs, s).0;
        assert forall|x: usize| #[trigger]
            r.black.contains(x) <==> st.black.contains(x) || exists|k: int|
                s <= k < t && (#[trigger] cs[k]).2 == x by {
            if x == j {
                assert(cs[s].2 == x);
            }
            assert(r.black.contains(x) <==> next.black.contains(x) || exists|k: int|
                s + 1 <= k < t && (#[trigger] cs[k]).2 == x);
        }
    }
}

/// Where the trials of all choices fail, as many as are made, none is merged and
/// each that was made rules its cluster out.
pub proof fn failed_trials_rule_their_clusters_out(
    d: Design,
    pol: Policy,
    st: Merging,
    i: int,
    cs: Seq<(usize, usize, usize)>,
    s: int,
    t: int,
)
    requires
        0 <= s,
        forall|k: int| s <= k < cs.len() ==> #[trigger] trial_fails(d, pol, st.parts, i, cs, k),
    ensures
        !try_choices(d, pol, st, i, cs, s).1,
        try_choices(d, pol, st, i, cs, s).0.parts == st.parts,
        try_choices(d, pol, st, i, cs, s).0.own == st.own,
        st.black.subset_of(try_choices(d, pol, st, i, cs, s).0.black),
        s <= t < cs.len() && !pol.cautious && in_trials(pol, s, t) ==> try_choices(
            d,
            pol,
            st,
            i,
            cs,
            s,
        ).0.black.contains(cs[t].2),
    decreases cs.len() - s,
{
    if s < cs.len() {
        if is_batch_start(s) {
            let k = lemma_batch_only(s);
            assert(s <= batch(k) <= s);
        }
        if !(is_batch_start(s) && s > pol.max_trials) {
            assert(trial_fails(d, pol, st.parts, i, cs, s));
            let j = cs[s].2;
            let next = match d.build(st.parts[i] + st.parts[j as int]) {
                None => ruled_out(st, j, false),
                Some(p) => ruled_out(st, j, pol.cautious),
            };
            failed_trials_rule_their_clusters_out(d, pol, next, i, cs, s + 1, t);
        }
    }
}

/// Merging goes on until every trial that is made fails: what is merged last
/// leaves no choice that fits.  With at most 28 clusters all choices are tried;
/// then every later cluster that is left was ruled out, unless the policy is
/// cautious.
pub proof fn merging_goes_on_until_nothing_fits(
    d: Design,
    pol: Policy,
    counts: Seq<nat>,
    st: Merging,
    i: int,
    j: int,
)
    requires
        merging_ok(st, i),
        st.parts.len() <= 28,
        pol.max_trials >= 20,
        !pol.cautious,
    ensures
        ({
            let r = merge_rounds(d, pol, counts, st, i);
            &&& r.parts.len() == st.parts.len()
            &&& st.black.subset_of(r.black)
            &&& i < j < st.parts.len() && r.parts[j].len() > 0 ==> r.black.contains(j as usize)
        }),
    decreases num_used(st.parts),
{
    let cs = choices(d, counts, st, i);
    lemma_choices(d, counts, st, i);
    lemma_try_choices(d, pol, st, i, cs, 0);
    let (r, found) = try_choices(d, pol, st, i, cs, 0);
    lemma_black_grows(d, pol, st, i, cs, 0);
    if found {
        assert(merging_ok(r, i)) by {
            let k = choose|k: int| #[trigger]
                crate::merge_model::merged_with(d, pol, st.parts, i, k, r);
            assert(r.parts[i] == st.parts[i] + st.parts[k]);
        }
        merging_goes_on_until_nothing_fits(d, pol, counts, r, i, j);
    } else {
        if i < j < st.parts.len() && r.parts[j].len() > 0 && !st.black.contains(j as usize) {
            lemma_few_choices(d, counts, st, i, st.parts.len() as int, j);
            let s = choices_upto(d, counts, st, i, st.parts.len() as int);
            lemma_orders();
            lemma_sort_contains(s, triple_le());
            let a = choose|a: int| 0 <= a < s.len() && (#[trigger] s[a]).2 == j;
            assert(s.contains(s[a]));
            assert(cs.contains(s[a]));
            let t = cs.index_of(s[a]);
            lemma_tried(d, pol, st, i, cs, 0, t);
        }
    }
}

/// There are fewer choices than clusters.
proof fn lemma_few_choices(d: Design, counts: Seq<nat>, st: Merging, i: int, end: int, j: int)
    requires
        0 <= i < st.parts.len() <= usize::MAX,
        end <= st.parts.len(),
    ensures
        choices_upto(d, counts, st, i, end).len() <= if end > i {
            end - i - 1
        } else {
            0
        },
        is_candidate(st, i, j) && j < end ==> exists|t: int|
            0 <= t < choices_upto(d, counts, st, i, end).len() && (#[trigger] choices_upto(
                d,
                counts,
                st,
                i,
                end,
            )[t]).2 == j,
    decreases end - i,
{
    if end > i + 1 {
        lemma_few_choices(d, counts, st, i, end - 1, j);
        let s = choices_upto(d, counts, st, i, end - 1);
        let r = choices_upto(d, counts, st, i, end);
        if is_candidate(st, i, j) && j < end {
            if j < end - 1 {
                let t = choose|t: int| 0 <= t < s.len() && (#[trigger] s[t]).2 == j;
                assert(r[t] == s[t]);
            } else {
                assert(r[s.len() as int].2 == j);
            }
        }
    }
}

/// Clusters stay ruled out.
proof fn lemma_black_grows(
    d: Design,
    pol: Policy,
    st: Merging,
    i: int,
    cs: Seq<(usize, usize, usize)>,
    s: int,
)
    ensures
        st.black.subset_of(try_choices(d, pol, st, i, cs, s).0.black),
    decreases cs.len() - s,
{
    if s >= cs.len() || (is_batch_start(s) && s > pol.max_trials) {
    } else {
        let j = cs[s].2;
        match d.build(st.parts[i] + st.parts[j as int]) {
            None => {
                lemma_black_grows(d, pol, ruled_out(st, j, false), i, cs, s + 1);
            },
            Some(p) => {
                lemma_black_grows(d, pol, ruled_out(st, j, pol.cautious), i, cs, s + 1);
            },
        }
    }
}

/// Where nothing is merged, every choice is ruled out.
proof fn lemma_tried(
    d: Design,
    pol: Policy,
    st: Merging,
    i: int,
    cs: Seq<(usize, usize, usize)>,
    s: int,
    t: int,
)
    requires
        0 <= s <= t < cs.len() <= 28,
        pol.max_trials >= 20,
        !pol.cautious,
        !try_choices(d, pol, st, i, cs, s).1,
    ensures
        try_choices(d, pol, st, i, cs, s).0.black.contains(cs[t].2),
    decreases cs.len() - s,
{
    if is_batch_start(s) {
        let k = lemma_batch_only(s);
        lemma2_to64();
        assert(batch(3) == 28);
        if k >= 3 {
            lemma_batches_rise(3, k);
        } else {
            lemma_batches_rise(k, 2);
            assert(batch(2) == 12);
        }
    }
    let j = cs[s].2;
    let next = match d.build(st.parts[i] + st.parts[j as int]) {
        None => ruled_out(st, j, false),
        Some(p) => ruled_out(st, j, pol.cautious),
    };
    assert(try_choices(d, pol, st, i, cs, s) == try_choices(d, pol, next, i, cs, s + 1));
    if s < t {
        lemma_tried(d, pol, next, i, cs, s + 1, t);
    } else {
        lemma_black_grows(d, pol, next, i, cs, s + 1);
    }
}

/// Later batches start later.
proof fn lemma_batches_rise(k: nat, l: nat)
    requires
        k <= l,
    ensures
        batch(k) <= batch(l),
    decreases l,
{
    if k < l {
        lemma_batches_rise(k, (l - 1) as nat);
        lemma_batch(l);
        lemma_batch((l - 1) as nat);
    }
}

/// The largest number of stages is that of a partition and no other has more;
/// likewise for the smallest.
pub proof fn lemma_stage_numbers(ps: Seq<Realization>, k: int)
    requires
        0 <= k < ps.len(),
    ensures
        fewest_stages(ps) <= ps[k].stages.len() <= most_stages(ps),
        exists|i: int| 0 <= i < ps.len() && (#[trigger] ps[i]).stages.len() == most_stages(ps),
        exists|i: int| 0 <= i < ps.len() && (#[trigger] ps[i]).stages.len() == fewest_stages(ps),
    decreases ps.len(),
{
    let front = ps.drop_last();
    let n = ps.len() - 1;
    if ps.len() > 1 {
        lemma_stage_numbers(front, if k < n {
            k
        } else {
            0
        });
        let i = choose|i: int|
            0 <= i < front.len() && (#[trigger] front[i]).stages.len() == most_stages(front);
        let j = choose|j: int|
            0 <= j < front.len() && (#[trigger] front[j]).stages.len() == fewest_stages(front);
        assert(ps[i] == front[i] && ps[j] == front[j]);
        assert(ps[n] == ps.last());
        assert(ps[k] == if k < n {
            front[k]
        } else {
            ps[n]
        });
    } else {
        assert(ps[0].stages.len() == most_stages(ps)) by {
            assert(most_stages(front) == 0);
        }
    }
}

/// What the policies allow.  `most` and `fewest` are the largest and the smallest
/// number of stages of the partitions before merging.  A merged partition may
/// have `degrad` stages more than the most; with the conditional policies one
/// more still where the two differ by two or more, or where there are more than
/// 1000 partitions.  At least 20 candidates are tried, and an eighth of the
/// partitions where that is more.  Only the policy that skips is cautious, and
/// it leaves the partitions with the most stages alone where there are more
/// than 1000.
pub proof fn policies_allow_few_stages_more(
    ps: Seq<Realization>,
    degrad: int,
    most: int,
    fewest: int,
)
    requires
        exists|i: int| 0 <= i < ps.len() && (#[trigger] ps[i]).stages.len() == most,
        exists|i: int| 0 <= i < ps.len() && (#[trigger] ps[i]).stages.len() == fewest,
        forall|i: int| 0 <= i < ps.len() ==> fewest <= (#[trigger] ps[i]).stages.len() <= most,
    ensures
        ({
            let plain = plain_policy(ps, degrad);
            let relaxed = relaxed_policy(ps, degrad);
            let skipping = skipping_policy(ps, degrad);
            let more = most >= fewest + 2 || ps.len() > 1000;
            &&& plain.max_stages == most + degrad
            &&& more ==> relaxed.max_stages == most + degrad + 1
            &&& !more ==> relaxed.max_stages == most + degrad
            &&& skipping.max_stages == relaxed.max_stages
            &&& plain.max_trials >= 20
            &&& ps.len() < 168 ==> plain.max_trials == 20
            &&& ps.len() >= 160 ==> 8 * plain.max_trials <= ps.len() < 8 * plain.max_trials + 8
            &&& relaxed.max_trials == plain.max_trials
            &&& skipping.max_trials == plain.max_trials
            &&& !plain.cautious && !relaxed.cautious && skipping.cautious
            &&& plain.frozen is None && relaxed.frozen is None
            &&& ps.len() > 1000 ==> skipping.frozen == Some(most)
            &&& ps.len() <= 1000 ==> skipping.frozen is None
        }),
{
    let i = choose|i: int| 0 <= i < ps.len() && (#[trigger] ps[i]).stages.len() == most;
    let j = choose|j: int| 0 <= j < ps.len() && (#[trigger] ps[j]).stages.len() == fewest;
    lemma_stage_numbers(ps, i);
    lemma_stage_numbers(ps, j);
}

/// Partitions are ordered by their stages, the most first, and those with equally
/// many stay as they stand: where `at[k]` is the place that the `k`-th had
/// before, places of partitions with as many stages rise.
pub proof fn deeper_partitions_come_first(ps: Seq<Realization>)
    requires
        ps.len() <= usize::MAX,
        forall|k: int| 0 <= k < ps.len() ==> (#[trigger] ps[k]).stages.len() <= usize::MAX,
    ensures
        exists|at: Seq<usize>| {
            &&& at.len() == ps.len()
            &&& at.no_duplicates()
            &&& #[trigger] places(ps, by_stages(ps), at)
        },
{
    let s = stage_keys(ps);
    let keys = sorted_pairs(s);
    let r = by_stages(ps);
    lemma_orders();
    lemma_sort_contains(s, pair_le());
    assert(s.no_duplicates());
    lemma_sorted_distinct(s, pair_le());
    let at = keys.map_values(|k: (usize, usize)| k.1);
    assert forall|k: int| 0 <= k < keys.len() implies {
        &&& (#[trigger] keys[k]).1 < ps.len()
        &&& keys[k] == s[keys[k].1 as int]
    } by {
        assert(keys.contains(keys[k]));
        let i = s.index_of(keys[k]);
        assert(s[i] == keys[k]);
    }
    assert(at.no_duplicates()) by {
        assert forall|a: int, b: int| 0 <= a < at.len() && 0 <= b < at.len() && a != b implies at[a]
            != at[b] by {
            assert(keys[a] != keys[b]);
        }
    }
    assert(places(ps, r, at)) by {
        assert forall|k: int, l: int| 0 <= k < l < r.len() implies {
            &&& (#[trigger] r[k]).stages.len() >= (#[trigger] r[l]).stages.len()
            &&& r[k].stages.len() == r[l].stages.len() ==> at[k] < at[l]
        } by {
            assert(pair_le()(keys[k], keys[l]));
            assert(keys[k] != keys[l]);
        }
    }
}

/// `r` are the partitions of `ps` in the places `at`, ordered.
pub open spec fn places(ps: Seq<Realization>, r: Seq<Realization>, at: Seq<usize>) -> bool {
    &&& r.len() == ps.len()
    &&& at.len() == ps.len()
    &&& forall|k: int| 0 <= k < r.len() ==> #[trigger] at[k] < ps.len() && r[k] == ps[at[k] as int]
    &&& forall|k: int, l: int|
        0 <= k < l < r.len() ==> {
            &&& (#[trigger] r[k]).stages.len() >= (#[trigger] r[l]).stages.len()
            &&& r[k].stages.len() == r[l].stages.len() ==> at[k] < at[l]
        }
}

/// A clustering is given up exactly if some cluster cannot be mapped; otherwise
/// every cluster has the partition that is built for it.
pub proof fn one_bad_cluster_spoils_a_clustering(d: Design, parts: Seq<Seq<usize>>)
    ensures
        build_all(d, parts) is None <==> exists|k: int|
            0 <= k < parts.len() && d.build(#[trigger] parts[k]) is None,
        build_all(d, parts) matches Some(ps) ==> ps.len() == parts.len() && forall|k: int|
            0 <= k < parts.len() ==> d.build(#[trigger] parts[k]) == Some(ps[k]),
    decreases parts.len(),
{
    if parts.len() > 0 {
        let front = parts.drop_last();
        let n = parts.len() - 1;
        one_bad_cluster_spoils_a_clustering(d, front);
        assert(parts[n] == parts.last());
        if build_all(d, front) is None {
            let k = choose|k: int| 0 <= k < front.len() && d.build(#[trigger] front[k]) is None;
            assert(parts[k] == front[k]);
        }
        if exists|k: int| 0 <= k < parts.len() && d.build(#[trigger] parts[k]) is None {
            let k = choose|k: int| 0 <= k < parts.len() && d.build(#[trigger] parts[k]) is None;
            if k < n {
                assert(front[k] == parts[k]);
            }
        }
        if let Some(ps) = build_all(d, parts) {
            let some = build_all(d, front).unwrap();
            assert forall|k: int| 0 <= k < parts.len() implies d.build(#[trigger] parts[k]) == Some(
                ps[k],
            ) by {
                if k < n {
                    assert(front[k] == parts[k]);
                }
            }
        }
    }
}

/// A cluster without endpoints is passed over.  A cluster whose partition has as
/// many stages as the policy freezes keeps it; any other gets the partition that
/// merging leaves it with, and the clusters behind it are what merging left of
/// them.
pub proof fn clusters_are_merged_in_turn(
    d: Design,
    pol: Policy,
    counts: Seq<nat>,
    originals: Seq<Realization>,
    parts: Seq<Seq<usize>>,
    i: int,
)
    requires
        0 <= i < originals.len() <= parts.len(),
    ensures
        ({
            let r = merge_from(d, pol, counts, originals, parts, i);
            let st = Merging { parts, own: originals[i], black: Set::empty(), skips: 0 };
            let m = merge_rounds(d, pol, counts, st, i);
            let rest = merge_from(d, pol, counts, originals, m.parts, i + 1);
            &&& parts[i].len() == 0 ==> r == merge_from(d, pol, counts, originals, parts, i + 1)
            &&& parts[i].len() > 0 && pol.frozen == Some(originals[i].stages.len() as int) ==> r[0]
                == originals[i] && r.skip(1) == merge_from(
                d,
                pol,
                counts,
                originals,
                parts,
                i + 1,
            )
            &&& parts[i].len() > 0 && pol.frozen != Some(originals[i].stages.len() as int) ==> r[0]
                == m.own && r.skip(1) == rest
        }),
{
    let r = merge_from(d, pol, counts, originals, parts, i);
    if parts[i].len() > 0 {
        let st = merge_one(d, pol, counts, parts, originals[i], i);
        let rest = merge_from(d, pol, counts, originals, st.parts, i + 1);
        assert(r == seq![st.own] + rest);
        assert(r.skip(1) =~= rest);
    }
}

/// The sizes by which candidates are weighed are those of the clusters.
pub proof fn sizes_are_those_of_the_clusters(
    aig: AIG,
    staged: StagedAIG,
    parts: Seq<Seq<usize>>,
    k: int,
)
    requires
        staged.wf(aig),
        parts_ok(staged.endpoints@, parts),
        0 <= k < parts.len(),
    ensures
        cone_lens(design(aig, staged), parts).len() == parts.len(),
        cone_lens(design(aig, staged), parts)[k] == nodes_behind(aig, staged, parts[k]).len(),
{
    assert(ids_ok(staged.endpoints@, parts[k]));
    clusters_are_as_large_as_their_logic(aig, staged, parts[k]);
}

/// A refinement merges the clusters from the first one on, weighed by their sizes,
/// and orders what comes out by its stages.
pub proof fn refinements_merge_from_the_first_cluster_on(
    d: Design,
    pol: Policy,
    originals: Seq<Realization>,
    parts: Seq<Seq<usize>>,
    counts: Seq<nat>,
)
    requires
        counts.len() == parts.len(),
        forall|k: int| 0 <= k < parts.len() ==> #[trigger] counts[k] == d.cone_len(parts[k]),
    ensures
        refined(d, pol, originals, parts) == by_stages(
            merge_from(d, pol, counts, originals, parts, 0),
        ),
{
    assert(cone_lens(d, parts) =~= counts);
}

/// No trial is made behind the last one: where a batch starts behind more trials
/// than wanted and all trials up to there fail, nothing is merged, whatever the
/// other choices are.
pub proof fn trials_end_with_their_batch(
    d: Design,
    pol: Policy,
    st: Merging,
    i: int,
    cs: Seq<(usize, usize, usize)>,
    s: int,
    k: nat,
)
    requires
        0 <= s <= batch(k),
        batch(k) > pol.max_trials,
        forall|t: int|
            s <= t < batch(k) && t < cs.len() ==> #[trigger] trial_fails(d, pol, st.parts, i, cs, t),
    ensures
        !try_choices(d, pol, st, i, cs, s).1,
        try_choices(d, pol, st, i, cs, s).0.parts == st.parts,
        try_choices(d, pol, st, i, cs, s).0.own == st.own,
    decreases batch(k) - s,
{
    lemma_batch(k);
    if s < batch(k) && s < cs.len() && !(is_batch_start(s) && s > pol.max_trials) {
        assert(trial_fails(d, pol, st.parts, i, cs, s));
        let j = cs[s].2;
        let next = match d.build(st.parts[i] + st.parts[j as int]) {
            None => ruled_out(st, j, false),
            Some(p) => ruled_out(st, j, pol.cautious),
        };
        assert forall|t: int| s + 1 <= t < batch(k) && t < cs.len() implies #[trigger] trial_fails(
            d,
            pol,
            next.parts,
            i,
            cs,
            t,
        ) by {
            assert(trial_fails(d, pol, st.parts, i, cs, t));
        }
        trials_end_with_their_batch(d, pol, next, i, cs, s + 1, k);
    }
}

/// With a cautious policy, the fifth trial that fails because of its stages ends
/// the merging of a cluster, whatever the other choices are.
pub proof fn cautious_merging_ends_with_the_fifth_deep_trial(
    d: Design,
    pol: Policy,
    st: Merging,
    i: int,
    cs: Seq<(usize, usize, usize)>,
    s: int,
    t: int,
)
    requires
        pol.cautious,
        0 <= s <= t < cs.len(),
        forall|k: int| s <= k <= t ==> #[trigger] trial_fails(d, pol, st.parts, i, cs, k),
        st.skips + too_deep(d, pol, st.parts, i, cs, s, t + 1) >= 5,
        st.skips < 5,
    ensures
        !try_choices(d, pol, st, i, cs, s).1,
        try_choices(d, pol, st, i, cs, s).0.parts == st.parts,
        try_choices(d, pol, st, i, cs, s).0.own == st.own,
    decreases t - s,
{
    assert(trial_fails(d, pol, st.parts, i, cs, s));
    lemma_too_deep(d, pol, st.parts, i, cs, s, t + 1);
    reveal_with_fuel(too_deep, 2);
    let j = cs[s].2;
    let deep = d.build(st.parts[i] + st.parts[j as int]) is Some;
    let next = ruled_out(st, j, deep);
    if !(is_batch_start(s) && s > pol.max_trials) && next.skips < 5 {
        assert(s < t) by {
            if s == t {
                assert(too_deep(d, pol, st.parts, i, cs, s + 1, t + 1) == 0);
            }
        }
        assert forall|k: int| s + 1 <= k <= t implies #[trigger] trial_fails(
            d,
            pol,
            next.parts,
            i,
            cs,
            k,
        ) by {
            assert(trial_fails(d, pol, st.parts, i, cs, k));
        }
        cautious_merging_ends_with_the_fifth_deep_trial(d, pol, next, i, cs, s + 1, t);
    }
}

} // verus!
