//! How the ways of merging compare, and when merging can be carried out.
use crate::aig::AIG;
use crate::boomerang::{constants_are_shallow, lemma_stays_shallow};
use crate::merge::{design, parts_ok};
use crate::merge_model::{
    batch_end, build_all, by_stages, can_refine, choice, choices, choices_ok, choices_upto,
    clusters_fit, cone_lens, fewest_stages, is_batch_start, lemma_choices, lemma_try_choices,
    merge_from, merge_one, merge_rounds, merged_with, merges_fit, merging_ok, most_stages, num_used,
    plain_policy, refined, relaxed_policy, rounds_fit, ruled_out, skipping_policy, stage_keys,
    trial_fits, trials_fit, try_choices, Design, Merging, Policy, MAX_STAGE_SKIPS,
    TOO_MANY_PARTITIONS2,
};
use crate::pe::{shallow_constants_can_be_realized, Realization};
use crate::sorts::{lemma_orders, lemma_sort, lemma_sort_contains, pair_le, triple_le};
use crate::staging::{every_id, ids_ok, inputs_of, lemma_inputs_in_range, lemma_reader, StagedAIG};
use vstd::prelude::*;

use vstd::set_lib::lemma_len_subset;

verus! {

/// Where there are no more than a thousand clusters, and the numbers of their
/// stages differ by no more than one, the conditional policy is the plain one.
/// Otherwise it is the plain one with one stage more.
pub proof fn relaxing_allows_one_stage_more(ps: Seq<Realization>, degrad: int)
    ensures
        relaxed_policy(ps, degrad) == plain_policy(
            ps,
            if most_stages(ps) - fewest_stages(ps) > 1 || ps.len() > TOO_MANY_PARTITIONS2 {
                degrad + 1
            } else {
                degrad
            },
        ),
{
}

/// States that differ in what was skipped at most.
spec fn alike(a: Merging, b: Merging) -> bool {
    a.parts == b.parts && a.own == b.own && a.black == b.black
}

/// The choices do not depend on what was skipped.
proof fn lemma_choices_alike(d: Design, counts: Seq<nat>, a: Merging, b: Merging, i: int, end: int)
    requires
        alike(a, b),
    ensures
        choices_upto(d, counts, a, i, end) == choices_upto(d, counts, b, i, end),
    decreases end - i,
{
    if end > i + 1 {
        lemma_choices_alike(d, counts, a, b, i, end - 1);
    }
}

/// The numbers below `n`.
spec fn below(n: int) -> Set<usize> {
    Set::new(|x: usize| x < n)
}

/// There are `n` numbers below `n`.
proof fn lemma_below(n: int)
    requires
        0 <= n <= usize::MAX,
    ensures
        below(n).finite(),
        below(n).len() == n,
    decreases n,
{
    if n == 0 {
        assert(below(n) =~= Set::empty());
    } else {
        lemma_below(n - 1);
        assert(below(n) =~= below(n - 1).insert((n - 1) as usize));
    }
}

/// Candidates that were ruled out lie behind cluster `i`.
spec fn black_ok(st: Merging, i: int) -> bool {
    forall|x: usize| #[trigger] st.black.contains(x) ==> i < x < st.parts.len()
}

/// No more than five clusters can be ruled out where there are six.
proof fn lemma_black(st: Merging, i: int)
    requires
        0 <= i,
        st.parts.len() <= 6,
        black_ok(st, i),
    ensures
        st.black.finite(),
        st.black.len() <= 5,
{
    let n = st.parts.len() as int;
    lemma_below(n);
    let all = below(n).remove(0);
    assert(st.black.subset_of(all));
    lemma_len_subset(st.black, all);
    if n == 0 {
        assert(all =~= Set::empty());
    } else {
        assert(below(n).contains(0));
    }
}

/// The choices from the `t`-th on are different clusters that are not ruled out.
spec fn fresh_from(st: Merging, cs: Seq<(usize, usize, usize)>, t: int) -> bool {
    &&& forall|k: int| t <= k < cs.len() ==> !st.black.contains((#[trigger] cs[k]).2)
    &&& forall|k: int, l: int|
        t <= k < l < cs.len() ==> (#[trigger] cs[k]).2 != (#[trigger] cs[l]).2
}

/// Among the clusters before `end`, the choices are in ascending order.
proof fn lemma_choices_rise(d: Design, counts: Seq<nat>, st: Merging, i: int, end: int)
    requires
        0 <= i < st.parts.len(),
        end <= st.parts.len() <= usize::MAX,
    ensures
        ({
            let s = choices_upto(d, counts, st, i, end);
            &&& forall|k: int|
                0 <= k < s.len() ==> !st.black.contains((#[trigger] s[k]).2) && s[k].2 < end
            &&& forall|k: int, l: int|
                0 <= k < l < s.len() ==> (#[trigger] s[k]).2 < (#[trigger] s[l]).2
        }),
    decreases end - i,
{
    if end > i + 1 {
        lemma_choices_rise(d, counts, st, i, end - 1);
        let t = choices_upto(d, counts, st, i, end - 1);
        let s = choices_upto(d, counts, st, i, end);
        if let Some(c) = choice(d, counts, st, i, end - 1) {
            assert(c.2 == end - 1 && !st.black.contains(c.2));
            assert(s == t.push(c));
            assert forall|k: int| 0 <= k < s.len() implies !st.black.contains((#[trigger] s[k]).2)
                && s[k].2 < end by {
                if k < t.len() {
                    assert(s[k] == t[k]);
                }
            }
            assert forall|k: int, l: int| 0 <= k < l < s.len() implies (#[trigger] s[k]).2 < (
            #[trigger] s[l]).2 by {
                assert(s[k] == t[k]);
                if l < t.len() {
                    assert(s[l] == t[l]);
                }
            }
        }
    }
}

/// The choices are different clusters that are not ruled out.
proof fn lemma_choices_fresh(d: Design, counts: Seq<nat>, st: Merging, i: int)
    requires
        0 <= i < st.parts.len() <= usize::MAX,
    ensures
        fresh_from(st, choices(d, counts, st, i), 0),
{
    let s = choices_upto(d, counts, st, i, st.parts.len() as int);
    let cs = choices(d, counts, st, i);
    lemma_choices_rise(d, counts, st, i, st.parts.len() as int);
    lemma_orders();
    lemma_sort_contains(s, triple_le());
    assert(s.no_duplicates());
    s.lemma_multiset_has_no_duplicates();
    cs.lemma_multiset_has_no_duplicates_conv();
    assert forall|k: int| 0 <= k < cs.len() implies s.contains(#[trigger] cs[k]) by {
        assert(cs.contains(cs[k]));
    }
    assert forall|k: int, l: int| 0 <= k < l < cs.len() implies (#[trigger] cs[k]).2 != (
    #[trigger] cs[l]).2 by {
        assert(cs[k] != cs[l]);
        let p = s.index_of(cs[k]);
        let q = s.index_of(cs[l]);
        assert(s[p] == cs[k] && s[q] == cs[l]);
        assert(p != q);
    }
}

/// Two ways of merging that differ in caution only.
spec fn bolder(pol: Policy, cautious: Policy) -> bool {
    &&& pol.max_stages == cautious.max_stages
    &&& pol.max_trials == cautious.max_trials
    &&& pol.frozen is None
    &&& cautious.frozen is None
    &&& !pol.cautious
    &&& cautious.cautious
}

/// What is known of a bold and a cautious state of the merging of cluster `i`
/// among six clusters at most.
spec fn in_step(a: Merging, b: Merging, i: int) -> bool {
    &&& alike(a, b)
    &&& 0 <= i < a.parts.len() <= 6
    &&& black_ok(a, i)
    &&& b.skips <= a.black.len()
}

/// Caution stops at no choice that boldness would still take.
proof fn lemma_tries_agree(
    d: Design,
    pol: Policy,
    cautious: Policy,
    a: Merging,
    b: Merging,
    i: int,
    cs: Seq<(usize, usize, usize)>,
    t: int,
)
    requires
        bolder(pol, cautious),
        in_step(a, b, i),
        choices_ok(a, i, cs),
        fresh_from(a, cs, t),
        0 <= t,
    ensures
        ({
            let (r, found) = try_choices(d, pol, a, i, cs, t);
            let (q, same) = try_choices(d, cautious, b, i, cs, t);
            &&& found == same
            &&& in_step(r, q, i)
        }),
    decreases cs.len() - t,
{
    lemma_black(a, i);
    if t >= cs.len() || (is_batch_start(t) && t > pol.max_trials) {
    } else {
        let j = cs[t].2;
        match d.build(a.parts[i] + a.parts[j as int]) {
            None => {
                lemma_tries_agree(
                    d,
                    pol,
                    cautious,
                    ruled_out(a, j, false),
                    ruled_out(b, j, false),
                    i,
                    cs,
                    t + 1,
                );
            },
            Some(p) => {
                if p.stages.len() > pol.max_stages {
                    let next = ruled_out(a, j, false);
                    let wary = ruled_out(b, j, true);
                    assert(in_step(next, wary, i));
                    if wary.skips >= MAX_STAGE_SKIPS {
                        assert(t + 1 >= cs.len()) by {
                            if t + 1 < cs.len() {
                                let more = ruled_out(next, cs[t + 1].2, false);
                                assert(black_ok(more, i));
                                lemma_black(next, i);
                                lemma_black(more, i);
                                assert(!next.black.contains(cs[t + 1].2));
                            }
                        }
                        assert(try_choices(d, pol, next, i, cs, t + 1) == (next, false));
                    } else {
                        lemma_tries_agree(d, pol, cautious, next, wary, i, cs, t + 1);
                    }
                }
            },
        }
    }
}

/// A bold and a cautious merging of a cluster agree.
proof fn lemma_rounds_agree(
    d: Design,
    pol: Policy,
    cautious: Policy,
    counts: Seq<nat>,
    a: Merging,
    b: Merging,
    i: int,
)
    requires
        bolder(pol, cautious),
        in_step(a, b, i),
        a.parts[i].len() > 0,
    ensures
        alike(merge_rounds(d, pol, counts, a, i), merge_rounds(d, cautious, counts, b, i)),
    decreases num_used(a.parts),
{
    let cs = choices(d, counts, a, i);
    lemma_choices_alike(d, counts, a, b, i, a.parts.len() as int);
    assert(cs == choices(d, counts, b, i));
    lemma_choices(d, counts, a, i);
    lemma_choices_fresh(d, counts, a, i);
    lemma_tries_agree(d, pol, cautious, a, b, i, cs, 0);
    lemma_try_choices(d, pol, a, i, cs, 0);
    let (r, found) = try_choices(d, pol, a, i, cs, 0);
    let (q, same) = try_choices(d, cautious, b, i, cs, 0);
    if found {
        let j = choose|j: int| merged_with(d, pol, a.parts, i, j, r);
        assert(r.parts[i] == a.parts[i] + a.parts[j]);
        lemma_rounds_agree(d, pol, cautious, counts, r, q, i);
    }
}

/// Merging keeps the number of clusters.
proof fn lemma_rounds_len(d: Design, pol: Policy, counts: Seq<nat>, st: Merging, i: int)
    requires
        merging_ok(st, i),
    ensures
        merge_rounds(d, pol, counts, st, i).parts.len() == st.parts.len(),
    decreases num_used(st.parts),
{
    let cs = choices(d, counts, st, i);
    lemma_choices(d, counts, st, i);
    lemma_try_choices(d, pol, st, i, cs, 0);
    let (r, found) = try_choices(d, pol, st, i, cs, 0);
    if found {
        let j = choose|j: int| merged_with(d, pol, st.parts, i, j, r);
        assert(r.parts[i] == st.parts[i] + st.parts[j]);
        lemma_rounds_len(d, pol, counts, r, i);
    }
}

/// A bold and a cautious merging of few clusters agree.
proof fn lemma_merges_agree(
    d: Design,
    pol: Policy,
    cautious: Policy,
    counts: Seq<nat>,
    originals: Seq<Realization>,
    parts: Seq<Seq<usize>>,
    i: int,
)
    requires
        bolder(pol, cautious),
        0 <= i,
        originals.len() == parts.len(),
        parts.len() <= 6,
    ensures
        merge_from(d, pol, counts, originals, parts, i) == merge_from(
            d,
            cautious,
            counts,
            originals,
            parts,
            i,
        ),
    decreases originals.len() - i,
{
    if i < originals.len() {
        if parts[i].len() == 0 {
            lemma_merges_agree(d, pol, cautious, counts, originals, parts, i + 1);
        } else {
            let st = Merging { parts, own: originals[i], black: Set::empty(), skips: 0 };
            lemma_rounds_agree(d, pol, cautious, counts, st, st, i);
            lemma_rounds_len(d, pol, counts, st, i);
            let r = merge_one(d, pol, counts, parts, originals[i], i);
            lemma_merges_agree(d, pol, cautious, counts, originals, r.parts, i + 1);
        }
    }
}

/// For six clusters at most, the variant that skips gives what the conditional
/// one gives.
pub proof fn few_clusters_skip_nothing(
    d: Design,
    ps: Seq<Realization>,
    parts: Seq<Seq<usize>>,
    degrad: int,
)
    requires
        ps.len() == parts.len(),
        parts.len() <= 6,
    ensures
        refined(d, skipping_policy(ps, degrad), ps, parts) == refined(
            d,
            relaxed_policy(ps, degrad),
            ps,
            parts,
        ),
{
    lemma_merges_agree(
        d,
        relaxed_policy(ps, degrad),
        skipping_policy(ps, degrad),
        cone_lens(d, parts),
        ps,
        parts,
        0,
    );
}

/// Two clusters are merged if the partition of both can be mapped with no more
/// stages than allowed; otherwise both partitions stay, the one with more stages
/// first.
pub proof fn two_clusters_are_merged_if_they_fit(
    d: Design,
    x: Seq<usize>,
    y: Seq<usize>,
    px: Realization,
    py: Realization,
    degrad: int,
)
    requires
        x.len() > 0,
        y.len() > 0,
        d.build(x) == Some(px),
        d.build(y) == Some(py),
        px.stages.len() <= usize::MAX,
        py.stages.len() <= usize::MAX,
    ensures
        build_all(d, seq![x, y]) == Some(seq![px, py]),
        refined(d, plain_policy(seq![px, py], degrad), seq![px, py], seq![x, y]) == {
            let most = if px.stages.len() >= py.stages.len() {
                px.stages.len()
            } else {
                py.stages.len()
            };
            match d.build(x + y) {
                Some(m) if m.stages.len() <= most + degrad => seq![m],
                _ => if px.stages.len() >= py.stages.len() {
                    seq![px, py]
                } else {
                    seq![py, px]
                },
            }
        },
{
    let parts = seq![x, y];
    let ps = seq![px, py];
    let pol = plain_policy(ps, degrad);
    let counts = cone_lens(d, parts);
    reveal_with_fuel(build_all, 3);
    reveal_with_fuel(most_stages, 3);
    assert(parts.drop_last() =~= seq![x]);
    assert(seq![x].drop_last() =~= Seq::empty());
    assert(Seq::empty().push(px).push(py) =~= ps);
    assert(ps.drop_last() =~= seq![px]);
    assert(seq![px].drop_last() =~= Seq::empty());
    assert(build_all(d, parts) == Some(ps));
    let st = Merging { parts, own: px, black: Set::empty(), skips: 0 };
    let cs = choices(d, counts, st, 0);
    lemma_one_choice(d, counts, st);
    reveal_with_fuel(try_choices, 2);
    assert(is_batch_start(0));
    let (r, found) = try_choices(d, pol, st, 0, cs, 0);
    reveal_with_fuel(merge_from, 3);
    if found {
        let p = d.build(x + y).unwrap();
        assert(r.parts =~= seq![x + y, Seq::empty()]);
        lemma_no_choice(d, pol, counts, r, 0);
        assert(merge_rounds(d, pol, counts, st, 0) == r);
        assert(merge_from(d, pol, counts, ps, parts, 0) =~= seq![p]);
        lemma_one_in_order(p);
    } else {
        assert(r.parts == parts && r.own == px);
        assert(merge_rounds(d, pol, counts, st, 0) == r);
        let st2 = Merging { parts, own: py, black: Set::empty(), skips: 0 };
        lemma_no_choice(d, pol, counts, st2, 1);
        assert(merge_from(d, pol, counts, ps, parts, 0) =~= ps);
        lemma_two_in_order(px, py);
    }
}

/// The only choice among two clusters.
proof fn lemma_one_choice(d: Design, counts: Seq<nat>, st: Merging)
    requires
        st.parts.len() == 2,
        st.parts[1].len() > 0,
        !st.black.contains(1),
    ensures
        choices(d, counts, st, 0).len() == 1,
        choices(d, counts, st, 0)[0].2 == 1,
{
    reveal_with_fuel(choices_upto, 3);
    let s = choices_upto(d, counts, st, 0, 2);
    assert(choices_upto(d, counts, st, 0, 1) =~= Seq::empty());
    assert(s.len() == 1 && s[0].2 == 1);
    lemma_orders();
    lemma_sort_contains(s, triple_le());
    let cs = choices(d, counts, st, 0);
    assert(cs.contains(cs[0]));
    assert(s.contains(cs[0]));
}

/// Without choices nothing is merged.
proof fn lemma_no_choice(d: Design, pol: Policy, counts: Seq<nat>, st: Merging, i: int)
    requires
        merging_ok(st, i),
        forall|j: int| i < j < st.parts.len() ==> (#[trigger] st.parts[j]).len() == 0,
    ensures
        merge_rounds(d, pol, counts, st, i) == st,
{
    let cs = choices(d, counts, st, i);
    lemma_choices(d, counts, st, i);
    assert(cs.len() == 0) by {
        if cs.len() > 0 {
            assert(st.parts[cs[0].2 as int].len() == 0);
        }
    }
}

/// One partition is in order.
proof fn lemma_one_in_order(p: Realization)
    ensures
        by_stages(seq![p]) == seq![p],
{
    let s = stage_keys(seq![p]);
    lemma_orders();
    lemma_sort(s, s, pair_le());
    assert(by_stages(seq![p]) =~= seq![p]);
}

/// Two partitions in order.
proof fn lemma_two_in_order(p: Realization, q: Realization)
    requires
        p.stages.len() <= usize::MAX,
        q.stages.len() <= usize::MAX,
    ensures
        by_stages(seq![p, q]) == if p.stages.len() >= q.stages.len() {
            seq![p, q]
        } else {
            seq![q, p]
        },
{
    broadcast use vstd::seq_lib::group_to_multiset_ensures;

    let s = stage_keys(seq![p, q]);
    lemma_orders();
    if p.stages.len() >= q.stages.len() {
        lemma_sort(s, s, pair_le());
        assert(by_stages(seq![p, q]) =~= seq![p, q]);
    } else {
        let t = seq![s[1], s[0]];
        assert(s =~= Seq::empty().push(s[0]).push(s[1]));
        assert(t =~= Seq::empty().push(s[1]).push(s[0]));
        assert(t.to_multiset() =~= s.to_multiset());
        lemma_sort(s, t, pair_le());
        assert(by_stages(seq![p, q]) =~= seq![q, p]);
    }
}

/// Whatever endpoints are put together, they can be realized.
spec fn always_fits(d: Design) -> bool {
    forall|ids: Seq<usize>| #[trigger] ids_ok(d.groups, ids) ==> d.can_build(ids)
}

/// Then the trials can be realized.
proof fn lemma_trials_fit(
    d: Design,
    pol: Policy,
    st: Merging,
    i: int,
    cs: Seq<(usize, usize, usize)>,
    t: int,
)
    requires
        always_fits(d),
        parts_ok(d.groups, st.parts),
        0 <= i < st.parts.len(),
        choices_ok(st, i, cs),
        0 <= t,
    ensures
        trials_fit(d, pol, st, i, cs, t),
    decreases cs.len() - t,
{
    if t < cs.len() {
        let j = cs[t].2;
        assert forall|k: int|
            t <= k < batch_end(t, cs.len() as int) implies #[trigger] trial_fits(
            d,
            st.parts,
            i,
            cs,
            k,
        ) by {
            let a = st.parts[i];
            let b = st.parts[cs[k].2 as int];
            assert(ids_ok(d.groups, a) && ids_ok(d.groups, b));
            assert(ids_ok(d.groups, a + b));
        }
        lemma_trials_fit(d, pol, ruled_out(st, j, false), i, cs, t + 1);
        lemma_trials_fit(d, pol, ruled_out(st, j, pol.cautious), i, cs, t + 1);
    }
}

/// Then the rounds can be carried out.
proof fn lemma_rounds_fit(d: Design, pol: Policy, counts: Seq<nat>, st: Merging, i: int)
    requires
        always_fits(d),
        parts_ok(d.groups, st.parts),
        merging_ok(st, i),
    ensures
        rounds_fit(d, pol, counts, st, i),
        parts_ok(d.groups, merge_rounds(d, pol, counts, st, i).parts),
    decreases num_used(st.parts),
{
    let cs = choices(d, counts, st, i);
    lemma_choices(d, counts, st, i);
    lemma_try_choices(d, pol, st, i, cs, 0);
    lemma_trials_fit(d, pol, st, i, cs, 0);
    let (r, found) = try_choices(d, pol, st, i, cs, 0);
    if found {
        let j = choose|j: int| merged_with(d, pol, st.parts, i, j, r);
        assert(r.parts[i] == st.parts[i] + st.parts[j]);
        assert forall|q: int| 0 <= q < r.parts.len() implies ids_ok(
            d.groups,
            #[trigger] r.parts[q],
        ) by {
            assert(ids_ok(d.groups, st.parts[i]));
            assert(ids_ok(d.groups, st.parts[j]));
            if q != i && q != j {
                assert(r.parts[q] == st.parts[q]);
            }
        }
        lemma_rounds_fit(d, pol, counts, r, i);
    }
}

/// Then the merging can be carried out.
proof fn lemma_merges_fit(
    d: Design,
    pol: Policy,
    counts: Seq<nat>,
    originals: Seq<Realization>,
    parts: Seq<Seq<usize>>,
    i: int,
)
    requires
        always_fits(d),
        parts_ok(d.groups, parts),
        0 <= i,
        originals.len() == parts.len(),
        parts.len() <= usize::MAX,
    ensures
        merges_fit(d, pol, counts, originals, parts, i),
    decreases originals.len() - i,
{
    if i < originals.len() {
        if parts[i].len() == 0 {
            lemma_merges_fit(d, pol, counts, originals, parts, i + 1);
        } else {
            let st = Merging { parts, own: originals[i], black: Set::empty(), skips: 0 };
            lemma_rounds_fit(d, pol, counts, st, i);
            lemma_rounds_len(d, pol, counts, st, i);
            let r = merge_one(d, pol, counts, parts, originals[i], i);
            lemma_merges_fit(d, pol, counts, originals, r.parts, i + 1);
        }
    }
}

/// Clusters can be refined, whatever the policy, where no and gate with a
/// constant literal, among the nodes that the endpoints of the design depend on,
/// reads another and gate.
pub proof fn shallow_constants_can_be_refined(
    aig: AIG,
    staged: StagedAIG,
    parts: Seq<Seq<usize>>,
    pol: Policy,
    originals: Seq<Realization>,
)
    requires
        staged.wf(aig),
        parts_ok(staged.endpoints@, parts),
        parts.len() <= usize::MAX,
        originals.len() == parts.len(),
        constants_are_shallow(
            aig.drivers@,
            staged.sources(),
            inputs_of(staged.endpoints@, every_id(staged.endpoints@.len())),
        ),
    ensures
        clusters_fit(design(aig, staged), parts),
        can_refine(design(aig, staged), pol, originals, parts),
{
    let d = design(aig, staged);
    let groups = staged.endpoints@;
    let all = inputs_of(groups, every_id(groups.len()));
    assert(groups.len() == staged.endpoints.len());
    assert(ids_ok(groups, every_id(groups.len())));
    lemma_inputs_in_range(aig.drivers@, groups, every_id(groups.len()));
    assert forall|ids: Seq<usize>| #[trigger] ids_ok(groups, ids) implies d.can_build(ids) by {
        let pins = inputs_of(groups, ids);
        assert forall|i: int| 0 <= i < pins.len() implies all.contains(#[trigger] pins[i]) by {
            lemma_reader(groups, ids, pins[i]);
            lemma_reader(groups, every_id(groups.len()), pins[i]);
            assert(pins.contains(pins[i]));
            let k = choose|k: int|
                0 <= k < ids.len() && groups[#[trigger] ids[k] as int].inputs@.contains(pins[i]);
            assert(every_id(groups.len())[ids[k] as int] == ids[k]);
        }
        lemma_stays_shallow(aig.drivers@, staged.sources(), all, staged.sources(), pins);
        shallow_constants_can_be_realized(aig, staged, ids);
    }
    lemma_merges_fit(d, pol, cone_lens(d, parts), originals, parts, 0);
}

} // verus!
