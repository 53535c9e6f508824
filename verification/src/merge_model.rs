//! How a clustering of endpoints is refined by merging.
//!
//! The clusters are taken in turn.  Each one is merged with later clusters as
//! long as the merged cluster can still be mapped without too many stages; the
//! candidates are tried in the order of the logic that merging them adds.
use crate::aig::{cone_order, DriverType};
use crate::pe::{can_realize, realization, Realization};
use crate::seqs::{lemma_tally_update, tally};
use crate::sorts::{lemma_orders, lemma_sort_contains, sorted_pairs, sorted_triples, triple_le};
use crate::staging::{inputs_of, EndpointGroup};
use vstd::prelude::*;

verus! {

/// With more partitions than this, merging is relaxed.
pub const TOO_MANY_PARTITIONS2: usize = 1000;

/// With this many candidates rejected for their stages, a cautious merge stops.
pub const MAX_STAGE_SKIPS: usize = 5;

/// What partitions are built from.
pub struct Design {
    pub drivers: Seq<DriverType>,
    pub sources: Set<usize>,
    pub groups: Seq<EndpointGroup>,
}

impl Design {
    /// The partition of endpoints, if they can be mapped.
    pub open spec fn build(self, ids: Seq<usize>) -> Option<Realization> {
        realization(self.drivers, self.sources, self.groups, ids)
    }

    /// Whether endpoints can be realized: no stage has to place a constant above
    /// row 0.
    pub open spec fn can_build(self, ids: Seq<usize>) -> bool {
        can_realize(self.drivers, self.sources, self.groups, ids)
    }

    /// The number of nodes that endpoints depend on.
    pub open spec fn cone_len(self, ids: Seq<usize>) -> nat {
        cone_order(self.drivers, self.sources, inputs_of(self.groups, ids)).len()
    }
}

/// How clusters are merged.
pub struct Policy {
    /// The number of stages that a merged partition may have.
    pub max_stages: int,
    /// How many candidates are tried at least.
    pub max_trials: int,
    /// Whether to give up after several candidates with too many stages.
    pub cautious: bool,
    /// A cluster whose partition has this many stages is not merged.
    pub frozen: Option<int>,
}

/// Trials are made in batches, each twice as large as the one before it; the
/// first has four.
pub open spec fn is_batch_start(t: int) -> bool
    decreases t,
{
    t == 0 || (t >= 4 && t % 2 == 0 && is_batch_start((t - 4) / 2))
}

/// How far the merging of one cluster has come.
pub struct Merging {
    pub parts: Seq<Seq<usize>>,
    /// The partition of the cluster.
    pub own: Realization,
    /// The clusters that it cannot be merged with.
    pub black: Set<usize>,
    /// How many of them would have had too many stages, where that counts.
    pub skips: int,
}

/// The cost of merging cluster `j` into cluster `i`, if that is a choice: the
/// nodes that are added to the larger of the two, the nodes in all, and `j`.
pub open spec fn choice(
    d: Design,
    counts: Seq<nat>,
    st: Merging,
    i: int,
    j: int,
) -> Option<(usize, usize, usize)> {
    if st.parts[j].len() == 0 || st.black.contains(j as usize) {
        None
    } else {
        let n = d.cone_len(st.parts[i] + st.parts[j]);
        let own = d.cone_len(st.parts[i]);
        let larger = if counts[j] >= own {
            counts[j]
        } else {
            own
        };
        Some(((n - larger) as usize, n as usize, j as usize))
    }
}

/// The choices for cluster `i` among the clusters before `end`.
pub open spec fn choices_upto(
    d: Design,
    counts: Seq<nat>,
    st: Merging,
    i: int,
    end: int,
) -> Seq<(usize, usize, usize)>
    decreases end - i,
{
    if end <= i + 1 {
        Seq::empty()
    } else {
        let s = choices_upto(d, counts, st, i, end - 1);
        match choice(d, counts, st, i, end - 1) {
            Some(c) => s.push(c),
            None => s,
        }
    }
}

/// The choices for cluster `i`, the cheapest first.
pub open spec fn choices(
    d: Design,
    counts: Seq<nat>,
    st: Merging,
    i: int,
) -> Seq<(usize, usize, usize)> {
    sorted_triples(choices_upto(d, counts, st, i, st.parts.len() as int))
}

/// The state after cluster `j` was ruled out.
pub open spec fn ruled_out(st: Merging, j: usize, counted: bool) -> Merging {
    Merging {
        parts: st.parts,
        own: st.own,
        black: st.black.insert(j),
        skips: if counted {
            st.skips + 1
        } else {
            st.skips
        },
    }
}

/// The clusters with cluster `j` moved into cluster `i`.
pub open spec fn joined(parts: Seq<Seq<usize>>, i: int, j: int) -> Seq<Seq<usize>> {
    parts.update(i, parts[i] + parts[j]).update(j, Seq::empty())
}

/// The state after cluster `j` was merged into cluster `i`.
pub open spec fn merged(st: Merging, i: int, j: int, p: Realization) -> Merging {
    Merging {
        parts: joined(st.parts, i, j),
        own: p,
        black: st.black,
        skips: st.skips,
    }
}

/// Tries the choices from the `t`-th on until one can be merged; the state and
/// whether one was.
pub open spec fn try_choices(
    d: Design,
    pol: Policy,
    st: Merging,
    i: int,
    cs: Seq<(usize, usize, usize)>,
    t: int,
) -> (Merging, bool)
    decreases cs.len() - t,
{
    if t >= cs.len() || (is_batch_start(t) && t > pol.max_trials) {
        (st, false)
    } else {
        let j = cs[t].2;
        match d.build(st.parts[i] + st.parts[j as int]) {
            None => try_choices(d, pol, ruled_out(st, j, false), i, cs, t + 1),
            Some(p) => if p.stages.len() <= pol.max_stages {
                (merged(st, i, j as int, p), true)
            } else {
                let next = ruled_out(st, j, pol.cautious);
                if pol.cautious && next.skips >= MAX_STAGE_SKIPS {
                    (next, false)
                } else {
                    try_choices(d, pol, next, i, cs, t + 1)
                }
            },
        }
    }
}

/// The end of the batch of trials that starts with the `t`-th of `n` choices.
pub open spec fn batch_end(t: int, n: int) -> int {
    if 2 * t + 4 <= n {
        2 * t + 4
    } else {
        n
    }
}

/// Whether the endpoints of cluster `i` and the `t`-th choice can be realized
/// together.
pub open spec fn trial_fits(
    d: Design,
    parts: Seq<Seq<usize>>,
    i: int,
    cs: Seq<(usize, usize, usize)>,
    t: int,
) -> bool {
    d.can_build(parts[i] + parts[cs[t].2 as int])
}

/// Whether the endpoints of every trial that is made from the `t`-th choice on
/// can be realized.  The trials of a batch are all made.
pub open spec fn trials_fit(
    d: Design,
    pol: Policy,
    st: Merging,
    i: int,
    cs: Seq<(usize, usize, usize)>,
    t: int,
) -> bool
    decreases cs.len() - t,
{
    if t >= cs.len() || (is_batch_start(t) && t > pol.max_trials) {
        true
    } else {
        let j = cs[t].2;
        &&& is_batch_start(t) ==> forall|k: int|
            t <= k < batch_end(t, cs.len() as int) ==> #[trigger] trial_fits(
                d,
                st.parts,
                i,
                cs,
                k,
            )
        &&& match d.build(st.parts[i] + st.parts[j as int]) {
            None => trials_fit(d, pol, ruled_out(st, j, false), i, cs, t + 1),
            Some(p) => if p.stages.len() <= pol.max_stages {
                true
            } else {
                let next = ruled_out(st, j, pol.cautious);
                (pol.cautious && next.skips >= MAX_STAGE_SKIPS) || trials_fit(
                    d,
                    pol,
                    next,
                    i,
                    cs,
                    t + 1,
                )
            },
        }
    }
}

/// Whether a cluster has endpoints.
pub open spec fn is_used() -> spec_fn(Seq<usize>) -> bool {
    |p: Seq<usize>| p.len() > 0
}

/// The number of clusters that have endpoints.
pub open spec fn num_used(parts: Seq<Seq<usize>>) -> nat {
    tally(parts, is_used())
}

/// The choices are other clusters that have endpoints.
pub open spec fn choices_ok(st: Merging, i: int, cs: Seq<(usize, usize, usize)>) -> bool {
    forall|t: int|
        0 <= t < cs.len() ==> i < (#[trigger] cs[t]).2 < st.parts.len() && st.parts[
            cs[t].2 as int
        ].len() > 0
}

/// Every candidate is a later cluster with endpoints.
pub proof fn lemma_choices_upto(d: Design, counts: Seq<nat>, st: Merging, i: int, end: int)
    requires
        0 <= i < st.parts.len(),
        end <= st.parts.len() <= usize::MAX,
    ensures
        choices_ok(st, i, choices_upto(d, counts, st, i, end)),
    decreases end - i,
{
    if end > i + 1 {
        lemma_choices_upto(d, counts, st, i, end - 1);
    }
}

/// The choices for a cluster are later clusters that have endpoints.
pub proof fn lemma_choices(d: Design, counts: Seq<nat>, st: Merging, i: int)
    requires
        0 <= i < st.parts.len() <= usize::MAX,
    ensures
        choices_ok(st, i, choices(d, counts, st, i)),
{
    let s = choices_upto(d, counts, st, i, st.parts.len() as int);
    let cs = choices(d, counts, st, i);
    lemma_choices_upto(d, counts, st, i, st.parts.len() as int);
    lemma_orders();
    lemma_sort_contains(s, triple_le());
    assert forall|t: int| 0 <= t < cs.len() implies i < (#[trigger] cs[t]).2 < st.parts.len()
        && st.parts[cs[t].2 as int].len() > 0 by {
        assert(cs.contains(cs[t]));
        assert(s[s.index_of(cs[t])] == cs[t]);
    }
}

/// `r` is the state after cluster `j` was merged into cluster `i`.
pub open spec fn merged_with(
    d: Design,
    pol: Policy,
    parts: Seq<Seq<usize>>,
    i: int,
    j: int,
    r: Merging,
) -> bool {
    &&& i < j < parts.len()
    &&& parts[j].len() > 0
    &&& r.parts == joined(parts, i, j)
    &&& d.build(parts[i] + parts[j]) == Some(r.own)
    &&& r.own.stages.len() <= pol.max_stages
}

/// A merge uses up a cluster; otherwise the clusters stay as they are.
pub proof fn lemma_try_choices(
    d: Design,
    pol: Policy,
    st: Merging,
    i: int,
    cs: Seq<(usize, usize, usize)>,
    t: int,
)
    requires
        0 <= i < st.parts.len(),
        choices_ok(st, i, cs),
        0 <= t,
    ensures
        ({
            let (r, found) = try_choices(d, pol, st, i, cs, t);
            &&& r.parts.len() == st.parts.len()
            &&& !found ==> r.parts == st.parts && r.own == st.own
            &&& found && st.parts[i].len() > 0 ==> num_used(r.parts) < num_used(st.parts)
            &&& found ==> exists|j: int| #[trigger] merged_with(d, pol, st.parts, i, j, r)
        }),
    decreases cs.len() - t,
{
    if t >= cs.len() || (is_batch_start(t) && t > pol.max_trials) {
    } else {
        let j = cs[t].2;
        match d.build(st.parts[i] + st.parts[j as int]) {
            None => {
                let next = ruled_out(st, j, false);
                lemma_try_choices(d, pol, next, i, cs, t + 1);
            },
            Some(p) => {
                if p.stages.len() <= pol.max_stages {
                    let ij = st.parts[i] + st.parts[j as int];
                    let a = st.parts.update(i, ij);
                    lemma_tally_update(st.parts, is_used(), i, ij);
                    lemma_tally_update(a, is_used(), j as int, Seq::empty());
                    assert(merged_with(d, pol, st.parts, i, j as int, merged(st, i, j as int, p)));
                } else {
                    let next = ruled_out(st, j, pol.cautious);
                    if !(pol.cautious && next.skips >= MAX_STAGE_SKIPS) {
                        lemma_try_choices(d, pol, next, i, cs, t + 1);
                    }
                }
            },
        }
    }
}

/// Merging can start with cluster `i`.
pub open spec fn merging_ok(st: Merging, i: int) -> bool {
    0 <= i < st.parts.len() <= usize::MAX && st.parts[i].len() > 0
}

/// Merges later clusters into cluster `i` until no choice can be merged.
pub open spec fn merge_rounds(
    d: Design,
    pol: Policy,
    counts: Seq<nat>,
    st: Merging,
    i: int,
) -> Merging
    decreases num_used(st.parts),
    when merging_ok(st, i)
    via merge_rounds_terminate
{
    let (r, found) = try_choices(d, pol, st, i, choices(d, counts, st, i), 0);
    if found {
        merge_rounds(d, pol, counts, r, i)
    } else {
        r
    }
}

#[via_fn]
proof fn merge_rounds_terminate(
    d: Design,
    pol: Policy,
    counts: Seq<nat>,
    st: Merging,
    i: int,
) {
    lemma_choices(d, counts, st, i);
    lemma_try_choices(d, pol, st, i, choices(d, counts, st, i), 0);
}

/// Whether the endpoints of every trial can be realized until no choice can be
/// merged into cluster `i`.
pub open spec fn rounds_fit(d: Design, pol: Policy, counts: Seq<nat>, st: Merging, i: int) -> bool
    decreases num_used(st.parts),
    when merging_ok(st, i)
    via rounds_fit_terminate
{
    let cs = choices(d, counts, st, i);
    let (r, found) = try_choices(d, pol, st, i, cs, 0);
    &&& trials_fit(d, pol, st, i, cs, 0)
    &&& found ==> rounds_fit(d, pol, counts, r, i)
}

#[via_fn]
proof fn rounds_fit_terminate(d: Design, pol: Policy, counts: Seq<nat>, st: Merging, i: int) {
    lemma_choices(d, counts, st, i);
    lemma_try_choices(d, pol, st, i, choices(d, counts, st, i), 0);
}

/// The merging of cluster `i`, whose partition is `own`.
pub open spec fn merge_one(
    d: Design,
    pol: Policy,
    counts: Seq<nat>,
    parts: Seq<Seq<usize>>,
    own: Realization,
    i: int,
) -> Merging {
    let st = Merging { parts, own, black: Set::empty(), skips: 0 };
    if pol.frozen == Some(own.stages.len() as int) {
        st
    } else {
        merge_rounds(d, pol, counts, st, i)
    }
}

/// The merged partitions of the clusters from `i` on, where `originals` are the
/// partitions before merging.
pub open spec fn merge_from(
    d: Design,
    pol: Policy,
    counts: Seq<nat>,
    originals: Seq<Realization>,
    parts: Seq<Seq<usize>>,
    i: int,
) -> Seq<Realization>
    decreases originals.len() - i,
{
    if i >= originals.len() {
        Seq::empty()
    } else if parts[i].len() == 0 {
        merge_from(d, pol, counts, originals, parts, i + 1)
    } else {
        let st = merge_one(d, pol, counts, parts, originals[i], i);
        seq![st.own] + merge_from(d, pol, counts, originals, st.parts, i + 1)
    }
}

/// Whether the endpoints of every trial can be realized as the clusters from `i`
/// on are merged.
pub open spec fn merges_fit(
    d: Design,
    pol: Policy,
    counts: Seq<nat>,
    originals: Seq<Realization>,
    parts: Seq<Seq<usize>>,
    i: int,
) -> bool
    decreases originals.len() - i,
{
    if i >= originals.len() {
        true
    } else if parts[i].len() == 0 {
        merges_fit(d, pol, counts, originals, parts, i + 1)
    } else {
        let own = originals[i];
        let st = merge_one(d, pol, counts, parts, own, i);
        &&& pol.frozen == Some(own.stages.len() as int) || rounds_fit(
            d,
            pol,
            counts,
            Merging { parts, own, black: Set::empty(), skips: 0 },
            i,
        )
        &&& merges_fit(d, pol, counts, originals, st.parts, i + 1)
    }
}

/// The partitions of the clusters, unless one cannot be mapped.
pub open spec fn build_all(d: Design, parts: Seq<Seq<usize>>) -> Option<Seq<Realization>>
    decreases parts.len(),
{
    if parts.len() == 0 {
        Some(Seq::empty())
    } else {
        match (build_all(d, parts.drop_last()), d.build(parts.last())) {
            (Some(s), Some(p)) => Some(s.push(p)),
            _ => None,
        }
    }
}

/// The largest number of stages.
pub open spec fn most_stages(ps: Seq<Realization>) -> int
    decreases ps.len(),
{
    if ps.len() == 0 {
        0
    } else {
        let m = most_stages(ps.drop_last());
        let n = ps.last().stages.len() as int;
        if n > m {
            n
        } else {
            m
        }
    }
}

/// The smallest number of stages.
pub open spec fn fewest_stages(ps: Seq<Realization>) -> int
    decreases ps.len(),
{
    if ps.len() == 0 {
        0
    } else {
        let m = fewest_stages(ps.drop_last());
        let n = ps.last().stages.len() as int;
        if ps.len() == 1 || n < m {
            n
        } else {
            m
        }
    }
}

/// How many of `n` clusters are tried at least.
pub open spec fn trials_for(n: int) -> int {
    if n / 8 >= 20 {
        n / 8
    } else {
        20
    }
}

/// The plain policy: no more stages than the partitions have before merging,
/// and `degrad`.
pub open spec fn plain_policy(ps: Seq<Realization>, degrad: int) -> Policy {
    Policy {
        max_stages: most_stages(ps) + degrad,
        max_trials: trials_for(ps.len() as int),
        cautious: false,
        frozen: None,
    }
}

/// One stage more is allowed where the numbers of stages differ by more than
/// one, or where there are too many partitions.
pub open spec fn relaxed_policy(ps: Seq<Realization>, degrad: int) -> Policy {
    let relaxed = most_stages(ps) - fewest_stages(ps) > 1 || ps.len() > TOO_MANY_PARTITIONS2;
    Policy {
        max_stages: most_stages(ps) + degrad + (if relaxed {
            1int
        } else {
            0int
        }),
        max_trials: trials_for(ps.len() as int),
        cautious: false,
        frozen: None,
    }
}

/// The relaxed policy, but a merge is given up after several candidates with
/// too many stages, and where there are too many partitions those with the most
/// stages are not merged into.
pub open spec fn skipping_policy(ps: Seq<Realization>, degrad: int) -> Policy {
    let pol = relaxed_policy(ps, degrad);
    Policy {
        max_stages: pol.max_stages,
        max_trials: pol.max_trials,
        cautious: true,
        frozen: if ps.len() > TOO_MANY_PARTITIONS2 {
            Some(most_stages(ps))
        } else {
            None
        },
    }
}

/// The keys by which partitions are ordered: the more stages the earlier, and
/// otherwise as they stand.
pub open spec fn stage_keys(ps: Seq<Realization>) -> Seq<(usize, usize)> {
    Seq::new(ps.len(), |i: int| ((usize::MAX - ps[i].stages.len()) as usize, i as usize))
}

/// The partitions with the most stages first.
pub open spec fn by_stages(ps: Seq<Realization>) -> Seq<Realization> {
    sorted_pairs(stage_keys(ps)).map_values(|k: (usize, usize)| ps[k.1 as int])
}

/// The numbers of nodes that the clusters depend on.
pub open spec fn cone_lens(d: Design, parts: Seq<Seq<usize>>) -> Seq<nat> {
    parts.map_values(|p: Seq<usize>| d.cone_len(p))
}

/// The refined partitions of a clustering, given how to merge.
pub open spec fn refined(
    d: Design,
    pol: Policy,
    originals: Seq<Realization>,
    parts: Seq<Seq<usize>>,
) -> Seq<Realization> {
    by_stages(merge_from(d, pol, cone_lens(d, parts), originals, parts, 0))
}

/// Whether the endpoints of every cluster can be realized.
pub open spec fn clusters_fit(d: Design, parts: Seq<Seq<usize>>) -> bool {
    forall|k: int| 0 <= k < parts.len() ==> d.can_build(#[trigger] parts[k])
}

/// Whether the endpoints of every trial that the refinement makes can be
/// realized.
pub open spec fn can_refine(
    d: Design,
    pol: Policy,
    originals: Seq<Realization>,
    parts: Seq<Seq<usize>>,
) -> bool {
    merges_fit(d, pol, cone_lens(d, parts), originals, parts, 0)
}

} // verus!
