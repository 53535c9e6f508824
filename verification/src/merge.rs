//! Refining a clustering of endpoints.
use crate::aig::{cone_order, cone_order_is_monotone, stop_set, AIG};
use crate::layout::rows;
use crate::merge_model::{
    can_refine, clusters_fit, merges_fit, rounds_fit, trial_fits, trials_fit, build_all, by_stages,
    choice, choices, choices_ok, choices_upto, cone_lens, fewest_stages, is_batch_start, joined,
    lemma_choices, lemma_try_choices, merge_from, merge_one, merge_rounds, merged, merged_with,
    merging_ok, most_stages, num_used, plain_policy, refined, relaxed_policy, skipping_policy,
    stage_keys, try_choices, Design, Merging, Policy, MAX_STAGE_SKIPS, TOO_MANY_PARTITIONS2,
};
use crate::parallel::par_map;
use crate::pe::{Partition, Realization};
use crate::sorts::{
    lemma_orders, lemma_sort_contains, pair_le, sort_pairs, sort_triples, sorted_pairs,
};
use crate::staging::{ids_ok, inputs_of, lemma_inputs_in_range, EndpointGroup, StagedAIG};
use indexmap::IndexSet;
use std::collections::HashSet;
use vstd::prelude::*;

verus! {

/// What the endpoints of two lists read, one list after the other.
proof fn lemma_inputs_concat(groups: Seq<EndpointGroup>, a: Seq<usize>, b: Seq<usize>)
    ensures
        inputs_of(groups, a + b) == inputs_of(groups, a) + inputs_of(groups, b),
    decreases b.len(),
{
    if b.len() == 0 {
        assert(a + b =~= a);
        assert(inputs_of(groups, a) + inputs_of(groups, b) =~= inputs_of(groups, a));
    } else {
        lemma_inputs_concat(groups, a, b.drop_last());
        assert((a + b).drop_last() =~= a + b.drop_last());
        assert(inputs_of(groups, a + b) =~= inputs_of(groups, a) + inputs_of(groups, b));
    }
}

/// A batch start is followed by the one twice as far and four.
proof fn lemma_batch_gap(s: int, t: int)
    requires
        is_batch_start(s),
        0 <= s < t < 2 * s + 4,
    ensures
        !is_batch_start(t),
    decreases t,
{
    if is_batch_start(t) && s > 0 {
        lemma_batch_gap((s - 4) / 2, (t - 4) / 2);
    }
}

/// The clusters name endpoints.
pub open spec fn parts_ok(groups: Seq<EndpointGroup>, parts: Seq<Seq<usize>>) -> bool {
    forall|j: int| 0 <= j < parts.len() ==> ids_ok(groups, #[trigger] parts[j])
}

/// The design that is partitioned.
pub open spec fn design(aig: AIG, staged: StagedAIG) -> Design {
    Design { drivers: aig.drivers@, sources: staged.sources(), groups: staged.endpoints@ }
}

/// Merging of clusters of one design.
struct Refiner<'a> {
    aig: &'a AIG,
    staged: &'a StagedAIG,
}

/// Two clusters depend on no fewer nodes than each of them.
pub proof fn lemma_cone_grows(aig: AIG, staged: StagedAIG, a: Seq<usize>, b: Seq<usize>)
    requires
        staged.wf(aig),
        ids_ok(staged.endpoints@, a),
        ids_ok(staged.endpoints@, b),
    ensures
        design(aig, staged).cone_len(a) <= design(aig, staged).cone_len(a + b),
        design(aig, staged).cone_len(b) <= design(aig, staged).cone_len(a + b),
{
    let groups = staged.endpoints@;
    let pa = inputs_of(groups, a);
    let pb = inputs_of(groups, b);
    let q = inputs_of(groups, a + b);
    lemma_inputs_concat(groups, a, b);
    assert(ids_ok(groups, a + b));
    lemma_inputs_in_range(aig.drivers@, groups, a + b);
    assert forall|i: int| 0 <= i < pa.len() implies q.contains(#[trigger] pa[i]) by {
        assert(q[i] == pa[i]);
    }
    assert forall|i: int| 0 <= i < pb.len() implies q.contains(#[trigger] pb[i]) by {
        assert(q[pa.len() + i] == pb[i]);
    }
    cone_order_is_monotone(aig.drivers@, staged.sources(), pa, q);
    cone_order_is_monotone(aig.drivers@, staged.sources(), pb, q);
}

impl<'a> Refiner<'a> {
    spec fn design(&self) -> Design {
        design(*self.aig, *self.staged)
    }

    spec fn wf(&self) -> bool {
        self.staged.wf(*self.aig)
    }

    /// The number of nodes that `pins` depend on.
    fn cone_len(&self, pins: &Vec<usize>) -> (n: usize)
        requires
            self.wf(),
            forall|i: int| 0 <= i < pins@.len() ==> #[trigger] pins@[i] < self.aig.drivers@.len(),
        ensures
            n == cone_order(self.aig.drivers@, self.staged.sources(), pins@).len(),
    {
        let stops: Option<&IndexSet<usize>> = match &self.staged.primary_inputs {
            Some(s) => Some(s),
            None => None,
        };
        assert(stop_set(stops) =~= self.staged.sources());
        self.aig.topo_traverse_generic(pins, stops).len()
    }

    /// The number of nodes that a cluster depends on.
    fn count_nodes(&self, ids: &Vec<usize>) -> (n: usize)
        requires
            self.wf(),
            ids_ok(self.staged.endpoints@, ids@),
        ensures
            n == self.design().cone_len(ids@),
    {
        let mut pins: Vec<usize> = Vec::new();
        self.staged.collect_inputs(ids, &mut pins);
        assert(pins@ =~= inputs_of(self.staged.endpoints@, ids@));
        proof {
            lemma_inputs_in_range(self.aig.drivers@, self.staged.endpoints@, ids@);
        }
        self.cone_len(&pins)
    }

    /// The number of nodes that each cluster depends on.
    fn count_all(&self, parts: &Vec<Vec<usize>>) -> (counts: Vec<usize>)
        requires
            self.wf(),
            parts_ok(self.staged.endpoints@, rows(parts@)),
        ensures
            nats(counts@) == cone_lens(self.design(), rows(parts@)),
    {
        let n: usize = parts.len();
        let f = |k: usize| -> (r: usize)
            requires
                k < n,
                n == parts@.len(),
                self.wf(),
                parts_ok(self.staged.endpoints@, rows(parts@)),
            ensures
                r == self.design().cone_len(rows(parts@)[k as int]),
            {
                assert(ids_ok(self.staged.endpoints@, rows(parts@)[k as int]));
                self.count_nodes(&parts[k])
            };
        let counts: Vec<usize> = par_map(n, f);
        assert(nats(counts@) =~= cone_lens(self.design(), rows(parts@)));
        counts
    }
}

/// The counts are those of the clusters behind `i` that have endpoints.
spec fn counts_fresh(d: Design, counts: Seq<usize>, parts: Seq<Seq<usize>>, i: int) -> bool {
    &&& counts.len() == parts.len()
    &&& forall|j: int|
        i < j < parts.len() && (#[trigger] parts[j]).len() > 0 ==> counts[j] == d.cone_len(parts[j])
}

/// How clusters are merged.
struct MergePolicy {
    /// The most stages that a partition has before merging.
    most: usize,
    /// How many more are allowed.
    degrad: usize,
    /// Whether one more is.
    extra: bool,
    max_trials: usize,
    cautious: bool,
    frozen: Option<usize>,
}

impl MergePolicy {
    /// How the clusters are merged.
    spec fn policy(&self) -> Policy {
        Policy {
            max_stages: self.most + self.degrad + (if self.extra {
                1int
            } else {
                0int
            }),
            max_trials: self.max_trials as int,
            cautious: self.cautious,
            frozen: match self.frozen {
                Some(n) => Some(n as int),
                None => None,
            },
        }
    }

    /// Whether a partition may have `n` stages.
    fn allows(&self, n: usize) -> (r: bool)
        ensures
            r == (n <= self.policy().max_stages),
    {
        n <= self.most || n - self.most <= self.degrad || (self.extra && n - self.most - 1
            <= self.degrad)
    }
}

/// The merging of one cluster.
struct MergeState {
    parts: Vec<Vec<usize>>,
    own: Partition,
    black: HashSet<usize>,
    skips: usize,
}

impl MergeState {
    /// How far the merging has come.
    spec fn state(&self) -> Merging {
        Merging {
            parts: rows(self.parts@),
            own: self.own@,
            black: self.black@,
            skips: self.skips as int,
        }
    }
}

/// The endpoints of two clusters.
fn concat(a: &Vec<usize>, b: &Vec<usize>) -> (r: Vec<usize>)
    ensures
        r@ == a@ + b@,
{
    let mut r: Vec<usize> = a.clone();
    assert(r@ =~= a@);
    let mut i: usize = 0;
    while i < b.len()
        invariant
            i <= b@.len(),
            r@ == a@ + b@.take(i as int),
        decreases b@.len() - i,
    {
        r.push(b[i]);
        i += 1;
        assert(r@ =~= a@ + b@.take(i as int));
    }
    assert(b@.take(i as int) =~= b@);
    r
}

/// A partition as the model has it.
spec fn built_as(r: Option<Partition>, p: Option<Realization>) -> bool {
    match p {
        None => r is None,
        Some(p) => r is Some && r.unwrap()@ == p,
    }
}

impl<'a> Refiner<'a> {
    /// What merging cluster `j` into cluster `i` costs.
    fn choice_at(
        &self,
        st: &MergeState,
        counts: &Vec<usize>,
        pins: &Vec<usize>,
        own_count: usize,
        i: usize,
        j: usize,
    ) -> (r: Option<(usize, usize, usize)>)
        requires
            self.wf(),
            parts_ok(self.staged.endpoints@, st.state().parts),
            i < j < st.parts@.len(),
            counts_fresh(self.design(), counts@, st.state().parts, i as int),
            pins@ == inputs_of(self.staged.endpoints@, st.state().parts[i as int]),
            own_count == self.design().cone_len(st.state().parts[i as int]),
        ensures
            r == choice(self.design(), nats(counts@), st.state(), i as int, j as int),
    {
        broadcast use vstd::std_specs::hash::group_hash_axioms;

        let ghost ps = st.state().parts;
        let ghost groups = self.staged.endpoints@;
        assert(ps[j as int] == st.parts@[j as int]@);
        if st.parts[j].len() == 0 || st.black.contains(&j) {
            return None;
        }
        let mut all: Vec<usize> = pins.clone();
        assert(all@ =~= pins@);
        assert(ids_ok(groups, ps[j as int]));
        assert(ids_ok(groups, ps[i as int]));
        self.staged.collect_inputs(&st.parts[j], &mut all);
        proof {
            lemma_inputs_concat(groups, ps[i as int], ps[j as int]);
            assert(ids_ok(groups, ps[i as int] + ps[j as int]));
            lemma_inputs_in_range(self.aig.drivers@, groups, ps[i as int] + ps[j as int]);
            lemma_cone_grows(*self.aig, *self.staged, ps[i as int], ps[j as int]);
        }
        let n: usize = self.cone_len(&all);
        let larger: usize = if counts[j] >= own_count {
            counts[j]
        } else {
            own_count
        };
        Some((n - larger, n, j))
    }

    /// The choices for cluster `i`, the cheapest first.
    fn choices(&self, st: &MergeState, counts: &Vec<usize>, i: usize) -> (cs: Vec<
        (usize, usize, usize),
    >)
        requires
            self.wf(),
            parts_ok(self.staged.endpoints@, st.state().parts),
            i < st.parts@.len(),
            counts_fresh(self.design(), counts@, st.state().parts, i as int),
        ensures
            cs@ == choices(self.design(), nats(counts@), st.state(), i as int),
    {
        let ghost d = self.design();
        let ghost ps = st.state().parts;
        assert(ids_ok(self.staged.endpoints@, ps[i as int]));
        let mut pins: Vec<usize> = Vec::new();
        self.staged.collect_inputs(&st.parts[i], &mut pins);
        assert(pins@ =~= inputs_of(self.staged.endpoints@, ps[i as int]));
        proof {
            lemma_inputs_in_range(self.aig.drivers@, self.staged.endpoints@, ps[i as int]);
        }
        let own_count: usize = self.cone_len(&pins);
        let n: usize = st.parts.len() - i - 1;
        let f = |k: usize| -> (r: Option<(usize, usize, usize)>)
            requires
                self.wf(),
                parts_ok(self.staged.endpoints@, st.state().parts),
                i < st.parts@.len(),
                n == st.parts@.len() - i - 1,
                k < n,
                counts_fresh(self.design(), counts@, st.state().parts, i as int),
                pins@ == inputs_of(self.staged.endpoints@, st.state().parts[i as int]),
                own_count == self.design().cone_len(st.state().parts[i as int]),
            ensures
                r == choice(self.design(), nats(counts@), st.state(), i as int, i + 1 + k),
            { self.choice_at(st, counts, &pins, own_count, i, i + 1 + k) };
        let found: Vec<Option<(usize, usize, usize)>> = par_map(n, f);
        let mut cs: Vec<(usize, usize, usize)> = Vec::new();
        let mut k: usize = 0;
        while k < n
            invariant
                k <= n,
                n == st.parts@.len() - i - 1,
                found@.len() == n,
                forall|q: int|
                    0 <= q < n ==> #[trigger] found@[q] == choice(
                        d,
                        nats(counts@),
                        st.state(),
                        i as int,
                        i + 1 + q,
                    ),
                cs@ == choices_upto(d, nats(counts@), st.state(), i as int, i + 1 + k),
            decreases n - k,
        {
            if let Some(c) = found[k] {
                cs.push(c);
            }
            assert(found@[k as int] == choice(
                d,
                nats(counts@),
                st.state(),
                i as int,
                i + 1 + k,
            ));
            k += 1;
        }
        sort_triples(&mut cs);
        cs
    }

    /// Tries the choices from `start` up to `end`.
    fn try_batch(
        &self,
        st: &MergeState,
        cs: &Vec<(usize, usize, usize)>,
        i: usize,
        start: usize,
        end: usize,
    ) -> (ps: Vec<Option<Partition>>)
        requires
            self.wf(),
            parts_ok(self.staged.endpoints@, st.state().parts),
            i < st.parts@.len(),
            choices_ok(st.state(), i as int, cs@),
            start <= end <= cs@.len(),
            forall|k: int|
                start <= k < end ==> #[trigger] trial_fits(
                    self.design(),
                    st.state().parts,
                    i as int,
                    cs@,
                    k,
                ),
        ensures
            ps@.len() == end - start,
            forall|k: int|
                0 <= k < end - start ==> built_as(
                    #[trigger] ps@[k],
                    self.design().build(
                        st.state().parts[i as int] + st.state().parts[cs@[start + k].2 as int],
                    ),
                ),
    {
        let n: usize = end - start;
        let f = |k: usize| -> (r: Option<Partition>)
            requires
                self.wf(),
                parts_ok(self.staged.endpoints@, st.state().parts),
                i < st.parts@.len(),
                choices_ok(st.state(), i as int, cs@),
                start <= end <= cs@.len(),
                n == end - start,
                k < n,
                trial_fits(self.design(), st.state().parts, i as int, cs@, start + k),
            ensures
                built_as(
                    r,
                    self.design().build(
                        st.state().parts[i as int] + st.state().parts[cs@[start + k].2 as int],
                    ),
                ),
            {
                let j: usize = cs[start + k].2;
                assert(i < cs@[start + k].2 < st.state().parts.len());
                let ids: Vec<usize> = concat(&st.parts[i], &st.parts[j]);
                assert(ids_ok(self.staged.endpoints@, st.state().parts[i as int]));
                assert(ids_ok(self.staged.endpoints@, st.state().parts[j as int]));
                assert(trial_fits(self.design(), st.state().parts, i as int, cs@, start + k));
                Partition::build_one(self.aig, self.staged, &ids)
            };
        par_map(n, f)
    }
}

impl<'a> Refiner<'a> {
    /// Tries the choices until one can be merged; whether one was.
    fn try_choices(
        &self,
        pol: &MergePolicy,
        st: &mut MergeState,
        cs: &Vec<(usize, usize, usize)>,
        i: usize,
    ) -> (found: bool)
        requires
            self.wf(),
            parts_ok(self.staged.endpoints@, old(st).state().parts),
            i < old(st).parts@.len(),
            choices_ok(old(st).state(), i as int, cs@),
            old(st).skips < MAX_STAGE_SKIPS,
            trials_fit(self.design(), pol.policy(), old(st).state(), i as int, cs@, 0),
        ensures
            (final(st).state(), found) == try_choices(
                self.design(),
                pol.policy(),
                old(st).state(),
                i as int,
                cs@,
                0,
            ),
            found ==> final(st).skips < MAX_STAGE_SKIPS,
    {
        broadcast use vstd::std_specs::hash::group_hash_axioms;

        let ghost d = self.design();
        let ghost want = try_choices(d, pol.policy(), st.state(), i as int, cs@, 0);
        let ghost ps = st.state().parts;
        let n: usize = cs.len();
        let mut batch: Vec<Option<Partition>> = Vec::new();
        let mut base: usize = 0;
        let mut next: usize = 0;
        let mut t: usize = 0;
        while t < n
            invariant
                self.wf(),
                d == self.design(),
                parts_ok(self.staged.endpoints@, ps),
                ps == st.state().parts,
                i < ps.len(),
                choices_ok(st.state(), i as int, cs@),
                st.skips < MAX_STAGE_SKIPS,
                n == cs@.len(),
                base <= t <= next <= n,
                t == 0 || base < t,
                t == 0 ==> next == 0,
                t > 0 ==> is_batch_start(base as int) && batch@.len() == next - base && (next
                    == 2 * base + 4 || (next == n && n < 2 * base + 4)),
                forall|k: int|
                    t - base <= k < batch@.len() ==> built_as(
                        #[trigger] batch@[k],
                        d.build(ps[i as int] + ps[cs@[base + k].2 as int]),
                    ),
                trials_fit(d, pol.policy(), st.state(), i as int, cs@, t as int),
                want == try_choices(d, pol.policy(), st.state(), i as int, cs@, t as int),
                want == try_choices(d, pol.policy(), old(st).state(), i as int, cs@, 0),
            decreases n - t,
        {
            proof {
                if t > 0 && t < next {
                    lemma_batch_gap(base as int, t as int);
                }
                if t > 0 && t == next {
                    assert(is_batch_start(2 * base + 4));
                }
            }
            assert(is_batch_start(t as int) <==> t == next);
            if t == next {
                if t > pol.max_trials {
                    return false;
                }
                let end: usize = if n - t <= 4 || n - t - 4 <= t {
                    n
                } else {
                    t + t + 4
                };
                batch = self.try_batch(st, cs, i, t, end);
                base = t;
                next = end;
            }
            assert(built_as(
                batch@[t - base],
                d.build(ps[i as int] + ps[cs@[base + (t - base)].2 as int]),
            ));
            let j: usize = cs[t].2;
            assert(i < cs@[t as int].2 < ps.len());
            let mut trial: Option<Partition> = None;
            std::mem::swap(&mut trial, &mut batch[t - base]);
            match trial {
                None => {
                    st.black.insert(j);
                },
                Some(p) => {
                    assert(p@.stages.len() == p.stages@.len());
                    if pol.allows(p.stages.len()) {
                        let ids: Vec<usize> = concat(&st.parts[i], &st.parts[j]);
                        assert(ids@ == ps[i as int] + ps[j as int]);
                        st.parts[i] = ids;
                        st.parts[j] = Vec::new();
                        st.own = p;
                        assert(rows(st.parts@) =~= joined(ps, i as int, j as int));
                        return true;
                    }
                    st.black.insert(j);
                    if pol.cautious {
                        st.skips += 1;
                        if st.skips >= MAX_STAGE_SKIPS {
                            return false;
                        }
                    }
                },
            }
            t += 1;
        }
        false
    }

    /// Merges later clusters into cluster `i` until no choice can be merged.
    fn merge_rounds(&self, pol: &MergePolicy, counts: &Vec<usize>, st: &mut MergeState, i: usize)
        requires
            self.wf(),
            parts_ok(self.staged.endpoints@, old(st).state().parts),
            merging_ok(old(st).state(), i as int),
            counts_fresh(self.design(), counts@, old(st).state().parts, i as int),
            old(st).skips < MAX_STAGE_SKIPS,
            rounds_fit(
                self.design(),
                pol.policy(),
                nats(counts@),
                old(st).state(),
                i as int,
            ),
        ensures
            final(st).state() == merge_rounds(
                self.design(),
                pol.policy(),
                nats(counts@),
                old(st).state(),
                i as int,
            ),
            parts_ok(self.staged.endpoints@, final(st).state().parts),
            final(st).parts@.len() == old(st).parts@.len(),
            counts_fresh(self.design(), counts@, final(st).state().parts, i as int),
    {
        let ghost d = self.design();
        let ghost want = merge_rounds(d, pol.policy(), nats(counts@), st.state(), i as int);
        let mut merging: bool = true;
        while merging
            invariant
                self.wf(),
                d == self.design(),
                parts_ok(self.staged.endpoints@, st.state().parts),
                merging_ok(st.state(), i as int),
                counts_fresh(d, counts@, st.state().parts, i as int),
                st.parts@.len() == old(st).parts@.len(),
                merging ==> st.skips < MAX_STAGE_SKIPS,
                merging ==> rounds_fit(d, pol.policy(), nats(counts@), st.state(), i as int),
                merging ==> want == merge_rounds(
                    d,
                    pol.policy(),
                    nats(counts@),
                    st.state(),
                    i as int,
                ),
                !merging ==> want == st.state(),
            decreases num_used(st.state().parts) + (if merging {
                1nat
            } else {
                0nat
            }),
        {
            let ghost before = st.state();
            proof {
                lemma_choices(d, nats(counts@), before, i as int);
                lemma_try_choices(
                    d,
                    pol.policy(),
                    before,
                    i as int,
                    choices(d, nats(counts@), before, i as int),
                    0,
                );
            }
            let cs: Vec<(usize, usize, usize)> = self.choices(st, counts, i);
            merging = self.try_choices(pol, st, &cs, i);
            proof {
                if merging {
                    let j = choose|j: int|
                        merged_with(
                            d,
                            pol.policy(),
                            before.parts,
                            i as int,
                            j,
                            st.state(),
                        );
                    lemma_joined(*self.staged, before.parts, i as int, j);
                    assert forall|q: int|
                        i < q < st.state().parts.len() && (#[trigger] st.state().parts[q]).len()
                            > 0 implies counts@[q] == d.cone_len(st.state().parts[q]) by {
                        assert(q != j);
                        assert(st.state().parts[q] == before.parts[q]);
                    }
                }
            }
        }
    }
}

/// A merged cluster has endpoints of the design.
proof fn lemma_joined(staged: StagedAIG, parts: Seq<Seq<usize>>, i: int, j: int)
    requires
        parts_ok(staged.endpoints@, parts),
        0 <= i < j < parts.len(),
    ensures
        parts_ok(staged.endpoints@, joined(parts, i, j)),
        joined(parts, i, j)[i].len() >= parts[i].len(),
{
    let groups = staged.endpoints@;
    let r = joined(parts, i, j);
    assert(ids_ok(groups, parts[i]));
    assert(ids_ok(groups, parts[j]));
    assert forall|q: int| 0 <= q < r.len() implies ids_ok(groups, #[trigger] r[q]) by {
        if q == i {
            assert(r[q] == parts[i] + parts[j]);
        } else if q != j {
            assert(r[q] == parts[q]);
        }
    }
}

/// Partitions as the model has them.
pub open spec fn views(ps: Seq<Partition>) -> Seq<Realization> {
    ps.map_values(|p: Partition| p@)
}

/// The partitions behind options that all hold one.
spec fn opened(v: Seq<Option<Partition>>) -> Seq<Realization> {
    v.map_values(|p: Option<Partition>| p.unwrap()@)
}

/// Building the clusters up to some cluster.
proof fn lemma_build_all(d: Design, parts: Seq<Seq<usize>>, v: Seq<Option<Partition>>, n: int)
    requires
        0 <= n <= parts.len(),
        v.len() == parts.len(),
        forall|k: int| 0 <= k < v.len() ==> built_as(#[trigger] v[k], d.build(parts[k])),
    ensures
        (forall|k: int| 0 <= k < n ==> #[trigger] v[k] is Some) ==> build_all(d, parts.take(n))
            == Some(opened(v.take(n))),
        (exists|k: int| 0 <= k < n && #[trigger] v[k] is None) ==> build_all(d, parts.take(n))
            is None,
    decreases n,
{
    if n == 0 {
        assert(parts.take(0) =~= Seq::empty());
        assert(opened(v.take(0)) =~= Seq::empty());
    } else {
        lemma_build_all(d, parts, v, n - 1);
        assert(parts.take(n).drop_last() =~= parts.take(n - 1));
        assert(parts.take(n).last() == parts[n - 1]);
        assert(built_as(v[n - 1], d.build(parts[n - 1])));
        if forall|k: int| 0 <= k < n ==> #[trigger] v[k] is Some {
            assert(opened(v.take(n)) =~= opened(v.take(n - 1)).push(v[n - 1].unwrap()@));
        }
    }
}

/// Whether there is a partition for every cluster.
fn all_built(v: &Vec<Option<Partition>>) -> (r: bool)
    ensures
        r == (forall|k: int| 0 <= k < v@.len() ==> #[trigger] v@[k] is Some),
{
    let mut k: usize = 0;
    while k < v.len()
        invariant
            k <= v@.len(),
            forall|q: int| 0 <= q < k ==> #[trigger] v@[q] is Some,
        decreases v@.len() - k,
    {
        if v[k].is_none() {
            assert(v@[k as int] is None);
            return false;
        }
        k += 1;
    }
    true
}

/// The largest and the smallest number of stages.
fn stage_range(v: &Vec<Option<Partition>>) -> (r: (usize, usize))
    requires
        forall|k: int| 0 <= k < v@.len() ==> #[trigger] v@[k] is Some,
    ensures
        r.0 == most_stages(opened(v@)),
        r.1 == fewest_stages(opened(v@)),
{
    let mut most: usize = 0;
    let mut fewest: usize = 0;
    let mut k: usize = 0;
    assert(opened(v@.take(0)) =~= Seq::empty());
    while k < v.len()
        invariant
            k <= v@.len(),
            forall|k: int| 0 <= k < v@.len() ==> #[trigger] v@[k] is Some,
            most == most_stages(opened(v@.take(k as int))),
            fewest == fewest_stages(opened(v@.take(k as int))),
        decreases v@.len() - k,
    {
        let ghost s = opened(v@.take(k + 1));
        assert(s.drop_last() =~= opened(v@.take(k as int)));
        assert(s.last() == v@[k as int].unwrap()@);
        if let Some(p) = &v[k] {
            let n: usize = p.stages.len();
            assert(n == s.last().stages.len());
            if n > most {
                most = n;
            }
            if k == 0 || n < fewest {
                fewest = n;
            }
        }
        k += 1;
    }
    assert(v@.take(k as int) =~= v@);
    (most, fewest)
}

/// The keys of the partitions in order name each partition once.
proof fn lemma_stage_keys(ps: Seq<Realization>)
    requires
        ps.len() <= usize::MAX,
    ensures
        ({
            let keys = sorted_pairs(stage_keys(ps));
            &&& keys.len() == ps.len()
            &&& forall|t: int| 0 <= t < keys.len() ==> (#[trigger] keys[t]).1 < ps.len()
            &&& forall|t: int, u: int|
                0 <= t < u < keys.len() ==> (#[trigger] keys[t]).1 != (#[trigger] keys[u]).1
        }),
{
    let s = stage_keys(ps);
    let keys = sorted_pairs(s);
    lemma_orders();
    lemma_sort_contains(s, pair_le());
    assert(s.no_duplicates());
    s.lemma_multiset_has_no_duplicates();
    keys.lemma_multiset_has_no_duplicates_conv();
    assert forall|t: int| 0 <= t < keys.len() implies (#[trigger] keys[t]).1 < ps.len() && keys[t]
        == s[keys[t].1 as int] by {
        assert(keys.contains(keys[t]));
        let i = s.index_of(keys[t]);
        assert(s[i] == keys[t]);
    }
}

/// Puts the partitions with the most stages first.
fn order_by_stages(ps: Vec<Partition>) -> (r: Vec<Partition>)
    ensures
        views(r@) == by_stages(views(ps@)),
{
    let ghost want = views(ps@);
    let n: usize = ps.len();
    let mut keys: Vec<(usize, usize)> = Vec::new();
    let mut k: usize = 0;
    while k < n
        invariant
            k <= n,
            n == ps@.len(),
            want == views(ps@),
            keys@ == stage_keys(want).take(k as int),
        decreases n - k,
    {
        assert(want[k as int].stages.len() == ps@[k as int].stages@.len());
        keys.push((usize::MAX - ps[k].stages.len(), k));
        k += 1;
        assert(keys@ =~= stage_keys(want).take(k as int));
    }
    assert(stage_keys(want).take(n as int) =~= stage_keys(want));
    sort_pairs(&mut keys);
    proof {
        lemma_stage_keys(want);
    }
    let mut slots: Vec<Option<Partition>> = Vec::new();
    for p in it: ps
        invariant
            it.seq() == ps@,
            slots@.len() == it.index(),
            forall|q: int| 0 <= q < it.index() ==> #[trigger] slots@[q] == Some(ps@[q]),
    {
        slots.push(Some(p));
    }
    let mut r: Vec<Partition> = Vec::new();
    let mut t: usize = 0;
    while t < n
        invariant
            t <= n,
            n == want.len(),
            n == slots@.len(),
            n == keys@.len(),
            keys@ == sorted_pairs(stage_keys(want)),
            forall|t: int| 0 <= t < n ==> (#[trigger] keys@[t]).1 < n,
            forall|t: int, u: int|
                0 <= t < u < n ==> (#[trigger] keys@[t]).1 != (#[trigger] keys@[u]).1,
            forall|u: int|
                t <= u < n ==> slots@[(#[trigger] keys@[u]).1 as int] is Some && slots@[
                    keys@[u].1 as int
                ].unwrap()@ == want[keys@[u].1 as int],
            views(r@) == by_stages(want).take(t as int),
        decreases n - t,
    {
        let i: usize = keys[t].1;
        assert(keys@[t as int].1 == i);
        let mut slot: Option<Partition> = None;
        std::mem::swap(&mut slot, &mut slots[i]);
        assert(slot is Some && slot.unwrap()@ == want[i as int]);
        if let Some(p) = slot {
            let ghost r0 = r@;
            r.push(p);
            assert(views(r@) =~= views(r0).push(want[i as int]));
            assert(by_stages(want)[t as int] == want[i as int]);
            assert(by_stages(want).take(t + 1) =~= by_stages(want).take(t as int).push(
                want[i as int],
            ));
        }
        t += 1;
    }
    assert(by_stages(want).take(n as int) =~= by_stages(want));
    r
}

impl<'a> Refiner<'a> {
    /// The partitions of the clusters before merging.
    fn build_all(&self, parts: &Vec<Vec<usize>>) -> (v: Vec<Option<Partition>>)
        requires
            self.wf(),
            parts_ok(self.staged.endpoints@, rows(parts@)),
            clusters_fit(self.design(), rows(parts@)),
        ensures
            v@.len() == parts@.len(),
            forall|k: int|
                0 <= k < v@.len() ==> built_as(
                    #[trigger] v@[k],
                    self.design().build(rows(parts@)[k]),
                ),
    {
        let n: usize = parts.len();
        let f = |k: usize| -> (r: Option<Partition>)
            requires
                self.wf(),
                parts_ok(self.staged.endpoints@, rows(parts@)),
                clusters_fit(self.design(), rows(parts@)),
                n == parts@.len(),
                k < n,
            ensures
                built_as(r, self.design().build(rows(parts@)[k as int])),
            {
                assert(ids_ok(self.staged.endpoints@, rows(parts@)[k as int]));
                Partition::build_one(self.aig, self.staged, &parts[k])
            };
        par_map(n, f)
    }

    /// Merges the clusters in turn and puts the partitions in order.
    fn refine(
        &self,
        pol: &MergePolicy,
        originals: Vec<Option<Partition>>,
        clusters: Vec<Vec<usize>>,
        counts: &Vec<usize>,
    ) -> (r: Vec<Partition>)
        requires
            self.wf(),
            parts_ok(self.staged.endpoints@, rows(clusters@)),
            originals@.len() == clusters@.len(),
            forall|k: int| 0 <= k < originals@.len() ==> #[trigger] originals@[k] is Some,
            nats(counts@) == cone_lens(self.design(), rows(clusters@)),
            can_refine(
                self.design(),
                pol.policy(),
                opened(originals@),
                rows(clusters@),
            ),
        ensures
            views(r@) == refined(
                self.design(),
                pol.policy(),
                opened(originals@),
                rows(clusters@),
            ),
    {
        let ghost d = self.design();
        let ghost p = pol.policy();
        let ghost ns = nats(counts@);
        let ghost os = opened(originals@);
        let ghost whole = merge_from(d, p, ns, os, rows(clusters@), 0);
        let n: usize = clusters.len();
        let mut slots: Vec<Option<Partition>> = originals;
        let mut parts: Vec<Vec<usize>> = clusters;
        let mut out: Vec<Partition> = Vec::new();
        let mut i: usize = 0;
        assert(views(out@) + whole =~= whole);
        proof {
            let ps = rows(parts@);
            assert(ns.len() == cone_lens(d, ps).len());
            assert forall|j: int| 0 <= j < ps.len() implies counts@[j] == d.cone_len(
                #[trigger] ps[j],
            ) by {
                assert(ns[j] == counts@[j]);
                assert(ns[j] == cone_lens(d, ps)[j]);
            }
        }
        while i < n
            invariant
                self.wf(),
                d == self.design(),
                p == pol.policy(),
                ns == nats(counts@),
                i <= n,
                n == parts@.len(),
                n == os.len(),
                n == slots@.len(),
                parts_ok(self.staged.endpoints@, rows(parts@)),
                counts_fresh(d, counts@, rows(parts@), i - 1),
                forall|k: int|
                    i <= k < n ==> #[trigger] slots@[k] is Some && slots@[k].unwrap()@ == os[k],
                whole == views(out@) + merge_from(d, p, ns, os, rows(parts@), i as int),
                merges_fit(d, p, ns, os, rows(parts@), i as int),
            decreases n - i,
        {
            let ghost ps = rows(parts@);
            assert(ps[i as int] == parts@[i as int]@);
            if parts[i].len() > 0 {
                let mut slot: Option<Partition> = None;
                assert(slots@[i as int] is Some);
                std::mem::swap(&mut slot, &mut slots[i]);
                if let Some(own) = slot {
                    let nstages: usize = own.stages.len();
                    assert(own@.stages.len() == nstages);
                    assert(own@ == os[i as int]);
                    let frozen: bool = match pol.frozen {
                        Some(m) => m == nstages,
                        None => false,
                    };
                    let mut st: MergeState = MergeState {
                        parts,
                        own,
                        black: HashSet::new(),
                        skips: 0,
                    };
                    assert(st.state() == (Merging {
                        parts: ps,
                        own: os[i as int],
                        black: Set::empty(),
                        skips: 0,
                    }));
                    if !frozen {
                        self.merge_rounds(pol, counts, &mut st, i);
                    }
                    let ghost m = merge_one(d, p, ns, ps, os[i as int], i as int);
                    assert(st.state() == m);
                    let ghost out0 = out@;
                    parts = st.parts;
                    out.push(st.own);
                    proof {
                        let rest = merge_from(d, p, ns, os, m.parts, i + 1);
                        assert(views(out@) =~= views(out0).push(m.own));
                        assert(views(out0) + (seq![m.own] + rest) =~= views(out@) + rest);
                    }
                }
            }
            i += 1;
        }
        assert(whole =~= views(out@));
        order_by_stages(out)
    }
}

/// How a clustering is refined.
enum Mode {
    Plain,
    Conditional,
    ConditionalSkip,
}

/// The policy of a mode.
spec fn policy_of(mode: Mode, ps: Seq<Realization>, degrad: int) -> Policy {
    match mode {
        Mode::Plain => plain_policy(ps, degrad),
        Mode::Conditional => relaxed_policy(ps, degrad),
        Mode::ConditionalSkip => skipping_policy(ps, degrad),
    }
}

/// Builds and merges the partitions of a clustering.
fn process(
    aig: &AIG,
    staged: &StagedAIG,
    parts: Vec<Vec<usize>>,
    max_stage_degrad: usize,
    mode: Mode,
) -> (r: Option<Vec<Partition>>)
    requires
        staged.wf(*aig),
        parts_ok(staged.endpoints@, rows(parts@)),
        clusters_fit(design(*aig, *staged), rows(parts@)),
        build_all(design(*aig, *staged), rows(parts@)) matches Some(ps) ==> can_refine(
            design(*aig, *staged),
            policy_of(mode, ps, max_stage_degrad as int),
            ps,
            rows(parts@),
        ),
        parts@.len() > 0,
    ensures
        match build_all(design(*aig, *staged), rows(parts@)) {
            None => r is None,
            Some(ps) => r is Some && views(r.unwrap()@) == refined(
                design(*aig, *staged),
                policy_of(mode, ps, max_stage_degrad as int),
                ps,
                rows(parts@),
            ),
        },
{
    let ghost ps = rows(parts@);
    let refiner: Refiner = Refiner { aig, staged };
    let ghost d = refiner.design();
    let counts: Vec<usize> = refiner.count_all(&parts);
    let originals: Vec<Option<Partition>> = refiner.build_all(&parts);
    proof {
        lemma_build_all(d, ps, originals@, ps.len() as int);
        assert(ps.take(ps.len() as int) =~= ps);
        assert(originals@.take(ps.len() as int) =~= originals@);
    }
    if !all_built(&originals) {
        return None;
    }
    let (most, fewest) = stage_range(&originals);
    let n: usize = originals.len();
    proof {
        lemma_stage_range(opened(originals@));
    }
    let relaxed: bool = most - fewest > 1 || n > TOO_MANY_PARTITIONS2;
    let max_trials: usize = if n / 8 >= 20 {
        n / 8
    } else {
        20
    };
    let pol: MergePolicy = match mode {
        Mode::Plain => MergePolicy {
            most,
            degrad: max_stage_degrad,
            extra: false,
            max_trials,
            cautious: false,
            frozen: None,
        },
        Mode::Conditional => MergePolicy {
            most,
            degrad: max_stage_degrad,
            extra: relaxed,
            max_trials,
            cautious: false,
            frozen: None,
        },
        Mode::ConditionalSkip => MergePolicy {
            most,
            degrad: max_stage_degrad,
            extra: relaxed,
            max_trials,
            cautious: true,
            frozen: if n > TOO_MANY_PARTITIONS2 {
                Some(most)
            } else {
                None
            },
        },
    };
    Some(refiner.refine(&pol, originals, parts, &counts))
}

/// The smallest number of stages is at most the largest.
proof fn lemma_stage_range(ps: Seq<Realization>)
    ensures
        0 <= fewest_stages(ps) <= most_stages(ps),
    decreases ps.len(),
{
    if ps.len() > 0 {
        lemma_stage_range(ps.drop_last());
    }
}

/// Given an initial clustering solution of endpoints, generate and map a
/// refined solution.
///
/// The refined solution will have smaller number of partitions
/// as we aggressively merge the partitions when possible.
pub fn process_partitions(
    aig: &AIG,
    staged: &StagedAIG,
    parts: Vec<Vec<usize>>,
    max_stage_degrad: usize,
) -> (r: Option<Vec<Partition>>)
    requires
        staged.wf(*aig),
        parts_ok(staged.endpoints@, rows(parts@)),
        clusters_fit(design(*aig, *staged), rows(parts@)),
        build_all(design(*aig, *staged), rows(parts@)) matches Some(ps) ==> can_refine(
            design(*aig, *staged),
            plain_policy(ps, max_stage_degrad as int),
            ps,
            rows(parts@),
        ),
        parts@.len() > 0,
    ensures
        match build_all(design(*aig, *staged), rows(parts@)) {
            None => r is None,
            Some(ps) => r is Some && views(r.unwrap()@) == refined(
                design(*aig, *staged),
                plain_policy(ps, max_stage_degrad as int),
                ps,
                rows(parts@),
            ),
        },
{
    process(aig, staged, parts, max_stage_degrad, Mode::Plain)
}

/// Conditional version of process_partitions that uses relaxed merging criteria
/// when there are too many partitions or high stage variance
pub fn process_partitions_conditional(
    aig: &AIG,
    staged: &StagedAIG,
    parts: Vec<Vec<usize>>,
    max_stage_degrad: usize,
) -> (r: Option<Vec<Partition>>)
    requires
        staged.wf(*aig),
        parts_ok(staged.endpoints@, rows(parts@)),
        clusters_fit(design(*aig, *staged), rows(parts@)),
        build_all(design(*aig, *staged), rows(parts@)) matches Some(ps) ==> can_refine(
            design(*aig, *staged),
            relaxed_policy(ps, max_stage_degrad as int),
            ps,
            rows(parts@),
        ),
        parts@.len() > 0,
    ensures
        match build_all(design(*aig, *staged), rows(parts@)) {
            None => r is None,
            Some(ps) => r is Some && views(r.unwrap()@) == refined(
                design(*aig, *staged),
                relaxed_policy(ps, max_stage_degrad as int),
                ps,
                rows(parts@),
            ),
        },
{
    process(aig, staged, parts, max_stage_degrad, Mode::Conditional)
}

/// Conditional version of process_partitions that uses relaxed merging criteria
/// when there are too many partitions or high stage variance, with additional
/// skip logic for partitions at max stage count
pub fn process_partitions_conditional_skip(
    aig: &AIG,
    staged: &StagedAIG,
    parts: Vec<Vec<usize>>,
    max_stage_degrad: usize,
) -> (r: Option<Vec<Partition>>)
    requires
        staged.wf(*aig),
        parts_ok(staged.endpoints@, rows(parts@)),
        clusters_fit(design(*aig, *staged), rows(parts@)),
        build_all(design(*aig, *staged), rows(parts@)) matches Some(ps) ==> can_refine(
            design(*aig, *staged),
            skipping_policy(ps, max_stage_degrad as int),
            ps,
            rows(parts@),
        ),
        parts@.len() > 0,
    ensures
        match build_all(design(*aig, *staged), rows(parts@)) {
            None => r is None,
            Some(ps) => r is Some && views(r.unwrap()@) == refined(
                design(*aig, *staged),
                skipping_policy(ps, max_stage_degrad as int),
                ps,
                rows(parts@),
            ),
        },
{
    process(aig, staged, parts, max_stage_degrad, Mode::ConditionalSkip)
}

/// Numbers without their bounds.
pub open spec fn nats(s: Seq<usize>) -> Seq<nat> {
    s.map_values(|x: usize| x as nat)
}

} // verus!
