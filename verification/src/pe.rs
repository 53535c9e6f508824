//! Partition executor.
pub use crate::boomerang::BOOMERANG_NUM_STAGES;
pub use crate::hgr::process_partitions_from_hgr_parts_file;
pub use crate::merge::{
    process_partitions, process_partitions_conditional, process_partitions_conditional_skip,
};
use crate::aig::{DriverType, AIG};
use crate::boomerang::{
    constants_are_shallow, constants_fit, job_wf, lemma_stays_shallow, first_writeouts,
    inserted_all, job, removed_all, stage, StageResult, BOOMERANG_MAX_WRITEOUTS,
};
use crate::collections::{
    lemma_inserted, map_entries, map_keys, set_at, set_clone, set_insert, set_items, set_len,
    set_new, set_swap_remove,
};
use crate::endpoints::{activations, fits_writeouts, num_output_dups, num_srams, reserved_writeouts};
use crate::layout::rows;
use crate::plan::Plan;
use crate::soundness::{lemma_inserted_all, lemma_take_contains};
use crate::stage::Mapped;
use crate::stage_laws::stage_counts_its_write_outs;
use crate::stages::{
    shallow_constants_fit, stage_makes_progress, stages, stages_fit, stages_ok, work_left,
};
use crate::staging::{ids_ok, inputs_of, lemma_inputs_in_range, reads_ok, EndpointGroup, StagedAIG};
use indexmap::IndexSet;
use vstd::prelude::*;

verus! {

/// One Boomerang stage
#[derive(Debug, Clone)]
pub struct BoomerangStage {
    /// the boomerang hierarchy, 8192 -> 4096 -> ... -> 1.
    ///
    /// each element is an aigpin index (without iv).
    /// its parent indices should either be a passthrough or an
    /// and gate mapping.
    pub hier: Vec<Vec<usize>>,
    /// the 32-packed elements in the hierarchy where there should be
    /// a pass-through.
    pub write_outs: Vec<usize>,
}

/// One partitioned block: a basic execution unit on GPU.
///
/// A block is mapped to a GPU block with the following resource
/// constraints:
/// 1. the number of unique inputs should not exceed 8191.
/// 2. the number of unique outputs should not exceed 8191.
///    for srams and dffs, outputs include all enable pins and bus pins.
///    there might be unusable holes but the effective capacity is at least
///    4095.
/// 3. the number of intermediate pins alive at each stage should not
///    exceed 4095.
/// 4. the number of SRAM output groups should not exceed 64.
///    64 = 8192 / (32 * 4).
#[derive(Debug, Clone)]
pub struct Partition {
    /// the endpoints that are realized by this partition.
    pub endpoints: Vec<usize>,
    /// the boomerang stages.
    ///
    /// between stages there will automatically be shuffles.
    pub stages: Vec<BoomerangStage>,
}

/// The cells and write-outs of a stage.
#[verifier::ext_equal]
pub struct StageCells {
    pub hier: Seq<Seq<usize>>,
    pub write_outs: Seq<usize>,
}

/// The endpoints and stages of a partition.
#[verifier::ext_equal]
pub struct Realization {
    pub endpoints: Seq<usize>,
    pub stages: Seq<StageCells>,
}

impl View for BoomerangStage {
    type V = StageCells;

    open spec fn view(&self) -> StageCells {
        StageCells { hier: rows(self.hier@), write_outs: self.write_outs@ }
    }
}

impl View for Partition {
    type V = Realization;

    open spec fn view(&self) -> Realization {
        Realization { endpoints: self.endpoints@, stages: stages_view(self.stages@) }
    }
}

/// The cells and write-outs of stages.
pub open spec fn stages_view(s: Seq<BoomerangStage>) -> Seq<StageCells> {
    s.map_values(|b: BoomerangStage| b@)
}

/// The cells and write-outs of a mapped stage.
pub open spec fn cells_of(st: StageResult) -> StageCells {
    StageCells { hier: st.hier, write_outs: st.write_outs }
}

/// The cells and write-outs of mapped stages.
pub open spec fn all_cells(s: Seq<StageResult>) -> Seq<StageCells> {
    s.map_values(|st: StageResult| cells_of(st))
}

/// The nodes that the endpoints of `ids` read, each once.
pub open spec fn wanted_by(groups: Seq<EndpointGroup>, ids: Seq<usize>) -> Seq<usize> {
    inserted_all(Seq::empty(), inputs_of(groups, ids), inputs_of(groups, ids).len() as int)
}

/// The partition that realizes the endpoints of `ids`; none if memories and
/// repeated outputs leave no write-out, or if some stage cannot be mapped.
pub open spec fn realization(
    drivers: Seq<DriverType>,
    sources: Set<usize>,
    groups: Seq<EndpointGroup>,
    ids: Seq<usize>,
) -> Option<Realization> {
    let srams = num_srams(groups, ids) as int;
    let dups = num_output_dups(activations(groups, ids));
    if !fits_writeouts(srams, dups) {
        None
    } else {
        match stages(
            drivers,
            sources,
            wanted_by(groups, ids),
            0,
            BOOMERANG_MAX_WRITEOUTS - reserved_writeouts(srams, dups),
        ) {
            None => None,
            Some(sts) => Some(Realization { endpoints: ids, stages: all_cells(sts) }),
        }
    }
}

/// Whether the endpoints of `ids` can be realized: the constants fit each of the
/// stages, unless memories and repeated outputs leave no write-out anyway.
pub open spec fn can_realize(
    drivers: Seq<DriverType>,
    sources: Set<usize>,
    groups: Seq<EndpointGroup>,
    ids: Seq<usize>,
) -> bool {
    let srams = num_srams(groups, ids) as int;
    let dups = num_output_dups(activations(groups, ids));
    fits_writeouts(srams, dups) ==> stages_fit(
        drivers,
        sources,
        wanted_by(groups, ids),
        0,
        BOOMERANG_MAX_WRITEOUTS - reserved_writeouts(srams, dups),
    )
}

/// Adds values to a set.
fn insert_all(s: &mut IndexSet<usize>, xs: &Vec<usize>)
    ensures
        set_items(*final(s)) == inserted_all(set_items(*old(s)), xs@, xs@.len() as int),
{
    let ghost start = set_items(*s);
    let mut i: usize = 0;
    while i < xs.len()
        invariant
            i <= xs@.len(),
            set_items(*s) == inserted_all(start, xs@, i as int),
        decreases xs@.len() - i,
    {
        set_insert(s, xs[i]);
        i += 1;
    }
}

/// What a set holds after values were added.
proof fn lemma_inserted_set(s: Seq<usize>, xs: Seq<usize>, n: int)
    requires
        0 <= n <= xs.len(),
    ensures
        forall|y: usize| #[trigger]
            inserted_all(s, xs, n).contains(y) <==> s.contains(y) || xs.take(n).contains(y),
    decreases n,
{
    if n > 0 {
        lemma_inserted_set(s, xs, n - 1);
        lemma_inserted(inserted_all(s, xs, n - 1), xs[n - 1]);
        assert forall|y: usize|
            xs.take(n).contains(y) <==> xs.take(n - 1).contains(y) || y == xs[n - 1] by {
            lemma_take_contains(xs, n, y);
        }
    }
}

/// Builds a single boomerang stage given the current inputs and outputs.
///
/// What the stage writes out leaves the outputs, and what it computes joins
/// the inputs.
fn build_one_boomerang_stage(
    aig: &AIG,
    unrealized_comb_outputs: &mut IndexSet<usize>,
    realized_inputs: &mut IndexSet<usize>,
    total_write_outs: &mut usize,
    num_reserved_writeouts: usize,
) -> (r: Option<BoomerangStage>)
    requires
        stages_ok(
            aig.drivers@,
            set_items(*old(realized_inputs)).to_set(),
            set_items(*old(unrealized_comb_outputs)),
        ),
        constants_fit(
            job(
                aig.drivers@,
                set_items(*old(realized_inputs)).to_set(),
                set_items(*old(unrealized_comb_outputs)),
            ),
        ),
        num_reserved_writeouts <= BOOMERANG_MAX_WRITEOUTS,
        *old(total_write_outs) + 128 <= usize::MAX,
    ensures
        ({
            let c = job(
                aig.drivers@,
                set_items(*old(realized_inputs)).to_set(),
                set_items(*old(unrealized_comb_outputs)),
            );
            match stage(
                c,
                *old(total_write_outs) as int,
                BOOMERANG_MAX_WRITEOUTS - num_reserved_writeouts,
            ) {
                None => {
                    &&& r is None
                    &&& *final(total_write_outs) == *old(total_write_outs) + first_writeouts(c)
                    &&& set_items(*final(unrealized_comb_outputs)) == set_items(
                        *old(unrealized_comb_outputs),
                    )
                    &&& set_items(*final(realized_inputs)) == set_items(*old(realized_inputs))
                },
                Some(st) => {
                    &&& r is Some
                    &&& r.unwrap()@ == cells_of(st)
                    &&& *final(total_write_outs) == st.total
                    &&& set_items(*final(unrealized_comb_outputs)) == st.outs
                    &&& set_items(*final(realized_inputs)).to_set() == st.stops
                },
            }
        }),
{
    let limit: usize = BOOMERANG_MAX_WRITEOUTS - num_reserved_writeouts;
    let ghost stops = set_items(*realized_inputs);
    let ghost outs = set_items(*unrealized_comb_outputs);
    let mapped: Option<Mapped> = {
        let plan: Plan = Plan::new(aig, &*unrealized_comb_outputs, &*realized_inputs);
        plan.map_stage(total_write_outs, limit)
    };
    match mapped {
        None => None,
        Some(mapped) => {
            let keys: Vec<usize> = map_keys(&mapped.lay.visited);
            insert_all(realized_inputs, &keys);
            proof {
                lemma_inserted_set(stops, keys@, keys@.len() as int);
                assert(keys@.take(keys@.len() as int) =~= keys@);
                assert(set_items(*realized_inputs).to_set() =~= stops.to_set().union(
                    map_entries(mapped.lay.visited).dom(),
                )) by {
                    assert forall|x: usize|
                        set_items(*realized_inputs).to_set().contains(x) <==> stops.to_set().union(
                            map_entries(mapped.lay.visited).dom(),
                        ).contains(x) by {
                        assert(inserted_all(stops, keys@, keys@.len() as int).contains(x)
                            <==> stops.contains(x) || keys@.contains(x));
                        assert(keys@.contains(x) <==> map_entries(mapped.lay.visited).contains_key(
                            x,
                        ));
                    }
                }
            }
            let n: usize = set_len(&mapped.done);
            let mut i: usize = 0;
            while i < n
                invariant
                    n == set_items(mapped.done).len(),
                    i <= n,
                    set_items(*unrealized_comb_outputs) == removed_all(
                        outs,
                        set_items(mapped.done),
                        i as int,
                    ),
                decreases n - i,
            {
                set_swap_remove(unrealized_comb_outputs, set_at(&mapped.done, i));
                i += 1;
            }
            Some(BoomerangStage { hier: mapped.lay.hier, write_outs: mapped.write_outs })
        },
    }
}

/// What is wanted is what the endpoints read.
pub proof fn lemma_wanted_by(drivers: Seq<DriverType>, groups: Seq<EndpointGroup>, ids: Seq<usize>)
    requires
        ids_ok(groups, ids),
        forall|e: int| 0 <= e < groups.len() ==> reads_ok(drivers, #[trigger] groups[e]),
    ensures
        wanted_by(groups, ids).no_duplicates(),
        forall|x: usize| #[trigger]
            wanted_by(groups, ids).contains(x) <==> inputs_of(groups, ids).contains(x),
        forall|i: int|
            0 <= i < wanted_by(groups, ids).len() ==> #[trigger] wanted_by(groups, ids)[i]
                < drivers.len(),
{
    let pins = inputs_of(groups, ids);
    let w = wanted_by(groups, ids);
    lemma_inputs_in_range(drivers, groups, ids);
    lemma_inserted_all(Seq::empty(), pins, pins.len() as int);
    assert(pins.take(pins.len() as int) =~= pins);
    assert forall|i: int| 0 <= i < w.len() implies #[trigger] w[i] < drivers.len() by {
        assert(w.contains(w[i]));
        assert(pins[pins.index_of(w[i])] == w[i]);
    }
}

/// What the endpoints read are nodes of the graph.
pub proof fn lemma_wanted(aig: AIG, staged: StagedAIG, ids: Seq<usize>)
    requires
        staged.wf(aig),
        ids_ok(staged.endpoints@, ids),
    ensures
        stages_ok(aig.drivers@, staged.sources(), wanted_by(staged.endpoints@, ids)),
{
    lemma_wanted_by(aig.drivers@, staged.endpoints@, ids);
    let c = job(aig.drivers@, staged.sources(), wanted_by(staged.endpoints@, ids));
    assert(c.drivers.len() == aig.drivers.len());
    assert(job_wf(c));
}

/// Endpoints can be realized where no and gate with a constant literal, among
/// the nodes that they depend on, reads another and gate.
pub proof fn shallow_constants_can_be_realized(aig: AIG, staged: StagedAIG, ids: Seq<usize>)
    requires
        staged.wf(aig),
        ids_ok(staged.endpoints@, ids),
        constants_are_shallow(
            aig.drivers@,
            staged.sources(),
            inputs_of(staged.endpoints@, ids),
        ),
    ensures
        can_realize(aig.drivers@, staged.sources(), staged.endpoints@, ids),
{
    let groups = staged.endpoints@;
    let srams = num_srams(groups, ids) as int;
    let dups = num_output_dups(activations(groups, ids));
    let w = wanted_by(groups, ids);
    let pins = inputs_of(groups, ids);
    lemma_wanted(aig, staged, ids);
    lemma_wanted_by(aig.drivers@, groups, ids);
    lemma_inputs_in_range(aig.drivers@, groups, ids);
    assert forall|i: int| 0 <= i < w.len() implies pins.contains(#[trigger] w[i]) by {
        assert(w.contains(w[i]));
    }
    lemma_stays_shallow(aig.drivers@, staged.sources(), pins, staged.sources(), w);
    shallow_constants_fit(
        aig.drivers@,
        staged.sources(),
        w,
        0,
        BOOMERANG_MAX_WRITEOUTS - reserved_writeouts(srams, dups),
    );
}

/// The stages so far are the first ones of all.
spec fn continues(
    whole: Option<Seq<StageResult>>,
    sofar: Seq<StageResult>,
    rest: Option<Seq<StageResult>>,
) -> bool {
    match rest {
        None => whole is None,
        Some(r) => whole == Some(sofar + r),
    }
}

/// One stage more.
proof fn lemma_next_stage(
    whole: Option<Seq<StageResult>>,
    sofar: Seq<StageResult>,
    drivers: Seq<DriverType>,
    stops: Set<usize>,
    outs: Seq<usize>,
    total: int,
    limit: int,
)
    requires
        stages_ok(drivers, stops, outs),
        stages_fit(drivers, stops, outs, total, limit),
        outs.len() > 0,
        continues(whole, sofar, stages(drivers, stops, outs, total, limit)),
    ensures
        match stage(job(drivers, stops, outs), total, limit) {
            None => whole is None,
            Some(st) => {
                &&& continues(
                    whole,
                    sofar.push(st),
                    stages(drivers, st.stops, st.outs, st.total, limit),
                )
                &&& stages_ok(drivers, st.stops, st.outs)
                &&& stages_fit(drivers, st.stops, st.outs, st.total, limit)
                &&& work_left(drivers, st.stops, st.outs) < work_left(drivers, stops, outs)
                &&& 0 <= st.total - total
                &&& st.total <= limit
            },
        },
{
    let c = job(drivers, stops, outs);
    stage_makes_progress(drivers, stops, outs, total, limit);
    stage_counts_its_write_outs(c, total, limit);
    if let Some(st) = stage(c, total, limit) {
        let rest = stages(drivers, st.stops, st.outs, st.total, limit);
        if rest is Some {
            assert(sofar + (seq![st] + rest.unwrap()) =~= sofar.push(st) + rest.unwrap());
        }
    }
}

impl Partition {
    /// build one partition given a set of endpoints to realize.
    ///
    /// if the resource is overflowed, None will be returned.
    /// see [Partition] for resource constraints.
    pub fn build_one(aig: &AIG, staged: &StagedAIG, endpoints: &Vec<usize>) -> (r: Option<
        Partition,
    >)
        requires
            staged.wf(*aig),
            ids_ok(staged.endpoints@, endpoints@),
            can_realize(aig.drivers@, staged.sources(), staged.endpoints@, endpoints@),
        ensures
            match realization(
                aig.drivers@,
                staged.sources(),
                staged.endpoints@,
                endpoints@,
            ) {
                None => r is None,
                Some(p) => r is Some && r.unwrap()@ == p,
            },
    {
        let ghost drivers = aig.drivers@;
        let ghost groups = staged.endpoints@;
        let mut pins: Vec<usize> = Vec::new();
        staged.collect_inputs(endpoints, &mut pins);
        assert(pins@ =~= inputs_of(groups, endpoints@));
        let mut unrealized: IndexSet<usize> = set_new();
        insert_all(&mut unrealized, &pins);
        let mut realized: IndexSet<usize> = match &staged.primary_inputs {
            Some(s) => set_clone(s),
            None => set_new(),
        };
        assert(set_items(realized).to_set() =~= staged.sources());
        let (srams, dups) = staged.count_outputs(endpoints);
        if srams >= BOOMERANG_MAX_WRITEOUTS || dups >= 8192 {
            return None;
        }
        let reserved: usize = srams + (dups + 31) / 32;
        if reserved >= BOOMERANG_MAX_WRITEOUTS || srams * 4 + dups > BOOMERANG_MAX_WRITEOUTS {
            return None;
        }
        proof {
            lemma_wanted(*aig, *staged, endpoints@);
        }
        let ghost limit = BOOMERANG_MAX_WRITEOUTS - reserved;
        let ghost whole = stages(
            drivers,
            staged.sources(),
            wanted_by(groups, endpoints@),
            0,
            limit,
        );
        let ghost mut sofar: Seq<StageResult> = Seq::empty();
        let mut built: Vec<BoomerangStage> = Vec::new();
        let mut total: usize = 0;
        proof {
            if whole is Some {
                assert(sofar + whole.unwrap() =~= whole.unwrap());
            }
            assert(stages_view(built@) =~= all_cells(sofar));
        }
        while set_len(&unrealized) > 0
            invariant
                drivers == aig.drivers@,
                reserved < BOOMERANG_MAX_WRITEOUTS,
                limit == BOOMERANG_MAX_WRITEOUTS - reserved,
                total <= limit,
                stages_ok(drivers, set_items(realized).to_set(), set_items(unrealized)),
                stages_fit(
                    drivers,
                    set_items(realized).to_set(),
                    set_items(unrealized),
                    total as int,
                    limit,
                ),
                stages_view(built@) == all_cells(sofar),
                realization(drivers, staged.sources(), groups, endpoints@) == match whole {
                    None => None,
                    Some(sts) => Some(Realization { endpoints: endpoints@, stages: all_cells(sts) }),
                },
                groups == staged.endpoints@,
                continues(
                    whole,
                    sofar,
                    stages(
                        drivers,
                        set_items(realized).to_set(),
                        set_items(unrealized),
                        total as int,
                        limit,
                    ),
                ),
            decreases work_left(drivers, set_items(realized).to_set(), set_items(unrealized)),
        {
            let ghost stops = set_items(realized).to_set();
            let ghost outs = set_items(unrealized);
            let ghost before = total as int;
            let ghost c = job(drivers, stops, outs);
            proof {
                lemma_next_stage(whole, sofar, drivers, stops, outs, before, limit);
            }
            let ghost built0 = built@;
            match build_one_boomerang_stage(
                aig,
                &mut unrealized,
                &mut realized,
                &mut total,
                reserved,
            ) {
                None => {
                    return None;
                },
                Some(next) => {
                    built.push(next);
                    assert(next@ == cells_of(stage(c, before, limit).unwrap()));
                    assert(stages_view(built@) =~= stages_view(built0).push(next@));
                },
            }
            proof {
                let st = stage(c, before, limit).unwrap();
                assert(all_cells(sofar.push(st)) =~= all_cells(sofar).push(cells_of(st)));
                assert(stages_view(built@) =~= all_cells(sofar.push(st)));
                sofar = sofar.push(st);
            }
        }
        assert(set_items(unrealized).len() == 0);
        assert(sofar + Seq::<StageResult>::empty() =~= sofar);
        let ids: Vec<usize> = endpoints.clone();
        assert(ids@ =~= endpoints@);
        Some(Partition { endpoints: ids, stages: built })
    }
}

} // verus!
