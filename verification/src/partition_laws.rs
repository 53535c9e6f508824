//! What every partition satisfies.
use crate::aig::{no_constants, reads_constant, DriverType, AIG};
use crate::boomerang::{
    job, job_ok, job_wf, level_at, row_len, stage, taken, Job, StageResult, BOOMERANG_MAX_WRITEOUTS,
    FREE,
};
use crate::capacity_laws::{next_inputs_are_placed, row_nodes, stage_holds_few_nodes, upper_nodes};
use crate::endpoints::{
    activations, lemma_dups_nonnegative, num_output_dups, num_srams, reserved_writeouts,
};
use crate::mapping::{
    cell, cell_ok, has_constant, input_ok, is_cell, is_input, lemma_order, lemma_wide_rows, shape,
};
use crate::pe::{
    all_cells, cells_of, lemma_wanted, lemma_wanted_by, realization, wanted_by, StageCells,
};
use crate::stage_laws::{
    in_cells, stage_counts_its_write_outs, stage_is_a_tree, stage_remembers_its_cells,
    stage_writes_out_what_it_drops, written_out,
};
use crate::stages::{stage_makes_progress, stages, stages_ok, work_left};
use crate::staging::{ids_ok, inputs_of, StagedAIG};
use vstd::prelude::*;

verus! {

/// A cell passes the node of its first child through, or holds the and gate of
/// the nodes of both children.
pub open spec fn gate_or_pass(
    drivers: Seq<DriverType>,
    hier: Seq<Seq<usize>>,
    g: int,
    i: int,
) -> bool {
    let nd = cell(hier, g, i);
    nd != FREE ==> {
        ||| cell(hier, g - 1, i) == nd
        ||| drivers[nd as int] matches DriverType::AndGate(a, b) && cell(hier, g - 1, i) == a / 2
            && cell(hier, g - 1, i + row_len(g)) == b / 2
    }
}

/// A node that has a value of its own: the constants' node, anything that is
/// not an and gate, and a gate of two constants.
pub open spec fn is_source(drivers: Seq<DriverType>, x: usize) -> bool {
    ||| x == 0
    ||| !(drivers[x as int] is AndGate)
    ||| drivers[x as int] matches DriverType::AndGate(a, b) && a < 2 && b < 2
}

/// `x` is in a cell above row 0 of one of the first `k` stages.
pub open spec fn computed_before(stages: Seq<StageCells>, k: int, x: usize) -> bool {
    exists|q: int| 0 <= q < k && in_cells((#[trigger] stages[q]).hier, x)
}

/// Row 0 of stage `k` holds only nodes whose values are there: sources, nodes
/// of `sources`, and what earlier stages computed.
pub open spec fn reads_known(
    drivers: Seq<DriverType>,
    sources: Set<usize>,
    stages: Seq<StageCells>,
    k: int,
) -> bool {
    forall|i: int|
        is_cell(0, i) ==> {
            let x = #[trigger] cell(stages[k].hier, 0, i);
            x != FREE ==> is_source(drivers, x) || sources.contains(x) || computed_before(
                stages,
                k,
                x,
            )
        }
}

/// The rows have their widths, every cell is what it reads, and row 1 has a
/// cell to spare.
pub open spec fn is_tree(drivers: Seq<DriverType>, hier: Seq<Seq<usize>>) -> bool {
    &&& shape(hier)
    &&& forall|g: int, i: int|
        g >= 1 && is_cell(g, i) ==> #[trigger] gate_or_pass(drivers, hier, g, i)
    &&& taken(hier[1]) < row_len(1)
}

/// One of the stages writes `x` out.
pub open spec fn written_by_some(stages: Seq<StageCells>, x: usize) -> bool {
    exists|k: int|
        0 <= k < stages.len() && written_out(
            (#[trigger] stages[k]).hier,
            stages[k].write_outs,
            x,
        )
}

/// The number of write-outs of all stages.
pub open spec fn num_writeouts(stages: Seq<StageCells>) -> nat
    decreases stages.len(),
{
    if stages.len() == 0 {
        0
    } else {
        stages[0].write_outs.len() + num_writeouts(stages.drop_first())
    }
}

/// Every write-out of a stage names a group of the tree.
pub open spec fn writeouts_in_range(s: StageCells) -> bool {
    forall|i: int|
        0 <= i < s.write_outs.len() ==> #[trigger] s.write_outs[i] < BOOMERANG_MAX_WRITEOUTS
}

/// A stage is a tree over the graph.
proof fn lemma_stage_tree(c: Job, total: int, limit: int)
    requires
        job_ok(c),
        stage(c, total, limit) is Some,
    ensures
        is_tree(c.drivers, stage(c, total, limit).unwrap().hier),
        forall|i: int|
            is_cell(0, i) ==> {
                let x = #[trigger] cell(stage(c, total, limit).unwrap().hier, 0, i);
                x != FREE ==> is_source(c.drivers, x) || c.stops.contains(x)
            },
{
    stage_is_a_tree(c, total, limit);
    let st = stage(c, total, limit).unwrap();
    assert forall|g: int, i: int| g >= 1 && is_cell(g, i) implies #[trigger] gate_or_pass(
        c.drivers,
        st.hier,
        g,
        i,
    ) by {
        assert(cell_ok(c, st.hier, g, i));
    }
    assert forall|i: int| is_cell(0, i) implies {
        let x = #[trigger] cell(st.hier, 0, i);
        x != FREE ==> is_source(c.drivers, x) || c.stops.contains(x)
    } by {
        let x = cell(st.hier, 0, i);
        assert(input_ok(c, st.hier, i));
        if x != FREE && x != 0 && !c.stops.contains(x) {
            assert(is_input(c, x));
            let k = c.order.index_of(x);
            assert(c.order[k] == x);
            assert(level_at(c, k) == 0);
        }
    }
}

/// What the stages achieve that follow each other.
proof fn lemma_stages(
    drivers: Seq<DriverType>,
    stops: Set<usize>,
    outs: Seq<usize>,
    total: int,
    limit: int,
)
    requires
        stages_ok(drivers, stops, outs),
        stages(drivers, stops, outs, total, limit) is Some,
        total <= limit,
    ensures
        ({
            let s = all_cells(stages(drivers, stops, outs, total, limit).unwrap());
            &&& forall|x: usize| #[trigger] outs.contains(x) ==> written_by_some(s, x)
            &&& forall|k: int|
                0 <= k < s.len() ==> is_tree(drivers, (#[trigger] s[k]).hier)
                    && writeouts_in_range(s[k]) && reads_known(drivers, stops, s, k)
            &&& total + num_writeouts(s) <= limit
        }),
    decreases work_left(drivers, stops, outs),
{
    let sts = stages(drivers, stops, outs, total, limit).unwrap();
    let s = all_cells(sts);
    if outs.len() > 0 {
        let c = job(drivers, stops, outs);
        let st = stage(c, total, limit).unwrap();
        stage_makes_progress(drivers, stops, outs, total, limit);
        stage_counts_its_write_outs(c, total, limit);
        stage_writes_out_what_it_drops(c, total, limit);
        stage_remembers_its_cells(c, total, limit);
        lemma_stage_tree(c, total, limit);
        lemma_stages(drivers, st.stops, st.outs, st.total, limit);
        let rest = stages(drivers, st.stops, st.outs, st.total, limit).unwrap();
        let r = all_cells(rest);
        assert(sts == seq![st] + rest);
        assert(s[0] == cells_of(st));
        assert(s.drop_first() =~= r);
        assert forall|k: int| 1 <= k < s.len() implies #[trigger] s[k] == r[k - 1] by {}
        assert forall|x: usize| #[trigger] outs.contains(x) implies written_by_some(s, x) by {
            if st.outs.contains(x) {
                assert(written_by_some(r, x));
                let k = choose|k: int|
                    0 <= k < r.len() && written_out((#[trigger] r[k]).hier, r[k].write_outs, x);
                assert(s[k + 1] == r[k]);
            } else {
                assert(written_out(s[0].hier, s[0].write_outs, x));
            }
        }
        assert forall|k: int| 0 <= k < s.len() implies is_tree(drivers, (#[trigger] s[k]).hier)
            && writeouts_in_range(s[k]) && reads_known(drivers, stops, s, k) by {
            if k > 0 {
                assert(s[k] == r[k - 1]);
                assert(reads_known(drivers, st.stops, r, k - 1));
                lemma_reads_later(drivers, stops, st, s, r, k);
            } else {
                assert(s[0].hier == st.hier);
            }
        }
    }
}

/// What a stage knows, the stages behind it know.
proof fn lemma_reads_later(
    drivers: Seq<DriverType>,
    stops: Set<usize>,
    st: StageResult,
    s: Seq<StageCells>,
    r: Seq<StageCells>,
    k: int,
)
    requires
        1 <= k < s.len(),
        s.len() == r.len() + 1,
        s[0] == cells_of(st),
        forall|q: int| 1 <= q < s.len() ==> #[trigger] s[q] == r[q - 1],
        reads_known(drivers, st.stops, r, k - 1),
        forall|x: usize|
            #![trigger st.stops.contains(x)]
            x != FREE ==> (st.stops.contains(x) <==> stops.contains(x) || in_cells(st.hier, x)),
    ensures
        reads_known(drivers, stops, s, k),
{
    assert(s[k] == r[k - 1]);
    assert forall|i: int| is_cell(0, i) implies {
        let x = #[trigger] cell(s[k].hier, 0, i);
        x != FREE ==> is_source(drivers, x) || stops.contains(x) || computed_before(s, k, x)
    } by {
        let x = cell(r[k - 1].hier, 0, i);
        if x != FREE && !is_source(drivers, x) {
            if st.stops.contains(x) {
                if !stops.contains(x) {
                    assert(in_cells(s[0].hier, x));
                }
            } else {
                assert(computed_before(r, k - 1, x));
                let q = choose|q: int| 0 <= q < k - 1 && in_cells((#[trigger] r[q]).hier, x);
                assert(s[q + 1] == r[q]);
            }
        }
    }
}

/// Stage `k` holds at most 4095 nodes above row 0, and row 0 holds at most
/// 8190; behind the first stage, row 0 holds only what earlier stages computed,
/// and node 0 where some and gate has a constant literal.
pub open spec fn holds_few(drivers: Seq<DriverType>, stages: Seq<StageCells>, k: int) -> bool {
    &&& upper_nodes(stages[k].hier).finite()
    &&& upper_nodes(stages[k].hier).len() <= 4095
    &&& row_nodes(stages[k].hier[0]).finite()
    &&& row_nodes(stages[k].hier[0]).len() <= 8190
    &&& k >= 1 ==> forall|i: int|
        is_cell(0, i) ==> {
            let x = #[trigger] cell(stages[k].hier, 0, i);
            x != FREE && (x != 0 || no_constants(drivers)) ==> computed_before(stages, k, x)
        }
}

/// Where no and gate has a constant literal, none of a job has.
proof fn lemma_no_constant(c: Job)
    requires
        job_wf(c),
        no_constants(c.drivers),
    ensures
        !has_constant(c),
{
    lemma_order(c);
    if has_constant(c) {
        let u = choose|u: usize| #[trigger]
            c.order.contains(u) && reads_constant(c.drivers[u as int]);
        assert(c.order[c.order.index_of(u)] < c.drivers.len());
        assert(!reads_constant(c.drivers[u as int]));
    }
}

/// The stages that follow each other stay within the tree, and only the first
/// reads from outside.
proof fn lemma_stages_hold_few(
    drivers: Seq<DriverType>,
    stops: Set<usize>,
    outs: Seq<usize>,
    total: int,
    limit: int,
)
    requires
        stages_ok(drivers, stops, outs),
        stages(drivers, stops, outs, total, limit) is Some,
    ensures
        ({
            let s = all_cells(stages(drivers, stops, outs, total, limit).unwrap());
            forall|k: int| 0 <= k < s.len() ==> #[trigger] holds_few(drivers, s, k)
        }),
    decreases work_left(drivers, stops, outs),
{
    let sts = stages(drivers, stops, outs, total, limit).unwrap();
    let s = all_cells(sts);
    if outs.len() > 0 {
        let c = job(drivers, stops, outs);
        let st = stage(c, total, limit).unwrap();
        stage_makes_progress(drivers, stops, outs, total, limit);
        stage_holds_few_nodes(c, total, limit);
        lemma_stages_hold_few(drivers, st.stops, st.outs, st.total, limit);
        let rest = stages(drivers, st.stops, st.outs, st.total, limit).unwrap();
        let r = all_cells(rest);
        assert(sts == seq![st] + rest);
        assert(s[0] == cells_of(st));
        assert forall|k: int| 1 <= k < s.len() implies #[trigger] s[k] == r[k - 1] by {}
        assert forall|k: int| 0 <= k < s.len() implies #[trigger] holds_few(drivers, s, k) by {
            if k == 0 {
                assert(s[0].hier == st.hier);
            } else {
                assert(s[k] == r[k - 1]);
                assert(holds_few(drivers, r, k - 1));
                assert forall|i: int| is_cell(0, i) implies {
                    let x = #[trigger] cell(s[k].hier, 0, i);
                    x != FREE && (x != 0 || no_constants(drivers)) ==> computed_before(s, k, x)
                } by {
                    let x = cell(s[k].hier, 0, i);
                    if x != FREE && (x != 0 || no_constants(drivers)) {
                        if k == 1 {
                            let next = job(drivers, st.stops, st.outs);
                            assert(rest[0] == stage(next, st.total, limit).unwrap());
                            stage_is_a_tree(next, st.total, limit);
                            assert(input_ok(next, rest[0].hier, i));
                            if no_constants(drivers) {
                                lemma_no_constant(next);
                            }
                            next_inputs_are_placed(c, total, limit, x);
                            assert(in_cells(s[0].hier, x));
                        } else {
                            assert(cell(r[k - 1].hier, 0, i) == x);
                            let q = choose|q: int|
                                0 <= q < k - 1 && in_cells((#[trigger] r[q]).hier, x);
                            assert(s[q + 1] == r[q]);
                        }
                    }
                }
            }
        }
    }
}

/// A partition writes out every node that its endpoints read.
pub proof fn partition_writes_out_its_endpoints(aig: AIG, staged: StagedAIG, ids: Seq<usize>)
    requires
        staged.wf(aig),
        ids_ok(staged.endpoints@, ids),
    ensures
        realization(aig.drivers@, staged.sources(), staged.endpoints@, ids) matches Some(p) ==> {
            &&& p.endpoints == ids
            &&& forall|x: usize| #[trigger]
                inputs_of(staged.endpoints@, ids).contains(x) ==> written_by_some(p.stages, x)
        },
{
    if let Some(p) = realization(aig.drivers@, staged.sources(), staged.endpoints@, ids) {
        let srams = num_srams(staged.endpoints@, ids) as int;
        let dups = num_output_dups(activations(staged.endpoints@, ids));
        let outs = wanted_by(staged.endpoints@, ids);
        lemma_wanted(aig, staged, ids);
        lemma_wanted_by(aig.drivers@, staged.endpoints@, ids);
        lemma_stages(
            aig.drivers@,
            staged.sources(),
            outs,
            0,
            BOOMERANG_MAX_WRITEOUTS - reserved_writeouts(srams, dups),
        );
        assert forall|x: usize| #[trigger]
            inputs_of(staged.endpoints@, ids).contains(x) implies written_by_some(p.stages, x) by {
            assert(outs.contains(x));
        }
    }
}

/// Every stage of a partition is a tree over the graph with at most 4095
/// occupied cells in row 1, and it reads only values that are there: sources
/// of the graph, the inputs of the design's stage, and what earlier stages of
/// the partition computed.
pub proof fn partition_reads_known_values(aig: AIG, staged: StagedAIG, ids: Seq<usize>)
    requires
        staged.wf(aig),
        ids_ok(staged.endpoints@, ids),
    ensures
        realization(aig.drivers@, staged.sources(), staged.endpoints@, ids) matches Some(p)
            ==> forall|k: int|
            0 <= k < p.stages.len() ==> {
                &&& is_tree(aig.drivers@, (#[trigger] p.stages[k]).hier)
                &&& taken(p.stages[k].hier[1]) <= 4095
                &&& reads_known(aig.drivers@, staged.sources(), p.stages, k)
            },
{
    if let Some(p) = realization(aig.drivers@, staged.sources(), staged.endpoints@, ids) {
        let srams = num_srams(staged.endpoints@, ids) as int;
        let dups = num_output_dups(activations(staged.endpoints@, ids));
        lemma_wanted(aig, staged, ids);
        lemma_wide_rows();
        lemma_stages(
            aig.drivers@,
            staged.sources(),
            wanted_by(staged.endpoints@, ids),
            0,
            BOOMERANG_MAX_WRITEOUTS - reserved_writeouts(srams, dups),
        );
    }
}

/// The write-outs of a partition and those that its memories and repeated
/// outputs take up stay within the limit, and it has at most 64 memories.
pub proof fn partition_fits_its_resources(aig: AIG, staged: StagedAIG, ids: Seq<usize>)
    requires
        staged.wf(aig),
        ids_ok(staged.endpoints@, ids),
    ensures
        realization(aig.drivers@, staged.sources(), staged.endpoints@, ids) matches Some(p) ==> {
            &&& num_writeouts(p.stages) + reserved_writeouts(
                num_srams(staged.endpoints@, ids) as int,
                num_output_dups(activations(staged.endpoints@, ids)),
            ) <= BOOMERANG_MAX_WRITEOUTS
            &&& num_srams(staged.endpoints@, ids) <= 64
            &&& forall|k: int|
                0 <= k < p.stages.len() ==> writeouts_in_range(#[trigger] p.stages[k])
        },
{
    if let Some(p) = realization(aig.drivers@, staged.sources(), staged.endpoints@, ids) {
        let srams = num_srams(staged.endpoints@, ids) as int;
        let acts = activations(staged.endpoints@, ids);
        let dups = num_output_dups(acts);
        lemma_dups_nonnegative(acts);
        lemma_wanted(aig, staged, ids);
        lemma_stages(
            aig.drivers@,
            staged.sources(),
            wanted_by(staged.endpoints@, ids),
            0,
            BOOMERANG_MAX_WRITEOUTS - reserved_writeouts(srams, dups),
        );
    }
}

/// Only the first stage of a partition reads from outside, and it reads at most
/// 8191 nodes: behind it, a stage reads nothing but constants and what earlier
/// stages of the partition computed, and no constants either where no and gate
/// has a constant literal. No stage holds more than 4095 nodes above row 0.
pub proof fn partition_has_few_inputs(aig: AIG, staged: StagedAIG, ids: Seq<usize>)
    requires
        staged.wf(aig),
        ids_ok(staged.endpoints@, ids),
    ensures
        realization(aig.drivers@, staged.sources(), staged.endpoints@, ids) matches Some(p) ==> {
            &&& forall|k: int, i: int|
                1 <= k < p.stages.len() && is_cell(0, i) ==> {
                    let x = #[trigger] cell(p.stages[k].hier, 0, i);
                    x != FREE && (x != 0 || no_constants(aig.drivers@)) ==> computed_before(
                        p.stages,
                        k,
                        x,
                    )
                }
            &&& p.stages.len() > 0 ==> row_nodes(p.stages[0].hier[0]).finite() && row_nodes(
                p.stages[0].hier[0],
            ).len() <= 8191
            &&& forall|k: int|
                0 <= k < p.stages.len() ==> upper_nodes((#[trigger] p.stages[k]).hier).finite()
                    && upper_nodes(p.stages[k].hier).len() <= 4095
        },
{
    if let Some(p) = realization(aig.drivers@, staged.sources(), staged.endpoints@, ids) {
        let srams = num_srams(staged.endpoints@, ids) as int;
        let dups = num_output_dups(activations(staged.endpoints@, ids));
        lemma_wanted(aig, staged, ids);
        lemma_stages_hold_few(
            aig.drivers@,
            staged.sources(),
            wanted_by(staged.endpoints@, ids),
            0,
            BOOMERANG_MAX_WRITEOUTS - reserved_writeouts(srams, dups),
        );
        assert forall|k: int| 0 <= k < p.stages.len() implies upper_nodes(
            (#[trigger] p.stages[k]).hier,
        ).finite() && upper_nodes(p.stages[k].hier).len() <= 4095 by {
            assert(holds_few(aig.drivers@, p.stages, k));
        }
        assert forall|k: int, i: int| 1 <= k < p.stages.len() && is_cell(0, i) implies {
            let x = #[trigger] cell(p.stages[k].hier, 0, i);
            x != FREE && (x != 0 || no_constants(aig.drivers@)) ==> computed_before(
                p.stages,
                k,
                x,
            )
        } by {
            assert(holds_few(aig.drivers@, p.stages, k));
        }
        if p.stages.len() > 0 {
            assert(holds_few(aig.drivers@, p.stages, 0));
        }
    }
}

} // verus!
