//! Figures about partitions.
use crate::aig::node_of;
use crate::boomerang::{taken, writeout_of, FREE};
use crate::layout::rows;
use crate::mapping::{cell, is_cell, shape};
use crate::pe::{BoomerangStage, Partition, StageCells};
use crate::seqs::{lemma_tally_bound, lemma_tally_push};
use crate::stage_laws::written_out;
use crate::staging::{ids_ok, EndpointGroup, EndpointKind, StagedAIG, DFF};
use vstd::prelude::*;

verus! {

/// How many endpoints of each kind a partition has.
#[derive(Clone, Copy, Debug, PartialEq, Eq, Structural)]
pub struct EndpointCounts {
    pub primary_outputs: usize,
    pub dffs: usize,
    pub ram_blocks: usize,
    pub staged_io_pins: usize,
}

/// The number of endpoints among the first `n` of `ids` whose kind is `sel`.
pub open spec fn num_of_kind(
    groups: Seq<EndpointGroup>,
    ids: Seq<usize>,
    sel: spec_fn(EndpointKind) -> bool,
    n: int,
) -> nat
    decreases n,
{
    if n <= 0 {
        0
    } else {
        num_of_kind(groups, ids, sel, n - 1) + (if sel(groups[ids[n - 1] as int].kind) {
            1nat
        } else {
            0nat
        })
    }
}

/// Chooses primary outputs.
pub open spec fn is_primary_output() -> spec_fn(EndpointKind) -> bool {
    |k: EndpointKind| k is PrimaryOutput
}

/// Chooses registers.
pub open spec fn is_dff() -> spec_fn(EndpointKind) -> bool {
    |k: EndpointKind| k is DFF
}

/// Chooses memory blocks.
pub open spec fn is_ram_block() -> spec_fn(EndpointKind) -> bool {
    |k: EndpointKind| k is RAMBlock
}

/// Chooses nodes that a later stage reads.
pub open spec fn is_staged_io_pin() -> spec_fn(EndpointKind) -> bool {
    |k: EndpointKind| k is StagedIOPin
}

/// The numbers of the first `n` endpoints of `ids`, by kind.
pub open spec fn counts_upto(
    c: EndpointCounts,
    groups: Seq<EndpointGroup>,
    ids: Seq<usize>,
    n: int,
) -> bool {
    &&& c.primary_outputs == num_of_kind(groups, ids, is_primary_output(), n)
    &&& c.dffs == num_of_kind(groups, ids, is_dff(), n)
    &&& c.ram_blocks == num_of_kind(groups, ids, is_ram_block(), n)
    &&& c.staged_io_pins == num_of_kind(groups, ids, is_staged_io_pin(), n)
    &&& c.primary_outputs + c.dffs + c.ram_blocks + c.staged_io_pins == n
}

/// Counts the endpoints of a partition by kind.
pub fn count_endpoint_kinds(staged: &StagedAIG, ids: &Vec<usize>) -> (c: EndpointCounts)
    requires
        ids_ok(staged.endpoints@, ids@),
    ensures
        counts_upto(c, staged.endpoints@, ids@, ids@.len() as int),
{
    let mut c: EndpointCounts = EndpointCounts {
        primary_outputs: 0,
        dffs: 0,
        ram_blocks: 0,
        staged_io_pins: 0,
    };
    let mut i: usize = 0;
    while i < ids.len()
        invariant
            ids_ok(staged.endpoints@, ids@),
            i <= ids@.len(),
            counts_upto(c, staged.endpoints@, ids@, i as int),
        decreases ids@.len() - i,
    {
        match staged.get_endpoint_group(ids[i]).kind {
            EndpointKind::PrimaryOutput(_) => {
                c.primary_outputs += 1;
            },
            EndpointKind::DFF(_) => {
                c.dffs += 1;
            },
            EndpointKind::RAMBlock(_) => {
                c.ram_blocks += 1;
            },
            EndpointKind::StagedIOPin(_) => {
                c.staged_io_pins += 1;
            },
        }
        i += 1;
    }
    c
}

/// The cells of the memory blocks among the first `n` endpoints of `ids`.
pub open spec fn memory_cells(groups: Seq<EndpointGroup>, ids: Seq<usize>, n: int) -> Seq<usize>
    decreases n,
{
    if n <= 0 {
        Seq::empty()
    } else {
        let s = memory_cells(groups, ids, n - 1);
        match groups[ids[n - 1] as int].kind {
            EndpointKind::RAMBlock(cell) => s.push(cell),
            _ => s,
        }
    }
}

/// The cells of the memory blocks of a partition, in the order of its endpoints.
pub fn ram_block_cells(staged: &StagedAIG, ids: &Vec<usize>) -> (cells: Vec<usize>)
    requires
        ids_ok(staged.endpoints@, ids@),
    ensures
        cells@ == memory_cells(staged.endpoints@, ids@, ids@.len() as int),
{
    let mut cells: Vec<usize> = Vec::new();
    for i in 0..ids.len()
        invariant
            ids_ok(staged.endpoints@, ids@),
            cells@ == memory_cells(staged.endpoints@, ids@, i as int),
    {
        if let EndpointKind::RAMBlock(cell) = staged.get_endpoint_group(ids[i]).kind {
            cells.push(cell);
        }
    }
    cells
}

/// The cells named for the memory blocks of a partition are as many as it has
/// memory blocks.
pub proof fn each_memory_is_named(groups: Seq<EndpointGroup>, ids: Seq<usize>, n: int)
    requires
        0 <= n <= ids.len(),
    ensures
        memory_cells(groups, ids, n).len() == num_of_kind(groups, ids, is_ram_block(), n),
    decreases n,
{
    if n > 0 {
        each_memory_is_named(groups, ids, n - 1);
    }
}

/// The group of 32 cells that cell `i` of row `g` is in; the groups are numbered
/// from the top of the tree down.
pub open spec fn group_at(hier: Seq<Seq<usize>>, g: int, i: int) -> usize {
    ((i + hier[g].len()) / 32) as usize
}

/// A stage writes `x` out: it is in a cell above row 0 whose group is one of the
/// write-outs.
pub open spec fn writes(stage: StageCells, x: usize) -> bool {
    exists|g: int, i: int|
        1 <= g < stage.hier.len() && 0 <= i < stage.hier[g].len() && #[trigger] stage.hier[g][i]
            == x && stage.write_outs.contains(group_at(stage.hier, g, i))
}

/// On a stage of the usual shape, a stage writes out what it was mapped to write
/// out.
pub proof fn writes_is_written_out(stage: StageCells, x: usize)
    requires
        shape(stage.hier),
    ensures
        writes(stage, x) <==> written_out(stage.hier, stage.write_outs, x),
{
    if writes(stage, x) {
        let (g, i) = choose|g: int, i: int|
            1 <= g < stage.hier.len() && 0 <= i < stage.hier[g].len()
                && #[trigger] stage.hier[g][i] == x && stage.write_outs.contains(
                group_at(stage.hier, g, i),
            );
        assert(cell(stage.hier, g, i) == x);
        assert(writeout_of(g, i) == group_at(stage.hier, g, i));
        assert(is_cell(g, i));
    }
    if written_out(stage.hier, stage.write_outs, x) {
        let (g, i) = choose|g: int, i: int|
            1 <= g && is_cell(g, i) && #[trigger] cell(stage.hier, g, i) == x
                && stage.write_outs.contains(writeout_of(g, i));
        assert(stage.hier[g][i] == x);
        assert(writeout_of(g, i) == group_at(stage.hier, g, i));
    }
}

/// Whether a stage writes a node out.
fn stage_writes(stage: &BoomerangStage, x: usize) -> (r: bool)
    ensures
        r == writes(stage@, x),
{
    let ghost h = stage@.hier;
    let ghost wo = stage@.write_outs;
    let mut g: usize = 1;
    while g < stage.hier.len()
        invariant
            h == stage@.hier,
            wo == stage@.write_outs,
            1 <= g,
            forall|p: int, i: int|
                1 <= p < g && p < h.len() && 0 <= i < h[p].len() && #[trigger] h[p][i] == x
                    ==> !wo.contains(group_at(h, p, i)),
        decreases stage.hier@.len() - g,
    {
        let level: &Vec<usize> = &stage.hier[g];
        assert(h[g as int] == level@);
        let mut i: usize = 0;
        while i < level.len()
            invariant
                h == stage@.hier,
                wo == stage@.write_outs,
                1 <= g < stage.hier@.len(),
                h[g as int] == level@,
                i <= level@.len(),
                forall|q: int|
                    0 <= q < i && #[trigger] h[g as int][q] == x ==> !wo.contains(
                        group_at(h, g as int, q),
                    ),
            decreases level@.len() - i,
        {
            if level[i] == x {
                let w: usize = ((i as u128 + level.len() as u128) / 32) as usize;
                assert(h[g as int][i as int] == x);
                assert(w == group_at(h, g as int, i as int));
                if has_index(&stage.write_outs, w) {
                    return true;
                }
            }
            i += 1;
        }
        g += 1;
    }
    false
}

/// Whether a value is in a list.
fn has_index(v: &Vec<usize>, x: usize) -> (r: bool)
    ensures
        r == v@.contains(x),
{
    for i in 0..v.len()
        invariant
            forall|k: int| 0 <= k < i ==> #[trigger] v@[k] != x,
    {
        if v[i] == x {
            assert(v@[i as int] == x);
            return true;
        }
    }
    false
}

/// The cell of the first register in a table that equals `dff`.
pub open spec fn cell_of_dff(table: Seq<(usize, DFF)>, dff: DFF, from: int) -> Option<usize>
    decreases table.len() - from,
{
    if from >= table.len() {
        None
    } else if table[from].1 == dff {
        Some(table[from].0)
    } else {
        cell_of_dff(table, dff, from + 1)
    }
}

/// The cells of the registers among the first `n` endpoints whose data node the
/// stage writes out.
pub open spec fn dff_cells(
    groups: Seq<EndpointGroup>,
    ids: Seq<usize>,
    stage: StageCells,
    table: Seq<(usize, DFF)>,
    n: int,
) -> Seq<usize>
    decreases n,
{
    if n <= 0 {
        Seq::empty()
    } else {
        let s = dff_cells(groups, ids, stage, table, n - 1);
        match groups[ids[n - 1] as int].kind {
            EndpointKind::DFF(dff) => if writes(stage, (dff.d_iv / 2) as usize) {
                match cell_of_dff(table, dff, 0) {
                    Some(c) => s.push(c),
                    None => s,
                }
            } else {
                s
            },
            _ => s,
        }
    }
}

/// The cell of the first register in a table that equals `dff`.
fn find_dff(table: &Vec<(usize, DFF)>, dff: DFF) -> (c: Option<usize>)
    ensures
        c == cell_of_dff(table@, dff, 0),
{
    let mut i: usize = 0;
    while i < table.len()
        invariant
            i <= table@.len(),
            cell_of_dff(table@, dff, 0) == cell_of_dff(table@, dff, i as int),
        decreases table@.len() - i,
    {
        if table[i].1 == dff {
            return Some(table[i].0);
        }
        i += 1;
    }
    None
}

/// The cells of the registers of a partition whose data node stage
/// `target_stage`, counted from 1, writes out; none if the partition has no such
/// stage.
pub fn dffs_in_stage(
    partition: &Partition,
    staged: &StagedAIG,
    table: &Vec<(usize, DFF)>,
    target_stage: usize,
) -> (r: Option<Vec<usize>>)
    requires
        ids_ok(staged.endpoints@, partition.endpoints@),
        target_stage >= 1,
    ensures
        match r {
            None => partition.stages@.len() < target_stage,
            Some(cells) => partition.stages@.len() >= target_stage && cells@ == dff_cells(
                staged.endpoints@,
                partition.endpoints@,
                partition@.stages[target_stage - 1],
                table@,
                partition.endpoints@.len() as int,
            ),
        },
{
    if partition.stages.len() < target_stage {
        return None;
    }
    let stage: &BoomerangStage = &partition.stages[target_stage - 1];
    assert(stage@ == partition@.stages[target_stage - 1]);
    let mut cells: Vec<usize> = Vec::new();
    let mut i: usize = 0;
    while i < partition.endpoints.len()
        invariant
            ids_ok(staged.endpoints@, partition.endpoints@),
            i <= partition.endpoints@.len(),
            cells@ == dff_cells(
                staged.endpoints@,
                partition.endpoints@,
                stage@,
                table@,
                i as int,
            ),
        decreases partition.endpoints@.len() - i,
    {
        if let EndpointKind::DFF(dff) = staged.get_endpoint_group(partition.endpoints[i]).kind {
            if stage_writes(stage, node_of(dff.d_iv)) {
                if let Some(c) = find_dff(table, dff) {
                    cells.push(c);
                }
            }
        }
        i += 1;
    }
    Some(cells)
}

/// Figures about a stage.
#[derive(Clone, Copy, Debug, PartialEq, Eq, Structural)]
pub struct StageFigures {
    /// The most occupied cells in a row.
    pub width: usize,
    /// The highest row with an occupied cell.
    pub depth: usize,
    pub write_outs: usize,
}

/// The most occupied cells in one of the first `n` rows.
pub open spec fn widest(hier: Seq<Seq<usize>>, n: int) -> nat
    decreases n,
{
    if n <= 0 {
        0
    } else if taken(hier[n - 1]) > widest(hier, n - 1) {
        taken(hier[n - 1])
    } else {
        widest(hier, n - 1)
    }
}

/// The highest of the first `n` rows with an occupied cell; 0 if there is none.
pub open spec fn highest(hier: Seq<Seq<usize>>, n: int) -> int
    decreases n,
{
    if n <= 0 {
        0
    } else if taken(hier[n - 1]) > 0 {
        n - 1
    } else {
        highest(hier, n - 1)
    }
}

/// The number of occupied cells of a row.
fn count_active(level: &Vec<usize>) -> (n: usize)
    ensures
        n == taken(level@),
{
    let mut n: usize = 0;
    let mut i: usize = 0;
    assert(level@.take(0) =~= Seq::empty());
    while i < level.len()
        invariant
            i <= level@.len(),
            n == taken(level@.take(i as int)),
            n <= i,
        decreases level@.len() - i,
    {
        assert(level@.take(i + 1) =~= level@.take(i as int).push(level@[i as int]));
        proof {
            lemma_tally_push(level@.take(i as int), |x: usize| x != FREE, level@[i as int]);
        }
        if level[i] != FREE {
            n += 1;
        }
        i += 1;
    }
    assert(level@.take(i as int) =~= level@);
    n
}

/// The width, depth and number of write-outs of a stage.
pub fn analyze_boomerang_stage(boomerang_stage: &BoomerangStage) -> (f: StageFigures)
    ensures
        f.width == widest(boomerang_stage@.hier, boomerang_stage@.hier.len() as int),
        f.depth == highest(boomerang_stage@.hier, boomerang_stage@.hier.len() as int),
        f.write_outs == boomerang_stage@.write_outs.len(),
{
    let ghost h = boomerang_stage@.hier;
    let mut width: usize = 0;
    let mut depth: usize = 0;
    let mut g: usize = 0;
    while g < boomerang_stage.hier.len()
        invariant
            h == boomerang_stage@.hier,
            g <= boomerang_stage.hier@.len(),
            width == widest(h, g as int),
            depth == highest(h, g as int),
        decreases boomerang_stage.hier@.len() - g,
    {
        assert(h[g as int] == boomerang_stage.hier@[g as int]@);
        let active: usize = count_active(&boomerang_stage.hier[g]);
        if active > width {
            width = active;
        }
        if active > 0 {
            depth = g;
        }
        g += 1;
    }
    StageFigures { width, depth, write_outs: boomerang_stage.write_outs.len() }
}

/// The occupied cells in the first `n` rows.
pub open spec fn active_cells(hier: Seq<Seq<usize>>, n: int) -> nat
    decreases n,
{
    if n <= 0 {
        0
    } else {
        active_cells(hier, n - 1) + taken(hier[n - 1])
    }
}

/// The cells in the first `n` rows.
pub open spec fn all_slots(hier: Seq<Seq<usize>>, n: int) -> nat
    decreases n,
{
    if n <= 0 {
        0
    } else {
        all_slots(hier, n - 1) + hier[n - 1].len()
    }
}

/// The occupied cells of the first `n` stages.
pub open spec fn active_nodes(stages: Seq<StageCells>, n: int) -> nat
    decreases n,
{
    if n <= 0 {
        0
    } else {
        active_nodes(stages, n - 1) + active_cells(
            stages[n - 1].hier,
            stages[n - 1].hier.len() as int,
        )
    }
}

/// The cells of the first `n` stages.
pub open spec fn boomerang_slots(stages: Seq<StageCells>, n: int) -> nat
    decreases n,
{
    if n <= 0 {
        0
    } else {
        boomerang_slots(stages, n - 1) + all_slots(
            stages[n - 1].hier,
            stages[n - 1].hier.len() as int,
        )
    }
}

/// Figures about a partition.
#[derive(Clone, Copy, Debug, PartialEq, Eq, Structural)]
pub struct PartitionFigures {
    pub num_stages: usize,
    pub num_endpoints: usize,
    /// The occupied cells of all stages.
    pub active_nodes: usize,
    /// The cells of all stages.
    pub slots: usize,
}

/// More rows have no fewer cells, and no more of them are occupied.
proof fn lemma_slots_mono(hier: Seq<Seq<usize>>, n: int, m: int)
    requires
        0 <= n <= m,
    ensures
        all_slots(hier, n) <= all_slots(hier, m),
        active_cells(hier, n) <= all_slots(hier, n),
    decreases m,
{
    if n < m {
        lemma_slots_mono(hier, n, m - 1);
    } else if n > 0 {
        lemma_slots_mono(hier, n - 1, n - 1);
        lemma_tally_bound(hier[n - 1], |x: usize| x != FREE);
    }
}

/// More stages have no fewer cells, and no more of them are occupied.
proof fn lemma_stage_slots_mono(stages: Seq<StageCells>, n: int, m: int)
    requires
        0 <= n <= m,
    ensures
        boomerang_slots(stages, n) <= boomerang_slots(stages, m),
        active_nodes(stages, n) <= boomerang_slots(stages, n),
    decreases m,
{
    if n < m {
        lemma_stage_slots_mono(stages, n, m - 1);
    } else if n > 0 {
        lemma_stage_slots_mono(stages, n - 1, n - 1);
        let h = stages[n - 1].hier;
        lemma_slots_mono(h, h.len() as int, h.len() as int);
    }
}

/// There are no more occupied cells than cells.
pub proof fn active_nodes_are_cells(stages: Seq<StageCells>)
    ensures
        active_nodes(stages, stages.len() as int) <= boomerang_slots(
            stages,
            stages.len() as int,
        ),
{
    lemma_stage_slots_mono(stages, stages.len() as int, stages.len() as int);
}

/// The occupied cells and the cells of a stage.
fn stage_cells(stage: &BoomerangStage) -> (r: (usize, usize))
    requires
        all_slots(stage@.hier, stage@.hier.len() as int) <= usize::MAX,
    ensures
        r.0 == active_cells(stage@.hier, stage@.hier.len() as int),
        r.1 == all_slots(stage@.hier, stage@.hier.len() as int),
{
    let ghost h = stage@.hier;
    let mut active: usize = 0;
    let mut slots: usize = 0;
    let mut g: usize = 0;
    while g < stage.hier.len()
        invariant
            h == stage@.hier,
            h.len() == stage.hier@.len(),
            all_slots(h, h.len() as int) <= usize::MAX,
            g <= stage.hier@.len(),
            active == active_cells(h, g as int),
            slots == all_slots(h, g as int),
        decreases stage.hier@.len() - g,
    {
        assert(h[g as int] == stage.hier@[g as int]@);
        proof {
            lemma_slots_mono(h, g + 1, h.len() as int);
            lemma_slots_mono(h, g + 1, g + 1);
        }
        active = active + count_active(&stage.hier[g]);
        slots = slots + stage.hier[g].len();
        g += 1;
    }
    (active, slots)
}

/// The numbers of stages, endpoints, occupied cells and cells of a partition.
pub fn analyze_partition(partition: &Partition) -> (f: PartitionFigures)
    requires
        boomerang_slots(partition@.stages, partition@.stages.len() as int) <= usize::MAX,
    ensures
        f.num_stages == partition@.stages.len(),
        f.num_endpoints == partition@.endpoints.len(),
        f.active_nodes == active_nodes(partition@.stages, partition@.stages.len() as int),
        f.slots == boomerang_slots(partition@.stages, partition@.stages.len() as int),
{
    let ghost ss = partition@.stages;
    let mut active: usize = 0;
    let mut slots: usize = 0;
    let mut k: usize = 0;
    while k < partition.stages.len()
        invariant
            ss == partition@.stages,
            ss.len() == partition.stages@.len(),
            boomerang_slots(ss, ss.len() as int) <= usize::MAX,
            k <= partition.stages@.len(),
            active == active_nodes(ss, k as int),
            slots == boomerang_slots(ss, k as int),
        decreases partition.stages@.len() - k,
    {
        assert(ss[k as int] == partition.stages@[k as int]@);
        proof {
            lemma_stage_slots_mono(ss, k + 1, ss.len() as int);
            lemma_stage_slots_mono(ss, k + 1, k + 1);
        }
        let (a, s) = stage_cells(&partition.stages[k]);
        active = active + a;
        slots = slots + s;
        k += 1;
    }
    PartitionFigures {
        num_stages: partition.stages.len(),
        num_endpoints: partition.endpoints.len(),
        active_nodes: active,
        slots,
    }
}

} // verus!
