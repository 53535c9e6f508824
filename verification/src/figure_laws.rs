//! What the figures about partitions count.
use crate::analysis::{
    active_cells, active_nodes, all_slots, boomerang_slots, cell_of_dff, counts_upto, dff_cells,
    highest, is_dff, is_primary_output, is_ram_block, is_staged_io_pin, memory_cells, num_of_kind,
    widest, writes, EndpointCounts,
};
use crate::boomerang::{taken, FREE};
use crate::mapping::{lemma_row_len, shape};
use crate::pe::StageCells;
use crate::seqs::{lemma_tally_none, lemma_tally_some, tally};
use crate::staging::{EndpointGroup, EndpointKind, DFF};
use vstd::prelude::*;

verus! {

/// The endpoints among the first `n` of `ids` whose kind is `sel`.
proof fn lemma_num_of_kind(
    groups: Seq<EndpointGroup>,
    ids: Seq<usize>,
    sel: spec_fn(EndpointKind) -> bool,
    n: int,
)
    requires
        0 <= n <= ids.len(),
    ensures
        num_of_kind(groups, ids, sel, n) == ids.take(n).filter(
            |e: usize| sel(groups[e as int].kind),
        ).len(),
    decreases n,
{
    reveal(Seq::filter);
    if n > 0 {
        lemma_num_of_kind(groups, ids, sel, n - 1);
        assert(ids.take(n).drop_last() =~= ids.take(n - 1));
    } else {
        assert(ids.take(0) =~= Seq::empty());
    }
}

/// The endpoints of each kind are counted: those that are primary outputs, those
/// that are registers, those that are memories, and those that a later stage
/// reads.
pub proof fn endpoints_are_counted_by_kind(
    c: EndpointCounts,
    groups: Seq<EndpointGroup>,
    ids: Seq<usize>,
)
    requires
        counts_upto(c, groups, ids, ids.len() as int),
    ensures
        c.primary_outputs == ids.filter(
            |e: usize| groups[e as int].kind is PrimaryOutput,
        ).len(),
        c.dffs == ids.filter(|e: usize| groups[e as int].kind is DFF).len(),
        c.ram_blocks == ids.filter(|e: usize| groups[e as int].kind is RAMBlock).len(),
        c.staged_io_pins == ids.filter(|e: usize| groups[e as int].kind is StagedIOPin).len(),
        c.primary_outputs + c.dffs + c.ram_blocks + c.staged_io_pins == ids.len(),
{
    let n = ids.len() as int;
    assert(ids.take(n) =~= ids);
    lemma_num_of_kind(groups, ids, is_primary_output(), n);
    lemma_num_of_kind(groups, ids, is_dff(), n);
    lemma_num_of_kind(groups, ids, is_ram_block(), n);
    lemma_num_of_kind(groups, ids, is_staged_io_pin(), n);
    assert((|e: usize| is_primary_output()(groups[e as int].kind)) =~= (|e: usize|
        groups[e as int].kind is PrimaryOutput));
    assert((|e: usize| is_dff()(groups[e as int].kind)) =~= (|e: usize| groups[e as int].kind is
        DFF));
    assert((|e: usize| is_ram_block()(groups[e as int].kind)) =~= (|e: usize|
        groups[e as int].kind is RAMBlock));
    assert((|e: usize| is_staged_io_pin()(groups[e as int].kind)) =~= (|e: usize|
        groups[e as int].kind is StagedIOPin));
}

/// The cell of a memory.
pub open spec fn memory_of(kind: EndpointKind) -> usize {
    kind->RAMBlock_0
}

/// The cells of the memories of a partition are those of its endpoints that are
/// memories, in their order.
pub proof fn memories_are_named_in_order(groups: Seq<EndpointGroup>, ids: Seq<usize>, n: int)
    requires
        0 <= n <= ids.len(),
    ensures
        memory_cells(groups, ids, n) == ids.take(n).filter(
            |e: usize| groups[e as int].kind is RAMBlock,
        ).map_values(|e: usize| memory_of(groups[e as int].kind)),
    decreases n,
{
    reveal(Seq::filter);
    let f = |e: usize| memory_of(groups[e as int].kind);
    let p = |e: usize| groups[e as int].kind is RAMBlock;
    if n > 0 {
        memories_are_named_in_order(groups, ids, n - 1);
        assert(ids.take(n).drop_last() =~= ids.take(n - 1));
        let e = ids[n - 1];
        let s = ids.take(n - 1).filter(p);
        if groups[e as int].kind is RAMBlock {
            assert(s.push(e).map_values(f) =~= s.map_values(f).push(f(e)));
        }
    } else {
        assert(ids.take(0) =~= Seq::empty());
        assert(Seq::<usize>::empty().map_values(f) =~= Seq::empty());
    }
}

/// A cell above row 0 holds `x`, and its group of 32 cells is written out.
pub open spec fn is_written(stage: StageCells, x: usize, g: int, i: int, k: int) -> bool {
    &&& 1 <= g < stage.hier.len()
    &&& 0 <= i < stage.hier[g].len()
    &&& stage.hier[g][i] == x
    &&& 0 <= k < stage.write_outs.len()
    &&& stage.write_outs[k] == ((i + stage.hier[g].len()) / 32) as usize
}

/// Some cell above row 0 holds `x`, and its group is written out.
pub open spec fn is_written_somewhere(stage: StageCells, x: usize) -> bool {
    exists|g: int, i: int, k: int| is_written(stage, x, g, i, k)
}

/// The table names the register of `dff` first at `k`.
pub open spec fn first_in(table: Seq<(usize, DFF)>, dff: DFF, k: int) -> bool {
    &&& 0 <= k < table.len()
    &&& table[k].1 == dff
    &&& forall|j: int| 0 <= j < k ==> (#[trigger] table[j]).1 != dff
}

/// The first register in a table.
proof fn lemma_cell_of_dff(table: Seq<(usize, DFF)>, dff: DFF, from: int)
    requires
        0 <= from <= table.len(),
    ensures
        cell_of_dff(table, dff, from) matches Some(c) ==> exists|k: int|
            from <= k < table.len() && (#[trigger] table[k]).1 == dff && table[k].0 == c && forall|
                j: int,
            | from <= j < k ==> (#[trigger] table[j]).1 != dff,
        cell_of_dff(table, dff, from) is None ==> forall|k: int|
            from <= k < table.len() ==> (#[trigger] table[k]).1 != dff,
    decreases table.len() - from,
{
    if from < table.len() {
        if table[from].1 == dff {
            assert(table[from].0 == cell_of_dff(table, dff, from).unwrap());
        } else {
            lemma_cell_of_dff(table, dff, from + 1);
        }
    }
}

/// A register of a partition is listed for a stage where the stage writes its data
/// node out: the cell is that of the first entry of the table with its pins.
pub open spec fn listed_for(
    groups: Seq<EndpointGroup>,
    ids: Seq<usize>,
    stage: StageCells,
    table: Seq<(usize, DFF)>,
    n: int,
    c: usize,
    p: int,
    k: int,
) -> bool {
    &&& 0 <= p < n
    &&& groups[ids[p] as int].kind matches EndpointKind::DFF(dff)
    &&& is_written_somewhere(stage, (dff.d_iv / 2) as usize)
    &&& first_in(table, dff, k)
    &&& table[k].0 == c
}

/// Writing a node out, by its cell and its write-out.
proof fn lemma_writes(stage: StageCells, x: usize)
    ensures
        writes(stage, x) <==> is_written_somewhere(stage, x),
{
    if writes(stage, x) {
        let (g, i) = choose|g: int, i: int|
            1 <= g < stage.hier.len() && 0 <= i < stage.hier[g].len()
                && #[trigger] stage.hier[g][i] == x && stage.write_outs.contains(
                crate::analysis::group_at(stage.hier, g, i),
            );
        let k = stage.write_outs.index_of(crate::analysis::group_at(stage.hier, g, i));
        assert(is_written(stage, x, g, i, k));
    }
    if is_written_somewhere(stage, x) {
        let (g, i, k) = choose|g: int, i: int, k: int| is_written(stage, x, g, i, k);
        assert(stage.write_outs.contains(stage.write_outs[k]));
        assert(stage.hier[g][i] == x);
    }
}

/// The registers that are listed for a stage are those whose data nodes the stage
/// writes out and that the table names.
pub proof fn registers_are_listed_where_they_are_written(
    groups: Seq<EndpointGroup>,
    ids: Seq<usize>,
    stage: StageCells,
    table: Seq<(usize, DFF)>,
    n: int,
    c: usize,
)
    requires
        0 <= n <= ids.len(),
    ensures
        dff_cells(groups, ids, stage, table, n).contains(c) <==> exists|p: int, k: int| #[trigger]
            listed_for(groups, ids, stage, table, n, c, p, k),
        dff_cells(groups, ids, stage, table, n).len() <= n,
    decreases n,
{
    let r = dff_cells(groups, ids, stage, table, n);
    if n > 0 {
        registers_are_listed_where_they_are_written(groups, ids, stage, table, n - 1, c);
        let s = dff_cells(groups, ids, stage, table, n - 1);
        let kind = groups[ids[n - 1] as int].kind;
        if let EndpointKind::DFF(dff) = kind {
            lemma_writes(stage, (dff.d_iv / 2) as usize);
            lemma_cell_of_dff(table, dff, 0);
        }
        if r.contains(c) {
            let x = r.index_of(c);
            if x < s.len() {
                assert(s[x] == c);
                let (p, k) = choose|p: int, k: int| #[trigger]
                    listed_for(groups, ids, stage, table, n - 1, c, p, k);
                assert(listed_for(groups, ids, stage, table, n, c, p, k));
            } else {
                let dff = kind->DFF_0;
                let k = choose|k: int|
                    0 <= k < table.len() && (#[trigger] table[k]).1 == dff && table[k].0 == c
                        && forall|j: int| 0 <= j < k ==> (#[trigger] table[j]).1 != dff;
                assert(listed_for(groups, ids, stage, table, n, c, n - 1, k));
            }
        }
        if exists|p: int, k: int| #[trigger] listed_for(groups, ids, stage, table, n, c, p, k) {
            let (p, k) = choose|p: int, k: int| #[trigger]
                listed_for(groups, ids, stage, table, n, c, p, k);
            if p < n - 1 {
                assert(listed_for(groups, ids, stage, table, n - 1, c, p, k));
                assert(s.contains(c));
                assert(r[s.index_of(c)] == c);
            } else {
                let dff = kind->DFF_0;
                let found = cell_of_dff(table, dff, 0);
                assert(found is Some) by {
                    if found is None {
                        assert(table[k].1 != dff);
                    }
                }
                let q = choose|q: int|
                    0 <= q < table.len() && (#[trigger] table[q]).1 == dff && table[q].0
                        == found.unwrap() && forall|j: int|
                        0 <= j < q ==> (#[trigger] table[j]).1 != dff;
                assert(q == k) by {
                    if q < k {
                        assert(table[q].1 != dff);
                    }
                    if k < q {
                        assert(table[k].1 != dff);
                    }
                }
                assert(r == s.push(c));
                assert(r[s.len() as int] == c);
            }
        }
    }
}

/// The width of a stage is the number of occupied cells of its fullest row.
pub proof fn width_is_that_of_the_fullest_row(hier: Seq<Seq<usize>>, n: int, g: int)
    requires
        0 <= n <= hier.len(),
    ensures
        0 <= g < n ==> taken(hier[g]) <= widest(hier, n),
        widest(hier, n) == 0 || exists|h: int|
            0 <= h < n && taken(#[trigger] hier[h]) == widest(hier, n),
    decreases n,
{
    if n > 0 {
        width_is_that_of_the_fullest_row(hier, n - 1, g);
        if widest(hier, n) == taken(hier[n - 1]) {
            assert(taken(hier[n - 1]) == widest(hier, n));
        } else {
            width_is_that_of_the_fullest_row(hier, n - 1, n - 1);
            if widest(hier, n - 1) > 0 {
                let h = choose|h: int|
                    0 <= h < n - 1 && taken(#[trigger] hier[h]) == widest(hier, n - 1);
                assert(taken(hier[h]) == widest(hier, n));
            }
        }
    }
}

/// The depth of a stage is its highest row with an occupied cell: no cell above
/// it is occupied, and unless it is 0 it has such a cell.
pub proof fn depth_is_the_highest_occupied_row(hier: Seq<Seq<usize>>, n: int, g: int, i: int)
    requires
        0 <= n <= hier.len(),
    ensures
        0 <= highest(hier, n),
        highest(hier, n) < n || highest(hier, n) == 0,
        highest(hier, n) < g < n && 0 <= i < hier[g].len() ==> hier[g][i] == FREE,
        highest(hier, n) > 0 ==> exists|j: int|
            0 <= j < hier[highest(hier, n)].len() && #[trigger] hier[highest(hier, n)][j] != FREE,
    decreases n,
{
    if n > 0 {
        let p = |x: usize| x != FREE;
        depth_is_the_highest_occupied_row(hier, n - 1, g, i);
        if taken(hier[n - 1]) > 0 {
            if forall|j: int| 0 <= j < hier[n - 1].len() ==> !p(#[trigger] hier[n - 1][j]) {
                lemma_tally_none(hier[n - 1], p);
            }
            let j = choose|j: int| 0 <= j < hier[n - 1].len() && p(#[trigger] hier[n - 1][j]);
            assert(hier[n - 1][j] != FREE);
        } else if g == n - 1 && 0 <= i < hier[g].len() && hier[g][i] != FREE {
            lemma_tally_some(hier[g], p, i);
        }
    }
}

/// The cells of the first `n` rows, row after row.
pub open spec fn cells_upto(hier: Seq<Seq<usize>>, n: int) -> Seq<usize>
    decreases n,
{
    if n <= 0 {
        Seq::empty()
    } else {
        cells_upto(hier, n - 1) + hier[n - 1]
    }
}

/// The cells of the first `n` stages, stage after stage.
pub open spec fn stage_cells_upto(stages: Seq<StageCells>, n: int) -> Seq<usize>
    decreases n,
{
    if n <= 0 {
        Seq::empty()
    } else {
        stage_cells_upto(stages, n - 1) + cells_upto(
            stages[n - 1].hier,
            stages[n - 1].hier.len() as int,
        )
    }
}

/// A tally of two sequences.
proof fn lemma_tally_add(a: Seq<usize>, b: Seq<usize>, p: spec_fn(usize) -> bool)
    ensures
        tally(a + b, p) == tally(a, p) + tally(b, p),
    decreases b.len(),
{
    if b.len() == 0 {
        assert(a + b =~= a);
    } else {
        lemma_tally_add(a, b.drop_last(), p);
        assert((a + b).drop_last() =~= a + b.drop_last());
    }
}

/// The cells of rows.
proof fn lemma_cells(hier: Seq<Seq<usize>>, n: int)
    ensures
        active_cells(hier, n) == tally(cells_upto(hier, n), |x: usize| x != FREE),
        all_slots(hier, n) == cells_upto(hier, n).len(),
    decreases n,
{
    if n > 0 {
        lemma_cells(hier, n - 1);
        lemma_tally_add(cells_upto(hier, n - 1), hier[n - 1], |x: usize| x != FREE);
    }
}

/// The active nodes of stages are their occupied cells, of all rows and stages,
/// and the slots are all their cells.
pub proof fn active_nodes_are_the_occupied_cells(stages: Seq<StageCells>, n: int)
    requires
        0 <= n <= stages.len(),
    ensures
        active_nodes(stages, n) == tally(stage_cells_upto(stages, n), |x: usize| x != usize::MAX),
        boomerang_slots(stages, n) == stage_cells_upto(stages, n).len(),
    decreases n,
{
    let p = |x: usize| x != FREE;
    if n > 0 {
        active_nodes_are_the_occupied_cells(stages, n - 1);
        let h = stages[n - 1].hier;
        lemma_cells(h, h.len() as int);
        lemma_tally_add(stage_cells_upto(stages, n - 1), cells_upto(h, h.len() as int), p);
    }
    assert(p =~= (|x: usize| x != usize::MAX));
}

/// A stage has 16383 cells.
pub proof fn stages_have_as_many_slots(stages: Seq<StageCells>, n: int)
    requires
        0 <= n <= stages.len(),
        forall|k: int| 0 <= k < n ==> shape((#[trigger] stages[k]).hier),
    ensures
        boomerang_slots(stages, n) == 16383 * n,
    decreases n,
{
    if n > 0 {
        stages_have_as_many_slots(stages, n - 1);
        let h = stages[n - 1].hier;
        assert(shape(h));
        lemma_row_len(0);
        lemma_row_len(1);
        lemma_row_len(2);
        lemma_row_len(3);
        lemma_row_len(4);
        lemma_row_len(5);
        lemma_row_len(6);
        lemma_row_len(7);
        lemma_row_len(8);
        lemma_row_len(9);
        lemma_row_len(10);
        lemma_row_len(11);
        lemma_row_len(12);
        lemma_row_len(13);
        reveal_with_fuel(all_slots, 15);
        assert(h.len() == 14);
        assert(all_slots(h, 14) == 16383);
    }
}

} // verus!
