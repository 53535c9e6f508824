//! How many nodes a partition writes out.
use crate::aig::AIG;
use crate::boomerang::{row_len, writeout_of, BOOMERANG_NUM_STAGES, FREE};
use crate::endpoints::{activations, num_output_dups, num_srams, reserved_writeouts};
use crate::mapping::{cell, is_cell, lemma_row_len};
use crate::partition_laws::{
    num_writeouts, partition_fits_its_resources, partition_writes_out_its_endpoints,
    written_by_some,
};
use crate::pe::{realization, StageCells};
use crate::stage_laws::written_out;
use crate::staging::{ids_ok, inputs_of, lemma_inputs_in_range, StagedAIG};
use vstd::prelude::*;
use vstd::set_lib::{lemma_len_subset, lemma_len_union};

verus! {

/// The nodes that are written out by one of the stages.
pub open spec fn written_nodes(stages: Seq<StageCells>) -> Set<usize> {
    Set::new(|x: usize| x != FREE && written_by_some(stages, x))
}

/// The nodes that one stage writes out.
spec fn written_in(s: StageCells) -> Set<usize> {
    Set::new(|x: usize| x != FREE && written_out(s.hier, s.write_outs, x))
}

/// `x` is in the cell with number `n`, where the cells above row 0 are numbered
/// from the top of the tree down.
spec fn at_number(hier: Seq<Seq<usize>>, n: int, x: usize) -> bool {
    exists|g: int, i: int|
        1 <= g && is_cell(g, i) && #[trigger] cell(hier, g, i) == x && i + row_len(g) == n
}

/// The node in the cell with number `n`.
spec fn numbered(hier: Seq<Seq<usize>>, n: int) -> usize {
    choose|x: usize| at_number(hier, n, x)
}

/// A row is at least twice as wide as the rows above it.
proof fn lemma_narrower(g: int, h: int)
    requires
        0 <= g < h <= BOOMERANG_NUM_STAGES,
    ensures
        2 * row_len(h) <= row_len(g),
    decreases h - g,
{
    lemma_row_len(h);
    if g < h - 1 {
        lemma_narrower(g, h - 1);
    }
}

/// Different cells have different numbers.
proof fn lemma_one_number(hier: Seq<Seq<usize>>, n: int, x: usize, y: usize)
    requires
        at_number(hier, n, x),
        at_number(hier, n, y),
    ensures
        x == y,
{
    let (g, i) = choose|g: int, i: int|
        1 <= g && is_cell(g, i) && #[trigger] cell(hier, g, i) == x && i + row_len(g) == n;
    let (h, j) = choose|h: int, j: int|
        1 <= h && is_cell(h, j) && #[trigger] cell(hier, h, j) == y && j + row_len(h) == n;
    if g < h {
        lemma_narrower(g, h);
    } else if h < g {
        lemma_narrower(h, g);
    }
}

/// The nodes of a group.
spec fn group_nodes(hier: Seq<Seq<usize>>, w: usize) -> Set<usize> {
    Set::new(
        |x: usize| exists|g: int, i: int|
            1 <= g && is_cell(g, i) && #[trigger] cell(hier, g, i) == x && writeout_of(g, i) == w,
    )
}

/// A group has 32 cells.
proof fn lemma_group_nodes(hier: Seq<Seq<usize>>, w: usize)
    ensures
        group_nodes(hier, w).finite(),
        group_nodes(hier, w).len() <= 32,
{
    let s = Seq::new(32, |k: int| numbered(hier, 32 * w + k));
    assert forall|x: usize| group_nodes(hier, w).contains(x) implies s.to_set().contains(x) by {
        let (g, i) = choose|g: int, i: int|
            1 <= g && is_cell(g, i) && #[trigger] cell(hier, g, i) == x && writeout_of(g, i) == w;
        lemma_row_len(g);
        let n = i + row_len(g);
        let k = n - 32 * w;
        assert(0 <= k < 32);
        assert(at_number(hier, n, x));
        lemma_one_number(hier, n, x, s[k]);
        assert(s[k] == x);
    }
    s.lemma_cardinality_of_set();
    assert(group_nodes(hier, w).subset_of(s.to_set()));
    lemma_len_subset(group_nodes(hier, w), s.to_set());
}

/// Every write-out brings 32 nodes at most.
proof fn lemma_stage_nodes(s: StageCells)
    ensures
        written_in(s).finite(),
        written_in(s).len() <= 32 * s.write_outs.len(),
    decreases s.write_outs.len(),
{
    if s.write_outs.len() == 0 {
        assert(written_in(s) =~= Set::empty());
    } else {
        let t = StageCells { hier: s.hier, write_outs: s.write_outs.drop_last() };
        let w = s.write_outs.last();
        lemma_stage_nodes(t);
        lemma_group_nodes(s.hier, w);
        let both = written_in(t).union(group_nodes(s.hier, w));
        assert forall|x: usize| written_in(s).contains(x) implies both.contains(x) by {
            let (g, i) = choose|g: int, i: int|
                1 <= g && is_cell(g, i) && #[trigger] cell(s.hier, g, i) == x
                    && s.write_outs.contains(writeout_of(g, i));
            let v = writeout_of(g, i);
            if v == w {
                assert(group_nodes(s.hier, w).contains(x));
            } else {
                assert(t.write_outs[s.write_outs.index_of(v)] == v);
                assert(written_out(t.hier, t.write_outs, x));
            }
        }
        lemma_len_union(written_in(t), group_nodes(s.hier, w));
        assert(written_in(s).subset_of(both));
        lemma_len_subset(written_in(s), both);
    }
}

/// All stages together bring 32 nodes at most for each write-out.
pub proof fn writeouts_bring_few_nodes(stages: Seq<StageCells>)
    ensures
        written_nodes(stages).finite(),
        written_nodes(stages).len() <= 32 * num_writeouts(stages),
    decreases stages.len(),
{
    if stages.len() == 0 {
        assert(written_nodes(stages) =~= Set::empty());
    } else {
        let rest = stages.drop_first();
        writeouts_bring_few_nodes(rest);
        lemma_stage_nodes(stages[0]);
        let both = written_in(stages[0]).union(written_nodes(rest));
        assert forall|x: usize| written_nodes(stages).contains(x) implies both.contains(x) by {
            let k = choose|k: int|
                0 <= k < stages.len() && written_out(
                    (#[trigger] stages[k]).hier,
                    stages[k].write_outs,
                    x,
                );
            if k > 0 {
                assert(rest[k - 1] == stages[k]);
            }
        }
        lemma_len_union(written_in(stages[0]), written_nodes(rest));
        assert(written_nodes(stages).subset_of(both));
        lemma_len_subset(written_nodes(stages), both);
    }
}

/// A partition writes out 32 nodes at most for each of its write-outs, so 8192
/// at most, and 32 fewer for each write-out that its memories and repeated
/// outputs take up; and its endpoints read no others.
pub proof fn partition_has_few_outputs(aig: AIG, staged: StagedAIG, ids: Seq<usize>)
    requires
        staged.wf(aig),
        ids_ok(staged.endpoints@, ids),
    ensures
        realization(aig.drivers@, staged.sources(), staged.endpoints@, ids) matches Some(p) ==> {
            &&& written_nodes(p.stages).finite()
            &&& written_nodes(p.stages).len() <= 32 * num_writeouts(p.stages)
            &&& written_nodes(p.stages).len() <= 8192 - 32 * reserved_writeouts(
                num_srams(staged.endpoints@, ids) as int,
                num_output_dups(activations(staged.endpoints@, ids)),
            )
            &&& inputs_of(staged.endpoints@, ids).to_set().subset_of(written_nodes(p.stages))
            &&& inputs_of(staged.endpoints@, ids).to_set().len() <= written_nodes(p.stages).len()
        },
{
    if let Some(p) = realization(aig.drivers@, staged.sources(), staged.endpoints@, ids) {
        let pins = inputs_of(staged.endpoints@, ids);
        writeouts_bring_few_nodes(p.stages);
        partition_fits_its_resources(aig, staged, ids);
        partition_writes_out_its_endpoints(aig, staged, ids);
        lemma_inputs_in_range(aig.drivers@, staged.endpoints@, ids);
        assert forall|x: usize| pins.to_set().contains(x) implies written_nodes(
            p.stages,
        ).contains(x) by {
            assert(pins.contains(x));
            assert(pins[pins.index_of(x)] < aig.drivers@.len());
            assert(aig.drivers@.len() == aig.drivers.len());
        }
        assert(pins.to_set().subset_of(written_nodes(p.stages)));
        lemma_len_subset(pins.to_set(), written_nodes(p.stages));
    }
}

} // verus!
