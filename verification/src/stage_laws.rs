//! What every mapped stage satisfies.
use crate::boomerang::{
    fill_groups, finish, first_fill, first_free, group_writeouts, inserted_all, is_needed,
    is_placed, job_ok, lemma_first_free, more_writeouts, necessary, roomy, row_len, settle,
    some_untouched, stage, taken, upper_mapping, wanted_lvl1, wanted_placed, writeout_of, Fill, Job,
    Mapping, BOOMERANG_MAX_WRITEOUTS, BOOMERANG_NUM_STAGES, FREE,
};
use crate::distances::ready;
use crate::mapping::{
    cell, fits_row, inputs_ok, is_cell, lemma_counted, lemma_counted_cell, lemma_wide_rows, shape,
    tree_ok,
};
use crate::seqs::{lemma_filter, lemma_tally_less};
use crate::sorts::{lemma_orders, lemma_sort_contains, pair_le};
use crate::soundness::{
    covered, in_group, keeps, lemma_covered_kept, lemma_fill_groups, lemma_inserted_all,
    lemma_keeps_count, lemma_keeps_trans, lemma_more_writeouts, lemma_removed_all, lemma_settle,
    lemma_upper, lvl1_ok,
};
use crate::stage::{lemma_need_fits, lemma_spaces, spaces_of};
use vstd::prelude::*;

verus! {

/// `x` is in a cell above row 0.
pub open spec fn in_cells(hier: Seq<Seq<usize>>, x: usize) -> bool {
    exists|g: int, i: int| 1 <= g && is_cell(g, i) && #[trigger] cell(hier, g, i) == x
}

/// `x` is in a cell whose group is written out.
pub open spec fn written_out(hier: Seq<Seq<usize>>, write_outs: Seq<usize>, x: usize) -> bool {
    exists|g: int, i: int|
        1 <= g && is_cell(g, i) && #[trigger] cell(hier, g, i) == x && write_outs.contains(
            writeout_of(g, i),
        )
}

/// What is known of the first fill of row 1.
pub open spec fn first_ok(c: Job, f: Fill, groups: Seq<(usize, usize)>) -> bool {
    let m = upper_mapping(c);
    &&& ready(c, f.m, 1)
    &&& keeps(m, f.m)
    &&& f.done.no_duplicates()
    &&& forall|x: usize| #[trigger] f.done.contains(x) ==> c.outs.contains(x) && x != FREE
        && f.m.count.contains_key(x)
    &&& covered(f.m, f.done, groups, groups.len() as int)
    &&& forall|s: int|
        0 <= s < groups.len() ==> (#[trigger] groups[s]).1 + 32 <= row_len(1) && groups[s].1 % 32
            == 0
}

/// Groups start at multiples of their size.
proof fn lemma_roomy_aligned(row: Seq<usize>, n: int)
    requires
        0 <= n <= 128,
    ensures
        forall|s: int| 0 <= s < roomy(row, n).len() ==> (#[trigger] roomy(row, n)[s]).1 % 32 == 0,
    decreases n,
{
    if n > 0 {
        lemma_roomy_aligned(row, n - 1);
        let first = ((n - 1) * 32) as usize;
        assert(first == 32 * (n - 1));
        let r = roomy(row, n - 1);
        let t = roomy(row, n);
        assert forall|s: int| 0 <= s < t.len() implies (#[trigger] t[s]).1 % 32 == 0 by {
            if s < r.len() {
                assert(t[s] == r[s]);
            } else {
                assert(t[s].1 == first);
            }
        }
    }
}

/// Sorted groups start at multiples of their size.
proof fn lemma_spaces_aligned(row: Seq<usize>)
    requires
        row.len() == row_len(1),
    ensures
        forall|s: int| 0 <= s < spaces_of(row).len() ==> (#[trigger] spaces_of(row)[s]).1 % 32 == 0,
{
    lemma_wide_rows();
    let r = roomy(row, 128);
    lemma_roomy_aligned(row, 128);
    lemma_orders();
    lemma_sort_contains(r, pair_le());
    let t = spaces_of(row);
    assert forall|s: int| 0 <= s < t.len() implies (#[trigger] t[s]).1 % 32 == 0 by {
        assert(t.contains(t[s]));
        assert(r[r.index_of(t[s])] == t[s]);
    }
}

/// The wanted nodes of row 1 fit there.
pub proof fn lemma_lvl1(c: Job, m: Mapping)
    requires
        job_ok(c),
    ensures
        lvl1_ok(c, wanted_lvl1(c, m, necessary(c, m.count.dom()))),
{
    let need = necessary(c, m.count.dom());
    let lvl1 = wanted_lvl1(c, m, need);
    lemma_need_fits(c, m.count.dom());
    lemma_filter(c.outs, is_needed(m, need));
    assert forall|i: int| 0 <= i < lvl1.len() implies fits_row(c, 1, #[trigger] lvl1[i])
        && c.outs.contains(lvl1[i]) by {
        assert(lvl1.contains(lvl1[i]));
        assert(need[need.index_of(lvl1[i])] == lvl1[i]);
    }
}

/// What holds once the groups are filled.
proof fn lemma_first(c: Job)
    requires
        job_ok(c),
    ensures
        ({
            let m = upper_mapping(c);
            let (f, groups) = first_fill(c, m, necessary(c, m.count.dom()));
            first_ok(c, f, groups)
        }),
{
    let m = upper_mapping(c);
    let need = necessary(c, m.count.dom());
    let lvl1 = wanted_lvl1(c, m, need);
    let spaces = spaces_of(m.hier[1]);
    lemma_upper(c);
    lemma_lvl1(c, m);
    lemma_spaces(m.hier[1]);
    lemma_spaces_aligned(m.hier[1]);
    let start = Fill { m, next: 0, done: Seq::empty() };
    let all = !some_untouched(c, m, need);
    lemma_fill_groups(c, start, lvl1, spaces, all, 0);
    let (f, n) = fill_groups(c, start, lvl1, spaces, all, 0);
    let groups = spaces.take(n);
    assert(covered(f.m, f.done, groups, n)) by {
        assert forall|y: usize| #[trigger] f.done.contains(y) implies exists|s: int|
            0 <= s < n && in_group(f.m, y, (#[trigger] groups[s]).1 as int) by {
            let s = choose|s: int| 0 <= s < n && in_group(f.m, y, (#[trigger] spaces[s]).1 as int);
            assert(groups[s] == spaces[s]);
        }
    }
    assert forall|s: int| 0 <= s < groups.len() implies (#[trigger] groups[s]).1 + 32 <= row_len(1)
        && groups[s].1 % 32 == 0 by {
        assert(groups[s] == spaces[s]);
    }
}

/// What is known of the cells of a stage that succeeds.
pub open spec fn settled(c: Job, f: Fill, groups: Seq<(usize, usize)>, m3: Mapping, from: int) -> bool {
    let m = upper_mapping(c);
    let need = necessary(c, m.count.dom());
    &&& (f, groups) == first_fill(c, m, need)
    &&& first_ok(c, f, groups)
    &&& settle(c, f.m, f.done, need, 0, 0) == Some((m3, from))
    &&& 0 <= from <= row_len(1)
    &&& ready(c, m3, 1)
    &&& keeps(f.m, m3)
    &&& forall|i: int| 0 <= i < need.len() ==> m3.count.contains_key(#[trigger] need[i])
    &&& forall|x: usize| #[trigger] f.done.contains(x) ==> m3.count.contains_key(x)
}

/// What holds once all nodes of row 1 are placed.
pub proof fn lemma_settled(c: Job, total: int, limit: int) -> (r: (
    Fill,
    Seq<(usize, usize)>,
    Mapping,
    int,
))
    requires
        job_ok(c),
        stage(c, total, limit) is Some,
    ensures
        settled(c, r.0, r.1, r.2, r.3),
        total + r.1.len() <= limit,
        first_free(r.2.hier[1], r.3) < row_len(1),
        stage(c, total, limit) == Some(
            finish(
                c,
                r.2,
                r.0.done,
                group_writeouts(r.1),
                !some_untouched(c, upper_mapping(c), necessary(c, upper_mapping(c).count.dom())),
                wanted_placed(c, upper_mapping(c)),
                total + r.1.len(),
                limit,
            ),
        ),
{
    reveal(stage);
    let m = upper_mapping(c);
    let need = necessary(c, m.count.dom());
    let (f, groups) = first_fill(c, m, need);
    lemma_first(c);
    lemma_need_fits(c, m.count.dom());
    lemma_wide_rows();
    lemma_settle(c, f.m, f.done, need, 0, 0);
    let (m3, from) = settle(c, f.m, f.done, need, 0, 0).unwrap();
    assert forall|x: usize| #[trigger] f.done.contains(x) implies m3.count.contains_key(x) by {
        lemma_keeps_count(f.m, m3, x);
    }
    assert forall|i: int| 0 <= i < need.len() implies m3.count.contains_key(#[trigger] need[i]) by {
        if !m3.count.contains_key(need[i]) {
            assert(f.done.contains(need[i]));
        }
    }
    (f, groups, m3, from)
}

/// A mapped stage is a tree over the graph: every cell above row 0 passes a
/// node through or is the and gate of the cells that it reads, row 0 holds
/// only nodes whose values are there before the stage, and at least one cell of
/// row 1 is left free.
pub proof fn stage_is_a_tree(c: Job, total: int, limit: int)
    requires
        job_ok(c),
    ensures
        stage(c, total, limit) matches Some(st) ==> {
            &&& shape(st.hier)
            &&& tree_ok(c, st.hier)
            &&& inputs_ok(c, st.hier)
            &&& taken(st.hier[1]) < row_len(1)
        },
{
    if stage(c, total, limit) is Some {
        let (f, groups, m3, from) = lemma_settled(c, total, limit);
        lemma_first_free(m3.hier[1], from);
        lemma_tally_less(
            m3.hier[1],
            |x: usize| x != FREE,
            first_free(m3.hier[1], from),
        );
    }
}

/// The inputs of the next stage are those of the stage and the nodes in its
/// cells above row 0.
pub proof fn stage_remembers_its_cells(c: Job, total: int, limit: int)
    requires
        job_ok(c),
    ensures
        stage(c, total, limit) matches Some(st) ==> forall|x: usize|
            #![trigger st.stops.contains(x)]
            x != FREE ==> (st.stops.contains(x) <==> c.stops.contains(x) || in_cells(st.hier, x)),
{
    if stage(c, total, limit) is Some {
        let (f, groups, m3, from) = lemma_settled(c, total, limit);
        let st = stage(c, total, limit).unwrap();
        assert forall|x: usize| x != FREE implies (#[trigger] st.stops.contains(x)
            <==> c.stops.contains(x) || in_cells(st.hier, x)) by {
            if m3.count.contains_key(x) {
                let (g, i) = lemma_counted_cell(m3, x);
                assert(cell(st.hier, g, i) == x);
            }
            if in_cells(st.hier, x) {
                let (g, i) = choose|g: int, i: int|
                    1 <= g && is_cell(g, i) && #[trigger] cell(st.hier, g, i) == x;
                lemma_counted(m3, g, i);
            }
        }
    }
}

/// The write-out of a group of row 1 is that of each of its cells.
proof fn lemma_group_writeout(start: int, j: int)
    requires
        0 <= start,
        start % 32 == 0,
        start <= j < start + 32,
        start + 32 <= row_len(1),
    ensures
        writeout_of(1, start) == writeout_of(1, j),
        writeout_of(1, start) < BOOMERANG_MAX_WRITEOUTS,
{
    lemma_wide_rows();
}

/// The write-outs in use grow by those of the stage and stay within the limit,
/// and each names a group of the tree.
pub proof fn stage_counts_its_write_outs(c: Job, total: int, limit: int)
    requires
        job_ok(c),
    ensures
        stage(c, total, limit) matches Some(st) ==> {
            &&& st.total == total + st.write_outs.len()
            &&& st.total <= limit
            &&& forall|i: int|
                0 <= i < st.write_outs.len() ==> #[trigger] st.write_outs[i]
                    < BOOMERANG_MAX_WRITEOUTS
        },
{
    if stage(c, total, limit) is Some {
        let (f, groups, m3, from) = lemma_settled(c, total, limit);
        let st = stage(c, total, limit).unwrap();
        let wo = group_writeouts(groups);
        let more = more_writeouts(
            m3.hier,
            wanted_placed(c, upper_mapping(c)),
            f.done,
            BOOMERANG_NUM_STAGES + 1,
        );
        lemma_more_writeouts(
            m3.hier,
            wanted_placed(c, upper_mapping(c)),
            f.done,
            BOOMERANG_NUM_STAGES + 1,
        );
        assert forall|i: int| 0 <= i < wo.len() implies #[trigger] wo[i]
            < BOOMERANG_MAX_WRITEOUTS by {
            let g = groups[i];
            lemma_group_writeout(g.1 as int, g.1 as int);
        }
        assert forall|i: int| 0 <= i < more.len() implies #[trigger] more[i]
            < BOOMERANG_MAX_WRITEOUTS by {
            assert(more.contains(more[i]));
        }
        assert forall|i: int| 0 <= i < st.write_outs.len() implies #[trigger] st.write_outs[i]
            < BOOMERANG_MAX_WRITEOUTS by {
            if i < wo.len() {
                assert(st.write_outs[i] == wo[i]);
            } else {
                assert(st.write_outs[i] == more[i - wo.len()]);
            }
        }
    }
}

/// A node that was written out in row 1 is in a group that is.
proof fn lemma_done_written(
    c: Job,
    f: Fill,
    groups: Seq<(usize, usize)>,
    m3: Mapping,
    from: int,
    x: usize,
)
    requires
        settled(c, f, groups, m3, from),
        f.done.contains(x),
    ensures
        written_out(m3.hier, group_writeouts(groups), x),
{
    lemma_covered_kept(f.m, m3, f.done, groups, groups.len() as int);
    let s = choose|s: int|
        0 <= s < groups.len() && in_group(m3, x, (#[trigger] groups[s]).1 as int);
    let start = groups[s].1 as int;
    let j = choose|j: int| start <= j < start + 32 && #[trigger] cell(m3.hier, 1, j) == x;
    lemma_group_writeout(start, j);
    let wo = group_writeouts(groups);
    assert(wo[s] == writeout_of(1, j));
    assert(is_cell(1, j));
}

/// Writing out more keeps what is written out.
proof fn lemma_written_more(
    hier: Seq<Seq<usize>>,
    wo: Seq<usize>,
    more: Seq<usize>,
    x: usize,
)
    requires
        written_out(hier, wo, x) || written_out(hier, more, x),
    ensures
        written_out(hier, wo + more, x),
{
    let all = wo + more;
    if written_out(hier, wo, x) {
        let (g, i) = choose|g: int, i: int|
            1 <= g && is_cell(g, i) && #[trigger] cell(hier, g, i) == x && wo.contains(
                writeout_of(g, i),
            );
        assert(all[wo.index_of(writeout_of(g, i))] == writeout_of(g, i));
        assert(cell(hier, g, i) == x);
    } else {
        let (g, i) = choose|g: int, i: int|
            1 <= g && is_cell(g, i) && #[trigger] cell(hier, g, i) == x && more.contains(
                writeout_of(g, i),
            );
        assert(all[wo.len() + more.index_of(writeout_of(g, i))] == writeout_of(g, i));
        assert(cell(hier, g, i) == x);
    }
}

/// The nodes that a stage writes out.
pub open spec fn done_by(c: Job, f: Fill, m3: Mapping, total: int, limit: int) -> Seq<usize> {
    let m = upper_mapping(c);
    let placed = wanted_placed(c, m);
    let more = more_writeouts(m3.hier, placed, f.done, BOOMERANG_NUM_STAGES + 1);
    if !some_untouched(c, m, necessary(c, m.count.dom())) && more.len() + total <= limit {
        inserted_all(f.done, placed, placed.len() as int)
    } else {
        f.done
    }
}

/// What a stage writes out was wanted.
pub proof fn lemma_done_by(
    c: Job,
    f: Fill,
    groups: Seq<(usize, usize)>,
    m3: Mapping,
    from: int,
    total: int,
    limit: int,
)
    requires
        job_ok(c),
        settled(c, f, groups, m3, from),
    ensures
        ({
            let d = done_by(c, f, m3, total, limit);
            &&& d.no_duplicates()
            &&& d.len() >= f.done.len()
            &&& forall|x: usize| #[trigger] d.contains(x) ==> c.outs.contains(x)
            &&& forall|x: usize| #[trigger]
                d.contains(x) ==> f.done.contains(x) || (d != f.done && wanted_placed(
                    c,
                    upper_mapping(c),
                ).contains(x))
        }),
{
    let m = upper_mapping(c);
    let placed = wanted_placed(c, m);
    lemma_inserted_all(f.done, placed, placed.len() as int);
    assert(placed.take(placed.len() as int) =~= placed);
    lemma_filter(c.outs, is_placed(m));
}

/// What is no longer wanted after a stage was wanted before and is written out
/// by the stage; nothing else becomes wanted.
pub proof fn stage_writes_out_what_it_drops(c: Job, total: int, limit: int)
    requires
        job_ok(c),
        c.outs.no_duplicates(),
    ensures
        stage(c, total, limit) matches Some(st) ==> {
            &&& st.outs.no_duplicates()
            &&& st.outs.len() <= c.outs.len()
            &&& forall|x: usize| #[trigger] st.outs.contains(x) ==> c.outs.contains(x)
            &&& forall|x: usize| #[trigger]
                c.outs.contains(x) && !st.outs.contains(x) ==> written_out(
                    st.hier,
                    st.write_outs,
                    x,
                )
        },
{
    if stage(c, total, limit) is Some {
        let (f, groups, m3, from) = lemma_settled(c, total, limit);
        let st = stage(c, total, limit).unwrap();
        let total1 = total + groups.len();
        let d = done_by(c, f, m3, total1, limit);
        lemma_done_by(c, f, groups, m3, from, total1, limit);
        lemma_removed_all(c.outs, d, d.len() as int);
        assert(d.take(d.len() as int) =~= d);
        let m = upper_mapping(c);
        let placed = wanted_placed(c, m);
        let wo = group_writeouts(groups);
        let more = more_writeouts(m3.hier, placed, f.done, BOOMERANG_NUM_STAGES + 1);
        lemma_more_writeouts(m3.hier, placed, f.done, BOOMERANG_NUM_STAGES + 1);
        lemma_filter(c.outs, is_placed(m));
        lemma_upper(c);
        lemma_keeps_trans(m, f.m, m3);
        assert forall|x: usize| #[trigger] c.outs.contains(x) && !st.outs.contains(x) implies
            written_out(st.hier, st.write_outs, x) by {
            assert(d.contains(x));
            if f.done.contains(x) {
                lemma_done_written(c, f, groups, m3, from, x);
                lemma_written_more(m3.hier, wo, more, x);
            } else {
                assert(placed.contains(x));
                lemma_keeps_count(m, m3, x);
                let (g, i) = lemma_counted_cell(m3, x);
                assert(more.contains(writeout_of(g, i)));
                assert(cell(m3.hier, g, i) == x);
                lemma_written_more(m3.hier, wo, more, x);
            }
        }
    }
}

} // verus!
