//! How much a stage reads and holds.
use crate::aig::{
    cone_order_is_topological, feeds, feeds_later, lemma_in_larger_cone, stands_before,
};
use crate::boomerang::{
    blank, bumped, fill_group, fill_groups, fill_step, first_free, is_needed, job, job_ok,
    lemma_first_free, lemma_place_row, level_at, level_of, necessary, overfull, place,
    reverse_levels, row_len, settle, some_untouched, stage, taken, upper_mapping, wanted_lvl1, Fill,
    Job, Mapping, BOOMERANG_NUM_STAGES, FREE,
};
use crate::distances::{lemma_closed, lemma_necessary, lemma_rev_from, reached};
use crate::mapping::{
    anc_ok, cell, cell_ok, is_cell, lemma_counted, lemma_counted_cell, lemma_fanin, lemma_order,
    lemma_position, lemma_wide_rows, mapping_ok, shape,
};
use crate::seqs::{lemma_filter, lemma_tally_less};
use crate::soundness::{lemma_keeps_count, lemma_keeps_trans, lemma_upper};
use crate::stage::spaces_of;
use crate::stage_laws::{
    in_cells, lemma_settled, stage_remembers_its_cells, stage_writes_out_what_it_drops,
};
use vstd::prelude::*;
use vstd::set_lib::{lemma_len_subset, lemma_len_union};

verus! {

/// The nodes in the cells of a row.
pub open spec fn row_nodes(row: Seq<usize>) -> Set<usize> {
    row.to_set().remove(FREE)
}

/// The nodes in the cells above row 0.
pub open spec fn upper_nodes(hier: Seq<Seq<usize>>) -> Set<usize> {
    Set::new(|x: usize| x != FREE && in_cells(hier, x))
}

/// A row has no more nodes than occupied cells.
proof fn lemma_row_nodes(row: Seq<usize>)
    ensures
        row_nodes(row).finite(),
        row_nodes(row).len() <= taken(row),
    decreases row.len(),
{
    if row.len() == 0 {
        assert(row_nodes(row) =~= Set::empty());
    } else {
        let front = row.drop_last();
        lemma_row_nodes(front);
        assert forall|x: usize| row_nodes(row).contains(x) implies row_nodes(front).insert(
            row.last(),
        ).contains(x) by {
            let i = row.index_of(x);
            assert(row[i] == x);
            if i < front.len() {
                assert(front[i] == x);
            }
        }
        if row.last() == FREE {
            assert(row_nodes(row).subset_of(row_nodes(front)));
            lemma_len_subset(row_nodes(row), row_nodes(front));
        } else {
            assert(row_nodes(row).subset_of(row_nodes(front).insert(row.last())));
            lemma_len_subset(row_nodes(row), row_nodes(front).insert(row.last()));
        }
    }
}

/// `r` places no nodes but those of `m` and of `xs`, and leaves the rows above
/// row 1 as they are.
spec fn adds_only(m: Mapping, r: Mapping, xs: Seq<usize>) -> bool {
    &&& r.hier.len() == m.hier.len()
    &&& forall|x: usize| #[trigger]
        r.count.contains_key(x) ==> m.count.contains_key(x) || xs.contains(x)
    &&& forall|g: int| 2 <= g < m.hier.len() ==> #[trigger] r.hier[g] == m.hier[g]
}

/// Placing a node in row 1 adds that node.
proof fn lemma_place_adds(c: Job, m: Mapping, j: int, nd: usize, xs: Seq<usize>)
    requires
        m.hier.len() == BOOMERANG_NUM_STAGES + 1,
        xs.contains(nd),
    ensures
        adds_only(m, place(c, m, 1, j, nd), xs),
{
    reveal_with_fuel(place, 3);
    lemma_place_row(c, m, 1, j, nd);
    let r = place(c, m, 1, j, nd);
    assert(r.count == bumped(m.count, nd));
}

/// Additions can be put together.
proof fn lemma_adds_trans(m: Mapping, p: Mapping, r: Mapping, xs: Seq<usize>)
    requires
        adds_only(m, p, xs),
        adds_only(p, r, xs),
    ensures
        adds_only(m, r, xs),
{
    assert forall|x: usize| #[trigger] r.count.contains_key(x) implies m.count.contains_key(x)
        || xs.contains(x) by {
        assert(p.count.contains_key(x) || xs.contains(x));
    }
    assert forall|g: int| 2 <= g < m.hier.len() implies #[trigger] r.hier[g] == m.hier[g] by {
        assert(p.hier[g] == m.hier[g]);
    }
}

/// Filling a group adds endpoints.
proof fn lemma_group_adds(c: Job, f: Fill, lvl1: Seq<usize>, j: int, end: int, xs: Seq<usize>)
    requires
        f.m.hier.len() == BOOMERANG_NUM_STAGES + 1,
        0 <= f.next,
        forall|i: int| 0 <= i < lvl1.len() ==> xs.contains(#[trigger] lvl1[i]),
    ensures
        adds_only(f.m, fill_group(c, f, lvl1, j, end).m, xs),
        0 <= fill_group(c, f, lvl1, j, end).next,
    decreases end - j,
{
    if j < end && f.next < lvl1.len() {
        let g = fill_step(c, f, lvl1, j);
        if f.m.hier[1][j] == FREE {
            lemma_place_adds(c, f.m, j, lvl1[f.next], xs);
        }
        assert(adds_only(f.m, g.m, xs));
        lemma_group_adds(c, g, lvl1, j + 1, end, xs);
        lemma_adds_trans(f.m, g.m, fill_group(c, g, lvl1, j + 1, end).m, xs);
    }
}

/// Filling groups adds endpoints.
proof fn lemma_groups_add(
    c: Job,
    f: Fill,
    lvl1: Seq<usize>,
    spaces: Seq<(usize, usize)>,
    all: bool,
    s: int,
    xs: Seq<usize>,
)
    requires
        f.m.hier.len() == BOOMERANG_NUM_STAGES + 1,
        0 <= f.next,
        0 <= s <= spaces.len(),
        forall|i: int| 0 <= i < lvl1.len() ==> xs.contains(#[trigger] lvl1[i]),
    ensures
        adds_only(f.m, fill_groups(c, f, lvl1, spaces, all, s).0.m, xs),
    decreases spaces.len() - s,
{
    if s < spaces.len() && (all || lvl1.len() - f.next >= 32 - spaces[s].0) {
        let start = spaces[s].1 as int;
        let g = fill_group(c, f, lvl1, start, start + 32);
        lemma_group_adds(c, f, lvl1, start, start + 32, xs);
        lemma_groups_add(c, g, lvl1, spaces, all, s + 1, xs);
        lemma_adds_trans(f.m, g.m, fill_groups(c, g, lvl1, spaces, all, s + 1).0.m, xs);
    }
}

/// Settling adds nodes that are needed.
proof fn lemma_settle_adds(
    c: Job,
    m: Mapping,
    done: Seq<usize>,
    need: Seq<usize>,
    k: int,
    from: int,
)
    requires
        m.hier.len() == BOOMERANG_NUM_STAGES + 1,
        0 <= k <= need.len(),
    ensures
        settle(c, m, done, need, k, from) matches Some((r, at)) ==> adds_only(m, r, need),
    decreases need.len() - k,
{
    if k < need.len() {
        if m.count.contains_key(need[k]) || done.contains(need[k]) {
            lemma_settle_adds(c, m, done, need, k + 1, from);
        } else {
            let free = first_free(m.hier[1], from);
            if free < m.hier[1].len() {
                let m2 = place(c, m, 1, free, need[k]);
                lemma_place_adds(c, m, free, need[k], need);
                lemma_settle_adds(c, m2, done, need, k + 1, free);
                if let Some((r, at)) = settle(c, m2, done, need, k + 1, free) {
                    lemma_adds_trans(m, m2, r, need);
                }
            }
        }
    }
}

/// The placed nodes are finitely many.
proof fn lemma_placed_finite(c: Job, m: Mapping)
    requires
        mapping_ok(c, m),
    ensures
        m.count.dom().finite(),
{
    assert forall|x: usize| m.count.dom().contains(x) implies c.order.to_set().contains(x) by {
        let (g, i) = lemma_counted_cell(m, x);
        assert(cell_ok(c, m.hier, g, i));
    }
    assert(m.count.dom().subset_of(c.order.to_set()));
    lemma_len_subset(m.count.dom(), c.order.to_set());
}

/// A stage holds at most 4095 nodes above row 0, and row 0 has at most 8190
/// occupied cells.
pub proof fn stage_holds_few_nodes(c: Job, total: int, limit: int)
    requires
        job_ok(c),
    ensures
        stage(c, total, limit) matches Some(st) ==> {
            &&& upper_nodes(st.hier).finite()
            &&& upper_nodes(st.hier).len() <= 4095
            &&& row_nodes(st.hier[0]).finite()
            &&& row_nodes(st.hier[0]).len() <= 8190
        },
{
    if stage(c, total, limit) is Some {
        let (f, groups, m3, from) = lemma_settled(c, total, limit);
        let st = stage(c, total, limit).unwrap();
        let m = upper_mapping(c);
        let placed = m.count.dom();
        let need = necessary(c, placed);
        let lvl1 = wanted_lvl1(c, m, need);
        lemma_upper(c);
        lemma_wide_rows();
        lemma_first_free(m3.hier[1], from);
        let j = first_free(m3.hier[1], from);
        lemma_tally_less(m3.hier[1], |x: usize| x != FREE, j);
        lemma_inputs_few(m3, j);
        lemma_filter(c.outs, is_needed(m, need));
        assert forall|i: int| 0 <= i < lvl1.len() implies need.contains(#[trigger] lvl1[i]) by {
            assert(lvl1.contains(lvl1[i]));
        }
        lemma_groups_add(
            c,
            Fill { m, next: 0, done: Seq::empty() },
            lvl1,
            spaces_of(m.hier[1]),
            !some_untouched(c, m, need),
            0,
            need,
        );
        assert(adds_only(m, f.m, need));
        lemma_settle_adds(c, f.m, f.done, need, 0, 0);
        lemma_adds_trans(m, f.m, m3, need);
        let upper = upper_nodes(m3.hier);
        assert forall|x: usize| upper.contains(x) implies placed.contains(x) || need.contains(x) by {
            let (g, i) = choose|g: int, i: int|
                1 <= g && is_cell(g, i) && #[trigger] cell(m3.hier, g, i) == x;
            lemma_counted(m3, g, i);
        }
        if m == blank() {
            assert forall|x: usize| upper.contains(x) implies row_nodes(m3.hier[1]).contains(x) by {
                let (g, i) = choose|g: int, i: int|
                    1 <= g && is_cell(g, i) && #[trigger] cell(m3.hier, g, i) == x;
                if g >= 2 {
                    assert(m3.hier[g] == m.hier[g]);
                    assert(cell(m.hier, g, i) == FREE);
                }
                assert(m3.hier[1][i] == x);
            }
            lemma_row_nodes(m3.hier[1]);
            assert(upper.subset_of(row_nodes(m3.hier[1])));
            lemma_len_subset(upper, row_nodes(m3.hier[1]));
        } else {
            assert(!overfull(c, m));
            lemma_placed_finite(c, m);
            need.lemma_cardinality_of_set();
            lemma_len_union(placed, need.to_set());
            assert(upper.subset_of(placed.union(need.to_set())));
            lemma_len_subset(upper, placed.union(need.to_set()));
        }
    }
}

/// Below a free cell of row 1, two cells of row 0 are free.
proof fn lemma_inputs_few(m: Mapping, j: int)
    requires
        shape(m.hier),
        forall|g: int, i: int| g <= 1 && is_cell(g, i) ==> #[trigger] anc_ok(m.hier, 1, g, i),
        is_cell(1, j),
        cell(m.hier, 1, j) == FREE,
    ensures
        row_nodes(m.hier[0]).finite(),
        row_nodes(m.hier[0]).len() <= 8190,
{
    lemma_wide_rows();
    let row = m.hier[0];
    let p = |x: usize| x != FREE;
    let k = j + 4096;
    assert(k % 4096 == j && j % 4096 == j) by {
        assert(0 <= j < 4096);
    }
    assert(row[j] == FREE) by {
        assert(anc_ok(m.hier, 1, 0, j));
        if cell(m.hier, 0, j) != FREE {
            assert(cell(m.hier, 1, j % (row_len(1) as int)) != FREE);
        }
    }
    assert(row[k] == FREE) by {
        assert(anc_ok(m.hier, 1, 0, k));
        if cell(m.hier, 0, k) != FREE {
            assert(cell(m.hier, 1, k % (row_len(1) as int)) != FREE);
        }
    }
    let left = row.take(4096);
    let right = row.skip(4096);
    lemma_tally_less(left, p, j);
    assert(right[j] == row[k]);
    lemma_tally_less(right, p, j);
    lemma_row_nodes(left);
    lemma_row_nodes(right);
    let all = row_nodes(left).union(row_nodes(right));
    assert forall|x: usize| row_nodes(row).contains(x) implies all.contains(x) by {
        let i = row.index_of(x);
        assert(row[i] == x);
        if i < 4096 {
            assert(left[i] == x);
        } else {
            assert(right[i - 4096] == x);
        }
    }
    lemma_len_union(row_nodes(left), row_nodes(right));
    assert(row_nodes(row).subset_of(all));
    lemma_len_subset(row_nodes(row), all);
}

/// What the next stage needs as an input is placed: where `x` has no level in
/// the job that a stage leaves, the stage has it in a cell above row 0.
pub proof fn next_inputs_are_placed(c: Job, total: int, limit: int, x: usize)
    requires
        job_ok(c),
        c.outs.no_duplicates(),
        stage(c, total, limit) is Some,
        ({
            let st = stage(c, total, limit).unwrap();
            let next = job(c.drivers, st.stops, st.outs);
            next.order.contains(x) && level_of(next, x) == 0
        }),
    ensures
        in_cells(stage(c, total, limit).unwrap().hier, x),
{
    let (f, groups, m3, from) = lemma_settled(c, total, limit);
    let st = stage(c, total, limit).unwrap();
    let next = job(c.drivers, st.stops, st.outs);
    let m = upper_mapping(c);
    let placed = m.count.dom();
    let need = necessary(c, placed);
    let rev = reverse_levels(c, placed);
    let n = c.order.len() as int;
    lemma_upper(c);
    lemma_order(c);
    lemma_closed(c, m);
    lemma_rev_from(c, placed, 0);
    lemma_necessary(c, placed, rev, n);
    lemma_keeps_trans(m, f.m, m3);
    stage_writes_out_what_it_drops(c, total, limit);
    assert(st.stops == c.stops.union(m3.count.dom()));
    assert forall|i: int| 0 <= i < st.outs.len() implies c.outs.contains(#[trigger] st.outs[i]) by {
        assert(st.outs.contains(st.outs[i]));
    }
    assert forall|i: int| 0 <= i < st.outs.len() implies #[trigger] st.outs[i] < c.drivers.len() by {
        assert(c.outs.contains(st.outs[i]));
        assert(c.outs[c.outs.index_of(st.outs[i])] < c.drivers.len());
    }
    cone_order_is_topological(c.drivers, st.stops, st.outs);
    let q = next.order.index_of(x);
    assert(next.order[q] == x);
    if !m3.count.contains_key(x) {
        lemma_in_old(c, next, q);
        let p = c.order.index_of(x);
        assert(c.order[p] == x);
        // `x` is no gate whose value is missing.
        assert(level_at(c, p) == 0) by {
            if level_at(c, p) > 0 {
                assert(!c.stops.contains(x));
                assert(!st.stops.contains(x));
                assert(level_at(next, q) > 0);
            }
        }
        assert(level_of(c, x) == 0) by {
            lemma_position(c, p);
        }
        assert(!placed.contains(x)) by {
            if placed.contains(x) {
                lemma_keeps_count(m, m3, x);
            }
        }
        if st.outs.contains(x) {
            assert(c.outs.contains(x));
            assert(reached(c, placed, p, 0));
            assert(rev[p] != FREE);
            assert(need.contains(x));
        } else {
            let t = choose|t: int|
                q < t < next.order.len() && #[trigger] feeds(
                    c.drivers,
                    st.stops,
                    next.order[q],
                    next.order[t],
                );
            let y = next.order[t];
            lemma_in_old(c, next, t);
            let k = c.order.index_of(y);
            assert(c.order[k] == y);
            assert(feeds(c.drivers, c.stops, x, c.order[k]));
            lemma_fanin(c, k, x);
            lemma_position(c, k);
            assert(!placed.contains(y)) by {
                if placed.contains(y) {
                    lemma_keeps_count(m, m3, y);
                }
            }
            assert forall|u: usize| placed.contains(u) implies st.stops.contains(u) by {
                lemma_keeps_count(m, m3, u);
            }
            lemma_still_reached(c, next, placed, t, k);
            assert(rev[k] != FREE);
            if level_at(c, k) == 1 {
                assert(need.contains(y));
                assert(need[need.index_of(y)] == y);
                assert(m3.count.contains_key(y));
            } else {
                assert(need.contains(x));
            }
        }
        assert(need[need.index_of(x)] == x);
    }
    stage_remembers_its_cells(c, total, limit);
    let (g, i) = lemma_counted_cell(m3, x);
    assert(cell(st.hier, g, i) == x);
}

/// What the next job has left, the job had.
proof fn lemma_in_old(c: Job, next: Job, q: int)
    requires
        job_ok(c),
        next == job(c.drivers, next.stops, next.outs),
        c.stops.subset_of(next.stops),
        forall|i: int| 0 <= i < next.outs.len() ==> c.outs.contains(#[trigger] next.outs[i]),
        forall|i: int| 0 <= i < next.outs.len() ==> #[trigger] next.outs[i] < c.drivers.len(),
        0 <= q < next.order.len(),
    ensures
        c.order.contains(next.order[q]),
{
    lemma_in_larger_cone(c.drivers, next.stops, c.stops, next.outs, c.outs, q);
}

/// A gate that is left drives a wanted node over gates that are not placed.
proof fn lemma_still_reached(c: Job, next: Job, placed: Set<usize>, t: int, k: int)
    requires
        job_ok(c),
        next == job(c.drivers, next.stops, next.outs),
        c.stops.subset_of(next.stops),
        forall|x: usize| placed.contains(x) ==> next.stops.contains(x),
        forall|i: int| 0 <= i < next.outs.len() ==> c.outs.contains(#[trigger] next.outs[i]),
        forall|i: int| 0 <= i < next.outs.len() ==> #[trigger] next.outs[i] < c.drivers.len(),
        0 <= t < next.order.len(),
        0 <= k < c.order.len(),
        c.order[k] == next.order[t],
    ensures
        reached(c, placed, k, 0),
{
    cone_order_is_topological(c.drivers, next.stops, next.outs);
    lemma_order(c);
    if next.outs.contains(next.order[t]) {
        let i = next.outs.index_of(next.order[t]);
        assert(c.outs.contains(next.outs[i]));
    } else {
        assert(feeds_later(c.drivers, next.stops, next.order, t));
        let u = choose|u: int|
            t < u < next.order.len() && #[trigger] feeds(
                c.drivers,
                next.stops,
                next.order[t],
                next.order[u],
            );
        lemma_in_old(c, next, u);
        let v = c.order.index_of(next.order[u]);
        assert(c.order[v] == next.order[u]);
        assert(feeds(c.drivers, c.stops, c.order[k], c.order[v]));
        assert(stands_before(c.order, c.order[k], v));
        let w = choose|w: int| 0 <= w < v && #[trigger] c.order[w] == c.order[k];
        assert(w == k);
    }
}

} // verus!
