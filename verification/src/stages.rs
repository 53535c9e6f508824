//! The stages of a partition, one after the other.
use crate::aig::{feeds, feeds_later, DriverType};
use crate::boomerang::{
    lemma_stays_shallow, constants_are_shallow, constants_fit, blank, can_descend, descend_fits,
    farthest, first_free, free, lemma_descend_step, lemma_farthest, overfull, place, top_row,
    tree_fits, Mapping, shallow_at, job_wf, is_needed, job, job_ok, level_at, level_of, necessary,
    reverse_levels, roomy, row_len, some_untouched, stage, upper_mapping, wanted_lvl1, Fill, Job,
    StageResult, FREE,
};
use crate::distances::{lemma_closed, lemma_necessary, lemma_rev_from, reached};
use crate::mapping::{cell, lemma_counted, lemma_gate, lemma_order, lemma_position, lemma_wide_rows};
use crate::seqs::{lemma_filter, lemma_tally_none};
use crate::sorts::{lemma_orders, lemma_sort_contains, pair_le};
use crate::soundness::{
    is_new, lemma_fill_groups, lemma_keeps_count, lemma_keeps_trans, lemma_removed_all, lemma_upper,
};
use crate::stage::{lemma_spaces, spaces_of};
use crate::stage_laws::{
    done_by, lemma_done_by, lemma_lvl1, lemma_settled, stage_remembers_its_cells,
    stage_writes_out_what_it_drops,
};
use vstd::prelude::*;
use vstd::set_lib::{lemma_int_range, lemma_len_subset, set_int_range};

verus! {

/// The nodes whose values are not there yet.
pub open spec fn missing(drivers: Seq<DriverType>, stops: Set<usize>) -> Set<int> {
    set_int_range(0, drivers.len() as int).filter(|i: int| !stops.contains(i as usize))
}

/// What is left to do: the nodes that are missing and those that are wanted.
pub open spec fn work_left(drivers: Seq<DriverType>, stops: Set<usize>, outs: Seq<usize>) -> nat {
    missing(drivers, stops).len() + outs.len()
}

/// Nodes of a graph that are still wanted, each of them once.
pub open spec fn stages_ok(drivers: Seq<DriverType>, stops: Set<usize>, outs: Seq<usize>) -> bool {
    job_wf(job(drivers, stops, outs)) && outs.no_duplicates()
}

/// The stages that realize `outs`, given the nodes `stops`, until none is left;
/// none if one of them cannot be mapped.
pub open spec fn stages(
    drivers: Seq<DriverType>,
    stops: Set<usize>,
    outs: Seq<usize>,
    total: int,
    limit: int,
) -> Option<Seq<StageResult>>
    decreases work_left(drivers, stops, outs),
    when stages_ok(drivers, stops, outs)
    via stages_terminate
{
    if outs.len() == 0 {
        Some(Seq::empty())
    } else if !constants_fit(job(drivers, stops, outs)) {
        None
    } else {
        match stage(job(drivers, stops, outs), total, limit) {
            None => None,
            Some(st) => match stages(drivers, st.stops, st.outs, st.total, limit) {
                None => None,
                Some(rest) => Some(seq![st] + rest),
            },
        }
    }
}

#[via_fn]
proof fn stages_terminate(
    drivers: Seq<DriverType>,
    stops: Set<usize>,
    outs: Seq<usize>,
    total: int,
    limit: int,
) {
    if outs.len() > 0 && constants_fit(job(drivers, stops, outs)) {
        stage_makes_progress(drivers, stops, outs, total, limit);
    }
}

/// Whether the constants fit each of the stages that realize `outs`, up to the
/// first one that cannot be mapped.
pub open spec fn stages_fit(
    drivers: Seq<DriverType>,
    stops: Set<usize>,
    outs: Seq<usize>,
    total: int,
    limit: int,
) -> bool
    decreases work_left(drivers, stops, outs),
    when stages_ok(drivers, stops, outs)
    via stages_fit_terminate
{
    if outs.len() == 0 {
        true
    } else if !constants_fit(job(drivers, stops, outs)) {
        false
    } else {
        match stage(job(drivers, stops, outs), total, limit) {
            None => true,
            Some(st) => stages_fit(drivers, st.stops, st.outs, st.total, limit),
        }
    }
}

#[via_fn]
proof fn stages_fit_terminate(
    drivers: Seq<DriverType>,
    stops: Set<usize>,
    outs: Seq<usize>,
    total: int,
    limit: int,
) {
    if outs.len() > 0 && constants_fit(job(drivers, stops, outs)) {
        stage_makes_progress(drivers, stops, outs, total, limit);
    }
}

/// Where a level is positive, some level is one.
proof fn lemma_level_one(c: Job, k: int) -> (p: int)
    requires
        job_ok(c),
        0 <= k < c.order.len(),
        level_at(c, k) >= 1,
    ensures
        0 <= p < c.order.len(),
        level_at(c, p) == 1,
    decreases level_at(c, k),
{
    if level_at(c, k) == 1 {
        k
    } else {
        let nd = c.order[k];
        lemma_position(c, k);
        let (a, b) = lemma_gate(c, nd);
        let f = if a >= 2 && level_of(c, (a / 2) as usize) + 1 == level_at(c, k) {
            (a / 2) as usize
        } else {
            (b / 2) as usize
        };
        lemma_level_one(c, c.order.index_of(f))
    }
}

/// Groups of free cells are not crowded.
proof fn lemma_roomy_free(row: Seq<usize>, n: int)
    requires
        0 <= n,
        32 * n <= row.len(),
        forall|i: int| 0 <= i < row.len() ==> #[trigger] row[i] == FREE,
    ensures
        roomy(row, n).len() == n,
    decreases n,
{
    if n > 0 {
        lemma_roomy_free(row, n - 1);
        let g = row.subrange((n - 1) * 32, (n - 1) * 32 + 32);
        assert forall|i: int| 0 <= i < g.len() implies #[trigger] g[i] == FREE by {
            assert(g[i] == row[(n - 1) * 32 + i]);
        }
        lemma_tally_none(g, |x: usize| x != FREE);
    }
}

/// A new gate is placed, or a wanted node is written out.
proof fn lemma_some_progress(c: Job, total: int, limit: int)
    requires
        job_ok(c),
        c.outs.len() > 0,
        c.outs.no_duplicates(),
        stage(c, total, limit) is Some,
    ensures
        ({
            let st = stage(c, total, limit).unwrap();
            ||| st.outs.len() < c.outs.len()
            ||| exists|nd: usize|
                nd < c.drivers.len() && !c.stops.contains(nd) && #[trigger] st.stops.contains(nd)
        }),
        c.stops.subset_of(stage(c, total, limit).unwrap().stops),
{
    let (f, groups, m3, from) = lemma_settled(c, total, limit);
    let st = stage(c, total, limit).unwrap();
    let m = upper_mapping(c);
    let need = necessary(c, m.count.dom());
    lemma_upper(c);
    lemma_order(c);
    lemma_keeps_trans(m, f.m, m3);
    if exists|nd: usize| #[trigger] is_new(c, m, nd) {
        let nd = choose|nd: usize| #[trigger] is_new(c, m, nd);
        lemma_keeps_count(m, m3, nd);
        let (a, b) = lemma_gate(c, nd);
        assert(st.stops.contains(nd));
    } else {
        let placed = m.count.dom();
        let rev = reverse_levels(c, placed);
        let n = c.order.len() as int;
        lemma_closed(c, m);
        lemma_rev_from(c, placed, 0);
        lemma_necessary(c, placed, rev, n);
        assert forall|p: int| 0 <= p < n implies #[trigger] rev[p] != FREE by {
            if !c.outs.contains(c.order[p]) {
                assert(feeds_later(c.drivers, c.stops, c.order, p));
                let q = choose|q: int|
                    p < q < c.order.len() && #[trigger] feeds(
                        c.drivers,
                        c.stops,
                        c.order[p],
                        c.order[q],
                    );
                assert(!placed.contains(c.order[q]));
            }
            assert(reached(c, placed, p, 0));
        }
        if exists|k: int| 0 <= k < n && #[trigger] level_at(c, k) >= 1 {
            let k = choose|k: int| 0 <= k < n && #[trigger] level_at(c, k) >= 1;
            let p = lemma_level_one(c, k);
            let nd = c.order[p];
            assert(rev[p] != FREE);
            assert(need.contains(nd));
            assert(need[need.index_of(nd)] == nd);
            assert(m3.count.contains_key(nd));
            lemma_position(c, p);
            let (a, b) = lemma_gate(c, nd);
            assert(st.stops.contains(nd));
        } else {
            lemma_flat_progress(c, total, limit);
        }
    }
}

/// Without gates, a wanted node is written out.
proof fn lemma_flat_progress(c: Job, total: int, limit: int)
    requires
        job_ok(c),
        c.outs.len() > 0,
        c.outs.no_duplicates(),
        stage(c, total, limit) is Some,
        upper_mapping(c).count.dom() =~= Set::empty(),
        forall|p: int|
            0 <= p < c.order.len() ==> #[trigger] reverse_levels(
                c,
                upper_mapping(c).count.dom(),
            )[p] != FREE,
        forall|k: int| 0 <= k < c.order.len() ==> #[trigger] level_at(c, k) == 0,
    ensures
        stage(c, total, limit).unwrap().outs.len() < c.outs.len(),
{
    let (f, groups, m3, from) = lemma_settled(c, total, limit);
    let m = upper_mapping(c);
    let placed = m.count.dom();
    let need = necessary(c, placed);
    let lvl1 = wanted_lvl1(c, m, need);
    lemma_upper(c);
    lemma_order(c);
    lemma_necessary(c, placed, reverse_levels(c, placed), c.order.len() as int);
    assert forall|i: int| 0 <= i < c.outs.len() implies need.contains(#[trigger] c.outs[i]) by {
        let p = c.order.index_of(c.outs[i]);
        assert(c.order.contains(c.outs[i]));
        assert(c.order[p] == c.outs[i]);
        assert(level_at(c, p) == 0);
        assert(reverse_levels(c, placed)[p] != FREE);
        assert(c.outs.contains(c.order[p]));
    }
    lemma_filter(c.outs, is_needed(m, need));
    assert(lvl1.contains(c.outs[0])) by {
        assert(c.outs.contains(c.outs[0]));
        assert(need.contains(c.outs[0]));
        assert(!m.count.dom().contains(c.outs[0]));
    }
    assert(!some_untouched(c, m, need));
    let row = m.hier[1];
    assert(row.len() == row_len(1));
    assert forall|i: int| 0 <= i < row.len() implies #[trigger] row[i] == FREE by {
        if row[i] != FREE {
            assert(cell(m.hier, 1, i) != FREE);
            lemma_counted(m, 1, i);
            assert(m.count.dom().contains(row[i]));
        }
    }
    lemma_wide_rows();
    lemma_roomy_free(row, 128);
    lemma_orders();
    lemma_sort_contains(roomy(row, 128), pair_le());
    let spaces = spaces_of(row);
    lemma_spaces(row);
    lemma_lvl1(c, m);
    let start = Fill { m, next: 0, done: Seq::empty() };
    assert(row[spaces[0].1 as int] == FREE);
    lemma_fill_groups(c, start, lvl1, spaces, true, 0);
    assert(f.done.len() >= 1);
    let total1 = total + groups.len();
    lemma_done_by(c, f, groups, m3, from, total1, limit);
    let d = done_by(c, f, m3, total1, limit);
    lemma_removed_all(c.outs, d, d.len() as int);
}

/// Every stage leaves less to do: it writes a wanted node out or realizes a
/// node that was missing.
pub proof fn stage_makes_progress(
    drivers: Seq<DriverType>,
    stops: Set<usize>,
    outs: Seq<usize>,
    total: int,
    limit: int,
)
    requires
        stages_ok(drivers, stops, outs),
        constants_fit(job(drivers, stops, outs)),
        outs.len() > 0,
    ensures
        stage(job(drivers, stops, outs), total, limit) matches Some(st) ==> {
            &&& stages_ok(drivers, st.stops, st.outs)
            &&& work_left(drivers, st.stops, st.outs) < work_left(drivers, stops, outs)
        },
{
    let c = job(drivers, stops, outs);
    if stage(c, total, limit) is Some {
        let st = stage(c, total, limit).unwrap();
        stage_writes_out_what_it_drops(c, total, limit);
        assert forall|i: int| 0 <= i < st.outs.len() implies #[trigger] st.outs[i]
            < drivers.len() by {
            assert(st.outs.contains(st.outs[i]));
            assert(outs[outs.index_of(st.outs[i])] == st.outs[i]);
        }
        lemma_some_progress(c, total, limit);
        stage_remembers_its_cells(c, total, limit);
        assert(stops.subset_of(st.stops));
        let a = missing(drivers, stops);
        let b = missing(drivers, st.stops);
        lemma_int_range(0, drivers.len() as int);
        assert(b.subset_of(a));
        lemma_len_subset(b, a);
        if st.outs.len() >= outs.len() {
            let nd = choose|nd: usize|
                nd < drivers.len() && !stops.contains(nd) && #[trigger] st.stops.contains(nd);
            assert(a.contains(nd as int));
            assert(!b.contains(nd as int));
            assert(b.subset_of(a.remove(nd as int)));
            lemma_len_subset(b, a.remove(nd as int));
        }
    }
}

/// Where no and gate with a constant literal reads another and gate, a gate
/// above level 1 has no constant literal.
proof fn lemma_shallow_gate(c: Job, nd: usize)
    requires
        job_wf(c),
        constants_are_shallow(c.drivers, c.stops, c.outs),
        c.order.contains(nd),
        level_of(c, nd) >= 2,
    ensures
        c.drivers[nd as int] matches DriverType::AndGate(a, b) ==> a >= 2 && b >= 2,
{
    let k = c.order.index_of(nd);
    let (a, b) = lemma_gate(c, nd);
    assert(shallow_at(c.drivers, c.stops, c.order[k]));
    if a < 2 {
        assert(level_at(c, c.order.index_of((b / 2) as usize)) == 0);
    }
    if b < 2 {
        assert(level_at(c, c.order.index_of((a / 2) as usize)) == 0);
    }
}

/// Then every node can be placed in a row of its level or above.
proof fn lemma_shallow_tree(c: Job, hi: int, nd: usize)
    requires
        job_wf(c),
        constants_are_shallow(c.drivers, c.stops, c.outs),
        c.order.contains(nd),
        level_of(c, nd) <= hi,
    ensures
        tree_fits(c, hi, nd),
    decreases hi,
{
    if hi >= 2 {
        if level_of(c, nd) != hi {
            lemma_shallow_tree(c, hi - 1, nd);
        } else {
            let (a, b) = lemma_gate(c, nd);
            lemma_shallow_gate(c, nd);
            lemma_shallow_tree(c, hi - 1, (a / 2) as usize);
            lemma_shallow_tree(c, hi - 1, (b / 2) as usize);
        }
    }
}

/// Then all that is tried can be placed.
proof fn lemma_shallow_descend(c: Job, m: Mapping, lvl: int)
    requires
        job_wf(c),
        constants_are_shallow(c.drivers, c.stops, c.outs),
        can_descend(c, m, lvl),
        0 <= lvl,
    ensures
        descend_fits(c, m, lvl),
    decreases lvl, free(m.hier[lvl]),
{
    if lvl >= 2 {
        let placed = m.count.dom();
        let slot = first_free(m.hier[lvl], 0);
        let rev = reverse_levels(c, placed);
        let best = farthest(c, placed, rev, lvl, c.order.len() as int);
        lemma_farthest(c, placed, rev, lvl, c.order.len() as int);
        lemma_descend_step(c, m, lvl);
        if slot >= m.hier[lvl].len() || best < 0 {
            lemma_shallow_descend(c, m, lvl - 1);
        } else {
            let nd = c.order[best];
            lemma_position(c, best);
            lemma_shallow_tree(c, lvl, nd);
            let m2 = place(c, m, lvl, slot, nd);
            if overfull(c, m2) {
                lemma_shallow_descend(c, m, lvl - 1);
            } else {
                lemma_shallow_descend(c, m2, lvl);
            }
        }
    }
}

/// Then constants stay in row 0.
proof fn lemma_shallow_fits(c: Job)
    requires
        job_wf(c),
        constants_are_shallow(c.drivers, c.stops, c.outs),
    ensures
        constants_fit(c),
{
    lemma_order(c);
    lemma_shallow_descend(c, blank(), top_row(c));
}

/// A graph in which no and gate with a constant literal reads another and gate
/// can be mapped whatever is wanted of it.
pub proof fn shallow_constants_fit(
    drivers: Seq<DriverType>,
    stops: Set<usize>,
    outs: Seq<usize>,
    total: int,
    limit: int,
)
    requires
        stages_ok(drivers, stops, outs),
        constants_are_shallow(drivers, stops, outs),
    ensures
        stages_fit(drivers, stops, outs, total, limit),
    decreases work_left(drivers, stops, outs),
{
    let c = job(drivers, stops, outs);
    lemma_shallow_fits(c);
    if outs.len() > 0 {
        stage_makes_progress(drivers, stops, outs, total, limit);
        if let Some(st) = stage(c, total, limit) {
            stage_writes_out_what_it_drops(c, total, limit);
            stage_remembers_its_cells(c, total, limit);
            assert forall|i: int| 0 <= i < st.outs.len() implies outs.contains(
                #[trigger] st.outs[i],
            ) by {
                assert(st.outs.contains(st.outs[i]));
            }
            lemma_some_progress(c, total, limit);
            lemma_stays_shallow(drivers, stops, outs, st.stops, st.outs);
            shallow_constants_fit(drivers, st.stops, st.outs, st.total, limit);
        }
    }
}

} // verus!
