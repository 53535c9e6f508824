//! The mapping of one boomerang stage.
use crate::boomerang::{
    blank, can_descend, descend, descend_fits, farthest, fill_group, fill_groups, first_fill,
    first_free, first_writeouts, free, group_writeouts, inserted_all, is_needed, is_placed, job_ok,
    lemma_farthest, lemma_first_free, lemma_place_row, max_level, more_writeouts, necessary,
    occupancy, overfull, place, removed_all, reverse_levels, roomy, row_len, row_writeouts, settle,
    some_untouched, stage, upper_mapping, wanted_lvl1, wanted_placed, Fill, Job, Mapping,
    BOOMERANG_MAX_WRITEOUTS, BOOMERANG_NUM_STAGES, CROWDED, FREE,
};
use crate::collections::{map_len, set_at, set_contains, set_insert, set_items, set_len, set_new};
use crate::distances::{
    lemma_blank, lemma_closed, lemma_necessary, lemma_placement, lemma_rev_from, ready,
};
use crate::layout::Layout;
use crate::mapping::{
    anc_ok, cell, counts_ok, fits_row, in_tree, is_cell, lemma_counts_unique, lemma_order,
    lemma_position, lemma_row_len, lemma_wide_rows, placed_in, shape, tree_free,
};
use crate::plan::Plan;
use crate::seqs::{lemma_filter, lemma_filter_take, lemma_tally_update};
use crate::sorts::{lemma_orders, lemma_sort_contains, pair_le, sort_pairs, sorted_pairs};
use indexmap::IndexSet;
use vstd::prelude::*;

verus! {

/// A mapping that is ready for a level is ready for the one below it.
proof fn lemma_ready_below(c: Job, m: Mapping, lvl: int)
    requires
        ready(c, m, lvl),
    ensures
        ready(c, m, lvl - 1),
{
    assert forall|g: int, i: int| g <= lvl - 1 && is_cell(g, i) implies #[trigger] anc_ok(
        m.hier,
        lvl - 1,
        g,
        i,
    ) by {
        assert(anc_ok(m.hier, lvl, g, i));
    }
}

/// Cells that agree make equal mappings.
proof fn lemma_undone(c: Job, m: Mapping, p: Mapping, r: Mapping, hi: int, j: int, nd: usize)
    requires
        shape(m.hier),
        counts_ok(m),
        tree_free(m.hier, hi, j),
        placed_in(c, m, p, hi, j, nd),
        shape(r.hier),
        counts_ok(r),
        tree_free(r.hier, hi, j),
        forall|g: int, i: int|
            is_cell(g, i) && !in_tree(hi, j, g, i) ==> #[trigger] cell(r.hier, g, i) == cell(
                p.hier,
                g,
                i,
            ),
    ensures
        r == m,
{
    assert forall|g: int| 0 <= g < m.hier.len() implies #[trigger] r.hier[g] == m.hier[g] by {
        assert(r.hier[g].len() == row_len(g));
        assert(m.hier[g].len() == row_len(g));
        assert forall|i: int| 0 <= i < row_len(g) implies r.hier[g][i] == m.hier[g][i] by {
            assert(is_cell(g, i));
            if in_tree(hi, j, g, i) {
                assert(cell(r.hier, g, i) == FREE);
                assert(cell(m.hier, g, i) == FREE);
            } else {
                assert(cell(r.hier, g, i) == cell(p.hier, g, i));
                assert(cell(p.hier, g, i) == cell(m.hier, g, i));
            }
        }
        assert(r.hier[g] =~= m.hier[g]);
    }
    assert(r.hier =~= m.hier);
    lemma_counts_unique(r, m);
}

impl<'a> Plan<'a> {
    /// Whether row 1 would have no cell to spare.
    fn is_overfull(&self, lay: &Layout, rev: &Vec<usize>) -> (r: bool)
        requires
            self.wf(),
            shape(lay@.hier),
            rev@ == reverse_levels(self.job(), lay@.count.dom()),
            rev@.len() == self.order@.len(),
        ensures
            r == overfull(self.job(), lay@),
    {
        proof {
            lemma_wide_rows();
        }
        let need: IndexSet<usize> = self.compute_lvl1_necessary_nodes(lay, rev);
        let width: usize = lay.width(1);
        let taken1: usize = lay.occupied(1, 0, width);
        assert(lay@.hier[1].subrange(0, width as int) =~= lay@.hier[1]);
        let visited: usize = map_len(&lay.visited);
        let used: usize = if taken1 >= visited {
            taken1
        } else {
            visited
        };
        let necessary: usize = set_len(&need);
        necessary >= width || used >= width || necessary + used >= width
    }

    /// Maps the nodes of level 2 and more.
    fn map_upper(&self) -> (lay: Layout)
        requires
            self.wf(),
        ensures
            lay@ == upper_mapping(self.job()),
            ready(self.job(), lay@, 1),
    {
        let ghost c = self.job();
        let top: usize = self.max_level();
        let mut lvl: usize = if top <= BOOMERANG_NUM_STAGES {
            top
        } else {
            BOOMERANG_NUM_STAGES
        };
        let mut lay: Layout = Layout::new();
        proof {
            lemma_blank(c);
            assert(ready(c, blank(), lvl as int));
            assert(ready(c, blank(), 1));
            lemma_closed(c, blank());
            lemma_order(c);
        }
        let mut rev: Vec<usize> = self.compute_reverse_level(&lay);
        while lvl >= 2
            invariant
                self.wf(),
                c == self.job(),
                lvl <= BOOMERANG_NUM_STAGES,
                ready(c, lay@, lvl as int),
                ready(c, lay@, 1),
                rev@ == reverse_levels(c, lay@.count.dom()),
                descend(c, lay@, lvl as int) == upper_mapping(c),
                descend_fits(c, lay@, lvl as int),
                forall|k: int| 0 <= k < c.order.len() ==> #[trigger] c.order[k] != FREE,
            decreases lvl, free(lay@.hier[lvl as int]),
        {
            let ghost m = lay@;
            let ghost placed = m.count.dom();
            proof {
                lemma_closed(c, m);
                lemma_rev_from(c, placed, 0);
                lemma_row_len(lvl as int);
                assert(can_descend(c, m, lvl as int));
                lemma_first_free(m.hier[lvl as int], 0);
                lemma_farthest(c, placed, rev@, lvl as int, c.order.len() as int);
                lemma_ready_below(c, m, lvl as int);
            }
            let slot: usize = lay.first_free(lvl, 0);
            if slot >= lay.width(lvl) {
                lvl -= 1;
                continue;
            }
            match self.farthest(&lay, &rev, lvl) {
                None => {
                    lvl -= 1;
                },
                Some(nd) => {
                    let ghost best = farthest(c, placed, rev@, lvl as int, c.order.len() as int);
                    proof {
                        lemma_position(c, best);
                        assert(c.order.contains(nd));
                        assert(cell(m.hier, lvl as int, slot as int) == FREE);
                        lemma_placement(c, m, lvl as int, slot as int, nd);
                        lemma_place_row(c, m, lvl as int, slot as int, nd);
                        lemma_tally_update(
                            m.hier[lvl as int],
                            |x: usize| x == FREE,
                            slot as int,
                            nd,
                        );
                        lemma_ready_down(
                            c,
                            place(c, m, lvl as int, slot as int, nd),
                            lvl as int,
                            1,
                        );
                    }
                    self.place_bit(&mut lay, lvl, slot, nd);
                    let ghost m2 = lay@;
                    proof {
                        lemma_closed(c, m2);
                        lemma_rev_from(c, m2.count.dom(), 0);
                    }
                    let rev2: Vec<usize> = self.compute_reverse_level(&lay);
                    if self.is_overfull(&lay, &rev2) {
                        lay.purge_bit(lvl, slot);
                        proof {
                            lemma_undone(c, m, m2, lay@, lvl as int, slot as int, nd);
                        }
                        lvl -= 1;
                    } else {
                        rev = rev2;
                    }
                },
            }
        }
        lay
    }
}

/// What is ready for placements in a row is so for the rows below it.
pub proof fn lemma_ready_down(c: Job, m: Mapping, hi: int, lo: int)
    requires
        ready(c, m, hi),
        lo <= hi,
    ensures
        ready(c, m, lo),
    decreases hi - lo,
{
    if lo < hi {
        lemma_ready_below(c, m, hi);
        lemma_ready_down(c, m, hi - 1, lo);
    }
}

/// The groups of row 1 that are not crowded lie in the row.
proof fn lemma_roomy(row: Seq<usize>, n: int)
    requires
        0 <= n,
        32 * n <= row.len(),
        row.len() <= 8192,
    ensures
        roomy(row, n).len() <= n,
        forall|s: int|
            0 <= s < roomy(row, n).len() ==> {
                &&& (#[trigger] roomy(row, n)[s]).0 < CROWDED
                &&& roomy(row, n)[s].1 + 32 <= 32 * n
                &&& roomy(row, n)[s].0 == occupancy(row, roomy(row, n)[s].1 as int)
            },
    decreases n,
{
    if n > 0 {
        lemma_roomy(row, n - 1);
    }
}

/// The groups in the order in which they are filled.
pub open spec fn spaces_of(row: Seq<usize>) -> Seq<(usize, usize)> {
    sorted_pairs(roomy(row, row_len(1) as int / 32))
}

/// What holds of the groups in the order in which they are filled.
pub proof fn lemma_spaces(row: Seq<usize>)
    requires
        row.len() == row_len(1),
    ensures
        spaces_of(row).len() <= 128,
        forall|s: int|
            0 <= s < spaces_of(row).len() ==> {
                &&& (#[trigger] spaces_of(row)[s]).0 < CROWDED
                &&& spaces_of(row)[s].1 + 32 <= row_len(1)
                &&& spaces_of(row)[s].0 == occupancy(row, spaces_of(row)[s].1 as int)
            },
{
    lemma_wide_rows();
    let r = roomy(row, 128);
    lemma_roomy(row, 128);
    lemma_orders();
    lemma_sort_contains(r, pair_le());
    let t = spaces_of(row);
    assert forall|s: int| 0 <= s < t.len() implies {
        &&& (#[trigger] t[s]).0 < CROWDED
        &&& t[s].1 + 32 <= row_len(1)
        &&& t[s].0 == occupancy(row, t[s].1 as int)
    } by {
        assert(t.contains(t[s]));
        assert(r.contains(t[s]));
        let i = r.index_of(t[s]);
        assert(r[i] == t[s]);
    }
}

impl Layout {
    /// The groups of row 1 that are not crowded, the emptiest first.
    fn spaces(&self) -> (v: Vec<(usize, usize)>)
        requires
            shape(self@.hier),
        ensures
            v@ == spaces_of(self@.hier[1]),
    {
        let ghost row = self@.hier[1];
        proof {
            lemma_wide_rows();
        }
        let groups: usize = self.width(1) / 32;
        let mut v: Vec<(usize, usize)> = Vec::new();
        let mut i: usize = 0;
        while i < groups
            invariant
                shape(self@.hier),
                row == self@.hier[1],
                row_len(1) == 4096,
                groups == 128,
                i <= groups,
                v@ == roomy(row, i as int),
            decreases groups - i,
        {
            let occupied: usize = self.occupied(1, i * 32, i * 32 + 32);
            if occupied < CROWDED {
                v.push((occupied, i * 32));
            }
            i += 1;
        }
        sort_pairs(&mut v);
        v
    }
}

/// How far the wanted nodes of row 1 have been placed.
struct Filling {
    lay: Layout,
    next: usize,
    done: IndexSet<usize>,
}

impl Filling {
    /// How far the groups are filled.
    spec fn fill(self) -> Fill {
        Fill { m: self.lay@, next: self.next as int, done: set_items(self.done) }
    }

    /// What each step of filling row 1 with `lvl1` keeps.
    spec fn wf(self, c: Job, lvl1: Seq<usize>) -> bool {
        &&& ready(c, self.lay@, 1)
        &&& self.next <= lvl1.len()
        &&& forall|i: int| 0 <= i < lvl1.len() ==> fits_row(c, 1, #[trigger] lvl1[i])
    }

    /// Fills one group.
    fn fill_group(&mut self, plan: &Plan, lvl1: &Vec<usize>, start: usize)
        requires
            plan.wf(),
            old(self).wf(plan.job(), lvl1@),
            start + 32 <= row_len(1),
        ensures
            final(self).wf(plan.job(), lvl1@),
            final(self).fill() == fill_group(
                plan.job(),
                old(self).fill(),
                lvl1@,
                start as int,
                start + 32,
            ),
    {
        let ghost c = plan.job();
        let ghost f = fill_group(c, self.fill(), lvl1@, start as int, start + 32);
        proof {
            lemma_wide_rows();
        }
        let mut j: usize = start;
        let end: usize = start + 32;
        while j < end && self.next < lvl1.len()
            invariant
                plan.wf(),
                c == plan.job(),
                self.wf(c, lvl1@),
                start <= j <= end <= 4096,
                row_len(1) == 4096,
                f == fill_group(c, self.fill(), lvl1@, j as int, end as int),
            decreases end - j,
        {
            assert(is_cell(1, j as int));
            let x: usize = self.lay.get(1, j);
            if x == FREE {
                let nd: usize = lvl1[self.next];
                proof {
                    lemma_placement(c, self.lay@, 1, j as int, nd);
                }
                plan.place_bit(&mut self.lay, 1, j, nd);
                set_insert(&mut self.done, nd);
                self.next += 1;
            } else if set_contains(plan.outs, x) {
                set_insert(&mut self.done, x);
            }
            j += 1;
        }
    }

    /// Fills groups as long as there is enough to fill them with; the number
    /// of them.
    fn fill_groups(
        &mut self,
        plan: &Plan,
        lvl1: &Vec<usize>,
        spaces: &Vec<(usize, usize)>,
        all: bool,
    ) -> (n: usize)
        requires
            plan.wf(),
            old(self).wf(plan.job(), lvl1@),
            forall|s: int|
                0 <= s < spaces@.len() ==> (#[trigger] spaces@[s]).0 <= 32 && spaces@[s].1 + 32
                    <= row_len(1),
        ensures
            final(self).wf(plan.job(), lvl1@),
            n <= spaces@.len(),
            (final(self).fill(), n as int) == fill_groups(
                plan.job(),
                old(self).fill(),
                lvl1@,
                spaces@,
                all,
                0,
            ),
    {
        let ghost c = plan.job();
        let ghost f = fill_groups(c, self.fill(), lvl1@, spaces@, all, 0);
        let mut s: usize = 0;
        while s < spaces.len() && (all || lvl1.len() - self.next >= 32 - spaces[s].0)
            invariant
                plan.wf(),
                c == plan.job(),
                self.wf(c, lvl1@),
                s <= spaces@.len(),
                forall|s: int|
                    0 <= s < spaces@.len() ==> (#[trigger] spaces@[s]).0 <= 32 && spaces@[s].1 + 32
                        <= row_len(1),
                f == fill_groups(c, self.fill(), lvl1@, spaces@, all, s as int),
            decreases spaces@.len() - s,
        {
            self.fill_group(plan, lvl1, spaces[s].1);
            s += 1;
        }
        s
    }

    /// Puts what else is necessary into row 1; whether there is a cell to
    /// spare behind it.
    fn settle(&mut self, plan: &Plan, need: &IndexSet<usize>) -> (ok: bool)
        requires
            plan.wf(),
            ready(plan.job(), old(self).lay@, 1),
            forall|i: int|
                0 <= i < set_items(*need).len() ==> fits_row(
                    plan.job(),
                    1,
                    #[trigger] set_items(*need)[i],
                ),
        ensures
            final(self).done == old(self).done,
            match settle(
                plan.job(),
                old(self).lay@,
                set_items(old(self).done),
                set_items(*need),
                0,
                0,
            ) {
                Some((m, from)) => {
                    &&& ok == (first_free(m.hier[1], from) < row_len(1))
                    &&& ok ==> final(self).lay@ == m && ready(plan.job(), m, 1)
                },
                None => !ok,
            },
    {
        let ghost c = plan.job();
        let ghost done = set_items(self.done);
        let ghost want = settle(c, self.lay@, done, set_items(*need), 0, 0);
        let n: usize = set_len(need);
        proof {
            lemma_wide_rows();
        }
        let mut from: usize = 0;
        let mut k: usize = 0;
        while k < n
            invariant
                plan.wf(),
                c == plan.job(),
                ready(c, self.lay@, 1),
                row_len(1) == 4096,
                n == set_items(*need).len(),
                k <= n,
                from <= 4096,
                self.done == old(self).done,
                done == set_items(self.done),
                forall|i: int| 0 <= i < n ==> fits_row(c, 1, #[trigger] set_items(*need)[i]),
                want == settle(c, self.lay@, done, set_items(*need), k as int, from as int),
                want == settle(c, old(self).lay@, done, set_items(*need), 0, 0),
            decreases n - k,
        {
            let nd: usize = set_at(need, k);
            if !(self.lay.is_placed(nd) || set_contains(&self.done, nd)) {
                assert(self.lay@.hier[1].len() == 4096);
                proof {
                    lemma_first_free(self.lay@.hier[1], from as int);
                }
                let free: usize = self.lay.first_free(1, from);
                if free >= self.lay.width(1) {
                    return false;
                }
                proof {
                    assert(cell(self.lay@.hier, 1, free as int) == FREE);
                    lemma_placement(c, self.lay@, 1, free as int, nd);
                }
                plan.place_bit(&mut self.lay, 1, free, nd);
                from = free;
            }
            k += 1;
        }
        let spare: usize = self.lay.first_free(1, from);
        spare < self.lay.width(1)
    }
}

/// The wanted nodes, by where they stand.
struct Wanted {
    /// Those that must be placed in row 1.
    lvl1: Vec<usize>,
    /// Those that are placed above it.
    placed: IndexSet<usize>,
    /// Whether there are others.
    untouched: bool,
}

/// A mapped stage.
pub(crate) struct Mapped {
    pub lay: Layout,
    pub write_outs: Vec<usize>,
    /// The wanted nodes that are written out.
    pub done: IndexSet<usize>,
}

impl<'a> Plan<'a> {
    /// Sorts the wanted nodes by where they stand.
    fn split_wanted(&self, lay: &Layout, need: &IndexSet<usize>) -> (w: Wanted)
        requires
            self.wf(),
            self.job().outs.no_duplicates(),
        ensures
            w.lvl1@ == wanted_lvl1(self.job(), lay@, set_items(*need)),
            set_items(w.placed) == wanted_placed(self.job(), lay@),
            w.untouched == some_untouched(self.job(), lay@, set_items(*need)),
    {
        let ghost c = self.job();
        let ghost m = lay@;
        let ghost s = set_items(*need);
        let mut w: Wanted = Wanted { lvl1: Vec::new(), placed: set_new(), untouched: false };
        let n: usize = set_len(self.outs);
        let mut i: usize = 0;
        assert(c.outs.take(0) =~= Seq::empty());
        proof {
            reveal(Seq::filter);
        }
        while i < n
            invariant
                self.wf(),
                c == self.job(),
                m == lay@,
                s == set_items(*need),
                c.outs.no_duplicates(),
                n == c.outs.len(),
                i <= n,
                w.lvl1@ == c.outs.take(i as int).filter(is_needed(m, s)),
                set_items(w.placed) == c.outs.take(i as int).filter(is_placed(m)),
                w.untouched == exists|i0: int|
                    0 <= i0 < i && !m.count.contains_key(#[trigger] c.outs[i0]) && !s.contains(
                        c.outs[i0],
                    ),
            decreases n - i,
        {
            let x: usize = set_at(self.outs, i);
            proof {
                lemma_filter_take(c.outs, is_needed(m, s), i as int);
                lemma_filter_take(c.outs, is_placed(m), i as int);
                lemma_filter(c.outs.take(i as int), is_placed(m));
                assert(!c.outs.take(i as int).contains(x));
            }
            if lay.is_placed(x) {
                set_insert(&mut w.placed, x);
            } else if set_contains(need, x) {
                w.lvl1.push(x);
            } else {
                w.untouched = true;
                assert(!m.count.contains_key(c.outs[i as int]));
            }
            i += 1;
        }
        assert(c.outs.take(n as int) =~= c.outs);
        w
    }
}

impl Layout {
    /// The write-outs of the nodes of `placed` that are not in `done`.
    fn more_writeouts(&self, placed: &IndexSet<usize>, done: &IndexSet<usize>) -> (more: IndexSet<
        usize,
    >)
        requires
            shape(self@.hier),
        ensures
            set_items(more) == more_writeouts(
                self@.hier,
                set_items(*placed),
                set_items(*done),
                BOOMERANG_NUM_STAGES + 1,
            ),
    {
        let ghost p = set_items(*placed);
        let ghost d = set_items(*done);
        let mut more: IndexSet<usize> = set_new();
        let mut hi: usize = 1;
        while hi <= BOOMERANG_NUM_STAGES
            invariant
                shape(self@.hier),
                p == set_items(*placed),
                d == set_items(*done),
                1 <= hi <= BOOMERANG_NUM_STAGES + 1,
                set_items(more) == more_writeouts(self@.hier, p, d, hi as int),
            decreases BOOMERANG_NUM_STAGES + 1 - hi,
        {
            let ghost s = set_items(more);
            proof {
                lemma_row_len(hi as int);
            }
            let width: usize = self.width(hi);
            let mut j: usize = 0;
            while j < width
                invariant
                    shape(self@.hier),
                    p == set_items(*placed),
                    d == set_items(*done),
                    1 <= hi <= BOOMERANG_NUM_STAGES,
                    width == row_len(hi as int),
                    width <= 8192,
                    j <= width,
                    set_items(more) == row_writeouts(
                        self@.hier[hi as int],
                        hi as int,
                        p,
                        d,
                        s,
                        j as int,
                    ),
                decreases width - j,
            {
                let nd: usize = self.get(hi, j);
                if set_contains(placed, nd) && !set_contains(done, nd) {
                    set_insert(&mut more, (j + width) / 32);
                }
                j += 1;
            }
            hi += 1;
        }
        more
    }
}

/// What is necessary in row 1 fits there.
pub proof fn lemma_need_fits(c: Job, placed: Set<usize>)
    requires
        job_ok(c),
    ensures
        forall|i: int|
            0 <= i < necessary(c, placed).len() ==> fits_row(c, 1, #[trigger] necessary(c, placed)[i]),
{
    let need = necessary(c, placed);
    lemma_necessary(c, placed, reverse_levels(c, placed), c.order.len() as int);
    lemma_order(c);
    assert forall|i: int| 0 <= i < need.len() implies fits_row(c, 1, #[trigger] need[i]) by {
        assert(need.contains(need[i]));
        assert(c.order[c.order.index_of(need[i])] != FREE);
    }
}

impl<'a> Plan<'a> {
    /// Maps a stage.
    pub(crate) fn map_stage(&self, total: &mut usize, limit: usize) -> (r: Option<Mapped>)
        requires
            self.wf(),
            self.job().outs.no_duplicates(),
            *old(total) + 128 <= usize::MAX,
            limit <= BOOMERANG_MAX_WRITEOUTS,
        ensures
            match stage(self.job(), *old(total) as int, limit as int) {
                None => r is None && *final(total) == *old(total) + first_writeouts(self.job()),
                Some(st) => r matches Some(mapped) && {
                    &&& *final(total) == st.total
                    &&& mapped.lay@.hier == st.hier
                    &&& mapped.write_outs@ == st.write_outs
                    &&& st.outs == removed_all(
                        self.job().outs,
                        set_items(mapped.done),
                        set_items(mapped.done).len() as int,
                    )
                    &&& st.stops == self.job().stops.union(mapped.lay@.count.dom())
                },
            },
    {
        let ghost c = self.job();
        proof {
            reveal(stage);
        }
        let lay: Layout = self.map_upper();
        let ghost m = lay@;
        proof {
            lemma_wide_rows();
            lemma_closed(c, m);
            lemma_rev_from(c, m.count.dom(), 0);
        }
        let rev: Vec<usize> = self.compute_reverse_level(&lay);
        let need: IndexSet<usize> = self.compute_lvl1_necessary_nodes(&lay, &rev);
        let ghost s = necessary(c, m.count.dom());
        assert(set_items(need) == s);
        let w: Wanted = self.split_wanted(&lay, &need);
        let spaces: Vec<(usize, usize)> = lay.spaces();
        proof {
            lemma_spaces(m.hier[1]);
            lemma_need_fits(c, m.count.dom());
            lemma_filter(c.outs, is_needed(m, s));
            assert forall|i: int| 0 <= i < w.lvl1@.len() implies fits_row(
                c,
                1,
                #[trigger] w.lvl1@[i],
            ) by {
                assert(w.lvl1@.contains(w.lvl1@[i]));
                assert(s[s.index_of(w.lvl1@[i])] == w.lvl1@[i]);
            }
        }
        let mut f: Filling = Filling { lay, next: 0, done: set_new() };
        let n: usize = f.fill_groups(self, &w.lvl1, &spaces, !w.untouched);
        let ghost groups = spaces@.take(n as int);
        assert((f.fill(), groups) == first_fill(c, m, s));
        assert(first_writeouts(c) == n);
        *total = *total + n;
        if *total > limit {
            return None;
        }
        let mut write_outs: Vec<usize> = Vec::new();
        let mut i: usize = 0;
        while i < n
            invariant
                n <= spaces@.len(),
                i <= n,
                row_len(1) == 4096,
                forall|s: int| 0 <= s < spaces@.len() ==> (#[trigger] spaces@[s]).1 <= 4096,
                write_outs@ == group_writeouts(spaces@.take(i as int)),
            decreases n - i,
        {
            write_outs.push((spaces[i].1 + 4096) / 32);
            i += 1;
            assert(write_outs@ =~= group_writeouts(spaces@.take(i as int)));
        }
        if !f.settle(self, &need) {
            return None;
        }
        if !w.untouched {
            let more: IndexSet<usize> = f.lay.more_writeouts(&w.placed, &f.done);
            let k: usize = set_len(&more);
            if k <= limit - *total {
                let ghost wo = write_outs@;
                let mut i: usize = 0;
                while i < k
                    invariant
                        k == set_items(more).len(),
                        i <= k,
                        write_outs@ == wo + set_items(more).take(i as int),
                    decreases k - i,
                {
                    write_outs.push(set_at(&more, i));
                    i += 1;
                    assert(write_outs@ =~= wo + set_items(more).take(i as int));
                }
                assert(set_items(more).take(k as int) =~= set_items(more));
                *total = *total + k;
                let p: usize = set_len(&w.placed);
                let ghost d = set_items(f.done);
                let ghost m3 = f.lay@;
                let mut i: usize = 0;
                while i < p
                    invariant
                        p == set_items(w.placed).len(),
                        i <= p,
                        set_items(f.done) == inserted_all(d, set_items(w.placed), i as int),
                        f.lay@ == m3,
                    decreases p - i,
                {
                    set_insert(&mut f.done, set_at(&w.placed, i));
                    i += 1;
                }
            }
        }
        Some(Mapped { lay: f.lay, write_outs, done: f.done })
    }
}

} // verus!
