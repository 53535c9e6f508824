//! What a stage fills into row 1 and writes out.
use crate::boomerang::{
    Mapping, some_untouched, is_needed, fill_group, fill_groups, fill_step, first_fill, free,
    group_writeouts, is_placed, job_ok, lemma_place_row, more_writeouts, necessary, row_len,
    row_writeouts, stage, upper_mapping, wanted_placed, writeout_of, Fill, Job, FREE,
};
use crate::collections::lemma_inserted;
use crate::mapping::{cell, is_cell, lemma_row_len, lemma_wide_rows};
use crate::seqs::lemma_filter;
use crate::soundness::{lemma_inserted_all, lemma_more_writeouts, lemma_removed_all};
use crate::stage::spaces_of;
use crate::stage_laws::{done_by, lemma_done_by, lemma_settled};
use vstd::prelude::*;

verus! {

/// The number of free cells from `j` up to `end` of a row.
pub open spec fn free_between(row: Seq<usize>, j: int, end: int) -> int
    decreases end - j,
{
    if j >= end {
        0
    } else {
        free_between(row, j, end - 1) + (if row[end - 1] == FREE {
            1int
        } else {
            0int
        })
    }
}

/// There are no fewer free cells in more of a row.
proof fn lemma_free_between(row: Seq<usize>, j: int, k: int, end: int)
    requires
        j <= k <= end,
    ensures
        free_between(row, j, end) == free_between(row, j, k) + free_between(row, k, end),
        free_between(row, k, end) >= 0,
        free_between(row, j, k) >= 0,
    decreases end - j,
{
    if k < end {
        lemma_free_between(row, j, k, end - 1);
    } else if j < k {
        lemma_free_between(row, j, k - 1, k - 1);
    }
}

/// A row with only cell `j` changed has the same free cells elsewhere.
proof fn lemma_free_kept(row: Seq<usize>, other: Seq<usize>, j: int, end: int)
    requires
        forall|i: int| j <= i < end ==> #[trigger] row[i] == other[i],
    ensures
        free_between(row, j, end) == free_between(other, j, end),
    decreases end - j,
{
    if j < end {
        lemma_free_kept(row, other, j, end - 1);
        assert(row[end - 1] == other[end - 1]);
    }
}

/// The free cells of a group are filled from the left with the nodes of `lvl1`
/// that are still left, one after the other, as far as these go; all other
/// cells of row 1 stay as they are.
pub proof fn free_cells_are_filled_in_order(
    c: Job,
    f: Fill,
    lvl1: Seq<usize>,
    j: int,
    end: int,
    i: int,
)
    requires
        f.m.hier.len() == 14,
        0 <= j <= end <= f.m.hier[1].len(),
        0 <= f.next <= lvl1.len(),
        0 <= i < f.m.hier[1].len(),
    ensures
        ({
            let r = fill_group(c, f, lvl1, j, end);
            let k = f.next + free_between(f.m.hier[1], j, i);
            &&& r.m.hier.len() == 14
            &&& r.m.hier[1].len() == f.m.hier[1].len()
            &&& r.next == if f.next + free_between(f.m.hier[1], j, end) <= lvl1.len() {
                f.next + free_between(f.m.hier[1], j, end)
            } else {
                lvl1.len() as int
            }
            &&& r.m.hier[1][i] == if j <= i < end && f.m.hier[1][i] == FREE && k < lvl1.len() {
                lvl1[k]
            } else {
                f.m.hier[1][i]
            }
        }),
    decreases end - j,
{
    let row = f.m.hier[1];
    lemma_free_between(row, j, j, end);
    if j < end && f.next < lvl1.len() {
        let g = fill_step(c, f, lvl1, j);
        if row[j] == FREE {
            lemma_place_row(c, f.m, 1, j, lvl1[f.next]);
        }
        free_cells_are_filled_in_order(c, g, lvl1, j + 1, end, i);
        let next = g.m.hier[1];
        assert(free_between(row, j, j) == 0);
        assert(free_between(row, j, j + 1) == if row[j] == FREE {
            1int
        } else {
            0int
        });
        lemma_free_between(row, j, j + 1, end);
        lemma_free_kept(row, next, j + 1, end);
        if j < i {
            lemma_free_between(row, j, j + 1, i);
            lemma_free_kept(row, next, j + 1, i);
        }
    } else if j <= i < end {
        lemma_free_between(row, j, i, end);
    }
}

/// Groups are filled one after the other: all of them where no wanted node is
/// left for a later stage, and otherwise up to the first one that has more
/// cells free than there are nodes left.
pub proof fn groups_are_filled_as_far_as_they_can_be(
    c: Job,
    f: Fill,
    lvl1: Seq<usize>,
    spaces: Seq<(usize, usize)>,
    all: bool,
    s: int,
    i: int,
)
    requires
        0 <= s <= spaces.len(),
    ensures
        ({
            let (r, n) = fill_groups(c, f, lvl1, spaces, all, s);
            &&& s <= n <= spaces.len()
            &&& all ==> n == spaces.len()
            &&& !all && n < spaces.len() ==> lvl1.len() - r.next < 32 - spaces[n].0
            &&& !all && s <= i < n ==> lvl1.len() - fill_groups(
                c,
                f,
                lvl1,
                spaces.take(i),
                all,
                s,
            ).0.next >= 32 - spaces[i].0
        }),
    decreases spaces.len() - s,
{
    if s < spaces.len() && (all || lvl1.len() - f.next >= 32 - spaces[s].0) {
        let start = spaces[s].1 as int;
        let g = fill_group(c, f, lvl1, start, start + 32);
        groups_are_filled_as_far_as_they_can_be(c, g, lvl1, spaces, all, s + 1, i);
        if s < i < spaces.len() {
            assert(spaces.take(i)[s] == spaces[s]);
        }
    }
}

/// A group with a wanted node that is placed above row 1 and not yet written
/// out.
pub open spec fn holds_wanted(
    hier: Seq<Seq<usize>>,
    placed: Seq<usize>,
    done: Seq<usize>,
    w: usize,
    g: int,
    j: int,
) -> bool {
    &&& 1 <= g <= 13
    &&& is_cell(g, j)
    &&& placed.contains(cell(hier, g, j))
    &&& !done.contains(cell(hier, g, j))
    &&& w == (j + row_len(g)) / 32
}

/// The write-outs of a row are those of its nodes.
proof fn lemma_row_only(
    hier: Seq<Seq<usize>>,
    hi: int,
    placed: Seq<usize>,
    done: Seq<usize>,
    s: Seq<usize>,
    n: int,
    w: usize,
)
    requires
        1 <= hi <= 13,
        0 <= n <= row_len(hi),
        row_writeouts(hier[hi], hi, placed, done, s, n).contains(w),
    ensures
        s.contains(w) || exists|g: int, j: int| #[trigger] holds_wanted(hier, placed, done, w, g, j),
    decreases n,
{
    lemma_row_len(hi);
    if n > 0 {
        let t = row_writeouts(hier[hi], hi, placed, done, s, n - 1);
        let x = hier[hi][n - 1];
        lemma_inserted(t, writeout_of(hi, n - 1));
        if t.contains(w) {
            lemma_row_only(hier, hi, placed, done, s, n - 1, w);
        } else {
            assert(placed.contains(x) && !done.contains(x));
            assert(w == writeout_of(hi, n - 1));
            assert(holds_wanted(hier, placed, done, w, hi, n - 1));
        }
    }
}

/// The additional write-outs are those of nodes.
proof fn lemma_more_only(
    hier: Seq<Seq<usize>>,
    placed: Seq<usize>,
    done: Seq<usize>,
    hi: int,
    w: usize,
)
    requires
        1 <= hi <= 14,
        more_writeouts(hier, placed, done, hi).contains(w),
    ensures
        exists|g: int, j: int| #[trigger] holds_wanted(hier, placed, done, w, g, j),
    decreases hi,
{
    if hi > 1 {
        let s = more_writeouts(hier, placed, done, hi - 1);
        lemma_row_only(hier, hi - 1, placed, done, s, row_len(hi - 1) as int, w);
        if s.contains(w) {
            lemma_more_only(hier, placed, done, hi - 1, w);
        }
    }
}

/// The groups above row 1 that would have to be written out for all wanted
/// nodes that are placed there.
pub open spec fn groups_to_write(
    hier: Seq<Seq<usize>>,
    placed: Seq<usize>,
    done: Seq<usize>,
) -> Set<usize> {
    Set::new(
        |w: usize| exists|g: int, j: int| #[trigger] holds_wanted(hier, placed, done, w, g, j),
    )
}

/// The additional write-outs are the groups to write.
proof fn lemma_groups_to_write(hier: Seq<Seq<usize>>, placed: Seq<usize>, done: Seq<usize>)
    ensures
        groups_to_write(hier, placed, done) == more_writeouts(hier, placed, done, 14).to_set(),
        groups_to_write(hier, placed, done).len() == more_writeouts(hier, placed, done, 14).len(),
{
    let more = more_writeouts(hier, placed, done, 14);
    lemma_more_writeouts(hier, placed, done, 14);
    assert forall|w: usize| more.contains(w) <==> groups_to_write(hier, placed, done).contains(w) by {
        if more.contains(w) {
            lemma_more_only(hier, placed, done, 14, w);
        }
        if groups_to_write(hier, placed, done).contains(w) {
            let (g, j) = choose|g: int, j: int| #[trigger]
                holds_wanted(hier, placed, done, w, g, j);
            lemma_row_len(g);
            assert(placed.contains(cell(hier, g, j)));
            assert(more.contains(writeout_of(g, j)));
        }
    }
    assert(groups_to_write(hier, placed, done) =~= more.to_set());
    more.unique_seq_to_set();
}

/// What a stage leaves wanted.  It drops what it filled into row 1 or found
/// there.  Where no wanted node is left for a later stage and the groups of all
/// other wanted nodes are within the limit, it writes these groups out too and
/// drops the nodes; otherwise it keeps them wanted and writes out the filled
/// groups only.
pub proof fn the_last_stage_writes_everything_out(c: Job, total: int, limit: int, x: usize)
    requires
        job_ok(c),
        c.outs.no_duplicates(),
        c.outs.contains(x),
        stage(c, total, limit) is Some,
    ensures
        ({
            let st = stage(c, total, limit).unwrap();
            let m = upper_mapping(c);
            let need = necessary(c, m.count.dom());
            let (f, groups) = first_fill(c, m, need);
            let extra = groups_to_write(st.hier, wanted_placed(c, m), f.done);
            let last = forall|i: int|
                0 <= i < c.outs.len() ==> m.count.contains_key(#[trigger] c.outs[i])
                    || need.contains(c.outs[i]);
            &&& f.done.contains(x) ==> !st.outs.contains(x)
            &&& if last && total + groups.len() + extra.len() <= limit {
                &&& st.outs.contains(x) <==> !f.done.contains(x) && !m.count.contains_key(x)
                &&& st.write_outs.len() == groups.len() + extra.len()
                &&& forall|w: usize| #[trigger] extra.contains(w) ==> st.write_outs.contains(w)
            } else {
                &&& st.outs.contains(x) <==> !f.done.contains(x)
                &&& st.write_outs.len() == groups.len()
            }
            &&& forall|i: int|
                0 <= i < groups.len() ==> st.write_outs[i] == (4096 + (#[trigger] groups[i]).1) / 32
        }),
{
    let (f, groups, m3, from) = lemma_settled(c, total, limit);
    let st = stage(c, total, limit).unwrap();
    let m = upper_mapping(c);
    let need = necessary(c, m.count.dom());
    let placed = wanted_placed(c, m);
    let total1 = total + groups.len();
    let d = done_by(c, f, m3, total1, limit);
    let extra = groups_to_write(st.hier, placed, f.done);
    let more = more_writeouts(m3.hier, placed, f.done, 14);
    let wo = group_writeouts(groups);
    lemma_groups_to_write(m3.hier, placed, f.done);
    lemma_done_by(c, f, groups, m3, from, total1, limit);
    lemma_removed_all(c.outs, d, d.len() as int);
    assert(d.take(d.len() as int) =~= d);
    lemma_inserted_all(f.done, placed, placed.len() as int);
    assert(placed.take(placed.len() as int) =~= placed);
    lemma_filter(c.outs, is_placed(m));
    lemma_wide_rows();
    assert(placed.contains(x) <==> m.count.contains_key(x));
    assert forall|w: usize| #[trigger] more.contains(w) implies (wo + more).contains(w) by {
        assert((wo + more)[wo.len() + more.index_of(w)] == w);
    }
    assert forall|i: int| 0 <= i < groups.len() implies st.write_outs[i] == (4096 + (
    #[trigger] groups[i]).1) / 32 by {
        assert(groups[i].1 + 32 <= 4096);
        assert(wo[i] == writeout_of(1, groups[i].1 as int));
        assert(st.write_outs[i] == wo[i]);
    }
}

/// A cell of row 1 is passed while there are nodes left to fill in, and what it
/// holds then is `y`: a node that was filled in, or a wanted one that was there.
pub open spec fn passes(c: Job, f: Fill, lvl1: Seq<usize>, j: int, end: int, i: int, y: usize) -> bool {
    let k = f.next + free_between(f.m.hier[1], j, i);
    &&& j <= i < end
    &&& k < lvl1.len()
    &&& if f.m.hier[1][i] == FREE {
        y == lvl1[k]
    } else {
        y == f.m.hier[1][i] && c.outs.contains(y)
    }
}

/// Filling a group writes out what it fills in and every wanted node that it comes
/// across, as long as there are nodes left to fill in, and nothing else.
pub proof fn filled_groups_write_out_what_they_pass(
    c: Job,
    f: Fill,
    lvl1: Seq<usize>,
    j: int,
    end: int,
    y: usize,
)
    requires
        f.m.hier.len() == 14,
        0 <= j <= end <= f.m.hier[1].len(),
        0 <= f.next <= lvl1.len(),
    ensures
        fill_group(c, f, lvl1, j, end).done.contains(y) <==> f.done.contains(y) || exists|i: int|
            #[trigger] passes(c, f, lvl1, j, end, i, y),
    decreases end - j,
{
    let row = f.m.hier[1];
    if j < end && f.next < lvl1.len() {
        let g = fill_step(c, f, lvl1, j);
        let next = g.m.hier[1];
        if row[j] == FREE {
            lemma_place_row(c, f.m, 1, j, lvl1[f.next]);
            lemma_inserted(f.done, lvl1[f.next]);
        } else {
            lemma_inserted(f.done, row[j]);
        }
        filled_groups_write_out_what_they_pass(c, g, lvl1, j + 1, end, y);
        assert(free_between(row, j, j) == 0);
        assert(free_between(row, j, j + 1) == if row[j] == FREE {
            1int
        } else {
            0int
        });
        assert forall|i: int| j < i < end implies #[trigger] passes(c, f, lvl1, j, end, i, y)
            == passes(c, g, lvl1, j + 1, end, i, y) by {
            lemma_free_between(row, j, j + 1, i);
            lemma_free_kept(row, next, j + 1, i);
        }
        if g.done.contains(y) && !f.done.contains(y) {
            assert(passes(c, f, lvl1, j, end, j, y));
        }
        if exists|i: int| #[trigger] passes(c, g, lvl1, j + 1, end, i, y) {
            let i = choose|i: int| #[trigger] passes(c, g, lvl1, j + 1, end, i, y);
            assert(passes(c, f, lvl1, j, end, i, y));
        }
        if exists|i: int| #[trigger] passes(c, f, lvl1, j, end, i, y) {
            let i = choose|i: int| #[trigger] passes(c, f, lvl1, j, end, i, y);
            if i > j {
                assert(passes(c, g, lvl1, j + 1, end, i, y));
            }
        }
    } else {
        assert forall|i: int| !#[trigger] passes(c, f, lvl1, j, end, i, y) by {
            if j <= i < end {
                lemma_free_between(row, j, i, end);
            }
        }
    }
}

/// Row 1 is filled with the wanted nodes that are needed there and not placed, in
/// the order in which they are wanted, group after group; all groups are filled
/// where every wanted node is placed or needed.
pub proof fn row_one_is_filled_with_wanted_nodes(c: Job, m: Mapping, need: Seq<usize>)
    ensures
        ({
            let lvl1 = c.outs.filter(|x: usize| need.contains(x) && !m.count.contains_key(x));
            let all = forall|i: int|
                0 <= i < c.outs.len() ==> m.count.contains_key(#[trigger] c.outs[i])
                    || need.contains(c.outs[i]);
            let (f, n) = fill_groups(
                c,
                Fill { m, next: 0, done: Seq::empty() },
                lvl1,
                spaces_of(m.hier[1]),
                all,
                0,
            );
            &&& first_fill(c, m, need).0 == f
            &&& first_fill(c, m, need).1 == spaces_of(m.hier[1]).take(n)
        }),
        wanted_placed(c, m) == c.outs.filter(|x: usize| m.count.contains_key(x)),
{
    let p = |x: usize| need.contains(x) && !m.count.contains_key(x);
    assert(p =~= is_needed(m, need));
    let q = |x: usize| m.count.contains_key(x);
    assert(q =~= is_placed(m));
    lemma_wide_rows();
    let all = forall|i: int|
        0 <= i < c.outs.len() ==> m.count.contains_key(#[trigger] c.outs[i]) || need.contains(
            c.outs[i],
        );
    assert(all == !some_untouched(c, m, need));
}

} // verus!
