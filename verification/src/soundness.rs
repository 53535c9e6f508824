//! What the mapping of a stage achieves.
use crate::boomerang::{
    blank, can_descend, descend, descend_fits, top_row, tree_fits, farthest, fill_group,
    fill_groups, fill_step, first_free, free, inserted_all, job_ok, lemma_farthest,
    lemma_first_free, lemma_place_row, level_of, more_writeouts, necessary, overfull, place,
    removed_all, reverse_levels, row_len, row_writeouts, settle, upper_mapping, writeout_of, Fill,
    Job, Mapping, BOOMERANG_NUM_STAGES, FREE,
};
use crate::collections::{inserted, lemma_inserted, swap_removed};
use crate::distances::{lemma_blank, lemma_placement, ready};
use crate::mapping::{
    cell, counts_ok, fits_row, in_tree, is_cell, lemma_counted, lemma_counted_cell, lemma_order,
    lemma_position, lemma_row_len, shape,
};
use crate::seqs::lemma_tally_update;
use crate::stage::lemma_ready_down;
use vstd::prelude::*;

verus! {

/// Every occupied cell of `m` is as it was in `r`.
pub open spec fn keeps(m: Mapping, r: Mapping) -> bool {
    forall|g: int, i: int|
        is_cell(g, i) && #[trigger] cell(m.hier, g, i) != FREE ==> cell(r.hier, g, i) == cell(
            m.hier,
            g,
            i,
        )
}

/// What is kept twice is kept.
pub proof fn lemma_keeps_trans(m: Mapping, p: Mapping, r: Mapping)
    requires
        keeps(m, p),
        keeps(p, r),
    ensures
        keeps(m, r),
{
    assert forall|g: int, i: int|
        is_cell(g, i) && #[trigger] cell(m.hier, g, i) != FREE implies cell(r.hier, g, i) == cell(
        m.hier,
        g,
        i,
    ) by {
        assert(cell(p.hier, g, i) == cell(m.hier, g, i));
    }
}

/// Placed nodes stay placed.
pub proof fn lemma_keeps_count(m: Mapping, r: Mapping, x: usize)
    requires
        shape(m.hier),
        counts_ok(m),
        shape(r.hier),
        counts_ok(r),
        keeps(m, r),
        m.count.contains_key(x),
    ensures
        r.count.contains_key(x),
{
    let (g, i) = lemma_counted_cell(m, x);
    assert(cell(m.hier, g, i) != FREE);
    lemma_counted(r, g, i);
}

/// Placing a node keeps what is placed.
pub proof fn lemma_place_keeps(c: Job, m: Mapping, lvl: int, j: int, nd: usize)
    requires
        job_ok(c),
        ready(c, m, lvl),
        is_cell(lvl, j),
        lvl >= 1,
        cell(m.hier, lvl, j) == FREE,
        fits_row(c, lvl, nd),
        tree_fits(c, lvl, nd),
    ensures
        ready(c, place(c, m, lvl, j, nd), lvl),
        keeps(m, place(c, m, lvl, j, nd)),
        cell(place(c, m, lvl, j, nd).hier, lvl, j) == nd,
        place(c, m, lvl, j, nd).count.contains_key(nd),
{
    lemma_placement(c, m, lvl, j, nd);
    let r = place(c, m, lvl, j, nd);
    assert forall|g: int, i: int|
        is_cell(g, i) && #[trigger] cell(m.hier, g, i) != FREE implies cell(r.hier, g, i) == cell(
        m.hier,
        g,
        i,
    ) by {
        assert(!in_tree(lvl, j, g, i));
    }
    lemma_counted(r, lvl, j);
}

/// A gate is placed, or nothing is.
pub open spec fn useful(c: Job, m: Mapping) -> bool {
    m.count.dom() =~= Set::empty() || exists|nd: usize| #[trigger] is_new(c, m, nd)
}

/// `nd` is a gate that is placed.
pub open spec fn is_new(c: Job, m: Mapping, nd: usize) -> bool {
    m.count.contains_key(nd) && c.order.contains(nd) && level_of(c, nd) >= 1
}

/// Nothing is placed, or row 1 has cells for what is placed and what is needed.
pub open spec fn has_room(c: Job, m: Mapping) -> bool {
    m == blank() || !overfull(c, m)
}

/// Placing the nodes of a level and below keeps the mapping in order.
pub proof fn lemma_descend(c: Job, m: Mapping, lvl: int)
    requires
        job_ok(c),
        0 <= lvl <= BOOMERANG_NUM_STAGES,
        ready(c, m, lvl),
        ready(c, m, 1),
        useful(c, m),
        has_room(c, m),
        descend_fits(c, m, lvl),
    ensures
        has_room(c, descend(c, m, lvl)),
        ready(c, descend(c, m, lvl), 1),
        keeps(m, descend(c, m, lvl)),
        useful(c, descend(c, m, lvl)),
    decreases lvl, free(m.hier[lvl]),
{
    lemma_order(c);
    assert(can_descend(c, m, lvl));
    if lvl >= 2 {
        let placed = m.count.dom();
        let slot = first_free(m.hier[lvl], 0);
        let rev = reverse_levels(c, placed);
        let best = farthest(c, placed, rev, lvl, c.order.len() as int);
        lemma_first_free(m.hier[lvl], 0);
        lemma_farthest(c, placed, rev, lvl, c.order.len() as int);
        lemma_ready_down(c, m, lvl, lvl - 1);
        if slot >= m.hier[lvl].len() || best < 0 {
            lemma_descend(c, m, lvl - 1);
        } else {
            let nd = c.order[best];
            lemma_position(c, best);
            assert(c.order.contains(nd));
            assert(cell(m.hier, lvl, slot) == FREE);
            lemma_place_keeps(c, m, lvl, slot, nd);
            let m2 = place(c, m, lvl, slot, nd);
            if overfull(c, m2) {
                lemma_descend(c, m, lvl - 1);
            } else {
                lemma_ready_down(c, m2, lvl, 1);
                lemma_place_row(c, m, lvl, slot, nd);
                lemma_tally_update(m.hier[lvl], |x: usize| x == FREE, slot, nd);
                assert(is_new(c, m2, nd));
                lemma_descend(c, m2, lvl);
                lemma_keeps_trans(m, m2, descend(c, m2, lvl));
            }
        }
    }
}

/// The mapping of the nodes of level 2 and more keeps its invariant.
pub proof fn lemma_upper(c: Job)
    requires
        job_ok(c),
    ensures
        ready(c, upper_mapping(c), 1),
        useful(c, upper_mapping(c)),
        has_room(c, upper_mapping(c)),
{
    lemma_blank(c);
    let lvl = top_row(c);
    assert(ready(c, blank(), lvl));
    assert(ready(c, blank(), 1));
    assert(blank().count.dom() =~= Set::empty());
    lemma_descend(c, blank(), lvl);
}

/// `x` is in one of the 32 cells of row 1 from `start` on.
pub open spec fn in_group(m: Mapping, x: usize, start: int) -> bool {
    exists|j: int| start <= j < start + 32 && #[trigger] cell(m.hier, 1, j) == x
}

/// What each step of filling row 1 with `lvl1` keeps.
pub open spec fn fill_ok(c: Job, f: Fill, lvl1: Seq<usize>) -> bool {
    &&& ready(c, f.m, 1)
    &&& 0 <= f.next <= lvl1.len()
    &&& f.done.no_duplicates()
    &&& forall|x: usize| #[trigger] f.done.contains(x) ==> c.outs.contains(x) && x != FREE
        && f.m.count.contains_key(x)
}

/// The wanted nodes of row 1 fit there.
pub open spec fn lvl1_ok(c: Job, lvl1: Seq<usize>) -> bool {
    forall|i: int|
        0 <= i < lvl1.len() ==> fits_row(c, 1, #[trigger] lvl1[i]) && c.outs.contains(lvl1[i])
}

/// What filling cells of the group at `start` adds.
spec fn grew(f: Fill, r: Fill, start: int) -> bool {
    &&& keeps(f.m, r.m)
    &&& f.done.len() <= r.done.len()
    &&& forall|y: usize| #[trigger] r.done.contains(y) ==> f.done.contains(y) || in_group(
        r.m,
        y,
        start,
    )
}

/// What has grown twice has grown.
proof fn lemma_grew_trans(f: Fill, g: Fill, r: Fill, start: int)
    requires
        grew(f, g, start),
        grew(g, r, start),
        !r.done.contains(FREE),
        0 <= start,
        start + 32 <= row_len(1),
    ensures
        grew(f, r, start),
{
    lemma_keeps_trans(f.m, g.m, r.m);
    assert forall|y: usize| #[trigger] r.done.contains(y) implies f.done.contains(y) || in_group(
        r.m,
        y,
        start,
    ) by {
        if !in_group(r.m, y, start) {
            assert(g.done.contains(y));
            if in_group(g.m, y, start) {
                lemma_in_group_kept(g.m, r.m, y, start);
            }
        }
    }
}

/// Filling a cell keeps the mapping in order.
proof fn lemma_fill_step(c: Job, f: Fill, lvl1: Seq<usize>, j: int, start: int)
    requires
        job_ok(c),
        fill_ok(c, f, lvl1),
        lvl1_ok(c, lvl1),
        is_cell(1, j),
        start <= j < start + 32,
        f.next < lvl1.len(),
    ensures
        fill_ok(c, fill_step(c, f, lvl1, j), lvl1),
        grew(f, fill_step(c, f, lvl1, j), start),
        f.m.hier[1][j] == FREE ==> fill_step(c, f, lvl1, j).done.len() >= 1,
{
    let x = cell(f.m.hier, 1, j);
    if x == FREE {
        let nd = lvl1[f.next];
        lemma_place_keeps(c, f.m, 1, j, nd);
        lemma_inserted(f.done, nd);
        let m2 = place(c, f.m, 1, j, nd);
        let done = inserted(f.done, nd);
        assert forall|y: usize| #[trigger] done.contains(y) implies c.outs.contains(y) && y != FREE
            && m2.count.contains_key(y) && (f.done.contains(y) || in_group(m2, y, start)) by {
            if f.done.contains(y) {
                lemma_keeps_count(f.m, m2, y);
            } else {
                assert(cell(m2.hier, 1, j) == y);
            }
        }
        assert(done.contains(nd));
    } else if c.outs.contains(x) {
        lemma_inserted(f.done, x);
        lemma_counted(f.m, 1, j);
        assert(in_group(f.m, x, start));
    }
}

/// Filling a group keeps the mapping in order.
proof fn lemma_fill_group(c: Job, f: Fill, lvl1: Seq<usize>, j: int, start: int)
    requires
        job_ok(c),
        fill_ok(c, f, lvl1),
        lvl1_ok(c, lvl1),
        0 <= start <= j <= start + 32 <= row_len(1),
    ensures
        fill_ok(c, fill_group(c, f, lvl1, j, start + 32), lvl1),
        grew(f, fill_group(c, f, lvl1, j, start + 32), start),
        j < start + 32 && f.next < lvl1.len() && f.m.hier[1][j] == FREE ==> fill_group(
            c,
            f,
            lvl1,
            j,
            start + 32,
        ).done.len() >= 1,
    decreases start + 32 - j,
{
    if j < start + 32 && f.next < lvl1.len() {
        let g = fill_step(c, f, lvl1, j);
        lemma_fill_step(c, f, lvl1, j, start);
        lemma_fill_group(c, g, lvl1, j + 1, start);
        lemma_grew_trans(f, g, fill_group(c, g, lvl1, j + 1, start + 32), start);
    }
}

/// What is in a group stays there.
proof fn lemma_in_group_kept(m: Mapping, r: Mapping, y: usize, start: int)
    requires
        keeps(m, r),
        0 <= start,
        start + 32 <= row_len(1),
        y != FREE,
        in_group(m, y, start),
    ensures
        in_group(r, y, start),
{
    let j = choose|j: int| start <= j < start + 32 && #[trigger] cell(m.hier, 1, j) == y;
    assert(is_cell(1, j));
    assert(cell(r.hier, 1, j) == y);
}

/// Every node of `done` is in one of the first `n` groups.
pub open spec fn covered(m: Mapping, done: Seq<usize>, spaces: Seq<(usize, usize)>, n: int) -> bool {
    forall|y: usize| #[trigger]
        done.contains(y) ==> exists|s: int|
            0 <= s < n && in_group(m, y, (#[trigger] spaces[s]).1 as int)
}

/// What the filled groups hold stays there.
pub proof fn lemma_covered_kept(
    m: Mapping,
    r: Mapping,
    done: Seq<usize>,
    spaces: Seq<(usize, usize)>,
    n: int,
)
    requires
        keeps(m, r),
        n <= spaces.len(),
        forall|s: int| 0 <= s < spaces.len() ==> (#[trigger] spaces[s]).1 + 32 <= row_len(1),
        !done.contains(FREE),
        covered(m, done, spaces, n),
    ensures
        covered(r, done, spaces, n),
{
    assert forall|y: usize| #[trigger] done.contains(y) implies exists|s: int|
        0 <= s < n && in_group(r, y, (#[trigger] spaces[s]).1 as int) by {
        let s = choose|s: int| 0 <= s < n && in_group(m, y, (#[trigger] spaces[s]).1 as int);
        lemma_in_group_kept(m, r, y, spaces[s].1 as int);
    }
}

/// Filling groups writes wanted nodes out, each in one of the groups.
pub proof fn lemma_fill_groups(
    c: Job,
    f: Fill,
    lvl1: Seq<usize>,
    spaces: Seq<(usize, usize)>,
    all: bool,
    s: int,
)
    requires
        job_ok(c),
        fill_ok(c, f, lvl1),
        lvl1_ok(c, lvl1),
        0 <= s <= spaces.len(),
        forall|s: int| 0 <= s < spaces.len() ==> (#[trigger] spaces[s]).1 + 32 <= row_len(1),
        covered(f.m, f.done, spaces, s),
    ensures
        ({
            let (r, n) = fill_groups(c, f, lvl1, spaces, all, s);
            &&& fill_ok(c, r, lvl1)
            &&& keeps(f.m, r.m)
            &&& s <= n <= spaces.len()
            &&& covered(r.m, r.done, spaces, n)
            &&& f.done.len() <= r.done.len()
            &&& s < spaces.len() && all && f.next < lvl1.len() && f.m.hier[1][spaces[s].1 as int]
                == FREE ==> r.done.len() >= 1
        }),
    decreases spaces.len() - s,
{
    if s < spaces.len() && (all || lvl1.len() - f.next >= 32 - spaces[s].0) {
        let start = spaces[s].1 as int;
        let g = fill_group(c, f, lvl1, start, start + 32);
        lemma_fill_group(c, f, lvl1, start, start);
        assert(covered(g.m, g.done, spaces, s + 1)) by {
            assert forall|y: usize| #[trigger] g.done.contains(y) implies exists|q: int|
                0 <= q < s + 1 && in_group(g.m, y, (#[trigger] spaces[q]).1 as int) by {
                if in_group(g.m, y, start) {
                    assert(in_group(g.m, y, spaces[s].1 as int));
                } else {
                    let q = choose|q: int|
                        0 <= q < s && in_group(f.m, y, (#[trigger] spaces[q]).1 as int);
                    lemma_in_group_kept(f.m, g.m, y, spaces[q].1 as int);
                    assert(in_group(g.m, y, spaces[q].1 as int));
                }
            }
        }
        lemma_fill_groups(c, g, lvl1, spaces, all, s + 1);
        let r = fill_groups(c, g, lvl1, spaces, all, s + 1).0;
        lemma_keeps_trans(f.m, g.m, r.m);
    }
}

/// What is necessary is placed or written out when it settles.
pub proof fn lemma_settle(
    c: Job,
    m: Mapping,
    done: Seq<usize>,
    need: Seq<usize>,
    k: int,
    from: int,
)
    requires
        job_ok(c),
        ready(c, m, 1),
        0 <= k <= need.len(),
        0 <= from <= row_len(1),
        forall|i: int| 0 <= i < need.len() ==> fits_row(c, 1, #[trigger] need[i]),
    ensures
        settle(c, m, done, need, k, from) matches Some((r, at)) ==> {
            &&& ready(c, r, 1)
            &&& keeps(m, r)
            &&& 0 <= at <= row_len(1)
            &&& forall|i: int|
                k <= i < need.len() ==> r.count.contains_key(#[trigger] need[i]) || done.contains(
                    need[i],
                )
        },
    decreases need.len() - k,
{
    if k < need.len() {
        if m.count.contains_key(need[k]) || done.contains(need[k]) {
            lemma_settle(c, m, done, need, k + 1, from);
            if let Some((r, at)) = settle(c, m, done, need, k + 1, from) {
                if m.count.contains_key(need[k]) {
                    lemma_keeps_count(m, r, need[k]);
                }
            }
        } else {
            let free = first_free(m.hier[1], from);
            assert(m.hier[1].len() == row_len(1));
            lemma_first_free(m.hier[1], from);
            if free < m.hier[1].len() {
                assert(cell(m.hier, 1, free) == FREE);
                lemma_place_keeps(c, m, 1, free, need[k]);
                let m2 = place(c, m, 1, free, need[k]);
                lemma_settle(c, m2, done, need, k + 1, free);
                if let Some((r, at)) = settle(c, m2, done, need, k + 1, free) {
                    lemma_keeps_trans(m, m2, r);
                    lemma_keeps_count(m2, r, need[k]);
                }
            }
        }
    }
}

/// Taking a value out takes out that value and no other.
pub proof fn lemma_swap_removed(s: Seq<usize>, x: usize)
    requires
        s.no_duplicates(),
        s.contains(x),
    ensures
        swap_removed(s, x).no_duplicates(),
        swap_removed(s, x).len() == s.len() - 1,
        forall|y: usize| #[trigger] swap_removed(s, x).contains(y) <==> s.contains(y) && y != x,
{
    let i = s.index_of(x);
    let t = swap_removed(s, x);
    let n = s.len() - 1;
    assert forall|y: usize| #[trigger] t.contains(y) <==> s.contains(y) && y != x by {
        if t.contains(y) {
            let k = t.index_of(y);
            if k == i {
                assert(s[n] == y);
            } else {
                assert(s[k] == y);
            }
        }
        if s.contains(y) && y != x {
            let k = s.index_of(y);
            if k == n {
                assert(t[i] == y);
            } else {
                assert(t[k] == y);
            }
        }
    }
    assert forall|p: int, q: int| 0 <= p < t.len() && 0 <= q < t.len() && p != q implies t[p]
        != t[q] by {
        if p == i {
            assert(t[p] == s[n] && t[q] == s[q]);
        } else if q == i {
            assert(t[q] == s[n] && t[p] == s[p]);
        }
    }
}

/// Taking several values out.
pub proof fn lemma_removed_all(s: Seq<usize>, xs: Seq<usize>, n: int)
    requires
        s.no_duplicates(),
        xs.no_duplicates(),
        0 <= n <= xs.len(),
        forall|x: usize| #[trigger] xs.contains(x) ==> s.contains(x),
    ensures
        removed_all(s, xs, n).no_duplicates(),
        removed_all(s, xs, n).len() == s.len() - n,
        forall|y: usize| #[trigger]
            removed_all(s, xs, n).contains(y) <==> s.contains(y) && !xs.take(n).contains(y),
    decreases n,
{
    if n > 0 {
        lemma_removed_all(s, xs, n - 1);
        let x = xs[n - 1];
        let t = removed_all(s, xs, n - 1);
        assert(xs.contains(x));
        assert(!xs.take(n - 1).contains(x));
        lemma_swap_removed(t, x);
        assert forall|y: usize| xs.take(n).contains(y) <==> xs.take(n - 1).contains(y) || y == x by {
            lemma_take_contains(xs, n, y);
        }
    }
}

/// What one more value adds to a prefix.
pub proof fn lemma_take_contains(xs: Seq<usize>, n: int, y: usize)
    requires
        0 < n <= xs.len(),
    ensures
        xs.take(n).contains(y) <==> xs.take(n - 1).contains(y) || y == xs[n - 1],
{
    let s = xs.take(n - 1);
    let t = xs.take(n);
    if s.contains(y) {
        assert(t[s.index_of(y)] == y);
    }
    if y == xs[n - 1] {
        assert(t[n - 1] == y);
    }
    if t.contains(y) && y != xs[n - 1] {
        assert(s[t.index_of(y)] == y);
    }
}

/// Inserting several values.
pub proof fn lemma_inserted_all(s: Seq<usize>, xs: Seq<usize>, n: int)
    requires
        s.no_duplicates(),
        0 <= n <= xs.len(),
    ensures
        inserted_all(s, xs, n).no_duplicates(),
        inserted_all(s, xs, n).len() >= s.len(),
        forall|y: usize| #[trigger]
            inserted_all(s, xs, n).contains(y) <==> s.contains(y) || xs.take(n).contains(y),
    decreases n,
{
    if n > 0 {
        lemma_inserted_all(s, xs, n - 1);
        lemma_inserted(inserted_all(s, xs, n - 1), xs[n - 1]);
        assert forall|y: usize|
            xs.take(n).contains(y) <==> xs.take(n - 1).contains(y) || y == xs[n - 1] by {
            lemma_take_contains(xs, n, y);
        }
    }
}

/// The write-outs of a row.
proof fn lemma_row_writeouts(
    row: Seq<usize>,
    hi: int,
    placed: Seq<usize>,
    done: Seq<usize>,
    s: Seq<usize>,
    n: int,
)
    requires
        1 <= hi <= BOOMERANG_NUM_STAGES,
        0 <= n <= row_len(hi),
        s.no_duplicates(),
        forall|w: usize| #[trigger] s.contains(w) ==> w < 256,
    ensures
        ({
            let t = row_writeouts(row, hi, placed, done, s, n);
            &&& t.no_duplicates()
            &&& forall|w: usize| #[trigger] t.contains(w) ==> w < 256
            &&& forall|w: usize| #[trigger] s.contains(w) ==> t.contains(w)
            &&& forall|j: int|
                0 <= j < n && placed.contains(#[trigger] row[j]) && !done.contains(row[j])
                    ==> t.contains(writeout_of(hi, j))
        }),
    decreases n,
{
    lemma_row_len(hi);
    if n > 0 {
        lemma_row_writeouts(row, hi, placed, done, s, n - 1);
        lemma_inserted(
            row_writeouts(row, hi, placed, done, s, n - 1),
            writeout_of(hi, n - 1),
        );
    }
}

/// The write-outs below row `hi` cover the nodes there that are placed and not
/// yet written out.
pub proof fn lemma_more_writeouts(
    hier: Seq<Seq<usize>>,
    placed: Seq<usize>,
    done: Seq<usize>,
    hi: int,
)
    requires
        1 <= hi <= BOOMERANG_NUM_STAGES + 1,
    ensures
        more_writeouts(hier, placed, done, hi).no_duplicates(),
        forall|w: usize| #[trigger] more_writeouts(hier, placed, done, hi).contains(w) ==> w < 256,
        forall|g: int, j: int|
            1 <= g < hi && is_cell(g, j) && placed.contains(#[trigger] cell(hier, g, j))
                && !done.contains(cell(hier, g, j)) ==> more_writeouts(
                hier,
                placed,
                done,
                hi,
            ).contains(writeout_of(g, j)),
    decreases hi,
{
    if hi > 1 {
        lemma_more_writeouts(hier, placed, done, hi - 1);
        let s = more_writeouts(hier, placed, done, hi - 1);
        let t = more_writeouts(hier, placed, done, hi);
        lemma_row_writeouts(
            hier[hi - 1],
            hi - 1,
            placed,
            done,
            s,
            row_len(hi - 1) as int,
        );
        assert forall|g: int, j: int|
            1 <= g < hi && is_cell(g, j) && placed.contains(#[trigger] cell(hier, g, j))
                && !done.contains(cell(hier, g, j)) implies t.contains(writeout_of(g, j)) by {
            if g < hi - 1 {
                assert(s.contains(writeout_of(g, j)));
            } else {
                assert(hier[hi - 1][j] == cell(hier, g, j));
            }
        }
    }
}

} // verus!
