//! In which order the nodes of a stage are placed.
use crate::aig::{feeds, DriverType};
use crate::boomerang::{
    can_descend, descend, descend_fits, farthest, first_free, free, job_ok, job_wf,
    lemma_descend_step, lemma_farthest, lemma_first_free, lemma_place_row, level_at, level_of,
    max_level, necessary, necessary_upto, needs_input, occupancy, overfull, place, rev_from,
    rev_step, reverse_levels, roomy, taken, top_row, Job, Mapping, FREE,
};
use crate::collections::{inserted, lemma_inserted};
use crate::distances::{
    closed_under_fanin, lemma_necessary, lemma_order_len, lemma_rev_from, lemma_source,
    lemma_step_targets, ready, rev_bounded,
};
use crate::mapping::{
    cell, is_cell, lemma_fanin, lemma_gate, lemma_order, lemma_position, lemma_wide_rows,
};
use crate::sorts::{lemma_orders, lemma_sort_contains, pair_le};
use crate::soundness::{has_room, keeps, lemma_descend, useful};
use crate::stage::{lemma_ready_down, spaces_of};
use vstd::prelude::*;

verus! {

/// The level of a node is its logic depth: 0 where its value is there or it is
/// no and gate, and otherwise one more than that of the deeper of the nodes of
/// its literals, where constants count for nothing.
pub proof fn levels_are_logic_depths(c: Job, nd: usize)
    requires
        job_wf(c),
        c.order.contains(nd),
    ensures
        c.stops.contains(nd) || !(c.drivers[nd as int] is AndGate) ==> level_of(c, nd) == 0,
        !c.stops.contains(nd) ==> (c.drivers[nd as int] matches DriverType::AndGate(a, b) ==> {
            &&& a >= 2 ==> c.order.contains((a / 2) as usize) && level_of(c, (a / 2) as usize) + 1
                <= level_of(c, nd)
            &&& b >= 2 ==> c.order.contains((b / 2) as usize) && level_of(c, (b / 2) as usize) + 1
                <= level_of(c, nd)
            &&& level_of(c, nd) == 0 || (a >= 2 && level_of(c, (a / 2) as usize) + 1 == level_of(
                c,
                nd,
            )) || (b >= 2 && level_of(c, (b / 2) as usize) + 1 == level_of(c, nd))
        }),
{
    let k = c.order.index_of(nd);
    lemma_order(c);
    if !c.stops.contains(nd) {
        if let DriverType::AndGate(a, b) = c.drivers[nd as int] {
            if a >= 2 {
                assert(feeds(c.drivers, c.stops, (a / 2) as usize, c.order[k]));
                lemma_fanin(c, k, (a / 2) as usize);
            }
            if b >= 2 {
                assert(feeds(c.drivers, c.stops, (b / 2) as usize, c.order[k]));
                lemma_fanin(c, k, (b / 2) as usize);
            }
        }
    }
}

/// The largest level is that of a node, and no level exceeds it.
proof fn lemma_max_level(c: Job, n: int)
    requires
        0 <= n <= c.order.len(),
    ensures
        forall|k: int| 0 <= k < n ==> #[trigger] level_at(c, k) <= max_level(c, n),
        max_level(c, n) == 0 || exists|k: int| 0 <= k < n && #[trigger] level_at(c, k) == max_level(
            c,
            n,
        ),
    decreases n,
{
    if n > 0 {
        lemma_max_level(c, n - 1);
        assert(level_at(c, n - 1) <= max_level(c, n));
    }
}

/// Placing starts in the row of the deepest node, or in row 13 if that is
/// deeper.
pub proof fn placing_starts_at_the_deepest_level(c: Job)
    ensures
        top_row(c) <= 13,
        top_row(c) < 13 ==> forall|k: int|
            0 <= k < c.order.len() ==> #[trigger] level_at(c, k) <= top_row(c),
        top_row(c) > 0 ==> exists|k: int|
            0 <= k < c.order.len() && #[trigger] level_at(c, k) >= top_row(c),
{
    lemma_max_level(c, c.order.len() as int);
    let n = c.order.len() as int;
    if top_row(c) > 0 {
        let k = choose|k: int| 0 <= k < n && #[trigger] level_at(c, k) == max_level(c, n);
        assert(level_at(c, k) >= top_row(c));
    }
}

/// The node at `p` feeds the node at `q`, which is not placed.
pub open spec fn leads_on(c: Job, placed: Set<usize>, p: int, q: int) -> bool {
    feeds(c.drivers, c.stops, c.order[p], c.order[q]) && !placed.contains(c.order[q])
}

/// What the distances are once the gates from `k` on have been followed.
spec fn measures(c: Job, placed: Set<usize>, r: Seq<usize>, k: int) -> bool {
    &&& r.len() == c.order.len()
    &&& forall|p: int| 0 <= p < r.len() && c.outs.contains(c.order[p]) ==> #[trigger] r[p] != FREE
    &&& forall|p: int, q: int|
        0 <= p < r.len() && k <= q < r.len() && #[trigger] leads_on(c, placed, p, q) ==> r[q] != FREE
            && r[p] != FREE && r[p] >= r[q] + 1
    &&& forall|p: int|
        0 <= p < r.len() && #[trigger] r[p] != FREE ==> (r[p] == 0 && c.outs.contains(c.order[p]))
            || exists|q: int|
            k <= q < r.len() && #[trigger] leads_on(c, placed, p, q) && r[p] == r[q] + 1
}

/// Following one more gate.
proof fn lemma_measures(c: Job, placed: Set<usize>, k: int)
    requires
        job_ok(c),
        closed_under_fanin(c, placed),
        0 <= k <= c.order.len(),
    ensures
        measures(c, placed, rev_from(c, placed, k), k),
    decreases c.order.len() - k,
{
    lemma_order(c);
    lemma_order_len(c);
    let n = c.order.len() as int;
    let r = rev_from(c, placed, k);
    if k < n {
        lemma_measures(c, placed, k + 1);
        lemma_rev_from(c, placed, k + 1);
        lemma_rev_from(c, placed, k);
        let s = rev_from(c, placed, k + 1);
        let u = c.order[k];
        if c.stops.contains(u) || placed.contains(u) || !(c.drivers[u as int] is AndGate) {
            assert(r == s);
            assert forall|p: int, q: int|
                0 <= p < r.len() && k <= q < r.len() && #[trigger] leads_on(
                    c,
                    placed,
                    p,
                    q,
                ) implies r[q] != FREE && r[p] != FREE && r[p] >= r[q] + 1 by {
                assert(q != k);
            }
            assert forall|p: int| 0 <= p < r.len() && #[trigger] r[p] != FREE implies (r[p] == 0
                && c.outs.contains(c.order[p])) || exists|q: int|
                k <= q < r.len() && #[trigger] leads_on(c, placed, p, q) && r[p] == r[q] + 1 by {
                assert(s[p] != FREE);
                if !(s[p] == 0 && c.outs.contains(c.order[p])) {
                    let q = choose|q: int|
                        k + 1 <= q < s.len() && #[trigger] leads_on(c, placed, p, q) && s[p]
                            == s[q] + 1;
                    assert(leads_on(c, placed, p, q));
                }
            }
        } else {
            let (a, b) = match c.drivers[u as int] {
                DriverType::AndGate(a, b) => (a, b),
                _ => (0usize, 0usize),
            };
            lemma_step_targets(c, k, a, b);
            if a >= 2 || b >= 2 {
                lemma_source(c, placed, k);
                assert(s[k] != FREE);
            }
            lemma_step(c, placed, s, r, k, a, b);
        }
    }
}

/// Following an and gate.
proof fn lemma_step(
    c: Job,
    placed: Set<usize>,
    s: Seq<usize>,
    r: Seq<usize>,
    k: int,
    a: usize,
    b: usize,
)
    requires
        job_ok(c),
        0 <= k < c.order.len(),
        measures(c, placed, s, k + 1),
        rev_bounded(c, s),
        rev_bounded(c, r),
        c.order.len() <= usize::MAX,
        !c.stops.contains(c.order[k]),
        !placed.contains(c.order[k]),
        c.order[k] < c.drivers.len(),
        c.drivers[c.order[k] as int] == DriverType::AndGate(a, b),
        r == rev_step(c, placed, s, k),
        a >= 2 || b >= 2 ==> s[k] != FREE,
    ensures
        measures(c, placed, r, k),
{
    let u = c.order[k];
    let pa = c.order.index_of((a / 2) as usize);
    let pb = c.order.index_of((b / 2) as usize);
    if a >= 2 {
        assert(feeds(c.drivers, c.stops, (a / 2) as usize, u));
        lemma_fanin(c, k, (a / 2) as usize);
    }
    if b >= 2 {
        assert(feeds(c.drivers, c.stops, (b / 2) as usize, u));
        lemma_fanin(c, k, (b / 2) as usize);
    }
    // Only nodes in front of it move on.
    assert forall|p: int| k <= p < r.len() implies #[trigger] r[p] == s[p] by {}
    assert forall|p: int| 0 <= p < r.len() && #[trigger] s[p] != FREE implies r[p] != FREE && r[p]
        >= s[p] by {}
    assert forall|p: int, q: int|
        0 <= p < r.len() && k <= q < r.len() && #[trigger] leads_on(c, placed, p, q) implies r[q]
        != FREE && r[p] != FREE && r[p] >= r[q] + 1 by {
        if q > k {
            assert(s[q] != FREE && s[p] != FREE && s[p] >= s[q] + 1);
            assert(r[q] == s[q]);
        } else {
            lemma_position(c, p);
            assert(p == pa || p == pb);
            assert(r[k] == s[k]);
        }
    }
    assert forall|p: int| 0 <= p < r.len() && #[trigger] r[p] != FREE implies (r[p] == 0
        && c.outs.contains(c.order[p])) || exists|q: int|
        k <= q < r.len() && #[trigger] leads_on(c, placed, p, q) && r[p] == r[q] + 1 by {
        if r[p] == s[p] {
            if !(s[p] == 0 && c.outs.contains(c.order[p])) {
                let q = choose|q: int|
                    k + 1 <= q < s.len() && #[trigger] leads_on(c, placed, p, q) && s[p] == s[q]
                        + 1;
                assert(r[q] == s[q]);
                assert(leads_on(c, placed, p, q));
            }
        } else {
            assert((a >= 2 && p == pa) || (b >= 2 && p == pb));
            assert(leads_on(c, placed, p, k));
            assert(r[p] == r[k] + 1);
        }
    }
    assert forall|p: int|
        0 <= p < r.len() && c.outs.contains(c.order[p]) implies #[trigger] r[p] != FREE by {
        assert(s[p] != FREE);
    }
}

/// The reverse level of a node is the largest number of gates on a way from it
/// to a wanted node over gates that are not placed: a wanted node has one, a
/// node has a larger one than each gate that it leads on to, and where it is
/// not 0 it is one more than that of such a gate.  A node without one is not
/// wanted and leads on to nothing.
pub proof fn reverse_levels_are_longest_ways(c: Job, placed: Set<usize>, p: int)
    requires
        job_ok(c),
        closed_under_fanin(c, placed),
        0 <= p < c.order.len(),
    ensures
        ({
            let rev = reverse_levels(c, placed);
            &&& rev[p] == FREE ==> !c.outs.contains(c.order[p])
            &&& forall|q: int|
                0 <= q < c.order.len() && #[trigger] leads_on(c, placed, p, q) ==> rev[p] != FREE
                    && rev[q] != FREE && rev[p] >= rev[q] + 1
            &&& rev[p] == 0 ==> c.outs.contains(c.order[p])
            &&& rev[p] != FREE && rev[p] > 0 ==> exists|q: int|
                0 <= q < c.order.len() && #[trigger] leads_on(c, placed, p, q) && rev[p] == rev[q]
                    + 1
        }),
{
    lemma_measures(c, placed, 0);
    lemma_rev_from(c, placed, 0);
    let rev = reverse_levels(c, placed);
    assert(rev[p] != FREE ==> (rev[p] == 0 && c.outs.contains(c.order[p])) || exists|q: int|
        0 <= q < rev.len() && #[trigger] leads_on(c, placed, p, q) && rev[p] == rev[q] + 1);
}

/// A node may be placed in row `lvl`.
pub open spec fn placeable(c: Job, placed: Set<usize>, lvl: int, p: int) -> bool {
    &&& 0 <= p < c.order.len()
    &&& level_at(c, p) == lvl
    &&& !placed.contains(c.order[p])
    &&& reverse_levels(c, placed)[p] != FREE
}

/// Of the nodes that may be placed in a row, the one at `best` is farthest from
/// the wanted nodes, and the first of those that are equally far.
pub open spec fn is_farthest(c: Job, placed: Set<usize>, lvl: int, best: int) -> bool {
    &&& placeable(c, placed, lvl, best)
    &&& forall|p: int| #[trigger]
        placeable(c, placed, lvl, p) ==> {
            &&& reverse_levels(c, placed)[p] <= reverse_levels(c, placed)[best]
            &&& p < best ==> reverse_levels(c, placed)[p] < reverse_levels(c, placed)[best]
        }
}

/// The farthest among the first ones.
proof fn lemma_is_farthest(c: Job, placed: Set<usize>, lvl: int, k: int)
    requires
        0 <= k <= c.order.len(),
    ensures
        ({
            let rev = reverse_levels(c, placed);
            let best = farthest(c, placed, rev, lvl, k);
            &&& best < 0 ==> forall|p: int| p < k ==> !#[trigger] placeable(c, placed, lvl, p)
            &&& best >= 0 ==> best < k && placeable(c, placed, lvl, best) && forall|p: int|
                p < k && #[trigger] placeable(c, placed, lvl, p) ==> rev[p] <= rev[best] && (p < best
                    ==> rev[p] < rev[best])
        }),
    decreases k,
{
    if k > 0 {
        lemma_is_farthest(c, placed, lvl, k - 1);
        let rev = reverse_levels(c, placed);
        let best = farthest(c, placed, rev, lvl, k - 1);
        assert(placeable(c, placed, lvl, k - 1) <==> level_at(c, k - 1) == lvl && !placed.contains(
            c.order[k - 1],
        ) && rev[k - 1] != FREE);
    }
}

/// The search for the farthest node finds it, where there is one.
pub proof fn farthest_nodes_are_found(c: Job, placed: Set<usize>, lvl: int, p: int)
    ensures
        ({
            let best = farthest(
                c,
                placed,
                reverse_levels(c, placed),
                lvl,
                c.order.len() as int,
            );
            &&& best >= 0 ==> is_farthest(c, placed, lvl, best)
            &&& placeable(c, placed, lvl, p) ==> best >= 0
        }),
{
    lemma_is_farthest(c, placed, lvl, c.order.len() as int);
}

/// Nothing is placed in higher rows any more.
proof fn lemma_rows_above(c: Job, m: Mapping, lvl: int, g: int)
    requires
        can_descend(c, m, lvl),
        0 <= lvl < g < m.hier.len(),
    ensures
        descend(c, m, lvl).hier[g] == m.hier[g],
        descend(c, m, lvl).hier.len() == m.hier.len(),
    decreases lvl, free(m.hier[lvl]),
{
    if lvl >= 2 {
        let placed = m.count.dom();
        let slot = first_free(m.hier[lvl], 0);
        let best = farthest(c, placed, reverse_levels(c, placed), lvl, c.order.len() as int);
        lemma_descend_step(c, m, lvl);
        if slot >= m.hier[lvl].len() || best < 0 {
            lemma_rows_above(c, m, lvl - 1, g);
        } else {
            let m2 = place(c, m, lvl, slot, c.order[best]);
            lemma_place_row(c, m, lvl, slot, c.order[best]);
            if overfull(c, m2) {
                lemma_rows_above(c, m, lvl - 1, g);
            } else {
                lemma_rows_above(c, m2, lvl, g);
            }
        }
    }
}

/// From row 13 down, the first free cell of a row gets the farthest node of its
/// level, unless row 1 would be overfull then; in that case, and where the row
/// has no free cell or there is no such node, the row stays as it is and the
/// next one is filled.
pub proof fn free_cells_get_the_farthest_node(
    c: Job,
    m: Mapping,
    lvl: int,
    slot: int,
    best: int,
)
    requires
        job_ok(c),
        2 <= lvl <= 13,
        ready(c, m, lvl),
        ready(c, m, 1),
        useful(c, m),
        has_room(c, m),
        descend_fits(c, m, lvl),
        0 <= slot <= m.hier[lvl].len(),
        forall|i: int| 0 <= i < slot ==> #[trigger] m.hier[lvl][i] != FREE,
        slot < m.hier[lvl].len() ==> m.hier[lvl][slot] == FREE,
    ensures
        slot == m.hier[lvl].len() || (forall|p: int| !#[trigger] placeable(
            c,
            m.count.dom(),
            lvl,
            p,
        )) ==> descend(c, m, lvl) == descend(c, m, lvl - 1) && descend(c, m, lvl).hier[lvl]
            == m.hier[lvl],
        slot < m.hier[lvl].len() && is_farthest(c, m.count.dom(), lvl, best) ==> if overfull(
            c,
            place(c, m, lvl, slot, c.order[best]),
        ) {
            descend(c, m, lvl) == descend(c, m, lvl - 1) && descend(c, m, lvl).hier[lvl]
                == m.hier[lvl]
        } else {
            descend(c, m, lvl).hier[lvl][slot] == c.order[best]
        },
{
    let placed = m.count.dom();
    let rev = reverse_levels(c, placed);
    let found = farthest(c, placed, rev, lvl, c.order.len() as int);
    lemma_order(c);
    assert(can_descend(c, m, lvl));
    lemma_first_free(m.hier[lvl], 0);
    let first = first_free(m.hier[lvl], 0);
    assert(first == slot) by {
        if first < slot {
            assert(m.hier[lvl][first] != FREE);
        }
        if slot < first {
            assert(m.hier[lvl][slot] != FREE);
        }
    }
    farthest_nodes_are_found(c, placed, lvl, best);
    if found >= 0 {
        assert(placeable(c, placed, lvl, found));
    }
    lemma_rows_above(c, m, lvl - 1, lvl);
    if slot < m.hier[lvl].len() && is_farthest(c, placed, lvl, best) {
        assert(found == best) by {
            assert(placeable(c, placed, lvl, found));
            assert(placeable(c, placed, lvl, best));
        }
        let nd = c.order[best];
        let m2 = place(c, m, lvl, slot, nd);
        lemma_place_row(c, m, lvl, slot, nd);
        if !overfull(c, m2) {
            lemma_filled(c, m, lvl, slot, best);
        }
    }
}

/// A placed node stays in its cell.
proof fn lemma_filled(c: Job, m: Mapping, lvl: int, slot: int, best: int)
    requires
        job_ok(c),
        2 <= lvl <= 13,
        ready(c, m, lvl),
        ready(c, m, 1),
        useful(c, m),
        has_room(c, m),
        descend_fits(c, m, lvl),
        slot == first_free(m.hier[lvl], 0),
        slot < m.hier[lvl].len(),
        best == farthest(
            c,
            m.count.dom(),
            reverse_levels(c, m.count.dom()),
            lvl,
            c.order.len() as int,
        ),
        best >= 0,
        !overfull(c, place(c, m, lvl, slot, c.order[best])),
    ensures
        descend(c, m, lvl).hier[lvl][slot] == c.order[best],
{
    lemma_descend_placed(c, m, lvl);
    let m2 = place(c, m, lvl, slot, c.order[best]);
    lemma_order(c);
    lemma_first_free(m.hier[lvl], 0);
    lemma_farthest(c, m.count.dom(), reverse_levels(c, m.count.dom()), lvl, c.order.len() as int);
    lemma_place_row(c, m, lvl, slot, c.order[best]);
    assert(is_cell(lvl, slot));
    assert(cell(m2.hier, lvl, slot) == c.order[best]);
    assert(cell(m2.hier, lvl, slot) != FREE);
}

/// What is placed stays placed.
proof fn lemma_descend_placed(c: Job, m: Mapping, lvl: int)
    requires
        job_ok(c),
        2 <= lvl <= 13,
        ready(c, m, lvl),
        ready(c, m, 1),
        useful(c, m),
        has_room(c, m),
        descend_fits(c, m, lvl),
    ensures
        ({
            let placed = m.count.dom();
            let slot = first_free(m.hier[lvl], 0);
            let best = farthest(c, placed, reverse_levels(c, placed), lvl, c.order.len() as int);
            let m2 = place(c, m, lvl, slot, c.order[best]);
            slot < m.hier[lvl].len() && best >= 0 && !overfull(c, m2) ==> keeps(
                m2,
                descend(c, m, lvl),
            )
        }),
{
    let placed = m.count.dom();
    let rev = reverse_levels(c, placed);
    let slot = first_free(m.hier[lvl], 0);
    let best = farthest(c, placed, rev, lvl, c.order.len() as int);
    lemma_order(c);
    assert(can_descend(c, m, lvl));
    lemma_first_free(m.hier[lvl], 0);
    lemma_farthest(c, placed, rev, lvl, c.order.len() as int);
    if slot < m.hier[lvl].len() && best >= 0 {
        let nd = c.order[best];
        let m2 = place(c, m, lvl, slot, nd);
        lemma_position(c, best);
        assert(c.order.contains(nd));
        assert(cell(m.hier, lvl, slot) == FREE);
        crate::soundness::lemma_place_keeps(c, m, lvl, slot, nd);
        if !overfull(c, m2) {
            lemma_ready_down(c, m2, lvl, 1);
            assert(crate::soundness::is_new(c, m2, nd));
            lemma_descend(c, m2, lvl);
        }
    }
}

/// Row 1 is overfull exactly if the nodes that it still needs, together with its
/// occupied cells or with the nodes that are placed, whichever are more, come
/// to 4096 or more.
pub proof fn overfull_rows_have_no_cell_to_spare(c: Job, m: Mapping)
    ensures
        overfull(c, m) <==> necessary(c, m.count.dom()).len() + taken(m.hier[1]) >= 4096 || necessary(
            c,
            m.count.dom(),
        ).len() + m.count.dom().len() >= 4096,
{
    lemma_wide_rows();
}

/// Why a node is needed in row 1: it is wanted and of level 0, or of level 1, or
/// it is of level 0 and an operand of a deeper gate; and neither it nor that
/// gate is placed.
pub open spec fn needed_for(c: Job, placed: Set<usize>, x: usize, p: int) -> bool {
    &&& 0 <= p < c.order.len()
    &&& !placed.contains(c.order[p])
    &&& reverse_levels(c, placed)[p] != FREE
    &&& {
        ||| c.order[p] == x && level_at(c, p) == 1
        ||| c.order[p] == x && level_at(c, p) == 0 && c.outs.contains(x)
        ||| level_at(c, p) >= 2 && feeds(c.drivers, c.stops, x, c.order[p]) && level_of(c, x) == 0
            && !placed.contains(x)
    }
}

/// What is listed as needed is needed for something.
proof fn lemma_needed(c: Job, placed: Set<usize>, k: int, x: usize)
    requires
        job_ok(c),
        0 <= k <= c.order.len(),
        necessary_upto(c, placed, reverse_levels(c, placed), k).contains(x),
    ensures
        exists|p: int| #[trigger] needed_for(c, placed, x, p),
    decreases k,
{
    if k > 0 {
        let rev = reverse_levels(c, placed);
        let s = necessary_upto(c, placed, rev, k - 1);
        let u = c.order[k - 1];
        if s.contains(x) {
            lemma_needed(c, placed, k - 1, x);
        } else {
            lemma_inserted(s, u);
            lemma_position(c, k - 1);
            if level_at(c, k - 1) >= 2 {
                assert(c.order.contains(u));
                let (a, b) = lemma_gate(c, u);
                let fa = (a / 2) as usize;
                let fb = (b / 2) as usize;
                lemma_inserted(s, fa);
                let t = if needs_input(c, placed, a) {
                    inserted(s, fa)
                } else {
                    s
                };
                lemma_inserted(t, fb);
            }
            assert(needed_for(c, placed, x, k - 1));
        }
    }
}

/// The nodes that row 1 needs are those that are needed for something, each
/// listed once.
pub proof fn needed_nodes_are_needed_for_something(c: Job, placed: Set<usize>, x: usize)
    requires
        job_ok(c),
    ensures
        necessary(c, placed).contains(x) <==> exists|p: int| #[trigger] needed_for(c, placed, x, p),
        necessary(c, placed).no_duplicates(),
{
    let rev = reverse_levels(c, placed);
    lemma_necessary(c, placed, rev, c.order.len() as int);
    if necessary(c, placed).contains(x) {
        lemma_needed(c, placed, c.order.len() as int, x);
    }
    if exists|p: int| #[trigger] needed_for(c, placed, x, p) {
        let p = choose|p: int| #[trigger] needed_for(c, placed, x, p);
        if c.order[p] != x {
            assert(feeds(c.drivers, c.stops, x, c.order[p]));
        }
    }
}

/// The groups of a row that are not crowded.
proof fn lemma_roomy_groups(row: Seq<usize>, n: int, g: int)
    requires
        0 <= g < 128,
        0 <= n <= 128,
    ensures
        roomy(row, n).contains((occupancy(row, 32 * g) as usize, (32 * g) as usize)) <==> g < n
            && occupancy(row, 32 * g) < 10,
        forall|i: int|
            0 <= i < roomy(row, n).len() ==> #[trigger] is_roomy(row, n, roomy(row, n)[i]),
        roomy(row, n).no_duplicates(),
    decreases n,
{
    if n > 0 {
        lemma_roomy_groups(row, n - 1, g);
        let s = roomy(row, n - 1);
        let r = roomy(row, n);
        let x = (occupancy(row, 32 * (n - 1)) as usize, (32 * (n - 1)) as usize);
        let y = (occupancy(row, 32 * g) as usize, (32 * g) as usize);
        assert(!s.contains(x)) by {
            if s.contains(x) {
                assert(is_roomy(row, n - 1, s[s.index_of(x)]));
            }
        }
        if occupancy(row, 32 * (n - 1)) < 10 {
            assert(r == s.push(x));
            assert(r[s.len() as int] == x);
            if s.contains(y) {
                assert(r[s.index_of(y)] == y);
            }
            if r.contains(y) && y != x {
                assert(s[r.index_of(y)] == y);
            }
        }
        assert forall|i: int| 0 <= i < r.len() implies #[trigger] is_roomy(row, n, r[i]) by {
            if i < s.len() {
                assert(is_roomy(row, n - 1, s[i]));
            } else {
                assert(r[i] == x);
            }
        }
    }
}

/// A group below the `n`-th that is not crowded.
pub open spec fn is_roomy(row: Seq<usize>, n: int, x: (usize, usize)) -> bool {
    x.1 % 32 == 0 && x.1 < 32 * n && occupancy(row, x.1 as int) < 10 && x.0 == occupancy(
        row,
        x.1 as int,
    )
}

/// Row 1 is filled in groups of 32 cells of which fewer than 10 are occupied, all
/// of them, those with fewer occupied cells first and the left ones first among
/// equals.
pub proof fn emptier_groups_are_filled_first(row: Seq<usize>, g: int, i: int, j: int)
    requires
        row.len() == 4096,
        0 <= g < 128,
        0 <= i < j < spaces_of(row).len(),
    ensures
        spaces_of(row).contains((occupancy(row, 32 * g) as usize, (32 * g) as usize)) <==> occupancy(
            row,
            32 * g,
        ) < 10,
        is_roomy(row, 128, spaces_of(row)[i]),
        occupancy(row, spaces_of(row)[i].1 as int) <= occupancy(row, spaces_of(row)[j].1 as int),
        occupancy(row, spaces_of(row)[i].1 as int) == occupancy(row, spaces_of(row)[j].1 as int)
            ==> spaces_of(row)[i].1 <= spaces_of(row)[j].1,
{
    lemma_wide_rows();
    lemma_roomy_groups(row, 128, g);
    lemma_orders();
    let r = roomy(row, 128);
    lemma_sort_contains(r, pair_le());
    let t = spaces_of(row);
    assert(t.contains(t[i]) && t.contains(t[j]));
    assert(is_roomy(row, 128, r[r.index_of(t[i])]));
    assert(is_roomy(row, 128, r[r.index_of(t[j])]));
    assert(pair_le()(t[i], t[j]));
}

/// The nodes that row 1 needs are listed in the order of the nodes that need them:
/// what is needed for the first nodes stands in front of what is needed for
/// later ones only, and of the operands of one node the first stands first.
pub proof fn needed_nodes_stand_in_order(c: Job, placed: Set<usize>, k: int, i: int, a: usize, b: usize)
    requires
        job_ok(c),
        0 <= k < c.order.len(),
        c.drivers[c.order[k] as int] == DriverType::AndGate(a, b),
    ensures
        ({
            let rev = reverse_levels(c, placed);
            let s = necessary_upto(c, placed, rev, k);
            let r = necessary_upto(c, placed, rev, k + 1);
            let fa = (a / 2) as usize;
            let fb = (b / 2) as usize;
            &&& s.len() <= r.len()
            &&& 0 <= i < s.len() ==> r[i] == s[i]
            &&& level_at(c, k) >= 2 && r.len() == s.len() + 2 ==> r[s.len() as int] == fa && r[
                s.len() as int + 1
            ] == fb
        }),
{
    let rev = reverse_levels(c, placed);
    let s = necessary_upto(c, placed, rev, k);
    let u = c.order[k];
    lemma_position(c, k);
    if level_at(c, k) >= 2 {
        let fa = (a / 2) as usize;
        let fb = (b / 2) as usize;
        lemma_inserted(s, fa);
        let t = if needs_input(c, placed, a) {
            inserted(s, fa)
        } else {
            s
        };
        lemma_inserted(t, fb);
    } else {
        lemma_inserted(s, u);
    }
}

} // verus!
