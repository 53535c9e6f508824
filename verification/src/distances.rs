//! What holds of the distances to the wanted nodes, and of placements in turn.
use crate::aig::{feeds, feeds_later, DriverType};
use crate::boomerang::{
    tree_fits, blank, job_ok, level_at, level_of, necessary, necessary_upto, needs_input, place,
    raised, rev_from, rev_step, row_len, Job, Mapping, BOOMERANG_NUM_STAGES, FREE,
};
use crate::collections::{inserted, lemma_inserted};
use crate::mapping::{
    anc_ok, cell, cell_ok, fits_row, holds, in_tree, input_ok, is_cell, lemma_counted,
    lemma_counted_cell, lemma_fanin, lemma_gate, lemma_mod_row, lemma_order, lemma_place,
    lemma_position, lemma_row_len, mapping_ok, occurrences, placed_in, rooted, shape, tree_free,
    tree_ok,
};
use crate::seqs::{lemma_short, lemma_tally_none};
use vstd::prelude::*;

verus! {

/// What feeds a placed gate is placed, unless it is an input of the stage.
pub open spec fn closed_under_fanin(c: Job, placed: Set<usize>) -> bool {
    forall|k: int, f: usize|
        0 <= k < c.order.len() && placed.contains(c.order[k]) && #[trigger] feeds(
            c.drivers,
            c.stops,
            f,
            c.order[k],
        ) && level_of(c, f) >= 1 ==> placed.contains(f)
}

/// A node that is passed through is in the row of its level.
proof fn lemma_pass_down(c: Job, hier: Seq<Seq<usize>>, g: int, i: int, lvl: int)
    requires
        shape(hier),
        tree_ok(c, hier),
        1 <= lvl <= g,
        is_cell(g, i),
        cell(hier, g, i) != FREE,
        level_of(c, cell(hier, g, i)) == lvl,
    ensures
        is_cell(lvl, i),
        cell(hier, lvl, i) == cell(hier, g, i),
    decreases g - lvl,
{
    if g > lvl {
        lemma_row_len(g);
        assert(cell_ok(c, hier, g, i));
        lemma_pass_down(c, hier, g - 1, i, lvl);
    }
}

/// The placed nodes of a mapping are closed under what feeds them.
pub proof fn lemma_closed(c: Job, m: Mapping)
    requires
        job_ok(c),
        mapping_ok(c, m),
    ensures
        closed_under_fanin(c, m.count.dom()),
{
    assert forall|k: int, f: usize|
        0 <= k < c.order.len() && m.count.dom().contains(c.order[k]) && #[trigger] feeds(
            c.drivers,
            c.stops,
            f,
            c.order[k],
        ) && level_of(c, f) >= 1 implies m.count.dom().contains(f) by {
        let nd = c.order[k];
        let (g, i) = lemma_counted_cell(m, nd);
        assert(cell_ok(c, m.hier, g, i));
        lemma_fanin(c, k, f);
        lemma_position(c, k);
        let lvl = level_of(c, nd) as int;
        assert(lvl > level_of(c, f));
        lemma_pass_down(c, m.hier, g, i, lvl);
        assert(cell_ok(c, m.hier, lvl, i));
        lemma_row_len(lvl);
        lemma_order(c);
        assert(c.order[c.order.index_of(f)] != FREE);
        if cell(m.hier, lvl - 1, i) == f {
            lemma_counted(m, lvl - 1, i);
        } else {
            lemma_counted(m, lvl - 1, i + row_len(lvl));
        }
    }
}

/// The node at `p` is wanted, or feeds a gate from position `k` on that is not
/// placed.
pub open spec fn reached(c: Job, placed: Set<usize>, p: int, k: int) -> bool {
    ||| c.outs.contains(c.order[p])
    ||| exists|m: int|
        k <= m < c.order.len() && p < m && !placed.contains(c.order[m]) && #[trigger] feeds(
            c.drivers,
            c.stops,
            c.order[p],
            c.order[m],
        )
}

/// The distances are small.
pub open spec fn rev_bounded(c: Job, rev: Seq<usize>) -> bool {
    &&& rev.len() == c.order.len()
    &&& forall|p: int| 0 <= p < rev.len() && #[trigger] rev[p] != FREE ==> rev[p] + p < rev.len()
}

/// A gate that is still to be followed has a distance.
pub proof fn lemma_source(c: Job, placed: Set<usize>, k: int)
    requires
        job_ok(c),
        closed_under_fanin(c, placed),
        0 <= k < c.order.len(),
        !c.stops.contains(c.order[k]),
        !placed.contains(c.order[k]),
        level_at(c, k) >= 1,
    ensures
        reached(c, placed, k, k + 1),
{
    lemma_order(c);
    lemma_position(c, k);
    if !c.outs.contains(c.order[k]) {
        assert(feeds_later(c.drivers, c.stops, c.order, k));
        let m = choose|m: int|
            k < m < c.order.len() && #[trigger] feeds(c.drivers, c.stops, c.order[k], c.order[m]);
        assert(!placed.contains(c.order[m]));
    }
}

/// Raising a distance keeps the distances in bounds.
proof fn lemma_raised(c: Job, rev: Seq<usize>, i: int, v: int)
    requires
        rev_bounded(c, rev),
        0 <= i < rev.len(),
        0 <= v,
        v + i < rev.len(),
        rev.len() <= usize::MAX,
    ensures
        rev_bounded(c, raised(rev, i, v as usize)),
        raised(rev, i, v as usize)[i] != FREE,
        raised(rev, i, v as usize)[i] >= v,
        forall|p: int|
            0 <= p < rev.len() && #[trigger] rev[p] != FREE ==> raised(rev, i, v as usize)[p]
                != FREE && raised(rev, i, v as usize)[p] >= rev[p],
        forall|p: int|
            0 <= p < rev.len() && p != i ==> #[trigger] raised(rev, i, v as usize)[p] == rev[p],
{
}

/// The entries for the literals of the and gate at position `k`.
pub open spec fn step_targets(c: Job, k: int, a: usize, b: usize) -> bool {
    &&& a >= 2 ==> {
        let p = c.order.index_of((a / 2) as usize);
        0 <= p < k && c.order[p] == a / 2
    }
    &&& b >= 2 ==> {
        let p = c.order.index_of((b / 2) as usize);
        0 <= p < k && c.order[p] == b / 2
    }
}

/// A gate raises the distances of its operands.
proof fn lemma_rev_gate(c: Job, placed: Set<usize>, q: Seq<usize>, k: int, a: usize, b: usize)
    requires
        c.order.len() <= usize::MAX,
        0 <= k < c.order.len(),
        c.order[k] < c.drivers.len(),
        c.drivers[c.order[k] as int] == DriverType::AndGate(a, b),
        !c.stops.contains(c.order[k]),
        !placed.contains(c.order[k]),
        step_targets(c, k, a, b),
        rev_bounded(c, q),
        a >= 2 || b >= 2 ==> q[k] != FREE,
    ensures
        rev_bounded(c, rev_step(c, placed, q, k)),
        forall|p: int|
            0 <= p < q.len() && #[trigger] q[p] != FREE ==> rev_step(c, placed, q, k)[p] != FREE,
        a >= 2 ==> rev_step(c, placed, q, k)[c.order.index_of((a / 2) as usize)] != FREE,
        b >= 2 ==> rev_step(c, placed, q, k)[c.order.index_of((b / 2) as usize)] != FREE,
{
    let v = q[k] + 1;
    let pa = c.order.index_of((a / 2) as usize);
    let pb = c.order.index_of((b / 2) as usize);
    if a >= 2 {
        lemma_raised(c, q, pa, v);
    }
    let s = if a >= 2 {
        raised(q, pa, v as usize)
    } else {
        q
    };
    if b >= 2 {
        lemma_raised(c, s, pb, v);
    }
}

/// The distances are bounded by the positions behind a node, and there is one
/// wherever a node is reached.
pub proof fn lemma_rev_from(c: Job, placed: Set<usize>, k: int)
    requires
        job_ok(c),
        closed_under_fanin(c, placed),
        0 <= k <= c.order.len(),
    ensures
        rev_bounded(c, rev_from(c, placed, k)),
        forall|p: int|
            0 <= p < c.order.len() && #[trigger] reached(c, placed, p, k) ==> rev_from(
                c,
                placed,
                k,
            )[p] != FREE,
    decreases c.order.len() - k,
{
    lemma_order(c);
    lemma_order_len(c);
    let r = rev_from(c, placed, k);
    let n = c.order.len() as int;
    if k == n {
        assert forall|p: int| 0 <= p < n && #[trigger] reached(c, placed, p, k) implies r[p]
            != FREE by {}
    } else {
        lemma_rev_from(c, placed, k + 1);
        let q = rev_from(c, placed, k + 1);
        let u = c.order[k];
        if c.stops.contains(u) || placed.contains(u) || !(c.drivers[u as int] is AndGate) {
            assert(r == q);
            assert forall|p: int| 0 <= p < n && #[trigger] reached(c, placed, p, k) implies r[p]
                != FREE by {
                assert(reached(c, placed, p, k + 1));
            }
        } else {
            let (a, b) = match c.drivers[u as int] {
                DriverType::AndGate(a, b) => (a, b),
                _ => (0usize, 0usize),
            };
            lemma_step_targets(c, k, a, b);
            if a >= 2 || b >= 2 {
                lemma_source(c, placed, k);
            }
            lemma_rev_gate(c, placed, q, k, a, b);
            assert forall|p: int| 0 <= p < n && #[trigger] reached(c, placed, p, k) implies r[p]
                != FREE by {
                if !reached(c, placed, p, k + 1) {
                    let m = choose|m: int|
                        k <= m < c.order.len() && p < m && !placed.contains(c.order[m])
                            && #[trigger] feeds(c.drivers, c.stops, c.order[p], c.order[m]);
                    assert(m == k);
                    lemma_position(c, p);
                } else {
                    assert(q[p] != FREE);
                }
            }
        }
    }
}

/// The order is no longer than the driver table.
pub proof fn lemma_order_len(c: Job)
    requires
        job_ok(c),
    ensures
        c.order.len() <= c.drivers.len(),
        c.order.len() <= usize::MAX,
{
    lemma_order(c);
    lemma_short(c.order, c.drivers.len());
}

/// The operands of a gate stand before it in the order.
pub proof fn lemma_step_targets(c: Job, k: int, a: usize, b: usize)
    requires
        job_ok(c),
        0 <= k < c.order.len(),
        c.order[k] < c.drivers.len(),
        c.drivers[c.order[k] as int] == DriverType::AndGate(a, b),
        !c.stops.contains(c.order[k]),
    ensures
        step_targets(c, k, a, b),
        a >= 2 || b >= 2 ==> level_at(c, k) >= 1,
{
    if a >= 2 {
        assert(feeds(c.drivers, c.stops, (a / 2) as usize, c.order[k]));
        lemma_fanin(c, k, (a / 2) as usize);
    }
    if b >= 2 {
        assert(feeds(c.drivers, c.stops, (b / 2) as usize, c.order[k]));
        lemma_fanin(c, k, (b / 2) as usize);
    }
}

/// What is necessary in row 1 is of level 0 or 1 and not yet placed.
pub open spec fn necessary_ok(c: Job, placed: Set<usize>, s: Seq<usize>) -> bool {
    &&& s.no_duplicates()
    &&& forall|x: usize| #[trigger]
        s.contains(x) ==> {
            &&& c.order.contains(x)
            &&& level_of(c, x) <= 1
            &&& !placed.contains(x)
        }
}

/// The nodes that must be in row 1 are of level 0 or 1, and listed once.
pub proof fn lemma_necessary(c: Job, placed: Set<usize>, rev: Seq<usize>, k: int)
    requires
        job_ok(c),
        0 <= k <= c.order.len(),
    ensures
        necessary_ok(c, placed, necessary_upto(c, placed, rev, k)),
        necessary_upto(c, placed, rev, k).len() <= 2 * k,
        forall|p: int|
            0 <= p < k && !placed.contains(#[trigger] c.order[p]) && rev[p] != FREE && (level_at(
                c,
                p,
            ) == 1 || (level_at(c, p) == 0 && c.outs.contains(c.order[p])))
                ==> necessary_upto(c, placed, rev, k).contains(c.order[p]),
        forall|p: int, f: usize|
            0 <= p < k && !placed.contains(c.order[p]) && rev[p] != FREE && level_at(c, p) >= 2
                && #[trigger] feeds(c.drivers, c.stops, f, c.order[p]) && level_of(c, f) == 0
                && !placed.contains(f) ==> necessary_upto(c, placed, rev, k).contains(f),
    decreases k,
{
    if k > 0 {
        lemma_necessary(c, placed, rev, k - 1);
        let s = necessary_upto(c, placed, rev, k - 1);
        let u = c.order[k - 1];
        lemma_position(c, k - 1);
        lemma_inserted(s, u);
        assert(c.order.contains(u));
        if level_at(c, k - 1) >= 2 {
            let (a, b) = lemma_gate(c, u);
            let fa = (a / 2) as usize;
            let fb = (b / 2) as usize;
            lemma_inserted(s, fa);
            let t = if needs_input(c, placed, a) {
                inserted(s, fa)
            } else {
                s
            };
            lemma_inserted(t, fb);
        }
    }
}

/// The placed nodes, the cells and the rows below `lvl` are as a placement in
/// row `lvl` needs them.
pub open spec fn ready(c: Job, m: Mapping, lvl: int) -> bool {
    mapping_ok(c, m) && rooted(m.hier, lvl)
}

/// The tree below a free cell is free.
pub proof fn lemma_tree_free(hier: Seq<Seq<usize>>, hi: int, j: int)
    requires
        shape(hier),
        rooted(hier, hi),
        is_cell(hi, j),
        cell(hier, hi, j) == FREE,
    ensures
        tree_free(hier, hi, j),
{
    assert forall|g: int, i: int| #[trigger] in_tree(hi, j, g, i) implies cell(hier, g, i)
        == FREE by {
        assert(anc_ok(hier, hi, g, i));
        if cell(hier, g, i) != FREE {
            assert(cell(hier, hi, i % (row_len(hi) as int)) != FREE);
        }
    }
}

/// A placement into a free cell keeps the mapping's invariant.
pub proof fn lemma_placement(c: Job, m: Mapping, lvl: int, j: int, nd: usize)
    requires
        job_ok(c),
        ready(c, m, lvl),
        is_cell(lvl, j),
        lvl >= 1,
        cell(m.hier, lvl, j) == FREE,
        fits_row(c, lvl, nd),
        tree_fits(c, lvl, nd),
    ensures
        ready(c, place(c, m, lvl, j, nd), lvl),
        tree_free(m.hier, lvl, j),
        placed_in(c, m, place(c, m, lvl, j, nd), lvl, j, nd),
{
    lemma_tree_free(m.hier, lvl, j);
    lemma_place(c, m, lvl, j, nd);
    let r = place(c, m, lvl, j, nd);
    lemma_row_len(lvl);
    assert forall|g: int, i: int| g >= 1 && is_cell(g, i) implies #[trigger] cell_ok(
        c,
        r.hier,
        g,
        i,
    ) by {
        if !in_tree(lvl, j, g, i) {
            lemma_kept_cell(c, m, r, lvl, j, nd, g, i);
        }
    }
    assert forall|i: int| is_cell(0, i) implies #[trigger] input_ok(c, r.hier, i) by {
        if !in_tree(lvl, j, 0, i) {
            assert(input_ok(c, m.hier, i));
            assert(cell(r.hier, 0, i) == cell(m.hier, 0, i));
        }
    }
    assert forall|g: int, i: int| g <= lvl && is_cell(g, i) implies #[trigger] anc_ok(
        r.hier,
        lvl,
        g,
        i,
    ) by {
        if !in_tree(lvl, j, g, i) {
            assert(anc_ok(m.hier, lvl, g, i));
            assert(cell(r.hier, g, i) == cell(m.hier, g, i));
            if cell(r.hier, g, i) != FREE {
                assert forall|h: int| g <= h <= lvl implies #[trigger] cell(
                    r.hier,
                    h,
                    i % (row_len(h) as int),
                ) != FREE by {
                    let p = i % (row_len(h) as int);
                    lemma_mod_row(i, h, lvl);
                    assert(cell(m.hier, h, p) != FREE);
                    assert(!in_tree(lvl, j, h, p));
                    assert(cell(r.hier, h, p) == cell(m.hier, h, p));
                }
            }
        }
    }
}

/// A cell outside the tree of a placed node is what it reads, as before.
proof fn lemma_kept_cell(
    c: Job,
    m: Mapping,
    r: Mapping,
    lvl: int,
    j: int,
    nd: usize,
    g: int,
    i: int,
)
    requires
        job_ok(c),
        shape(m.hier),
        tree_ok(c, m.hier),
        1 <= lvl <= BOOMERANG_NUM_STAGES,
        placed_in(c, m, r, lvl, j, nd),
        tree_free(m.hier, lvl, j),
        g >= 1,
        is_cell(g, i),
        !in_tree(lvl, j, g, i),
    ensures
        cell_ok(c, r.hier, g, i),
{
    assert(cell_ok(c, m.hier, g, i));
    assert(cell(r.hier, g, i) == cell(m.hier, g, i));
    let x = cell(m.hier, g, i);
    if x != FREE {
        lemma_row_len(g);
        let w = row_len(g) as int;
        lemma_order(c);
        assert(c.order[c.order.index_of(x)] != FREE);
        assert(cell(m.hier, g - 1, i) != FREE) by {
            if level_of(c, x) == g {
                let (a, b) = lemma_gate(c, x);
                assert(c.drivers[x as int] == DriverType::AndGate(a, b));
            }
        }
        assert(!in_tree(lvl, j, g - 1, i));
        assert(cell(r.hier, g - 1, i) == cell(m.hier, g - 1, i));
        if level_of(c, x) == g {
            let (a, b) = lemma_gate(c, x);
            assert(c.drivers[x as int] == DriverType::AndGate(a, b));
            assert(cell(m.hier, g - 1, i + w) != FREE);
            assert(!in_tree(lvl, j, g - 1, i + w));
            assert(cell(r.hier, g - 1, i + w) == cell(m.hier, g - 1, i + w));
        }
    }
}

/// The stage without any node is as it should be.
pub proof fn lemma_blank(c: Job)
    ensures
        forall|lvl: int| lvl <= BOOMERANG_NUM_STAGES ==> #[trigger] ready(c, blank(), lvl),
{
    let m = blank();
    assert forall|g: int| 0 <= g <= BOOMERANG_NUM_STAGES implies (#[trigger] m.hier[g]).len()
        == row_len(g) by {}
    assert forall|g: int, i: int| is_cell(g, i) implies #[trigger] cell(m.hier, g, i) == FREE by {}
    assert forall|nd: usize| nd != FREE implies {
        &&& #[trigger] m.count.contains_key(nd) <==> occurrences(m.hier, nd, 1) > 0
        &&& m.count.contains_key(nd) ==> m.count[nd] == occurrences(m.hier, nd, 1)
    } by {
        if occurrences(m.hier, nd, 1) > 0 {
            lemma_blank_occ(nd, 1);
        }
    }
    assert forall|lvl: int| lvl <= BOOMERANG_NUM_STAGES implies #[trigger] ready(c, m, lvl) by {
        assert forall|g: int, i: int| g >= 1 && is_cell(g, i) implies #[trigger] cell_ok(
            c,
            m.hier,
            g,
            i,
        ) by {
            assert(cell(m.hier, g, i) == FREE);
        }
        assert forall|i: int| is_cell(0, i) implies #[trigger] input_ok(c, m.hier, i) by {
            assert(cell(m.hier, 0, i) == FREE);
        }
        assert forall|g: int, i: int| g <= lvl && is_cell(g, i) implies #[trigger] anc_ok(
            m.hier,
            lvl,
            g,
            i,
        ) by {
            assert(cell(m.hier, g, i) == FREE);
        }
    }
}

/// Nothing occurs in an empty hierarchy.
proof fn lemma_blank_occ(nd: usize, g: int)
    requires
        nd != FREE,
        1 <= g,
    ensures
        occurrences(blank().hier, nd, g) == 0,
    decreases BOOMERANG_NUM_STAGES + 1 - g,
{
    if g <= BOOMERANG_NUM_STAGES {
        lemma_blank_occ(nd, g + 1);
        lemma_tally_none(blank().hier[g], holds(nd));
    }
}

} // verus!
