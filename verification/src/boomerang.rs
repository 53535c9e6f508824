//! How one boomerang stage is mapped.
//!
//! A stage is a binary tree of cells.  Row 0 holds the inputs, row `hi` is half
//! as wide as row `hi - 1`, and cell `j` of row `hi` reads the cells `j` and
//! `j + (width of row hi)` of the row below.  A cell either passes the node of
//! its first child through or holds the and gate of the nodes of both.
//!
//! This module says what the mapping of a stage is; `pe` computes it.
use crate::aig::{lemma_in_larger_cone, acyclic, cone_order, DriverType};
use crate::collections::{inserted, swap_removed};
use crate::seqs::{lemma_tally_update, tally};
use crate::sorts::sorted_pairs;
use vstd::prelude::*;

verus! {

/// The number of boomerang stages.
///
/// This determines the shuffle width, i.e., kernel width.
/// `kernel width = (1 << BOOMERANG_NUM_STAGES)`.
pub const BOOMERANG_NUM_STAGES: usize = 13;

/// How many groups of 32 outputs a partition can write: one for each 32 cells
/// of row 0.
pub const BOOMERANG_MAX_WRITEOUTS: usize = 256;

/// A group with this many occupied cells or more is not filled with endpoints.
pub const CROWDED: usize = 10;

/// The mark of a free cell, and of a node that reaches no endpoint.
pub const FREE: usize = usize::MAX;

/// The width of row `hi`.
pub open spec fn row_len(hi: int) -> nat
    decreases BOOMERANG_NUM_STAGES - hi,
{
    if hi >= BOOMERANG_NUM_STAGES {
        1
    } else {
        2 * row_len(hi + 1)
    }
}

/// What a stage is built from: the graph, the nodes whose values are already
/// there, and the nodes whose values are still wanted.
pub struct Job {
    pub drivers: Seq<DriverType>,
    pub stops: Set<usize>,
    pub outs: Seq<usize>,
    pub order: Seq<usize>,
}

/// The job with its remaining nodes in topological order.
pub open spec fn job(drivers: Seq<DriverType>, stops: Set<usize>, outs: Seq<usize>) -> Job {
    Job { drivers, stops, outs, order: cone_order(drivers, stops, outs) }
}

/// If a node is an and gate with one constant literal, the value of the other
/// literal is there or is not that of an and gate.
pub open spec fn shallow_at(drivers: Seq<DriverType>, stops: Set<usize>, u: usize) -> bool {
    !stops.contains(u) ==> (drivers[u as int] matches DriverType::AndGate(a, b) ==> {
        &&& a < 2 && b >= 2 ==> stops.contains((b / 2) as usize) || !(drivers[b as int / 2] is AndGate)
        &&& b < 2 && a >= 2 ==> stops.contains((a / 2) as usize) || !(drivers[a as int / 2] is AndGate)
    })
}

/// Among the nodes that `outs` depend on, an and gate with a constant literal
/// has no and gate on its other literal.
pub open spec fn constants_are_shallow(
    drivers: Seq<DriverType>,
    stops: Set<usize>,
    outs: Seq<usize>,
) -> bool {
    forall|k: int|
        0 <= k < cone_order(drivers, stops, outs).len() ==> #[trigger] shallow_at(
            drivers,
            stops,
            cone_order(drivers, stops, outs)[k],
        )
}

/// Constants stay shallow as more values are there and fewer nodes are wanted.
pub proof fn lemma_stays_shallow(
    drivers: Seq<DriverType>,
    stops: Set<usize>,
    outs: Seq<usize>,
    more: Set<usize>,
    fewer: Seq<usize>,
)
    requires
        acyclic(drivers),
        forall|i: int| 0 <= i < outs.len() ==> #[trigger] outs[i] < drivers.len(),
        forall|i: int| 0 <= i < fewer.len() ==> outs.contains(#[trigger] fewer[i]),
        stops.subset_of(more),
        constants_are_shallow(drivers, stops, outs),
    ensures
        constants_are_shallow(drivers, more, fewer),
{
    let a = cone_order(drivers, more, fewer);
    let b = cone_order(drivers, stops, outs);
    assert forall|i: int| 0 <= i < fewer.len() implies #[trigger] fewer[i] < drivers.len() by {
        assert(outs.contains(fewer[i]));
        assert(outs[outs.index_of(fewer[i])] < drivers.len());
    }
    assert forall|k: int| 0 <= k < a.len() implies #[trigger] shallow_at(drivers, more, a[k]) by {
        lemma_in_larger_cone(drivers, more, stops, fewer, outs, k);
        assert(shallow_at(drivers, stops, b[b.index_of(a[k])]));
    }
}

/// The jobs over a graph.
pub open spec fn job_wf(c: Job) -> bool {
    &&& acyclic(c.drivers)
    &&& c.drivers.len() <= usize::MAX
    &&& c.order == cone_order(c.drivers, c.stops, c.outs)
    &&& forall|i: int| 0 <= i < c.outs.len() ==> #[trigger] c.outs[i] < c.drivers.len()
}

/// The jobs that can be mapped.
pub open spec fn job_ok(c: Job) -> bool {
    job_wf(c) && constants_fit(c)
}

/// The logic depth of the node at position `k` of the order, counted from the
/// nodes whose values are already there.
pub open spec fn level_at(c: Job, k: int) -> nat
    decreases k,
{
    if k < 0 || k >= c.order.len() || c.stops.contains(c.order[k]) {
        0
    } else {
        match c.drivers[c.order[k] as int] {
            DriverType::AndGate(a, b) => {
                let pa = c.order.index_of((a / 2) as usize);
                let pb = c.order.index_of((b / 2) as usize);
                let la = if a < 2 {
                    0
                } else if 0 <= pa < k {
                    level_at(c, pa) + 1
                } else {
                    1
                };
                let lb = if b < 2 {
                    0
                } else if 0 <= pb < k {
                    level_at(c, pb) + 1
                } else {
                    1
                };
                if la >= lb {
                    la
                } else {
                    lb
                }
            },
            _ => 0,
        }
    }
}

/// The logic depth of a node.
pub open spec fn level_of(c: Job, nd: usize) -> nat {
    level_at(c, c.order.index_of(nd))
}

/// A literal of an and gate of level `lvl` can be placed one row below: it is
/// that of a node, or it is constant and node 0 is among the nodes of the job,
/// at a lower level.
pub open spec fn literal_fits(c: Job, lit: usize, lvl: int) -> bool {
    lit >= 2 || (c.order.contains(0) && level_of(c, 0) < lvl)
}

/// Whether `nd` can be placed in row `hi` with all that it needs below: no
/// constant comes to stand above row 0 but where node 0 may.
pub open spec fn tree_fits(c: Job, hi: int, nd: usize) -> bool
    decreases hi,
{
    if hi < 2 {
        true
    } else if level_of(c, nd) != hi {
        tree_fits(c, hi - 1, nd)
    } else {
        match c.drivers[nd as int] {
            DriverType::AndGate(a, b) => {
                &&& literal_fits(c, a, hi)
                &&& literal_fits(c, b, hi)
                &&& tree_fits(c, hi - 1, (a / 2) as usize)
                &&& tree_fits(c, hi - 1, (b / 2) as usize)
            },
            _ => true,
        }
    }
}

/// The largest of the first `n` levels.
pub open spec fn max_level(c: Job, n: int) -> nat
    decreases n,
{
    if n <= 0 {
        0
    } else if level_at(c, n - 1) >= max_level(c, n - 1) {
        level_at(c, n - 1)
    } else {
        max_level(c, n - 1)
    }
}

/// The cells of a stage, and how often each node occurs in row 1 and above.
pub struct Mapping {
    pub hier: Seq<Seq<usize>>,
    pub count: Map<usize, usize>,
}

/// The stage without any node.
pub open spec fn blank() -> Mapping {
    Mapping {
        hier: Seq::new(
            (BOOMERANG_NUM_STAGES + 1) as nat,
            |hi: int| Seq::new(row_len(hi), |j: int| FREE),
        ),
        count: Map::empty(),
    }
}

/// `hier` with one cell overwritten.
pub open spec fn with_cell(
    hier: Seq<Seq<usize>>,
    hi: int,
    j: int,
    nd: usize,
) -> Seq<Seq<usize>> {
    hier.update(hi, hier[hi].update(j, nd))
}

/// `count` with one more occurrence of `nd`.
pub open spec fn bumped(count: Map<usize, usize>, nd: usize) -> Map<usize, usize> {
    count.insert(
        nd,
        if count.contains_key(nd) {
            (count[nd] + 1) as usize
        } else {
            1
        },
    )
}

/// The mapping with `nd` put into cell `j` of row `hi`, and with all that it
/// needs below.
pub open spec fn place(c: Job, m: Mapping, hi: int, j: int, nd: usize) -> Mapping
    decreases hi,
{
    let h = with_cell(m.hier, hi, j, nd);
    if hi <= 0 {
        Mapping { hier: h, count: m.count }
    } else {
        let m1 = Mapping { hier: h, count: bumped(m.count, nd) };
        if level_of(c, nd) != hi {
            place(c, m1, hi - 1, j, nd)
        } else {
            match c.drivers[nd as int] {
                DriverType::AndGate(a, b) => place(
                    c,
                    place(c, m1, hi - 1, j, (a / 2) as usize),
                    hi - 1,
                    j + row_len(hi),
                    (b / 2) as usize,
                ),
                _ => m1,
            }
        }
    }
}

/// `rev` with entry `i` raised to `v`.
pub open spec fn raised(rev: Seq<usize>, i: int, v: usize) -> Seq<usize> {
    if rev[i] == FREE || rev[i] < v {
        rev.update(i, v)
    } else {
        rev
    }
}

/// The distances before any gate was followed: zero at the wanted nodes.
pub open spec fn rev_start(c: Job) -> Seq<usize> {
    Seq::new(
        c.order.len(),
        |k: int|
            if c.outs.contains(c.order[k]) {
                0
            } else {
                FREE
            },
    )
}

/// The distances after following the and gate at position `k`.
pub open spec fn rev_step(c: Job, placed: Set<usize>, rev: Seq<usize>, k: int) -> Seq<usize> {
    let u = c.order[k];
    if c.stops.contains(u) || placed.contains(u) {
        rev
    } else {
        match c.drivers[u as int] {
            DriverType::AndGate(a, b) => {
                let v = (rev[k] + 1) as usize;
                let r = if a >= 2 {
                    raised(rev, c.order.index_of((a / 2) as usize), v)
                } else {
                    rev
                };
                if b >= 2 {
                    raised(r, c.order.index_of((b / 2) as usize), v)
                } else {
                    r
                }
            },
            _ => rev,
        }
    }
}

/// The distances after following the gates from position `k` on.
pub open spec fn rev_from(c: Job, placed: Set<usize>, k: int) -> Seq<usize>
    decreases c.order.len() - k,
{
    if k >= c.order.len() {
        rev_start(c)
    } else {
        rev_step(c, placed, rev_from(c, placed, k + 1), k)
    }
}

/// For each position of the order, the maximum number of steps from the node
/// to a wanted node along which no other node is placed; `FREE` where there is
/// no such path.
pub open spec fn reverse_levels(c: Job, placed: Set<usize>) -> Seq<usize> {
    rev_from(c, placed, 0)
}

/// Whether literal `x` names a node of level 0 that is not placed.
pub open spec fn needs_input(c: Job, placed: Set<usize>, x: usize) -> bool {
    &&& x >= 2
    &&& level_of(c, (x / 2) as usize) == 0
    &&& !placed.contains((x / 2) as usize)
}

/// The nodes that must be in row 1 for the sake of the first `k` positions, in
/// the order in which they are found.
pub open spec fn necessary_upto(
    c: Job,
    placed: Set<usize>,
    rev: Seq<usize>,
    k: int,
) -> Seq<usize>
    decreases k,
{
    if k <= 0 {
        Seq::empty()
    } else {
        let s = necessary_upto(c, placed, rev, k - 1);
        let u = c.order[k - 1];
        let lvl = level_at(c, k - 1);
        if placed.contains(u) || rev[k - 1] == FREE {
            s
        } else if lvl == 0 {
            if c.outs.contains(u) {
                inserted(s, u)
            } else {
                s
            }
        } else if lvl == 1 {
            inserted(s, u)
        } else {
            match c.drivers[u as int] {
                DriverType::AndGate(a, b) => {
                    let t = if needs_input(c, placed, a) {
                        inserted(s, (a / 2) as usize)
                    } else {
                        s
                    };
                    if needs_input(c, placed, b) {
                        inserted(t, (b / 2) as usize)
                    } else {
                        t
                    }
                },
                _ => s,
            }
        }
    }
}

/// The nodes that must be in row 1 in addition to what is placed.
///
/// A node of level 1 is necessary if it is not already placed and still drives
/// a wanted node.  A node of level 0 is necessary if it is not already placed
/// and either is needed by a node of level 2 or more, or is itself wanted.
pub open spec fn necessary(c: Job, placed: Set<usize>) -> Seq<usize> {
    necessary_upto(c, placed, reverse_levels(c, placed), c.order.len() as int)
}

/// The first free cell of a row from `from` on; the row's width if there is
/// none.
pub open spec fn first_free(row: Seq<usize>, from: int) -> int
    decreases row.len() - from,
{
    if from >= row.len() {
        row.len() as int
    } else if row[from] == FREE {
        from
    } else {
        first_free(row, from + 1)
    }
}

/// Among the first `k` positions, that of the node of level `lvl` that is still
/// to be placed and farthest from the wanted nodes, the first of equals; -1 if
/// there is none.
pub open spec fn farthest(
    c: Job,
    placed: Set<usize>,
    rev: Seq<usize>,
    lvl: int,
    k: int,
) -> int
    decreases k,
{
    if k <= 0 {
        -1
    } else {
        let best = farthest(c, placed, rev, lvl, k - 1);
        if level_at(c, k - 1) == lvl && !placed.contains(c.order[k - 1]) && rev[k - 1] != FREE && (
        best < 0 || rev[best] < rev[k - 1]) {
            k - 1
        } else {
            best
        }
    }
}

/// The number of occupied cells in a row.
pub open spec fn taken(row: Seq<usize>) -> nat {
    tally(row, |x: usize| x != FREE)
}

/// The number of free cells in a row.
pub open spec fn free(row: Seq<usize>) -> nat {
    tally(row, |x: usize| x == FREE)
}

/// Whether row 1 would have no cell to spare.
pub open spec fn overfull(c: Job, m: Mapping) -> bool {
    let placed = m.count.dom();
    let taken1 = taken(m.hier[1]);
    let used = if taken1 >= placed.len() {
        taken1
    } else {
        placed.len()
    };
    necessary(c, placed).len() + used >= row_len(1)
}

/// Placing a node fills its cell and keeps the rows above it.
pub proof fn lemma_place_row(c: Job, m: Mapping, hi: int, j: int, nd: usize)
    requires
        0 <= hi < m.hier.len(),
    ensures
        ({
            let r = place(c, m, hi, j, nd);
            &&& r.hier.len() == m.hier.len()
            &&& r.hier[hi] == m.hier[hi].update(j, nd)
            &&& forall|g: int| hi < g < m.hier.len() ==> #[trigger] r.hier[g] == m.hier[g]
        }),
    decreases hi,
{
    if hi > 0 {
        let m1 = Mapping {
            hier: with_cell(m.hier, hi, j, nd),
            count: bumped(m.count, nd),
        };
        if level_of(c, nd) != hi {
            lemma_place_row(c, m1, hi - 1, j, nd);
        } else if let DriverType::AndGate(a, b) = c.drivers[nd as int] {
            lemma_place_row(c, m1, hi - 1, j, (a / 2) as usize);
            let m2 = place(c, m1, hi - 1, j, (a / 2) as usize);
            lemma_place_row(c, m2, hi - 1, j + row_len(hi), (b / 2) as usize);
        }
    }
}

/// Nodes and widths are such that a placement uses up a free cell.
pub open spec fn can_descend(c: Job, m: Mapping, lvl: int) -> bool {
    &&& lvl < m.hier.len()
    &&& forall|k: int| 0 <= k < c.order.len() ==> #[trigger] c.order[k] != FREE
}

/// The mapping of the nodes of level 2 and more: from row `lvl` down, each free
/// cell in turn gets the farthest node of its level, until there is none or
/// row 1 would be overfull; a placement that overfills it is undone.
pub open spec fn descend(c: Job, m: Mapping, lvl: int) -> Mapping
    decreases lvl, free(m.hier[lvl]),
    when can_descend(c, m, lvl)
    via descend_terminates
{
    if lvl < 2 {
        m
    } else {
        let placed = m.count.dom();
        let slot = first_free(m.hier[lvl], 0);
        let best = farthest(c, placed, reverse_levels(c, placed), lvl, c.order.len() as int);
        if slot >= m.hier[lvl].len() || best < 0 {
            descend(c, m, lvl - 1)
        } else {
            let m2 = place(c, m, lvl, slot, c.order[best]);
            if overfull(c, m2) {
                descend(c, m, lvl - 1)
            } else {
                descend(c, m2, lvl)
            }
        }
    }
}

/// Whether each node that `descend` tries to place can be placed.
pub open spec fn descend_fits(c: Job, m: Mapping, lvl: int) -> bool
    decreases lvl, free(m.hier[lvl]),
    when can_descend(c, m, lvl)
    via descend_fits_terminates
{
    if lvl < 2 {
        true
    } else {
        let placed = m.count.dom();
        let slot = first_free(m.hier[lvl], 0);
        let best = farthest(c, placed, reverse_levels(c, placed), lvl, c.order.len() as int);
        if slot >= m.hier[lvl].len() || best < 0 {
            descend_fits(c, m, lvl - 1)
        } else {
            let m2 = place(c, m, lvl, slot, c.order[best]);
            &&& tree_fits(c, lvl, c.order[best])
            &&& if overfull(c, m2) {
                descend_fits(c, m, lvl - 1)
            } else {
                descend_fits(c, m2, lvl)
            }
        }
    }
}

#[via_fn]
proof fn descend_fits_terminates(c: Job, m: Mapping, lvl: int) {
    lemma_descend_step(c, m, lvl);
}

/// The first free cell of a row is free, if there is one.
pub proof fn lemma_first_free(row: Seq<usize>, from: int)
    requires
        0 <= from <= row.len(),
    ensures
        from <= first_free(row, from) <= row.len(),
        first_free(row, from) < row.len() ==> row[first_free(row, from)] == FREE,
        forall|i: int| from <= i < first_free(row, from) ==> row[i] != FREE,
    decreases row.len() - from,
{
    if from < row.len() && row[from] != FREE {
        lemma_first_free(row, from + 1);
    }
}

/// The farthest node is one of those that are wanted at its level.
pub proof fn lemma_farthest(c: Job, placed: Set<usize>, rev: Seq<usize>, lvl: int, k: int)
    requires
        0 <= k <= c.order.len(),
    ensures
        ({
            let best = farthest(c, placed, rev, lvl, k);
            &&& best < k
            &&& best >= 0 ==> {
                &&& level_at(c, best) == lvl
                &&& !placed.contains(c.order[best])
                &&& rev[best] != FREE
            }
            &&& best >= -1
        }),
    decreases k,
{
    if k > 0 {
        lemma_farthest(c, placed, rev, lvl, k - 1);
    }
}

#[via_fn]
proof fn descend_terminates(c: Job, m: Mapping, lvl: int) {
    lemma_descend_step(c, m, lvl);
}

/// A placement uses up a free cell.
pub proof fn lemma_descend_step(c: Job, m: Mapping, lvl: int)
    requires
        can_descend(c, m, lvl),
    ensures
        lvl >= 2 ==> {
            let placed = m.count.dom();
            let slot = first_free(m.hier[lvl], 0);
            let best = farthest(c, placed, reverse_levels(c, placed), lvl, c.order.len() as int);
            slot < m.hier[lvl].len() && best >= 0 ==> {
                let m2 = place(c, m, lvl, slot, c.order[best]);
                &&& can_descend(c, m2, lvl)
                &&& free(m2.hier[lvl]) < free(m.hier[lvl])
            }
        },
{
    if lvl >= 2 {
        let placed = m.count.dom();
        let row = m.hier[lvl];
        let slot = first_free(row, 0);
        let rev = reverse_levels(c, placed);
        let best = farthest(c, placed, rev, lvl, c.order.len() as int);
        lemma_first_free(row, 0);
        lemma_farthest(c, placed, rev, lvl, c.order.len() as int);
        if slot < row.len() && best >= 0 {
            lemma_place_row(c, m, lvl, slot, c.order[best]);
            lemma_tally_update(row, |x: usize| x == FREE, slot, c.order[best]);
        }
    }
}

/// The occupied cells among the 32 of a row from `start` on.
pub open spec fn occupancy(row: Seq<usize>, start: int) -> nat {
    taken(row.subrange(start, start + 32))
}

/// Of the first `n` groups of 32 cells of a row, those that are not crowded:
/// the occupied cells and the first cell of each.
pub open spec fn roomy(row: Seq<usize>, n: int) -> Seq<(usize, usize)>
    decreases n,
{
    if n <= 0 {
        Seq::empty()
    } else {
        let s = roomy(row, n - 1);
        let occ = occupancy(row, (n - 1) * 32);
        if occ < CROWDED {
            s.push((occ as usize, ((n - 1) * 32) as usize))
        } else {
            s
        }
    }
}

/// How far the wanted nodes of row 1 have been placed: the mapping, the number
/// of them that are, and the wanted nodes that are written out so far.
pub struct Fill {
    pub m: Mapping,
    pub next: int,
    pub done: Seq<usize>,
}

/// The fill after cell `j` of row 1: a free cell gets the next node of `lvl1`,
/// a wanted node that is already there is written out.
pub open spec fn fill_step(c: Job, f: Fill, lvl1: Seq<usize>, j: int) -> Fill {
    let x = f.m.hier[1][j];
    if x == FREE {
        Fill {
            m: place(c, f.m, 1, j, lvl1[f.next]),
            next: f.next + 1,
            done: inserted(f.done, lvl1[f.next]),
        }
    } else if c.outs.contains(x) {
        Fill { m: f.m, next: f.next, done: inserted(f.done, x) }
    } else {
        f
    }
}

/// Fills the cells from `j` up to `end` of row 1 as long as there are nodes of
/// `lvl1` left.
pub open spec fn fill_group(c: Job, f: Fill, lvl1: Seq<usize>, j: int, end: int) -> Fill
    decreases end - j,
{
    if j >= end || f.next >= lvl1.len() {
        f
    } else {
        fill_group(c, fill_step(c, f, lvl1, j), lvl1, j + 1, end)
    }
}

/// Fills the groups of `spaces` from the `s`-th on, as long as all wanted nodes
/// are within reach or the next group can be filled up; the fill and the number
/// of groups that are written out.
pub open spec fn fill_groups(
    c: Job,
    f: Fill,
    lvl1: Seq<usize>,
    spaces: Seq<(usize, usize)>,
    all: bool,
    s: int,
) -> (Fill, int)
    decreases spaces.len() - s,
{
    if s < spaces.len() && (all || lvl1.len() - f.next >= 32 - spaces[s].0) {
        let start = spaces[s].1 as int;
        fill_groups(c, fill_group(c, f, lvl1, start, start + 32), lvl1, spaces, all, s + 1)
    } else {
        (f, s)
    }
}

/// Puts the nodes of `need` from the `k`-th on that are neither placed nor
/// written out into the free cells of row 1 from `from` on; the mapping and
/// the cell that was reached, unless the row has too few of them.
pub open spec fn settle(
    c: Job,
    m: Mapping,
    done: Seq<usize>,
    need: Seq<usize>,
    k: int,
    from: int,
) -> Option<(Mapping, int)>
    decreases need.len() - k,
{
    if k >= need.len() {
        Some((m, from))
    } else if m.count.contains_key(need[k]) || done.contains(need[k]) {
        settle(c, m, done, need, k + 1, from)
    } else {
        let cell = first_free(m.hier[1], from);
        if cell >= m.hier[1].len() {
            None
        } else {
            settle(c, place(c, m, 1, cell, need[k]), done, need, k + 1, cell)
        }
    }
}

/// The write-out of cell `j` of row `hi`: the groups of 32 cells are numbered
/// from the top of the tree down.
pub open spec fn writeout_of(hi: int, j: int) -> usize {
    ((j + row_len(hi)) / 32) as usize
}

/// The write-outs of the first `n` cells of row `hi` that hold a node of
/// `placed` that is not yet written out, added to `s`.
pub open spec fn row_writeouts(
    row: Seq<usize>,
    hi: int,
    placed: Seq<usize>,
    done: Seq<usize>,
    s: Seq<usize>,
    n: int,
) -> Seq<usize>
    decreases n,
{
    if n <= 0 {
        s
    } else {
        let t = row_writeouts(row, hi, placed, done, s, n - 1);
        if placed.contains(row[n - 1]) && !done.contains(row[n - 1]) {
            inserted(t, writeout_of(hi, n - 1))
        } else {
            t
        }
    }
}

/// The same for the rows from 1 up to, but not including, `hi`.
pub open spec fn more_writeouts(
    hier: Seq<Seq<usize>>,
    placed: Seq<usize>,
    done: Seq<usize>,
    hi: int,
) -> Seq<usize>
    decreases hi,
{
    if hi <= 1 {
        Seq::empty()
    } else {
        row_writeouts(
            hier[hi - 1],
            hi - 1,
            placed,
            done,
            more_writeouts(hier, placed, done, hi - 1),
            row_len(hi - 1) as int,
        )
    }
}

/// `s` with the first `n` values of `xs` inserted.
pub open spec fn inserted_all(s: Seq<usize>, xs: Seq<usize>, n: int) -> Seq<usize>
    decreases n,
{
    if n <= 0 {
        s
    } else {
        inserted(inserted_all(s, xs, n - 1), xs[n - 1])
    }
}

/// `s` with the first `n` values of `xs` taken out.
pub open spec fn removed_all(s: Seq<usize>, xs: Seq<usize>, n: int) -> Seq<usize>
    decreases n,
{
    if n <= 0 {
        s
    } else {
        swap_removed(removed_all(s, xs, n - 1), xs[n - 1])
    }
}

/// A mapped stage: its cells and write-outs, and what is left to the next.
pub struct StageResult {
    pub hier: Seq<Seq<usize>>,
    pub write_outs: Seq<usize>,
    pub outs: Seq<usize>,
    pub stops: Set<usize>,
    pub total: int,
}

/// The row of the deepest nodes, or the top row if they are deeper.
pub open spec fn top_row(c: Job) -> int {
    let top = max_level(c, c.order.len() as int);
    if top <= BOOMERANG_NUM_STAGES {
        top as int
    } else {
        BOOMERANG_NUM_STAGES as int
    }
}

/// The mapping of the nodes of level 2 and more of a job.
pub open spec fn upper_mapping(c: Job) -> Mapping {
    descend(c, blank(), top_row(c))
}

/// No constant has to be placed above row 0 but where node 0 may.
pub open spec fn constants_fit(c: Job) -> bool {
    descend_fits(c, blank(), top_row(c))
}

/// Whether a node is placed.
pub open spec fn is_placed(m: Mapping) -> spec_fn(usize) -> bool {
    |x: usize| m.count.contains_key(x)
}

/// Whether a node is still to be placed in row 1.
pub open spec fn is_needed(m: Mapping, need: Seq<usize>) -> spec_fn(usize) -> bool {
    |x: usize| !m.count.contains_key(x) && need.contains(x)
}

/// The wanted nodes that are placed above row 1.
pub open spec fn wanted_placed(c: Job, m: Mapping) -> Seq<usize> {
    c.outs.filter(is_placed(m))
}

/// The wanted nodes that must be placed in row 1.
pub open spec fn wanted_lvl1(c: Job, m: Mapping, need: Seq<usize>) -> Seq<usize> {
    c.outs.filter(is_needed(m, need))
}

/// Whether some wanted node is left for a later stage.
pub open spec fn some_untouched(c: Job, m: Mapping, need: Seq<usize>) -> bool {
    exists|i: int|
        0 <= i < c.outs.len() && !m.count.contains_key(#[trigger] c.outs[i]) && !need.contains(
            c.outs[i],
        )
}

/// The first fill of row 1: its outcome and the groups that are written out.
pub open spec fn first_fill(c: Job, m: Mapping, need: Seq<usize>) -> (Fill, Seq<(usize, usize)>) {
    let spaces = sorted_pairs(roomy(m.hier[1], row_len(1) as int / 32));
    let (f, s) = fill_groups(
        c,
        Fill { m, next: 0, done: Seq::empty() },
        wanted_lvl1(c, m, need),
        spaces,
        !some_untouched(c, m, need),
        0,
    );
    (f, spaces.take(s))
}

/// The write-outs of groups of row 1.
pub open spec fn group_writeouts(groups: Seq<(usize, usize)>) -> Seq<usize> {
    groups.map_values(|g: (usize, usize)| writeout_of(1, g.1 as int))
}

/// The stage that follows from a filled row 1 with room to spare, which is the
/// last one if no wanted node is left and the write-outs suffice.
pub open spec fn finish(
    c: Job,
    m: Mapping,
    done: Seq<usize>,
    write_outs: Seq<usize>,
    last: bool,
    placed: Seq<usize>,
    total: int,
    limit: int,
) -> StageResult {
    let more = more_writeouts(m.hier, placed, done, BOOMERANG_NUM_STAGES + 1);
    let fits = last && more.len() + total <= limit;
    let done2 = if fits {
        inserted_all(done, placed, placed.len() as int)
    } else {
        done
    };
    StageResult {
        hier: m.hier,
        write_outs: if fits {
            write_outs + more
        } else {
            write_outs
        },
        outs: removed_all(c.outs, done2, done2.len() as int),
        stops: c.stops.union(m.count.dom()),
        total: if fits {
            total + more.len()
        } else {
            total
        },
    }
}

/// The number of groups that the first fill writes out.
pub open spec fn first_writeouts(c: Job) -> nat {
    let m = upper_mapping(c);
    first_fill(c, m, necessary(c, m.count.dom())).1.len()
}

/// One stage of a job, where `total` write-outs are in use and no more than
/// `limit` may be; none if the write-outs or the cells of row 1 do not suffice.
#[verifier::opaque]
pub open spec fn stage(c: Job, total: int, limit: int) -> Option<StageResult> {
    let m = upper_mapping(c);
    let need = necessary(c, m.count.dom());
    let (f, groups) = first_fill(c, m, need);
    let total1 = total + groups.len();
    if total1 > limit {
        None
    } else {
        match settle(c, f.m, f.done, need, 0, 0) {
            None => None,
            Some((m3, from)) => if first_free(m3.hier[1], from) >= row_len(1) {
                None
            } else {
                Some(
                    finish(
                        c,
                        m3,
                        f.done,
                        group_writeouts(groups),
                        !some_untouched(c, m, need),
                        wanted_placed(c, m),
                        total1,
                        limit,
                    ),
                )
            },
        }
    }
}

} // verus!
