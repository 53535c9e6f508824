//! What holds of every mapping that a stage goes through.
use crate::aig::{
    reads_constant, cone_order_is_topological, feeds, feeds_later, in_range, stands_before,
    topological, DriverType,
};
use crate::boomerang::{
    bumped, job_ok, level_at, level_of, place, row_len, job_wf, tree_fits, with_cell, Job, Mapping,
    BOOMERANG_NUM_STAGES, FREE,
};
use crate::seqs::{lemma_tally_bound, lemma_tally_some, lemma_tally_update, tally};
use vstd::prelude::*;

verus! {

/// Each row is twice as wide as the one above it.
pub proof fn lemma_row_len(hi: int)
    requires
        0 <= hi <= BOOMERANG_NUM_STAGES,
    ensures
        1 <= row_len(hi) <= 8192,
        hi >= 1 ==> row_len(hi - 1) == 2 * row_len(hi),
        hi >= 1 ==> row_len(hi) <= 4096,
{
    reveal_with_fuel(row_len, 15);
    assert(row_len(13) == 1);
    assert(row_len(12) == 2);
    assert(row_len(11) == 4);
    assert(row_len(10) == 8);
    assert(row_len(9) == 16);
    assert(row_len(8) == 32);
    assert(row_len(7) == 64);
    assert(row_len(6) == 128);
    assert(row_len(5) == 256);
    assert(row_len(4) == 512);
    assert(row_len(3) == 1024);
    assert(row_len(2) == 2048);
    assert(row_len(1) == 4096);
    assert(row_len(0) == 8192);
}

/// The widths of the two widest rows.
pub proof fn lemma_wide_rows()
    ensures
        row_len(0) == 8192,
        row_len(1) == 4096,
{
    reveal_with_fuel(row_len, 15);
}

/// The content of a cell.
pub open spec fn cell(hier: Seq<Seq<usize>>, g: int, i: int) -> usize {
    hier[g][i]
}

/// The rows have their widths.
pub open spec fn shape(hier: Seq<Seq<usize>>) -> bool {
    &&& hier.len() == BOOMERANG_NUM_STAGES + 1
    &&& forall|g: int| 0 <= g <= BOOMERANG_NUM_STAGES ==> (#[trigger] hier[g]).len() == row_len(g)
}

/// There is such a cell.
pub open spec fn is_cell(g: int, i: int) -> bool {
    0 <= g <= BOOMERANG_NUM_STAGES && 0 <= i < row_len(g)
}

/// Cell `i` of row `g` lies below cell `j` of row `hi`, or is that cell.
pub open spec fn in_tree(hi: int, j: int, g: int, i: int) -> bool {
    &&& is_cell(g, i)
    &&& g <= hi
    &&& i % (row_len(hi) as int) == j
}

/// A cell is what it reads: the node of its first child, or the and gate of
/// the nodes of its children.
pub open spec fn cell_ok(c: Job, hier: Seq<Seq<usize>>, g: int, i: int) -> bool {
    let nd = cell(hier, g, i);
    nd != FREE ==> {
        &&& c.order.contains(nd)
        &&& level_of(c, nd) <= g
        &&& if level_of(c, nd) == g {
            c.drivers[nd as int] matches DriverType::AndGate(a, b) && {
                &&& cell(hier, g - 1, i) == a / 2
                &&& cell(hier, g - 1, i + row_len(g)) == b / 2
            }
        } else {
            cell(hier, g - 1, i) == nd
        }
    }
}

/// Every cell above row 0 is what it reads.
pub open spec fn tree_ok(c: Job, hier: Seq<Seq<usize>>) -> bool {
    forall|g: int, i: int| g >= 1 && is_cell(g, i) ==> #[trigger] cell_ok(c, hier, g, i)
}

/// The cells above an occupied one are occupied, up to row `hi`.
pub open spec fn anc_ok(hier: Seq<Seq<usize>>, hi: int, g: int, i: int) -> bool {
    cell(hier, g, i) != FREE ==> forall|h: int|
        g <= h <= hi ==> #[trigger] cell(hier, h, i % (row_len(h) as int)) != FREE
}

/// Nothing is placed below a free cell of row `hi` or of a row below it.
pub open spec fn rooted(hier: Seq<Seq<usize>>, hi: int) -> bool {
    forall|g: int, i: int| g <= hi && is_cell(g, i) ==> #[trigger] anc_ok(hier, hi, g, i)
}

/// Whether a cell holds `nd`.
pub open spec fn holds(nd: usize) -> spec_fn(usize) -> bool {
    |x: usize| x == nd
}

/// How often `nd` occurs in row `g` and above.
pub open spec fn occurrences(hier: Seq<Seq<usize>>, nd: usize, g: int) -> nat
    decreases BOOMERANG_NUM_STAGES + 1 - g,
{
    if g > BOOMERANG_NUM_STAGES {
        0
    } else {
        tally(hier[g], holds(nd)) + occurrences(hier, nd, g + 1)
    }
}

/// The counts are right: each node that occurs above row 0 has its number of
/// occurrences, and no other node has one.
pub open spec fn counts_ok(m: Mapping) -> bool {
    &&& !m.count.contains_key(FREE)
    &&& forall|nd: usize|
        nd != FREE ==> {
            &&& #[trigger] m.count.contains_key(nd) <==> occurrences(m.hier, nd, 1) > 0
            &&& m.count.contains_key(nd) ==> m.count[nd] == occurrences(m.hier, nd, 1)
        }
}

/// Some and gate of the job has a constant literal.
pub open spec fn has_constant(c: Job) -> bool {
    exists|u: usize| #[trigger] c.order.contains(u) && reads_constant(c.drivers[u as int])
}

/// What row 0 may hold: a node of level 0, or the constants' node where some and
/// gate has a constant literal.
pub open spec fn is_input(c: Job, nd: usize) -> bool {
    (nd == 0 && has_constant(c)) || (c.order.contains(nd) && level_of(c, nd) == 0)
}

/// A cell of row 0 is free or holds an input.
pub open spec fn input_ok(c: Job, hier: Seq<Seq<usize>>, i: int) -> bool {
    cell(hier, 0, i) != FREE ==> is_input(c, cell(hier, 0, i))
}

/// Row 0 holds inputs only.
pub open spec fn inputs_ok(c: Job, hier: Seq<Seq<usize>>) -> bool {
    forall|i: int| is_cell(0, i) ==> #[trigger] input_ok(c, hier, i)
}

/// The mapping's invariant.
pub open spec fn mapping_ok(c: Job, m: Mapping) -> bool {
    &&& shape(m.hier)
    &&& tree_ok(c, m.hier)
    &&& inputs_ok(c, m.hier)
    &&& counts_ok(m)
}

/// A cell of a tree is its root or lies in one of the two trees below it.
pub proof fn lemma_in_tree(hi: int, j: int, g: int, i: int)
    requires
        1 <= hi <= BOOMERANG_NUM_STAGES,
        0 <= j < row_len(hi),
        is_cell(g, i),
    ensures
        in_tree(hi, j, g, i) <==> {
            ||| g == hi && i == j
            ||| in_tree(hi - 1, j, g, i)
            ||| in_tree(hi - 1, j + row_len(hi), g, i)
        },
        !(in_tree(hi - 1, j, g, i) && in_tree(hi - 1, j + row_len(hi), g, i)),
{
    lemma_row_len(hi);
    let n = row_len(hi) as int;
    let q = i / (2 * n);
    let r = i % (2 * n);
    assert(i == (2 * n) * q + r && 0 <= r < 2 * n) by {
        vstd::arithmetic::div_mod::lemma_fundamental_div_mod(i, 2 * n);
    }
    assert(i % n == r % n) by {
        assert(i == n * (2 * q) + r) by (nonlinear_arith)
            requires
                i == (2 * n) * q + r,
        ;
        vstd::arithmetic::div_mod::lemma_mod_multiples_vanish(2 * q, r, n);
    }
    if r < n {
        vstd::arithmetic::div_mod::lemma_small_mod(r as nat, n as nat);
    } else {
        assert(r % n == r - n) by {
            vstd::arithmetic::div_mod::lemma_mod_sub_multiples_vanish(r, n);
            vstd::arithmetic::div_mod::lemma_small_mod((r - n) as nat, n as nat);
        }
    }
    if g == hi {
        vstd::arithmetic::div_mod::lemma_small_mod(i as nat, n as nat);
    }
}

/// The ancestors of an ancestor are ancestors.
pub proof fn lemma_mod_row(i: int, h: int, hi: int)
    requires
        0 <= h <= hi <= BOOMERANG_NUM_STAGES,
        0 <= i,
    ensures
        (i % (row_len(h) as int)) % (row_len(hi) as int) == i % (row_len(hi) as int),
        0 <= i % (row_len(h) as int) < row_len(h),
    decreases hi - h,
{
    lemma_row_len(h);
    lemma_row_len(hi);
    let m = row_len(h) as int;
    if h < hi {
        lemma_row_len(h + 1);
        let n = row_len(h + 1) as int;
        lemma_mod_row(i % m, h + 1, hi);
        lemma_mod_row(i, h + 1, hi);
        assert((i % m) % n == i % n) by {
            vstd::arithmetic::div_mod::lemma_mod_mod(i, n, 2);
            assert(n * 2 == m);
        }
    } else {
        vstd::arithmetic::div_mod::lemma_small_mod((i % m) as nat, m as nat);
    }
}

/// Changing a cell changes the occurrences of its old and its new node.
proof fn lemma_occ_update(hier: Seq<Seq<usize>>, g0: int, i: int, x: usize, nd: usize, g: int)
    requires
        shape(hier),
        is_cell(g0, i),
        0 <= g,
    ensures
        occurrences(with_cell(hier, g0, i, x), nd, g) == occurrences(hier, nd, g) + (if g <= g0 {
            (if x == nd {
                1int
            } else {
                0int
            }) - (if cell(hier, g0, i) == nd {
                1int
            } else {
                0int
            })
        } else {
            0int
        }),
    decreases BOOMERANG_NUM_STAGES + 1 - g,
{
    if g <= BOOMERANG_NUM_STAGES {
        lemma_occ_update(hier, g0, i, x, nd, g + 1);
        if g == g0 {
            lemma_tally_update(hier[g0], holds(nd), i, x);
        }
    }
}

/// A node occurs no more often than there are cells in a row and above.
proof fn lemma_occ_bound(hier: Seq<Seq<usize>>, nd: usize, g: int)
    requires
        shape(hier),
        0 <= g <= BOOMERANG_NUM_STAGES,
    ensures
        occurrences(hier, nd, g) < 2 * row_len(g),
    decreases BOOMERANG_NUM_STAGES + 1 - g,
{
    lemma_tally_bound(hier[g], holds(nd));
    lemma_row_len(g);
    if g < BOOMERANG_NUM_STAGES {
        lemma_occ_bound(hier, nd, g + 1);
        lemma_row_len(g + 1);
    } else {
        assert(occurrences(hier, nd, g + 1) == 0);
    }
}

/// A node in a cell above row 0 is counted.
pub proof fn lemma_counted(m: Mapping, g: int, i: int)
    requires
        shape(m.hier),
        counts_ok(m),
        1 <= g,
        is_cell(g, i),
        cell(m.hier, g, i) != FREE,
    ensures
        m.count.contains_key(cell(m.hier, g, i)),
        m.count[cell(m.hier, g, i)] >= 1,
        m.count[cell(m.hier, g, i)] < 8192,
{
    let nd = cell(m.hier, g, i);
    lemma_occ_some(m.hier, nd, 1, g, i);
    lemma_occ_bound(m.hier, nd, 1);
    lemma_row_len(1);
}

/// A node that is in a cell occurs.
proof fn lemma_occ_some(hier: Seq<Seq<usize>>, nd: usize, g0: int, g: int, i: int)
    requires
        shape(hier),
        0 <= g0 <= g,
        is_cell(g, i),
        cell(hier, g, i) == nd,
    ensures
        occurrences(hier, nd, g0) > 0,
    decreases g - g0,
{
    if g0 == g {
        lemma_tally_some(hier[g], holds(nd), i);
    } else {
        lemma_occ_some(hier, nd, g0 + 1, g, i);
    }
}

/// What is counted is there.
proof fn lemma_tally_witness<T>(s: Seq<T>, p: spec_fn(T) -> bool) -> (i: int)
    requires
        tally(s, p) > 0,
    ensures
        0 <= i < s.len(),
        p(s[i]),
    decreases s.len(),
{
    if p(s.last()) {
        s.len() - 1
    } else {
        let i = lemma_tally_witness(s.drop_last(), p);
        i
    }
}

/// A node that occurs is in a cell.
proof fn lemma_occ_witness(hier: Seq<Seq<usize>>, nd: usize, g0: int) -> (r: (int, int))
    requires
        shape(hier),
        0 <= g0,
        occurrences(hier, nd, g0) > 0,
    ensures
        g0 <= r.0,
        is_cell(r.0, r.1),
        cell(hier, r.0, r.1) == nd,
    decreases BOOMERANG_NUM_STAGES + 1 - g0,
{
    if g0 <= BOOMERANG_NUM_STAGES && tally(hier[g0], holds(nd)) > 0 {
        let i = lemma_tally_witness(hier[g0], holds(nd));
        (g0, i)
    } else {
        lemma_occ_witness(hier, nd, g0 + 1)
    }
}

/// A counted node is in a cell above row 0.
pub proof fn lemma_counted_cell(m: Mapping, nd: usize) -> (r: (int, int))
    requires
        shape(m.hier),
        counts_ok(m),
        m.count.contains_key(nd),
    ensures
        1 <= r.0,
        is_cell(r.0, r.1),
        cell(m.hier, r.0, r.1) == nd,
        nd != FREE,
{
    lemma_occ_witness(m.hier, nd, 1)
}

/// Filling a free cell above row 0 and counting its node keeps the counts.
pub proof fn lemma_fill_counts(m: Mapping, g: int, i: int, nd: usize)
    requires
        shape(m.hier),
        counts_ok(m),
        is_cell(g, i),
        1 <= g,
        cell(m.hier, g, i) == FREE,
        nd != FREE,
    ensures
        counts_ok(Mapping { hier: with_cell(m.hier, g, i, nd), count: bumped(m.count, nd) }),
        m.count.contains_key(nd) ==> m.count[nd] < 8192,
{
    let h = with_cell(m.hier, g, i, nd);
    let r = Mapping { hier: h, count: bumped(m.count, nd) };
    lemma_row_len(1);
    assert forall|x: usize| x != FREE implies {
        &&& #[trigger] r.count.contains_key(x) <==> occurrences(r.hier, x, 1) > 0
        &&& r.count.contains_key(x) ==> r.count[x] == occurrences(r.hier, x, 1)
    } by {
        lemma_occ_update(m.hier, g, i, nd, x, 1);
        lemma_occ_bound(m.hier, x, 1);
        assert(m.count.contains_key(x) <==> occurrences(m.hier, x, 1) > 0);
    }
    lemma_occ_bound(m.hier, nd, 1);
    assert(m.count.contains_key(nd) <==> occurrences(m.hier, nd, 1) > 0);
}

/// `count` with one occurrence of `nd` less.
pub open spec fn lowered(count: Map<usize, usize>, nd: usize) -> Map<usize, usize> {
    if count[nd] == 1 {
        count.remove(nd)
    } else {
        count.insert(nd, (count[nd] - 1) as usize)
    }
}

/// Freeing a cell above row 0 and discounting its node keeps the counts.
pub proof fn lemma_free_counts(m: Mapping, g: int, i: int)
    requires
        shape(m.hier),
        counts_ok(m),
        is_cell(g, i),
        1 <= g,
        cell(m.hier, g, i) != FREE,
    ensures
        m.count.contains_key(cell(m.hier, g, i)),
        m.count[cell(m.hier, g, i)] >= 1,
        counts_ok(
            Mapping {
                hier: with_cell(m.hier, g, i, FREE),
                count: lowered(m.count, cell(m.hier, g, i)),
            },
        ),
{
    let nd = cell(m.hier, g, i);
    let h = with_cell(m.hier, g, i, FREE);
    let r = Mapping { hier: h, count: lowered(m.count, nd) };
    lemma_counted(m, g, i);
    assert forall|x: usize| x != FREE implies {
        &&& #[trigger] r.count.contains_key(x) <==> occurrences(r.hier, x, 1) > 0
        &&& r.count.contains_key(x) ==> r.count[x] == occurrences(r.hier, x, 1)
    } by {
        lemma_occ_update(m.hier, g, i, FREE, x, 1);
        assert(m.count.contains_key(x) <==> occurrences(m.hier, x, 1) > 0);
    }
}

/// Row 0 is not counted.
pub proof fn lemma_row0_counts(m: Mapping, i: int, nd: usize)
    requires
        shape(m.hier),
        counts_ok(m),
        is_cell(0, i),
    ensures
        counts_ok(Mapping { hier: with_cell(m.hier, 0, i, nd), count: m.count }),
{
    let h = with_cell(m.hier, 0, i, nd);
    assert forall|x: usize| x != FREE implies {
        &&& #[trigger] m.count.contains_key(x) <==> occurrences(h, x, 1) > 0
        &&& m.count.contains_key(x) ==> m.count[x] == occurrences(h, x, 1)
    } by {
        lemma_occ_update(m.hier, 0, i, nd, x, 1);
        assert(m.count.contains_key(x) <==> occurrences(m.hier, x, 1) > 0);
    }
}

/// The counts follow from the cells.
pub proof fn lemma_counts_unique(m: Mapping, r: Mapping)
    requires
        counts_ok(m),
        counts_ok(r),
        m.hier == r.hier,
    ensures
        m == r,
{
    assert forall|x: usize| m.count.contains_key(x) <==> r.count.contains_key(x) by {
        if x != FREE {
            assert(m.count.contains_key(x) <==> occurrences(m.hier, x, 1) > 0);
            assert(r.count.contains_key(x) <==> occurrences(r.hier, x, 1) > 0);
        }
    }
    assert(m.count =~= r.count);
}

/// The order lists what the wanted nodes depend on, operands first.
pub proof fn lemma_order(c: Job)
    requires
        job_wf(c),
    ensures
        topological(c.drivers, c.stops, c.order),
        forall|i: int| 0 <= i < c.outs.len() ==> c.order.contains(#[trigger] c.outs[i]),
        forall|k: int|
            0 <= k < c.order.len() ==> c.outs.contains(#[trigger] c.order[k]) || feeds_later(
                c.drivers,
                c.stops,
                c.order,
                k,
            ),
        forall|k: int| 0 <= k < c.order.len() ==> #[trigger] c.order[k] != FREE,
{
    cone_order_is_topological(c.drivers, c.stops, c.outs);
}

/// A node stands where it is found.
pub proof fn lemma_position(c: Job, k: int)
    requires
        job_wf(c),
        0 <= k < c.order.len(),
    ensures
        c.order.index_of(c.order[k]) == k,
        level_of(c, c.order[k]) == level_at(c, k),
{
    lemma_order(c);
    assert(c.order.contains(c.order[k]));
}

/// A node that feeds the and gate at position `k` stands before it.
pub proof fn lemma_fanin(c: Job, k: int, x: usize)
    requires
        job_wf(c),
        0 <= k < c.order.len(),
        feeds(c.drivers, c.stops, x, c.order[k]),
    ensures
        c.order.contains(x),
        0 <= c.order.index_of(x) < k,
        c.order[c.order.index_of(x)] == x,
{
    lemma_order(c);
    assert(stands_before(c.order, x, k));
    let p = choose|p: int| 0 <= p < k && #[trigger] c.order[p] == x;
    lemma_position(c, p);
}

/// A level is bounded by the position.
pub proof fn lemma_level_bound(c: Job, k: int)
    requires
        0 <= k,
    ensures
        level_at(c, k) <= k + 1,
    decreases k,
{
    if k < c.order.len() && !c.stops.contains(c.order[k]) {
        if let DriverType::AndGate(a, b) = c.drivers[c.order[k] as int] {
            let pa = c.order.index_of((a / 2) as usize);
            let pb = c.order.index_of((b / 2) as usize);
            if 0 <= pa < k {
                lemma_level_bound(c, pa);
            }
            if 0 <= pb < k {
                lemma_level_bound(c, pb);
            }
        }
    }
}

/// What a positive level says of a node.
pub open spec fn gate_at_level(c: Job, nd: usize, a: usize, b: usize) -> bool {
    let lvl = level_of(c, nd);
    &&& c.drivers[nd as int] == DriverType::AndGate(a, b)
    &&& !c.stops.contains(nd)
    &&& a >= 2 ==> c.order.contains((a / 2) as usize) && level_of(c, (a / 2) as usize) < lvl
    &&& b >= 2 ==> c.order.contains((b / 2) as usize) && level_of(c, (b / 2) as usize) < lvl
    &&& {
        ||| a >= 2 && level_of(c, (a / 2) as usize) + 1 == lvl
        ||| b >= 2 && level_of(c, (b / 2) as usize) + 1 == lvl
    }
}

/// A node of a positive level is an and gate one level above the deeper of the
/// nodes that feed it.
pub proof fn lemma_gate(c: Job, nd: usize) -> (r: (usize, usize))
    requires
        job_wf(c),
        c.order.contains(nd),
        level_of(c, nd) >= 1,
    ensures
        gate_at_level(c, nd, r.0, r.1),
        nd < c.drivers.len(),
{
    lemma_order(c);
    let k = c.order.index_of(nd);
    let (a, b) = match c.drivers[nd as int] {
        DriverType::AndGate(a, b) => (a, b),
        _ => (0usize, 0usize),
    };
    let fa = (a / 2) as usize;
    let fb = (b / 2) as usize;
    if a >= 2 {
        assert(feeds(c.drivers, c.stops, fa, c.order[k]));
        lemma_fanin(c, k, fa);
    }
    if b >= 2 {
        assert(feeds(c.drivers, c.stops, fb, c.order[k]));
        lemma_fanin(c, k, fb);
    }
    (a, b)
}

/// Nothing is placed below cell `j` of row `hi`, nor in it.
pub open spec fn tree_free(hier: Seq<Seq<usize>>, hi: int, j: int) -> bool {
    forall|g: int, i: int| #[trigger] in_tree(hi, j, g, i) ==> cell(hier, g, i) == FREE
}

/// What placing `nd` into cell `j` of row `hi` does.
pub open spec fn placed_in(
    c: Job,
    m: Mapping,
    r: Mapping,
    hi: int,
    j: int,
    nd: usize,
) -> bool {
    &&& shape(r.hier)
    &&& cell(r.hier, hi, j) == nd
    &&& forall|g: int, i: int|
        is_cell(g, i) && !in_tree(hi, j, g, i) ==> #[trigger] cell(r.hier, g, i) == cell(
            m.hier,
            g,
            i,
        )
    &&& forall|g: int, i: int|
        g >= 1 && #[trigger] in_tree(hi, j, g, i) ==> cell_ok(c, r.hier, g, i)
    &&& forall|i: int| #[trigger] in_tree(hi, j, 0, i) ==> input_ok(c, r.hier, i)
    &&& forall|g: int, i: int| #[trigger] in_tree(hi, j, g, i) ==> anc_ok(r.hier, hi, g, i)
    &&& counts_ok(m) ==> counts_ok(r)
}

/// What may be put into a cell of row `hi`.
pub open spec fn fits_row(c: Job, hi: int, nd: usize) -> bool {
    &&& nd != FREE
    &&& if hi >= 1 {
        c.order.contains(nd) && level_of(c, nd) <= hi
    } else {
        is_input(c, nd)
    }
}

/// Where a row more is occupied, the cells above a cell are occupied up to it.
proof fn lemma_sub_anc(
    r: Mapping,
    hi: int,
    j: int,
    jj: int,
    g: int,
    i: int,
)
    requires
        1 <= hi <= BOOMERANG_NUM_STAGES,
        0 <= j < row_len(hi),
        in_tree(hi - 1, jj, g, i),
        in_tree(hi, j, g, i),
        cell(r.hier, hi, j) != FREE,
        anc_ok(r.hier, hi - 1, g, i),
    ensures
        anc_ok(r.hier, hi, g, i),
{
    if cell(r.hier, g, i) != FREE {
        assert forall|h: int| g <= h <= hi implies #[trigger] cell(
            r.hier,
            h,
            i % (row_len(h) as int),
        ) != FREE by {}
    }
}

/// The mapping with `nd` in one cell above row 0 and nothing below it.
pub open spec fn put(m: Mapping, hi: int, j: int, nd: usize) -> Mapping {
    Mapping { hier: with_cell(m.hier, hi, j, nd), count: bumped(m.count, nd) }
}

/// Putting a node into a cell keeps the counts.
pub proof fn lemma_put(m: Mapping, hi: int, j: int, nd: usize)
    requires
        shape(m.hier),
        1 <= hi <= BOOMERANG_NUM_STAGES,
        0 <= j < row_len(hi),
        tree_free(m.hier, hi, j),
        nd != FREE,
    ensures
        shape(put(m, hi, j, nd).hier),
        counts_ok(m) ==> counts_ok(put(m, hi, j, nd)),
        tree_free(put(m, hi, j, nd).hier, hi - 1, j),
        tree_free(put(m, hi, j, nd).hier, hi - 1, j + row_len(hi)),
        cell(put(m, hi, j, nd).hier, hi, j) == nd,
        forall|g: int, i: int|
            is_cell(g, i) && !(g == hi && i == j) ==> #[trigger] cell(
                put(m, hi, j, nd).hier,
                g,
                i,
            ) == cell(m.hier, g, i),
{
    let n = row_len(hi) as int;
    let m1 = put(m, hi, j, nd);
    lemma_row_len(hi);
    vstd::arithmetic::div_mod::lemma_small_mod(j as nat, row_len(hi));
    assert(in_tree(hi, j, hi, j));
    if counts_ok(m) {
        lemma_fill_counts(m, hi, j, nd);
    }
    assert forall|g: int, i: int| #[trigger] in_tree(hi - 1, j, g, i) implies cell(m1.hier, g, i)
        == FREE by {
        lemma_in_tree(hi, j, g, i);
        assert(in_tree(hi, j, g, i));
    }
    assert forall|g: int, i: int| #[trigger] in_tree(hi - 1, j + n, g, i) implies cell(
        m1.hier,
        g,
        i,
    ) == FREE by {
        lemma_in_tree(hi, j, g, i);
        assert(in_tree(hi, j, g, i));
    }
}

/// Placing a node by passing it through keeps the mapping in order.
proof fn lemma_place_pass(c: Job, m: Mapping, r: Mapping, hi: int, j: int, nd: usize)
    requires
        job_ok(c),
        shape(m.hier),
        1 <= hi <= BOOMERANG_NUM_STAGES,
        0 <= j < row_len(hi),
        tree_free(m.hier, hi, j),
        fits_row(c, hi, nd),
        level_of(c, nd) != hi,
        placed_in(c, put(m, hi, j, nd), r, hi - 1, j, nd),
    ensures
        placed_in(c, m, r, hi, j, nd),
{
    let n = row_len(hi) as int;
    let m1 = put(m, hi, j, nd);
    lemma_row_len(hi);
    lemma_put(m, hi, j, nd);
    vstd::arithmetic::div_mod::lemma_small_mod(j as nat, row_len(hi));
    lemma_in_tree(hi, j, hi, j);
    assert(!in_tree(hi - 1, j, hi, j));
    assert(cell(r.hier, hi, j) == cell(m1.hier, hi, j));
    assert forall|g: int, i: int| is_cell(g, i) && !in_tree(hi, j, g, i) implies #[trigger] cell(
        r.hier,
        g,
        i,
    ) == cell(m.hier, g, i) by {
        lemma_in_tree(hi, j, g, i);
        assert(cell(m1.hier, g, i) == cell(m.hier, g, i));
    }
    assert forall|g: int, i: int| #[trigger] in_tree(hi, j, g, i) implies anc_ok(r.hier, hi, g, i)
        && (g >= 1 ==> cell_ok(c, r.hier, g, i)) by {
        lemma_in_tree(hi, j, g, i);
        if g == hi && i == j {
            assert(anc_ok(r.hier, hi, hi, j));
            assert(cell_ok(c, r.hier, hi, j));
        } else if in_tree(hi - 1, j, g, i) {
            lemma_sub_anc(r, hi, j, j, g, i);
        } else {
            assert(in_tree(hi - 1, j + n, g, i));
            assert(cell(m1.hier, g, i) == FREE);
            assert(cell(r.hier, g, i) == cell(m1.hier, g, i));
        }
    }
    assert forall|i: int| #[trigger] in_tree(hi, j, 0, i) implies input_ok(c, r.hier, i) by {
        lemma_in_tree(hi, j, 0, i);
        if !in_tree(hi - 1, j, 0, i) {
            assert(in_tree(hi - 1, j + n, 0, i));
            assert(cell(m1.hier, 0, i) == FREE);
            assert(cell(r.hier, 0, i) == cell(m1.hier, 0, i));
        }
    }
}

/// Placing a node as a gate of its operands keeps the mapping in order.
proof fn lemma_place_gate(
    c: Job,
    m: Mapping,
    m2: Mapping,
    r: Mapping,
    hi: int,
    j: int,
    nd: usize,
    a: usize,
    b: usize,
)
    requires
        job_ok(c),
        shape(m.hier),
        1 <= hi <= BOOMERANG_NUM_STAGES,
        0 <= j < row_len(hi),
        tree_free(m.hier, hi, j),
        fits_row(c, hi, nd),
        level_of(c, nd) == hi,
        c.drivers[nd as int] == DriverType::AndGate(a, b),
        placed_in(c, put(m, hi, j, nd), m2, hi - 1, j, (a / 2) as usize),
        placed_in(c, m2, r, hi - 1, j + row_len(hi), (b / 2) as usize),
    ensures
        placed_in(c, m, r, hi, j, nd),
{
    let n = row_len(hi) as int;
    let m1 = put(m, hi, j, nd);
    let fa = (a / 2) as usize;
    let fb = (b / 2) as usize;
    lemma_row_len(hi);
    lemma_put(m, hi, j, nd);
    vstd::arithmetic::div_mod::lemma_small_mod(j as nat, row_len(hi));
    vstd::arithmetic::div_mod::lemma_small_mod(j as nat, row_len(hi - 1));
    vstd::arithmetic::div_mod::lemma_small_mod((j + n) as nat, row_len(hi - 1));
    lemma_in_tree(hi, j, hi, j);
    assert(cell(m2.hier, hi, j) == cell(m1.hier, hi, j));
    assert(cell(r.hier, hi, j) == cell(m2.hier, hi, j));
    assert(cell(r.hier, hi - 1, j) == fa) by {
        assert(in_tree(hi - 1, j, hi - 1, j));
        lemma_in_tree(hi, j, hi - 1, j);
        assert(cell(r.hier, hi - 1, j) == cell(m2.hier, hi - 1, j));
    }
    assert forall|g: int, i: int| is_cell(g, i) && !in_tree(hi, j, g, i) implies #[trigger] cell(
        r.hier,
        g,
        i,
    ) == cell(m.hier, g, i) by {
        lemma_in_tree(hi, j, g, i);
        assert(cell(m2.hier, g, i) == cell(m1.hier, g, i));
        assert(cell(m1.hier, g, i) == cell(m.hier, g, i));
    }
    assert forall|g: int, i: int| #[trigger] in_tree(hi, j, g, i) implies anc_ok(r.hier, hi, g, i)
        && (g >= 1 ==> cell_ok(c, r.hier, g, i)) by {
        lemma_in_tree(hi, j, g, i);
        if g == hi && i == j {
            assert(anc_ok(r.hier, hi, hi, j));
            assert(cell_ok(c, r.hier, hi, j));
        } else if in_tree(hi - 1, j, g, i) {
            lemma_left_kept(c, m2, r, hi, j, g, i);
            lemma_sub_anc(r, hi, j, j, g, i);
        } else {
            assert(in_tree(hi - 1, j + n, g, i));
            lemma_sub_anc(r, hi, j, j + n, g, i);
        }
    }
    assert forall|i: int| #[trigger] in_tree(hi, j, 0, i) implies input_ok(c, r.hier, i) by {
        lemma_in_tree(hi, j, 0, i);
        if in_tree(hi - 1, j, 0, i) {
            assert(cell(r.hier, 0, i) == cell(m2.hier, 0, i));
        }
    }
}

/// Placing a node in row 0 keeps the mapping in order.
proof fn lemma_place_input(c: Job, m: Mapping, j: int, nd: usize)
    requires
        shape(m.hier),
        0 <= j < row_len(0),
        nd != FREE,
        is_input(c, nd),
    ensures
        placed_in(c, m, place(c, m, 0, j, nd), 0, j, nd),
{
    let r = place(c, m, 0, j, nd);
    vstd::arithmetic::div_mod::lemma_small_mod(j as nat, row_len(0));
    assert(in_tree(0, j, 0, j));
    assert forall|g: int, i: int| #[trigger] in_tree(0, j, g, i) implies g == 0 && i == j by {
        vstd::arithmetic::div_mod::lemma_small_mod(i as nat, row_len(0));
    }
    if counts_ok(m) {
        lemma_row0_counts(m, j, nd);
    }
    assert forall|g: int, i: int| #[trigger] in_tree(0, j, g, i) implies anc_ok(
        r.hier,
        0,
        g,
        i,
    ) by {}
}

/// What a gate of a row is made of fits the row below.
pub proof fn lemma_operands(c: Job, hi: int, nd: usize) -> (r: (usize, usize))
    requires
        job_ok(c),
        1 <= hi <= BOOMERANG_NUM_STAGES,
        fits_row(c, hi, nd),
        level_of(c, nd) == hi,
        tree_fits(c, hi, nd),
    ensures
        c.drivers[nd as int] == DriverType::AndGate(r.0, r.1),
        tree_fits(c, hi - 1, (r.0 / 2) as usize),
        tree_fits(c, hi - 1, (r.1 / 2) as usize),
        fits_row(c, hi - 1, (r.0 / 2) as usize),
        fits_row(c, hi - 1, (r.1 / 2) as usize),
{
    let (a, b) = lemma_gate(c, nd);
    lemma_order(c);
    assert(in_range(c.drivers));
    assert(c.drivers[nd as int] == DriverType::AndGate(a, b));
    assert(c.order.contains(nd));
    assert(a < 2 || b < 2 ==> has_constant(c));
    (a, b)
}

/// Placing a node into a free cell of its level or above gives it a tree of its
/// own and leaves the rest alone.
pub proof fn lemma_place(c: Job, m: Mapping, hi: int, j: int, nd: usize)
    requires
        job_ok(c),
        shape(m.hier),
        0 <= hi <= BOOMERANG_NUM_STAGES,
        0 <= j < row_len(hi),
        tree_free(m.hier, hi, j),
        fits_row(c, hi, nd),
        tree_fits(c, hi, nd),
    ensures
        placed_in(c, m, place(c, m, hi, j, nd), hi, j, nd),
    decreases hi,
{
    let r = place(c, m, hi, j, nd);
    lemma_row_len(hi);
    if hi == 0 {
        lemma_place_input(c, m, j, nd);
    } else {
        let n = row_len(hi) as int;
        let m1 = put(m, hi, j, nd);
        lemma_put(m, hi, j, nd);
        if level_of(c, nd) != hi {
            lemma_place(c, m1, hi - 1, j, nd);
            lemma_place_pass(c, m, r, hi, j, nd);
        } else {
            let (a, b) = lemma_operands(c, hi, nd);
            let fa = (a / 2) as usize;
            let fb = (b / 2) as usize;
            lemma_place(c, m1, hi - 1, j, fa);
            let m2 = place(c, m1, hi - 1, j, fa);
            assert forall|g: int, i: int| #[trigger] in_tree(hi - 1, j + n, g, i) implies cell(
                m2.hier,
                g,
                i,
            ) == FREE by {
                lemma_in_tree(hi, j, g, i);
                assert(cell(m2.hier, g, i) == cell(m1.hier, g, i));
            }
            lemma_place(c, m2, hi - 1, j + n, fb);
            lemma_place_gate(c, m, m2, r, hi, j, nd, a, b);
        }
    }
}

/// Placing the second operand of a gate keeps the first one.
proof fn lemma_left_kept(
    c: Job,
    m2: Mapping,
    r: Mapping,
    hi: int,
    j: int,
    g: int,
    i: int,
)
    requires
        1 <= hi <= BOOMERANG_NUM_STAGES,
        0 <= j < row_len(hi),
        in_tree(hi - 1, j, g, i),
        anc_ok(m2.hier, hi - 1, g, i),
        g >= 1 ==> cell_ok(c, m2.hier, g, i),
        forall|g: int, i: int|
            is_cell(g, i) && !in_tree(hi - 1, j + row_len(hi), g, i) ==> #[trigger] cell(
                r.hier,
                g,
                i,
            ) == cell(m2.hier, g, i),
    ensures
        anc_ok(r.hier, hi - 1, g, i),
        g >= 1 ==> cell_ok(c, r.hier, g, i),
{
    lemma_in_tree(hi, j, g, i);
    lemma_row_len(hi);
    lemma_row_len(hi - 1);
    assert(cell(r.hier, g, i) == cell(m2.hier, g, i));
    if cell(r.hier, g, i) != FREE {
        assert forall|h: int| g <= h <= hi - 1 implies #[trigger] cell(
            r.hier,
            h,
            i % (row_len(h) as int),
        ) != FREE by {
            lemma_mod_row(i, h, hi - 1);
            lemma_row_len(h);
            let p = i % (row_len(h) as int);
            assert(in_tree(hi - 1, j, h, p));
            lemma_in_tree(hi, j, h, p);
            assert(cell(r.hier, h, p) == cell(m2.hier, h, p));
        }
    }
    if g >= 1 {
        lemma_row_len(g);
        let w = row_len(g) as int;
        let top = row_len(hi - 1) as int;
        lemma_child(hi - 1, j, g, i);
        lemma_in_tree(hi, j, g - 1, i);
        lemma_in_tree(hi, j, g - 1, i + w);
        assert(cell(r.hier, g - 1, i) == cell(m2.hier, g - 1, i));
        assert(cell(r.hier, g - 1, i + w) == cell(m2.hier, g - 1, i + w));
    }
}

/// The children of a cell lie in every tree that it lies in.
pub proof fn lemma_child(hi: int, j: int, g: int, i: int)
    requires
        0 <= hi <= BOOMERANG_NUM_STAGES,
        1 <= g <= hi,
        is_cell(g, i),
        i % (row_len(hi) as int) == j,
    ensures
        in_tree(hi, j, g - 1, i),
        in_tree(hi, j, g - 1, i + row_len(g)),
{
    lemma_row_len(g);
    lemma_row_len(hi);
    let w = row_len(g) as int;
    let x = i + w;
    lemma_mod_row(x, g, hi);
    lemma_mod_row(i, g, hi);
    vstd::arithmetic::div_mod::lemma_small_mod(i as nat, w as nat);
    assert(x % w == i) by {
        vstd::arithmetic::div_mod::lemma_mod_add_multiples_vanish(i, w);
    }
}

} // verus!
