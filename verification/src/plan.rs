//! The nodes that a stage is built from, their order and their levels.
use crate::aig::{feeds, node_of, DriverType, AIG};
use crate::boomerang::{
    tree_fits, bumped, farthest, job, job_ok, level_at, level_of, max_level, necessary_upto,
    needs_input, place, rev_from, rev_start, reverse_levels, row_len, with_cell, Job, Mapping, FREE,
};
use crate::collections::{
    map_entries, map_get, map_insert, map_new, set_at, set_contains, set_insert, set_items, set_len,
    set_new,
};
use crate::distances::{
    closed_under_fanin, lemma_order_len, lemma_rev_from, lemma_source, lemma_step_targets, reached,
};
use crate::layout::Layout;
use crate::mapping::{
    cell, counts_ok, fits_row, in_tree, is_cell, lemma_fanin, lemma_fill_counts, lemma_gate,
    lemma_in_tree, lemma_level_bound, lemma_operands, lemma_order, lemma_place, lemma_position,
    lemma_put, lemma_row_len, shape, tree_free,
};
use indexmap::IndexMap;
use indexmap::IndexSet;
use vstd::prelude::*;

verus! {

/// The values of a set, as a vector.
pub fn set_to_vec(s: &IndexSet<usize>) -> (v: Vec<usize>)
    ensures
        v@ == set_items(*s),
{
    let n: usize = set_len(s);
    let mut v: Vec<usize> = Vec::new();
    let mut i: usize = 0;
    while i < n
        invariant
            n == set_items(*s).len(),
            i <= n,
            v@ == set_items(*s).take(i as int),
        decreases n - i,
    {
        v.push(set_at(s, i));
        i += 1;
        assert(v@ =~= set_items(*s).take(i as int));
    }
    assert(set_items(*s).take(n as int) =~= set_items(*s));
    v
}

/// The position of each value of `order`.
fn positions(order: &Vec<usize>) -> (m: IndexMap<usize, usize>)
    requires
        order@.no_duplicates(),
    ensures
        forall|x: usize| #[trigger] map_entries(m).contains_key(x) <==> order@.contains(x),
        forall|x: usize| #[trigger]
            map_entries(m).contains_key(x) ==> map_entries(m)[x] == order@.index_of(x),
{
    let mut m: IndexMap<usize, usize> = map_new();
    let n: usize = order.len();
    let mut i: usize = 0;
    while i < n
        invariant
            order@.no_duplicates(),
            n == order@.len(),
            i <= n,
            forall|q: int| 0 <= q < i ==> map_entries(m).contains_key(#[trigger] order@[q]),
            forall|x: usize| #[trigger]
                map_entries(m).contains_key(x) ==> map_entries(m)[x] < i
                    && order@[map_entries(m)[x] as int] == x,
        decreases n - i,
    {
        map_insert(&mut m, order[i], i);
        i += 1;
    }
    assert forall|x: usize| order@.contains(x) implies #[trigger] map_entries(m).contains_key(x) by {
        assert(map_entries(m).contains_key(order@[order@.index_of(x)]));
    }
    m
}

/// The part of a graph that a stage is built from.
pub struct Plan<'a> {
    pub aig: &'a AIG,
    /// The nodes that are wanted.
    pub outs: &'a IndexSet<usize>,
    /// The nodes whose values are already there.
    pub stops: &'a IndexSet<usize>,
    /// The nodes in topological order.
    pub order: Vec<usize>,
    /// The position of each node in `order`.
    pub id2order: IndexMap<usize, usize>,
    /// The logic depth at each position.
    pub level: Vec<usize>,
}

impl<'a> Plan<'a> {
    /// What the plan is for.
    pub open spec fn job(self) -> Job {
        job(self.aig.drivers@, set_items(*self.stops).to_set(), set_items(*self.outs))
    }

    /// The positions are those of the order.
    pub open spec fn indexed(self) -> bool {
        &&& self.order@ == self.job().order
        &&& forall|x: usize| #[trigger]
            map_entries(self.id2order).contains_key(x) <==> self.order@.contains(x)
        &&& forall|x: usize| #[trigger]
            map_entries(self.id2order).contains_key(x) ==> map_entries(self.id2order)[x]
                == self.order@.index_of(x)
    }

    /// The order, positions and levels are those of the job.
    pub open spec fn wf(self) -> bool {
        &&& job_ok(self.job())
        &&& self.indexed()
        &&& self.level@.len() == self.order@.len()
        &&& forall|k: int|
            0 <= k < self.order@.len() ==> #[trigger] self.level@[k] == level_at(self.job(), k)
    }

    /// The position of a node.
    fn position(&self, nd: usize) -> (p: usize)
        requires
            self.indexed(),
            self.order@.contains(nd),
        ensures
            p == self.order@.index_of(nd),
            p < self.order@.len(),
            self.order@[p as int] == nd,
    {
        assert(map_entries(self.id2order).contains_key(nd));
        map_get(&self.id2order, nd).unwrap()
    }

    /// The logic depth of a node.
    pub fn level_of(&self, nd: usize) -> (l: usize)
        requires
            self.wf(),
            self.order@.contains(nd),
        ensures
            l == level_of(self.job(), nd),
    {
        self.level[self.position(nd)]
    }

    /// Collects what the nodes `outs` need in addition to the nodes `stops`.
    pub fn new(aig: &'a AIG, outs: &'a IndexSet<usize>, stops: &'a IndexSet<usize>) -> (p: Plan<'a>)
        requires
            job_ok(job(aig.drivers@, set_items(*stops).to_set(), set_items(*outs))),
        ensures
            p.wf(),
            p.aig == aig,
            p.outs == outs,
            p.stops == stops,
    {
        let ends: Vec<usize> = set_to_vec(outs);
        let order: Vec<usize> = aig.topo_traverse_generic(&ends, Some(stops));
        let ghost c = job(aig.drivers@, set_items(*stops).to_set(), set_items(*outs));
        assert(order@ == c.order);
        proof {
            lemma_order(c);
            lemma_order_len(c);
        }
        let n: usize = order.len();
        let id2order: IndexMap<usize, usize> = positions(&order);
        let mut plan: Plan<'a> = Plan { aig, outs, stops, order, id2order, level: Vec::new() };
        let mut k: usize = 0;
        while k < n
            invariant
                plan.indexed(),
                plan.job() == c,
                job_ok(c),
                plan.aig == aig,
                plan.outs == outs,
                plan.stops == stops,
                c.order.len() <= usize::MAX,
                topo_facts(c),
                n == plan.order@.len(),
                k <= n,
                plan.level@.len() == k,
                forall|q: int| 0 <= q < k ==> #[trigger] plan.level@[q] == level_at(c, q),
            decreases n - k,
        {
            let lvl: usize = plan.next_level(k);
            plan.level.push(lvl);
            k += 1;
        }
        plan
    }

    /// The logic depth at the first position that has none yet.
    fn next_level(&self, k: usize) -> (lvl: usize)
        requires
            job_ok(self.job()),
            self.indexed(),
            k < self.order@.len(),
            self.level@.len() == k,
            forall|q: int| 0 <= q < k ==> #[trigger] self.level@[q] == level_at(self.job(), q),
        ensures
            lvl == level_at(self.job(), k as int),
    {
        let i: usize = self.order[k];
        let ghost c = self.job();
        proof {
            lemma_order(c);
            lemma_order_len(c);
        }
        assert(set_items(*self.stops).to_set().contains(i) == set_items(*self.stops).contains(i));
        if set_contains(self.stops, i) {
            return 0;
        }
        let mut lvl: usize = 0;
        if let DriverType::AndGate(a, b) = self.aig.drivers[i] {
            if a >= 2 {
                proof {
                    assert(feeds(c.drivers, c.stops, (a / 2) as usize, c.order[k as int]));
                    lemma_fanin(c, k as int, (a / 2) as usize);
                    lemma_level_bound(c, c.order.index_of((a / 2) as usize));
                }
                let p: usize = self.position(node_of(a));
                lvl = self.level[p] + 1;
            }
            if b >= 2 {
                proof {
                    assert(feeds(c.drivers, c.stops, (b / 2) as usize, c.order[k as int]));
                    lemma_fanin(c, k as int, (b / 2) as usize);
                    lemma_level_bound(c, c.order.index_of((b / 2) as usize));
                }
                let p: usize = self.position(node_of(b));
                let l: usize = self.level[p] + 1;
                if lvl < l {
                    lvl = l;
                }
            }
        }
        lvl
    }

    /// The largest logic depth.
    pub fn max_level(&self) -> (r: usize)
        requires
            self.wf(),
        ensures
            r == max_level(self.job(), self.order@.len() as int),
    {
        let mut r: usize = 0;
        let mut k: usize = 0;
        while k < self.order.len()
            invariant
                self.wf(),
                k <= self.order@.len(),
                r == max_level(self.job(), k as int),
            decreases self.order@.len() - k,
        {
            if self.level[k] > r {
                r = self.level[k];
            }
            k += 1;
        }
        r
    }

    /// Puts `nd` into cell `j` of row `hi`, and what it needs below.
    pub fn place_bit(&self, lay: &mut Layout, hi: usize, j: usize, nd: usize)
        requires
            self.wf(),
            shape(old(lay)@.hier),
            counts_ok(old(lay)@),
            is_cell(hi as int, j as int),
            tree_free(old(lay)@.hier, hi as int, j as int),
            fits_row(self.job(), hi as int, nd),
            tree_fits(self.job(), hi as int, nd),
        ensures
            final(lay)@ == place(self.job(), old(lay)@, hi as int, j as int, nd),
        decreases hi,
    {
        let ghost c = self.job();
        let ghost m = lay@;
        proof {
            lemma_row_len(hi as int);
            vstd::arithmetic::div_mod::lemma_small_mod(j as nat, row_len(hi as int));
            assert(in_tree(hi as int, j as int, hi as int, j as int));
        }
        lay.set_cell(hi, j, nd);
        if hi == 0 {
            return;
        }
        proof {
            lemma_fill_counts(m, hi as int, j as int, nd);
        }
        let n: usize = match map_get(&lay.visited, nd) {
            Some(n) => n + 1,
            None => 1,
        };
        map_insert(&mut lay.visited, nd, n);
        let ghost m1 = lay@;
        assert(m1 == Mapping {
            hier: with_cell(m.hier, hi as int, j as int, nd),
            count: bumped(m.count, nd),
        });
        proof {
            lemma_put(m, hi as int, j as int, nd);
        }
        let lvl: usize = self.level_of(nd);
        if lvl != hi {
            self.place_bit(lay, hi - 1, j, nd);
        } else {
            let width: usize = lay.width(hi);
            proof {
                let (a, b) = lemma_operands(c, hi as int, nd);
                lemma_order(c);
            }
            if let DriverType::AndGate(a, b) = self.aig.drivers[nd] {
                let ghost fa = (a / 2) as usize;
                proof {
                    lemma_place(c, m1, hi - 1, j as int, fa);
                }
                self.place_bit(lay, hi - 1, j, node_of(a));
                let ghost m2 = lay@;
                assert forall|g: int, i: int| #[trigger] in_tree(
                    hi - 1,
                    j + row_len(hi as int),
                    g,
                    i,
                ) implies cell(m2.hier, g, i) == FREE by {
                    lemma_in_tree(hi as int, j as int, g, i);
                    assert(cell(m2.hier, g, i) == cell(m1.hier, g, i));
                }
                self.place_bit(lay, hi - 1, j + width, node_of(b));
            }
        }
    }

    /// The maximum number of steps from each node to a wanted node along which
    /// no other node is placed.
    pub fn compute_reverse_level(&self, lay: &Layout) -> (rev: Vec<usize>)
        requires
            self.wf(),
            closed_under_fanin(self.job(), lay@.count.dom()),
        ensures
            rev@ == reverse_levels(self.job(), lay@.count.dom()),
    {
        let ghost c = self.job();
        let ghost placed = lay@.count.dom();
        let n: usize = self.order.len();
        let mut rev: Vec<usize> = vec![FREE; n];
        proof {
            lemma_order(c);
            lemma_order_len(c);
        }
        let m: usize = set_len(self.outs);
        let mut i: usize = 0;
        while i < m
            invariant
                self.wf(),
                c == self.job(),
                topo_facts(c),
                m == c.outs.len(),
                n == c.order.len(),
                i <= m,
                rev@.len() == n,
                forall|k: int|
                    0 <= k < n ==> #[trigger] rev@[k] == if c.outs.take(i as int).contains(
                        c.order[k],
                    ) {
                        0
                    } else {
                        FREE
                    },
            decreases m - i,
        {
            let x: usize = set_at(self.outs, i);
            assert(c.outs[i as int] == x);
            let p: usize = self.position(x);
            rev[p] = 0;
            assert forall|k: int| 0 <= k < n implies #[trigger] rev@[k] == if c.outs.take(
                i + 1,
            ).contains(c.order[k]) {
                0
            } else {
                FREE
            } by {
                let s = c.outs.take(i as int);
                let t = c.outs.take(i + 1);
                if s.contains(c.order[k]) {
                    assert(t[s.index_of(c.order[k])] == c.order[k]);
                }
                assert(t[i as int] == x);
                if t.contains(c.order[k]) && c.order[k] != x {
                    assert(s[t.index_of(c.order[k])] == c.order[k]);
                }
                if c.order[k] == x {
                    lemma_position(c, k);
                }
            }
            i += 1;
        }
        assert(c.outs.take(m as int) =~= c.outs);
        assert(rev@ =~= rev_start(c));
        let mut k: usize = n;
        while k > 0
            invariant
                self.wf(),
                c == self.job(),
                topo_facts(c),
                closed_under_fanin(c, placed),
                placed == lay@.count.dom(),
                n == c.order.len(),
                k <= n,
                rev@ == rev_from(c, placed, k as int),
            decreases k,
        {
            k -= 1;
            self.follow(lay, &mut rev, k);
        }
        rev
    }

    /// Follows the and gate at position `k`.
    fn follow(&self, lay: &Layout, rev: &mut Vec<usize>, k: usize)
        requires
            self.wf(),
            closed_under_fanin(self.job(), lay@.count.dom()),
            k < self.order@.len(),
            old(rev)@ == rev_from(self.job(), lay@.count.dom(), k + 1),
        ensures
            final(rev)@ == rev_from(self.job(), lay@.count.dom(), k as int),
    {
        let ghost c = self.job();
        let ghost placed = lay@.count.dom();
        proof {
            lemma_order(c);
            lemma_order_len(c);
            lemma_rev_from(c, placed, k + 1);
        }
        let i: usize = self.order[k];
        assert(c.stops.contains(i) == set_items(*self.stops).contains(i));
        if set_contains(self.stops, i) || lay.is_placed(i) {
            return;
        }
        if let DriverType::AndGate(a, b) = self.aig.drivers[i] {
            let rlvl: usize = rev[k];
            proof {
                lemma_step_targets(c, k as int, a, b);
                if a >= 2 || b >= 2 {
                    lemma_source(c, placed, k as int);
                    assert(reached(c, placed, k as int, k + 1));
                }
            }
            if a >= 2 {
                assert(self.order@.contains((a / 2) as usize));
                let p: usize = self.position(node_of(a));
                if rev[p] == FREE || rev[p] < rlvl + 1 {
                    rev[p] = rlvl + 1;
                }
            }
            if b >= 2 {
                assert(self.order@.contains((b / 2) as usize));
                let p: usize = self.position(node_of(b));
                if rev[p] == FREE || rev[p] < rlvl + 1 {
                    rev[p] = rlvl + 1;
                }
            }
        }
    }

    /// Whether literal `x` names a node of level 0 that is not placed.
    fn needs_input(&self, lay: &Layout, x: usize) -> (r: bool)
        requires
            self.wf(),
            x >= 2 ==> self.order@.contains((x / 2) as usize),
        ensures
            r == needs_input(self.job(), lay@.count.dom(), x),
    {
        x >= 2 && self.level_of(node_of(x)) == 0 && !lay.is_placed(node_of(x))
    }

    /// The nodes that must be in row 1 in addition to what is placed.
    pub fn compute_lvl1_necessary_nodes(&self, lay: &Layout, rev: &Vec<usize>) -> (need: IndexSet<
        usize,
    >)
        requires
            self.wf(),
            rev@.len() == self.order@.len(),
        ensures
            set_items(need) == necessary_upto(
                self.job(),
                lay@.count.dom(),
                rev@,
                self.order@.len() as int,
            ),
    {
        let ghost c = self.job();
        let ghost placed = lay@.count.dom();
        let mut need: IndexSet<usize> = set_new();
        let mut k: usize = 0;
        while k < self.order.len()
            invariant
                self.wf(),
                c == self.job(),
                placed == lay@.count.dom(),
                rev@.len() == c.order.len(),
                k <= c.order.len(),
                set_items(need) == necessary_upto(c, placed, rev@, k as int),
            decreases c.order.len() - k,
        {
            let u: usize = self.order[k];
            let lvl: usize = self.level[k];
            proof {
                lemma_position(c, k as int);
                assert(c.order.contains(u));
                lemma_order(c);
            }
            if !(lay.is_placed(u) || rev[k] == FREE) {
                if lvl == 0 {
                    if set_contains(self.outs, u) {
                        set_insert(&mut need, u);
                    }
                } else if lvl == 1 {
                    set_insert(&mut need, u);
                } else {
                    proof {
                        let (a, b) = lemma_gate(c, u);
                        assert(c.drivers[u as int] == DriverType::AndGate(a, b));
                    }
                    if let DriverType::AndGate(a, b) = self.aig.drivers[u] {
                        if self.needs_input(lay, a) {
                            set_insert(&mut need, node_of(a));
                        }
                        if self.needs_input(lay, b) {
                            set_insert(&mut need, node_of(b));
                        }
                    }
                }
            }
            k += 1;
        }
        need
    }

    /// The node of level `lvl` that is still to be placed and farthest from the
    /// wanted nodes.
    pub fn farthest(&self, lay: &Layout, rev: &Vec<usize>, lvl: usize) -> (r: Option<usize>)
        requires
            self.wf(),
            rev@.len() == self.order@.len(),
        ensures
            ({
                let best = farthest(
                    self.job(),
                    lay@.count.dom(),
                    rev@,
                    lvl as int,
                    self.order@.len() as int,
                );
                match r {
                    Some(nd) => best >= 0 && nd == self.order@[best],
                    None => best < 0,
                }
            }),
    {
        let ghost c = self.job();
        let ghost placed = lay@.count.dom();
        let mut best: Option<usize> = None;
        let mut k: usize = 0;
        while k < self.order.len()
            invariant
                self.wf(),
                c == self.job(),
                placed == lay@.count.dom(),
                rev@.len() == c.order.len(),
                k <= c.order.len(),
                match best {
                    Some(p) => p < k && p == farthest(c, placed, rev@, lvl as int, k as int),
                    None => farthest(c, placed, rev@, lvl as int, k as int) < 0,
                },
            decreases c.order.len() - k,
        {
            if self.level[k] == lvl && !lay.is_placed(self.order[k]) && rev[k] != FREE {
                let better: bool = match best {
                    Some(p) => rev[p] < rev[k],
                    None => true,
                };
                if better {
                    best = Some(k);
                }
            }
            k += 1;
        }
        match best {
            Some(p) => Some(self.order[p]),
            None => None,
        }
    }
}

/// The order has every wanted node, and only nodes of the graph.
spec fn topo_facts(c: Job) -> bool {
    &&& c.order.len() <= usize::MAX
    &&& forall|i: int| 0 <= i < c.outs.len() ==> c.order.contains(#[trigger] c.outs[i])
}

} // verus!
