//! The cells of a stage in the making.
use crate::boomerang::{
    blank, first_free, row_len, taken, with_cell, Mapping, BOOMERANG_NUM_STAGES, FREE,
};
use crate::collections::{map_entries, map_get, map_insert, map_new, map_swap_remove};
use crate::mapping::{
    anc_ok, cell, counts_ok, in_tree, is_cell, lemma_free_counts, lemma_in_tree, lemma_mod_row,
    lemma_row0_counts, lemma_row_len, lemma_wide_rows, lowered, shape, tree_free,
};
use crate::seqs::lemma_tally_push;
use indexmap::IndexMap;
use vstd::prelude::*;

verus! {

/// The rows of cells behind nested vectors.
pub open spec fn rows(hier: Seq<Vec<usize>>) -> Seq<Seq<usize>> {
    hier.map_values(|row: Vec<usize>| row@)
}

/// The cells of a stage and how often each node occurs above row 0.
pub struct Layout {
    pub hier: Vec<Vec<usize>>,
    pub visited: IndexMap<usize, usize>,
}

impl View for Layout {
    type V = Mapping;

    open spec fn view(&self) -> Mapping {
        Mapping { hier: rows(self.hier@), count: map_entries(self.visited) }
    }
}

impl Layout {
    /// A layout without any node.
    pub fn new() -> (lay: Layout)
        ensures
            lay@ == blank(),
    {
        let mut hier: Vec<Vec<usize>> = Vec::new();
        let mut width: usize = 8192;
        let mut hi: usize = 0;
        proof {
            lemma_wide_rows();
        }
        while hi <= BOOMERANG_NUM_STAGES
            invariant
                hi <= BOOMERANG_NUM_STAGES + 1,
                hier@.len() == hi,
                hi <= BOOMERANG_NUM_STAGES ==> width == row_len(hi as int),
                forall|g: int| 0 <= g < hi ==> #[trigger] hier@[g]@ =~= blank().hier[g],
            decreases BOOMERANG_NUM_STAGES + 1 - hi,
        {
            proof {
                if hi < BOOMERANG_NUM_STAGES {
                    lemma_row_len(hi + 1);
                }
            }
            let row: Vec<usize> = vec![FREE; width];
            assert(row@ =~= blank().hier[hi as int]);
            hier.push(row);
            width = width / 2;
            hi += 1;
        }
        assert(rows(hier@) =~= blank().hier);
        Layout { hier, visited: map_new() }
    }

    /// Overwrites a cell.
    pub fn set_cell(&mut self, hi: usize, j: usize, nd: usize)
        requires
            shape(old(self)@.hier),
            is_cell(hi as int, j as int),
        ensures
            final(self)@ == (Mapping {
                hier: with_cell(old(self)@.hier, hi as int, j as int, nd),
                count: old(self)@.count,
            }),
            shape(final(self)@.hier),
    {
        let ghost h = rows(self.hier@);
        assert(h[hi as int] == self.hier@[hi as int]@);
        assert(h[hi as int].len() == row_len(hi as int));
        self.hier[hi][j] = nd;
        assert(rows(self.hier@) =~= with_cell(h, hi as int, j as int, nd));
    }

    /// The content of a cell.
    pub fn get(&self, hi: usize, j: usize) -> (nd: usize)
        requires
            shape(self@.hier),
            is_cell(hi as int, j as int),
        ensures
            nd == cell(self@.hier, hi as int, j as int),
    {
        assert(self@.hier[hi as int] == self.hier@[hi as int]@);
        assert(self@.hier[hi as int].len() == row_len(hi as int));
        self.hier[hi][j]
    }

    /// The width of a row.
    pub fn width(&self, hi: usize) -> (n: usize)
        requires
            shape(self@.hier),
            hi <= BOOMERANG_NUM_STAGES,
        ensures
            n == row_len(hi as int),
    {
        assert(self@.hier[hi as int] == self.hier@[hi as int]@);
        self.hier[hi].len()
    }

    /// Whether a node is placed above row 0.
    pub fn is_placed(&self, nd: usize) -> (r: bool)
        ensures
            r == self@.count.contains_key(nd),
    {
        map_get(&self.visited, nd).is_some()
    }

    /// The first free cell of a row from `from` on.
    pub fn first_free(&self, hi: usize, from: usize) -> (r: usize)
        requires
            shape(self@.hier),
            hi <= BOOMERANG_NUM_STAGES,
            from <= row_len(hi as int),
        ensures
            r == first_free(self@.hier[hi as int], from as int),
            from <= r <= row_len(hi as int),
    {
        let n: usize = self.width(hi);
        let mut i: usize = from;
        while i < n && self.get(hi, i) != FREE
            invariant
                shape(self@.hier),
                hi <= BOOMERANG_NUM_STAGES,
                n == row_len(hi as int),
                from <= i <= n,
                first_free(self@.hier[hi as int], from as int) == first_free(
                    self@.hier[hi as int],
                    i as int,
                ),
            decreases n - i,
        {
            assert(self@.hier[hi as int].len() == n);
            i += 1;
        }
        assert(self@.hier[hi as int].len() == n);
        i
    }

    /// The number of occupied cells among those from `from` up to `end` of a
    /// row.
    pub fn occupied(&self, hi: usize, from: usize, end: usize) -> (r: usize)
        requires
            shape(self@.hier),
            hi <= BOOMERANG_NUM_STAGES,
            from <= end <= row_len(hi as int),
        ensures
            r == taken(self@.hier[hi as int].subrange(from as int, end as int)),
            r <= end - from,
    {
        let ghost row = self@.hier[hi as int];
        let mut n: usize = 0;
        let mut i: usize = from;
        assert(row.subrange(from as int, from as int) =~= Seq::empty());
        while i < end
            invariant
                shape(self@.hier),
                hi <= BOOMERANG_NUM_STAGES,
                from <= i <= end <= row_len(hi as int),
                row == self@.hier[hi as int],
                n == taken(row.subrange(from as int, i as int)),
                n <= i - from,
            decreases end - i,
        {
            assert(row.subrange(from as int, i + 1) =~= row.subrange(from as int, i as int).push(
                row[i as int],
            ));
            proof {
                lemma_tally_push(
                    row.subrange(from as int, i as int),
                    |x: usize| x != FREE,
                    row[i as int],
                );
            }
            if self.get(hi, i) != FREE {
                n += 1;
            }
            i += 1;
        }
        n
    }

    /// Takes out what is placed below a cell, and what is in it.
    pub fn purge_bit(&mut self, hi: usize, j: usize)
        requires
            shape(old(self)@.hier),
            counts_ok(old(self)@),
            is_cell(hi as int, j as int),
            forall|g: int, i: int| #[trigger]
                in_tree(hi as int, j as int, g, i) ==> anc_ok(old(self)@.hier, hi as int, g, i),
        ensures
            shape(final(self)@.hier),
            counts_ok(final(self)@),
            tree_free(final(self)@.hier, hi as int, j as int),
            forall|g: int, i: int|
                is_cell(g, i) && !in_tree(hi as int, j as int, g, i) ==> #[trigger] cell(
                    final(self)@.hier,
                    g,
                    i,
                ) == cell(old(self)@.hier, g, i),
        decreases hi,
    {
        let ghost m = self@;
        let ghost n = row_len(hi as int) as int;
        proof {
            lemma_row_len(hi as int);
            vstd::arithmetic::div_mod::lemma_small_mod(j as nat, row_len(hi as int));
            assert(in_tree(hi as int, j as int, hi as int, j as int));
        }
        let nd: usize = self.get(hi, j);
        if nd == FREE {
            assert forall|g: int, i: int| #[trigger] in_tree(
                hi as int,
                j as int,
                g,
                i,
            ) implies cell(m.hier, g, i) == FREE by {
                assert(anc_ok(m.hier, hi as int, g, i));
                if cell(m.hier, g, i) != FREE {
                    assert(cell(m.hier, hi as int, i % (row_len(hi as int) as int)) != FREE);
                }
            }
            return;
        }
        self.set_cell(hi, j, FREE);
        if hi == 0 {
            proof {
                lemma_row0_counts(m, j as int, FREE);
                assert forall|g: int, i: int| #[trigger] in_tree(0, j as int, g, i) implies g == 0
                    && i == j by {
                    vstd::arithmetic::div_mod::lemma_small_mod(i as nat, row_len(0));
                }
            }
            return;
        }
        proof {
            lemma_free_counts(m, hi as int, j as int);
        }
        match map_get(&self.visited, nd) {
            Some(hvc) => {
                if hvc == 1 {
                    map_swap_remove(&mut self.visited, nd);
                } else {
                    map_insert(&mut self.visited, nd, hvc - 1);
                }
            },
            None => {},
        }
        let ghost m1 = self@;
        assert(m1.count == lowered(m.count, nd));
        assert(counts_ok(m1));
        let half: usize = self.width(hi);
        proof {
            assert forall|g: int, i: int| is_cell(g, i) && !(g == hi && i == j) implies #[trigger] cell(
                m1.hier,
                g,
                i,
            ) == cell(m.hier, g, i) by {}
            assert forall|jj: int, g: int, i: int|
                (jj == j || jj == j + n) && #[trigger] in_tree(hi - 1, jj, g, i) implies anc_ok(
                m1.hier,
                hi - 1,
                g,
                i,
            ) by {
                lemma_in_tree(hi as int, j as int, g, i);
                assert(in_tree(hi as int, j as int, g, i));
                assert(anc_ok(m.hier, hi as int, g, i));
                if cell(m1.hier, g, i) != FREE {
                    assert forall|h: int| g <= h <= hi - 1 implies #[trigger] cell(
                        m1.hier,
                        h,
                        i % (row_len(h) as int),
                    ) != FREE by {
                        lemma_row_len(h);
                        lemma_mod_row(i, h, h);
                        assert(cell(m.hier, h, i % (row_len(h) as int)) != FREE);
                    }
                }
            }
        }
        self.purge_bit(hi - 1, j);
        let ghost m2 = self@;
        proof {
            assert forall|g: int, i: int| #[trigger] in_tree(hi - 1, j + n, g, i) implies anc_ok(
                m2.hier,
                hi - 1,
                g,
                i,
            ) by {
                lemma_in_tree(hi as int, j as int, g, i);
                assert(anc_ok(m1.hier, hi - 1, g, i));
                assert(cell(m2.hier, g, i) == cell(m1.hier, g, i));
                if cell(m2.hier, g, i) != FREE {
                    assert forall|h: int| g <= h <= hi - 1 implies #[trigger] cell(
                        m2.hier,
                        h,
                        i % (row_len(h) as int),
                    ) != FREE by {
                        let p = i % (row_len(h) as int);
                        lemma_row_len(h);
                        lemma_mod_row(i, h, hi - 1);
                        assert(in_tree(hi - 1, j + n, h, p));
                        lemma_in_tree(hi as int, j as int, h, p);
                        assert(cell(m2.hier, h, p) == cell(m1.hier, h, p));
                    }
                }
            }
        }
        self.purge_bit(hi - 1, j + half);
        proof {
            let r = self@;
            assert forall|g: int, i: int| is_cell(g, i) && !in_tree(
                hi as int,
                j as int,
                g,
                i,
            ) implies #[trigger] cell(r.hier, g, i) == cell(m.hier, g, i) by {
                lemma_in_tree(hi as int, j as int, g, i);
                assert(cell(m2.hier, g, i) == cell(m1.hier, g, i));
            }
            assert forall|g: int, i: int| #[trigger] in_tree(
                hi as int,
                j as int,
                g,
                i,
            ) implies cell(r.hier, g, i) == FREE by {
                lemma_in_tree(hi as int, j as int, g, i);
                if g == hi && i == j {
                    assert(cell(m2.hier, g, i) == cell(m1.hier, g, i));
                    assert(cell(r.hier, g, i) == cell(m2.hier, g, i));
                } else if in_tree(hi - 1, j as int, g, i) {
                    assert(cell(r.hier, g, i) == cell(m2.hier, g, i));
                }
            }
        }
    }
}

} // verus!
