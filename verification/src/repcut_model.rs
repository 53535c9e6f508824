//! The hypergraph of endpoints and the logic that they share.
//!
//! Each node of the graph leads to a set of endpoints.  The nodes that lead to
//! the same endpoints, two at least, make up a hyperedge between these
//! endpoints, whose weight is the number of the nodes.
use crate::aig::{cone_order, DriverType};
use crate::random::chacha_draw;
use crate::segments::{keys_of, value_of, with_value};
use crate::staging::{inputs_of, EndpointGroup};
use vstd::prelude::*;

verus! {

/// The largest number of endpoints of a hyperedge.
pub const REPCUT_HYPERGRAPH_EDGE_SIZE_LIMIT: usize = 1000;

/// The number of endpoints that a bit set has room for.
pub const REPCUT_BITSET_BLOCK_SIZE: usize = 4096;

/// The number of words of a bit set.
pub const REPCUT_BITSET_WORDS: usize = 64;

/// The seed of the first hyperedge.
pub const REPCUT_EDGE_SEED: u64 = 8026727;

/// The graph and the endpoints.
pub struct Source {
    pub drivers: Seq<DriverType>,
    pub sources: Set<usize>,
    pub groups: Seq<EndpointGroup>,
    pub fanouts_start: Seq<usize>,
    pub fanouts: Seq<usize>,
}

/// The number of blocks of endpoints.
pub open spec fn num_blocks(n: int) -> int {
    (n + REPCUT_BITSET_BLOCK_SIZE - 1) / (REPCUT_BITSET_BLOCK_SIZE as int)
}

/// The first endpoint behind block `b`.
pub open spec fn block_end(n: int, b: int) -> int {
    let e = (b + 1) * REPCUT_BITSET_BLOCK_SIZE;
    if e <= n {
        e
    } else {
        n
    }
}

/// The endpoints from `st` up to `ed`.
pub open spec fn range_ids(st: int, ed: int) -> Seq<usize> {
    Seq::new((ed - st) as nat, |i: int| (st + i) as usize)
}

/// A bit set without members.
pub open spec fn no_bits() -> Seq<u64> {
    Seq::new(REPCUT_BITSET_WORDS as nat, |i: int| 0u64)
}

/// The bit set with `t` added.
pub open spec fn with_bit(s: Seq<u64>, t: int) -> Seq<u64> {
    s.update(t / 64, s[t / 64] | (1u64 << ((t % 64) as u64)))
}

/// Whether `t` is in the bit set.
pub open spec fn has_bit(s: Seq<u64>, t: int) -> bool {
    (s[t / 64] >> ((t % 64) as u64)) & 1 != 0
}

/// The union of two bit sets.
pub open spec fn or_words(a: Seq<u64>, b: Seq<u64>) -> Seq<u64> {
    Seq::new(REPCUT_BITSET_WORDS as nat, |i: int| a[i] | b[i])
}

/// `s` with `t` added for each of the first `n` inputs that is `node`.
pub open spec fn mark_inputs(
    s: Seq<u64>,
    inputs: Seq<usize>,
    node: usize,
    t: int,
    n: int,
) -> Seq<u64>
    decreases n,
{
    if n <= 0 {
        s
    } else if inputs[n - 1] == node {
        with_bit(mark_inputs(s, inputs, node, t, n - 1), t)
    } else {
        mark_inputs(s, inputs, node, t, n - 1)
    }
}

/// The endpoints from `st` up to `e` that read `node`, counted from `st`.
pub open spec fn readers(groups: Seq<EndpointGroup>, st: int, e: int, node: usize) -> Seq<u64>
    decreases e - st,
{
    if e <= st {
        no_bits()
    } else {
        mark_inputs(
            readers(groups, st, e - 1, node),
            groups[e - 1].inputs@,
            node,
            e - 1 - st,
            groups[e - 1].inputs@.len() as int,
        )
    }
}

/// `s` with the bit sets of the gates `fan[fs]` to `fan[fe - 1]` added, as far
/// as they have one.
pub open spec fn with_fanouts(
    s: Seq<u64>,
    segs: Seq<Option<Seq<u64>>>,
    fan: Seq<usize>,
    fs: int,
    fe: int,
) -> Seq<u64>
    decreases fe - fs,
{
    if fe <= fs {
        s
    } else {
        let t = with_fanouts(s, segs, fan, fs, fe - 1);
        match segs[fan[fe - 1] as int] {
            Some(w) => or_words(t, w),
            None => t,
        }
    }
}

/// The bit set of each node that stands at position `k` or behind it: the
/// endpoints that read it, and those of the gates behind it that it feeds.
pub open spec fn segs_from(src: Source, order: Seq<usize>, st: int, ed: int, k: int) -> Seq<
    Option<Seq<u64>>,
>
    decreases order.len() - k,
{
    if k >= order.len() {
        Seq::new(src.drivers.len(), |i: int| None)
    } else {
        let segs = segs_from(src, order, st, ed, k + 1);
        let u = order[k];
        segs.update(
            u as int,
            Some(
                with_fanouts(
                    readers(src.groups, st, ed, u),
                    segs,
                    src.fanouts,
                    src.fanouts_start[u as int] as int,
                    src.fanouts_start[u + 1] as int,
                ),
            ),
        )
    }
}

/// The nodes that the endpoints from `st` up to `ed` depend on.
pub open spec fn block_order(src: Source, st: int, ed: int) -> Seq<usize> {
    cone_order(src.drivers, src.sources, inputs_of(src.groups, range_ids(st, ed)))
}

/// The bit sets of the nodes in block `b`.
pub open spec fn block_segs(src: Source, b: int) -> Seq<Option<Seq<u64>>> {
    let st = b * REPCUT_BITSET_BLOCK_SIZE;
    let ed = block_end(src.groups.len() as int, b);
    segs_from(src, block_order(src, st, ed), st, ed, 0)
}

/// The endpoints of a node, block by block.
pub open spec fn node_set(src: Source, u: int) -> Seq<Option<Seq<u64>>> {
    Seq::new(num_blocks(src.groups.len() as int) as nat, |b: int| block_segs(src, b)[u])
}

/// The number of bits among the lowest `n` that are set.
pub open spec fn ones_upto(x: u64, n: int) -> nat
    decreases n,
{
    if n <= 0 {
        0
    } else {
        ones_upto(x, n - 1) + (if (x >> ((n - 1) as u64)) & 1 != 0 {
            1nat
        } else {
            0nat
        })
    }
}

/// The number of members that the first `n` words of a bit set have.
pub open spec fn ones_in_words(s: Seq<u64>, n: int) -> nat
    decreases n,
{
    if n <= 0 {
        0
    } else {
        ones_in_words(s, n - 1) + ones_upto(s[n - 1], 64)
    }
}

/// The number of endpoints in the first `n` blocks of a set.
pub open spec fn popcount_upto(s: Seq<Option<Seq<u64>>>, n: int) -> nat
    decreases n,
{
    if n <= 0 {
        0
    } else {
        popcount_upto(s, n - 1) + match s[n - 1] {
            Some(w) => ones_in_words(w, w.len() as int),
            None => 0,
        }
    }
}

/// The number of endpoints in a set.
pub open spec fn popcount(s: Seq<Option<Seq<u64>>>) -> nat {
    popcount_upto(s, s.len() as int)
}

/// The entries with one more node for a set of endpoints.
pub open spec fn counted(
    cs: Seq<(Seq<Option<Seq<u64>>>, usize)>,
    k: Seq<Option<Seq<u64>>>,
) -> Seq<(Seq<Option<Seq<u64>>>, usize)> {
    with_value(
        cs,
        k,
        match value_of(cs, k) {
            Some(n) => (n + 1) as usize,
            None => 1,
        },
    )
}

/// The sets of two endpoints or more of the nodes from 1 up to `n`, and how
/// many nodes have each.
pub open spec fn classes_upto(src: Source, n: int) -> Seq<(Seq<Option<Seq<u64>>>, usize)>
    decreases n,
{
    if n <= 1 {
        Seq::empty()
    } else {
        let cs = classes_upto(src, n - 1);
        let k = node_set(src, n - 1);
        if popcount(k) >= 2 {
            counted(cs, k)
        } else {
            cs
        }
    }
}

/// The graph lists for each node the gates that it feeds.
pub open spec fn fanouts_ok(src: Source) -> bool {
    &&& src.fanouts_start.len() == src.drivers.len() + 1
    &&& forall|i: int|
        0 <= i < src.drivers.len() ==> #[trigger] src.fanouts_start[i] <= src.fanouts_start[i + 1]
    &&& forall|i: int|
        0 <= i < src.fanouts_start.len() ==> #[trigger] src.fanouts_start[i] <= src.fanouts.len()
    &&& forall|f: int| 0 <= f < src.fanouts.len() ==> #[trigger] src.fanouts[f] < src.drivers.len()
}

/// Marking endpoints keeps the number of words.
pub proof fn lemma_mark_len(s: Seq<u64>, inputs: Seq<usize>, node: usize, t: int, n: int)
    requires
        s.len() == REPCUT_BITSET_WORDS,
        0 <= t < REPCUT_BITSET_BLOCK_SIZE,
    ensures
        mark_inputs(s, inputs, node, t, n).len() == s.len(),
    decreases n,
{
    if n > 0 {
        lemma_mark_len(s, inputs, node, t, n - 1);
    }
}

/// The readers of a node take the words of a block.
pub proof fn lemma_readers_len(groups: Seq<EndpointGroup>, st: int, e: int, node: usize)
    requires
        e - st <= REPCUT_BITSET_BLOCK_SIZE,
    ensures
        readers(groups, st, e, node).len() == REPCUT_BITSET_WORDS,
    decreases e - st,
{
    if e > st {
        lemma_readers_len(groups, st, e - 1, node);
        lemma_mark_len(
            readers(groups, st, e - 1, node),
            groups[e - 1].inputs@,
            node,
            e - 1 - st,
            groups[e - 1].inputs@.len() as int,
        );
    }
}

/// Adding what gates lead to keeps the number of words.
pub proof fn lemma_with_fanouts_len(
    s: Seq<u64>,
    segs: Seq<Option<Seq<u64>>>,
    fan: Seq<usize>,
    fs: int,
    fe: int,
)
    requires
        s.len() == REPCUT_BITSET_WORDS,
    ensures
        with_fanouts(s, segs, fan, fs, fe).len() == REPCUT_BITSET_WORDS,
    decreases fe - fs,
{
    if fe > fs {
        lemma_with_fanouts_len(s, segs, fan, fs, fe - 1);
    }
}

/// Every bit set has its words.
pub open spec fn full_words(segs: Seq<Option<Seq<u64>>>) -> bool {
    forall|u: int|
        0 <= u < segs.len() ==> (#[trigger] segs[u] matches Some(w) ==> w.len()
            == REPCUT_BITSET_WORDS)
}

/// Every bit set has the words of a block.
pub proof fn lemma_segs_full(src: Source, order: Seq<usize>, st: int, ed: int, k: int)
    requires
        0 <= k,
        ed - st <= REPCUT_BITSET_BLOCK_SIZE,
        forall|i: int| 0 <= i < order.len() ==> #[trigger] order[i] < src.drivers.len(),
    ensures
        segs_from(src, order, st, ed, k).len() == src.drivers.len(),
        full_words(segs_from(src, order, st, ed, k)),
    decreases order.len() - k,
{
    if k < order.len() {
        lemma_segs_full(src, order, st, ed, k + 1);
        let segs = segs_from(src, order, st, ed, k + 1);
        let u = order[k];
        lemma_readers_len(src.groups, st, ed, u);
        lemma_with_fanouts_len(
            readers(src.groups, st, ed, u),
            segs,
            src.fanouts,
            src.fanouts_start[u as int] as int,
            src.fanouts_start[u + 1] as int,
        );
    }
}

/// No more nodes are counted than there are.
pub proof fn lemma_counts(src: Source, n: int)
    requires
        0 <= n <= usize::MAX,
    ensures
        forall|i: int|
            0 <= i < classes_upto(src, n).len() ==> (#[trigger] classes_upto(src, n)[i]).1 <= n,
    decreases n,
{
    if n > 1 {
        lemma_counts(src, n - 1);
        let cs = classes_upto(src, n - 1);
        let k = node_set(src, n - 1);
        if popcount(k) >= 2 && keys_of(cs).contains(k) {
            let i = keys_of(cs).index_of(k);
            assert(cs[i].1 <= n - 1);
        }
    }
}

/// A hyperedge in the making: its endpoints, how many were offered, and how far
/// the random numbers are used up.
pub struct Sampled {
    pub ends: Seq<usize>,
    pub offered: nat,
    pub pos: u128,
}

/// A hyperedge without endpoints.
pub open spec fn no_sample() -> Sampled {
    Sampled { ends: Seq::empty(), offered: 0, pos: 0 }
}

/// `ends` with the entry at `w` replaced, if there is one.
pub open spec fn replaced(ends: Seq<usize>, w: int, nd: usize) -> Seq<usize> {
    Seq::new(
        ends.len(),
        |i: int|
            if i == w {
                nd
            } else {
                ends[i]
            },
    )
}

/// The hyperedge after endpoint `nd` was offered.  As long as there is room it
/// is taken; then it takes the place of another one, at random and the more
/// rarely the more were offered.
pub open spec fn sampled(e: Sampled, seed: u64, nd: usize) -> Sampled {
    let offered = e.offered + 1;
    if e.ends.len() < REPCUT_HYPERGRAPH_EDGE_SIZE_LIMIT {
        Sampled { ends: e.ends.push(nd), offered, pos: e.pos }
    } else {
        let (v, p) = chacha_draw(seed, e.pos, e.offered as u64);
        if v < REPCUT_HYPERGRAPH_EDGE_SIZE_LIMIT {
            let (w, q) = chacha_draw(seed, p, REPCUT_HYPERGRAPH_EDGE_SIZE_LIMIT as u64);
            Sampled { ends: replaced(e.ends, w as int, nd), offered, pos: q }
        } else {
            Sampled { ends: e.ends, offered, pos: p }
        }
    }
}

/// The hyperedge after the first `n` members of a bit set were offered, whose
/// first is endpoint `base`.
pub open spec fn sample_bits(
    e: Sampled,
    seed: u64,
    words: Seq<u64>,
    base: int,
    n: int,
) -> Sampled
    decreases n,
{
    if n <= 0 {
        e
    } else {
        let s = sample_bits(e, seed, words, base, n - 1);
        if has_bit(words, n - 1) {
            sampled(s, seed, (base + n - 1) as usize)
        } else {
            s
        }
    }
}

/// The hyperedge after the first `n` blocks of a set were offered.
pub open spec fn sample_blocks(seed: u64, set: Seq<Option<Seq<u64>>>, n: int) -> Sampled
    decreases n,
{
    if n <= 0 {
        no_sample()
    } else {
        let s = sample_blocks(seed, set, n - 1);
        match set[n - 1] {
            Some(w) => sample_bits(
                s,
                seed,
                w,
                (n - 1) * REPCUT_BITSET_BLOCK_SIZE,
                REPCUT_BITSET_BLOCK_SIZE as int,
            ),
            None => s,
        }
    }
}

/// The hyperedge of the `i`-th entry.
pub open spec fn edge_of(cs: Seq<(Seq<Option<Seq<u64>>>, usize)>, i: int) -> (usize, Seq<usize>) {
    let seed = REPCUT_EDGE_SEED.wrapping_add(i as u64);
    (cs[i].1, sample_blocks(seed, cs[i].0, cs[i].0.len() as int).ends)
}

/// All hyperedges.
pub open spec fn edges_of(cs: Seq<(Seq<Option<Seq<u64>>>, usize)>) -> Seq<(usize, Seq<usize>)> {
    Seq::new(cs.len(), |i: int| edge_of(cs, i))
}

} // verus!
