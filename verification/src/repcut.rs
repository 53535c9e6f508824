//! RepCut: endpoints that share logic are kept together.
use crate::aig::{stop_set, AIG};
use crate::aig::{cone_order_is_topological, topological};
use crate::random::draw;
use crate::repcut_model::{
    block_end, block_order, block_segs, classes_upto, counted, edge_of, edges_of, fanouts_ok,
    full_words, lemma_counts, lemma_readers_len, lemma_segs_full, mark_inputs, no_bits, no_sample,
    node_set, num_blocks, ones_in_words, ones_upto, or_words, popcount, popcount_upto, range_ids,
    readers, replaced, sample_bits, sample_blocks, sampled, segs_from, with_bit, with_fanouts,
    Sampled, Source, REPCUT_BITSET_BLOCK_SIZE, REPCUT_BITSET_WORDS, REPCUT_EDGE_SEED,
    REPCUT_HYPERGRAPH_EDGE_SIZE_LIMIT,
};
use crate::decimal::{append_number, decimal};
use crate::parallel::par_map;
use crate::segments::{
    class_entries, classes_at, classes_get, classes_insert, classes_len, classes_new,
    endpoint_set_new, keys_of, segment_clone, segment_new, segment_read, segment_set_at,
    segment_set_insert, segment_set_new, segment_words, set_segments, words_of,
};
use crate::staging::{ids_ok, inputs_of, lemma_inputs_in_range, EndpointGroup, StagedAIG};
use cachedhash::CachedHash;
use indexmap::IndexMap;
use indexmap::IndexSet;
use std::collections::HashMap;
use std::sync::Arc;
use vstd::prelude::*;
use vstd::string::StringExecFns;

verus! {

/// `u64::count_ones`: the number of bits that are set.
pub assume_specification[ u64::count_ones ](x: u64) -> (n: u32)
    ensures
        n == ones_upto(x, 64),
;

/// What the hypergraph is made of.
pub open spec fn source(aig: AIG, staged: StagedAIG) -> Source {
    Source {
        drivers: aig.drivers@,
        sources: staged.sources(),
        groups: staged.endpoints@,
        fanouts_start: aig.fanouts_start@,
        fanouts: aig.fanouts@,
    }
}

/// The bit set of a node in a table that leaves empty ones out.
spec fn bits_for(m: Map<usize, Vec<u64>>, node: usize) -> Seq<u64> {
    if m.contains_key(node) {
        m[node]@
    } else {
        no_bits()
    }
}

/// The bit sets of a table have their words.
spec fn full_table(m: Map<usize, Vec<u64>>) -> bool {
    forall|node: usize| #[trigger]
        m.contains_key(node) ==> m[node]@.len() == REPCUT_BITSET_WORDS
}

/// A bit set without members.
fn empty_bits() -> (s: Vec<u64>)
    ensures
        s@ == no_bits(),
{
    let s: Vec<u64> = vec![0u64; REPCUT_BITSET_WORDS];
    assert(s@ =~= no_bits());
    s
}

/// Adds endpoint `t` to the bit set of a node.
fn mark(table: &mut HashMap<usize, Vec<u64>>, node: usize, t: usize)
    requires
        t < REPCUT_BITSET_BLOCK_SIZE,
        full_table(old(table)@),
    ensures
        full_table(final(table)@),
        bits_for(final(table)@, node) == with_bit(bits_for(old(table)@, node), t as int),
        forall|x: usize|
            x != node ==> #[trigger] bits_for(final(table)@, x) == bits_for(old(table)@, x),
{
    broadcast use vstd::std_specs::hash::group_hash_axioms;

    let mut bits: Vec<u64> = match table.remove(&node) {
        Some(bits) => bits,
        None => empty_bits(),
    };
    assert(bits@ =~= bits_for(old(table)@, node));
    let w: u64 = bits[t / 64] | (1u64 << ((t % 64) as u64));
    bits[t / 64] = w;
    assert(bits@ =~= with_bit(bits_for(old(table)@, node), t as int));
    table.insert(node, bits);
    assert forall|x: usize| x != node implies #[trigger] bits_for(table@, x) == bits_for(
        old(table)@,
        x,
    ) by {
        assert(table@.contains_key(x) == old(table)@.contains_key(x));
    }
}

/// The endpoints from `st` up to `ed` that read each node.
fn read_bits(staged: &StagedAIG, st: usize, ed: usize) -> (table: HashMap<usize, Vec<u64>>)
    requires
        st <= ed <= staged.endpoints@.len(),
        ed - st <= REPCUT_BITSET_BLOCK_SIZE,
    ensures
        full_table(table@),
        forall|x: usize| #[trigger]
            bits_for(table@, x) == readers(staged.endpoints@, st as int, ed as int, x),
{
    broadcast use vstd::std_specs::hash::group_hash_axioms;

    let ghost groups = staged.endpoints@;
    let mut table: HashMap<usize, Vec<u64>> = HashMap::new();
    let mut e: usize = st;
    while e < ed
        invariant
            groups == staged.endpoints@,
            st <= e <= ed <= groups.len(),
            ed - st <= REPCUT_BITSET_BLOCK_SIZE,
            full_table(table@),
            forall|x: usize| #[trigger]
                bits_for(table@, x) == readers(groups, st as int, e as int, x),
        decreases ed - e,
    {
        let edg: &EndpointGroup = staged.get_endpoint_group(e);
        let ghost inputs = edg.inputs@;
        let mut i: usize = 0;
        while i < edg.inputs.len()
            invariant
                groups == staged.endpoints@,
                st <= e < ed <= groups.len(),
                ed - st <= REPCUT_BITSET_BLOCK_SIZE,
                inputs == edg.inputs@,
                i <= inputs.len(),
                full_table(table@),
                forall|x: usize| #[trigger]
                    bits_for(table@, x) == mark_inputs(
                        readers(groups, st as int, e as int, x),
                        inputs,
                        x,
                        e - st,
                        i as int,
                    ),
            decreases inputs.len() - i,
        {
            mark(&mut table, edg.inputs[i], e - st);
            i += 1;
        }
        e += 1;
    }
    table
}

/// Adds the members of a bit set to another one.
fn join(bits: &mut Vec<u64>, other: &Vec<u64>)
    requires
        old(bits)@.len() == REPCUT_BITSET_WORDS,
        other@.len() == REPCUT_BITSET_WORDS,
    ensures
        final(bits)@ == or_words(old(bits)@, other@),
{
    let ghost start = bits@;
    let mut k: usize = 0;
    while k < REPCUT_BITSET_WORDS
        invariant
            k <= REPCUT_BITSET_WORDS,
            bits@.len() == REPCUT_BITSET_WORDS,
            other@.len() == REPCUT_BITSET_WORDS,
            forall|i: int| 0 <= i < k ==> #[trigger] bits@[i] == start[i] | other@[i],
            forall|i: int| k <= i < REPCUT_BITSET_WORDS ==> #[trigger] bits@[i] == start[i],
        decreases REPCUT_BITSET_WORDS - k,
    {
        let w: u64 = bits[k] | other[k];
        bits[k] = w;
        k += 1;
    }
    assert(bits@ =~= or_words(start, other@));
}

/// The bit sets of the nodes that the endpoints from `st` up to `ed` depend on.
fn block_segments(aig: &AIG, staged: &StagedAIG, st: usize, ed: usize) -> (segs: Vec<
    Option<Arc<CachedHash<Vec<u64>>>>,
>)
    requires
        staged.wf(*aig),
        fanouts_ok(source(*aig, *staged)),
        st <= ed <= staged.endpoints@.len(),
        ed - st <= REPCUT_BITSET_BLOCK_SIZE,
    ensures
        words_of(segs@) == segs_from(
            source(*aig, *staged),
            block_order(source(*aig, *staged), st as int, ed as int),
            st as int,
            ed as int,
            0,
        ),
{
    let ghost src = source(*aig, *staged);
    let ids: Vec<usize> = index_range(st, ed);
    assert(ids_ok(staged.endpoints@, ids@));
    let mut pins: Vec<usize> = Vec::new();
    staged.collect_inputs(&ids, &mut pins);
    assert(pins@ =~= inputs_of(src.groups, range_ids(st as int, ed as int)));
    proof {
        lemma_inputs_in_range(src.drivers, src.groups, ids@);
    }
    let stops: Option<&IndexSet<usize>> = match &staged.primary_inputs {
        Some(s) => Some(s),
        None => None,
    };
    assert(stop_set(stops) =~= src.sources);
    let order: Vec<usize> = aig.topo_traverse_generic(&pins, stops);
    assert(order@ == block_order(src, st as int, ed as int));
    proof {
        cone_order_is_topological(src.drivers, src.sources, pins@);
        assert(topological(src.drivers, src.sources, order@));
    }
    let table: HashMap<usize, Vec<u64>> = read_bits(staged, st, ed);
    fold_segments(aig, staged, st, ed, &order, table)
}

/// The indices from `st` up to `ed`.
fn index_range(st: usize, ed: usize) -> (v: Vec<usize>)
    requires
        st <= ed,
    ensures
        v@ == range_ids(st as int, ed as int),
{
    let mut v: Vec<usize> = Vec::new();
    let mut i: usize = st;
    while i < ed
        invariant
            st <= i <= ed,
            v@ == range_ids(st as int, i as int),
        decreases ed - i,
    {
        v.push(i);
        i += 1;
        assert(v@ =~= range_ids(st as int, i as int));
    }
    v
}

/// Hands the bit sets on from the last node of an order to the first.
fn fold_segments(
    aig: &AIG,
    staged: &StagedAIG,
    st: usize,
    ed: usize,
    order: &Vec<usize>,
    readers_of: HashMap<usize, Vec<u64>>,
) -> (segs: Vec<Option<Arc<CachedHash<Vec<u64>>>>>)
    requires
        fanouts_ok(source(*aig, *staged)),
        ed - st <= REPCUT_BITSET_BLOCK_SIZE,
        forall|i: int| 0 <= i < order@.len() ==> #[trigger] order@[i] < aig.drivers@.len(),
        order@.no_duplicates(),
        full_table(readers_of@),
        forall|x: usize| #[trigger]
            bits_for(readers_of@, x) == readers(staged.endpoints@, st as int, ed as int, x),
    ensures
        words_of(segs@) == segs_from(source(*aig, *staged), order@, st as int, ed as int, 0),
{
    broadcast use vstd::std_specs::hash::group_hash_axioms;

    let ghost src = source(*aig, *staged);
    let ghost full = readers_of@;
    let mut table: HashMap<usize, Vec<u64>> = readers_of;
    let n: usize = aig.drivers.len();
    let mut segs: Vec<Option<Arc<CachedHash<Vec<u64>>>>> = Vec::new();
    let mut i: usize = 0;
    while i < n
        invariant
            i <= n,
            segs@.len() == i,
            forall|u: int| 0 <= u < i ==> #[trigger] segs@[u] is None,
        decreases n - i,
    {
        segs.push(None);
        i += 1;
    }
    let mut unique: IndexSet<Arc<CachedHash<Vec<u64>>>> = segment_set_new();
    let mut k: usize = order.len();
    assert(words_of(segs@) =~= segs_from(src, order@, st as int, ed as int, k as int));
    while k > 0
        invariant
            src == source(*aig, *staged),
            fanouts_ok(src),
            ed - st <= REPCUT_BITSET_BLOCK_SIZE,
            n == src.drivers.len(),
            segs@.len() == n,
            k <= order@.len(),
            forall|i: int| 0 <= i < order@.len() ==> #[trigger] order@[i] < n,
            order@.no_duplicates(),
            full_table(full),
            forall|x: usize| #[trigger]
                bits_for(full, x) == readers(src.groups, st as int, ed as int, x),
            full_table(table@),
            forall|q: int|
                0 <= q < k ==> bits_for(table@, #[trigger] order@[q]) == bits_for(full, order@[q]),
            words_of(segs@) == segs_from(src, order@, st as int, ed as int, k as int),
        decreases k,
    {
        k -= 1;
        let u: usize = order[k];
        let ghost before = words_of(segs@);
        let mut bits: Vec<u64> = match table.remove(&u) {
            Some(bits) => bits,
            None => empty_bits(),
        };
        proof {
            lemma_segs_full(src, order@, st as int, ed as int, k + 1);
            lemma_readers_len(src.groups, st as int, ed as int, u);
            assert(bits_for(full, order@[k as int]) == readers(
                src.groups,
                st as int,
                ed as int,
                u,
            ));
            assert forall|q: int| 0 <= q < k implies bits_for(table@, #[trigger] order@[q])
                == bits_for(full, order@[q]) by {
                assert(order@[q] != order@[k as int]);
            }
        }
        let ghost start = bits@;
        assert(start == readers(src.groups, st as int, ed as int, u));
        let fs: usize = aig.fanouts_start[u];
        let fe: usize = aig.fanouts_start[u + 1];
        let mut f: usize = fs;
        while f < fe
            invariant
                src == source(*aig, *staged),
                fanouts_ok(src),
                n == src.drivers.len(),
                segs@.len() == n,
                fs <= f <= fe <= src.fanouts.len(),
                before == words_of(segs@),
                full_words(before),
                bits@.len() == REPCUT_BITSET_WORDS,
                bits@ == with_fanouts(start, before, src.fanouts, fs as int, f as int),
            decreases fe - f,
        {
            let j: usize = aig.fanouts[f];
            assert(src.fanouts[f as int] == j);
            assert(before[j as int] == words_of(segs@)[j as int]);
            if let Some(seg) = &segs[j] {
                let other: &Vec<u64> = segment_read(seg);
                assert(before[j as int] == Some(other@));
                join(&mut bits, other);
            }
            f += 1;
        }
        let at: usize = segment_set_insert(&mut unique, segment_new(bits));
        let seg: Arc<CachedHash<Vec<u64>>> = segment_set_at(&unique, at);
        assert(segment_words(seg) == bits@);
        segs[u] = Some(seg);
        assert(words_of(segs@) =~= before.update(u as int, Some(bits@)));
    }
    segs
}

/// A word has no more ones than bits.
proof fn lemma_ones_bound(x: u64, n: int)
    requires
        0 <= n,
    ensures
        ones_upto(x, n) <= n,
    decreases n,
{
    if n > 0 {
        lemma_ones_bound(x, n - 1);
    }
}

/// The number of members of a bit set.
fn count_bits(words: &Vec<u64>) -> (n: usize)
    requires
        words@.len() == REPCUT_BITSET_WORDS,
    ensures
        n == ones_in_words(words@, words@.len() as int),
        n <= REPCUT_BITSET_BLOCK_SIZE,
{
    let mut n: usize = 0;
    let mut i: usize = 0;
    while i < words.len()
        invariant
            words@.len() == REPCUT_BITSET_WORDS,
            i <= words@.len(),
            n == ones_in_words(words@, i as int),
            n <= 64 * i,
        decreases words@.len() - i,
    {
        proof {
            lemma_ones_bound(words@[i as int], 64);
        }
        n = n + words[i].count_ones() as usize;
        i += 1;
    }
    n
}

/// The number of endpoints in a set.
fn count_endpoints(set: &Vec<Option<Arc<CachedHash<Vec<u64>>>>>) -> (n: usize)
    requires
        full_words(words_of(set@)),
        set@.len() * REPCUT_BITSET_BLOCK_SIZE <= usize::MAX,
    ensures
        n == popcount(words_of(set@)),
{
    let ghost s = words_of(set@);
    let mut n: usize = 0;
    let mut b: usize = 0;
    while b < set.len()
        invariant
            s == words_of(set@),
            full_words(s),
            set@.len() * REPCUT_BITSET_BLOCK_SIZE <= usize::MAX,
            b <= set@.len(),
            n == popcount_upto(s, b as int),
            n <= b * REPCUT_BITSET_BLOCK_SIZE,
        decreases set@.len() - b,
    {
        assert(s[b as int] == words_of(set@)[b as int]);
        if let Some(seg) = &set[b] {
            let words: &Vec<u64> = segment_read(seg);
            assert(s[b as int] == Some(words@));
            n = n + count_bits(words);
        }
        b += 1;
    }
    n
}

/// A hyperedge in the making.
struct Sampler {
    ends: Vec<usize>,
    offered: usize,
    pos: u128,
}

impl Sampler {
    spec fn sample(&self) -> Sampled {
        Sampled { ends: self.ends@, offered: self.offered as nat, pos: self.pos }
    }

    spec fn wf(&self) -> bool {
        self.ends@.len() <= self.offered && self.ends@.len() <= REPCUT_HYPERGRAPH_EDGE_SIZE_LIMIT
    }

    /// Offers an endpoint.
    fn offer(&mut self, seed: u64, nd: usize)
        requires
            old(self).wf(),
            old(self).offered < usize::MAX,
        ensures
            final(self).wf(),
            final(self).sample() == sampled(old(self).sample(), seed, nd),
    {
        if self.ends.len() < REPCUT_HYPERGRAPH_EDGE_SIZE_LIMIT {
            self.ends.push(nd);
        } else {
            let (v, p) = draw(seed, self.pos, self.offered as u64);
            self.pos = p;
            if v < REPCUT_HYPERGRAPH_EDGE_SIZE_LIMIT as u64 {
                let (w, q) = draw(seed, self.pos, REPCUT_HYPERGRAPH_EDGE_SIZE_LIMIT as u64);
                self.pos = q;
                let ghost before = self.ends@;
                self.ends[w as usize] = nd;
                assert(self.ends@ =~= replaced(before, w as int, nd));
            }
        }
        self.offered += 1;
    }

    /// Offers the members of a bit set, whose first is endpoint `base`.
    fn offer_bits(&mut self, seed: u64, words: &Vec<u64>, base: usize)
        requires
            old(self).wf(),
            words@.len() == REPCUT_BITSET_WORDS,
            base + REPCUT_BITSET_BLOCK_SIZE <= usize::MAX,
            old(self).offered <= base,
        ensures
            final(self).wf(),
            final(self).offered <= base + REPCUT_BITSET_BLOCK_SIZE,
            final(self).sample() == sample_bits(
                old(self).sample(),
                seed,
                words@,
                base as int,
                REPCUT_BITSET_BLOCK_SIZE as int,
            ),
    {
        let ghost start = self.sample();
        let mut i: usize = 0;
        while i < REPCUT_BITSET_WORDS
            invariant
                self.wf(),
                words@.len() == REPCUT_BITSET_WORDS,
                base + REPCUT_BITSET_BLOCK_SIZE <= usize::MAX,
                i <= REPCUT_BITSET_WORDS,
                self.offered <= base + i * 64,
                self.sample() == sample_bits(start, seed, words@, base as int, i * 64),
            decreases REPCUT_BITSET_WORDS - i,
        {
            let word: u64 = words[i];
            if word == 0 {
                proof {
                    lemma_zero_word(start, seed, words@, base as int, i as int, 64);
                }
            } else {
                let mut k: usize = 0;
                while k < 64
                    invariant
                        self.wf(),
                        words@.len() == REPCUT_BITSET_WORDS,
                        base + REPCUT_BITSET_BLOCK_SIZE <= usize::MAX,
                        i < REPCUT_BITSET_WORDS,
                        word == words@[i as int],
                        k <= 64,
                        self.offered <= base + i * 64 + k,
                        self.sample() == sample_bits(
                            start,
                            seed,
                            words@,
                            base as int,
                            i * 64 + k,
                        ),
                    decreases 64 - k,
                {
                    let ghost t = i * 64 + k;
                    assert(t / 64 == i && t % 64 == k);
                    if (word >> (k as u64)) & 1 != 0 {
                        self.offer(seed, base + i * 64 + k);
                    }
                    k += 1;
                }
            }
            i += 1;
        }
    }
}

/// A word without members offers nothing.
proof fn lemma_zero_word(e: Sampled, seed: u64, words: Seq<u64>, base: int, i: int, k: int)
    requires
        0 <= i < words.len(),
        words[i] == 0,
        0 <= k <= 64,
    ensures
        sample_bits(e, seed, words, base, i * 64 + k) == sample_bits(
            e,
            seed,
            words,
            base,
            i * 64,
        ),
    decreases k,
{
    if k > 0 {
        lemma_zero_word(e, seed, words, base, i, k - 1);
        let t = i * 64 + k - 1;
        assert(t / 64 == i && t % 64 == k - 1);
        let sh = (k - 1) as u64;
        assert((0u64 >> sh) & 1 == 0) by (bit_vector);
    }
}

/// The endpoints of a hyperedge.
fn sample_edge(set: &Vec<Option<Arc<CachedHash<Vec<u64>>>>>, seed: u64) -> (ends: Vec<usize>)
    requires
        full_words(words_of(set@)),
        set@.len() * REPCUT_BITSET_BLOCK_SIZE <= usize::MAX,
    ensures
        ends@ == sample_blocks(seed, words_of(set@), set@.len() as int).ends,
{
    let ghost s = words_of(set@);
    let mut sampler: Sampler = Sampler { ends: Vec::new(), offered: 0, pos: 0 };
    assert(sampler.sample() == no_sample());
    let mut b: usize = 0;
    while b < set.len()
        invariant
            s == words_of(set@),
            full_words(s),
            set@.len() * REPCUT_BITSET_BLOCK_SIZE <= usize::MAX,
            b <= set@.len(),
            sampler.wf(),
            sampler.offered <= b * REPCUT_BITSET_BLOCK_SIZE,
            sampler.sample() == sample_blocks(seed, s, b as int),
        decreases set@.len() - b,
    {
        assert(s[b as int] == words_of(set@)[b as int]);
        if let Some(seg) = &set[b] {
            let words: &Vec<u64> = segment_read(seg);
            assert(s[b as int] == Some(words@));
            sampler.offer_bits(seed, words, b * REPCUT_BITSET_BLOCK_SIZE);
        }
        b += 1;
    }
    sampler.ends
}

/// The hypergraph of the endpoints of a stage.
pub struct RCHyperGraph {
    num_vertices: usize,
    clusters: IndexMap<CachedHash<Vec<Option<Arc<CachedHash<Vec<u64>>>>>>, usize>,
    endpoint_weights: Vec<u64>,
}

/// What a hypergraph holds: the number of endpoints, the sets of endpoints that
/// share nodes with the numbers of the nodes, and the weights of the endpoints.
pub struct HyperGraph {
    pub num_vertices: nat,
    pub clusters: Seq<(Seq<Option<Seq<u64>>>, usize)>,
    pub weights: Seq<u64>,
}

impl View for RCHyperGraph {
    type V = HyperGraph;

    closed spec fn view(&self) -> HyperGraph {
        HyperGraph {
            num_vertices: self.num_vertices as nat,
            clusters: class_entries(self.clusters),
            weights: self.endpoint_weights@,
        }
    }
}

/// Hyperedges as the model has them.
pub open spec fn edges_view(es: Seq<(usize, Vec<usize>)>) -> Seq<(usize, Seq<usize>)> {
    es.map_values(|e: (usize, Vec<usize>)| (e.0, e.1@))
}

/// The sets of a hypergraph with `n` endpoints have their blocks and words.
pub open spec fn clusters_ok(cs: Seq<(Seq<Option<Seq<u64>>>, usize)>, n: int) -> bool {
    forall|i: int|
        0 <= i < cs.len() ==> full_words((#[trigger] cs[i]).0) && cs[i].0.len() == num_blocks(n)
}

impl HyperGraph {
    /// The sets have their blocks and words.
    pub open spec fn wf(self) -> bool {
        &&& clusters_ok(self.clusters, self.num_vertices as int)
        &&& self.num_vertices + REPCUT_BITSET_BLOCK_SIZE <= usize::MAX
        &&& self.weights.len() == self.num_vertices
    }
}

/// The blocks cover the endpoints, and each of them starts among them.
proof fn lemma_num_blocks(n: int)
    requires
        0 <= n,
    ensures
        num_blocks(n) * REPCUT_BITSET_BLOCK_SIZE <= n + REPCUT_BITSET_BLOCK_SIZE - 1,
        num_blocks(n) * REPCUT_BITSET_BLOCK_SIZE >= n,
        forall|b: int| 0 <= b < num_blocks(n) ==> #[trigger] (b * REPCUT_BITSET_BLOCK_SIZE) <= n,
{
}

/// Counting one more node keeps the sets in shape.
proof fn lemma_counted_ok(cs: Seq<(Seq<Option<Seq<u64>>>, usize)>, k: Seq<Option<Seq<u64>>>, n: int)
    requires
        clusters_ok(cs, n),
        full_words(k),
        k.len() == num_blocks(n),
    ensures
        clusters_ok(counted(cs, k), n),
{
    let r = counted(cs, k);
    assert forall|i: int| 0 <= i < r.len() implies full_words((#[trigger] r[i]).0) && r[i].0.len()
        == num_blocks(n) by {
        if i < cs.len() {
            assert(r[i].0 == cs[i].0 || r[i].0 == k);
        }
    }
}

/// The bit sets of a stage can be computed.
spec fn can_block(aig: &AIG, staged: &StagedAIG) -> bool {
    staged.wf(*aig) && fanouts_ok(source(*aig, *staged))
}

/// The bit sets of one block of a stage.
spec fn segs_in_block(aig: &AIG, staged: &StagedAIG, b: int) -> Seq<Option<Seq<u64>>> {
    block_segs(source(*aig, *staged), b)
}

impl RCHyperGraph {
    /// Builds the hypergraph of the endpoints of a stage, whose weights are
    /// given.
    pub fn from_staged_aig(aig: &AIG, staged: &StagedAIG, endpoint_weights: Vec<u64>) -> (hg:
        RCHyperGraph)
        requires
            staged.wf(*aig),
            fanouts_ok(source(*aig, *staged)),
            staged.endpoints@.len() + REPCUT_BITSET_BLOCK_SIZE <= usize::MAX,
            endpoint_weights@.len() == staged.endpoints@.len(),
        ensures
            hg@.num_vertices == staged.endpoints@.len(),
            hg@.clusters == classes_upto(source(*aig, *staged), aig.num_aigpins as int),
            hg@.weights == endpoint_weights@,
            hg@.wf(),
    {
        let ghost src = source(*aig, *staged);
        let n: usize = staged.num_endpoint_groups();
        let blocks: usize = (n + REPCUT_BITSET_BLOCK_SIZE - 1) / REPCUT_BITSET_BLOCK_SIZE;
        proof {
            lemma_num_blocks(n as int);
        }
        let f = |b: usize| -> (segs: Vec<Option<Arc<CachedHash<Vec<u64>>>>>)
            requires
                can_block(aig, staged),
                n == staged.endpoints@.len(),
                n + REPCUT_BITSET_BLOCK_SIZE <= usize::MAX,
                b < blocks,
                blocks == num_blocks(n as int),
            ensures
                words_of(segs@) == segs_in_block(aig, staged, b as int),
            {
                proof {
                    lemma_num_blocks(n as int);
                }
                let st: usize = b * REPCUT_BITSET_BLOCK_SIZE;
                let ed: usize = if n - st <= REPCUT_BITSET_BLOCK_SIZE {
                    n
                } else {
                    st + REPCUT_BITSET_BLOCK_SIZE
                };
                block_segments(aig, staged, st, ed)
            };
        let segs: Vec<Vec<Option<Arc<CachedHash<Vec<u64>>>>>> = par_map(blocks, f);
        let mut clusters: IndexMap<
            CachedHash<Vec<Option<Arc<CachedHash<Vec<u64>>>>>>,
            usize,
        > = classes_new();
        let mut i: usize = 1;
        while i < aig.num_aigpins
            invariant
                src == source(*aig, *staged),
                staged.wf(*aig),
                n == src.groups.len(),
                n + REPCUT_BITSET_BLOCK_SIZE <= usize::MAX,
                blocks == num_blocks(n as int),
                segs@.len() == blocks,
                forall|b: int| 0 <= b < blocks ==> words_of((#[trigger] segs@[b])@) == block_segs(src, b),
                1 <= i,
                i <= aig.num_aigpins || i == 1,
                class_entries(clusters) == classes_upto(src, i as int),
                clusters_ok(class_entries(clusters), n as int),
            decreases aig.num_aigpins - i,
        {
            proof {
                lemma_num_blocks(n as int);
                lemma_counts(src, i as int);
                lemma_node_set(*aig, *staged, i as int);
            }
            let mut set: Vec<Option<Arc<CachedHash<Vec<u64>>>>> = Vec::new();
            let mut b: usize = 0;
            while b < blocks
                invariant
                    blocks == num_blocks(n as int),
                    n == src.groups.len(),
                    src == source(*aig, *staged),
                    staged.wf(*aig),
                    i < aig.num_aigpins,
                    segs@.len() == blocks,
                    forall|b: int|
                        0 <= b < blocks ==> words_of((#[trigger] segs@[b])@) == block_segs(src, b),
                    b <= blocks,
                    n + REPCUT_BITSET_BLOCK_SIZE <= usize::MAX,
                    words_of(set@) == node_set(src, i as int).take(b as int),
                decreases blocks - b,
            {
                proof {
                    lemma_block_segs(*aig, *staged, b as int);
                    assert(words_of(segs@[b as int]@).len() == segs@[b as int]@.len());
                }
                let ghost before = words_of(set@);
                let seg: Option<Arc<CachedHash<Vec<u64>>>> = segment_clone(&segs[b][i]);
                set.push(seg);
                b += 1;
                proof {
                    assert(words_of(set@) =~= before.push(words_of(segs@[b - 1]@)[i as int]));
                    assert(node_set(src, i as int).take(b as int) =~= node_set(src, i as int).take(
                        b - 1,
                    ).push(node_set(src, i as int)[b - 1]));
                }
            }
            assert(node_set(src, i as int).take(b as int) =~= node_set(src, i as int));
            if count_endpoints(&set) >= 2 {
                let key: CachedHash<Vec<Option<Arc<CachedHash<Vec<u64>>>>>> = endpoint_set_new(set);
                let ghost cs = class_entries(clusters);
                let count: usize = match classes_get(&clusters, &key) {
                    Some(c) => {
                        proof {
                            assert(cs[keys_of(cs).index_of(set_segments(key))].1 <= i);
                        }
                        c + 1
                    },
                    None => 1,
                };
                classes_insert(&mut clusters, key, count);
                proof {
                    lemma_counted_ok(cs, node_set(src, i as int), n as int);
                }
            }
            i += 1;
        }
        proof {
            if aig.num_aigpins < 1 {
                assert(classes_upto(src, 1) == classes_upto(src, aig.num_aigpins as int));
            }
        }
        RCHyperGraph { num_vertices: n, clusters, endpoint_weights }
    }

    /// The number of endpoints.
    pub fn num_vertices(&self) -> (n: usize)
        ensures
            n == self@.num_vertices,
    {
        self.num_vertices
    }

    /// Make an edge list.
    ///
    /// (weight, node indices)
    pub fn to_edges(&self) -> (es: Vec<(usize, Vec<usize>)>)
        requires
            self@.wf(),
        ensures
            edges_view(es@) == edges_of(self@.clusters),
    {
        let n: usize = classes_len(&self.clusters);
        let f = |i: usize| -> (e: (usize, Vec<usize>))
            requires
                self@.wf(),
                n == self@.clusters.len(),
                i < n,
            ensures
                (e.0, e.1@) == edge_of(self@.clusters, i as int),
            {
                proof {
                    lemma_num_blocks(self@.num_vertices as int);
                    assert(full_words(self@.clusters[i as int].0));
                }
                let (set, weight) = classes_at(&self.clusters, i);
                assert(words_of(set@).len() == set@.len());
                let seed: u64 = REPCUT_EDGE_SEED.wrapping_add(i as u64);
                (weight, sample_edge(set, seed))
            };
        let es: Vec<(usize, Vec<usize>)> = par_map(n, f);
        assert(edges_view(es@) =~= edges_of(self@.clusters));
        es
    }
}

/// The endpoints of the first `n` hyperedges, one after the other.
pub open spec fn ends_upto(es: Seq<(usize, Seq<usize>)>, n: int) -> Seq<usize>
    decreases n,
{
    if n <= 0 {
        Seq::empty()
    } else {
        ends_upto(es, n - 1) + es[n - 1].1
    }
}

/// A hypergraph as a solver takes it.
pub struct Adjacency {
    /// The number of parts.
    pub k: i32,
    pub num_vertices: usize,
    /// Where the endpoints of each hyperedge start, and where the last one ends.
    pub hyperedge_indices: Vec<usize>,
    pub hyperedges: Vec<usize>,
    pub hyperedge_weights: Vec<i32>,
    pub vertex_weights: Vec<i32>,
}

/// What it takes to partition a hypergraph.
pub enum PartitionTask {
    /// The part of each endpoint.
    Solved(Vec<usize>),
    /// A hypergraph that a solver is to partition.
    Solve(Adjacency),
}

/// The solver's hypergraph lists the hyperedges and weights.
pub open spec fn is_adjacency(a: Adjacency, hg: HyperGraph, num_parts: usize) -> bool {
    let es = edges_of(hg.clusters);
    &&& a.k == num_parts as i32
    &&& a.num_vertices == hg.num_vertices
    &&& a.hyperedge_indices@ == Seq::new(
        es.len() + 1,
        |i: int| ends_upto(es, i).len() as usize,
    )
    &&& a.hyperedges@ == ends_upto(es, es.len() as int)
    &&& a.hyperedge_weights@ == es.map_values(|e: (usize, Seq<usize>)| e.0 as i32)
    &&& a.vertex_weights@ == hg.weights.map_values(|w: u64| w as i32)
}

/// The weights are numbers that the solver takes.
pub open spec fn weights_fit(hg: HyperGraph) -> bool {
    &&& forall|i: int| 0 <= i < hg.clusters.len() ==> (#[trigger] hg.clusters[i]).1 <= i32::MAX
    &&& forall|i: int| 0 <= i < hg.weights.len() ==> #[trigger] hg.weights[i] <= i32::MAX
}

/// A sample of words stays within the limit.
proof fn lemma_sampled_len(e: Sampled, seed: u64, words: Seq<u64>, base: int, n: int)
    requires
        e.ends.len() <= REPCUT_HYPERGRAPH_EDGE_SIZE_LIMIT,
    ensures
        sample_bits(e, seed, words, base, n).ends.len() <= REPCUT_HYPERGRAPH_EDGE_SIZE_LIMIT,
    decreases n,
{
    if n > 0 {
        lemma_sampled_len(e, seed, words, base, n - 1);
    }
}

/// A sample of blocks stays within the limit.
proof fn lemma_blocks_len(seed: u64, set: Seq<Option<Seq<u64>>>, n: int)
    ensures
        sample_blocks(seed, set, n).ends.len() <= REPCUT_HYPERGRAPH_EDGE_SIZE_LIMIT,
    decreases n,
{
    if n > 0 {
        lemma_blocks_len(seed, set, n - 1);
        if let Some(w) = set[n - 1] {
            lemma_sampled_len(
                sample_blocks(seed, set, n - 1),
                seed,
                w,
                (n - 1) * REPCUT_BITSET_BLOCK_SIZE,
                REPCUT_BITSET_BLOCK_SIZE as int,
            );
        }
    }
}

/// A hyperedge has no more endpoints than the limit.
proof fn lemma_edge_len(cs: Seq<(Seq<Option<Seq<u64>>>, usize)>, i: int)
    requires
        0 <= i < cs.len(),
    ensures
        edges_of(cs)[i].1.len() <= REPCUT_HYPERGRAPH_EDGE_SIZE_LIMIT,
        edges_of(cs)[i].0 == cs[i].1,
{
    lemma_blocks_len(
        REPCUT_EDGE_SEED.wrapping_add(i as u64),
        cs[i].0,
        cs[i].0.len() as int,
    );
}

/// Hyperedges have no more endpoints than the limit allows.
proof fn lemma_ends_bound(cs: Seq<(Seq<Option<Seq<u64>>>, usize)>, n: int)
    requires
        0 <= n <= cs.len(),
    ensures
        ends_upto(edges_of(cs), n).len() <= n * REPCUT_HYPERGRAPH_EDGE_SIZE_LIMIT,
    decreases n,
{
    if n > 0 {
        lemma_ends_bound(cs, n - 1);
        lemma_edge_len(cs, n - 1);
    }
}

/// The endpoints between two entries of the index are those of the hyperedge.
pub proof fn adjacency_lists_the_edges(a: Adjacency, hg: HyperGraph, num_parts: usize, i: int)
    requires
        is_adjacency(a, hg, num_parts),
        hg.clusters.len() * REPCUT_HYPERGRAPH_EDGE_SIZE_LIMIT <= usize::MAX,
        0 <= i < hg.clusters.len(),
    ensures
        a.hyperedge_indices@[0] == 0,
        a.hyperedge_indices@[hg.clusters.len() as int] == a.hyperedges@.len(),
        a.hyperedge_indices@[i] <= a.hyperedge_indices@[i + 1] <= a.hyperedges@.len(),
        a.hyperedges@.subrange(
            a.hyperedge_indices@[i] as int,
            a.hyperedge_indices@[i + 1] as int,
        ) == edges_of(hg.clusters)[i].1,
{
    let es = edges_of(hg.clusters);
    let n = es.len() as int;
    lemma_ends_bound(hg.clusters, n);
    lemma_ends_bound(hg.clusters, i);
    lemma_ends_bound(hg.clusters, i + 1);
    lemma_ends_prefix(es, i + 1, n);
    assert(a.hyperedges@.take(ends_upto(es, i + 1).len() as int) == ends_upto(es, i + 1));
    let lo = ends_upto(es, i).len() as int;
    let hi = ends_upto(es, i + 1).len() as int;
    assert(a.hyperedges@.subrange(lo, hi) =~= a.hyperedges@.take(hi).subrange(lo, hi));
    assert(ends_upto(es, i + 1).subrange(lo, hi) =~= es[i].1);
}

/// The ends of fewer hyperedges come first.
proof fn lemma_ends_prefix(es: Seq<(usize, Seq<usize>)>, i: int, n: int)
    requires
        0 <= i <= n <= es.len(),
    ensures
        ends_upto(es, i).len() <= ends_upto(es, n).len(),
        ends_upto(es, n).take(ends_upto(es, i).len() as int) == ends_upto(es, i),
    decreases n - i,
{
    if i < n {
        lemma_ends_prefix(es, i, n - 1);
        assert(ends_upto(es, n).take(ends_upto(es, i).len() as int) =~= ends_upto(es, n - 1).take(
            ends_upto(es, i).len() as int,
        ));
    } else {
        assert(ends_upto(es, n).take(ends_upto(es, i).len() as int) =~= ends_upto(es, i));
    }
}

impl RCHyperGraph {
    /// Prepares the partitioning of this hypergraph into `num_parts` parts.
    ///
    /// A single part needs no solver.
    pub fn partition(&self, num_parts: usize) -> (task: PartitionTask)
        requires
            self@.wf(),
            num_parts != 1 ==> weights_fit(self@) && self@.clusters.len()
                * REPCUT_HYPERGRAPH_EDGE_SIZE_LIMIT <= usize::MAX,
        ensures
            match task {
                PartitionTask::Solved(parts) => num_parts == 1 && parts@ == Seq::new(
                    self@.num_vertices,
                    |i: int| 0usize,
                ),
                PartitionTask::Solve(a) => num_parts != 1 && is_adjacency(a, self@, num_parts),
            },
    {
        if num_parts == 1 {
            let parts: Vec<usize> = vec![0usize; self.num_vertices];
            assert(parts@ =~= Seq::new(self@.num_vertices, |i: int| 0usize));
            return PartitionTask::Solved(parts);
        }
        let edges: Vec<(usize, Vec<usize>)> = self.to_edges();
        let ghost es = edges_of(self@.clusters);
        assert(edges@.len() == es.len()) by {
            assert(edges_view(edges@).len() == es.len());
        }
        let mut hyperedge_indices: Vec<usize> = Vec::new();
        hyperedge_indices.push(0);
        let mut hyperedges: Vec<usize> = Vec::new();
        let mut hyperedge_weights: Vec<i32> = Vec::new();
        assert(hyperedge_indices@ =~= Seq::new(1, |i: int| ends_upto(es, i).len() as usize));
        let mut i: usize = 0;
        while i < edges.len()
            invariant
                self@.wf(),
                weights_fit(self@),
                self@.clusters.len() * REPCUT_HYPERGRAPH_EDGE_SIZE_LIMIT <= usize::MAX,
                es == edges_of(self@.clusters),
                edges_view(edges@) == es,
                edges@.len() == es.len(),
                i <= edges@.len(),
                hyperedge_indices@ == Seq::new(
                    (i + 1) as nat,
                    |i: int| ends_upto(es, i).len() as usize,
                ),
                hyperedges@ == ends_upto(es, i as int),
                hyperedge_weights@ == es.take(i as int).map_values(
                    |e: (usize, Seq<usize>)| e.0 as i32,
                ),
            decreases edges@.len() - i,
        {
            assert(es[i as int] == edges_view(edges@)[i as int]);
            let ends: &Vec<usize> = &edges[i].1;
            let ghost before = hyperedges@;
            let mut k: usize = 0;
            while k < ends.len()
                invariant
                    k <= ends@.len(),
                    hyperedges@ == before + ends@.take(k as int),
                decreases ends@.len() - k,
            {
                hyperedges.push(ends[k]);
                k += 1;
                assert(hyperedges@ =~= before + ends@.take(k as int));
            }
            assert(ends@.take(k as int) =~= ends@);
            proof {
                lemma_edge_len(self@.clusters, i as int);
                lemma_ends_bound(self@.clusters, i + 1);
            }
            hyperedge_indices.push(hyperedges.len());
            hyperedge_weights.push(edges[i].0 as i32);
            i += 1;
            assert(hyperedge_indices@ =~= Seq::new(
                (i + 1) as nat,
                |i: int| ends_upto(es, i).len() as usize,
            ));
            assert(hyperedge_weights@ =~= es.take(i as int).map_values(
                |e: (usize, Seq<usize>)| e.0 as i32,
            ));
        }
        assert(es.take(i as int) =~= es);
        let mut vertex_weights: Vec<i32> = Vec::new();
        let mut i: usize = 0;
        while i < self.endpoint_weights.len()
            invariant
                weights_fit(self@),
                i <= self.endpoint_weights@.len(),
                self@.weights == self.endpoint_weights@,
                vertex_weights@ == self@.weights.take(i as int).map_values(|w: u64| w as i32),
            decreases self.endpoint_weights@.len() - i,
        {
            vertex_weights.push(self.endpoint_weights[i] as i32);
            i += 1;
            assert(vertex_weights@ =~= self@.weights.take(i as int).map_values(|w: u64| w as i32));
        }
        assert(self@.weights.take(i as int) =~= self@.weights);
        PartitionTask::Solve(
            Adjacency {
                k: num_parts as i32,
                num_vertices: self.num_vertices,
                hyperedge_indices,
                hyperedges,
                hyperedge_weights,
                vertex_weights,
            },
        )
    }
}

/// The first `n` endpoints of a hyperedge, each behind a blank, counted from 1.
pub open spec fn ends_text(ends: Seq<usize>, n: int) -> Seq<char>
    decreases n,
{
    if n <= 0 {
        Seq::empty()
    } else {
        ends_text(ends, n - 1) + seq![' '] + decimal((ends[n - 1] + 1) as nat)
    }
}

/// The lines of the first `n` hyperedges.
pub open spec fn edges_text(es: Seq<(usize, Seq<usize>)>, n: int) -> Seq<char>
    decreases n,
{
    if n <= 0 {
        Seq::empty()
    } else {
        edges_text(es, n - 1) + decimal(es[n - 1].0 as nat) + ends_text(
            es[n - 1].1,
            es[n - 1].1.len() as int,
        ) + seq!['\n']
    }
}

/// The lines of the first `n` weights.
pub open spec fn weights_text(ws: Seq<u64>, n: int) -> Seq<char>
    decreases n,
{
    if n <= 0 {
        Seq::empty()
    } else {
        weights_text(ws, n - 1) + decimal(ws[n - 1] as nat) + seq!['\n']
    }
}

/// The first line: the numbers of hyperedges and endpoints, and the code for
/// weights on both.
pub open spec fn head_text(hg: HyperGraph) -> Seq<char> {
    decimal(hg.clusters.len()) + seq![' '] + decimal(hg.weights.len()) + seq![
        ' ',
        '1',
        '1',
        '\n',
    ]
}

/// A hypergraph in the hgr format.
pub open spec fn hgr_text(hg: HyperGraph) -> Seq<char> {
    let es = edges_of(hg.clusters);
    head_text(hg) + edges_text(es, es.len() as int) + weights_text(
        hg.weights,
        hg.weights.len() as int,
    )
}

impl RCHyperGraph {
    /// The hypergraph in the hgr format.
    pub fn to_text(&self) -> (text: String)
        requires
            self@.wf(),
        ensures
            text@ == hgr_text(self@),
    {
        let ghost es = edges_of(self@.clusters);
        let edges: Vec<(usize, Vec<usize>)> = self.to_edges();
        assert(edges@.len() == es.len()) by {
            assert(edges_view(edges@).len() == es.len());
        }
        let mut text: String = String::new();
        append_number(&mut text, classes_len(&self.clusters) as u64);
        text.append(" ");
        append_number(&mut text, self.endpoint_weights.len() as u64);
        text.append(" 11\n");
        proof {
            reveal_strlit(" ");
            reveal_strlit(" 11\n");
            assert(" "@ =~= seq![' ']);
            assert(" 11\n"@ =~= seq![' ', '1', '1', '\n']);
            assert(text@ =~= head_text(self@));
        }
        let mut i: usize = 0;
        assert(text@ =~= head_text(self@) + edges_text(es, 0));
        while i < edges.len()
            invariant
                self@.wf(),
                es == edges_of(self@.clusters),
                edges_view(edges@) == es,
                edges@.len() == es.len(),
                i <= edges@.len(),
                text@ == head_text(self@) + edges_text(es, i as int),
            decreases edges@.len() - i,
        {
            assert(es[i as int] == edges_view(edges@)[i as int]);
            proof {
                edge_names_endpoints(self@.clusters, self@.num_vertices as int, i as int);
            }
            append_edge(&mut text, edges[i].0, &edges[i].1);
            i += 1;
            assert(text@ =~= head_text(self@) + edges_text(es, i as int));
        }
        let mut i: usize = 0;
        assert(text@ =~= head_text(self@) + edges_text(es, es.len() as int) + weights_text(
            self@.weights,
            0,
        ));
        while i < self.endpoint_weights.len()
            invariant
                i <= self.endpoint_weights@.len(),
                self@.weights == self.endpoint_weights@,
                text@ == head_text(self@) + edges_text(es, es.len() as int) + weights_text(
                    self@.weights,
                    i as int,
                ),
            decreases self.endpoint_weights@.len() - i,
        {
            append_number(&mut text, self.endpoint_weights[i]);
            text.append("\n");
            i += 1;
            proof {
                reveal_strlit("\n");
                assert("\n"@ =~= seq!['\n']);
            }
            assert(text@ =~= head_text(self@) + edges_text(es, es.len() as int) + weights_text(
                self@.weights,
                i as int,
            ));
        }
        text
    }
}

/// Appends the line of a hyperedge.
fn append_edge(text: &mut String, weight: usize, ends: &Vec<usize>)
    requires
        forall|k: int| 0 <= k < ends@.len() ==> #[trigger] ends@[k] < usize::MAX,
    ensures
        final(text)@ == old(text)@ + decimal(weight as nat) + ends_text(
            ends@,
            ends@.len() as int,
        ) + seq!['\n'],
{
    let ghost start = text@ + decimal(weight as nat);
    append_number(text, weight as u64);
    let mut k: usize = 0;
    assert(text@ =~= start + ends_text(ends@, 0));
    while k < ends.len()
        invariant
            forall|k: int| 0 <= k < ends@.len() ==> #[trigger] ends@[k] < usize::MAX,
            k <= ends@.len(),
            text@ == start + ends_text(ends@, k as int),
        decreases ends@.len() - k,
    {
        text.append(" ");
        append_number(text, (ends[k] + 1) as u64);
        k += 1;
        proof {
            reveal_strlit(" ");
            assert(" "@ =~= seq![' ']);
        }
        assert(text@ =~= start + ends_text(ends@, k as int));
    }
    text.append("\n");
    proof {
        reveal_strlit("\n");
        assert("\n"@ =~= seq!['\n']);
    }
}

/// Endpoints below a bound.
spec fn below(ends: Seq<usize>, n: int) -> bool {
    forall|k: int| 0 <= k < ends.len() ==> #[trigger] ends[k] < n
}

/// A sample of words names endpoints.
proof fn lemma_sampled_below(e: Sampled, seed: u64, words: Seq<u64>, base: int, n: int)
    requires
        0 <= base,
        0 <= n <= REPCUT_BITSET_BLOCK_SIZE,
        base + n <= usize::MAX,
        below(e.ends, base),
    ensures
        below(sample_bits(e, seed, words, base, n).ends, base + n),
    decreases n,
{
    if n > 0 {
        lemma_sampled_below(e, seed, words, base, n - 1);
    }
}

/// A sample of blocks names endpoints.
proof fn lemma_blocks_below(seed: u64, set: Seq<Option<Seq<u64>>>, n: int)
    requires
        0 <= n <= set.len(),
        n * REPCUT_BITSET_BLOCK_SIZE <= usize::MAX,
    ensures
        below(sample_blocks(seed, set, n).ends, n * REPCUT_BITSET_BLOCK_SIZE),
    decreases n,
{
    if n > 0 {
        lemma_blocks_below(seed, set, n - 1);
        let base = (n - 1) * REPCUT_BITSET_BLOCK_SIZE;
        assert(base + REPCUT_BITSET_BLOCK_SIZE == n * REPCUT_BITSET_BLOCK_SIZE);
        if let Some(w) = set[n - 1] {
            lemma_sampled_below(
                sample_blocks(seed, set, n - 1),
                seed,
                w,
                base,
                REPCUT_BITSET_BLOCK_SIZE as int,
            );
        }
    }
}

/// A hyperedge names bits of the blocks of the endpoints.
proof fn edge_names_endpoints(cs: Seq<(Seq<Option<Seq<u64>>>, usize)>, n: int, i: int)
    requires
        0 <= n,
        n + REPCUT_BITSET_BLOCK_SIZE <= usize::MAX,
        clusters_ok(cs, n),
        0 <= i < cs.len(),
    ensures
        below(edges_of(cs)[i].1, n + REPCUT_BITSET_BLOCK_SIZE - 1),
{
    lemma_num_blocks(n);
    assert(cs[i].0.len() == num_blocks(n));
    lemma_blocks_below(
        REPCUT_EDGE_SEED.wrapping_add(i as u64),
        cs[i].0,
        cs[i].0.len() as int,
    );
}

/// The bit sets of a block have their words.
proof fn lemma_block_segs(aig: AIG, staged: StagedAIG, b: int)
    requires
        staged.wf(aig),
        0 <= b < num_blocks(staged.endpoints@.len() as int),
        staged.endpoints@.len() + REPCUT_BITSET_BLOCK_SIZE <= usize::MAX,
    ensures
        block_segs(source(aig, staged), b).len() == aig.drivers@.len(),
        full_words(block_segs(source(aig, staged), b)),
{
    let src = source(aig, staged);
    let n = src.groups.len() as int;
    let st = b * REPCUT_BITSET_BLOCK_SIZE;
    let ed = block_end(n, b);
    lemma_num_blocks(n);
    let ids = range_ids(st, ed);
    assert(ids_ok(src.groups, ids));
    lemma_inputs_in_range(src.drivers, src.groups, ids);
    cone_order_is_topological(src.drivers, src.sources, inputs_of(src.groups, ids));
    lemma_segs_full(src, block_order(src, st, ed), st, ed, 0);
}

/// The sets of a node have their words.
proof fn lemma_node_set(aig: AIG, staged: StagedAIG, u: int)
    requires
        staged.wf(aig),
        0 <= u < aig.drivers@.len(),
        staged.endpoints@.len() + REPCUT_BITSET_BLOCK_SIZE <= usize::MAX,
    ensures
        full_words(node_set(source(aig, staged), u)),
        node_set(source(aig, staged), u).len() == num_blocks(staged.endpoints@.len() as int),
{
    let src = source(aig, staged);
    let s = node_set(src, u);
    assert forall|b: int| 0 <= b < s.len() implies (#[trigger] s[b] matches Some(w) ==> w.len()
        == REPCUT_BITSET_WORDS) by {
        lemma_block_segs(aig, staged, b);
        assert(s[b] == block_segs(src, b)[u]);
    }
}

} // verus!
