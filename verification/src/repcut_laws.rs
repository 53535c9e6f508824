//! What every hypergraph of endpoints satisfies.
use crate::repcut_model::{
    classes_upto, edges_of, fanouts_ok, has_bit, lemma_mark_len, lemma_readers_len, lemma_segs_full,
    mark_inputs, no_bits, node_set, or_words, popcount, readers, sample_bits, sample_blocks,
    sampled, segs_from, with_bit, with_fanouts, Sampled, Source, REPCUT_BITSET_BLOCK_SIZE,
    REPCUT_BITSET_WORDS, REPCUT_EDGE_SEED, REPCUT_HYPERGRAPH_EDGE_SIZE_LIMIT,
};
use crate::segments::{keys_of, value_of, with_value};
use crate::soundness::lemma_take_contains;
use crate::staging::EndpointGroup;
use vstd::prelude::*;

verus! {

/// Endpoint `e` reads node `u`.
pub open spec fn reads(groups: Seq<EndpointGroup>, e: int, u: usize) -> bool {
    groups[e].inputs@.contains(u)
}

/// Node `v` is listed among the gates that node `u` feeds.
pub open spec fn lists(src: Source, u: usize, v: usize) -> bool {
    exists|f: int|
        src.fanouts_start[u as int] <= f < src.fanouts_start[u + 1] && #[trigger] src.fanouts[f]
            == v
}

/// The node at position `k` leads to endpoint `e`: the endpoint reads it, or it
/// feeds a gate further on that leads to the endpoint.
pub open spec fn leads_to(src: Source, order: Seq<usize>, k: int, e: int) -> bool
    decreases order.len() - k,
{
    0 <= k < order.len() && (reads(src.groups, e, order[k]) || exists|p: int|
        k < p < order.len() && lists(src, order[k], #[trigger] order[p]) && leads_to(
            src,
            order,
            p,
            e,
        ))
}

/// A bit of a union.
proof fn lemma_or_bit(a: u64, b: u64, k: u64)
    requires
        k < 64,
    ensures
        ((a | b) >> k) & 1 != 0 <==> (a >> k) & 1 != 0 || (b >> k) & 1 != 0,
{
    assert(((a | b) >> k) & 1 != 0 <==> (a >> k) & 1 != 0 || (b >> k) & 1 != 0) by (bit_vector)
        requires
            k < 64,
    ;
}

/// The only bit of a power of two.
proof fn lemma_one_bit(j: u64, k: u64)
    requires
        j < 64,
        k < 64,
    ensures
        ((1u64 << j) >> k) & 1 != 0 <==> j == k,
{
    assert(((1u64 << j) >> k) & 1 != 0 <==> j == k) by (bit_vector)
        requires
            j < 64,
            k < 64,
    ;
}

/// The empty set has no bits.
proof fn lemma_no_bit(t: int)
    requires
        0 <= t < REPCUT_BITSET_BLOCK_SIZE,
    ensures
        !has_bit(no_bits(), t),
{
    let k = (t % 64) as u64;
    assert((0u64 >> k) & 1 == 0) by (bit_vector);
}

/// A set with one more bit.
proof fn lemma_with_bit(s: Seq<u64>, t: int, u: int)
    requires
        s.len() == REPCUT_BITSET_WORDS,
        0 <= t < REPCUT_BITSET_BLOCK_SIZE,
        0 <= u < REPCUT_BITSET_BLOCK_SIZE,
    ensures
        has_bit(with_bit(s, t), u) <==> has_bit(s, u) || u == t,
{
    if t / 64 == u / 64 {
        let j = (t % 64) as u64;
        let k = (u % 64) as u64;
        lemma_or_bit(s[t / 64], 1u64 << j, k);
        lemma_one_bit(j, k);
    }
}

/// A bit of a union of sets.
proof fn lemma_or_words(a: Seq<u64>, b: Seq<u64>, t: int)
    requires
        0 <= t < REPCUT_BITSET_BLOCK_SIZE,
    ensures
        has_bit(or_words(a, b), t) <==> has_bit(a, t) || has_bit(b, t),
{
    lemma_or_bit(a[t / 64], b[t / 64], (t % 64) as u64);
}

/// The bit of an endpoint that reads a node.
proof fn lemma_mark_bits(s: Seq<u64>, inputs: Seq<usize>, node: usize, t: int, n: int, u: int)
    requires
        s.len() == REPCUT_BITSET_WORDS,
        0 <= t < REPCUT_BITSET_BLOCK_SIZE,
        0 <= u < REPCUT_BITSET_BLOCK_SIZE,
        0 <= n <= inputs.len(),
    ensures
        has_bit(mark_inputs(s, inputs, node, t, n), u) <==> has_bit(s, u) || (u == t
            && inputs.take(n).contains(node)),
    decreases n,
{
    if n > 0 {
        lemma_mark_bits(s, inputs, node, t, n - 1, u);
        lemma_mark_len(s, inputs, node, t, n - 1);
        lemma_with_bit(mark_inputs(s, inputs, node, t, n - 1), t, u);
        lemma_take_contains(inputs, n, node);
    }
}

/// The bits of the endpoints that read a node.
proof fn lemma_readers_bits(groups: Seq<EndpointGroup>, st: int, e: int, node: usize, u: int)
    requires
        st <= e,
        e - st <= REPCUT_BITSET_BLOCK_SIZE,
        0 <= u < REPCUT_BITSET_BLOCK_SIZE,
    ensures
        has_bit(readers(groups, st, e, node), u) <==> st + u < e && reads(groups, st + u, node),
    decreases e - st,
{
    if e <= st {
        lemma_no_bit(u);
    } else {
        let inputs = groups[e - 1].inputs@;
        lemma_readers_bits(groups, st, e - 1, node, u);
        lemma_readers_len(groups, st, e - 1, node);
        lemma_mark_bits(
            readers(groups, st, e - 1, node),
            inputs,
            node,
            e - 1 - st,
            inputs.len() as int,
            u,
        );
        assert(inputs.take(inputs.len() as int) =~= inputs);
    }
}

/// `t` is in the bit set of one of the gates `fan[fs]` to `fan[fe - 1]`.
spec fn in_fanouts(segs: Seq<Option<Seq<u64>>>, fan: Seq<usize>, fs: int, fe: int, t: int) -> bool {
    exists|f: int|
        fs <= f < fe && (segs[#[trigger] fan[f] as int] matches Some(w) && has_bit(w, t))
}

/// The bits that a node has from the gates that it feeds.
proof fn lemma_fanout_bits(
    s: Seq<u64>,
    segs: Seq<Option<Seq<u64>>>,
    fan: Seq<usize>,
    fs: int,
    fe: int,
    t: int,
)
    requires
        fs <= fe,
        0 <= t < REPCUT_BITSET_BLOCK_SIZE,
    ensures
        has_bit(with_fanouts(s, segs, fan, fs, fe), t) <==> has_bit(s, t) || in_fanouts(
            segs,
            fan,
            fs,
            fe,
            t,
        ),
    decreases fe - fs,
{
    if fe > fs {
        lemma_fanout_bits(s, segs, fan, fs, fe - 1, t);
        if let Some(w) = segs[fan[fe - 1] as int] {
            lemma_or_words(with_fanouts(s, segs, fan, fs, fe - 1), w, t);
            if has_bit(w, t) {
                assert(in_fanouts(segs, fan, fs, fe, t));
            }
        }
        if in_fanouts(segs, fan, fs, fe - 1, t) {
            let f = choose|f: int|
                fs <= f < fe - 1 && (segs[#[trigger] fan[f] as int] matches Some(w) && has_bit(
                    w,
                    t,
                ));
            assert(fan[f] == fan[f]);
            assert(in_fanouts(segs, fan, fs, fe, t));
        }
        if in_fanouts(segs, fan, fs, fe, t) {
            let f = choose|f: int|
                fs <= f < fe && (segs[#[trigger] fan[f] as int] matches Some(w) && has_bit(w, t));
            if f < fe - 1 {
                assert(in_fanouts(segs, fan, fs, fe - 1, t));
            }
        }
    }
}

/// Bit `t` of the node at position `p` is what it should be.
spec fn bit_holds(
    src: Source,
    order: Seq<usize>,
    st: int,
    ed: int,
    segs: Seq<Option<Seq<u64>>>,
    p: int,
    t: int,
) -> bool {
    segs[order[p] as int] matches Some(w) && (has_bit(w, t) <==> st + t < ed && leads_to(
        src,
        order,
        p,
        st + t,
    ))
}

/// What the bit sets of the nodes from position `k` on hold.
spec fn bits_hold(
    src: Source,
    order: Seq<usize>,
    st: int,
    ed: int,
    segs: Seq<Option<Seq<u64>>>,
    k: int,
) -> bool {
    &&& forall|p: int, t: int|
        k <= p < order.len() && 0 <= t < REPCUT_BITSET_BLOCK_SIZE ==> #[trigger] bit_holds(
            src,
            order,
            st,
            ed,
            segs,
            p,
            t,
        )
    &&& forall|v: usize|
        v < src.drivers.len() && !order.skip(k).contains(v) ==> #[trigger] segs[v as int] is None
}

/// The bits of all nodes are those of the endpoints that they lead to.
proof fn lemma_bits_hold(src: Source, order: Seq<usize>, st: int, ed: int, k: int)
    requires
        0 <= k <= order.len(),
        0 <= st <= ed,
        ed - st <= REPCUT_BITSET_BLOCK_SIZE,
        fanouts_ok(src),
        order.no_duplicates(),
        forall|i: int| 0 <= i < order.len() ==> #[trigger] order[i] < src.drivers.len(),
    ensures
        bits_hold(src, order, st, ed, segs_from(src, order, st, ed, k), k),
    decreases order.len() - k,
{
    let segs = segs_from(src, order, st, ed, k);
    if k < order.len() {
        let q = segs_from(src, order, st, ed, k + 1);
        let u = order[k];
        lemma_bits_hold(src, order, st, ed, k + 1);
        lemma_segs_full(src, order, st, ed, k + 1);
        let fs = src.fanouts_start[u as int] as int;
        let fe = src.fanouts_start[u + 1] as int;
        assert(fs <= fe);
        let r = readers(src.groups, st, ed, u);
        let w = with_fanouts(r, q, src.fanouts, fs, fe);
        assert(segs == q.update(u as int, Some(w)));
        assert forall|p: int, t: int|
            k <= p < order.len() && 0 <= t < REPCUT_BITSET_BLOCK_SIZE implies #[trigger] bit_holds(
            src,
            order,
            st,
            ed,
            segs,
            p,
            t,
        ) by {
            if p > k {
                assert(order[p] != u);
                assert(bit_holds(src, order, st, ed, q, p, t));
            } else {
                lemma_fanout_bits(r, q, src.fanouts, fs, fe, t);
                lemma_readers_bits(src.groups, st, ed, u, t);
                lemma_led(src, order, st, ed, q, k, t);
            }
        }
        assert forall|v: usize|
            v < src.drivers.len() && !order.skip(k).contains(v) implies #[trigger] segs[v as int] is
            None by {
            assert(order.skip(k)[0] == u);
            assert(v != u);
            assert(!order.skip(k + 1).contains(v)) by {
                if order.skip(k + 1).contains(v) {
                    let i = order.skip(k + 1).index_of(v);
                    assert(order.skip(k)[i + 1] == v);
                }
            }
            assert(q[v as int] is None);
        }
    } else {
        assert(order.skip(k) =~= Seq::empty());
    }
}

/// A node hands on what the gates behind it lead to.
proof fn lemma_led(
    src: Source,
    order: Seq<usize>,
    st: int,
    ed: int,
    q: Seq<Option<Seq<u64>>>,
    k: int,
    t: int,
)
    requires
        0 <= k < order.len(),
        0 <= st <= ed,
        0 <= t < REPCUT_BITSET_BLOCK_SIZE,
        fanouts_ok(src),
        forall|i: int| 0 <= i < order.len() ==> #[trigger] order[i] < src.drivers.len(),
        bits_hold(src, order, st, ed, q, k + 1),
    ensures
        (st + t < ed && reads(src.groups, st + t, order[k])) || in_fanouts(
            q,
            src.fanouts,
            src.fanouts_start[order[k] as int] as int,
            src.fanouts_start[order[k] + 1] as int,
            t,
        ) <==> st + t < ed && leads_to(src, order, k, st + t),
{
    let u = order[k];
    let e = st + t;
    let fs = src.fanouts_start[u as int] as int;
    let fe = src.fanouts_start[u + 1] as int;
    if in_fanouts(q, src.fanouts, fs, fe, t) {
        let f = choose|f: int|
            fs <= f < fe && (q[#[trigger] src.fanouts[f] as int] matches Some(w) && has_bit(w, t));
        let v = src.fanouts[f];
        assert(src.fanouts_start[u + 1] <= src.fanouts.len());
        assert(v < src.drivers.len());
        assert(q[v as int] is Some);
        assert(order.skip(k + 1).contains(v));
        let i = order.skip(k + 1).index_of(v);
        let p = k + 1 + i;
        assert(order[p] == v);
        assert(lists(src, u, order[p]));
        assert(bit_holds(src, order, st, ed, q, p, t));
    }
    if e < ed && leads_to(src, order, k, e) && !reads(src.groups, e, u) {
        let p = choose|p: int|
            k < p < order.len() && lists(src, order[k], #[trigger] order[p]) && leads_to(
                src,
                order,
                p,
                e,
            );
        let f = choose|f: int|
            src.fanouts_start[u as int] <= f < src.fanouts_start[u + 1]
                && #[trigger] src.fanouts[f] == order[p];
        assert(bit_holds(src, order, st, ed, q, p, t));
        assert(q[src.fanouts[f] as int] is Some);
    }
}

/// The bit set of a node names the endpoints that it leads to: in a block of
/// endpoints from `st` up to `ed`, bit `t` of the node at position `k` of the
/// block's order is set exactly if the node leads to endpoint `st + t`.
pub proof fn bits_are_endpoints_led_to(
    src: Source,
    order: Seq<usize>,
    st: int,
    ed: int,
    k: int,
    t: int,
)
    requires
        0 <= k < order.len(),
        0 <= st <= ed,
        ed - st <= REPCUT_BITSET_BLOCK_SIZE,
        fanouts_ok(src),
        order.no_duplicates(),
        forall|i: int| 0 <= i < order.len() ==> #[trigger] order[i] < src.drivers.len(),
        0 <= t < REPCUT_BITSET_BLOCK_SIZE,
    ensures
        segs_from(src, order, st, ed, 0)[order[k] as int] matches Some(w) && (has_bit(w, t)
            <==> st + t < ed && leads_to(src, order, k, st + t)),
{
    lemma_bits_hold(src, order, st, ed, 0);
    assert(bit_holds(src, order, st, ed, segs_from(src, order, st, ed, 0), k, t));
}

/// A node that a block's endpoints do not depend on has no bit set.
pub proof fn lemma_no_set(src: Source, order: Seq<usize>, st: int, ed: int, u: usize)
    requires
        0 <= st <= ed,
        ed - st <= REPCUT_BITSET_BLOCK_SIZE,
        fanouts_ok(src),
        order.no_duplicates(),
        forall|i: int| 0 <= i < order.len() ==> #[trigger] order[i] < src.drivers.len(),
        u < src.drivers.len(),
        !order.contains(u),
    ensures
        segs_from(src, order, st, ed, 0)[u as int] is None,
{
    lemma_bits_hold(src, order, st, ed, 0);
    assert(order.skip(0) =~= order);
}

/// The number of nodes from 1 up to `n` that have the set `k` of endpoints.
pub open spec fn nodes_with(src: Source, n: int, k: Seq<Option<Seq<u64>>>) -> nat
    decreases n,
{
    if n <= 1 {
        0
    } else {
        nodes_with(src, n - 1, k) + (if node_set(src, n - 1) == k {
            1nat
        } else {
            0nat
        })
    }
}

/// No class has more nodes than there are.
pub proof fn lemma_nodes_bound(src: Source, n: int, k: Seq<Option<Seq<u64>>>)
    ensures
        n >= 0 ==> nodes_with(src, n, k) <= n,
    decreases n,
{
    if n > 1 {
        lemma_nodes_bound(src, n - 1, k);
    }
}

/// Each set of two endpoints or more that some node has is listed once, with
/// the number of nodes that have it, and no other set is.
pub proof fn clusters_count_nodes(src: Source, n: int, k: Seq<Option<Seq<u64>>>)
    requires
        0 <= n <= usize::MAX,
    ensures
        keys_of(classes_upto(src, n)).no_duplicates(),
        value_of(classes_upto(src, n), k) == if popcount(k) >= 2 && nodes_with(src, n, k) > 0 {
            Some(nodes_with(src, n, k) as usize)
        } else {
            None
        },
    decreases n,
{
    if n > 1 {
        let x = node_set(src, n - 1);
        let cs = classes_upto(src, n - 1);
        clusters_count_nodes(src, n - 1, k);
        clusters_count_nodes(src, n - 1, x);
        lemma_nodes_bound(src, n - 1, x);
        if popcount(x) >= 2 {
            let v = match value_of(cs, x) {
                Some(c) => (c + 1) as usize,
                None => 1,
            };
            lemma_with_value(cs, x, v, k);
        }
    }
}

/// Giving a key a value changes the value of that key only.
proof fn lemma_with_value(
    s: Seq<(Seq<Option<Seq<u64>>>, usize)>,
    x: Seq<Option<Seq<u64>>>,
    v: usize,
    k: Seq<Option<Seq<u64>>>,
)
    requires
        keys_of(s).no_duplicates(),
    ensures
        keys_of(with_value(s, x, v)).no_duplicates(),
        value_of(with_value(s, x, v), k) == if k == x {
            Some(v)
        } else {
            value_of(s, k)
        },
{
    let ks = keys_of(s);
    let t = with_value(s, x, v);
    let kt = keys_of(t);
    if ks.contains(x) {
        let i = ks.index_of(x);
        assert(kt =~= ks);
        if ks.contains(k) && k != x {
            assert(ks.index_of(k) != i);
        }
    } else {
        assert(kt =~= ks.push(x));
        assert(kt.no_duplicates()) by {
            assert forall|i: int, j: int| 0 <= i < kt.len() && 0 <= j < kt.len() && i != j implies
                kt[i] != kt[j] by {
                if i == ks.len() {
                    assert(ks[j] != x);
                } else if j == ks.len() {
                    assert(ks[i] != x);
                }
            }
        }
        assert(kt[ks.len() as int] == x);
        if ks.contains(k) {
            let i = ks.index_of(k);
            assert(kt[i] == k);
            let j = kt.index_of(k);
            assert(kt[j] == k);
            assert(i == j);
        } else if k == x {
            let j = kt.index_of(x);
            assert(kt[j] == x);
            assert(j == ks.len());
        } else {
            assert(!kt.contains(k)) by {
                if kt.contains(k) {
                    let j = kt.index_of(k);
                    assert(ks[j] == k);
                }
            }
        }
    }
}

/// The members among the first `n` of a bit set, whose first is endpoint `base`,
/// behind those of `s`.
pub open spec fn members_bits(s: Seq<usize>, words: Seq<u64>, base: int, n: int) -> Seq<usize>
    decreases n,
{
    if n <= 0 {
        s
    } else {
        let t = members_bits(s, words, base, n - 1);
        if has_bit(words, n - 1) {
            t.push((base + n - 1) as usize)
        } else {
            t
        }
    }
}

/// The endpoints of the first `n` blocks of a set, in ascending order.
pub open spec fn members(set: Seq<Option<Seq<u64>>>, n: int) -> Seq<usize>
    decreases n,
{
    if n <= 0 {
        Seq::empty()
    } else {
        match set[n - 1] {
            Some(w) => members_bits(
                members(set, n - 1),
                w,
                (n - 1) * REPCUT_BITSET_BLOCK_SIZE,
                REPCUT_BITSET_BLOCK_SIZE as int,
            ),
            None => members(set, n - 1),
        }
    }
}

/// A sample is taken from what was offered, each item once: all of it as long
/// as it fits, and otherwise as many as fit.
spec fn samples(e: Sampled, offered: Seq<usize>) -> bool {
    &&& offered.no_duplicates() ==> e.ends.no_duplicates()
    &&& e.offered == offered.len()
    &&& offered.len() <= REPCUT_HYPERGRAPH_EDGE_SIZE_LIMIT ==> e.ends == offered
    &&& offered.len() > REPCUT_HYPERGRAPH_EDGE_SIZE_LIMIT ==> e.ends.len()
        == REPCUT_HYPERGRAPH_EDGE_SIZE_LIMIT
    &&& forall|i: int| 0 <= i < e.ends.len() ==> offered.contains(#[trigger] e.ends[i])
}

/// A sample after one more endpoint.
proof fn lemma_samples_one(e: Sampled, offered: Seq<usize>, seed: u64, nd: usize)
    requires
        samples(e, offered),
    ensures
        samples(sampled(e, seed, nd), offered.push(nd)),
{
    let r = sampled(e, seed, nd);
    let o = offered.push(nd);
    assert(o[offered.len() as int] == nd);
    assert forall|i: int| 0 <= i < r.ends.len() implies o.contains(#[trigger] r.ends[i]) by {
        if i < e.ends.len() && r.ends[i] == e.ends[i] {
            let j = offered.index_of(e.ends[i]);
            assert(o[j] == r.ends[i]);
        }
    }
    if o.no_duplicates() {
        assert(offered.no_duplicates()) by {
            assert forall|i: int, j: int|
                0 <= i < offered.len() && 0 <= j < offered.len() && i != j implies offered[i]
                != offered[j] by {
                assert(o[i] != o[j]);
            }
        }
        assert(!e.ends.contains(nd)) by {
            if e.ends.contains(nd) {
                let i = e.ends.index_of(nd);
                assert(offered.contains(e.ends[i]));
                let j = offered.index_of(nd);
                assert(o[j] == o[offered.len() as int]);
            }
        }
        assert forall|i: int, j: int|
            0 <= i < r.ends.len() && 0 <= j < r.ends.len() && i != j implies r.ends[i]
            != r.ends[j] by {
            if i < e.ends.len() && j < e.ends.len() {
                assert(e.ends[i] != e.ends[j]);
            }
            if i < e.ends.len() {
                assert(e.ends[i] != nd);
            }
            if j < e.ends.len() {
                assert(e.ends[j] != nd);
            }
        }
    }
}

/// A sample of words is drawn from their bits.
proof fn lemma_samples_bits(
    e: Sampled,
    s: Seq<usize>,
    seed: u64,
    words: Seq<u64>,
    base: int,
    n: int,
)
    requires
        samples(e, s),
    ensures
        samples(sample_bits(e, seed, words, base, n), members_bits(s, words, base, n)),
    decreases n,
{
    if n > 0 {
        lemma_samples_bits(e, s, seed, words, base, n - 1);
        if has_bit(words, n - 1) {
            lemma_samples_one(
                sample_bits(e, seed, words, base, n - 1),
                members_bits(s, words, base, n - 1),
                seed,
                (base + n - 1) as usize,
            );
        }
    }
}

/// A sample of blocks is drawn from their bits.
proof fn lemma_samples_blocks(seed: u64, set: Seq<Option<Seq<u64>>>, n: int)
    ensures
        samples(sample_blocks(seed, set, n), members(set, n)),
    decreases n,
{
    if n > 0 {
        lemma_samples_blocks(seed, set, n - 1);
        if let Some(w) = set[n - 1] {
            lemma_samples_bits(
                sample_blocks(seed, set, n - 1),
                members(set, n - 1),
                seed,
                w,
                (n - 1) * REPCUT_BITSET_BLOCK_SIZE,
                REPCUT_BITSET_BLOCK_SIZE as int,
            );
        }
    }
}

/// A hyperedge has the endpoints of its set, in ascending order, if there are no
/// more than the limit, and as many of them as the limit allows otherwise, none
/// of them twice.
pub proof fn edges_sample_their_sets(cs: Seq<(Seq<Option<Seq<u64>>>, usize)>, i: int)
    requires
        0 <= i < cs.len(),
    ensures
        ({
            let ends = edges_of(cs)[i].1;
            let all = members(cs[i].0, cs[i].0.len() as int);
            &&& all.len() <= REPCUT_HYPERGRAPH_EDGE_SIZE_LIMIT ==> ends == all
            &&& all.len() > REPCUT_HYPERGRAPH_EDGE_SIZE_LIMIT ==> ends.len()
                == REPCUT_HYPERGRAPH_EDGE_SIZE_LIMIT
            &&& forall|k: int| 0 <= k < ends.len() ==> all.contains(#[trigger] ends[k])
            &&& all.no_duplicates() ==> ends.no_duplicates()
        }),
{
    lemma_samples_blocks(
        REPCUT_EDGE_SEED.wrapping_add(i as u64),
        cs[i].0,
        cs[i].0.len() as int,
    );
}

} // verus!
