//! Which logic the endpoints share, and what the hyperedges say about it.
use crate::aig::{
    acyclic, cone_order, cone_order_is_topological, feeds, feeds_later, lemma_in_larger_cone,
    stands_before,
};
use crate::repcut_laws::{
    bits_are_endpoints_led_to, leads_to, lemma_no_set, lists, members, members_bits, reads,
};
use crate::repcut_model::{
    block_end, block_order, block_segs, fanouts_ok, full_words, has_bit, lemma_segs_full, node_set,
    num_blocks, ones_in_words, ones_upto, popcount, popcount_upto, range_ids, Source,
    REPCUT_BITSET_BLOCK_SIZE, REPCUT_BITSET_WORDS,
};

use crate::staging::{every_id, ids_ok, inputs_of, lemma_inputs_in_range, lemma_reader, reads_ok};
use vstd::prelude::*;

verus! {

/// Endpoint `e` depends on node `u`.
pub open spec fn depends(src: Source, e: int, u: usize) -> bool {
    cone_order(src.drivers, src.sources, src.groups[e].inputs@).contains(u)
}

/// The endpoints that depend on node `u`, in ascending order.
pub open spec fn shared_by(src: Source, u: usize) -> Seq<usize> {
    every_id(src.groups.len()).filter(|e: usize| depends(src, e as int, u))
}

/// The graph lists for each node the gates that it is an operand of, and no
/// others.
pub open spec fn lists_operands(src: Source) -> bool {
    forall|u: usize, v: usize|
        u < src.drivers.len() ==> (#[trigger] lists(src, u, v) <==> feeds(
            src.drivers,
            Set::empty(),
            u,
            v,
        ))
}

/// What the stage inputs are made of lies outside the stage: no endpoint depends
/// on an operand of a stage input.  Without stage inputs that holds always.
pub open spec fn inputs_apart(src: Source) -> bool {
    forall|f: usize, v: usize, e: int|
        src.sources.contains(v) && #[trigger] feeds(src.drivers, Set::empty(), f, v) && 0 <= e
            < src.groups.len() ==> !#[trigger] depends(src, e, f)
}

/// The graph has no cycles, the endpoints read its nodes, and machine words
/// number both.
pub open spec fn source_ok(src: Source) -> bool {
    &&& acyclic(src.drivers)
    &&& src.drivers.len() <= usize::MAX
    &&& src.groups.len() + REPCUT_BITSET_BLOCK_SIZE <= usize::MAX
    &&& fanouts_ok(src)
    &&& forall|e: int| 0 <= e < src.groups.len() ==> reads_ok(src.drivers, #[trigger] src.groups[e])
}

/// Whether endpoint `e` is in a set.
pub open spec fn has_endpoint(k: Seq<Option<Seq<u64>>>, e: int) -> bool {
    k[e / (REPCUT_BITSET_BLOCK_SIZE as int)] matches Some(w) && has_bit(
        w,
        e % (REPCUT_BITSET_BLOCK_SIZE as int),
    )
}

/// The endpoints below `n` in a set, in ascending order.
pub open spec fn endpoints_in(k: Seq<Option<Seq<u64>>>, n: nat) -> Seq<usize> {
    every_id(n).filter(|e: usize| has_endpoint(k, e as int))
}

/// The first endpoint of a block and the first behind it.
proof fn lemma_block(src: Source, b: int)
    requires
        source_ok(src),
        0 <= b < num_blocks(src.groups.len() as int),
    ensures
        ({
            let n = src.groups.len() as int;
            let st = b * REPCUT_BITSET_BLOCK_SIZE;
            let ed = block_end(n, b);
            let order = block_order(src, st, ed);
            let pins = inputs_of(src.groups, range_ids(st, ed));
            &&& 0 <= st < ed <= n
            &&& ed - st <= REPCUT_BITSET_BLOCK_SIZE
            &&& ids_ok(src.groups, range_ids(st, ed))
            &&& forall|i: int| 0 <= i < pins.len() ==> #[trigger] pins[i] < src.drivers.len()
            &&& order.no_duplicates()
            &&& forall|i: int| 0 <= i < order.len() ==> #[trigger] order[i] < src.drivers.len()
        }),
{
    let n = src.groups.len() as int;
    let st = b * REPCUT_BITSET_BLOCK_SIZE;
    let ed = block_end(n, b);
    let ids = range_ids(st, ed);
    lemma_inputs_in_range(src.drivers, src.groups, ids);
    cone_order_is_topological(src.drivers, src.sources, inputs_of(src.groups, ids));
}

/// What the set of a node holds in a block.
proof fn lemma_set_bits(src: Source, u: usize, b: int, t: int)
    requires
        source_ok(src),
        u < src.drivers.len(),
        0 <= b < num_blocks(src.groups.len() as int),
        0 <= t < REPCUT_BITSET_BLOCK_SIZE,
    ensures
        ({
            let st = b * REPCUT_BITSET_BLOCK_SIZE;
            let ed = block_end(src.groups.len() as int, b);
            let order = block_order(src, st, ed);
            match node_set(src, u as int)[b] {
                Some(w) => {
                    &&& order.contains(u)
                    &&& w.len() == REPCUT_BITSET_WORDS
                    &&& has_bit(w, t) <==> st + t < ed && leads_to(
                        src,
                        order,
                        order.index_of(u),
                        st + t,
                    )
                },
                None => !order.contains(u),
            }
        }),
{
    let st = b * REPCUT_BITSET_BLOCK_SIZE;
    let ed = block_end(src.groups.len() as int, b);
    let order = block_order(src, st, ed);
    lemma_block(src, b);
    lemma_segs_full(src, order, st, ed, 0);
    assert(node_set(src, u as int)[b] == block_segs(src, b)[u as int]);
    if order.contains(u) {
        bits_are_endpoints_led_to(src, order, st, ed, order.index_of(u), t);
    } else {
        lemma_no_set(src, order, st, ed, u);
    }
}

/// Every node that a block depends on is one that an endpoint of it depends on.
proof fn lemma_some_depends(src: Source, st: int, ed: int, k: int) -> (e: int)
    requires
        source_ok(src),
        0 <= st <= ed <= src.groups.len(),
        0 <= k < block_order(src, st, ed).len(),
    ensures
        st <= e < ed,
        depends(src, e, block_order(src, st, ed)[k]),
    decreases block_order(src, st, ed).len() - k,
{
    let order = block_order(src, st, ed);
    let ids = range_ids(st, ed);
    let pins = inputs_of(src.groups, ids);
    assert(ids_ok(src.groups, ids));
    lemma_inputs_in_range(src.drivers, src.groups, ids);
    cone_order_is_topological(src.drivers, src.sources, pins);
    if pins.contains(order[k]) {
        lemma_reader(src.groups, ids, order[k]);
        let i = choose|i: int|
            0 <= i < ids.len() && src.groups[#[trigger] ids[i] as int].inputs@.contains(order[k]);
        let e = st + i;
        let own = src.groups[e].inputs@;
        assert(reads_ok(src.drivers, src.groups[e]));
        cone_order_is_topological(src.drivers, src.sources, own);
        assert(cone_order(src.drivers, src.sources, own).contains(own[own.index_of(order[k])]));
        e
    } else {
        assert(feeds_later(src.drivers, src.sources, order, k));
        let m = choose|m: int|
            k < m < order.len() && #[trigger] feeds(src.drivers, src.sources, order[k], order[m]);
        let e = lemma_some_depends(src, st, ed, m);
        let own = src.groups[e].inputs@;
        let a = cone_order(src.drivers, src.sources, own);
        assert(reads_ok(src.drivers, src.groups[e]));
        cone_order_is_topological(src.drivers, src.sources, own);
        let p = a.index_of(order[m]);
        assert(feeds(src.drivers, src.sources, order[k], a[p]));
        assert(stands_before(a, order[k], p));
        let i = choose|i: int| 0 <= i < p && #[trigger] a[i] == order[k];
        assert(a.contains(a[i]));
        e
    }
}

/// A node that leads to an endpoint is one that the endpoint depends on.
proof fn lemma_led_depends(src: Source, st: int, ed: int, k: int, e: int)
    requires
        source_ok(src),
        lists_operands(src),
        inputs_apart(src),
        0 <= st <= ed <= src.groups.len(),
        0 <= k < block_order(src, st, ed).len(),
        forall|i: int|
            0 <= i < block_order(src, st, ed).len() ==> #[trigger] block_order(src, st, ed)[i]
                < src.drivers.len(),
        0 <= e < src.groups.len(),
        leads_to(src, block_order(src, st, ed), k, e),
    ensures
        depends(src, e, block_order(src, st, ed)[k]),
    decreases block_order(src, st, ed).len() - k,
{
    let order = block_order(src, st, ed);
    let pins = src.groups[e].inputs@;
    let a = cone_order(src.drivers, src.sources, pins);
    assert(reads_ok(src.drivers, src.groups[e]));
    cone_order_is_topological(src.drivers, src.sources, pins);
    if reads(src.groups, e, order[k]) {
        let i = pins.index_of(order[k]);
        assert(a.contains(pins[i]));
    } else {
        let p = choose|p: int|
            k < p < order.len() && lists(src, order[k], #[trigger] order[p]) && leads_to(
                src,
                order,
                p,
                e,
            );
        lemma_led_depends(src, st, ed, p, e);
        let m = a.index_of(order[p]);
        assert(feeds(src.drivers, Set::empty(), order[k], order[p]));
        assert(!src.sources.contains(order[p])) by {
            let d = lemma_some_depends(src, st, ed, k);
            assert(depends(src, d, order[k]));
        }
        assert(feeds(src.drivers, src.sources, order[k], a[m]));
        assert(stands_before(a, order[k], m));
        let i = choose|i: int| 0 <= i < m && #[trigger] a[i] == order[k];
        assert(a.contains(a[i]));
    }
}

/// What an endpoint depends on leads to it.
proof fn lemma_depends_led(src: Source, b: int, e: int, i: int)
    requires
        source_ok(src),
        lists_operands(src),
        0 <= b < num_blocks(src.groups.len() as int),
        b * REPCUT_BITSET_BLOCK_SIZE <= e < block_end(src.groups.len() as int, b),
        0 <= i < cone_order(src.drivers, src.sources, src.groups[e].inputs@).len(),
    ensures
        ({
            let st = b * REPCUT_BITSET_BLOCK_SIZE;
            let order = block_order(src, st, block_end(src.groups.len() as int, b));
            let u = cone_order(src.drivers, src.sources, src.groups[e].inputs@)[i];
            &&& order.contains(u)
            &&& leads_to(src, order, order.index_of(u), e)
        }),
    decreases cone_order(src.drivers, src.sources, src.groups[e].inputs@).len() - i,
{
    let st = b * REPCUT_BITSET_BLOCK_SIZE;
    let ed = block_end(src.groups.len() as int, b);
    let order = block_order(src, st, ed);
    let pins = src.groups[e].inputs@;
    let all = inputs_of(src.groups, range_ids(st, ed));
    let a = cone_order(src.drivers, src.sources, pins);
    lemma_block(src, b);
    assert(reads_ok(src.drivers, src.groups[e]));
    cone_order_is_topological(src.drivers, src.sources, pins);
    cone_order_is_topological(src.drivers, src.sources, all);
    assert forall|j: int| 0 <= j < pins.len() implies all.contains(#[trigger] pins[j]) by {
        lemma_reader(src.groups, range_ids(st, ed), pins[j]);
        assert(range_ids(st, ed)[e - st] == e);
        assert(src.groups[range_ids(st, ed)[e - st] as int].inputs@.contains(pins[j]));
    }
    lemma_in_larger_cone(src.drivers, src.sources, src.sources, pins, all, i);
    let k = order.index_of(a[i]);
    assert(order[k] == a[i]);
    if pins.contains(a[i]) {
        assert(reads(src.groups, e, order[k]));
    } else {
        assert(feeds_later(src.drivers, src.sources, a, i));
        let m = choose|m: int|
            i < m < a.len() && #[trigger] feeds(src.drivers, src.sources, a[i], a[m]);
        lemma_depends_led(src, b, e, m);
        let p = order.index_of(a[m]);
        assert(order[p] == a[m]);
        assert(feeds(src.drivers, src.sources, order[k], order[p]));
        assert(stands_before(order, order[k], p));
        let q = choose|q: int| 0 <= q < p && #[trigger] order[q] == order[k];
        assert(q == k);
        assert(lists(src, order[k], order[p]));
    }
}

/// The set of a node holds exactly the endpoints that depend on it inside the
/// stage: those whose inputs are reached from the node along operands without
/// passing through a stage input.
pub proof fn sets_name_the_dependent_endpoints(src: Source, u: usize, e: int)
    requires
        source_ok(src),
        lists_operands(src),
        inputs_apart(src),
        u < src.drivers.len(),
        0 <= e < src.groups.len(),
    ensures
        has_endpoint(node_set(src, u as int), e) <==> depends(src, e, u),
{
    let b = e / (REPCUT_BITSET_BLOCK_SIZE as int);
    let t = e % (REPCUT_BITSET_BLOCK_SIZE as int);
    let st = b * REPCUT_BITSET_BLOCK_SIZE;
    let ed = block_end(src.groups.len() as int, b);
    let order = block_order(src, st, ed);
    assert(e == st + t);
    assert(0 <= b < num_blocks(src.groups.len() as int));
    lemma_block(src, b);
    lemma_set_bits(src, u, b, t);
    if depends(src, e, u) {
        let a = cone_order(src.drivers, src.sources, src.groups[e].inputs@);
        lemma_depends_led(src, b, e, a.index_of(u));
    }
    if has_endpoint(node_set(src, u as int), e) {
        lemma_led_depends(src, st, ed, order.index_of(u), e);
    }
}

/// One endpoint more.
proof fn lemma_endpoints_step(k: Seq<Option<Seq<u64>>>, n: nat)
    requires
        n < usize::MAX,
    ensures
        endpoints_in(k, n + 1) == if has_endpoint(k, n as int) {
            endpoints_in(k, n).push(n as usize)
        } else {
            endpoints_in(k, n)
        },
{
    reveal(Seq::filter);
    assert(every_id(n + 1).drop_last() =~= every_id(n));
}

/// The endpoints of a set are listed once each, in ascending order.
pub proof fn lemma_endpoints(k: Seq<Option<Seq<u64>>>, n: nat)
    requires
        n <= usize::MAX,
    ensures
        forall|i: int, j: int|
            0 <= i < j < endpoints_in(k, n).len() ==> #[trigger] endpoints_in(k, n)[i]
                < #[trigger] endpoints_in(k, n)[j],
        forall|i: int|
            0 <= i < endpoints_in(k, n).len() ==> #[trigger] endpoints_in(k, n)[i] < n
                && has_endpoint(k, endpoints_in(k, n)[i] as int),
        forall|e: usize|
            e < n && has_endpoint(k, e as int) ==> #[trigger] endpoints_in(k, n).contains(e),
    decreases n,
{
    if n == 0 {
        reveal(Seq::filter);
        assert(endpoints_in(k, 0) =~= Seq::empty());
    } else {
        let m = (n - 1) as nat;
        lemma_endpoints(k, m);
        lemma_endpoints_step(k, m);
        let s = endpoints_in(k, m);
        let r = endpoints_in(k, n);
        assert forall|e: usize| e < n && has_endpoint(k, e as int) implies #[trigger] r.contains(
            e,
        ) by {
            if e < m {
                assert(s.contains(e));
                assert(r[s.index_of(e)] == e);
            } else {
                assert(r[s.len() as int] == e);
            }
        }
    }
}

/// Endpoints that are not in the set do not count.
proof fn lemma_endpoints_none(k: Seq<Option<Seq<u64>>>, n: nat, m: nat)
    requires
        n <= m <= usize::MAX,
        forall|e: int| n <= e < m ==> !#[trigger] has_endpoint(k, e),
    ensures
        endpoints_in(k, m) == endpoints_in(k, n),
    decreases m,
{
    if n < m {
        lemma_endpoints_none(k, n, (m - 1) as nat);
        lemma_endpoints_step(k, (m - 1) as nat);
    }
}

/// The first endpoint behind the first `b` blocks and `t` endpoints.
spec fn upto(n: int, b: int, t: int) -> nat {
    let e = b * REPCUT_BITSET_BLOCK_SIZE + t;
    (if e <= n {
        e
    } else {
        n
    }) as nat
}

/// A set holds no endpoint from `n` on.
spec fn confined(k: Seq<Option<Seq<u64>>>, n: int) -> bool {
    &&& n + REPCUT_BITSET_BLOCK_SIZE <= usize::MAX
    &&& k.len() == num_blocks(n)
    &&& full_words(k)
    &&& forall|e: int|
        n <= e < k.len() * REPCUT_BITSET_BLOCK_SIZE ==> !#[trigger] has_endpoint(k, e)
}

/// The members of a block are its endpoints.
proof fn lemma_members_bits(k: Seq<Option<Seq<u64>>>, n: int, b: int, t: int)
    requires
        0 <= n,
        confined(k, n),
        0 <= b < k.len(),
        k[b] is Some,
        0 <= t <= REPCUT_BITSET_BLOCK_SIZE,
    ensures
        members_bits(
            endpoints_in(k, upto(n, b, 0)),
            k[b].unwrap(),
            b * REPCUT_BITSET_BLOCK_SIZE,
            t,
        ) == endpoints_in(k, upto(n, b, t)),
    decreases t,
{
    if t > 0 {
        let e = b * REPCUT_BITSET_BLOCK_SIZE + t - 1;
        lemma_members_bits(k, n, b, t - 1);
        assert(e / (REPCUT_BITSET_BLOCK_SIZE as int) == b && e % (REPCUT_BITSET_BLOCK_SIZE as int)
            == t - 1);
        assert(has_endpoint(k, e) == has_bit(k[b].unwrap(), t - 1));
        if e < n {
            lemma_endpoints_step(k, e as nat);
        } else {
            assert(!has_endpoint(k, e));
        }
    }
}

/// The members of a set are its endpoints.
proof fn lemma_members(k: Seq<Option<Seq<u64>>>, n: int, b: int)
    requires
        0 <= n,
        confined(k, n),
        0 <= b <= k.len(),
    ensures
        members(k, b) == endpoints_in(k, upto(n, b, 0)),
    decreases b,
{
    if b == 0 {
        reveal(Seq::filter);
        assert(endpoints_in(k, 0) =~= Seq::empty());
    } else {
        lemma_members(k, n, b - 1);
        assert(upto(n, b - 1, REPCUT_BITSET_BLOCK_SIZE as int) == upto(n, b, 0));
        if k[b - 1] is Some {
            lemma_members_bits(k, n, b - 1, REPCUT_BITSET_BLOCK_SIZE as int);
        } else {
            assert forall|e: int| upto(n, b - 1, 0) <= e < upto(n, b, 0) implies !#[trigger]
                has_endpoint(k, e) by {
                assert(e / (REPCUT_BITSET_BLOCK_SIZE as int) == b - 1);
            }
            lemma_endpoints_none(k, upto(n, b - 1, 0), upto(n, b, 0));
        }
    }
}

/// Each bit of a word counts one member.
proof fn lemma_word_members(s: Seq<usize>, w: Seq<u64>, base: int, i: int, j: int)
    requires
        0 <= i,
        0 <= j <= 64,
    ensures
        members_bits(s, w, base, 64 * i + j).len() == members_bits(s, w, base, 64 * i).len()
            + ones_upto(w[i], j),
    decreases j,
{
    if j > 0 {
        lemma_word_members(s, w, base, i, j - 1);
        let t = 64 * i + j - 1;
        assert(t / 64 == i && t % 64 == j - 1);
    }
}

/// Each bit counts one member.
proof fn lemma_words_members(s: Seq<usize>, w: Seq<u64>, base: int, n: int)
    requires
        0 <= n,
    ensures
        members_bits(s, w, base, 64 * n).len() == s.len() + ones_in_words(w, n),
    decreases n,
{
    if n > 0 {
        lemma_words_members(s, w, base, n - 1);
        lemma_word_members(s, w, base, n - 1, 64);
    }
}

/// A set has as many members as bits.
proof fn lemma_popcount(k: Seq<Option<Seq<u64>>>, n: int)
    requires
        full_words(k),
        0 <= n <= k.len(),
    ensures
        members(k, n).len() == popcount_upto(k, n),
    decreases n,
{
    if n > 0 {
        lemma_popcount(k, n - 1);
        if let Some(w) = k[n - 1] {
            lemma_words_members(
                members(k, n - 1),
                w,
                (n - 1) * REPCUT_BITSET_BLOCK_SIZE,
                REPCUT_BITSET_WORDS as int,
            );
        }
    }
}

/// The set of a node is confined to the endpoints.
proof fn lemma_confined(src: Source, u: usize)
    requires
        source_ok(src),
        u < src.drivers.len(),
    ensures
        confined(node_set(src, u as int), src.groups.len() as int),
{
    let n = src.groups.len() as int;
    let k = node_set(src, u as int);
    assert forall|b: int| 0 <= b < k.len() implies (#[trigger] k[b] matches Some(w) ==> w.len()
        == REPCUT_BITSET_WORDS) by {
        lemma_set_bits(src, u, b, 0);
    }
    assert forall|e: int|
        n <= e < k.len() * REPCUT_BITSET_BLOCK_SIZE implies !#[trigger] has_endpoint(k, e) by {
        let b = e / (REPCUT_BITSET_BLOCK_SIZE as int);
        lemma_set_bits(src, u, b, e % (REPCUT_BITSET_BLOCK_SIZE as int));
        lemma_block(src, b);
    }
}

/// The members of the set of a node, and how many they are.
pub proof fn lemma_set_members(src: Source, u: usize)
    requires
        source_ok(src),
        u < src.drivers.len(),
    ensures
        ({
            let k = node_set(src, u as int);
            let all = members(k, k.len() as int);
            &&& all == endpoints_in(k, src.groups.len())
            &&& all.len() == popcount(k)
            &&& all.no_duplicates()
            &&& forall|i: int| 0 <= i < all.len() ==> #[trigger] all[i] < src.groups.len()
            &&& forall|i: int, j: int| 0 <= i < j < all.len() ==> all[i] < all[j]
        }),
{
    let n = src.groups.len() as int;
    let k = node_set(src, u as int);
    lemma_confined(src, u);
    lemma_members(k, n, k.len() as int);
    assert(upto(n, k.len() as int, 0) == n);
    lemma_popcount(k, k.len() as int);
    lemma_endpoints(k, n as nat);
}

/// Words whose bits from `n` on are equal.
proof fn lemma_high_bits(x: u64, y: u64, n: u64)
    requires
        n < 64,
        forall|j: u64| n <= j < 64 ==> (#[trigger] (x >> j) & 1 != 0 <==> (y >> j) & 1 != 0),
    ensures
        x >> n == y >> n,
    decreases 64 - n,
{
    if n == 63 {
        assert((x >> 63) & 1 == x >> 63) by (bit_vector);
        assert((y >> 63) & 1 == y >> 63) by (bit_vector);
        assert((x >> 63) & 1 <= 1 && (y >> 63) & 1 <= 1) by (bit_vector);
        assert((x >> n) & 1 != 0 <==> (y >> n) & 1 != 0);
    } else {
        let m = (n + 1) as u64;
        lemma_high_bits(x, y, m);
        assert((x >> n) & 1 != 0 <==> (y >> n) & 1 != 0);
        assert(x >> n == y >> n) by (bit_vector)
            requires
                n < 63,
                m == n + 1,
                x >> m == y >> m,
                (x >> n) & 1 != 0 <==> (y >> n) & 1 != 0,
        ;
    }
}

/// Bit sets with the same members are the same.
proof fn lemma_same_words(a: Seq<u64>, b: Seq<u64>)
    requires
        a.len() == REPCUT_BITSET_WORDS,
        b.len() == REPCUT_BITSET_WORDS,
        forall|t: int| 0 <= t < REPCUT_BITSET_BLOCK_SIZE ==> #[trigger] has_bit(a, t) == has_bit(b, t),
    ensures
        a == b,
{
    assert forall|i: int| 0 <= i < a.len() implies a[i] == b[i] by {
        let x = a[i];
        let y = b[i];
        assert forall|j: u64| 0 <= j < 64 implies (#[trigger] (x >> j) & 1 != 0 <==> (y >> j) & 1
            != 0) by {
            let t = 64 * i + j;
            assert(t / 64 == i && t % 64 == j);
            assert(has_bit(a, t) == has_bit(b, t));
        }
        lemma_high_bits(x, y, 0);
        assert(x >> 0 == x) by (bit_vector);
        assert(y >> 0 == y) by (bit_vector);
    }
    assert(a =~= b);
}

/// The endpoints of the set of a node are those that depend on it.
pub proof fn lemma_shared(src: Source, u: usize)
    requires
        source_ok(src),
        lists_operands(src),
        inputs_apart(src),
        u < src.drivers.len(),
    ensures
        members(node_set(src, u as int), node_set(src, u as int).len() as int) == shared_by(src, u),
{
    let k = node_set(src, u as int);
    let p = |e: usize| has_endpoint(k, e as int);
    let q = |e: usize| depends(src, e as int, u);
    lemma_set_members(src, u);
    assert forall|e: usize| e < src.groups.len() implies #[trigger] p(e) == q(e) by {
        sets_name_the_dependent_endpoints(src, u, e as int);
    }
    lemma_same_filter(src.groups.len(), p, q);
}

/// Conditions that agree pick the same numbers.
pub proof fn lemma_same_filter(n: nat, p: spec_fn(usize) -> bool, q: spec_fn(usize) -> bool)
    requires
        n <= usize::MAX,
        forall|e: usize| e < n ==> #[trigger] p(e) == q(e),
    ensures
        every_id(n).filter(p) == every_id(n).filter(q),
    decreases n,
{
    reveal(Seq::filter);
    if n > 0 {
        lemma_same_filter((n - 1) as nat, p, q);
        assert(every_id(n).drop_last() =~= every_id((n - 1) as nat));
        assert(p((n - 1) as usize) == q((n - 1) as usize));
    }
}

/// A bit set without members is left out.
proof fn lemma_block_led(src: Source, u: usize, b: int) -> (t: int)
    requires
        source_ok(src),
        lists_operands(src),
        u < src.drivers.len(),
        0 <= b < num_blocks(src.groups.len() as int),
        node_set(src, u as int)[b] is Some,
    ensures
        0 <= t < REPCUT_BITSET_BLOCK_SIZE,
        b * REPCUT_BITSET_BLOCK_SIZE + t < src.groups.len(),
        has_endpoint(node_set(src, u as int), b * REPCUT_BITSET_BLOCK_SIZE + t),
{
    let st = b * REPCUT_BITSET_BLOCK_SIZE;
    let ed = block_end(src.groups.len() as int, b);
    let order = block_order(src, st, ed);
    lemma_block(src, b);
    lemma_set_bits(src, u, b, 0);
    let e = lemma_leads_somewhere(src, st, ed, order.index_of(u));
    lemma_set_bits(src, u, b, e - st);
    assert(e / (REPCUT_BITSET_BLOCK_SIZE as int) == b && e % (REPCUT_BITSET_BLOCK_SIZE as int) == e
        - st);
    e - st
}

/// Every node that a block depends on leads to one of its endpoints.
proof fn lemma_leads_somewhere(src: Source, st: int, ed: int, k: int) -> (e: int)
    requires
        source_ok(src),
        lists_operands(src),
        0 <= st <= ed <= src.groups.len(),
        0 <= k < block_order(src, st, ed).len(),
    ensures
        st <= e < ed,
        leads_to(src, block_order(src, st, ed), k, e),
    decreases block_order(src, st, ed).len() - k,
{
    let order = block_order(src, st, ed);
    let ids = range_ids(st, ed);
    let pins = inputs_of(src.groups, ids);
    assert(ids_ok(src.groups, ids));
    lemma_inputs_in_range(src.drivers, src.groups, ids);
    cone_order_is_topological(src.drivers, src.sources, pins);
    if pins.contains(order[k]) {
        lemma_reader(src.groups, ids, order[k]);
        let i = choose|i: int|
            0 <= i < ids.len() && src.groups[#[trigger] ids[i] as int].inputs@.contains(order[k]);
        assert(reads(src.groups, st + i, order[k]));
        st + i
    } else {
        assert(feeds_later(src.drivers, src.sources, order, k));
        let m = choose|m: int|
            k < m < order.len() && #[trigger] feeds(src.drivers, src.sources, order[k], order[m]);
        let e = lemma_leads_somewhere(src, st, ed, m);
        assert(lists(src, order[k], order[m]));
        e
    }
}

/// Nodes have the same set exactly if the same endpoints depend on them.
pub proof fn sets_tell_nodes_apart(src: Source, u: usize, v: usize)
    requires
        source_ok(src),
        lists_operands(src),
        inputs_apart(src),
        u < src.drivers.len(),
        v < src.drivers.len(),
    ensures
        node_set(src, u as int) == node_set(src, v as int) <==> shared_by(src, u) == shared_by(
            src,
            v,
        ),
{
    let n = src.groups.len();
    let j = node_set(src, u as int);
    let k = node_set(src, v as int);
    lemma_shared(src, u);
    lemma_shared(src, v);
    lemma_set_members(src, u);
    lemma_set_members(src, v);
    if shared_by(src, u) == shared_by(src, v) {
        lemma_endpoints(j, n);
        lemma_endpoints(k, n);
        lemma_confined(src, u);
        lemma_confined(src, v);
        assert forall|e: int| 0 <= e < n implies #[trigger] has_endpoint(j, e) == has_endpoint(
            k,
            e,
        ) by {
            let x = e as usize;
            if has_endpoint(j, e) {
                assert(endpoints_in(j, n).contains(x));
                let i = endpoints_in(k, n).index_of(x);
                assert(has_endpoint(k, endpoints_in(k, n)[i] as int));
            }
            if has_endpoint(k, e) {
                assert(endpoints_in(k, n).contains(x));
                let i = endpoints_in(j, n).index_of(x);
                assert(has_endpoint(j, endpoints_in(j, n)[i] as int));
            }
        }
        assert forall|b: int| 0 <= b < j.len() implies j[b] == k[b] by {
            lemma_same_block(src, u, v, b);
        }
        assert(j =~= k);
    }
}

/// Where the endpoints of two nodes agree, the blocks of their sets do.
proof fn lemma_same_block(src: Source, u: usize, v: usize, b: int)
    requires
        source_ok(src),
        lists_operands(src),
        u < src.drivers.len(),
        v < src.drivers.len(),
        0 <= b < num_blocks(src.groups.len() as int),
        forall|e: int|
            0 <= e < src.groups.len() ==> #[trigger] has_endpoint(node_set(src, u as int), e)
                == has_endpoint(node_set(src, v as int), e),
        confined(node_set(src, u as int), src.groups.len() as int),
        confined(node_set(src, v as int), src.groups.len() as int),
    ensures
        node_set(src, u as int)[b] == node_set(src, v as int)[b],
{
    let n = src.groups.len() as int;
    let j = node_set(src, u as int);
    let k = node_set(src, v as int);
    let st = b * REPCUT_BITSET_BLOCK_SIZE;
    if j[b] is Some {
        let t = lemma_block_led(src, u, b);
        assert(has_endpoint(k, st + t));
        assert((st + t) / (REPCUT_BITSET_BLOCK_SIZE as int) == b);
    }
    if k[b] is Some {
        let t = lemma_block_led(src, v, b);
        assert(has_endpoint(j, st + t));
        assert((st + t) / (REPCUT_BITSET_BLOCK_SIZE as int) == b);
    }
    if j[b] is Some && k[b] is Some {
        let w = j[b].unwrap();
        let x = k[b].unwrap();
        assert forall|t: int| 0 <= t < REPCUT_BITSET_BLOCK_SIZE implies #[trigger] has_bit(w, t)
            == has_bit(x, t) by {
            let e = st + t;
            assert(e / (REPCUT_BITSET_BLOCK_SIZE as int) == b && e % (
            REPCUT_BITSET_BLOCK_SIZE as int) == t);
            assert(has_endpoint(j, e) == has_bit(w, t));
            assert(has_endpoint(k, e) == has_bit(x, t));
        }
        lemma_same_words(w, x);
    }
}

/// Whatever the stage inputs are, the set of a node holds every endpoint that
/// depends on it inside the stage; and a node whose set holds an endpoint is one
/// that an endpoint of the same block depends on inside the stage.
pub proof fn sets_stay_inside_the_stage(src: Source, u: usize, e: int)
    requires
        source_ok(src),
        lists_operands(src),
        u < src.drivers.len(),
        0 <= e < src.groups.len(),
    ensures
        depends(src, e, u) ==> has_endpoint(node_set(src, u as int), e),
        has_endpoint(node_set(src, u as int), e) ==> exists|d: int|
            0 <= d < src.groups.len() && d / 4096 == e / 4096 && #[trigger] depends(src, d, u),
{
    let b = e / (REPCUT_BITSET_BLOCK_SIZE as int);
    let t = e % (REPCUT_BITSET_BLOCK_SIZE as int);
    let st = b * REPCUT_BITSET_BLOCK_SIZE;
    let ed = block_end(src.groups.len() as int, b);
    let order = block_order(src, st, ed);
    assert(e == st + t);
    lemma_block(src, b);
    lemma_set_bits(src, u, b, t);
    if depends(src, e, u) {
        let a = cone_order(src.drivers, src.sources, src.groups[e].inputs@);
        lemma_depends_led(src, b, e, a.index_of(u));
    }
    if has_endpoint(node_set(src, u as int), e) {
        let d = lemma_some_depends(src, st, ed, order.index_of(u));
        assert(depends(src, d, u));
        assert(d / 4096 == b);
    }
}

} // verus!
