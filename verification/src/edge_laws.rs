//! What the hyperedges of a design are and how heavy they are.
use crate::repcut_laws::{
    clusters_count_nodes, edges_sample_their_sets, lemma_nodes_bound, members, nodes_with,
};
use crate::repcut_model::{
    classes_upto, counted, edges_of, lemma_counts, node_set, popcount, Source,
    REPCUT_HYPERGRAPH_EDGE_SIZE_LIMIT,
};
use crate::segments::{keys_of, value_of};
use crate::sharing_laws::{
    inputs_apart, lemma_set_members, lemma_shared, lists_operands, sets_tell_nodes_apart, shared_by,
    source_ok,
};
use vstd::prelude::*;

verus! {

/// The weight of some hyperedges together.
pub open spec fn weight_sum(es: Seq<(usize, Seq<usize>)>) -> nat
    decreases es.len(),
{
    if es.len() == 0 {
        0
    } else {
        weight_sum(es.drop_last()) + es.last().0 as nat
    }
}

/// The number of nodes from 1 up to `n` whose sets have two endpoints or more.
pub open spec fn nodes_in_sets(src: Source, n: int) -> nat
    decreases n,
{
    if n <= 1 {
        0
    } else {
        nodes_in_sets(src, n - 1) + (if popcount(node_set(src, n - 1)) >= 2 {
            1nat
        } else {
            0nat
        })
    }
}

/// The number of nodes from 1 up to `n` that two endpoints or more depend on.
pub open spec fn nodes_in_common(src: Source, n: int) -> nat
    decreases n,
{
    if n <= 1 {
        0
    } else {
        nodes_in_common(src, n - 1) + (if shared_by(src, (n - 1) as usize).len() >= 2 {
            1nat
        } else {
            0nat
        })
    }
}

/// The number of nodes from 1 up to `n` that the endpoints `s` depend on, and
/// no others.
pub open spec fn nodes_shared(src: Source, n: int, s: Seq<usize>) -> nat
    decreases n,
{
    if n <= 1 {
        0
    } else {
        nodes_shared(src, n - 1, s) + (if shared_by(src, (n - 1) as usize) == s {
            1nat
        } else {
            0nat
        })
    }
}

/// A heavier hyperedge.
proof fn lemma_weight_update(es: Seq<(usize, Seq<usize>)>, i: int, e: (usize, Seq<usize>))
    requires
        0 <= i < es.len(),
    ensures
        weight_sum(es.update(i, e)) + es[i].0 == weight_sum(es) + e.0,
    decreases es.len(),
{
    let r = es.update(i, e);
    if i == es.len() - 1 {
        assert(r.drop_last() =~= es.drop_last());
    } else {
        lemma_weight_update(es.drop_last(), i, e);
        assert(r.drop_last() =~= es.drop_last().update(i, e));
    }
}

/// The weights of the classes alone.
spec fn weights_of(cs: Seq<(Seq<Option<Seq<u64>>>, usize)>) -> Seq<(usize, Seq<usize>)> {
    cs.map_values(|c: (Seq<Option<Seq<u64>>>, usize)| (c.1, Seq::<usize>::empty()))
}

/// Counting a node adds one to the weight.
proof fn lemma_counted_weight(
    cs: Seq<(Seq<Option<Seq<u64>>>, usize)>,
    k: Seq<Option<Seq<u64>>>,
)
    requires
        forall|i: int| 0 <= i < cs.len() ==> (#[trigger] cs[i]).1 < usize::MAX,
    ensures
        weight_sum(weights_of(counted(cs, k))) == weight_sum(weights_of(cs)) + 1,
{
    let w = weights_of(cs);
    let r = counted(cs, k);
    let none = Seq::<usize>::empty();
    if keys_of(cs).contains(k) {
        let i = keys_of(cs).index_of(k);
        let c = (cs[i].1 + 1) as usize;
        assert(weights_of(r) =~= w.update(i, (c, none)));
        lemma_weight_update(w, i, (c, none));
    } else {
        assert(weights_of(r) =~= w.push((1usize, none)));
        assert(w.push((1usize, none)).drop_last() =~= w);
    }
}

/// The hyperedges weigh as much as their classes.
proof fn lemma_edges_weight(es: Seq<(usize, Seq<usize>)>, ws: Seq<(usize, Seq<usize>)>)
    requires
        es.len() == ws.len(),
        forall|i: int| 0 <= i < es.len() ==> (#[trigger] es[i]).0 == ws[i].0,
    ensures
        weight_sum(es) == weight_sum(ws),
    decreases es.len(),
{
    if es.len() > 0 {
        assert forall|i: int| 0 <= i < es.len() - 1 implies (#[trigger] es.drop_last()[i]).0
            == ws.drop_last()[i].0 by {
            assert(es[i].0 == ws[i].0);
        }
        lemma_edges_weight(es.drop_last(), ws.drop_last());
        assert(es[es.len() - 1].0 == ws[es.len() - 1].0);
    }
}

/// The classes weigh as much as there are nodes in them.
proof fn lemma_classes_weight(src: Source, n: int)
    requires
        0 <= n <= usize::MAX,
    ensures
        weight_sum(weights_of(classes_upto(src, n))) == nodes_in_sets(src, n),
    decreases n,
{
    if n > 1 {
        let cs = classes_upto(src, n - 1);
        lemma_classes_weight(src, n - 1);
        lemma_counts(src, n - 1);
        if popcount(node_set(src, n - 1)) >= 2 {
            lemma_counted_weight(cs, node_set(src, n - 1));
        }
    }
}

/// The weights of the hyperedges add up to the number of nodes whose sets have
/// two endpoints or more: every such node counts once.
pub proof fn weights_count_every_node(src: Source, n: int)
    requires
        0 <= n <= usize::MAX,
    ensures
        weight_sum(edges_of(classes_upto(src, n))) == nodes_in_sets(src, n),
{
    let cs = classes_upto(src, n);
    lemma_classes_weight(src, n);
    lemma_edges_weight(edges_of(cs), weights_of(cs));
}

/// The weights of the hyperedges add up to the number of nodes that two endpoints
/// or more depend on inside the stage.
pub proof fn weights_count_common_logic(src: Source, n: int)
    requires
        source_ok(src),
        lists_operands(src),
        inputs_apart(src),
        0 <= n <= src.drivers.len(),
    ensures
        weight_sum(edges_of(classes_upto(src, n))) == nodes_in_common(src, n),
{
    weights_count_every_node(src, n);
    lemma_in_common(src, n);
}

/// A node's set has the endpoints that depend on it.
proof fn lemma_in_common(src: Source, n: int)
    requires
        source_ok(src),
        lists_operands(src),
        inputs_apart(src),
        0 <= n <= src.drivers.len(),
    ensures
        nodes_in_sets(src, n) == nodes_in_common(src, n),
    decreases n,
{
    if n > 1 {
        lemma_in_common(src, n - 1);
        lemma_set_members(src, (n - 1) as usize);
        lemma_shared(src, (n - 1) as usize);
    }
}

/// A set that counts a node is the set of a node.
proof fn lemma_some_node(src: Source, n: int, k: Seq<Option<Seq<u64>>>) -> (u: int)
    requires
        nodes_with(src, n, k) > 0,
    ensures
        1 <= u < n,
        node_set(src, u) == k,
    decreases n,
{
    if node_set(src, n - 1) == k {
        n - 1
    } else {
        lemma_some_node(src, n - 1, k)
    }
}

/// Every class is the set of a node, and counts the nodes that have it.
proof fn lemma_class(src: Source, n: int, i: int) -> (u: int)
    requires
        0 <= n <= usize::MAX,
        0 <= i < classes_upto(src, n).len(),
    ensures
        1 <= u < n,
        classes_upto(src, n)[i].0 == node_set(src, u),
        popcount(node_set(src, u)) >= 2,
        classes_upto(src, n)[i].1 == nodes_with(src, n, node_set(src, u)),
        classes_upto(src, n)[i].1 > 0,
{
    let cs = classes_upto(src, n);
    let k = cs[i].0;
    clusters_count_nodes(src, n, k);
    assert(keys_of(cs)[i] == k);
    assert(keys_of(cs).index_of(k) == i);
    let u = lemma_some_node(src, n, k);
    lemma_counts(src, n);
    assert(cs[i].1 == nodes_with(src, n, k)) by {
        lemma_nodes_bound(src, n, k);
    }
    u
}

/// `ends` are the endpoints of the set of node `u`, in ascending order, or as
/// many of them as a hyperedge may have.
pub open spec fn is_edge_of(src: Source, u: int, ends: Seq<usize>) -> bool {
    let all = members(node_set(src, u), node_set(src, u).len() as int);
    &&& forall|i: int, j: int| 0 <= i < j < all.len() ==> all[i] < all[j]
    &&& if all.len() <= REPCUT_HYPERGRAPH_EDGE_SIZE_LIMIT {
        ends == all
    } else {
        &&& ends.len() == REPCUT_HYPERGRAPH_EDGE_SIZE_LIMIT
        &&& forall|k: int| 0 <= k < ends.len() ==> all.contains(#[trigger] ends[k])
    }
}

/// A hyperedge weighs something, and it joins two endpoints or more, no more
/// than the limit, and none twice.  It belongs to a node: it has all endpoints
/// of the node's set in ascending order if these are within the limit, and
/// otherwise as many of them as the limit allows.
pub proof fn edges_are_well_formed(src: Source, n: int, i: int)
    requires
        source_ok(src),
        0 <= n <= src.drivers.len(),
        0 <= i < edges_of(classes_upto(src, n)).len(),
    ensures
        ({
            let (weight, ends) = edges_of(classes_upto(src, n))[i];
            &&& 1 <= weight <= n
            &&& 2 <= ends.len() <= REPCUT_HYPERGRAPH_EDGE_SIZE_LIMIT
            &&& ends.no_duplicates()
            &&& forall|k: int| 0 <= k < ends.len() ==> #[trigger] ends[k] < src.groups.len()
            &&& exists|u: int| 1 <= u < n && #[trigger] is_edge_of(src, u, ends)
        }),
{
    let cs = classes_upto(src, n);
    let u = lemma_class(src, n, i);
    let k = node_set(src, u);
    let ends = edges_of(cs)[i].1;
    let all = members(k, k.len() as int);
    lemma_set_members(src, u as usize);
    edges_sample_their_sets(cs, i);
    lemma_nodes_bound(src, n, k);
    assert(is_edge_of(src, u, ends));
    assert forall|j: int| 0 <= j < ends.len() implies #[trigger] ends[j] < src.groups.len() by {
        assert(all.contains(ends[j]));
        assert(all[all.index_of(ends[j])] < src.groups.len());
    }
}

/// The nodes of a class are those that its endpoints share.
proof fn lemma_nodes_shared(src: Source, n: int, u: usize)
    requires
        source_ok(src),
        lists_operands(src),
        inputs_apart(src),
        0 <= n <= src.drivers.len(),
        u < src.drivers.len(),
    ensures
        nodes_with(src, n, node_set(src, u as int)) == nodes_shared(src, n, shared_by(src, u)),
    decreases n,
{
    if n > 1 {
        lemma_nodes_shared(src, n - 1, u);
        sets_tell_nodes_apart(src, (n - 1) as usize, u);
    }
}

/// Endpoints that share nodes share one of them.
proof fn lemma_some_shared(src: Source, n: int, s: Seq<usize>) -> (u: int)
    requires
        nodes_shared(src, n, s) > 0,
    ensures
        1 <= u < n,
        shared_by(src, u as usize) == s,
    decreases n,
{
    if shared_by(src, (n - 1) as usize) == s {
        n - 1
    } else {
        lemma_some_shared(src, n - 1, s)
    }
}

/// The `j`-th hyperedge joins `s`, and its set is within the limit.
pub open spec fn joins(
    cs: Seq<(Seq<Option<Seq<u64>>>, usize)>,
    j: int,
    s: Seq<usize>,
) -> bool {
    &&& members(cs[j].0, cs[j].0.len() as int).len() <= REPCUT_HYPERGRAPH_EDGE_SIZE_LIMIT
    &&& edges_of(cs)[j].1 == s
}

/// The hyperedges are the logic that the endpoints share inside the stage.  Where `s` are two endpoints or more, no more than the limit, and
/// there are nodes that they depend on and no others do, one hyperedge joins
/// `s` and weighs as much as there are such nodes.  Where there are none, no
/// hyperedge of a set within the limit joins `s`; and where `s` are fewer than
/// the limit, no hyperedge does at all.
pub proof fn edges_are_shared_logic(src: Source, n: int, s: Seq<usize>)
    requires
        source_ok(src),
        lists_operands(src),
        inputs_apart(src),
        0 <= n <= src.drivers.len(),
        2 <= s.len() <= REPCUT_HYPERGRAPH_EDGE_SIZE_LIMIT,
    ensures
        ({
            let cs = classes_upto(src, n);
            let es = edges_of(cs);
            let w = nodes_shared(src, n, s);
            &&& w > 0 ==> exists|i: int|
                0 <= i < es.len() && #[trigger] es[i] == (w as usize, s) && w <= usize::MAX
                    && forall|j: int|
                    0 <= j < es.len() && #[trigger] joins(cs, j, s) ==> j == i
            &&& w == 0 ==> forall|j: int| 0 <= j < es.len() ==> !#[trigger] joins(cs, j, s)
            &&& s.len() < REPCUT_HYPERGRAPH_EDGE_SIZE_LIMIT ==> forall|j: int|
                0 <= j < es.len() ==> (#[trigger] joins(cs, j, s) <==> es[j].1 == s)
        }),
{
    let cs = classes_upto(src, n);
    let es = edges_of(cs);
    let w = nodes_shared(src, n, s);
    let ks = keys_of(cs);
    // A hyperedge of `s` belongs to a node that `s` share.
    assert forall|j: int| 0 <= j < es.len() && #[trigger] joins(cs, j, s) implies w > 0
        && exists|u: int|
        1 <= u < n && #[trigger] shared_by(src, u as usize) == s && ks[j] == node_set(src, u) by {
        let u = lemma_class(src, n, j);
        lemma_set_members(src, u as usize);
        lemma_shared(src, u as usize);
        edges_sample_their_sets(cs, j);
        lemma_nodes_shared(src, n, u as usize);
        assert(shared_by(src, u as usize) == s);
    }
    if w > 0 {
        let u = lemma_some_shared(src, n, s);
        let k = node_set(src, u);
        lemma_set_members(src, u as usize);
        lemma_shared(src, u as usize);
        lemma_nodes_shared(src, n, u as usize);
        lemma_nodes_bound(src, n, k);
        clusters_count_nodes(src, n, k);
        assert(value_of(cs, k) == Some(w as usize));
        let i = ks.index_of(k);
        assert(ks[i] == k);
        edges_sample_their_sets(cs, i);
        assert(es[i] == (w as usize, s));
        assert forall|j: int| 0 <= j < es.len() && #[trigger] joins(cs, j, s) implies j == i by {
            let v = choose|v: int|
                1 <= v < n && #[trigger] shared_by(src, v as usize) == s && ks[j] == node_set(
                    src,
                    v,
                );
            sets_tell_nodes_apart(src, u as usize, v as usize);
            assert(ks[j] == k);
        }
    }
    if s.len() < REPCUT_HYPERGRAPH_EDGE_SIZE_LIMIT {
        assert forall|j: int| 0 <= j < es.len() implies (#[trigger] joins(cs, j, s) <==> es[j].1
            == s) by {
            edges_sample_their_sets(cs, j);
        }
    }
}

} // verus!
