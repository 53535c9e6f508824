//! And-inverter graphs and their traversal in topological order.
//!
//! A node is an index into the driver table.  A literal is a node index
//! shifted left by one, with the lowest bit set where the value is inverted;
//! the literals 0 and 1 are the two constants and stand for no node.
use crate::collections::{set_contains, set_items};
use crate::seqs::{lemma_tally_bound, lemma_tally_some, lemma_tally_update, tally};
use indexmap::IndexSet;
use vstd::prelude::*;

verus! {

/// What drives a node.
#[derive(Clone, Copy, Debug, PartialEq, Eq, Structural)]
pub enum DriverType {
    /// The conjunction of two literals.
    AndGate(usize, usize),
    /// A primary input port.
    InputPort(usize),
    /// A flag that is raised on an edge of a clock port.
    InputClockFlag(usize, u8),
    /// A register output, a memory output, or a constant.
    Other,
}

/// An and-inverter graph.
#[derive(Debug, Clone)]
pub struct AIG {
    /// The number of nodes; they are numbered from 1 on.
    pub num_aigpins: usize,
    /// The driver of each node, and of the unused node 0.
    pub drivers: Vec<DriverType>,
    /// Where the fanouts of each node start in `fanouts`.
    pub fanouts_start: Vec<usize>,
    /// The gates that each node feeds, node after node.
    pub fanouts: Vec<usize>,
}

/// The node of a literal.
pub fn node_of(lit: usize) -> (u: usize)
    ensures
        u == lit / 2,
{
    assert(lit >> 1 == lit / 2) by (bit_vector);
    lit >> 1
}

/// Whether the traversal goes from gate `u` to node `f`: `u` is an and gate
/// at which it does not stop, and `f` is the node of one of its literals.
pub open spec fn feeds(drivers: Seq<DriverType>, stops: Set<usize>, f: usize, u: usize) -> bool {
    &&& u < drivers.len()
    &&& !stops.contains(u)
    &&& drivers[u as int] matches DriverType::AndGate(a, b) && {
        ||| a >= 2 && f == a / 2
        ||| b >= 2 && f == b / 2
    }
}

/// The literals of every gate name nodes of the graph.
pub open spec fn in_range(drivers: Seq<DriverType>) -> bool {
    forall|u: int|
        0 <= u < drivers.len() ==> (#[trigger] drivers[u] matches DriverType::AndGate(a, b) ==> {
            &&& a / 2 < drivers.len()
            &&& b / 2 < drivers.len()
        })
}

/// An and gate with a constant literal.
pub open spec fn reads_constant(driver: DriverType) -> bool {
    driver matches DriverType::AndGate(a, b) && (a < 2 || b < 2)
}

/// No and gate has a constant literal.
pub open spec fn no_constants(drivers: Seq<DriverType>) -> bool {
    forall|u: int| 0 <= u < drivers.len() ==> !reads_constant(#[trigger] drivers[u])
}

/// `rank` rises along every gate.
pub open spec fn ranks(drivers: Seq<DriverType>, rank: Seq<nat>) -> bool {
    &&& rank.len() == drivers.len()
    &&& forall|u: int|
        0 <= u < drivers.len() ==> (#[trigger] drivers[u] matches DriverType::AndGate(a, b) ==> {
            &&& a >= 2 ==> rank[a as int / 2] < rank[u]
            &&& b >= 2 ==> rank[b as int / 2] < rank[u]
        })
}

/// A driver table of an and-inverter graph: its literals are in range and no
/// gate depends on itself.
pub open spec fn acyclic(drivers: Seq<DriverType>) -> bool {
    &&& in_range(drivers)
    &&& exists|rank: Seq<nat>| ranks(drivers, rank)
}

/// How far a traversal has come: the nodes that it has entered and those that
/// it has left, in order.
pub struct Walk {
    pub seen: Seq<bool>,
    pub order: Seq<usize>,
}

/// The depth-first walk from node `u`, which lists a node after the nodes that
/// feed it.  `fuel` bounds its depth.
pub open spec fn walk(
    drivers: Seq<DriverType>,
    stops: Set<usize>,
    w: Walk,
    u: usize,
    fuel: nat,
) -> Walk
    decreases fuel,
{
    if fuel == 0 || u >= w.seen.len() || w.seen[u as int] {
        w
    } else {
        let w1 = Walk { seen: w.seen.update(u as int, true), order: w.order };
        let w2 = match drivers[u as int] {
            DriverType::AndGate(a, b) => if stops.contains(u) {
                w1
            } else {
                let x = if a >= 2 {
                    walk(drivers, stops, w1, a / 2, (fuel - 1) as nat)
                } else {
                    w1
                };
                if b >= 2 {
                    walk(drivers, stops, x, b / 2, (fuel - 1) as nat)
                } else {
                    x
                }
            },
            _ => w1,
        };
        Walk { seen: w2.seen, order: w2.order.push(u) }
    }
}

/// The walks from the nodes `pins`, one after the other.
pub open spec fn walk_all(
    drivers: Seq<DriverType>,
    stops: Set<usize>,
    pins: Seq<usize>,
) -> Walk
    decreases pins.len(),
{
    if pins.len() == 0 {
        Walk { seen: Seq::new(drivers.len(), |i: int| false), order: Seq::empty() }
    } else {
        walk(
            drivers,
            stops,
            walk_all(drivers, stops, pins.drop_last()),
            pins.last(),
            drivers.len(),
        )
    }
}

/// The nodes that the nodes `pins` depend on, `pins` included, with nothing
/// that lies behind `stops`, in topological order.
pub open spec fn cone_order(
    drivers: Seq<DriverType>,
    stops: Set<usize>,
    pins: Seq<usize>,
) -> Seq<usize> {
    walk_all(drivers, stops, pins).order
}

/// The nodes at which a traversal stops.
pub open spec fn stop_set(s: Option<&IndexSet<usize>>) -> Set<usize> {
    match s {
        Some(s) => set_items(*s).to_set(),
        None => Set::empty(),
    }
}

/// How many nodes have not been entered.
spec fn unseen(seen: Seq<bool>) -> nat {
    tally(seen, |b: bool| !b)
}

/// A walk keeps the number of nodes and leaves no more of them unentered.
proof fn lemma_walk_shape(
    drivers: Seq<DriverType>,
    stops: Set<usize>,
    w: Walk,
    u: usize,
    fuel: nat,
)
    ensures
        ({
            let r = walk(drivers, stops, w, u, fuel);
            &&& r.seen.len() == w.seen.len()
            &&& unseen(r.seen) <= unseen(w.seen)
        }),
    decreases fuel,
{
    if fuel == 0 || u >= w.seen.len() || w.seen[u as int] {
    } else {
        let w1 = Walk { seen: w.seen.update(u as int, true), order: w.order };
        lemma_tally_update(w.seen, |b: bool| !b, u as int, true);
        if let DriverType::AndGate(a, b) = drivers[u as int] {
            let f = (fuel - 1) as nat;
            lemma_walk_shape(drivers, stops, w1, a / 2, f);
            let x = if a >= 2 {
                walk(drivers, stops, w1, a / 2, f)
            } else {
                w1
            };
            lemma_walk_shape(drivers, stops, x, b / 2, f);
        }
    }
}

/// `f` stands before position `k` of `order`.
pub open spec fn stands_before(order: Seq<usize>, f: usize, k: int) -> bool {
    exists|p: int| 0 <= p < k && #[trigger] order[p] == f
}

/// Some gate behind position `k` of `order` is fed by the node there.
pub open spec fn feeds_later(
    drivers: Seq<DriverType>,
    stops: Set<usize>,
    order: Seq<usize>,
    k: int,
) -> bool {
    exists|m: int| k < m < order.len() && #[trigger] feeds(drivers, stops, order[k], order[m])
}

/// `order` lists each of its nodes once, behind the nodes that feed it.
pub open spec fn topological(
    drivers: Seq<DriverType>,
    stops: Set<usize>,
    order: Seq<usize>,
) -> bool {
    &&& order.no_duplicates()
    &&& forall|k: int| 0 <= k < order.len() ==> #[trigger] order[k] < drivers.len()
    &&& forall|k: int, f: usize|
        0 <= k < order.len() && #[trigger] feeds(drivers, stops, f, order[k]) ==> stands_before(
            order,
            f,
            k,
        )
}

/// What has been left was entered once, and behind what it depends on.
spec fn walk_ok(drivers: Seq<DriverType>, stops: Set<usize>, w: Walk) -> bool {
    &&& w.seen.len() == drivers.len()
    &&& topological(drivers, stops, w.order)
    &&& forall|k: int| 0 <= k < w.order.len() ==> w.seen[#[trigger] w.order[k] as int]
}

/// Entered but not yet left.
spec fn open_in(w: Walk, x: usize) -> bool {
    x < w.seen.len() && w.seen[x as int] && !w.order.contains(x)
}

/// A walk from `u` goes on from `w` to `r`.
spec fn grows(drivers: Seq<DriverType>, stops: Set<usize>, w: Walk, r: Walk, u: usize) -> bool {
    &&& w.order.len() <= r.order.len()
    &&& forall|k: int| 0 <= k < w.order.len() ==> #[trigger] r.order[k] == w.order[k]
    &&& forall|x: usize| open_in(r, x) <==> open_in(w, x)
    &&& forall|k: int|
        w.order.len() <= k < r.order.len() ==> #[trigger] r.order[k] == u || feeds_later(
            drivers,
            stops,
            r.order,
            k,
        )
}

/// Walks can be put together.
proof fn lemma_grows_trans(
    drivers: Seq<DriverType>,
    stops: Set<usize>,
    w: Walk,
    x: Walk,
    r: Walk,
    f: usize,
    g: usize,
    k: int,
)
    requires
        grows(drivers, stops, w, x, f),
        grows(drivers, stops, x, r, g),
        w.order.len() <= k < r.order.len(),
    ensures
        r.order[k] == f || r.order[k] == g || feeds_later(drivers, stops, r.order, k),
{
    if k < x.order.len() {
        assert(x.order[k] == f || feeds_later(drivers, stops, x.order, k));
        assert(r.order[k] == x.order[k]);
        if feeds_later(drivers, stops, x.order, k) {
            let m = choose|m: int|
                k < m < x.order.len() && #[trigger] feeds(drivers, stops, x.order[k], x.order[m]);
            assert(r.order[m] == x.order[m]);
            assert(feeds(drivers, stops, r.order[k], r.order[m]));
        }
    }
}

/// Leaving a node whose operands have been left keeps the order.
proof fn lemma_push_ok(drivers: Seq<DriverType>, stops: Set<usize>, w: Walk, u: usize)
    requires
        walk_ok(drivers, stops, w),
        open_in(w, u),
        forall|f: usize| feeds(drivers, stops, f, u) ==> w.order.contains(f),
    ensures
        walk_ok(drivers, stops, Walk { seen: w.seen, order: w.order.push(u) }),
{
    let o = w.order.push(u);
    assert forall|k: int, f: usize|
        0 <= k < o.len() && #[trigger] feeds(drivers, stops, f, o[k]) implies stands_before(
        o,
        f,
        k,
    ) by {
        if k < w.order.len() {
            assert(o[k] == w.order[k]);
            assert(feeds(drivers, stops, f, w.order[k]));
            let p = choose|p: int| 0 <= p < k && #[trigger] w.order[p] == f;
            assert(o[p] == f);
        } else {
            let p = w.order.index_of(f);
            assert(w.order.contains(f));
            assert(o[p] == f);
        }
    }
    assert forall|i: int, j: int| 0 <= i < o.len() && 0 <= j < o.len() && i != j implies o[i]
        != o[j] by {
        assert(!w.order.contains(u));
        if i < w.order.len() && j < w.order.len() {
            assert(w.order[i] != w.order[j]);
        }
    }
}

/// A walk leaves what it has entered in order.
proof fn lemma_walk(
    drivers: Seq<DriverType>,
    stops: Set<usize>,
    rank: Seq<nat>,
    w: Walk,
    u: usize,
    fuel: nat,
)
    requires
        in_range(drivers),
        ranks(drivers, rank),
        walk_ok(drivers, stops, w),
        u < drivers.len(),
        unseen(w.seen) <= fuel,
        forall|x: usize| #[trigger] open_in(w, x) ==> rank[x as int] > rank[u as int],
    ensures
        ({
            let r = walk(drivers, stops, w, u, fuel);
            &&& walk_ok(drivers, stops, r)
            &&& grows(drivers, stops, w, r, u)
            &&& r.order.contains(u)
        }),
    decreases fuel,
{
    if w.seen[u as int] {
        assert(!open_in(w, u));
    } else {
        lemma_tally_some(w.seen, |b: bool| !b, u as int);
        lemma_tally_update(w.seen, |b: bool| !b, u as int, true);
        let w1 = Walk { seen: w.seen.update(u as int, true), order: w.order };
        let fl = (fuel - 1) as nat;
        assert(!w.order.contains(u)) by {
            if w.order.contains(u) {
                let k = w.order.index_of(u);
                assert(w.seen[w.order[k] as int]);
            }
        }
        assert forall|x: usize| #[trigger] open_in(w1, x) <==> (open_in(w, x) || x == u) by {}
        assert(walk_ok(drivers, stops, w1)) by {
            assert forall|k: int| 0 <= k < w1.order.len() implies w1.seen[
                #[trigger] w1.order[k] as int
            ] by {
                assert(w.seen[w.order[k] as int]);
            }
        }
        assert(grows(drivers, stops, w1, w1, u));
        let d = drivers[u as int];
        let r = walk(drivers, stops, w, u, fuel);
        if d is AndGate && !stops.contains(u) {
            let (a, b) = match d {
                DriverType::AndGate(a, b) => (a, b),
                _ => (0usize, 0usize),
            };
            let x = if a >= 2 {
                walk(drivers, stops, w1, a / 2, fl)
            } else {
                w1
            };
            let y = if b >= 2 {
                walk(drivers, stops, x, b / 2, fl)
            } else {
                x
            };
            lemma_walk_shape(drivers, stops, w1, a / 2, fl);
            if a >= 2 {
                lemma_walk(drivers, stops, rank, w1, a / 2, fl);
            }
            if b >= 2 {
                lemma_walk(drivers, stops, rank, x, b / 2, fl);
            }
            assert(r == Walk { seen: y.seen, order: y.order.push(u) });
            assert(a >= 2 ==> y.order.contains((a / 2) as usize)) by {
                if a >= 2 {
                    let p = x.order.index_of((a / 2) as usize);
                    assert(y.order[p] == x.order[p]);
                }
            }
            assert(open_in(y, u));
            lemma_push_ok(drivers, stops, y, u);
            assert(forall|k: int| 0 <= k < w.order.len() ==> #[trigger] r.order[k] == w.order[k]) by {
                assert forall|k: int| 0 <= k < w.order.len() implies #[trigger] r.order[k]
                    == w.order[k] by {
                    assert(x.order[k] == w1.order[k]);
                    assert(y.order[k] == x.order[k]);
                }
            }
            assert forall|q: usize| open_in(r, q) <==> open_in(w, q) by {
                assert(open_in(y, q) <==> open_in(w1, q));
                assert(r.order.contains(q) <==> (y.order.contains(q) || q == u)) by {
                    assert(r.order[y.order.len() as int] == u);
                    if y.order.contains(q) {
                        assert(r.order[y.order.index_of(q)] == q);
                    }
                    if r.order.contains(q) && q != u {
                        let p = r.order.index_of(q);
                        assert(y.order[p] == q);
                    }
                }
            }
            assert forall|k: int| w.order.len() <= k < r.order.len() implies #[trigger] r.order[k]
                == u || feeds_later(drivers, stops, r.order, k) by {
                if k < y.order.len() {
                    assert(r.order[k] == y.order[k]);
                    assert(r.order[y.order.len() as int] == u);
                    let fa = (a / 2) as usize;
                    let fb = (b / 2) as usize;
                    if a >= 2 && b >= 2 {
                        lemma_grows_trans(drivers, stops, w1, x, y, fa, fb, k);
                    }
                    if (a >= 2 && y.order[k] == fa) || (b >= 2 && y.order[k] == fb) {
                        assert(feeds(drivers, stops, r.order[k], r.order[y.order.len() as int]));
                    } else {
                        assert(feeds_later(drivers, stops, y.order, k));
                        let m = choose|m: int|
                            k < m < y.order.len() && #[trigger] feeds(
                                drivers,
                                stops,
                                y.order[k],
                                y.order[m],
                            );
                        assert(r.order[m] == y.order[m]);
                        assert(feeds(drivers, stops, r.order[k], r.order[m]));
                    }
                }
            }
        } else {
            assert(r == Walk { seen: w1.seen, order: w1.order.push(u) });
            lemma_push_ok(drivers, stops, w1, u);
            assert forall|q: usize| open_in(r, q) <==> open_in(w, q) by {
                assert(r.order.contains(q) <==> (w.order.contains(q) || q == u)) by {
                    assert(r.order[w.order.len() as int] == u);
                    if w.order.contains(q) {
                        assert(r.order[w.order.index_of(q)] == q);
                    }
                    if r.order.contains(q) && q != u {
                        let p = r.order.index_of(q);
                        assert(w.order[p] == q);
                    }
                }
            }
        }
        assert(r.order[r.order.len() - 1] == u);
    }
}

/// Walks from a list of nodes leave what they have entered in order.
proof fn lemma_walk_all(
    drivers: Seq<DriverType>,
    stops: Set<usize>,
    rank: Seq<nat>,
    pins: Seq<usize>,
)
    requires
        in_range(drivers),
        ranks(drivers, rank),
        forall|i: int| 0 <= i < pins.len() ==> #[trigger] pins[i] < drivers.len(),
    ensures
        ({
            let r = walk_all(drivers, stops, pins);
            &&& walk_ok(drivers, stops, r)
            &&& forall|x: usize| !#[trigger] open_in(r, x)
            &&& forall|i: int| 0 <= i < pins.len() ==> r.order.contains(#[trigger] pins[i])
            &&& forall|k: int|
                0 <= k < r.order.len() ==> pins.contains(#[trigger] r.order[k]) || feeds_later(
                    drivers,
                    stops,
                    r.order,
                    k,
                )
        }),
    decreases pins.len(),
{
    if pins.len() > 0 {
        let init = pins.drop_last();
        let u = pins.last();
        assert forall|i: int| 0 <= i < init.len() implies #[trigger] init[i] < drivers.len() by {
            assert(init[i] == pins[i]);
        }
        assert(pins[pins.len() - 1] < drivers.len());
        lemma_walk_all(drivers, stops, rank, init);
        let w = walk_all(drivers, stops, init);
        let r = walk_all(drivers, stops, pins);
        lemma_tally_bound(w.seen, |b: bool| !b);
        lemma_walk(drivers, stops, rank, w, u, drivers.len());
        assert forall|i: int| 0 <= i < pins.len() implies r.order.contains(#[trigger] pins[i]) by {
            if i < init.len() {
                assert(init[i] == pins[i]);
                let p = w.order.index_of(init[i]);
                assert(w.order.contains(init[i]));
                assert(r.order[p] == w.order[p]);
            }
        }
        assert forall|x: usize| !#[trigger] open_in(r, x) by {
            assert(!open_in(w, x));
        }
        assert forall|k: int| 0 <= k < r.order.len() implies pins.contains(#[trigger] r.order[k])
            || feeds_later(drivers, stops, r.order, k) by {
            if k < w.order.len() {
                assert(r.order[k] == w.order[k]);
                if init.contains(w.order[k]) {
                    let i = init.index_of(w.order[k]);
                    assert(pins[i] == w.order[k]);
                } else {
                    let m = choose|m: int|
                        k < m < w.order.len() && #[trigger] feeds(
                            drivers,
                            stops,
                            w.order[k],
                            w.order[m],
                        );
                    assert(r.order[m] == w.order[m]);
                    assert(feeds(drivers, stops, r.order[k], r.order[m]));
                }
            } else if r.order[k] == u {
                assert(pins[pins.len() - 1] == u);
            }
        }
    }
}

/// The traversal lists the dependencies of `pins` and nothing else: it holds
/// every node of `pins`, lists each node once and behind the nodes that feed
/// it, and holds no node but those of `pins` and those that feed a gate
/// further on.
pub proof fn cone_order_is_topological(
    drivers: Seq<DriverType>,
    stops: Set<usize>,
    pins: Seq<usize>,
)
    requires
        acyclic(drivers),
        forall|i: int| 0 <= i < pins.len() ==> #[trigger] pins[i] < drivers.len(),
    ensures
        topological(drivers, stops, cone_order(drivers, stops, pins)),
        forall|i: int|
            0 <= i < pins.len() ==> cone_order(drivers, stops, pins).contains(#[trigger] pins[i]),
        forall|k: int|
            0 <= k < cone_order(drivers, stops, pins).len() ==> pins.contains(
                #[trigger] cone_order(drivers, stops, pins)[k],
            ) || feeds_later(drivers, stops, cone_order(drivers, stops, pins), k),
{
    let rank = choose|rank: Seq<nat>| ranks(drivers, rank);
    lemma_walk_all(drivers, stops, rank, pins);
}

/// More pins have no smaller cone: where every node of `p` is among `q`, every
/// node that `p` depends on is among those that `q` depends on, and the
/// traversal from `q` is at least as long.
pub proof fn cone_order_is_monotone(
    drivers: Seq<DriverType>,
    stops: Set<usize>,
    p: Seq<usize>,
    q: Seq<usize>,
)
    requires
        acyclic(drivers),
        forall|i: int| 0 <= i < q.len() ==> #[trigger] q[i] < drivers.len(),
        forall|i: int| 0 <= i < p.len() ==> q.contains(#[trigger] p[i]),
    ensures
        forall|x: usize|
            cone_order(drivers, stops, p).contains(x) ==> cone_order(drivers, stops, q).contains(x),
        cone_order(drivers, stops, p).len() <= cone_order(drivers, stops, q).len(),
{
    assert forall|i: int| 0 <= i < p.len() implies #[trigger] p[i] < drivers.len() by {
        assert(q.contains(p[i]));
        assert(q[q.index_of(p[i])] < drivers.len());
    }
    cone_order_is_topological(drivers, stops, p);
    cone_order_is_topological(drivers, stops, q);
    let a = cone_order(drivers, stops, p);
    let b = cone_order(drivers, stops, q);
    assert forall|k: int| 0 <= k < a.len() implies b.contains(#[trigger] a[k]) by {
        lemma_in_larger_cone(drivers, stops, stops, p, q, k);
    }
    assert forall|x: usize| a.contains(x) implies b.contains(x) by {
        assert(b.contains(a[a.index_of(x)]));
    }
    a.unique_seq_to_set();
    b.unique_seq_to_set();
    assert(a.to_set().subset_of(b.to_set()));
    vstd::set_lib::lemma_len_subset(a.to_set(), b.to_set());
}

/// What some nodes depend on, more nodes depend on where fewer values are there.
pub proof fn lemma_in_larger_cone(
    drivers: Seq<DriverType>,
    more: Set<usize>,
    stops: Set<usize>,
    p: Seq<usize>,
    q: Seq<usize>,
    k: int,
)
    requires
        acyclic(drivers),
        stops.subset_of(more),
        forall|i: int| 0 <= i < p.len() ==> #[trigger] p[i] < drivers.len(),
        forall|i: int| 0 <= i < q.len() ==> #[trigger] q[i] < drivers.len(),
        forall|i: int| 0 <= i < p.len() ==> q.contains(#[trigger] p[i]),
        0 <= k < cone_order(drivers, more, p).len(),
    ensures
        cone_order(drivers, stops, q).contains(cone_order(drivers, more, p)[k]),
    decreases cone_order(drivers, more, p).len() - k,
{
    cone_order_is_topological(drivers, more, p);
    cone_order_is_topological(drivers, stops, q);
    let a = cone_order(drivers, more, p);
    let b = cone_order(drivers, stops, q);
    if p.contains(a[k]) {
        let i = p.index_of(a[k]);
        assert(q.contains(p[i]));
        let j = q.index_of(p[i]);
        assert(b.contains(q[j]));
    } else {
        let m = choose|m: int|
            k < m < a.len() && #[trigger] feeds(drivers, more, a[k], a[m]);
        lemma_in_larger_cone(drivers, more, stops, p, q, m);
        let n = b.index_of(a[m]);
        assert(feeds(drivers, stops, a[k], b[n]));
        assert(stands_before(b, a[k], n));
        let i = choose|i: int| 0 <= i < n && #[trigger] b[i] == a[k];
        assert(b.contains(b[i]));
    }
}

/// A walk does not depend on its fuel as long as that suffices.
proof fn lemma_walk_fuel(
    drivers: Seq<DriverType>,
    stops: Set<usize>,
    w: Walk,
    x: usize,
    f: nat,
    g: nat,
)
    requires
        in_range(drivers),
        w.seen.len() == drivers.len(),
        x < drivers.len(),
        unseen(w.seen) <= f,
        unseen(w.seen) <= g,
    ensures
        walk(drivers, stops, w, x, f) == walk(drivers, stops, w, x, g),
    decreases f,
{
    if !w.seen[x as int] {
        lemma_tally_some(w.seen, |b: bool| !b, x as int);
        lemma_tally_update(w.seen, |b: bool| !b, x as int, true);
        let w1 = Walk { seen: w.seen.update(x as int, true), order: w.order };
        let fl = (f - 1) as nat;
        let gl = (g - 1) as nat;
        if let DriverType::AndGate(a, b) = drivers[x as int] {
            if a >= 2 {
                lemma_walk_fuel(drivers, stops, w1, (a / 2) as usize, fl, gl);
            }
            lemma_walk_shape(drivers, stops, w1, (a / 2) as usize, fl);
            let y = if a >= 2 {
                walk(drivers, stops, w1, a / 2, fl)
            } else {
                w1
            };
            if b >= 2 {
                lemma_walk_fuel(drivers, stops, y, (b / 2) as usize, fl, gl);
            }
        }
    }
}

/// A walk that does not come to `u` does not depend on whether `u` was entered.
proof fn lemma_walk_mark(
    drivers: Seq<DriverType>,
    stops: Set<usize>,
    rank: Seq<nat>,
    w: Walk,
    v: Walk,
    u: usize,
    x: usize,
    f: nat,
)
    requires
        in_range(drivers),
        ranks(drivers, rank),
        w.seen.len() == drivers.len(),
        u < drivers.len(),
        x < drivers.len(),
        rank[x as int] < rank[u as int],
        v.order == w.order,
        v.seen == w.seen.update(u as int, true),
    ensures
        walk(drivers, stops, v, x, f).order == walk(drivers, stops, w, x, f).order,
        walk(drivers, stops, v, x, f).seen == walk(drivers, stops, w, x, f).seen.update(
            u as int,
            true,
        ),
        walk(drivers, stops, w, x, f).seen.len() == drivers.len(),
    decreases f,
{
    if f > 0 && !w.seen[x as int] {
        let w1 = Walk { seen: w.seen.update(x as int, true), order: w.order };
        let v1 = Walk { seen: v.seen.update(x as int, true), order: v.order };
        assert(v1.seen =~= w1.seen.update(u as int, true));
        let fl = (f - 1) as nat;
        if let DriverType::AndGate(a, b) = drivers[x as int] {
            if !stops.contains(x) {
                let (y, z) = if a >= 2 {
                    lemma_walk_mark(drivers, stops, rank, w1, v1, u, (a / 2) as usize, fl);
                    (walk(drivers, stops, w1, a / 2, fl), walk(drivers, stops, v1, a / 2, fl))
                } else {
                    (w1, v1)
                };
                if b >= 2 {
                    lemma_walk_mark(drivers, stops, rank, y, z, u, (b / 2) as usize, fl);
                }
            }
        }
    }
}

/// A traversal goes on where it left off: more nodes to start from add their own
/// dependencies behind those that are listed.  A node that is already listed
/// adds nothing.  An and gate that is not, and at which the traversal does not
/// stop, is listed behind what the node of its first literal adds, and behind
/// what the node of its second literal adds then; any other node is listed
/// alone.
pub proof fn traversals_go_to_the_first_operand_first(
    drivers: Seq<DriverType>,
    stops: Set<usize>,
    pins: Seq<usize>,
    u: usize,
)
    requires
        acyclic(drivers),
        forall|i: int| 0 <= i < pins.len() ==> #[trigger] pins[i] < drivers.len(),
        u < drivers.len(),
    ensures
        cone_order(drivers, stops, pins).contains(u) ==> cone_order(drivers, stops, pins.push(u))
            == cone_order(drivers, stops, pins),
        !cone_order(drivers, stops, pins).contains(u) ==> cone_order(drivers, stops, pins.push(u))
            == (match drivers[u as int] {
            DriverType::AndGate(a, b) => if stops.contains(u) {
                cone_order(drivers, stops, pins)
            } else if a >= 2 && b >= 2 {
                cone_order(drivers, stops, pins.push((a / 2) as usize).push((b / 2) as usize))
            } else if a >= 2 {
                cone_order(drivers, stops, pins.push((a / 2) as usize))
            } else if b >= 2 {
                cone_order(drivers, stops, pins.push((b / 2) as usize))
            } else {
                cone_order(drivers, stops, pins)
            },
            _ => cone_order(drivers, stops, pins),
        }).push(u),
{
    let rank = choose|rank: Seq<nat>| ranks(drivers, rank);
    let n = drivers.len();
    let w = walk_all(drivers, stops, pins);
    lemma_walk_all(drivers, stops, rank, pins);
    assert(pins.push(u).drop_last() =~= pins);
    lemma_tally_bound(w.seen, |b: bool| !b);
    assert(w.seen[u as int] <==> w.order.contains(u)) by {
        if w.order.contains(u) {
            assert(w.seen[w.order[w.order.index_of(u)] as int]);
        }
        assert(!open_in(w, u));
    }
    if !w.seen[u as int] {
        lemma_tally_some(w.seen, |b: bool| !b, u as int);
        lemma_tally_update(w.seen, |b: bool| !b, u as int, true);
        let w1 = Walk { seen: w.seen.update(u as int, true), order: w.order };
        let fl = (n - 1) as nat;
        assert(walk_all(drivers, stops, pins.push(u)) == walk(drivers, stops, w, u, n));
        if let DriverType::AndGate(a, b) = drivers[u as int] {
            if !stops.contains(u) {
                let fa = (a / 2) as usize;
                let fb = (b / 2) as usize;
                lemma_walk_shape(drivers, stops, w1, fa, fl);
                let (x, x1) = if a >= 2 {
                    lemma_walk_fuel(drivers, stops, w1, fa, fl, n);
                    lemma_walk_mark(drivers, stops, rank, w, w1, u, fa, n);
                    assert(pins.push(fa).drop_last() =~= pins);
                    assert(walk_all(drivers, stops, pins.push(fa)) == walk(drivers, stops, w, fa, n));
                    (walk(drivers, stops, w, fa, n), walk(drivers, stops, w1, fa, fl))
                } else {
                    (w, w1)
                };
                if b >= 2 {
                    lemma_walk_fuel(drivers, stops, x1, fb, fl, n);
                    lemma_walk_mark(drivers, stops, rank, x, x1, u, fb, n);
                    assert(pins.push(fa).push(fb).drop_last() =~= pins.push(fa));
                    assert(walk_all(drivers, stops, pins.push(fa).push(fb)) == walk(
                        drivers,
                        stops,
                        walk_all(drivers, stops, pins.push(fa)),
                        fb,
                        n,
                    ));
                    assert(pins.push(fb).drop_last() =~= pins);
                    assert(walk_all(drivers, stops, pins.push(fb)) == walk(drivers, stops, w, fb, n));
                }
            }
        }
    }
}

impl AIG {
    /// The graph's invariant.
    pub open spec fn wf(self) -> bool {
        &&& self.drivers@.len() == self.num_aigpins + 1
        &&& acyclic(self.drivers@)
    }

    /// Visits `u` and what it depends on.
    fn walk_from(
        &self,
        stops: Option<&IndexSet<usize>>,
        seen: &mut Vec<bool>,
        order: &mut Vec<usize>,
        u: usize,
        Ghost(fuel): Ghost<nat>,
    )
        requires
            in_range(self.drivers@),
            old(seen)@.len() == self.drivers@.len(),
            u < self.drivers@.len(),
            unseen(old(seen)@) <= fuel,
        ensures
            ({
                let r = walk(
                    self.drivers@,
                    stop_set(stops),
                    Walk { seen: old(seen)@, order: old(order)@ },
                    u,
                    fuel,
                );
                &&& final(seen)@ == r.seen
                &&& final(order)@ == r.order
            }),
        decreases fuel,
    {
        if seen[u] {
            return;
        }
        proof {
            lemma_tally_some(seen@, |b: bool| !b, u as int);
            lemma_tally_update(seen@, |b: bool| !b, u as int, true);
        }
        seen[u] = true;
        let stop: bool = match stops {
            Some(s) => set_contains(s, u),
            None => false,
        };
        let ghost w1 = Walk { seen: seen@, order: order@ };
        let ghost f = (fuel - 1) as nat;
        if !stop {
            if let DriverType::AndGate(a, b) = self.drivers[u] {
                assert(self.drivers@[u as int] == DriverType::AndGate(a, b));
                proof {
                    lemma_walk_shape(self.drivers@, stop_set(stops), w1, a / 2, f);
                }
                if a >= 2 {
                    self.walk_from(stops, seen, order, node_of(a), Ghost(f));
                }
                if b >= 2 {
                    self.walk_from(stops, seen, order, node_of(b), Ghost(f));
                }
            }
        }
        order.push(u);
    }

    /// Lists the nodes that `endpoints` depend on, each after the nodes that
    /// feed it.  Nothing behind a node of `is_primary_input` is visited.
    pub fn topo_traverse_generic(
        &self,
        endpoints: &Vec<usize>,
        is_primary_input: Option<&IndexSet<usize>>,
    ) -> (order: Vec<usize>)
        requires
            in_range(self.drivers@),
            forall|i: int| 0 <= i < endpoints@.len() ==> #[trigger] endpoints@[i] < self.drivers@.len(),
        ensures
            order@ == cone_order(self.drivers@, stop_set(is_primary_input), endpoints@),
    {
        let n: usize = self.drivers.len();
        let mut seen: Vec<bool> = vec![false; n];
        let mut order: Vec<usize> = Vec::new();
        let ghost stops = stop_set(is_primary_input);
        assert(seen@ =~= walk_all(self.drivers@, stops, Seq::empty()).seen);
        assert(endpoints@.take(0) =~= Seq::empty());
        let mut i: usize = 0;
        while i < endpoints.len()
            invariant
                in_range(self.drivers@),
                forall|i: int|
                    0 <= i < endpoints@.len() ==> #[trigger] endpoints@[i] < self.drivers@.len(),
                stops == stop_set(is_primary_input),
                i <= endpoints@.len(),
                seen@.len() == self.drivers@.len(),
                seen@ == walk_all(self.drivers@, stops, endpoints@.take(i as int)).seen,
                order@ == walk_all(self.drivers@, stops, endpoints@.take(i as int)).order,
            decreases endpoints@.len() - i,
        {
            proof {
                lemma_tally_bound(seen@, |b: bool| !b);
                assert(endpoints@.take(i + 1).drop_last() =~= endpoints@.take(i as int));
                lemma_walk_shape(
                    self.drivers@,
                    stops,
                    Walk { seen: seen@, order: order@ },
                    endpoints@[i as int],
                    self.drivers@.len(),
                );
            }
            self.walk_from(
                is_primary_input,
                &mut seen,
                &mut order,
                endpoints[i],
                Ghost(self.drivers@.len()),
            );
            i += 1;
        }
        assert(endpoints@.take(i as int) =~= endpoints@);
        order
    }
}

} // verus!
