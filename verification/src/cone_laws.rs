//! What can be reached in a graph, and what follows for the hyperedges.
use crate::aig::{
    acyclic, cone_order, cone_order_is_topological, feeds, feeds_later, stands_before, DriverType,
    AIG,
};
use crate::collections::set_items;
use crate::repcut::source;
use crate::repcut_laws::members;
use crate::repcut_model::{fanouts_ok, node_set, popcount};
use crate::sharing_laws::{
    depends, has_endpoint, inputs_apart, lemma_set_members, lists_operands,
    sets_name_the_dependent_endpoints, sets_stay_inside_the_stage, source_ok,
};
use crate::staging::{reads_ok, StagedAIG};
use vstd::prelude::*;

verus! {

/// With an and gate, `s` holds the nodes of its literals, unless that gate is one
/// of `stops`.
pub open spec fn holds_operands(drivers: Seq<DriverType>, stops: Set<usize>, s: Set<usize>) -> bool {
    forall|u: usize| #[trigger]
        s.contains(u) && u < drivers.len() && !stops.contains(u) ==> (
        drivers[u as int] matches DriverType::AndGate(a, b) ==> {
            &&& a >= 2 ==> s.contains((a / 2) as usize)
            &&& b >= 2 ==> s.contains((b / 2) as usize)
        })
}

/// `s` holds all of `pins`.
pub open spec fn holds_all(s: Set<usize>, pins: Seq<usize>) -> bool {
    forall|i: int| 0 <= i < pins.len() ==> s.contains(#[trigger] pins[i])
}

/// Node `u` is reached from `pins` along the literals of and gates without
/// passing through a node of `stops`: it is in every set that holds `pins` and,
/// with a gate outside `stops`, its operands.
pub open spec fn is_reached(
    drivers: Seq<DriverType>,
    stops: Set<usize>,
    pins: Seq<usize>,
    u: usize,
) -> bool {
    forall|s: Set<usize>|
        holds_all(s, pins) && #[trigger] holds_operands(drivers, stops, s) ==> s.contains(u)
}

/// What stands in a traversal is in every set that is closed under operands.
proof fn lemma_in_closed(
    drivers: Seq<DriverType>,
    stops: Set<usize>,
    pins: Seq<usize>,
    s: Set<usize>,
    k: int,
)
    requires
        acyclic(drivers),
        forall|i: int| 0 <= i < pins.len() ==> #[trigger] pins[i] < drivers.len(),
        holds_all(s, pins),
        holds_operands(drivers, stops, s),
        0 <= k < cone_order(drivers, stops, pins).len(),
    ensures
        s.contains(cone_order(drivers, stops, pins)[k]),
    decreases cone_order(drivers, stops, pins).len() - k,
{
    let order = cone_order(drivers, stops, pins);
    cone_order_is_topological(drivers, stops, pins);
    if pins.contains(order[k]) {
        assert(s.contains(pins[pins.index_of(order[k])]));
    } else {
        assert(feeds_later(drivers, stops, order, k));
        let m = choose|m: int|
            k < m < order.len() && #[trigger] feeds(drivers, stops, order[k], order[m]);
        lemma_in_closed(drivers, stops, pins, s, m);
        assert(s.contains(order[m]));
    }
}

/// A traversal lists each of its nodes once, behind the nodes of its literals,
/// and a node is listed exactly if it is reached from the nodes that the
/// traversal starts from without passing through a node at which it stops.
pub proof fn traversals_list_what_is_reached(
    drivers: Seq<DriverType>,
    stops: Set<usize>,
    pins: Seq<usize>,
    u: usize,
)
    requires
        acyclic(drivers),
        forall|i: int| 0 <= i < pins.len() ==> #[trigger] pins[i] < drivers.len(),
    ensures
        cone_order(drivers, stops, pins).contains(u) <==> is_reached(drivers, stops, pins, u),
        cone_order(drivers, stops, pins).no_duplicates(),
        forall|i: int, j: int|
            0 <= i < cone_order(drivers, stops, pins).len() && 0 <= j < cone_order(
                drivers,
                stops,
                pins,
            ).len() && !stops.contains(cone_order(drivers, stops, pins)[j]) && (
            drivers[#[trigger] cone_order(drivers, stops, pins)[j] as int] matches
                DriverType::AndGate(a, b) && ((a >= 2 && a / 2 == #[trigger] cone_order(
                drivers,
                stops,
                pins,
            )[i]) || (b >= 2 && b / 2 == cone_order(drivers, stops, pins)[i]))) ==> i < j,
{
    let order = cone_order(drivers, stops, pins);
    let cone = order.to_set();
    cone_order_is_topological(drivers, stops, pins);
    assert(holds_all(cone, pins)) by {
        assert forall|i: int| 0 <= i < pins.len() implies cone.contains(#[trigger] pins[i]) by {
            assert(order.contains(pins[i]));
        }
    }
    assert(holds_operands(drivers, stops, cone)) by {
        assert forall|v: usize| #[trigger]
            cone.contains(v) && v < drivers.len() && !stops.contains(v) implies (
        drivers[v as int] matches DriverType::AndGate(a, b) ==> {
            &&& a >= 2 ==> cone.contains((a / 2) as usize)
            &&& b >= 2 ==> cone.contains((b / 2) as usize)
        }) by {
            let k = order.index_of(v);
            if let DriverType::AndGate(a, b) = drivers[v as int] {
                if a >= 2 {
                    assert(feeds(drivers, stops, (a / 2) as usize, order[k]));
                    assert(stands_before(order, (a / 2) as usize, k));
                }
                if b >= 2 {
                    assert(feeds(drivers, stops, (b / 2) as usize, order[k]));
                    assert(stands_before(order, (b / 2) as usize, k));
                }
            }
        }
    }
    if order.contains(u) {
        assert forall|s: Set<usize>|
            holds_all(s, pins) && #[trigger] holds_operands(drivers, stops, s) implies s.contains(
            u,
        ) by {
            lemma_in_closed(drivers, stops, pins, s, order.index_of(u));
        }
    }
    assert forall|i: int, j: int|
        0 <= i < order.len() && 0 <= j < order.len() && !stops.contains(order[j]) && (
        drivers[#[trigger] order[j] as int] matches DriverType::AndGate(a, b) && ((a >= 2 && a / 2
            == #[trigger] order[i]) || (b >= 2 && b / 2 == order[i]))) implies i < j by {
        assert(feeds(drivers, stops, order[i], order[j]));
        assert(stands_before(order, order[i], j));
    }
}

/// The nodes whose values a stage takes from earlier ones.
pub open spec fn taken_over(staged: StagedAIG) -> Set<usize> {
    match staged.primary_inputs {
        Some(s) => Set::new(|u: usize| set_items(s).contains(u)),
        None => Set::empty(),
    }
}

/// A node is in the set of an endpoint of a stage where it is reached from the
/// inputs of the endpoint without passing through a node that the stage takes
/// over; and no set holds anything of a node that is not reached so from the
/// inputs of any endpoint.
pub proof fn shared_logic_is_reached_inside_the_stage(
    aig: AIG,
    staged: StagedAIG,
    u: usize,
    e: int,
)
    requires
        staged.wf(aig),
        aig.drivers@.len() <= usize::MAX,
        staged.endpoints@.len() + 4096 <= usize::MAX,
        fanouts_ok(source(aig, staged)),
        lists_operands(source(aig, staged)),
        u < aig.drivers@.len(),
        0 <= e < staged.endpoints@.len(),
    ensures
        is_reached(aig.drivers@, taken_over(staged), staged.endpoints@[e].inputs@, u)
            ==> has_endpoint(node_set(source(aig, staged), u as int), e),
        (forall|d: int|
            0 <= d < staged.endpoints@.len() ==> !is_reached(
                aig.drivers@,
                taken_over(staged),
                (#[trigger] staged.endpoints@[d]).inputs@,
                u,
            )) ==> popcount(node_set(source(aig, staged), u as int)) == 0 && !has_endpoint(
            node_set(source(aig, staged), u as int),
            e,
        ),
        inputs_apart(source(aig, staged)) ==> (has_endpoint(
            node_set(source(aig, staged), u as int),
            e,
        ) <==> is_reached(aig.drivers@, taken_over(staged), staged.endpoints@[e].inputs@, u)),
{
    let src = source(aig, staged);
    let k = node_set(src, u as int);
    let all = members(k, k.len() as int);
    assert(source_ok(src));
    assert(taken_over(staged) =~= src.sources);
    assert forall|d: int| 0 <= d < staged.endpoints@.len() implies depends(src, d, u)
        == is_reached(
        aig.drivers@,
        taken_over(staged),
        (#[trigger] staged.endpoints@[d]).inputs@,
        u,
    ) by {
        assert(reads_ok(aig.drivers@, staged.endpoints@[d]));
        traversals_list_what_is_reached(
            aig.drivers@,
            taken_over(staged),
            staged.endpoints@[d].inputs@,
            u,
        );
    }
    assert(depends(src, e, u) == is_reached(
        aig.drivers@,
        taken_over(staged),
        staged.endpoints@[e].inputs@,
        u,
    ));
    sets_stay_inside_the_stage(src, u, e);
    lemma_set_members(src, u);
    if forall|d: int|
        0 <= d < staged.endpoints@.len() ==> !is_reached(
            aig.drivers@,
            taken_over(staged),
            (#[trigger] staged.endpoints@[d]).inputs@,
            u,
        ) {
        if all.len() > 0 {
            let x = all[0] as int;
            assert(crate::sharing_laws::endpoints_in(k, src.groups.len()).contains(all[0]));
            crate::sharing_laws::lemma_endpoints(k, src.groups.len());
            assert(has_endpoint(k, x));
            sets_stay_inside_the_stage(src, u, x);
            let d = choose|d: int|
                0 <= d < src.groups.len() && d / 4096 == x / 4096 && #[trigger] depends(src, d, u);
            assert(!is_reached(
                aig.drivers@,
                taken_over(staged),
                staged.endpoints@[d].inputs@,
                u,
            ));
        }
        if has_endpoint(k, e) {
            let d = choose|d: int|
                0 <= d < src.groups.len() && d / 4096 == e / 4096 && #[trigger] depends(src, d, u);
            assert(!is_reached(
                aig.drivers@,
                taken_over(staged),
                staged.endpoints@[d].inputs@,
                u,
            ));
        }
    }
    if inputs_apart(src) {
        sets_name_the_dependent_endpoints(src, u, e);
    }
}

} // verus!
