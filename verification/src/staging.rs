//! Stages of a design and their endpoints.
//!
//! A design may be cut into stages by logic level.  Each stage has its own
//! primary inputs and its own list of endpoints: outputs, registers, memories,
//! and the nodes that it hands on to the stages behind it.
use crate::aig::{DriverType, AIG};

use crate::collections::{set_clone, set_items};
use indexmap::IndexSet;
use vstd::prelude::*;

verus! {

/// A register: the literals of its data and enable pins and its output node.
#[derive(Clone, Copy, Debug, PartialEq, Eq, Structural)]
pub struct DFF {
    pub d_iv: usize,
    pub en_iv: usize,
    pub q: usize,
}

/// What an endpoint is.
#[derive(Clone, Copy, Debug, PartialEq, Eq, Structural)]
pub enum EndpointKind {
    /// A primary output, by its literal.
    PrimaryOutput(usize),
    /// A register.
    DFF(DFF),
    /// A memory block, by its cell.
    RAMBlock(usize),
    /// A node that a later stage reads.
    StagedIOPin(usize),
}

/// An endpoint and the nodes that it reads.
#[derive(Clone, Debug)]
pub struct EndpointGroup {
    pub kind: EndpointKind,
    /// The nodes, with repetitions, in the order in which they are listed.
    pub inputs: Vec<usize>,
}

/// One stage of a design.
pub struct StagedAIG {
    /// The nodes whose values come from earlier stages; none if the stage is
    /// the first.
    pub primary_inputs: Option<IndexSet<usize>>,
    pub endpoints: Vec<EndpointGroup>,
}

impl StagedAIG {
    /// The nodes whose values come from earlier stages.
    pub open spec fn sources(self) -> Set<usize> {
        match self.primary_inputs {
            Some(s) => set_items(s).to_set(),
            None => Set::empty(),
        }
    }

    /// The endpoints read nodes of the graph.
    pub open spec fn wf(self, aig: AIG) -> bool {
        &&& aig.wf()
        &&& forall|e: int| 0 <= e < self.endpoints@.len() ==> reads_ok(
            aig.drivers@,
            #[trigger] self.endpoints@[e],
        )
    }

    /// The endpoint with a number.
    pub fn get_endpoint_group(&self, endpt_i: usize) -> (edg: &EndpointGroup)
        requires
            endpt_i < self.endpoints@.len(),
        ensures
            *edg == self.endpoints@[endpt_i as int],
    {
        &self.endpoints[endpt_i]
    }

    /// The number of endpoints.
    pub fn num_endpoint_groups(&self) -> (n: usize)
        ensures
            n == self.endpoints@.len(),
    {
        self.endpoints.len()
    }
}

/// An endpoint reads nodes of the graph.
pub open spec fn reads_ok(drivers: Seq<DriverType>, e: EndpointGroup) -> bool {
    forall|i: int| 0 <= i < e.inputs@.len() ==> #[trigger] e.inputs@[i] < drivers.len()
}

/// The numbers of all endpoints.
pub open spec fn every_id(n: nat) -> Seq<usize> {
    Seq::new(n, |i: int| i as usize)
}

/// The endpoints of `ids` exist.
pub open spec fn ids_ok(groups: Seq<EndpointGroup>, ids: Seq<usize>) -> bool {
    forall|i: int| 0 <= i < ids.len() ==> #[trigger] ids[i] < groups.len()
}

/// The nodes that the endpoints of `ids` read, one endpoint after the other.
pub open spec fn inputs_of(groups: Seq<EndpointGroup>, ids: Seq<usize>) -> Seq<usize>
    decreases ids.len(),
{
    if ids.len() == 0 {
        Seq::empty()
    } else {
        inputs_of(groups, ids.drop_last()) + groups[ids.last() as int].inputs@
    }
}

/// Who reads a node among the endpoints of `ids`.
pub proof fn lemma_reader(groups: Seq<EndpointGroup>, ids: Seq<usize>, x: usize)
    ensures
        inputs_of(groups, ids).contains(x) <==> exists|i: int|
            0 <= i < ids.len() && groups[#[trigger] ids[i] as int].inputs@.contains(x),
    decreases ids.len(),
{
    if ids.len() > 0 {
        let front = ids.drop_last();
        lemma_reader(groups, front, x);
        let a = inputs_of(groups, front);
        let b = groups[ids.last() as int].inputs@;
        let n = ids.len() - 1;
        if a.contains(x) {
            let i = choose|i: int|
                0 <= i < front.len() && groups[#[trigger] front[i] as int].inputs@.contains(x);
            assert(ids[i] == front[i]);
            assert((a + b)[a.index_of(x)] == x);
        }
        if b.contains(x) {
            assert(ids[n] == ids.last());
            assert((a + b)[a.len() + b.index_of(x)] == x);
        }
        if (a + b).contains(x) {
            let p = (a + b).index_of(x);
            if p < a.len() {
                assert(a[p] == x);
            } else {
                assert(b[p - a.len()] == x);
            }
        }
        if exists|i: int|
            0 <= i < ids.len() && groups[#[trigger] ids[i] as int].inputs@.contains(x) {
            let i = choose|i: int|
                0 <= i < ids.len() && groups[#[trigger] ids[i] as int].inputs@.contains(x);
            if i < n {
                assert(front[i] == ids[i]);
            }
        }
    }
}

/// The endpoints of `ids` read nodes of the graph.
pub proof fn lemma_inputs_in_range(
    drivers: Seq<DriverType>,
    groups: Seq<EndpointGroup>,
    ids: Seq<usize>,
)
    requires
        ids_ok(groups, ids),
        forall|e: int| 0 <= e < groups.len() ==> reads_ok(drivers, #[trigger] groups[e]),
    ensures
        forall|i: int|
            0 <= i < inputs_of(groups, ids).len() ==> #[trigger] inputs_of(groups, ids)[i]
                < drivers.len(),
    decreases ids.len(),
{
    if ids.len() > 0 {
        let n = inputs_of(groups, ids.drop_last()).len() as int;
        assert forall|i: int| 0 <= i < ids.drop_last().len() implies #[trigger] ids.drop_last()[i]
            < groups.len() by {
            assert(ids[i] < groups.len());
        }
        lemma_inputs_in_range(drivers, groups, ids.drop_last());
        let e = groups[ids.last() as int];
        assert(ids[ids.len() - 1] < groups.len());
        assert(reads_ok(drivers, e));
        let s = inputs_of(groups, ids);
        assert forall|i: int| 0 <= i < s.len() implies #[trigger] s[i] < drivers.len() by {
            if i >= n {
                assert(s[i] == e.inputs@[i - n]);
            } else {
                assert(s[i] == inputs_of(groups, ids.drop_last())[i]);
            }
        }
    }
}

impl StagedAIG {
    /// The nodes that the endpoints of `ids` read, appended to `pins`.
    pub fn collect_inputs(&self, ids: &Vec<usize>, pins: &mut Vec<usize>)
        requires
            ids_ok(self.endpoints@, ids@),
        ensures
            final(pins)@ == old(pins)@ + inputs_of(self.endpoints@, ids@),
    {
        let ghost start = pins@;
        let mut k: usize = 0;
        assert(ids@.take(0) =~= Seq::empty());
        assert(pins@ =~= start + inputs_of(self.endpoints@, ids@.take(0)));
        while k < ids.len()
            invariant
                ids_ok(self.endpoints@, ids@),
                k <= ids@.len(),
                pins@ == start + inputs_of(self.endpoints@, ids@.take(k as int)),
            decreases ids@.len() - k,
        {
            let ghost before = pins@;
            let edg: &EndpointGroup = self.get_endpoint_group(ids[k]);
            let mut i: usize = 0;
            while i < edg.inputs.len()
                invariant
                    i <= edg.inputs@.len(),
                    pins@ == before + edg.inputs@.take(i as int),
                decreases edg.inputs@.len() - i,
            {
                pins.push(edg.inputs[i]);
                i += 1;
                assert(pins@ =~= before + edg.inputs@.take(i as int));
            }
            assert(edg.inputs@.take(i as int) =~= edg.inputs@);
            assert(ids@.take(k + 1).drop_last() =~= ids@.take(k as int));
            k += 1;
            assert(pins@ =~= start + inputs_of(self.endpoints@, ids@.take(k as int)));
        }
        assert(ids@.take(k as int) =~= ids@);
    }

    /// The stage with only the endpoints of `ids`, in that order.
    pub fn to_endpoint_subset(&self, ids: &Vec<usize>) -> (r: StagedAIG)
        requires
            ids_ok(self.endpoints@, ids@),
        ensures
            r.sources() == self.sources(),
            r.primary_inputs is Some == self.primary_inputs is Some,
            r.endpoints@.len() == ids@.len(),
            forall|i: int|
                0 <= i < ids@.len() ==> {
                    &&& (#[trigger] r.endpoints@[i]).kind == self.endpoints@[ids@[i] as int].kind
                    &&& r.endpoints@[i].inputs@ == self.endpoints@[ids@[i] as int].inputs@
                },
    {
        let primary_inputs: Option<IndexSet<usize>> = match &self.primary_inputs {
            Some(s) => Some(set_clone(s)),
            None => None,
        };
        let mut endpoints: Vec<EndpointGroup> = Vec::new();
        let mut k: usize = 0;
        while k < ids.len()
            invariant
                ids_ok(self.endpoints@, ids@),
                k <= ids@.len(),
                endpoints@.len() == k,
                forall|i: int|
                    0 <= i < k ==> {
                        &&& (#[trigger] endpoints@[i]).kind == self.endpoints@[ids@[i] as int].kind
                        &&& endpoints@[i].inputs@ == self.endpoints@[ids@[i] as int].inputs@
                    },
            decreases ids@.len() - k,
        {
            let edg: &EndpointGroup = self.get_endpoint_group(ids[k]);
            let inputs: Vec<usize> = edg.inputs.clone();
            assert(inputs@ =~= edg.inputs@);
            endpoints.push(EndpointGroup { kind: edg.kind, inputs });
            k += 1;
        }
        StagedAIG { primary_inputs, endpoints }
    }
}

/// How often `x` stands among the first `n` entries.
pub open spec fn times_in(s: Seq<usize>, x: usize, n: int) -> nat
    decreases n,
{
    if n <= 0 {
        0
    } else {
        times_in(s, x, n - 1) + (if s[n - 1] == x {
            1nat
        } else {
            0nat
        })
    }
}

/// Nothing occurs more often than a list is long.
proof fn lemma_times_bound(s: Seq<usize>, x: usize, n: int)
    requires
        0 <= n,
    ensures
        times_in(s, x, n) <= n,
    decreases n,
{
    if n > 0 {
        lemma_times_bound(s, x, n - 1);
    }
}

/// How often each of `nodes` nodes stands among `pins`.
pub fn count_pins(pins: &Vec<usize>, nodes: usize) -> (counts: Vec<usize>)
    requires
        forall|i: int| 0 <= i < pins@.len() ==> #[trigger] pins@[i] < nodes,
    ensures
        counts@.len() == nodes,
        forall|u: usize|
            u < nodes ==> #[trigger] counts@[u as int] == times_in(pins@, u, pins@.len() as int),
{
    let mut counts: Vec<usize> = vec![0usize; nodes];
    let mut i: usize = 0;
    while i < pins.len()
        invariant
            forall|i: int| 0 <= i < pins@.len() ==> #[trigger] pins@[i] < nodes,
            i <= pins@.len(),
            counts@.len() == nodes,
            forall|u: usize|
                u < nodes ==> #[trigger] counts@[u as int] == times_in(pins@, u, i as int),
        decreases pins@.len() - i,
    {
        let u: usize = pins[i];
        proof {
            lemma_times_bound(pins@, u, i as int);
        }
        assert(counts@[u as int] == times_in(pins@, u, i as int));
        let c: usize = counts[u] + 1;
        counts[u] = c;
        i += 1;
    }
    counts
}

/// The endpoints of a stage with only some of them read nodes of the graph.
pub proof fn subset_is_well_formed(aig: AIG, staged: StagedAIG, ids: Seq<usize>, sub: StagedAIG)
    requires
        staged.wf(aig),
        ids_ok(staged.endpoints@, ids),
        sub.endpoints@.len() == ids.len(),
        forall|i: int|
            0 <= i < ids.len() ==> (#[trigger] sub.endpoints@[i]).inputs@
                == staged.endpoints@[ids[i] as int].inputs@,
    ensures
        sub.wf(aig),
{
    let groups = staged.endpoints@;
    let some = sub.endpoints@;
    assert forall|e: int| 0 <= e < some.len() implies reads_ok(aig.drivers@, #[trigger] some[e]) by {
        let g = groups[ids[e] as int];
        assert(reads_ok(aig.drivers@, g));
        assert forall|i: int| 0 <= i < some[e].inputs@.len() implies #[trigger] some[e].inputs@[i]
            < aig.drivers@.len() by {
            assert(g.inputs@[i] < aig.drivers@.len());
        }
    }
}

} // verus!
