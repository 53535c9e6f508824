//! Cutting and mapping in turn.
//!
//! The endpoints of a stage are partitioned into parts that a solver finds.
//! The parts that cannot be mapped are partitioned again, more finely, until
//! all are mapped.  Around that, the size of the parts is halved as long as the
//! partitions get shallower.  The solver is called by the application, which
//! asks this module what to do next and reports what came of it.
use crate::aig::{cone_order_is_topological, stop_set, AIG};
use crate::layout::rows;
use crate::merge::{design, parts_ok, views};
use crate::merge_laws::{ids_in, lemma_sum_concat, lemma_sum_empty, lemma_sum_update, sum_by};
use crate::merge_model::{most_stages, Design};
use crate::parallel::par_map;
use crate::pe::{Partition, Realization};
use crate::seqs::lemma_short;
use crate::sorts::{index_le, lemma_orders, lemma_sort_contains, sort_indices, sorted_indices};
use crate::staging::{every_id, ids_ok, inputs_of, lemma_inputs_in_range, StagedAIG};
use indexmap::IndexSet;
use vstd::multiset::Multiset;
use vstd::prelude::*;

verus! {

/// With more partitions than this, a search stops unless they get clearly
/// shallower.
pub const TOO_MANY_PARTITIONS: usize = 2000;

/// The size of the parts with which a search starts.
pub const FIRST_NODES_PER_PART: usize = 40000;

/// A search stops below this size.
pub const FEWEST_NODES_PER_PART: usize = 1000;

/// The indices below `n` whose part is `p`.
pub open spec fn members_of(part_ids: Seq<usize>, p: usize, n: int) -> Seq<usize>
    decreases n,
{
    if n <= 0 {
        Seq::empty()
    } else if part_ids[n - 1] == p {
        members_of(part_ids, p, n - 1).push((n - 1) as usize)
    } else {
        members_of(part_ids, p, n - 1)
    }
}

/// The members of each part.
pub open spec fn parts_of(part_ids: Seq<usize>, num_parts: nat) -> Seq<Seq<usize>> {
    Seq::new(num_parts, |p: int| members_of(part_ids, p as usize, part_ids.len() as int))
}

/// Lists the members of each part.
pub fn run_par(part_ids: &Vec<usize>, num_parts: usize) -> (parts: Vec<Vec<usize>>)
    requires
        forall|i: int| 0 <= i < part_ids@.len() ==> #[trigger] part_ids@[i] < num_parts,
    ensures
        rows(parts@) == parts_of(part_ids@, num_parts as nat),
{
    let mut parts: Vec<Vec<usize>> = Vec::new();
    let mut p: usize = 0;
    while p < num_parts
        invariant
            p <= num_parts,
            parts@.len() == p,
            forall|q: int| 0 <= q < p ==> (#[trigger] parts@[q])@ == Seq::<usize>::empty(),
        decreases num_parts - p,
    {
        parts.push(Vec::new());
        p += 1;
    }
    let mut i: usize = 0;
    while i < part_ids.len()
        invariant
            forall|i: int| 0 <= i < part_ids@.len() ==> #[trigger] part_ids@[i] < num_parts,
            i <= part_ids@.len(),
            parts@.len() == num_parts,
            forall|q: int|
                0 <= q < num_parts ==> (#[trigger] parts@[q])@ == members_of(
                    part_ids@,
                    q as usize,
                    i as int,
                ),
        decreases part_ids@.len() - i,
    {
        let p: usize = part_ids[i];
        assert(part_ids@[i as int] == p);
        assert(parts@[p as int]@ == members_of(part_ids@, p, i as int));
        parts[p].push(i);
        i += 1;
    }
    assert(rows(parts@) =~= parts_of(part_ids@, num_parts as nat));
    parts
}

/// Every index stands in the part that it is assigned to and in no other.
pub proof fn parts_divide_the_indices(part_ids: Seq<usize>, p: usize, n: int, i: usize)
    requires
        0 <= n <= part_ids.len() <= usize::MAX,
    ensures
        members_of(part_ids, p, n).contains(i) <==> i < n && part_ids[i as int] == p,
        members_of(part_ids, p, n).no_duplicates(),
    decreases n,
{
    if n > 0 {
        parts_divide_the_indices(part_ids, p, n - 1, i);
        let s = members_of(part_ids, p, n - 1);
        let t = members_of(part_ids, p, n);
        if part_ids[n - 1] == p {
            let last = (n - 1) as usize;
            assert(t[s.len() as int] == last);
            if s.contains(i) {
                assert(t[s.index_of(i)] == i);
            }
            if t.contains(i) && i != last {
                assert(s[t.index_of(i)] == i);
            }
            parts_divide_the_indices(part_ids, p, n - 1, last);
            assert forall|x: int, y: int| 0 <= x < t.len() && 0 <= y < t.len() && x != y implies t[x]
                != t[y] by {
                if x == s.len() {
                    assert(s.contains(s[y]));
                } else if y == s.len() {
                    assert(s.contains(s[x]));
                }
            }
        }
    }
}

/// The endpoints of the parts that are listed by their place in `ids`.
pub open spec fn renamed(ids: Seq<usize>, parts: Seq<Seq<usize>>) -> Seq<Seq<usize>> {
    parts.map_values(|p: Seq<usize>| p.map_values(|i: usize| ids[i as int]))
}

/// How far one round of cutting and mapping has come.
#[verifier::ext_equal]
pub struct Cut {
    /// The endpoints that are not mapped yet.
    pub unrealized: Seq<usize>,
    /// The parts that can be mapped.
    pub good: Seq<Seq<usize>>,
    /// The number of endpoints that a part should have.
    pub division: int,
}

/// The start of a round, where a part should have about `nodes_per_part` of the
/// `total` nodes.
pub open spec fn cut_start(n: int, total: int, nodes_per_part: int) -> Cut {
    let target = (total + nodes_per_part - 1) / nodes_per_part;
    Cut {
        unrealized: Seq::new(n as nat, |i: int| i as usize),
        good: Seq::empty(),
        division: if target > 0 {
            n / target
        } else {
            n
        },
    }
}

/// The number of endpoints of a part in the next step.
pub open spec fn next_division(c: Cut) -> int {
    if c.division / 2 >= 1 {
        c.division / 2
    } else {
        1
    }
}

/// The number of parts of the next step.
pub open spec fn next_parts(c: Cut) -> int {
    (c.unrealized.len() + next_division(c) - 1) / next_division(c)
}

/// The first `n` parts that can be mapped.
pub open spec fn mapped_parts(d: Design, parts: Seq<Seq<usize>>, n: int) -> Seq<Seq<usize>>
    decreases n,
{
    if n <= 0 {
        Seq::empty()
    } else if d.build(parts[n - 1]) is Some {
        mapped_parts(d, parts, n - 1).push(parts[n - 1])
    } else {
        mapped_parts(d, parts, n - 1)
    }
}

/// The endpoints of those of the first `n` parts that cannot be mapped.
pub open spec fn unmapped_ids(d: Design, parts: Seq<Seq<usize>>, n: int) -> Seq<usize>
    decreases n,
{
    if n <= 0 {
        Seq::empty()
    } else if d.build(parts[n - 1]) is Some {
        unmapped_ids(d, parts, n - 1)
    } else {
        unmapped_ids(d, parts, n - 1) + parts[n - 1]
    }
}

/// A single endpoint that cannot be mapped.
pub open spec fn is_stuck(d: Design, p: Seq<usize>) -> bool {
    p.len() == 1 && d.build(p) is None
}

/// The round after the endpoints were cut into `parts`.
pub open spec fn cut_step(d: Design, c: Cut, parts: Seq<Seq<usize>>) -> Cut {
    Cut {
        unrealized: sorted_indices(unmapped_ids(d, parts, parts.len() as int)),
        good: c.good + mapped_parts(d, parts, parts.len() as int),
        division: next_division(c),
    }
}

/// One round of cutting and mapping.
pub struct CutRound {
    pub unrealized: Vec<usize>,
    pub good: Vec<Vec<usize>>,
    pub division: usize,
}

impl View for CutRound {
    type V = Cut;

    open spec fn view(&self) -> Cut {
        Cut {
            unrealized: self.unrealized@,
            good: rows(self.good@),
            division: self.division as int,
        }
    }
}

/// The outcome of one step of a round.
pub enum StepResult {
    /// The parts that can be mapped were taken over.
    Advanced,
    /// This endpoint cannot be mapped even alone.
    Stuck(usize),
}

/// The design of a stage, by reference.
spec fn design_of(aig: &AIG, staged: &StagedAIG) -> Design {
    design(*aig, *staged)
}

/// Parts of a stage can be built.
spec fn can_build(aig: &AIG, staged: &StagedAIG, parts: Seq<Seq<usize>>) -> bool {
    &&& staged.wf(*aig)
    &&& parts_ok(staged.endpoints@, parts)
    &&& forall|k: int|
        0 <= k < parts.len() ==> design(*aig, *staged).can_build(#[trigger] parts[k])
}

/// Builds the partitions of all parts.
fn build_each(aig: &AIG, staged: &StagedAIG, parts: &Vec<Vec<usize>>) -> (v: Vec<Option<Partition>>)
    requires
        can_build(aig, staged, rows(parts@)),
    ensures
        v@.len() == parts@.len(),
        forall|k: int|
            0 <= k < v@.len() ==> match design(*aig, *staged).build(rows(parts@)[k]) {
                None => #[trigger] v@[k] is None,
                Some(p) => v@[k] is Some && v@[k].unwrap()@ == p,
            },
{
    let n: usize = parts.len();
    let f = |k: usize| -> (r: Option<Partition>)
        requires
            can_build(aig, staged, rows(parts@)),
            n == parts@.len(),
            k < n,
        ensures
            match design_of(aig, staged).build(rows(parts@)[k as int]) {
                None => r is None,
                Some(p) => r is Some && r.unwrap()@ == p,
            },
        {
            assert(ids_ok(staged.endpoints@, rows(parts@)[k as int]));
            Partition::build_one(aig, staged, &parts[k])
        };
    par_map(n, f)
}

/// The partitions of those of the first `n` parts that can be mapped.
pub open spec fn built_parts(d: Design, parts: Seq<Seq<usize>>, n: int) -> Seq<Realization>
    decreases n,
{
    if n <= 0 {
        Seq::empty()
    } else {
        match d.build(parts[n - 1]) {
            Some(p) => built_parts(d, parts, n - 1).push(p),
            None => built_parts(d, parts, n - 1),
        }
    }
}

/// The largest number of stages of a partition; zero if there is none.
pub fn get_max_partition_depth(partitions: &Vec<Partition>) -> (depth: usize)
    ensures
        depth == most_stages(views(partitions@)),
{
    let ghost vs = views(partitions@);
    let mut depth: usize = 0;
    let mut i: usize = 0;
    assert(vs.take(0) =~= Seq::empty());
    while i < partitions.len()
        invariant
            vs == views(partitions@),
            i <= partitions@.len(),
            depth == most_stages(vs.take(i as int)),
        decreases partitions@.len() - i,
    {
        assert(vs.take(i + 1).drop_last() =~= vs.take(i as int));
        assert(vs[i as int].stages.len() == partitions@[i as int].stages@.len());
        if partitions[i].stages.len() > depth {
            depth = partitions[i].stages.len();
        }
        i += 1;
    }
    assert(vs.take(i as int) =~= vs);
    depth
}

/// The endpoints of the parts that are listed by their place in `ids`.
fn rename_parts(ids: &Vec<usize>, parts: &Vec<Vec<usize>>) -> (r: Vec<Vec<usize>>)
    requires
        forall|p: int, i: int|
            0 <= p < parts@.len() && 0 <= i < parts@[p]@.len() ==> #[trigger] parts@[p]@[i]
                < ids@.len(),
    ensures
        rows(r@) == renamed(ids@, rows(parts@)),
{
    let mut r: Vec<Vec<usize>> = Vec::new();
    let mut p: usize = 0;
    while p < parts.len()
        invariant
            forall|p: int, i: int|
                0 <= p < parts@.len() && 0 <= i < parts@[p]@.len() ==> #[trigger] parts@[p]@[i]
                    < ids@.len(),
            p <= parts@.len(),
            r@.len() == p,
            forall|q: int|
                0 <= q < p ==> (#[trigger] r@[q])@ == parts@[q]@.map_values(
                    |i: usize| ids@[i as int],
                ),
        decreases parts@.len() - p,
    {
        let part: &Vec<usize> = &parts[p];
        let mut named: Vec<usize> = Vec::new();
        let mut i: usize = 0;
        while i < part.len()
            invariant
                p < parts@.len(),
                part@ == parts@[p as int]@,
                forall|p: int, i: int|
                    0 <= p < parts@.len() && 0 <= i < parts@[p]@.len()
                        ==> #[trigger] parts@[p]@[i] < ids@.len(),
                i <= part@.len(),
                named@ == part@.take(i as int).map_values(|i: usize| ids@[i as int]),
            decreases part@.len() - i,
        {
            assert(parts@[p as int]@[i as int] < ids@.len());
            named.push(ids[part[i]]);
            i += 1;
            assert(named@ =~= part@.take(i as int).map_values(|i: usize| ids@[i as int]));
        }
        assert(part@.take(i as int) =~= part@);
        r.push(named);
        p += 1;
    }
    assert(rows(r@) =~= renamed(ids@, rows(parts@)));
    r
}

/// The parts of endpoints name endpoints.
proof fn lemma_renamed_ok(staged: StagedAIG, ids: Seq<usize>, part_ids: Seq<usize>, n: nat)
    requires
        ids_ok(staged.endpoints@, ids),
        part_ids.len() == ids.len() <= usize::MAX,
    ensures
        forall|p: int, i: int|
            0 <= p < n && 0 <= i < parts_of(part_ids, n)[p].len() ==> #[trigger] parts_of(
                part_ids,
                n,
            )[p][i] < ids.len(),
        parts_ok(staged.endpoints@, renamed(ids, parts_of(part_ids, n))),
{
    let parts = parts_of(part_ids, n);
    assert forall|p: int, i: int| 0 <= p < n && 0 <= i < parts[p].len() implies #[trigger] parts[p][i]
        < ids.len() by {
        let x = parts[p][i];
        assert(parts[p].contains(x));
        parts_divide_the_indices(part_ids, p as usize, part_ids.len() as int, x);
    }
    let r = renamed(ids, parts);
    assert forall|p: int| 0 <= p < r.len() implies ids_ok(staged.endpoints@, #[trigger] r[p]) by {
        assert forall|i: int| 0 <= i < r[p].len() implies #[trigger] r[p][i]
            < staged.endpoints@.len() by {
            assert(parts[p][i] < ids.len());
            assert(ids[parts[p][i] as int] < staged.endpoints@.len());
        }
    }
}

/// All endpoints, by number.
fn all_ids(n: usize) -> (v: Vec<usize>)
    ensures
        v@ == Seq::new(n as nat, |i: int| i as usize),
{
    let mut v: Vec<usize> = Vec::new();
    let mut i: usize = 0;
    while i < n
        invariant
            i <= n,
            v@ == Seq::new(i as nat, |i: int| i as usize),
        decreases n - i,
    {
        v.push(i);
        i += 1;
        assert(v@ =~= Seq::new(i as nat, |i: int| i as usize));
    }
    v
}

impl CutRound {
    /// Starts a round in which a part should have about `nodes_per_part` nodes.
    pub fn start(aig: &AIG, staged: &StagedAIG, nodes_per_part: usize) -> (r: CutRound)
        requires
            staged.wf(*aig),
            nodes_per_part > 0,
            aig.drivers@.len() + nodes_per_part <= usize::MAX,
        ensures
            r@ == cut_start(
                staged.endpoints@.len() as int,
                design(*aig, *staged).cone_len(every_id(staged.endpoints@.len())) as int,
                nodes_per_part as int,
            ),
    {
        let n: usize = staged.num_endpoint_groups();
        let unrealized: Vec<usize> = all_ids(n);
        let mut pins: Vec<usize> = Vec::new();
        staged.collect_inputs(&unrealized, &mut pins);
        assert(pins@ =~= inputs_of(staged.endpoints@, unrealized@));
        proof {
            lemma_inputs_in_range(aig.drivers@, staged.endpoints@, unrealized@);
        }
        let stops: Option<&IndexSet<usize>> = match &staged.primary_inputs {
            Some(s) => Some(s),
            None => None,
        };
        assert(stop_set(stops) =~= staged.sources());
        let order: Vec<usize> = aig.topo_traverse_generic(&pins, stops);
        proof {
            cone_order_is_topological(aig.drivers@, staged.sources(), pins@);
            lemma_short(order@, aig.drivers@.len());
        }
        let total: usize = order.len();
        let target: usize = (total + nodes_per_part - 1) / nodes_per_part;
        let division: usize = if target > 0 {
            n / target
        } else {
            n
        };
        let good: Vec<Vec<usize>> = Vec::new();
        assert(rows(good@) =~= Seq::empty());
        CutRound { unrealized, good, division }
    }

    /// The number of parts into which to cut the endpoints that are left; none
    /// if there are none left.
    pub fn num_parts(&self) -> (n: Option<usize>)
        requires
            self.unrealized@.len() + self.division <= usize::MAX,
        ensures
            match n {
                None => self@.unrealized.len() == 0,
                Some(k) => self@.unrealized.len() > 0 && k == next_parts(self@) && k > 0,
            },
    {
        if self.unrealized.len() == 0 {
            return None;
        }
        let division: usize = if self.division / 2 >= 1 {
            self.division / 2
        } else {
            1
        };
        let n: usize = (self.unrealized.len() + (division - 1)) / division;
        proof {
            let a = (self.unrealized@.len() + (division - 1)) as int;
            vstd::arithmetic::div_mod::lemma_div_is_ordered(division as int, a, division as int);
            vstd::arithmetic::div_mod::lemma_div_by_self(division as int);
        }
        Some(n)
    }

    /// Maps the parts that the endpoints were cut into, where `part_ids` gives
    /// the part of each endpoint that is left.
    pub fn step(
        &mut self,
        aig: &AIG,
        staged: &StagedAIG,
        part_ids: &Vec<usize>,
        num_parts: usize,
    ) -> (r: StepResult)
        requires
            staged.wf(*aig),
            ids_ok(staged.endpoints@, old(self).unrealized@),
            part_ids@.len() == old(self).unrealized@.len(),
            forall|i: int| 0 <= i < part_ids@.len() ==> #[trigger] part_ids@[i] < num_parts,
            ({
                let parts = renamed(
                    old(self).unrealized@,
                    parts_of(part_ids@, num_parts as nat),
                );
                forall|k: int|
                    0 <= k < parts.len() ==> design(*aig, *staged).can_build(#[trigger] parts[k])
            }),
        ensures
            ({
                let d = design(*aig, *staged);
                let parts = renamed(
                    old(self).unrealized@,
                    parts_of(part_ids@, num_parts as nat),
                );
                match r {
                    StepResult::Advanced => {
                        &&& forall|k: int| 0 <= k < parts.len() ==> !is_stuck(d, #[trigger] parts[k])
                        &&& final(self)@ == cut_step(d, old(self)@, parts)
                    },
                    StepResult::Stuck(e) => {
                        &&& final(self)@ == old(self)@
                        &&& exists|k: int|
                            0 <= k < parts.len() && is_stuck(d, #[trigger] parts[k]) && parts[k][0]
                                == e && forall|q: int|
                                0 <= q < k ==> !is_stuck(d, #[trigger] parts[q])
                    },
                }
            }),
    {
        let ghost d = design(*aig, *staged);
        let ghost before = self@;
        let cut: Vec<Vec<usize>> = run_par(part_ids, num_parts);
        proof {
            assert(part_ids@.len() == part_ids.len());
            lemma_renamed_ok(*staged, self.unrealized@, part_ids@, num_parts as nat);
            assert forall|p: int, i: int|
                0 <= p < cut@.len() && 0 <= i < cut@[p]@.len() implies #[trigger] cut@[p]@[i]
                < self.unrealized@.len() by {
                assert(rows(cut@)[p] == cut@[p]@);
                assert(parts_of(part_ids@, num_parts as nat)[p][i] < self.unrealized@.len());
            }
        }
        let parts: Vec<Vec<usize>> = rename_parts(&self.unrealized, &cut);
        let ghost ps = rows(parts@);
        assert(ps == renamed(self.unrealized@, parts_of(part_ids@, num_parts as nat)));
        let built: Vec<Option<Partition>> = build_each(aig, staged, &parts);
        let mut k: usize = 0;
        while k < parts.len()
            invariant
                k <= parts@.len(),
                ps == rows(parts@),
                built@.len() == parts@.len(),
                d == design(*aig, *staged),
                before == self@,
                before == old(self)@,
                ps == renamed(old(self).unrealized@, parts_of(part_ids@, num_parts as nat)),
                forall|q: int|
                    0 <= q < built@.len() ==> (#[trigger] built@[q] is Some) == (d.build(ps[q]) is
                        Some),
                forall|q: int| 0 <= q < k ==> !is_stuck(d, #[trigger] ps[q]),
            decreases parts@.len() - k,
        {
            assert(ps[k as int] == parts@[k as int]@);
            if built[k].is_none() && parts[k].len() == 1 {
                assert(built@[k as int] is None);
                assert(is_stuck(d, ps[k as int]));
                return StepResult::Stuck(parts[k][0]);
            }
            k += 1;
        }
        let mut left: Vec<usize> = Vec::new();
        let mut k: usize = 0;
        let ghost good0 = rows(self.good@);
        assert(rows(self.good@) =~= good0 + mapped_parts(d, ps, 0));
        while k < parts.len()
            invariant
                k <= parts@.len(),
                ps == rows(parts@),
                built@.len() == parts@.len(),
                d == design(*aig, *staged),
                forall|q: int|
                    0 <= q < built@.len() ==> (#[trigger] built@[q] is Some) == (d.build(ps[q]) is
                        Some),
                rows(self.good@) == good0 + mapped_parts(d, ps, k as int),
                left@ == unmapped_ids(d, ps, k as int),
                self.division == old(self).division,
            decreases parts@.len() - k,
        {
            assert(ps[k as int] == parts@[k as int]@);
            let part: &Vec<usize> = &parts[k];
            if built[k].is_some() {
                let ghost g = rows(self.good@);
                let copy: Vec<usize> = part.clone();
                assert(copy@ =~= part@);
                self.good.push(copy);
                assert(rows(self.good@) =~= g.push(part@));
                assert(rows(self.good@) =~= good0 + mapped_parts(d, ps, k + 1));
            } else {
                let ghost l = left@;
                let mut i: usize = 0;
                while i < part.len()
                    invariant
                        i <= part@.len(),
                        left@ == l + part@.take(i as int),
                    decreases part@.len() - i,
                {
                    left.push(part[i]);
                    i += 1;
                    assert(left@ =~= l + part@.take(i as int));
                }
                assert(part@.take(i as int) =~= part@);
            }
            k += 1;
        }
        sort_indices(&mut left);
        self.unrealized = left;
        self.division = if self.division / 2 >= 1 {
            self.division / 2
        } else {
            1
        };
        StepResult::Advanced
    }

    /// The partitions of the parts that can be mapped.
    pub fn build_good(&self, aig: &AIG, staged: &StagedAIG) -> (ps: Vec<Partition>)
        requires
            staged.wf(*aig),
            parts_ok(staged.endpoints@, rows(self.good@)),
            forall|k: int|
                0 <= k < self.good@.len() ==> design(*aig, *staged).can_build(
                    #[trigger] rows(self.good@)[k],
                ),
        ensures
            views(ps@) == built_parts(
                design(*aig, *staged),
                self@.good,
                self@.good.len() as int,
            ),
    {
        let ghost d = design(*aig, *staged);
        let ghost gs = rows(self.good@);
        let built: Vec<Option<Partition>> = build_each(aig, staged, &self.good);
        let mut ps: Vec<Partition> = Vec::new();
        assert(views(ps@) =~= built_parts(d, gs, 0));
        for b in it: built
            invariant
                it.seq() == built@,
                built@.len() == gs.len(),
                forall|k: int|
                    0 <= k < built@.len() ==> match d.build(gs[k]) {
                        None => #[trigger] built@[k] is None,
                        Some(p) => built@[k] is Some && built@[k].unwrap()@ == p,
                    },
                views(ps@) == built_parts(d, gs, it.index() as int),
        {
            let ghost before = ps@;
            let ghost n = it.index() as int;
            assert(b == built@[n]);
            if let Some(p) = b {
                ps.push(p);
                assert(views(ps@) =~= views(before).push(p@));
            }
        }
        ps
    }
}

/// The endpoints of the parts after the first `n` were assigned.
spec fn named_upto(ids: Seq<usize>, part_ids: Seq<usize>, num_parts: nat, n: int) -> Seq<Seq<usize>> {
    Seq::new(
        num_parts,
        |p: int| members_of(part_ids, p as usize, n).map_values(|i: usize| ids[i as int]),
    )
}

/// Naming the members of parts loses none of them.
proof fn lemma_named(ids: Seq<usize>, part_ids: Seq<usize>, num_parts: nat, n: int)
    requires
        0 <= n <= ids.len() == part_ids.len(),
        ids.len() <= usize::MAX,
        num_parts <= usize::MAX,
        forall|i: int| 0 <= i < part_ids.len() ==> #[trigger] part_ids[i] < num_parts,
    ensures
        sum_by(named_upto(ids, part_ids, num_parts, n), ids_in()) == ids.take(n).to_multiset(),
    decreases n,
{
    broadcast use vstd::seq_lib::group_to_multiset_ensures;

    let r = named_upto(ids, part_ids, num_parts, n);
    if n == 0 {
        assert(ids.take(0) =~= Seq::empty());
        assert forall|p: int| 0 <= p < r.len() implies #[trigger] r[p] =~= Seq::empty() by {}
        lemma_sum_empty(r);
        assert(ids.take(0).to_multiset() =~= Multiset::empty()) by {
            assert(ids.take(0).to_multiset().len() == 0);
        }
    } else {
        lemma_named(ids, part_ids, num_parts, n - 1);
        let s = named_upto(ids, part_ids, num_parts, n - 1);
        let p = part_ids[n - 1] as int;
        let x = ids[n - 1];
        assert(r =~= s.update(p, s[p].push(x))) by {
            assert forall|q: int| 0 <= q < r.len() implies r[q] =~= s.update(p, s[p].push(x))[q] by {}
        }
        lemma_sum_update(s, ids_in(), p, s[p].push(x));
        assert(ids.take(n) =~= ids.take(n - 1).push(x));
        assert(sum_by(r, ids_in()) =~= ids.take(n).to_multiset()) by {
            let sr = sum_by(r, ids_in());
            let ss = sum_by(s, ids_in());
            assert forall|y: usize| sr.count(y) == ids.take(n).to_multiset().count(y) by {
                assert(sr.add(ids_in()(s[p])).count(y) == ss.add(ids_in()(s[p].push(x))).count(y));
            }
        }
    }
}

/// Every endpoint of a part is mapped or left.
proof fn lemma_mapped_ids(d: Design, parts: Seq<Seq<usize>>, n: int)
    requires
        0 <= n <= parts.len(),
    ensures
        sum_by(mapped_parts(d, parts, n), ids_in()).add(unmapped_ids(d, parts, n).to_multiset())
            == sum_by(parts.take(n), ids_in()),
    decreases n,
{
    broadcast use vstd::seq_lib::group_to_multiset_ensures;

    if n == 0 {
        let empty: Seq<usize> = Seq::empty();
        assert(parts.take(0) =~= Seq::empty());
        assert(empty.to_multiset() =~= Multiset::empty()) by {
            assert(empty.to_multiset().len() == 0);
        }
        assert(sum_by(mapped_parts(d, parts, 0), ids_in()).add(empty.to_multiset()) =~= sum_by(
            parts.take(0),
            ids_in(),
        ));
    } else {
        lemma_mapped_ids(d, parts, n - 1);
        let m = mapped_parts(d, parts, n - 1);
        let u = unmapped_ids(d, parts, n - 1);
        let x = parts[n - 1];
        assert(parts.take(n).drop_last() =~= parts.take(n - 1));
        if d.build(x) is Some {
            assert(m.push(x).drop_last() =~= m);
            assert(sum_by(m.push(x), ids_in()).add(u.to_multiset()) =~= sum_by(
                parts.take(n),
                ids_in(),
            ));
        } else {
            vstd::seq_lib::lemma_multiset_commutative(u, x);
            assert(sum_by(m, ids_in()).add((u + x).to_multiset()) =~= sum_by(
                parts.take(n),
                ids_in(),
            ));
        }
    }
}

/// A step of a round neither loses nor adds an endpoint: those that are left and
/// those of the parts that can be mapped are together the same as before.
pub proof fn cut_step_keeps_endpoints(d: Design, c: Cut, part_ids: Seq<usize>, num_parts: nat)
    requires
        c.unrealized.len() == part_ids.len() <= usize::MAX,
        num_parts <= usize::MAX,
        forall|i: int| 0 <= i < part_ids.len() ==> #[trigger] part_ids[i] < num_parts,
    ensures
        ({
            let r = cut_step(d, c, renamed(c.unrealized, parts_of(part_ids, num_parts)));
            sum_by(r.good, ids_in()).add(r.unrealized.to_multiset()) == sum_by(
                c.good,
                ids_in(),
            ).add(c.unrealized.to_multiset())
        }),
{
    let parts = renamed(c.unrealized, parts_of(part_ids, num_parts));
    let r = cut_step(d, c, parts);
    let n = parts.len() as int;
    lemma_named(c.unrealized, part_ids, num_parts, part_ids.len() as int);
    assert(c.unrealized.take(part_ids.len() as int) =~= c.unrealized);
    assert(parts =~= named_upto(c.unrealized, part_ids, num_parts, part_ids.len() as int));
    lemma_mapped_ids(d, parts, n);
    assert(parts.take(n) =~= parts);
    let u = unmapped_ids(d, parts, n);
    lemma_orders();
    lemma_sort_contains(u, index_le());
    let m = mapped_parts(d, parts, n);
    lemma_sum_concat(c.good, m);
    assert(sum_by(r.good, ids_in()).add(r.unrealized.to_multiset()) =~= sum_by(
        c.good,
        ids_in(),
    ).add(c.unrealized.to_multiset()));
}

/// What a search is doing.
#[derive(Clone, Copy, Debug, PartialEq, Eq, Structural)]
pub enum Phase {
    /// Trying smaller and smaller parts.
    Searching,
    /// Going back to the size before the last one.
    Rerunning,
    /// Trying the best size once more.
    Finishing,
    Done,
}

/// How far a search has come.
#[verifier::ext_equal]
pub struct SearchState {
    /// The size of the parts that is tried next.
    pub estimated: int,
    /// The size that was tried before.
    pub previous: int,
    /// The depth of the best partitions so far.
    pub depth: Option<int>,
    /// The best parts so far.
    pub best: Seq<Seq<usize>>,
    pub phase: Phase,
}

/// The start of a search.
pub open spec fn search_start() -> SearchState {
    SearchState {
        estimated: FIRST_NODES_PER_PART as int,
        previous: FIRST_NODES_PER_PART as int,
        depth: None,
        best: Seq::empty(),
        phase: Phase::Searching,
    }
}

/// The end of the search for a size: the best size is tried once more, unless
/// it is the first one or there are no parts.
pub open spec fn search_over(s: SearchState) -> SearchState {
    if s.estimated < FIRST_NODES_PER_PART && s.best.len() > 0 {
        SearchState { estimated: s.estimated * 2, phase: Phase::Finishing, ..s }
    } else {
        SearchState { phase: Phase::Done, ..s }
    }
}

/// Whether partitions of depth `d` are no shallower than `best`.
pub open spec fn no_better(best: Option<int>, d: int) -> bool {
    best matches Some(b) && d >= b
}

/// Whether partitions of depth `d` are at most one stage shallower than `best`.
pub open spec fn hardly_better(best: Option<int>, d: int) -> bool {
    best matches Some(b) && (d >= b - 1 || b == 0)
}

/// The search after the size that it asked for gave `parts` of depth `d`.
pub open spec fn search_next(s: SearchState, parts: Seq<Seq<usize>>, d: int) -> SearchState {
    match s.phase {
        Phase::Searching => if no_better(s.depth, d) {
            search_over(s)
        } else if parts.len() > TOO_MANY_PARTITIONS && hardly_better(s.depth, d) {
            SearchState { estimated: s.previous, phase: Phase::Rerunning, ..s }
        } else {
            let r = SearchState {
                estimated: s.estimated / 2,
                previous: s.estimated,
                depth: Some(d),
                best: parts,
                phase: Phase::Searching,
            };
            if r.estimated < FEWEST_NODES_PER_PART {
                search_over(r)
            } else {
                r
            }
        },
        Phase::Rerunning => SearchState { best: parts, phase: Phase::Done, ..s },
        Phase::Finishing => {
            let better = match s.depth {
                Some(b) => d < b,
                None => true,
            };
            SearchState {
                best: if better {
                    parts
                } else {
                    s.best
                },
                phase: Phase::Done,
                ..s
            }
        },
        Phase::Done => s,
    }
}

/// A search for the size of the parts.
pub struct AdaptiveSearch {
    pub estimated: usize,
    pub previous: usize,
    pub depth: Option<usize>,
    pub best: Vec<Vec<usize>>,
    pub phase: Phase,
}

impl View for AdaptiveSearch {
    type V = SearchState;

    open spec fn view(&self) -> SearchState {
        SearchState {
            estimated: self.estimated as int,
            previous: self.previous as int,
            depth: match self.depth {
                Some(d) => Some(d as int),
                None => None,
            },
            best: rows(self.best@),
            phase: self.phase,
        }
    }
}

impl AdaptiveSearch {
    /// Starts a search.
    pub fn new() -> (s: AdaptiveSearch)
        ensures
            s@ == search_start(),
    {
        let best: Vec<Vec<usize>> = Vec::new();
        assert(rows(best@) =~= Seq::empty());
        AdaptiveSearch {
            estimated: FIRST_NODES_PER_PART,
            previous: FIRST_NODES_PER_PART,
            depth: None,
            best,
            phase: Phase::Searching,
        }
    }

    /// The size of the parts to try next; none if the search is over.
    pub fn request(&self) -> (r: Option<usize>)
        ensures
            r == if self@.phase is Done {
                None
            } else {
                Some(self.estimated)
            },
    {
        if self.phase == Phase::Done {
            None
        } else {
            Some(self.estimated)
        }
    }

    /// Ends the search for a size.
    fn finish_search(&mut self)
        ensures
            final(self)@ == search_over(old(self)@),
    {
        assert(self@.best.len() == self.best@.len());
        if self.estimated < FIRST_NODES_PER_PART && self.best.len() > 0 {
            self.estimated = self.estimated * 2;
            self.phase = Phase::Finishing;
        } else {
            self.phase = Phase::Done;
        }
    }

    /// Takes over what the requested size gave.
    pub fn report(&mut self, parts_indices: Vec<Vec<usize>>, max_depth: usize)
        ensures
            final(self)@ == search_next(old(self)@, rows(parts_indices@), max_depth as int),
    {
        assert(rows(parts_indices@).len() == parts_indices@.len());
        match self.phase {
            Phase::Searching => {
                let (worse, close): (bool, bool) = match self.depth {
                    Some(d) => (max_depth >= d, d == 0 || max_depth >= d - 1),
                    None => (false, false),
                };
                if worse {
                    self.finish_search();
                } else if parts_indices.len() > TOO_MANY_PARTITIONS && close {
                    self.estimated = self.previous;
                    self.phase = Phase::Rerunning;
                } else {
                    self.previous = self.estimated;
                    self.best = parts_indices;
                    self.depth = Some(max_depth);
                    self.estimated = self.estimated / 2;
                    if self.estimated < FEWEST_NODES_PER_PART {
                        self.finish_search();
                    }
                }
            },
            Phase::Rerunning => {
                self.best = parts_indices;
                self.phase = Phase::Done;
            },
            Phase::Finishing => {
                let better: bool = match self.depth {
                    Some(d) => max_depth < d,
                    None => true,
                };
                if better {
                    self.best = parts_indices;
                }
                self.phase = Phase::Done;
            },
            Phase::Done => {},
        }
    }
}

/// How many more sizes a search may try.
pub open spec fn search_rank(s: SearchState) -> int {
    match s.phase {
        Phase::Searching => s.estimated + 2,
        Phase::Rerunning => 1,
        Phase::Finishing => 1,
        Phase::Done => 0,
    }
}

/// A search comes to an end: with every report it either is over or has fewer
/// sizes left to try, and as long as it goes on the best depth falls.
pub proof fn search_ends(s: SearchState, parts: Seq<Seq<usize>>, d: int)
    requires
        s.phase !is Done,
        s.phase is Searching ==> s.estimated >= FEWEST_NODES_PER_PART,
    ensures
        ({
            let r = search_next(s, parts, d);
            &&& 0 <= search_rank(r) < search_rank(s)
            &&& r.phase is Searching ==> r.estimated >= FEWEST_NODES_PER_PART
            &&& r.phase is Searching ==> r.depth == Some(d)
            &&& r.phase is Searching && s.depth is Some ==> d < s.depth.unwrap()
        }),
{
}

/// The number of endpoints in a part at the start of a round: with `k` parts of
/// the wanted size, which is the least number of them that holds all nodes,
/// every part gets its whole share of the `n` endpoints, and no more.  Without
/// nodes one part gets all.
pub proof fn rounds_start_with_the_wanted_size(n: int, total: int, size: int, k: int)
    requires
        0 <= n,
        0 <= total,
        0 < size,
        (k - 1) * size < total <= k * size,
    ensures
        ({
            let q = cut_start(n, total, size).division;
            &&& k > 0 ==> q * k <= n < (q + 1) * k
            &&& k == 0 ==> q == n
            &&& k >= 0
        }),
        cut_start(n, total, size).good.len() == 0,
        cut_start(n, total, size).unrealized.len() == n,
        n <= usize::MAX ==> forall|i: int|
            0 <= i < n ==> #[trigger] cut_start(n, total, size).unrealized[i] == i,
{
    let c = cut_start(n, total, size);
    let a = total + size - 1;
    vstd::arithmetic::div_mod::lemma_fundamental_div_mod(a, size);
    let t = a / size;
    let r = a % size;
    assert(t == k) by (nonlinear_arith)
        requires
            a == size * t + r,
            0 <= r < size,
            a == total + size - 1,
            (k - 1) * size < total <= k * size,
            size > 0,
    ;
    assert(k >= 0) by (nonlinear_arith)
        requires
            0 <= total <= k * size,
            size > 0,
    ;
    if k > 0 {
        vstd::arithmetic::div_mod::lemma_fundamental_div_mod(n, k);
        let q = n / k;
        assert(q * k == k * q) by (nonlinear_arith);
        assert((q + 1) * k == q * k + k) by (nonlinear_arith);
    }
}

/// The number of parts of the next cut: with `h` endpoints in a part, half of
/// what it was and at least one, it is the least number that holds all endpoints
/// that are left.
pub proof fn cuts_halve_the_parts(c: Cut, h: int)
    requires
        0 <= c.division,
        0 < h,
        h == 1 || 2 * h <= c.division < 2 * h + 2,
        h == 1 ==> c.division < 4,
    ensures
        (next_parts(c) - 1) * h < c.unrealized.len() <= next_parts(c) * h,
        c.unrealized.len() > 0 ==> next_parts(c) > 0,
{
    let n = c.unrealized.len() as int;
    let a = n + h - 1;
    assert(next_division(c) == h);
    vstd::arithmetic::div_mod::lemma_fundamental_div_mod(a, h);
    let p = a / h;
    let r = a % h;
    assert((p - 1) * h < n <= p * h) by (nonlinear_arith)
        requires
            a == h * p + r,
            0 <= r < h,
            a == n + h - 1,
    ;
    if n > 0 {
        assert(p > 0) by (nonlinear_arith)
            requires
                0 < n <= p * h,
                h > 0,
        ;
    }
}

/// Smaller parts are never fewer: where a smaller size is wanted, the first cut
/// has at least as many parts.
pub proof fn smaller_parts_are_never_fewer(n: int, total: int, size: int, small: int)
    requires
        0 <= n,
        0 <= total,
        0 < small <= size,
    ensures
        cut_start(n, total, small).division <= cut_start(n, total, size).division,
        next_parts(cut_start(n, total, small)) >= next_parts(cut_start(n, total, size)),
{
    let a = cut_start(n, total, size);
    let b = cut_start(n, total, small);
    let k = (total + size - 1) / size;
    let l = (total + small - 1) / small;
    lemma_ceil_bounds(total, size);
    lemma_ceil_bounds(total, small);
    rounds_start_with_the_wanted_size(n, total, size, k);
    rounds_start_with_the_wanted_size(n, total, small, l);
    assert(k <= l) by (nonlinear_arith)
        requires
            (k - 1) * size < total <= l * small,
            0 < small <= size,
            l >= 0,
    ;
    if k == 0 {
        assert(total == 0) by (nonlinear_arith)
            requires
                0 <= total <= k * size,
                k == 0,
        ;
        assert(l == 0) by (nonlinear_arith)
            requires
                (l - 1) * small < total,
                total == 0,
                l >= 0,
                small > 0,
        ;
    } else {
        let p = a.division;
        let q = b.division;
        assert(q <= p) by (nonlinear_arith)
            requires
                q * l <= n < (p + 1) * k,
                0 < k <= l,
                q >= 0 || q < 0,
                p >= 0 || (p + 1) * k > n >= 0,
        ;
    }
    let g = next_division(a);
    let h = next_division(b);
    lemma_ceil_bounds(n, g);
    lemma_ceil_bounds(n, h);
    assert(next_parts(b) >= next_parts(a)) by (nonlinear_arith)
        requires
            (next_parts(a) - 1) * g < n <= next_parts(b) * h,
            0 < h <= g,
            next_parts(b) >= 0,
    ;
}

/// A quotient that is rounded up is the least that covers.
proof fn lemma_ceil_bounds(a: int, b: int)
    requires
        0 <= a,
        0 < b,
    ensures
        ((a + b - 1) / b - 1) * b < a <= ((a + b - 1) / b) * b,
        (a + b - 1) / b >= 0,
{
    let n = a + b - 1;
    vstd::arithmetic::div_mod::lemma_fundamental_div_mod(n, b);
    let q = n / b;
    let r = n % b;
    assert((q - 1) * b < a <= q * b && q >= 0) by (nonlinear_arith)
        requires
            n == b * q + r,
            0 <= r < b,
            n == a + b - 1,
            0 <= a,
            0 < b,
    ;
}

/// Halving the size of the parts gives more of them, where there are more nodes than
/// the size and enough endpoints: with `k` parts of the size the fewest that hold
/// all nodes, four times the square of that.
pub proof fn halving_the_size_gives_more_parts(n: int, total: int, size: int, small: int, k: int)
    requires
        0 < small,
        2 * small <= size < total,
        (k - 1) * size < total <= k * size,
        4 * (k * k) <= n,
    ensures
        next_parts(cut_start(n, total, small)) > next_parts(cut_start(n, total, size)),
{
    let l = (total + small - 1) / small;
    lemma_ceil_bounds(total, small);
    assert(k >= 2) by (nonlinear_arith)
        requires
            0 < size < total <= k * size,
    ;
    assert(k * k >= 2 * k) by (nonlinear_arith)
        requires
            k >= 2,
    ;
    assert(l >= k + 1) by (nonlinear_arith)
        requires
            (k - 1) * size < total <= l * small,
            0 < small,
            2 * small <= size,
            k >= 2,
    ;
    rounds_start_with_the_wanted_size(n, total, size, k);
    rounds_start_with_the_wanted_size(n, total, small, l);
    let a = cut_start(n, total, size);
    let b = cut_start(n, total, small);
    let q = a.division;
    assert(q >= 4 * k) by (nonlinear_arith)
        requires
            n < (q + 1) * k,
            4 * (k * k) <= n,
            k >= 2,
    ;
    let h = next_division(a);
    let p = next_parts(a);
    lemma_ceil_bounds(n, h);
    assert(2 * h <= q <= 2 * h + 1);
    assert(p <= 2 * k + 1) by (nonlinear_arith)
        requires
            (p - 1) * h < n,
            n < (q + 1) * k,
            q <= 2 * h + 1,
            h >= 2 * k,
            k >= 2,
    ;
    let r = b.division;
    let g = next_division(b);
    let o = next_parts(b);
    lemma_ceil_bounds(n, g);
    if r >= 2 {
        assert(o >= 2 * l) by (nonlinear_arith)
            requires
                n <= o * g,
                r * l <= n,
                2 * g <= r,
                g >= 1,
                l >= 3,
        ;
    } else {
        assert(g == 1);
        assert(o >= n) by (nonlinear_arith)
            requires
                n <= o * g,
                g == 1,
        ;
    }
}

} // verus!
