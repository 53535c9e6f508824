//! How the results of calls relate to their arguments and to each other.
use crate::aig::AIG;
use crate::candidate_laws::{
    clusters_are_as_large_as_their_logic, nodes_behind, policies_allow_few_stages_more,
};
use crate::cut_map::{
    AdaptiveSearch, cuts_halve_the_parts, rounds_start_with_the_wanted_size, CutRound,
};
use crate::dump::{
    bit_of, chunk_steps, shown, steps_written, write_vcd_chunk, Dump, OutputSignal, TimeStep,
};
use crate::edge_laws::{nodes_in_sets, weight_sum, weights_count_every_node};
use crate::hgr::{grouped, process_partitions_from_hgr_parts_file, texts};
use crate::layout::rows;
use crate::merge::{
    design, process_partitions, process_partitions_conditional, process_partitions_conditional_skip,
    views,
};
use crate::merge_model::build_all;
use crate::pe::{wanted_by, Partition};
use crate::policy_laws::few_clusters_skip_nothing;
use crate::refusal_laws::{
    endpoints_are_refused_for_lack_of_write_outs, literals_fit, memories_of, nodes_of, outputs_of,
};
use crate::repcut::{source, RCHyperGraph};
use crate::repcut_model::edges_of;
use crate::stages::stages;
use crate::staging::{count_pins, every_id, ids_ok, times_in, StagedAIG};
use crate::trace::InputTrace;
use crate::words::bits;
use vstd::prelude::*;

verus! {

/// A partition is refused before any stage of it is mapped exactly if its `s`
/// memories and its `r` repeated outputs, in `c` groups of 32, take up too many
/// write-outs; otherwise it is built exactly if its stages can be mapped with
/// the `256 - s - c` that are left, and it has as many stages as these.
pub proof fn partitions_are_built_where_their_stages_fit(
    aig: AIG,
    staged: StagedAIG,
    ids: Vec<usize>,
    p: Option<Partition>,
    s: int,
    r: int,
    c: int,
)
    requires
        call_ensures(Partition::build_one, (&aig, &staged, &ids), p),
        literals_fit(staged.endpoints@, ids@),
        s == memories_of(staged.endpoints@, ids@).len(),
        r == outputs_of(staged.endpoints@, ids@).len() - nodes_of(
            outputs_of(staged.endpoints@, ids@),
        ).len(),
        32 * (c - 1) < r <= 32 * c,
    ensures
        s + c >= 256 || 4 * s + r > 256 ==> p is None,
        s + c < 256 && 4 * s + r <= 256 ==> {
            let sts = stages(
                aig.drivers@,
                staged.sources(),
                wanted_by(staged.endpoints@, ids@),
                0,
                256 - s - c,
            );
            &&& p is Some <==> sts is Some
            &&& p is Some ==> p.unwrap().endpoints@ == ids@ && p.unwrap().stages@.len()
                == sts.unwrap().len()
        },
{
    endpoints_are_refused_for_lack_of_write_outs(
        aig.drivers@,
        staged.sources(),
        staged.endpoints@,
        ids@,
        s,
        r,
        c,
    );
    if p is Some {
        assert(p.unwrap()@.endpoints == p.unwrap().endpoints@);
        assert(p.unwrap()@.stages.len() == p.unwrap().stages@.len());
    }
}

/// A round starts with all endpoints and with parts of the wanted size: where `k`
/// parts of that many nodes are the fewest that hold all nodes that the
/// endpoints depend on, every part gets its whole share of the endpoints.
pub proof fn rounds_start_with_all_endpoints(
    aig: AIG,
    staged: StagedAIG,
    size: usize,
    r: CutRound,
    k: int,
    i: int,
)
    requires
        call_ensures(CutRound::start, (&aig, &staged, size), r),
        staged.wf(aig),
        size > 0,
        0 <= i < staged.endpoints@.len(),
        ({
            let total = nodes_behind(aig, staged, every_id(staged.endpoints@.len())).len();
            (k - 1) * size < total <= k * size
        }),
    ensures
        k > 0 ==> r.division * k <= staged.endpoints@.len() < (r.division + 1) * k,
        k == 0 ==> r.division == staged.endpoints@.len(),
        r.good@.len() == 0,
        r.unrealized@.len() == staged.endpoints@.len(),
        r.unrealized@[i] == i,
{
    let n = staged.endpoints@.len();
    let all = every_id(n);
    assert(n == staged.endpoints.len());
    assert(ids_ok(staged.endpoints@, all));
    clusters_are_as_large_as_their_logic(aig, staged, all);
    let total = nodes_behind(aig, staged, all).len() as int;
    rounds_start_with_the_wanted_size(n as int, total, size as int, k);
    assert(r@.unrealized == r.unrealized@);
    assert(r@.good.len() == r.good@.len());
}

/// The hyperedges of a design weigh as much as there are nodes from the first one
/// up to, but not including, the last one that two endpoints or more are
/// counted for.
pub proof fn hyperedges_weigh_as_much_as_the_shared_logic(
    aig: AIG,
    staged: StagedAIG,
    weights: Vec<u64>,
    hg: RCHyperGraph,
)
    requires
        call_ensures(RCHyperGraph::from_staged_aig, (&aig, &staged, weights), hg),
    ensures
        hg@.num_vertices == staged.endpoints@.len(),
        hg@.weights == weights@,
        weight_sum(edges_of(hg@.clusters)) == nodes_in_sets(
            source(aig, staged),
            aig.num_aigpins as int,
        ),
{
    weights_count_every_node(source(aig, staged), aig.num_aigpins as int);
}

/// What the conditional refinement gives is what the plain one gives, with one
/// stage more allowed where the stages of the clusters differ by two or more or
/// there are more than 1000 clusters; and for six clusters at most the variant
/// that skips gives the same.
pub proof fn refinements_agree(
    aig: AIG,
    staged: StagedAIG,
    parts: Vec<Vec<usize>>,
    degrad: usize,
    more: usize,
    plain: Option<Vec<Partition>>,
    conditional: Option<Vec<Partition>>,
    skipping: Option<Vec<Partition>>,
    most: int,
    fewest: int,
)
    requires
        parts@.len() > 0,
        call_ensures(process_partitions, (&aig, &staged, parts, more), plain),
        call_ensures(process_partitions_conditional, (&aig, &staged, parts, degrad), conditional),
        call_ensures(process_partitions_conditional_skip, (&aig, &staged, parts, degrad), skipping),
        build_all(design(aig, staged), rows(parts@)) matches Some(ps) ==> {
            &&& exists|i: int| 0 <= i < ps.len() && (#[trigger] ps[i]).stages.len() == most
            &&& exists|i: int| 0 <= i < ps.len() && (#[trigger] ps[i]).stages.len() == fewest
            &&& forall|i: int|
                0 <= i < ps.len() ==> fewest <= (#[trigger] ps[i]).stages.len() <= most
        },
        more == degrad + (if most >= fewest + 2 || parts@.len() > 1000 {
            1int
        } else {
            0int
        }),
    ensures
        plain is Some <==> conditional is Some,
        plain is Some ==> views(plain.unwrap()@) == views(conditional.unwrap()@),
        plain is Some <==> skipping is Some,
        plain is Some && parts@.len() <= 6 ==> views(skipping.unwrap()@) == views(
            conditional.unwrap()@,
        ),
{
    let d = design(aig, staged);
    let ps = rows(parts@);
    crate::candidate_laws::one_bad_cluster_spoils_a_clustering(d, ps);
    if let Some(os) = build_all(d, ps) {
        policies_allow_few_stages_more(os, degrad as int, most, fewest);
        policies_allow_few_stages_more(os, more as int, most, fewest);
        if parts@.len() <= 6 {
            few_clusters_skip_nothing(d, os, ps, degrad as int);
        }
    }
}

/// A clustering from a file is refined like one that is given.
pub proof fn files_are_refined_like_clusterings(
    aig: AIG,
    staged: StagedAIG,
    lines: Vec<String>,
    parts: Vec<Vec<usize>>,
    degrad: usize,
    a: Option<Vec<Partition>>,
    b: Option<Vec<Partition>>,
)
    requires
        grouped(texts(lines@)) == Some(rows(parts@)),
        call_ensures(process_partitions_from_hgr_parts_file, (&aig, &staged, &lines, degrad), a),
        call_ensures(process_partitions, (&aig, &staged, parts, degrad), b),
    ensures
        a is Some <==> b is Some,
        a is Some ==> views(a.unwrap()@) == views(b.unwrap()@),
{
}

/// The last step of a chunk whose time is known is shown as it is: a register at
/// position `p` with bit `p % 32` of word `p / 32` of the state before the step,
/// an output with that of the state behind it.
pub proof fn chunks_show_their_last_step(
    words: Vec<u32>,
    offsets: Vec<(usize, u64)>,
    signals: Vec<OutputSignal>,
    size: usize,
    start: usize,
    written: Vec<TimeStep>,
    i: int,
    p: u32,
    at: int,
)
    requires
        call_ensures(write_vcd_chunk, (&words, &offsets, &signals, size, start), written),
        offsets@.len() > 0,
        offsets@.last().1 != u64::MAX,
        0 <= i < signals@.len(),
        at == offsets@.last().0 - start * size,
        size <= at,
        at + size <= words@.len(),
        p < 0x7fff_ffff,
        p < 32 * size,
    ensures
        signals@[i].pos == p + 0x8000_0000 ==> shown(steps_written(written@), i) == Some(
            bit_of(words@[at - size + p as int / 32], p % 32),
        ),
        signals@[i].pos == p ==> shown(steps_written(written@), i) == Some(
            bit_of(words@[at + p as int / 32], p % 32),
        ),
        written@.len() > 0,
        written@.last().timestamp == offsets@.last().1,
{
    let k = offsets@.len() - 1;
    let d = Dump {
        states: bits(words@),
        steps: chunk_steps(offsets@, start as int, size as int),
        signals: signals@,
        size: size as int,
    };
    assert(signals@.len() == signals.len());
    assert(0 <= start * size) by (nonlinear_arith);
    crate::chunk_laws::dumps_show_the_bits_of_the_states(
        words@,
        offsets@,
        signals@,
        size as int,
        start as int,
        k,
        i,
        p,
        at,
    );
    assert(d.timed(k));
    assert(steps_written(written@).last() == (
        offsets@[k].1,
        d.changes_at(k, signals@.len() as int),
    ));
    assert(steps_written(written@).len() == written@.len());
}

/// What has been read ends with the state that was reached.
pub proof fn readings_end_with_the_state_reached(
    trace: InputTrace,
    r: (Vec<u32>, Vec<(usize, u64)>),
    p: int,
    k: int,
)
    requires
        call_ensures(InputTrace::finish, (trace,), r),
        0 <= p < trace@.state.len(),
        0 <= k < trace@.offsets.len(),
    ensures
        32 * r.0@.len() == trace@.states.len() + trace@.state.len(),
        bits(r.0@)[trace@.states.len() + p] == trace@.state[p],
        r.1@.len() == trace@.offsets.len(),
        r.1@[k].0 == trace@.offsets[k].0,
        r.1@[k].1 == trace@.offsets[k].1,
{
    assert(bits(r.0@).len() == 32 * r.0@.len());
    assert(crate::trace::offsets_of(r.1@)[k] == trace@.offsets[k]);
}

/// Pins are counted as often as they stand in a list.
pub proof fn pins_are_counted_with_repetitions(
    pins: Vec<usize>,
    nodes: usize,
    counts: Vec<usize>,
    u: usize,
)
    requires
        call_ensures(count_pins, (&pins, nodes), counts),
        u < nodes,
    ensures
        counts@.len() == nodes,
        counts@[u as int] == pins@.to_multiset().count(u),
{
    lemma_times(pins@, u, pins@.len() as int);
    assert(pins@.take(pins@.len() as int) =~= pins@);
    assert(counts@[u as int] == times_in(pins@, u, pins@.len() as int));
}

/// How often a value stands among the first entries.
proof fn lemma_times(s: Seq<usize>, x: usize, n: int)
    requires
        0 <= n <= s.len(),
    ensures
        times_in(s, x, n) == s.take(n).to_multiset().count(x),
    decreases n,
{
    broadcast use vstd::seq_lib::group_to_multiset_ensures;

    if n > 0 {
        lemma_times(s, x, n - 1);
        assert(s.take(n) =~= s.take(n - 1).push(s[n - 1]));
    } else {
        assert(s.take(0) =~= Seq::empty());
        assert(s.take(0).to_multiset().len() == 0);
    }
}

/// A search that is not over asks for the size that it tries next.
pub proof fn searches_ask_for_the_next_size(s: AdaptiveSearch, r: Option<usize>)
    requires
        call_ensures(AdaptiveSearch::request, (&s,), r),
    ensures
        r is None <==> s.phase is Done,
        r matches Some(size) ==> size == s@.estimated,
{
}

/// A round is over when no endpoint is left; until then it asks for the fewest
/// parts of half the size that hold those that are left.
pub proof fn rounds_ask_for_enough_parts(c: CutRound, r: Option<usize>, h: int)
    requires
        call_ensures(CutRound::num_parts, (&c,), r),
        0 < h,
        h == 1 || 2 * h <= c.division < 2 * h + 2,
        h == 1 ==> c.division < 4,
    ensures
        r is None <==> c.unrealized@.len() == 0,
        r matches Some(n) ==> (n - 1) * h < c.unrealized@.len() <= n * h,
{
    cuts_halve_the_parts(c@, h);
    assert(c@.unrealized == c.unrealized@);
}

/// The partition of a cluster is the one that is built for its endpoints.
pub proof fn clusters_are_built_like_partitions(
    aig: AIG,
    staged: StagedAIG,
    ids: Vec<usize>,
    p: Option<Partition>,
)
    requires
        call_ensures(Partition::build_one, (&aig, &staged, &ids), p),
    ensures
        p is Some <==> design(aig, staged).build(ids@) is Some,
        p is Some ==> design(aig, staged).build(ids@) == Some(p.unwrap()@),
{
}

} // verus!
