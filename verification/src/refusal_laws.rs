//! When endpoints are refused, and when a stage is.
use crate::aig::DriverType;
use crate::boomerang::{
    inserted_all, bumped, fill_group, fill_groups, fill_step, first_fill, first_free,
    first_writeouts, is_needed, job, job_ok, lemma_first_free, lemma_place_row, necessary, overfull,
    place, reverse_levels, settle, some_untouched, stage, taken, upper_mapping, wanted_lvl1, blank,
    Fill, Job, Mapping, FREE,
};
use crate::collections::lemma_inserted;
use crate::distances::lemma_necessary;
use crate::endpoints::{activation, activations, lemma_dups_nonnegative, num_srams, stored_pins};
use crate::mapping::{lemma_order, lemma_wide_rows};
use crate::pe::{all_cells, realization, wanted_by, Realization};
use crate::seqs::{lemma_filter, lemma_tally_none, lemma_tally_update};
use crate::soundness::{lemma_inserted_all, lemma_upper};
use crate::stage::{lemma_spaces, spaces_of};
use crate::stages::stages;
use crate::staging::{inputs_of, EndpointGroup, EndpointKind};
use vstd::prelude::*;
use vstd::set_lib::{lemma_len_subset, lemma_map_size};

verus! {

/// What an endpoint that is no memory stores: the node, the literal of the
/// condition under which it is stored, and whether the value is inverted.
pub open spec fn stored_by(kind: EndpointKind) -> Option<(usize, usize, bool)> {
    match kind {
        EndpointKind::DFF(dff) => Some(((dff.d_iv / 2) as usize, dff.en_iv, dff.d_iv % 2 == 1)),
        EndpointKind::PrimaryOutput(pin) => Some(((pin / 2) as usize, 1, pin % 2 == 1)),
        EndpointKind::RAMBlock(_) => None,
        EndpointKind::StagedIOPin(pin) => Some((pin, 1, false)),
    }
}

/// The different outputs that the endpoints of `ids` store.
pub open spec fn outputs_of(groups: Seq<EndpointGroup>, ids: Seq<usize>) -> Set<
    (usize, usize, bool),
> {
    Set::new(
        |o: (usize, usize, bool)|
            exists|i: int| 0 <= i < ids.len() && stored_by(groups[#[trigger] ids[i] as int].kind) == Some(o),
    )
}

/// The nodes that some outputs store.
pub open spec fn nodes_of(outputs: Set<(usize, usize, bool)>) -> Set<usize> {
    outputs.map(|o: (usize, usize, bool)| o.0)
}

/// The memories among the endpoints of `ids`.
pub open spec fn memories_of(groups: Seq<EndpointGroup>, ids: Seq<usize>) -> Seq<usize> {
    ids.filter(|e: usize| groups[e as int].kind is RAMBlock)
}

/// The conditions can be told apart: their literals leave a bit to spare.
pub open spec fn literals_fit(groups: Seq<EndpointGroup>, ids: Seq<usize>) -> bool {
    forall|i: int|
        0 <= i < ids.len() ==> (groups[#[trigger] ids[i] as int].kind matches EndpointKind::DFF(dff)
            ==> dff.en_iv <= usize::MAX / 2)
}

/// An output in two numbers.
spec fn coded(o: (usize, usize, bool)) -> (usize, usize) {
    (o.0, (2 * o.1 + (if o.2 {
        1int
    } else {
        0int
    })) as usize)
}

/// What an endpoint stores, in two numbers.
proof fn lemma_coded(kind: EndpointKind)
    requires
        kind matches EndpointKind::DFF(dff) ==> dff.en_iv <= usize::MAX / 2,
    ensures
        activation(kind) == match stored_by(kind) {
            Some(o) => Some(coded(o)),
            None => None,
        },
        stored_by(kind) matches Some(o) ==> o.1 <= usize::MAX / 2,
{
    match kind {
        EndpointKind::DFF(dff) => {
            let e = dff.en_iv;
            let d = dff.d_iv;
            let y = e << 1;
            assert(y == 2 * e) by {
                vstd::arithmetic::power2::lemma2_to64();
                vstd::bits::lemma_usize_shl_is_mul(e, 1);
            }
            assert((y | (d & 1)) == y + d % 2) by (bit_vector)
                requires
                    y % 2 == 0,
            ;
            assert((e << 1) | (d & 1) == y | (d & 1));
        },
        EndpointKind::PrimaryOutput(pin) => {
            assert((2 | (pin & 1)) == 2 + pin % 2) by (bit_vector);
        },
        _ => {},
    }
}

/// The activations of endpoints are their outputs.
proof fn lemma_activations(groups: Seq<EndpointGroup>, ids: Seq<usize>, a: (usize, usize))
    requires
        literals_fit(groups, ids),
    ensures
        activations(groups, ids).contains(a) <==> exists|o: (usize, usize, bool)|
            outputs_of(groups, ids).contains(o) && #[trigger] coded(o) == a,
    decreases ids.len(),
{
    let acts = activations(groups, ids);
    let outs = outputs_of(groups, ids);
    if ids.len() > 0 {
        let front = ids.drop_last();
        let n = ids.len() - 1;
        assert(literals_fit(groups, front)) by {
            assert forall|i: int| 0 <= i < front.len() implies (
            groups[#[trigger] front[i] as int].kind matches EndpointKind::DFF(dff) ==> dff.en_iv
                <= usize::MAX / 2) by {
                assert(front[i] == ids[i]);
            }
        }
        lemma_activations(groups, front, a);
        let some = activations(groups, front);
        let kind = groups[ids[n] as int].kind;
        lemma_coded(kind);
        if acts.contains(a) {
            let i = acts.index_of(a);
            if i < some.len() {
                assert(some[i] == a);
                let o = choose|o: (usize, usize, bool)|
                    outputs_of(groups, front).contains(o) && #[trigger] coded(o) == a;
                let j = choose|j: int|
                    0 <= j < front.len() && stored_by(groups[#[trigger] front[j] as int].kind)
                        == Some(o);
                assert(ids[j] == front[j]);
                assert(outs.contains(o));
            } else {
                let o = stored_by(kind).unwrap();
                assert(outs.contains(o));
                assert(coded(o) == a);
            }
        }
        if exists|o: (usize, usize, bool)| outs.contains(o) && #[trigger] coded(o) == a {
            let o = choose|o: (usize, usize, bool)| outs.contains(o) && #[trigger] coded(o) == a;
            let j = choose|j: int|
                0 <= j < ids.len() && stored_by(groups[#[trigger] ids[j] as int].kind) == Some(o);
            if j < n {
                assert(front[j] == ids[j]);
                assert(outputs_of(groups, front).contains(o));
                assert(some.contains(a));
                assert(acts[some.index_of(a)] == a);
            } else {
                assert(acts[some.len() as int] == a);
            }
        }
    }
}

/// Outputs count as activations do.
proof fn lemma_counts_outputs(groups: Seq<EndpointGroup>, ids: Seq<usize>)
    requires
        literals_fit(groups, ids),
    ensures
        outputs_of(groups, ids).finite(),
        nodes_of(outputs_of(groups, ids)).finite(),
        outputs_of(groups, ids).len() == activations(groups, ids).to_set().len(),
        nodes_of(outputs_of(groups, ids)).len() == stored_pins(
            activations(groups, ids),
        ).to_set().len(),
{
    let outs = outputs_of(groups, ids);
    let acts = activations(groups, ids);
    let set = acts.to_set();
    let f = |o: (usize, usize, bool)| coded(o);
    assert forall|o: (usize, usize, bool)| outs.contains(o) implies o.1 <= usize::MAX / 2 by {
        let i = choose|i: int|
            0 <= i < ids.len() && stored_by(groups[#[trigger] ids[i] as int].kind) == Some(o);
        lemma_coded(groups[ids[i] as int].kind);
    }
    // Two outputs differ in their numbers.
    assert forall|o: (usize, usize, bool), p: (usize, usize, bool)|
        outs.contains(o) && outs.contains(p) && coded(o) == coded(p) implies o == p by {}
    let back = |a: (usize, usize)| (a.0, (a.1 / 2) as usize, a.1 % 2 == 1);
    vstd::seq_lib::seq_to_set_is_finite(acts);
    assert(outs =~= set.map(back)) by {
        assert forall|o: (usize, usize, bool)| outs.contains(o) <==> set.map(back).contains(o) by {
            if outs.contains(o) {
                lemma_activations(groups, ids, coded(o));
                assert(set.contains(coded(o)));
                assert(back(coded(o)) == o);
            }
            if set.map(back).contains(o) {
                let a = choose|a: (usize, usize)| set.contains(a) && back(a) == o;
                lemma_activations(groups, ids, a);
                let p = choose|p: (usize, usize, bool)| outs.contains(p) && #[trigger] coded(p) == a;
                assert(back(coded(p)) == p);
            }
        }
    }
    set.lemma_map_finite(back);
    assert(set =~= outs.map(f)) by {
        assert forall|a: (usize, usize)| set.contains(a) <==> outs.map(f).contains(a) by {
            lemma_activations(groups, ids, a);
            if outs.map(f).contains(a) {
                let o = choose|o: (usize, usize, bool)| outs.contains(o) && f(o) == a;
                assert(coded(o) == a);
            }
            if set.contains(a) {
                let o = choose|o: (usize, usize, bool)| outs.contains(o) && #[trigger] coded(o) == a;
                assert(f(o) == a);
            }
        }
    }
    assert(vstd::relations::injective_on(f, outs)) by {
        assert forall|o: (usize, usize, bool), p: (usize, usize, bool)|
            outs.contains(o) && outs.contains(p) && #[trigger] f(o) == #[trigger] f(p) implies o
            == p by {}
    }
    lemma_map_size(outs, set, f);
    let g = |o: (usize, usize, bool)| o.0;
    let pins = stored_pins(acts);
    assert(nodes_of(outs) =~= pins.to_set()) by {
        assert forall|x: usize| nodes_of(outs).contains(x) <==> pins.to_set().contains(x) by {
            if nodes_of(outs).contains(x) {
                let o = choose|o: (usize, usize, bool)| outs.contains(o) && g(o) == x;
                assert(coded(o).0 == x);
                lemma_activations(groups, ids, coded(o));
                assert(pins[acts.index_of(coded(o))] == x);
            }
            if pins.contains(x) {
                let i = pins.index_of(x);
                assert(acts.contains(acts[i]));
                lemma_activations(groups, ids, acts[i]);
                let o = choose|o: (usize, usize, bool)|
                    outs.contains(o) && #[trigger] coded(o) == acts[i];
                assert(g(o) == x);
            }
        }
    }
    outs.lemma_map_finite(g);
}

/// Memories are counted one by one.
proof fn lemma_counts_memories(groups: Seq<EndpointGroup>, ids: Seq<usize>)
    ensures
        memories_of(groups, ids).len() == num_srams(groups, ids),
    decreases ids.len(),
{
    reveal(Seq::filter);
    if ids.len() > 0 {
        lemma_counts_memories(groups, ids.drop_last());
    }
}

/// Endpoints are refused before any stage is mapped exactly if their memories
/// and repeated outputs take up too much: with `s` memories, `r` outputs more
/// than there are nodes stored, and `c` groups of 32 for those, if `s + c`
/// reaches 256 or `4 * s + r` exceeds 256.  Otherwise their stages are mapped
/// with the `256 - s - c` write-outs that are left, and they are refused if and
/// only if that fails.
pub proof fn endpoints_are_refused_for_lack_of_write_outs(
    drivers: Seq<DriverType>,
    sources: Set<usize>,
    groups: Seq<EndpointGroup>,
    ids: Seq<usize>,
    s: int,
    r: int,
    c: int,
)
    requires
        literals_fit(groups, ids),
        s == memories_of(groups, ids).len(),
        r == outputs_of(groups, ids).len() - nodes_of(outputs_of(groups, ids)).len(),
        32 * (c - 1) < r <= 32 * c,
    ensures
        r >= 0,
        s + c >= 256 || 4 * s + r > 256 ==> realization(drivers, sources, groups, ids) is None,
        s + c < 256 && 4 * s + r <= 256 ==> realization(drivers, sources, groups, ids) == (
        match stages(drivers, sources, wanted_by(groups, ids), 0, 256 - s - c) {
            Some(sts) => Some(Realization { endpoints: ids, stages: all_cells(sts) }),
            None => None,
        }),
{
    lemma_counts_outputs(groups, ids);
    lemma_counts_memories(groups, ids);
    lemma_dups_nonnegative(activations(groups, ids));
    assert((r + 31) / 32 == c);
}

/// The occupied cells of row 1 are accounted for: those of the upper mapping,
/// and one for each needed node that is placed.
spec fn accounts(need: Seq<usize>, m: Mapping, t: int) -> bool {
    &&& m.hier.len() == 14
    &&& m.hier[1].len() == 4096
    &&& taken(m.hier[1]) <= t + m.count.dom().intersect(need.to_set()).len()
}

/// A needed node is placed.
proof fn lemma_account(c: Job, need: Seq<usize>, m: Mapping, t: int, j: int, nd: usize)
    requires
        accounts(need, m, t),
        0 <= j < 4096,
        m.hier[1][j] == FREE,
        nd != FREE,
        need.contains(nd),
        !m.count.contains_key(nd),
    ensures
        accounts(need, place(c, m, 1, j, nd), t),
        place(c, m, 1, j, nd).count == bumped(m.count, nd),
        place(c, m, 1, j, nd).hier[1] == m.hier[1].update(j, nd),
{
    reveal_with_fuel(place, 3);
    lemma_place_row(c, m, 1, j, nd);
    let r = place(c, m, 1, j, nd);
    assert(r.count == bumped(m.count, nd));
    lemma_tally_update(m.hier[1], |x: usize| x != FREE, j, nd);
    let a = m.count.dom().intersect(need.to_set());
    let b = r.count.dom().intersect(need.to_set());
    vstd::seq_lib::seq_to_set_is_finite(need);
    lemma_len_subset(a, need.to_set());
    assert(b =~= a.insert(nd));
}

/// Filling a group keeps the account.
proof fn lemma_group_accounts(
    c: Job,
    need: Seq<usize>,
    f: Fill,
    lvl1: Seq<usize>,
    t: int,
    j: int,
    end: int,
)
    requires
        accounts(need, f.m, t),
        0 <= j,
        end <= 4096,
        0 <= f.next,
        lvl1.no_duplicates(),
        forall|i: int| 0 <= i < lvl1.len() ==> need.contains(#[trigger] lvl1[i]) && lvl1[i] != FREE,
        forall|i: int| f.next <= i < lvl1.len() ==> !f.m.count.contains_key(#[trigger] lvl1[i]),
    ensures
        accounts(need, fill_group(c, f, lvl1, j, end).m, t),
        0 <= fill_group(c, f, lvl1, j, end).next,
        forall|i: int|
            fill_group(c, f, lvl1, j, end).next <= i < lvl1.len() ==> !fill_group(
                c,
                f,
                lvl1,
                j,
                end,
            ).m.count.contains_key(#[trigger] lvl1[i]),
    decreases end - j,
{
    if j < end && f.next < lvl1.len() {
        let g = fill_step(c, f, lvl1, j);
        if f.m.hier[1][j] == FREE {
            assert(need.contains(lvl1[f.next]));
            lemma_account(c, need, f.m, t, j, lvl1[f.next]);
            assert forall|i: int| g.next <= i < lvl1.len() implies !g.m.count.contains_key(
                #[trigger] lvl1[i],
            ) by {
                assert(lvl1[i] != lvl1[f.next]);
                assert(!f.m.count.contains_key(lvl1[i]));
            }
        }
        lemma_group_accounts(c, need, g, lvl1, t, j + 1, end);
    }
}

/// Filling groups keeps the account.
proof fn lemma_groups_account(
    c: Job,
    need: Seq<usize>,
    f: Fill,
    lvl1: Seq<usize>,
    spaces: Seq<(usize, usize)>,
    all: bool,
    t: int,
    s: int,
)
    requires
        accounts(need, f.m, t),
        0 <= s <= spaces.len(),
        forall|i: int| 0 <= i < spaces.len() ==> (#[trigger] spaces[i]).1 + 32 <= 4096,
        0 <= f.next,
        lvl1.no_duplicates(),
        forall|i: int| 0 <= i < lvl1.len() ==> need.contains(#[trigger] lvl1[i]) && lvl1[i] != FREE,
        forall|i: int| f.next <= i < lvl1.len() ==> !f.m.count.contains_key(#[trigger] lvl1[i]),
    ensures
        accounts(need, fill_groups(c, f, lvl1, spaces, all, s).0.m, t),
        s <= fill_groups(c, f, lvl1, spaces, all, s).1 <= spaces.len(),
    decreases spaces.len() - s,
{
    if s < spaces.len() && (all || lvl1.len() - f.next >= 32 - spaces[s].0) {
        let start = spaces[s].1 as int;
        assert(spaces[s].1 + 32 <= 4096);
        let g = fill_group(c, f, lvl1, start, start + 32);
        lemma_group_accounts(c, need, f, lvl1, t, start, start + 32);
        lemma_groups_account(c, need, g, lvl1, spaces, all, t, s + 1);
    }
}

/// A row with fewer occupied cells than it has, none of them free before `from`,
/// has a free cell from there on.
proof fn lemma_some_free(row: Seq<usize>, from: int)
    requires
        0 <= from <= row.len(),
        taken(row) < row.len(),
        forall|i: int| 0 <= i < from ==> #[trigger] row[i] != FREE,
    ensures
        from <= first_free(row, from) < row.len(),
        row[first_free(row, from)] == FREE,
        forall|i: int| 0 <= i < first_free(row, from) ==> #[trigger] row[i] != FREE,
{
    lemma_first_free(row, from);
    if first_free(row, from) == row.len() {
        lemma_all_taken(row);
    }
}

/// A row without free cells is occupied.
proof fn lemma_all_taken(row: Seq<usize>)
    requires
        forall|i: int| 0 <= i < row.len() ==> #[trigger] row[i] != FREE,
    ensures
        taken(row) == row.len(),
    decreases row.len(),
{
    if row.len() > 0 {
        let front = row.drop_last();
        assert forall|i: int| 0 <= i < front.len() implies #[trigger] front[i] != FREE by {
            assert(front[i] == row[i]);
        }
        lemma_all_taken(front);
        assert(row[row.len() - 1] != FREE);
    }
}

/// Where there is room, all needed nodes find a cell, and one is left.
proof fn lemma_settles(
    c: Job,
    m: Mapping,
    done: Seq<usize>,
    need: Seq<usize>,
    t: int,
    k: int,
    from: int,
)
    requires
        accounts(need, m, t),
        need.no_duplicates(),
        need.len() + t <= 4095,
        forall|i: int| 0 <= i < need.len() ==> #[trigger] need[i] != FREE,
        0 <= k <= need.len(),
        0 <= from <= 4096,
        forall|i: int| 0 <= i < from ==> #[trigger] m.hier[1][i] != FREE,
    ensures
        settle(c, m, done, need, k, from) matches Some((r, at)) && first_free(r.hier[1], at) < 4096,
    decreases need.len() - k,
{
    let a = m.count.dom().intersect(need.to_set());
    need.unique_seq_to_set();
    vstd::seq_lib::seq_to_set_is_finite(need);
    lemma_len_subset(a, need.to_set());
    lemma_some_free(m.hier[1], from);
    if k < need.len() {
        if m.count.contains_key(need[k]) || done.contains(need[k]) {
            lemma_settles(c, m, done, need, t, k + 1, from);
        } else {
            let at = first_free(m.hier[1], from);
            let r = place(c, m, 1, at, need[k]);
            assert(need.contains(need[k]));
            lemma_account(c, need, m, t, at, need[k]);
            lemma_settles(c, r, done, need, t, k + 1, at);
        }
    }
}

/// What is needed is part of the job, and fits beside what is placed.
proof fn lemma_room(c: Job)
    requires
        job_ok(c),
        c.order.len() <= 4095,
    ensures
        ({
            let m = upper_mapping(c);
            let need = necessary(c, m.count.dom());
            &&& need.no_duplicates()
            &&& need.len() + taken(m.hier[1]) <= 4095
            &&& m.hier.len() == 14
            &&& m.hier[1].len() == 4096
            &&& forall|i: int| 0 <= i < need.len() ==> #[trigger] need[i] != FREE
        }),
{
    let m = upper_mapping(c);
    let placed = m.count.dom();
    let need = necessary(c, placed);
    lemma_upper(c);
    lemma_wide_rows();
    lemma_order(c);
    lemma_necessary(c, placed, reverse_levels(c, placed), c.order.len() as int);
    assert forall|i: int| 0 <= i < need.len() implies #[trigger] need[i] != FREE by {
        assert(need.contains(need[i]));
        assert(c.order[c.order.index_of(need[i])] != FREE);
    }
    if m == blank() {
        lemma_tally_none(m.hier[1], |x: usize| x != FREE);
        need.unique_seq_to_set();
        c.order.unique_seq_to_set();
        vstd::seq_lib::seq_to_set_is_finite(c.order);
        assert(need.to_set().subset_of(c.order.to_set()));
        lemma_len_subset(need.to_set(), c.order.to_set());
    } else {
        assert(!overfull(c, m));
    }
}

/// A job of at most 4095 nodes is mapped unless its write-outs do not suffice:
/// a stage of it fails exactly if the groups that it fills come to too many, and
/// never where 128 more are allowed.
pub proof fn small_jobs_are_mapped(c: Job, total: int, limit: int)
    requires
        job_ok(c),
        c.outs.no_duplicates(),
        c.order.len() <= 4095,
    ensures
        stage(c, total, limit) is None <==> total + first_writeouts(c) > limit,
        first_writeouts(c) <= 128,
        total + 128 <= limit ==> stage(c, total, limit) is Some,
{
    reveal(stage);
    let m = upper_mapping(c);
    let placed = m.count.dom();
    let need = necessary(c, placed);
    let lvl1 = wanted_lvl1(c, m, need);
    let spaces = spaces_of(m.hier[1]);
    let all = !some_untouched(c, m, need);
    let t = taken(m.hier[1]) as int;
    lemma_room(c);
    lemma_wide_rows();
    lemma_spaces(m.hier[1]);
    lemma_filter(c.outs, is_needed(m, need));
    assert forall|i: int| 0 <= i < lvl1.len() implies need.contains(#[trigger] lvl1[i]) && lvl1[i]
        != FREE && !m.count.contains_key(lvl1[i]) by {
        assert(lvl1.contains(lvl1[i]));
        assert(need[need.index_of(lvl1[i])] == lvl1[i]);
    }
    let start = Fill { m, next: 0, done: Seq::empty() };
    lemma_groups_account(c, need, start, lvl1, spaces, all, t, 0);
    let (f, groups) = first_fill(c, m, need);
    assert(groups.len() <= 128);
    lemma_settles(c, f.m, f.done, need, t, 0, 0);
}

/// Values that are inserted one after the other stand in the order in which they
/// come first.
proof fn lemma_first_come(xs: Seq<usize>, n: int, i: int, j: int)
    requires
        0 <= n <= xs.len(),
        0 <= i < j < inserted_all(Seq::empty(), xs, n).len(),
    ensures
        exists|p: int| #[trigger]
            comes_before(
                xs,
                inserted_all(Seq::empty(), xs, n)[i],
                inserted_all(Seq::empty(), xs, n)[j],
                p,
            ) && p < n,
    decreases n,
{
    if n > 0 {
        let s = inserted_all(Seq::empty(), xs, n - 1);
        let r = inserted_all(Seq::empty(), xs, n);
        lemma_inserted(s, xs[n - 1]);
        lemma_inserted_all(Seq::empty(), xs, n - 1);
        if j < s.len() {
            lemma_first_come(xs, n - 1, i, j);
            let p = choose|p: int| #[trigger] comes_before(xs, s[i], s[j], p) && p < n - 1;
            assert(comes_before(xs, r[i], r[j], p));
        } else {
            let x = s[i];
            assert(s.contains(x));
            assert(xs.take(n - 1).contains(x));
            let p = xs.take(n - 1).index_of(x);
            assert(xs[p] == x);
            assert(r[j] == xs[n - 1]);
            assert forall|q: int| 0 <= q <= p implies #[trigger] xs[q] != r[j] by {
                if xs[q] == r[j] {
                    assert(xs.take(n - 1)[q] == r[j]);
                    assert(xs.take(n - 1).contains(r[j]));
                    assert(s.contains(r[j]));
                }
            }
            assert(comes_before(xs, r[i], r[j], p));
        }
    }
}

/// `x` stands at position `p`, and `y` does not stand in front of it.
pub open spec fn comes_before(xs: Seq<usize>, x: usize, y: usize, p: int) -> bool {
    0 <= p < xs.len() && xs[p] == x && forall|q: int| 0 <= q <= p ==> #[trigger] xs[q] != y
}

/// The nodes that endpoints want are those that they read, each once, in the order
/// in which they are read first: endpoint after endpoint, and of one endpoint
/// input after input.
pub proof fn wanted_nodes_stand_as_they_are_read(
    groups: Seq<EndpointGroup>,
    ids: Seq<usize>,
    e: usize,
    x: usize,
    i: int,
    j: int,
)
    ensures
        inputs_of(groups, Seq::empty()) == Seq::<usize>::empty(),
        inputs_of(groups, ids.push(e)) == inputs_of(groups, ids) + groups[e as int].inputs@,
        wanted_by(groups, ids).no_duplicates(),
        wanted_by(groups, ids).contains(x) <==> inputs_of(groups, ids).contains(x),
        0 <= i < j < wanted_by(groups, ids).len() ==> exists|p: int| #[trigger]
            comes_before(
                inputs_of(groups, ids),
                wanted_by(groups, ids)[i],
                wanted_by(groups, ids)[j],
                p,
            ),
{
    let pins = inputs_of(groups, ids);
    let n = pins.len() as int;
    assert(ids.push(e).drop_last() =~= ids);
    lemma_inserted_all(Seq::empty(), pins, n);
    assert(pins.take(n) =~= pins);
    if 0 <= i < j < wanted_by(groups, ids).len() {
        lemma_first_come(pins, n, i, j);
    }
}

} // verus!
