//! What a step of a round does with the parts, and how a search goes on.
use crate::cut_map::{
    built_parts, cut_step, is_stuck, mapped_parts, members_of, parts_of, renamed, search_next,
    search_start, unmapped_ids, Cut, SearchState,
};
use crate::candidate_laws::lemma_stage_numbers;
use crate::merge_model::{most_stages, Design};
use crate::pe::Realization;
use crate::sorts::{index_le, lemma_orders, lemma_sort_contains};
use vstd::prelude::*;

verus! {

/// The members of a part stand in ascending order.
proof fn lemma_members_rise(part_ids: Seq<usize>, p: usize, n: int, x: int, y: int)
    requires
        0 <= n <= part_ids.len() <= usize::MAX,
        0 <= x < y < members_of(part_ids, p, n).len(),
    ensures
        members_of(part_ids, p, n)[x] < members_of(part_ids, p, n)[y] < n,
    decreases n,
{
    if n > 0 {
        let s = members_of(part_ids, p, n - 1);
        if y < s.len() {
            lemma_members_rise(part_ids, p, n - 1, x, y);
        } else {
            crate::cut_map::parts_divide_the_indices(part_ids, p, n - 1, s[x]);
            assert(s.contains(s[x]));
        }
    }
}

/// A cut assigns the endpoints that are left to parts: endpoint `ids[i]` goes to
/// the part that is given for it, where the endpoints stand in the order in
/// which they were left.
pub proof fn parts_list_their_endpoints(
    ids: Seq<usize>,
    part_ids: Seq<usize>,
    num_parts: nat,
    p: int,
    i: int,
)
    requires
        ids.len() == part_ids.len() <= usize::MAX,
        num_parts <= usize::MAX,
        0 <= p < num_parts,
        0 <= i < ids.len(),
    ensures
        ({
            let part = renamed(ids, parts_of(part_ids, num_parts))[p];
            let at = parts_of(part_ids, num_parts)[p];
            &&& renamed(ids, parts_of(part_ids, num_parts)).len() == num_parts
            &&& part.len() == at.len()
            &&& part_ids[i] == p ==> exists|x: int| 0 <= x < at.len() && #[trigger] at[x] == i
            &&& forall|x: int|
                0 <= x < at.len() ==> #[trigger] at[x] < ids.len() && part_ids[at[x] as int] == p
                    && part[x] == ids[at[x] as int]
            &&& forall|x: int, y: int|
                0 <= x < y < at.len() ==> #[trigger] at[x] < #[trigger] at[y]
        }),
{
    let at = parts_of(part_ids, num_parts)[p];
    let n = part_ids.len() as int;
    crate::cut_map::parts_divide_the_indices(part_ids, p as usize, n, i as usize);
    if part_ids[i] == p {
        assert(at[at.index_of(i as usize)] == i);
    }
    assert forall|x: int| 0 <= x < at.len() implies #[trigger] at[x] < ids.len() && part_ids[
        at[x] as int
    ] == p && renamed(ids, parts_of(part_ids, num_parts))[p][x] == ids[at[x] as int] by {
        assert(at.contains(at[x]));
        crate::cut_map::parts_divide_the_indices(part_ids, p as usize, n, at[x]);
    }
    assert forall|x: int, y: int| 0 <= x < y < at.len() implies #[trigger] at[x] < #[trigger] at[y] by {
        lemma_members_rise(part_ids, p as usize, n, x, y);
    }
}

/// The parts that can be mapped, in their order.
proof fn lemma_mapped(d: Design, parts: Seq<Seq<usize>>, n: int, k: int)
    requires
        0 <= n <= parts.len(),
    ensures
        0 <= k < n && d.build(parts[k]) is Some ==> mapped_parts(d, parts, n).contains(parts[k]),
        forall|i: int|
            0 <= i < mapped_parts(d, parts, n).len() ==> d.build(
                #[trigger] mapped_parts(d, parts, n)[i],
            ) is Some && parts.contains(mapped_parts(d, parts, n)[i]),
    decreases n,
{
    if n > 0 {
        lemma_mapped(d, parts, n - 1, k);
        let s = mapped_parts(d, parts, n - 1);
        let r = mapped_parts(d, parts, n);
        let x = parts[n - 1];
        assert(parts.contains(x));
        if d.build(x) is Some {
            assert(r == s.push(x));
            assert(r[s.len() as int] == x);
            if 0 <= k < n - 1 && d.build(parts[k]) is Some {
                assert(r[s.index_of(parts[k])] == parts[k]);
            }
            assert forall|i: int| 0 <= i < r.len() implies d.build(#[trigger] r[i]) is Some
                && parts.contains(r[i]) by {
                if i < s.len() {
                    assert(r[i] == s[i]);
                }
            }
        }
    }
}

/// The endpoints of the parts that cannot be mapped.
proof fn lemma_unmapped(d: Design, parts: Seq<Seq<usize>>, n: int, x: usize)
    requires
        0 <= n <= parts.len(),
    ensures
        unmapped_ids(d, parts, n).contains(x) <==> exists|k: int|
            0 <= k < n && d.build(#[trigger] parts[k]) is None && parts[k].contains(x),
    decreases n,
{
    if n > 0 {
        lemma_unmapped(d, parts, n - 1, x);
        let s = unmapped_ids(d, parts, n - 1);
        let r = unmapped_ids(d, parts, n);
        let p = parts[n - 1];
        if d.build(p) is None {
            assert(r == s + p);
            if s.contains(x) {
                assert(r[s.index_of(x)] == x);
            }
            if p.contains(x) {
                assert(r[s.len() + p.index_of(x)] == x);
            }
            if r.contains(x) {
                let i = r.index_of(x);
                if i < s.len() {
                    assert(s[i] == x);
                } else {
                    assert(p[i - s.len()] == x);
                }
            }
        }
    }
}

/// After a step, the good parts are those from before and, behind them, the new
/// parts that can be mapped; the endpoints of the other new parts are left, in
/// ascending order, and the parts are to be half as large from now on, with one
/// endpoint at least.
pub proof fn steps_keep_what_can_be_mapped(
    d: Design,
    c: Cut,
    parts: Seq<Seq<usize>>,
    k: int,
    x: usize,
)
    requires
        0 <= c.division,
    ensures
        ({
            let r = cut_step(d, c, parts);
            &&& c.good.len() <= r.good.len()
            &&& forall|i: int| 0 <= i < c.good.len() ==> #[trigger] r.good[i] == c.good[i]
            &&& forall|i: int|
                c.good.len() <= i < r.good.len() ==> d.build(#[trigger] r.good[i]) is Some
                    && parts.contains(r.good[i])
            &&& 0 <= k < parts.len() && d.build(parts[k]) is Some ==> r.good.contains(parts[k])
            &&& r.unrealized.contains(x) <==> exists|q: int|
                0 <= q < parts.len() && d.build(#[trigger] parts[q]) is None && parts[q].contains(x)
            &&& forall|i: int, j: int|
                0 <= i <= j < r.unrealized.len() ==> #[trigger] r.unrealized[i]
                    <= #[trigger] r.unrealized[j]
            &&& r.division >= 1
            &&& c.division >= 2 ==> 2 * r.division <= c.division < 2 * r.division + 2
            &&& c.division < 2 ==> r.division == 1
        }),
{
    let n = parts.len() as int;
    let r = cut_step(d, c, parts);
    let m = mapped_parts(d, parts, n);
    let u = unmapped_ids(d, parts, n);
    lemma_mapped(d, parts, n, k);
    lemma_unmapped(d, parts, n, x);
    lemma_orders();
    lemma_sort_contains(u, index_le());
    if 0 <= k < parts.len() && d.build(parts[k]) is Some {
        assert(r.good[c.good.len() + m.index_of(parts[k])] == parts[k]);
    }
    assert forall|i: int| c.good.len() <= i < r.good.len() implies d.build(#[trigger] r.good[i]) is
        Some && parts.contains(r.good[i]) by {
        assert(r.good[i] == m[i - c.good.len()]);
    }
    assert forall|i: int, j: int| 0 <= i <= j < r.unrealized.len() implies #[trigger] r.unrealized[i]
        <= #[trigger] r.unrealized[j] by {
        if i < j {
            assert(index_le()(r.unrealized[i], r.unrealized[j]));
        }
    }
}

/// A step is stuck exactly with a part of a single endpoint that cannot be
/// mapped.
pub proof fn single_endpoints_get_stuck(d: Design, part: Seq<usize>)
    ensures
        is_stuck(d, part) <==> part.len() == 1 && d.build(part) is None,
{
}

/// The partitions of good parts are those that are built for them, in their
/// order; where all can be built, none is missing.
pub proof fn good_parts_have_their_partitions(
    d: Design,
    parts: Seq<Seq<usize>>,
    n: int,
    k: int,
)
    requires
        0 <= k < n <= parts.len(),
        forall|q: int| 0 <= q < n ==> d.build(#[trigger] parts[q]) is Some,
    ensures
        built_parts(d, parts, n).len() == n,
        d.build(parts[k]) == Some(built_parts(d, parts, n)[k]),
    decreases n,
{
    reveal_with_fuel(built_parts, 2);
    assert(d.build(parts[n - 1]) is Some);
    if n > 1 {
        good_parts_have_their_partitions(d, parts, n - 1, if k < n - 1 {
            k
        } else {
            0
        });
    }
}

/// The depth of partitions is that of the deepest: no partition has more stages,
/// and one has as many.
pub proof fn depth_is_that_of_the_deepest(ps: Seq<Realization>, k: int)
    requires
        0 <= k < ps.len(),
    ensures
        ps[k].stages.len() <= most_stages(ps),
        exists|i: int| 0 <= i < ps.len() && (#[trigger] ps[i]).stages.len() == most_stages(ps),
{
    lemma_stage_numbers(ps, k);
}

/// A search starts with parts of 40000 nodes.  As long as the partitions get
/// shallower it goes on with half the size, but not below 1000; with more than
/// 2000 parts, they have to get shallower by two stages at least.
pub proof fn searches_halve_the_size(s: SearchState, parts: Seq<Seq<usize>>, d: int)
    requires
        s.phase is Searching,
        s.depth matches Some(b) ==> 0 <= d < b,
        parts.len() <= 2000 || s.depth is None || d + 1 < s.depth.unwrap(),
    ensures
        search_start().estimated == 40000,
        search_start().phase is Searching,
        search_start().depth is None,
        search_start().best.len() == 0,
        ({
            let r = search_next(s, parts, d);
            &&& r.best == parts
            &&& r.depth == Some(d)
            &&& r.previous == s.estimated
            &&& s.estimated >= 2000 ==> r.phase is Searching && 2 * r.estimated <= s.estimated < 2
                * r.estimated + 2
            &&& s.estimated < 2000 && parts.len() > 0 ==> r.phase is Finishing && r.estimated
                <= s.estimated < r.estimated + 2 && r.estimated % 2 == 0
            &&& s.estimated < 2000 && parts.len() == 0 ==> r.phase is Done
        }),
{
}

/// Partitions that get no shallower do not count.  The search is over then: the
/// best parts so far stay, and twice the size that failed is tried once more,
/// unless that was the first size or there are no parts yet.
pub proof fn searches_end_where_nothing_is_gained(s: SearchState, parts: Seq<Seq<usize>>, d: int)
    requires
        s.phase is Searching,
        s.depth matches Some(b) && d >= b,
    ensures
        ({
            let r = search_next(s, parts, d);
            &&& r.best == s.best
            &&& r.depth == s.depth
            &&& s.estimated < 40000 && s.best.len() > 0 ==> r.phase is Finishing && r.estimated == 2
                * s.estimated
            &&& s.estimated >= 40000 || s.best.len() == 0 ==> r.phase is Done
        }),
{
}

/// With more than 2000 parts that are shallower by one stage only, the size
/// before is tried again, and its parts are the answer.
pub proof fn too_many_parts_are_given_up(
    s: SearchState,
    parts: Seq<Seq<usize>>,
    d: int,
    again: Seq<Seq<usize>>,
    e: int,
)
    requires
        s.phase is Searching,
        s.depth matches Some(b) && d == b - 1,
        parts.len() > 2000,
    ensures
        ({
            let r = search_next(s, parts, d);
            &&& r.phase is Rerunning
            &&& r.estimated == s.previous
            &&& r.best == s.best
            &&& search_next(r, again, e).best == again
            &&& search_next(r, again, e).phase is Done
        }),
{
}

/// The last trial counts only if it gives shallower partitions, and a search that
/// is over stays over.
pub proof fn the_last_trial_has_to_be_better(s: SearchState, parts: Seq<Seq<usize>>, d: int)
    requires
        s.depth is Some,
    ensures
        s.phase is Finishing ==> search_next(s, parts, d).phase is Done && search_next(
            s,
            parts,
            d,
        ).best == if d < s.depth.unwrap() {
            parts
        } else {
            s.best
        },
        s.phase is Done ==> search_next(s, parts, d) == s,
{
}

} // verus!
