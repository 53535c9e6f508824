//! How hypergraphs and clusterings are written down and read.
use crate::decimal::decimal;
use crate::hgr::{all_digits, digits_value, grouped, is_digit, parsed_index, without_sign};
use crate::random::chacha_draw;
use crate::repcut::{
    edges_text, ends_text, head_text, hgr_text, is_adjacency, weights_text, HyperGraph,
    PartitionTask, RCHyperGraph,
};
use crate::repcut_laws::{edges_sample_their_sets, members};
use crate::repcut_model::{edges_of, sample_blocks, sampled, Sampled};
use vstd::prelude::*;

verus! {

/// A number is read from its digits, one after the other: a digit behind a number
/// makes it ten times as large and adds itself.
pub proof fn digits_make_numbers(s: Seq<char>, c: char, v: usize)
    requires
        is_digit(c),
        s.len() > 0,
        parsed_index(s) == Some(v),
    ensures
        10 * v + (c as int - 48) <= usize::MAX ==> parsed_index(s.push(c)) == Some(
            (10 * v + (c as int - 48)) as usize,
        ),
        10 * v + (c as int - 48) > usize::MAX ==> parsed_index(s.push(c)) is None,
{
    let d = without_sign(s);
    let t = s.push(c);
    assert(t[0] == s[0]);
    assert(without_sign(t) =~= d.push(c));
    assert(d.push(c).drop_last() =~= d);
    assert(all_digits(d.push(c)));
}

/// A single digit stands for itself.  Nothing is read from an empty text, or from
/// one with another character than a digit, except that a plus sign in front
/// does not count.
pub proof fn only_digits_are_read(s: Seq<char>, c: char, i: int)
    ensures
        is_digit(c) ==> parsed_index(seq![c]) == Some((c as int - 48) as usize),
        parsed_index(Seq::<char>::empty()) is None,
        parsed_index(seq!['+']) is None,
        !(s.len() > 0 && s[0] == '+') ==> parsed_index(seq!['+'] + s) == parsed_index(s),
        0 <= i < s.len() && !is_digit(s[i]) && !(i == 0 && s[i] == '+') ==> parsed_index(s) is None,
{
    if is_digit(c) {
        let t = seq![c];
        assert(without_sign(t) =~= t);
        assert(t.drop_last() =~= Seq::empty());
        assert(digits_value(t.drop_last()) == 0);
        assert(all_digits(t));
    }
    assert(without_sign(seq!['+']) =~= Seq::empty());
    let p = seq!['+'] + s;
    assert(without_sign(p) =~= s);
    if 0 <= i < s.len() && !is_digit(s[i]) && !(i == 0 && s[i] == '+') {
        let d = without_sign(s);
        if s[0] == '+' {
            assert(d[i - 1] == s[i]);
        } else {
            assert(d[i] == s[i]);
        }
    }
}

/// Lines are refused exactly if one of them is neither empty nor the number of a
/// part.
pub proof fn lines_are_numbers_or_empty(lines: Seq<Seq<char>>)
    ensures
        grouped(lines) is Some <==> forall|i: int|
            0 <= i < lines.len() ==> (#[trigger] lines[i]).len() == 0 || (parsed_index(
                lines[i],
            ) matches Some(p) && p < usize::MAX),
    decreases lines.len(),
{
    if lines.len() > 0 {
        let front = lines.drop_last();
        let n = lines.len() - 1;
        lines_are_numbers_or_empty(front);
        assert(lines[n] == lines.last());
        if grouped(lines) is Some {
            assert forall|i: int| 0 <= i < lines.len() implies (#[trigger] lines[i]).len() == 0 || (
            parsed_index(lines[i]) matches Some(p) && p < usize::MAX) by {
                if i < n {
                    assert(front[i] == lines[i]);
                }
            }
        }
        if forall|i: int|
            0 <= i < lines.len() ==> (#[trigger] lines[i]).len() == 0 || (parsed_index(
                lines[i],
            ) matches Some(p) && p < usize::MAX) {
            assert forall|i: int| 0 <= i < front.len() implies (#[trigger] front[i]).len() == 0 || (
            parsed_index(front[i]) matches Some(p) && p < usize::MAX) by {
                assert(front[i] == lines[i]);
            }
        }
    }
}

/// Words, each behind a blank.
pub open spec fn spaced(words: Seq<Seq<char>>, n: int) -> Seq<char>
    decreases n,
{
    if n <= 0 {
        Seq::empty()
    } else {
        spaced(words, n - 1) + seq![' '] + words[n - 1]
    }
}

/// Lines, each with its end.
pub open spec fn ended(lines: Seq<Seq<char>>, n: int) -> Seq<char>
    decreases n,
{
    if n <= 0 {
        Seq::empty()
    } else {
        ended(lines, n - 1) + lines[n - 1] + seq!['\n']
    }
}

/// The line of a hyperedge: its weight and its endpoints, counted from 1.
pub open spec fn edge_line(e: (usize, Seq<usize>)) -> Seq<char> {
    decimal(e.0 as nat) + spaced(
        Seq::new(e.1.len(), |k: int| decimal((e.1[k] + 1) as nat)),
        e.1.len() as int,
    )
}

/// The lines of a hypergraph: the numbers of its hyperedges and endpoints with the
/// code 11, then the hyperedges, then the weights of the endpoints.
pub open spec fn hgr_lines(hg: HyperGraph) -> Seq<Seq<char>> {
    let es = edges_of(hg.clusters);
    Seq::new(
        1 + es.len() + hg.weights.len(),
        |i: int|
            if i == 0 {
                decimal(hg.clusters.len()) + seq![' '] + decimal(hg.weights.len()) + seq![
                    ' ',
                    '1',
                    '1',
                ]
            } else if i <= es.len() {
                edge_line(es[i - 1])
            } else {
                decimal(hg.weights[i - 1 - es.len()] as nat)
            },
    )
}

/// The endpoints of a hyperedge as words.
proof fn lemma_ends_text(ends: Seq<usize>, n: int)
    requires
        0 <= n <= ends.len(),
    ensures
        ends_text(ends, n) == spaced(
            Seq::new(ends.len(), |k: int| decimal((ends[k] + 1) as nat)),
            n,
        ),
    decreases n,
{
    if n > 0 {
        lemma_ends_text(ends, n - 1);
    }
}

/// The lines of the hyperedges.
proof fn lemma_edges_text(hg: HyperGraph, n: int)
    requires
        0 <= n <= edges_of(hg.clusters).len(),
    ensures
        head_text(hg) + edges_text(edges_of(hg.clusters), n) == ended(hgr_lines(hg), 1 + n),
    decreases n,
{
    let es = edges_of(hg.clusters);
    let ls = hgr_lines(hg);
    if n == 0 {
        reveal_with_fuel(ended, 2);
        assert(ended(ls, 1) =~= ls[0] + seq!['\n']);
        assert(head_text(hg) + edges_text(es, 0) =~= ended(ls, 1));
    } else {
        lemma_edges_text(hg, n - 1);
        let e = es[n - 1];
        lemma_ends_text(e.1, e.1.len() as int);
        assert(ls[n] == edge_line(e));
        assert(head_text(hg) + edges_text(es, n) =~= head_text(hg) + edges_text(es, n - 1)
            + edge_line(e) + seq!['\n']);
    }
}

/// The lines of the weights.
proof fn lemma_weights_text(hg: HyperGraph, n: int)
    requires
        0 <= n <= hg.weights.len(),
    ensures
        head_text(hg) + edges_text(edges_of(hg.clusters), edges_of(hg.clusters).len() as int)
            + weights_text(hg.weights, n) == ended(
            hgr_lines(hg),
            1 + edges_of(hg.clusters).len() + n,
        ),
    decreases n,
{
    let es = edges_of(hg.clusters);
    let m = es.len() as int;
    let ls = hgr_lines(hg);
    lemma_edges_text(hg, m);
    let head = head_text(hg) + edges_text(es, m);
    if n == 0 {
        assert(head + weights_text(hg.weights, 0) =~= head);
    } else {
        lemma_weights_text(hg, n - 1);
        assert(ls[m + n] == decimal(hg.weights[n - 1] as nat));
        assert(head + weights_text(hg.weights, n) =~= head + weights_text(hg.weights, n - 1)
            + ls[m + n] + seq!['\n']);
    }
}

/// The text of a hypergraph has one line for the numbers of hyperedges and
/// endpoints, one for each hyperedge and one for each endpoint.
pub proof fn hypergraphs_are_written_line_by_line(hg: HyperGraph)
    ensures
        hgr_text(hg) == ended(hgr_lines(hg), hgr_lines(hg).len() as int),
{
    lemma_weights_text(hg, hg.weights.len() as int);
}

/// What a solver is given: as many parts as are wanted, all endpoints, and the
/// weights of hyperedges and endpoints as they are.  One part needs no solver:
/// all endpoints are in part 0.
pub proof fn solvers_get_the_whole_hypergraph(
    hg: RCHyperGraph,
    num_parts: usize,
    task: PartitionTask,
    i: int,
)
    requires
        call_ensures(RCHyperGraph::partition, (&hg, num_parts), task),
        num_parts <= i32::MAX,
        forall|k: int|
            0 <= k < hg@.clusters.len() ==> (#[trigger] hg@.clusters[k]).1 <= i32::MAX,
        forall|k: int| 0 <= k < hg@.weights.len() ==> #[trigger] hg@.weights[k] <= i32::MAX,
        0 <= i,
    ensures
        num_parts == 1 <==> task is Solved,
        task matches PartitionTask::Solved(parts) ==> parts@.len() == hg@.num_vertices && (i
            < parts@.len() ==> parts@[i] == 0),
        task matches PartitionTask::Solve(a) ==> {
            &&& a.k == num_parts
            &&& a.num_vertices == hg@.num_vertices
            &&& a.hyperedge_weights@.len() == hg@.clusters.len()
            &&& a.hyperedge_indices@.len() == hg@.clusters.len() + 1
            &&& a.vertex_weights@.len() == hg@.weights.len()
            &&& i < hg@.clusters.len() ==> a.hyperedge_weights@[i] == hg@.clusters[i].1
            &&& i < hg@.weights.len() ==> a.vertex_weights@[i] == hg@.weights[i]
        },
{
    if let PartitionTask::Solve(a) = task {
        let es = edges_of(hg@.clusters);
        assert(is_adjacency(a, hg@, num_parts));
        if i < hg@.clusters.len() {
            assert(es[i].0 == hg@.clusters[i].1);
        }
    }
}

/// A hyperedge has as many endpoints as its set, and 1000 at most.
pub proof fn edges_have_at_most_a_thousand_ends(
    cs: Seq<(Seq<Option<Seq<u64>>>, usize)>,
    i: int,
)
    requires
        0 <= i < cs.len(),
    ensures
        ({
            let n = members(cs[i].0, cs[i].0.len() as int).len();
            let ends = edges_of(cs)[i].1;
            &&& n <= 1000 ==> ends.len() == n
            &&& n > 1000 ==> ends.len() == 1000
            &&& edges_of(cs)[i].0 == cs[i].1
        }),
{
    edges_sample_their_sets(cs, i);
}

/// The thousand and first endpoint that a hyperedge is offered is drawn for: with
/// `n` endpoints before it, it gets in exactly if a number below `n` is drawn
/// that is less than 1000, and it then takes the place of the one whose number
/// is drawn next.
pub proof fn later_ends_are_drawn_for(e: Sampled, seed: u64, nd: usize, n: u64)
    requires
        e.ends.len() == 1000,
        e.offered == n,
        n >= 1000,
    ensures
        ({
            let r = sampled(e, seed, nd);
            let first = chacha_draw(seed, e.pos, n);
            let second = chacha_draw(seed, first.1, 1000);
            &&& r.offered == n + 1
            &&& r.ends.len() == 1000
            &&& first.0 >= 1000 ==> r.ends == e.ends && r.pos == first.1
            &&& first.0 < 1000 ==> {
                &&& r.pos == second.1
                &&& second.0 < 1000 ==> r.ends == e.ends.update(second.0 as int, nd)
                &&& second.0 >= 1000 ==> r.ends == e.ends
            }
        }),
{
    let r = sampled(e, seed, nd);
    let first = chacha_draw(seed, e.pos, n);
    let second = chacha_draw(seed, first.1, 1000);
    if first.0 < 1000 {
        if second.0 < 1000 {
            assert(r.ends =~= e.ends.update(second.0 as int, nd));
        } else {
            assert(r.ends =~= e.ends);
        }
    }
}

/// Every hyperedge draws its own random numbers: the `i`-th those of the seed
/// 8026727 + `i`.
pub proof fn edges_have_their_own_seeds(cs: Seq<(Seq<Option<Seq<u64>>>, usize)>, i: int, seed: u64)
    requires
        0 <= i < cs.len(),
        seed == 8026727 + i,
    ensures
        edges_of(cs)[i].1 == sample_blocks(seed, cs[i].0, cs[i].0.len() as int).ends,
{
}

} // verus!
