//! Files that assign each endpoint to a part.
//!
//! Line `i` of such a file holds the number of the part of endpoint `i`; an
//! empty line assigns nothing.
use crate::aig::AIG;
use crate::layout::rows;
use crate::merge::{design, parts_ok, process_partitions, views};
use crate::merge_model::{build_all, can_refine, clusters_fit, plain_policy, refined};
use crate::pe::Partition;
use crate::sharing_laws::lemma_same_filter;
use crate::staging::{every_id, StagedAIG};
use vstd::prelude::*;

verus! {

/// Whether a character is a decimal digit.
pub open spec fn is_digit(c: char) -> bool {
    '0' <= c && c <= '9'
}

/// The number that decimal digits stand for.
pub open spec fn digits_value(s: Seq<char>) -> nat
    decreases s.len(),
{
    if s.len() == 0 {
        0
    } else {
        digits_value(s.drop_last()) * 10 + (s.last() as nat - '0' as nat) as nat
    }
}

/// A text without its plus sign.
pub open spec fn without_sign(s: Seq<char>) -> Seq<char> {
    if s.len() > 0 && s[0] == '+' {
        s.drop_first()
    } else {
        s
    }
}

/// Whether a text consists of decimal digits.
pub open spec fn all_digits(s: Seq<char>) -> bool {
    forall|i: int| 0 <= i < s.len() ==> is_digit(#[trigger] s[i])
}

/// The number that a text stands for: decimal digits, perhaps behind a plus
/// sign, whose value is an index.
pub open spec fn parsed_index(s: Seq<char>) -> Option<usize> {
    let d = without_sign(s);
    if d.len() > 0 && all_digits(d) && digits_value(d) <= usize::MAX {
        Some(digits_value(d) as usize)
    } else {
        None
    }
}

/// The value of a prefix is no larger.
proof fn lemma_digits_prefix(s: Seq<char>, n: int)
    requires
        0 <= n <= s.len(),
        all_digits(s),
    ensures
        digits_value(s.take(n)) <= digits_value(s),
    decreases s.len() - n,
{
    if n < s.len() {
        lemma_digits_prefix(s, n + 1);
        assert(s.take(n + 1).drop_last() =~= s.take(n));
    } else {
        assert(s.take(n) =~= s);
    }
}

/// The number that a text stands for.
pub fn parse_index(s: &str) -> (r: Option<usize>)
    ensures
        r == parsed_index(s@),
{
    broadcast use vstd::string::axiom_spec_iter;

    let ghost t = s@;
    let ghost d = without_sign(t);
    let ghost off: int = t.len() - d.len();
    let mut value: usize = 0;
    let mut digits: bool = false;
    let mut first: bool = true;
    for c in it: s.chars()
        invariant
            it.seq() == t,
            t == s@,
            d == without_sign(t),
            off == t.len() - d.len(),
            first == (it.index() == 0),
            digits == (it.index() > off),
            it.index() >= off ==> {
                &&& forall|i: int| 0 <= i < it.index() - off ==> is_digit(#[trigger] d[i])
                &&& value == digits_value(d.take(it.index() - off))
            },
            it.index() < off ==> value == 0,
    {
        let ghost n = it.index() as int;
        if first && c == '+' {
            first = false;
            assert(d.take(0) =~= Seq::empty());
        } else {
            first = false;
            assert(0 <= n - off < d.len());
            assert(c == d[n - off]);
            if !('0' <= c && c <= '9') {
                assert(!is_digit(d[n - off]));
                return None;
            }
            let digit: usize = (c as u32 - '0' as u32) as usize;
            assert(d.take(n - off + 1).drop_last() =~= d.take(n - off));
            assert(d.take(n - off + 1).last() == c);
            if value > (usize::MAX - digit) / 10 {
                proof {
                    if all_digits(d) {
                        lemma_digits_prefix(d, n - off + 1);
                    }
                }
                return None;
            }
            value = value * 10 + digit;
            digits = true;
        }
    }
    assert(d.take(d.len() as int) =~= d);
    if digits {
        Some(value)
    } else {
        None
    }
}

/// Texts behind strings.
pub open spec fn texts(lines: Seq<String>) -> Seq<Seq<char>> {
    lines.map_values(|l: String| l@)
}

/// The parts with at least `n` of them.
pub open spec fn extended(parts: Seq<Seq<usize>>, n: int) -> Seq<Seq<usize>> {
    if n <= parts.len() {
        parts
    } else {
        parts + Seq::new((n - parts.len()) as nat, |k: int| Seq::empty())
    }
}

/// The parts with endpoint `i` added to part `p`.
pub open spec fn assigned(parts: Seq<Seq<usize>>, p: int, i: usize) -> Seq<Seq<usize>> {
    let q = extended(parts, p + 1);
    q.update(p, q[p].push(i))
}

/// The parts that lines assign the endpoints to; none if a line is neither
/// empty nor the number of a part.
pub open spec fn grouped(lines: Seq<Seq<char>>) -> Option<Seq<Seq<usize>>>
    decreases lines.len(),
{
    if lines.len() == 0 {
        Some(Seq::empty())
    } else {
        match grouped(lines.drop_last()) {
            None => None,
            Some(parts) => if lines.last().len() == 0 {
                Some(parts)
            } else {
                match parsed_index(lines.last()) {
                    Some(p) => if p < usize::MAX {
                        Some(assigned(parts, p as int, (lines.len() - 1) as usize))
                    } else {
                        None
                    },
                    None => None,
                }
            },
        }
    }
}

/// A bad line stays bad whatever follows it.
proof fn lemma_bad_prefix(lines: Seq<Seq<char>>, n: int)
    requires
        0 <= n <= lines.len(),
        grouped(lines.take(n)) is None,
    ensures
        grouped(lines) is None,
    decreases lines.len() - n,
{
    if n < lines.len() {
        assert(lines.take(n + 1).drop_last() =~= lines.take(n));
        lemma_bad_prefix(lines, n + 1);
    } else {
        assert(lines.take(n) =~= lines);
    }
}

/// The parts that lines assign the endpoints to.
pub fn parts_from_lines(lines: &Vec<String>) -> (r: Option<Vec<Vec<usize>>>)
    ensures
        match grouped(texts(lines@)) {
            None => r is None,
            Some(parts) => r is Some && rows(r.unwrap()@) == parts,
        },
{
    let ghost ts = texts(lines@);
    let mut parts: Vec<Vec<usize>> = Vec::new();
    let mut i: usize = 0;
    assert(ts.take(0) =~= Seq::empty());
    assert(rows(parts@) =~= Seq::empty());
    while i < lines.len()
        invariant
            i <= lines@.len(),
            ts == texts(lines@),
            grouped(ts.take(i as int)) == Some(rows(parts@)),
        decreases lines@.len() - i,
    {
        assert(ts.take(i + 1).drop_last() =~= ts.take(i as int));
        assert(ts.take(i + 1).last() == lines@[i as int]@);
        let line: &str = lines[i].as_str();
        if !line.is_empty() {
            let part_id: usize = match parse_index(line) {
                Some(p) => p,
                None => {
                    proof {
                        lemma_bad_prefix(ts, i + 1);
                    }
                    return None;
                },
            };
            if part_id == usize::MAX {
                proof {
                    lemma_bad_prefix(ts, i + 1);
                }
                return None;
            }
            let ghost before = rows(parts@);
            while parts.len() <= part_id
                invariant
                    part_id < usize::MAX,
                    before.len() <= parts@.len(),
                    parts@.len() <= before.len() || parts@.len() <= part_id + 1,
                    rows(parts@) == extended(before, parts@.len() as int),
                decreases part_id + 1 - parts@.len(),
            {
                let ghost old_rows = rows(parts@);
                let part: Vec<usize> = Vec::new();
                assert(part@ =~= Seq::empty());
                parts.push(part);
                assert(rows(parts@) =~= old_rows.push(Seq::empty()));
                assert(extended(before, parts@.len() as int) =~= extended(
                    before,
                    old_rows.len() as int,
                ).push(Seq::empty()));
            }
            assert(rows(parts@) == extended(before, part_id + 1));
            let ghost grown = rows(parts@);
            parts[part_id].push(i);
            assert(rows(parts@) =~= grown.update(part_id as int, grown[part_id as int].push(i)));
        }
        i += 1;
    }
    assert(ts.take(i as int) =~= ts);
    Some(parts)
}

/// Reads a cluster solution from the lines of an hgr.part.xx file.
/// Then calls [process_partitions].
pub fn process_partitions_from_hgr_parts_file(
    aig: &AIG,
    staged: &StagedAIG,
    hgr_parts_lines: &Vec<String>,
    max_stage_degrad: usize,
) -> (r: Option<Vec<Partition>>)
    requires
        staged.wf(*aig),
        grouped(texts(hgr_parts_lines@)) matches Some(parts) && parts.len() > 0 && parts_ok(
            staged.endpoints@,
            parts,
        ) && clusters_fit(design(*aig, *staged), parts) && (build_all(
            design(*aig, *staged),
            parts,
        ) matches Some(ps) ==> can_refine(
            design(*aig, *staged),
            plain_policy(ps, max_stage_degrad as int),
            ps,
            parts,
        )),
    ensures
        ({
            let d = design(*aig, *staged);
            let parts = grouped(texts(hgr_parts_lines@)).unwrap();
            match build_all(d, parts) {
                None => r is None,
                Some(ps) => r is Some && views(r.unwrap()@) == refined(
                    d,
                    plain_policy(ps, max_stage_degrad as int),
                    ps,
                    parts,
                ),
            }
        }),
{
    match parts_from_lines(hgr_parts_lines) {
        Some(parts) => process_partitions(aig, staged, parts, max_stage_degrad),
        None => None,
    }
}

/// Line `i` assigns its endpoint to part `q`.
pub open spec fn goes_to(lines: Seq<Seq<char>>, q: int) -> spec_fn(usize) -> bool {
    |i: usize| lines[i as int].len() > 0 && parsed_index(lines[i as int]) == Some(q as usize)
}

/// There are as many parts as the largest part that a line names calls for, and
/// each part lists the lines that name it, in ascending order; empty lines are
/// counted and name no part.
pub proof fn parts_list_their_lines(lines: Seq<Seq<char>>)
    requires
        lines.len() <= usize::MAX,
        grouped(lines) is Some,
    ensures
        ({
            let parts = grouped(lines).unwrap();
            &&& parts.len() <= usize::MAX
            &&& forall|i: int|
                0 <= i < lines.len() && (#[trigger] lines[i]).len() > 0 ==> (parsed_index(
                    lines[i],
                ) matches Some(p) && p < parts.len())
            &&& parts.len() > 0 ==> exists|i: usize|
                i < lines.len() && #[trigger] goes_to(lines, parts.len() - 1)(i)
            &&& forall|q: int|
                0 <= q < parts.len() ==> #[trigger] parts[q] == every_id(lines.len()).filter(
                    goes_to(lines, q),
                )
        }),
    decreases lines.len(),
{
    reveal(Seq::filter);
    if lines.len() > 0 {
        let front = lines.drop_last();
        let n = (lines.len() - 1) as nat;
        parts_list_their_lines(front);
        let before = grouped(front).unwrap();
        let parts = grouped(lines).unwrap();
        assert(every_id(lines.len()).drop_last() =~= every_id(n));
        assert(every_id(lines.len()).last() == n);
        assert forall|q: int| 0 <= q < parts.len() implies #[trigger] parts[q] == every_id(
            lines.len(),
        ).filter(goes_to(lines, q)) by {
            let now = goes_to(lines, q);
            let then = goes_to(front, q);
            assert forall|e: usize| e < n implies #[trigger] now(e) == then(e) by {
                assert(front[e as int] == lines[e as int]);
            }
            lemma_same_filter(n, now, then);
            if q >= before.len() {
                assert(every_id(n).filter(then) =~= Seq::empty()) by {
                    lemma_none_above(front, n, q);
                }
            }
        }
        assert forall|i: int| 0 <= i < lines.len() && (#[trigger] lines[i]).len() > 0 implies (
        parsed_index(lines[i]) matches Some(p) && p < parts.len()) by {
            if i < n {
                assert(front[i] == lines[i]);
            }
        }
        if parts.len() > 0 {
            if parts.len() == before.len() {
                let i = choose|i: usize|
                    i < front.len() && #[trigger] goes_to(front, before.len() - 1)(i);
                assert(front[i as int] == lines[i as int]);
                assert(goes_to(lines, parts.len() - 1)(i));
            } else {
                assert(goes_to(lines, parts.len() - 1)(n as usize));
            }
        }
    }
}

/// No line names a part that there is not.
proof fn lemma_none_above(lines: Seq<Seq<char>>, n: nat, q: int)
    requires
        n <= lines.len() <= usize::MAX,
        q <= usize::MAX,
        forall|i: int|
            0 <= i < lines.len() && (#[trigger] lines[i]).len() > 0 ==> (parsed_index(
                lines[i],
            ) matches Some(p) && p < q),
    ensures
        every_id(n).filter(goes_to(lines, q)) == Seq::<usize>::empty(),
    decreases n,
{
    reveal(Seq::filter);
    if n > 0 {
        lemma_none_above(lines, (n - 1) as nat, q);
        assert(every_id(n).drop_last() =~= every_id((n - 1) as nat));
        assert(!goes_to(lines, q)((n - 1) as usize));
    } else {
        assert(every_id(n) =~= Seq::empty());
    }
}

} // verus!
