//! Counting the entries of a sequence.
use vstd::prelude::*;

verus! {

/// How many entries of `s` satisfy `p`.
pub open spec fn tally<T>(s: Seq<T>, p: spec_fn(T) -> bool) -> nat
    decreases s.len(),
{
    if s.len() == 0 {
        0
    } else {
        tally(s.drop_last(), p) + (if p(s.last()) {
            1nat
        } else {
            0nat
        })
    }
}

/// A tally is at most the length.
pub proof fn lemma_tally_bound<T>(s: Seq<T>, p: spec_fn(T) -> bool)
    ensures
        tally(s, p) <= s.len(),
    decreases s.len(),
{
    if s.len() > 0 {
        lemma_tally_bound(s.drop_last(), p);
    }
}

/// Appending an entry adds one exactly if it satisfies `p`.
pub proof fn lemma_tally_push<T>(s: Seq<T>, p: spec_fn(T) -> bool, x: T)
    ensures
        tally(s.push(x), p) == tally(s, p) + (if p(x) {
            1nat
        } else {
            0nat
        }),
{
    assert(s.push(x).drop_last() =~= s);
}

/// Overwriting an entry changes the tally by the difference it makes there.
pub proof fn lemma_tally_update<T>(s: Seq<T>, p: spec_fn(T) -> bool, i: int, x: T)
    requires
        0 <= i < s.len(),
    ensures
        tally(s.update(i, x), p) == tally(s, p) + (if p(x) {
            1int
        } else {
            0int
        }) - (if p(s[i]) {
            1int
        } else {
            0int
        }),
    decreases s.len(),
{
    let t = s.update(i, x);
    if i == s.len() - 1 {
        assert(t.drop_last() =~= s.drop_last());
    } else {
        assert(t.drop_last() =~= s.drop_last().update(i, x));
        lemma_tally_update(s.drop_last(), p, i, x);
    }
}

/// A tally is positive where an entry satisfies `p`.
pub proof fn lemma_tally_some<T>(s: Seq<T>, p: spec_fn(T) -> bool, i: int)
    requires
        0 <= i < s.len(),
        p(s[i]),
    ensures
        tally(s, p) > 0,
    decreases s.len(),
{
    if i < s.len() - 1 {
        lemma_tally_some(s.drop_last(), p, i);
    }
}

/// A tally is zero where no entry satisfies `p`.
pub proof fn lemma_tally_none<T>(s: Seq<T>, p: spec_fn(T) -> bool)
    requires
        forall|i: int| 0 <= i < s.len() ==> !p(#[trigger] s[i]),
    ensures
        tally(s, p) == 0,
    decreases s.len(),
{
    if s.len() > 0 {
        assert forall|i: int| 0 <= i < s.drop_last().len() implies !p(
            #[trigger] s.drop_last()[i],
        ) by {
            assert(s.drop_last()[i] == s[i]);
        }
        lemma_tally_none(s.drop_last(), p);
        assert(!p(s[s.len() - 1]));
    }
}

/// A tally falls short of the length where an entry does not satisfy `p`.
pub proof fn lemma_tally_less<T>(s: Seq<T>, p: spec_fn(T) -> bool, i: int)
    requires
        0 <= i < s.len(),
        !p(s[i]),
    ensures
        tally(s, p) < s.len(),
    decreases s.len(),
{
    if i < s.len() - 1 {
        lemma_tally_less(s.drop_last(), p, i);
    } else {
        lemma_tally_bound(s.drop_last(), p);
    }
}

/// Filtering one value more.
pub proof fn lemma_filter_take<T>(s: Seq<T>, p: spec_fn(T) -> bool, i: int)
    requires
        0 <= i < s.len(),
    ensures
        s.take(i + 1).filter(p) == if p(s[i]) {
            s.take(i).filter(p).push(s[i])
        } else {
            s.take(i).filter(p)
        },
{
    assert(s.take(i + 1).drop_last() =~= s.take(i));
    reveal(Seq::filter);
}

/// What a filter lets through.
pub proof fn lemma_filter<T>(s: Seq<T>, p: spec_fn(T) -> bool)
    ensures
        forall|x: T| #[trigger] s.filter(p).contains(x) <==> s.contains(x) && p(x),
        s.no_duplicates() ==> s.filter(p).no_duplicates(),
        s.filter(p).len() <= s.len(),
    decreases s.len(),
{
    reveal(Seq::filter);
    if s.len() > 0 {
        let t = s.drop_last();
        lemma_filter(t, p);
        let f = t.filter(p);
        assert forall|x: T| #[trigger] s.filter(p).contains(x) <==> s.contains(x) && p(x) by {
            if s.contains(x) && p(x) {
                let i = s.index_of(x);
                if i < t.len() {
                    assert(t[i] == x);
                    assert(f.contains(x));
                    assert(s.filter(p)[f.index_of(x)] == x);
                } else {
                    assert(s.filter(p)[f.len() as int] == x);
                }
            }
            if s.filter(p).contains(x) {
                let i = s.filter(p).index_of(x);
                if i < f.len() {
                    assert(f.contains(f[i]));
                    assert(t.contains(x));
                    assert(s[t.index_of(x)] == x);
                } else {
                    assert(s[s.len() - 1] == x);
                }
            }
        }
        if s.no_duplicates() {
            assert(t.no_duplicates());
            let g = s.filter(p);
            assert forall|i: int, j: int| 0 <= i < g.len() && 0 <= j < g.len() && i != j implies g[i]
                != g[j] by {
                assert forall|k: int| 0 <= k < f.len() implies f[k] != s.last() by {
                    assert(f.contains(f[k]));
                    assert(t.contains(f[k]));
                    assert(s[t.index_of(f[k])] == f[k]);
                }
            }
        }
    }
}

/// Distinct indices below a bound are no more than the bound.
pub proof fn lemma_short(s: Seq<usize>, n: nat)
    requires
        s.no_duplicates(),
        forall|i: int| 0 <= i < s.len() ==> #[trigger] s[i] < n,
    ensures
        s.len() <= n,
{
    let t = s.map_values(|u: usize| u as int);
    assert(t.no_duplicates()) by {
        assert forall|i: int, j: int| 0 <= i < t.len() && 0 <= j < t.len() && i != j implies t[i]
            != t[j] by {
            assert(s[i] != s[j]);
        }
    }
    t.unique_seq_to_set();
    vstd::set_lib::lemma_int_range(0, n as int);
    let all = vstd::set_lib::set_int_range(0, n as int);
    assert(t.to_set().subset_of(all)) by {
        assert forall|x: int| t.to_set().contains(x) implies all.contains(x) by {
            let i = t.index_of(x);
            assert(t[i] == x);
            assert(s[i] < n);
        }
    }
    vstd::set_lib::lemma_len_subset(t.to_set(), all);
}

} // verus!
