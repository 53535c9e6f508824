//! Bits packed into words of thirty-two.
use vstd::prelude::*;

verus! {

/// Bit `i` of a word.
pub open spec fn word_bit(w: u32, i: u32) -> bool {
    (w >> i) & 1u32 == 1u32
}

/// Bit `p` of packed bits.
pub open spec fn bit_at(words: Seq<u32>, p: int) -> bool {
    word_bit(words[p / 32], (p % 32) as u32)
}

/// The bits that words hold.
pub open spec fn bits(words: Seq<u32>) -> Seq<bool> {
    Seq::new(words.len() * 32, |p: int| bit_at(words, p))
}

/// Bit `j` of a word whose bit `i` is raised, lowered or turned over.
proof fn lemma_set(w: u32, i: u32, j: u32)
    by (bit_vector)
    requires
        i < 32,
        j < 32,
    ensures
        ((w | (1u32 << i)) >> j) & 1u32 == (if i == j {
            1u32
        } else {
            (w >> j) & 1u32
        }),
        ((w & !(1u32 << i)) >> j) & 1u32 == (if i == j {
            0u32
        } else {
            (w >> j) & 1u32
        }),
        ((w ^ (1u32 << i)) >> j) & 1u32 == (if i == j {
            ((w >> j) & 1u32) ^ 1u32
        } else {
            (w >> j) & 1u32
        }),
        ((w >> j) & 1u32) ^ 1u32 == 1u32 <==> (w >> j) & 1u32 != 1u32,
{
}

/// Where a position lies: its word and its place in the word.
fn place(p: usize) -> (r: (usize, u32))
    ensures
        r.0 == p / 32,
        r.1 == p % 32,
{
    assert(p >> 5 == p / 32) by (bit_vector);
    assert(p & 31 == p % 32) by (bit_vector);
    (p >> 5, (p & 31) as u32)
}

/// Changing one word changes its bits alone.
proof fn lemma_update(words: Seq<u32>, p: int, w: u32, b: bool)
    requires
        0 <= p < words.len() * 32,
        forall|j: u32|
            j < 32 ==> #[trigger] word_bit(w, j) == (if j == p % 32 {
                b
            } else {
                word_bit(words[p / 32], j)
            }),
    ensures
        bits(words.update(p / 32, w)) == bits(words).update(p, b),
{
    let after = words.update(p / 32, w);
    assert forall|q: int| 0 <= q < words.len() * 32 implies bits(after)[q] == bits(words).update(
        p,
        b,
    )[q] by {
        assert(p == 32 * (p / 32) + p % 32);
        assert(q == 32 * (q / 32) + q % 32);
        if q / 32 == p / 32 {
            assert(word_bit(w, (q % 32) as u32) == (if (q % 32) as u32 == p % 32 {
                b
            } else {
                word_bit(words[p / 32], (q % 32) as u32)
            }));
        }
    }
    assert(bits(after) =~= bits(words).update(p, b));
}

/// Reads a bit.
pub fn get_bit(words: &Vec<u32>, p: usize) -> (b: bool)
    requires
        p < words@.len() * 32,
    ensures
        b == bits(words@)[p as int],
{
    let (word, i): (usize, u32) = place(p);
    (words[word] >> i) & 1 == 1
}

/// Raises a bit.
pub fn set_bit(words: &mut Vec<u32>, p: usize)
    requires
        p < old(words)@.len() * 32,
    ensures
        final(words)@.len() == old(words)@.len(),
        bits(final(words)@) == bits(old(words)@).update(p as int, true),
{
    let (word, i): (usize, u32) = place(p);
    let ghost before = words@[word as int];
    let after: u32 = words[word] | (1u32 << i);
    proof {
        assert forall|j: u32| j < 32 implies #[trigger] word_bit(after, j) == (if j == p as int % 32 {
            true
        } else {
            word_bit(before, j)
        }) by {
            lemma_set(before, i, j);
        }
        lemma_update(words@, p as int, after, true);
    }
    words[word] = after;
}

/// Lowers a bit.
pub fn clear_bit(words: &mut Vec<u32>, p: usize)
    requires
        p < old(words)@.len() * 32,
    ensures
        final(words)@.len() == old(words)@.len(),
        bits(final(words)@) == bits(old(words)@).update(p as int, false),
{
    let (word, i): (usize, u32) = place(p);
    let ghost before = words@[word as int];
    let after: u32 = words[word] & !(1u32 << i);
    proof {
        assert forall|j: u32| j < 32 implies #[trigger] word_bit(after, j) == (if j == p as int % 32 {
            false
        } else {
            word_bit(before, j)
        }) by {
            lemma_set(before, i, j);
        }
        lemma_update(words@, p as int, after, false);
    }
    words[word] = after;
}

/// Turns a bit over.
pub fn flip_bit(words: &mut Vec<u32>, p: usize)
    requires
        p < old(words)@.len() * 32,
    ensures
        final(words)@.len() == old(words)@.len(),
        bits(final(words)@) == bits(old(words)@).update(p as int, !bits(old(words)@)[p as int]),
{
    let (word, i): (usize, u32) = place(p);
    let ghost before = words@[word as int];
    let after: u32 = words[word] ^ (1u32 << i);
    let ghost flipped = !word_bit(before, i);
    proof {
        assert forall|j: u32| j < 32 implies #[trigger] word_bit(after, j) == (if j == p as int % 32 {
            flipped
        } else {
            word_bit(before, j)
        }) by {
            lemma_set(before, i, j);
        }
        lemma_update(words@, p as int, after, flipped);
    }
    words[word] = after;
}

/// The bits of words one after the other.
pub proof fn lemma_bits_add(a: Seq<u32>, b: Seq<u32>)
    ensures
        bits(a + b) == bits(a) + bits(b),
{
    assert forall|p: int| 0 <= p < bits(a + b).len() implies bits(a + b)[p] == (bits(a) + bits(
        b,
    ))[p] by {
        let n = a.len() * 32;
        if p >= n {
            assert((p - n) / 32 == p / 32 - a.len());
            assert((p - n) % 32 == p % 32);
        }
    }
    assert(bits(a + b) =~= bits(a) + bits(b));
}

} // verus!
