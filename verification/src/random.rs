//! Reproducible random numbers.
use rand::Rng;
use rand::SeedableRng;
use rand_chacha::ChaCha20Rng;
use vstd::prelude::*;

verus! {

/// The number below `bound` that the ChaCha stream of `seed` gives at word
/// `pos`, and the word behind what was used up for it.
pub uninterp spec fn chacha_draw(seed: u64, pos: u128, bound: u64) -> (u64, u128);

/// `ChaCha20Rng::seed_from_u64`, `set_word_pos`, `Rng::gen_range` and
/// `get_word_pos`: a number below `bound` from the stream of `seed` at word
/// `pos`, and the word at which the stream goes on.  Both depend on the
/// arguments alone.
#[verifier::external_body]
pub(crate) fn draw(seed: u64, pos: u128, bound: u64) -> (r: (u64, u128))
    requires
        bound > 0,
    ensures
        r == chacha_draw(seed, pos, bound),
        r.0 < bound,
{
    let mut rng = ChaCha20Rng::seed_from_u64(seed);
    rng.set_word_pos(pos);
    let value = rng.gen_range(0..bound);
    (value, rng.get_word_pos())
}

} // verus!
