//! The level generator: a tower height drawn by repeated fair coin flips,
//! saturating at `MAX_HEIGHT`. Only the single coin flip is taken on trust;
//! the capped geometric sampling loop around it is verified.

use vstd::prelude::*;

use crate::skip_map::MAX_HEIGHT;

verus! {

/// Relies on rand::random::<bool>: one fair coin flip from the thread-local
/// generator. Nothing is promised of the outcome.
#[verifier::external_body]
fn coin_flip() -> bool {
    rand::random::<bool>()
}

/// A tower height in `[1, MAX_HEIGHT]`: keep flipping a fair coin, growing
/// the tower on heads, and stop on the first tails or at the cap. The height
/// depends on nothing but the randomness consumed.
pub(crate) fn next_height() -> (h: usize)
    ensures
        1 <= h <= MAX_HEIGHT,
{
    let mut ans: usize = 1;
    while ans < MAX_HEIGHT
        invariant
            1 <= ans <= MAX_HEIGHT,
        decreases MAX_HEIGHT - ans,
    {
        if coin_flip() {
            ans += 1;
        } else {
            break ;
        }
    }
    ans
}

} // verus!
