//! The level generator: draws a randomized height index for each new node by a
//! repeated fair coin flip, capped at `MAX_LEVEL - 1`.

use vstd::prelude::*;

use crate::skiplist::MAX_LEVEL;

verus! {

/// Relies on `rand::random::<bool>`: draws one boolean, each value with
/// probability one half, from the thread-local random number generator.
/// Nothing is promised of the outcome.
#[verifier::external_body]
fn coin_flip() -> bool {
    rand::random()
}

/// Draws a level index: starting at 0, each winning coin flip raises the level
/// by one, stopping at the first losing flip or at the cap `MAX_LEVEL - 1`.
/// A node inserted with level `k` has height `k + 1`.
pub(crate) fn generate_level() -> (level: usize)
    ensures
        level < MAX_LEVEL,
{
    let mut level: usize = 0;
    loop
        invariant
            level < MAX_LEVEL,
        ensures
            level < MAX_LEVEL,
        decreases MAX_LEVEL - level,
    {
        if !coin_flip() {
            break;
        }
        if level >= MAX_LEVEL - 1 {
            break;
        }
        level = level + 1;
    }
    level
}

} // verus!
