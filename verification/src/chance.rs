//! Random draws. Nothing is known of a draw but its range, so everything
//! built on these functions is proved for every outcome.
use rand::Rng;
use vstd::prelude::*;
use crate::ratio::Ratio;

verus! {

/// `Rng::gen_range(0..bound)` on the thread-local generator: some value below
/// `bound`. An empty range panics there and is excluded here.
#[verifier::external_body]
fn random_below(bound: u64) -> (r: u64)
    requires
        bound > 0,
    ensures
        r < bound,
{
    rand::thread_rng().gen_range(0..bound)
}

/// Tosses a coin that comes up `true` with probability `p`.
pub fn flip(p: Ratio) -> (b: bool)
    ensures
        p.is_certain() ==> b,
        p.is_impossible() ==> !b,
{
    if p.den == 0 {
        false
    } else {
        let draw = random_below(p.den);
        draw < p.num
    }
}

/// Picks an index below `len`, each with equal probability.
pub fn pick_index(len: usize) -> (i: usize)
    requires
        len > 0,
    ensures
        i < len,
{
    let draw = random_below(len as u64);
    draw as usize
}

} // verus!
