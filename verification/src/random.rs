//! Random numbers, from the generator that each thread has of its own.
use vstd::prelude::*;
use rand::rngs::ThreadRng;
use rand::Rng;
use crate::fixed::ONE;

verus! {

/// `rand::rngs::ThreadRng`, the handle to a thread's generator: it is
/// only carried from where it is made to where numbers are drawn, and
/// nothing is known of what it holds.
#[verifier::external_type_specification]
#[verifier::external_body]
pub struct ExThreadRng(ThreadRng);

/// `rand::rng`: a handle to the calling thread's generator. Nothing is
/// claimed of it.
#[verifier::external_body]
fn thread_generator() -> (rng: ThreadRng) {
    rand::rng()
}

/// `Rng::random_range` on the range from zero up to, not including,
/// `bound`: the number drawn lies in that range, which is all that is
/// claimed of it. The range must not be empty.
#[verifier::external_body]
fn random_below(rng: &mut ThreadRng, bound: u32) -> (drawn: u32)
    requires
        bound > 0,
    ensures
        drawn < bound,
{
    rng.random_range(0..bound)
}

/// Both numbers of each pair lie between zero and one, one excluded.
pub open spec fn unit_draws(draws: Seq<(i64, i64)>) -> bool {
    forall|i: int|
        0 <= i < draws.len() ==> 0 <= (#[trigger] draws[i]).0 < ONE && 0 <= draws[i].1 < ONE
}

/// Draws `count` pairs of random numbers, each between zero and one, one
/// excluded.
pub fn draw_pairs(count: usize) -> (draws: Vec<(i64, i64)>)
    ensures
        draws.len() == count,
        unit_draws(draws@),
{
    let mut rng: ThreadRng = thread_generator();
    let mut draws: Vec<(i64, i64)> = Vec::new();
    while draws.len() < count
        invariant
            draws.len() <= count,
            unit_draws(draws@),
        decreases count - draws.len(),
    {
        let first: u32 = random_below(&mut rng, 1_000_000);
        let second: u32 = random_below(&mut rng, 1_000_000);
        draws.push((first as i64, second as i64));
    }
    draws
}

} // verus!
