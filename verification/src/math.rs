//! Random test data.
use rand::distributions::{Distribution, Uniform};
use vstd::prelude::*;

verus! {

/// One number drawn from the half-open range from `start` to `stop`.
///
/// Makes a uniform distribution with `Uniform::new`, takes the generator of
/// the current thread from `rand::thread_rng` and draws from the
/// distribution with `Distribution::sample`. `Uniform::new` does not accept
/// an empty range. Of the number drawn only the range is stated: it is not
/// below `start`, and it is below `stop`.
#[verifier::external_body]
fn sample_uniform(start: i32, stop: i32) -> (choice: i32)
    requires
        start < stop,
    ensures
        start <= choice < stop,
{
    Uniform::new(start, stop).sample(&mut rand::thread_rng())
}

/// `count` numbers, each drawn from the half-open range from `start` to
/// `stop`.
///
/// The range must not be empty.
pub fn gen_random_vector(start: i32, stop: i32, count: u32) -> (choices: Vec<i32>)
    requires
        start < stop,
    ensures
        choices.len() == count,
        forall|i: int| 0 <= i < choices.len() ==> start <= #[trigger] choices[i] < stop,
{
    let mut choices: Vec<i32> = Vec::new();
    let mut drawn: u32 = 0;
    while drawn < count
        invariant
            start < stop,
            drawn <= count,
            choices.len() == drawn,
            forall|i: int| 0 <= i < choices.len() ==> start <= #[trigger] choices[i] < stop,
        decreases count - drawn,
    {
        choices.push(sample_uniform(start, stop));
        drawn = drawn + 1;
    }
    choices
}

} // verus!
