//! The random source: the thread-local generator of the `rand` crate.
//!
//! Nothing in this file is proved, and nothing here says which value a draw
//! returns: only what holds of every draw.

use rand::rngs::ThreadRng;
use rand::Rng;
use vstd::prelude::*;

verus! {

#[verifier::external_type_specification]
#[verifier::external_body]
pub struct ExThreadRng(rand::rngs::ThreadRng);

/// `rand::thread_rng`: a handle to the generator of the current thread,
/// which the operating system seeds.
#[verifier::external_body]
pub(crate) fn thread_source() -> ThreadRng {
    rand::thread_rng()
}

/// `Rng::gen_range` on `u8`: a value in `[low, high)`. It panics unless
/// `low < high`.
#[verifier::external_body]
pub(crate) fn draw_below(rng: &mut ThreadRng, low: u8, high: u8) -> (drawn: u8)
    requires
        low < high,
    ensures
        low <= drawn < high,
{
    rng.gen_range(low, high)
}

/// `Rng::gen` on `u64`: the next 64 bits of the generator, any value.
#[verifier::external_body]
pub(crate) fn draw_word(rng: &mut ThreadRng) -> u64 {
    rng.gen::<u64>()
}

} // verus!
