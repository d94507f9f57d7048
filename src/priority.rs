use vstd::prelude::*;

verus! {

/// rand's xorshift generator, held opaque: priorities are drawn from it.
#[verifier::external_type_specification]
#[verifier::external_body]
pub struct ExXorShiftRng(rand::XorShiftRng);

/// Relies on rand::weak_rng: a fast generator seeded from the thread-local
/// generator, which panics only when the system gives no entropy at all.
/// Nothing is promised of its state.
#[verifier::external_body]
pub(crate) fn fresh_rng() -> (r: rand::XorShiftRng) {
    rand::weak_rng()
}

/// Relies on rand::Rng::gen for XorShiftRng: the next pseudo-random `u64`.
/// Any value may come out.
#[verifier::external_body]
pub(crate) fn next_priority(rng: &mut rand::XorShiftRng) -> (r: u64) {
    rand::Rng::gen::<u64>(rng)
}

} // verus!
