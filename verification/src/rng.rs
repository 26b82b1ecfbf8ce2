//! Trusted boundary to `bevy_turborand`: the global stream used once for
//! initial placement, and the private stream each carrier owns.
//!
//! Everything random enters the verified code through the two `u64` draws
//! below, whose only stated fact is the range bound; all further shaping of
//! random values into positions and durations is verified code in
//! `crate::sample`.

use bevy_turborand::{DelegatedRng, GlobalRng, RngComponent};
use vstd::prelude::*;

verus! {

#[verifier::external_type_specification]
#[verifier::external_body]
pub struct ExRngComponent(RngComponent);

#[verifier::external_type_specification]
#[verifier::external_body]
pub struct ExGlobalRng(GlobalRng);

/// Relies on `bevy_turborand::RngComponent::with_seed`: builds a stream
/// from the given seed.
#[verifier::external_body]
pub(crate) fn rng_component_with_seed(seed: u64) -> RngComponent {
    RngComponent::with_seed(seed)
}

/// Relies on `bevy_turborand::GlobalRng::with_seed`: builds the global
/// stream from the given seed.
#[verifier::external_body]
pub(crate) fn global_rng_with_seed(seed: u64) -> GlobalRng {
    GlobalRng::with_seed(seed)
}

/// Relies on `From<&mut GlobalRng> for RngComponent`: forks a freshly
/// seeded per-carrier stream off the global one.
#[verifier::external_body]
pub(crate) fn fork_rng_component(global: &mut GlobalRng) -> RngComponent {
    RngComponent::from(global)
}

/// Relies on `bevy_turborand`'s delegated `TurboRand::u64`: a draw on the
/// range `0..bound` lies below `bound`, and the call returns normally
/// whenever the range is not empty.
#[verifier::external_body]
pub(crate) fn rng_u64_below(rng: &mut RngComponent, bound: u64) -> (r: u64)
    requires
        bound >= 1,
    ensures
        r < bound,
{
    rng.u64(0..bound)
}

/// Relies on `bevy_turborand`'s delegated `TurboRand::u64`, as
/// `rng_u64_below` does, on the global stream.
#[verifier::external_body]
pub(crate) fn global_u64_below(global: &mut GlobalRng, bound: u64) -> (r: u64)
    requires
        bound >= 1,
    ensures
        r < bound,
{
    global.u64(0..bound)
}

} // verus!
