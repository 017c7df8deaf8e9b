use vstd::prelude::*;
use bevy_turborand::{DelegatedRng, RngComponent};

verus! {

/// The random source of `bevy_turborand`, carried through the generators.
#[verifier::external_type_specification]
#[verifier::external_body]
pub struct ExRngComponent(RngComponent);

/// Relies on `DelegatedRng::usize` of bevy_turborand (turborand's
/// `TurboRand::usize`): a value drawn from `0..bound`; it panics on an empty
/// range, hence `bound > 0`.
#[verifier::external_body]
pub(crate) fn draw_below(rng: &mut RngComponent, bound: usize) -> (r: usize)
    requires
        bound > 0,
    ensures
        r < bound,
{
    rng.usize(0..bound)
}

/// Relies on `DelegatedRng::sample_multiple` of bevy_turborand: it shuffles
/// references to every item of `pool` and keeps the first `min(len, amount)`,
/// so the items come from distinct places of `pool`.
#[verifier::external_body]
pub(crate) fn sample_indices(rng: &mut RngComponent, pool: &Vec<usize>, amount: usize) -> (r: Vec<
    usize,
>)
    ensures
        r@.len() == (if amount < pool@.len() {
            amount as int
        } else {
            pool@.len() as int
        }),
        forall|k: int| 0 <= k < r@.len() ==> pool@.contains(#[trigger] r@[k]),
        pool@.no_duplicates() ==> r@.no_duplicates(),
{
    rng.sample_multiple(pool.as_slice(), amount).into_iter().map(|i| *i).collect()
}

/// Relies on `DelegatedRng::u64` of bevy_turborand (turborand's
/// `TurboRand::u64`): a value drawn from `0..bound`; it panics on an empty
/// range, hence `bound > 0`.
#[verifier::external_body]
pub(crate) fn draw_below_u64(rng: &mut RngComponent, bound: u64) -> (r: u64)
    requires
        bound > 0,
    ensures
        r < bound,
{
    rng.u64(0..bound)
}

} // verus!
