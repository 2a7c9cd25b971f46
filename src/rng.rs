//! Integer draws from rand_pcg's 128-bit MCG generator.
use rand::Rng;
use rand::SeedableRng;
use rand_pcg::Mcg128Xsl64;
use vstd::prelude::*;

verus! {

/// The generator of rand_pcg, carried through the library as an opaque value.
#[verifier::external_type_specification]
#[verifier::external_body]
pub struct ExMcg128Xsl64(Mcg128Xsl64);

/// Relies on `SeedableRng::seed_from_u64` for `Mcg128Xsl64`: a generator
/// whose stream is fixed by the seed. Nothing is stated of the stream.
#[verifier::external_body]
pub fn seeded_rng(seed: u64) -> (r: Mcg128Xsl64) {
    Mcg128Xsl64::seed_from_u64(seed)
}

/// Relies on `Rng::gen_range(0, hi)` on `usize`: a value in `[0, hi)`; it
/// panics when `hi == 0`, which `requires` leaves out.
#[verifier::external_body]
pub fn index_below(rng: &mut Mcg128Xsl64, hi: usize) -> (r: usize)
    requires
        0 < hi,
    ensures
        r < hi,
{
    rng.gen_range(0, hi)
}

/// Relies on `Rng::gen_range(0, hi)` on `i32`: a value in `[0, hi)`; it
/// panics when `hi <= 0`, which `requires` leaves out.
#[verifier::external_body]
pub fn level_below(rng: &mut Mcg128Xsl64, hi: i32) -> (r: i32)
    requires
        0 < hi,
    ensures
        0 <= r < hi,
{
    rng.gen_range(0, hi)
}

} // verus!
