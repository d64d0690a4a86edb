//! Seed-driven neighbor-set generation.
//!
//! Encoder and decoder must agree, for a given `(seed, k, degree)`, on which
//! source chunks a droplet combines.  Both sides therefore derive the neighbor
//! set from the seed with the same pseudorandom generator and the same
//! sampling procedure, supplied by the `rand` crate.

use crate::LtError;
use vstd::prelude::*;

verus! {

/// `rand::rngs::StdRng`, the pseudorandom generator that drives the degree
/// sampler and the droplet seeds.  Opaque to verification; every use goes
/// through a trusted wrapper below.
#[verifier::external_type_specification]
#[verifier::external_body]
pub struct ExStdRng(rand::rngs::StdRng);

/// The neighbor set that `(seed, n, degree)` determines: `degree` distinct
/// indices drawn without replacement from `[0, n)`.  Named, not spelled out:
/// the exact list is whatever `rand`'s seeded index sampling produces, and it
/// depends on the three arguments alone.
pub uninterp spec fn sample_of(seed: usize, n: usize, degree: usize) -> Seq<usize>;

/// Relies on `rand::SeedableRng::seed_from_u64` and `rand::seq::index::sample`:
/// a generator seeded from `seed` alone draws exactly `degree` distinct
/// indices from `[0, n)`, so the result is a function of the arguments and is
/// reproducible across calls and processes.
#[verifier::external_body]
pub(crate) fn get_sample_from_rng_by_seed(seed: usize, n: usize, degree: usize) -> (r: Vec<
    usize,
>)
    requires
        degree <= n,
    ensures
        r@ == sample_of(seed, n, degree),
        r@.len() == degree,
        forall|i: int| 0 <= i < r@.len() ==> r@[i] < n,
        forall|i: int, j: int| 0 <= i < j < r@.len() ==> r@[i] != r@[j],
{
    let mut rng: rand::rngs::StdRng = rand::SeedableRng::seed_from_u64(seed as u64);
    rand::seq::index::sample(&mut rng, n, degree).into_vec()
}

/// Relies on `rand::SeedableRng::seed_from_u64`: builds a generator whose
/// stream is determined by `seed`.
#[verifier::external_body]
pub(crate) fn rng_from_seed(seed: usize) -> (r: rand::rngs::StdRng) {
    rand::SeedableRng::seed_from_u64(seed as u64)
}

/// A seeded word stream: `rand`'s standard generator together with the seed
/// it was built from and the count of words drawn so far, so that contracts
/// can name every drawn word.  The private fields keep the three in step:
/// `seed_stream` establishes that `rng` is the generator seeded from `seed`
/// with `pos` words consumed, and `stream_next` preserves it.
pub struct SeedStream {
    rng: rand::rngs::StdRng,
    seed: usize,
    pos: Ghost<int>,
}

impl SeedStream {
    /// The seed the stream was built from.
    pub closed spec fn seed(self) -> usize {
        self.seed
    }

    /// How many words have been drawn.
    pub closed spec fn pos(self) -> int {
        self.pos@
    }
}

/// The word at position `pos` of the 32-bit word stream that `rand`'s
/// standard generator produces when seeded from `seed`.  Named, not spelled
/// out: the values are whatever the generator computes, and they depend on
/// the seed and the position alone, on every machine.
pub uninterp spec fn stream_word(seed: usize, pos: int) -> u32;

/// Relies on `rand::SeedableRng::seed_from_u64`: a generator built from
/// `seed` alone, with no words drawn yet.
#[verifier::external_body]
pub(crate) fn seed_stream(seed: usize) -> (r: SeedStream)
    ensures
        r.seed() == seed,
        r.pos() == 0,
{
    SeedStream { rng: rand::SeedableRng::seed_from_u64(seed as u64), seed, pos: Ghost(0) }
}

/// Relies on `rand::RngCore::next_u32`: draws the stream's next word and
/// advances the position, so the result is the word that `(seed, pos)`
/// determines.
#[verifier::external_body]
pub(crate) fn stream_next(s: &mut SeedStream) -> (r: u32)
    ensures
        final(s).seed() == old(s).seed(),
        final(s).pos() == old(s).pos() + 1,
        r == stream_word(old(s).seed(), old(s).pos()),
{
    rand::RngCore::next_u32(&mut s.rng)
}

/// Relies on `rand::rngs::StdRng::from_entropy`: builds a generator seeded
/// from the operating system.  Nothing is promised of its stream.
#[verifier::external_body]
pub(crate) fn rng_from_entropy() -> (r: rand::rngs::StdRng) {
    rand::SeedableRng::from_entropy()
}

/// Relies on `rand::RngCore::next_u32`: draws the generator's next word and
/// advances its state.  Nothing is promised of the value.
#[verifier::external_body]
pub(crate) fn rng_next_u32(rng: &mut rand::rngs::StdRng) -> (r: u32) {
    rand::RngCore::next_u32(rng)
}

/// The neighbor-set generator: `degree` distinct chunk indices in `[0, k)`,
/// determined by `(seed, k, degree)` alone.  The same arguments always yield
/// the same list, so sender and receiver agree without transmitting indices.
///
/// Rejects `k == 0` and `degree > k` with `InvalidArgument`.
pub fn sample_neighbors(seed: usize, k: usize, degree: usize) -> (r: Result<Vec<usize>, LtError>)
    ensures
        match r {
            Ok(v) => {
                &&& k >= 1
                &&& degree <= k
                &&& v@ == sample_of(seed, k, degree)
                &&& v@.len() == degree
                &&& forall|i: int| 0 <= i < v@.len() ==> v@[i] < k
                &&& forall|i: int, j: int| 0 <= i < j < v@.len() ==> v@[i] != v@[j]
            },
            Err(e) => e == LtError::InvalidArgument && (k == 0 || degree > k),
        },
{
    if k == 0 || degree > k {
        return Err(LtError::InvalidArgument);
    }
    Ok(get_sample_from_rng_by_seed(seed, k, degree))
}

} // verus!
