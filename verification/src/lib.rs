//! Luby transform fountain codes: a rateless erasure codec.
//!
//! A payload is cut into `k` fixed-size chunks and encoded into an unbounded
//! stream of droplets, each the XOR of the chunks a seed-derived neighbor set
//! selects; a receiver that catches enough droplets — any sufficient subset,
//! in any order — reconstructs the payload exactly with an online peeling
//! decoder.  The encoder, the droplet value and the decoder live in
//! [`ltcode`]; the degree samplers in [`soliton`] and at the crate root; the
//! seed-driven neighbor-set generation in [`sampling`]; the byte-level model
//! they all share in [`bytes`].

pub mod bytes;
pub mod ltcode;
pub mod sampling;
pub mod soliton;

use crate::sampling::seed_stream;
use crate::sampling::stream_next;
use crate::sampling::stream_word;
use crate::sampling::SeedStream;
use crate::soliton::degree_from_draw;
use crate::soliton::spec_degree_from_draw;
use vstd::prelude::*;

verus! {

/// Errors reported by the codec.
#[derive(Clone, Copy, Debug, PartialEq, Eq, Structural)]
pub enum LtError {
    /// A constructor was given an invalid configuration.
    InvalidArgument,
    /// A droplet handed to the decoder was malformed.
    InvalidDroplet,
}

/// Soliton degree sampler over a 32-bit chunk count: a seeded, infinite
/// stream of degrees in `[1, n]`.
pub struct Soliton {
    n: u32,
    stream: SeedStream,
}

impl Soliton {
    /// The sampler is for `n` source chunks.
    pub closed spec fn n(self) -> u32 {
        self.n
    }

    /// The seed the degree stream is determined by.
    pub closed spec fn seed(self) -> usize {
        self.stream.seed()
    }

    /// How many degrees have been drawn.
    pub closed spec fn pos(self) -> int {
        self.stream.pos()
    }

    pub closed spec fn wf(self) -> bool {
        self.n >= 1
    }

    /// Builds a sampler for `n` chunks whose stream is determined by `seed`.
    /// Rejects `n == 0` with `InvalidArgument`.
    pub fn new(n: u32, seed: usize) -> (r: Result<Soliton, LtError>)
        ensures
            match r {
                Ok(s) => n >= 1 && s.wf() && s.n() == n && s.seed() == seed && s.pos() == 0,
                Err(e) => e == LtError::InvalidArgument && n == 0,
            },
    {
        if n == 0 {
            return Err(LtError::InvalidArgument);
        }
        Ok(Soliton { n, stream: seed_stream(seed) })
    }

    /// Draws the next degree; every emitted degree lies in `[1, n]`, and is
    /// the degree that `(seed, position, n)` alone determine, so two equally
    /// seeded samplers emit identical degree sequences.
    pub fn next(&mut self) -> (d: u32)
        requires
            old(self).wf(),
        ensures
            final(self).wf(),
            final(self).n() == old(self).n(),
            final(self).seed() == old(self).seed(),
            final(self).pos() == old(self).pos() + 1,
            1 <= d <= old(self).n(),
            d as int == spec_degree_from_draw(
                stream_word(old(self).seed(), old(self).pos()),
                old(self).n() as usize,
            ),
    {
        let u = stream_next(&mut self.stream);
        let d = degree_from_draw(u, self.n as usize);
        d as u32
    }
}

} // verus!
