//! Ideal Soliton degree sampler.
//!
//! A draw `y` uniform over `(0, 1]` is mapped to the degree `ceil(1 / y)`,
//! clamped to 1 when it would exceed the number of chunks `k`; `y < 1/k`
//! (equivalently, a degree above `k`) yields 1.  The draw is taken from a
//! seeded generator as a 32-bit word `u`, standing for `y = (u + 1) / 2^32`,
//! so the thresholding is exact integer arithmetic.

use crate::sampling::seed_stream;
use crate::sampling::stream_next;
use crate::sampling::stream_word;
use crate::sampling::SeedStream;
use crate::LtError;
use vstd::prelude::*;

verus! {

/// 2^32: the number of distinct values of a draw.
pub const DRAW_SPAN: u64 = 0x1_0000_0000;

/// The ideal Soliton degree determined by a 32-bit draw `u` and the chunk
/// count `k`: with `y = u + 1` standing for a uniform value in `(0, 1]`
/// scaled by 2^32, the degree is `ceil(2^32 / y)`, except that a degree
/// above `k` (that is, `y < 2^32 / k`) yields 1.
pub open spec fn spec_degree_from_draw(u: u32, k: usize) -> int {
    if (u as int + 1) * (k as int) >= DRAW_SPAN as int {
        (DRAW_SPAN as int + u as int) / (u as int + 1)
    } else {
        1
    }
}

/// Maps one uniform 32-bit draw to a degree in `[1, k]` by the ideal Soliton
/// inverse CDF.
pub(crate) fn degree_from_draw(u: u32, k: usize) -> (d: usize)
    requires
        k >= 1,
    ensures
        1 <= d <= k,
        d as int == spec_degree_from_draw(u, k),
{
    let y: u64 = (u as u64) + 1;
    proof {
        assert((y as int) * (k as int) <= u128::MAX) by (nonlinear_arith)
            requires
                0 <= y <= DRAW_SPAN,
                0 <= k <= usize::MAX,
        ;
    }
    let prod: u128 = (y as u128) * (k as u128);
    if prod >= DRAW_SPAN as u128 {
        let num: u64 = DRAW_SPAN + y - 1;
        let d64: u64 = num / y;
        proof {
            assert(1 <= (DRAW_SPAN + y - 1) as int / y as int) by (nonlinear_arith)
                requires
                    1 <= y,
                    y <= DRAW_SPAN,
            ;
            assert((DRAW_SPAN + y - 1) as int / y as int <= k as int) by (nonlinear_arith)
                requires
                    1 <= y,
                    1 <= k,
                    (y as int) * (k as int) >= DRAW_SPAN as int,
            ;
        }
        d64 as usize
    } else {
        1
    }
}

/// Ideal Soliton sampler: a seeded, infinite stream of degrees in `[1, k]`.
pub struct IdealSoliton {
    k: usize,
    stream: SeedStream,
}

impl IdealSoliton {
    /// The sampler is for `k` source chunks.
    pub closed spec fn k(self) -> usize {
        self.k
    }

    /// The seed the degree stream is determined by.
    pub closed spec fn seed(self) -> usize {
        self.stream.seed()
    }

    /// How many degrees have been drawn.
    pub closed spec fn pos(self) -> int {
        self.stream.pos()
    }

    pub closed spec fn wf(self) -> bool {
        self.k >= 1
    }

    /// Builds a sampler for `k` chunks whose stream is determined by `seed`.
    /// Rejects `k == 0` with `InvalidArgument`.
    pub fn new(k: usize, seed: usize) -> (r: Result<IdealSoliton, LtError>)
        ensures
            match r {
                Ok(s) => k >= 1 && s.wf() && s.k() == k && s.seed() == seed && s.pos() == 0,
                Err(e) => e == LtError::InvalidArgument && k == 0,
            },
    {
        if k == 0 {
            return Err(LtError::InvalidArgument);
        }
        Ok(IdealSoliton { k, stream: seed_stream(seed) })
    }

    /// Draws the next degree; every emitted degree lies in `[1, k]`, and is
    /// the degree that `(seed, position, k)` alone determine, so two equally
    /// seeded samplers emit identical degree sequences.
    pub fn next(&mut self) -> (d: usize)
        requires
            old(self).wf(),
        ensures
            final(self).wf(),
            final(self).k() == old(self).k(),
            final(self).seed() == old(self).seed(),
            final(self).pos() == old(self).pos() + 1,
            1 <= d <= old(self).k(),
            d as int == spec_degree_from_draw(
                stream_word(old(self).seed(), old(self).pos()),
                old(self).k(),
            ),
    {
        let u = stream_next(&mut self.stream);
        degree_from_draw(u, self.k)
    }
}

} // verus!
