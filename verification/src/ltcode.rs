//! Luby-transform codec: encoder, droplet value, and the peeling decoder.
//!
//! The encoder cuts a payload into `k` fixed-size chunks and emits an
//! unbounded stream of droplets, each the XOR of the chunks a seed-derived
//! neighbor set selects.  The decoder maintains the receiver-side bipartite
//! graph between unknown chunks and outstanding droplets and peels it to a
//! fixed point as each droplet arrives.

use crate::bytes::chunk_at;
use crate::bytes::chunk_bytes;
use crate::bytes::chunk_count_exec;
use crate::bytes::copy_bytes;
use crate::bytes::copy_indices;
use crate::bytes::lemma_chunk_count_bounds;
use crate::bytes::lemma_chunks_tile;
use crate::bytes::take_prefix;
use crate::bytes::lemma_xor_bytes_zero;
use crate::bytes::lemma_xor_chunks_remove;
use crate::bytes::lemma_xor_chunks_singleton;
use crate::bytes::lemma_xor_chunks_take_step;
use crate::bytes::spec_chunk_count;
use crate::bytes::xor_bytes;
use crate::bytes::xor_chunk_with;
use crate::bytes::xor_chunks;
use crate::bytes::xor_with;
use crate::bytes::write_at;
use crate::bytes::zero_vec;
use crate::bytes::all_below;
use crate::bytes::find_pos;
use crate::bytes::has_duplicate;
use crate::sampling::get_sample_from_rng_by_seed;
use crate::sampling::rng_from_entropy;
use crate::sampling::rng_from_seed;
use crate::sampling::rng_next_u32;
use crate::sampling::sample_of;
use crate::soliton::IdealSoliton;
use crate::LtError;
use vstd::arithmetic::div_mod::lemma_fundamental_div_mod;
use vstd::prelude::*;

verus! {

/// How the encoder opens the stream.
#[derive(Clone, Copy, Debug)]
pub enum EncoderType {
    /// The first `k` droplets carry the `k` source chunks verbatim; after
    /// that the stream continues as in the `Random` case.  With no loss on
    /// the channel no repair is needed.
    Systematic,
    /// Every droplet is a random XOR combination from the start.  This may be
    /// the better choice on high-loss channels.
    Random,
}

/// How a droplet describes its neighbor set.
#[derive(Clone, Debug)]
pub enum DropType {
    /// The neighbor set is derived from the seed (first field) and the degree
    /// (second field) by the shared neighbor-set generator.
    Seeded(usize, usize),
    /// The neighbor set is given literally.
    Edges(Vec<usize>),
}

/// One fountain-code packet: a neighbor-set descriptor plus the XOR of the
/// selected source chunks, zero-padded to the blocksize.
#[derive(Clone, Debug)]
pub struct Droplet {
    /// How the neighbor set is described.
    pub droptype: DropType,
    /// The XOR of the source chunks at the neighbor indices.
    pub data: Vec<u8>,
}

impl Droplet {
    pub fn new(droptype: DropType, data: Vec<u8>) -> (d: Droplet)
        ensures
            d.droptype == droptype,
            d.data == data,
    {
        Droplet { droptype, data }
    }
}

/// What a droplet promises at emission: its payload is the XOR of the source
/// chunks its neighbor set selects, under payload `p`, blocksize `bs` and
/// chunk count `k`.  The decoder preserves exactly this relation while it
/// peels.
pub open spec fn droplet_matches(d: Droplet, p: Seq<u8>, bs: usize, k: usize) -> bool {
    &&& d.data@.len() == bs
    &&& match d.droptype {
        DropType::Seeded(seed, degree) => degree <= k && d.data@ == xor_chunks(
            p,
            bs as int,
            sample_of(seed, k, degree),
        ),
        DropType::Edges(e) => (forall|i: int| 0 <= i < e@.len() ==> e@[i] < k) && d.data@
            == xor_chunks(p, bs as int, e@),
    }
}

/// A droplet whose neighbor set under chunk count `k` is exactly the one
/// chunk `i`: either a literal singleton, as the systematic encoder emits
/// it, or a seeded descriptor of degree 1 whose sample names chunk `i`.
pub open spec fn singleton_droplet(d: Droplet, k: usize, i: int) -> bool {
    match d.droptype {
        DropType::Edges(e) => e@.len() == 1 && e@[0] as int == i,
        DropType::Seeded(seed, degree) => degree == 1 && sample_of(seed, k, 1).len() == 1
            && sample_of(seed, k, 1)[0] as int == i,
    }
}

/// A droplet the decoder accepts: payload of exactly one blocksize, degree
/// within the chunk count, and a literal neighbor list without duplicates or
/// out-of-range indices.
pub open spec fn droplet_acceptable(d: Droplet, bs: usize, k: usize) -> bool {
    &&& d.data@.len() == bs
    &&& match d.droptype {
        DropType::Seeded(_seed, degree) => degree <= k,
        DropType::Edges(e) => {
            &&& forall|i: int| 0 <= i < e@.len() ==> e@[i] < k
            &&& forall|i: int, j: int| 0 <= i < j < e@.len() ==> e@[i] != e@[j]
        },
    }
}

/// Encoder for Luby transform codes: owns the payload and produces an
/// infinite stream of droplets.
pub struct Encoder {
    data: Vec<u8>,
    len: usize,
    blocksize: usize,
    rng: rand::rngs::StdRng,
    cnt_blocks: usize,
    sol: IdealSoliton,
    cnt: usize,
    encodertype: EncoderType,
}

impl Encoder {
    /// The payload being encoded.
    pub closed spec fn payload(self) -> Seq<u8> {
        self.data@
    }

    /// Bytes per chunk.
    pub closed spec fn block_size(self) -> usize {
        self.blocksize
    }

    /// Number of source chunks `k`.
    pub closed spec fn chunk_count(self) -> usize {
        self.cnt_blocks
    }

    /// Droplets emitted so far.
    pub closed spec fn count(self) -> usize {
        self.cnt
    }

    /// Whether the encoder is still emitting the systematic prefix of raw
    /// chunks.
    pub closed spec fn in_systematic_prefix(self) -> bool {
        self.encodertype is Systematic
    }

    pub closed spec fn wf(self) -> bool {
        &&& self.blocksize >= 1
        &&& self.len == self.data@.len()
        &&& self.len >= 1
        &&& self.cnt_blocks == spec_chunk_count(self.len as int, self.blocksize as int)
        &&& self.cnt_blocks >= 1
        &&& self.sol.wf()
        &&& self.sol.k() == self.cnt_blocks
        &&& (self.encodertype is Systematic ==> self.cnt < self.cnt_blocks)
    }

    fn from_rng(
        data: Vec<u8>,
        blocksize: usize,
        encodertype: EncoderType,
        rng: rand::rngs::StdRng,
    ) -> (r: Result<Encoder, LtError>)
        ensures
            match r {
                Ok(enc) => {
                    &&& data@.len() >= 1
                    &&& blocksize >= 1
                    &&& enc.wf()
                    &&& enc.payload() == data@
                    &&& enc.block_size() == blocksize
                    &&& enc.chunk_count() == spec_chunk_count(data@.len() as int, blocksize as int)
                    &&& enc.count() == 0
                    &&& (enc.in_systematic_prefix() <==> encodertype is Systematic)
                },
                Err(e) => e == LtError::InvalidArgument && (data@.len() == 0 || blocksize == 0),
            },
    {
        if blocksize == 0 {
            return Err(LtError::InvalidArgument);
        }
        let len = data.len();
        if len == 0 {
            return Err(LtError::InvalidArgument);
        }
        let cnt_blocks = chunk_count_exec(len, blocksize);
        let mut rng = rng;
        let solseed = rng_next_u32(&mut rng);
        let sol = match IdealSoliton::new(cnt_blocks, solseed as usize) {
            Ok(s) => s,
            Err(_) => {
                return Err(LtError::InvalidArgument);
            },
        };
        Ok(Encoder { data, len, blocksize, rng, cnt_blocks, sol, cnt: 0, encodertype })
    }

    /// Constructs an encoder for the payload, cut into chunks of `blocksize`
    /// bytes, with the degree sampler seeded from the operating system.
    /// Rejects an empty payload or a zero blocksize with `InvalidArgument`.
    pub fn new(data: Vec<u8>, blocksize: usize, encodertype: EncoderType) -> (r: Result<
        Encoder,
        LtError,
    >)
        ensures
            match r {
                Ok(enc) => {
                    &&& data@.len() >= 1
                    &&& blocksize >= 1
                    &&& enc.wf()
                    &&& enc.payload() == data@
                    &&& enc.block_size() == blocksize
                    &&& enc.chunk_count() == spec_chunk_count(data@.len() as int, blocksize as int)
                    &&& enc.count() == 0
                    &&& (enc.in_systematic_prefix() <==> encodertype is Systematic)
                },
                Err(e) => e == LtError::InvalidArgument && (data@.len() == 0 || blocksize == 0),
            },
    {
        let rng = rng_from_entropy();
        Encoder::from_rng(data, blocksize, encodertype, rng)
    }

    /// Constructs an encoder whose droplet stream is determined by `seed`,
    /// for reproducible runs.  Otherwise as `new`.
    pub fn with_seed(
        data: Vec<u8>,
        blocksize: usize,
        encodertype: EncoderType,
        seed: usize,
    ) -> (r: Result<Encoder, LtError>)
        ensures
            match r {
                Ok(enc) => {
                    &&& data@.len() >= 1
                    &&& blocksize >= 1
                    &&& enc.wf()
                    &&& enc.payload() == data@
                    &&& enc.block_size() == blocksize
                    &&& enc.chunk_count() == spec_chunk_count(data@.len() as int, blocksize as int)
                    &&& enc.count() == 0
                    &&& (enc.in_systematic_prefix() <==> encodertype is Systematic)
                },
                Err(e) => e == LtError::InvalidArgument && (data@.len() == 0 || blocksize == 0),
            },
    {
        let rng = rng_from_seed(seed);
        Encoder::from_rng(data, blocksize, encodertype, rng)
    }

    /// Emits the next droplet; the stream is infinite and never fails.
    ///
    /// While the encoder is in the systematic prefix the droplet carries the
    /// raw chunk at the cursor; otherwise the droplet is the XOR of the
    /// chunks selected by a fresh seed and a Soliton degree.  Either way the
    /// droplet's payload is exactly the XOR of the source chunks its
    /// neighbor set selects.
    pub fn next(&mut self) -> (d: Droplet)
        requires
            old(self).wf(),
            old(self).count() < usize::MAX,
        ensures
            final(self).wf(),
            final(self).payload() == old(self).payload(),
            final(self).block_size() == old(self).block_size(),
            final(self).chunk_count() == old(self).chunk_count(),
            final(self).count() == old(self).count() + 1,
            droplet_matches(d, old(self).payload(), old(self).block_size(), old(self).chunk_count()),
            droplet_acceptable(d, old(self).block_size(), old(self).chunk_count()),
            old(self).in_systematic_prefix() ==> (match d.droptype {
                DropType::Edges(e) => e@ == seq![old(self).count()],
                DropType::Seeded(_, _) => false,
            }) && d.data@ == chunk_bytes(
                old(self).payload(),
                old(self).block_size() as int,
                old(self).count() as int,
            ),
            // the systematic prefix covers exactly the first `k` droplets
            old(self).in_systematic_prefix() ==> (final(self).in_systematic_prefix() <==> old(
                self,
            ).count() + 1 < old(self).chunk_count()),
            !old(self).in_systematic_prefix() ==> !final(self).in_systematic_prefix() && (match d.droptype {
                DropType::Seeded(_, degree) => 1 <= degree && degree <= old(self).chunk_count(),
                DropType::Edges(_) => false,
            }),
    {
        let ghost bsg = old(self).blocksize as int;
        let ghost kg = old(self).cnt_blocks as int;
        let ghost pay = self.data@;
        proof {
            lemma_chunk_count_bounds(self.len as int, self.blocksize as int);
        }
        let drop: Droplet = match self.encodertype {
            EncoderType::Random => {
                let degree = self.sol.next();
                let seed = rng_next_u32(&mut self.rng) as usize;
                let sample = get_sample_from_rng_by_seed(seed, self.cnt_blocks, degree);
                let mut r = zero_vec(self.blocksize);
                let mut si: usize = 0;
                while si < sample.len()
                    invariant
                        si <= sample@.len(),
                        bsg == self.blocksize as int,
                        kg == self.cnt_blocks as int,
                        pay == self.data@,
                        self.len == self.data@.len(),
                        self.blocksize >= 1,
                        (kg - 1) * bsg < self.len,
                        self.len >= 1,
                        forall|x: int| 0 <= x < sample@.len() ==> (#[trigger] sample@[x]) < kg,
                        r@ == xor_chunks(pay, bsg, sample@.take(si as int)),
                        r@.len() == bsg,
                    decreases sample@.len() - si,
                {
                    let ki = sample[si];
                    proof {
                        assert((ki as int) * bsg < self.len as int) by (nonlinear_arith)
                            requires
                                0 <= ki as int,
                                (ki as int) < kg,
                                bsg >= 1,
                                (kg - 1) * bsg < self.len,
                        ;
                    }
                    xor_chunk_with(&mut r, &self.data, self.blocksize, ki);
                    proof {
                        lemma_xor_chunks_take_step(pay, bsg, sample@, si as int);
                        assert(sample@.take(si as int + 1).drop_last() =~= sample@.take(si as int));
                    }
                    si = si + 1;
                }
                proof {
                    assert(sample@.take(sample@.len() as int) =~= sample@);
                }
                Droplet::new(DropType::Seeded(seed, degree), r)
            },
            EncoderType::Systematic => {
                let cursor = self.cnt;
                let mut r = zero_vec(self.blocksize);
                proof {
                    assert((cursor as int) * bsg < self.len as int) by (nonlinear_arith)
                        requires
                            0 <= cursor as int,
                            (cursor as int) < kg,
                            bsg >= 1,
                            (kg - 1) * bsg < self.len,
                    ;
                }
                xor_chunk_with(&mut r, &self.data, self.blocksize, cursor);
                proof {
                    lemma_xor_bytes_zero(chunk_bytes(pay, bsg, cursor as int));
                    assert(r@ == chunk_bytes(pay, bsg, cursor as int));
                    lemma_xor_chunks_singleton(pay, bsg, cursor);
                }
                let mut edges: Vec<usize> = Vec::new();
                edges.push(cursor);
                proof {
                    assert(edges@ =~= seq![cursor]);
                }
                if self.cnt_blocks - self.cnt <= 1 {
                    self.encodertype = EncoderType::Random;
                }
                Droplet::new(DropType::Edges(edges), r)
            },
        };
        self.cnt = self.cnt + 1;
        drop
    }
}

/// Progress report returned with every catch.
#[derive(Clone, Copy, Debug)]
pub struct Statistics {
    /// Droplets received so far.
    pub cnt_droplets: usize,
    /// Number of source chunks `k`.
    pub cnt_chunks: usize,
    /// Reception overhead so far, in percent, rounded down:
    /// `100 * cnt_droplets / cnt_chunks`.
    pub overhead: u128,
    /// Chunks not yet reconstructed.
    pub unknown_chunks: usize,
}

/// Outcome of feeding one droplet to the decoder.
#[derive(Debug)]
pub enum CatchResult {
    /// Every chunk is known: the reconstructed payload, truncated to its
    /// exact length, plus statistics.
    Finished(Vec<u8>, Statistics),
    /// Chunks are still missing; keep feeding droplets.
    Missing(Statistics),
}

/// A received droplet while it is pending: the neighbor indices that are
/// still unresolved, and the payload with every already-known chunk XORed
/// out.
struct RxDroplet {
    edges_idx: Vec<usize>,
    data: Vec<u8>,
}

/// Decoder-side state of one source chunk.
struct Block {
    idx: usize,
    edges: Vec<usize>,
    begin_at: usize,
    is_known: bool,
}

/// Arena slot `j` is on the peeling worklist.
spec fn queued(drops: Seq<usize>, j: int) -> bool {
    exists|x: int| 0 <= x < drops.len() && (#[trigger] drops[x]) as int == j
}

spec fn count_unknown(s: Seq<Block>) -> int
    decreases s.len(),
{
    if s.len() == 0 {
        0
    } else {
        count_unknown(s.drop_last()) + if s.last().is_known {
            0int
        } else {
            1int
        }
    }
}

proof fn lemma_count_unknown_bounds(s: Seq<Block>)
    ensures
        0 <= count_unknown(s) <= s.len(),
    decreases s.len(),
{
    if s.len() > 0 {
        lemma_count_unknown_bounds(s.drop_last());
    }
}

proof fn lemma_count_unknown_congruent(s: Seq<Block>, t: Seq<Block>)
    requires
        s.len() == t.len(),
        forall|j: int| 0 <= j < s.len() ==> s[j].is_known == t[j].is_known,
    ensures
        count_unknown(s) == count_unknown(t),
    decreases s.len(),
{
    if s.len() > 0 {
        lemma_count_unknown_congruent(s.drop_last(), t.drop_last());
    }
}

proof fn lemma_count_unknown_flip(s: Seq<Block>, t: Seq<Block>, i: int)
    requires
        s.len() == t.len(),
        0 <= i < s.len(),
        forall|j: int| 0 <= j < s.len() && j != i ==> s[j].is_known == t[j].is_known,
        !s[i].is_known,
        t[i].is_known,
    ensures
        count_unknown(t) == count_unknown(s) - 1,
    decreases s.len(),
{
    if i == s.len() - 1 {
        lemma_count_unknown_congruent(s.drop_last(), t.drop_last());
    } else {
        lemma_count_unknown_flip(s.drop_last(), t.drop_last(), i);
    }
}

proof fn lemma_count_unknown_zero(s: Seq<Block>)
    requires
        count_unknown(s) == 0,
    ensures
        forall|j: int| 0 <= j < s.len() ==> s[j].is_known,
    decreases s.len(),
{
    if s.len() > 0 {
        lemma_count_unknown_bounds(s.drop_last());
        lemma_count_unknown_zero(s.drop_last());
        assert forall|j: int| 0 <= j < s.len() implies s[j].is_known by {
            if j < s.len() - 1 {
                assert(s.drop_last()[j].is_known);
            }
        }
    }
}

proof fn lemma_count_unknown_all(s: Seq<Block>)
    requires
        forall|j: int| 0 <= j < s.len() ==> !s[j].is_known,
    ensures
        count_unknown(s) == s.len(),
    decreases s.len(),
{
    if s.len() > 0 {
        lemma_count_unknown_all(s.drop_last());
    }
}

proof fn lemma_evolves_trans(a: Decoder, b: Decoder, c: Decoder)
    requires
        b.evolves_from(a),
        c.evolves_from(b),
    ensures
        c.evolves_from(a),
{
    assert forall|i: int|
        0 <= i < a.number_of_chunks && (#[trigger] a.blocks@[i]).is_known implies c.blocks@[
        i
    ].is_known && chunk_at(c.data@, a.blocksize as int, i) == chunk_at(
        a.data@,
        a.blocksize as int,
        i,
    ) by {
        assert(b.blocks@[i].is_known);
    }
}

/// Online belief-propagation decoder for the Luby transform.
pub struct Decoder {
    total_length: usize,
    blocksize: usize,
    unknown_chunks: usize,
    number_of_chunks: usize,
    cnt_received_drops: usize,
    blocks: Vec<Block>,
    arena: Vec<RxDroplet>,
    data: Vec<u8>,
}

impl Decoder {
    /// Exact payload length the decoder reconstructs.
    pub closed spec fn total_len(self) -> usize {
        self.total_length
    }

    /// Bytes per chunk.
    pub closed spec fn block_size(self) -> usize {
        self.blocksize
    }

    /// Number of source chunks `k`.
    pub closed spec fn chunk_count(self) -> usize {
        self.number_of_chunks
    }

    /// Droplets received so far.
    pub closed spec fn received(self) -> usize {
        self.cnt_received_drops
    }

    /// Chunks not yet reconstructed.
    pub closed spec fn unknown(self) -> usize {
        self.unknown_chunks
    }

    /// Whether chunk `i` has been reconstructed.
    pub closed spec fn known(self, i: int) -> bool {
        self.blocks@[i].is_known
    }

    /// The decoder is complete once every chunk is known; it stays complete.
    pub closed spec fn complete(self) -> bool {
        self.unknown_chunks == 0
    }

    /// The reconstruction buffer truncated to the exact payload length.
    pub closed spec fn decoded(self) -> Seq<u8> {
        self.data@.take(self.total_length as int)
    }

    /// Peeling is at a fixed point: no received droplet still pending has
    /// exactly one remaining edge to an unresolved chunk.  Holds between
    /// `catch` calls; `catch` runs the peeling cascade to completion.
    pub closed spec fn peeled(self) -> bool {
        forall|j: int| 0 <= j < self.arena@.len() ==> #[trigger] self.slot_peeled(j)
    }

    spec fn slot_peeled(self, j: int) -> bool {
        !(self.arena@[j].edges_idx@.len() == 1 && !self.blocks@[
            self.arena@[j].edges_idx@[0] as int
        ].is_known)
    }

    /// No received droplet is still pending: every arena entry has an empty
    /// remaining neighbor set.
    pub closed spec fn no_pending(self) -> bool {
        forall|j: int| 0 <= j < self.arena@.len() ==> (#[trigger] self.arena@[j]).edges_idx@.len()
            == 0
    }

    /// Every received droplet except the one in arena slot `di` is spent:
    /// its remaining neighbor set is empty.
    spec fn pending_only(self, di: int) -> bool {
        forall|j: int|
            0 <= j < self.arena@.len() && j != di ==> (#[trigger] self.arena@[j]).edges_idx@.len()
                == 0
    }

    /// Chunk `se`'s pending list only carries droplets older than `di`.
    spec fn scen_list_fresh(self, se: int, di: usize) -> bool {
        forall|x: int|
            0 <= x < self.blocks@[se].edges@.len() ==> (#[trigger] self.blocks@[se].edges@[x]) < di
    }

    /// Chunk `se`'s pending list carries droplet `di` last, after older ones.
    spec fn scen_list_queued(self, se: int, di: usize) -> bool {
        &&& self.blocks@[se].edges@.len() >= 1
        &&& self.blocks@[se].edges@.last() == di
        &&& forall|x: int|
            0 <= x < self.blocks@[se].edges@.len() - 1 ==> (#[trigger] self.blocks@[
                se
            ].edges@[x]) < di
    }

    /// Against state `pre`, exactly chunk `se` has newly been resolved.
    spec fn scen_resolved(self, pre: Decoder, se: int) -> bool {
        &&& self.blocks@[se].is_known
        &&& self.unknown_chunks as int == pre.unknown_chunks as int - 1
        &&& forall|j: int|
            0 <= j < self.number_of_chunks && j != se ==> (#[trigger] self.blocks@[j]).is_known
                == pre.blocks@[j].is_known
    }

    /// Against state `pre`, nothing has been resolved yet.
    spec fn scen_same(self, pre: Decoder) -> bool {
        &&& self.unknown_chunks == pre.unknown_chunks
        &&& forall|j: int|
            0 <= j < self.number_of_chunks ==> (#[trigger] self.blocks@[j]).is_known
                == pre.blocks@[j].is_known
    }

    spec fn slot_wf(self, j: int) -> bool {
        &&& self.arena@[j].data@.len() == self.blocksize
        &&& forall|x: int|
            0 <= x < self.arena@[j].edges_idx@.len() ==> (#[trigger] self.arena@[j].edges_idx@[x])
                < self.number_of_chunks
    }

    spec fn block_wf(self, i: int) -> bool {
        &&& self.blocks@[i].idx == i
        &&& self.blocks@[i].begin_at == i * self.blocksize
        &&& forall|x: int|
            0 <= x < self.blocks@[i].edges@.len() ==> (#[trigger] self.blocks@[i].edges@[x])
                < self.arena@.len()
    }

    /// Structural well-formedness: geometry of buffer, chunk table and
    /// pending-droplet arena, and the unknown-chunk counter.
    pub closed spec fn wf(self) -> bool {
        &&& self.blocksize >= 1
        &&& self.total_length >= 1
        &&& self.number_of_chunks == spec_chunk_count(
            self.total_length as int,
            self.blocksize as int,
        )
        &&& self.number_of_chunks >= 1
        &&& self.number_of_chunks * self.blocksize <= usize::MAX
        &&& self.data@.len() == self.number_of_chunks * self.blocksize
        &&& self.blocks@.len() == self.number_of_chunks
        &&& forall|i: int| 0 <= i < self.number_of_chunks ==> #[trigger] self.block_wf(i)
        &&& forall|j: int| 0 <= j < self.arena@.len() ==> #[trigger] self.slot_wf(j)
        &&& self.unknown_chunks == count_unknown(self.blocks@)
    }

    /// The decoder's state is consistent with source payload `p`: every
    /// reconstructed chunk holds the true chunk of `p`, and every received
    /// droplet's remaining payload is the XOR of the true chunks its
    /// remaining neighbor set selects.
    pub closed spec fn consistent_with(self, p: Seq<u8>) -> bool {
        &&& p.len() == self.total_length
        &&& forall|i: int|
            0 <= i < self.number_of_chunks && (#[trigger] self.blocks@[i]).is_known ==> chunk_at(
                self.data@,
                self.blocksize as int,
                i,
            ) == chunk_bytes(p, self.blocksize as int, i)
        &&& forall|j: int|
            0 <= j < self.arena@.len() ==> (#[trigger] self.arena@[j]).data@ == xor_chunks(
                p,
                self.blocksize as int,
                self.arena@[j].edges_idx@,
            )
    }

    /// The decoder only ever grows its knowledge: chunks stay known with
    /// unchanged contents, the geometry and the received count stay fixed.
    spec fn evolves_from(self, pre: Decoder) -> bool {
        &&& self.wf()
        &&& self.total_length == pre.total_length
        &&& self.blocksize == pre.blocksize
        &&& self.number_of_chunks == pre.number_of_chunks
        &&& self.cnt_received_drops == pre.cnt_received_drops
        &&& self.unknown_chunks <= pre.unknown_chunks
        &&& self.arena@.len() >= pre.arena@.len()
        &&& forall|i: int|
            0 <= i < pre.number_of_chunks && (#[trigger] pre.blocks@[i]).is_known ==> self.blocks@[
                i
            ].is_known && chunk_at(self.data@, pre.blocksize as int, i) == chunk_at(
                pre.data@,
                pre.blocksize as int,
                i,
            )
    }

    /// Creates a decoder for a payload of exact length `len`, cut into
    /// chunks of `blocksize` bytes.  Rejects a zero length or blocksize, and
    /// a geometry whose reconstruction buffer would not fit in memory, with
    /// `InvalidArgument`.
    pub fn new(len: usize, blocksize: usize) -> (r: Result<Decoder, LtError>)
        ensures
            match r {
                Ok(d) => {
                    &&& len >= 1
                    &&& blocksize >= 1
                    &&& d.wf()
                    &&& d.total_len() == len
                    &&& d.block_size() == blocksize
                    &&& d.chunk_count() == spec_chunk_count(len as int, blocksize as int)
                    &&& d.received() == 0
                    &&& d.unknown() == d.chunk_count()
                    &&& !d.complete()
                    &&& (d.complete() <==> d.unknown() == 0)
                    &&& d.peeled()
                    &&& d.no_pending()
                    &&& forall|i: int| 0 <= i < d.chunk_count() ==> !d.known(i)
                    &&& forall|p: Seq<u8>| p.len() == len ==> d.consistent_with(p)
                },
                Err(e) => {
                    &&& e == LtError::InvalidArgument
                    &&& (len == 0 || blocksize == 0 || spec_chunk_count(
                        len as int,
                        blocksize as int,
                    ) * blocksize > usize::MAX)
                },
            },
    {
        if len == 0 || blocksize == 0 {
            return Err(LtError::InvalidArgument);
        }
        let number_of_chunks = chunk_count_exec(len, blocksize);
        let cap = usize::MAX / blocksize;
        let ghost umax: int = usize::MAX as int;
        let ghost mrem: int = umax % (blocksize as int);
        let ghost bsg: int = blocksize as int;
        let ghost capg: int = cap as int;
        let ghost kg: int = number_of_chunks as int;
        proof {
            lemma_fundamental_div_mod(umax, bsg);
        }
        if number_of_chunks > cap {
            proof {
                assert(kg * bsg > umax) by (nonlinear_arith)
                    requires
                        umax == bsg * capg + mrem,
                        0 <= mrem,
                        mrem < bsg,
                        kg >= capg + 1,
                        bsg >= 1,
                ;
            }
            return Err(LtError::InvalidArgument);
        }
        proof {
            assert(kg * bsg <= umax) by (nonlinear_arith)
                requires
                    umax == bsg * capg + mrem,
                    0 <= mrem,
                    kg <= capg,
                    bsg >= 1,
            ;
        }
        let total = number_of_chunks * blocksize;
        let data = zero_vec(total);
        let mut blocks: Vec<Block> = Vec::new();
        let mut i: usize = 0;
        while i < number_of_chunks
            invariant
                i <= number_of_chunks,
                number_of_chunks * blocksize <= usize::MAX,
                blocks@.len() == i,
                forall|j: int|
                    0 <= j < i ==> (#[trigger] blocks@[j]).idx == j && blocks@[j].begin_at == j
                        * blocksize && blocks@[j].edges@.len() == 0 && !blocks@[j].is_known,
            decreases number_of_chunks - i,
        {
            proof {
                assert(i * blocksize <= number_of_chunks * blocksize) by (nonlinear_arith)
                    requires
                        0 <= i <= number_of_chunks,
                        blocksize >= 0,
                ;
            }
            let begin = i * blocksize;
            blocks.push(Block { idx: i, edges: Vec::new(), begin_at: begin, is_known: false });
            i = i + 1;
        }
        proof {
            lemma_count_unknown_all(blocks@);
        }
        let d = Decoder {
            total_length: len,
            blocksize,
            unknown_chunks: number_of_chunks,
            number_of_chunks,
            cnt_received_drops: 0,
            blocks,
            arena: Vec::new(),
            data,
        };
        assert forall|p: Seq<u8>| p.len() == len implies d.consistent_with(p) by {}
        Ok(d)
    }

    /// One elimination step of peeling: XOR the reconstructed chunk `ed` out
    /// of pending droplet `d` and drop that edge.  Does nothing if the
    /// droplet no longer carries the edge.
    fn absorb_known(&mut self, d: usize, ed: usize)
        requires
            old(self).wf(),
            d < old(self).arena@.len(),
            ed < old(self).number_of_chunks,
            old(self).blocks@[ed as int].is_known,
        ensures
            final(self).wf(),
            final(self).total_length == old(self).total_length,
            final(self).blocksize == old(self).blocksize,
            final(self).number_of_chunks == old(self).number_of_chunks,
            final(self).cnt_received_drops == old(self).cnt_received_drops,
            final(self).unknown_chunks == old(self).unknown_chunks,
            final(self).blocks@ == old(self).blocks@,
            final(self).data@ == old(self).data@,
            final(self).arena@.len() == old(self).arena@.len(),
            forall|j: int|
                0 <= j < old(self).arena@.len() && j != d ==> final(self).arena@[j] == old(
                    self,
                ).arena@[j],
            final(self).arena@[d as int].edges_idx@.len() <= old(self).arena@[
                d as int
            ].edges_idx@.len(),
            (old(self).arena@[d as int].edges_idx@.len() == 1 && old(self).arena@[
                d as int
            ].edges_idx@[0] == ed) ==> final(self).arena@[d as int].edges_idx@.len() == 0,
            forall|p: Seq<u8>|
                old(self).consistent_with(p) ==> #[trigger] final(self).consistent_with(p),
    {
        let ghost bsg = old(self).blocksize as int;
        let ghost kg = old(self).number_of_chunks as int;
        let bs = self.blocksize;
        proof {
            assert(self.block_wf(ed as int));
            assert(self.slot_wf(d as int));
            assert(0 <= (ed as int) * bsg && (ed as int) * bsg + bsg <= kg * bsg)
                by (nonlinear_arith)
                requires
                    0 <= ed as int,
                    (ed as int) < kg,
                    bsg >= 1,
            ;
        }
        let begin = self.blocks[ed].begin_at;
        let pos_opt = find_pos(&self.arena[d].edges_idx, ed);
        if let Some(pos) = pos_opt {
            let ghost oe = self.arena@[d as int].edges_idx@;
            let ghost od = self.arena@[d as int].data@;
            xor_with(&mut self.arena[d].data, &self.data, begin);
            self.arena[d].edges_idx.remove(pos);
            proof {
                let nd = self.arena@[d as int].data@;
                let ne = self.arena@[d as int].edges_idx@;
                assert(ne == oe.remove(pos as int));
                assert(nd == xor_bytes(od, chunk_at(old(self).data@, bsg, ed as int)));
                assert forall|j: int| 0 <= j < self.arena@.len() implies self.slot_wf(j) by {
                    assert(old(self).slot_wf(j));
                    if j == d {
                        assert forall|x: int| 0 <= x < ne.len() implies (#[trigger] ne[x])
                            < self.number_of_chunks by {
                            if x < pos {
                                assert(ne[x] == oe[x]);
                            } else {
                                assert(ne[x] == oe[x + 1]);
                            }
                        }
                    }
                }
                assert forall|i: int| 0 <= i < kg implies self.block_wf(i) by {
                    assert(old(self).block_wf(i));
                }
                assert(self.wf());
                assert forall|p: Seq<u8>|
                    old(self).consistent_with(p) implies #[trigger] self.consistent_with(p) by {
                    assert(od == xor_chunks(p, bsg, oe));
                    assert(chunk_at(old(self).data@, bsg, ed as int) == chunk_bytes(
                        p,
                        bsg,
                        ed as int,
                    ));
                    lemma_xor_chunks_remove(p, bsg, oe, pos as int);
                    assert(oe[pos as int] == ed);
                    assert(nd == xor_chunks(p, bsg, ne));
                }
            }
        }
    }

    /// The peeling routine: runs the worklist of possibly-resolvable pending
    /// droplets to a fixed point.  Chain reactions are driven by the explicit
    /// worklist, never by recursion.
    #[verifier::loop_isolation(false)]
    fn process_droplet(&mut self, droplet: RxDroplet)
        requires
            old(self).wf(),
            old(self).peeled(),
            droplet.data@.len() == old(self).blocksize,
            forall|x: int|
                0 <= x < droplet.edges_idx@.len() ==> droplet.edges_idx@[x] < old(
                    self,
                ).number_of_chunks,
        ensures
            final(self).peeled(),
            final(self).evolves_from(*old(self)),
            forall|p: Seq<u8>|
                old(self).consistent_with(p) && droplet.data@ == xor_chunks(
                    p,
                    old(self).blocksize as int,
                    droplet.edges_idx@,
                ) ==> #[trigger] final(self).consistent_with(p),
            (old(self).no_pending() && droplet.edges_idx@.len() == 1 && !old(self).blocks@[
                droplet.edges_idx@[0] as int
            ].is_known) ==> final(self).no_pending() && final(self).scen_resolved(
                *old(self),
                droplet.edges_idx@[0] as int,
            ),
    {
        let ghost g_edges = droplet.edges_idx@;
        let ghost g_data = droplet.data@;
        let ghost bsg = old(self).blocksize as int;
        let ghost kg = old(self).number_of_chunks as int;
        let ghost scen = old(self).no_pending() && g_edges.len() == 1 && !old(self).blocks@[
            g_edges[0] as int
        ].is_known;
        let ghost se: int = if g_edges.len() >= 1 {
            g_edges[0] as int
        } else {
            0
        };

        let di = self.arena.len();
        self.arena.push(droplet);
        proof {
            assert forall|j: int| 0 <= j < self.arena@.len() implies self.slot_wf(j) by {
                if j < di {
                    assert(old(self).slot_wf(j));
                }
            }
            assert forall|i: int| 0 <= i < kg implies self.block_wf(i) by {
                assert(old(self).block_wf(i));
            }
            assert(self.wf());
            assert(self.evolves_from(*old(self)));
            assert forall|p: Seq<u8>|
                old(self).consistent_with(p) && g_data == xor_chunks(
                    p,
                    bsg,
                    g_edges,
                ) implies #[trigger] self.consistent_with(p) by {
                assert forall|j: int|
                    0 <= j < self.arena@.len() implies (#[trigger] self.arena@[j]).data@
                    == xor_chunks(p, bsg, self.arena@[j].edges_idx@) by {
                    if j < di {
                        assert(old(self).arena@[j].data@ == xor_chunks(
                            p,
                            bsg,
                            old(self).arena@[j].edges_idx@,
                        ));
                    }
                }
            }
        }
        let mut drops: Vec<usize> = Vec::new();
        drops.push(di);
        proof {
            if scen {
                assert(0 <= se < kg);
                assert(old(self).block_wf(se));
                assert(self.scen_list_fresh(se, di));
                assert(self.scen_same(*old(self)));
            }
            assert(drops@[0] == di);
            assert(queued(drops@, di as int));
            assert forall|j: int|
                0 <= j < self.arena@.len() && !queued(drops@, j) implies self.slot_peeled(
                j,
            ) by {
                assert(j != di);
                assert(old(self).slot_peeled(j));
            }
        }

        while drops.len() > 0
            invariant
                self.evolves_from(*old(self)),
                bsg == self.blocksize as int,
                kg == self.number_of_chunks as int,
                di <= self.arena@.len(),
                0 <= se < kg || !scen,
                forall|j: int|
                    0 <= j < self.arena@.len() && !queued(drops@, j)
                        ==> #[trigger] self.slot_peeled(j),
                forall|x: int| 0 <= x < drops@.len() ==> (#[trigger] drops@[x]) < self.arena@.len(),
                forall|p: Seq<u8>|
                    old(self).consistent_with(p) && g_data == xor_chunks(p, bsg, g_edges)
                        ==> #[trigger] self.consistent_with(p),
                scen ==> di < self.arena@.len() && self.pending_only(di as int) && ((
                self.scen_same(*old(self)) && !self.blocks@[se].is_known && drops@.len() == 1
                    && drops@[0] == di && self.arena@[di as int].edges_idx@ == g_edges
                    && self.scen_list_fresh(se, di)) || (self.scen_resolved(*old(self), se) && (
                drops@.len() == 0 || (drops@.len() == 1 && drops@[0] == di)) && (self.arena@[
                    di as int
                ].edges_idx@ == g_edges || self.arena@[di as int].edges_idx@.len() == 0) && (
                drops@.len() == 0 ==> self.arena@[di as int].edges_idx@.len() == 0))),
            decreases self.unknown_chunks, drops@.len(),
        {
            let dlen = drops.len();
            let d = drops[dlen - 1];
            let ghost drops_pre = drops@;
            let _ = drops.pop();
            let ghost drops0 = drops@;
            let ghost unknown0 = self.unknown_chunks;

            // Step A: eliminate known neighbors, register at unknown ones.
            proof {
                if scen {
                    assert(d == di);
                }
                assert forall|j: int|
                    0 <= j < self.arena@.len() && !queued(drops@, j) && j != d
                        as int implies self.slot_peeled(j) by {
                    if queued(drops_pre, j) {
                        let x = choose|x: int|
                            0 <= x < drops_pre.len() && drops_pre[x] as int == j;
                        if x < drops_pre.len() - 1 {
                            assert(drops@[x] as int == j);
                            assert(queued(drops@, j));
                        } else {
                            assert(drops_pre[x] == d);
                            assert(j == d as int);
                        }
                    }
                }
            }
            let snapshot = copy_indices(&self.arena[d].edges_idx);
            proof {
                assert(self.slot_wf(d as int));
            }
            let mut ei: usize = 0;
            while ei < snapshot.len()
                invariant
                    self.evolves_from(*old(self)),
                    bsg == self.blocksize as int,
                    kg == self.number_of_chunks as int,
                    d < self.arena@.len(),
                    di <= self.arena@.len(),
                    0 <= se < kg || !scen,
                    ei <= snapshot@.len(),
                    forall|x: int| 0 <= x < snapshot@.len() ==> (#[trigger] snapshot@[x]) < kg,
                    forall|x: int|
                        0 <= x < drops@.len() ==> (#[trigger] drops@[x]) < self.arena@.len(),
                    forall|j: int|
                        0 <= j < self.arena@.len() && !queued(drops@, j) && j != d as int
                            ==> #[trigger] self.slot_peeled(j),
                    drops@ == drops0,
                    self.unknown_chunks == unknown0,
                    forall|p: Seq<u8>|
                        old(self).consistent_with(p) && g_data == xor_chunks(p, bsg, g_edges)
                            ==> #[trigger] self.consistent_with(p),
                    scen ==> d == di && di < self.arena@.len() && drops@.len() == 0
                        && self.pending_only(di as int) && ((self.scen_same(*old(self))
                        && !self.blocks@[se].is_known && snapshot@ == g_edges && self.arena@[
                        di as int
                    ].edges_idx@ == g_edges && (ei == 0 ==> self.scen_list_fresh(se, di)) && (ei
                        >= 1 ==> self.scen_list_queued(se, di))) || (self.scen_resolved(
                        *old(self),
                        se,
                    ) && (snapshot@ == g_edges || snapshot@.len() == 0) && (ei == 0
                        ==> self.arena@[di as int].edges_idx@ == snapshot@) && ((ei >= 1
                        || snapshot@.len() == 0) ==> self.arena@[di as int].edges_idx@.len()
                        == 0))),
                decreases snapshot@.len() - ei,
            {
                let ed = snapshot[ei];
                if self.blocks[ed].is_known {
                    let ghost mid = *self;
                    self.absorb_known(d, ed);
                    proof {
                        assert(self.evolves_from(mid));
                        lemma_evolves_trans(*old(self), mid, *self);
                        assert forall|p: Seq<u8>|
                            old(self).consistent_with(p) && g_data == xor_chunks(
                                p,
                                bsg,
                                g_edges,
                            ) implies #[trigger] self.consistent_with(p) by {
                            assert(mid.consistent_with(p));
                        }
                        assert forall|j: int|
                            0 <= j < self.arena@.len() && !queued(drops@, j) && j != d
                                as int implies self.slot_peeled(j) by {
                            assert(mid.slot_peeled(j));
                            assert(self.arena@[j] == mid.arena@[j]);
                        }
                        if scen {
                            // the edge was known, so the chunk is already
                            // resolved and this absorbs the droplet's only edge
                            assert(g_edges.len() == 1);
                            assert(snapshot@ == g_edges);
                            assert(ei == 0);
                            assert(ed == g_edges[0]);
                            assert(ed as int == se);
                            assert(mid.scen_resolved(*old(self), se));
                            assert(mid.arena@[di as int].edges_idx@ == g_edges);
                            assert(self.arena@[di as int].edges_idx@.len() == 0);
                            assert forall|j: int|
                                0 <= j < self.arena@.len() && j != di implies (
                            #[trigger] self.arena@[j]).edges_idx@.len() == 0 by {
                                assert(mid.arena@[j].edges_idx@.len() == 0);
                            }
                            assert(self.scen_resolved(*old(self), se));
                        }
                    }
                } else {
                    let ghost mid = *self;
                    self.blocks[ed].edges.push(d);
                    proof {
                        let edi = ed as int;
                        assert(self.blocks@[edi].is_known == mid.blocks@[edi].is_known);
                        assert(self.blocks@[edi].idx == mid.blocks@[edi].idx);
                        assert(self.blocks@[edi].begin_at == mid.blocks@[edi].begin_at);
                        assert(self.blocks@[edi].edges@ == mid.blocks@[edi].edges@.push(d));
                        assert(forall|j: int|
                            0 <= j < kg && j != edi ==> self.blocks@[j] == mid.blocks@[j]);
                        lemma_count_unknown_congruent(mid.blocks@, self.blocks@);
                        assert forall|i: int| 0 <= i < kg implies self.block_wf(i) by {
                            assert(mid.block_wf(i));
                            if i == edi {
                                let ne = self.blocks@[edi].edges@;
                                let oe = mid.blocks@[edi].edges@;
                                assert forall|x: int|
                                    0 <= x < ne.len() implies (#[trigger] ne[x])
                                    < self.arena@.len() by {
                                    if x < oe.len() {
                                        assert(ne[x] == oe[x]);
                                    } else {
                                        assert(ne[x] == d);
                                    }
                                }
                            }
                        }
                        assert forall|j: int| 0 <= j < self.arena@.len() implies self.slot_wf(
                            j,
                        ) by {
                            assert(mid.slot_wf(j));
                        }
                        assert(self.wf());
                        assert(self.evolves_from(mid));
                        lemma_evolves_trans(*old(self), mid, *self);
                        assert forall|p: Seq<u8>|
                            old(self).consistent_with(p) && g_data == xor_chunks(
                                p,
                                bsg,
                                g_edges,
                            ) implies #[trigger] self.consistent_with(p) by {
                            assert(mid.consistent_with(p));
                        }
                        assert forall|j: int|
                            0 <= j < self.arena@.len() && !queued(drops@, j) && j != d
                                as int implies self.slot_peeled(j) by {
                            assert(mid.slot_peeled(j));
                            assert(self.arena@[j] == mid.arena@[j]);
                            if self.arena@[j].edges_idx@.len() == 1 {
                                let t = self.arena@[j].edges_idx@[0] as int;
                                assert(mid.slot_wf(j));
                                assert(0 <= t < kg);
                                assert(self.blocks@[t].is_known == mid.blocks@[t].is_known);
                            }
                        }
                        if scen {
                            // the edge was unknown, so nothing is resolved yet
                            // and the droplet is now queued at its only chunk
                            assert(g_edges.len() == 1);
                            assert(snapshot@ == g_edges);
                            assert(ei == 0);
                            assert(ed == g_edges[0]);
                            assert(ed as int == se);
                            assert(mid.scen_same(*old(self)));
                            assert(self.scen_same(*old(self)));
                            assert(mid.scen_list_fresh(se, di));
                            assert(self.blocks@[se].edges@ == mid.blocks@[se].edges@.push(d));
                            assert(self.blocks@[se].edges@.last() == di);
                            assert forall|x: int|
                                0 <= x < self.blocks@[se].edges@.len() - 1 implies (
                            #[trigger] self.blocks@[se].edges@[x]) < di by {
                                assert(self.blocks@[se].edges@[x] == mid.blocks@[se].edges@[x]);
                            }
                            assert(self.scen_list_queued(se, di));
                            assert forall|j: int|
                                0 <= j < self.arena@.len() && j != di implies (
                            #[trigger] self.arena@[j]).edges_idx@.len() == 0 by {
                                assert(mid.arena@[j].edges_idx@.len() == 0);
                            }
                        }
                    }
                }
                ei = ei + 1;
            }

            // Step B: if exactly one unknown neighbor remains, resolve it.
            if self.arena[d].edges_idx.len() == 1 {
                proof {
                    assert(self.slot_wf(d as int));
                }
                let i = self.arena[d].edges_idx[0];
                if !self.blocks[i].is_known {
                    let ghost mid = *self;
                    let ghost d_edges = self.arena@[d as int].edges_idx@;
                    let begin = self.blocks[i].begin_at;
                    proof {
                        assert(self.block_wf(i as int));
                        assert(0 <= (i as int) * bsg && (i as int) * bsg + bsg <= kg * bsg)
                            by (nonlinear_arith)
                            requires
                                0 <= i as int,
                                (i as int) < kg,
                                bsg >= 1,
                        ;
                    }
                    let src = copy_bytes(&self.arena[d].data);
                    write_at(&mut self.data, begin, &src);
                    self.blocks[i].is_known = true;
                    proof {
                        let ii = i as int;
                        assert(self.blocks@[ii].is_known);
                        assert(self.blocks@[ii].idx == mid.blocks@[ii].idx);
                        assert(self.blocks@[ii].begin_at == mid.blocks@[ii].begin_at);
                        assert(self.blocks@[ii].edges@ == mid.blocks@[ii].edges@);
                        assert(forall|j: int|
                            0 <= j < kg && j != ii ==> self.blocks@[j] == mid.blocks@[j]);
                        lemma_count_unknown_flip(mid.blocks@, self.blocks@, ii);
                        lemma_count_unknown_bounds(self.blocks@);
                    }
                    self.unknown_chunks = self.unknown_chunks - 1;
                    proof {
                        let ii = i as int;
                        assert forall|b: int| 0 <= b < kg implies self.block_wf(b) by {
                            assert(mid.block_wf(b));
                        }
                        assert forall|j: int| 0 <= j < self.arena@.len() implies self.slot_wf(
                            j,
                        ) by {
                            assert(mid.slot_wf(j));
                        }
                        assert(self.wf());
                        // resolving a chunk keeps every other droplet peeled
                        assert forall|j: int|
                            0 <= j < self.arena@.len() && !queued(drops@, j) && j != d
                                as int implies self.slot_peeled(j) by {
                            assert(mid.slot_peeled(j));
                            assert(self.arena@[j] == mid.arena@[j]);
                            if self.arena@[j].edges_idx@.len() == 1 {
                                let t = self.arena@[j].edges_idx@[0] as int;
                                assert(mid.slot_wf(j));
                                assert(0 <= t < kg);
                                assert(mid.blocks@[t].is_known);
                                assert(self.blocks@[t].is_known);
                            }
                        }
                        // the freshly written chunk holds the droplet's bytes
                        assert forall|x: int| 0 <= x < bsg implies self.data@[ii * bsg + x]
                            == src@[x] by {}
                        assert(chunk_at(self.data@, bsg, ii) =~= src@);
                        // all other chunks kept their bytes
                        assert forall|j: int|
                            0 <= j < kg && j != ii implies chunk_at(self.data@, bsg, j)
                            == chunk_at(mid.data@, bsg, j) by {
                            assert((j + 1) * bsg <= ii * bsg || (ii + 1) * bsg <= j * bsg)
                                by (nonlinear_arith)
                                requires
                                    0 <= j,
                                    j < kg,
                                    0 <= ii,
                                    ii < kg,
                                    j != ii,
                                    bsg >= 1,
                            ;
                            assert((j + 1) * bsg == j * bsg + bsg && (ii + 1) * bsg == ii * bsg
                                + bsg) by (nonlinear_arith);
                            assert(0 <= j * bsg && j * bsg + bsg <= kg * bsg) by (nonlinear_arith)
                                requires
                                    0 <= j,
                                    j < kg,
                                    bsg >= 1,
                            ;
                            assert(chunk_at(self.data@, bsg, j) =~= chunk_at(mid.data@, bsg, j));
                        }
                        assert(self.evolves_from(mid));
                        lemma_evolves_trans(*old(self), mid, *self);
                        assert forall|p: Seq<u8>|
                            old(self).consistent_with(p) && g_data == xor_chunks(
                                p,
                                bsg,
                                g_edges,
                            ) implies #[trigger] self.consistent_with(p) by {
                            assert(mid.consistent_with(p));
                            let e = mid.arena@[d as int].edges_idx@;
                            assert(mid.arena@[d as int].data@ == xor_chunks(p, bsg, e));
                            assert(e =~= seq![i]);
                            lemma_xor_chunks_singleton(p, bsg, i);
                            assert(chunk_at(self.data@, bsg, ii) == chunk_bytes(p, bsg, ii));
                        }
                        if scen {
                            // the resolved chunk is the droplet's only edge
                            assert(g_edges.len() == 1);
                            assert(d == di);
                            assert(mid.arena@[di as int].edges_idx@.len() == 1);
                            assert(mid.arena@[di as int].edges_idx@ == g_edges);
                            assert(i == g_edges[0]);
                            assert(i as int == se);
                            assert(mid.scen_same(*old(self)));
                            assert(self.scen_resolved(*old(self), se));
                            assert(self.blocks@[se].edges@ == mid.blocks@[se].edges@);
                            assert(mid.scen_list_queued(se, di));
                            assert(self.scen_list_queued(se, di));
                            assert forall|j: int|
                                0 <= j < self.arena@.len() && j != di implies (
                            #[trigger] self.arena@[j]).edges_idx@.len() == 0 by {
                                assert(mid.arena@[j].edges_idx@.len() == 0);
                            }
                        }
                    }
                    // Drain the pending list of the resolved chunk.
                    while self.blocks[i].edges.len() > 0
                        invariant
                            self.evolves_from(*old(self)),
                            bsg == self.blocksize as int,
                            kg == self.number_of_chunks as int,
                            (i as int) < kg,
                            self.blocks@[i as int].is_known,
                            self.unknown_chunks as int == unknown0 as int - 1,
                            di <= self.arena@.len(),
                            0 <= se < kg || !scen,
                            d < self.arena@.len(),
                            self.arena@[d as int].edges_idx@ == d_edges,
                            d_edges.len() == 1,
                            d_edges[0] == i,
                            forall|j: int|
                                0 <= j < self.arena@.len() && !queued(drops@, j) && j
                                    != d as int ==> #[trigger] self.slot_peeled(j),
                            forall|x: int|
                                0 <= x < drops@.len() ==> (#[trigger] drops@[x])
                                    < self.arena@.len(),
                            forall|p: Seq<u8>|
                                old(self).consistent_with(p) && g_data == xor_chunks(
                                    p,
                                    bsg,
                                    g_edges,
                                ) ==> #[trigger] self.consistent_with(p),
                            scen ==> d == di && di < self.arena@.len() && i as int == se
                                && self.pending_only(di as int) && self.scen_resolved(
                                *old(self),
                                se,
                            ) && self.arena@[di as int].edges_idx@ == g_edges && ((drops@.len()
                                == 0 && self.scen_list_queued(se, di)) || (drops@.len() == 1
                                && drops@[0] == di && self.scen_list_fresh(se, di))),
                        decreases self.blocks@[i as int].edges@.len(),
                    {
                        let blen = self.blocks[i].edges.len();
                        proof {
                            assert(self.block_wf(i as int));
                        }
                        let e = self.blocks[i].edges[blen - 1];
                        let ghost mid2 = *self;
                        let _ = self.blocks[i].edges.pop();
                        proof {
                            let ii = i as int;
                            assert(self.blocks@[ii].is_known == mid2.blocks@[ii].is_known);
                            assert(self.blocks@[ii].idx == mid2.blocks@[ii].idx);
                            assert(self.blocks@[ii].begin_at == mid2.blocks@[ii].begin_at);
                            assert(self.blocks@[ii].edges@ == mid2.blocks@[
                                ii
                            ].edges@.subrange(0, blen - 1));
                            assert(forall|j: int|
                                0 <= j < kg && j != ii ==> self.blocks@[j] == mid2.blocks@[j]);
                            lemma_count_unknown_congruent(mid2.blocks@, self.blocks@);
                            assert forall|b: int| 0 <= b < kg implies self.block_wf(b) by {
                                assert(mid2.block_wf(b));
                                if b == ii {
                                    let ne = self.blocks@[ii].edges@;
                                    let oe = mid2.blocks@[ii].edges@;
                                    assert forall|x: int|
                                        0 <= x < ne.len() implies (#[trigger] ne[x])
                                        < self.arena@.len() by {
                                        assert(ne[x] == oe[x]);
                                    }
                                }
                            }
                            assert forall|j: int|
                                0 <= j < self.arena@.len() implies self.slot_wf(j) by {
                                assert(mid2.slot_wf(j));
                            }
                            assert(self.wf());
                            assert(self.evolves_from(mid2));
                            lemma_evolves_trans(*old(self), mid2, *self);
                            assert forall|p: Seq<u8>|
                                old(self).consistent_with(p) && g_data == xor_chunks(
                                    p,
                                    bsg,
                                    g_edges,
                                ) implies #[trigger] self.consistent_with(p) by {
                                assert(mid2.consistent_with(p));
                            }
                            assert(e < self.arena@.len());
                            assert forall|j: int|
                                0 <= j < self.arena@.len() && !queued(drops@, j) && j
                                    != d as int implies self.slot_peeled(j) by {
                                assert(mid2.slot_peeled(j));
                                assert(self.arena@[j] == mid2.arena@[j]);
                                if self.arena@[j].edges_idx@.len() == 1 {
                                    let t = self.arena@[j].edges_idx@[0] as int;
                                    assert(mid2.slot_wf(j));
                                    assert(0 <= t < kg);
                                    assert(self.blocks@[t].is_known == mid2.blocks@[t].is_known);
                                }
                            }
                            if scen {
                                assert(g_edges.len() == 1);
                                assert(self.scen_resolved(*old(self), se));
                                assert(self.arena@[di as int].edges_idx@ == g_edges);
                                assert forall|j: int|
                                    0 <= j < self.arena@.len() && j != di implies (
                                #[trigger] self.arena@[j]).edges_idx@.len() == 0 by {
                                    assert(mid2.arena@[j].edges_idx@.len() == 0);
                                }
                                assert forall|x: int|
                                    0 <= x < self.blocks@[se].edges@.len() implies (
                                #[trigger] self.blocks@[se].edges@[x]) < di by {
                                    assert(self.blocks@[se].edges@[x] == mid2.blocks@[
                                        se
                                    ].edges@[x]);
                                    if !mid2.scen_list_queued(se, di) {
                                        assert(mid2.scen_list_fresh(se, di));
                                    }
                                }
                                assert(self.scen_list_fresh(se, di));
                                assert(e == di || e < di) by {
                                    if mid2.scen_list_queued(se, di) {
                                        assert(e == mid2.blocks@[se].edges@.last());
                                    } else {
                                        assert(mid2.scen_list_fresh(se, di));
                                        assert(mid2.blocks@[se].edges@[blen - 1] < di);
                                    }
                                }
                            }
                        }
                        if self.arena[e].edges_idx.len() == 1 {
                            let ghost drops_b = drops@;
                            drops.push(e);
                            proof {
                                if scen {
                                    assert(e == di);
                                }
                                assert(drops@[drops@.len() - 1] == e);
                                assert(queued(drops@, e as int));
                                assert forall|j: int|
                                    0 <= j < self.arena@.len() && !queued(drops@, j)
                                        && j != d as int implies self.slot_peeled(j) by {
                                    if queued(drops_b, j) {
                                        let x = choose|x: int|
                                            0 <= x < drops_b.len() && drops_b[x] as int == j;
                                        assert(drops@[x] as int == j);
                                        assert(queued(drops@, j));
                                    }
                                }
                            }
                        } else {
                            let ghost mid3 = *self;
                            self.absorb_known(e, i);
                            proof {
                                assert(self.evolves_from(mid3));
                                lemma_evolves_trans(*old(self), mid3, *self);
                                assert forall|p: Seq<u8>|
                                    old(self).consistent_with(p) && g_data == xor_chunks(
                                        p,
                                        bsg,
                                        g_edges,
                                    ) implies #[trigger] self.consistent_with(p) by {
                                    assert(mid3.consistent_with(p));
                                }
                                if scen {
                                    assert(e != di);
                                    assert(self.arena@[di as int] == mid3.arena@[di as int]);
                                    assert forall|j: int|
                                        0 <= j < self.arena@.len() && j != di implies (
                                    #[trigger] self.arena@[j]).edges_idx@.len() == 0 by {
                                        if j != e {
                                            assert(self.arena@[j] == mid3.arena@[j]);
                                            assert(mid3.arena@[j].edges_idx@.len() == 0);
                                        } else {
                                            assert(mid3.arena@[j].edges_idx@.len() == 0);
                                        }
                                    }
                                    assert(self.scen_resolved(*old(self), se));
                                    assert(self.blocks@ == mid3.blocks@);
                                    assert(self.scen_list_fresh(se, di));
                                }
                                assert forall|j: int|
                                    0 <= j < self.arena@.len() && !queued(drops@, j)
                                        && j != d as int && j != e as int implies self.slot_peeled(
                                    j,
                                ) by {
                                    assert(mid3.slot_peeled(j));
                                    assert(self.arena@[j] == mid3.arena@[j]);
                                }
                            }
                            if self.arena[e].edges_idx.len() == 1 {
                                let ghost drops_b2 = drops@;
                                drops.push(e);
                                proof {
                                    assert(drops@[drops@.len() - 1] == e);
                                    assert(queued(drops@, e as int));
                                    assert forall|j: int|
                                        0 <= j < self.arena@.len() && !queued(drops@, j)
                                            && j != d as int implies self.slot_peeled(j) by {
                                        if queued(drops_b2, j) {
                                            let x = choose|x: int|
                                                0 <= x < drops_b2.len() && drops_b2[x] as int
                                                    == j;
                                            assert(drops@[x] as int == j);
                                            assert(queued(drops@, j));
                                        }
                                    }
                                }
                            } else {
                                proof {
                                    assert forall|j: int|
                                        0 <= j < self.arena@.len() && !queued(drops@, j)
                                            && j != d as int implies self.slot_peeled(j) by {
                                        if j == e as int {
                                            assert(self.arena@[j].edges_idx@.len() != 1);
                                        }
                                    }
                                }
                            }
                        }
                    }
                }
            }
            proof {
                assert(self.slot_peeled(d as int));
                assert forall|j: int|
                    0 <= j < self.arena@.len() && !queued(drops@, j) implies self.slot_peeled(
                    j,
                ) by {}
            }
        }
        proof {
            if scen {
                assert forall|j: int|
                    0 <= j < self.arena@.len() implies (#[trigger] self.arena@[j]).edges_idx@.len()
                    == 0 by {
                    if j != di {
                        assert(self.arena@[j].edges_idx@.len() == 0);
                    }
                }
                assert(self.no_pending());
            }
            assert forall|j: int| 0 <= j < self.arena@.len() implies self.slot_peeled(j) by {
                assert(!queued(drops@, j));
            }
        }
    }

    /// Catches a droplet: converts it to pending form, peels, and reports
    /// either the fully reconstructed payload or progress statistics.
    ///
    /// A malformed droplet (payload length other than one blocksize, degree
    /// above the chunk count, or a literal neighbor list with a duplicate or
    /// out-of-range index) is rejected with `InvalidDroplet` and leaves the
    /// decoder unchanged.  Any valid droplet is accepted, in any order, also
    /// after completion; once complete, the decoder stays complete and keeps
    /// reporting the same payload.
    pub fn catch(&mut self, drop: Droplet) -> (r: Result<CatchResult, LtError>)
        requires
            old(self).wf(),
            old(self).peeled(),
            old(self).received() < usize::MAX,
        ensures
            final(self).wf(),
            final(self).peeled(),
            final(self).total_len() == old(self).total_len(),
            final(self).block_size() == old(self).block_size(),
            final(self).chunk_count() == old(self).chunk_count(),
            final(self).complete() <==> final(self).unknown() == 0,
            forall|p: Seq<u8>|
                old(self).consistent_with(p) && droplet_matches(
                    drop,
                    p,
                    old(self).block_size(),
                    old(self).chunk_count(),
                ) ==> #[trigger] final(self).consistent_with(p),
            forall|i: int|
                0 <= i < old(self).chunk_count() && old(self).known(i) ==> final(self).known(i),
            final(self).unknown() <= old(self).unknown(),
            old(self).complete() ==> final(self).complete() && final(self).decoded() == old(
                self,
            ).decoded(),
            // Systematic no-loss step: a degree-one droplet fed to an idle
            // decoder resolves exactly the one chunk it names, and the
            // decoder stays idle.
            forall|i: int|
                old(self).no_pending() && #[trigger] singleton_droplet(
                    drop,
                    old(self).chunk_count(),
                    i,
                ) && !old(self).known(i) && r is Ok ==> final(self).no_pending()
                    && final(self).known(i)
                    && final(self).unknown() as int == old(self).unknown() as int - 1
                    && (forall|j: int|
                    0 <= j < old(self).chunk_count() && j != i
                        ==> ((#[trigger] final(self).known(j)) <==> old(self).known(j))),
            match r {
                Err(e) => {
                    &&& e == LtError::InvalidDroplet
                    &&& !droplet_acceptable(drop, old(self).block_size(), old(self).chunk_count())
                    &&& *final(self) == *old(self)
                },
                Ok(cr) => {
                    &&& droplet_acceptable(drop, old(self).block_size(), old(self).chunk_count())
                    &&& final(self).received() == old(self).received() + 1
                    &&& match cr {
                        CatchResult::Finished(out, st) => {
                            &&& final(self).complete()
                            &&& out@ == final(self).decoded()
                            &&& st.cnt_droplets == final(self).received()
                            &&& st.cnt_chunks == final(self).chunk_count()
                            &&& st.unknown_chunks == final(self).unknown()
                            &&& st.overhead as int == (final(self).received() as int * 100) / (
                            final(self).chunk_count() as int)
                        },
                        CatchResult::Missing(st) => {
                            &&& !final(self).complete()
                            &&& st.cnt_droplets == final(self).received()
                            &&& st.cnt_chunks == final(self).chunk_count()
                            &&& st.unknown_chunks == final(self).unknown()
                            &&& st.overhead as int == (final(self).received() as int * 100) / (
                            final(self).chunk_count() as int)
                        },
                    }
                },
            },
    {
        let ghost bsg = old(self).blocksize as int;
        let ghost kg = old(self).number_of_chunks as int;
        let Droplet { droptype, data } = drop;
        if data.len() != self.blocksize {
            return Err(LtError::InvalidDroplet);
        }
        let k = self.number_of_chunks;
        let edges: Vec<usize> = match droptype {
            DropType::Seeded(seed, degree) => {
                if degree > k {
                    return Err(LtError::InvalidDroplet);
                }
                get_sample_from_rng_by_seed(seed, k, degree)
            },
            DropType::Edges(e) => {
                if !all_below(&e, k) {
                    return Err(LtError::InvalidDroplet);
                }
                if has_duplicate(&e) {
                    return Err(LtError::InvalidDroplet);
                }
                e
            },
        };
        self.cnt_received_drops = self.cnt_received_drops + 1;
        let ghost pre = *self;
        proof {
            assert forall|i: int| 0 <= i < kg implies pre.block_wf(i) by {
                assert(old(self).block_wf(i));
            }
            assert forall|j: int| 0 <= j < pre.arena@.len() implies pre.slot_wf(j) by {
                assert(old(self).slot_wf(j));
            }
            assert(pre.wf());
            assert forall|j: int| 0 <= j < pre.arena@.len() implies pre.slot_peeled(j) by {
                assert(old(self).slot_peeled(j));
            }
            assert(pre.peeled());
        }
        let rx = RxDroplet { edges_idx: edges, data };
        let ghost g_rx_edges = rx.edges_idx@;
        let ghost g_rx_data = rx.data@;
        self.process_droplet(rx);
        proof {
            assert(self.evolves_from(pre));
            assert forall|p: Seq<u8>|
                old(self).consistent_with(p) && droplet_matches(
                    drop,
                    p,
                    old(self).block_size(),
                    old(self).chunk_count(),
                ) implies #[trigger] self.consistent_with(p) by {
                assert(pre.consistent_with(p));
                assert(g_rx_data == xor_chunks(p, bsg, g_rx_edges));
            }
            assert forall|i: int|
                old(self).no_pending() && #[trigger] singleton_droplet(
                    drop,
                    old(self).chunk_count(),
                    i,
                ) && !old(self).known(i) implies self.no_pending() && self.known(i)
                && self.unknown() as int == old(self).unknown() as int - 1 && (forall|j: int|
                0 <= j < old(self).chunk_count() && j != i ==> ((#[trigger] self.known(j)) <==> old(
                    self,
                ).known(j))) by {
                assert(pre.no_pending());
                assert(g_rx_edges.len() == 1);
                assert(g_rx_edges[0] as int == i);
                assert(!pre.blocks@[i].is_known);
                assert(self.scen_resolved(pre, i));
            }
            if old(self).unknown_chunks == 0 {
                lemma_count_unknown_zero(pre.blocks@);
                assert forall|i: int|
                    0 <= i < kg implies #[trigger] chunk_at(self.data@, bsg, i) == chunk_at(
                    pre.data@,
                    bsg,
                    i,
                ) by {
                    assert(pre.blocks@[i].is_known);
                }
                lemma_chunks_tile(self.data@, pre.data@, kg, bsg);
                assert(self.data@ == pre.data@);
            }
        }
        let received = self.cnt_received_drops;
        let st = Statistics {
            cnt_droplets: received,
            cnt_chunks: k,
            overhead: (received as u128) * 100 / (k as u128),
            unknown_chunks: self.unknown_chunks,
        };
        if self.unknown_chunks == 0 {
            proof {
                lemma_chunk_count_bounds(self.total_length as int, self.blocksize as int);
            }
            let out = take_prefix(&self.data, self.total_length);
            Ok(CatchResult::Finished(out, st))
        } else {
            Ok(CatchResult::Missing(st))
        }
    }
}

/// Law: completion reconstructs the payload without loss.  Whenever a
/// decoder's state is consistent with a source payload `p` — which feeding
/// it droplets of `p` preserves, see `Decoder::catch` — and every chunk has
/// been resolved, the decoded bytes are exactly `p`: the zero padding of the
/// last chunk never leaks into the output.
pub proof fn lemma_complete_decodes_payload(d: Decoder, p: Seq<u8>)
    requires
        d.wf(),
        d.consistent_with(p),
        d.complete(),
    ensures
        d.decoded() == p,
{
    lemma_count_unknown_zero(d.blocks@);
    let bs = d.blocksize as int;
    let k = d.number_of_chunks as int;
    let ll = d.total_length as int;
    lemma_chunk_count_bounds(ll, bs);
    assert forall|x: int| 0 <= x < ll implies d.data@[x] == p[x] by {
        let i = x / bs;
        let r = x % bs;
        lemma_fundamental_div_mod(x, bs);
        assert(0 <= r) by (nonlinear_arith)
            requires
                x >= 0,
                bs >= 1,
                r == x % bs,
        ;
        assert(r < bs) by (nonlinear_arith)
            requires
                bs >= 1,
                r == x % bs,
        ;
        assert(0 <= i) by (nonlinear_arith)
            requires
                x >= 0,
                bs >= 1,
                i == x / bs,
        ;
        assert(i < k) by (nonlinear_arith)
            requires
                x == bs * i + r,
                0 <= r,
                r < bs,
                x < k * bs,
                bs >= 1,
        ;
        assert(x == i * bs + r) by (nonlinear_arith)
            requires
                x == bs * i + r,
        ;
        assert(0 <= i * bs && i * bs + bs <= k * bs) by (nonlinear_arith)
            requires
                0 <= i,
                i < k,
                bs >= 1,
        ;
        assert(d.blocks@[i].is_known);
        assert(chunk_at(d.data@, bs, i) == chunk_bytes(p, bs, i));
        assert(chunk_at(d.data@, bs, i)[r] == d.data@[x]);
        assert(chunk_bytes(p, bs, i)[r] == p[x]);
    }
    assert(d.decoded() =~= p);
}

/// Law: order independence.  The bytes a complete decoder reports are a
/// function of the source payload alone, so two decoders fed the same
/// decodable collection of droplets — in any two orders, with any
/// duplicates — report identical reconstructions once complete.
pub proof fn lemma_order_independent(d1: Decoder, d2: Decoder, p: Seq<u8>)
    requires
        d1.wf(),
        d1.consistent_with(p),
        d1.complete(),
        d2.wf(),
        d2.consistent_with(p),
        d2.complete(),
    ensures
        d1.decoded() == d2.decoded(),
{
    lemma_complete_decodes_payload(d1, p);
    lemma_complete_decodes_payload(d2, p);
}

} // verus!
