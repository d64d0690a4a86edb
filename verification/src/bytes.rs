//! Byte-level model of the codec: payloads are sequences of bytes, a payload
//! is cut into fixed-size chunks (the last one zero-padded), and a droplet
//! carries the bitwise XOR of the chunks its neighbor set selects.

use vstd::arithmetic::div_mod::lemma_fundamental_div_mod;
use vstd::arithmetic::div_mod::lemma_fundamental_div_mod_converse;
use vstd::prelude::*;

verus! {

/// The all-zero byte sequence of length `n`.
pub open spec fn zero_bytes(n: int) -> Seq<u8> {
    Seq::new(n as nat, |i: int| 0u8)
}

/// Pointwise XOR of two byte sequences of equal length.
pub open spec fn xor_bytes(a: Seq<u8>, b: Seq<u8>) -> Seq<u8>
    recommends
        a.len() == b.len(),
{
    Seq::new(a.len(), |i: int| a[i] ^ b[i])
}

/// Number of fixed-size chunks that cover `len` bytes: ceil(len / bs).
pub open spec fn spec_chunk_count(len: int, bs: int) -> int
    recommends
        bs >= 1,
{
    (len + bs - 1) / bs
}

/// Chunk `k` of payload `p` under blocksize `bs`, zero-padded to `bs` bytes.
pub open spec fn chunk_bytes(p: Seq<u8>, bs: int, k: int) -> Seq<u8> {
    Seq::new(bs as nat, |j: int| if k * bs + j < p.len() { p[k * bs + j] } else { 0u8 })
}

/// XOR of the chunks of `p` selected by the indices in `edges`.
pub open spec fn xor_chunks(p: Seq<u8>, bs: int, edges: Seq<usize>) -> Seq<u8>
    decreases edges.len(),
{
    if edges.len() == 0 {
        zero_bytes(bs)
    } else {
        xor_bytes(xor_chunks(p, bs, edges.drop_last()), chunk_bytes(p, bs, edges.last() as int))
    }
}

proof fn lemma_u8_xor_zero(x: u8)
    ensures
        x ^ 0 == x,
        0u8 ^ x == x,
{
    assert(x ^ 0 == x && 0u8 ^ x == x) by (bit_vector);
}

proof fn lemma_u8_xor_cancel(x: u8, y: u8)
    ensures
        (x ^ y) ^ y == x,
{
    assert((x ^ y) ^ y == x) by (bit_vector);
}

proof fn lemma_u8_xor_swap(x: u8, y: u8, z: u8)
    ensures
        (x ^ y) ^ z == (x ^ z) ^ y,
{
    assert((x ^ y) ^ z == (x ^ z) ^ y) by (bit_vector);
}

pub proof fn lemma_xor_bytes_cancel(a: Seq<u8>, b: Seq<u8>)
    requires
        a.len() == b.len(),
    ensures
        xor_bytes(xor_bytes(a, b), b) == a,
{
    assert forall|i: int| 0 <= i < a.len() implies xor_bytes(xor_bytes(a, b), b)[i] == a[i] by {
        lemma_u8_xor_cancel(a[i], b[i]);
    }
    assert(xor_bytes(xor_bytes(a, b), b) =~= a);
}

pub proof fn lemma_xor_bytes_zero(a: Seq<u8>)
    ensures
        xor_bytes(zero_bytes(a.len() as int), a) == a,
        xor_bytes(a, zero_bytes(a.len() as int)) == a,
{
    assert forall|i: int| 0 <= i < a.len() implies xor_bytes(zero_bytes(a.len() as int), a)[i]
        == a[i] && xor_bytes(a, zero_bytes(a.len() as int))[i] == a[i] by {
        lemma_u8_xor_zero(a[i]);
    }
    assert(xor_bytes(zero_bytes(a.len() as int), a) =~= a);
    assert(xor_bytes(a, zero_bytes(a.len() as int)) =~= a);
}

/// XORing in two sequences commutes: the order of accumulation does not matter.
pub proof fn lemma_xor_bytes_swap(x: Seq<u8>, a: Seq<u8>, b: Seq<u8>)
    requires
        x.len() == a.len(),
        x.len() == b.len(),
    ensures
        xor_bytes(xor_bytes(x, a), b) == xor_bytes(xor_bytes(x, b), a),
{
    assert forall|i: int| 0 <= i < x.len() implies xor_bytes(xor_bytes(x, a), b)[i] == xor_bytes(
        xor_bytes(x, b),
        a,
    )[i] by {
        lemma_u8_xor_swap(x[i], a[i], b[i]);
    }
    assert(xor_bytes(xor_bytes(x, a), b) =~= xor_bytes(xor_bytes(x, b), a));
}

pub proof fn lemma_xor_chunks_len(p: Seq<u8>, bs: int, edges: Seq<usize>)
    requires
        bs >= 0,
    ensures
        xor_chunks(p, bs, edges).len() == bs,
    decreases edges.len(),
{
    if edges.len() > 0 {
        lemma_xor_chunks_len(p, bs, edges.drop_last());
    }
}

/// A singleton neighbor set selects exactly one chunk.
pub proof fn lemma_xor_chunks_singleton(p: Seq<u8>, bs: int, e: usize)
    requires
        bs >= 0,
    ensures
        xor_chunks(p, bs, seq![e]) == chunk_bytes(p, bs, e as int),
{
    let s = seq![e];
    assert(s.drop_last() =~= Seq::<usize>::empty());
    assert(s.last() == e);
    assert(xor_chunks(p, bs, Seq::<usize>::empty()) == zero_bytes(bs));
    assert(xor_chunks(p, bs, s) == xor_bytes(zero_bytes(bs), chunk_bytes(p, bs, e as int)));
    lemma_xor_bytes_zero(chunk_bytes(p, bs, e as int));
}

/// Removing one selected chunk from a neighbor set is the same as XORing that
/// chunk out of the accumulated payload.
pub proof fn lemma_xor_chunks_remove(p: Seq<u8>, bs: int, edges: Seq<usize>, pos: int)
    requires
        bs >= 0,
        0 <= pos < edges.len(),
    ensures
        xor_chunks(p, bs, edges.remove(pos)) == xor_bytes(
            xor_chunks(p, bs, edges),
            chunk_bytes(p, bs, edges[pos] as int),
        ),
    decreases edges.len(),
{
    let n = edges.len() as int;
    let rest = edges.drop_last();
    lemma_xor_chunks_len(p, bs, rest);
    lemma_xor_chunks_len(p, bs, edges);
    if pos == n - 1 {
        assert(edges.remove(pos) =~= rest);
        lemma_xor_bytes_cancel(xor_chunks(p, bs, rest), chunk_bytes(p, bs, edges[pos] as int));
    } else {
        let shorter = edges.remove(pos);
        assert(shorter.len() == n - 1);
        assert(shorter.drop_last() =~= rest.remove(pos));
        assert(shorter.last() == edges.last());
        lemma_xor_chunks_remove(p, bs, rest, pos);
        assert(rest[pos] == edges[pos]);
        lemma_xor_chunks_len(p, bs, rest.remove(pos));
        lemma_xor_bytes_swap(
            xor_chunks(p, bs, rest),
            chunk_bytes(p, bs, edges[pos] as int),
            chunk_bytes(p, bs, edges.last() as int),
        );
    }
}

/// Extending the accumulated prefix of a neighbor set by one index XORs in
/// exactly that chunk.
pub proof fn lemma_xor_chunks_take_step(p: Seq<u8>, bs: int, edges: Seq<usize>, i: int)
    requires
        bs >= 0,
        0 <= i < edges.len(),
    ensures
        xor_chunks(p, bs, edges.take(i + 1)) == xor_bytes(
            xor_chunks(p, bs, edges.take(i)),
            chunk_bytes(p, bs, edges[i] as int),
        ),
{
    let t = edges.take(i + 1);
    assert(t.drop_last() =~= edges.take(i));
    assert(t.last() == edges[i]);
}

/// The chunk count covers the payload: `(k - 1) * bs < len <= k * bs`.
pub proof fn lemma_chunk_count_bounds(len: int, bs: int)
    requires
        len >= 1,
        bs >= 1,
    ensures
        len <= spec_chunk_count(len, bs) * bs,
        (spec_chunk_count(len, bs) - 1) * bs < len,
        spec_chunk_count(len, bs) >= 1,
{
    let k = spec_chunk_count(len, bs);
    lemma_fundamental_div_mod(len + bs - 1, bs);
    let r = (len + bs - 1) % bs;
    assert(len + bs - 1 == bs * k + r);
    assert(k * bs == bs * k) by (nonlinear_arith);
    assert((k - 1) * bs == k * bs - bs) by (nonlinear_arith);
    assert(k >= 1) by (nonlinear_arith)
        requires
            len + bs - 1 == bs * k + r,
            0 <= r,
            r < bs,
            len >= 1,
            bs >= 1,
    ;
}

/// Chunk `i` of a buffer of whole chunks: the `bs` bytes at offset `i * bs`.
pub open spec fn chunk_at(a: Seq<u8>, bs: int, i: int) -> Seq<u8> {
    a.subrange(i * bs, i * bs + bs)
}

/// Two buffers of `k` chunks that agree on every chunk are equal.
pub proof fn lemma_chunks_tile(a: Seq<u8>, b: Seq<u8>, k: int, bs: int)
    requires
        bs >= 1,
        k >= 0,
        a.len() == k * bs,
        b.len() == k * bs,
        forall|i: int| 0 <= i < k ==> #[trigger] chunk_at(a, bs, i) == chunk_at(b, bs, i),
    ensures
        a == b,
{
    assert forall|x: int| 0 <= x < k * bs implies a[x] == b[x] by {
        let i = x / bs;
        let r = x % bs;
        lemma_fundamental_div_mod(x, bs);
        assert(0 <= r) by (nonlinear_arith)
            requires
                x >= 0,
                bs >= 1,
                r == x % bs,
        ;
        assert(r < bs) by (nonlinear_arith)
            requires
                bs >= 1,
                r == x % bs,
        ;
        assert(0 <= i) by (nonlinear_arith)
            requires
                x >= 0,
                bs >= 1,
                i == x / bs,
        ;
        assert(i < k) by (nonlinear_arith)
            requires
                x == bs * i + r,
                0 <= r,
                r < bs,
                x < k * bs,
                bs >= 1,
        ;
        assert(0 <= i * bs && i * bs + bs <= k * bs) by (nonlinear_arith)
            requires
                0 <= i,
                i < k,
                bs >= 1,
        ;
        assert(x == i * bs + r) by (nonlinear_arith)
            requires
                x == bs * i + r,
        ;
        assert(chunk_at(a, bs, i) == chunk_at(b, bs, i));
        assert(chunk_at(a, bs, i)[r] == chunk_at(b, bs, i)[r]);
        assert(a[x] == chunk_at(a, bs, i)[r]);
    }
    assert(a =~= b);
}

/// Copies an index vector.
pub fn copy_indices(v: &Vec<usize>) -> (r: Vec<usize>)
    ensures
        r@ == v@,
{
    let mut r: Vec<usize> = Vec::new();
    let mut i: usize = 0;
    while i < v.len()
        invariant
            i <= v@.len(),
            r@ == v@.take(i as int),
        decreases v@.len() - i,
    {
        r.push(v[i]);
        assert(v@.take(i as int).push(v@[i as int]) =~= v@.take(i as int + 1));
        i = i + 1;
    }
    assert(v@.take(v@.len() as int) =~= v@);
    r
}

/// Copies a byte vector.
pub fn copy_bytes(v: &Vec<u8>) -> (r: Vec<u8>)
    ensures
        r@ == v@,
{
    let mut r: Vec<u8> = Vec::new();
    let mut i: usize = 0;
    while i < v.len()
        invariant
            i <= v@.len(),
            r@ == v@.take(i as int),
        decreases v@.len() - i,
    {
        r.push(v[i]);
        assert(v@.take(i as int).push(v@[i as int]) =~= v@.take(i as int + 1));
        i = i + 1;
    }
    assert(v@.take(v@.len() as int) =~= v@);
    r
}

/// Computes the chunk count ceil(len / bs) without overflow.
pub fn chunk_count_exec(len: usize, bs: usize) -> (k: usize)
    requires
        len >= 1,
        bs >= 1,
    ensures
        k as int == spec_chunk_count(len as int, bs as int),
        k >= 1,
{
    let q = len / bs;
    let rem = len % bs;
    proof {
        lemma_fundamental_div_mod(len as int, bs as int);
        assert(len as int == bs as int * (q as int) + rem as int);
        assert(bs as int * (q as int) == (q as int) * (bs as int)) by (nonlinear_arith);
        if rem == 0 {
            assert(len as int + bs - 1 == (q as int) * (bs as int) + (bs as int - 1));
            lemma_fundamental_div_mod_converse(
                len as int + bs - 1,
                bs as int,
                q as int,
                bs as int - 1,
            );
        } else {
            assert(len as int + bs - 1 == (q as int + 1) * (bs as int) + (rem as int - 1))
                by (nonlinear_arith)
                requires
                    len as int == bs as int * (q as int) + rem as int,
            ;
            lemma_fundamental_div_mod_converse(
                len as int + bs - 1,
                bs as int,
                q as int + 1,
                rem as int - 1,
            );
            assert(q < usize::MAX) by (nonlinear_arith)
                requires
                    len == bs * q + rem,
                    0 < rem < bs,
                    len <= usize::MAX,
            ;
        }
    }
    let k: usize = if rem == 0 {
        q
    } else {
        q + 1
    };
    proof {
        lemma_chunk_count_bounds(len as int, bs as int);
    }
    k
}

/// Copies the first `n` bytes of `v`.
pub fn take_prefix(v: &Vec<u8>, n: usize) -> (r: Vec<u8>)
    requires
        n <= v@.len(),
    ensures
        r@ == v@.take(n as int),
{
    let mut r: Vec<u8> = Vec::new();
    let mut i: usize = 0;
    while i < n
        invariant
            i <= n,
            n <= v@.len(),
            r@ == v@.take(i as int),
        decreases n - i,
    {
        r.push(v[i]);
        assert(v@.take(i as int).push(v@[i as int]) =~= v@.take(i as int + 1));
        i = i + 1;
    }
    r
}

/// Builds a vector of `n` zero bytes.
pub fn zero_vec(n: usize) -> (r: Vec<u8>)
    ensures
        r@ == zero_bytes(n as int),
{
    let mut r: Vec<u8> = Vec::new();
    let mut i: usize = 0;
    while i < n
        invariant
            i <= n,
            r@ == zero_bytes(i as int),
        decreases n - i,
    {
        r.push(0u8);
        assert(zero_bytes(i as int).push(0u8) =~= zero_bytes(i as int + 1));
        i = i + 1;
    }
    r
}

/// XORs `src[off .. off + dst.len()]` into `dst` in place.
pub fn xor_with(dst: &mut Vec<u8>, src: &Vec<u8>, off: usize)
    requires
        off + old(dst)@.len() <= src@.len(),
    ensures
        final(dst)@ == xor_bytes(old(dst)@, src@.subrange(off as int, off + old(dst)@.len())),
{
    let n = dst.len();
    let m = src.len();
    let mut i: usize = 0;
    while i < n
        invariant
            i <= n,
            n == old(dst)@.len(),
            dst@.len() == n,
            m == src@.len(),
            off + n <= m,
            forall|j: int| 0 <= j < i ==> dst@[j] == (old(dst)@[j] ^ src@[off + j]),
            forall|j: int| i <= j < n ==> dst@[j] == old(dst)@[j],
        decreases n - i,
    {
        let b = dst[i] ^ src[off + i];
        dst[i] = b;
        i = i + 1;
    }
    assert(dst@ =~= xor_bytes(old(dst)@, src@.subrange(off as int, off + old(dst)@.len())));
}

/// XORs chunk `k` of `data` (zero-padded to `blocksize`) into `dst` in place.
pub fn xor_chunk_with(dst: &mut Vec<u8>, data: &Vec<u8>, blocksize: usize, k: usize)
    requires
        old(dst)@.len() == blocksize,
        blocksize >= 1,
        k * blocksize < data@.len(),
    ensures
        final(dst)@ == xor_bytes(old(dst)@, chunk_bytes(data@, blocksize as int, k as int)),
{
    let dlen = data.len();
    assert(k * blocksize < dlen);
    let begin = k * blocksize;
    let avail = dlen - begin;
    let mut i: usize = 0;
    while i < blocksize
        invariant
            i <= blocksize,
            dst@.len() == blocksize,
            old(dst)@.len() == blocksize,
            begin == k * blocksize,
            dlen == data@.len(),
            begin < dlen,
            avail == dlen - begin,
            forall|j: int| 0 <= j < i ==> dst@[j] == (old(dst)@[j] ^ chunk_bytes(
                data@,
                blocksize as int,
                k as int,
            )[j]),
            forall|j: int| i <= j < blocksize ==> dst@[j] == old(dst)@[j],
        decreases blocksize - i,
    {
        let b: u8 = if i < avail {
            data[begin + i]
        } else {
            0u8
        };
        assert(b == chunk_bytes(data@, blocksize as int, k as int)[i as int]) by {
            if i >= avail {
                lemma_u8_xor_zero(0u8);
            }
        }
        let nb = dst[i] ^ b;
        dst[i] = nb;
        i = i + 1;
    }
    assert(dst@ =~= xor_bytes(old(dst)@, chunk_bytes(data@, blocksize as int, k as int)));
}

/// Overwrites `buf[off .. off + src.len()]` with `src`.
pub fn write_at(buf: &mut Vec<u8>, off: usize, src: &Vec<u8>)
    requires
        off + src@.len() <= old(buf)@.len(),
    ensures
        final(buf)@.len() == old(buf)@.len(),
        forall|x: int| 0 <= x < off ==> final(buf)@[x] == old(buf)@[x],
        forall|x: int|
            off <= x < off + src@.len() ==> final(buf)@[x] == src@[x - off],
        forall|x: int|
            off + src@.len() <= x < old(buf)@.len() ==> final(buf)@[x] == old(buf)@[x],
{
    let n = src.len();
    let bl = buf.len();
    let mut i: usize = 0;
    while i < n
        invariant
            i <= n,
            n == src@.len(),
            bl == buf@.len(),
            off + n <= bl,
            buf@.len() == old(buf)@.len(),
            forall|x: int| 0 <= x < off ==> buf@[x] == old(buf)@[x],
            forall|x: int| off <= x < off + i ==> buf@[x] == src@[x - off],
            forall|x: int| off + i <= x < buf@.len() ==> buf@[x] == old(buf)@[x],
        decreases n - i,
    {
        let b = src[i];
        buf[off + i] = b;
        i = i + 1;
    }
}

/// Finds the position of `x` in `v`, if it occurs.
pub fn find_pos(v: &Vec<usize>, x: usize) -> (r: Option<usize>)
    ensures
        match r {
            Some(pos) => pos < v@.len() && v@[pos as int] == x,
            None => forall|i: int| 0 <= i < v@.len() ==> v@[i] != x,
        },
{
    let mut i: usize = 0;
    while i < v.len()
        invariant
            i <= v@.len(),
            forall|j: int| 0 <= j < i ==> v@[j] != x,
        decreases v@.len() - i,
    {
        if v[i] == x {
            return Some(i);
        }
        i = i + 1;
    }
    None
}

/// Reports whether some index occurs twice in `v`.
pub fn has_duplicate(v: &Vec<usize>) -> (r: bool)
    ensures
        r <==> exists|i: int, j: int| 0 <= i < j < v@.len() && v@[i] == v@[j],
{
    let mut i: usize = 0;
    while i < v.len()
        invariant
            i <= v@.len(),
            forall|a: int, b: int| 0 <= a < b < i ==> v@[a] != v@[b],
        decreases v@.len() - i,
    {
        let mut j: usize = 0;
        while j < i
            invariant
                j <= i,
                i < v@.len(),
                forall|b: int| 0 <= b < j ==> v@[b] != v@[i as int],
            decreases i - j,
        {
            if v[j] == v[i] {
                return true;
            }
            j = j + 1;
        }
        i = i + 1;
    }
    false
}

/// Reports whether every entry of `v` is below `bound`.
pub fn all_below(v: &Vec<usize>, bound: usize) -> (r: bool)
    ensures
        r <==> forall|i: int| 0 <= i < v@.len() ==> v@[i] < bound,
{
    let mut i: usize = 0;
    while i < v.len()
        invariant
            i <= v@.len(),
            forall|j: int| 0 <= j < i ==> v@[j] < bound,
        decreases v@.len() - i,
    {
        if v[i] >= bound {
            return false;
        }
        i = i + 1;
    }
    true
}

} // verus!
