//! The incremental Merkle hasher: a growable buffer of 32-byte chunks, any
//! region of which can be collapsed in place to its Merkle root.
use vstd::prelude::*;

use crate::merkle::chunks_of;
use crate::merkle::depth_of;
use crate::merkle::hash_round;
use crate::merkle::lemma_chunks_of_all;
use crate::merkle::lemma_chunks_of_append;
use crate::merkle::lemma_chunks_of_flatten;
use crate::merkle::lemma_depth_of_exact;
use crate::merkle::lemma_depth_of_mono;
use crate::merkle::lemma_flatten_chunk_len;
use crate::merkle::lemma_flatten_of_chunks;
use crate::merkle::lemma_hash_round_shape;
use crate::merkle::lemma_merkle_root_len;
use crate::merkle::merkle_root;
use crate::merkle::pad32;
use crate::merkle::reduce;
use crate::merkle::sha256_of;
use crate::merkle::zero_hash;
use crate::merkle::zeros;
use crate::Error;
use vstd::arithmetic::power2::lemma2_to64;
use vstd::arithmetic::power2::lemma2_to64_rest;
use vstd::arithmetic::power2::lemma_pow2_pos;
use vstd::arithmetic::power2::lemma_pow2_strictly_increases;
use vstd::arithmetic::power2::lemma_pow2_unfold;
use vstd::arithmetic::power2::pow2;
use vstd::bytes::spec_u64_to_le_bytes;
use vstd::bytes::u64_to_le_bytes;
use vstd::slice::slice_subrange;

verus! {

broadcast use vstd::array::group_array_axioms;

/// Executable SHA-256. Relies on `sha2::Sha256` (RustCrypto's SHA-256):
/// the 32-byte digest is a function of the input bytes alone, named by
/// [`sha256_of`].
#[verifier::external_body]
pub fn sha256_sum(data: &[u8]) -> (r: [u8; 32])
    ensures
        r == sha256_of(data@),
{
    let digest = <sha2::Sha256 as sha2::Digest>::digest(data);
    let mut out = [0u8; 32];
    out.copy_from_slice(&digest);
    out
}

/// Appends `src[start..end]` to `dst`.
pub(crate) fn push_range(dst: &mut Vec<u8>, src: &[u8], start: usize, end: usize)
    requires
        start <= end <= src@.len(),
    ensures
        final(dst)@ == old(dst)@ + src@.subrange(start as int, end as int),
{
    let mut i = start;
    while i < end
        invariant
            start <= i <= end <= src@.len(),
            dst@ == old(dst)@ + src@.subrange(start as int, i as int),
        decreases end - i,
    {
        let b = src[i];
        dst.push(b);
        assert(src@.subrange(start as int, (i + 1) as int) == src@.subrange(
            start as int,
            i as int,
        ).push(src@[i as int]));
        i += 1;
    }
}

/// Appends `n` zero bytes to `dst`.
fn push_zeros(dst: &mut Vec<u8>, n: usize)
    ensures
        final(dst)@ == old(dst)@ + zeros(n as nat),
{
    let mut i: usize = 0;
    while i < n
        invariant
            i <= n,
            dst@ == old(dst)@ + zeros(i as nat),
        decreases n - i,
    {
        dst.push(0u8);
        assert(zeros((i + 1) as nat) == zeros(i as nat).push(0u8));
        i += 1;
    }
}

/// A value that can push its chunks into a [`Hasher`], so that composite
/// structures produce one hash-tree root.
pub trait HashTree {
    /// The flat bytes this value contributes to the hasher's buffer: a
    /// whole number of 32-byte chunks. An implementation that leaves the
    /// default promises nothing of what it pushes.
    open spec fn tree_bytes(&self) -> Seq<u8> {
        Seq::empty()
    }

    /// Pushes this value's chunks into `h`.
    fn hash_tree_root_with(&self, h: &mut Hasher) -> (r: Result<(), Error>)
        requires
            old(h).wf(),
        ensures
            final(h).wf(),
            r is Ok ==> final(h)@ == old(h)@ + self.tree_bytes(),
    ;
}

impl HashTree for crate::codec::H256 {
    /// One chunk: the hash's own bytes.
    open spec fn tree_bytes(&self) -> Seq<u8> {
        self.0@
    }

    fn hash_tree_root_with(&self, h: &mut Hasher) -> (r: Result<(), Error>) {
        h.append_bytes32(self.0.as_slice());
        proof {
            assert(pad32(self.0@) =~= self.0@);
        }
        Ok(())
    }
}

/// Collapses `t`'s chunks to their Merkle root: drives a fresh [`Hasher`],
/// merkleizes the whole buffer, and extracts the single remaining chunk.
pub fn hash_root<T: HashTree>(t: &T) -> (r: Result<[u8; 32], Error>)
    ensures
        r is Ok ==> r->Ok_0@ == merkle_root(t.tree_bytes(), 0),
{
    let mut hasher = Hasher::new();
    match t.hash_tree_root_with(&mut hasher) {
        Ok(()) => {},
        Err(e) => {
            return Err(e);
        },
    }
    proof {
        assert(hasher@ =~= t.tree_bytes());
        lemma_merkle_root_len(hasher@, 0);
    }
    let ghost pre = hasher@;
    hasher.merkleize(0);
    proof {
        assert(pre.subrange(0, pre.len() as int) =~= pre);
        assert(pre.subrange(0, 0) =~= Seq::<u8>::empty());
        assert(hasher@ =~= merkle_root(pre, 0));
    }
    hasher.hash_root()
}

/// A growable buffer of 32-byte chunks, together with the table of
/// zero-subtree roots used to pad unbalanced regions.
pub struct Hasher {
    buf: Vec<u8>,
    zero_hashes: Vec<[u8; 32]>,
}

impl View for Hasher {
    type V = Seq<u8>;

    closed spec fn view(&self) -> Seq<u8> {
        self.buf@
    }
}

impl Hasher {
    /// The buffer is chunk-aligned and the zero-subtree table is correct.
    pub closed spec fn wf(&self) -> bool {
        &&& self.buf@.len() % 32 == 0
        &&& self.zero_hashes@.len() == 65
        &&& forall|i: int|
            0 <= i < 65 ==> (#[trigger] self.zero_hashes@[i])@ == zero_hash(i as nat)
    }

    /// A fresh hasher with an empty buffer.
    pub fn new() -> (r: Hasher)
        ensures
            r.wf(),
            r@ == Seq::<u8>::empty(),
    {
        let mut zero_hashes: Vec<[u8; 32]> = Vec::new();
        let first: [u8; 32] = [0u8; 32];
        proof {
            assert(first@ =~= zeros(32));
        }
        zero_hashes.push(first);
        let mut i: usize = 0;
        while i < 64
            invariant
                i <= 64,
                zero_hashes@.len() == i + 1,
                forall|j: int|
                    0 <= j <= i ==> (#[trigger] zero_hashes@[j])@ == zero_hash(j as nat),
            decreases 64 - i,
        {
            let prev: [u8; 32] = zero_hashes[i];
            let h = Self::do_hash(prev.as_slice(), prev.as_slice());
            zero_hashes.push(h);
            i += 1;
        }
        Hasher { buf: Vec::new(), zero_hashes }
    }

    /// The final root: the buffer's single chunk, once everything has been
    /// collapsed. Asking earlier (or after pushing siblings of the root) is
    /// refused.
    pub fn hash_root(&self) -> (r: Result<[u8; 32], Error>)
        ensures
            self@.len() == 32 ==> r is Ok && r->Ok_0@ == self@,
            self@.len() != 32 ==> r == Err::<[u8; 32], Error>(Error::IncorrectSize),
    {
        if self.buf.len() != 32 {
            return Err(Error::IncorrectSize);
        }
        let mut val = [0u8; 32];
        let mut i: usize = 0;
        while i < 32
            invariant
                i <= 32,
                self.buf@.len() == 32,
                forall|j: int| 0 <= j < i ==> val@[j] == self.buf@[j],
            decreases 32 - i,
        {
            val[i] = self.buf[i];
            i += 1;
        }
        proof {
            assert(val@ =~= self@);
        }
        Ok(val)
    }

    /// The buffer's current length: where the next region would start.
    pub fn index(&self) -> (r: usize)
        ensures
            r == self@.len(),
    {
        self.buf.len()
    }

    /// The most recently completed chunk.
    pub fn hash(&self) -> (r: Vec<u8>)
        requires
            self@.len() >= 32,
        ensures
            r@ == self@.subrange(self@.len() - 32, self@.len() as int),
    {
        let len = self.buf.len();
        let mut out: Vec<u8> = Vec::new();
        push_range(&mut out, self.buf.as_slice(), len - 32, len);
        out
    }

    /// Writes `b` verbatim, then zero bytes up to the next chunk boundary.
    pub fn append_bytes32(&mut self, b: &[u8])
        requires
            old(self).wf(),
        ensures
            final(self).wf(),
            final(self)@ == old(self)@ + pad32(b@),
    {
        let len = b.len();
        push_range(&mut self.buf, b, 0, len);
        let rest = len % 32;
        if rest != 0 {
            push_zeros(&mut self.buf, 32 - rest);
        }
        proof {
            assert(b@.subrange(0, b@.len() as int) =~= b@);
            assert(self@ =~= old(self)@ + pad32(b@));
        }
    }

    /// Writes the eight little-endian bytes of `val`, padded to one chunk:
    /// a scalar always occupies exactly one chunk.
    pub fn put_u64(&mut self, val: u64)
        requires
            old(self).wf(),
        ensures
            final(self).wf(),
            final(self)@ == old(self)@ + spec_u64_to_le_bytes(val) + zeros(24),
            final(self)@.len() == old(self)@.len() + 32,
    {
        let bytes = u64_to_le_bytes(val);
        self.append_bytes32(bytes.as_slice());
        proof {
            assert(old(self)@ + pad32(spec_u64_to_le_bytes(val)) =~= old(self)@
                + spec_u64_to_le_bytes(val) + zeros(24));
        }
    }

    /// Writes `b` chunk-padded. A value longer than one chunk is collapsed
    /// at once: its region is merkleized in place, leaving one chunk.
    pub fn put_bytes(&mut self, b: &[u8])
        requires
            old(self).wf(),
        ensures
            final(self).wf(),
            b@.len() <= 32 ==> final(self)@ == old(self)@ + pad32(b@),
            b@.len() > 32 ==> final(self)@ == old(self)@ + merkle_root(pad32(b@), 0),
            b@.len() > 32 ==> final(self)@.len() == old(self)@.len() + 32,
    {
        if b.len() <= 32 {
            self.append_bytes32(b);
            return ;
        }
        let indx = self.index();
        self.append_bytes32(b);
        self.merkleize(indx);
        proof {
            assert((old(self)@ + pad32(b@)).subrange(0, indx as int) =~= old(self)@);
            assert((old(self)@ + pad32(b@)).subrange(
                indx as int,
                (old(self)@ + pad32(b@)).len() as int,
            ) =~= pad32(b@));
        }
    }

    /// Collapses the region `[indx, end)` of the buffer to its Merkle root:
    /// everything before `indx` is kept, the region becomes one chunk.
    pub fn merkleize(&mut self, indx: usize)
        requires
            old(self).wf(),
            indx % 32 == 0,
            indx <= old(self)@.len(),
        ensures
            final(self).wf(),
            final(self)@ == old(self)@.subrange(0, indx as int) + merkle_root(
                old(self)@.subrange(indx as int, old(self)@.len() as int),
                0,
            ),
            final(self)@.len() == indx + 32,
    {
        let len = self.buf.len();
        let mut dst: Vec<u8> = Vec::new();
        push_range(&mut dst, self.buf.as_slice(), 0, indx);
        let input = slice_subrange(self.buf.as_slice(), indx, len);
        self.merkleize_impl(&mut dst, input, 0);
        proof {
            lemma_merkle_root_len(input@, 0);
        }
        self.buf = dst;
    }

    /// The root of two sibling chunks (or, generally, of two byte strings
    /// hashed in concatenation).
    fn do_hash(a: &[u8], b: &[u8]) -> (r: [u8; 32])
        requires
            a@.len() + b@.len() <= usize::MAX,
        ensures
            r == sha256_of(a@ + b@),
    {
        let mut data: Vec<u8> = Vec::new();
        push_range(&mut data, a, 0, a.len());
        push_range(&mut data, b, 0, b.len());
        proof {
            assert(a@.subrange(0, a@.len() as int) =~= a@);
            assert(b@.subrange(0, b@.len() as int) =~= b@);
            assert(data@ =~= a@ + b@);
        }
        sha256_sum(data.as_slice())
    }

    /// The smallest power of two at or above `v`.
    fn next_power_of_two(v: usize) -> (r: usize)
        requires
            1 <= v,
            v <= usize::MAX / 2 + 1,
        ensures
            r == pow2(depth_of(v as nat)),
    {
        let mut r: usize = 1;
        let ghost mut k: nat = 0;
        proof {
            lemma2_to64();
        }
        while r < v
            invariant
                1 <= r,
                v <= usize::MAX / 2 + 1,
                r == pow2(k),
                k == 0 || pow2((k - 1) as nat) < v,
            decreases 2 * v - r,
        {
            proof {
                lemma_pow2_unfold(k + 1);
            }
            r = r * 2;
            proof {
                k = k + 1;
            }
        }
        proof {
            lemma_depth_of_exact(v as nat, k);
        }
        r
    }

    /// The number of pairwise-hash rounds for a region of `d` leaves:
    /// `ceil(log2(d))`, and `0` for `d <= 1`.
    fn get_depth(d: usize) -> (r: u8)
        requires
            d <= usize::MAX / 2 + 1,
        ensures
            r as nat == depth_of(d as nat),
    {
        if d <= 1 {
            return 0;
        }
        let p = Self::next_power_of_two(d);
        let ghost dep = depth_of(d as nat);
        proof {
            lemma_usize_half_bound();
            lemma_depth_of_mono(d as nat, 63);
        }
        let mut n = p;
        let mut r: u8 = 0;
        while n > 1
            invariant
                r <= dep <= 63,
                n == pow2((dep - r) as nat),
            decreases n,
        {
            proof {
                lemma2_to64();
                if dep - r == 0 {
                    assert(n == 1);
                    assert(false);
                }
                lemma_pow2_unfold((dep - r) as nat);
                lemma_pow2_pos(((dep - r) - 1) as nat);
            }
            n = n / 2;
            r = r + 1;
        }
        proof {
            lemma2_to64();
            if dep - r > 0 {
                lemma_pow2_strictly_increases(0, (dep - r) as nat);
            }
        }
        r
    }

    /// Appends, to `dst`, the Merkle root of the chunk-aligned region
    /// `input` under a declared capacity of `limit` leaves (`0` meaning "as
    /// many as the region holds"). A region holding more chunks than a
    /// non-zero `limit` is a caller bug and is excluded outright.
    pub fn merkleize_impl(&self, dst: &mut Vec<u8>, input: &[u8], limit: usize)
        requires
            self.wf(),
            input@.len() % 32 == 0,
            limit != 0 ==> input@.len() / 32 <= limit,
            limit <= usize::MAX / 2 + 1,
        ensures
            final(dst)@ == old(dst)@ + merkle_root(input@, limit as nat),
    {
        let count = input.len() / 32;
        let mut lim = limit;
        if lim == 0 {
            lim = count;
        }
        if lim == 0 {
            push_zeros(dst, 32);
            proof {
                assert(input@.len() == 0);
            }
            return ;
        }
        if lim == 1 {
            if count == 1 {
                push_range(dst, input, 0, 32);
                proof {
                    assert(input@.subrange(0, 32) =~= input@);
                }
                return ;
            }
            push_zeros(dst, 32);
            return ;
        }
        proof {
            vstd::arithmetic::div_mod::lemma_fundamental_div_mod(input@.len() as int, 32);
            vstd::arithmetic::div_mod::lemma_fundamental_div_mod(usize::MAX as int, 2);
            assert(count <= usize::MAX / 2 + 1);
        }
        let depth = Self::get_depth(lim);
        proof {
            lemma_usize_half_bound();
            lemma_depth_of_mono(lim as nat, 63);
        }
        if input.len() == 0 {
            let zh: [u8; 32] = self.zero_hashes[depth as usize];
            push_range(dst, zh.as_slice(), 0, 32);
            proof {
                assert(zh@.subrange(0, 32) =~= zh@);
            }
            return ;
        }
        let mut cur: Vec<u8> = Vec::new();
        push_range(&mut cur, input, 0, input.len());
        proof {
            assert(input@.subrange(0, input@.len() as int) =~= input@);
        }
        let ghost base = chunks_of(input@);
        let mut i: u8 = 0;
        while i < depth
            invariant
                self.wf(),
                i <= depth,
                depth as nat == depth_of(lim as nat) <= 63,
                cur@.len() % 32 == 0,
                32 <= cur@.len(),
                reduce(base, 0, depth as nat) == reduce(
                    chunks_of(cur@),
                    i as nat,
                    (depth - i) as nat,
                ),
            decreases depth - i,
        {
            let next = self.hash_round_exec(&cur, i);
            proof {
                lemma_chunks_of_all(cur@);
                lemma_hash_round_shape(chunks_of(cur@), i as nat);
                let hr = hash_round(chunks_of(cur@), i as nat);
                lemma_flatten_chunk_len(hr);
                lemma_chunks_of_flatten(hr);
                assert(reduce(chunks_of(cur@), i as nat, (depth - i) as nat) == reduce(
                    hr,
                    i as nat + 1,
                    (depth - (i + 1)) as nat,
                ));
            }
            cur = next;
            i += 1;
        }
        proof {
            lemma_flatten_of_chunks(cur@);
            assert(reduce(chunks_of(cur@), depth as nat, 0) == chunks_of(cur@));
            assert(reduce(base, 0, depth as nat).flatten() == cur@);
            assert(input@.len() / 32 >= 1);
            assert(merkle_root(input@, limit as nat) == reduce(base, 0, depth as nat).flatten());
        }
        let cur_len = cur.len();
        push_range(dst, cur.as_slice(), 0, cur_len);
        proof {
            assert(cur@.subrange(0, cur@.len() as int) =~= cur@);
        }
    }

    /// One pairwise-hash round over a non-empty, chunk-aligned layer, at
    /// height `round`.
    fn hash_round_exec(&self, layer: &Vec<u8>, round: u8) -> (out: Vec<u8>)
        requires
            self.wf(),
            layer@.len() % 32 == 0,
            32 <= layer@.len(),
            round < 64,
        ensures
            out@ == hash_round(chunks_of(layer@), round as nat).flatten(),
    {
        let count = layer.len() / 32;
        let mut padded: Vec<u8> = Vec::new();
        let layer_len = layer.len();
        push_range(&mut padded, layer.as_slice(), 0, layer_len);
        proof {
            assert(layer@.subrange(0, layer@.len() as int) =~= layer@);
        }
        if count % 2 == 1 {
            let zh: [u8; 32] = self.zero_hashes[round as usize];
            push_range(&mut padded, zh.as_slice(), 0, 32);
            proof {
                assert(zh@.subrange(0, 32) =~= zh@);
                lemma_chunks_of_append(layer@, zh@);
            }
        }
        let ghost result = hash_round(chunks_of(layer@), round as nat);
        proof {
            lemma_chunks_of_all(layer@);
            lemma_hash_round_shape(chunks_of(layer@), round as nat);
            assert(chunks_of(padded@).len() % 2 == 0);
            assert(result.len() == chunks_of(padded@).len() / 2);
        }
        let half = (padded.len() / 32) / 2;
        let mut out: Vec<u8> = Vec::new();
        let mut j: usize = 0;
        proof {
            let n = padded@.len() as int;
            vstd::arithmetic::div_mod::lemma_fundamental_div_mod(n, 32);
            vstd::arithmetic::div_mod::lemma_fundamental_div_mod(n / 32, 2);
            assert(n == 64 * half);
            assert(result.take(0) =~= Seq::<Seq<u8>>::empty());
            assert(Seq::<Seq<u8>>::empty().flatten() =~= Seq::<u8>::empty());
        }
        while j < half
            invariant
                j <= half,
                padded@.len() % 32 == 0,
                padded@.len() == 64 * half,
                padded@.len() <= usize::MAX,
                result.len() == half,
                forall|t: int|
                    0 <= t < result.len() ==> result[t] == crate::merkle::hash2(
                        chunks_of(padded@)[2 * t],
                        chunks_of(padded@)[2 * t + 1],
                    ),
                out@ == result.take(j as int).flatten(),
            decreases half - j,
        {
            let a = slice_subrange(padded.as_slice(), 64 * j, 64 * j + 32);
            let b = slice_subrange(padded.as_slice(), 64 * j + 32, 64 * j + 64);
            let h = Self::do_hash(a, b);
            proof {
                assert(chunks_of(padded@)[2 * j] =~= a@);
                assert(chunks_of(padded@)[2 * j + 1] =~= b@);
                assert(h@ == result[j as int]);
            }
            let out_len = out.len();
            push_range(&mut out, h.as_slice(), 0, 32);
            proof {
                assert(h@.subrange(0, 32) =~= h@);
                assert(result.take(j as int + 1) =~= result.take(j as int).push(
                    result[j as int],
                ));
                result.take(j as int).lemma_flatten_push(result[j as int]);
            }
            j += 1;
        }
        proof {
            assert(result.take(result.len() as int) =~= result);
        }
        out
    }
}

/// `usize::MAX / 2 + 1` never exceeds `pow2(63)`, whatever the word size.
proof fn lemma_usize_half_bound()
    ensures
        usize::MAX / 2 + 1 <= pow2(63),
{
    lemma2_to64();
    lemma2_to64_rest();
}

} // verus!
