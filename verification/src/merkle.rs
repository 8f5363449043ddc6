//! The mathematical model of Merkleization: what the hasher's buffer means
//! and what root a region of chunks collapses to.
use vstd::prelude::*;

use vstd::arithmetic::power2::lemma2_to64;
use vstd::arithmetic::power2::lemma2_to64_rest;
use vstd::arithmetic::power2::lemma_pow2_strictly_increases;
use vstd::arithmetic::power2::lemma_pow2_unfold;
use vstd::arithmetic::power2::pow2;

verus! {

/// What SHA-256 returns for a byte sequence. The digest of an input depends
/// on nothing but the input, so the result carries a name and every contract
/// speaks of that name; the executable digest lives behind
/// [`crate::hasher::sha256_sum`].
pub uninterp spec fn sha256_of(data: Seq<u8>) -> [u8; 32];

/// `n` zero bytes.
pub open spec fn zeros(n: nat) -> Seq<u8> {
    Seq::new(n, |i: int| 0u8)
}

/// `s` right-padded with zero bytes up to the next multiple of 32 (a
/// sequence already on a chunk boundary is unchanged).
pub open spec fn pad32(s: Seq<u8>) -> Seq<u8> {
    s + zeros(((32 - s.len() % 32) % 32) as nat)
}

/// The root of two sibling chunks.
pub open spec fn hash2(a: Seq<u8>, b: Seq<u8>) -> Seq<u8> {
    sha256_of(a + b)@
}

/// The root of a perfectly balanced all-zero subtree of depth `i`.
pub open spec fn zero_hash(i: nat) -> Seq<u8>
    decreases i,
{
    if i == 0 {
        zeros(32)
    } else {
        hash2(zero_hash((i - 1) as nat), zero_hash((i - 1) as nat))
    }
}

/// `ceil(log2(n))` for `n >= 1`, and `0` for `n <= 1`: the number of
/// pairwise-hash rounds needed to reduce `n` leaves to one root.
pub open spec fn depth_of(n: nat) -> nat
    decreases n,
{
    if n <= 1 {
        0
    } else {
        1 + depth_of(((n + 1) / 2) as nat)
    }
}

/// The 32-byte chunks of a buffer, in order (a trailing fragment shorter
/// than a chunk is ignored; buffers of interest are chunk-aligned).
pub open spec fn chunks_of(s: Seq<u8>) -> Seq<Seq<u8>> {
    Seq::new(s.len() / 32, |i: int| s.subrange(32 * i, 32 * i + 32))
}

/// Every element of `cs` is one chunk long.
pub open spec fn all_chunks(cs: Seq<Seq<u8>>) -> bool {
    forall|i: int| 0 <= i < cs.len() ==> (#[trigger] cs[i]).len() == 32
}

/// One pairwise-hash round at height `i`: an odd layer first gains the
/// zero-subtree root of depth `i` as a virtual last chunk, then each
/// adjacent pair collapses to its hash.
pub open spec fn hash_round(layer: Seq<Seq<u8>>, i: nat) -> Seq<Seq<u8>> {
    let padded = if layer.len() % 2 == 1 {
        layer.push(zero_hash(i))
    } else {
        layer
    };
    Seq::new(padded.len() / 2, |j: int| hash2(padded[2 * j], padded[2 * j + 1]))
}

/// `rounds` consecutive pairwise-hash rounds, the first at height `i`.
pub open spec fn reduce(layer: Seq<Seq<u8>>, i: nat, rounds: nat) -> Seq<Seq<u8>>
    decreases rounds,
{
    if rounds == 0 {
        layer
    } else {
        reduce(hash_round(layer, i), i + 1, (rounds - 1) as nat)
    }
}

/// The Merkle root of a chunk-aligned region `input` whose declared
/// capacity is `limit` logical leaves (`limit == 0` means "as many leaves
/// as the region holds"). Meaningful when `input.len() % 32 == 0` and,
/// for a non-zero `limit`, `input.len() / 32 <= limit`.
pub open spec fn merkle_root(input: Seq<u8>, limit: nat) -> Seq<u8> {
    let count = input.len() / 32;
    let lim: nat = if limit == 0 {
        count
    } else {
        limit
    };
    if lim == 0 {
        zeros(32)
    } else if lim == 1 {
        if count == 1 {
            input
        } else {
            zeros(32)
        }
    } else {
        let depth = depth_of(lim);
        if count == 0 {
            zero_hash(depth)
        } else {
            reduce(chunks_of(input), 0, depth).flatten()
        }
    }
}

/// Every zero-subtree root is one chunk long.
pub proof fn lemma_zero_hash_len(i: nat)
    ensures
        zero_hash(i).len() == 32,
    decreases i,
{
    if i > 0 {
        lemma_zero_hash_len((i - 1) as nat);
    }
}

/// The chunks of a chunk-aligned buffer are chunks indeed.
pub proof fn lemma_chunks_of_all(s: Seq<u8>)
    ensures
        all_chunks(chunks_of(s)),
{
}

/// Concatenating chunks yields 32 bytes per chunk.
pub proof fn lemma_flatten_chunk_len(cs: Seq<Seq<u8>>)
    requires
        all_chunks(cs),
    ensures
        cs.flatten().len() == 32 * cs.len(),
    decreases cs.len(),
{
    if cs.len() > 0 {
        assert(all_chunks(cs.drop_first())) by {
            assert(forall|i: int|
                0 <= i < cs.drop_first().len() ==> #[trigger] cs.drop_first()[i] == cs[i + 1]);
        }
        lemma_flatten_chunk_len(cs.drop_first());
    }
}

/// Splitting a concatenation of chunks recovers exactly those chunks.
pub proof fn lemma_chunks_of_flatten(cs: Seq<Seq<u8>>)
    requires
        all_chunks(cs),
    ensures
        chunks_of(cs.flatten()) == cs,
    decreases cs.len(),
{
    lemma_flatten_chunk_len(cs);
    if cs.len() == 0 {
        assert(chunks_of(cs.flatten()) =~= cs);
    } else {
        let tail = cs.drop_first();
        assert(all_chunks(tail)) by {
            assert(forall|i: int| 0 <= i < tail.len() ==> #[trigger] tail[i] == cs[i + 1]);
        }
        lemma_chunks_of_flatten(tail);
        lemma_flatten_chunk_len(tail);
        let whole = cs.flatten();
        assert(whole == cs[0] + tail.flatten());
        assert(chunks_of(whole) =~= cs) by {
            assert forall|i: int| 0 <= i < cs.len() implies chunks_of(whole)[i] == cs[i] by {
                if i == 0 {
                    assert(whole.subrange(0, 32) =~= cs[0]);
                } else {
                    assert(chunks_of(tail.flatten())[i - 1] == tail[i - 1]);
                    assert(whole.subrange(32 * i, 32 * i + 32) =~= tail.flatten().subrange(
                        32 * (i - 1),
                        32 * (i - 1) + 32,
                    ));
                    assert(cs[i] == tail[i - 1]);
                }
            }
        }
    }
}

/// Appending one chunk to a chunk-aligned buffer appends one chunk to its
/// chunk sequence.
pub proof fn lemma_chunks_of_append(s: Seq<u8>, c: Seq<u8>)
    requires
        s.len() % 32 == 0,
        c.len() == 32,
    ensures
        chunks_of(s + c) == chunks_of(s).push(c),
{
    assert(chunks_of(s + c) =~= chunks_of(s).push(c)) by {
        assert forall|i: int| 0 <= i < chunks_of(s + c).len() implies chunks_of(s + c)[i]
            == chunks_of(s).push(c)[i] by {
            if i < s.len() / 32 {
                assert((s + c).subrange(32 * i, 32 * i + 32) =~= s.subrange(32 * i, 32 * i + 32));
            } else {
                assert((s + c).subrange(32 * i, 32 * i + 32) =~= c);
            }
        }
    }
}

/// Cutting a chunk-aligned buffer into chunks and concatenating them back
/// recovers the buffer.
pub proof fn lemma_flatten_of_chunks(s: Seq<u8>)
    requires
        s.len() % 32 == 0,
    ensures
        chunks_of(s).flatten() == s,
    decreases s.len(),
{
    if s.len() == 0 {
        assert(chunks_of(s) =~= Seq::<Seq<u8>>::empty());
        assert(chunks_of(s).flatten() =~= s);
    } else {
        let s1 = s.subrange(0, s.len() - 32);
        let c = s.subrange(s.len() - 32, s.len() as int);
        lemma_flatten_of_chunks(s1);
        lemma_chunks_of_append(s1, c);
        assert(s1 + c =~= s);
        chunks_of(s1).lemma_flatten_push(c);
        assert(chunks_of(s).flatten() == s1 + c);
    }
}

/// A hash round turns chunks into chunks and halves the layer, rounding up.
pub proof fn lemma_hash_round_shape(layer: Seq<Seq<u8>>, i: nat)
    requires
        all_chunks(layer),
    ensures
        all_chunks(hash_round(layer, i)),
        hash_round(layer, i).len() == (layer.len() + 1) / 2,
{
    lemma_zero_hash_len(i);
}

/// Reducing a layer of at most `pow2(rounds)` chunks for `rounds` rounds
/// leaves exactly one chunk.
pub proof fn lemma_reduce_to_one(layer: Seq<Seq<u8>>, i: nat, rounds: nat)
    requires
        all_chunks(layer),
        1 <= layer.len() <= pow2(rounds),
    ensures
        all_chunks(reduce(layer, i, rounds)),
        reduce(layer, i, rounds).len() == 1,
    decreases rounds,
{
    if rounds == 0 {
        lemma2_to64();
    } else {
        lemma_hash_round_shape(layer, i);
        lemma_pow2_unfold(rounds);
        lemma_reduce_to_one(hash_round(layer, i), i + 1, (rounds - 1) as nat);
    }
}

/// Every count of leaves fits in a tree of its depth.
pub proof fn lemma_depth_of_bound(n: nat)
    ensures
        n <= pow2(depth_of(n)),
    decreases n,
{
    lemma2_to64();
    if n > 1 {
        let m = ((n + 1) / 2) as nat;
        lemma_depth_of_bound(m);
        lemma_pow2_unfold(depth_of(n));
    }
}

/// A tree of depth `k` needs no more than `k` rounds: any count within
/// `pow2(k)` has depth at most `k`.
pub proof fn lemma_depth_of_mono(n: nat, k: nat)
    requires
        n <= pow2(k),
    ensures
        depth_of(n) <= k,
    decreases n,
{
    lemma2_to64();
    if n > 1 {
        if k == 0 {
            assert(false);
        } else {
            let m = ((n + 1) / 2) as nat;
            lemma_pow2_unfold(k);
            lemma_depth_of_mono(m, (k - 1) as nat);
        }
    }
}

/// `depth_of(n)` is the unique `k` with `pow2(k - 1) < n <= pow2(k)`
/// (taking the lower bound as vacuous at `k == 0`).
pub proof fn lemma_depth_of_exact(n: nat, k: nat)
    requires
        1 <= n,
        n <= pow2(k),
        k == 0 || pow2((k - 1) as nat) < n,
    ensures
        depth_of(n) == k,
{
    lemma_depth_of_mono(n, k);
    lemma_depth_of_bound(n);
    if k > 0 {
        if depth_of(n) < k {
            if depth_of(n) < k - 1 {
                lemma_pow2_strictly_increases(depth_of(n), (k - 1) as nat);
            }
            assert(pow2(depth_of(n)) <= pow2((k - 1) as nat));
            assert(false);
        }
    }
}

/// The zero-subtree table's law: depth zero is the all-zero chunk, and
/// each deeper root hashes two copies of the one above it.
pub proof fn lemma_zero_hash_recurrence(i: nat)
    ensures
        zero_hash(0) == zeros(32),
        zero_hash(i + 1) == hash2(zero_hash(i), zero_hash(i)),
{
}

/// An empty region's root: the zero-subtree root of the region's depth for
/// any capacity above one, and the all-zero chunk for capacities zero and
/// one.
pub proof fn lemma_merkle_root_empty(limit: nat)
    ensures
        limit > 1 ==> merkle_root(Seq::<u8>::empty(), limit) == zero_hash(depth_of(limit)),
        limit <= 1 ==> merkle_root(Seq::<u8>::empty(), limit) == zeros(32),
{
}

/// A region of one chunk with capacity one is that chunk, unchanged.
pub proof fn lemma_merkle_root_single_chunk(c: Seq<u8>)
    requires
        c.len() == 32,
    ensures
        merkle_root(c, 1) == c,
{
}

/// Two chunks with capacity two collapse to the hash of their
/// concatenation.
pub proof fn lemma_merkle_root_two_chunks(a: Seq<u8>, b: Seq<u8>)
    requires
        a.len() == 32,
        b.len() == 32,
    ensures
        merkle_root(a + b, 2) == hash2(a, b),
{
    let s = a + b;
    assert(depth_of(1) == 0);
    assert(depth_of(2) == 1);
    assert(chunks_of(s) =~~= seq![a, b]) by {
        assert(s.subrange(0, 32) =~= a);
        assert(s.subrange(32, 64) =~= b);
    }
    let r = hash_round(seq![a, b], 0);
    assert(r =~~= seq![hash2(a, b)]);
    assert(reduce(chunks_of(s), 0, 1) == reduce(r, 1, 0));
    assert(reduce(r, 1, 0) == r);
    r.lemma_flatten_one_element();
}

/// Three chunks with capacity four: the first round pads with the all-zero
/// chunk's root (never a copy of the third chunk), the second combines the
/// two intermediate hashes.
pub proof fn lemma_merkle_root_three_chunks(a: Seq<u8>, b: Seq<u8>, c: Seq<u8>)
    requires
        a.len() == 32,
        b.len() == 32,
        c.len() == 32,
    ensures
        merkle_root(a + b + c, 4) == hash2(hash2(a, b), hash2(c, zero_hash(0))),
{
    let s = a + b + c;
    assert(depth_of(1) == 0);
    assert(depth_of(2) == 1);
    assert(depth_of(4) == 2);
    assert(chunks_of(s) =~~= seq![a, b, c]) by {
        assert(s.subrange(0, 32) =~= a);
        assert(s.subrange(32, 64) =~= b);
        assert(s.subrange(64, 96) =~= c);
    }
    lemma_zero_hash_len(0);
    let r0 = hash_round(seq![a, b, c], 0);
    assert(r0 =~~= seq![hash2(a, b), hash2(c, zero_hash(0))]) by {
        assert(seq![a, b, c].push(zero_hash(0)) =~= seq![a, b, c, zero_hash(0)]);
    }
    let r1 = hash_round(r0, 1);
    assert(r1 =~~= seq![hash2(hash2(a, b), hash2(c, zero_hash(0)))]);
    assert(reduce(chunks_of(s), 0, 2) == reduce(r0, 1, 1));
    assert(reduce(r0, 1, 1) == reduce(r1, 2, 0));
    assert(reduce(r1, 2, 0) == r1);
    r1.lemma_flatten_one_element();
}

/// A merkleized region is always exactly one chunk, whatever it held.
pub proof fn lemma_merkle_root_len(input: Seq<u8>, limit: nat)
    requires
        input.len() % 32 == 0,
        limit != 0 ==> input.len() / 32 <= limit,
    ensures
        merkle_root(input, limit).len() == 32,
{
    let count = input.len() / 32;
    let lim: nat = if limit == 0 {
        count
    } else {
        limit
    };
    if lim <= 1 {
    } else {
        let depth = depth_of(lim);
        if count == 0 {
            lemma_zero_hash_len(depth);
        } else {
            lemma_chunks_of_all(input);
            lemma_depth_of_bound(lim);
            lemma_reduce_to_one(chunks_of(input), 0, depth);
            let reduced = reduce(chunks_of(input), 0, depth);
            reduced.lemma_flatten_one_element();
            assert(reduced.flatten() == reduced[0]);
        }
    }
}

} // verus!
