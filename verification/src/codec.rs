//! The packed binary codec: little-endian words laid out back to back,
//! booleans packed eight to a byte, byte strings copied verbatim. Decoding
//! is the exact inverse and rejects inputs of the wrong shape.
use vstd::prelude::*;

use crate::hasher::push_range;
use crate::Error;
use vstd::bytes::lemma_auto_spec_u128_to_from_le_bytes;
use vstd::bytes::lemma_auto_spec_u16_to_from_le_bytes;
use vstd::bytes::lemma_auto_spec_u32_to_from_le_bytes;
use vstd::bytes::lemma_auto_spec_u64_to_from_le_bytes;
use vstd::bytes::spec_u128_from_le_bytes;
use vstd::bytes::spec_u128_to_le_bytes;
use vstd::bytes::spec_u16_from_le_bytes;
use vstd::bytes::spec_u16_to_le_bytes;
use vstd::bytes::spec_u32_from_le_bytes;
use vstd::bytes::spec_u32_to_le_bytes;
use vstd::bytes::u128_from_le_bytes;
use vstd::bytes::u128_to_le_bytes;
use vstd::bytes::u16_from_le_bytes;
use vstd::bytes::u16_to_le_bytes;
use vstd::bytes::u32_from_le_bytes;
use vstd::bytes::u32_to_le_bytes;
use vstd::bytes::spec_u64_from_le_bytes;
use vstd::bytes::spec_u64_to_le_bytes;
use vstd::bytes::u64_from_le_bytes;
use vstd::bytes::u64_to_le_bytes;
use vstd::slice::slice_subrange;
use vstd::slice::slice_to_vec;

verus! {

/// Encoded size of `n` packed elements of `s` bytes each.
pub open spec fn packed_size(n: nat, s: nat) -> nat {
    n * s
}

/// Encoded size of `n` bit-packed booleans: one bit per element.
pub open spec fn bool_packed_size(n: nat) -> nat {
    (n + 7) / 8
}

/// The packed encoding of a word sequence: each word's eight little-endian
/// bytes, in order, with no separators.
pub open spec fn spec_encode_u64s(s: Seq<u64>) -> Seq<u8> {
    s.map_values(|x: u64| spec_u64_to_le_bytes(x)).flatten()
}

/// The words read back from a packed encoding (a trailing fragment shorter
/// than a word is ignored; buffers of interest are word-aligned).
pub open spec fn spec_decode_u64s(b: Seq<u8>) -> Seq<u64> {
    Seq::new(b.len() / 8, |i: int| spec_u64_from_le_bytes(b.subrange(8 * i, 8 * i + 8)))
}

/// Element `i` of `s`, with everything past the end reading as false: the
/// value of bit `i` in the bit-packed encoding.
pub open spec fn bool_bit(s: Seq<bool>, i: int) -> bool {
    0 <= i < s.len() && s[i]
}

/// The byte holding bits `b0` (least significant) through `b7`.
pub open spec fn pack_bits(
    b0: bool,
    b1: bool,
    b2: bool,
    b3: bool,
    b4: bool,
    b5: bool,
    b6: bool,
    b7: bool,
) -> u8 {
    (if b0 {
        1u8
    } else {
        0u8
    }) | (if b1 {
        2u8
    } else {
        0u8
    }) | (if b2 {
        4u8
    } else {
        0u8
    }) | (if b3 {
        8u8
    } else {
        0u8
    }) | (if b4 {
        16u8
    } else {
        0u8
    }) | (if b5 {
        32u8
    } else {
        0u8
    }) | (if b6 {
        64u8
    } else {
        0u8
    }) | (if b7 {
        128u8
    } else {
        0u8
    })
}

/// The byte at `base` of the bit-packed encoding of `s`: eight consecutive
/// elements, least-significant bit first, absent elements as zero bits.
pub open spec fn byte_of_bools(s: Seq<bool>, base: int) -> u8 {
    pack_bits(
        bool_bit(s, base),
        bool_bit(s, base + 1),
        bool_bit(s, base + 2),
        bool_bit(s, base + 3),
        bool_bit(s, base + 4),
        bool_bit(s, base + 5),
        bool_bit(s, base + 6),
        bool_bit(s, base + 7),
    )
}

/// The bit-packed encoding of a boolean sequence: `ceil(n / 8)` bytes, bit
/// `i % 8` of byte `i / 8` set exactly when element `i` is true.
pub open spec fn spec_encode_bools(s: Seq<bool>) -> Seq<u8> {
    Seq::new((s.len() + 7) / 8, |i: int| byte_of_bools(s, 8 * i))
}

/// Bit `k` of a byte, least-significant bit first.
pub open spec fn byte_bit(b: u8, k: nat) -> bool {
    (b >> (k as u8)) & 1 == 1
}

/// The `n` booleans read back from a bit-packed encoding.
pub open spec fn spec_decode_bools(b: Seq<u8>, n: nat) -> Seq<bool> {
    Seq::new(n, |i: int| byte_bit(b[i / 8], (i % 8) as nat))
}

/// Reading bit `k` back from a packed byte recovers the bit that was put
/// there.
proof fn lemma_pack_bits_bit(
    b0: bool,
    b1: bool,
    b2: bool,
    b3: bool,
    b4: bool,
    b5: bool,
    b6: bool,
    b7: bool,
    k: u8,
)
    requires
        k < 8,
    ensures
        byte_bit(pack_bits(b0, b1, b2, b3, b4, b5, b6, b7), k as nat) == (if k == 0 {
            b0
        } else if k == 1 {
            b1
        } else if k == 2 {
            b2
        } else if k == 3 {
            b3
        } else if k == 4 {
            b4
        } else if k == 5 {
            b5
        } else if k == 6 {
            b6
        } else {
            b7
        }),
{
    let p = pack_bits(b0, b1, b2, b3, b4, b5, b6, b7);
    assert((((if b0 {
        1u8
    } else {
        0u8
    }) | (if b1 {
        2u8
    } else {
        0u8
    }) | (if b2 {
        4u8
    } else {
        0u8
    }) | (if b3 {
        8u8
    } else {
        0u8
    }) | (if b4 {
        16u8
    } else {
        0u8
    }) | (if b5 {
        32u8
    } else {
        0u8
    }) | (if b6 {
        64u8
    } else {
        0u8
    }) | (if b7 {
        128u8
    } else {
        0u8
    })) >> k) & 1 == 1 <==> (if k == 0 {
        b0
    } else if k == 1 {
        b1
    } else if k == 2 {
        b2
    } else if k == 3 {
        b3
    } else if k == 4 {
        b4
    } else if k == 5 {
        b5
    } else if k == 6 {
        b6
    } else {
        b7
    })) by (bit_vector)
        requires
            k < 8,
    ;
}

/// Bit `i % 8` of byte `i / 8` of the bit-packed encoding reflects element
/// `i`, and every bit past the last element is zero.
pub proof fn lemma_encode_bools_bits(s: Seq<bool>, j: int, k: nat)
    requires
        0 <= j < spec_encode_bools(s).len(),
        k < 8,
    ensures
        byte_bit(spec_encode_bools(s)[j], k) == bool_bit(s, 8 * j + k),
{
    lemma_pack_bits_bit(
        bool_bit(s, 8 * j),
        bool_bit(s, 8 * j + 1),
        bool_bit(s, 8 * j + 2),
        bool_bit(s, 8 * j + 3),
        bool_bit(s, 8 * j + 4),
        bool_bit(s, 8 * j + 5),
        bool_bit(s, 8 * j + 6),
        bool_bit(s, 8 * j + 7),
        k as u8,
    );
}

/// Decoding a bit-packed encoding recovers the booleans, and the encoding
/// is one bit per element, rounded up to whole bytes.
pub proof fn lemma_bools_round_trip(s: Seq<bool>)
    ensures
        spec_encode_bools(s).len() == bool_packed_size(s.len()),
        spec_decode_bools(spec_encode_bools(s), s.len()) == s,
{
    let e = spec_encode_bools(s);
    assert(spec_decode_bools(e, s.len()) =~= s) by {
        assert forall|i: int| 0 <= i < s.len() implies spec_decode_bools(e, s.len())[i]
            == s[i] by {
            vstd::arithmetic::div_mod::lemma_fundamental_div_mod(i, 8);
            lemma_encode_bools_bits(s, i / 8, (i % 8) as nat);
        }
    }
}

/// A concatenation of pieces of `w` bytes each is `w` bytes per piece.
proof fn lemma_flatten_len_uniform(cs: Seq<Seq<u8>>, w: nat)
    requires
        forall|i: int| 0 <= i < cs.len() ==> (#[trigger] cs[i]).len() == w,
    ensures
        cs.flatten().len() == w * cs.len(),
    decreases cs.len(),
{
    if cs.len() > 0 {
        let tail = cs.drop_first();
        assert(forall|i: int| 0 <= i < tail.len() ==> #[trigger] tail[i] == cs[i + 1]);
        lemma_flatten_len_uniform(tail, w);
        assert(w * cs.len() == w + w * (cs.len() - 1)) by (nonlinear_arith)
            requires
                cs.len() >= 1,
        ;
    }
}

/// Piece `i` of a concatenation of `w`-byte pieces sits at bytes
/// `w * i .. w * i + w`.
proof fn lemma_flatten_index_uniform(cs: Seq<Seq<u8>>, w: nat, i: int)
    requires
        forall|t: int| 0 <= t < cs.len() ==> (#[trigger] cs[t]).len() == w,
        0 <= i < cs.len(),
    ensures
        cs.flatten().subrange(w as int * i, w as int * i + w as int) == cs[i],
    decreases i,
{
    lemma_flatten_len_uniform(cs, w);
    let tail = cs.drop_first();
    assert(forall|t: int| 0 <= t < tail.len() ==> #[trigger] tail[t] == cs[t + 1]);
    lemma_flatten_len_uniform(tail, w);
    assert(cs.flatten() == cs[0] + tail.flatten());
    assert(w as int * i + w <= w * cs.len()) by (nonlinear_arith)
        requires
            0 <= i < cs.len(),
            w >= 0,
    ;
    if i == 0 {
        assert(cs.flatten().subrange(0, w as int) =~= cs[0]);
    } else {
        lemma_flatten_index_uniform(tail, w, i - 1);
        assert(w as int * (i - 1) == w as int * i - w) by (nonlinear_arith);
        assert(w as int * i >= w) by (nonlinear_arith)
            requires
                i >= 1,
                w >= 0,
        ;
        assert(cs.flatten().subrange(w as int * i, w as int * i + w as int) =~= tail
            .flatten()
            .subrange(w as int * (i - 1), w as int * (i - 1) + w as int));
    }
}

/// Decoding a packed word encoding recovers the words, and the encoding is
/// eight bytes per word.
pub proof fn lemma_u64s_round_trip(s: Seq<u64>)
    ensures
        spec_encode_u64s(s).len() == packed_size(s.len(), 8),
        spec_decode_u64s(spec_encode_u64s(s)) == s,
{
    lemma_auto_spec_u64_to_from_le_bytes();
    let cs = s.map_values(|x: u64| spec_u64_to_le_bytes(x));
    lemma_flatten_len_uniform(cs, 8);
    vstd::arithmetic::mul::lemma_mul_is_commutative(s.len() as int, 8);
    assert(spec_decode_u64s(spec_encode_u64s(s)) =~= s) by {
        assert forall|i: int| 0 <= i < s.len() implies spec_decode_u64s(spec_encode_u64s(s))[i]
            == s[i] by {
            lemma_flatten_index_uniform(cs, 8, i);
        }
    }
}

/// Encodes words back to back, eight little-endian bytes each.
pub fn encode_u64s(v: &[u64]) -> (r: Vec<u8>)
    ensures
        r@ == spec_encode_u64s(v@),
        r@.len() == packed_size(v@.len(), 8),
{
    let ghost cs = v@.map_values(|x: u64| spec_u64_to_le_bytes(x));
    let n = v.len();
    let mut out: Vec<u8> = Vec::new();
    let mut i: usize = 0;
    proof {
        assert(v@.take(0).map_values(|x: u64| spec_u64_to_le_bytes(x)) =~= Seq::<Seq<u8>>::empty());
        assert(Seq::<Seq<u8>>::empty().flatten() =~= Seq::<u8>::empty());
    }
    while i < n
        invariant
            i <= n,
            n == v@.len(),
            out@ == spec_encode_u64s(v@.take(i as int)),
        decreases n - i,
    {
        let bytes = u64_to_le_bytes(v[i]);
        push_range(&mut out, bytes.as_slice(), 0, 8);
        proof {
            lemma_auto_spec_u64_to_from_le_bytes();
            assert(bytes@.subrange(0, 8) =~= bytes@);
            let f = |x: u64| spec_u64_to_le_bytes(x);
            assert(v@.take(i as int + 1).map_values(f) =~= v@.take(i as int).map_values(f).push(
                f(v@[i as int]),
            ));
            v@.take(i as int).map_values(f).lemma_flatten_push(f(v@[i as int]));
        }
        i += 1;
    }
    proof {
        assert(v@.take(n as int) =~= v@);
        lemma_u64s_round_trip(v@);
    }
    out
}

/// Decodes a packed word encoding that must hold exactly `n` words: a
/// buffer not on a word boundary is too short or malformed, a word count
/// other than `n` is the wrong length.
pub fn decode_u64s(bytes: &[u8], n: usize) -> (r: Result<Vec<u64>, Error>)
    ensures
        r is Ok <==> bytes@.len() == 8 * n,
        r is Ok ==> r->Ok_0@ == spec_decode_u64s(bytes@),
        bytes@.len() % 8 != 0 ==> r == Err::<Vec<u64>, Error>(Error::IncorrectSize),
        bytes@.len() % 8 == 0 && bytes@.len() != 8 * n ==> r == Err::<Vec<u64>, Error>(
            Error::InvalidLength,
        ),
{
    if bytes.len() % 8 != 0 {
        return Err(Error::IncorrectSize);
    }
    let count = bytes.len() / 8;
    proof {
        vstd::arithmetic::div_mod::lemma_fundamental_div_mod(bytes@.len() as int, 8);
    }
    if count != n {
        return Err(Error::InvalidLength);
    }
    let mut out: Vec<u64> = Vec::new();
    let mut i: usize = 0;
    proof {
        assert(spec_decode_u64s(bytes@).take(0) =~= Seq::<u64>::empty());
    }
    while i < count
        invariant
            i <= count,
            count == bytes@.len() / 8,
            8 * count == bytes@.len(),
            bytes@.len() <= usize::MAX,
            out@ == spec_decode_u64s(bytes@).take(i as int),
        decreases count - i,
    {
        let w = u64_from_le_bytes(slice_subrange(bytes, 8 * i, 8 * i + 8));
        out.push(w);
        proof {
            assert(spec_decode_u64s(bytes@).take(i as int + 1) =~= spec_decode_u64s(
                bytes@,
            ).take(i as int).push(spec_decode_u64s(bytes@)[i as int]));
        }
        i += 1;
    }
    proof {
        assert(spec_decode_u64s(bytes@).take(count as int) =~= spec_decode_u64s(bytes@));
    }
    Ok(out)
}

/// The packed encoding of a 16-bit word sequence: each word's 2
/// little-endian bytes, in order, with no separators.
pub open spec fn spec_encode_u16s(s: Seq<u16>) -> Seq<u8> {
    s.map_values(|x: u16| spec_u16_to_le_bytes(x)).flatten()
}

/// The 16-bit words read back from a packed encoding.
pub open spec fn spec_decode_u16s(b: Seq<u8>) -> Seq<u16> {
    Seq::new(b.len() / 2, |i: int| spec_u16_from_le_bytes(b.subrange(2 * i, 2 * i + 2)))
}

/// Decoding a packed 16-bit word encoding recovers the words, and the
/// encoding is 2 bytes per word.
pub proof fn lemma_u16s_round_trip(s: Seq<u16>)
    ensures
        spec_encode_u16s(s).len() == packed_size(s.len(), 2),
        spec_decode_u16s(spec_encode_u16s(s)) == s,
{
    lemma_auto_spec_u16_to_from_le_bytes();
    let cs = s.map_values(|x: u16| spec_u16_to_le_bytes(x));
    lemma_flatten_len_uniform(cs, 2);
    vstd::arithmetic::mul::lemma_mul_is_commutative(s.len() as int, 2);
    assert(spec_decode_u16s(spec_encode_u16s(s)) =~= s) by {
        assert forall|i: int| 0 <= i < s.len() implies spec_decode_u16s(spec_encode_u16s(s))[i]
            == s[i] by {
            lemma_flatten_index_uniform(cs, 2, i);
            assert(spec_u16_to_le_bytes(s[i]).len() == 2);
        }
    }
}

/// Encodes 16-bit words back to back, 2 little-endian bytes each.
pub fn encode_u16s(v: &[u16]) -> (r: Vec<u8>)
    ensures
        r@ == spec_encode_u16s(v@),
        r@.len() == packed_size(v@.len(), 2),
{
    let n = v.len();
    let mut out: Vec<u8> = Vec::new();
    let mut i: usize = 0;
    proof {
        assert(v@.take(0).map_values(|x: u16| spec_u16_to_le_bytes(x)) =~= Seq::<Seq<u8>>::empty());
        assert(Seq::<Seq<u8>>::empty().flatten() =~= Seq::<u8>::empty());
    }
    while i < n
        invariant
            i <= n,
            n == v@.len(),
            out@ == spec_encode_u16s(v@.take(i as int)),
        decreases n - i,
    {
        let bytes = u16_to_le_bytes(v[i]);
        push_range(&mut out, bytes.as_slice(), 0, 2);
        proof {
            lemma_auto_spec_u16_to_from_le_bytes();
            assert(bytes@.subrange(0, 2) =~= bytes@);
            let f = |x: u16| spec_u16_to_le_bytes(x);
            assert(v@.take(i as int + 1).map_values(f) =~= v@.take(i as int).map_values(f).push(
                f(v@[i as int]),
            ));
            v@.take(i as int).map_values(f).lemma_flatten_push(f(v@[i as int]));
        }
        i += 1;
    }
    proof {
        assert(v@.take(n as int) =~= v@);
        lemma_u16s_round_trip(v@);
    }
    out
}

/// Decodes a packed 16-bit word encoding that must hold exactly `n`
/// words: a buffer not on a word boundary is too short or malformed, a word
/// count other than `n` is the wrong length.
pub fn decode_u16s(bytes: &[u8], n: usize) -> (r: Result<Vec<u16>, Error>)
    ensures
        r is Ok <==> bytes@.len() == 2 * n,
        r is Ok ==> r->Ok_0@ == spec_decode_u16s(bytes@),
        bytes@.len() % 2 != 0 ==> r == Err::<Vec<u16>, Error>(Error::IncorrectSize),
        bytes@.len() % 2 == 0 && bytes@.len() != 2 * n ==> r == Err::<Vec<u16>, Error>(
            Error::InvalidLength,
        ),
{
    if bytes.len() % 2 != 0 {
        return Err(Error::IncorrectSize);
    }
    let count = bytes.len() / 2;
    proof {
        vstd::arithmetic::div_mod::lemma_fundamental_div_mod(bytes@.len() as int, 2);
    }
    if count != n {
        return Err(Error::InvalidLength);
    }
    let mut out: Vec<u16> = Vec::new();
    let mut i: usize = 0;
    proof {
        assert(spec_decode_u16s(bytes@).take(0) =~= Seq::<u16>::empty());
    }
    while i < count
        invariant
            i <= count,
            count == bytes@.len() / 2,
            2 * count == bytes@.len(),
            bytes@.len() <= usize::MAX,
            out@ == spec_decode_u16s(bytes@).take(i as int),
        decreases count - i,
    {
        let w = u16_from_le_bytes(slice_subrange(bytes, 2 * i, 2 * i + 2));
        out.push(w);
        proof {
            assert(spec_decode_u16s(bytes@).take(i as int + 1) =~= spec_decode_u16s(
                bytes@,
            ).take(i as int).push(spec_decode_u16s(bytes@)[i as int]));
        }
        i += 1;
    }
    proof {
        assert(spec_decode_u16s(bytes@).take(count as int) =~= spec_decode_u16s(bytes@));
    }
    Ok(out)
}


/// The packed encoding of a 32-bit word sequence: each word's 4
/// little-endian bytes, in order, with no separators.
pub open spec fn spec_encode_u32s(s: Seq<u32>) -> Seq<u8> {
    s.map_values(|x: u32| spec_u32_to_le_bytes(x)).flatten()
}

/// The 32-bit words read back from a packed encoding.
pub open spec fn spec_decode_u32s(b: Seq<u8>) -> Seq<u32> {
    Seq::new(b.len() / 4, |i: int| spec_u32_from_le_bytes(b.subrange(4 * i, 4 * i + 4)))
}

/// Decoding a packed 32-bit word encoding recovers the words, and the
/// encoding is 4 bytes per word.
pub proof fn lemma_u32s_round_trip(s: Seq<u32>)
    ensures
        spec_encode_u32s(s).len() == packed_size(s.len(), 4),
        spec_decode_u32s(spec_encode_u32s(s)) == s,
{
    lemma_auto_spec_u32_to_from_le_bytes();
    let cs = s.map_values(|x: u32| spec_u32_to_le_bytes(x));
    lemma_flatten_len_uniform(cs, 4);
    vstd::arithmetic::mul::lemma_mul_is_commutative(s.len() as int, 4);
    assert(spec_decode_u32s(spec_encode_u32s(s)) =~= s) by {
        assert forall|i: int| 0 <= i < s.len() implies spec_decode_u32s(spec_encode_u32s(s))[i]
            == s[i] by {
            lemma_flatten_index_uniform(cs, 4, i);
            assert(spec_u32_to_le_bytes(s[i]).len() == 4);
        }
    }
}

/// Encodes 32-bit words back to back, 4 little-endian bytes each.
pub fn encode_u32s(v: &[u32]) -> (r: Vec<u8>)
    ensures
        r@ == spec_encode_u32s(v@),
        r@.len() == packed_size(v@.len(), 4),
{
    let n = v.len();
    let mut out: Vec<u8> = Vec::new();
    let mut i: usize = 0;
    proof {
        assert(v@.take(0).map_values(|x: u32| spec_u32_to_le_bytes(x)) =~= Seq::<Seq<u8>>::empty());
        assert(Seq::<Seq<u8>>::empty().flatten() =~= Seq::<u8>::empty());
    }
    while i < n
        invariant
            i <= n,
            n == v@.len(),
            out@ == spec_encode_u32s(v@.take(i as int)),
        decreases n - i,
    {
        let bytes = u32_to_le_bytes(v[i]);
        push_range(&mut out, bytes.as_slice(), 0, 4);
        proof {
            lemma_auto_spec_u32_to_from_le_bytes();
            assert(bytes@.subrange(0, 4) =~= bytes@);
            let f = |x: u32| spec_u32_to_le_bytes(x);
            assert(v@.take(i as int + 1).map_values(f) =~= v@.take(i as int).map_values(f).push(
                f(v@[i as int]),
            ));
            v@.take(i as int).map_values(f).lemma_flatten_push(f(v@[i as int]));
        }
        i += 1;
    }
    proof {
        assert(v@.take(n as int) =~= v@);
        lemma_u32s_round_trip(v@);
    }
    out
}

/// Decodes a packed 32-bit word encoding that must hold exactly `n`
/// words: a buffer not on a word boundary is too short or malformed, a word
/// count other than `n` is the wrong length.
pub fn decode_u32s(bytes: &[u8], n: usize) -> (r: Result<Vec<u32>, Error>)
    ensures
        r is Ok <==> bytes@.len() == 4 * n,
        r is Ok ==> r->Ok_0@ == spec_decode_u32s(bytes@),
        bytes@.len() % 4 != 0 ==> r == Err::<Vec<u32>, Error>(Error::IncorrectSize),
        bytes@.len() % 4 == 0 && bytes@.len() != 4 * n ==> r == Err::<Vec<u32>, Error>(
            Error::InvalidLength,
        ),
{
    if bytes.len() % 4 != 0 {
        return Err(Error::IncorrectSize);
    }
    let count = bytes.len() / 4;
    proof {
        vstd::arithmetic::div_mod::lemma_fundamental_div_mod(bytes@.len() as int, 4);
    }
    if count != n {
        return Err(Error::InvalidLength);
    }
    let mut out: Vec<u32> = Vec::new();
    let mut i: usize = 0;
    proof {
        assert(spec_decode_u32s(bytes@).take(0) =~= Seq::<u32>::empty());
    }
    while i < count
        invariant
            i <= count,
            count == bytes@.len() / 4,
            4 * count == bytes@.len(),
            bytes@.len() <= usize::MAX,
            out@ == spec_decode_u32s(bytes@).take(i as int),
        decreases count - i,
    {
        let w = u32_from_le_bytes(slice_subrange(bytes, 4 * i, 4 * i + 4));
        out.push(w);
        proof {
            assert(spec_decode_u32s(bytes@).take(i as int + 1) =~= spec_decode_u32s(
                bytes@,
            ).take(i as int).push(spec_decode_u32s(bytes@)[i as int]));
        }
        i += 1;
    }
    proof {
        assert(spec_decode_u32s(bytes@).take(count as int) =~= spec_decode_u32s(bytes@));
    }
    Ok(out)
}


/// The packed encoding of a 128-bit word sequence: each word's 16
/// little-endian bytes, in order, with no separators.
pub open spec fn spec_encode_u128s(s: Seq<u128>) -> Seq<u8> {
    s.map_values(|x: u128| spec_u128_to_le_bytes(x)).flatten()
}

/// The 128-bit words read back from a packed encoding.
pub open spec fn spec_decode_u128s(b: Seq<u8>) -> Seq<u128> {
    Seq::new(b.len() / 16, |i: int| spec_u128_from_le_bytes(b.subrange(16 * i, 16 * i + 16)))
}

/// Decoding a packed 128-bit word encoding recovers the words, and the
/// encoding is 16 bytes per word.
pub proof fn lemma_u128s_round_trip(s: Seq<u128>)
    ensures
        spec_encode_u128s(s).len() == packed_size(s.len(), 16),
        spec_decode_u128s(spec_encode_u128s(s)) == s,
{
    lemma_auto_spec_u128_to_from_le_bytes();
    let cs = s.map_values(|x: u128| spec_u128_to_le_bytes(x));
    lemma_flatten_len_uniform(cs, 16);
    vstd::arithmetic::mul::lemma_mul_is_commutative(s.len() as int, 16);
    assert(spec_decode_u128s(spec_encode_u128s(s)) =~= s) by {
        assert forall|i: int| 0 <= i < s.len() implies spec_decode_u128s(spec_encode_u128s(s))[i]
            == s[i] by {
            lemma_flatten_index_uniform(cs, 16, i);
            assert(spec_u128_to_le_bytes(s[i]).len() == 16);
        }
    }
}

/// Encodes 128-bit words back to back, 16 little-endian bytes each.
pub fn encode_u128s(v: &[u128]) -> (r: Vec<u8>)
    ensures
        r@ == spec_encode_u128s(v@),
        r@.len() == packed_size(v@.len(), 16),
{
    let n = v.len();
    let mut out: Vec<u8> = Vec::new();
    let mut i: usize = 0;
    proof {
        assert(v@.take(0).map_values(|x: u128| spec_u128_to_le_bytes(x)) =~= Seq::<Seq<u8>>::empty());
        assert(Seq::<Seq<u8>>::empty().flatten() =~= Seq::<u8>::empty());
    }
    while i < n
        invariant
            i <= n,
            n == v@.len(),
            out@ == spec_encode_u128s(v@.take(i as int)),
        decreases n - i,
    {
        let bytes = u128_to_le_bytes(v[i]);
        push_range(&mut out, bytes.as_slice(), 0, 16);
        proof {
            lemma_auto_spec_u128_to_from_le_bytes();
            assert(bytes@.subrange(0, 16) =~= bytes@);
            let f = |x: u128| spec_u128_to_le_bytes(x);
            assert(v@.take(i as int + 1).map_values(f) =~= v@.take(i as int).map_values(f).push(
                f(v@[i as int]),
            ));
            v@.take(i as int).map_values(f).lemma_flatten_push(f(v@[i as int]));
        }
        i += 1;
    }
    proof {
        assert(v@.take(n as int) =~= v@);
        lemma_u128s_round_trip(v@);
    }
    out
}

/// Decodes a packed 128-bit word encoding that must hold exactly `n`
/// words: a buffer not on a word boundary is too short or malformed, a word
/// count other than `n` is the wrong length.
pub fn decode_u128s(bytes: &[u8], n: usize) -> (r: Result<Vec<u128>, Error>)
    ensures
        r is Ok <==> bytes@.len() == 16 * n,
        r is Ok ==> r->Ok_0@ == spec_decode_u128s(bytes@),
        bytes@.len() % 16 != 0 ==> r == Err::<Vec<u128>, Error>(Error::IncorrectSize),
        bytes@.len() % 16 == 0 && bytes@.len() != 16 * n ==> r == Err::<Vec<u128>, Error>(
            Error::InvalidLength,
        ),
{
    if bytes.len() % 16 != 0 {
        return Err(Error::IncorrectSize);
    }
    let count = bytes.len() / 16;
    proof {
        vstd::arithmetic::div_mod::lemma_fundamental_div_mod(bytes@.len() as int, 16);
    }
    if count != n {
        return Err(Error::InvalidLength);
    }
    let mut out: Vec<u128> = Vec::new();
    let mut i: usize = 0;
    proof {
        assert(spec_decode_u128s(bytes@).take(0) =~= Seq::<u128>::empty());
    }
    while i < count
        invariant
            i <= count,
            count == bytes@.len() / 16,
            16 * count == bytes@.len(),
            bytes@.len() <= usize::MAX,
            out@ == spec_decode_u128s(bytes@).take(i as int),
        decreases count - i,
    {
        let w = u128_from_le_bytes(slice_subrange(bytes, 16 * i, 16 * i + 16));
        out.push(w);
        proof {
            assert(spec_decode_u128s(bytes@).take(i as int + 1) =~= spec_decode_u128s(
                bytes@,
            ).take(i as int).push(spec_decode_u128s(bytes@)[i as int]));
        }
        i += 1;
    }
    proof {
        assert(spec_decode_u128s(bytes@).take(count as int) =~= spec_decode_u128s(bytes@));
    }
    Ok(out)
}

/// Encodes booleans bit-packed, eight to a byte, least-significant bit
/// first; unused high bits of the last byte are zero.
pub fn encode_bools(v: &[bool]) -> (r: Vec<u8>)
    ensures
        r@ == spec_encode_bools(v@),
        r@.len() == bool_packed_size(v@.len()),
{
    let n = v.len();
    let m = n / 8 + if n % 8 != 0 {
        1
    } else {
        0
    };
    proof {
        vstd::arithmetic::div_mod::lemma_fundamental_div_mod(n as int, 8);
        assert(m == (n + 7) / 8);
        assert(spec_encode_bools(v@).take(0) =~= Seq::<u8>::empty());
    }
    let mut out: Vec<u8> = Vec::new();
    let mut bi: usize = 0;
    while bi < m
        invariant
            bi <= m,
            n == v@.len(),
            m == (n + 7) / 8,
            out@ == spec_encode_bools(v@).take(bi as int),
        decreases m - bi,
    {
        let base = bi * 8;
        proof {
            assert(base + 8 <= n + 7);
        }
        let c0 = 0 < n - base && v[base];
        let c1 = 1 < n - base && v[base + 1];
        let c2 = 2 < n - base && v[base + 2];
        let c3 = 3 < n - base && v[base + 3];
        let c4 = 4 < n - base && v[base + 4];
        let c5 = 5 < n - base && v[base + 5];
        let c6 = 6 < n - base && v[base + 6];
        let c7 = 7 < n - base && v[base + 7];
        let byte: u8 = (if c0 {
            1u8
        } else {
            0u8
        }) | (if c1 {
            2u8
        } else {
            0u8
        }) | (if c2 {
            4u8
        } else {
            0u8
        }) | (if c3 {
            8u8
        } else {
            0u8
        }) | (if c4 {
            16u8
        } else {
            0u8
        }) | (if c5 {
            32u8
        } else {
            0u8
        }) | (if c6 {
            64u8
        } else {
            0u8
        }) | (if c7 {
            128u8
        } else {
            0u8
        });
        proof {
            assert(byte == byte_of_bools(v@, base as int));
            assert(spec_encode_bools(v@).take(bi as int + 1) =~= spec_encode_bools(v@).take(
                bi as int,
            ).push(spec_encode_bools(v@)[bi as int]));
        }
        out.push(byte);
        bi += 1;
    }
    proof {
        assert(spec_encode_bools(v@).take(m as int) =~= spec_encode_bools(v@));
    }
    out
}

/// Decodes `n` bit-packed booleans: fails when the buffer is too short to
/// address bit `i` for some required element (extra trailing bytes are the
/// caller's concern and are ignored).
pub fn decode_bools(bytes: &[u8], n: usize) -> (r: Result<Vec<bool>, Error>)
    ensures
        r is Ok <==> n <= 8 * bytes@.len(),
        r is Ok ==> r->Ok_0@ == spec_decode_bools(bytes@, n as nat),
        !(r is Ok) ==> r == Err::<Vec<bool>, Error>(Error::IncorrectSize),
{
    let mut out: Vec<bool> = Vec::new();
    let mut i: usize = 0;
    proof {
        assert(spec_decode_bools(bytes@, n as nat).take(0) =~= Seq::<bool>::empty());
    }
    while i < n
        invariant
            i <= n,
            i <= 8 * bytes@.len(),
            out@ == spec_decode_bools(bytes@, n as nat).take(i as int),
        decreases n - i,
    {
        if i / 8 >= bytes.len() {
            proof {
                vstd::arithmetic::div_mod::lemma_fundamental_div_mod(i as int, 8);
            }
            return Err(Error::IncorrectSize);
        }
        let byte = bytes[i / 8];
        let k = (i % 8) as u8;
        let bit = (byte >> k) & 1 == 1;
        out.push(bit);
        proof {
            vstd::arithmetic::div_mod::lemma_fundamental_div_mod(i as int, 8);
            assert(spec_decode_bools(bytes@, n as nat).take(i as int + 1) =~= spec_decode_bools(
                bytes@,
                n as nat,
            ).take(i as int).push(spec_decode_bools(bytes@, n as nat)[i as int]));
        }
        i += 1;
    }
    proof {
        assert(spec_decode_bools(bytes@, n as nat).take(n as int) =~= spec_decode_bools(
            bytes@,
            n as nat,
        ));
    }
    Ok(out)
}

/// Encodes a byte string: the packed layout of bytes is the bytes
/// themselves.
pub fn encode_bytes(v: &[u8]) -> (r: Vec<u8>)
    ensures
        r@ == v@,
        r@.len() == packed_size(v@.len(), 1),
{
    proof {
        vstd::arithmetic::mul::lemma_mul_basics(v@.len() as int);
    }
    slice_to_vec(v)
}

/// Decodes a byte string that must hold exactly `n` bytes: any other
/// length is rejected, never truncated or zero-extended.
pub fn decode_bytes(bytes: &[u8], n: usize) -> (r: Result<Vec<u8>, Error>)
    ensures
        r is Ok <==> bytes@.len() == n,
        r is Ok ==> r->Ok_0@ == bytes@,
        bytes@.len() != n ==> r == Err::<Vec<u8>, Error>(Error::InvalidLength),
{
    if bytes.len() != n {
        return Err(Error::InvalidLength);
    }
    Ok(slice_to_vec(bytes))
}

/// A 32-byte hash value: exactly one chunk, encoded as its bytes.
#[derive(Clone, Copy, Debug, PartialEq, Eq)]
pub struct H256(pub [u8; 32]);

impl H256 {
    /// Encodes the hash as its 32 bytes, verbatim.
    pub fn encode(&self) -> (r: Vec<u8>)
        ensures
            r@ == self.0@,
    {
        encode_bytes32(&self.0)
    }

    /// Decodes a hash from exactly 32 bytes; any other length is the wrong
    /// length.
    pub fn decode(value: &[u8]) -> (r: Result<H256, Error>)
        ensures
            r is Ok <==> value@.len() == 32,
            r is Ok ==> r->Ok_0.0@ == value@,
            value@.len() != 32 ==> r == Err::<H256, Error>(Error::InvalidLength),
    {
        match decode_bytes32(value) {
            Ok(raw) => Ok(H256(raw)),
            Err(e) => Err(e),
        }
    }
}

/// Encodes a 32-byte hash value: its bytes, verbatim.
pub fn encode_bytes32(v: &[u8; 32]) -> (r: Vec<u8>)
    ensures
        r@ == v@,
{
    slice_to_vec(v.as_slice())
}

/// Decodes a 32-byte hash value: exactly 32 bytes, any other length is the
/// wrong length.
pub fn decode_bytes32(bytes: &[u8]) -> (r: Result<[u8; 32], Error>)
    ensures
        r is Ok <==> bytes@.len() == 32,
        r is Ok ==> r->Ok_0@ == bytes@,
        bytes@.len() != 32 ==> r == Err::<[u8; 32], Error>(Error::InvalidLength),
{
    if bytes.len() != 32 {
        return Err(Error::InvalidLength);
    }
    let mut val = [0u8; 32];
    let mut i: usize = 0;
    while i < 32
        invariant
            i <= 32,
            bytes@.len() == 32,
            forall|j: int| 0 <= j < i ==> val@[j] == bytes@[j],
        decreases 32 - i,
    {
        val[i] = bytes[i];
        i += 1;
    }
    proof {
        assert(val@ =~= bytes@);
    }
    Ok(val)
}

} // verus!
