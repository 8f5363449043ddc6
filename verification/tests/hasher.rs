use ssz::hash_root;
use ssz::sha256_sum;
use ssz::Error;
use ssz::HashTree;
use ssz::Hasher;

fn hex32(s: &str) -> [u8; 32] {
    assert_eq!(s.len(), 64);
    let digits: Vec<u8> = s
        .bytes()
        .map(|c| match c {
            b'0'..=b'9' => c - b'0',
            b'a'..=b'f' => c - b'a' + 10,
            b'A'..=b'F' => c - b'A' + 10,
            _ => panic!("not a hex digit"),
        })
        .collect();
    let mut out = [0u8; 32];
    for i in 0..32 {
        out[i] = digits[2 * i] * 16 + digits[2 * i + 1];
    }
    out
}

fn concat(a: &[u8], b: &[u8]) -> Vec<u8> {
    let mut out = a.to_vec();
    out.extend_from_slice(b);
    out
}

#[test]
fn sha256_known_vectors() {
    // Pins the digest wrapper to the SHA-256 standard: the well-known
    // digests of the empty string and of 64 zero bytes.
    assert_eq!(
        sha256_sum(&[]),
        hex32("e3b0c44298fc1c149afbf4c8996fb92427ae41e4649b934ca495991b7852b855")
    );
    assert_eq!(
        sha256_sum(&[0u8; 64]),
        hex32("f5a5fd42d16a20302798ef6ed309979b43003d2320d9f0e8ea9831a92759fb4b")
    );
    assert_eq!(
        sha256_sum(b"abc"),
        hex32("ba7816bf8f01cfea414140de5dae2223b00361a396177a9cb410ff61f20015ad")
    );
}

#[test]
fn new_hasher_is_empty() {
    let h = Hasher::new();
    assert_eq!(h.index(), 0);
    assert_eq!(h.hash_root(), Err(Error::IncorrectSize));
}

#[test]
fn append_bytes32_pads_right() {
    let mut h = Hasher::new();
    h.append_bytes32(&[1, 2, 3, 4, 5]);
    assert_eq!(h.index(), 32);
    let mut expected = vec![1, 2, 3, 4, 5];
    expected.extend_from_slice(&[0u8; 27]);
    assert_eq!(h.hash(), expected);
}

#[test]
fn append_bytes32_keeps_aligned_input() {
    let mut h = Hasher::new();
    h.append_bytes32(&[7u8; 32]);
    assert_eq!(h.index(), 32);
    assert_eq!(h.hash(), vec![7u8; 32]);
}

#[test]
fn put_u64_fills_one_chunk() {
    let mut h = Hasher::new();
    h.put_u64(258);
    assert_eq!(h.index(), 32);
    let mut expected = vec![2u8, 1];
    expected.extend_from_slice(&[0u8; 30]);
    assert_eq!(h.hash(), expected);
}

#[test]
fn merkleize_empty_region_small_limits() {
    // An empty region of capacity zero or one is the all-zero chunk.
    let h = Hasher::new();
    for limit in [0usize, 1] {
        let mut dst = Vec::new();
        h.merkleize_impl(&mut dst, &[], limit);
        assert_eq!(dst, vec![0u8; 32]);
    }
}

#[test]
fn merkleize_empty_region_uses_zero_subtree_roots() {
    // An empty region of capacity four is the depth-two zero-subtree root:
    // no hashing of real data, only the precomputed table entry.
    let h = Hasher::new();
    let zero1 = sha256_sum(&[0u8; 64]);
    let zero2 = sha256_sum(&concat(&zero1, &zero1));
    let mut dst = Vec::new();
    h.merkleize_impl(&mut dst, &[], 4);
    assert_eq!(dst, zero2.to_vec());

    // Capacity two: depth one.
    let mut dst = Vec::new();
    h.merkleize_impl(&mut dst, &[], 2);
    assert_eq!(
        dst,
        hex32("f5a5fd42d16a20302798ef6ed309979b43003d2320d9f0e8ea9831a92759fb4b").to_vec()
    );
}

#[test]
fn zero_subtree_roots_chain_by_hashing() {
    // Entry `i + 1` of the zero-subtree table is the hash of entry `i`
    // beside itself; entry 0 is the all-zero chunk. Observed through the
    // roots of empty regions of growing capacity.
    let h = Hasher::new();
    let mut expected = [0u8; 32];
    let mut limit = 1usize;
    for _ in 0..6 {
        let mut dst = Vec::new();
        h.merkleize_impl(&mut dst, &[], limit);
        assert_eq!(dst, expected.to_vec());
        expected = sha256_sum(&concat(&expected, &expected));
        limit *= 2;
    }
}

#[test]
fn merkleize_single_chunk_limit_one() {
    let h = Hasher::new();
    let chunk = [9u8; 32];
    let mut dst = Vec::new();
    h.merkleize_impl(&mut dst, &chunk, 1);
    assert_eq!(dst, chunk.to_vec());
}

#[test]
fn merkleize_two_chunks() {
    let a = [0xaau8; 32];
    let b = [0xbbu8; 32];
    let region = concat(&a, &b);
    let expected = sha256_sum(&region).to_vec();
    let h = Hasher::new();
    for limit in [0usize, 2] {
        let mut dst = Vec::new();
        h.merkleize_impl(&mut dst, &region, limit);
        assert_eq!(dst, expected);
    }
}

#[test]
fn merkleize_three_chunks_limit_four() {
    // Round one pads the odd layer with the all-zero chunk (never a copy
    // of the third chunk); round two combines the two intermediate hashes.
    let a = [1u8; 32];
    let b = [2u8; 32];
    let c = [3u8; 32];
    let left = sha256_sum(&concat(&a, &b));
    let right = sha256_sum(&concat(&c, &[0u8; 32]));
    let expected = sha256_sum(&concat(&left, &right)).to_vec();
    let region = concat(&concat(&a, &b), &c);
    let h = Hasher::new();
    let mut dst = Vec::new();
    h.merkleize_impl(&mut dst, &region, 4);
    assert_eq!(dst, expected);
}

#[test]
fn merkleize_keeps_prefix() {
    // Collapsing a region leaves the chunks before it untouched.
    let mut h = Hasher::new();
    h.append_bytes32(&[5u8; 32]);
    h.append_bytes32(&[6u8; 32]);
    h.append_bytes32(&[7u8; 32]);
    h.merkleize(32);
    assert_eq!(h.index(), 64);
    let expected = sha256_sum(&concat(&[6u8; 32], &[7u8; 32]));
    assert_eq!(h.hash(), expected.to_vec());
}

#[test]
fn put_bytes_short_value_is_one_chunk() {
    let mut h = Hasher::new();
    h.put_bytes(&[1u8; 32]);
    assert_eq!(h.index(), 32);
    assert_eq!(h.hash(), vec![1u8; 32]);
}

#[test]
fn put_bytes_forty_bytes_then_root() {
    // A 40-byte value spans two chunks, the second right-padded with 24
    // zero bytes; its root is the hash of the two chunks.
    let mut value = Vec::new();
    for i in 0..40 {
        value.push(i as u8 + 1);
    }
    let mut h = Hasher::new();
    h.put_bytes(&value);
    assert_eq!(h.index(), 32);

    let chunk0 = &value[..32];
    let mut chunk1 = value[32..].to_vec();
    chunk1.extend_from_slice(&[0u8; 24]);
    let expected = sha256_sum(&concat(chunk0, &chunk1));
    assert_eq!(h.hash_root(), Ok(expected));
}

#[test]
fn hash_root_needs_single_chunk() {
    let mut h = Hasher::new();
    h.append_bytes32(&[1u8; 32]);
    h.append_bytes32(&[2u8; 32]);
    assert_eq!(h.hash_root(), Err(Error::IncorrectSize));
    h.merkleize(0);
    assert!(h.hash_root().is_ok());
}

struct Pair {
    left: [u8; 32],
    right: [u8; 32],
}

impl HashTree for Pair {
    fn hash_tree_root_with(&self, h: &mut Hasher) -> Result<(), Error> {
        h.append_bytes32(&self.left);
        h.append_bytes32(&self.right);
        Ok(())
    }
}

struct Failing;

impl HashTree for Failing {
    fn hash_tree_root_with(&self, _h: &mut Hasher) -> Result<(), Error> {
        Err(Error::InvalidLength)
    }
}

#[test]
fn hash_root_drives_a_fresh_hasher() {
    let pair = Pair {
        left: [0x11u8; 32],
        right: [0x22u8; 32],
    };
    let expected = sha256_sum(&concat(&pair.left, &pair.right));
    assert_eq!(hash_root(&pair), Ok(expected));
}

#[test]
fn hash_root_propagates_errors() {
    assert_eq!(hash_root(&Failing), Err(Error::InvalidLength));
}

#[test]
fn h256_root_is_the_chunk_itself() {
    // A single chunk merkleized alone is unchanged: its hash-tree root is
    // the chunk.
    let value = ssz::H256([7u8; 32]);
    assert_eq!(hash_root(&value), Ok([7u8; 32]));
}
