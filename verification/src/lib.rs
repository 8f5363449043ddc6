//! A binary codec for fixed-shape values ("simple serialize") together with
//! an incremental Merkle hash-tree builder that turns the serialized form
//! into a single 32-byte root.
//!
//! The crate has two halves. [`codec`] lays values out as flat bytes and
//! reads them back: packed little-endian words, bit-packed booleans, and
//! plain byte strings. [`hasher`] accumulates 32-byte chunks in a buffer and
//! collapses any region of it to the Merkle root of its chunks, padding
//! unbalanced regions with precomputed roots of all-zero subtrees.
use vstd::prelude::*;

pub mod codec;
pub mod hasher;
pub mod merkle;

pub use codec::H256;
pub use hasher::hash_root;
pub use hasher::sha256_sum;
pub use hasher::HashTree;
pub use hasher::Hasher;

verus! {

/// Why a codec or hasher operation could not produce a value.
#[derive(Clone, Copy, Debug, PartialEq, Eq, Structural)]
pub enum Error {
    /// The decoded element count does not match the required fixed count.
    InvalidLength,
    /// The input holds too few bytes to decode every required element, or a
    /// hash root was requested from a buffer not yet collapsed to one chunk.
    IncorrectSize,
}

} // verus!
