//! The error taxonomy of the snapshot core.  Filesystem failures stay with
//! the caller that owns the files; everything the core itself can detect is
//! here.

use vstd::prelude::*;
use crate::rlp::DecoderError;

verus! {

/// A trie-backed store let the core down.
#[derive(Clone, Copy, Debug, PartialEq, Eq, Structural)]
pub enum TrieError {
    /// The database lacks a node or value that the trie references.
    IncompleteDatabase,
}

/// Everything the snapshot core can fail with.
#[derive(Clone, Copy, Debug, PartialEq, Eq, Structural)]
pub enum Error {
    /// An encoded input was malformed.
    Decoder(DecoderError),
    /// A trie-backed store was inconsistent or incomplete.
    Trie(TrieError),
    /// The chain reader knows no block under a hash the walk reached.
    BlockNotFound,
    /// The walk from the best block never reached the genesis, though it
    /// took more steps than there are blocks.
    ChainCorrupt,
    /// A fetched chunk's bytes do not hash to the address they were
    /// fetched under.
    ChunkHashMismatch,
    /// A fetched chunk's bytes are not a compression the compressor ever
    /// produced.
    BadCompression,
    /// A condition the core treats as impossible-by-construction arose;
    /// the operation aborts with no attempt at recovery.
    InvariantViolation,
}

} // verus!
