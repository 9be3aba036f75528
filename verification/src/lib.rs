//! The snapshot subsystem of a blockchain node, with its adjacent codecs.
//!
//! The core serialises the whole world state and the historical block
//! sequence into content-addressed, compressed chunk files, bound together
//! by a manifest: a length-prefixed recursive codec at the bottom, a block
//! compressor with content hashing above it, and two chunkers that pack
//! accounts and blocks into chunks under a preferred size.  A consumer-side
//! check verifies fetched chunks against their addresses.
//!
//! Beside the core stand the node's adjacent pieces: the binary codec its
//! processes speak between each other, the flattened transaction traces,
//! the version handshake, and the parsed node parameters.

pub mod binary;
pub mod block;
pub mod chunk;
pub mod compress;
pub mod error;
pub mod flat;
pub mod handshake;
pub mod hash;
pub mod manifest;
pub mod params;
pub mod rlp;
pub mod state;
