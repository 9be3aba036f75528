//! The chunk writer: compresses a fully formed uncompressed payload into a
//! reusable scratch buffer, hashes the compressed bytes, and names the
//! artifact by the lowercase hexadecimal of the hash.  Persisting the named
//! bytes is the caller's one filesystem step.

use vstd::prelude::*;
use crate::compress::{compression_helper, snappy_of, snappy_decompress, MAX_COMPRESS_INPUT,
    spec_max_compressed_len};
use crate::error::Error;
use crate::hash::{keccak256, keccak_of, hex_of, to_hex, H256};
use crate::rlp::copy_range;

verus! {

broadcast use vstd::std_specs::vec::group_vec_axioms;

/// Chunks aim at this uncompressed size; only a single oversize item may
/// push one beyond it.
pub const PREFERRED_CHUNK_SIZE: usize = 16 * 1024 * 1024;

/// The reusable compression buffers start at this size, above the
/// preferred chunk size so that ordinary chunks never grow them.
pub const SNAPPY_BUFFER_SIZE: usize = 20 * 1024 * 1024;

/// A chunk ready to persist: the compressed bytes, their hash, and the
/// file name the hash spells.
#[derive(Debug)]
pub struct ChunkFile {
    /// Hash of the compressed bytes: the chunk's content address.
    pub hash: H256,
    /// The file name: the hash in lowercase hexadecimal, 64 ASCII bytes.
    pub name: Vec<u8>,
    /// The compressed bytes, exactly what the file must hold.
    pub data: Vec<u8>,
}

impl ChunkFile {
    /// The chunk is internally bound: its hash is the digest of its bytes
    /// and its name is the hexadecimal of its hash.
    pub open spec fn wf(&self) -> bool {
        &&& self.hash@ == keccak_of(self.data@)
        &&& self.hash@.len() == 32
        &&& self.name@ == hex_of(self.hash@)
    }
}

/// Compresses `raw_data` through the scratch buffer and binds the result
/// to its content address: everything of chunk writing but the filesystem.
pub fn write_chunk(raw_data: &Vec<u8>, compression_buffer: &mut Vec<u8>) -> (r: Result<
    ChunkFile,
    Error,
>)
    ensures
        r matches Ok(c) ==> c.data@ == snappy_of(raw_data@) && c.wf(),
        r matches Err(e) ==> e == Error::InvariantViolation
            && spec_max_compressed_len(raw_data@.len()) > MAX_COMPRESS_INPUT as nat,
{
    let compressed_size = match compression_helper(raw_data, compression_buffer) {
        Ok(size) => size,
        Err(e) => {
            return Err(e);
        },
    };
    let data = copy_range(compression_buffer, 0, compressed_size);
    let hash = keccak256(&data);
    let name = to_hex(&hash.bytes);
    Ok(ChunkFile { hash, name, data })
}

/// Consumer-side check of one fetched chunk: the bytes must hash to the
/// address they were fetched under; then they decompress to the payload
/// the producer compressed.
pub fn verify_chunk(data: &Vec<u8>, expected: &H256) -> (r: Result<Vec<u8>, Error>)
    ensures
        keccak_of(data@) != expected@ ==> (r matches Err(e) && e == Error::ChunkHashMismatch),
        r matches Ok(raw) ==> keccak_of(data@) == expected@ && (forall|orig: Seq<u8>|
            data@ == #[trigger] snappy_of(orig) ==> raw@ == orig),
        keccak_of(data@) == expected@ && (exists|orig: Seq<u8>|
            data@ == #[trigger] snappy_of(orig)) ==> r is Ok,
{
    let actual = keccak256(data);
    if !actual.same(expected) {
        return Err(Error::ChunkHashMismatch);
    }
    match snappy_decompress(data) {
        Ok(raw) => Ok(raw),
        Err(_) => Err(Error::BadCompression),
    }
}

} // verus!
