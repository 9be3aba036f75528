//! The block compressor behind the chunkers: a thin, trusted boundary
//! around the snappy implementation, and the verified helper that sizes the
//! reusable buffer before compressing into it.

use vstd::prelude::*;
use crate::error::Error;

verus! {

broadcast use vstd::std_specs::vec::group_vec_axioms;

/// What the block compressor emits for a byte string: a value of the input
/// alone, the same in every process and on every machine, and from which
/// the decompressor recovers the input exactly.
pub uninterp spec fn snappy_of(data: Seq<u8>) -> Seq<u8>;

/// The largest input the compressor accepts.
pub const MAX_COMPRESS_INPUT: u64 = 0xffff_ffff;

/// The compressor's promised output bound for an input of `n` bytes.
pub open spec fn spec_max_compressed_len(n: nat) -> nat {
    32 + n + n / 6
}

/// Why a compression call failed.
#[derive(Clone, Copy, Debug, PartialEq, Eq, Structural)]
pub enum CompressError {
    /// The destination is shorter than the promised output bound.
    BufferTooSmall,
    /// The compressor did not accept the input.
    InvalidInput,
}

/// Relies on snap::raw::max_compress_len: 32 + n + n/6 for inputs the
/// compressor accepts, zero when the input or the bound itself would pass
/// the compressor's size limit.
#[verifier::external_body]
fn max_compressed_len(n: usize) -> (r: usize)
    ensures
        r as nat == (if n as nat <= MAX_COMPRESS_INPUT as nat
            && spec_max_compressed_len(n as nat) <= MAX_COMPRESS_INPUT as nat {
            spec_max_compressed_len(n as nat)
        } else {
            0
        }),
{
    snap::raw::max_compress_len(n)
}

/// Relies on snap::raw::Encoder::compress: writes the block-compressed form
/// of `src` over the front of `dst` and reports its length; fails without
/// writing when the input passes the size limit or the buffer is shorter
/// than the promised bound, and succeeds whenever neither holds.
#[verifier::external_body]
fn snappy_compress_into(src: &Vec<u8>, dst: &mut Vec<u8>) -> (r: Result<usize, CompressError>)
    ensures
        final(dst)@.len() == old(dst)@.len(),
        r matches Ok(n) ==> n <= final(dst)@.len() && final(dst)@.subrange(0, n as int)
            == snappy_of(src@) && n as nat == snappy_of(src@).len(),
        src@.len() <= MAX_COMPRESS_INPUT as nat && spec_max_compressed_len(src@.len())
            <= MAX_COMPRESS_INPUT as nat && old(dst)@.len() >= spec_max_compressed_len(src@.len())
            ==> r is Ok,
        r is Err ==> final(dst)@ == old(dst)@,
{
    let mut encoder = snap::raw::Encoder::new();
    match encoder.compress(src.as_slice(), dst.as_mut_slice()) {
        Ok(n) => Ok(n),
        Err(snap::Error::BufferTooSmall { .. }) => Err(CompressError::BufferTooSmall),
        Err(snap::Error::TooBig { .. }) => Err(CompressError::InvalidInput),
        Err(_) => Err(CompressError::InvalidInput),
    }
}

/// Relies on snap::raw::Decoder::decompress_vec: decompressing what the
/// compressor produced returns the compressor's input, exactly.
#[verifier::external_body]
pub(crate) fn snappy_decompress(src: &Vec<u8>) -> (r: Result<Vec<u8>, CompressError>)
    ensures
        r matches Err(_) ==> forall|orig: Seq<u8>| src@ != #[trigger] snappy_of(orig),
        r matches Ok(d) ==> forall|orig: Seq<u8>|
            src@ == #[trigger] snappy_of(orig) ==> d@ == orig,
{
    let mut decoder = snap::raw::Decoder::new();
    match decoder.decompress_vec(src.as_slice()) {
        Ok(d) => Ok(d),
        Err(_) => Err(CompressError::InvalidInput),
    }
}

/// Compresses `input` into `output`, growing `output` first when the
/// compressor's bound asks for more room.  The only failure left is an
/// input beyond the compressor's size limit, surfaced as the unrecoverable
/// internal error.
pub fn compression_helper(input: &Vec<u8>, output: &mut Vec<u8>) -> (r: Result<usize, Error>)
    ensures
        r matches Ok(n) ==> n <= final(output)@.len() && final(output)@.subrange(0, n as int)
            == snappy_of(input@) && n as nat == snappy_of(input@).len(),
        r matches Err(e) ==> e == Error::InvariantViolation
            && spec_max_compressed_len(input@.len()) > MAX_COMPRESS_INPUT as nat,
{
    let max_size = max_compressed_len(input.len());
    if max_size > output.len() {
        output.resize(max_size, 0u8);
    }
    match snappy_compress_into(input, output) {
        Ok(size) => Ok(size),
        Err(_) => Err(Error::InvariantViolation),
    }
}

} // verus!
