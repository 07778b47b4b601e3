//! The gzip wrapping of a stored file: the buffers are sized here, and
//! `libdeflater` compresses and decompresses.

use crate::wire::{le_u32, read_u32_le};
use libdeflater::{CompressionError, CompressionLvl, Compressor, DecompressionError, Decompressor};
use vstd::prelude::*;
use vstd::slice::slice_subrange;

verus! {

/// Why gzip data could not be made or unwrapped.
#[derive(Clone, Copy, Debug, PartialEq, Eq, Structural)]
pub enum GzipError {
    /// Fewer than ten bytes: no room for a gzip header and the size field.
    TooShort,
    /// The decompressor found the data invalid or corrupt.
    BadData,
    /// The output buffer was too small for what came out.
    InsufficientSpace,
}

/// What `libdeflater`'s gzip decompression makes of the gzip data `gz`
/// when its output buffer has `room` bytes: the decompressed bytes, or why
/// there are none. What the buffer held before does not matter to it.
pub uninterp spec fn gunzip(gz: Seq<u8>, room: nat) -> Result<Seq<u8>, GzipError>;

/// The uncompressed size that gzip data states in its last four bytes, for
/// data long enough to hold a header and that field.
pub open spec fn stated_size(gz: Seq<u8>) -> Option<u32> {
    if gz.len() < 10 {
        None
    } else {
        Some(le_u32(gz.skip(gz.len() - 4)))
    }
}

/// `libdeflater::Decompressor::gzip_decompress`, on a new decompressor:
/// decompresses `gz_data` into `out`, whose length it keeps, and returns
/// the number of bytes it wrote at the start of `out`, or the error. What
/// `out` holds beyond them, or after an error, is not said.
#[verifier::external_body]
fn gzip_decompress(gz_data: &[u8], out: &mut Vec<u8>) -> (r: Result<usize, GzipError>)
    ensures
        final(out)@.len() == old(out)@.len(),
        match r {
            Ok(n) => n <= old(out)@.len() && gunzip(gz_data@, old(out)@.len()) == Ok::<
                Seq<u8>,
                GzipError,
            >(final(out)@.take(n as int)),
            Err(e) => gunzip(gz_data@, old(out)@.len()) == Err::<Seq<u8>, GzipError>(e),
        },
{
    match Decompressor::new().gzip_decompress(gz_data, out.as_mut_slice()) {
        Ok(n) => Ok(n),
        Err(DecompressionError::BadData) => Err(GzipError::BadData),
        Err(DecompressionError::InsufficientSpace) => Err(GzipError::InsufficientSpace),
    }
}

/// `libdeflater::Compressor::gzip_compress_bound`, on a new compressor of
/// the default level: a number of bytes that is enough for the gzip form
/// of any `n_bytes` bytes.
#[verifier::external_body]
fn gzip_compress_bound(n_bytes: usize) -> usize {
    Compressor::new(CompressionLvl::default()).gzip_compress_bound(n_bytes)
}

/// `libdeflater::Compressor::gzip_compress`, on a new compressor of the
/// default level: writes the gzip form of `data` at the start of `out`,
/// whose length it keeps, and returns its length in bytes, or fails where
/// `out` is too small. What it wrote is gzip data that decompresses to
/// `data`; which bytes those are is not said.
#[verifier::external_body]
fn gzip_compress(data: &[u8], out: &mut Vec<u8>) -> (r: Result<usize, GzipError>)
    ensures
        final(out)@.len() == old(out)@.len(),
        match r {
            Ok(n) => n <= old(out)@.len() && gunzip(final(out)@.take(n as int), data@.len())
                == Ok::<Seq<u8>, GzipError>(data@),
            Err(e) => e == GzipError::InsufficientSpace,
        },
{
    match Compressor::new(CompressionLvl::default()).gzip_compress(data, out.as_mut_slice()) {
        Ok(n) => Ok(n),
        Err(CompressionError::InsufficientSpace) => Err(GzipError::InsufficientSpace),
    }
}

/// What a call gave that wrote into the buffer `out` and answered with
/// `outcome`: the bytes that it wrote, which are the first of `out` as many
/// as `outcome` counts, or its error.
pub fn written_part(out: Vec<u8>, outcome: Result<usize, GzipError>) -> (r: Result<
    Vec<u8>,
    GzipError,
>)
    ensures
        match outcome {
            Ok(n) => r matches Ok(v) && v@ == if n <= out@.len() {
                out@.take(n as int)
            } else {
                out@
            },
            Err(e) => r == Err::<Vec<u8>, GzipError>(e),
        },
{
    match outcome {
        Ok(n) => {
            let mut out = out;
            out.truncate(n);
            Ok(out)
        },
        Err(e) => Err(e),
    }
}

/// The bytes that the gzip data `gz_data` holds. The output buffer has the
/// size that the data states in its last four bytes.
pub fn decompress(gz_data: &[u8]) -> (r: Result<Vec<u8>, GzipError>)
    ensures
        match stated_size(gz_data@) {
            None => r == Err::<Vec<u8>, GzipError>(GzipError::TooShort),
            Some(size) => match gunzip(gz_data@, size as nat) {
                Ok(bytes) => r matches Ok(v) && v@ == bytes,
                Err(e) => r == Err::<Vec<u8>, GzipError>(e),
            },
        },
{
    if gz_data.len() < 10 {
        return Err(GzipError::TooShort);
    }
    let isize_start = gz_data.len() - 4;
    let isize_bytes = slice_subrange(gz_data, isize_start, gz_data.len());
    assert(isize_bytes@ =~= gz_data@.skip(isize_start as int));
    let isize = read_u32_le(isize_bytes) as usize;
    let mut outbuf: Vec<u8> = vec![0u8; isize];
    let outcome = gzip_decompress(gz_data, &mut outbuf);
    written_part(outbuf, outcome)
}

/// The gzip form of `data`, at the default compression level: gzip data
/// that decompresses to `data`.
pub fn compress(data: &[u8]) -> (r: Result<Vec<u8>, GzipError>)
    ensures
        match r {
            Ok(v) => gunzip(v@, data@.len()) == Ok::<Seq<u8>, GzipError>(data@),
            Err(e) => e == GzipError::InsufficientSpace,
        },
{
    let max_sz = gzip_compress_bound(data.len());
    let mut compressed_data: Vec<u8> = vec![0u8; max_sz];
    let outcome = gzip_compress(data, &mut compressed_data);
    written_part(compressed_data, outcome)
}

} // verus!
