//! Optional payload compression with LZ4. A payload is compressed only where that makes it smaller,
//! and the size that compressed data claims is checked before anything is allocated for it.
use vstd::prelude::*;

use crate::tunnel::wire::get32_le;

verus! {

/// Algorithm id: the payload is as it is.
pub const ALGO_NONE: u8 = 0;

/// Algorithm id: the payload is an LZ4 block behind its size in four little-endian bytes.
pub const ALGO_LZ4: u8 = 1;

/// Default minimum payload size before compression is tried.
pub const DEFAULT_MIN_SIZE: usize = 96;

/// The largest decompressed size that is accepted.
pub const MAX_DECOMPRESSED: usize = 0x10_0000;

/// The largest input of the LZ4 block format.
pub const LZ4_MAX_INPUT: usize = 0x7e00_0000;

/// Compression errors.
#[derive(Debug, Clone, Copy, PartialEq, Eq, Structural)]
pub enum CompressError {
    /// LZ4 decompression failed: corrupt input or bad size prefix.
    Lz4,
    /// The claimed size exceeds [`MAX_DECOMPRESSED`].
    TooLarge(usize),
    /// The algorithm id is not known.
    UnknownAlgo(u8),
}

/// What `lz4_flex::compress_prepend_size` gives.
pub uninterp spec fn lz4_compress_of(data: Seq<u8>) -> Seq<u8>;

/// What `lz4_flex::decompress_size_prepended` gives, or `None` where it fails.
pub uninterp spec fn lz4_decompress_of(data: Seq<u8>) -> Option<Seq<u8>>;

/// `lz4_flex::compress_prepend_size`: an LZ4 block behind the input's length in four little-endian
/// bytes. The result depends on the input alone, and `decompress_size_prepended` gives the input back.
#[verifier::external_body]
fn lz4_compress(data: &[u8]) -> (out: Vec<u8>)
    requires
        data@.len() <= LZ4_MAX_INPUT,
    ensures
        out@ == lz4_compress_of(data@),
        out@.len() >= 4,
        crate::tunnel::wire::le32_at(out@, 0) == data@.len(),
        lz4_decompress_of(out@) == Some(data@),
{
    lz4_flex::compress_prepend_size(data)
}

/// `lz4_flex::decompress_size_prepended`: the decompressed bytes, no more than the size prefix claims,
/// or nothing where the input is corrupt. The result depends on the input alone.
#[verifier::external_body]
fn lz4_decompress(data: &[u8]) -> (out: Option<Vec<u8>>)
    requires
        data@.len() >= 4,
        crate::tunnel::wire::le32_at(data@, 0) <= MAX_DECOMPRESSED,
    ensures
        match out {
            Some(v) => {
                &&& lz4_decompress_of(data@) == Some(v@)
                &&& v@.len() <= crate::tunnel::wire::le32_at(data@, 0)
            },
            None => lz4_decompress_of(data@) is None,
        },
{
    lz4_flex::decompress_size_prepended(data).ok()
}

/// The compressed form, if it is smaller than the payload.
pub fn keep_if_smaller(payload: &[u8], compressed: Vec<u8>) -> (r: Option<Vec<u8>>)
    ensures
        r == if compressed@.len() < payload@.len() {
            Some(compressed)
        } else {
            None::<Vec<u8>>
        },
{
    if compressed.len() < payload.len() {
        Some(compressed)
    } else {
        None
    }
}

/// Compresses a payload of at least `min_size` bytes; `None` where it is smaller than that or does not
/// shrink. What comes back decompresses to the payload.
pub fn maybe_compress(payload: &[u8], min_size: usize) -> (r: Option<Vec<u8>>)
    requires
        payload@.len() <= LZ4_MAX_INPUT,
    ensures
        r is Some <==> payload@.len() >= min_size && lz4_compress_of(payload@).len()
            < payload@.len(),
        r matches Some(c) ==> {
            &&& c@ == lz4_compress_of(payload@)
            &&& c@.len() < payload@.len()
            &&& payload@.len() <= MAX_DECOMPRESSED ==> decompressed(ALGO_LZ4, c@) == Ok::<
                Seq<u8>,
                CompressError,
            >(payload@)
        },
{
    if payload.len() < min_size {
        return None;
    }
    let compressed: Vec<u8> = lz4_compress(payload);
    keep_if_smaller(payload, compressed)
}

/// What decompressing gives.
pub open spec fn decompressed(algo: u8, data: Seq<u8>) -> Result<Seq<u8>, CompressError> {
    if algo == ALGO_NONE {
        Ok(data)
    } else if algo == ALGO_LZ4 {
        if data.len() < 4 {
            Err(CompressError::Lz4)
        } else if crate::tunnel::wire::le32_at(data, 0) > MAX_DECOMPRESSED {
            Err(CompressError::TooLarge(crate::tunnel::wire::le32_at(data, 0) as usize))
        } else {
            match lz4_decompress_of(data) {
                Some(v) => Ok(v),
                None => Err(CompressError::Lz4),
            }
        }
    } else {
        Err(CompressError::UnknownAlgo(algo))
    }
}

/// Decompresses what was made under `algo`. What comes back from LZ4 is never larger than
/// [`MAX_DECOMPRESSED`].
pub fn decompress(algo: u8, data: &[u8]) -> (r: Result<Vec<u8>, CompressError>)
    ensures
        match r {
            Ok(v) => {
                &&& decompressed(algo, data@) == Ok::<Seq<u8>, CompressError>(v@)
                &&& algo == ALGO_LZ4 ==> v@.len() <= MAX_DECOMPRESSED
            },
            Err(e) => decompressed(algo, data@) == Err::<Seq<u8>, CompressError>(e),
        },
{
    if algo == ALGO_NONE {
        Ok(vstd::slice::slice_to_vec(data))
    } else if algo == ALGO_LZ4 {
        if data.len() < 4 {
            return Err(CompressError::Lz4);
        }
        let claimed: usize = get32_le(data, 0) as usize;
        if claimed > MAX_DECOMPRESSED {
            return Err(CompressError::TooLarge(claimed));
        }
        match lz4_decompress(data) {
            Some(v) => Ok(v),
            None => Err(CompressError::Lz4),
        }
    } else {
        Err(CompressError::UnknownAlgo(algo))
    }
}

/// Data that was left as it is comes back unchanged; an algorithm that is neither of the two is told
/// by its id; and a claim of more than a mebibyte is refused before anything is unpacked.
pub proof fn lemma_algorithm_decides(algo: u8, data: Seq<u8>)
    ensures
        algo == 0 ==> decompressed(algo, data) == Ok::<Seq<u8>, CompressError>(data),
        algo == 1 && data.len() >= 4 && crate::tunnel::wire::le32_at(data, 0) > 1_048_576
            ==> decompressed(algo, data) == Err::<Seq<u8>, CompressError>(
            CompressError::TooLarge(crate::tunnel::wire::le32_at(data, 0) as usize),
        ),
        algo == 1 && data.len() >= 4 && crate::tunnel::wire::le32_at(data, 0) <= 1_048_576
            ==> match lz4_decompress_of(data) {
            Some(v) => decompressed(algo, data) == Ok::<Seq<u8>, CompressError>(v),
            None => decompressed(algo, data) == Err::<Seq<u8>, CompressError>(CompressError::Lz4),
        },
        algo == 1 && data.len() < 4 ==> decompressed(algo, data) == Err::<Seq<u8>, CompressError>(
            CompressError::Lz4,
        ),
        algo >= 2 ==> decompressed(algo, data) == Err::<Seq<u8>, CompressError>(
            CompressError::UnknownAlgo(algo),
        ),
{
}

} // verus!
