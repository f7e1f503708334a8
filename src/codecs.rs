//! The byte-stream codecs that entries may be stored with, through bzip2 and lzss.
use vstd::prelude::*;

verus! {

/// What a bzip2 stream decompresses to; `None` where the stream is invalid.
pub uninterp spec fn bzip2_decoded(b: Seq<u8>) -> Option<Seq<u8>>;

/// The bzip2 stream, at the highest compression level, of some bytes.
pub uninterp spec fn bzip2_encoded(b: Seq<u8>) -> Option<Seq<u8>>;

/// What an LZSS stream (8-bit offsets, 4-bit lengths, 256-byte window of zero bytes)
/// decompresses to.
pub uninterp spec fn lzss_decoded(b: Seq<u8>) -> Option<Seq<u8>>;

/// Relies on `bzip2::read::BzDecoder`: the decompressed bytes of a whole stream, or a read
/// error where the stream is invalid.
#[verifier::external_body]
pub(crate) fn bzip2_decompress(b: &[u8]) -> (r: Option<Vec<u8>>)
    ensures
        match r {
            Some(v) => bzip2_decoded(b@) == Some(v@),
            None => bzip2_decoded(b@) is None,
        },
{
    let mut decoder = bzip2::read::BzDecoder::new(b);
    let mut out: Vec<u8> = Vec::new();
    match std::io::Read::read_to_end(&mut decoder, &mut out) {
        Ok(_) => Some(out),
        Err(_) => None,
    }
}

/// Relies on `bzip2::read::BzEncoder` at `bzip2::Compression::best()`: a lossless compression,
/// so that the stream it produces decompresses to its input.
#[verifier::external_body]
pub(crate) fn bzip2_compress(b: &[u8]) -> (r: Option<Vec<u8>>)
    ensures
        match r {
            Some(v) => bzip2_encoded(b@) == Some(v@) && bzip2_decoded(v@) == Some(b@),
            None => bzip2_encoded(b@) is None,
        },
{
    let mut encoder = bzip2::read::BzEncoder::new(b, bzip2::Compression::best());
    let mut out: Vec<u8> = Vec::new();
    match std::io::Read::read_to_end(&mut encoder, &mut out) {
        Ok(_) => Some(out),
        Err(_) => None,
    }
}

/// Relies on `lzss::Lzss::decompress_stack` with the parameters EI=8, EJ=4, C=0, N=256, N2=512,
/// reading from a slice and writing to a vector.
#[verifier::external_body]
pub(crate) fn lzss_decompress(b: &[u8]) -> (r: Option<Vec<u8>>)
    ensures
        match r {
            Some(v) => lzss_decoded(b@) == Some(v@),
            None => lzss_decoded(b@) is None,
        },
{
    lzss::Lzss::<8, 4, 0, 256, 512>::decompress_stack(
        lzss::SliceReader::new(b),
        lzss::VecWriter::with_capacity(b.len()),
    ).ok()
}

} // verus!
