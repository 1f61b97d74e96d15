//! Compression of stored blobs (zlib).

use vstd::prelude::*;
use vstd::slice::slice_to_vec;

verus! {

/// The zlib stream that `flate2` produces for `data` at the default level.
pub uninterp spec fn zlib_compressed(data: Seq<u8>) -> Seq<u8>;

/// What a zlib decoder reads from `data`: the decompressed bytes, or `None`
/// when the stream is not valid zlib.
pub uninterp spec fn zlib_decoded(data: Seq<u8>) -> Option<Seq<u8>>;

/// Calls `flate2::write::ZlibEncoder` (default level) on `data` and takes
/// the finished stream. The contract names the stream and states that a
/// zlib decoder gives `data` back from it, as lossless compression does.
#[verifier::external_body]
fn zlib_compress(data: &[u8]) -> (res: Vec<u8>)
    ensures
        res@ == zlib_compressed(data@),
        zlib_decoded(res@) == Some(data@),
{
    let mut encoder = flate2::write::ZlibEncoder::new(Vec::new(), flate2::Compression::default());
    std::io::Write::write_all(&mut encoder, data).expect("Failed to compress blob");
    encoder.finish().expect("Failed to finish compression")
}

/// Calls `flate2::read::ZlibDecoder` over `data` and reads it to the end;
/// `None` when the decoder reports an error.
#[verifier::external_body]
fn zlib_decompress(data: &[u8]) -> (res: Option<Vec<u8>>)
    ensures
        match res {
            Some(v) => zlib_decoded(data@) == Some(v@),
            None => zlib_decoded(data@) is None,
        },
{
    let mut decoder = flate2::read::ZlibDecoder::new(data);
    let mut decoded = Vec::new();
    match std::io::Read::read_to_end(&mut decoder, &mut decoded) {
        Ok(_) => Some(decoded),
        Err(_) => None,
    }
}


/// What `decompress` gives: the decoded bytes, or the input itself when it
/// is not a zlib stream (blobs stored before compression was introduced).
pub open spec fn decompressed(data: Seq<u8>) -> Seq<u8> {
    match zlib_decoded(data) {
        Some(v) => v,
        None => data,
    }
}

/// Decompresses a stored blob.
pub fn decompress(data: &[u8]) -> (res: Vec<u8>)
    ensures
        res@ == decompressed(data@),
{
    match zlib_decompress(data) {
        Some(v) => v,
        None => slice_to_vec(data),
    }
}

/// Compresses a blob before it is stored; decompressing the result gives
/// the content back.
pub fn compress(data: &[u8]) -> (res: Vec<u8>)
    ensures
        res@ == zlib_compressed(data@),
        decompressed(res@) == data@,
{
    zlib_compress(data)
}

} // verus!
