//! Content hashes (BLAKE3), in the lower-case hexadecimal form in which
//! blobs and commits are identified.

use vstd::prelude::*;
use vstd::string::*;
use vstd::utf8::*;
use crate::hex::{hex_encode, hex_encoding};

verus! {

/// The 32-byte BLAKE3 digest of `data`.
pub uninterp spec fn blake3_digest(data: Seq<u8>) -> Seq<u8>;

/// Calls `blake3::hash`, which returns the BLAKE3 hash (32 bytes) of its
/// input; the contract names the digest and states its length.
#[verifier::external_body]
fn blake3_hash(data: &[u8]) -> (res: Vec<u8>)
    ensures
        res@ == blake3_digest(data@),
        res@.len() == 32,
{
    blake3::hash(data).as_bytes().to_vec()
}

/// The identifier of a blob: the hexadecimal BLAKE3 digest of its content.
pub open spec fn content_id(data: Seq<u8>) -> Seq<char> {
    hex_encoding(blake3_digest(data))
}

/// Hashes a file's content as blobs are identified.
pub fn hash_content(data: &[u8]) -> (res: String)
    ensures
        res@ == content_id(data@),
        res@.len() == 64,
        is_ascii_chars(res@),
{
    let digest = blake3_hash(data);
    let res = hex_encode(digest.as_slice());
    proof {
        crate::hex::lemma_hex_round_trip(digest@);
    }
    res
}

/// The identifier of a commit: the hash of its parent's identifier, author,
/// message and timestamp written one after the other.
pub open spec fn commit_id(
    parent_hash: Seq<char>,
    author: Seq<char>,
    message: Seq<char>,
    timestamp: Seq<char>,
) -> Seq<char> {
    content_id(encode_utf8(parent_hash + author + message + timestamp))
}

/// Computes a commit's identifier.
pub fn commit_hash(parent_hash: &str, author: &str, message: &str, timestamp: &str) -> (res: String)
    ensures
        res@ == commit_id(parent_hash@, author@, message@, timestamp@),
        res@.len() == 64,
        is_ascii_chars(res@),
{
    let mut input = String::from_str(parent_hash);
    input.append(author);
    input.append(message);
    input.append(timestamp);
    let bytes = input.as_str().as_bytes();
    let res = hash_content(bytes);
    assert(input@ =~= parent_hash@ + author@ + message@ + timestamp@);
    res
}

} // verus!
