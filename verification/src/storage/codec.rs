//! Hashing and compression of object data: SHA-1 from the `sha1` crate and
//! zlib streams from the `flate2` crate, behind contracts; object hashes are
//! written as lower-case hexadecimal.

use vstd::prelude::*;
use crate::text::{spec_hex, to_hex};
use flate2::Compression;
use sha1::{Digest, Sha1};
use std::io::{Read, Write};

verus! {

/// The SHA-1 digest of `data`.
pub uninterp spec fn sha1_digest(data: Seq<u8>) -> Seq<u8>;

/// The zlib stream that `flate2` writes for `data` at compression `level`.
pub uninterp spec fn zlib_stream(level: u32, data: Seq<u8>) -> Seq<u8>;

/// What `flate2` reads back from the zlib stream `data` (`None` where reading fails).
pub uninterp spec fn zlib_contents(data: Seq<u8>) -> Option<Seq<u8>>;

/// The level `Compression::default()` stands for.
pub const DEFAULT_LEVEL: u32 = 6;

/// The level `Compression::best()` stands for.
pub const BEST_LEVEL: u32 = 9;

/// `sha1::Sha1::digest`: the 20-byte SHA-1 digest of `data`.
#[verifier::external_body]
pub(crate) fn sha1(data: &[u8]) -> (r: Vec<u8>)
    ensures
        r@ == sha1_digest(data@),
        r@.len() == 20,
{
    Sha1::digest(data).to_vec()
}

/// The bytes of a result, as a sequence.
pub open spec fn bytes_option(r: Option<Vec<u8>>) -> Option<Seq<u8>> {
    match r {
        Some(v) => Some(v@),
        None => None,
    }
}

/// `flate2::write::ZlibEncoder` at compression `level` over a `Vec<u8>`, fed
/// `data` and finished: the zlib stream of `data`. Writing into memory does not
/// fail (the `Vec` takes every write, and the encoder reports an error only
/// for a stream used after it ended or a writer that refuses bytes), so a
/// stream always comes back; it reads back as `data` (zlib is lossless).
#[verifier::external_body]
pub(crate) fn zlib_compress(data: &[u8], level: u32) -> (r: Option<Vec<u8>>)
    requires
        level <= 9,
    ensures
        r is Some,
        r.unwrap()@ == zlib_stream(level, data@),
        zlib_contents(r.unwrap()@) == Some(data@),
{
    let mut encoder = flate2::write::ZlibEncoder::new(Vec::new(), Compression::new(level));
    encoder.write_all(data).ok()?;
    encoder.finish().ok()
}

/// `flate2::read::ZlibDecoder` over `data`, read to the end: the bytes the zlib
/// stream holds.
#[verifier::external_body]
pub(crate) fn zlib_decompress(data: &[u8]) -> (r: Option<Vec<u8>>)
    ensures
        bytes_option(r) == zlib_contents(data@),
{
    let mut decoder = flate2::read::ZlibDecoder::new(data);
    let mut out = Vec::new();
    decoder.read_to_end(&mut out).ok()?;
    Some(out)
}

/// The hash of object data: its SHA-1 digest in lower-case hexadecimal.
pub open spec fn spec_object_hash(data: Seq<u8>) -> Seq<char> {
    spec_hex(sha1_digest(data))
}

/// The hash of `data`: its SHA-1 digest in lower-case hexadecimal.
pub fn object_hash(data: &[u8]) -> (h: String)
    ensures
        h@ == spec_object_hash(data@),
        h@.len() == 40,
{
    let d = sha1(data);
    proof {
        crate::text::lemma_hex_len(d@);
    }
    to_hex(d.as_slice())
}


/// An object hash is ASCII: forty hexadecimal digits.
pub proof fn lemma_object_hash_ascii(data: Seq<u8>)
    ensures
        vstd::utf8::is_ascii_chars(spec_object_hash(data)),
{
    crate::text::lemma_hex_ascii(sha1_digest(data));
}

} // verus!
