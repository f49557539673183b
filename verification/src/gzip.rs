//! Optional gzip compression of sigma bodies, through flate2, and the
//! byte-level encode and decode entry points.

use vstd::prelude::*;
use flate2::read::GzDecoder;
use flate2::write::GzEncoder;
use flate2::Compression;
use std::io::Read;
use std::io::Write;
use crate::decode::{decode_text_spec, decode_sigma_text};
use crate::encode::{encode_rep, encode_sigma_text, sparse_of};
use crate::grid::Grid;
use crate::records::{SigmaDoc, SigmaDocV, SigmaError};

verus! {

/// What gzip decompression yields on a byte buffer: the decompressed bytes
/// when the buffer is a well-formed gzip stream, nothing otherwise. The
/// result depends on the bytes alone.
pub uninterp spec fn gunzip_of(data: Seq<u8>) -> Option<Seq<u8>>;

/// Relies on flate2's GzDecoder and Read::read_to_end: decompression reads
/// the whole stream, fails on a buffer that is not gzip (in particular on
/// one that does not open with the two gzip magic bytes), and its result
/// depends on the bytes alone.
#[verifier::external_body]
fn gunzip(data: &[u8]) -> (r: Option<Vec<u8>>)
    ensures
        match r {
            Some(v) => gunzip_of(data@) == Some(v@),
            None => gunzip_of(data@) is None,
        },
        (data@.len() < 2 || data@[0] != 0x1f || data@[1] != 0x8b) ==> r is None,
{
    let mut decoder = GzDecoder::new(data);
    let mut out = Vec::new();
    match decoder.read_to_end(&mut out) {
        Ok(_) => Some(out),
        Err(_) => None,
    }
}

/// Relies on flate2's GzEncoder at the highest compression level: writing
/// a buffer and finishing yields a gzip stream that decompresses back to
/// that buffer, as the crate's own decoding example shows. Writing into a
/// `Vec` cannot fail.
#[verifier::external_body]
fn gzip_pack(data: &[u8]) -> (r: Vec<u8>)
    ensures
        gunzip_of(r@) == Some(data@),
{
    let mut encoder = GzEncoder::new(Vec::new(), Compression::new(9));
    encoder.write_all(data).unwrap();
    encoder.finish().unwrap()
}

/// Whether a buffer is gzip-compressed: it is exactly when a full gzip
/// decompression of it succeeds.
pub fn is_compressed(data: &[u8]) -> (r: bool)
    ensures
        r == (gunzip_of(data@) is Some),
{
    match gunzip(data) {
        Some(_) => true,
        None => false,
    }
}

/// What decoding a sigma file's bytes yields: the body is decompressed
/// when it is gzip, taken as it stands otherwise, and then decoded.
pub open spec fn decode_bytes_spec(data: Seq<u8>) -> Result<SigmaDocV, SigmaError> {
    match gunzip_of(data) {
        Some(t) => decode_text_spec(t),
        None => decode_text_spec(data),
    }
}

/// Decoding reads the same document from a plain body and from its
/// gzip-compressed form.
pub proof fn lemma_compression_transparent(plain: Seq<u8>, packed: Seq<u8>)
    requires
        gunzip_of(packed) == Some(plain),
        gunzip_of(plain) is None,
    ensures
        decode_bytes_spec(packed) == decode_bytes_spec(plain),
        decode_bytes_spec(packed) == decode_text_spec(plain),
{
}

/// Decodes a sigma file's bytes, compressed or not.
pub fn decode_sigma(data: &[u8]) -> (r: Result<SigmaDoc, SigmaError>)
    ensures
        match r {
            Ok(doc) => decode_bytes_spec(data@) == Ok::<SigmaDocV, SigmaError>(doc@),
            Err(e) => decode_bytes_spec(data@) == Err::<SigmaDocV, SigmaError>(e),
        },
{
    match gunzip(data) {
        Some(text) => decode_sigma_text(text.as_slice()),
        None => decode_sigma_text(data),
    }
}

/// Encodes a grid as sigma file bytes: the sigma text itself, or its gzip
/// form when compression is asked for.
pub fn encode_sigma(g: &Grid, compress: bool) -> (out: Vec<u8>)
    requires
        g.wf(),
    ensures
        !compress ==> out@ == encode_rep(g.height, g.width, sparse_of(*g)),
        compress ==> gunzip_of(out@) == Some(encode_rep(g.height, g.width, sparse_of(*g))),
{
    let text = encode_sigma_text(g);
    if compress {
        gzip_pack(text.as_slice())
    } else {
        text
    }
}

} // verus!
