//! The `.lk` file format: a world's JSON, gzip-compressed.

use vstd::prelude::*;
use crate::lk::LkError;

verus! {

/// What gzip decompression (of the first member) gives for `data`: the
/// decompressed bytes, or nothing where `data` is no valid gzip stream.
/// DEFLATE takes pages to state.
pub uninterp spec fn gunzip_bytes(data: Seq<u8>) -> Option<Seq<u8>>;

/// `flate2::read::GzDecoder` over `data`, read to its end: the decompressed
/// bytes, named by `gunzip_bytes`, or the decoder's error text where `data`
/// is no valid gzip stream. The error text is left unsaid.
#[verifier::external_body]
fn gunzip(data: &[u8]) -> (r: Result<Vec<u8>, String>)
    ensures
        r is Ok <==> gunzip_bytes(data@) is Some,
        r matches Ok(v) ==> gunzip_bytes(data@) == Some(v@),
{
    let mut decoder = flate2::read::GzDecoder::new(data);
    let mut out: Vec<u8> = Vec::new();
    match std::io::Read::read_to_end(&mut decoder, &mut out) {
        Ok(_) => Ok(out),
        Err(e) => Err(e.to_string()),
    }
}

/// `flate2::write::GzEncoder` at the default level, writing into a `Vec`:
/// a gzip stream that decompresses to `data` again (gzip is lossless).
/// Which compressed bytes it picks is left unsaid.
#[verifier::external_body]
fn gzip(data: &[u8]) -> (r: Vec<u8>)
    ensures
        gunzip_bytes(r@) == Some(data@),
{
    let mut encoder = flate2::write::GzEncoder::new(Vec::new(), flate2::Compression::default());
    match std::io::Write::write_all(&mut encoder, data) {
        Ok(()) => {},
        Err(_) => {},
    }
    match encoder.finish() {
        Ok(v) => v,
        Err(_) => Vec::new(),
    }
}

/// A `.lk` file whose content is the JSON `json`.
pub open spec fn lk_file_holds(file: Seq<u8>, json: Seq<u8>) -> bool {
    gunzip_bytes(file) == Some(json)
}

/// The JSON held by the bytes of a `.lk` file; a file that does not
/// decompress is a JSON error, as when the JSON reader hits it.
pub fn lk_json_of_file(bytes: &Vec<u8>) -> (r: Result<Vec<u8>, LkError>)
    ensures
        match gunzip_bytes(bytes@) {
            Some(j) => r matches Ok(v) && v@ == j,
            None => r matches Err(LkError::Json(_)),
        },
{
    match gunzip(bytes.as_slice()) {
        Ok(v) => Ok(v),
        Err(m) => Err(LkError::Json(m)),
    }
}

/// The bytes of a `.lk` file holding the JSON `json`.
pub fn lk_file_of_json(json: &Vec<u8>) -> (r: Vec<u8>)
    ensures
        lk_file_holds(r@, json@),
{
    gzip(json.as_slice())
}

/// A file written with some JSON reads back as exactly that JSON.
pub proof fn law_lk_file_round_trip(file: Seq<u8>, json: Seq<u8>)
    requires
        lk_file_holds(file, json),
    ensures
        gunzip_bytes(file) == Some(json),
        forall|j: Seq<u8>| lk_file_holds(file, j) ==> j == json,
{
}

} // verus!
