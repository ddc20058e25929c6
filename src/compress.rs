//! The gzip and zlib streams of flate2. The codec itself knows nothing of
//! compression: a document is encoded to bytes, which are then compressed,
//! and compressed input is decompressed before it is read.

use vstd::prelude::*;

verus! {

/// The outcome of compressing some bytes into a gzip stream with flate2 at
/// the default level: the stream, or `None` where flate2 reports an error.
pub uninterp spec fn gzip_result(b: Seq<u8>) -> Option<Seq<u8>>;

/// The outcome of compressing some bytes into a zlib stream with flate2 at
/// the default level: the stream, or `None` where flate2 reports an error.
pub uninterp spec fn zlib_result(b: Seq<u8>) -> Option<Seq<u8>>;

/// The outcome of decompressing a gzip stream with flate2: the bytes, or
/// `None` where the stream is malformed.
pub uninterp spec fn gunzip_result(b: Seq<u8>) -> Option<Seq<u8>>;

/// The outcome of decompressing a zlib stream with flate2: the bytes, or
/// `None` where the stream is malformed.
pub uninterp spec fn unzlib_result(b: Seq<u8>) -> Option<Seq<u8>>;

/// Relies on `flate2::write::GzEncoder` (default level, default header):
/// writing the bytes and finishing the stream gives the gzip stream, or an
/// I/O error.
#[verifier::external_body]
pub(crate) fn gzip(b: &[u8]) -> (r: Option<Vec<u8>>)
    ensures
        match r {
            Some(v) => gzip_result(b@) == Some(v@),
            None => gzip_result(b@) is None,
        },
{
    let mut e = flate2::write::GzEncoder::new(Vec::new(), flate2::Compression::default());
    match std::io::Write::write_all(&mut e, b) {
        Ok(()) => e.finish().ok(),
        Err(_) => None,
    }
}

/// Relies on `flate2::write::ZlibEncoder` (default level): writing the bytes
/// and finishing the stream gives the zlib stream, or an I/O error.
#[verifier::external_body]
pub(crate) fn zlib(b: &[u8]) -> (r: Option<Vec<u8>>)
    ensures
        match r {
            Some(v) => zlib_result(b@) == Some(v@),
            None => zlib_result(b@) is None,
        },
{
    let mut e = flate2::write::ZlibEncoder::new(Vec::new(), flate2::Compression::default());
    match std::io::Write::write_all(&mut e, b) {
        Ok(()) => e.finish().ok(),
        Err(_) => None,
    }
}

/// Relies on `flate2::read::GzDecoder`: reading it to the end gives the
/// decompressed bytes, or an error on a malformed stream.
#[verifier::external_body]
pub(crate) fn gunzip(b: &[u8]) -> (r: Option<Vec<u8>>)
    ensures
        match r {
            Some(v) => gunzip_result(b@) == Some(v@),
            None => gunzip_result(b@) is None,
        },
{
    let mut d = flate2::read::GzDecoder::new(b);
    let mut out: Vec<u8> = Vec::new();
    match std::io::Read::read_to_end(&mut d, &mut out) {
        Ok(_) => Some(out),
        Err(_) => None,
    }
}

/// Relies on `flate2::read::ZlibDecoder`: reading it to the end gives the
/// decompressed bytes, or an error on a malformed stream.
#[verifier::external_body]
pub(crate) fn unzlib(b: &[u8]) -> (r: Option<Vec<u8>>)
    ensures
        match r {
            Some(v) => unzlib_result(b@) == Some(v@),
            None => unzlib_result(b@) is None,
        },
{
    let mut d = flate2::read::ZlibDecoder::new(b);
    let mut out: Vec<u8> = Vec::new();
    match std::io::Read::read_to_end(&mut d, &mut out) {
        Ok(_) => Some(out),
        Err(_) => None,
    }
}

} // verus!
