use std::io::Read;
use std::io::Write;
use vstd::prelude::*;

verus! {

/// The standard CRC-32 of a byte string.
pub uninterp spec fn crc32_of(data: Seq<u8>) -> u32;

/// The zlib stream that flate2 writes for a byte string at the default level.
pub uninterp spec fn zlib_deflated(data: Seq<u8>) -> Seq<u8>;

/// The bytes that a zlib stream inflates to.
pub uninterp spec fn zlib_inflated(data: Seq<u8>) -> Seq<u8>;

/// The xz stream that xz2 writes for a byte string at level 6.
pub uninterp spec fn xz_deflated(data: Seq<u8>) -> Seq<u8>;

/// The bytes that an xz stream decodes to.
pub uninterp spec fn xz_inflated(data: Seq<u8>) -> Seq<u8>;

/// Relies on `crc32fast::hash`: the CRC-32 of the bytes, which depends on the
/// bytes alone.
#[verifier::external_body]
pub(crate) fn crc32(data: &[u8]) -> (r: u32)
    ensures
        r == crc32_of(data@),
{
    crc32fast::hash(data)
}

/// Relies on `flate2::write::ZlibEncoder` at the default level, writing into
/// a `Vec`, which cannot fail: the output depends on the input alone, and zlib
/// compression is lossless, so inflating it gives the input back.
#[verifier::external_body]
pub(crate) fn zlib_compress(data: &[u8]) -> (r: Result<Vec<u8>, ()>)
    ensures
        r is Ok,
        r matches Ok(c) ==> c@ == zlib_deflated(data@) && zlib_inflated(c@) == data@,
{
    let mut e = flate2::write::ZlibEncoder::new(Vec::new(), flate2::Compression::default());
    match e.write_all(data) {
        Ok(()) => e.finish().map_err(|_| ()),
        Err(_) => Err(()),
    }
}

/// Relies on `flate2::read::ZlibDecoder`: on success, the bytes that the zlib
/// stream inflates to; a stream that flate2's encoder wrote decodes.
#[verifier::external_body]
pub(crate) fn zlib_decompress(data: &[u8]) -> (r: Result<Vec<u8>, ()>)
    ensures
        r matches Ok(v) ==> v@ == zlib_inflated(data@),
        (exists|x: Seq<u8>| data@ == #[trigger] zlib_deflated(x)) ==> r is Ok,
{
    let mut out = Vec::new();
    match flate2::read::ZlibDecoder::new(data).read_to_end(&mut out) {
        Ok(_) => Ok(out),
        Err(_) => Err(()),
    }
}

/// Relies on `xz2::read::XzEncoder` at level 6, built on the liblzma bundled
/// with lzma-sys (the `static` feature): the output depends on the input
/// alone, and xz compression is lossless, so decoding it gives the input back.
#[verifier::external_body]
pub(crate) fn xz_compress(data: &[u8]) -> (r: Result<Vec<u8>, ()>)
    ensures
        r matches Ok(c) ==> c@ == xz_deflated(data@) && xz_inflated(c@) == data@,
{
    let mut out = Vec::new();
    match xz2::read::XzEncoder::new(data, 6).read_to_end(&mut out) {
        Ok(_) => Ok(out),
        Err(_) => Err(()),
    }
}

/// Relies on `xz2::read::XzDecoder`: on success, the bytes that the xz stream
/// decodes to; a stream that xz2's encoder wrote decodes.
#[verifier::external_body]
pub(crate) fn xz_decompress(data: &[u8]) -> (r: Result<Vec<u8>, ()>)
    ensures
        r matches Ok(v) ==> v@ == xz_inflated(data@),
        (exists|x: Seq<u8>| data@ == #[trigger] xz_deflated(x)) ==> r is Ok,
{
    let mut out = Vec::new();
    match xz2::read::XzDecoder::new(data).read_to_end(&mut out) {
        Ok(_) => Ok(out),
        Err(_) => Err(()),
    }
}

} // verus!
