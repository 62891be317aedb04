//! The stream compressor behind the on-disk object format.

use vstd::prelude::*;

verus! {

/// What the zlib compressor produces for a byte sequence, at the default
/// compression level.
pub uninterp spec fn zlib_compress(data: Seq<u8>) -> Seq<u8>;

/// Relies on flate2::write::ZlibEncoder at the default compression level:
/// for a fixed build, the compressed stream is a function of the input
/// bytes alone. Writing into an in-memory buffer does not fail.
#[verifier::external_body]
pub(crate) fn compress_bytes(data: &Vec<u8>) -> (r: Vec<u8>)
    ensures
        r@ == zlib_compress(data@),
{
    let mut enc = flate2::write::ZlibEncoder::new(Vec::new(), flate2::Compression::default());
    std::io::Write::write_all(&mut enc, data.as_slice()).expect("writing into memory cannot fail");
    enc.finish().expect("compressing into memory cannot fail")
}

/// Relies on flate2::read::ZlibDecoder: zlib compression is lossless, so
/// decompressing any stream the compressor produced yields back exactly
/// the bytes that were compressed. On any other stream nothing is
/// promised; a corrupt or truncated stream fails its checksum and is
/// reported as None.
#[verifier::external_body]
pub(crate) fn decompress_bytes(data: &Vec<u8>) -> (r: Option<Vec<u8>>)
    ensures
        r is None ==> forall|orig: Seq<u8>| data@ != zlib_compress(orig),
        r matches Some(v) ==> forall|orig: Seq<u8>| data@ == zlib_compress(orig) ==> v@ == orig,
{
    let mut dec = flate2::read::ZlibDecoder::new(data.as_slice());
    let mut out = Vec::new();
    match std::io::Read::read_to_end(&mut dec, &mut out) {
        Ok(_) => Some(out),
        Err(_) => None,
    }
}

} // verus!
