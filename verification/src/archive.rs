//! Packages as compressed bytes: the package layout, then raw DEFLATE at the
//! best compression level.
use crate::package::{decode_package, encode_package, lemma_decode_encode, Package};
use std::io::Read;
use vstd::prelude::*;

verus! {

/// What flate2's raw-DEFLATE encoder at the best level gives for `data`
/// (`None` when it reports an error).
pub uninterp spec fn deflated(data: Seq<u8>) -> Option<Seq<u8>>;

/// What flate2's raw-DEFLATE decoder gives for `data` (`None` when it reports
/// an error).
pub uninterp spec fn inflated(data: Seq<u8>) -> Option<Seq<u8>>;

/// The package stored in compressed bytes, if they hold one.
pub open spec fn unpacked(data: Seq<u8>) -> Option<crate::package::PackageModel> {
    match inflated(data) {
        Some(raw) => decode_package(raw),
        None => None,
    }
}

/// Compresses `data` by reading `flate2::bufread::DeflateEncoder` (created with
/// `flate2::Compression::best()`) to its end. Claimed: the result is a
/// function of `data`, and decoding compressed bytes with the matching
/// decoder gives `data` back (DEFLATE is lossless).
#[verifier::external_body]
fn deflate_best(data: Vec<u8>) -> (out: Option<Vec<u8>>)
    ensures
        match out {
            Some(z) => deflated(data@) == Some(z@) && inflated(z@) == Some(data@),
            None => deflated(data@) is None,
        },
{
    let mut encoder = flate2::bufread::DeflateEncoder::new(
        std::io::Cursor::new(data),
        flate2::Compression::best(),
    );
    let mut out: Vec<u8> = Vec::new();
    match encoder.read_to_end(&mut out) {
        Ok(_) => Some(out),
        Err(_) => None,
    }
}

/// Decompresses `data` by reading `flate2::bufread::DeflateDecoder` to its end.
/// Claimed: the result is a function of `data` alone.
#[verifier::external_body]
fn inflate(data: &[u8]) -> (out: Option<Vec<u8>>)
    ensures
        match out {
            Some(v) => inflated(data@) == Some(v@),
            None => inflated(data@) is None,
        },
{
    let mut decoder = flate2::bufread::DeflateDecoder::new(data);
    let mut out: Vec<u8> = Vec::new();
    match decoder.read_to_end(&mut out) {
        Ok(_) => Some(out),
        Err(_) => None,
    }
}

/// The compressed bytes of a package, or `None` when the encoder fails; what
/// comes out decompresses to the package's bytes and unpacks to the same
/// package.
pub fn pack_bytes(package: &Package) -> (out: Option<Vec<u8>>)
    ensures
        match out {
            Some(z) => {
                &&& deflated(encode_package(package@)) == Some(z@)
                &&& inflated(z@) == Some(encode_package(package@))
                &&& package@.num_per_frame.len() <= u32::MAX ==> unpacked(z@) == Some(package@)
            },
            None => deflated(encode_package(package@)) is None,
        },
{
    let raw = package.to_bytes();
    proof {
        assert(raw@ + Seq::<u8>::empty() =~= raw@);
        if package@.num_per_frame.len() <= u32::MAX {
            lemma_decode_encode(package@, Seq::<u8>::empty());
        }
    }
    deflate_best(raw)
}

/// The package held by compressed bytes, or `None` when they do not
/// decompress or do not start with a package.
pub fn unpack_bytes(data: &[u8]) -> (r: Option<Package>)
    ensures
        match r {
            Some(pkg) => unpacked(data@) == Some(pkg@),
            None => unpacked(data@) is None,
        },
{
    match inflate(data) {
        Some(raw) => Package::from_bytes(raw.as_slice()),
        None => None,
    }
}

} // verus!
