//! Gzip compression of response bodies.
use flate2::write::GzEncoder;
use flate2::Compression;
use std::io::Write;
use vstd::prelude::*;

verus! {

/// The gzip stream that the encoder of `flate2` produces for `data` at its
/// default compression level and with its default header.
pub uninterp spec fn gzip_of(data: Seq<u8>) -> Seq<u8>;

/// Not verified: feeds `data` to a `flate2::write::GzEncoder` over an empty
/// vector, made by `GzEncoder::new` with `Compression::default()`, and takes
/// the vector back with `finish`. The contract claims that both steps
/// succeed and that the bytes are the stream that `gzip_of` names. In the
/// crate's source the encoder fails only where its sink refuses a write or
/// its compressor reports bad parameters; a vector takes every write, and
/// the compressor is new and at the default level.
#[verifier::external_body]
pub(crate) fn compress(data: &[u8]) -> (r: Option<Vec<u8>>)
    ensures
        r.is_some(),
        r.unwrap()@ == gzip_of(data@),
{
    let mut encoder = GzEncoder::new(Vec::new(), Compression::default());
    match encoder.write_all(data) {
        Ok(()) => encoder.finish().ok(),
        Err(_) => None,
    }
}

} // verus!
