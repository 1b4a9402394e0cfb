//! The decompression stage shared by the local and the remote extractor.
//!
//! Both extractors hand it a byte string already bounded to exactly one
//! entry's compressed size; it applies raw-deflate inflation.  The outcome of
//! inflation is a function of the input bytes alone, so it is named by the
//! uninterpreted [`inflate_raw`] and every caller's contract speaks of that
//! name.

use vstd::prelude::*;

use crate::Error;

verus! {

/// The outcome of raw-deflate inflation of exactly the given bytes: the
/// inflated bytes, or `None` where they are not a valid raw-deflate stream.
pub uninterp spec fn inflate_raw(b: Seq<u8>) -> Option<Seq<u8>>;

/// Relies on flate2's `DeflateDecoder` over a byte slice: raw-deflate
/// inflation, whose outcome depends on the input bytes alone.
#[verifier::external_body]
fn inflate_exec(b: &[u8]) -> (r: Option<Vec<u8>>)
    ensures
        r is Some <==> inflate_raw(b@) is Some,
        r is Some ==> r->0@ == inflate_raw(b@)->0,
{
    let mut decoder = flate2::read::DeflateDecoder::new(b);
    let mut out: Vec<u8> = Vec::new();
    match std::io::Read::read_to_end(&mut decoder, &mut out) {
        Ok(_) => Some(out),
        Err(_) => None,
    }
}

/// Inflates a payload already bounded to exactly its compressed length.
/// Bytes that are not a valid raw-deflate stream are
/// [`Error::Decompression`].
pub fn decompress(b: &[u8]) -> (r: Result<Vec<u8>, Error>)
    ensures
        match r {
            Ok(v) => inflate_raw(b@) == Some(v@),
            Err(e) => e == Error::Decompression && inflate_raw(b@) is None,
        },
{
    match inflate_exec(b) {
        Some(v) => Ok(v),
        None => Err(Error::Decompression),
    }
}

} // verus!
