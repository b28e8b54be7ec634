//! Compressed bodies.
use std::io::Read;
use vstd::prelude::*;

verus! {

/// What the first gzip member of some bytes holds, where the bytes begin with an intact one.
pub uninterp spec fn gunzipped(data: Seq<u8>) -> Option<Seq<u8>>;

/// `flate2::read::GzDecoder`, read to its end, gives the bytes that were compressed, or an
/// error, left out here, where the data are no intact gzip member. Which bytes those are is
/// only named.
#[verifier::external_body]
pub(crate) fn gunzip(data: &[u8]) -> (r: Option<Vec<u8>>)
    ensures
        r is Some <==> gunzipped(data@) is Some,
        r is Some ==> Some(r->0@) == gunzipped(data@),
{
    let mut out: Vec<u8> = Vec::new();
    match flate2::read::GzDecoder::new(data).read_to_end(&mut out) {
        Ok(_) => Some(out),
        Err(_) => None,
    }
}

} // verus!
