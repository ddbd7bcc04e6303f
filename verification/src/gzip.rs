//! gzip decompression through flate2.
use vstd::prelude::*;

use std::io::Read;

verus! {

/// What flate2's `GzDecoder` reads out of the gzip data `bytes`; `None`
/// where reading fails.
pub uninterp spec fn gunzipped(bytes: Seq<u8>) -> Option<Seq<u8>>;

/// Reads `bytes` to the end through flate2's `read::GzDecoder`: the
/// decompressed data, or nothing where reading fails.
#[verifier::external_body]
pub(crate) fn gunzip(bytes: &[u8]) -> (res: Option<Vec<u8>>)
    ensures
        match res {
            Some(out) => gunzipped(bytes@) == Some(out@),
            None => gunzipped(bytes@) is None,
        },
{
    let mut out = Vec::new();
    match flate2::read::GzDecoder::new(bytes).read_to_end(&mut out) {
        Ok(_) => Some(out),
        Err(_) => None,
    }
}

} // verus!
