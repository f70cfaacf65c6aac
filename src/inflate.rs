//! Zlib inflation, by libflate.
use vstd::prelude::*;
use std::io::Read;

verus! {

/// What inflating the zlib stream `data` yields; `None` where the stream is not valid.
pub uninterp spec fn zlib_inflated(data: Seq<u8>) -> Option<Seq<u8>>;

/// Relies on libflate::zlib::Decoder: reading it to the end yields the data that the
/// zlib stream at the start of `data` inflates to, or an error when that stream is not valid.
#[verifier::external_body]
pub(crate) fn zlib_inflate(data: &[u8]) -> (r: Result<Vec<u8>, String>)
    ensures
        r is Ok <==> zlib_inflated(data@) is Some,
        r matches Ok(v) ==> zlib_inflated(data@) == Some(v@),
{
    let mut out = Vec::new();
    match libflate::zlib::Decoder::new(data) {
        Ok(mut d) => match d.read_to_end(&mut out) {
            Ok(_) => Ok(out),
            Err(e) => Err(e.to_string()),
        },
        Err(e) => Err(e.to_string()),
    }
}

} // verus!
