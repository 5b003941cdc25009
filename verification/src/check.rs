use vstd::prelude::*;
use crate::decoder::{read_header, spec_read_header};

verus! {

/// Reports whether the front of `buf` already holds one whole, well-framed
/// packet: a legal first header byte, a terminated remaining-length
/// encoding, and at least that many body bytes present.
///
/// This lets a caller that buffers a stream ask cheaply whether a call to
/// [`crate::decode_slice`] could return a packet, without paying for a
/// full structural decode.
pub fn check(buf: &[u8]) -> (r: bool)
    ensures
        r == (spec_read_header(buf@) matches Ok(Some(h))),
{
    proof {
        assert(buf@.skip(0) =~= buf@);
    }
    let mut offset: usize = 0;
    match read_header(buf, &mut offset) {
        Ok(Option::Some(_)) => true,
        Ok(Option::None) => false,
        Err(_) => false,
    }
}

} // verus!
