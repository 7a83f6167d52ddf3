//! The part of a frame that follows the fixed header.
use vstd::prelude::*;
use vstd::slice::slice_subrange;
use bytes::Bytes;
use crate::codec::buffer::{bytes_as_slice, bytes_seq};
use crate::codec::error::Error;
use crate::codec::header::FixedHeader;

verus! {

/// What follows the fixed header in `frame`. A frame shorter than the
/// header it is said to have crosses a boundary.
pub open spec fn frame_body(fixed_header: FixedHeader, frame: Seq<u8>) -> Result<Seq<u8>, Error> {
    if fixed_header.header_len > frame.len() {
        Err(Error::BoundaryCrossed)
    } else {
        Ok(frame.skip(fixed_header.header_len as int))
    }
}

/// What follows the fixed header in `frame`, as a slice.
pub fn body_slice<'a>(fixed_header: FixedHeader, frame: &'a Bytes) -> (r: Result<&'a [u8], Error>)
    ensures
        match frame_body(fixed_header, bytes_seq(*frame)) {
            Ok(body) => r matches Ok(slice) && slice@ == body,
            Err(e) => r matches Err(x) && x == e,
        },
{
    let all = bytes_as_slice(frame);
    if fixed_header.header_len > all.len() {
        return Err(Error::BoundaryCrossed);
    }
    let body = slice_subrange(all, fixed_header.header_len, all.len());
    assert(body@ =~= all@.skip(fixed_header.header_len as int));
    Ok(body)
}

} // verus!
