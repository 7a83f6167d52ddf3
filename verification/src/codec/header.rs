//! The fixed header that every packet starts with.
//!
//! ```text
//!          7                          3                          0
//!          +--------------------------+--------------------------+
//! byte 1   | MQTT Control Packet Type | Flags for each type      |
//!          +--------------------------+--------------------------+
//!          |         Remaining Bytes Len  (1 - 4 bytes)          |
//!          +-----------------------------------------------------+
//! ```
use vstd::prelude::*;
use crate::codec::primitives::varbyte_size;

verus! {

/// The first byte of a packet, the length of what follows the header, and
/// the length of the header itself.
#[derive(Debug, Clone, Copy, PartialEq, Eq, Structural)]
pub struct FixedHeader {
    pub byte1: u8,
    pub header_len: usize,
    pub remaining_len: usize,
}

impl FixedHeader {
    /// The header length is the one that `remaining_len` takes in its
    /// shortest form.
    pub open spec fn wf(&self) -> bool {
        &&& self.remaining_len <= 268_435_455
        &&& self.header_len == 1 + varbyte_size(self.remaining_len as nat)
    }
}

/// The length of a fixed header whose remaining length is `remaining_len`:
/// one byte for the type and flags, and the bytes of the length itself.
pub fn header_len(remaining_len: usize) -> (len: usize)
    ensures
        len == 1 + varbyte_size(remaining_len as nat),
{
    if remaining_len >= 2_097_152 {
        4 + 1
    } else if remaining_len >= 16_384 {
        3 + 1
    } else if remaining_len >= 128 {
        2 + 1
    } else {
        1 + 1
    }
}

} // verus!
