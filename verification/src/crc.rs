//! The record checksum.
//!
//! Records carry a trailing CRC-32 (IEEE 802.3 polynomial) over every
//! preceding byte of the record.  The checksum itself is computed by an
//! outside crate; the library only needs that it is a function of the
//! bytes alone.

use vstd::prelude::*;

verus! {

pub uninterp spec fn crc32_of(data: Seq<u8>) -> u32;

/// Relies on crc32fast::hash: the CRC-32 (IEEE) checksum of the bytes,
/// a function of the bytes alone.
#[verifier::external_body]
pub(crate) fn crc32(data: &Vec<u8>) -> (r: u32)
    ensures
        r == crc32_of(data@),
{
    crc32fast::hash(data.as_slice())
}

} // verus!
