//! The checksum that guards the type and data of every chunk.

use crc::{Crc, CRC_32_ISO_HDLC};
use vstd::prelude::*;

verus! {

/// The CRC-32/ISO-HDLC checksum of `bytes`: the 32-bit cyclic redundancy check
/// that PNG and zlib use. Its value is whatever the `crc` crate computes; the
/// library reasons about it only as a function of the bytes.
pub uninterp spec fn crc32_iso_hdlc(bytes: Seq<u8>) -> u32;

/// Computes the checksum of `bytes` with `crc::Crc::<u32>::checksum`, on the
/// `Crc` that `crc::Crc::<u32>::new` builds for `crc::CRC_32_ISO_HDLC`.
///
/// Not proved: that the call returns the same value for the same bytes, which
/// is all the contract claims. The crate computes the value from the bytes and
/// a constant table and reads nothing else.
#[verifier::external_body]
pub(crate) fn checksum(bytes: &[u8]) -> (sum: u32)
    ensures
        sum == crc32_iso_hdlc(bytes@),
{
    Crc::<u32>::new(&CRC_32_ISO_HDLC).checksum(bytes)
}

} // verus!
