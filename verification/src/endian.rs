//! Big-endian encoding of 32-bit fields, as used for chunk lengths and checksums.

use vstd::prelude::*;

verus! {

/// The value of the four bytes at the front of `bytes`, most significant first.
pub open spec fn u32_from_be(bytes: Seq<u8>) -> u32
    recommends
        bytes.len() >= 4,
{
    (bytes[0] * 0x100_0000 + bytes[1] * 0x1_0000 + bytes[2] * 0x100 + bytes[3]) as u32
}

/// The four bytes of `x`, most significant first.
pub open spec fn u32_to_be(x: u32) -> Seq<u8> {
    seq![
        (x / 0x100_0000) as u8,
        (x / 0x1_0000 % 0x100) as u8,
        (x / 0x100 % 0x100) as u8,
        (x % 0x100) as u8,
    ]
}

/// Decoding undoes encoding.
pub proof fn lemma_u32_be_decode_encode(x: u32)
    ensures
        u32_to_be(x).len() == 4,
        u32_from_be(u32_to_be(x)) == x,
{
}

/// Encoding undoes decoding of any four bytes.
pub proof fn lemma_u32_be_encode_decode(bytes: Seq<u8>)
    requires
        bytes.len() == 4,
    ensures
        u32_to_be(u32_from_be(bytes)) == bytes,
{
    let b0 = bytes[0] as int;
    let b1 = bytes[1] as int;
    let b2 = bytes[2] as int;
    let b3 = bytes[3] as int;
    let hi = b0 * 0x100 + b1;
    let mid = hi * 0x100 + b2;
    let x = mid * 0x100 + b3;
    assert(x == u32_from_be(bytes));
    assert(x % 0x100 == b3 && x / 0x100 == mid);
    assert(mid % 0x100 == b2 && mid / 0x100 == hi);
    assert(hi % 0x100 == b1 && hi / 0x100 == b0);
    assert(x / 0x1_0000 == hi);
    assert(x / 0x100_0000 == b0);
    assert(u32_to_be(u32_from_be(bytes)) =~= bytes);
}

/// Reads the big-endian field that starts at `at`.
pub(crate) fn read_u32_be(bytes: &[u8], at: usize) -> (x: u32)
    requires
        at + 4 <= bytes@.len(),
    ensures
        x == u32_from_be(bytes@.subrange(at as int, at + 4)),
{
    let b0: u32 = bytes[at] as u32;
    let b1: u32 = bytes[at + 1] as u32;
    let b2: u32 = bytes[at + 2] as u32;
    let b3: u32 = bytes[at + 3] as u32;
    b0 * 0x100_0000 + b1 * 0x1_0000 + b2 * 0x100 + b3
}

/// Appends the big-endian encoding of `x` to `buf`.
pub(crate) fn push_u32_be(buf: &mut Vec<u8>, x: u32)
    ensures
        final(buf)@ == old(buf)@ + u32_to_be(x),
{
    buf.push((x / 0x100_0000) as u8);
    buf.push((x / 0x1_0000 % 0x100) as u8);
    buf.push((x / 0x100 % 0x100) as u8);
    buf.push((x % 0x100) as u8);
}

} // verus!
