//! Four-byte chunk type codes and the property bits carried by their letter case.

use vstd::prelude::*;
use vstd::std_specs::cmp::PartialEqSpecImpl;
use vstd::utf8::{
    decode_utf8, encode_utf8, encode_utf8_decode_utf8, partial_valid_utf8,
    partial_valid_utf8_extend_ascii_block, valid_utf8,
};

use crate::error::Error;
use crate::text::string_from_utf8;

verus! {

/// Bit 5 of a byte: set in lower-case ASCII letters, clear in upper-case ones.
pub const MASK: u8 = 32;

/// Whether `b` is one of `A..=Z` or `a..=z`.
pub open spec fn is_letter(b: u8) -> bool {
    (65 <= b <= 90) || (97 <= b <= 122)
}

/// Whether `b` is one of `A..=Z`.
pub open spec fn is_upper(b: u8) -> bool {
    65 <= b <= 90
}

/// Whether `bytes` is a well-formed type string: exactly four ASCII letters.
pub open spec fn is_type_string(bytes: Seq<u8>) -> bool {
    &&& bytes.len() == 4
    &&& forall|i: int| 0 <= i < 4 ==> is_letter(#[trigger] bytes[i])
}

/// A code is critical when bit 5 of its first byte is clear.
pub open spec fn spec_is_critical(code: Seq<u8>) -> bool {
    code[0] & MASK == 0
}

/// A code is public when bit 5 of its second byte is clear.
pub open spec fn spec_is_public(code: Seq<u8>) -> bool {
    code[1] & MASK == 0
}

/// The reserved bit of a code is valid when bit 5 of its third byte is clear.
pub open spec fn spec_is_reserved_bit_valid(code: Seq<u8>) -> bool {
    code[2] & MASK == 0
}

/// A code is safe to copy when bit 5 of its fourth byte is set.
pub open spec fn spec_is_safe_to_copy(code: Seq<u8>) -> bool {
    code[3] & MASK != 0
}

/// A code is valid when it is four ASCII letters and its reserved bit is valid.
pub open spec fn spec_is_valid(code: Seq<u8>) -> bool {
    is_type_string(code) && spec_is_reserved_bit_valid(code)
}

/// In an ASCII letter, bit 5 is clear exactly when the letter is upper case.
pub proof fn lemma_case_is_bit_five(b: u8)
    requires
        is_letter(b),
    ensures
        b & MASK == 0 <==> is_upper(b),
{
    assert(((65 <= b <= 90) || (97 <= b <= 122)) ==> (b & 32 == 0 <==> 65 <= b <= 90))
        by (bit_vector);
}

/// Four ASCII letters are valid UTF-8.
pub proof fn lemma_type_string_is_utf8(code: Seq<u8>)
    requires
        is_type_string(code),
    ensures
        valid_utf8(code),
{
    assert(code.subrange(0, 0) =~= Seq::<u8>::empty());
    assert(partial_valid_utf8(code, 0));
    partial_valid_utf8_extend_ascii_block(code, 0, 4);
    assert(code.subrange(0, 4) =~= code);
}

fn is_ascii_letter(b: u8) -> (r: bool)
    ensures
        r == is_letter(b),
{
    (65 <= b && b <= 90) || (97 <= b && b <= 122)
}

/// A chunk type code: four raw bytes, compared by byte equality.
#[derive(Debug, Clone, Copy)]
pub struct ChunkType {
    bytes: [u8; 4],
}

impl PartialEq for ChunkType {
    fn eq(&self, other: &ChunkType) -> (same: bool) {
        let same = self.bytes[0] == other.bytes[0] && self.bytes[1] == other.bytes[1]
            && self.bytes[2] == other.bytes[2] && self.bytes[3] == other.bytes[3];
        assert(same == (self@ =~= other@));
        same
    }
}

impl Eq for ChunkType {}

impl PartialEqSpecImpl for ChunkType {
    open spec fn obeys_eq_spec() -> bool {
        true
    }

    open spec fn eq_spec(&self, other: &ChunkType) -> bool {
        self@ == other@
    }
}

impl View for ChunkType {
    type V = Seq<u8>;

    closed spec fn view(&self) -> Seq<u8> {
        self.bytes@
    }
}

impl ChunkType {
    /// Every code has exactly four bytes.
    pub proof fn lemma_four_bytes(self)
        ensures
            self@.len() == 4,
    {
    }

    /// Builds a type code from raw bytes without checking that they are letters.
    pub fn from_bytes(bytes: [u8; 4]) -> (t: ChunkType)
        ensures
            t@ == bytes@,
    {
        ChunkType { bytes }
    }

    /// Builds a type code from a string, which must be exactly four ASCII letters.
    pub fn from_str(s: &str) -> (r: Result<ChunkType, Error>)
        ensures
            r is Ok <==> is_type_string(encode_utf8(s@)),
            r matches Ok(t) ==> t@ == encode_utf8(s@),
            r matches Err(e) ==> e == Error::InvalidTypeCode,
    {
        let bytes = s.as_bytes();
        if bytes.len() != 4 {
            return Err(Error::InvalidTypeCode);
        }
        let mut i: usize = 0;
        while i < 4
            invariant
                i <= 4,
                bytes@ == encode_utf8(s@),
                bytes@.len() == 4,
                forall|j: int| 0 <= j < i ==> is_letter(#[trigger] bytes@[j]),
            decreases 4 - i,
        {
            if !is_ascii_letter(bytes[i]) {
                return Err(Error::InvalidTypeCode);
            }
            i += 1;
        }
        let t = ChunkType { bytes: [bytes[0], bytes[1], bytes[2], bytes[3]] };
        assert(t@ =~= bytes@);
        Ok(t)
    }

    /// The four bytes of the code.
    pub fn bytes(&self) -> (b: [u8; 4])
        ensures
            b@ == self@,
    {
        self.bytes
    }

    /// Whether the code is four ASCII letters with a valid reserved bit.
    pub fn is_valid(&self) -> (r: bool)
        ensures
            r == spec_is_valid(self@),
    {
        let mut i: usize = 0;
        while i < 4
            invariant
                i <= 4,
                forall|j: int| 0 <= j < i ==> is_letter(#[trigger] self@[j]),
            decreases 4 - i,
        {
            if !is_ascii_letter(self.bytes[i]) {
                return false;
            }
            i += 1;
        }
        self.is_reserved_bit_valid()
    }

    /// Whether the chunk must be understood by every reader.
    pub fn is_critical(&self) -> (r: bool)
        ensures
            r == spec_is_critical(self@),
            is_letter(self@[0]) ==> r == is_upper(self@[0]),
    {
        proof {
            if is_letter(self@[0]) {
                lemma_case_is_bit_five(self@[0]);
            }
        }
        self.bytes[0] & MASK == 0
    }

    /// Whether the chunk type is a standardized one.
    pub fn is_public(&self) -> (r: bool)
        ensures
            r == spec_is_public(self@),
            is_letter(self@[1]) ==> r == is_upper(self@[1]),
    {
        proof {
            if is_letter(self@[1]) {
                lemma_case_is_bit_five(self@[1]);
            }
        }
        self.bytes[1] & MASK == 0
    }

    /// Whether the reserved bit has the value the format requires.
    pub fn is_reserved_bit_valid(&self) -> (r: bool)
        ensures
            r == spec_is_reserved_bit_valid(self@),
            is_letter(self@[2]) ==> r == is_upper(self@[2]),
    {
        proof {
            if is_letter(self@[2]) {
                lemma_case_is_bit_five(self@[2]);
            }
        }
        self.bytes[2] & MASK == 0
    }

    /// Whether an editor that does not know the chunk may copy it unchanged.
    pub fn is_safe_to_copy(&self) -> (r: bool)
        ensures
            r == spec_is_safe_to_copy(self@),
            is_letter(self@[3]) ==> r == !is_upper(self@[3]),
    {
        proof {
            if is_letter(self@[3]) {
                lemma_case_is_bit_five(self@[3]);
            }
        }
        self.bytes[3] & MASK != 0
    }

    /// The code as a string, where its bytes are valid UTF-8. A code of four
    /// ASCII letters always has a string form, and that form has the code's bytes.
    pub fn to_string(&self) -> (r: Result<String, Error>)
        ensures
            r is Ok <==> valid_utf8(self@),
            r matches Ok(s) ==> s@ == decode_utf8(self@) && encode_utf8(s@) == self@,
            r matches Err(e) ==> e == Error::InvalidEncoding,
            is_type_string(self@) ==> r is Ok,
    {
        let mut raw: Vec<u8> = Vec::with_capacity(4);
        raw.push(self.bytes[0]);
        raw.push(self.bytes[1]);
        raw.push(self.bytes[2]);
        raw.push(self.bytes[3]);
        assert(raw@ =~= self@);
        proof {
            if is_type_string(self@) {
                lemma_type_string_is_utf8(self@);
            }
        }
        match string_from_utf8(raw) {
            Some(s) => {
                proof {
                    encode_utf8_decode_utf8(s@);
                }
                Ok(s)
            },
            None => Err(Error::InvalidEncoding),
        }
    }
}

} // verus!
