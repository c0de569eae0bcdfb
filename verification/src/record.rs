//! Framing of chunk records: the fields of a record as they stand on the
//! wire, before anything is known of its checksum.

use vstd::prelude::*;

use crate::chunk_type::ChunkType;
use crate::endian::{
    lemma_u32_be_decode_encode, lemma_u32_be_encode_decode, read_u32_be, u32_from_be, u32_to_be,
};
use crate::error::Error;

verus! {

/// The size of the record at the front of `bytes`, where `bytes` holds the
/// whole of it: twelve bytes of length, type and checksum around as many
/// bytes of data as the length field declares.
pub open spec fn record_size(bytes: Seq<u8>) -> Option<int> {
    if bytes.len() < 12 {
        None
    } else {
        let size = 12 + u32_from_be(bytes.subrange(0, 4));
        if bytes.len() < size {
            None
        } else {
            Some(size)
        }
    }
}

/// What a record holds: a type code, data, and the checksum stored with them.
pub struct RecordView {
    pub chunk_type: Seq<u8>,
    pub data: Seq<u8>,
    pub crc: u32,
}

impl RecordView {
    /// The type code has four bytes and the data fits a 32-bit length field.
    pub open spec fn wf(self) -> bool {
        &&& self.chunk_type.len() == 4
        &&& self.data.len() <= u32::MAX
    }

    /// The wire form: big-endian length of the data, type code, data,
    /// big-endian checksum.
    pub open spec fn to_bytes(self) -> Seq<u8> {
        u32_to_be(self.data.len() as u32) + self.chunk_type + self.data + u32_to_be(self.crc)
    }

    /// What reading `bytes` as exactly one record yields.
    ///
    /// The record must fill `bytes`: a buffer that ends before the declared
    /// length is satisfied is truncated, and one that goes on after the
    /// checksum has trailing garbage.
    pub open spec fn parse(bytes: Seq<u8>) -> Result<RecordView, Error> {
        match record_size(bytes) {
            None => Err(Error::Truncated),
            Some(size) => if bytes.len() > size {
                Err(Error::TrailingGarbage)
            } else {
                Ok(
                    RecordView {
                        chunk_type: bytes.subrange(4, 8),
                        data: bytes.subrange(8, size - 4),
                        crc: u32_from_be(bytes.subrange(size - 4, size)),
                    },
                )
            },
        }
    }

    /// Whether the stored checksum is `computed`, the checksum of the type
    /// code and the data; where it is not, the record is rejected.
    pub open spec fn verify(self, computed: u32) -> Result<(), Error> {
        if self.crc == computed {
            Ok(())
        } else {
            Err(Error::CrcMismatch)
        }
    }
}

/// A record borrowed from the buffer it was framed in.
#[derive(Debug, Clone, Copy)]
pub struct Record<'a> {
    pub chunk_type: ChunkType,
    pub data: &'a [u8],
    pub crc: u32,
}

impl<'a> View for Record<'a> {
    type V = RecordView;

    open spec fn view(&self) -> RecordView {
        RecordView { chunk_type: self.chunk_type@, data: self.data@, crc: self.crc }
    }
}

impl<'a> Record<'a> {
    /// The size of the record at the front of `bytes`, where `bytes` holds
    /// the whole of it.
    pub fn size(bytes: &[u8]) -> (r: Option<usize>)
        ensures
            match r {
                Some(size) => record_size(bytes@) == Some(size as int),
                None => record_size(bytes@) is None,
            },
    {
        if bytes.len() < 12 {
            return None;
        }
        let declared = read_u32_be(bytes, 0) as usize;
        if bytes.len() - 12 < declared {
            return None;
        }
        Some(12 + declared)
    }

    /// Reads `bytes` as exactly one record, without looking at whether its
    /// checksum is right.
    pub fn parse(bytes: &'a [u8]) -> (r: Result<Record<'a>, Error>)
        ensures
            match r {
                Ok(record) => RecordView::parse(bytes@) == Ok::<RecordView, Error>(record@),
                Err(e) => RecordView::parse(bytes@) == Err::<RecordView, Error>(e),
            },
            r matches Ok(record) ==> record@.wf(),
    {
        let size = match Record::size(bytes) {
            Some(size) => size,
            None => {
                return Err(Error::Truncated);
            },
        };
        if bytes.len() > size {
            return Err(Error::TrailingGarbage);
        }
        let chunk_type = ChunkType::from_bytes([bytes[4], bytes[5], bytes[6], bytes[7]]);
        assert(chunk_type@ =~= bytes@.subrange(4, 8));
        let data = &bytes[8..size - 4];
        let crc = read_u32_be(bytes, size - 4);
        proof {
            lemma_record_to_bytes_parse(bytes@);
        }
        Ok(Record { chunk_type, data, crc })
    }

    /// Accepts the record where its stored checksum is `computed`, the
    /// checksum of its type code and data, and rejects it where it is not.
    pub fn verify(&self, computed: u32) -> (r: Result<(), Error>)
        ensures
            r == self@.verify(computed),
    {
        if self.crc == computed {
            Ok(())
        } else {
            Err(Error::CrcMismatch)
        }
    }
}

/// Framing the wire form of a well-formed record gives the record back.
pub proof fn lemma_record_parse_to_bytes(record: RecordView)
    requires
        record.wf(),
    ensures
        record.to_bytes().len() == 12 + record.data.len(),
        record_size(record.to_bytes()) == Some(12 + record.data.len() as int),
        RecordView::parse(record.to_bytes()) == Ok::<RecordView, Error>(record),
{
    let bytes = record.to_bytes();
    let n = record.data.len() as int;
    lemma_u32_be_decode_encode(record.data.len() as u32);
    lemma_u32_be_decode_encode(record.crc);
    assert(bytes.len() == 12 + n);
    assert(bytes.subrange(0, 4) =~= u32_to_be(record.data.len() as u32));
    assert(bytes.subrange(4, 8) =~= record.chunk_type);
    assert(bytes.subrange(8, 8 + n) =~= record.data);
    assert(bytes.subrange(8 + n, 12 + n) =~= u32_to_be(record.crc));
}

/// A buffer that frames as a record is the wire form of that record, and the
/// record is well formed.
pub proof fn lemma_record_to_bytes_parse(bytes: Seq<u8>)
    requires
        RecordView::parse(bytes) is Ok,
    ensures
        RecordView::parse(bytes)->Ok_0.wf(),
        RecordView::parse(bytes)->Ok_0.to_bytes() == bytes,
{
    let record = RecordView::parse(bytes)->Ok_0;
    let size = bytes.len() as int;
    lemma_u32_be_encode_decode(bytes.subrange(0, 4));
    lemma_u32_be_encode_decode(bytes.subrange(size - 4, size));
    assert(record.to_bytes() =~= bytes);
}

/// Framing is the exact inverse of the wire form: a buffer frames as a record
/// exactly when the record is well formed and the buffer is its wire form.
pub proof fn lemma_record_parse_inverts_to_bytes(bytes: Seq<u8>, record: RecordView)
    ensures
        RecordView::parse(bytes) == Ok::<RecordView, Error>(record) <==> record.wf()
            && record.to_bytes() == bytes,
{
    if RecordView::parse(bytes) == Ok::<RecordView, Error>(record) {
        lemma_record_to_bytes_parse(bytes);
    }
    if record.wf() && record.to_bytes() == bytes {
        lemma_record_parse_to_bytes(record);
    }
}

/// Where the wire form of a well-formed record is followed by `tail`, the
/// length field at the front frames exactly that wire form.
pub proof fn lemma_record_then_tail(record: RecordView, tail: Seq<u8>)
    requires
        record.wf(),
    ensures
        record_size(record.to_bytes() + tail) == Some(12 + record.data.len() as int),
        (record.to_bytes() + tail).subrange(0, 12 + record.data.len() as int)
            == record.to_bytes(),
        (record.to_bytes() + tail).subrange(
            12 + record.data.len() as int,
            (record.to_bytes() + tail).len() as int,
        ) == tail,
{
    let bytes = record.to_bytes() + tail;
    let size = 12 + record.data.len() as int;
    lemma_u32_be_decode_encode(record.data.len() as u32);
    assert(record.to_bytes().len() == size);
    assert(bytes.subrange(0, 4) =~= u32_to_be(record.data.len() as u32));
    assert(bytes.subrange(0, size) =~= record.to_bytes());
    assert(bytes.subrange(size, bytes.len() as int) =~= tail);
}

/// Writing a byte into the second or third of four pieces laid end to end
/// writes it into that piece and leaves the others as they were.
proof fn lemma_write_in_the_middle(
    first: Seq<u8>,
    second: Seq<u8>,
    third: Seq<u8>,
    last: Seq<u8>,
    at: int,
    value: u8,
)
    requires
        first.len() == 4,
        second.len() == 4,
        4 <= at < 8 + third.len(),
    ensures
        ({
            let whole = first + second + third + last;
            let second_after = if at < 8 {
                second.update(at - 4, value)
            } else {
                second
            };
            let third_after = if at < 8 {
                third
            } else {
                third.update(at - 8, value)
            };
            &&& whole.update(at, value) == first + second_after + third_after + last
            &&& whole.update(at, value).subrange(4, 8 + third.len() as int) == second_after
                + third_after
            &&& whole.subrange(4, 8 + third.len() as int) == second + third
        }),
{
    let whole = first + second + third + last;
    let second_after = if at < 8 {
        second.update(at - 4, value)
    } else {
        second
    };
    let third_after = if at < 8 {
        third
    } else {
        third.update(at - 8, value)
    };
    assert(whole.update(at, value) =~= first + second_after + third_after + last);
    assert(whole.update(at, value).subrange(4, 8 + third.len() as int) =~= second_after
        + third_after);
    assert(whole.subrange(4, 8 + third.len() as int) =~= second + third);
}

/// The record whose wire form is that of `record` with the byte at `at`,
/// a place in its type code or data, replaced by `value`.
pub open spec fn with_byte(record: RecordView, at: int, value: u8) -> RecordView {
    RecordView {
        chunk_type: if at < 8 {
            record.chunk_type.update(at - 4, value)
        } else {
            record.chunk_type
        },
        data: if at < 8 {
            record.data
        } else {
            record.data.update(at - 8, value)
        },
        crc: record.crc,
    }
}

/// Replacing a byte of the type code or data in the wire form of a record
/// gives the wire form of the record with that byte replaced: the length and
/// the stored checksum stay as they were.
pub proof fn lemma_record_with_byte(record: RecordView, at: int, value: u8)
    requires
        record.wf(),
        4 <= at < 8 + record.data.len(),
    ensures
        with_byte(record, at, value).wf(),
        record.to_bytes().update(at, value) == with_byte(record, at, value).to_bytes(),
        record.to_bytes()[at] == if at < 8 {
            record.chunk_type[at - 4]
        } else {
            record.data[at - 8]
        },
{
    lemma_u32_be_decode_encode(record.data.len() as u32);
    lemma_u32_be_decode_encode(record.crc);
    lemma_write_in_the_middle(
        u32_to_be(record.data.len() as u32),
        record.chunk_type,
        record.data,
        u32_to_be(record.crc),
        at,
        value,
    );
}

} // verus!
