//! Chunks: length-prefixed, type-tagged, checksummed records.

use vstd::prelude::*;
use vstd::slice::slice_to_vec;
use vstd::utf8::{decode_utf8, encode_utf8, encode_utf8_decode_utf8, valid_utf8};

use crate::checksum::{checksum, crc32_iso_hdlc};
use crate::chunk_type::ChunkType;
use crate::endian::push_u32_be;
use crate::error::Error;
use crate::record::{
    lemma_record_parse_to_bytes, lemma_record_to_bytes_parse, lemma_record_with_byte, with_byte,
    Record, RecordView,
};
use crate::text::string_from_utf8;

verus! {

/// What a chunk is: its type code and its data. The length and the checksum
/// that accompany them on the wire are functions of these two.
pub struct ChunkView {
    pub chunk_type: Seq<u8>,
    pub data: Seq<u8>,
}

impl ChunkView {
    /// The type code has four bytes and the data fits a 32-bit length field.
    pub open spec fn wf(self) -> bool {
        &&& self.chunk_type.len() == 4
        &&& self.data.len() <= u32::MAX
    }

    /// The declared length: the byte count of the data.
    pub open spec fn length(self) -> u32 {
        self.data.len() as u32
    }

    /// The checksum over the type code followed by the data.
    pub open spec fn crc(self) -> u32 {
        crc32_iso_hdlc(self.chunk_type + self.data)
    }

    /// The record that carries the chunk: its type code and data with their checksum.
    pub open spec fn record(self) -> RecordView {
        RecordView { chunk_type: self.chunk_type, data: self.data, crc: self.crc() }
    }

    /// The wire form: length, type code, data, checksum.
    pub open spec fn to_bytes(self) -> Seq<u8> {
        self.record().to_bytes()
    }

    /// The chunk that `record` carries, given `computed`, the checksum of its
    /// type code and data: the record's type and data where the stored
    /// checksum is the computed one, and a checksum mismatch where it is not.
    pub open spec fn from_record(record: RecordView, computed: u32) -> Result<ChunkView, Error> {
        match record.verify(computed) {
            Err(e) => Err(e),
            Ok(_) => Ok(ChunkView { chunk_type: record.chunk_type, data: record.data }),
        }
    }

    /// What reading `bytes` as exactly one chunk yields: the chunk that the
    /// one record in `bytes` carries.
    pub open spec fn parse(bytes: Seq<u8>) -> Result<ChunkView, Error> {
        match RecordView::parse(bytes) {
            Err(e) => Err(e),
            Ok(record) => ChunkView::from_record(
                record,
                crc32_iso_hdlc(record.chunk_type + record.data),
            ),
        }
    }
}

/// A chunk whose stored length and checksum always agree with its type and data.
#[derive(Debug)]
pub struct Chunk {
    length: u32,
    chunk_type: ChunkType,
    data: Vec<u8>,
    crc: u32,
}

impl View for Chunk {
    type V = ChunkView;

    closed spec fn view(&self) -> ChunkView {
        ChunkView { chunk_type: self.chunk_type@, data: self.data@ }
    }
}

impl Chunk {
    #[verifier::type_invariant]
    spec fn consistent(&self) -> bool {
        &&& self.length == self.data@.len()
        &&& self.crc == crc32_iso_hdlc(self.chunk_type@ + self.data@)
    }

    /// Builds a chunk of the given type around `data`, computing its length and checksum.
    pub fn new(chunk_type: ChunkType, data: Vec<u8>) -> (r: Result<Chunk, Error>)
        ensures
            r is Ok <==> data@.len() <= u32::MAX,
            r matches Ok(c) ==> c@ == (ChunkView { chunk_type: chunk_type@, data: data@ })
                && c@.wf(),
            r matches Err(e) ==> e == Error::DataTooLarge,
    {
        if data.len() > u32::MAX as usize {
            return Err(Error::DataTooLarge);
        }
        proof {
            chunk_type.lemma_four_bytes();
        }
        let type_bytes = chunk_type.bytes();
        let mut covered: Vec<u8> = Vec::new();
        covered.push(type_bytes[0]);
        covered.push(type_bytes[1]);
        covered.push(type_bytes[2]);
        covered.push(type_bytes[3]);
        covered.extend_from_slice(data.as_slice());
        assert(covered@ =~= chunk_type@ + data@);
        let crc = checksum(covered.as_slice());
        Ok(Chunk { length: data.len() as u32, chunk_type, data, crc })
    }

    /// Reads `bytes` as exactly one chunk: a record that fills `bytes` and
    /// whose stored checksum is the checksum of its type code and data.
    pub fn try_from(bytes: &[u8]) -> (r: Result<Chunk, Error>)
        ensures
            match r {
                Ok(c) => ChunkView::parse(bytes@) == Ok::<ChunkView, Error>(c@),
                Err(e) => ChunkView::parse(bytes@) == Err::<ChunkView, Error>(e),
            },
            r matches Ok(c) ==> c@.wf(),
    {
        let record = match Record::parse(bytes) {
            Ok(record) => record,
            Err(e) => {
                return Err(e);
            },
        };
        let covered = &bytes[4..bytes.len() - 4];
        assert(covered@ =~= record@.chunk_type + record@.data);
        match record.verify(checksum(covered)) {
            Ok(_) => Ok(
                Chunk {
                    length: record.data.len() as u32,
                    chunk_type: record.chunk_type,
                    data: slice_to_vec(record.data),
                    crc: record.crc,
                },
            ),
            Err(e) => Err(e),
        }
    }

    /// The declared length of the data.
    pub fn length(&self) -> (n: u32)
        ensures
            n == self@.length(),
            n == self@.data.len(),
    {
        proof {
            use_type_invariant(self);
        }
        self.length
    }

    /// The chunk's type code.
    pub fn chunk_type(&self) -> (t: ChunkType)
        ensures
            t@ == self@.chunk_type,
    {
        self.chunk_type
    }

    /// The chunk's data.
    pub fn data(&self) -> (d: &[u8])
        ensures
            d@ == self@.data,
    {
        self.data.as_slice()
    }

    /// The checksum of the type code and the data.
    pub fn crc(&self) -> (sum: u32)
        ensures
            sum == self@.crc(),
    {
        proof {
            use_type_invariant(self);
        }
        self.crc
    }

    /// The data as UTF-8 text, where it is valid UTF-8.
    pub fn data_as_string(&self) -> (r: Result<String, Error>)
        ensures
            r is Ok <==> valid_utf8(self@.data),
            r matches Ok(s) ==> s@ == decode_utf8(self@.data) && encode_utf8(s@) == self@.data,
            r matches Err(e) ==> e == Error::EncodingError,
    {
        match string_from_utf8(self.data.clone()) {
            Some(s) => {
                proof {
                    encode_utf8_decode_utf8(s@);
                }
                Ok(s)
            },
            None => Err(Error::EncodingError),
        }
    }

    /// The wire form of the chunk: length, type code, data, checksum.
    /// The chunk is well formed, so parsing its wire form gives it back.
    pub fn as_bytes(&self) -> (bytes: Vec<u8>)
        ensures
            bytes@ == self@.to_bytes(),
            self@.wf(),
    {
        proof {
            use_type_invariant(self);
            self.chunk_type.lemma_four_bytes();
        }
        let type_bytes = self.chunk_type.bytes();
        let mut bytes: Vec<u8> = Vec::new();
        push_u32_be(&mut bytes, self.length);
        bytes.push(type_bytes[0]);
        bytes.push(type_bytes[1]);
        bytes.push(type_bytes[2]);
        bytes.push(type_bytes[3]);
        bytes.extend_from_slice(self.data.as_slice());
        push_u32_be(&mut bytes, self.crc);
        assert(bytes@ =~= self@.to_bytes());
        bytes
    }
}

/// Parsing the wire form of a chunk gives the chunk back.
pub proof fn lemma_chunk_parse_to_bytes(chunk: ChunkView)
    requires
        chunk.wf(),
    ensures
        ChunkView::parse(chunk.to_bytes()) == Ok::<ChunkView, Error>(chunk),
{
    lemma_record_parse_to_bytes(chunk.record());
}

/// A buffer that parses as a chunk is the wire form of that chunk, and the
/// chunk is well formed.
pub proof fn lemma_chunk_to_bytes_parse(bytes: Seq<u8>)
    requires
        ChunkView::parse(bytes) is Ok,
    ensures
        ChunkView::parse(bytes)->Ok_0.wf(),
        ChunkView::parse(bytes)->Ok_0.to_bytes() == bytes,
{
    lemma_record_to_bytes_parse(bytes);
}

/// Parsing is the exact inverse of the wire form: a buffer parses as a chunk
/// exactly when the chunk is well formed and the buffer is its wire form.
pub proof fn lemma_chunk_parse_inverts_to_bytes(bytes: Seq<u8>, chunk: ChunkView)
    ensures
        ChunkView::parse(bytes) == Ok::<ChunkView, Error>(chunk) <==> chunk.wf()
            && chunk.to_bytes() == bytes,
{
    if ChunkView::parse(bytes) == Ok::<ChunkView, Error>(chunk) {
        lemma_chunk_to_bytes_parse(bytes);
    }
    if chunk.wf() && chunk.to_bytes() == bytes {
        lemma_chunk_parse_to_bytes(chunk);
    }
}

/// A record around the type and data of a well-formed chunk parses as that
/// chunk exactly when the checksum it stores is the checksum of the type and
/// data; with any other stored value it is rejected as a checksum mismatch.
pub proof fn lemma_stored_checksum_decides(chunk: ChunkView, stored: u32)
    requires
        chunk.wf(),
    ensures
        ChunkView::parse(
            (RecordView { chunk_type: chunk.chunk_type, data: chunk.data, crc: stored }).to_bytes(),
        ) == if stored == chunk.crc() {
            Ok::<ChunkView, Error>(chunk)
        } else {
            Err::<ChunkView, Error>(Error::CrcMismatch)
        },
{
    lemma_record_parse_to_bytes(
        RecordView { chunk_type: chunk.chunk_type, data: chunk.data, crc: stored },
    );
}

/// `bytes` with one bit flipped: bit `bit` of the byte at `at`.
pub open spec fn flip_bit(bytes: Seq<u8>, at: int, bit: u8) -> Seq<u8> {
    bytes.update(at, bytes[at] ^ (1u8 << bit))
}

/// The wire form of a well-formed chunk with one bit of its type or data
/// flipped, the length and the stored checksum left as they were, is never
/// read as the chunk it was. It is rejected as a checksum mismatch unless the
/// altered type and data have the very checksum of the unaltered ones, and
/// then it is read as the altered chunk.
pub proof fn lemma_flipped_bit_rejected_unless_checksums_collide(
    chunk: ChunkView,
    at: int,
    bit: u8,
)
    requires
        chunk.wf(),
        4 <= at < 8 + chunk.data.len(),
        bit < 8,
    ensures
        ({
            let altered = flip_bit(chunk.to_bytes(), at, bit);
            let record = with_byte(chunk.record(), at, chunk.to_bytes()[at] ^ (1u8 << bit));
            let other = ChunkView { chunk_type: record.chunk_type, data: record.data };
            &&& other != chunk
            &&& ChunkView::parse(altered) != Ok::<ChunkView, Error>(chunk)
            &&& ChunkView::parse(altered) == if other.crc() == chunk.crc() {
                Ok::<ChunkView, Error>(other)
            } else {
                Err::<ChunkView, Error>(Error::CrcMismatch)
            }
        }),
{
    let was = chunk.to_bytes()[at];
    let value = was ^ (1u8 << bit);
    let record = with_byte(chunk.record(), at, value);
    let other = ChunkView { chunk_type: record.chunk_type, data: record.data };
    assert(value != was) by (bit_vector)
        requires
            value == was ^ (1u8 << bit),
            bit < 8,
    ;
    lemma_record_with_byte(chunk.record(), at, value);
    assert(other != chunk) by {
        if at < 8 {
            assert(other.chunk_type[at - 4] != chunk.chunk_type[at - 4]);
        } else {
            assert(other.data[at - 8] != chunk.data[at - 8]);
        }
    }
    assert(ChunkView::parse(record.to_bytes()) == if other.crc() == chunk.crc() {
        Ok::<ChunkView, Error>(other)
    } else {
        Err::<ChunkView, Error>(Error::CrcMismatch)
    }) by {
        lemma_stored_checksum_decides(other, chunk.crc());
    }
}

} // verus!
