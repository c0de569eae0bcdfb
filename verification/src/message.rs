//! Messages carried in chunks: hiding a text in a container under a chunk
//! type of its own, and reading it back.

use vstd::prelude::*;
use vstd::slice::slice_to_vec;
use vstd::utf8::{decode_utf8, encode_utf8, encode_utf8_decode_utf8, valid_utf8};

use crate::chunk::{Chunk, ChunkView};
use crate::chunk_type::{is_type_string, ChunkType};
use crate::error::Error;
use crate::png::{is_first_of_type, lemma_position, Png, PngView};

verus! {

impl PngView {
    /// The container with a chunk of type `name` around `message` inserted
    /// before its last chunk. The name must be a type string, the message
    /// must fit a chunk, and the container must have a last chunk.
    pub open spec fn encode_message(self, name: Seq<u8>, message: Seq<u8>) -> Result<
        PngView,
        Error,
    > {
        if !is_type_string(name) {
            Err(Error::InvalidTypeCode)
        } else if message.len() > u32::MAX {
            Err(Error::DataTooLarge)
        } else {
            self.append(ChunkView { chunk_type: name, data: message })
        }
    }

    /// The text in the chunk that the type string `name` names: nothing
    /// where it names no chunk, and a failure where the data of the one it
    /// names is not valid UTF-8.
    pub open spec fn decode_message(self, name: Seq<u8>) -> Result<Option<Seq<char>>, Error> {
        match self.lookup(name) {
            None => Ok(None),
            Some(i) => if valid_utf8(self.chunks[i].data) {
                Ok(Some(decode_utf8(self.chunks[i].data)))
            } else {
                Err(Error::EncodingError)
            },
        }
    }
}

impl Png {
    /// Hides `message` in a new chunk of type `chunk_type`, inserted before
    /// the last chunk. Where that fails the container is left as it was.
    pub fn encode_message(&mut self, chunk_type: &str, message: &str) -> (r: Result<(), Error>)
        ensures
            match old(self)@.encode_message(encode_utf8(chunk_type@), encode_utf8(message@)) {
                Ok(grown) => r is Ok && final(self)@ == grown,
                Err(e) => r == Err::<(), Error>(e) && final(self)@ == old(self)@,
            },
    {
        let chunk_type = match ChunkType::from_str(chunk_type) {
            Ok(t) => t,
            Err(e) => {
                return Err(e);
            },
        };
        let chunk = match Chunk::new(chunk_type, slice_to_vec(message.as_bytes())) {
            Ok(c) => c,
            Err(e) => {
                return Err(e);
            },
        };
        self.append_chunk(chunk)
    }

    /// Reads the text hidden in the chunk that the type string `chunk_type`
    /// names.
    pub fn decode_message(&self, chunk_type: &str) -> (r: Result<Option<String>, Error>)
        ensures
            match self@.decode_message(encode_utf8(chunk_type@)) {
                Ok(Some(text)) => r matches Ok(Some(s)) && s@ == text,
                Ok(None) => r matches Ok(None),
                Err(e) => r matches Err(f) && f == e,
            },
    {
        match self.chunk_by_type(chunk_type) {
            None => Ok(None),
            Some(chunk) => match chunk.data_as_string() {
                Ok(text) => Ok(Some(text)),
                Err(e) => Err(e),
            },
        }
    }
}

/// A message hidden under a type that no chunk of the container has yet is
/// the message read back under that type.
pub proof fn lemma_encode_then_decode(png: PngView, name: Seq<u8>, message: Seq<char>)
    requires
        png.encode_message(name, encode_utf8(message)) is Ok,
        forall|i: int| 0 <= i < png.chunks.len() ==> (#[trigger] png.chunks[i]).chunk_type != name,
    ensures
        png.encode_message(name, encode_utf8(message))->Ok_0.decode_message(name) == Ok::<
            Option<Seq<char>>,
            Error,
        >(Some(message)),
{
    let grown = png.encode_message(name, encode_utf8(message))->Ok_0;
    let at = png.chunks.len() - 1;
    assert forall|j: int| 0 <= j < at implies (#[trigger] grown.chunks[j]).chunk_type != name by {
        assert(grown.chunks[j] == png.chunks[j]);
    }
    assert(is_first_of_type(grown.chunks, name, at));
    lemma_position(grown, name);
    vstd::utf8::encode_utf8_valid_utf8(message);
    encode_utf8_decode_utf8(message);
}

} // verus!
