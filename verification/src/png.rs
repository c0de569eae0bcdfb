//! The PNG container: the signature followed by an ordered sequence of chunks.

use vstd::prelude::*;
use vstd::utf8::encode_utf8;

use crate::chunk::{lemma_chunk_parse_to_bytes, lemma_chunk_to_bytes_parse, Chunk, ChunkView};
use crate::chunk_type::{is_type_string, ChunkType};
use crate::error::Error;
use crate::record::{lemma_record_then_tail, record_size, Record};

verus! {

/// The eight bytes that open every PNG file.
pub open spec fn signature() -> Seq<u8> {
    seq![137u8, 80u8, 78u8, 71u8, 13u8, 10u8, 26u8, 10u8]
}

/// The wire forms of `chunks`, one after the other.
pub open spec fn chunks_to_bytes(chunks: Seq<ChunkView>) -> Seq<u8>
    decreases chunks.len(),
{
    if chunks.len() == 0 {
        Seq::empty()
    } else {
        chunks.first().to_bytes() + chunks_to_bytes(chunks.drop_first())
    }
}

/// What reading `bytes` as a run of chunk records yields.
///
/// Each record's own length field says where the next one starts. The run
/// must end exactly where the buffer ends: bytes that cannot frame a whole
/// record are trailing garbage. The first record that fails fails the run.
pub open spec fn parse_chunks(bytes: Seq<u8>) -> Result<Seq<ChunkView>, Error>
    decreases bytes.len(),
{
    if bytes.len() == 0 {
        Ok(Seq::empty())
    } else {
        match record_size(bytes) {
            None => Err(Error::TrailingGarbage),
            Some(size) => match ChunkView::parse(bytes.subrange(0, size)) {
                Err(e) => Err(e),
                Ok(first) => match parse_chunks(bytes.subrange(size, bytes.len() as int)) {
                    Err(e) => Err(e),
                    Ok(rest) => Ok(seq![first] + rest),
                },
            },
        }
    }
}

/// Whether `i` is the position of the first chunk in `chunks` whose type code is `code`.
pub open spec fn is_first_of_type(chunks: Seq<ChunkView>, code: Seq<u8>, i: int) -> bool {
    &&& 0 <= i < chunks.len()
    &&& chunks[i].chunk_type == code
    &&& forall|j: int| 0 <= j < i ==> (#[trigger] chunks[j]).chunk_type != code
}

/// What a container is: its header and its chunks, in file order.
pub struct PngView {
    pub header: Seq<u8>,
    pub chunks: Seq<ChunkView>,
}

impl PngView {
    /// The header is the PNG signature and every chunk is well formed.
    pub open spec fn wf(self) -> bool {
        &&& self.header == signature()
        &&& forall|i: int| 0 <= i < self.chunks.len() ==> (#[trigger] self.chunks[i]).wf()
    }

    /// The wire form: the header, then each chunk's wire form in order.
    pub open spec fn to_bytes(self) -> Seq<u8> {
        self.header + chunks_to_bytes(self.chunks)
    }

    /// What reading `bytes` as a whole PNG file yields.
    pub open spec fn parse(bytes: Seq<u8>) -> Result<PngView, Error> {
        if bytes.len() < 8 {
            Err(Error::TooShort)
        } else if bytes.subrange(0, 8) != signature() {
            Err(Error::InvalidSignature)
        } else {
            match parse_chunks(bytes.subrange(8, bytes.len() as int)) {
                Err(e) => Err(e),
                Ok(chunks) => Ok(PngView { header: signature(), chunks }),
            }
        }
    }

    /// The container with `chunk` inserted immediately before its last chunk,
    /// so that whatever ends the file goes on ending it. An empty container
    /// has no such place.
    pub open spec fn append(self, chunk: ChunkView) -> Result<PngView, Error> {
        if self.chunks.len() == 0 {
            Err(Error::EmptyContainer)
        } else {
            Ok(
                PngView {
                    header: self.header,
                    chunks: self.chunks.insert(self.chunks.len() - 1, chunk),
                },
            )
        }
    }

    /// The position of the first chunk whose type code is `code`, if there is one.
    pub open spec fn position(self, code: Seq<u8>) -> Option<int> {
        if exists|i: int| is_first_of_type(self.chunks, code, i) {
            Some(choose|i: int| is_first_of_type(self.chunks, code, i))
        } else {
            None
        }
    }

    /// The position of the chunk that the type string `name` names: the
    /// first chunk whose type code is `name`. A string that is not four
    /// ASCII letters names no chunk, whatever the chunks hold.
    pub open spec fn lookup(self, name: Seq<u8>) -> Option<int> {
        if is_type_string(name) {
            self.position(name)
        } else {
            None
        }
    }

    /// The chunk that the type string `name` names, and the container
    /// without it; the other chunks keep their order.
    pub open spec fn remove(self, name: Seq<u8>) -> Result<(ChunkView, PngView), Error> {
        match self.lookup(name) {
            None => Err(Error::NotFound),
            Some(i) => Ok(
                (
                    self.chunks[i],
                    PngView { header: self.header, chunks: self.chunks.remove(i) },
                ),
            ),
        }
    }
}

/// The views of a sequence of chunks.
pub open spec fn chunk_views(chunks: Seq<Chunk>) -> Seq<ChunkView> {
    chunks.map_values(|c: Chunk| c@)
}

/// The result of a run of records whose first records gave `done` and whose
/// remaining bytes give `rest`.
spec fn after(done: Seq<ChunkView>, rest: Result<Seq<ChunkView>, Error>) -> Result<
    Seq<ChunkView>,
    Error,
> {
    match rest {
        Ok(more) => Ok(done + more),
        Err(e) => Err(e),
    }
}

/// A run with no records done is the run of the remaining bytes.
proof fn lemma_after_nothing(rest: Result<Seq<ChunkView>, Error>)
    ensures
        after(Seq::empty(), rest) == rest,
{
    if let Ok(more) = rest {
        assert(Seq::<ChunkView>::empty() + more =~= more);
    }
}

/// A record that parsed joins the records done.
proof fn lemma_after_one_more(
    done: Seq<ChunkView>,
    next: ChunkView,
    rest: Result<Seq<ChunkView>, Error>,
)
    ensures
        after(done, after(seq![next], rest)) == after(done.push(next), rest),
{
    if let Ok(more) = rest {
        assert(done + (seq![next] + more) =~= done.push(next) + more);
    }
}

/// A PNG container. Its header is always the PNG signature.
#[derive(Debug)]
pub struct Png {
    header: [u8; 8],
    chunks: Vec<Chunk>,
}

impl View for Png {
    type V = PngView;

    closed spec fn view(&self) -> PngView {
        PngView { header: self.header@, chunks: chunk_views(self.chunks@) }
    }
}

impl Png {
    /// The PNG signature.
    pub const STANDARD_HEADER: [u8; 8] = [137, 80, 78, 71, 13, 10, 26, 10];

    #[verifier::type_invariant]
    spec fn has_signature(&self) -> bool {
        self.header@ == signature()
    }

    /// Wraps `chunks`, in the order given, behind the PNG signature.
    pub fn from_chunks(chunks: Vec<Chunk>) -> (png: Png)
        ensures
            png@ == (PngView { header: signature(), chunks: chunk_views(chunks@) }),
    {
        let png = Png { header: Png::STANDARD_HEADER, chunks };
        assert(png.header@ =~= signature());
        png
    }

    /// Reads `bytes` as a whole PNG file: the signature, then chunk records
    /// one after the other until the buffer ends.
    pub fn try_from(bytes: &[u8]) -> (r: Result<Png, Error>)
        ensures
            match r {
                Ok(png) => PngView::parse(bytes@) == Ok::<PngView, Error>(png@),
                Err(e) => PngView::parse(bytes@) == Err::<PngView, Error>(e),
            },
            r matches Ok(png) ==> png@.wf(),
    {
        if bytes.len() < 8 {
            return Err(Error::TooShort);
        }
        let mut i: usize = 0;
        while i < 8
            invariant
                i <= 8,
                bytes@.len() >= 8,
                forall|j: int| 0 <= j < i ==> bytes@[j] == signature()[j],
            decreases 8 - i,
        {
            if bytes[i] != Png::STANDARD_HEADER[i] {
                assert(bytes@.subrange(0, 8)[i as int] != signature()[i as int]);
                return Err(Error::InvalidSignature);
            }
            i += 1;
        }
        assert(bytes@.subrange(0, 8) =~= signature());
        let ghost body = bytes@.subrange(8, bytes@.len() as int);
        let mut chunks: Vec<Chunk> = Vec::new();
        let mut pos: usize = 8;
        proof {
            lemma_after_nothing(parse_chunks(body));
            assert(chunk_views(chunks@) =~= Seq::<ChunkView>::empty());
        }
        while pos < bytes.len()
            invariant
                8 <= pos <= bytes@.len(),
                bytes@.subrange(0, 8) == signature(),
                body == bytes@.subrange(8, bytes@.len() as int),
                parse_chunks(body) == after(
                    chunk_views(chunks@),
                    parse_chunks(bytes@.subrange(pos as int, bytes@.len() as int)),
                ),
            decreases bytes@.len() - pos,
        {
            let ghost done = chunk_views(chunks@);
            let ghost tail = bytes@.subrange(pos as int, bytes@.len() as int);
            let size = match Record::size(&bytes[pos..bytes.len()]) {
                Some(size) => size,
                None => {
                    return Err(Error::TrailingGarbage);
                },
            };
            let end = pos + size;
            let ghost rest = bytes@.subrange(end as int, bytes@.len() as int);
            assert(tail.subrange(0, size as int) =~= bytes@.subrange(pos as int, end as int));
            assert(tail.subrange(size as int, tail.len() as int) =~= rest);
            match Chunk::try_from(&bytes[pos..end]) {
                Ok(chunk) => {
                    proof {
                        lemma_after_one_more(done, chunk@, parse_chunks(rest));
                        assert(chunk_views(chunks@.push(chunk)) =~= done.push(chunk@));
                    }
                    chunks.push(chunk);
                },
                Err(e) => {
                    return Err(e);
                },
            }
            pos = end;
        }
        proof {
            assert(bytes@.subrange(pos as int, bytes@.len() as int) =~= Seq::<u8>::empty());
            assert(chunk_views(chunks@) + Seq::<ChunkView>::empty() =~= chunk_views(chunks@));
        }
        let png = Png { header: Png::STANDARD_HEADER, chunks };
        assert(png.header@ =~= signature());
        proof {
            lemma_png_to_bytes_parse(bytes@);
        }
        Ok(png)
    }

    /// Inserts `chunk` immediately before the last chunk, which stays last.
    /// A container without chunks has no such place and is left as it was.
    pub fn append_chunk(&mut self, chunk: Chunk) -> (r: Result<(), Error>)
        ensures
            match old(self)@.append(chunk@) {
                Ok(grown) => r is Ok && final(self)@ == grown,
                Err(e) => r == Err::<(), Error>(e) && final(self)@ == old(self)@,
            },
            r is Ok ==> final(self)@.chunks.last() == old(self)@.chunks.last(),
    {
        proof {
            use_type_invariant(&*self);
        }
        let len = self.chunks.len();
        if len == 0 {
            return Err(Error::EmptyContainer);
        }
        assert(chunk_views(self.chunks@.insert(len - 1, chunk)) =~= chunk_views(
            self.chunks@,
        ).insert(len - 1, chunk@));
        // The list is edited outside `self`: a field of a type with an
        // invariant is not lent to a call that may unwind.
        let mut chunks: Vec<Chunk> = Vec::new();
        core::mem::swap(&mut self.chunks, &mut chunks);
        chunks.insert(len - 1, chunk);
        core::mem::swap(&mut self.chunks, &mut chunks);
        Ok(())
    }

    /// Removes the first chunk whose type code is the type string
    /// `chunk_type` and returns it; the other chunks keep their order.
    /// Where the string is not four ASCII letters, or no chunk has that type,
    /// nothing is removed.
    pub fn remove_chunk(&mut self, chunk_type: &str) -> (r: Result<Chunk, Error>)
        ensures
            match old(self)@.remove(encode_utf8(chunk_type@)) {
                Ok((removed, rest)) => r matches Ok(c) && c@ == removed && final(self)@ == rest,
                Err(e) => r matches Err(f) && f == e && final(self)@ == old(self)@,
            },
            r matches Ok(c) ==> exists|i: int|
                is_first_of_type(old(self)@.chunks, encode_utf8(chunk_type@), i) && c@ == old(
                    self,
                )@.chunks[i] && final(self)@.chunks == old(self)@.chunks.remove(i),
            r is Err ==> !is_type_string(encode_utf8(chunk_type@)) || forall|j: int|
                0 <= j < old(self)@.chunks.len() ==> (#[trigger] old(self)@.chunks[j]).chunk_type
                    != encode_utf8(chunk_type@),
    {
        proof {
            use_type_invariant(&*self);
        }
        let wanted = match ChunkType::from_str(chunk_type) {
            Ok(t) => t,
            Err(_) => {
                return Err(Error::NotFound);
            },
        };
        let ghost name = encode_utf8(chunk_type@);
        let ghost before = self@;
        let mut i: usize = 0;
        while i < self.chunks.len()
            invariant
                i <= self.chunks@.len(),
                *self == *old(self),
                before == self@,
                name == encode_utf8(chunk_type@),
                wanted@ == name,
                is_type_string(name),
                forall|j: int| 0 <= j < i ==> (#[trigger] before.chunks[j]).chunk_type != name,
            decreases self.chunks@.len() - i,
        {
            if self.chunks[i].chunk_type() == wanted {
                proof {
                    use_type_invariant(&*self);
                    lemma_position(before, name);
                }
                assert(is_first_of_type(before.chunks, name, i as int));
                assert(chunk_views(self.chunks@.remove(i as int)) =~= before.chunks.remove(
                    i as int,
                ));
                let mut chunks: Vec<Chunk> = Vec::new();
                core::mem::swap(&mut self.chunks, &mut chunks);
                let removed = chunks.remove(i);
                core::mem::swap(&mut self.chunks, &mut chunks);
                return Ok(removed);
            }
            i += 1;
        }
        proof {
            lemma_position(before, name);
        }
        Err(Error::NotFound)
    }

    /// The chunk that the type string `chunk_type` names: the first chunk
    /// whose type code is that string, if there is one. The string is read
    /// as `remove_chunk` reads it, so one that is not four ASCII letters
    /// finds nothing, and a lookup finds a chunk exactly when a removal
    /// would take one.
    pub fn chunk_by_type(&self, chunk_type: &str) -> (r: Option<&Chunk>)
        ensures
            match self@.lookup(encode_utf8(chunk_type@)) {
                Some(i) => r matches Some(c) && c@ == self@.chunks[i],
                None => r is None,
            },
            r is Some <==> self@.remove(encode_utf8(chunk_type@)) is Ok,
            r matches Some(c) ==> is_type_string(encode_utf8(chunk_type@)) && exists|i: int|
                is_first_of_type(self@.chunks, encode_utf8(chunk_type@), i) && c@
                    == self@.chunks[i],
            r is None ==> !is_type_string(encode_utf8(chunk_type@)) || forall|j: int|
                0 <= j < self@.chunks.len() ==> (#[trigger] self@.chunks[j]).chunk_type
                    != encode_utf8(chunk_type@),
    {
        let wanted = match ChunkType::from_str(chunk_type) {
            Ok(t) => t,
            Err(_) => {
                return None;
            },
        };
        let ghost name = encode_utf8(chunk_type@);
        let mut i: usize = 0;
        while i < self.chunks.len()
            invariant
                i <= self.chunks@.len(),
                name == encode_utf8(chunk_type@),
                wanted@ == name,
                is_type_string(name),
                forall|j: int| 0 <= j < i ==> (#[trigger] self@.chunks[j]).chunk_type != name,
            decreases self.chunks@.len() - i,
        {
            if self.chunks[i].chunk_type() == wanted {
                assert(is_first_of_type(self@.chunks, name, i as int));
                proof {
                    lemma_position(self@, name);
                }
                return Some(&self.chunks[i]);
            }
            i += 1;
        }
        proof {
            lemma_position(self@, name);
        }
        None
    }

    /// The type code and declared length of each chunk, in file order.
    pub fn summaries(&self) -> (list: Vec<(ChunkType, u32)>)
        ensures
            list@.len() == self@.chunks.len(),
            forall|i: int|
                0 <= i < list@.len() ==> (#[trigger] list@[i]).0@ == self@.chunks[i].chunk_type
                    && list@[i].1 == self@.chunks[i].length(),
    {
        let mut list: Vec<(ChunkType, u32)> = Vec::new();
        let mut i: usize = 0;
        while i < self.chunks.len()
            invariant
                i <= self.chunks@.len(),
                list@.len() == i,
                forall|j: int|
                    0 <= j < i ==> (#[trigger] list@[j]).0@ == self@.chunks[j].chunk_type
                        && list@[j].1 == self@.chunks[j].length(),
            decreases self.chunks@.len() - i,
        {
            let chunk = &self.chunks[i];
            list.push((chunk.chunk_type(), chunk.length()));
            i += 1;
        }
        list
    }

    /// The wire form of the container: the header, then each chunk's wire
    /// form in file order. The container is well formed, so parsing its wire
    /// form gives it back.
    pub fn as_bytes(&self) -> (bytes: Vec<u8>)
        ensures
            bytes@ == self@.to_bytes(),
            self@.wf(),
    {
        proof {
            use_type_invariant(self);
        }
        let ghost all = chunk_views(self.chunks@);
        let mut bytes: Vec<u8> = Vec::new();
        bytes.extend_from_slice(self.header.as_slice());
        assert(all.subrange(0, 0) =~= Seq::<ChunkView>::empty());
        assert(bytes@ =~= self.header@ + chunks_to_bytes(all.subrange(0, 0)));
        let mut k: usize = 0;
        while k < self.chunks.len()
            invariant
                k <= self.chunks@.len(),
                all == chunk_views(self.chunks@),
                bytes@ == self.header@ + chunks_to_bytes(all.subrange(0, k as int)),
                forall|j: int| 0 <= j < k ==> (#[trigger] all[j]).wf(),
            decreases self.chunks@.len() - k,
        {
            let mut piece = self.chunks[k].as_bytes();
            proof {
                let done = all.subrange(0, k as int);
                lemma_chunks_to_bytes_push(done, all[k as int]);
                assert(all.subrange(0, k + 1) =~= done.push(all[k as int]));
                assert(bytes@ + piece@ =~= self.header@ + (chunks_to_bytes(done) + piece@));
            }
            bytes.append(&mut piece);
            k += 1;
        }
        assert(all.subrange(0, k as int) =~= all);
        bytes
    }

    /// The header of the container: the PNG signature.
    pub fn header(&self) -> (h: &[u8; 8])
        ensures
            h@ == self@.header,
            h@ == signature(),
    {
        proof {
            use_type_invariant(self);
        }
        &self.header
    }

    /// The chunks of the container, in file order.
    pub fn chunks(&self) -> (list: &[Chunk])
        ensures
            chunk_views(list@) == self@.chunks,
    {
        self.chunks.as_slice()
    }
}

/// The wire form of a concatenation is the concatenation of the wire forms.
pub proof fn lemma_chunks_to_bytes_concat(front: Seq<ChunkView>, back: Seq<ChunkView>)
    ensures
        chunks_to_bytes(front + back) == chunks_to_bytes(front) + chunks_to_bytes(back),
    decreases front.len(),
{
    if front.len() == 0 {
        assert(front + back =~= back);
        assert(chunks_to_bytes(front) + chunks_to_bytes(back) =~= chunks_to_bytes(back));
    } else {
        lemma_chunks_to_bytes_concat(front.drop_first(), back);
        assert((front + back).drop_first() =~= front.drop_first() + back);
        assert(chunks_to_bytes(front + back) =~= chunks_to_bytes(front) + chunks_to_bytes(back));
    }
}

/// The wire form of a run that ends in `last` ends in the wire form of `last`.
pub proof fn lemma_chunks_to_bytes_push(chunks: Seq<ChunkView>, last: ChunkView)
    ensures
        chunks_to_bytes(chunks.push(last)) == chunks_to_bytes(chunks) + last.to_bytes(),
{
    let one = seq![last];
    assert(one.drop_first() =~= Seq::<ChunkView>::empty());
    assert(chunks_to_bytes(one.drop_first()) =~= Seq::<u8>::empty());
    assert(chunks_to_bytes(one) =~= last.to_bytes());
    lemma_chunks_to_bytes_concat(chunks, one);
    assert(chunks.push(last) =~= chunks + one);
}

/// A run whose front frames a chunk and whose rest parses gives that chunk
/// and then the chunks of the rest.
proof fn lemma_run_starts(bytes: Seq<u8>, size: int, first: ChunkView, rest: Seq<ChunkView>)
    requires
        bytes.len() > 0,
        record_size(bytes) == Some(size),
        ChunkView::parse(bytes.subrange(0, size)) == Ok::<ChunkView, Error>(first),
        parse_chunks(bytes.subrange(size, bytes.len() as int)) == Ok::<Seq<ChunkView>, Error>(
            rest,
        ),
    ensures
        parse_chunks(bytes) == Ok::<Seq<ChunkView>, Error>(seq![first] + rest),
{
}

/// Parsing the wire forms of well-formed chunks gives the chunks back.
pub proof fn lemma_parse_chunks_to_bytes(chunks: Seq<ChunkView>)
    requires
        forall|i: int| 0 <= i < chunks.len() ==> (#[trigger] chunks[i]).wf(),
    ensures
        parse_chunks(chunks_to_bytes(chunks)) == Ok::<Seq<ChunkView>, Error>(chunks),
    decreases chunks.len(),
{
    if chunks.len() == 0 {
        assert(chunks =~= Seq::<ChunkView>::empty());
    } else {
        let first = chunks.first();
        let rest = chunks.drop_first();
        let head = first.to_bytes();
        let tail = chunks_to_bytes(rest);
        let size = 12 + first.data.len() as int;
        assert(first.wf());
        assert forall|i: int| 0 <= i < rest.len() implies (#[trigger] rest[i]).wf() by {
            assert(rest[i] == chunks[i + 1]);
        }
        lemma_parse_chunks_to_bytes(rest);
        lemma_chunk_parse_to_bytes(first);
        lemma_record_then_tail(first.record(), tail);
        lemma_run_starts(head + tail, size, first, rest);
        assert(seq![first] + rest =~= chunks);
    }
}

/// A run that parses starts with a record that parses and goes on with a run
/// that parses.
proof fn lemma_run_splits(bytes: Seq<u8>)
    requires
        parse_chunks(bytes) is Ok,
        bytes.len() > 0,
    ensures
        ({
            let size = record_size(bytes)->Some_0;
            let head = bytes.subrange(0, size);
            let tail = bytes.subrange(size, bytes.len() as int);
            &&& record_size(bytes) is Some
            &&& 12 <= size <= bytes.len()
            &&& ChunkView::parse(head) is Ok
            &&& parse_chunks(tail) is Ok
            &&& parse_chunks(bytes)->Ok_0 == seq![ChunkView::parse(head)->Ok_0] + parse_chunks(
                tail,
            )->Ok_0
        }),
{
}

/// A buffer made of the wire form of `first` and then that of `rest` is the
/// wire form of the two together.
proof fn lemma_run_joins(bytes: Seq<u8>, size: int, first: ChunkView, rest: Seq<ChunkView>)
    requires
        12 <= size <= bytes.len(),
        first.wf(),
        first.to_bytes() == bytes.subrange(0, size),
        chunks_to_bytes(rest) == bytes.subrange(size, bytes.len() as int),
        forall|i: int| 0 <= i < rest.len() ==> (#[trigger] rest[i]).wf(),
    ensures
        chunks_to_bytes(seq![first] + rest) == bytes,
        forall|i: int|
            0 <= i < (seq![first] + rest).len() ==> (#[trigger] (seq![first] + rest)[i]).wf(),
{
    let chunks = seq![first] + rest;
    assert(chunks.first() == first && chunks.drop_first() =~= rest);
    assert(bytes.subrange(0, size) + bytes.subrange(size, bytes.len() as int) =~= bytes);
    assert forall|i: int| 0 <= i < chunks.len() implies (#[trigger] chunks[i]).wf() by {
        if i > 0 {
            assert(chunks[i] == rest[i - 1]);
        }
    }
}

/// A buffer that parses as a run of chunks is the wire form of those chunks,
/// and each of them is well formed.
pub proof fn lemma_chunks_to_bytes_parse(bytes: Seq<u8>)
    requires
        parse_chunks(bytes) is Ok,
    ensures
        chunks_to_bytes(parse_chunks(bytes)->Ok_0) == bytes,
        forall|i: int|
            0 <= i < parse_chunks(bytes)->Ok_0.len() ==> (#[trigger] parse_chunks(
                bytes,
            )->Ok_0[i]).wf(),
    decreases bytes.len(),
{
    if bytes.len() == 0 {
        assert(chunks_to_bytes(parse_chunks(bytes)->Ok_0) =~= bytes);
    } else {
        let size = record_size(bytes)->Some_0;
        let head = bytes.subrange(0, size);
        let tail = bytes.subrange(size, bytes.len() as int);
        lemma_run_splits(bytes);
        lemma_chunk_to_bytes_parse(head);
        lemma_chunks_to_bytes_parse(tail);
        lemma_run_joins(bytes, size, ChunkView::parse(head)->Ok_0, parse_chunks(tail)->Ok_0);
    }
}

/// Parsing the wire form of a well-formed container gives the container back.
pub proof fn lemma_png_parse_to_bytes(png: PngView)
    requires
        png.wf(),
    ensures
        PngView::parse(png.to_bytes()) == Ok::<PngView, Error>(png),
{
    let bytes = png.to_bytes();
    lemma_parse_chunks_to_bytes(png.chunks);
    assert(bytes.subrange(0, 8) =~= signature());
    assert(bytes.subrange(8, bytes.len() as int) =~= chunks_to_bytes(png.chunks));
}

/// A buffer that parses as a container is the wire form of that container,
/// and the container is well formed.
pub proof fn lemma_png_to_bytes_parse(bytes: Seq<u8>)
    requires
        PngView::parse(bytes) is Ok,
    ensures
        PngView::parse(bytes)->Ok_0.wf(),
        PngView::parse(bytes)->Ok_0.to_bytes() == bytes,
{
    let body = bytes.subrange(8, bytes.len() as int);
    lemma_chunks_to_bytes_parse(body);
    assert(bytes.subrange(0, 8) + body =~= bytes);
}

/// Parsing is the exact inverse of the wire form: a buffer parses as a
/// container exactly when the container is well formed and the buffer is its
/// wire form.
pub proof fn lemma_png_parse_inverts_to_bytes(bytes: Seq<u8>, png: PngView)
    ensures
        PngView::parse(bytes) == Ok::<PngView, Error>(png) <==> png.wf() && png.to_bytes()
            == bytes,
{
    if PngView::parse(bytes) == Ok::<PngView, Error>(png) {
        lemma_png_to_bytes_parse(bytes);
    }
    if png.wf() && png.to_bytes() == bytes {
        lemma_png_parse_to_bytes(png);
    }
}

/// A position is the one `position` gives exactly when it is that of the
/// first chunk of the type; there is none exactly when no chunk has the type.
pub proof fn lemma_position(png: PngView, code: Seq<u8>)
    ensures
        forall|i: int|
            png.position(code) == Some(i) <==> #[trigger] is_first_of_type(png.chunks, code, i),
        png.position(code) is None <==> forall|j: int|
            0 <= j < png.chunks.len() ==> (#[trigger] png.chunks[j]).chunk_type != code,
{
    let chunks = png.chunks;
    if exists|i: int| is_first_of_type(chunks, code, i) {
        let first = choose|i: int| is_first_of_type(chunks, code, i);
        assert forall|i: int| #[trigger] is_first_of_type(chunks, code, i) implies i == first by {
            if i < first {
                assert(chunks[i].chunk_type != code);
            } else if first < i {
                assert(chunks[first].chunk_type != code);
            }
        }
    } else {
        if exists|j: int| 0 <= j < chunks.len() && (#[trigger] chunks[j]).chunk_type == code {
            let j = choose|j: int|
                0 <= j < chunks.len() && (#[trigger] chunks[j]).chunk_type == code;
            lemma_some_first(chunks, code, j);
        }
    }
}

/// Where some chunk before or at `j` has the type, some chunk is the first of the type.
proof fn lemma_some_first(chunks: Seq<ChunkView>, code: Seq<u8>, j: int)
    requires
        0 <= j < chunks.len(),
        chunks[j].chunk_type == code,
    ensures
        exists|i: int| is_first_of_type(chunks, code, i),
    decreases j,
{
    if forall|k: int| 0 <= k < j ==> (#[trigger] chunks[k]).chunk_type != code {
        assert(is_first_of_type(chunks, code, j));
    } else {
        let k = choose|k: int| 0 <= k < j && (#[trigger] chunks[k]).chunk_type == code;
        lemma_some_first(chunks, code, k);
    }
}

/// Inserting a chunk leaves the last chunk of the container where it was: last.
pub proof fn lemma_append_keeps_last(png: PngView, chunk: ChunkView)
    requires
        png.chunks.len() > 0,
    ensures
        png.append(chunk) is Ok,
        png.append(chunk)->Ok_0.chunks.len() == png.chunks.len() + 1,
        png.append(chunk)->Ok_0.chunks.last() == png.chunks.last(),
        png.append(chunk)->Ok_0.chunks.subrange(0, png.chunks.len() - 1) == png.chunks.drop_last(),
        png.append(chunk)->Ok_0.chunks[png.chunks.len() - 1] == chunk,
{
    let grown = png.append(chunk)->Ok_0.chunks;
    assert(grown.subrange(0, png.chunks.len() - 1) =~= png.chunks.drop_last());
}

/// Inserting a chunk whose type is four ASCII letters that no chunk of the
/// container has yet, and then removing the first chunk of that type, gives
/// back the chunk and the container as it was.
pub proof fn lemma_append_then_remove(png: PngView, chunk: ChunkView)
    requires
        png.chunks.len() > 0,
        is_type_string(chunk.chunk_type),
        forall|i: int|
            0 <= i < png.chunks.len() ==> (#[trigger] png.chunks[i]).chunk_type != chunk.chunk_type,
    ensures
        png.append(chunk) is Ok,
        png.append(chunk)->Ok_0.remove(chunk.chunk_type) == Ok::<(ChunkView, PngView), Error>(
            (chunk, png),
        ),
{
    let grown = png.append(chunk)->Ok_0;
    let at = png.chunks.len() - 1;
    assert forall|j: int| 0 <= j < at implies (#[trigger] grown.chunks[j]).chunk_type
        != chunk.chunk_type by {
        assert(grown.chunks[j] == png.chunks[j]);
    }
    assert(is_first_of_type(grown.chunks, chunk.chunk_type, at));
    lemma_position(grown, chunk.chunk_type);
    assert(grown.chunks.remove(at) =~= png.chunks);
}


} // verus!
