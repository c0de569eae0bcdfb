use pngme::chunk::Chunk;
use pngme::chunk_type::ChunkType;
use pngme::png::Png;
use pngme::Error;

const SIGNATURE: [u8; 8] = [137, 80, 78, 71, 13, 10, 26, 10];

fn chunk_of(name: &str, data: &str) -> Chunk {
    let code = ChunkType::from_str(name).unwrap();
    Chunk::new(code, data.as_bytes().to_vec()).ok().unwrap()
}

fn three_chunks() -> Vec<Chunk> {
    vec![
        chunk_of("FrSt", "I am the first chunk"),
        chunk_of("miDl", "I am another chunk"),
        chunk_of("LASt", "I am the last chunk"),
    ]
}

fn three_chunk_png() -> Png {
    Png::from_chunks(three_chunks())
}

fn three_chunk_bytes() -> Vec<u8> {
    let mut bytes = SIGNATURE.to_vec();
    for chunk in three_chunks() {
        bytes.extend(chunk.as_bytes());
    }
    bytes
}

fn names(png: &Png) -> Vec<String> {
    png.chunks().iter().map(|c| c.chunk_type().to_string().unwrap()).collect()
}

fn texts(png: &Png) -> Vec<String> {
    png.chunks().iter().map(|c| c.data_as_string().unwrap()).collect()
}

#[test]
fn png_standard_header_is_the_signature() {
    assert_eq!(Png::STANDARD_HEADER, [0x89, 0x50, 0x4E, 0x47, 0x0D, 0x0A, 0x1A, 0x0A]);
}

#[test]
fn png_from_chunks_keeps_the_order_and_sets_the_header() {
    let png = three_chunk_png();
    assert_eq!(png.header(), &SIGNATURE);
    assert_eq!(png.chunks().len(), 3);
    assert_eq!(names(&png), ["FrSt", "miDl", "LASt"]);
    assert_eq!(texts(&png), ["I am the first chunk", "I am another chunk", "I am the last chunk"]);
}

#[test]
fn png_from_no_chunks() {
    let png = Png::from_chunks(Vec::new());
    assert_eq!(png.header(), &SIGNATURE);
    assert!(png.chunks().is_empty());
    assert_eq!(png.as_bytes(), SIGNATURE);
}

#[test]
fn png_parse_header_alone() {
    let png = Png::try_from(&SIGNATURE).ok().unwrap();
    assert_eq!(png.header(), &SIGNATURE);
    assert!(png.chunks().is_empty());
}

#[test]
fn png_parse_three_chunks() {
    let png = Png::try_from(&three_chunk_bytes()).ok().unwrap();
    assert_eq!(png.header(), &SIGNATURE);
    assert_eq!(names(&png), ["FrSt", "miDl", "LASt"]);
    assert_eq!(texts(&png), ["I am the first chunk", "I am another chunk", "I am the last chunk"]);
    assert_eq!(png.chunks()[1].length(), 18);
    assert_eq!(png.chunks()[1].crc(), chunk_of("miDl", "I am another chunk").crc());
}

#[test]
fn png_parse_smallest_image() {
    // A one-pixel grey image: header chunk, data chunk, end chunk.
    let bytes: Vec<u8> = vec![
        0x89, 0x50, 0x4E, 0x47, 0x0D, 0x0A, 0x1A, 0x0A, 0x00, 0x00, 0x00, 0x0D, 0x49, 0x48, 0x44,
        0x52, 0x00, 0x00, 0x00, 0x01, 0x00, 0x00, 0x00, 0x01, 0x08, 0x00, 0x00, 0x00, 0x00, 0x3A,
        0x7E, 0x9B, 0x55, 0x00, 0x00, 0x00, 0x0A, 0x49, 0x44, 0x41, 0x54, 0x78, 0x9C, 0x63, 0x60,
        0x00, 0x00, 0x00, 0x02, 0x00, 0x01, 0x48, 0xAF, 0xA4, 0x71, 0x00, 0x00, 0x00, 0x00, 0x49,
        0x45, 0x4E, 0x44, 0xAE, 0x42, 0x60, 0x82,
    ];
    let png = Png::try_from(&bytes).ok().unwrap();
    assert_eq!(names(&png), ["IHDR", "IDAT", "IEND"]);
    assert_eq!(png.chunks()[0].length(), 13);
    assert_eq!(png.chunks()[0].crc(), 0x3A7E_9B55);
    assert_eq!(png.chunks()[1].length(), 10);
    assert_eq!(png.chunks()[1].crc(), 0x48AF_A471);
    assert_eq!(png.chunks()[2].length(), 0);
    assert_eq!(png.as_bytes(), bytes);
}

#[test]
fn png_parse_rejects_fewer_than_eight_bytes() {
    assert_eq!(Png::try_from(&[]).err(), Some(Error::TooShort));
    assert_eq!(Png::try_from(&SIGNATURE[..7]).err(), Some(Error::TooShort));
}

#[test]
fn png_parse_rejects_another_header() {
    let mut bytes = three_chunk_bytes();
    bytes[0] = 13;
    assert_eq!(Png::try_from(&bytes).err(), Some(Error::InvalidSignature));
    for at in 0..8 {
        let mut header = SIGNATURE;
        header[at] ^= 1;
        assert_eq!(Png::try_from(&header).err(), Some(Error::InvalidSignature));
    }
}

#[test]
fn png_parse_rejects_a_trailing_fragment() {
    for extra in 1..12 {
        let mut bytes = three_chunk_bytes();
        bytes.extend(vec![0u8; extra]);
        assert_eq!(Png::try_from(&bytes).err(), Some(Error::TrailingGarbage));
    }
    let mut bytes = SIGNATURE.to_vec();
    bytes.push(0);
    assert_eq!(Png::try_from(&bytes).err(), Some(Error::TrailingGarbage));
}

#[test]
fn png_parse_rejects_a_last_chunk_that_overruns_the_buffer() {
    let mut bytes = three_chunk_bytes();
    bytes.pop();
    assert_eq!(Png::try_from(&bytes).err(), Some(Error::TrailingGarbage));
    let mut bytes = SIGNATURE.to_vec();
    bytes.extend([0, 0, 0, 5]);
    bytes.extend(b"RuSt");
    bytes.extend([1, 2, 3, 4]);
    bytes.extend([0, 0, 0, 0]);
    assert_eq!(Png::try_from(&bytes).err(), Some(Error::TrailingGarbage));
}

#[test]
fn png_parse_rejects_a_chunk_with_a_wrong_checksum() {
    let mut bytes = SIGNATURE.to_vec();
    bytes.extend(chunk_of("FrSt", "I am the first chunk").as_bytes());
    let mut second = chunk_of("miDl", "I am another chunk").as_bytes();
    let last = second.len() - 1;
    second[last] ^= 0x10;
    bytes.extend(second);
    bytes.extend(chunk_of("LASt", "I am the last chunk").as_bytes());
    assert_eq!(Png::try_from(&bytes).err(), Some(Error::CrcMismatch));
}

#[test]
fn png_parse_reports_the_first_failure() {
    // A chunk with a wrong checksum, then a fragment.
    let mut bytes = SIGNATURE.to_vec();
    let mut first = chunk_of("FrSt", "I am the first chunk").as_bytes();
    first[9] ^= 1;
    bytes.extend(first);
    bytes.extend([0, 0, 0]);
    assert_eq!(Png::try_from(&bytes).err(), Some(Error::CrcMismatch));
}

#[test]
fn png_parse_lets_the_length_fields_frame_the_chunks() {
    // Zero bytes of data that look like a record of their own are data.
    let inner = chunk_of("IEND", "").as_bytes();
    let code = ChunkType::from_str("wRAp").unwrap();
    let outer = Chunk::new(code, inner.clone()).ok().unwrap();
    let mut bytes = SIGNATURE.to_vec();
    bytes.extend(outer.as_bytes());
    let png = Png::try_from(&bytes).ok().unwrap();
    assert_eq!(names(&png), ["wRAp"]);
    assert_eq!(png.chunks()[0].data(), &inner[..]);
}

#[test]
fn png_as_bytes_is_header_then_chunks() {
    assert_eq!(three_chunk_png().as_bytes(), three_chunk_bytes());
    let expected_len: usize = 8 + (12 + 20) + (12 + 18) + (12 + 19);
    assert_eq!(three_chunk_png().as_bytes().len(), expected_len);
}

#[test]
fn png_round_trip() {
    let built = three_chunk_png();
    let parsed = Png::try_from(&built.as_bytes()).ok().unwrap();
    assert_eq!(parsed.header(), built.header());
    assert_eq!(parsed.chunks().len(), built.chunks().len());
    for (a, b) in parsed.chunks().iter().zip(built.chunks()) {
        assert_eq!(a.length(), b.length());
        assert_eq!(a.chunk_type(), b.chunk_type());
        assert_eq!(a.data(), b.data());
        assert_eq!(a.crc(), b.crc());
    }
    assert_eq!(parsed.as_bytes(), built.as_bytes());
}

#[test]
fn png_parse_then_as_bytes_gives_the_buffer_back() {
    let bytes = three_chunk_bytes();
    assert_eq!(Png::try_from(&bytes).ok().unwrap().as_bytes(), bytes);
}

#[test]
fn png_chunk_by_type_finds_the_first_match() {
    let mut chunks = three_chunks();
    chunks.insert(2, chunk_of("miDl", "I am a second one"));
    let png = Png::from_chunks(chunks);
    let found = png.chunk_by_type("miDl").unwrap();
    assert_eq!(found.chunk_type().to_string(), Ok(String::from("miDl")));
    assert_eq!(found.data_as_string(), Ok(String::from("I am another chunk")));
    assert_eq!(png.chunk_by_type("FrSt").unwrap().length(), 20);
    assert_eq!(png.chunk_by_type("LASt").unwrap().length(), 19);
}

#[test]
fn png_chunk_by_type_finds_nothing() {
    let png = three_chunk_png();
    assert!(png.chunk_by_type("RuSt").is_none());
    assert!(png.chunk_by_type("MiDl").is_none());
    assert!(png.chunk_by_type("").is_none());
    assert!(png.chunk_by_type("miD").is_none());
    assert!(png.chunk_by_type("miDll").is_none());
    assert!(Png::from_chunks(Vec::new()).chunk_by_type("miDl").is_none());
}

#[test]
fn png_chunk_by_type_wants_a_type_string_as_remove_does() {
    let odd = Chunk::new(ChunkType::from_bytes(*b"Ru1t"), vec![1, 2, 3]).ok().unwrap();
    let mut chunks = three_chunks();
    chunks.insert(1, odd);
    let mut png = Png::from_chunks(chunks);
    assert!(png.chunk_by_type("Ru1t").is_none());
    assert_eq!(png.remove_chunk("Ru1t").err(), Some(Error::NotFound));
    assert_eq!(png.chunks().len(), 4);
    assert_eq!(png.chunks()[1].data(), &[1, 2, 3]);
}

#[test]
fn png_chunk_by_type_of_a_lone_chunk_whose_type_is_no_type_string() {
    let odd = Chunk::new(ChunkType::from_bytes([82, 117, 49, 116]), Vec::new()).ok().unwrap();
    let png = Png::from_chunks(vec![odd]);
    assert!(png.chunk_by_type("Ru1t").is_none());
}

#[test]
fn png_chunk_by_type_finds_a_chunk_exactly_when_remove_takes_one() {
    let names =
        ["FrSt", "miDl", "LASt", "Ru1t", "RuSt", "frst", "", "miD", "miDll", "mi l", "éé"];
    for name in names {
        let odd = Chunk::new(ChunkType::from_bytes(*b"Ru1t"), vec![1, 2, 3]).ok().unwrap();
        let mut chunks = three_chunks();
        chunks.insert(1, odd);
        let mut png = Png::from_chunks(chunks);
        let found = png.chunk_by_type(name).map(|c| c.as_bytes());
        let removed = png.remove_chunk(name).ok().map(|c| c.as_bytes());
        assert_eq!(found, removed);
    }
}

#[test]
fn png_append_chunk_goes_before_the_last() {
    let mut png = three_chunk_png();
    assert_eq!(png.append_chunk(chunk_of("TeSt", "Message")), Ok(()));
    assert_eq!(names(&png), ["FrSt", "miDl", "TeSt", "LASt"]);
    let found = png.chunk_by_type("TeSt").unwrap();
    assert_eq!(found.data_as_string(), Ok(String::from("Message")));
    assert_eq!(png.append_chunk(chunk_of("MoRe", "")), Ok(()));
    assert_eq!(names(&png), ["FrSt", "miDl", "TeSt", "MoRe", "LASt"]);
}

#[test]
fn png_append_chunk_to_a_single_chunk() {
    let mut png = Png::from_chunks(vec![chunk_of("IEND", "")]);
    assert_eq!(png.append_chunk(chunk_of("TeSt", "Message")), Ok(()));
    assert_eq!(names(&png), ["TeSt", "IEND"]);
}

#[test]
fn png_append_chunk_fails_on_an_empty_container() {
    let mut png = Png::from_chunks(Vec::new());
    assert_eq!(png.append_chunk(chunk_of("TeSt", "Message")), Err(Error::EmptyContainer));
    assert!(png.chunks().is_empty());
    assert_eq!(png.as_bytes(), SIGNATURE);
}

#[test]
fn png_append_chunk_keeps_the_last_chunk_last() {
    let mut png = three_chunk_png();
    let last = png.chunks()[2].as_bytes();
    for round in 0..5 {
        png.append_chunk(chunk_of("TeSt", "Message")).unwrap();
        let len = png.chunks().len();
        assert_eq!(len, 4 + round);
        assert_eq!(png.chunks()[len - 1].as_bytes(), last);
    }
}

#[test]
fn png_remove_chunk_takes_the_first_match_and_keeps_the_order() {
    let mut chunks = three_chunks();
    chunks.insert(2, chunk_of("miDl", "I am a second one"));
    let mut png = Png::from_chunks(chunks);
    let removed = png.remove_chunk("miDl").ok().unwrap();
    assert_eq!(removed.data_as_string(), Ok(String::from("I am another chunk")));
    assert_eq!(names(&png), ["FrSt", "miDl", "LASt"]);
    assert_eq!(texts(&png), ["I am the first chunk", "I am a second one", "I am the last chunk"]);
    let removed = png.remove_chunk("FrSt").ok().unwrap();
    assert_eq!(removed.data_as_string(), Ok(String::from("I am the first chunk")));
    assert_eq!(names(&png), ["miDl", "LASt"]);
    let removed = png.remove_chunk("LASt").ok().unwrap();
    assert_eq!(removed.length(), 19);
    assert_eq!(names(&png), ["miDl"]);
}

#[test]
fn png_remove_chunk_finds_nothing() {
    let mut png = three_chunk_png();
    assert_eq!(png.remove_chunk("RuSt").err(), Some(Error::NotFound));
    assert_eq!(png.as_bytes(), three_chunk_bytes());
    let mut empty = Png::from_chunks(Vec::new());
    assert_eq!(empty.remove_chunk("RuSt").err(), Some(Error::NotFound));
}

#[test]
fn png_remove_chunk_rejects_a_string_that_is_no_type() {
    let mut png = three_chunk_png();
    assert_eq!(png.remove_chunk("mi1l").err(), Some(Error::NotFound));
    assert_eq!(png.remove_chunk("miD").err(), Some(Error::NotFound));
    assert_eq!(png.remove_chunk("").err(), Some(Error::NotFound));
    assert_eq!(png.as_bytes(), three_chunk_bytes());
}

#[test]
fn png_append_then_remove_gives_the_container_back() {
    let mut png = three_chunk_png();
    let added = chunk_of("TeSt", "Message");
    let added_bytes = added.as_bytes();
    png.append_chunk(added).unwrap();
    assert_ne!(png.as_bytes(), three_chunk_bytes());
    let removed = png.remove_chunk("TeSt").ok().unwrap();
    assert_eq!(removed.as_bytes(), added_bytes);
    assert_eq!(png.as_bytes(), three_chunk_bytes());
}

#[test]
fn png_summaries_list_type_and_length() {
    let png = three_chunk_png();
    let expected = vec![
        (ChunkType::from_str("FrSt").unwrap(), 20),
        (ChunkType::from_str("miDl").unwrap(), 18),
        (ChunkType::from_str("LASt").unwrap(), 19),
    ];
    assert_eq!(png.summaries(), expected);
    assert!(Png::from_chunks(Vec::new()).summaries().is_empty());
}
