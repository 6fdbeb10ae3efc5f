use fhl::decode::ArrayReader;
use fhl::packing::pack;
use fhl::packing::unpack;
use fhl::records::DecodeError;

const DEFAULT_LIMIT: Option<u64> = Some(fhl::decode::DEFAULT_TRAVERSAL_LIMIT_WORDS);

/// Packs a word-aligned stream in the simplest valid form: every word is
/// written with an all-ones mask and an empty literal run.
fn pack_plain(stream: &[u8]) -> Vec<u8> {
    assert!(stream.len() % 8 == 0);
    let mut out = Vec::new();
    for chunk in stream.chunks(8) {
        out.push(0xffu8);
        out.extend_from_slice(chunk);
        out.push(0u8);
    }
    out
}

fn word(lo: u32, hi: u32) -> [u8; 8] {
    let mut w = [0u8; 8];
    w[..4].copy_from_slice(&lo.to_le_bytes());
    w[4..].copy_from_slice(&hi.to_le_bytes());
    w
}

/// A single-segment message from the given words, framed and plain-packed.
fn message(words: &[[u8; 8]]) -> Vec<u8> {
    let mut stream = Vec::new();
    stream.extend_from_slice(&0u32.to_le_bytes());
    stream.extend_from_slice(&(words.len() as u32).to_le_bytes());
    for w in words {
        stream.extend_from_slice(w);
    }
    pack_plain(&stream)
}

fn open_array_err(words: &[[u8; 8]]) -> DecodeError {
    ArrayReader::open(&message(words), DEFAULT_LIMIT).unwrap_err()
}

#[test]
fn pack_round_trip_dense_and_sparse() {
    let mut v: Vec<u8> = Vec::new();
    v.extend(std::iter::repeat(0u8).take(3000));
    for i in 0..512u32 {
        v.push((i % 251 + 1) as u8);
    }
    v.extend(std::iter::repeat(0u8).take(16));
    for i in 0..100u32 {
        v.push((i % 7) as u8);
    }
    while v.len() % 8 != 0 {
        v.push(0);
    }
    let packed = pack(&v);
    assert_eq!(unpack(&packed).unwrap(), v);
}

#[test]
fn unpack_rejects_truncated_streams() {
    assert!(unpack(&vec![0u8]).is_none());
    assert!(unpack(&vec![0xffu8, 1, 2, 3]).is_none());
    assert!(unpack(&vec![0x03u8, 9]).is_none());
    assert!(unpack(&vec![0xffu8, 1, 2, 3, 4, 5, 6, 7, 8]).is_none());
    assert_eq!(unpack(&Vec::new()).unwrap(), Vec::<u8>::new());
}

#[test]
fn crafted_minimal_array_with_absent_value() {
    // root struct, entry list of one element, key text "a", absent value
    let words = [
        word(0, 0x0001_0000),
        word(1, 7 + 8 * 2),
        word(1 << 2, 0x0002_0000),
        word((1 << 2) | 1, 2 + 8 * 2),
        word(0, 0),
        word(u32::from_le_bytes([b'a', 0, 0, 0]), 0),
    ];
    let r = ArrayReader::open(&message(&words), DEFAULT_LIMIT).unwrap();
    assert_eq!(r.size(), 1);
    let e = r.get(0).unwrap();
    assert_eq!(e.key, b"a".to_vec());
    assert_eq!(e.value, Vec::<u8>::new());
}

#[test]
fn crafted_absent_entry_list_is_empty() {
    let words = [word(0, 0x0001_0000), word(0, 0)];
    let r = ArrayReader::open(&message(&words), DEFAULT_LIMIT).unwrap();
    assert_eq!(r.size(), 0);
}

#[test]
fn root_pointer_out_of_bounds() {
    let words = [word(100 << 2, 0x0001_0000), word(0, 0)];
    assert_eq!(open_array_err(&words), DecodeError::Malformed);
}

#[test]
fn root_pointer_wrong_kind() {
    let words = [word((0 << 2) | 1, 7 + 8 * 0), word(0, 0)];
    assert_eq!(open_array_err(&words), DecodeError::Malformed);
}

#[test]
fn null_root_rejected() {
    let words = [word(0, 0), word(0, 0)];
    assert_eq!(open_array_err(&words), DecodeError::Malformed);
}

#[test]
fn wrong_root_shape_is_schema_mismatch() {
    // a root struct with one data word and two pointers is not the array schema
    let words = [word(0, 0x0002_0001), word(0, 0), word(0, 0), word(0, 0)];
    assert_eq!(open_array_err(&words), DecodeError::SchemaMismatch);
}

#[test]
fn entry_list_with_wrong_element_size() {
    let words = [word(0, 0x0001_0000), word(1, 2 + 8 * 2), word(0, 0)];
    assert_eq!(open_array_err(&words), DecodeError::Malformed);
}

#[test]
fn tag_count_mismatching_list_words() {
    // the list claims two content words but its tag claims two elements
    // of two words each
    let words = [
        word(0, 0x0001_0000),
        word(1, 7 + 8 * 2),
        word(2 << 2, 0x0002_0000),
        word(0, 0),
        word(0, 0),
    ];
    assert_eq!(open_array_err(&words), DecodeError::Malformed);
}

#[test]
fn text_missing_terminator() {
    let words = [
        word(0, 0x0001_0000),
        word(1, 7 + 8 * 2),
        word(1 << 2, 0x0002_0000),
        word((1 << 2) | 1, 2 + 8 * 2),
        word(0, 0),
        word(u32::from_le_bytes([b'a', b'b', 0, 0]), 0),
    ];
    assert_eq!(open_array_err(&words), DecodeError::Malformed);
}

#[test]
fn text_pointer_out_of_bounds() {
    let words = [
        word(0, 0x0001_0000),
        word(1, 7 + 8 * 2),
        word(1 << 2, 0x0002_0000),
        word((1000 << 2) | 1, 2 + 8 * 2),
        word(0, 0),
        word(0, 0),
    ];
    assert_eq!(open_array_err(&words), DecodeError::Malformed);
}

#[test]
fn header_declaring_too_many_words() {
    let mut stream = Vec::new();
    stream.extend_from_slice(&0u32.to_le_bytes());
    stream.extend_from_slice(&3u32.to_le_bytes());
    stream.extend_from_slice(&word(0, 0x0001_0000));
    stream.extend_from_slice(&word(0, 0));
    let bytes = pack_plain(&stream);
    assert_eq!(
        ArrayReader::open(&bytes, DEFAULT_LIMIT).unwrap_err(),
        DecodeError::Malformed
    );
}

#[test]
fn flipped_pointer_bytes_rejected() {
    // take a well-formed crafted message and steer its key pointer outside
    // the segment, byte by byte
    let good = [
        word(0, 0x0001_0000),
        word(1, 7 + 8 * 2),
        word(1 << 2, 0x0002_0000),
        word((1 << 2) | 1, 2 + 8 * 2),
        word(0, 0),
        word(u32::from_le_bytes([b'a', 0, 0, 0]), 0),
    ];
    assert!(ArrayReader::open(&message(&good), DEFAULT_LIMIT).is_ok());
    for flip in [0x7f_u8, 0xff, 0x40] {
        let mut bad = good;
        bad[3][1] = flip;
        assert_eq!(open_array_err(&bad), DecodeError::Malformed);
    }
}
