use inverted_index::bytes::{variable_load, variable_save_u64, ByteReader, CountedWriter, U8Provider};
use inverted_index::chars::{interpret_character, read_char, read_line, read_to_space, CharType};
use inverted_index::codec::{load_postings, save_postings};
use inverted_index::lexical::{bytes_lt, count_same};
use inverted_index::listmap::{CommonSegments, SortedLinkedMap, UsageData};
use inverted_index::run::IndexedCursor;

fn round_trip(n: u64) -> (u64, usize) {
    let mut out = Vec::new();
    let written = variable_save_u64(n, &mut out);
    assert_eq!(written as usize, out.len());
    let mut r = ByteReader::new(out.clone());
    let back = variable_load(&mut r).unwrap();
    assert!(r.is_exhausted());
    (back, out.len())
}

#[test]
fn varint_edges_round_trip() {
    let cases: Vec<(u64, usize)> = vec![
        (0, 1),
        (1, 1),
        (127, 1),
        (128, 2),
        (16_383, 2),
        (16_384, 3),
        ((1u64 << 63) - 1, 9),
        (u64::MAX, 10),
    ];
    for (n, len) in cases {
        assert_eq!(round_trip(n), (n, len));
    }
}

#[test]
fn varint_high_bit_marks_last_byte() {
    let mut out = Vec::new();
    variable_save_u64(300, &mut out);
    assert_eq!(out, vec![(300u64 % 128) as u8, 0x80 | (300u64 / 128) as u8]);
    let mut out = Vec::new();
    variable_save_u64(5, &mut out);
    assert_eq!(out, vec![0x85]);
}

#[test]
fn varint_rejects_truncated_and_padded() {
    let mut r = ByteReader::new(vec![0x05]);
    assert_eq!(variable_load(&mut r), None);
    let mut r = ByteReader::new(vec![0x05, 0x80]);
    assert_eq!(variable_load(&mut r), None);
    let mut r = ByteReader::new(vec![0x00; 12]);
    assert_eq!(variable_load(&mut r), None);
}

#[test]
fn utf8_decoding() {
    let mut r = ByteReader::new("aĞ€😀".as_bytes().to_vec());
    assert_eq!(read_char(&mut r), Some('a'));
    assert_eq!(read_char(&mut r), Some('Ğ'));
    assert_eq!(read_char(&mut r), Some('€'));
    assert_eq!(read_char(&mut r), Some('😀'));
    assert_eq!(read_char(&mut r), None);
    let mut bad = ByteReader::new(vec![0xC3, 0x28]);
    assert_eq!(read_char(&mut bad), None);
    let mut surrogate = ByteReader::new(vec![0xED, 0xA0, 0x80]);
    assert_eq!(read_char(&mut surrogate), None);
}

#[test]
fn lines_and_words() {
    let mut r = ByteReader::new(b"first line\r\nsecond\n".to_vec());
    assert_eq!(read_line(&mut r), Some("first line".to_string()));
    assert_eq!(read_line(&mut r), Some("second".to_string()));
    assert_eq!(read_line(&mut r), None);
    let mut r = ByteReader::new(b"ab cd".to_vec());
    assert_eq!(read_to_space(&mut r), Some("ab".to_string()));
    assert_eq!(read_to_space(&mut r), Some("cd".to_string()));
    assert_eq!(read_to_space(&mut r), None);
}

#[test]
fn character_classes() {
    match interpret_character('Å') {
        CharType::Letter(s) => assert_eq!(s, "å"),
        _ => panic!("letter expected"),
    }
    match interpret_character('İ') {
        CharType::Letter(s) => assert_eq!(s, "i\u{307}"),
        _ => panic!("letter expected"),
    }
    assert!(matches!(interpret_character('7'), CharType::Delimiter('7')));
    assert!(matches!(interpret_character(' '), CharType::Delimiter(' ')));
    assert!(matches!(interpret_character('，'), CharType::Delimiter('，')));
    assert!(matches!(interpret_character('\0'), CharType::EOF));
    assert!(matches!(interpret_character('\''), CharType::Ordinary('\'')));
}

#[test]
fn lexical_order() {
    assert_eq!(count_same(b"garfield", b"gargoyle"), 3);
    assert_eq!(count_same(b"", b"x"), 0);
    assert!(bytes_lt(b"ab", b"abc"));
    assert!(bytes_lt(b"abc", b"abd"));
    assert!(!bytes_lt(b"abc", b"abc"));
    assert!(!bytes_lt(b"b", b"abc"));
}

#[test]
fn cursor_round_trip() {
    let c = IndexedCursor::new(0x0102030405060708, 3, 77, 9);
    let mut w = CountedWriter::new();
    c.save(&mut w);
    let bytes = w.into_bytes();
    assert_eq!(bytes.len(), 25);
    assert_eq!(&bytes[0..8], &[1, 2, 3, 4, 5, 6, 7, 8]);
    let mut r = ByteReader::new(bytes);
    let back = IndexedCursor::load(&mut r).unwrap();
    assert_eq!(back.lexical_pointer, 0x0102030405060708);
    assert_eq!(back.lexical_index, 3);
    assert_eq!(back.indexes_pointer, 77);
    assert_eq!(back.use_count, 9);
    let mut short = ByteReader::new(vec![0; 24]);
    assert!(IndexedCursor::load(&mut short).is_none());
}

fn usage(count: u64, bits: u64) -> UsageData {
    UsageData { use_count: count, segments: CommonSegments { bits } }
}

#[test]
fn postings_layout_and_round_trip() {
    let mut m = SortedLinkedMap::new();
    m.push(10, usage(2, 1));
    m.push(3, usage(1, 2));
    m.push(10, usage(1, 2));
    let mut w = CountedWriter::new();
    save_postings(&m, 1, &mut w);
    let bytes = w.into_bytes();
    // count 2, first doc 3, posting (1, 0b10), gap 7, posting (3, 0b11)
    assert_eq!(bytes, vec![0x82, 0x83, 0x81, 0x02, 0x87, 0x83, 0x03]);
    let mut r = ByteReader::new(bytes);
    let back = load_postings(&mut r, 1).unwrap();
    let e = back.entries();
    assert_eq!(e.len(), 2);
    assert_eq!((e[0].0, e[0].1.use_count, e[0].1.segments.bits), (3, 1, 2));
    assert_eq!((e[1].0, e[1].1.use_count, e[1].1.segments.bits), (10, 3, 3));
}

#[test]
fn postings_with_wide_masks() {
    let mut m = SortedLinkedMap::new();
    m.push(0, usage(1, 0x0201));
    let mut w = CountedWriter::new();
    save_postings(&m, 2, &mut w);
    let bytes = w.into_bytes();
    assert_eq!(bytes, vec![0x81, 0x80, 0x81, 0x01, 0x02]);
    let mut r = ByteReader::new(bytes);
    let back = load_postings(&mut r, 2).unwrap();
    assert_eq!(back.entries()[0].1.segments.bits, 0x0201);
}

#[test]
fn postings_reject_repeated_documents() {
    // count 2, first doc 3, posting, gap 0, posting
    let mut r = ByteReader::new(vec![0x82, 0x83, 0x81, 0x02, 0x80, 0x81, 0x02]);
    assert!(load_postings(&mut r, 1).is_none());
}

#[test]
fn reader_take_and_bytes() {
    let mut r = ByteReader::new(vec![1, 2, 3]);
    assert_eq!(r.take(2), Some(vec![1, 2]));
    assert_eq!(r.take(2), None);
    assert_eq!(r.next_u8(), Some(3));
    assert_eq!(r.next_u8(), None);
}

#[test]
fn vartst() {
    let mut b = Vec::new();
    variable_save_u64(255, &mut b);
    assert_eq!(b, vec![0x7F, 0x81]);
}

#[test]
fn reader_tst() {
    let mut wr = CountedWriter::new();
    wr.push_u64(3);
    wr.push_u64(5);
    wr.push_u64(6);
    wr.goto_and_write_u64(0, 10);
    assert_eq!(wr.passed(), 24);
    let bytes = wr.into_bytes();
    assert_eq!(&bytes[0..8], &[0, 0, 0, 0, 0, 0, 0, 10]);
    assert_eq!(&bytes[8..16], &[0, 0, 0, 0, 0, 0, 0, 5]);
    assert_eq!(&bytes[16..24], &[0, 0, 0, 0, 0, 0, 0, 6]);
}

#[test]
fn interpret_test() {
    let a = "2009";
    let any_letter = a.chars().any(|c| matches!(interpret_character(c), CharType::Letter(_)));
    assert!(!any_letter);
    assert!("x2009".chars().any(|c| matches!(interpret_character(c), CharType::Letter(_))));
}
