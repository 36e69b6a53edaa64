use inverted_index::run::Dictionary;
use inverted_index::parser::{next_action, WorkerAction};
use inverted_index::reader::Reader;
use inverted_index::rep_reader::XmlReader;
use inverted_index::bytes::ByteReader;
use inverted_index::indexed::IndexedTerm;
use inverted_index::merger::{IndexMerger, IndexPositions, IndexedBuilder};
use inverted_index::parser::{IndexParser, ParserCallback};
use inverted_index::reader::{ReaderResult, ZoneRepeatedReader};
use inverted_index::rep_reader::RepeatedXmlReader;
use inverted_index::run::{IndexMergeSaver, IndexTermProvider};

fn zones(names: &[&str]) -> Vec<String> {
    names.iter().map(|s| s.to_string()).collect()
}

fn words(xml: &str, zone_names: &[&str]) -> Vec<String> {
    let mut r = RepeatedXmlReader::new(ByteReader::new(xml.as_bytes().to_vec()), zones(zone_names));
    let mut out = Vec::new();
    while let Some(w) = r.next_word() {
        match w {
            ReaderResult::Word(w) => out.push(w),
            ReaderResult::AttributeEnd => {
                out.push("|".to_string());
                r.advance_zone();
            }
            ReaderResult::Malformed => {
                out.push("!".to_string());
                break;
            }
        }
    }
    out
}

#[test]
fn tokenizer_two_zones() {
    assert_eq!(
        words("<title>Hello</title><text>hello world</text>", &["title", "text"]),
        vec!["hello", "|", "hello", "world", "|"]
    );
}

#[test]
fn tokenizer_entities() {
    assert_eq!(
        words("<text>Rock &amp; roll, don&apos;t stop</text>", &["text"]),
        vec!["rock", "roll", "don't", "stop", "|"]
    );
    assert_eq!(words("<text>&amp; &lt; &gt; &quot; &apos;</text>", &["text"]), vec!["|"]);
    assert_eq!(
        words("<text>a&amp;b rock&apos;n&lt;roll</text>", &["text"]),
        vec!["a", "b", "rock'n", "roll", "|"]
    );
}

#[test]
fn tokenizer_case_folding() {
    assert_eq!(
        words("<text>Ågård ågård ÅGÅRD</text>", &["text"]),
        vec!["ågård", "ågård", "ågård", "|"]
    );
}

#[test]
fn tokenizer_skips_other_elements_and_digits() {
    assert_eq!(
        words("<page><id>12</id><text a=\"1\">x 2009 y2k</text></page>", &["text"]),
        vec!["x", "y", "k", "|"]
    );
}

#[test]
fn zone_rotation_returns_to_start() {
    let mut r = RepeatedXmlReader::new(ByteReader::new(Vec::new()), zones(&["title", "text", "ref"]));
    assert_eq!(r.zone(), "title");
    for _ in 0..3 {
        r.transform_zone();
    }
    assert_eq!(r.zone(), "title");
    r.transform_zone();
    assert_eq!(r.zone(), "text");
    assert_eq!(r.zones_len(), 3);
}

#[test]
fn divide_write_pieces() {
    let mut r = RepeatedXmlReader::new(
        ByteReader::new(b"<text>a b</text><text>c</text><text>d</text>".to_vec()),
        zones(&["text"]),
    );
    let pieces = r.divide_write(2);
    assert_eq!(pieces.len(), 2);
    assert_eq!(pieces[0], "<text>\na b \n</text>\n<text>\nc \n</text>\n");
    assert_eq!(pieces[1], "<text>\nd \n</text>\n");
}

fn run_terms(parts: (Vec<u8>, Vec<u8>, Vec<u8>), mask_len: usize) -> Vec<IndexedTerm> {
    let mut p = IndexTermProvider::new(parts.0, parts.1, parts.2, mask_len).unwrap();
    let mut out = Vec::new();
    while let Some(t) = p.next_term() {
        out.push(t);
    }
    out
}

fn summary(t: &IndexedTerm) -> (String, u64, Vec<(u64, u64, u64)>) {
    (
        t.term.clone(),
        t.use_count,
        t.indexes.entries().iter().map(|(k, u)| (*k, u.use_count, u.segments.bits)).collect(),
    )
}

/// Indexes one document set the way a worker does: every zone element gets
/// the next document id; runs are spilled when the accumulator is full.
fn index(xml: &str, zone_names: &[&str], capacity: usize, block: u8) -> Vec<(Vec<u8>, Vec<u8>, Vec<u8>)> {
    let builder = IndexedBuilder::new(capacity, block, zones(zone_names));
    let mut parser = builder.build();
    let mut reader = builder.reader_from_bytes(xml.as_bytes().to_vec());
    let mut positions = IndexPositions::new(vec!["file".to_string()]);
    let mut doc = positions.put(0);
    let mut runs = Vec::new();
    loop {
        match parser.parse(&mut reader, doc) {
            ParserCallback::Full => runs.push(parser.flush_to()),
            ParserCallback::ZoneEnd => doc = positions.put(0),
            ParserCallback::FileEnd => break,
            ParserCallback::Malformed => panic!("malformed input"),
        }
    }
    runs.push(parser.flush_to());
    runs
}

#[test]
fn single_doc_two_zones() {
    let runs = index("<title>Hello</title><text>hello world</text>", &["title", "text"], 100, 6);
    assert_eq!(runs.len(), 1);
    let terms: Vec<_> = run_terms(runs.into_iter().next().unwrap(), 1).iter().map(summary).collect();
    assert_eq!(
        terms,
        vec![
            ("hello".to_string(), 2, vec![(0, 1, 1), (1, 1, 2)]),
            ("world".to_string(), 1, vec![(1, 1, 2)]),
        ]
    );
}

#[test]
fn entity_decoding_counts() {
    let runs = index("<text>Rock &amp; roll, don&apos;t stop</text>", &["text"], 100, 6);
    let terms: Vec<_> = run_terms(runs.into_iter().next().unwrap(), 1).iter().map(summary).collect();
    assert_eq!(
        terms,
        vec![
            ("don't".to_string(), 1, vec![(0, 1, 1)]),
            ("rock".to_string(), 1, vec![(0, 1, 1)]),
            ("roll".to_string(), 1, vec![(0, 1, 1)]),
            ("stop".to_string(), 1, vec![(0, 1, 1)]),
        ]
    );
}

#[test]
fn case_folding_counts() {
    let runs = index("<text>Ågård ågård ÅGÅRD</text>", &["text"], 100, 6);
    let terms: Vec<_> = run_terms(runs.into_iter().next().unwrap(), 1).iter().map(summary).collect();
    assert_eq!(terms, vec![("ågård".to_string(), 3, vec![(0, 3, 1)])]);
}

fn merge(runs: Vec<(Vec<u8>, Vec<u8>, Vec<u8>)>, block: u8) -> (Vec<(String, u64, Vec<(u64, u64, u64)>)>, u64, u64) {
    let providers: Vec<IndexTermProvider> = runs
        .into_iter()
        .map(|(d, l, i)| IndexTermProvider::new(d, l, i, 1).unwrap())
        .collect();
    let out = IndexMerger::new(block).merge(providers, 1).unwrap();
    let terms = run_terms((out.dictionary, out.lexical_part, out.index_part), 1).iter().map(summary).collect();
    (terms, out.lexeme_count, out.term_count)
}

#[test]
fn spill_and_merge() {
    let runs = index("<text>a b a c d b</text>", &["text"], 2, 6);
    assert!(runs.len() >= 2);
    let (terms, lexemes, count) = merge(runs, 6);
    let names: Vec<(String, u64)> = terms.iter().map(|t| (t.0.clone(), t.1)).collect();
    assert_eq!(
        names,
        vec![("a".to_string(), 2), ("b".to_string(), 2), ("c".to_string(), 1), ("d".to_string(), 1)]
    );
    assert_eq!(terms[0].2, vec![(0, 2, 1)]);
    assert_eq!(lexemes, 6);
    assert_eq!(count, 4);
}

fn run_of(terms: &[(&str, u64)]) -> (Vec<u8>, Vec<u8>, Vec<u8>) {
    let mut saver = IndexMergeSaver::new(6, 1);
    for (name, doc) in terms {
        let mut t = IndexedTerm::new(name.to_string());
        t.use_count = 1;
        let mut u = inverted_index::listmap::UsageData::new();
        u.use_count = 1;
        u.segments.bits = 1;
        t.indexes.push(*doc, u);
        saver.push(t);
    }
    saver.finish()
}

#[test]
fn merger_equality_tie_break() {
    let runs = vec![run_of(&[("foo", 0)]), run_of(&[("foo", 3)]), run_of(&[("foo", 0)])];
    let (terms, lexemes, count) = merge(runs, 6);
    assert_eq!(terms, vec![("foo".to_string(), 3, vec![(0, 2, 1), (3, 1, 1)])]);
    assert_eq!(lexemes, 3);
    assert_eq!(count, 1);
}

#[test]
fn front_coding_round_trip() {
    let names = [
        "'''garfield", "'''hack", "'''len", "apple", "applesauce", "application", "apply", "banana",
        "band", "bandana", "tяrk", "tяrаt", "zebra",
    ];
    let mut sorted: Vec<&str> = names.to_vec();
    sorted.sort_by(|a, b| a.as_bytes().cmp(b.as_bytes()));
    for block in [1u8, 2, 3, 6, 64] {
        let mut saver = IndexMergeSaver::new(block, 1);
        for (i, name) in sorted.iter().enumerate() {
            let mut t = IndexedTerm::new(name.to_string());
            t.use_count = i as u64 + 1;
            let mut u = inverted_index::listmap::UsageData::new();
            u.use_count = i as u64 + 1;
            u.segments.bits = 1;
            t.indexes.push(i as u64 * 3, u);
            saver.push(t);
        }
        let terms = run_terms(saver.finish(), 1);
        let back: Vec<(String, u64, Vec<(u64, u64, u64)>)> = terms.iter().map(summary).collect();
        let expected: Vec<(String, u64, Vec<(u64, u64, u64)>)> = sorted
            .iter()
            .enumerate()
            .map(|(i, n)| (n.to_string(), i as u64 + 1, vec![(i as u64 * 3, i as u64 + 1, 1)]))
            .collect();
        assert_eq!(back, expected);
    }
}

#[test]
fn empty_run_reads_nothing() {
    let parts = IndexParser::new(10, 6, 2).flush_to();
    assert_eq!(parts.0, vec![0; 8]);
    assert!(run_terms(parts, 1).is_empty());
}

#[test]
fn positions_number_zone_elements() {
    let mut p = IndexPositions::new(vec!["a.xml".to_string(), "b.xml".to_string()]);
    assert_eq!(p.put(0), 0);
    assert_eq!(p.put(1), 1);
    assert_eq!(p.put(0), 2);
    assert_eq!(p.ids, vec![(0, 0), (1, 0), (0, 1)]);
    assert_eq!(p.names[0].1, 2);
}

#[test]
fn dictionary_random_access() {
    let parts = run_of(&[("alpha", 1), ("alpine", 2), ("beta", 3)]);
    let mut d = Dictionary::new(parts.0, parts.1, parts.2, 1).unwrap();
    let c = d.cursor(1).unwrap();
    let t = d.get_term(&c).unwrap();
    assert_eq!(summary(&t), ("alpine".to_string(), 1, vec![(2, 1, 1)]));
    let c = d.cursor(2).unwrap();
    assert_eq!(summary(&d.get_term(&c).unwrap()).0, "beta");
    let c = d.cursor(0).unwrap();
    assert_eq!(summary(&d.get_term(&c).unwrap()).0, "alpha");
    assert!(d.cursor(3).is_none());
}

#[test]
fn worker_actions() {
    assert_eq!(next_action(ParserCallback::Full), WorkerAction::Spill);
    assert_eq!(next_action(ParserCallback::ZoneEnd), WorkerAction::NextDocument);
    assert_eq!(next_action(ParserCallback::FileEnd), WorkerAction::NextFile);
}

#[test]
fn single_zone_reader() {
    let mut r = XmlReader::new(ByteReader::new(b"<title>No</title><text>Yes</text>".to_vec()));
    assert!(matches!(r.next_word(), Some(ReaderResult::Word(w)) if w == "yes"));
    assert!(matches!(r.next_word(), Some(ReaderResult::AttributeEnd)));
    assert!(r.next_word().is_none());
}

#[test]
fn tokenizer_bare_entities_split_words() {
    assert_eq!(
        words("<text>&amp; &lt; &gt; &quot; &apos; a&amp;b c&lt;d e&gt;f g&quot;h</text>", &["text"]),
        vec!["a", "b", "c", "d", "e", "f", "g", "h", "|"]
    );
}

#[test]
fn tokenizer_reports_malformed_utf8() {
    let mut bytes = b"<text>ab ".to_vec();
    bytes.push(0xC3);
    bytes.push(0x28);
    bytes.extend_from_slice(b" cd</text>");
    let mut r = RepeatedXmlReader::new(ByteReader::new(bytes), zones(&["text"]));
    assert!(matches!(r.next_word(), Some(ReaderResult::Word(w)) if w == "ab"));
    assert!(matches!(r.next_word(), Some(ReaderResult::Malformed)));
}

#[test]
fn parse_reports_malformed_utf8() {
    let builder = IndexedBuilder::new(100, 6, zones(&["text"]));
    let mut parser = builder.build();
    let mut reader = builder.reader_from_bytes(vec![b'<', b't', b'e', b'x', b't', b'>', 0xFF, b'<']);
    assert_eq!(parser.parse(&mut reader, 0), ParserCallback::Malformed);
}

#[test]
fn parse_stops_when_full() {
    let builder = IndexedBuilder::new(2, 6, zones(&["text"]));
    let mut parser = builder.build();
    let mut reader = builder.reader_from_bytes(b"<text>a b c</text>".to_vec());
    assert_eq!(parser.parse(&mut reader, 0), ParserCallback::Full);
    assert_eq!(parser.len(), 2);
    assert_eq!(parser.parse(&mut reader, 0), ParserCallback::Full);
    let _ = parser.flush_to();
    assert_eq!(parser.parse(&mut reader, 0), ParserCallback::ZoneEnd);
    assert_eq!(parser.len(), 1);
    assert_eq!(parser.parse(&mut reader, 1), ParserCallback::FileEnd);
}
