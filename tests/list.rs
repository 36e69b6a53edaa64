use inverted_index::bytes::{ByteReader, CountedWriter};
use inverted_index::list::SortedLinkedList;

#[test]
fn lst_tst() {
    let mut f = SortedLinkedList::<i32>::new();

    f.push(6);
    f.push(3);
    f.push(1);
    f.push(3);
    f.push(4);

    let mut s = SortedLinkedList::<i32>::new();

    s.push(2);
    s.push(10);
    s.push(3);

    s.or(f);
    f = s;

    assert_eq!(f.len(), 6);
    let values: Vec<i32> = f.iter().into_iter().rev().collect();
    assert_eq!(values, vec![10, 6, 4, 3, 2, 1]);
}

#[test]
fn list_push_ignores_duplicates() {
    let mut l = SortedLinkedList::<u64>::new();
    l.push(5);
    l.push(5);
    l.push(1);
    assert_eq!(l.len(), 2);
    assert_eq!(l.iter(), vec![1, 5]);
}

#[test]
fn list_save_load_round_trip() {
    let mut l = SortedLinkedList::<u64>::new();
    for v in [6u64, 3, 1, 3, 4, 200] {
        l.push(v);
    }
    let mut w = CountedWriter::new();
    l.save(&mut w);
    let bytes = w.into_bytes();
    assert_eq!(bytes, vec![0x85, 0x81, 0x82, 0x81, 0x82, 0x42, 0x81]);
    let mut r = ByteReader::new(bytes);
    let back = SortedLinkedList::<u64>::load(&mut r).unwrap();
    assert_eq!(back.iter(), vec![1, 3, 4, 6, 200]);
}

#[test]
fn write_tst() {
    let mut f = SortedLinkedList::<u64>::new();

    f.push(6);
    f.push(3);
    f.push(1);
    f.push(3);
    f.push(4);

    let mut s = SortedLinkedList::<u64>::new();

    s.push(2);
    s.push(10);
    s.push(3);

    s.or(f);

    let mut buf = CountedWriter::new();
    s.save(&mut buf);
    assert_eq!(buf.into_bytes(), vec![0x86, 0x81, 0x81, 0x81, 0x81, 0x82, 0x84]);
}
