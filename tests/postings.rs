use inverted_index::indexed::{IndexedTerm, Term};
use inverted_index::listmap::{CommonSegments, SortedLinkedMap, UsageData};

fn usage(count: u64, bits: u64) -> UsageData {
    UsageData { use_count: count, segments: CommonSegments { bits } }
}

fn entries(m: &SortedLinkedMap) -> Vec<(u64, u64, u64)> {
    m.entries().iter().map(|(k, u)| (*k, u.use_count, u.segments.bits)).collect()
}

#[test]
fn push_inserts_in_order_and_combines() {
    let mut m = SortedLinkedMap::new();
    m.push(6, usage(1, 1));
    m.push(3, usage(1, 2));
    m.push(1, usage(1, 1));
    m.push(3, usage(2, 1));
    m.push(4, usage(1, 1));
    assert_eq!(m.len(), 4);
    assert_eq!(entries(&m), vec![(1, 1, 1), (3, 3, 3), (4, 1, 1), (6, 1, 1)]);
    assert_eq!(m.element_at(3).map(|u| u.use_count), Some(3));
    assert!(m.element_at(5).is_none());
}

#[test]
fn or_merges_both_maps() {
    let mut a = SortedLinkedMap::new();
    a.push(1, usage(1, 1));
    a.push(5, usage(2, 1));
    let mut b = SortedLinkedMap::new();
    b.push(0, usage(1, 2));
    b.push(5, usage(3, 2));
    b.push(9, usage(1, 2));
    assert!(a.or_fits(&b));
    a.or(b);
    assert_eq!(entries(&a), vec![(0, 1, 2), (1, 1, 1), (5, 5, 3), (9, 1, 2)]);
}

#[test]
fn or_fits_detects_overflow() {
    let mut a = SortedLinkedMap::new();
    a.push(2, usage(u64::MAX, 1));
    let mut b = SortedLinkedMap::new();
    b.push(2, usage(1, 1));
    assert!(!a.or_fits(&b));
    let mut c = SortedLinkedMap::new();
    c.push(3, usage(1, 1));
    assert!(a.or_fits(&c));
}

fn term(name: &str, count: u64, docs: &[(u64, u64, u64)]) -> IndexedTerm {
    let mut t = IndexedTerm::new(name.to_string());
    t.use_count = count;
    for (d, c, z) in docs {
        t.indexes.push(*d, usage(*c, *z));
    }
    t
}

#[test]
fn combine_with_empty_keeps_term() {
    let mut a = term("foo", 3, &[(0, 2, 1), (4, 1, 2)]);
    a.combine(IndexedTerm::new("foo".to_string()));
    assert_eq!(a.get_use_count(), 3);
    assert_eq!(entries(&a.indexes), vec![(0, 2, 1), (4, 1, 2)]);
}

#[test]
fn combine_is_associative() {
    let mut left = term("foo", 1, &[(0, 1, 1)]);
    left.combine(term("foo", 2, &[(0, 1, 2), (3, 1, 1)]));
    left.combine(term("foo", 4, &[(3, 2, 2), (7, 2, 1)]));

    let mut right_tail = term("foo", 2, &[(0, 1, 2), (3, 1, 1)]);
    right_tail.combine(term("foo", 4, &[(3, 2, 2), (7, 2, 1)]));
    let mut right = term("foo", 1, &[(0, 1, 1)]);
    right.combine(right_tail);

    assert_eq!(left.use_count, right.use_count);
    assert_eq!(entries(&left.indexes), entries(&right.indexes));
    assert_eq!(entries(&left.indexes), vec![(0, 2, 3), (3, 3, 3), (7, 2, 1)]);
    assert_eq!(left.use_count, 7);
}

#[test]
fn usage_accessors() {
    let mut u = UsageData::new();
    *u.use_count_mut() += 4;
    u.segments_mut().set_zone(1);
    assert_eq!(u.use_count, 4);
    assert_eq!(u.segments.bits, 2);
}
