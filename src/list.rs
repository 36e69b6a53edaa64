//! A sorted list of distinct values.
use crate::bytes::{lemma_varint_u64_consumed, lemma_varint_u64_round_trip, variable_load, CountedWriter, U8Provider};
use crate::varint::varint_encode;
use vstd::prelude::*;

verus! {

/// Values that the sorted list can order: each stands for an integer.
pub trait ListKey: Copy + Sized {
    spec fn key(&self) -> int;

    fn less(&self, other: &Self) -> (r: bool)
        ensures
            r == (self.key() < other.key()),
    ;

    fn same(&self, other: &Self) -> (r: bool)
        ensures
            r == (self.key() == other.key()),
    ;
}

impl ListKey for i32 {
    open spec fn key(&self) -> int {
        *self as int
    }

    fn less(&self, other: &Self) -> (r: bool) {
        *self < *other
    }

    fn same(&self, other: &Self) -> (r: bool) {
        *self == *other
    }
}

impl ListKey for i64 {
    open spec fn key(&self) -> int {
        *self as int
    }

    fn less(&self, other: &Self) -> (r: bool) {
        *self < *other
    }

    fn same(&self, other: &Self) -> (r: bool) {
        *self == *other
    }
}

impl ListKey for u64 {
    open spec fn key(&self) -> int {
        *self as int
    }

    fn less(&self, other: &Self) -> (r: bool) {
        *self < *other
    }

    fn same(&self, other: &Self) -> (r: bool) {
        *self == *other
    }
}

impl ListKey for usize {
    open spec fn key(&self) -> int {
        *self as int
    }

    fn less(&self, other: &Self) -> (r: bool) {
        *self < *other
    }

    fn same(&self, other: &Self) -> (r: bool) {
        *self == *other
    }
}

/// Keys strictly ascending.
pub open spec fn ascending<T: ListKey>(s: Seq<T>) -> bool {
    forall|i: int, j: int| 0 <= i < j < s.len() ==> s[i].key() < s[j].key()
}

/// The keys of the values of `s`.
pub open spec fn key_set<T: ListKey>(s: Seq<T>) -> Set<int> {
    Set::new(|k: int| exists|i: int| 0 <= i < s.len() && s[i].key() == k)
}

/// Distinct values in ascending order.
pub struct SortedLinkedList<T: ListKey> {
    items: Vec<T>,
}

impl<T: ListKey> SortedLinkedList<T> {
    pub closed spec fn wf(&self) -> bool {
        ascending(self.items@)
    }

    /// The values, in ascending order.
    pub closed spec fn values(&self) -> Seq<T> {
        self.items@
    }

    /// The keys the list holds.
    pub open spec fn keys(&self) -> Set<int> {
        key_set(self.values())
    }

    pub fn new() -> (r: SortedLinkedList<T>)
        ensures
            r.wf(),
            r.keys() == Set::<int>::empty(),
    {
        let r = SortedLinkedList { items: Vec::new() };
        assert(r.keys() =~= Set::<int>::empty());
        r
    }

    /// How many values the list holds.
    pub fn len(&self) -> (r: usize)
        ensures
            r == self.values().len(),
    {
        self.items.len()
    }

    /// Adds `value` unless a value with its key is there already.
    pub fn push(&mut self, value: T)
        requires
            old(self).wf(),
        ensures
            final(self).wf(),
            final(self).keys() == old(self).keys().insert(value.key()),
            old(self).keys().contains(value.key()) ==> final(self).values() == old(self).values(),
    {
        let ghost s = self.items@;
        let mut i: usize = 0;
        while i < self.items.len()
            invariant
                self.items@ == s,
                ascending(s),
                i <= s.len(),
                forall|j: int| 0 <= j < i ==> s[j].key() < value.key(),
            ensures
                i <= s.len(),
                forall|j: int| 0 <= j < i ==> s[j].key() < value.key(),
                i < s.len() ==> s[i as int].key() >= value.key(),
            decreases s.len() - i,
        {
            if !self.items[i].less(&value) {
                break;
            }
            i = i + 1;
        }
        if i < self.items.len() && self.items[i].same(&value) {
            assert(key_set(s).contains(value.key()));
            assert(key_set(s).insert(value.key()) =~= key_set(s));
            return;
        }
        self.items.insert(i, value);
        proof {
            let t = self.items@;
            assert(t =~= s.insert(i as int, value));
            assert forall|a: int, b: int| 0 <= a < b < t.len() implies t[a].key() < t[b].key() by {
                if b < i {
                } else if b == i {
                } else if a < i {
                    assert(t[b] == s[b - 1]);
                } else if a == i {
                    assert(t[b] == s[b - 1]);
                    if b - 1 > i {
                        assert(s[i as int].key() < s[b - 1].key());
                    }
                } else {
                    assert(t[b] == s[b - 1]);
                    assert(t[a] == s[a - 1]);
                }
            }
            assert forall|k: int| #[trigger] key_set(t).contains(k) == key_set(s).insert(value.key()).contains(k) by {
                if key_set(s).contains(k) {
                    let j = choose|j: int| 0 <= j < s.len() && s[j].key() == k;
                    if j < i {
                        assert(t[j] == s[j]);
                    } else {
                        assert(t[j + 1] == s[j]);
                    }
                }
                if k == value.key() {
                    assert(t[i as int] == value);
                }
                if key_set(t).contains(k) {
                    let j = choose|j: int| 0 <= j < t.len() && t[j].key() == k;
                    if j < i {
                        assert(s[j] == t[j]);
                    } else if j > i {
                        assert(s[j - 1] == t[j]);
                    }
                }
            }
            assert(key_set(t) =~= key_set(s).insert(value.key()));
            if key_set(s).contains(value.key()) {
                let j = choose|j: int| 0 <= j < s.len() && s[j].key() == value.key();
                if j >= i {
                    assert(s[i as int].key() <= s[j].key());
                }
            }
        }
    }

    /// Adds every value of `oth` whose key is not there yet.
    pub fn or(&mut self, oth: SortedLinkedList<T>)
        requires
            old(self).wf(),
        ensures
            final(self).wf(),
            final(self).keys() == old(self).keys().union(oth.keys()),
    {
        let items = oth.items;
        let mut i: usize = 0;
        while i < items.len()
            invariant
                items@ == oth.values(),
                i <= items@.len(),
                self.wf(),
                self.keys() == old(self).keys().union(key_set(items@.take(i as int))),
            decreases items@.len() - i,
        {
            let ghost before = self.keys();
            self.push(items[i]);
            proof {
                assert(key_set(items@.take(i + 1)) =~= key_set(items@.take(i as int)).insert(items@[i as int].key())) by {
                    assert forall|k: int| #[trigger] key_set(items@.take(i + 1)).contains(k) == key_set(items@.take(i as int)).insert(items@[i as int].key()).contains(k) by {
                        let s1 = items@.take(i as int);
                        let s2 = items@.take(i + 1);
                        if key_set(s2).contains(k) {
                            let j = choose|j: int| 0 <= j < s2.len() && s2[j].key() == k;
                            if j < i {
                                assert(s1[j] == items@[j]);
                            }
                        }
                        if key_set(s1).contains(k) {
                            let j = choose|j: int| 0 <= j < s1.len() && s1[j].key() == k;
                            assert(s2[j] == items@[j]);
                        }
                        if k == items@[i as int].key() {
                            assert(items@.take(i + 1)[i as int] == items@[i as int]);
                        }
                    }
                }
                assert(self.keys() =~= old(self).keys().union(key_set(items@.take(i + 1))));
            }
            i = i + 1;
        }
        assert(items@.take(items@.len() as int) =~= items@);
    }

    /// The values in ascending order.
    pub fn iter(self) -> (r: Vec<T>)
        requires
            self.wf(),
        ensures
            ascending(r@),
            key_set(r@) == self.keys(),
    {
        self.items
    }
}

/// The gaps between neighbouring values of `s`, each as a varint.
pub open spec fn gaps_bytes(s: Seq<u64>) -> Seq<u8>
    decreases s.len(),
{
    if s.len() < 2 {
        seq![]
    } else {
        varint_encode((s[1] - s[0]) as nat) + gaps_bytes(s.drop_first())
    }
}

/// The gaps of `s` from the one after value `i` on.
pub open spec fn gaps_from(s: Seq<u64>, i: int) -> Seq<u8>
    decreases s.len() - i,
{
    if i < 0 || i + 1 >= s.len() {
        seq![]
    } else {
        varint_encode((s[i + 1] - s[i]) as nat) + gaps_from(s, i + 1)
    }
}

proof fn lemma_gaps_from(s: Seq<u64>, i: int)
    requires
        0 <= i <= s.len(),
    ensures
        gaps_bytes(s.skip(i)) == gaps_from(s, i),
    decreases s.len() - i,
{
    let t = s.skip(i);
    if i + 1 < s.len() {
        lemma_gaps_from(s, i + 1);
        assert(t.drop_first() =~= s.skip(i + 1));
        assert(t[0] == s[i] && t[1] == s[i + 1]);
    }
}

proof fn lemma_gaps_push(s: Seq<u64>, x: u64)
    requires
        s.len() > 0,
    ensures
        gaps_bytes(s.push(x)) == gaps_bytes(s) + varint_encode((x - s.last()) as nat),
    decreases s.len(),
{
    let t = s.push(x);
    if s.len() == 1 {
        assert(t.drop_first() =~= seq![x]);
        assert(gaps_bytes(seq![x]) == Seq::<u8>::empty());
        assert(gaps_bytes(s) == Seq::<u8>::empty());
        assert(gaps_bytes(t) =~= gaps_bytes(s) + varint_encode((x - s.last()) as nat));
    } else {
        assert(t.drop_first() =~= s.drop_first().push(x));
        lemma_gaps_push(s.drop_first(), x);
        assert(gaps_bytes(t) =~= gaps_bytes(s) + varint_encode((x - s.last()) as nat));
    }
}

/// A list of ascending values on disk: the count, the first value, then
/// the gaps.
pub open spec fn list_bytes(s: Seq<u64>) -> Seq<u8> {
    varint_encode(s.len()) + if s.len() == 0 {
        seq![]
    } else {
        varint_encode(s[0] as nat) + gaps_bytes(s)
    }
}

impl SortedLinkedList<u64> {
    /// Appends the values: their count, the first, then the gaps.
    pub fn save(&self, w: &mut CountedWriter)
        requires
            self.wf(),
        ensures
            final(w)@ == old(w)@ + list_bytes(self.values()),
    {
        let s = &self.items;
        let n = s.len();
        w.push_variable_u64(n as u64);
        if n == 0 {
            assert(w@ =~= old(w)@ + list_bytes(self.values()));
            return;
        }
        w.push_variable_u64(s[0]);
        let ghost head = w@;
        let mut i: usize = 0;
        assert(s@.skip(0) =~= s@);
        while i + 1 < n
            invariant
                s@ == self.values(),
                ascending(s@),
                n == s@.len(),
                n > 0,
                i + 1 <= n,
                head + gaps_bytes(s@) == w@ + gaps_bytes(s@.skip(i as int)),
            decreases n - i,
        {
            let ghost rest = s@.skip(i as int);
            assert(s@[i as int].key() < s@[i + 1].key());
            w.push_variable_u64(s[i + 1] - s[i]);
            assert(rest.drop_first() =~= s@.skip(i + 1));
            i = i + 1;
        }
        assert(s@.skip(i as int).len() < 2);
        assert(w@ =~= old(w)@ + list_bytes(self.values()));
    }

    /// Reads a list written by `save`; `None` where the bytes end early, a
    /// gap is zero, or a value passes `u64::MAX`. What was read is the
    /// encoding of the list read back, and the encoding of an ascending list
    /// is read back as that list.
    pub fn load<R: U8Provider>(reader: &mut R) -> (r: Option<SortedLinkedList<u64>>)
        ensures
            final(reader).contents() == old(reader).contents(),
            r is Some ==> r->0.wf() && old(reader).remaining() == list_bytes(r->0.values()) + final(reader).remaining(),
            forall|vals: Seq<u64>, rest: Seq<u8>|
                old(reader).remaining() == #[trigger] (list_bytes(vals) + rest) && ascending(vals)
                    && vals.len() <= u64::MAX ==> r is Some && r->0.values() == vals && final(reader).remaining() == rest,
    {
        let ghost start = reader.remaining();
        let count = match variable_load(reader) {
            Some(c) => c,
            None => {
                proof {
                    assert forall|vals: Seq<u64>, rest: Seq<u8>|
                        start == #[trigger] (list_bytes(vals) + rest) implies !(ascending(vals) && vals.len() <= u64::MAX) by {
                        if ascending(vals) && vals.len() <= u64::MAX {
                            let tail = (if vals.len() == 0 { seq![] } else { varint_encode(vals[0] as nat) + gaps_bytes(vals) }) + rest;
                            lemma_varint_u64_round_trip(vals.len() as u64, tail);
                            assert(start =~= varint_encode(vals.len()) + tail);
                        }
                    }
                }
                return None;
            },
        };
        proof {
            lemma_varint_u64_consumed(start);
        }
        let ghost after_count = reader.remaining();
        proof {
            assert forall|vals: Seq<u64>, rest: Seq<u8>|
                start == #[trigger] (list_bytes(vals) + rest) && ascending(vals) && vals.len() <= u64::MAX implies count == vals.len() && after_count == (if vals.len() == 0 { seq![] } else { varint_encode(vals[0] as nat) + gaps_bytes(vals) }) + rest by {
                let tail = (if vals.len() == 0 { seq![] } else { varint_encode(vals[0] as nat) + gaps_bytes(vals) }) + rest;
                lemma_varint_u64_round_trip(vals.len() as u64, tail);
                assert(start =~= varint_encode(vals.len()) + tail);
                assert(after_count =~= tail);
            }
        }
        let mut items: Vec<u64> = Vec::new();
        if count == 0 {
            proof {
                assert(start =~= list_bytes(items@) + reader.remaining());
                assert forall|vals: Seq<u64>, rest: Seq<u8>|
                    start == #[trigger] (list_bytes(vals) + rest) && ascending(vals) && vals.len() <= u64::MAX implies items@ == vals && reader.remaining() == rest by {
                    assert(vals =~= items@);
                    assert(after_count =~= rest);
                }
            }
            return Some(SortedLinkedList { items });
        }
        let mut previous = match variable_load(reader) {
            Some(v) => v,
            None => {
                proof {
                    assert forall|vals: Seq<u64>, rest: Seq<u8>|
                        start == #[trigger] (list_bytes(vals) + rest) implies !(ascending(vals) && vals.len() <= u64::MAX) by {
                        if ascending(vals) && vals.len() <= u64::MAX {
                            lemma_varint_u64_round_trip(vals[0], gaps_bytes(vals) + rest);
                            assert(after_count =~= varint_encode(vals[0] as nat) + (gaps_bytes(vals) + rest));
                        }
                    }
                }
                return None;
            },
        };
        proof {
            lemma_varint_u64_consumed(after_count);
        }
        let ghost first = previous;
        let ghost head = varint_encode(count as nat) + varint_encode(first as nat);
        items.push(previous);
        proof {
            assert(start =~= head + gaps_bytes(items@) + reader.remaining());
            assert forall|vals: Seq<u64>, rest: Seq<u8>|
                start == #[trigger] (list_bytes(vals) + rest) && ascending(vals) && vals.len() <= u64::MAX implies items@ == vals.take(1) && reader.remaining() == gaps_from(vals, 0) + rest by {
                lemma_varint_u64_round_trip(vals[0], gaps_bytes(vals) + rest);
                assert(after_count =~= varint_encode(vals[0] as nat) + (gaps_bytes(vals) + rest));
                lemma_gaps_from(vals, 0);
                assert(vals.skip(0) =~= vals);
                assert(items@ =~= vals.take(1));
            }
        }
        let mut i: u64 = 1;
        while i < count
            invariant
                reader.contents() == old(reader).contents(),
                start == old(reader).remaining(),
                1 <= i <= count,
                items@.len() == i,
                ascending(items@),
                items@.last() == previous,
                start == head + gaps_bytes(items@) + reader.remaining(),
                head == varint_encode(count as nat) + varint_encode(first as nat),
                items@[0] == first,
                forall|vals: Seq<u64>, rest: Seq<u8>|
                    start == #[trigger] (list_bytes(vals) + rest) && ascending(vals) && vals.len() <= u64::MAX ==> count == vals.len() && items@ == vals.take(i as int) && reader.remaining() == gaps_from(vals, i - 1) + rest,
            decreases count - i,
        {
            let ghost before = reader.remaining();
            let gap = match variable_load(reader) {
                Some(g) => g,
                None => {
                    proof {
                        assert forall|vals: Seq<u64>, rest: Seq<u8>|
                            start == #[trigger] (list_bytes(vals) + rest) implies !(ascending(vals) && vals.len() <= u64::MAX) by {
                            if ascending(vals) && vals.len() <= u64::MAX {
                                let g = (vals[i as int] - vals[i - 1]) as u64;
                                assert(vals[i - 1] < vals[i as int]);
                                lemma_varint_u64_round_trip(g, gaps_from(vals, i as int) + rest);
                                assert(before =~= varint_encode(g as nat) + (gaps_from(vals, i as int) + rest));
                            }
                        }
                    }
                    return None;
                },
            };
            proof {
                lemma_varint_u64_consumed(before);
                assert forall|vals: Seq<u64>, rest: Seq<u8>|
                    start == #[trigger] (list_bytes(vals) + rest) && ascending(vals) && vals.len() <= u64::MAX implies gap == vals[i as int] - vals[i - 1] && reader.remaining() == gaps_from(vals, i as int) + rest by {
                    let g = (vals[i as int] - vals[i - 1]) as u64;
                    assert(vals[i - 1] < vals[i as int]);
                    lemma_varint_u64_round_trip(g, gaps_from(vals, i as int) + rest);
                    assert(before =~= varint_encode(g as nat) + (gaps_from(vals, i as int) + rest));
                    assert(vals.take(i as int)[i - 1] == vals[i - 1]);
                }
            }
            if gap == 0 || gap > u64::MAX - previous {
                proof {
                    assert forall|vals: Seq<u64>, rest: Seq<u8>|
                        start == #[trigger] (list_bytes(vals) + rest) implies !(ascending(vals) && vals.len() <= u64::MAX) by {
                        if ascending(vals) && vals.len() <= u64::MAX {
                            assert(vals[i - 1] < vals[i as int]);
                            assert(vals.take(i as int)[i - 1] == vals[i - 1]);
                        }
                    }
                }
                return None;
            }
            let ghost old_items = items@;
            let ghost old_prev = previous;
            previous = previous + gap;
            items.push(previous);
            proof {
                lemma_gaps_push(old_items, previous);
                assert(start =~= head + gaps_bytes(items@) + reader.remaining());
                assert forall|vals: Seq<u64>, rest: Seq<u8>|
                    start == #[trigger] (list_bytes(vals) + rest) && ascending(vals) && vals.len() <= u64::MAX implies items@ == vals.take(i + 1) by {
                    assert(old_items[i - 1] == vals[i - 1]);
                    assert(items@ =~= vals.take(i + 1));
                }
            }
            i = i + 1;
        }
        proof {
            assert(start =~= list_bytes(items@) + reader.remaining());
            assert forall|vals: Seq<u64>, rest: Seq<u8>|
                start == #[trigger] (list_bytes(vals) + rest) && ascending(vals) && vals.len() <= u64::MAX implies items@ == vals && reader.remaining() == rest by {
                assert(vals.take(count as int) =~= vals);
            }
        }
        Some(SortedLinkedList { items })
    }
}

} // verus!
