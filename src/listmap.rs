//! Postings of one term: an ordered map from document id to the evidence
//! gathered in that document, kept as a sorted vector.
use vstd::prelude::*;

verus! {

/// The zones a term was seen in, one bit per zone (zone `i` is bit `i`).
#[derive(Clone, Copy, PartialEq, Eq, Structural, Debug)]
pub struct CommonSegments {
    pub bits: u64,
}

impl CommonSegments {
    pub fn new() -> (r: CommonSegments)
        ensures
            r.bits == 0,
    {
        CommonSegments { bits: 0 }
    }

    /// Marks zone `zone`.
    pub fn set_zone(&mut self, zone: usize)
        requires
            zone < 64,
        ensures
            final(self).bits == old(self).bits | (1u64 << zone as u64),
    {
        self.bits = self.bits | (1u64 << zone as u64);
    }
}

/// What one document holds of one term.
pub ghost struct PostingView {
    pub occurrences: nat,
    pub zones: u64,
}

/// Evidence for a term in one document: how often it occurs, and where.
#[derive(Clone, Copy, Debug)]
pub struct UsageData {
    pub use_count: u64,
    pub segments: CommonSegments,
}

impl View for UsageData {
    type V = PostingView;

    open spec fn view(&self) -> PostingView {
        PostingView { occurrences: self.use_count as nat, zones: self.segments.bits }
    }
}

/// Two postings of the same term and document taken together.
pub open spec fn combine_posting(a: PostingView, b: PostingView) -> PostingView {
    PostingView { occurrences: a.occurrences + b.occurrences, zones: a.zones | b.zones }
}

impl UsageData {
    pub fn new() -> (r: UsageData)
        ensures
            r@ == (PostingView { occurrences: 0, zones: 0 }),
    {
        UsageData { use_count: 0, segments: CommonSegments::new() }
    }

    /// The occurrence count, to be changed in place.
    pub fn use_count_mut(&mut self) -> (r: &mut u64)
        ensures
            *r == old(self).use_count,
            *final(self) == (UsageData { use_count: *final(r), ..*old(self) }),
    {
        &mut self.use_count
    }

    /// The zone mask, to be changed in place.
    pub fn segments_mut(&mut self) -> (r: &mut CommonSegments)
        ensures
            *r == old(self).segments,
            *final(self) == (UsageData { segments: *final(r), ..*old(self) }),
    {
        &mut self.segments
    }

    /// Adds the evidence of `other` to this one.
    pub fn combine(&mut self, other: &UsageData)
        requires
            old(self).use_count + other.use_count <= u64::MAX,
        ensures
            final(self)@ == combine_posting(old(self)@, other@),
    {
        self.use_count = self.use_count + other.use_count;
        self.segments = CommonSegments { bits: self.segments.bits | other.segments.bits };
    }
}

/// Keys strictly ascending.
pub open spec fn sorted_keys(s: Seq<(u64, UsageData)>) -> bool {
    forall|i: int, j: int| 0 <= i < j < s.len() ==> s[i].0 < s[j].0
}

/// The map that a sequence of entries stands for.
pub open spec fn entries_map(s: Seq<(u64, UsageData)>) -> Map<u64, PostingView> {
    Map::new(
        |k: u64| exists|i: int| 0 <= i < s.len() && s[i].0 == k,
        |k: u64| s[choose|i: int| 0 <= i < s.len() && s[i].0 == k].1@,
    )
}

/// Two posting maps taken together: every document of either, with the
/// postings of a document that both hold combined.
pub open spec fn merge_postings(a: Map<u64, PostingView>, b: Map<u64, PostingView>) -> Map<
    u64,
    PostingView,
> {
    Map::new(
        |k: u64| a.contains_key(k) || b.contains_key(k),
        |k: u64|
            if a.contains_key(k) && b.contains_key(k) {
                combine_posting(a[k], b[k])
            } else if a.contains_key(k) {
                a[k]
            } else {
                b[k]
            },
    )
}

/// No document's occurrence counts add up past `u64::MAX`.
pub open spec fn merge_fits(a: Map<u64, PostingView>, b: Map<u64, PostingView>) -> bool {
    forall|k: u64|
        a.contains_key(k) && b.contains_key(k) ==> #[trigger] a[k].occurrences + b[k].occurrences
            <= u64::MAX
}

pub proof fn lemma_entries_map_at(s: Seq<(u64, UsageData)>, i: int)
    requires
        sorted_keys(s),
        0 <= i < s.len(),
    ensures
        entries_map(s).contains_key(s[i].0),
        entries_map(s)[s[i].0] == s[i].1@,
{
    let k = s[i].0;
    assert(exists|j: int| 0 <= j < s.len() && s[j].0 == k);
    let j = choose|j: int| 0 <= j < s.len() && s[j].0 == k;
    assert(j == i);
}

proof fn lemma_entries_map_push(s: Seq<(u64, UsageData)>, x: (u64, UsageData))
    requires
        sorted_keys(s.push(x)),
    ensures
        entries_map(s.push(x)) == entries_map(s).insert(x.0, x.1@),
        !entries_map(s).contains_key(x.0),
{
    let t = s.push(x);
    assert(sorted_keys(s)) by {
        assert forall|a: int, b: int| 0 <= a < b < s.len() implies s[a].0 < s[b].0 by {
            assert(s[a] == t[a] && s[b] == t[b]);
        }
    }
    assert forall|k: u64| #[trigger] entries_map(t).contains_key(k) == entries_map(s).insert(
        x.0,
        x.1@,
    ).contains_key(k) by {
        if k == x.0 {
            assert(t[s.len() as int].0 == k);
        }
        if exists|i: int| 0 <= i < s.len() && s[i].0 == k {
            let i = choose|i: int| 0 <= i < s.len() && s[i].0 == k;
            assert(t[i].0 == k);
        }
        if exists|i: int| 0 <= i < t.len() && t[i].0 == k {
            let i = choose|i: int| 0 <= i < t.len() && t[i].0 == k;
            if i < s.len() {
                assert(s[i].0 == k);
            }
        }
    }
    assert forall|k: u64| #[trigger] entries_map(t).contains_key(k) implies entries_map(t)[k]
        == entries_map(s).insert(x.0, x.1@)[k] by {
        let i = choose|i: int| 0 <= i < t.len() && t[i].0 == k;
        lemma_entries_map_at(t, i);
        if i < s.len() {
            assert(s[i] == t[i]);
            assert(t[i].0 < t[s.len() as int].0);
            lemma_entries_map_at(s, i);
        }
    }
    assert(entries_map(t) =~= entries_map(s).insert(x.0, x.1@));
    if entries_map(s).contains_key(x.0) {
        let i = choose|i: int| 0 <= i < s.len() && s[i].0 == x.0;
        assert(t[i].0 < t[s.len() as int].0);
    }
}

proof fn lemma_entries_map_finite(s: Seq<(u64, UsageData)>)
    requires
        sorted_keys(s),
    ensures
        entries_map(s).dom().finite(),
        entries_map(s).dom().len() == s.len(),
    decreases s.len(),
{
    if s.len() == 0 {
        assert(entries_map(s).dom() =~= Set::empty());
    } else {
        let p = s.drop_last();
        assert(p.push(s.last()) =~= s);
        assert(sorted_keys(p));
        lemma_entries_map_finite(p);
        lemma_entries_map_push(p, s.last());
    }
}

proof fn lemma_take_next(s: Seq<(u64, UsageData)>, i: int)
    requires
        sorted_keys(s),
        0 <= i < s.len(),
    ensures
        sorted_keys(s.take(i)),
        entries_map(s.take(i + 1)) == entries_map(s.take(i)).insert(s[i].0, s[i].1@),
        !entries_map(s.take(i)).contains_key(s[i].0),
        forall|k: u64| #[trigger] entries_map(s.take(i)).contains_key(k) ==> k < s[i].0,
{
    assert(s.take(i).push(s[i]) =~= s.take(i + 1));
    assert(sorted_keys(s.take(i + 1)));
    lemma_entries_map_push(s.take(i), s[i]);
    assert forall|k: u64| #[trigger] entries_map(s.take(i)).contains_key(k) implies k < s[i].0 by {
        let j = choose|j: int| 0 <= j < s.take(i).len() && s.take(i)[j].0 == k;
        assert(s[j].0 == k);
    }
}

proof fn lemma_merge_insert_left(
    a: Map<u64, PostingView>,
    b: Map<u64, PostingView>,
    k: u64,
    v: PostingView,
)
    requires
        !a.contains_key(k),
        !b.contains_key(k),
    ensures
        merge_postings(a.insert(k, v), b) == merge_postings(a, b).insert(k, v),
        merge_postings(b, a.insert(k, v)) == merge_postings(b, a).insert(k, v),
{
    assert(merge_postings(a.insert(k, v), b) =~= merge_postings(a, b).insert(k, v));
    assert(merge_postings(b, a.insert(k, v)) =~= merge_postings(b, a).insert(k, v));
}

proof fn lemma_merge_insert_both(
    a: Map<u64, PostingView>,
    b: Map<u64, PostingView>,
    k: u64,
    va: PostingView,
    vb: PostingView,
)
    requires
        !a.contains_key(k),
        !b.contains_key(k),
    ensures
        merge_postings(a.insert(k, va), b.insert(k, vb)) == merge_postings(a, b).insert(
            k,
            combine_posting(va, vb),
        ),
{
    assert(merge_postings(a.insert(k, va), b.insert(k, vb)) =~= merge_postings(a, b).insert(
        k,
        combine_posting(va, vb),
    ));
}

/// An ordered map from document id to [`UsageData`].
#[derive(Debug)]
pub struct SortedLinkedMap {
    entries: Vec<(u64, UsageData)>,
}

impl View for SortedLinkedMap {
    type V = Map<u64, PostingView>;

    closed spec fn view(&self) -> Map<u64, PostingView> {
        entries_map(self.entries@)
    }
}

impl SortedLinkedMap {
    /// Entries sorted by key, each key once.
    pub closed spec fn wf(&self) -> bool {
        sorted_keys(self.entries@) && self.entries@.len() <= usize::MAX
    }

    /// The entries in ascending order of key.
    pub closed spec fn entries_seq(&self) -> Seq<(u64, UsageData)> {
        self.entries@
    }

    /// The entries are what the map holds, in ascending order of key.
    pub proof fn lemma_entries_seq(&self)
        requires
            self.wf(),
        ensures
            sorted_keys(self.entries_seq()),
            entries_map(self.entries_seq()) == self@,
            self.entries_seq().len() <= usize::MAX,
    {
    }

    pub fn new() -> (r: SortedLinkedMap)
        ensures
            r.wf(),
            r@ == Map::<u64, PostingView>::empty(),
            r.entries_seq() == Seq::<(u64, UsageData)>::empty(),
    {
        let r = SortedLinkedMap { entries: Vec::new() };
        assert(r@ =~= Map::<u64, PostingView>::empty());
        r
    }

    /// How many documents the map holds.
    pub fn len(&self) -> (r: usize)
        requires
            self.wf(),
        ensures
            self@.dom().finite(),
            r == self@.dom().len(),
    {
        proof {
            lemma_entries_map_finite(self.entries@);
        }
        self.entries.len()
    }

    /// Adds `value` under `key`: inserted where the key is new, combined
    /// with what is there otherwise.
    pub fn push(&mut self, key: u64, value: UsageData)
        requires
            old(self).wf(),
            old(self)@.contains_key(key) ==> old(self)@[key].occurrences + value.use_count
                <= u64::MAX,
        ensures
            final(self).wf(),
            final(self)@ == (if old(self)@.contains_key(key) {
                old(self)@.insert(key, combine_posting(old(self)@[key], value@))
            } else {
                old(self)@.insert(key, value@)
            }),
    {
        let ghost s = self.entries@;
        let mut i: usize = 0;
        while i < self.entries.len() && self.entries[i].0 < key
            invariant
                self.entries@ == s,
                sorted_keys(s),
                i <= s.len(),
                forall|j: int| 0 <= j < i ==> s[j].0 < key,
            decreases s.len() - i,
        {
            i = i + 1;
        }
        if i < self.entries.len() && self.entries[i].0 == key {
            let (k, mut u) = self.entries[i];
            proof {
                lemma_entries_map_at(s, i as int);
            }
            u.combine(&value);
            self.entries.set(i, (k, u));
            let ghost t = self.entries@;
            assert(sorted_keys(t));
            assert forall|kk: u64| #[trigger] entries_map(t).contains_key(kk) == entries_map(
                s,
            ).contains_key(kk) by {
                if exists|j: int| 0 <= j < s.len() && s[j].0 == kk {
                    let j = choose|j: int| 0 <= j < s.len() && s[j].0 == kk;
                    assert(t[j].0 == kk);
                }
                if exists|j: int| 0 <= j < t.len() && t[j].0 == kk {
                    let j = choose|j: int| 0 <= j < t.len() && t[j].0 == kk;
                    assert(s[j].0 == kk);
                }
            }
            assert forall|kk: u64| #[trigger] entries_map(t).contains_key(kk) implies entries_map(
                t,
            )[kk] == entries_map(s).insert(key, combine_posting(entries_map(s)[key], value@))[kk] by {
                let j = choose|j: int| 0 <= j < t.len() && t[j].0 == kk;
                lemma_entries_map_at(t, j);
                lemma_entries_map_at(s, j);
            }
            assert(entries_map(t) =~= entries_map(s).insert(
                key,
                combine_posting(entries_map(s)[key], value@),
            ));
        } else {
            self.entries.insert(i, (key, value));
            let _n = self.entries.len();
            let ghost t = self.entries@;
            assert(t =~= s.insert(i as int, (key, value)));
            assert(sorted_keys(t)) by {
                assert forall|a: int, b: int| 0 <= a < b < t.len() implies t[a].0 < t[b].0 by {
                    if b < i {
                    } else if b == i {
                    } else if a < i {
                        assert(t[b] == s[b - 1]);
                    } else if a == i {
                        assert(t[b] == s[b - 1]);
                        assert(s[i as int].0 >= key);
                        if b - 1 > i {
                            assert(s[i as int].0 < s[b - 1].0);
                        }
                    } else {
                        assert(t[b] == s[b - 1]);
                        assert(t[a] == s[a - 1]);
                    }
                }
            }
            proof {
                if entries_map(s).contains_key(key) {
                    let j = choose|j: int| 0 <= j < s.len() && s[j].0 == key;
                    if j < i {
                    } else {
                        assert(s[i as int].0 <= s[j].0);
                    }
                    assert(false);
                }
            }
            assert forall|kk: u64| #[trigger] entries_map(t).contains_key(kk) == entries_map(
                s,
            ).insert(key, value@).contains_key(kk) by {
                if exists|j: int| 0 <= j < s.len() && s[j].0 == kk {
                    let j = choose|j: int| 0 <= j < s.len() && s[j].0 == kk;
                    if j < i {
                        assert(t[j].0 == kk);
                    } else {
                        assert(t[j + 1].0 == kk);
                    }
                }
                if kk == key {
                    assert(t[i as int].0 == kk);
                }
                if exists|j: int| 0 <= j < t.len() && t[j].0 == kk {
                    let j = choose|j: int| 0 <= j < t.len() && t[j].0 == kk;
                    if j < i {
                        assert(s[j].0 == kk);
                    } else if j > i {
                        assert(s[j - 1].0 == kk);
                    }
                }
            }
            assert forall|kk: u64| #[trigger] entries_map(t).contains_key(kk) implies entries_map(
                t,
            )[kk] == entries_map(s).insert(key, value@)[kk] by {
                let j = choose|j: int| 0 <= j < t.len() && t[j].0 == kk;
                lemma_entries_map_at(t, j);
                if j < i {
                    lemma_entries_map_at(s, j);
                } else if j > i {
                    lemma_entries_map_at(s, j - 1);
                }
            }
            assert(entries_map(t) =~= entries_map(s).insert(key, value@));
        }
    }

    /// Folds `oth` into this map: documents of either, with the postings
    /// of a document that both hold combined.
    pub fn or(&mut self, oth: SortedLinkedMap)
        requires
            old(self).wf(),
            oth.wf(),
            merge_fits(old(self)@, oth@),
        ensures
            final(self).wf(),
            final(self)@ == merge_postings(old(self)@, oth@),
    {
        let ghost sa = self.entries@;
        let ghost sb = oth.entries@;
        let mut out: Vec<(u64, UsageData)> = Vec::new();
        let mut i: usize = 0;
        let mut j: usize = 0;
        let alen = self.entries.len();
        let blen = oth.entries.len();
        proof {
            assert(sa.take(0) =~= Seq::<(u64, UsageData)>::empty());
            assert(sb.take(0) =~= Seq::<(u64, UsageData)>::empty());
            assert(entries_map(out@) =~= Map::<u64, PostingView>::empty());
            assert(merge_postings(entries_map(sa.take(0)), entries_map(sb.take(0))) =~= Map::<
                u64,
                PostingView,
            >::empty());
        }
        while i < alen || j < blen
            invariant
                self.entries@ == sa,
                oth.entries@ == sb,
                alen == sa.len(),
                blen == sb.len(),
                sorted_keys(sa),
                sorted_keys(sb),
                merge_fits(entries_map(sa), entries_map(sb)),
                i <= alen,
                j <= blen,
                sorted_keys(out@),
                entries_map(out@) == merge_postings(
                    entries_map(sa.take(i as int)),
                    entries_map(sb.take(j as int)),
                ),
                forall|m: int| 0 <= m < out@.len() && i < alen ==> out@[m].0 < sa[i as int].0,
                forall|m: int| 0 <= m < out@.len() && j < blen ==> out@[m].0 < sb[j as int].0,
            decreases alen + blen - i - j,
        {
            let ghost ma = entries_map(sa.take(i as int));
            let ghost mb = entries_map(sb.take(j as int));
            let ghost before = out@;
            let take_a = j == blen || (i < alen && self.entries[i].0 < oth.entries[j].0);
            let take_b = !take_a && (i == alen || oth.entries[j].0 < self.entries[i].0);
            if take_a {
                let x = self.entries[i];
                proof {
                    lemma_take_next(sa, i as int);
                    if j < blen && mb.contains_key(x.0) {
                        assert(merge_postings(ma, mb).contains_key(x.0));
                        let m = choose|m: int| 0 <= m < before.len() && before[m].0 == x.0;
                    }
                    if j == blen {
                        assert(sb.take(j as int) =~= sb);
                        if mb.contains_key(x.0) {
                            assert(merge_postings(ma, mb).contains_key(x.0));
                            let m = choose|m: int| 0 <= m < before.len() && before[m].0 == x.0;
                        }
                    }
                    lemma_merge_insert_left(ma, mb, x.0, x.1@);
                }
                out.push(x);
                proof {
                    lemma_entries_map_push(before, x);
                }
                i = i + 1;
                proof {
                    assert forall|m: int| 0 <= m < out@.len() && i < alen implies out@[m].0 < sa[i as int].0 by {
                        if m < before.len() {
                            assert(sa[i - 1].0 < sa[i as int].0);
                        }
                    }
                }
            } else if take_b {
                let x = oth.entries[j];
                proof {
                    lemma_take_next(sb, j as int);
                    if i < alen && ma.contains_key(x.0) {
                        assert(merge_postings(ma, mb).contains_key(x.0));
                        let m = choose|m: int| 0 <= m < before.len() && before[m].0 == x.0;
                    }
                    if i == alen {
                        assert(sa.take(i as int) =~= sa);
                        if ma.contains_key(x.0) {
                            assert(merge_postings(ma, mb).contains_key(x.0));
                            let m = choose|m: int| 0 <= m < before.len() && before[m].0 == x.0;
                        }
                    }
                    lemma_merge_insert_left(mb, ma, x.0, x.1@);
                }
                out.push(x);
                proof {
                    lemma_entries_map_push(before, x);
                }
                j = j + 1;
                proof {
                    assert forall|m: int| 0 <= m < out@.len() && j < blen implies out@[m].0 < sb[j as int].0 by {
                        if m < before.len() {
                            assert(sb[j - 1].0 < sb[j as int].0);
                        }
                    }
                }
            } else {
                let (k, mut u) = self.entries[i];
                let y = oth.entries[j];
                proof {
                    lemma_take_next(sa, i as int);
                    lemma_take_next(sb, j as int);
                    lemma_entries_map_at(sa, i as int);
                    lemma_entries_map_at(sb, j as int);
                    assert(y.0 == k);
                    if mb.contains_key(k) {
                        assert(false);
                    }
                    if ma.contains_key(k) {
                        assert(false);
                    }
                    lemma_merge_insert_both(ma, mb, k, u@, y.1@);
                }
                u.combine(&y.1);
                out.push((k, u));
                proof {
                    lemma_entries_map_push(before, (k, u));
                }
                i = i + 1;
                j = j + 1;
                proof {
                    assert forall|m: int| 0 <= m < out@.len() && i < alen implies out@[m].0 < sa[i as int].0 by {
                        if m < before.len() {
                            assert(sa[i - 1].0 < sa[i as int].0);
                        }
                    }
                    assert forall|m: int| 0 <= m < out@.len() && j < blen implies out@[m].0 < sb[j as int].0 by {
                        if m < before.len() {
                            assert(sb[j - 1].0 < sb[j as int].0);
                        }
                    }
                }
            }
        }
        proof {
            assert(sa.take(alen as int) =~= sa);
            assert(sb.take(blen as int) =~= sb);
        }
        let _n = out.len();
        self.entries = out;
    }

    /// Whether folding `oth` into this map keeps every occurrence count
    /// within `u64::MAX`.
    pub fn or_fits(&self, oth: &SortedLinkedMap) -> (r: bool)
        requires
            self.wf(),
            oth.wf(),
        ensures
            r == merge_fits(self@, oth@),
    {
        let a = &self.entries;
        let b = &oth.entries;
        let mut i: usize = 0;
        let mut j: usize = 0;
        while i < a.len() && j < b.len()
            invariant
                a@ == self.entries@,
                b@ == oth.entries@,
                sorted_keys(a@),
                sorted_keys(b@),
                i <= a@.len(),
                j <= b@.len(),
                forall|m: int, q: int|
                    0 <= m < i && 0 <= q < b@.len() && a@[m].0 == b@[q].0 ==> a@[m].1.use_count
                        + b@[q].1.use_count <= u64::MAX,
                forall|m: int, q: int|
                    0 <= m < a@.len() && 0 <= q < j && a@[m].0 == b@[q].0 ==> a@[m].1.use_count
                        + b@[q].1.use_count <= u64::MAX,
            decreases a@.len() + b@.len() - i - j,
        {
            if a[i].0 < b[j].0 {
                assert forall|q: int| 0 <= q < b@.len() && a@[i as int].0 == b@[q].0 implies a@[i as int].1.use_count
                    + b@[q].1.use_count <= u64::MAX by {
                    if q > j {
                        assert(b@[j as int].0 < b@[q].0);
                    }
                }
                i = i + 1;
            } else if b[j].0 < a[i].0 {
                assert forall|m: int| 0 <= m < a@.len() && a@[m].0 == b@[j as int].0 implies a@[m].1.use_count
                    + b@[j as int].1.use_count <= u64::MAX by {
                    if m > i {
                        assert(a@[i as int].0 < a@[m].0);
                    }
                }
                j = j + 1;
            } else {
                if a[i].1.use_count > u64::MAX - b[j].1.use_count {
                    proof {
                        lemma_entries_map_at(a@, i as int);
                        lemma_entries_map_at(b@, j as int);
                        let k = a@[i as int].0;
                        assert(a@ == self.entries@);
                        assert(b@ == oth.entries@);
                        assert(b@[j as int].0 == k);
                        assert(self@.contains_key(k) && oth@.contains_key(k));
                        assert(self@[k].occurrences + oth@[k].occurrences > u64::MAX);
                    }
                    return false;
                }
                assert forall|q: int| 0 <= q < b@.len() && a@[i as int].0 == b@[q].0 implies a@[i as int].1.use_count
                    + b@[q].1.use_count <= u64::MAX by {
                    if q > j {
                        assert(b@[j as int].0 < b@[q].0);
                    } else if q < j {
                        assert(b@[q].0 < b@[j as int].0);
                    }
                }
                assert forall|m: int| 0 <= m < a@.len() && a@[m].0 == b@[j as int].0 implies a@[m].1.use_count
                    + b@[j as int].1.use_count <= u64::MAX by {
                    if m > i {
                        assert(a@[i as int].0 < a@[m].0);
                    } else if m < i {
                        assert(a@[m].0 < a@[i as int].0);
                    }
                }
                i = i + 1;
                j = j + 1;
            }
        }
        proof {
            assert forall|k: u64|
                self@.contains_key(k) && oth@.contains_key(k) implies #[trigger] self@[k].occurrences
                + oth@[k].occurrences <= u64::MAX by {
                let m = choose|m: int| 0 <= m < a@.len() && a@[m].0 == k;
                let q = choose|q: int| 0 <= q < b@.len() && b@[q].0 == k;
                lemma_entries_map_at(a@, m);
                lemma_entries_map_at(b@, q);
            }
        }
        true
    }

    /// The entries in ascending order of key.
    pub fn iter(self) -> (r: Vec<(u64, UsageData)>)
        requires
            self.wf(),
        ensures
            sorted_keys(r@),
            entries_map(r@) == self@,
    {
        self.entries
    }

    /// The entries in ascending order of key, without giving up the map.
    pub fn entries(&self) -> (r: &Vec<(u64, UsageData)>)
        requires
            self.wf(),
        ensures
            sorted_keys(r@),
            entries_map(r@) == self@,
            r@ == self.entries_seq(),
    {
        &self.entries
    }

    /// The value under `index`, if there is one.
    pub fn element_at(&self, index: u64) -> (r: Option<&UsageData>)
        requires
            self.wf(),
        ensures
            r is Some <==> self@.contains_key(index),
            r is Some ==> r->0@ == self@[index],
    {
        let mut i: usize = 0;
        while i < self.entries.len()
            invariant
                sorted_keys(self.entries@),
                i <= self.entries@.len(),
                forall|j: int| 0 <= j < i ==> self.entries@[j].0 < index,
            decreases self.entries@.len() - i,
        {
            if self.entries[i].0 == index {
                proof {
                    lemma_entries_map_at(self.entries@, i as int);
                }
                return Some(&self.entries[i].1);
            } else if self.entries[i].0 > index {
                proof {
                    if self@.contains_key(index) {
                        let j = choose|j: int| 0 <= j < self.entries@.len() && self.entries@[j].0
                            == index;
                        if j > i {
                            assert(self.entries@[i as int].0 < self.entries@[j].0);
                        }
                    }
                }
                return None;
            }
            i = i + 1;
        }
        None
    }

    /// Builds a map from entries sorted by key.
    pub fn from_sorted(entries: Vec<(u64, UsageData)>) -> (r: SortedLinkedMap)
        requires
            sorted_keys(entries@),
        ensures
            r.wf(),
            r@ == entries_map(entries@),
            r.entries_seq() == entries@,
    {
        let _n = entries.len();
        SortedLinkedMap { entries }
    }
}

} // verus!
