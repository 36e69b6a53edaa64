//! The bounded in-memory accumulator that turns words into terms with
//! postings, and spills them as sorted runs.
use crate::indexed::{term_bytes, string_bytes, IndexedTerm, Term, TermView, empty_term};
use crate::lexical::{bytes_eq, bytes_lt, lemma_lex_total, lemma_lex_trans, lex_lt};
use crate::listmap::{entries_map, combine_posting, CommonSegments, PostingView, SortedLinkedMap, UsageData};
use crate::reader::{ReaderResult, ZoneRepeatedReader};
use crate::rep_reader::{token, RepeatedXmlReader, Tok};
use crate::codec::{mask_fits, postings_ok};
use crate::run::{entry_of, run_holds, IndexMergeSaver, RunEntry};
use crate::bytes::U8Provider;
use vstd::prelude::*;

verus! {

/// Why `parse` stopped.
#[derive(PartialEq, Eq, Structural, Clone, Copy, Debug)]
pub enum ParserCallback {
    /// The accumulator holds as many terms as it may.
    Full,
    /// The input has ended.
    FileEnd,
    /// The element of the current zone has ended; the next zone is expected.
    ZoneEnd,
    /// The input is not well-formed UTF-8.
    Malformed,
}

/// What a worker does after `parse` returned.
#[derive(PartialEq, Eq, Structural, Clone, Copy, Debug)]
pub enum WorkerAction {
    /// Spill the accumulator as a run and go on with the same document.
    Spill,
    /// Go on with the same file under a new document id.
    NextDocument,
    /// Take the next input file.
    NextFile,
    /// Give up: the input is malformed.
    Fail,
}

/// The worker's decision for `callback`: a full accumulator is spilled, the
/// end of a zone element starts a new document, the end of the input
/// moves on to the next file.
pub fn next_action(callback: ParserCallback) -> (r: WorkerAction)
    ensures
        callback == ParserCallback::Full ==> r == WorkerAction::Spill,
        callback == ParserCallback::ZoneEnd ==> r == WorkerAction::NextDocument,
        callback == ParserCallback::FileEnd ==> r == WorkerAction::NextFile,
        callback == ParserCallback::Malformed ==> r == WorkerAction::Fail,
{
    match callback {
        ParserCallback::Full => WorkerAction::Spill,
        ParserCallback::ZoneEnd => WorkerAction::NextDocument,
        ParserCallback::FileEnd => WorkerAction::NextFile,
        ParserCallback::Malformed => WorkerAction::Fail,
    }
}

/// Terms strictly ascending by their bytes.
pub open spec fn terms_sorted(s: Seq<TermView>) -> bool {
    forall|i: int, j: int|
        0 <= i < j < s.len() ==> lex_lt(#[trigger] term_bytes(s[i].term), #[trigger] term_bytes(s[j].term))
}

/// The bit of zone `zone`.
pub open spec fn zone_bit(zone: nat) -> u64 {
    (1u64 << zone as u64)
}

/// One more occurrence in document `doc` within zone `zone`; the count
/// stays at `u64::MAX` once it is there.
pub open spec fn bump_postings(p: Map<u64, PostingView>, doc: u64, zone: nat) -> Map<u64, PostingView> {
    if p.contains_key(doc) {
        let old = p[doc];
        let inc: nat = if old.occurrences >= u64::MAX { 0 } else { 1 };
        p.insert(doc, combine_posting(old, PostingView { occurrences: inc, zones: zone_bit(zone) }))
    } else {
        p.insert(doc, PostingView { occurrences: 1, zones: zone_bit(zone) })
    }
}

/// Every zone mask of the postings `p` fits in `n` bytes.
pub open spec fn masks_fit(p: Map<u64, PostingView>, n: nat) -> bool {
    forall|d: u64| p.contains_key(d) ==> mask_fits(#[trigger] p[d].zones, n)
}

proof fn lemma_bump_fits(p: Map<u64, PostingView>, doc: u64, zone: nat, n: nat)
    requires
        masks_fit(p, n),
        zone < 8 * n,
        zone < 64,
        1 <= n <= 8,
    ensures
        masks_fit(bump_postings(p, doc, zone), n),
{
    let z = zone as u64;
    let bit = zone_bit(zone);
    if n < 8 {
        let s: u64 = (8 * n) as u64;
        assert(bit < (1u64 << s)) by (bit_vector)
            requires
                bit == (1u64 << z),
                z < s,
                s < 64,
        ;
    }
    assert(mask_fits(bit, n));
    if p.contains_key(doc) {
        let a = p[doc].zones;
        if n < 8 {
            let s: u64 = (8 * n) as u64;
            assert(a < (1u64 << s));
            assert((a | bit) < (1u64 << s)) by (bit_vector)
                requires
                    a < (1u64 << s),
                    bit < (1u64 << s),
                    s < 64,
            ;
        }
        assert(mask_fits(a | bit, n));
    }
    let q = bump_postings(p, doc, zone);
    assert forall|d: u64| q.contains_key(d) implies mask_fits(#[trigger] q[d].zones, n) by {
        if d != doc {
            assert(q[d] == p[d]);
        }
    }
}

/// A term whose zone masks fit is written as a posting list that reads back.
proof fn lemma_term_postings_ok(t: IndexedTerm, n: nat)
    requires
        t.wf(),
        masks_fit(t@.postings, n),
    ensures
        postings_ok(t.indexes.entries_seq(), n),
{
    t.indexes.lemma_entries_seq();
    let e = t.indexes.entries_seq();
    assert forall|i: int| 0 <= i < e.len() implies mask_fits(#[trigger] e[i].1.segments.bits, n) by {
        crate::listmap::lemma_entries_map_at(e, i);
        let d = e[i].0;
        assert(t@.postings == entries_map(e));
        assert(t@.postings.contains_key(d));
        assert(t@.postings[d] == e[i].1@);
        assert(mask_fits(t@.postings[d].zones, n));
    }
}

/// The record of a term after one more occurrence in `doc` within `zone`;
/// the total stays at `u64::MAX` once it is there.
pub open spec fn bump_term(t: TermView, doc: u64, zone: nat) -> TermView {
    TermView {
        term: t.term,
        use_count: if t.use_count >= u64::MAX { t.use_count } else { t.use_count + 1 },
        postings: bump_postings(t.postings, doc, zone),
    }
}

/// How many terms of `s` come before `w` in byte order.
pub open spec fn count_below(s: Seq<TermView>, w: Seq<char>) -> nat
    decreases s.len(),
{
    if s.len() == 0 {
        0
    } else {
        count_below(s.drop_last(), w) + if lex_lt(term_bytes(s.last().term), term_bytes(w)) {
            1nat
        } else {
            0nat
        }
    }
}

/// The terms `s` after one more occurrence of `w` in document `doc` within
/// zone `zone`: its record bumped, or a new record put in its place in
/// byte order.
pub open spec fn add_word_spec(s: Seq<TermView>, w: Seq<char>, doc: u64, zone: nat) -> Seq<TermView> {
    if exists|i: int| 0 <= i < s.len() && s[i].term == w {
        let i = choose|i: int| 0 <= i < s.len() && s[i].term == w;
        s.update(i, bump_term(s[i], doc, zone))
    } else {
        s.insert(count_below(s, w) as int, bump_term(empty_term(w), doc, zone))
    }
}

proof fn lemma_count_below(s: Seq<TermView>, w: Seq<char>, i: int)
    requires
        0 <= i <= s.len(),
        forall|j: int| 0 <= j < s.len() ==> (lex_lt(term_bytes(#[trigger] s[j].term), term_bytes(w)) <==> j < i),
    ensures
        count_below(s, w) == i,
    decreases s.len(),
{
    if s.len() > 0 {
        let p = s.drop_last();
        assert(s.last() == s[s.len() - 1]);
        if i == s.len() {
            assert forall|j: int| 0 <= j < p.len() implies (lex_lt(term_bytes(#[trigger] p[j].term), term_bytes(w)) <==> j < i - 1) by {
                assert(p[j] == s[j]);
            }
            lemma_count_below(p, w, i - 1);
        } else {
            assert forall|j: int| 0 <= j < p.len() implies (lex_lt(term_bytes(#[trigger] p[j].term), term_bytes(w)) <==> j < i) by {
                assert(p[j] == s[j]);
            }
            lemma_count_below(p, w, i);
        }
    }
}

/// What `parse` does, from the terms held and the tokenizer's state: it
/// stops `Full` once `cap` terms are held; otherwise it takes the next
/// token, counts a word and goes on, and stops on the end of the zone's
/// element (`ZoneEnd`), the end of the input (`FileEnd`) or malformed bytes.
/// Gives the outcome, the terms, and the tokenizer's state.
pub open spec fn parse_spec(
    terms: Seq<TermView>,
    s: Seq<u8>,
    pending: Option<char>,
    inside: bool,
    z: Seq<char>,
    doc: u64,
    zone: nat,
    cap: nat,
    fuel: nat,
) -> (ParserCallback, Seq<TermView>, Seq<u8>, Option<char>, bool)
    decreases fuel,
{
    if terms.len() >= cap {
        (ParserCallback::Full, terms, s, pending, inside)
    } else if fuel == 0 {
        (ParserCallback::FileEnd, terms, s, pending, inside)
    } else {
        let (t, s2, p2, i2) = token(s, pending, inside, z);
        match t {
            Tok::Word(w) => parse_spec(add_word_spec(terms, w, doc, zone), s2, p2, i2, z, doc, zone, cap, (fuel - 1) as nat),
            Tok::AttributeEnd => (ParserCallback::ZoneEnd, terms, s2, p2, i2),
            Tok::End => (ParserCallback::FileEnd, terms, s2, p2, i2),
            Tok::Malformed => (ParserCallback::Malformed, terms, s2, p2, i2),
        }
    }
}

/// Something that turns the words of a tokenizer into terms and spills
/// them as sorted runs.
pub trait Parser {
    /// The accumulator can take more words.
    spec fn ready(&self) -> bool;

    /// The terms held, in ascending order.
    spec fn held(&self) -> Seq<TermView>;

    /// The terms held, as a run records them.
    spec fn held_entries(&self) -> Seq<RunEntry>;

    /// How many terms it holds before it asks to be spilled.
    spec fn limit(&self) -> nat;

    /// The bytes of a zone mask.
    spec fn mask_width(&self) -> nat;

    /// Takes words for document `ind` as `parse_spec` says.
    fn parse(&mut self, reader: &mut RepeatedXmlReader, ind: usize) -> (r: ParserCallback)
        requires
            old(self).ready(),
            old(reader).wf(),
            old(reader).zone_count() <= 64,
            old(reader).zone_count() <= 8 * old(self).mask_width(),
        ensures
            final(self).ready(),
            final(reader).wf(),
            ({
                let res = parse_spec(
                    old(self).held(),
                    old(reader).unread(),
                    old(reader).pending(),
                    old(reader).inside(),
                    old(reader).zone_name(),
                    ind as u64,
                    old(reader).zone_index(),
                    old(self).limit(),
                    old(reader).progress() + 1,
                );
                r == res.0 && final(self).held() == res.1
            }),
    ;

    /// Writes the terms held as a sorted run and empties the accumulator.
    fn flush_to(&mut self) -> (r: (Vec<u8>, Vec<u8>, Vec<u8>))
        requires
            old(self).ready(),
        ensures
            final(self).ready(),
            final(self).held().len() == 0,
            run_holds(r.0@, r.1@, r.2@, old(self).held_entries(), old(self).mask_width()),
    ;
}

impl Parser for IndexParser {
    closed spec fn ready(&self) -> bool {
        self.wf()
    }

    closed spec fn held(&self) -> Seq<TermView> {
        self.terms()
    }

    closed spec fn held_entries(&self) -> Seq<RunEntry> {
        self.run_entries()
    }

    closed spec fn limit(&self) -> nat {
        self.capacity()
    }

    closed spec fn mask_width(&self) -> nat {
        self.mask_size()
    }

    fn parse(&mut self, reader: &mut RepeatedXmlReader, ind: usize) -> (r: ParserCallback) {
        IndexParser::parse(self, reader, ind)
    }

    fn flush_to(&mut self) -> (r: (Vec<u8>, Vec<u8>, Vec<u8>)) {
        IndexParser::flush_to(self)
    }
}

/// The accumulator: terms in ascending order, up to a capacity.
pub struct IndexParser {
    b_tree: Vec<IndexedTerm>,
    tree_max_size: usize,
    lexical_max_size: u8,
    mask_len: usize,
}

impl IndexParser {
    pub closed spec fn wf(&self) -> bool {
        &&& 1 <= self.lexical_max_size
        &&& 1 <= self.mask_len <= 8
        &&& forall|i: int| 0 <= i < self.b_tree@.len() ==> #[trigger] self.b_tree@[i].wf()
        &&& terms_sorted(self.terms())
        &&& forall|i: int| 0 <= i < self.terms().len() ==> masks_fit(#[trigger] self.terms()[i].postings, self.mask_len as nat)
    }

    /// The terms held, in ascending order.
    pub closed spec fn terms(&self) -> Seq<TermView> {
        self.b_tree@.map_values(|t: IndexedTerm| t@)
    }

    /// The terms held, as a run records them.
    pub closed spec fn run_entries(&self) -> Seq<RunEntry> {
        self.b_tree@.map_values(|t: IndexedTerm| entry_of(t))
    }

    /// The bytes of a zone mask.
    pub closed spec fn mask_size(&self) -> nat {
        self.mask_len as nat
    }

    /// How many terms a front-coded block of its runs holds at most.
    pub closed spec fn block_size(&self) -> nat {
        self.lexical_max_size as nat
    }

    /// How many terms it may hold before it asks to be spilled.
    pub closed spec fn capacity(&self) -> nat {
        self.tree_max_size as nat
    }

    /// An empty accumulator for up to `tree_max_size` terms, spilling in
    /// blocks of `lexical_max_size` terms, for `zones` zones.
    pub fn new(tree_max_size: usize, lexical_max_size: u8, zones: usize) -> (r: IndexParser)
        requires
            1 <= lexical_max_size,
            1 <= zones <= 64,
        ensures
            r.wf(),
            r.terms() == Seq::<TermView>::empty(),
            r.capacity() == tree_max_size,
            r.block_size() == lexical_max_size,
            r.mask_size() == (zones + 7) / 8,
            zones <= 8 * r.mask_size(),
    {
        let r = IndexParser {
            b_tree: Vec::new(),
            tree_max_size,
            lexical_max_size,
            mask_len: (zones + 7) / 8,
        };
        assert(r.terms() =~= Seq::<TermView>::empty());
        r
    }

    /// How many terms are held.
    pub fn len(&self) -> (r: usize)
        ensures
            r == self.terms().len(),
    {
        self.b_tree.len()
    }

    /// Counts one occurrence of `word` in document `doc` within zone `zone`.
    pub fn add_word(&mut self, word: String, doc: u64, zone: usize)
        requires
            old(self).wf(),
            zone < 64,
            zone < 8 * old(self).mask_size(),
        ensures
            final(self).wf(),
            final(self).capacity() == old(self).capacity(),
            (exists|i: int| 0 <= i < old(self).terms().len() && old(self).terms()[i].term == word@)
                ==> final(self).terms() == old(self).terms().update(
                choose|i: int| 0 <= i < old(self).terms().len() && old(self).terms()[i].term == word@,
                bump_term(
                    old(self).terms()[choose|i: int|
                        0 <= i < old(self).terms().len() && old(self).terms()[i].term == word@],
                    doc,
                    zone as nat,
                ),
            ),
            final(self).terms() == add_word_spec(old(self).terms(), word@, doc, zone as nat),
            old(self).terms().len() <= final(self).terms().len() <= old(self).terms().len() + 1,
            final(self).mask_size() == old(self).mask_size(),
    {
        let ghost s = self.terms();
        let wb = string_bytes(&word);
        let mut i: usize = 0;
        while i < self.b_tree.len()
            invariant
                self.terms() == s,
                *old(self) == *self,
                i <= s.len(),
                s.len() == self.b_tree@.len(),
                forall|j: int| 0 <= j < i ==> lex_lt(term_bytes(s[j].term), term_bytes(word@)),
                wb@ == term_bytes(word@),
            ensures
                i <= s.len(),
                forall|j: int| 0 <= j < i ==> lex_lt(term_bytes(s[j].term), term_bytes(word@)),
                i < s.len() ==> !lex_lt(term_bytes(s[i as int].term), term_bytes(word@)),
            decreases s.len() - i,
        {
            proof {
                assert(s[i as int] == self.b_tree@[i as int]@);
            }
            if !bytes_lt(string_bytes(&self.b_tree[i].term), wb) {
                break;
            }
            i = i + 1;
        }
        let found = i < self.b_tree.len() && bytes_eq(string_bytes(&self.b_tree[i].term), wb);
        let ghost w = term_bytes(word@);
        proof {
            if i < s.len() {
                assert(s[i as int] == self.b_tree@[i as int]@);
            }
        }
        if found {
            let mut t = self.b_tree.remove(i);
            assert(t@ == s[i as int]);
            assert(old(self).b_tree@[i as int].wf());
            self.bump(&mut t, doc, zone);
            self.b_tree.insert(i, t);
            proof {
                assert(self.terms() =~= s.update(i as int, bump_term(s[i as int], doc, zone as nat)));
                lemma_bump_fits(s[i as int].postings, doc, zone as nat, self.mask_len as nat);
                assert forall|q: int| 0 <= q < self.terms().len() implies masks_fit(#[trigger] self.terms()[q].postings, self.mask_len as nat) by {
                    if q != i {
                        assert(self.terms()[q] == s[q]);
                    }
                }
                vstd::utf8::encode_utf8_decode_utf8(s[i as int].term);
                vstd::utf8::encode_utf8_decode_utf8(word@);
                assert(s[i as int].term == word@);
                let k = choose|k: int| 0 <= k < s.len() && s[k].term == word@;
                if k != i {
                    if k < i {
                        assert(lex_lt(term_bytes(s[k].term), term_bytes(s[i as int].term)));
                    } else {
                        assert(lex_lt(term_bytes(s[i as int].term), term_bytes(s[k].term)));
                    }
                    lemma_lex_total(w, w);
                }
                assert forall|j: int| 0 <= j < self.b_tree@.len() implies #[trigger] self.b_tree@[j].wf() by {
                    if j != i {
                        assert(self.b_tree@[j] == old(self).b_tree@[j]);
                    }
                }
                assert(terms_sorted(self.terms()));
            }
        } else {
            let mut t = IndexedTerm::new(word);
            self.bump(&mut t, doc, zone);
            self.b_tree.insert(i, t);
            proof {
                let nt = bump_term(empty_term(word@), doc, zone as nat);
                assert(self.terms() =~= s.insert(i as int, nt));
                assert(masks_fit(Map::<u64, PostingView>::empty(), self.mask_len as nat));
                lemma_bump_fits(Map::<u64, PostingView>::empty(), doc, zone as nat, self.mask_len as nat);
                assert forall|q: int| 0 <= q < self.terms().len() implies masks_fit(#[trigger] self.terms()[q].postings, self.mask_len as nat) by {
                    if q < i {
                        assert(self.terms()[q] == s[q]);
                    } else if q > i {
                        assert(self.terms()[q] == s[q - 1]);
                    }
                }
                assert forall|j: int| 0 <= j < s.len() implies (lex_lt(term_bytes(#[trigger] s[j].term), w) <==> j < i) by {
                    if j >= i {
                        if i < s.len() {
                            lemma_lex_total(term_bytes(s[i as int].term), w);
                        }
                        if j > i {
                            lemma_lex_trans(w, term_bytes(s[i as int].term), term_bytes(s[j].term));
                        }
                        lemma_lex_total(term_bytes(s[j].term), w);
                    }
                }
                lemma_count_below(s, word@, i as int);
                if i < s.len() {
                    lemma_lex_total(term_bytes(s[i as int].term), w);
                    assert(term_bytes(s[i as int].term) != w);
                    assert(lex_lt(w, term_bytes(s[i as int].term)));
                }
                assert forall|k: int| i <= k < s.len() implies lex_lt(w, #[trigger] term_bytes(s[k].term)) by {
                    if k > i {
                        lemma_lex_trans(w, term_bytes(s[i as int].term), term_bytes(s[k].term));
                    }
                }
                assert forall|k: int| 0 <= k < s.len() implies s[k].term != word@ by {
                    lemma_lex_total(w, w);
                    if k < i {
                        assert(lex_lt(term_bytes(s[k].term), w));
                    } else {
                        assert(lex_lt(w, term_bytes(s[k].term)));
                    }
                }
                let ns = self.terms();
                assert forall|a: int, b: int| 0 <= a < b < ns.len() implies lex_lt(
                    #[trigger] term_bytes(ns[a].term),
                    #[trigger] term_bytes(ns[b].term),
                ) by {
                    if b < i {
                    } else if b == i {
                        assert(ns[a] == s[a]);
                    } else if a < i {
                        assert(ns[a] == s[a]);
                        assert(ns[b] == s[b - 1]);
                    } else if a == i {
                        assert(ns[b] == s[b - 1]);
                    } else {
                        assert(ns[a] == s[a - 1]);
                        assert(ns[b] == s[b - 1]);
                    }
                }
                assert forall|j: int| 0 <= j < self.b_tree@.len() implies #[trigger] self.b_tree@[j].wf() by {
                    if j < i {
                        assert(self.b_tree@[j] == old(self).b_tree@[j]);
                    } else if j > i {
                        assert(self.b_tree@[j] == old(self).b_tree@[j - 1]);
                    }
                }
            }
        }
    }

    /// Takes words from `reader` for document `ind` until the input ends,
    /// the element of the current zone ends, or the accumulator is full.
    /// Each word is counted in the zone the reader expects: the outcome and
    /// the terms after it are those of `parse_spec` over the tokens that
    /// `token` gives.
    pub fn parse(&mut self, reader: &mut RepeatedXmlReader, ind: usize) -> (r: ParserCallback)
        requires
            old(self).wf(),
            old(reader).wf(),
            old(reader).zone_count() <= 64,
            old(reader).zone_count() <= 8 * old(self).mask_size(),
        ensures
            final(self).wf(),
            final(reader).wf(),
            final(self).capacity() == old(self).capacity(),
            final(reader).zones() == old(reader).zones(),
            final(reader).zone_count() == old(reader).zone_count(),
            ({
                let res = parse_spec(
                    old(self).terms(),
                    old(reader).unread(),
                    old(reader).pending(),
                    old(reader).inside(),
                    old(reader).zone_name(),
                    ind as u64,
                    old(reader).zone_index(),
                    old(self).capacity(),
                    old(reader).progress() + 1,
                );
                &&& r == res.0
                &&& final(self).terms() == res.1
                &&& (r == ParserCallback::Full || r == ParserCallback::ZoneEnd) ==> final(reader).unread()
                    == res.2 && final(reader).pending() == res.3 && final(reader).inside() == res.4
            }),
            r == ParserCallback::Full ==> final(self).terms().len() >= final(self).capacity(),
            r == ParserCallback::Full && old(self).terms().len() < old(self).capacity() ==> final(self).terms().len() == final(self).capacity(),
            old(self).terms().len() < old(self).capacity() ==> final(self).terms().len() <= final(self).capacity(),
            r == ParserCallback::ZoneEnd ==> final(reader).zone_index() == crate::reader::next_zone(
                old(reader).zone_index(),
                old(reader).zone_count(),
            ),
            r != ParserCallback::ZoneEnd ==> final(reader).zone_index() == old(reader).zone_index(),
            old(self).terms().len() <= final(self).terms().len(),
    {
        let ghost goal = parse_spec(
            self.terms(),
            reader.unread(),
            reader.pending(),
            reader.inside(),
            reader.zone_name(),
            ind as u64,
            reader.zone_index(),
            self.capacity(),
            reader.progress() + 1,
        );
        let ghost z = reader.zone_name();
        let ghost mut f: nat = reader.progress() + 1;
        while self.b_tree.len() < self.tree_max_size
            invariant
                self.wf(),
                reader.wf(),
                self.capacity() == old(self).capacity(),
                reader.zones() == old(reader).zones(),
                reader.zone_count() == old(reader).zone_count(),
                reader.zone_count() <= 64,
                reader.zone_count() <= 8 * self.mask_size(),
                self.mask_size() == old(self).mask_size(),
                reader.zone_index() == old(reader).zone_index(),
                reader.zone_name() == z,
                z == old(reader).zone_name(),
                old(self).terms().len() <= self.terms().len(),
                old(self).terms().len() < old(self).capacity() ==> self.terms().len() <= self.capacity(),
                f >= reader.progress() + 1,
                goal == parse_spec(
                    old(self).terms(),
                    old(reader).unread(),
                    old(reader).pending(),
                    old(reader).inside(),
                    old(reader).zone_name(),
                    ind as u64,
                    old(reader).zone_index(),
                    old(self).capacity(),
                    old(reader).progress() + 1,
                ),
                goal == parse_spec(
                    self.terms(),
                    reader.unread(),
                    reader.pending(),
                    reader.inside(),
                    z,
                    ind as u64,
                    reader.zone_index(),
                    self.capacity(),
                    f,
                ),
            decreases reader.progress(),
        {
            match reader.next_word() {
                None => {
                    return ParserCallback::FileEnd;
                },
                Some(ReaderResult::Word(w)) => {
                    let zone = reader.zone_position();
                    proof {
                        reader.lemma_wf();
                    }
                    self.add_word(w, ind as u64, zone);
                    proof {
                        f = (f - 1) as nat;
                    }
                },
                Some(ReaderResult::Malformed) => {
                    return ParserCallback::Malformed;
                },
                Some(ReaderResult::AttributeEnd) => {
                    reader.advance_zone();
                    return ParserCallback::ZoneEnd;
                },
            }
        }
        ParserCallback::Full
    }

    /// Writes the terms held as a sorted run and empties the accumulator;
    /// gives the dictionary, lexical and index parts.
    pub fn flush_to(&mut self) -> (r: (Vec<u8>, Vec<u8>, Vec<u8>))
        requires
            old(self).wf(),
        ensures
            final(self).wf(),
            final(self).terms().len() == 0,
            final(self).capacity() == old(self).capacity(),
            r.0@.len() == 8 + 25 * old(self).terms().len(),
            r.0@.take(8) == crate::bytes::be_bytes(old(self).terms().len() as u64),
            run_holds(r.0@, r.1@, r.2@, old(self).run_entries(), old(self).mask_size()),
            forall|i: int|
                0 <= i < old(self).run_entries().len() ==> postings_ok(
                    #[trigger] old(self).run_entries()[i].postings,
                    old(self).mask_size(),
                ),
    {
        let tree = self.b_tree.split_off(0);
        let ghost s = old(self).terms();
        let ghost bt = old(self).b_tree@;
        assert(tree@ =~= old(self).b_tree@);
        let mut saver = IndexMergeSaver::new(self.lexical_max_size, self.mask_len);
        let n = tree.len();
        let mut tree = tree;
        let mut rev: Vec<IndexedTerm> = Vec::new();
        while tree.len() > 0
            invariant
                n == s.len(),
                tree@.len() + rev@.len() == n,
                forall|j: int| 0 <= j < tree@.len() ==> #[trigger] tree@[j]@ == s[j] && tree@[j].wf() && tree@[j] == bt[j],
                forall|j: int| 0 <= j < rev@.len() ==> #[trigger] rev@[j]@ == s[n - 1 - j] && rev@[j].wf() && rev@[j] == bt[n - 1 - j],
                bt.len() == n,
                forall|j: int| 0 <= j < n ==> #[trigger] bt[j]@ == s[j],
            decreases tree@.len(),
        {
            let ghost k = tree@.len() - 1;
            assert(tree@[k]@ == s[k] && tree@[k].wf() && tree@[k] == bt[k]);
            let t = tree.pop().unwrap();
            rev.push(t);
        }
        let mut i: usize = 0;
        while i < n
            invariant
                n == s.len(),
                i <= n,
                rev@.len() == n - i,
                forall|j: int| 0 <= j < rev@.len() ==> #[trigger] rev@[j]@ == s[n - 1 - j] && rev@[j].wf() && rev@[j] == bt[n - 1 - j],
                bt.len() == n,
                terms_sorted(s),
                saver.wf(),
                saver.mask_size() == self.mask_len,
                self.mask_len == old(self).mask_len,
                saver.pushed_entries() == bt.take(i as int).map_values(|t: IndexedTerm| entry_of(t)),
                saver.pushed() == i,
                i > 0 ==> saver.last_pushed() == Some(term_bytes(s[i - 1].term)),
                i == 0 ==> saver.last_pushed() is None,
            decreases n - i,
        {
            let ghost k = rev@.len() - 1;
            let ghost rev0 = rev@;
            assert(0 <= k < rev@.len());
            assert(rev@[k]@ == s[n - 1 - k]);
            assert(rev@[k].wf());
            assert(n - 1 - k == i);
            if i > 0 {
                assert(lex_lt(term_bytes(s[i - 1].term), term_bytes(s[i as int].term)));
            }
            assert(rev@[k] == bt[i as int]);
            let t = rev.pop().unwrap();
            assert(rev@ =~= rev0.drop_last());
            assert forall|j: int| 0 <= j < rev@.len() implies #[trigger] rev@[j]@ == s[n - 1 - j] && rev@[j].wf() && rev@[j] == bt[n - 1 - j] by {
                assert(rev@[j] == rev0[j]);
                assert(rev0[j]@ == s[n - 1 - j]);
            }
            saver.push(t);
            i = i + 1;
            assert(saver.pushed_entries() =~= bt.take(i as int).map_values(|t: IndexedTerm| entry_of(t)));
        }
        proof {
            assert(bt.take(n as int) =~= bt);
            assert(saver.pushed_entries() =~= old(self).run_entries());
        }
        let r = saver.finish();
        proof {
            assert(self.terms() =~= Seq::<TermView>::empty());
            assert forall|q: int| 0 <= q < old(self).run_entries().len() implies postings_ok(
                #[trigger] old(self).run_entries()[q].postings,
                old(self).mask_size(),
            ) by {
                assert(old(self).b_tree@[q].wf());
                assert(old(self).terms()[q] == old(self).b_tree@[q]@);
                lemma_term_postings_ok(old(self).b_tree@[q], old(self).mask_len as nat);
            }
        }
        r
    }

    fn bump(&self, t: &mut IndexedTerm, doc: u64, zone: usize)
        requires
            old(t).wf(),
            zone < 64,
        ensures
            final(t).wf(),
            final(t)@ == bump_term(old(t)@, doc, zone as nat),
    {
        if t.use_count < u64::MAX {
            t.use_count = t.use_count + 1;
        }
        let inc: u64 = match t.indexes.element_at(doc) {
            Some(u) => if u.use_count < u64::MAX {
                1
            } else {
                0
            },
            None => 1,
        };
        let mut segments = CommonSegments::new();
        segments.set_zone(zone);
        t.indexes.push(doc, UsageData { use_count: inc, segments });
        proof {
            assert(segments.bits == 0u64 | (1u64 << zone as u64));
            assert(0u64 | (1u64 << zone as u64) == (1u64 << zone as u64)) by (bit_vector);
        }
    }
}

} // verus!
