//! Sorted runs on disk: the dictionary of fixed-width cursors, the
//! front-coded terms, and the posting lists; their writer and reader.
use crate::bytes::{
    be_bytes, from_be_bytes, read_be_u64, variable_load, varint_u64, ByteReader,
    CountedWriter, MovableU8Provider, U8Provider,
};
use crate::codec::{load_postings, postings_bytes, postings_ok, save_postings};
use crate::layout::{lemma_term_in_append, lemma_term_in_block, piece, piece_bytes, pieces, skip_pieces, term_in};
use crate::listmap::UsageData;
use crate::indexed::{string_bytes, term_bytes, IndexedTerm, TermView};
use crate::lexical::{bytes_lt, count_same, lcp, lemma_lcp, lex_lt};
use crate::varint::varint_encode;
use vstd::prelude::*;
use vstd::utf8::{encode_utf8, valid_utf8};

verus! {

/// One dictionary record: where the term's block starts in the lexical
/// part, its place in the block, where its postings start, and its count.
#[derive(Clone, Copy, Debug)]
pub struct IndexedCursor {
    pub lexical_pointer: u64,
    pub lexical_index: u8,
    pub indexes_pointer: u64,
    pub use_count: u64,
}

/// The 25 bytes of a cursor, integers most significant byte first.
pub open spec fn cursor_bytes(c: IndexedCursor) -> Seq<u8> {
    be_bytes(c.lexical_pointer) + seq![c.lexical_index] + be_bytes(c.indexes_pointer) + be_bytes(
        c.use_count,
    )
}

proof fn lemma_from_be_bytes(s: Seq<u8>)
    requires
        s.len() >= 8,
    ensures
        be_bytes(from_be_bytes(s)) == s.take(8),
{
    let (b0, b1, b2, b3, b4, b5, b6, b7) = (s[0], s[1], s[2], s[3], s[4], s[5], s[6], s[7]);
    let v = from_be_bytes(s);
    assert(v == (b0 as u64) << 56u64 | (b1 as u64) << 48u64 | (b2 as u64) << 40u64 | (b3 as u64)
        << 32u64 | (b4 as u64) << 24u64 | (b5 as u64) << 16u64 | (b6 as u64) << 8u64 | (b7 as u64));
    assert((v >> 56u64) as u8 == b0 && (v >> 48u64) as u8 == b1 && (v >> 40u64) as u8 == b2 && (v
        >> 32u64) as u8 == b3 && (v >> 24u64) as u8 == b4 && (v >> 16u64) as u8 == b5 && (v
        >> 8u64) as u8 == b6 && v as u8 == b7) by (bit_vector)
        requires
            v == (b0 as u64) << 56u64 | (b1 as u64) << 48u64 | (b2 as u64) << 40u64 | (b3 as u64)
                << 32u64 | (b4 as u64) << 24u64 | (b5 as u64) << 16u64 | (b6 as u64) << 8u64
                | (b7 as u64),
    ;
    assert(be_bytes(v) =~= s.take(8));
}

impl IndexedCursor {
    pub fn new(
        lexical_pointer: u64,
        lexical_index: u8,
        indexes_pointer: u64,
        use_count: u64,
    ) -> (r: IndexedCursor)
        ensures
            r == (IndexedCursor { lexical_pointer, lexical_index, indexes_pointer, use_count }),
    {
        IndexedCursor { lexical_pointer, lexical_index, indexes_pointer, use_count }
    }

    /// Appends the 25 bytes of this cursor.
    pub fn save(&self, w: &mut CountedWriter)
        ensures
            final(w)@ == old(w)@ + cursor_bytes(*self),
    {
        w.push_u64(self.lexical_pointer);
        w.push_u8(self.lexical_index);
        w.push_u64(self.indexes_pointer);
        w.push_u64(self.use_count);
        assert(w@ =~= old(w)@ + cursor_bytes(*self));
    }

    /// Reads a cursor; `None` when fewer than 25 bytes are left.
    pub fn load<R: U8Provider>(reader: &mut R) -> (r: Option<IndexedCursor>)
        ensures
            final(reader).contents() == old(reader).contents(),
            old(reader).remaining().len() >= 25 <==> r is Some,
            r is Some ==> old(reader).remaining() == cursor_bytes(r->0) + final(reader).remaining(),
    {
        let ghost s0 = reader.remaining();
        let lexical_pointer = match read_be_u64(reader) {
            Some(v) => v,
            None => {
                return None;
            },
        };
        let ghost s1 = reader.remaining();
        let lexical_index = match reader.next_u8() {
            Some(v) => v,
            None => {
                return None;
            },
        };
        let ghost s2 = reader.remaining();
        let indexes_pointer = match read_be_u64(reader) {
            Some(v) => v,
            None => {
                return None;
            },
        };
        let ghost s3 = reader.remaining();
        let use_count = match read_be_u64(reader) {
            Some(v) => v,
            None => {
                return None;
            },
        };
        let c = IndexedCursor { lexical_pointer, lexical_index, indexes_pointer, use_count };
        proof {
            lemma_from_be_bytes(s0);
            lemma_from_be_bytes(s2);
            lemma_from_be_bytes(s3);
            assert(s0 =~= s0.take(8) + s1);
            assert(s1 =~= seq![lexical_index] + s2);
            assert(s2 =~= s2.take(8) + s3);
            assert(s3 =~= s3.take(8) + reader.remaining());
            assert(s0 =~= cursor_bytes(c) + reader.remaining());
        }
        Some(c)
    }
}

/// What a run holds of one term: its bytes, its total count and its
/// postings in ascending order of document.
pub ghost struct RunEntry {
    pub term: Seq<u8>,
    pub use_count: u64,
    pub postings: Seq<(u64, UsageData)>,
}

/// The record of `t` in a run.
pub open spec fn entry_of(t: IndexedTerm) -> RunEntry {
    RunEntry { term: term_bytes(t.term@), use_count: t.use_count, postings: t.indexes.entries_seq() }
}

/// The cursor of term `i` in the dictionary part.
pub open spec fn cursor_at(dict: Seq<u8>, i: int) -> IndexedCursor {
    let s = dict.skip(8 + 25 * i);
    IndexedCursor {
        lexical_pointer: from_be_bytes(s),
        lexical_index: s[8],
        indexes_pointer: from_be_bytes(s.skip(9)),
        use_count: from_be_bytes(s.skip(17)),
    }
}

/// Term `i` of the run is `e`: its cursor leads to a block that holds its
/// bytes, carries its count, and leads to its posting list.
pub open spec fn entry_holds(dict: Seq<u8>, lex: Seq<u8>, idx: Seq<u8>, i: int, e: RunEntry, n: nat) -> bool {
    let c = cursor_at(dict, i);
    let pb = postings_bytes(e.postings, n);
    &&& c.lexical_pointer <= lex.len()
    &&& term_in(lex.skip(c.lexical_pointer as int), c.lexical_index as nat) == Some(e.term)
    &&& c.use_count == e.use_count
    &&& c.indexes_pointer + pb.len() <= idx.len()
    &&& idx.subrange(c.indexes_pointer as int, c.indexes_pointer + pb.len()) == pb
}

/// The three parts of a run hold exactly `terms`, in this order, each term
/// after the one before in byte order.
pub open spec fn run_holds(dict: Seq<u8>, lex: Seq<u8>, idx: Seq<u8>, terms: Seq<RunEntry>, n: nat) -> bool {
    &&& dict.len() == 8 + 25 * terms.len()
    &&& from_be_bytes(dict) == terms.len()
    &&& forall|i: int| 0 <= i < terms.len() ==> #[trigger] entry_holds(dict, lex, idx, i, terms[i], n)
    &&& forall|i: int| 0 < i < terms.len() ==> lex_lt(#[trigger] terms[i - 1].term, terms[i].term)
    &&& forall|i: int| 0 <= i < terms.len() ==> valid_utf8(#[trigger] terms[i].term)
}

/// Reading back the eight bytes of `v` gives `v`.
pub proof fn lemma_be_round_trip(v: u64, rest: Seq<u8>)
    ensures
        from_be_bytes(be_bytes(v) + rest) == v,
{
    let s = be_bytes(v) + rest;
    assert(s[0] == (v >> 56u64) as u8 && s[1] == (v >> 48u64) as u8 && s[2] == (v >> 40u64) as u8
        && s[3] == (v >> 32u64) as u8 && s[4] == (v >> 24u64) as u8 && s[5] == (v >> 16u64) as u8
        && s[6] == (v >> 8u64) as u8 && s[7] == v as u8);
    assert(((v >> 56u64) as u8 as u64) << 56u64 | ((v >> 48u64) as u8 as u64) << 48u64 | ((v
        >> 40u64) as u8 as u64) << 40u64 | ((v >> 32u64) as u8 as u64) << 32u64 | ((v >> 24u64) as u8
        as u64) << 24u64 | ((v >> 16u64) as u8 as u64) << 16u64 | ((v >> 8u64) as u8 as u64) << 8u64
        | (v as u8 as u64) == v) by (bit_vector);
}

proof fn lemma_from_be_prefix(a: Seq<u8>, b: Seq<u8>)
    requires
        a.len() >= 8,
        b.len() >= 8,
        forall|k: int| 0 <= k < 8 ==> a[k] == b[k],
    ensures
        from_be_bytes(a) == from_be_bytes(b),
{
    assert(a[0] == b[0] && a[1] == b[1] && a[2] == b[2] && a[3] == b[3] && a[4] == b[4] && a[5] == b[5] && a[6] == b[6] && a[7] == b[7]);
}

proof fn lemma_cursor_at_extend(dict: Seq<u8>, t: Seq<u8>, i: int)
    requires
        0 <= i,
        8 + 25 * (i + 1) <= dict.len(),
    ensures
        cursor_at(dict + t, i) == cursor_at(dict, i),
{
    let a = (dict + t).skip(8 + 25 * i);
    let b = dict.skip(8 + 25 * i);
    assert forall|k: int| 0 <= k < 25 implies a[k] == b[k] by {}
    lemma_from_be_prefix(a, b);
    lemma_from_be_prefix(a.skip(9), b.skip(9));
    lemma_from_be_prefix(a.skip(17), b.skip(17));
}

proof fn lemma_cursor_at_push(dict: Seq<u8>, c: IndexedCursor, i: int)
    requires
        0 <= i,
        dict.len() == 8 + 25 * i,
    ensures
        cursor_at(dict + cursor_bytes(c), i) == c,
{
    let a = (dict + cursor_bytes(c)).skip(8 + 25 * i);
    assert(a =~= cursor_bytes(c));
    assert(a =~= be_bytes(c.lexical_pointer) + (seq![c.lexical_index] + be_bytes(c.indexes_pointer) + be_bytes(c.use_count)));
    lemma_be_round_trip(c.lexical_pointer, seq![c.lexical_index] + be_bytes(c.indexes_pointer) + be_bytes(c.use_count));
    assert(a.skip(9) =~= be_bytes(c.indexes_pointer) + be_bytes(c.use_count));
    lemma_be_round_trip(c.indexes_pointer, be_bytes(c.use_count));
    assert(a.skip(17) =~= be_bytes(c.use_count) + Seq::<u8>::empty());
    lemma_be_round_trip(c.use_count, Seq::<u8>::empty());
}

/// What a run says of term `i` stays when more bytes follow each part.
proof fn lemma_entry_extend(
    dict: Seq<u8>,
    lex: Seq<u8>,
    idx: Seq<u8>,
    dt: Seq<u8>,
    lt: Seq<u8>,
    it: Seq<u8>,
    i: int,
    e: RunEntry,
    n: nat,
)
    requires
        0 <= i,
        8 + 25 * (i + 1) <= dict.len(),
        entry_holds(dict, lex, idx, i, e, n),
    ensures
        entry_holds(dict + dt, lex + lt, idx + it, i, e, n),
{
    lemma_cursor_at_extend(dict, dt, i);
    let c = cursor_at(dict, i);
    assert((lex + lt).skip(c.lexical_pointer as int) =~= lex.skip(c.lexical_pointer as int) + lt);
    lemma_term_in_append(lex.skip(c.lexical_pointer as int), lt, c.lexical_index as nat);
    let pb = postings_bytes(e.postings, n);
    assert((idx + it).subrange(c.indexes_pointer as int, c.indexes_pointer + pb.len()) =~= idx.subrange(
        c.indexes_pointer as int,
        c.indexes_pointer + pb.len(),
    ));
}

/// Writes terms in ascending order as a sorted run: terms are gathered
/// into blocks that share a prefix, which the lexical part stores once.
pub struct IndexMergeSaver {
    pointer_part: CountedWriter,
    lexical_part: CountedWriter,
    index_part: CountedWriter,
    buffer_items: Vec<IndexedTerm>,
    current_substr_size: usize,
    max_part_size: u8,
    current_directory_size: u64,
    mask_len: usize,
    entries: Ghost<Seq<RunEntry>>,
}

impl IndexMergeSaver {
    pub closed spec fn wf(&self) -> bool {
        &&& 1 <= self.max_part_size
        &&& 1 <= self.mask_len <= 8
        &&& self.buffer_items@.len() <= self.max_part_size
        &&& self.pointer_part@.len() == 8 + 25 * (self.current_directory_size - self.buffer_items@.len())
        &&& self.current_directory_size >= self.buffer_items@.len()
        &&& forall|i: int|
            0 <= i < self.buffer_items@.len() ==> {
                &&& #[trigger] self.buffer_items@[i].wf()
                &&& self.current_substr_size <= term_bytes(self.buffer_items@[i].term@).len()
                &&& term_bytes(self.buffer_items@[i].term@).take(self.current_substr_size as int)
                    == term_bytes(self.buffer_items@[0].term@).take(self.current_substr_size as int)
                &&& entry_of(self.buffer_items@[i]) == self.entries@[self.flushed() + i]
            }
        &&& self.entries@.len() == self.current_directory_size
        &&& forall|i: int|
            0 <= i < self.flushed() ==> #[trigger] entry_holds(
                self.pointer_part@,
                self.lexical_part@,
                self.index_part@,
                i,
                self.entries@[i],
                self.mask_len as nat,
            )
        &&& forall|i: int|
            0 < i < self.entries@.len() ==> lex_lt(#[trigger] self.entries@[i - 1].term, self.entries@[i].term)
        &&& forall|i: int| 0 <= i < self.entries@.len() ==> valid_utf8(#[trigger] self.entries@[i].term)
    }

    /// How many terms were written out.
    pub closed spec fn flushed(&self) -> int {
        self.current_directory_size - self.buffer_items@.len()
    }

    /// The terms pushed, in order.
    pub closed spec fn pushed_entries(&self) -> Seq<RunEntry> {
        self.entries@
    }

    /// A well-formed writer has a record of every term pushed.
    pub proof fn lemma_pushed(&self)
        requires
            self.wf(),
        ensures
            self.pushed_entries().len() == self.pushed(),
    {
    }

    /// The bytes of the last term pushed, if any.
    pub closed spec fn last_pushed(&self) -> Option<Seq<u8>> {
        if self.entries@.len() > 0 {
            Some(self.entries@.last().term)
        } else {
            None
        }
    }

    /// How many terms were pushed.
    pub closed spec fn pushed(&self) -> nat {
        self.current_directory_size as nat
    }

    /// The bytes of a zone mask.
    pub closed spec fn mask_size(&self) -> nat {
        self.mask_len as nat
    }

    pub fn new(max_size: u8, mask_len: usize) -> (r: IndexMergeSaver)
        requires
            1 <= max_size,
            1 <= mask_len <= 8,
        ensures
            r.wf(),
            r.last_pushed() is None,
            r.pushed() == 0,
            r.pushed_entries() == Seq::<RunEntry>::empty(),
            r.mask_size() == mask_len,
    {
        let mut pointer_part = CountedWriter::new();
        pointer_part.push_u64(0);
        IndexMergeSaver {
            pointer_part,
            lexical_part: CountedWriter::new(),
            index_part: CountedWriter::new(),
            buffer_items: Vec::new(),
            current_substr_size: 0,
            max_part_size: max_size,
            current_directory_size: 0,
            mask_len,
            entries: Ghost(Seq::empty()),
        }
    }

    fn push_range(w: &mut CountedWriter, b: &[u8], from: usize, to: usize)
        requires
            from <= to <= b@.len(),
        ensures
            final(w)@ == old(w)@ + b@.subrange(from as int, to as int),
    {
        let part = vstd::slice::slice_subrange(b, from, to);
        w.push(part);
    }

    /// Writes the buffered terms as one block and empties the buffer.
    #[verifier::spinoff_prover]
    #[verifier::rlimit(60)]
    fn flush(&mut self)
        requires
            old(self).wf(),
        ensures
            final(self).wf(),
            final(self).buffer_items@.len() == 0,
            final(self).current_directory_size == old(self).current_directory_size,
            final(self).entries == old(self).entries,
            final(self).max_part_size == old(self).max_part_size,
            final(self).mask_len == old(self).mask_len,
            final(self).current_substr_size == old(self).current_substr_size,
    {
        if self.buffer_items.len() == 0 {
            return;
        }
        let ghost flushed0 = old(self).flushed();
        let ghost nn = self.mask_len as nat;
        let items = self.buffer_items.split_off(0);
        assert(items@ =~= old(self).buffer_items@);
        let p = self.current_substr_size;
        assert(items@[0].wf());
        let lexical_pointer = self.lexical_part.passed();
        let ghost d0 = self.pointer_part@;
        let ghost l0 = self.lexical_part@;
        let ghost i0 = self.index_part@;
        self.lexical_part.push_variable_u64(p as u64);
        let first = string_bytes(&items[0].term);
        Self::push_range(&mut self.lexical_part, first, 0, p);
        let ghost prefix = first@.subrange(0, p as int);
        let n = items.len();
        let ghost sufs = Seq::new(n as nat, |k: int| term_bytes(items@[k].term@).skip(p as int));
        proof {
            assert(prefix =~= term_bytes(items@[0].term@).take(p as int));
            assert forall|j: int| 0 <= j < n implies {
                &&& #[trigger] items@[j].wf()
                &&& p <= term_bytes(items@[j].term@).len()
                &&& term_bytes(items@[j].term@).take(p as int) == prefix
                &&& entry_of(items@[j]) == self.entries@[flushed0 + j]
            } by {
                assert(old(self).buffer_items@[j].wf());
            }
            assert(self.lexical_part@ =~= l0 + piece_bytes(prefix) + pieces(sufs.take(0)));
            assert forall|k: int| 0 <= k < flushed0 implies #[trigger] entry_holds(
                self.pointer_part@,
                self.lexical_part@,
                self.index_part@,
                k,
                self.entries@[k],
                nn,
            ) by {
                lemma_entry_extend(d0, l0, i0, Seq::empty(), piece_bytes(prefix), Seq::empty(), k, self.entries@[k], nn);
                assert(d0 + Seq::<u8>::empty() =~= d0);
                assert(i0 + Seq::<u8>::empty() =~= i0);
            }
        }
        let mut i: usize = 0;
        while i < n
            invariant
                n == items@.len(),
                n == old(self).buffer_items@.len(),
                items@ == old(self).buffer_items@,
                n <= old(self).max_part_size,
                i <= n,
                1 <= self.mask_len <= 8,
                nn == self.mask_len as nat,
                self.mask_len == old(self).mask_len,
                self.buffer_items@.len() == 0,
                p == self.current_substr_size,
                self.current_substr_size == old(self).current_substr_size,
                self.max_part_size == old(self).max_part_size,
                self.current_directory_size == old(self).current_directory_size,
                self.entries == old(self).entries,
                flushed0 == self.current_directory_size - n,
                self.pointer_part@.len() == 8 + 25 * (self.current_directory_size - n + i),
                self.current_directory_size >= n,
                lexical_pointer == l0.len(),
                prefix.len() == p,
                sufs.len() == n,
                forall|k: int| 0 <= k < n ==> #[trigger] sufs[k] == term_bytes(items@[k].term@).skip(p as int),
                self.lexical_part@ == l0 + piece_bytes(prefix) + pieces(sufs.take(i as int)),
                forall|k: int| 0 <= k < i ==> (#[trigger] sufs[k]).len() <= u64::MAX,
                forall|j: int|
                    0 <= j < n ==> {
                        &&& #[trigger] items@[j].wf()
                        &&& p <= term_bytes(items@[j].term@).len()
                        &&& term_bytes(items@[j].term@).take(p as int) == prefix
                        &&& entry_of(items@[j]) == self.entries@[flushed0 + j]
                    },
                forall|k: int|
                    0 <= k < flushed0 + i ==> #[trigger] entry_holds(
                        self.pointer_part@,
                        self.lexical_part@,
                        self.index_part@,
                        k,
                        self.entries@[k],
                        nn,
                    ),
            decreases n - i,
        {
            let item = &items[i];
            assert(items@[i as int].wf());
            let ghost d1 = self.pointer_part@;
            let ghost l1 = self.lexical_part@;
            let ghost i1 = self.index_part@;
            let ghost e = self.entries@[flushed0 + i];
            let cursor = IndexedCursor::new(
                lexical_pointer,
                i as u8,
                self.index_part.passed(),
                item.use_count,
            );
            cursor.save(&mut self.pointer_part);
            save_postings(&item.indexes, self.mask_len, &mut self.index_part);
            let bytes = string_bytes(&item.term);
            let blen = bytes.len();
            self.lexical_part.push_variable_u64((blen - p) as u64);
            Self::push_range(&mut self.lexical_part, bytes, p, blen);
            proof {
                let pb = postings_bytes(e.postings, nn);
                let sp = piece_bytes(sufs[i as int]);
                assert(bytes@.subrange(p as int, blen as int) =~= sufs[i as int]);
                assert(self.lexical_part@ =~= l1 + sp);
                assert(self.index_part@ =~= i1 + pb);
                assert forall|k: int| 0 <= k < flushed0 + i implies #[trigger] entry_holds(
                    self.pointer_part@,
                    self.lexical_part@,
                    self.index_part@,
                    k,
                    self.entries@[k],
                    nn,
                ) by {
                    lemma_entry_extend(d1, l1, i1, cursor_bytes(cursor), sp, pb, k, self.entries@[k], nn);
                }
                let kk = flushed0 + i;
                lemma_cursor_at_push(d1, cursor, kk);
                crate::layout::lemma_pieces_push(sufs.take(i as int), sufs[i as int]);
                assert(sufs.take(i as int).push(sufs[i as int]) =~= sufs.take(i + 1));
                let blk = piece_bytes(prefix) + pieces(sufs.take(i + 1));
                assert(self.lexical_part@.skip(l0.len() as int) =~= blk + Seq::<u8>::empty());
                assert forall|k: int| 0 <= k < sufs.take(i + 1).len() implies (#[trigger] sufs.take(i + 1)[k]).len() <= u64::MAX by {
                    if k < i {
                        assert(sufs.take(i + 1)[k] == sufs[k]);
                    }
                }
                lemma_term_in_block(prefix, sufs.take(i + 1), Seq::empty(), i as nat);
                let tb = term_bytes(items@[i as int].term@);
                assert(tb =~= prefix + sufs[i as int]);
                assert(self.index_part@.subrange(i1.len() as int, (i1.len() + pb.len()) as int) =~= pb);
                assert(entry_holds(self.pointer_part@, self.lexical_part@, self.index_part@, kk, e, nn));
            }
            i = i + 1;
        }
    }

    /// Adds the next term. Terms must come in strictly ascending byte order.
    #[verifier::spinoff_prover]
    #[verifier::rlimit(60)]
    pub fn push(&mut self, term: IndexedTerm)
        requires
            old(self).wf(),
            term.wf(),
            old(self).pushed() < u64::MAX,
            old(self).last_pushed() is Some ==> lex_lt(
                old(self).last_pushed().unwrap(),
                term_bytes(term.term@),
            ),
        ensures
            final(self).wf(),
            final(self).pushed() == old(self).pushed() + 1,
            final(self).last_pushed() == Some(term_bytes(term.term@)),
            final(self).mask_size() == old(self).mask_size(),
            final(self).pushed_entries() == old(self).pushed_entries().push(entry_of(term)),
    {
        let ghost tb = term_bytes(term.term@);
        if self.buffer_items.len() == self.max_part_size as usize {
            self.flush();
            self.current_substr_size = 0;
        } else if self.buffer_items.len() > 0 {
            let len = self.buffer_items.len();
            let size = count_same(
                string_bytes(&self.buffer_items[len - 1].term),
                string_bytes(&term.term),
            );
            proof {
                lemma_lcp(term_bytes(self.buffer_items@[len - 1].term@), tb);
            }
            proof {
                let a = len as int;
                let b = self.current_substr_size as int;
                let c = size as int;
                assert(a * b <= 256 * 0x10000000000000000) by (nonlinear_arith)
                    requires
                        0 <= a <= 255,
                        0 <= b < 0x10000000000000000,
                ;
                assert((a + 1) * c <= 256 * 0x10000000000000000) by (nonlinear_arith)
                    requires
                        0 <= a <= 255,
                        0 <= c < 0x10000000000000000,
                ;
            }
            let extend = (len as u128) * (self.current_substr_size as u128) < ((len + 1) as u128)
                * (size as u128);
            if size > self.current_substr_size {
                let last = self.buffer_items.pop().unwrap();
                let ghost lb = term_bytes(last.term@);
                let ghost saved = self.entries@;
                self.current_directory_size = self.current_directory_size - 1;
                self.entries = Ghost(saved.drop_last());
                proof {
                    assert forall|i: int| 0 <= i < self.buffer_items@.len() implies entry_of(
                        #[trigger] self.buffer_items@[i],
                    ) == self.entries@[self.flushed() + i] by {
                        assert(old(self).buffer_items@[i].wf());
                        assert(self.buffer_items@[i] == old(self).buffer_items@[i]);
                    }
                    assert forall|i: int| 0 < i < self.entries@.len() implies lex_lt(
                        #[trigger] self.entries@[i - 1].term,
                        self.entries@[i].term,
                    ) by {
                        assert(self.entries@[i - 1] == saved[i - 1]);
                        assert(self.entries@[i] == saved[i]);
                    }
                    assert forall|i: int| 0 <= i < self.entries@.len() implies valid_utf8(#[trigger] self.entries@[i].term) by {
                        assert(self.entries@[i] == saved[i]);
                    }
                    assert forall|i: int| 0 <= i < self.flushed() implies #[trigger] entry_holds(
                        self.pointer_part@,
                        self.lexical_part@,
                        self.index_part@,
                        i,
                        self.entries@[i],
                        self.mask_len as nat,
                    ) by {
                        assert(self.entries@[i] == saved[i]);
                    }
                    assert forall|i: int| 0 <= i < self.buffer_items@.len() implies #[trigger] self.buffer_items@[i].wf() by {
                        assert(old(self).buffer_items@[i].wf());
                    }
                    if self.buffer_items@.len() > 0 {
                        assert(old(self).buffer_items@[0] == self.buffer_items@[0]);
                    }
                    assert forall|i: int| 0 <= i < self.buffer_items@.len() implies term_bytes(
                        #[trigger] self.buffer_items@[i].term@,
                    ).take(self.current_substr_size as int) == term_bytes(self.buffer_items@[0].term@).take(
                        self.current_substr_size as int,
                    ) && self.current_substr_size <= term_bytes(self.buffer_items@[i].term@).len() by {
                        assert(old(self).buffer_items@[i].wf());
                    }
                }
                self.flush();
                self.current_substr_size = size;
                self.buffer_items.push(last);
                self.current_directory_size = self.current_directory_size + 1;
                self.entries = Ghost(saved);
                proof {
                    assert(saved.drop_last().push(saved.last()) =~= saved);
                    assert(old(self).buffer_items@[len - 1].wf());
                    assert(last == old(self).buffer_items@[len - 1]);
                    assert(entry_of(last) == saved.last());
                }
                proof {
                    assert(lb.take(size as int) =~= tb.take(size as int));
                }
            } else if extend {
                self.current_substr_size = size;
                proof {
                    let b0 = term_bytes(self.buffer_items@[0].term@);
                    let lb = term_bytes(self.buffer_items@[len - 1].term@);
                    assert(tb.take(size as int) =~= lb.take(size as int));
                    assert forall|i: int| 0 <= i < len implies term_bytes(
                        #[trigger] self.buffer_items@[i].term@,
                    ).take(size as int) == b0.take(size as int) by {
                        let bi = term_bytes(self.buffer_items@[i].term@);
                        assert(old(self).buffer_items@[i].wf());
                        assert(old(self).buffer_items@[0].wf());
                        assert(bi.take(size as int) =~= bi.take(old(self).current_substr_size as int).take(size as int));
                        assert(b0.take(size as int) =~= b0.take(old(self).current_substr_size as int).take(size as int));
                    }
                    assert(old(self).buffer_items@[len - 1].wf());
                    assert(old(self).buffer_items@[0].wf());
                    assert(lb.take(size as int) =~= lb.take(old(self).current_substr_size as int).take(size as int));
                    assert(b0.take(size as int) =~= b0.take(old(self).current_substr_size as int).take(size as int));
                }
            } else {
                self.flush();
                self.current_substr_size = 0;
            }
        } else {
            self.current_substr_size = 0;
        }
        let ghost te = entry_of(term);
        proof {
            vstd::utf8::encode_utf8_valid_utf8(term.term@);
        }
        let ghost mid = *self;
        self.buffer_items.push(term);
        self.current_directory_size = self.current_directory_size + 1;
        self.entries = Ghost(self.entries@.push(te));
        proof {
            let k = self.buffer_items@.len();
            assert(self.flushed() == mid.flushed());
            assert forall|i: int| 0 <= i < self.flushed() implies #[trigger] entry_holds(
                self.pointer_part@,
                self.lexical_part@,
                self.index_part@,
                i,
                self.entries@[i],
                self.mask_len as nat,
            ) by {
                assert(self.entries@[i] == mid.entries@[i]);
                assert(entry_holds(mid.pointer_part@, mid.lexical_part@, mid.index_part@, i, mid.entries@[i], mid.mask_len as nat));
            }
            assert forall|i: int| 0 < i < self.entries@.len() implies lex_lt(
                #[trigger] self.entries@[i - 1].term,
                self.entries@[i].term,
            ) by {
                if i < self.entries@.len() - 1 {
                    assert(self.entries@[i - 1] == mid.entries@[i - 1]);
                    assert(self.entries@[i] == mid.entries@[i]);
                } else {
                    assert(self.entries@[i - 1] == mid.entries@.last());
                }
            }
            assert forall|j: int| 0 <= j < k implies entry_of(#[trigger] self.buffer_items@[j]) == self.entries@[self.flushed() + j] by {
                if j < k - 1 {
                    assert(self.buffer_items@[j] == mid.buffer_items@[j]);
                    assert(mid.buffer_items@[j].wf());
                }
            }
            assert(valid_utf8(te.term));
            assert forall|i: int| 0 <= i < self.entries@.len() implies valid_utf8(#[trigger] self.entries@[i].term) by {
                if i < self.entries@.len() - 1 {
                    assert(self.entries@[i] == mid.entries@[i]);
                    assert(valid_utf8(mid.entries@[i].term));
                }
            }
            assert forall|i: int| 0 <= i < k implies {
                &&& #[trigger] self.buffer_items@[i].wf()
                &&& self.current_substr_size <= term_bytes(self.buffer_items@[i].term@).len()
            } by {
                if i < k - 1 {
                    assert(self.buffer_items@[i] == mid.buffer_items@[i]);
                    assert(mid.buffer_items@[i].wf());
                }
            }
            assert forall|i: int| 0 <= i < k implies term_bytes(
                #[trigger] self.buffer_items@[i].term@,
            ).take(self.current_substr_size as int) == term_bytes(self.buffer_items@[0].term@).take(
                self.current_substr_size as int,
            ) by {
                if self.current_substr_size == 0 {
                    assert(term_bytes(self.buffer_items@[i].term@).take(0) =~= Seq::<u8>::empty());
                    assert(term_bytes(self.buffer_items@[0].term@).take(0) =~= Seq::<u8>::empty());
                }
            }
        }
    }

    /// Writes what is buffered and fills in the term count; gives the
    /// dictionary, the lexical part and the index part.
    pub fn finish(self) -> (r: (Vec<u8>, Vec<u8>, Vec<u8>))
        requires
            self.wf(),
        ensures
            r.0@.len() == 8 + 25 * self.pushed(),
            r.0@.take(8) == be_bytes(self.pushed() as u64),
            run_holds(r.0@, r.1@, r.2@, self.pushed_entries(), self.mask_size()),
    {
        let mut s = self;
        s.flush();
        let count = s.current_directory_size;
        let ghost d = s.pointer_part@;
        s.pointer_part.goto_and_write_u64(0, count);
        let r = (s.pointer_part.into_bytes(), s.lexical_part.into_bytes(), s.index_part.into_bytes());
        proof {
            assert(r.0@.take(8) =~= be_bytes(count));
            assert(r.0@ =~= be_bytes(count) + d.skip(8));
            lemma_be_round_trip(count, d.skip(8));
            assert forall|i: int| 0 <= i < s.entries@.len() implies #[trigger] entry_holds(r.0@, r.1@, r.2@, i, s.entries@[i], s.mask_len as nat) by {
                assert(entry_holds(d, r.1@, r.2@, i, s.entries@[i], s.mask_len as nat));
                let a = r.0@.skip(8 + 25 * i);
                let b = d.skip(8 + 25 * i);
                assert(a =~= b);
            }
            assert(r.0@.len() == 8 + 25 * s.entries@.len());
            assert(from_be_bytes(r.0@) == s.entries@.len());
            assert forall|i: int| 0 < i < s.entries@.len() implies lex_lt(
                #[trigger] s.entries@[i - 1].term,
                s.entries@[i].term,
            ) by {}
            assert forall|i: int| 0 <= i < s.entries@.len() implies valid_utf8(#[trigger] s.entries@[i].term) by {}
            assert(run_holds(r.0@, r.1@, r.2@, s.entries@, s.mask_len as nat));
        }
        r
    }
}

/// Relies on `String::from_utf8`: a string whose UTF-8 bytes are `bytes`,
/// or an error when they are not well-formed UTF-8.
#[verifier::external_body]
fn string_from_utf8(bytes: Vec<u8>) -> (r: Option<String>)
    ensures
        r is Some <==> valid_utf8(bytes@),
        r is Some ==> encode_utf8(r->0@) == bytes@,
{
    String::from_utf8(bytes).ok()
}

/// What a run writer guarantees is what a run reader needs: for the bytes
/// that `IndexMergeSaver::finish` gives for the terms pushed (`run_holds`),
/// with posting lists whose zone masks fit, a reader that has read the first
/// `k` terms in order reads term `k` next (`expects`, which `next_term`
/// turns into that term). So writing a sorted list of terms with any block
/// size and reading it back yields the same list.
pub proof fn lemma_front_coding_round_trip(
    dict: Seq<u8>,
    lex: Seq<u8>,
    idx: Seq<u8>,
    terms: Seq<RunEntry>,
    n: nat,
    k: nat,
)
    requires
        run_holds(dict, lex, idx, terms, n),
        forall|i: int| 0 <= i < terms.len() ==> postings_ok(#[trigger] terms[i].postings, n),
        k < terms.len(),
    ensures
        expects(dict, lex, idx, n, k, if k == 0 { None } else { Some(terms[k - 1].term) }, terms),
{
}

/// A sink that writes terms, given in strictly ascending byte order, as a
/// sorted run.
pub trait TermSaver: Sized {
    /// The saver can take more terms.
    spec fn ready(&self) -> bool;

    /// The terms taken so far, as the run records them.
    spec fn saved(&self) -> Seq<RunEntry>;

    /// The bytes of a zone mask in the run.
    spec fn mask_width(&self) -> nat;

    fn push(&mut self, term: IndexedTerm)
        requires
            old(self).ready(),
            term.wf(),
            old(self).saved().len() < u64::MAX,
            old(self).saved().len() > 0 ==> lex_lt(old(self).saved().last().term, term_bytes(term.term@)),
        ensures
            final(self).ready(),
            final(self).saved() == old(self).saved().push(entry_of(term)),
            final(self).mask_width() == old(self).mask_width(),
    ;

    /// The dictionary, lexical and index parts of the run.
    fn finish(self) -> (r: (Vec<u8>, Vec<u8>, Vec<u8>))
        requires
            self.ready(),
        ensures
            run_holds(r.0@, r.1@, r.2@, self.saved(), self.mask_width()),
    ;
}

impl TermSaver for IndexMergeSaver {
    closed spec fn ready(&self) -> bool {
        self.wf()
    }

    closed spec fn saved(&self) -> Seq<RunEntry> {
        self.pushed_entries()
    }

    closed spec fn mask_width(&self) -> nat {
        self.mask_size()
    }

    fn push(&mut self, term: IndexedTerm) {
        proof {
            self.lemma_pushed();
        }
        IndexMergeSaver::push(self, term)
    }

    fn finish(self) -> (r: (Vec<u8>, Vec<u8>, Vec<u8>)) {
        IndexMergeSaver::finish(self)
    }
}

/// A source of terms in strictly ascending byte order.
pub trait TermProvider {
    /// The provider can read on.
    spec fn ready(&self) -> bool;

    /// The bytes of the last term handed out, if any.
    spec fn last_term(&self) -> Option<Seq<u8>>;

    /// The provider, having handed out `position()` terms, reads the run
    /// `terms` (as a run records them).
    spec fn reads(&self, terms: Seq<RunEntry>) -> bool;

    /// How many terms were handed out.
    spec fn position(&self) -> nat;

    /// The next term, after the last one in byte order; `None` at the end.
    /// A provider that reads `terms` hands out the next of them.
    fn next_term(&mut self) -> (r: Option<IndexedTerm>)
        requires
            old(self).ready(),
        ensures
            final(self).ready(),
            forall|terms: Seq<RunEntry>|
                #[trigger] old(self).reads(terms) ==> r is Some && entry_of(r->0) == terms[old(self).position() as int],
            r is Some ==> {
                &&& r->0.wf()
                &&& final(self).last_term() == Some(term_bytes(r->0.term@))
                &&& old(self).last_term() is Some ==> lex_lt(
                    old(self).last_term().unwrap(),
                    term_bytes(r->0.term@),
                )
            },
    ;
}

impl TermProvider for IndexTermProvider {
    closed spec fn ready(&self) -> bool {
        self.wf()
    }

    closed spec fn last_term(&self) -> Option<Seq<u8>> {
        self.last_read()
    }

    closed spec fn reads(&self, terms: Seq<RunEntry>) -> bool {
        expects(
            self.dict_bytes(),
            self.lex_bytes(),
            self.idx_bytes(),
            self.mask_size(),
            self.consumed(),
            self.last_read(),
            terms,
        )
    }

    closed spec fn position(&self) -> nat {
        self.consumed()
    }

    fn next_term(&mut self) -> (r: Option<IndexedTerm>) {
        IndexTermProvider::next_term(self)
    }
}

/// Reads the terms of a sorted run, one after another.
pub struct IndexTermProvider {
    dictionary: ByteReader,
    lexical_part: ByteReader,
    index_part: ByteReader,
    remaining_size: u64,
    mask_len: usize,
    last_term: Option<Vec<u8>>,
    consumed: u64,
}

/// What a provider reading `terms` from a run must have seen so far.
pub open spec fn expects(
    dict: Seq<u8>,
    lex: Seq<u8>,
    idx: Seq<u8>,
    n: nat,
    consumed: nat,
    last: Option<Seq<u8>>,
    terms: Seq<RunEntry>,
) -> bool {
    &&& run_holds(dict, lex, idx, terms, n)
    &&& forall|i: int| 0 <= i < terms.len() ==> postings_ok(#[trigger] terms[i].postings, n)
    &&& consumed < terms.len()
    &&& last == if consumed == 0 {
        None
    } else {
        Some(terms[consumed - 1].term)
    }
}

proof fn lemma_cursor_bytes_at(dict: Seq<u8>, i: int, c: IndexedCursor, rest: Seq<u8>)
    requires
        0 <= i,
        8 + 25 * i <= dict.len(),
        dict.skip(8 + 25 * i) == cursor_bytes(c) + rest,
    ensures
        cursor_at(dict, i) == c,
{
    let a = dict.skip(8 + 25 * i);
    assert(a =~= be_bytes(c.lexical_pointer) + (seq![c.lexical_index] + be_bytes(c.indexes_pointer) + be_bytes(c.use_count) + rest));
    lemma_be_round_trip(c.lexical_pointer, seq![c.lexical_index] + be_bytes(c.indexes_pointer) + be_bytes(c.use_count) + rest);
    assert(a.skip(9) =~= be_bytes(c.indexes_pointer) + (be_bytes(c.use_count) + rest));
    lemma_be_round_trip(c.indexes_pointer, be_bytes(c.use_count) + rest);
    assert(a.skip(17) =~= be_bytes(c.use_count) + rest);
    lemma_be_round_trip(c.use_count, rest);
}

impl IndexTermProvider {
    pub closed spec fn wf(&self) -> bool {
        &&& 1 <= self.mask_len <= 8
        &&& self.dictionary.contents().len() >= 8
        &&& self.dictionary.contents().len() <= usize::MAX
        &&& from_be_bytes(self.dictionary.contents()) == self.consumed + self.remaining_size
        &&& self.lexical_part.contents().len() <= usize::MAX
        &&& self.index_part.contents().len() <= usize::MAX
    }

    /// How many terms the header says are left.
    pub closed spec fn remaining(&self) -> nat {
        self.remaining_size as nat
    }

    /// How many terms were read.
    pub closed spec fn consumed(&self) -> nat {
        self.consumed as nat
    }

    /// The dictionary part.
    pub closed spec fn dict_bytes(&self) -> Seq<u8> {
        self.dictionary.contents()
    }

    /// The header counts the terms read and the terms left.
    pub proof fn lemma_header(&self)
        requires
            self.wf(),
        ensures
            from_be_bytes(self.dict_bytes()) == self.consumed() + self.remaining(),
    {
    }

    /// The lexical part.
    pub closed spec fn lex_bytes(&self) -> Seq<u8> {
        self.lexical_part.contents()
    }

    /// The index part.
    pub closed spec fn idx_bytes(&self) -> Seq<u8> {
        self.index_part.contents()
    }

    /// The bytes of a zone mask.
    pub closed spec fn mask_size(&self) -> nat {
        self.mask_len as nat
    }

    /// The bytes of the last term read, if any.
    pub closed spec fn last_read(&self) -> Option<Seq<u8>> {
        match self.last_term {
            Some(v) => Some(v@),
            None => None,
        }
    }

    /// Opens a run from its three parts; `None` when the dictionary is too
    /// short to hold its header.
    pub fn new(dictionary: Vec<u8>, lexical_part: Vec<u8>, index_part: Vec<u8>, mask_len: usize) -> (r:
        Option<IndexTermProvider>)
        requires
            1 <= mask_len <= 8,
        ensures
            r is Some <==> dictionary@.len() >= 8,
            r is Some ==> {
                &&& r->0.wf()
                &&& r->0.last_read() is None
                &&& r->0.consumed() == 0
                &&& r->0.remaining() == from_be_bytes(dictionary@)
                &&& r->0.dict_bytes() == dictionary@
                &&& r->0.lex_bytes() == lexical_part@
                &&& r->0.idx_bytes() == index_part@
                &&& r->0.mask_size() == mask_len
            },
    {
        let mut dictionary = ByteReader::new(dictionary);
        let remaining_size = match read_be_u64(&mut dictionary) {
            Some(v) => v,
            None => {
                return None;
            },
        };
        let r = IndexTermProvider {
            dictionary,
            lexical_part: ByteReader::new(lexical_part),
            index_part: ByteReader::new(index_part),
            remaining_size,
            mask_len,
            last_term: None,
            consumed: 0,
        };
        Some(r)
    }

    /// Reads a varint length, then that many bytes, from the lexical part.
    fn read_piece(&mut self) -> (r: Option<Vec<u8>>)
        requires
            old(self).wf(),
            old(self).lexical_part.remaining().len() <= usize::MAX,
        ensures
            final(self).wf(),
            final(self).remaining_size == old(self).remaining_size,
            final(self).last_term == old(self).last_term,
            final(self).mask_len == old(self).mask_len,
            final(self).consumed == old(self).consumed,
            final(self).dictionary == old(self).dictionary,
            final(self).index_part == old(self).index_part,
            final(self).lexical_part.contents() == old(self).lexical_part.contents(),
            r is Some ==> final(self).lexical_part.remaining().len() <= old(self).lexical_part.remaining().len(),
            piece(old(self).lexical_part.remaining()) is Some ==> r is Some && r->0@ == piece(
                old(self).lexical_part.remaining(),
            ).unwrap().0 && final(self).lexical_part.remaining() == old(self).lexical_part.remaining().skip(
                piece(old(self).lexical_part.remaining()).unwrap().1 as int,
            ),
    {
        let ghost s = self.lexical_part.remaining();
        let len = match variable_load(&mut self.lexical_part) {
            Some(l) => l,
            None => {
                return None;
            },
        };
        if len > usize::MAX as u64 {
            return None;
        }
        proof {
            crate::bytes::lemma_varint_u64_consumed(s);
        }
        let r = self.lexical_part.take(len as usize);
        proof {
            if piece(s) is Some {
                let (v, l) = varint_u64(s).unwrap();
                assert(s.skip(l as int).take(len as int) =~= s.subrange(l as int, l + len));
                assert(s.skip(l as int).skip(len as int) =~= s.skip(l + len));
            }
        }
        r
    }

    /// The bytes of the term at place `li` of the block at `lp`.
    fn read_term(&mut self, lp: u64, li: u8) -> (r: Option<Vec<u8>>)
        requires
            old(self).wf(),
        ensures
            final(self).wf(),
            final(self).remaining_size == old(self).remaining_size,
            final(self).last_term == old(self).last_term,
            final(self).mask_len == old(self).mask_len,
            final(self).consumed == old(self).consumed,
            final(self).dictionary == old(self).dictionary,
            final(self).index_part == old(self).index_part,
            final(self).lexical_part.contents() == old(self).lexical_part.contents(),
            lp <= old(self).lex_bytes().len() && term_in(old(self).lex_bytes().skip(lp as int), li as nat)
                is Some ==> r is Some && r->0@ == term_in(
                old(self).lex_bytes().skip(lp as int),
                li as nat,
            ).unwrap(),
    {
        let ghost lex = self.lexical_part.contents();
        let ghost ok = lp <= lex.len() && term_in(lex.skip(lp as int), li as nat) is Some;
        if lp > usize::MAX as u64 {
            return None;
        }
        if !self.lexical_part.seek(lp as usize) {
            return None;
        }
        let ghost s = self.lexical_part.remaining();
        let prefix = match self.read_piece() {
            Some(p) => p,
            None => {
                return None;
            },
        };
        let ghost s0 = self.lexical_part.remaining();
        proof {
            if ok {
                let (_, l) = piece(s).unwrap();
                assert(s0 == s.skip(l as int));
            }
        }
        let mut k: u8 = 0;
        while k < li
            invariant
                self.wf(),
                self.remaining_size == old(self).remaining_size,
                self.last_term == old(self).last_term,
                self.mask_len == old(self).mask_len,
                self.consumed == old(self).consumed,
                self.dictionary == old(self).dictionary,
                self.index_part == old(self).index_part,
                self.lexical_part.contents() == lex,
                lex == old(self).lex_bytes(),
                ok == (lp <= old(self).lex_bytes().len() && term_in(old(self).lex_bytes().skip(lp as int), li as nat) is Some),
                self.lexical_part.remaining().len() <= usize::MAX,
                k <= li,
                ok ==> skip_pieces(s0, k as nat) == Some(self.lexical_part.remaining()),
                ok ==> skip_pieces(s0, li as nat) is Some,
            decreases li - k,
        {
            proof {
                if ok {
                    crate::layout::lemma_skip_pieces_prefix(s0, k as nat, li as nat);
                    crate::layout::lemma_skip_pieces_step(s0, k as nat);
                }
            }
            let ghost before = self.lexical_part.remaining();
            match self.read_piece() {
                Some(_) => {},
                None => {
                    proof {
                        if ok {
                            assert(piece(before) is Some);
                        }
                    }
                    return None;
                },
            }
            k = k + 1;
        }
        let ghost t = self.lexical_part.remaining();
        let suffix = match self.read_piece() {
            Some(p) => p,
            None => {
                return None;
            },
        };
        let mut bytes = prefix;
        let ghost pre = bytes@;
        let mut j: usize = 0;
        while j < suffix.len()
            invariant
                j <= suffix@.len(),
                bytes@ == pre + suffix@.subrange(0, j as int),
            decreases suffix@.len() - j,
        {
            bytes.push(suffix[j]);
            j = j + 1;
            assert(bytes@ =~= pre + suffix@.subrange(0, j as int));
        }
        assert(suffix@.subrange(0, suffix@.len() as int) =~= suffix@);
        Some(bytes)
    }

    /// The next term of the run, or `None` at its end or where the bytes are
    /// malformed. Terms come out in strictly ascending byte order, and the
    /// document ids of each term's postings ascend strictly. A run that holds
    /// `terms` gives them back one by one, as they were written.
    #[verifier::spinoff_prover]
    #[verifier::rlimit(60)]
    pub fn next_term(&mut self) -> (r: Option<IndexedTerm>)
        requires
            old(self).wf(),
        ensures
            final(self).wf(),
            final(self).remaining() <= old(self).remaining(),
            final(self).dict_bytes() == old(self).dict_bytes(),
            final(self).lex_bytes() == old(self).lex_bytes(),
            final(self).idx_bytes() == old(self).idx_bytes(),
            final(self).mask_size() == old(self).mask_size(),
            old(self).remaining() == 0 ==> r is None,
            r is None ==> final(self).consumed() == old(self).consumed() && final(self).last_read()
                == old(self).last_read(),
            r is Some ==> {
                &&& r->0.wf()
                &&& final(self).remaining() + 1 == old(self).remaining()
                &&& final(self).consumed() == old(self).consumed() + 1
                &&& final(self).last_read() == Some(term_bytes(r->0.term@))
                &&& old(self).last_read() is Some ==> lex_lt(
                    old(self).last_read().unwrap(),
                    term_bytes(r->0.term@),
                )
            },
            forall|terms: Seq<RunEntry>|
                #[trigger] expects(
                    old(self).dict_bytes(),
                    old(self).lex_bytes(),
                    old(self).idx_bytes(),
                    old(self).mask_size(),
                    old(self).consumed(),
                    old(self).last_read(),
                    terms,
                ) ==> r is Some && term_bytes(r->0.term@) == terms[old(self).consumed() as int].term
                    && r->0.use_count == terms[old(self).consumed() as int].use_count
                    && r->0.indexes.entries_seq() == terms[old(self).consumed() as int].postings,
    {
        let ghost dict = self.dictionary.contents();
        let ghost lex = self.lexical_part.contents();
        let ghost idx = self.index_part.contents();
        let ghost i = self.consumed as nat;
        let ghost nn = self.mask_len as nat;
        let ghost last = self.last_read();
        if self.remaining_size == 0 {
            proof {
                assert forall|terms: Seq<RunEntry>|
                    #[trigger] expects(dict, lex, idx, nn, i, last, terms) implies false by {
                    lemma_be_round_trip(terms.len() as u64, Seq::empty());
                }
            }
            return None;
        }
        if self.consumed > ((usize::MAX - 8) / 25) as u64 || !self.dictionary.seek(8 + 25 * (self.consumed as usize)) {
            proof {
                assert forall|terms: Seq<RunEntry>|
                    #[trigger] expects(dict, lex, idx, nn, i, last, terms) implies false by {}
            }
            return None;
        }
        let next = match IndexedCursor::load(&mut self.dictionary) {
            Some(c) => c,
            None => {
                proof {
                    assert forall|terms: Seq<RunEntry>|
                        #[trigger] expects(dict, lex, idx, nn, i, last, terms) implies false by {}
                }
                return None;
            },
        };
        proof {
            lemma_cursor_bytes_at(dict, i as int, next, self.dictionary.remaining());
        }
        let bytes = match self.read_term(next.lexical_pointer, next.lexical_index) {
            Some(b) => b,
            None => {
                proof {
                    assert forall|terms: Seq<RunEntry>|
                        #[trigger] expects(dict, lex, idx, nn, i, last, terms) implies false by {
                        assert(entry_holds(dict, lex, idx, i as int, terms[i as int], nn));
                    }
                }
                return None;
            },
        };
        proof {
            assert forall|terms: Seq<RunEntry>|
                #[trigger] expects(dict, lex, idx, nn, i, last, terms) implies bytes@ == terms[i as int].term by {
                assert(entry_holds(dict, lex, idx, i as int, terms[i as int], nn));
            }
        }
        let ordered = match &self.last_term {
            Some(prev) => bytes_lt(prev.as_slice(), bytes.as_slice()),
            None => true,
        };
        if !ordered {
            proof {
                assert forall|terms: Seq<RunEntry>|
                    #[trigger] expects(dict, lex, idx, nn, i, last, terms) implies false by {
                    if i > 0 {
                        assert(lex_lt(terms[i - 1].term, terms[i as int].term));
                    }
                }
            }
            return None;
        }
        let kept = bytes.clone();
        assert(kept@ == bytes@);
        let term = match string_from_utf8(bytes) {
            Some(t) => t,
            None => {
                proof {
                    assert forall|terms: Seq<RunEntry>|
                        #[trigger] expects(dict, lex, idx, nn, i, last, terms) implies false by {
                        assert(valid_utf8(terms[i as int].term));
                    }
                }
                return None;
            },
        };
        if next.indexes_pointer > usize::MAX as u64 || !self.index_part.seek(next.indexes_pointer as usize) {
            proof {
                assert forall|terms: Seq<RunEntry>|
                    #[trigger] expects(dict, lex, idx, nn, i, last, terms) implies false by {
                    assert(entry_holds(dict, lex, idx, i as int, terms[i as int], nn));
                }
            }
            return None;
        }
        let ghost x0 = self.index_part.remaining();
        proof {
            assert forall|terms: Seq<RunEntry>|
                #[trigger] expects(dict, lex, idx, nn, i, last, terms) implies x0 == postings_bytes(
                terms[i as int].postings,
                nn,
            ) + idx.skip(next.indexes_pointer + postings_bytes(terms[i as int].postings, nn).len()) && postings_ok(terms[i as int].postings, nn) by {
                assert(entry_holds(dict, lex, idx, i as int, terms[i as int], nn));
                let pb = postings_bytes(terms[i as int].postings, nn);
                assert(idx.subrange(next.indexes_pointer as int, next.indexes_pointer + pb.len()) == pb);
                assert(x0 =~= pb + idx.skip(next.indexes_pointer + pb.len()));
            }
        }
        let indexes = match load_postings(&mut self.index_part, self.mask_len) {
            Some(m) => m,
            None => {
                proof {
                    assert forall|terms: Seq<RunEntry>|
                        #[trigger] expects(dict, lex, idx, nn, i, last, terms) implies false by {
                        let pb = postings_bytes(terms[i as int].postings, nn);
                        let rest = idx.skip(next.indexes_pointer + pb.len());
                        assert(x0 == pb + rest);
                    }
                }
                return None;
            },
        };
        proof {
            assert forall|terms: Seq<RunEntry>|
                #[trigger] expects(dict, lex, idx, nn, i, last, terms) implies indexes.entries_seq() == terms[i as int].postings by {
                let pb = postings_bytes(terms[i as int].postings, nn);
                let rest = idx.skip(next.indexes_pointer + pb.len());
                assert(x0 == pb + rest);
            }
        }
        self.remaining_size = self.remaining_size - 1;
        self.last_term = Some(kept);
        self.consumed = self.consumed + 1;
        proof {
            vstd::utf8::encode_utf8_decode_utf8(term@);
            assert forall|terms: Seq<RunEntry>|
                #[trigger] expects(dict, lex, idx, nn, i, last, terms) implies term_bytes(term@) == terms[i as int].term
                    && next.use_count == terms[i as int].use_count
                    && indexes.entries_seq() == terms[i as int].postings by {
                assert(entry_holds(dict, lex, idx, i as int, terms[i as int], nn));
            }
        }
        Some(IndexedTerm { term, use_count: next.use_count, indexes })
    }
}

/// The three parts of a run, read at random: a term by its cursor.
pub struct Dictionary {
    run: IndexTermProvider,
}

impl Dictionary {
    pub closed spec fn wf(&self) -> bool {
        self.run.wf()
    }

    /// The dictionary part.
    pub closed spec fn dict_bytes(&self) -> Seq<u8> {
        self.run.dict_bytes()
    }

    /// The lexical part.
    pub closed spec fn lex_bytes(&self) -> Seq<u8> {
        self.run.lex_bytes()
    }

    /// The index part.
    pub closed spec fn idx_bytes(&self) -> Seq<u8> {
        self.run.idx_bytes()
    }

    /// The bytes of a zone mask.
    pub closed spec fn mask_size(&self) -> nat {
        self.run.mask_size()
    }

    /// Opens the three parts of a run; `None` when the dictionary part is
    /// too short to hold its header.
    pub fn new(pointer_part: Vec<u8>, lexical_part: Vec<u8>, index_part: Vec<u8>, mask_len: usize) -> (r:
        Option<Dictionary>)
        requires
            1 <= mask_len <= 8,
        ensures
            r is Some <==> pointer_part@.len() >= 8,
            r is Some ==> {
                &&& r->0.wf()
                &&& r->0.dict_bytes() == pointer_part@
                &&& r->0.lex_bytes() == lexical_part@
                &&& r->0.idx_bytes() == index_part@
                &&& r->0.mask_size() == mask_len
            },
    {
        match IndexTermProvider::new(pointer_part, lexical_part, index_part, mask_len) {
            Some(run) => Some(Dictionary { run }),
            None => None,
        }
    }

    /// The cursor of term `index` (counted from zero): the one stored there,
    /// whenever the dictionary part is long enough to hold it.
    pub fn cursor(&mut self, index: u64) -> (r: Option<IndexedCursor>)
        requires
            old(self).wf(),
        ensures
            final(self).wf(),
            final(self).dict_bytes() == old(self).dict_bytes(),
            final(self).lex_bytes() == old(self).lex_bytes(),
            final(self).idx_bytes() == old(self).idx_bytes(),
            final(self).mask_size() == old(self).mask_size(),
            r is Some ==> r->0 == cursor_at(old(self).dict_bytes(), index as int),
            8 + 25 * (index + 1) <= old(self).dict_bytes().len() ==> r is Some,
    {
        if index > (usize::MAX as u64 - 8) / 25 {
            return None;
        }
        let at = 8 + 25 * (index as usize);
        if !self.run.dictionary.seek(at) {
            return None;
        }
        let ghost d = self.run.dictionary.remaining();
        let r = IndexedCursor::load(&mut self.run.dictionary);
        proof {
            if r is Some {
                lemma_cursor_bytes_at(self.run.dictionary.contents(), index as int, r->0, self.run.dictionary.remaining());
            }
        }
        r
    }

    /// The term that `cursor` points at: the block prefix, the suffixes
    /// before it skipped, its own suffix, and its postings. Where the parts
    /// hold `terms` and `cursor` is the one stored for term `i`, it is that
    /// term; `None` where the bytes are malformed.
    pub fn get_term(&mut self, cursor: &IndexedCursor) -> (r: Option<IndexedTerm>)
        requires
            old(self).wf(),
        ensures
            final(self).wf(),
            final(self).dict_bytes() == old(self).dict_bytes(),
            final(self).lex_bytes() == old(self).lex_bytes(),
            final(self).idx_bytes() == old(self).idx_bytes(),
            final(self).mask_size() == old(self).mask_size(),
            r is Some ==> r->0.wf() && r->0.use_count == cursor.use_count,
            forall|terms: Seq<RunEntry>, i: int|
                #![trigger run_holds(old(self).dict_bytes(), old(self).lex_bytes(), old(self).idx_bytes(), terms, old(self).mask_size()), cursor_at(old(self).dict_bytes(), i)]
                run_holds(old(self).dict_bytes(), old(self).lex_bytes(), old(self).idx_bytes(), terms, old(self).mask_size())
                    && (forall|j: int| 0 <= j < terms.len() ==> postings_ok(#[trigger] terms[j].postings, old(self).mask_size()))
                    && 0 <= i < terms.len() && *cursor == cursor_at(old(self).dict_bytes(), i)
                    ==> r is Some && term_bytes(r->0.term@) == terms[i].term && r->0.use_count == terms[i].use_count
                    && r->0.indexes.entries_seq() == terms[i].postings,
    {
        let ghost dict = self.dict_bytes();
        let ghost lex = self.lex_bytes();
        let ghost idx = self.idx_bytes();
        let ghost nn = self.mask_size();
        let bytes = match self.run.read_term(cursor.lexical_pointer, cursor.lexical_index) {
            Some(b) => b,
            None => {
                proof {
                    assert forall|terms: Seq<RunEntry>, i: int|
                        #![trigger run_holds(dict, lex, idx, terms, nn), cursor_at(dict, i)]
                        run_holds(dict, lex, idx, terms, nn)
                            && 0 <= i < terms.len() && *cursor == cursor_at(dict, i) implies false by {
                        assert(entry_holds(dict, lex, idx, i, terms[i], nn));
                    }
                }
                return None;
            },
        };
        let term = match string_from_utf8(bytes) {
            Some(t) => t,
            None => {
                proof {
                    assert forall|terms: Seq<RunEntry>, i: int|
                        #![trigger run_holds(dict, lex, idx, terms, nn), cursor_at(dict, i)]
                        run_holds(dict, lex, idx, terms, nn)
                            && 0 <= i < terms.len() && *cursor == cursor_at(dict, i) implies false by {
                        assert(entry_holds(dict, lex, idx, i, terms[i], nn));
                        assert(valid_utf8(terms[i].term));
                    }
                }
                return None;
            },
        };
        if cursor.indexes_pointer > usize::MAX as u64 || !self.run.index_part.seek(cursor.indexes_pointer as usize) {
            proof {
                assert forall|terms: Seq<RunEntry>, i: int|
                    #![trigger run_holds(dict, lex, idx, terms, nn), cursor_at(dict, i)]
                    run_holds(dict, lex, idx, terms, nn)
                        && 0 <= i < terms.len() && *cursor == cursor_at(dict, i) implies false by {
                    assert(entry_holds(dict, lex, idx, i, terms[i], nn));
                }
            }
            return None;
        }
        let ghost x0 = self.run.index_part.remaining();
        proof {
            assert forall|terms: Seq<RunEntry>, i: int|
                #![trigger run_holds(dict, lex, idx, terms, nn), cursor_at(dict, i)]
                run_holds(dict, lex, idx, terms, nn)
                    && 0 <= i < terms.len() && *cursor == cursor_at(dict, i) implies x0 == postings_bytes(
                terms[i].postings,
                nn,
            ) + idx.skip(cursor.indexes_pointer + postings_bytes(terms[i].postings, nn).len()) by {
                assert(entry_holds(dict, lex, idx, i, terms[i], nn));
                let pb = postings_bytes(terms[i].postings, nn);
                assert(idx.subrange(cursor.indexes_pointer as int, cursor.indexes_pointer + pb.len()) == pb);
                assert(x0 =~= pb + idx.skip(cursor.indexes_pointer + pb.len()));
            }
        }
        let indexes = match load_postings(&mut self.run.index_part, self.run.mask_len) {
            Some(m) => m,
            None => {
                proof {
                    assert forall|terms: Seq<RunEntry>, i: int|
                        #![trigger run_holds(dict, lex, idx, terms, nn), cursor_at(dict, i)]
                        run_holds(dict, lex, idx, terms, nn)
                            && (forall|j: int| 0 <= j < terms.len() ==> postings_ok(#[trigger] terms[j].postings, nn))
                            && 0 <= i < terms.len() && *cursor == cursor_at(dict, i) implies false by {
                        let pb = postings_bytes(terms[i].postings, nn);
                        let rest = idx.skip(cursor.indexes_pointer + pb.len());
                        assert(x0 == pb + rest);
                        assert(postings_ok(terms[i].postings, nn));
                    }
                }
                return None;
            },
        };
        proof {
            vstd::utf8::encode_utf8_decode_utf8(term@);
            assert forall|terms: Seq<RunEntry>, i: int|
                #![trigger run_holds(dict, lex, idx, terms, nn), cursor_at(dict, i)]
                run_holds(dict, lex, idx, terms, nn)
                    && (forall|j: int| 0 <= j < terms.len() ==> postings_ok(#[trigger] terms[j].postings, nn))
                    && 0 <= i < terms.len() && *cursor == cursor_at(dict, i) implies term_bytes(term@) == terms[i].term
                    && cursor.use_count == terms[i].use_count && indexes.entries_seq() == terms[i].postings by {
                assert(entry_holds(dict, lex, idx, i, terms[i], nn));
                let pb = postings_bytes(terms[i].postings, nn);
                let rest = idx.skip(cursor.indexes_pointer + pb.len());
                assert(x0 == pb + rest);
                assert(postings_ok(terms[i].postings, nn));
            }
        }
        Some(IndexedTerm { term, use_count: cursor.use_count, indexes })
    }
}

} // verus!
