//! The k-way merge of sorted runs into one dictionary, and the pieces the
//! pipeline is configured with.
use crate::bytes::{be_bytes, ByteReader};
use crate::indexed::{string_bytes, term_bytes, IndexedTerm, Term};
use crate::lexical::{bytes_eq, bytes_lt, lemma_lex_total, lemma_lex_trans, lex_lt};
use crate::listmap::CommonSegments;
use crate::parser::IndexParser;
use crate::reader::ZoneRepeatedReader;
use crate::rep_reader::RepeatedXmlReader;
use crate::codec::postings_ok;
use crate::listmap::{entries_map, merge_postings, PostingView};
use crate::run::{entry_of, expects, run_holds, IndexMergeSaver, IndexTermProvider, RunEntry};
use vstd::prelude::*;

verus! {

/// The documents of the corpus: for every input file its name and how
/// many zone elements of it were numbered, and for every document id the
/// file and the element it stands for.
pub struct IndexPositions {
    pub names: Vec<(String, usize)>,
    pub ids: Vec<(usize, usize)>,
}

impl IndexPositions {
    pub fn new(names: Vec<String>) -> (r: IndexPositions)
        ensures
            r.names@.len() == names@.len(),
            forall|i: int| 0 <= i < names@.len() ==> #[trigger] r.names@[i] == (names@[i], 0usize),
            r.ids@.len() == 0,
    {
        let mut out: Vec<(String, usize)> = Vec::new();
        let mut names = names;
        let n = names.len();
        let mut rev: Vec<String> = Vec::new();
        let ghost orig = names@;
        while names.len() > 0
            invariant
                names@.len() + rev@.len() == n,
                n == orig.len(),
                forall|j: int| 0 <= j < names@.len() ==> #[trigger] names@[j] == orig[j],
                forall|j: int| 0 <= j < rev@.len() ==> #[trigger] rev@[j] == orig[n - 1 - j],
            decreases names@.len(),
        {
            let s = names.pop().unwrap();
            rev.push(s);
        }
        while rev.len() > 0
            invariant
                rev@.len() + out@.len() == n,
                n == orig.len(),
                forall|j: int| 0 <= j < rev@.len() ==> #[trigger] rev@[j] == orig[n - 1 - j],
                forall|j: int| 0 <= j < out@.len() ==> #[trigger] out@[j] == (orig[j], 0usize),
            decreases rev@.len(),
        {
            let ghost k = rev@.len() - 1;
            assert(rev@[k] == orig[n - 1 - k]);
            let s = rev.pop().unwrap();
            out.push((s, 0));
        }
        IndexPositions { names: out, ids: Vec::new() }
    }

    /// Numbers the next zone element of file `name_index` and gives the new
    /// document id.
    pub fn put(&mut self, name_index: usize) -> (r: usize)
        requires
            name_index < old(self).names@.len(),
            old(self).names@[name_index as int].1 < usize::MAX,
        ensures
            r == old(self).ids@.len(),
            final(self).ids@ == old(self).ids@.push((name_index, old(self).names@[name_index as int].1)),
            final(self).names@ == old(self).names@.update(
                name_index as int,
                (old(self).names@[name_index as int].0, (old(self).names@[name_index as int].1 + 1) as usize),
            ),
    {
        let (name, count) = self.names.remove(name_index);
        self.ids.push((name_index, count));
        self.names.insert(name_index, (name, count + 1));
        assert(self.names@ =~= old(self).names@.update(
            name_index as int,
            (old(self).names@[name_index as int].0, (old(self).names@[name_index as int].1 + 1) as usize),
        ));
        self.ids.len() - 1
    }
}

/// Picks the bit of a zone in a zone mask.
pub struct CommonSegmentSelector {}

impl CommonSegmentSelector {
    pub fn new() -> (r: CommonSegmentSelector) {
        CommonSegmentSelector {  }
    }

    /// Marks zone `zone` in `segments`.
    pub fn apply(&self, zone: usize, segments: &mut CommonSegments)
        requires
            zone < 64,
        ensures
            final(segments).bits == old(segments).bits | (1u64 << zone as u64),
    {
        segments.set_zone(zone);
    }
}

/// Makes accumulators and tokenizers for one configuration.
pub struct IndexedBuilder {
    pub tree_max_size: usize,
    pub lexical_max_size: u8,
    pub attributes: Vec<String>,
}

impl IndexedBuilder {
    pub open spec fn wf(&self) -> bool {
        1 <= self.lexical_max_size && 1 <= self.attributes@.len() <= 64
    }

    pub fn new(tree_max_size: usize, lexical_max_size: u8, attributes: Vec<String>) -> (r:
        IndexedBuilder)
        requires
            1 <= lexical_max_size,
            1 <= attributes@.len() <= 64,
        ensures
            r.wf(),
            r == (IndexedBuilder { tree_max_size, lexical_max_size, attributes }),
    {
        IndexedBuilder { tree_max_size, lexical_max_size, attributes }
    }

    /// A fresh, empty accumulator.
    pub fn build(&self) -> (r: IndexParser)
        requires
            self.wf(),
        ensures
            r.wf(),
            r.capacity() == self.tree_max_size,
            r.block_size() == self.lexical_max_size,
            r.terms() == Seq::<crate::indexed::TermView>::empty(),
            self.attributes@.len() <= 8 * r.mask_size(),
    {
        IndexParser::new(self.tree_max_size, self.lexical_max_size, self.attributes.len())
    }

    /// A tokenizer over `bytes` for the configured zones.
    pub fn reader_from_bytes(&self, bytes: Vec<u8>) -> (r: RepeatedXmlReader)
        requires
            self.wf(),
        ensures
            r.wf(),
            r.zone_count() <= 64,
            r.zone_count() == self.attributes@.len(),
            r.zone_index() == 0,
            r.zones() == self.attributes@.map_values(|s: String| s@),
            r.unread() == bytes@,
            !r.inside(),
            r.pending() is None,
    {
        let mut zones: Vec<String> = Vec::new();
        let mut i: usize = 0;
        while i < self.attributes.len()
            invariant
                i <= self.attributes@.len(),
                zones@.len() == i,
                forall|k: int| 0 <= k < i ==> #[trigger] zones@[k] == self.attributes@[k],
            decreases self.attributes@.len() - i,
        {
            zones.push(self.attributes[i].clone());
            i = i + 1;
        }
        RepeatedXmlReader::new(ByteReader::new(bytes), zones)
    }

    /// How many bytes a zone mask takes.
    pub fn mask_len(&self) -> (r: usize)
        requires
            self.wf(),
        ensures
            1 <= r <= 8,
    {
        (self.attributes.len() + 7) / 8
    }
}

/// What a run holds of one term, as a value: its count and its postings.
pub ghost struct Total {
    pub count: nat,
    pub postings: Map<u64, PostingView>,
}

/// The record `e` as a value.
pub open spec fn total_of(e: RunEntry) -> Total {
    Total { count: e.use_count as nat, postings: entries_map(e.postings) }
}

/// Two records of one term taken together.
pub open spec fn add_total(a: Total, b: Total) -> Total {
    Total { count: a.count + b.count, postings: merge_postings(a.postings, b.postings) }
}

/// `run` has a record of the term `x`.
pub open spec fn holds_term(run: Seq<RunEntry>, x: Seq<u8>) -> bool {
    exists|i: int| 0 <= i < run.len() && run[i].term == x
}

/// The record of `x` in `run`.
pub open spec fn entry_for(run: Seq<RunEntry>, x: Seq<u8>) -> RunEntry {
    run[choose|i: int| 0 <= i < run.len() && run[i].term == x]
}

/// The records of `x` in the first `k` runs taken together, in the order
/// of the runs; `None` when none of them holds `x`.
pub open spec fn total_in(runs: Seq<Seq<RunEntry>>, x: Seq<u8>, k: int) -> Option<Total>
    decreases k,
{
    if k <= 0 {
        None
    } else {
        let prev = total_in(runs, x, k - 1);
        if holds_term(runs[k - 1], x) {
            let t = total_of(entry_for(runs[k - 1], x));
            Some(
                match prev {
                    Some(p) => add_total(p, t),
                    None => t,
                },
            )
        } else {
            prev
        }
    }
}

/// Terms strictly ascending.
pub open spec fn ascending_terms(run: Seq<RunEntry>) -> bool {
    forall|i: int, j: int| 0 <= i < j < run.len() ==> lex_lt(#[trigger] run[i].term, #[trigger] run[j].term)
}

/// Some run of `runs` has a record of `x`.
pub open spec fn held_by_some(runs: Seq<Seq<RunEntry>>, x: Seq<u8>) -> bool {
    exists|j: int| 0 <= j < runs.len() && holds_term(runs[j], x)
}

/// `out` is the merge of `runs`: its terms strictly ascending, each term
/// of a run in it and each of its terms in a run, and the record of each
/// term the records of all runs that hold it taken together.
pub open spec fn merged(runs: Seq<Seq<RunEntry>>, out: Seq<RunEntry>) -> bool {
    &&& ascending_terms(out)
    &&& forall|k: int| 0 <= k < out.len() ==> #[trigger] held_by_some(runs, out[k].term)
    &&& forall|j: int, i: int| 0 <= j < runs.len() && 0 <= i < runs[j].len() ==> #[trigger] holds_term(out, runs[j][i].term)
    &&& forall|k: int| 0 <= k < out.len() ==> #[trigger] total_in(runs, out[k].term, runs.len() as int) == Some(total_of(out[k]))
}

/// Provider `p` has read nothing yet and reads the run `run`.
pub open spec fn fresh_run(p: IndexTermProvider, run: Seq<RunEntry>) -> bool {
    &&& run_holds(p.dict_bytes(), p.lex_bytes(), p.idx_bytes(), run, p.mask_size())
    &&& forall|i: int| 0 <= i < run.len() ==> postings_ok(#[trigger] run[i].postings, p.mask_size())
    &&& p.consumed() == 0
    &&& p.last_read() is None
}

proof fn lemma_adjacent_ascending(run: Seq<RunEntry>)
    requires
        forall|i: int| 0 < i < run.len() ==> lex_lt(#[trigger] run[i - 1].term, run[i].term),
    ensures
        ascending_terms(run),
    decreases run.len(),
{
    if run.len() > 0 {
        let p = run.drop_last();
        assert forall|i: int| 0 < i < p.len() implies lex_lt(#[trigger] p[i - 1].term, p[i].term) by {
            assert(p[i - 1] == run[i - 1] && p[i] == run[i]);
        }
        lemma_adjacent_ascending(p);
        assert forall|i: int, j: int| 0 <= i < j < run.len() implies lex_lt(#[trigger] run[i].term, #[trigger] run[j].term) by {
            if j < run.len() - 1 {
                assert(p[i] == run[i] && p[j] == run[j]);
            } else if i < j - 1 {
                assert(p[i] == run[i] && p[j - 1] == run[j - 1]);
                assert(lex_lt(run[j - 1].term, run[j].term));
                lemma_lex_trans(run[i].term, run[j - 1].term, run[j].term);
            }
        }
    }
}

proof fn lemma_entry_for(run: Seq<RunEntry>, i: int)
    requires
        ascending_terms(run),
        0 <= i < run.len(),
    ensures
        holds_term(run, run[i].term),
        entry_for(run, run[i].term) == run[i],
{
    let x = run[i].term;
    let j = choose|j: int| 0 <= j < run.len() && run[j].term == x;
    if j != i {
        lemma_lex_total(x, x);
    }
}

proof fn lemma_total_in_none(runs: Seq<Seq<RunEntry>>, x: Seq<u8>, k: int)
    requires
        0 <= k <= runs.len(),
        forall|j: int| 0 <= j < k ==> !#[trigger] holds_term(runs[j], x),
    ensures
        total_in(runs, x, k) is None,
    decreases k,
{
    if k > 0 {
        lemma_total_in_none(runs, x, k - 1);
    }
}

/// Changing runs that do not hold `x` by records of other terms leaves the
/// total of `x` alone.
proof fn lemma_total_in_same(a: Seq<Seq<RunEntry>>, b: Seq<Seq<RunEntry>>, x: Seq<u8>, k: int)
    requires
        0 <= k <= a.len(),
        a.len() == b.len(),
        forall|j: int| 0 <= j < k ==> (#[trigger] holds_term(a[j], x) <==> holds_term(b[j], x)),
        forall|j: int| 0 <= j < k && holds_term(a[j], x) ==> #[trigger] entry_for(a[j], x) == entry_for(b[j], x),
    ensures
        total_in(a, x, k) == total_in(b, x, k),
    decreases k,
{
    if k > 0 {
        lemma_total_in_same(a, b, x, k - 1);
        assert(holds_term(a[k - 1], x) <==> holds_term(b[k - 1], x));
        if holds_term(a[k - 1], x) {
            assert(entry_for(a[k - 1], x) == entry_for(b[k - 1], x));
        }
    }
}

/// Appending a record of another term leaves what a run holds of `x`.
proof fn lemma_push_other(run: Seq<RunEntry>, e: RunEntry, x: Seq<u8>)
    requires
        e.term != x,
        ascending_terms(run),
    ensures
        holds_term(run.push(e), x) <==> holds_term(run, x),
        holds_term(run, x) ==> entry_for(run.push(e), x) == entry_for(run, x),
{
    let r2 = run.push(e);
    if holds_term(run, x) {
        let i = choose|i: int| 0 <= i < run.len() && run[i].term == x;
        assert(r2[i].term == x);
        let j = choose|j: int| 0 <= j < r2.len() && r2[j].term == x;
        assert(j < run.len());
        assert(r2[j] == run[j]);
        lemma_entry_for(run, i);
        lemma_entry_for(run, j);
    }
    if holds_term(r2, x) {
        let j = choose|j: int| 0 <= j < r2.len() && r2[j].term == x;
        assert(j < run.len());
        assert(run[j].term == x);
    }
}


/// What the merge knows of provider `p` that started as `p0`, with head
/// `h`, after it handed out the records `g`.
pub open spec fn provider_state(p0: IndexTermProvider, p: IndexTermProvider, h: Option<IndexedTerm>, g: Seq<RunEntry>) -> bool {
    &&& p.dict_bytes() == p0.dict_bytes()
    &&& p.lex_bytes() == p0.lex_bytes()
    &&& p.idx_bytes() == p0.idx_bytes()
    &&& p.mask_size() == p0.mask_size()
    &&& p.consumed() == p0.consumed() + g.len()
    &&& ascending_terms(g)
    &&& p.last_read() == if g.len() == 0 {
        p0.last_read()
    } else {
        Some(g.last().term)
    }
    &&& h is Some ==> g.len() > 0 && entry_of(h->0) == g.last() && term_bytes(h->0.term@) == g.last().term
    &&& forall|run: Seq<RunEntry>| #[trigger] fresh_run(p0, run) ==> g.len() <= run.len() && g == run.take(g.len() as int)
}

/// A provider without a head has handed out its whole run.
pub open spec fn exhausted_state(p0: IndexTermProvider, h: Option<IndexedTerm>, g: Seq<RunEntry>) -> bool {
    forall|run: Seq<RunEntry>| #[trigger] fresh_run(p0, run) && h is None ==> g.len() == run.len()
}

/// The records of provider `j` that were merged already: all but its head.
pub open spec fn taken(got: Seq<Seq<RunEntry>>, heads: Seq<Option<IndexedTerm>>, j: int) -> int {
    got[j].len() - if heads[j] is Some {
        1int
    } else {
        0int
    }
}

/// Between merge steps: the terms written so far ascend, each merged record
/// was written, each written term came from a provider, every head comes
/// after every written term, and each written record is the total of its
/// term over the records handed out.
pub open spec fn merge_state(got: Seq<Seq<RunEntry>>, heads: Seq<Option<IndexedTerm>>, out: Seq<RunEntry>) -> bool {
    &&& got.len() == heads.len()
    &&& ascending_terms(out)
    &&& forall|j: int, i: int| 0 <= j < got.len() && 0 <= i < taken(got, heads, j) ==> #[trigger] holds_term(out, got[j][i].term)
    &&& forall|k: int| 0 <= k < out.len() ==> #[trigger] held_by_some(got, out[k].term)
    &&& forall|k: int, j: int|
        0 <= k < out.len() && 0 <= j < heads.len() && #[trigger] heads[j] is Some ==> lex_lt(#[trigger] out[k].term, term_bytes(heads[j]->0.term@))
    &&& forall|k: int| 0 <= k < out.len() ==> #[trigger] total_in(got, out[k].term, got.len() as int) == Some(total_of(out[k]))
}

/// While the records of `x` are being combined: providers from `j` on
/// are still as between steps, and the total of `x` over the first `j`
/// providers is `t`.
pub open spec fn combine_state(
    got: Seq<Seq<RunEntry>>,
    heads: Seq<Option<IndexedTerm>>,
    out: Seq<RunEntry>,
    x: Seq<u8>,
    j: int,
    t: Total,
) -> bool {
    &&& got.len() == heads.len()
    &&& 0 < j <= got.len()
    &&& ascending_terms(out)
    &&& forall|k: int| 0 <= k < out.len() ==> lex_lt(#[trigger] out[k].term, x)
    &&& forall|q: int, i: int|
        0 <= q < got.len() && 0 <= i < taken(got, heads, q) ==> #[trigger] holds_term(out, got[q][i].term) || got[q][i].term == x
    &&& forall|q: int, i: int|
        j <= q < got.len() && 0 <= i < taken(got, heads, q) ==> #[trigger] holds_term(out, got[q][i].term)
    &&& forall|k: int| 0 <= k < out.len() ==> #[trigger] held_by_some(got, out[k].term)
    &&& held_by_some(got, x)
    &&& forall|k: int, q: int|
        0 <= k < out.len() && 0 <= q < heads.len() && #[trigger] heads[q] is Some ==> lex_lt(#[trigger] out[k].term, term_bytes(heads[q]->0.term@))
    &&& forall|k: int| 0 <= k < out.len() ==> #[trigger] total_in(got, out[k].term, got.len() as int) == Some(total_of(out[k]))
    &&& total_in(got, x, j) == Some(t)
}

proof fn lemma_ascending_push(g: Seq<RunEntry>, e: RunEntry)
    requires
        ascending_terms(g),
        g.len() > 0 ==> lex_lt(g.last().term, e.term),
    ensures
        ascending_terms(g.push(e)),
{
    let g2 = g.push(e);
    assert forall|a: int, b: int| 0 <= a < b < g2.len() implies lex_lt(#[trigger] g2[a].term, #[trigger] g2[b].term) by {
        if b == g.len() {
            if a < g.len() - 1 {
                lemma_lex_trans(g[a].term, g.last().term, e.term);
            }
        } else {
            assert(g2[a] == g[a] && g2[b] == g[b]);
        }
    }
}

proof fn lemma_step_state(
    p0: IndexTermProvider,
    pb: IndexTermProvider,
    pa: IndexTermProvider,
    hb: Option<IndexedTerm>,
    ha: Option<IndexedTerm>,
    gb: Seq<RunEntry>,
)
    requires
        provider_state(p0, pb, hb, gb),
        pb.wf(),
        pa.dict_bytes() == pb.dict_bytes(),
        pa.lex_bytes() == pb.lex_bytes(),
        pa.idx_bytes() == pb.idx_bytes(),
        pa.mask_size() == pb.mask_size(),
        ha is Some ==> pa.consumed() == pb.consumed() + 1 && pa.last_read() == Some(term_bytes(ha->0.term@))
            && (pb.last_read() is Some ==> lex_lt(pb.last_read().unwrap(), term_bytes(ha->0.term@))),
        ha is None ==> pa.consumed() == pb.consumed() && pa.last_read() == pb.last_read(),
        pb.remaining() == 0 ==> ha is None,
        forall|terms: Seq<RunEntry>|
            #[trigger] expects(pb.dict_bytes(), pb.lex_bytes(), pb.idx_bytes(), pb.mask_size(), pb.consumed(), pb.last_read(), terms)
                ==> ha is Some && entry_of(ha->0) == terms[pb.consumed() as int],
    ensures
        ({
            let ga = if ha is Some {
                gb.push(entry_of(ha->0))
            } else {
                gb
            };
            provider_state(p0, pa, ha, ga) && exhausted_state(p0, ha, ga)
        }),
{
    let ga = if ha is Some {
        gb.push(entry_of(ha->0))
    } else {
        gb
    };
    if ha is Some {
        let e = entry_of(ha->0);
        lemma_ascending_push(gb, e);
        assert(ga.last() == e);
    }
    assert forall|run: Seq<RunEntry>| #[trigger] fresh_run(p0, run) implies ga.len() <= run.len() && ga == run.take(ga.len() as int) && (ha is None ==> ga.len() == run.len()) by {
        let c = gb.len();
        assert(gb == run.take(c as int));
        pb.lemma_header();
        if c < run.len() {
            if c > 0 {
                assert(gb.last() == run[c - 1]);
            }
            assert(expects(pb.dict_bytes(), pb.lex_bytes(), pb.idx_bytes(), pb.mask_size(), pb.consumed(), pb.last_read(), run));
            assert(ha is Some);
            assert(ga =~= run.take((c + 1) as int));
        } else {
            assert(pb.remaining() == 0);
        }
    }
}

proof fn lemma_done(got: Seq<Seq<RunEntry>>, heads: Seq<Option<IndexedTerm>>, out: Seq<RunEntry>)
    requires
        merge_state(got, heads, out),
        forall|q: int| 0 <= q < heads.len() ==> #[trigger] heads[q] is None,
    ensures
        merged(got, out),
{
    assert forall|j: int, i: int| 0 <= j < got.len() && 0 <= i < got[j].len() implies #[trigger] holds_term(out, got[j][i].term) by {
        assert(heads[j] is None);
        assert(i < taken(got, heads, j));
    }
}


/// Provider `j` moved on: its old head was handed out before, a new head
/// (after `x`) may have come, and nothing else changed.
pub open spec fn moved_on(
    g0: Seq<Seq<RunEntry>>,
    got: Seq<Seq<RunEntry>>,
    h0: Seq<Option<IndexedTerm>>,
    heads: Seq<Option<IndexedTerm>>,
    j: int,
    x: Seq<u8>,
) -> bool {
    &&& got.len() == g0.len()
    &&& heads.len() == h0.len()
    &&& g0.len() == h0.len()
    &&& 0 <= j < g0.len()
    &&& forall|q: int| 0 <= q < g0.len() && q != j ==> #[trigger] got[q] == g0[q] && heads[q] == h0[q]
    &&& h0[j] is Some && term_bytes(h0[j]->0.term@) == x
    &&& g0[j].len() > 0 && g0[j].last() == entry_of(h0[j]->0)
    &&& ascending_terms(g0[j])
    &&& heads[j] is Some ==> got[j] == g0[j].push(entry_of(heads[j]->0)) && lex_lt(x, term_bytes(heads[j]->0.term@))
    &&& heads[j] is None ==> got[j] == g0[j]
}

proof fn lemma_moved_on(
    g0: Seq<Seq<RunEntry>>,
    got: Seq<Seq<RunEntry>>,
    h0: Seq<Option<IndexedTerm>>,
    heads: Seq<Option<IndexedTerm>>,
    j: int,
    x: Seq<u8>,
    t: Seq<u8>,
)
    requires
        moved_on(g0, got, h0, heads, j, x),
        t == x || lex_lt(t, x),
    ensures
        ascending_terms(got[j]),
        holds_term(got[j], x),
        entry_for(got[j], x) == g0[j].last(),
        forall|q: int| 0 <= q < got.len() ==> (#[trigger] holds_term(got[q], t) <==> holds_term(g0[q], t)),
        forall|q: int| 0 <= q < got.len() && holds_term(got[q], t) ==> #[trigger] entry_for(got[q], t) == entry_for(g0[q], t),
        forall|q: int, i: int| 0 <= q < got.len() && 0 <= i < g0[q].len() ==> #[trigger] got[q][i] == g0[q][i],
        got[j][g0[j].len() - 1] == g0[j].last(),
{
    let n = g0[j].len();
    if heads[j] is Some {
        let e = entry_of(heads[j]->0);
        lemma_ascending_push(g0[j], e);
        lemma_lex_total(x, x);
        lemma_lex_total(t, t);
        if e.term == t && t != x {
            lemma_lex_trans(t, x, t);
        }
        lemma_push_other(g0[j], e, t);
    }
    assert(got[j][n - 1] == g0[j][n - 1]);
    lemma_entry_for(got[j], n - 1);
    assert forall|q: int| 0 <= q < got.len() implies (#[trigger] holds_term(got[q], t) <==> holds_term(g0[q], t)) by {
        if q != j {
            assert(got[q] == g0[q]);
        }
    }
    assert forall|q: int| 0 <= q < got.len() && holds_term(got[q], t) implies #[trigger] entry_for(got[q], t) == entry_for(g0[q], t) by {
        if q != j {
            assert(got[q] == g0[q]);
        }
    }
    assert forall|q: int, i: int| 0 <= q < got.len() && 0 <= i < g0[q].len() implies #[trigger] got[q][i] == g0[q][i] by {
        if q != j {
            assert(got[q] == g0[q]);
        }
    }
}

/// A term written already is none of the heads' terms and not `x`.
proof fn lemma_out_not(out: Seq<RunEntry>, y: Seq<u8>, x: Seq<u8>)
    requires
        holds_term(out, y),
        forall|k: int| 0 <= k < out.len() ==> lex_lt(#[trigger] out[k].term, x),
    ensures
        y != x,
        lex_lt(y, x),
{
    let k = choose|k: int| 0 <= k < out.len() && out[k].term == y;
    assert(lex_lt(out[k].term, x));
    lemma_lex_total(x, x);
}

proof fn lemma_after_take(
    g0: Seq<Seq<RunEntry>>,
    got: Seq<Seq<RunEntry>>,
    h0: Seq<Option<IndexedTerm>>,
    heads: Seq<Option<IndexedTerm>>,
    out: Seq<RunEntry>,
    m: int,
)
    requires
        merge_state(g0, h0, out),
        moved_on(g0, got, h0, heads, m, term_bytes(h0[m]->0.term@)),
        forall|q: int| 0 <= q < h0.len() && #[trigger] h0[q] is Some ==> !lex_lt(term_bytes(h0[q]->0.term@), term_bytes(h0[m]->0.term@)),
        forall|q: int| 0 <= q < m && #[trigger] h0[q] is Some ==> term_bytes(h0[q]->0.term@) != term_bytes(h0[m]->0.term@),
        forall|q: int| 0 <= q < h0.len() && #[trigger] h0[q] is Some ==> g0[q].len() > 0 && g0[q].last().term == term_bytes(h0[q]->0.term@),
    ensures
        combine_state(got, heads, out, term_bytes(h0[m]->0.term@), m + 1, total_of(entry_of(h0[m]->0))),
{
    let x = term_bytes(h0[m]->0.term@);
    let e = entry_of(h0[m]->0);
    let kk = got.len() as int;
    assert forall|k: int| 0 <= k < out.len() implies lex_lt(#[trigger] out[k].term, x) by {
        assert(lex_lt(out[k].term, term_bytes(h0[m]->0.term@)));
    }
    lemma_moved_on(g0, got, h0, heads, m, x, x);
    // the first m providers do not hold x
    assert forall|q: int| 0 <= q < m implies !#[trigger] holds_term(got[q], x) by {
        assert(got[q] == g0[q]);
        if holds_term(g0[q], x) {
            let i = choose|i: int| 0 <= i < g0[q].len() && g0[q][i].term == x;
            if i < taken(g0, h0, q) {
                assert(holds_term(out, g0[q][i].term));
                lemma_out_not(out, g0[q][i].term, x);
            } else {
                assert(h0[q] is Some);
                assert(i == g0[q].len() - 1);
            }
        }
    }
    lemma_total_in_none(got, x, m);
    assert(total_in(got, x, m + 1) == Some(total_of(e)));
    assert forall|k: int| 0 <= k < out.len() implies #[trigger] total_in(got, out[k].term, kk) == Some(total_of(out[k])) by {
        lemma_moved_on(g0, got, h0, heads, m, x, out[k].term);
        lemma_total_in_same(got, g0, out[k].term, kk);
    }
    assert forall|k: int| 0 <= k < out.len() implies #[trigger] held_by_some(got, out[k].term) by {
        assert(held_by_some(g0, out[k].term));
        let q = choose|q: int| 0 <= q < g0.len() && holds_term(g0[q], out[k].term);
        let i = choose|i: int| 0 <= i < g0[q].len() && g0[q][i].term == out[k].term;
        assert(got[q][i] == g0[q][i]);
    }
    assert(holds_term(got[m], x));
    assert forall|k: int, q: int|
        0 <= k < out.len() && 0 <= q < heads.len() && #[trigger] heads[q] is Some implies lex_lt(#[trigger] out[k].term, term_bytes(heads[q]->0.term@)) by {
        if q == m {
            lemma_lex_trans(out[k].term, x, term_bytes(heads[q]->0.term@));
        } else {
            assert(got[q] == g0[q]);
            assert(heads[q] == h0[q]);
        }
    }
    assert forall|q: int, i: int|
        0 <= q < got.len() && 0 <= i < taken(got, heads, q) implies #[trigger] holds_term(out, got[q][i].term) || got[q][i].term == x by {
        if q == m {
            if i < g0[m].len() - 1 {
                assert(got[m][i] == g0[m][i]);
                assert(i < taken(g0, h0, m));
            }
        } else {
            assert(got[q] == g0[q] && heads[q] == h0[q]);
            assert(taken(got, heads, q) == taken(g0, h0, q));
        }
    }
    assert forall|q: int, i: int|
        m + 1 <= q < got.len() && 0 <= i < taken(got, heads, q) implies #[trigger] holds_term(out, got[q][i].term) by {
        assert(got[q] == g0[q] && heads[q] == h0[q]);
        assert(taken(got, heads, q) == taken(g0, h0, q));
    }
}

proof fn lemma_combine_step(
    g0: Seq<Seq<RunEntry>>,
    got: Seq<Seq<RunEntry>>,
    h0: Seq<Option<IndexedTerm>>,
    heads: Seq<Option<IndexedTerm>>,
    out: Seq<RunEntry>,
    x: Seq<u8>,
    j: int,
    t: Total,
    eu: RunEntry,
)
    requires
        combine_state(g0, h0, out, x, j, t),
        moved_on(g0, got, h0, heads, j, x),
        eu == entry_of(h0[j]->0),
    ensures
        combine_state(got, heads, out, x, j + 1, add_total(t, total_of(eu))),
{
    let kk = got.len() as int;
    lemma_moved_on(g0, got, h0, heads, j, x, x);
    assert forall|q: int| 0 <= q < j implies (#[trigger] holds_term(got[q], x) <==> holds_term(g0[q], x)) by {
        assert(got[q] == g0[q]);
    }
    assert forall|q: int| 0 <= q < j && holds_term(got[q], x) implies #[trigger] entry_for(got[q], x) == entry_for(g0[q], x) by {
        assert(got[q] == g0[q]);
    }
    lemma_total_in_same(got, g0, x, j);
    assert(total_in(got, x, j + 1) == Some(add_total(t, total_of(eu))));
    assert forall|k: int| 0 <= k < out.len() implies #[trigger] total_in(got, out[k].term, kk) == Some(total_of(out[k])) by {
        lemma_moved_on(g0, got, h0, heads, j, x, out[k].term);
        lemma_total_in_same(got, g0, out[k].term, kk);
    }
    assert forall|k: int| 0 <= k < out.len() implies #[trigger] held_by_some(got, out[k].term) by {
        assert(held_by_some(g0, out[k].term));
        let q = choose|q: int| 0 <= q < g0.len() && holds_term(g0[q], out[k].term);
        let i = choose|i: int| 0 <= i < g0[q].len() && g0[q][i].term == out[k].term;
        assert(got[q][i] == g0[q][i]);
    }
    assert(held_by_some(got, x)) by {
        assert(holds_term(got[j], x));
    }
    assert forall|k: int, q: int|
        0 <= k < out.len() && 0 <= q < heads.len() && #[trigger] heads[q] is Some implies lex_lt(#[trigger] out[k].term, term_bytes(heads[q]->0.term@)) by {
        if q == j {
            lemma_lex_trans(out[k].term, x, term_bytes(heads[q]->0.term@));
        } else {
            assert(got[q] == g0[q]);
            assert(heads[q] == h0[q]);
        }
    }
    assert forall|q: int, i: int|
        0 <= q < got.len() && 0 <= i < taken(got, heads, q) implies #[trigger] holds_term(out, got[q][i].term) || got[q][i].term == x by {
        if q == j {
            if i < g0[j].len() - 1 {
                assert(got[j][i] == g0[j][i]);
                assert(i < taken(g0, h0, j));
            }
        } else {
            assert(got[q] == g0[q] && heads[q] == h0[q]);
            assert(taken(got, heads, q) == taken(g0, h0, q));
        }
    }
    assert forall|q: int, i: int|
        j + 1 <= q < got.len() && 0 <= i < taken(got, heads, q) implies #[trigger] holds_term(out, got[q][i].term) by {
        assert(got[q] == g0[q] && heads[q] == h0[q]);
        assert(taken(got, heads, q) == taken(g0, h0, q));
    }
}

proof fn lemma_skip_step(
    got: Seq<Seq<RunEntry>>,
    heads: Seq<Option<IndexedTerm>>,
    out: Seq<RunEntry>,
    x: Seq<u8>,
    j: int,
    t: Total,
)
    requires
        combine_state(got, heads, out, x, j, t),
        j < got.len(),
        heads[j] is Some ==> term_bytes(heads[j]->0.term@) != x && got[j].len() > 0 && got[j].last().term
            == term_bytes(heads[j]->0.term@),
    ensures
        combine_state(got, heads, out, x, j + 1, t),
{
    if holds_term(got[j], x) {
        let i = choose|i: int| 0 <= i < got[j].len() && got[j][i].term == x;
        if i < taken(got, heads, j) {
            assert(holds_term(out, got[j][i].term));
            lemma_out_not(out, got[j][i].term, x);
        } else {
            assert(heads[j] is Some);
            assert(i == got[j].len() - 1);
        }
    }
    assert(total_in(got, x, j + 1) == total_in(got, x, j));
}

proof fn lemma_push_out(
    got: Seq<Seq<RunEntry>>,
    heads: Seq<Option<IndexedTerm>>,
    out: Seq<RunEntry>,
    x: Seq<u8>,
    e: RunEntry,
)
    requires
        combine_state(got, heads, out, x, got.len() as int, total_of(e)),
        e.term == x,
        forall|q: int| 0 <= q < heads.len() && #[trigger] heads[q] is Some ==> lex_lt(x, term_bytes(heads[q]->0.term@)),
    ensures
        merge_state(got, heads, out.push(e)),
{
    let o2 = out.push(e);
    if out.len() > 0 {
        assert(lex_lt(out[out.len() - 1].term, x));
    }
    lemma_ascending_push(out, e);
    assert forall|j: int, i: int| 0 <= j < got.len() && 0 <= i < taken(got, heads, j) implies #[trigger] holds_term(o2, got[j][i].term) by {
        if holds_term(out, got[j][i].term) {
            let k = choose|k: int| 0 <= k < out.len() && out[k].term == got[j][i].term;
            assert(o2[k] == out[k]);
        } else {
            assert(o2[out.len() as int].term == x);
        }
    }
    assert forall|k: int| 0 <= k < o2.len() implies #[trigger] held_by_some(got, o2[k].term) by {
        if k < out.len() {
            assert(o2[k] == out[k]);
        }
    }
    assert forall|k: int, j: int|
        0 <= k < o2.len() && 0 <= j < heads.len() && #[trigger] heads[j] is Some implies lex_lt(#[trigger] o2[k].term, term_bytes(heads[j]->0.term@)) by {
        if k < out.len() {
            assert(o2[k] == out[k]);
        }
    }
    assert forall|k: int| 0 <= k < o2.len() implies #[trigger] total_in(got, o2[k].term, got.len() as int) == Some(total_of(o2[k])) by {
        if k < out.len() {
            assert(o2[k] == out[k]);
        }
    }
}

/// The occurrences of all terms of `s` together.
pub open spec fn sum_counts(s: Seq<RunEntry>) -> nat
    decreases s.len(),
{
    if s.len() == 0 {
        0
    } else {
        sum_counts(s.drop_last()) + s.last().use_count as nat
    }
}

/// What a merge produced: the three parts of the dictionary, the number of
/// occurrences of all terms, and the number of terms.
pub struct MergeOutput {
    pub dictionary: Vec<u8>,
    pub lexical_part: Vec<u8>,
    pub index_part: Vec<u8>,
    pub lexeme_count: u64,
    pub term_count: u64,
    /// The terms the dictionary holds, in order.
    pub terms: Ghost<Seq<RunEntry>>,
}

/// Merges sorted runs into one dictionary.
pub struct IndexMerger {
    lexical_max_size: u8,
}

impl IndexMerger {
    pub closed spec fn wf(&self) -> bool {
        1 <= self.lexical_max_size
    }

    pub fn new(lexical_max_size: u8) -> (r: IndexMerger)
        requires
            1 <= lexical_max_size,
        ensures
            r.wf(),
    {
        IndexMerger { lexical_max_size }
    }

    /// Takes the next term out of run `i`, putting the one after it in its
    /// place.
    fn advance(
        providers: &mut Vec<IndexTermProvider>,
        heads: &mut Vec<Option<IndexedTerm>>,
        i: usize,
    ) -> (r: Option<IndexedTerm>)
        requires
            i < old(providers)@.len(),
            old(providers)@.len() == old(heads)@.len(),
            old(providers)@[i as int].wf(),
        ensures
            final(providers)@.len() == old(providers)@.len(),
            final(heads)@.len() == old(heads)@.len(),
            r == old(heads)@[i as int],
            forall|j: int|
                0 <= j < final(heads)@.len() && j != i ==> final(heads)@[j] == old(heads)@[j]
                    && final(providers)@[j] == old(providers)@[j],
            final(providers)@[i as int].wf(),
            final(heads)@[i as int] is Some ==> final(heads)@[i as int]->0.wf() && final(providers)@[i as int].last_read() == Some(term_bytes(final(heads)@[i as int]->0.term@)),
            final(heads)@[i as int] is Some ==> old(providers)@[i as int].last_read() is Some
                ==> lex_lt(
                old(providers)@[i as int].last_read().unwrap(),
                term_bytes(final(heads)@[i as int]->0.term@),
            ),
            old(heads)@[i as int] is Some ==> measure_at(
                final(providers)@[i as int],
                final(heads)@[i as int],
            ) < measure_at(old(providers)@[i as int], old(heads)@[i as int]),
            measure_at(final(providers)@[i as int], final(heads)@[i as int]) <= measure_at(
                old(providers)@[i as int],
                old(heads)@[i as int],
            ) + 1,
            final(providers)@[i as int].dict_bytes() == old(providers)@[i as int].dict_bytes(),
            final(providers)@[i as int].lex_bytes() == old(providers)@[i as int].lex_bytes(),
            final(providers)@[i as int].idx_bytes() == old(providers)@[i as int].idx_bytes(),
            final(providers)@[i as int].mask_size() == old(providers)@[i as int].mask_size(),
            final(heads)@[i as int] is Some ==> final(providers)@[i as int].consumed() == old(providers)@[i as int].consumed() + 1,
            final(heads)@[i as int] is None ==> final(providers)@[i as int].consumed() == old(providers)@[i as int].consumed()
                && final(providers)@[i as int].last_read() == old(providers)@[i as int].last_read(),
            old(providers)@[i as int].remaining() == 0 ==> final(heads)@[i as int] is None,
            forall|terms: Seq<RunEntry>|
                #[trigger] expects(
                    old(providers)@[i as int].dict_bytes(),
                    old(providers)@[i as int].lex_bytes(),
                    old(providers)@[i as int].idx_bytes(),
                    old(providers)@[i as int].mask_size(),
                    old(providers)@[i as int].consumed(),
                    old(providers)@[i as int].last_read(),
                    terms,
                ) ==> final(heads)@[i as int] is Some && entry_of(final(heads)@[i as int]->0) == terms[old(providers)@[i as int].consumed() as int],
    {
        let mut p = providers.remove(i);
        let next = p.next_term();
        proof {
            if next is Some {
                next->0.indexes.lemma_entries_seq();
            }
        }
        providers.insert(i, p);
        let cur = heads.remove(i);
        heads.insert(i, next);
        proof {
            assert forall|j: int| 0 <= j < heads@.len() && j != i implies heads@[j] == old(heads)@[j] && providers@[j] == old(providers)@[j] by {
                if j < i {
                } else {
                }
            }
        }
        cur
    }

    /// Merges `providers` into one dictionary: every term of any run comes
    /// once, with the records of all runs that hold it combined, in
    /// strictly ascending order. When each provider is fresh and reads a run,
    /// the result is the merge of those runs (`merged`). `None` where a
    /// count would pass `u64::MAX`.
    #[verifier::spinoff_prover]
    #[verifier::rlimit(100)]
    pub fn merge(&self, providers: Vec<IndexTermProvider>, mask_len: usize) -> (r: Option<
        MergeOutput,
    >)
        requires
            self.wf(),
            1 <= mask_len <= 8,
            forall|i: int| 0 <= i < providers@.len() ==> #[trigger] providers@[i].wf(),
        ensures
            r is Some ==> r->0.dictionary@.len() == 8 + 25 * r->0.term_count
                && r->0.dictionary@.take(8) == be_bytes(r->0.term_count),
            r is Some ==> r->0.lexeme_count == sum_counts(r->0.terms@),
            r is Some ==> r->0.terms@.len() == r->0.term_count && run_holds(
                r->0.dictionary@,
                r->0.lexical_part@,
                r->0.index_part@,
                r->0.terms@,
                mask_len as nat,
            ),
            forall|runs: Seq<Seq<RunEntry>>|
                runs.len() == providers@.len() && (forall|j: int| 0 <= j < runs.len() ==> #[trigger] fresh_run(providers@[j], runs[j]))
                    && r is Some ==> #[trigger] merged(runs, r->0.terms@),
    {
        let ghost p0 = providers@;
        let mut providers = providers;
        let k = providers.len();
        let mut heads: Vec<Option<IndexedTerm>> = Vec::new();
        let mut i: usize = 0;
        while i < k
            invariant
                i <= k,
                heads@.len() == i,
                forall|j: int| 0 <= j < i ==> #[trigger] heads@[j] is None,
            decreases k - i,
        {
            heads.push(None);
            i = i + 1;
        }
        let ghost mut got: Seq<Seq<RunEntry>> = Seq::new(k as nat, |j: int| Seq::<RunEntry>::empty());
        proof {
            assert forall|j: int| 0 <= j < k implies #[trigger] provider_state(p0[j], providers@[j], heads@[j], got[j]) by {
                assert(providers@[j] == p0[j]);
                assert forall|run: Seq<RunEntry>| #[trigger] fresh_run(p0[j], run) implies got[j].len() <= run.len() && got[j] == run.take(got[j].len() as int) by {
                    assert(run.take(0) =~= Seq::<RunEntry>::empty());
                }
            }
        }
        i = 0;
        while i < k
            invariant
                k == providers@.len(),
                k == heads@.len(),
                k == p0.len(),
                got.len() == k,
                i <= k,
                forall|j: int| 0 <= j < k ==> #[trigger] providers@[j].wf(),
                forall|j: int| i <= j < k ==> #[trigger] heads@[j] is None,
                forall|j: int| i <= j < k ==> #[trigger] providers@[j] == p0[j],
                forall|j: int| i <= j < k ==> #[trigger] got[j] == Seq::<RunEntry>::empty(),
                forall|j: int|
                    0 <= j < i ==> (#[trigger] heads@[j] is Some ==> heads@[j]->0.wf()
                        && providers@[j].last_read() == Some(term_bytes(heads@[j]->0.term@))),
                forall|j: int| 0 <= j < k ==> #[trigger] provider_state(p0[j], providers@[j], heads@[j], got[j]),
                forall|j: int| 0 <= j < i ==> #[trigger] exhausted_state(p0[j], heads@[j], got[j]),
                forall|j: int| 0 <= j < k ==> #[trigger] got[j].len() == if heads@[j] is Some { 1int } else { 0int },
            decreases k - i,
        {
            let ghost pb = providers@;
            let ghost hb = heads@;
            Self::advance(&mut providers, &mut heads, i);
            proof {
                lemma_step_state(p0[i as int], pb[i as int], providers@[i as int], hb[i as int], heads@[i as int], got[i as int]);
                if heads@[i as int] is Some {
                    got = got.update(i as int, got[i as int].push(entry_of(heads@[i as int]->0)));
                }
                assert forall|j: int| 0 <= j < k implies #[trigger] provider_state(p0[j], providers@[j], heads@[j], got[j]) by {
                    if j != i {
                        assert(providers@[j] == pb[j] && heads@[j] == hb[j]);
                    }
                }
                assert forall|j: int| 0 <= j < i + 1 implies #[trigger] exhausted_state(p0[j], heads@[j], got[j]) by {
                    if j != i {
                        assert(heads@[j] == hb[j]);
                    }
                }
                assert forall|j: int| 0 <= j < k implies #[trigger] got[j].len() == if heads@[j] is Some { 1int } else { 0int } by {
                    if j != i {
                        assert(heads@[j] == hb[j]);
                    }
                }
            }
            i = i + 1;
        }
        let mut saver = IndexMergeSaver::new(self.lexical_max_size, mask_len);
        let mut lexeme_count: u64 = 0;
        let mut term_count: u64 = 0;
        proof {
            let out = saver.pushed_entries();
            assert forall|j: int, i2: int| 0 <= j < got.len() && 0 <= i2 < taken(got, heads@, j) implies #[trigger] holds_term(out, got[j][i2].term) by {
                assert(got[j].len() == if heads@[j] is Some { 1int } else { 0int });
            }
            assert(merge_state(got, heads@, out));
        }
        loop
            invariant
                k == providers@.len(),
                k == heads@.len(),
                k == p0.len(),
                got.len() == k,
                1 <= mask_len <= 8,
                saver.wf(),
                saver.pushed() == term_count,
                lexeme_count == sum_counts(saver.pushed_entries()),
                saver.mask_size() == mask_len,
                forall|j: int| 0 <= j < k ==> #[trigger] providers@[j].wf(),
                forall|j: int|
                    0 <= j < k ==> (#[trigger] heads@[j] is Some ==> heads@[j]->0.wf()
                        && providers@[j].last_read() == Some(term_bytes(heads@[j]->0.term@))),
                forall|j: int|
                    0 <= j < k ==> (#[trigger] heads@[j] is Some ==> saver.last_pushed() is Some
                        ==> lex_lt(saver.last_pushed().unwrap(), term_bytes(heads@[j]->0.term@))),
                forall|j: int| 0 <= j < k ==> #[trigger] provider_state(p0[j], providers@[j], heads@[j], got[j]),
                forall|j: int| 0 <= j < k ==> #[trigger] exhausted_state(p0[j], heads@[j], got[j]),
                merge_state(got, heads@, saver.pushed_entries()),
            ensures
                saver.wf(),
                saver.pushed() == term_count,
                lexeme_count == sum_counts(saver.pushed_entries()),
                saver.mask_size() == mask_len,
                merged(got, saver.pushed_entries()),
                forall|runs: Seq<Seq<RunEntry>>|
                    runs.len() == p0.len() && (forall|q: int| 0 <= q < runs.len() ==> #[trigger] fresh_run(p0[q], runs[q]))
                        ==> runs == got,
            decreases measure_sum(providers@, heads@, k as int),
        {
            let ghost total0 = measure_sum(providers@, heads@, k as int);
            let ghost out0 = saver.pushed_entries();
            let mut m: usize = k;
            let mut j: usize = 0;
            while j < k
                invariant
                    k == heads@.len(),
                    j <= k,
                    m == k || (m < j && heads@[m as int] is Some),
                    m == k ==> forall|q: int| 0 <= q < j ==> #[trigger] heads@[q] is None,
                    m < k ==> forall|q: int|
                        0 <= q < j ==> (#[trigger] heads@[q] is Some ==> !lex_lt(
                            term_bytes(heads@[q]->0.term@),
                            term_bytes(heads@[m as int]->0.term@),
                        )),
                    m < k ==> forall|q: int|
                        0 <= q < m ==> (#[trigger] heads@[q] is Some ==> term_bytes(heads@[q]->0.term@)
                            != term_bytes(heads@[m as int]->0.term@)),
                decreases k - j,
            {
                match &heads[j] {
                    Some(t) => {
                        let smaller = if m == k {
                            true
                        } else {
                            match &heads[m] {
                                Some(u) => bytes_lt(string_bytes(&t.term), string_bytes(&u.term)),
                                None => true,
                            }
                        };
                        if smaller {
                            proof {
                                if m < k {
                                    let tm = term_bytes(heads@[m as int]->0.term@);
                                    let tj = term_bytes(heads@[j as int]->0.term@);
                                    lemma_lex_total(tj, tm);
                                    assert forall|q: int|
                                        0 <= q < j && #[trigger] heads@[q] is Some implies !lex_lt(
                                        term_bytes(heads@[q]->0.term@),
                                        tj,
                                    ) && term_bytes(heads@[q]->0.term@) != tj by {
                                        let tq = term_bytes(heads@[q]->0.term@);
                                        if lex_lt(tq, tj) {
                                            lemma_lex_trans(tq, tj, tm);
                                        }
                                    }
                                }
                            }
                            m = j;
                        }
                        proof {
                            lemma_lex_total(
                                term_bytes(heads@[m as int]->0.term@),
                                term_bytes(heads@[m as int]->0.term@),
                            );
                        }
                    },
                    None => {},
                }
                j = j + 1;
            }
            if m == k {
                proof {
                    lemma_done(got, heads@, saver.pushed_entries());
                    assert forall|runs: Seq<Seq<RunEntry>>|
                        runs.len() == p0.len() && (forall|q: int| 0 <= q < runs.len() ==> #[trigger] fresh_run(p0[q], runs[q]))
                            implies runs == got by {
                        assert forall|q: int| 0 <= q < k implies got[q] == runs[q] by {
                            assert(provider_state(p0[q], providers@[q], heads@[q], got[q]));
                            assert(exhausted_state(p0[q], heads@[q], got[q]));
                            assert(heads@[q] is None);
                            assert(fresh_run(p0[q], runs[q]));
                            assert(runs[q].take(runs[q].len() as int) =~= runs[q]);
                        }
                        assert(runs =~= got);
                    }
                }
                break;
            }
            let ghost tm = term_bytes(heads@[m as int]->0.term@);
            proof {
                assert(heads@[m as int] is Some);
            }
            let ghost p_before = providers@;
            let ghost h_before = heads@;
            let ghost g_before = got;
            proof {
                assert forall|q: int| 0 <= q < k && #[trigger] h_before[q] is Some implies g_before[q].len() > 0 && g_before[q].last().term == term_bytes(h_before[q]->0.term@) by {
                    assert(provider_state(p0[q], p_before[q], h_before[q], g_before[q]));
                }
                assert(provider_state(p0[m as int], p_before[m as int], h_before[m as int], g_before[m as int]));
            }
            let mut cur = Self::advance(&mut providers, &mut heads, m).unwrap();
            proof {
                lemma_measure_update(p_before, h_before, providers@, heads@, m as int, k as int);
                lemma_step_state(p0[m as int], p_before[m as int], providers@[m as int], h_before[m as int], heads@[m as int], got[m as int]);
                if heads@[m as int] is Some {
                    got = got.update(m as int, got[m as int].push(entry_of(heads@[m as int]->0)));
                }
                lemma_after_take(g_before, got, h_before, heads@, out0, m as int);
                assert forall|q: int| 0 <= q < k implies #[trigger] provider_state(p0[q], providers@[q], heads@[q], got[q]) && exhausted_state(p0[q], heads@[q], got[q]) by {
                    if q != m {
                        assert(providers@[q] == p_before[q] && heads@[q] == h_before[q]);
                        assert(exhausted_state(p0[q], h_before[q], g_before[q]));
                    }
                }
            }
            proof {
                assert forall|q: int| 0 <= q < k && #[trigger] heads@[q] is Some implies ((q < m + 1 || q == m) ==> lex_lt(tm, term_bytes(heads@[q]->0.term@)))
                    && (!(q < m + 1 || q == m) ==> !lex_lt(term_bytes(heads@[q]->0.term@), tm)) by {
                    if q != m {
                        assert(heads@[q] == h_before[q]);
                        lemma_lex_total(term_bytes(heads@[q]->0.term@), tm);
                    }
                }
            }
            j = m + 1;
            while j < k
                invariant
                    k == providers@.len(),
                    k == heads@.len(),
                    k == p0.len(),
                    got.len() == k,
                    m < k,
                    m < j <= k,
                    cur.wf(),
                    term_bytes(cur.term@) == tm,
                    forall|q: int| 0 <= q < k ==> #[trigger] providers@[q].wf(),
                    forall|q: int|
                        0 <= q < k ==> (#[trigger] heads@[q] is Some ==> heads@[q]->0.wf()
                            && providers@[q].last_read() == Some(term_bytes(heads@[q]->0.term@))),
                    forall|q: int|
                        0 <= q < k ==> (#[trigger] heads@[q] is Some ==> ((q < j || q == m) ==> lex_lt(
                            tm,
                            term_bytes(heads@[q]->0.term@),
                        )) && (!(q < j || q == m) ==> !lex_lt(term_bytes(heads@[q]->0.term@), tm))),
                    forall|q: int| 0 <= q < k ==> #[trigger] provider_state(p0[q], providers@[q], heads@[q], got[q]),
                    forall|q: int| 0 <= q < k ==> #[trigger] exhausted_state(p0[q], heads@[q], got[q]),
                    combine_state(got, heads@, out0, tm, j as int, total_of(entry_of(cur))),
                    saver.pushed_entries() == out0,
                    measure_sum(providers@, heads@, k as int) < total0,
                decreases k - j,
            {
                let equal = match &heads[j] {
                    Some(u) => bytes_eq(string_bytes(&u.term), string_bytes(&cur.term)),
                    None => false,
                };
                proof {
                    assert(provider_state(p0[j as int], providers@[j as int], heads@[j as int], got[j as int]));
                }
                if equal {
                    let ghost p_mid = providers@;
                    let ghost h_mid = heads@;
                    let ghost g_mid = got;
                    let u = Self::advance(&mut providers, &mut heads, j).unwrap();
                    proof {
                        lemma_measure_update(p_mid, h_mid, providers@, heads@, j as int, k as int);
                        lemma_step_state(p0[j as int], p_mid[j as int], providers@[j as int], h_mid[j as int], heads@[j as int], got[j as int]);
                        if heads@[j as int] is Some {
                            got = got.update(j as int, got[j as int].push(entry_of(heads@[j as int]->0)));
                        }
                        assert forall|q: int| 0 <= q < k implies #[trigger] provider_state(p0[q], providers@[q], heads@[q], got[q]) && exhausted_state(p0[q], heads@[q], got[q]) by {
                            if q != j {
                                assert(providers@[q] == p_mid[q] && heads@[q] == h_mid[q]);
                                assert(exhausted_state(p0[q], h_mid[q], g_mid[q]));
                            }
                        }
                    }
                    if cur.use_count > u64::MAX - u.use_count || !cur.indexes.or_fits(&u.indexes) {
                        return None;
                    }
                    let ghost cur_t = total_of(entry_of(cur));
                    proof {
                        cur.indexes.lemma_entries_seq();
                        u.indexes.lemma_entries_seq();
                        lemma_combine_step(g_mid, got, h_mid, heads@, out0, tm, j as int, cur_t, entry_of(u));
                    }
                    cur.combine(u);
                    proof {
                        cur.indexes.lemma_entries_seq();
                        assert(total_of(entry_of(cur)) == add_total(cur_t, total_of(entry_of(u))));
                    }
                } else {
                    proof {
                        if heads@[j as int] is Some {
                            let tj = term_bytes(heads@[j as int]->0.term@);
                            lemma_lex_total(tj, tm);
                        }
                        lemma_skip_step(got, heads@, out0, tm, j as int, total_of(entry_of(cur)));
                    }
                }
                j = j + 1;
            }
            if term_count == u64::MAX || lexeme_count > u64::MAX - cur.use_count {
                return None;
            }
            let ghost before = saver.pushed_entries();
            let ghost e = entry_of(cur);
            lexeme_count = lexeme_count + cur.use_count;
            term_count = term_count + 1;
            saver.push(cur);
            proof {
                assert(saver.pushed_entries().drop_last() =~= before);
                lemma_push_out(got, heads@, out0, tm, e);
            }
        }
        let ghost terms = saver.pushed_entries();
        proof {
            saver.lemma_pushed();
        }
        let (dictionary, lexical_part, index_part) = saver.finish();
        Some(MergeOutput { dictionary, lexical_part, index_part, lexeme_count, term_count, terms: Ghost(terms) })
    }
}

/// What is left of one run: the terms its header still promises, and the
/// term taken out but not yet merged.
pub open spec fn measure_at(p: IndexTermProvider, h: Option<IndexedTerm>) -> nat {
    p.remaining() + if h is Some {
        1nat
    } else {
        0nat
    }
}

/// What is left of the first `n` runs.
pub open spec fn measure_sum(ps: Seq<IndexTermProvider>, hs: Seq<Option<IndexedTerm>>, n: int) -> nat
    decreases n,
{
    if n <= 0 {
        0
    } else {
        measure_sum(ps, hs, n - 1) + measure_at(ps[n - 1], hs[n - 1])
    }
}

proof fn lemma_measure_update(
    ps: Seq<IndexTermProvider>,
    hs: Seq<Option<IndexedTerm>>,
    ps2: Seq<IndexTermProvider>,
    hs2: Seq<Option<IndexedTerm>>,
    i: int,
    n: int,
)
    requires
        0 <= i < n,
        n <= ps.len(),
        n <= ps2.len(),
        n <= hs.len(),
        n <= hs2.len(),
        forall|j: int| 0 <= j < n && j != i ==> ps2[j] == ps[j] && hs2[j] == hs[j],
    ensures
        measure_sum(ps2, hs2, n) == measure_sum(ps, hs, n) - measure_at(ps[i], hs[i])
            + measure_at(ps2[i], hs2[i]),
    decreases n,
{
    if n - 1 > i {
        lemma_measure_update(ps, hs, ps2, hs2, i, n - 1);
    } else {
        lemma_measure_same(ps, hs, ps2, hs2, n - 1);
    }
}

proof fn lemma_measure_same(
    ps: Seq<IndexTermProvider>,
    hs: Seq<Option<IndexedTerm>>,
    ps2: Seq<IndexTermProvider>,
    hs2: Seq<Option<IndexedTerm>>,
    n: int,
)
    requires
        n <= ps.len(),
        n <= ps2.len(),
        n <= hs.len(),
        n <= hs2.len(),
        forall|j: int| 0 <= j < n ==> ps2[j] == ps[j] && hs2[j] == hs[j],
    ensures
        measure_sum(ps2, hs2, n) == measure_sum(ps, hs, n),
    decreases n,
{
    if n > 0 {
        lemma_measure_same(ps, hs, ps2, hs2, n - 1);
    }
}

} // verus!
