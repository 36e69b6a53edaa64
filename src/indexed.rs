//! A term with its total count and its postings, and how two of them
//! combine.
use crate::listmap::{
    combine_posting, merge_fits, merge_postings, PostingView, SortedLinkedMap,
};
use vstd::prelude::*;
use vstd::utf8::encode_utf8;

verus! {

/// A term as a value: its characters, how often it occurs in all, and its
/// postings by document id.
pub ghost struct TermView {
    pub term: Seq<char>,
    pub use_count: nat,
    pub postings: Map<u64, PostingView>,
}

/// Two records of the same term taken together.
pub open spec fn combine_terms(a: TermView, b: TermView) -> TermView {
    TermView {
        term: a.term,
        use_count: a.use_count + b.use_count,
        postings: merge_postings(a.postings, b.postings),
    }
}

/// A record of `term` with nothing counted yet.
pub open spec fn empty_term(term: Seq<char>) -> TermView {
    TermView { term, use_count: 0, postings: Map::empty() }
}

/// The UTF-8 bytes of a term, by which terms are ordered.
pub open spec fn term_bytes(term: Seq<char>) -> Seq<u8> {
    encode_utf8(term)
}

/// A term, how often it occurs in all, and where.
#[derive(Debug)]
pub struct IndexedTerm {
    pub term: String,
    pub use_count: u64,
    pub indexes: SortedLinkedMap,
}

impl View for IndexedTerm {
    type V = TermView;

    open spec fn view(&self) -> TermView {
        TermView { term: self.term@, use_count: self.use_count as nat, postings: self.indexes@ }
    }
}

/// The bytes of `s`.
pub fn string_bytes(s: &String) -> (r: &[u8])
    ensures
        r@ == term_bytes(s@),
{
    s.as_str().as_bytes()
}

impl IndexedTerm {
    pub open spec fn wf(&self) -> bool {
        self.indexes.wf()
    }

    pub fn new(term: String) -> (r: IndexedTerm)
        ensures
            r.wf(),
            r@ == empty_term(term@),
    {
        IndexedTerm { term, use_count: 0, indexes: SortedLinkedMap::new() }
    }
}

/// Something that occurs a number of times and can absorb another record
/// of itself.
pub trait Term: Sized {
    spec fn combinable(&self, other: &Self) -> bool;

    spec fn is_combination(&self, a: &Self, b: &Self) -> bool;

    spec fn count(&self) -> nat;

    fn combine(&mut self, other: Self)
        requires
            old(self).combinable(&other),
        ensures
            final(self).is_combination(old(self), &other),
    ;

    fn get_use_count(&self) -> (r: u64)
        ensures
            r == self.count(),
    ;
}

impl Term for IndexedTerm {
    open spec fn combinable(&self, other: &Self) -> bool {
        &&& self.wf()
        &&& other.wf()
        &&& self.use_count + other.use_count <= u64::MAX
        &&& merge_fits(self.indexes@, other.indexes@)
    }

    open spec fn is_combination(&self, a: &Self, b: &Self) -> bool {
        self.wf() && self@ == combine_terms(a@, b@)
    }

    open spec fn count(&self) -> nat {
        self.use_count as nat
    }

    fn combine(&mut self, other: Self) {
        self.use_count = self.use_count + other.use_count;
        self.indexes.or(other.indexes);
    }

    fn get_use_count(&self) -> (r: u64) {
        self.use_count
    }
}

/// Combining with a record that counts nothing changes nothing.
pub proof fn lemma_combine_empty(a: TermView)
    ensures
        combine_terms(a, empty_term(a.term)) == a,
{
    assert(merge_postings(a.postings, Map::empty()) =~= a.postings);
}

/// Combining is associative.
pub proof fn lemma_combine_assoc(a: TermView, b: TermView, c: TermView)
    ensures
        combine_terms(combine_terms(a, b), c) == combine_terms(a, combine_terms(b, c)),
{
    let l = merge_postings(merge_postings(a.postings, b.postings), c.postings);
    let r = merge_postings(a.postings, merge_postings(b.postings, c.postings));
    assert forall|k: u64| #[trigger] l.contains_key(k) implies l[k] == r[k] by {
        if a.postings.contains_key(k) && b.postings.contains_key(k) && c.postings.contains_key(k) {
            let (x, y, z) = (a.postings[k].zones, b.postings[k].zones, c.postings[k].zones);
            assert((x | y) | z == x | (y | z)) by (bit_vector);
        }
    }
    assert(l =~= r);
}

/// Combining postings is commutative, so the order in which runs contribute
/// to a term does not matter.
pub proof fn lemma_merge_postings_commutes(a: Map<u64, PostingView>, b: Map<u64, PostingView>)
    ensures
        merge_postings(a, b) == merge_postings(b, a),
{
    assert forall|k: u64| #[trigger] merge_postings(a, b).contains_key(k) implies merge_postings(
        a,
        b,
    )[k] == merge_postings(b, a)[k] by {
        if a.contains_key(k) && b.contains_key(k) {
            let (x, y) = (a[k].zones, b[k].zones);
            assert(x | y == y | x) by (bit_vector);
        }
    }
    assert(merge_postings(a, b) =~= merge_postings(b, a));
}

} // verus!
