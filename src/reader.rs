//! The zoned XML tokenizer: words are taken from the text of a rotating
//! list of elements, with entity references decoded and case folded.
use crate::bytes::{ByteReader, U8Provider};
use crate::chars::{
    interpret_character, is_alphabetic_char, is_delimiter, is_letter, lowercase_of, push_char, read_char,
    CharType,
};
use vstd::utf8::{decode_first_scalar, pop_first_scalar, valid_first_scalar};
use crate::rep_reader::{tok_result, Tok};
use vstd::prelude::*;
use vstd::string::StrSliceExecFns;

verus! {

/// Relies on `String::push_str`: appends the characters of `t`.
#[verifier::external_body]
pub(crate) fn push_str(s: &mut String, t: &str)
    ensures
        final(s)@ == old(s)@ + t@,
{
    s.push_str(t)
}

/// Relies on egui's `TextBuffer::delete_char_range` for `String`, which
/// removes the characters at positions `from..to`.
#[verifier::external_body]
fn delete_char_range(s: &mut String, from: usize, to: usize)
    requires
        from <= to <= old(s)@.len(),
    ensures
        final(s)@ == old(s)@.subrange(0, from as int) + old(s)@.subrange(to as int, old(s)@.len() as int),
{
    egui::TextBuffer::delete_char_range(s, from..to)
}

/// Whether `s` holds a letter.
pub open spec fn has_letter(s: Seq<char>) -> bool {
    exists|i: int| 0 <= i < s.len() && is_alphabetic_char(#[trigger] s[i])
}

/// Whether `s` holds a letter; only such words are kept.
pub fn passable(s: &str) -> (r: bool)
    ensures
        r == has_letter(s@),
{
    let n = s.unicode_len();
    let mut i: usize = 0;
    while i < n
        invariant
            n == s@.len(),
            i <= n,
            forall|j: int| 0 <= j < i ==> !is_alphabetic_char(#[trigger] s@[j]),
        decreases n - i,
    {
        if is_letter(s.get_char(i)) {
            return true;
        }
        i = i + 1;
    }
    false
}

/// Whether `a` and `b` hold the same characters.
pub fn str_eq(a: &str, b: &str) -> (r: bool)
    ensures
        r == (a@ == b@),
{
    let n = a.unicode_len();
    if n != b.unicode_len() {
        return false;
    }
    let mut i: usize = 0;
    while i < n
        invariant
            n == a@.len(),
            n == b@.len(),
            i <= n,
            forall|j: int| 0 <= j < i ==> a@[j] == b@[j],
        decreases n - i,
    {
        if a.get_char(i) != b.get_char(i) {
            return false;
        }
        i = i + 1;
    }
    assert(a@ =~= b@);
    true
}

/// Whether `s` ends with the characters of `suffix`.
pub fn ends_with(s: &str, suffix: &str) -> (r: bool)
    ensures
        r == (suffix@.len() <= s@.len() && s@.subrange(s@.len() - suffix@.len(), s@.len() as int)
            == suffix@),
{
    let n = s.unicode_len();
    let m = suffix.unicode_len();
    if m > n {
        return false;
    }
    let mut i: usize = 0;
    while i < m
        invariant
            n == s@.len(),
            m == suffix@.len(),
            m <= n,
            i <= m,
            forall|j: int| 0 <= j < i ==> s@[n - m + j] == suffix@[j],
        decreases m - i,
    {
        if s.get_char(n - m + i) != suffix.get_char(i) {
            assert(s@.subrange(n - m, n as int)[i as int] != suffix@[i as int]);
            return false;
        }
        i = i + 1;
    }
    assert(s@.subrange(n - m, n as int) =~= suffix@);
    true
}

/// What the word scanner hands back: a word, nothing because a tag begins,
/// or the news that the bytes are not well-formed UTF-8.
pub enum WordOption {
    Word(String),
    Empty,
    Malformed,
}

impl WordOption {
    /// Whether this is the word `s`.
    pub fn contains(&self, s: &str) -> (r: bool)
        ensures
            r == (self matches WordOption::Word(w) && w@ == s@),
    {
        match self {
            WordOption::Word(w) => str_eq(w.as_str(), s),
            _ => false,
        }
    }
}

/// How a scan for a word ends.
pub ghost enum Scan {
    /// A word with a letter.
    Word(Seq<char>),
    /// A tag begins, with no word before it.
    Empty,
    /// The input ends with no word.
    End,
    /// The bytes are not well-formed UTF-8.
    Malformed,
}

pub open spec fn apos_name() -> Seq<char> {
    seq!['&', 'a', 'p', 'o', 's']
}

pub open spec fn amp_name() -> Seq<char> {
    seq!['&', 'a', 'm', 'p']
}

pub open spec fn gt_name() -> Seq<char> {
    seq!['&', 'g', 't']
}

pub open spec fn lt_name() -> Seq<char> {
    seq!['&', 'l', 't']
}

pub open spec fn quot_name() -> Seq<char> {
    seq!['&', 'q', 'u', 'o', 't']
}

/// `s` ends with `suffix`.
pub open spec fn ends_with_seq(s: Seq<char>, suffix: Seq<char>) -> bool {
    suffix.len() <= s.len() && s.subrange(s.len() - suffix.len(), s.len() as int) == suffix
}

/// `s` without its last `k` characters.
pub open spec fn cut_last(s: Seq<char>, k: nat) -> Seq<char> {
    s.subrange(0, s.len() - k)
}

/// `s` with a trailing `&amp`, `&gt`, `&lt` or `&quot` removed: these
/// entities separate words.
pub open spec fn drop_entity(s: Seq<char>) -> Seq<char> {
    if ends_with_seq(s, amp_name()) {
        cut_last(s, 4)
    } else if ends_with_seq(s, gt_name()) {
        cut_last(s, 3)
    } else if ends_with_seq(s, lt_name()) {
        cut_last(s, 3)
    } else if ends_with_seq(s, quot_name()) {
        cut_last(s, 5)
    } else {
        s
    }
}

/// The word `start`, if it has a letter, at the end of the input.
pub open spec fn close_word(start: Seq<char>) -> Scan {
    if has_letter(start) {
        Scan::Word(start)
    } else {
        Scan::End
    }
}

/// The word scan of the bytes `s`, with `start` read already and `pending`
/// the character left over before: how it ends, the bytes left after it,
/// and the character left pending. Letters are taken in lower case, other
/// non-delimiters as they are. `&apos;` puts an apostrophe into the word;
/// `&amp;`, `&gt;`, `&lt;`, `&quot;` and other delimiters end it, and the
/// text before is dropped when it has no letter. A `<` ends the scan, with
/// the word before it if it has a letter; so does a NUL, or the end of the
/// bytes.
pub open spec fn scan(s: Seq<u8>, start: Seq<char>, pending: Option<char>) -> (Scan, Seq<u8>, Option<char>)
    decreases s.len(),
{
    if s.len() == 0 {
        (close_word(start), s, pending)
    } else if !valid_first_scalar(s) {
        (Scan::Malformed, s, pending)
    } else {
        let c = decode_first_scalar(s) as char;
        let t = pop_first_scalar(s);
        if is_alphabetic_char(c) {
            scan(t, start + lowercase_of(c), pending)
        } else if is_delimiter(c) {
            if c == '<' {
                (
                    if has_letter(start) {
                        Scan::Word(start)
                    } else {
                        Scan::Empty
                    },
                    t,
                    Some('<'),
                )
            } else if c == ';' {
                if ends_with_seq(start, apos_name()) {
                    scan(t, cut_last(start, 5).push('\''), Some(';'))
                } else if has_letter(drop_entity(start)) {
                    (Scan::Word(drop_entity(start)), t, Some(';'))
                } else {
                    scan(t, seq![], Some(';'))
                }
            } else if has_letter(start) {
                (Scan::Word(start), t, Some(c))
            } else {
                scan(t, seq![], pending)
            }
        } else if c == '\0' {
            (close_word(start), t, Some('\0'))
        } else {
            scan(t, start.push(c), pending)
        }
    }
}

/// What `next_word` returns for a scan that ends in `o`.
pub open spec fn word_result(r: Option<WordOption>, o: Scan) -> bool {
    match r {
        Some(WordOption::Word(w)) => o == Scan::Word(w@),
        Some(WordOption::Empty) => o == Scan::Empty,
        Some(WordOption::Malformed) => o == Scan::Malformed,
        None => o == Scan::End,
    }
}

/// The characters a word starts with.
pub open spec fn start_chars(start: Option<String>) -> Seq<char> {
    match start {
        Some(s) => s@,
        None => seq![],
    }
}

/// Scans words out of a byte source.
pub trait WordProvider {
    /// The character read past the end of the last word, if any.
    spec fn pending(&self) -> Option<char>;

    /// Reads on from `reader`, starting the word with `start`: the result
    /// is the outcome of `scan` over the unread bytes, and the bytes left
    /// and the pending character are those the scan leaves. `None` means
    /// the input ended (at its end or at a NUL) with no word.
    fn next_word(&mut self, reader: &mut ByteReader, start: Option<String>) -> (r: Option<
        WordOption,
    >)
        ensures
            word_result(r, scan(old(reader).remaining(), start_chars(start), old(self).pending()).0),
            !(r matches Some(WordOption::Malformed)) ==> final(reader).remaining() == scan(
                old(reader).remaining(),
                start_chars(start),
                old(self).pending(),
            ).1 && final(self).pending() == scan(
                old(reader).remaining(),
                start_chars(start),
                old(self).pending(),
            ).2,
            final(reader).remaining().len() < old(reader).remaining().len() || (final(reader).remaining() == old(reader).remaining() && final(self).pending() == old(self).pending()),
    ;
}

/// The word scanner of the XML tokenizer. It remembers the character that
/// ended the last word, which the caller may take back with `consume`.
pub struct XmlWordProvider {
    previous: Option<char>,
}

impl XmlWordProvider {
    pub fn new() -> (r: XmlWordProvider)
        ensures
            r.pending() is None,
    {
        XmlWordProvider { previous: None }
    }

    /// Takes the remembered character.
    pub fn consume(&mut self) -> (r: Option<char>)
        ensures
            r == old(self).pending(),
            final(self).pending() is None,
    {
        let res = self.previous;
        self.previous = None;
        res
    }

    /// Removes an entity name of `len` characters from the end of `start`.
    fn cut(start: &mut String, len: usize)
        requires
            len <= old(start)@.len(),
        ensures
            final(start)@ == cut_last(old(start)@, len as nat),
    {
        let n = start.as_str().unicode_len();
        delete_char_range(start, n - len, n);
        assert(start@ =~= cut_last(old(start)@, len as nat));
    }
}

impl WordProvider for XmlWordProvider {
    closed spec fn pending(&self) -> Option<char> {
        self.previous
    }

    fn next_word(&mut self, reader: &mut ByteReader, start: Option<String>) -> (r: Option<
        WordOption,
    >) {
        let ghost st0 = start_chars(start);
        let mut word = match start {
            Some(s) => s,
            None => String::new(),
        };
        assert(word@ == st0);
        let ghost s0 = reader.remaining();
        let ghost len0 = reader.remaining().len();
        let ghost prev0 = self.previous;
        let ghost goal = scan(s0, st0, prev0);
        assert(goal == scan(old(reader).remaining(), start_chars(start), old(self).pending()));
        loop
            invariant_except_break
                goal == scan(reader.remaining(), word@, self.previous),
            invariant
                reader.remaining().len() <= len0,
                len0 == old(reader).remaining().len(),
                s0 == old(reader).remaining(),
                reader.remaining().len() == len0 ==> (reader.remaining() == old(reader).remaining()
                    && self.previous == prev0),
                prev0 == old(self).pending(),
                goal == scan(s0, st0, prev0),
                goal == scan(old(reader).remaining(), start_chars(start), old(self).pending()),
            ensures
                reader.remaining().len() <= len0,
                reader.remaining().len() == len0 ==> (reader.remaining() == old(reader).remaining()
                    && self.previous == prev0),
                goal == (close_word(word@), reader.remaining(), self.previous),
            decreases reader.remaining().len(),
        {
            let ghost cur = reader.remaining();
            let at_end = reader.is_exhausted();
            let c = match read_char(reader) {
                Some(c) => c,
                None => {
                    if at_end {
                        break;
                    }
                    return Some(WordOption::Malformed);
                },
            };
            let ghost t = reader.remaining();
            let ghost st = word@;
            match interpret_character(c) {
                CharType::Letter(chars) => {
                    push_str(&mut word, chars.as_str());
                },
                CharType::Ordinary(c) => {
                    push_char(&mut word, c);
                },
                CharType::Delimiter(c) => {
                    if c == '<' {
                        self.previous = Some('<');
                        if passable(word.as_str()) {
                            return Some(WordOption::Word(word));
                        }
                        return Some(WordOption::Empty);
                    }
                    if c == ';' {
                        self.previous = Some(c);
                        proof {
                            reveal_strlit("&apos");
                            reveal_strlit("&amp");
                            reveal_strlit("&gt");
                            reveal_strlit("&lt");
                            reveal_strlit("&quot");
                            assert("&apos"@ =~= apos_name());
                            assert("&amp"@ =~= amp_name());
                            assert("&gt"@ =~= gt_name());
                            assert("&lt"@ =~= lt_name());
                            assert("&quot"@ =~= quot_name());
                        }
                        if ends_with(word.as_str(), "&apos") {
                            Self::cut(&mut word, 5);
                            push_char(&mut word, '\'');
                            continue;
                        } else if ends_with(word.as_str(), "&amp") {
                            Self::cut(&mut word, 4);
                        } else if ends_with(word.as_str(), "&gt") {
                            Self::cut(&mut word, 3);
                        } else if ends_with(word.as_str(), "&lt") {
                            Self::cut(&mut word, 3);
                        } else if ends_with(word.as_str(), "&quot") {
                            Self::cut(&mut word, 5);
                        }
                        assert(word@ == drop_entity(st));
                        if passable(word.as_str()) {
                            break;
                        }
                    } else if passable(word.as_str()) {
                        self.previous = Some(c);
                        break;
                    }
                    word = String::new();
                    assert(word@ =~= Seq::<char>::empty());
                },
                CharType::EOF => {
                    self.previous = Some('\0');
                    break;
                },
            }
        }
        if passable(word.as_str()) {
            Some(WordOption::Word(word))
        } else {
            None
        }
    }
}

/// What the tokenizer hands out: a word of the current zone, or the end of
/// that zone's element.
pub enum ReaderResult {
    Word(String),
    AttributeEnd,
    /// The bytes are not well-formed UTF-8.
    Malformed,
}

/// A source of words.
pub trait Reader {
    /// The reader is in a state it can read on from.
    spec fn ready(&self) -> bool;

    /// What the next call hands out.
    spec fn next_token(&self) -> Tok;

    fn next_word(&mut self) -> (r: Option<ReaderResult>)
        requires
            old(self).ready(),
        ensures
            final(self).ready(),
            tok_result(r, old(self).next_token()),
    ;
}

/// The zone after `index`, counting around `count` zones.
pub open spec fn next_zone(index: nat, count: nat) -> nat {
    (index + 1) % count
}

/// The zone reached from `index` after `k` zone ends.
pub open spec fn zone_after(index: nat, k: nat, count: nat) -> nat
    decreases k,
{
    if k == 0 {
        index
    } else {
        next_zone(zone_after(index, (k - 1) as nat, count), count)
    }
}

/// After `k` zone ends the zone index is `index + k`, counted around.
pub proof fn lemma_zone_after(index: nat, k: nat, count: nat)
    requires
        count > 0,
        index < count,
    ensures
        zone_after(index, k, count) == (index + k) % count,
    decreases k,
{
    if k > 0 {
        lemma_zone_after(index, (k - 1) as nat, count);
        let a = (index + k - 1) as int;
        let n = count as int;
        if count == 1 {
            assert(((a % 1) + 1) % 1 == (a + 1) % 1) by (nonlinear_arith);
        } else {
            vstd::arithmetic::div_mod::lemma_add_mod_noop(a, 1, n);
            vstd::arithmetic::div_mod::lemma_small_mod(1, count);
        }
        assert(zone_after(index, (k - 1) as nat, count) == a % n);
    } else {
        vstd::arithmetic::div_mod::lemma_small_mod(index, count);
    }
}

/// After as many zone ends as there are zones, the tokenizer expects the
/// zone it started with.
pub proof fn lemma_zone_rotation(index: nat, count: nat)
    requires
        count > 0,
        index < count,
    ensures
        zone_after(index, count, count) == index,
{
    lemma_zone_after(index, count, count);
    vstd::arithmetic::div_mod::lemma_mod_add_multiples_vanish(index as int, count as int);
    vstd::arithmetic::div_mod::lemma_small_mod(index, count);
}

/// A reader that cycles through a list of zones.
pub trait ZoneRepeatedReader: Reader {
    spec fn zone_index(&self) -> nat;

    spec fn zone_count(&self) -> nat;

    /// The zone names, in order.
    spec fn zone_names(&self) -> Seq<Seq<char>>;

    /// Moves on to the next zone, around the list.
    fn transform_zone(&mut self)
        requires
            old(self).zone_index() < old(self).zone_count(),
        ensures
            final(self).zone_count() == old(self).zone_count(),
            final(self).zone_names() == old(self).zone_names(),
            final(self).zone_index() == next_zone(old(self).zone_index(), old(self).zone_count()),
    ;

    /// The name of the zone expected next.
    fn zone(&self) -> (r: &str)
        ensures
            self.zone_index() < self.zone_count() ==> r@ == self.zone_names()[self.zone_index() as int],
    ;

    fn zones_len(&self) -> (r: usize)
        ensures
            r == self.zone_count(),
    ;
}

} // verus!
