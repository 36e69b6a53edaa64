//! The tokenizer proper: it skips to the element of the zone it expects,
//! hands out that element's words, and reports where the element ends.
use crate::bytes::{ByteReader, U8Provider};
use crate::chars::{interpret_character, push_char, read_char, CharType};
use crate::reader::{
    has_letter, next_zone, push_str, start_chars, str_eq, Reader, ReaderResult, WordOption, WordProvider,
    XmlWordProvider, ZoneRepeatedReader,
};
use crate::chars::{is_alphabetic_char, is_delimiter, lowercase_of};
use crate::reader::{cut_last, scan, Scan};
use vstd::prelude::*;
use vstd::utf8::{decode_first_scalar, pop_first_scalar, valid_first_scalar};

verus! {

/// Where the tokenizer stands: inside the element of the expected zone,
/// or outside it.
#[derive(PartialEq, Eq, Structural, Clone, Copy, Debug)]
pub enum Position {
    Inside,
    Outside,
}

/// A string of the one character `c`.
fn string_of(c: char) -> (r: String)
    ensures
        r@ == seq![c],
{
    let mut s = String::new();
    push_char(&mut s, c);
    assert(s@ =~= seq![c]);
    s
}

/// The first character of `s`, if the bytes are well-formed there.
pub ghost enum Read {
    Char(char, Seq<u8>),
    End,
    Malformed,
}

/// Decoding one character off the front of `s`.
pub open spec fn read_spec(s: Seq<u8>) -> Read {
    if s.len() == 0 {
        Read::End
    } else if !valid_first_scalar(s) {
        Read::Malformed
    } else {
        Read::Char(decode_first_scalar(s) as char, pop_first_scalar(s))
    }
}

/// How skipping to a `>`, or finding an element, ends.
pub ghost enum Seek {
    Found(Seq<u8>),
    End,
    Malformed,
}

/// Skipping `s` up to and with the next `>`.
pub open spec fn skip_close(s: Seq<u8>) -> Seek
    decreases s.len(),
{
    if s.len() == 0 {
        Seek::End
    } else if !valid_first_scalar(s) {
        Seek::Malformed
    } else if decode_first_scalar(s) as char == '>' {
        Seek::Found(pop_first_scalar(s))
    } else {
        skip_close(pop_first_scalar(s))
    }
}

/// What the start of a tag name is: nothing after `<` and a space, else
/// the character after `<`.
pub open spec fn tag_start(c: char) -> Seq<char> {
    if c == ' ' {
        seq![]
    } else {
        seq![c]
    }
}

/// Looking for the opening tag of zone `z` from outside any element, with
/// `pending` left over by the word scanner: closing tags are skipped whole,
/// other tags have their name scanned, and the tag named `z` is consumed up
/// to its `>`. `Found` gives the bytes after it.
pub open spec fn find_zone(s: Seq<u8>, pending: Option<char>, z: Seq<char>, fuel: nat) -> Seek
    decreases fuel,
{
    if fuel == 0 {
        Seek::End
    } else {
        match read_spec(s) {
            Read::End => Seek::End,
            Read::Malformed => Seek::Malformed,
            Read::Char(c, t) => if c != '<' {
                find_zone(t, pending, z, (fuel - 1) as nat)
            } else {
                match read_spec(t) {
                    Read::End => Seek::End,
                    Read::Malformed => Seek::Malformed,
                    Read::Char(c2, t2) => if c2 == '/' {
                        match skip_close(t2) {
                            Seek::Found(t3) => find_zone(t3, pending, z, (fuel - 1) as nat),
                            Seek::End => Seek::End,
                            Seek::Malformed => Seek::Malformed,
                        }
                    } else {
                        let (o, t3, p3) = scan(t2, tag_start(c2), pending);
                        match o {
                            Scan::End => Seek::End,
                            Scan::Malformed => Seek::Malformed,
                            Scan::Word(w) => if w == z {
                                if p3 != Some('>') {
                                    skip_close(t3)
                                } else {
                                    Seek::Found(t3)
                                }
                            } else {
                                find_zone(t3, p3, z, (fuel - 1) as nat)
                            },
                            Scan::Empty => find_zone(t3, p3, z, (fuel - 1) as nat),
                        }
                    },
                }
            },
        }
    }
}

/// What the tokenizer hands out, as a value.
pub ghost enum Tok {
    Word(Seq<char>),
    AttributeEnd,
    End,
    Malformed,
}

/// A word scan, inside an element, that began with `start`: a word ends the
/// call, a tag with no word before it goes on.
pub open spec fn inside_word(t: Seq<u8>, start: Seq<char>, z: Seq<char>, fuel: nat) -> (Tok, Seq<u8>, Option<char>, bool)
    decreases fuel, 1nat,
{
    let (o, t2, p2) = scan(t, start, None);
    match o {
        Scan::Word(w) => (Tok::Word(w), t2, p2, true),
        Scan::Empty => inside_loop(t2, p2, z, fuel),
        Scan::End => (Tok::End, t2, p2, true),
        Scan::Malformed => (Tok::Malformed, t2, p2, true),
    }
}

/// The tokenizer inside an element of zone `z`: the next word, or the
/// closing tag of `z` (after which it is outside), or the end. The state
/// after it is the bytes left, the pending character and whether it is
/// still inside.
pub open spec fn inside_loop(s: Seq<u8>, pending: Option<char>, z: Seq<char>, fuel: nat) -> (Tok, Seq<u8>, Option<char>, bool)
    decreases fuel, 0nat,
{
    if fuel == 0 {
        (Tok::End, s, pending, true)
    } else {
        let first = match pending {
            Some(v) => Read::Char(v, s),
            None => read_spec(s),
        };
        match first {
            Read::End => (Tok::End, s, None, true),
            Read::Malformed => (Tok::Malformed, s, None, true),
            Read::Char(c, t) => if is_alphabetic_char(c) {
                inside_word(t, lowercase_of(c), z, (fuel - 1) as nat)
            } else if is_delimiter(c) {
                if c == '<' {
                    match read_spec(t) {
                        Read::End => (Tok::End, t, None, true),
                        Read::Malformed => (Tok::Malformed, t, None, true),
                        Read::Char(c2, t2) => if c2 == '/' {
                            let (o, t3, p3) = scan(t2, seq![], None);
                            match o {
                                Scan::End => (Tok::End, t3, p3, true),
                                Scan::Malformed => (Tok::Malformed, t3, p3, true),
                                Scan::Word(w) => if w == z {
                                    (Tok::AttributeEnd, t3, p3, false)
                                } else {
                                    inside_loop(t3, p3, z, (fuel - 1) as nat)
                                },
                                Scan::Empty => inside_loop(t3, p3, z, (fuel - 1) as nat),
                            }
                        } else {
                            inside_loop(t2, None, z, (fuel - 1) as nat)
                        },
                    }
                } else {
                    inside_loop(t, None, z, (fuel - 1) as nat)
                }
            } else if c == '\0' {
                (Tok::End, t, None, true)
            } else {
                inside_word(t, seq![c], z, (fuel - 1) as nat)
            },
        }
    }
}

/// The tokenizer's next result for zone `z` from the unread bytes `s`, the
/// pending character and whether it stands inside an element of `z`, with
/// the state after it.
pub open spec fn token(s: Seq<u8>, pending: Option<char>, inside: bool, z: Seq<char>) -> (Tok, Seq<u8>, Option<char>, bool) {
    if inside {
        inside_loop(s, pending, z, 2 * s.len() + 2)
    } else {
        match find_zone(s, pending, z, 2 * s.len() + 2) {
            Seek::Found(t) => inside_loop(t, None, z, 2 * t.len() + 2),
            Seek::End => (Tok::End, s, pending, false),
            Seek::Malformed => (Tok::Malformed, s, pending, false),
        }
    }
}

/// A word that a scan hands out has a letter.
pub proof fn lemma_scan_word(s: Seq<u8>, start: Seq<char>, pending: Option<char>)
    ensures
        scan(s, start, pending).0 matches Scan::Word(w) ==> has_letter(w),
    decreases s.len(),
{
    if s.len() > 0 && valid_first_scalar(s) {
        let c = decode_first_scalar(s) as char;
        let t = pop_first_scalar(s);
        lemma_scan_word(t, start + lowercase_of(c), pending);
        lemma_scan_word(t, cut_last(start, 5).push('\''), Some(';'));
        lemma_scan_word(t, seq![], Some(';'));
        lemma_scan_word(t, seq![], pending);
        lemma_scan_word(t, start.push(c), pending);
    }
}

/// What `next_word` returns for `t`.
pub open spec fn tok_result(r: Option<ReaderResult>, t: Tok) -> bool {
    match r {
        Some(ReaderResult::Word(w)) => t == Tok::Word(w@),
        Some(ReaderResult::AttributeEnd) => t == Tok::AttributeEnd,
        Some(ReaderResult::Malformed) => t == Tok::Malformed,
        None => t == Tok::End,
    }
}

/// One character read, or why none was.
enum CharRead {
    Char(char),
    End,
    Malformed,
}

/// How a search ended.
enum Step {
    Found,
    End,
    Malformed,
}

/// Reads one character, telling the end of the bytes from malformed bytes.
fn next_char(reader: &mut ByteReader) -> (r: CharRead)
    ensures
        match read_spec(old(reader).remaining()) {
            Read::Char(c, t) => r == CharRead::Char(c) && final(reader).remaining() == t,
            Read::End => r is End && final(reader).remaining() == old(reader).remaining(),
            Read::Malformed => r is Malformed,
        },
        final(reader).remaining().len() <= old(reader).remaining().len(),
        old(reader).remaining().len() > 0 ==> final(reader).remaining().len() < old(reader).remaining().len(),
{
    let at_end = reader.is_exhausted();
    match read_char(reader) {
        Some(c) => CharRead::Char(c),
        None => if at_end {
            CharRead::End
        } else {
            CharRead::Malformed
        },
    }
}

/// Reads up to and with the next `>`.
fn skip_to_close(reader: &mut ByteReader) -> (r: Step)
    ensures
        match skip_close(old(reader).remaining()) {
            Seek::Found(t) => r is Found && final(reader).remaining() == t,
            Seek::End => r is End,
            Seek::Malformed => r is Malformed,
        },
        final(reader).remaining().len() <= old(reader).remaining().len(),
{
    loop
        invariant
            reader.remaining().len() <= old(reader).remaining().len(),
            skip_close(old(reader).remaining()) == skip_close(reader.remaining()),
        decreases reader.remaining().len(),
    {
        match next_char(reader) {
            CharRead::Char(c) => {
                if c == '>' {
                    return Step::Found;
                }
            },
            CharRead::End => {
                return Step::End;
            },
            CharRead::Malformed => {
                return Step::Malformed;
            },
        }
    }
}

/// Streams the words of a rotating list of zones out of XML text.
pub struct RepeatedXmlReader {
    reader: ByteReader,
    word_provider: XmlWordProvider,
    position: Position,
    attribute_order: Vec<String>,
    attribute_index: usize,
}

impl RepeatedXmlReader {
    pub closed spec fn wf(&self) -> bool {
        self.attribute_index < self.attribute_order@.len()
    }

    /// The zone names, in order.
    pub closed spec fn zones(&self) -> Seq<Seq<char>> {
        self.attribute_order@.map_values(|s: String| s@)
    }

    /// Whether the tokenizer stands inside an element of the expected zone.
    pub closed spec fn inside(&self) -> bool {
        self.position == Position::Inside
    }

    /// The index of the zone expected next.
    pub fn zone_position(&self) -> (r: usize)
        ensures
            r == self.zone_index(),
    {
        self.attribute_index
    }

    /// Well-formed readers expect one of their zones.
    pub proof fn lemma_wf(&self)
        requires
            self.wf(),
        ensures
            self.zone_index() < self.zone_count(),
    {
    }

    /// A measure of the input left, which every word handed out lowers.
    pub closed spec fn progress(&self) -> nat {
        (2 * self.reader.remaining().len() + if self.word_provider.pending() is Some {
            1int
        } else {
            0int
        }) as nat
    }

    /// The bytes not read yet.
    pub closed spec fn unread(&self) -> Seq<u8> {
        self.reader.remaining()
    }

    /// A tokenizer over `reader` that expects the first zone of
    /// `attribute_order`, outside of any element.
    pub fn new(reader: ByteReader, attribute_order: Vec<String>) -> (r: RepeatedXmlReader)
        requires
            attribute_order@.len() > 0,
        ensures
            r.wf(),
            r.zone_index() == 0,
            r.zone_count() == attribute_order@.len(),
            r.zones() == attribute_order@.map_values(|s: String| s@),
            !r.inside(),
            r.unread() == reader.remaining(),
            r.pending() is None,
            r.zone_names() == r.zones(),
    {
        RepeatedXmlReader {
            reader,
            word_provider: XmlWordProvider::new(),
            position: Position::Outside,
            attribute_order,
            attribute_index: 0,
        }
    }

    /// The character the word scanner left pending.
    pub closed spec fn pending(&self) -> Option<char> {
        self.word_provider.pending()
    }

    /// The name of the zone expected now.
    pub closed spec fn zone_name(&self) -> Seq<char> {
        self.attribute_order@[self.attribute_index as int]@
    }

    /// Looks for the opening tag of the expected zone.
    fn find_element(&mut self) -> (r: Step)
        requires
            old(self).wf(),
        ensures
            final(self).wf(),
            final(self).attribute_order == old(self).attribute_order,
            final(self).attribute_index == old(self).attribute_index,
            final(self).position == old(self).position,
            final(self).progress() <= old(self).progress(),
            match find_zone(old(self).unread(), old(self).pending(), old(self).zone_name(), 2 * old(self).unread().len() + 2) {
                Seek::Found(t) => r is Found && final(self).unread() == t && final(self).pending() is None,
                Seek::End => r is End,
                Seek::Malformed => r is Malformed,
            },
    {
        let idx = self.attribute_index;
        let ghost z = self.zone_name();
        let ghost goal = find_zone(self.unread(), self.pending(), z, 2 * self.unread().len() + 2);
        let ghost mut f: nat = (2 * self.unread().len() + 2) as nat;
        loop
            invariant
                self.wf(),
                self.attribute_index == idx,
                self.attribute_order == old(self).attribute_order,
                self.attribute_index == old(self).attribute_index,
                self.position == old(self).position,
                self.progress() <= old(self).progress(),
                z == self.zone_name(),
                z == self.attribute_order@[idx as int]@,
                goal == find_zone(self.unread(), self.pending(), z, f),
                goal == find_zone(old(self).unread(), old(self).pending(), old(self).zone_name(), 2 * old(self).unread().len() + 2),
                f >= self.unread().len() + 1,
            decreases self.reader.remaining().len(),
        {
            match next_char(&mut self.reader) {
                CharRead::End => {
                    return Step::End;
                },
                CharRead::Malformed => {
                    return Step::Malformed;
                },
                CharRead::Char(c) => {
                    if c == '<' {
                        match next_char(&mut self.reader) {
                            CharRead::End => {
                                return Step::End;
                            },
                            CharRead::Malformed => {
                                return Step::Malformed;
                            },
                            CharRead::Char(c2) => {
                                if c2 == '/' {
                                    match skip_to_close(&mut self.reader) {
                                        Step::Found => {},
                                        Step::End => {
                                            return Step::End;
                                        },
                                        Step::Malformed => {
                                            return Step::Malformed;
                                        },
                                    }
                                } else {
                                    let start = if c2 == ' ' {
                                        None
                                    } else {
                                        Some(string_of(c2))
                                    };
                                    assert(start_chars(start) == tag_start(c2));
                                    match self.word_provider.next_word(&mut self.reader, start) {
                                        None => {
                                            return Step::End;
                                        },
                                        Some(WordOption::Malformed) => {
                                            return Step::Malformed;
                                        },
                                        Some(WordOption::Empty) => {},
                                        Some(WordOption::Word(w)) => {
                                            if str_eq(w.as_str(), self.attribute_order[idx].as_str()) {
                                                if self.word_provider.consume() != Some('>') {
                                                    return skip_to_close(&mut self.reader);
                                                }
                                                return Step::Found;
                                            }
                                        },
                                    }
                                }
                            },
                        }
                    }
                    proof {
                        f = (f - 1) as nat;
                    }
                },
            }
        }
    }

    /// The next result of the tokenizer, as `token` gives it from the unread
    /// bytes, the pending character, whether it stands inside an element
    /// and the expected zone: a word of that zone's element, the end of the
    /// element (then it stands outside), `Malformed` on bytes that are not
    /// well-formed UTF-8, or `None` when the input ends (at its end or at a
    /// NUL) before any. After a word or the end of an element the reader
    /// stands where `token` says. The zone does not change.
    pub fn next_word(&mut self) -> (r: Option<ReaderResult>)
        requires
            old(self).wf(),
        ensures
            final(self).wf(),
            final(self).zone_index() == old(self).zone_index(),
            final(self).zones() == old(self).zones(),
            final(self).zone_count() == old(self).zone_count(),
            final(self).zone_name() == old(self).zone_name(),
            tok_result(r, token(old(self).unread(), old(self).pending(), old(self).inside(), old(self).zone_name()).0),
            (r matches Some(ReaderResult::Word(_)) || r matches Some(ReaderResult::AttributeEnd)) ==> {
                let t = token(old(self).unread(), old(self).pending(), old(self).inside(), old(self).zone_name());
                &&& final(self).unread() == t.1
                &&& final(self).pending() == t.2
                &&& final(self).inside() == t.3
                &&& final(self).progress() < old(self).progress()
            },
            r matches Some(ReaderResult::Word(w)) ==> has_letter(w@) && final(self).inside(),
            r matches Some(ReaderResult::AttributeEnd) ==> !final(self).inside(),
    {
        let idx = self.attribute_index;
        let ghost z = self.zone_name();
        let ghost goal = token(self.unread(), self.pending(), self.inside(), z);
        if self.position == Position::Outside {
            match self.find_element() {
                Step::Found => {
                    self.position = Position::Inside;
                },
                Step::End => {
                    return None;
                },
                Step::Malformed => {
                    return Some(ReaderResult::Malformed);
                },
            }
        }
        let ghost mut f: nat = (2 * self.unread().len() + 2) as nat;
        assert(goal == inside_loop(self.unread(), self.pending(), z, f));
        loop
            invariant
                self.wf(),
                self.attribute_index == idx,
                self.attribute_order == old(self).attribute_order,
                self.attribute_index == old(self).attribute_index,
                self.position == Position::Inside,
                self.progress() <= old(self).progress(),
                z == self.zone_name(),
                z == old(self).zone_name(),
                z == self.attribute_order@[idx as int]@,
                goal == token(old(self).unread(), old(self).pending(), old(self).inside(), z),
                goal == inside_loop(self.unread(), self.pending(), z, f),
                f >= 2 * self.unread().len() + (if self.pending() is Some { 1int } else { 0int }) + 1,
            decreases 2 * self.reader.remaining().len() + if self.word_provider.pending() is Some {
                1int
            } else {
                0int
            },
        {
            let ghost cur0 = self.unread();
            let ghost pend0 = self.pending();
            let next = match self.word_provider.consume() {
                Some(v) => v,
                None => match next_char(&mut self.reader) {
                    CharRead::Char(c) => c,
                    CharRead::End => {
                        return None;
                    },
                    CharRead::Malformed => {
                        return Some(ReaderResult::Malformed);
                    },
                },
            };
            let ghost t = self.unread();
            proof {
                assert(f > 0);
                assert(goal == inside_loop(cur0, pend0, z, f));
            }
            match interpret_character(next) {
                CharType::Letter(s) => {
                    proof {
                        assert(goal == inside_word(t, lowercase_of(next), z, (f - 1) as nat));
                        lemma_scan_word(t, lowercase_of(next), None);
                    }
                    match self.word_provider.next_word(&mut self.reader, Some(s)) {
                        Some(WordOption::Word(w)) => {
                            return Some(ReaderResult::Word(w));
                        },
                        Some(WordOption::Empty) => {},
                        Some(WordOption::Malformed) => {
                            return Some(ReaderResult::Malformed);
                        },
                        None => {
                            return None;
                        },
                    }
                },
                CharType::Ordinary(c) => {
                    let start = string_of(c);
                    proof {
                        assert(goal == inside_word(t, seq![next], z, (f - 1) as nat));
                        lemma_scan_word(t, seq![next], None);
                    }
                    match self.word_provider.next_word(&mut self.reader, Some(start)) {
                        Some(WordOption::Word(w)) => {
                            return Some(ReaderResult::Word(w));
                        },
                        Some(WordOption::Empty) => {},
                        Some(WordOption::Malformed) => {
                            return Some(ReaderResult::Malformed);
                        },
                        None => {
                            return None;
                        },
                    }
                },
                CharType::Delimiter(d) => {
                    if d == '<' {
                        match next_char(&mut self.reader) {
                            CharRead::Char(c2) => {
                                if c2 == '/' {
                                    match self.word_provider.next_word(&mut self.reader, None) {
                                        Some(WordOption::Word(w)) => {
                                            if str_eq(w.as_str(), self.attribute_order[idx].as_str()) {
                                                self.position = Position::Outside;
                                                return Some(ReaderResult::AttributeEnd);
                                            }
                                        },
                                        Some(WordOption::Empty) => {},
                                        Some(WordOption::Malformed) => {
                                            return Some(ReaderResult::Malformed);
                                        },
                                        None => {
                                            return None;
                                        },
                                    }
                                }
                            },
                            CharRead::End => {
                                return None;
                            },
                            CharRead::Malformed => {
                                return Some(ReaderResult::Malformed);
                            },
                        }
                    }
                },
                CharType::EOF => {
                    return None;
                },
            }
            proof {
                f = (f - 1) as nat;
            }
        }
    }

    /// Moves on to the next zone, around the list.
    pub fn advance_zone(&mut self)
        requires
            old(self).wf(),
        ensures
            final(self).wf(),
            final(self).progress() == old(self).progress(),
            final(self).zone_count() == old(self).zone_count(),
            final(self).zones() == old(self).zones(),
            final(self).inside() == old(self).inside(),
            final(self).unread() == old(self).unread(),
            final(self).pending() == old(self).pending(),
            final(self).zone_index() == next_zone(old(self).zone_index(), old(self).zone_count()),
    {
        let n = self.attribute_order.len();
        self.attribute_index = (self.attribute_index + 1) % n;
    }

    /// Splits the words of the input into pieces of XML text: every word
    /// of a zone goes between an opening and a closing tag of that zone,
    /// and a new piece begins after every `skips` elements of each zone.
    pub fn divide_write(&mut self, skips: u16) -> (r: Vec<String>)
        requires
            old(self).wf(),
        ensures
            final(self).wf(),
            final(self).zone_count() == old(self).zone_count(),
            r@.len() >= 1,
    {
        let zones = self.attribute_order.len() as u128;
        assert((skips as u128) * zones < 0x1000000000000000000000000u128) by (nonlinear_arith)
            requires
                skips < 0x10000,
                zones < 0x10000000000000000u128,
        ;
        let per_piece: u128 = (skips as u128) * zones;
        let mut pieces: Vec<String> = Vec::new();
        let mut current = String::new();
        let mut left: u128 = per_piece;
        let mut opened = false;
        loop
            invariant
                self.wf(),
                self.zone_count() == old(self).zone_count(),
            decreases self.progress(),
        {
            let s = match self.next_word() {
                Some(ReaderResult::Malformed) => {
                    break;
                },
                Some(s) => s,
                None => {
                    break;
                },
            };
            if left == 0 {
                pieces.push(current);
                current = String::new();
                left = per_piece;
            }
            if !opened {
                push_str(&mut current, "<");
                push_str(&mut current, self.zone());
                push_str(&mut current, ">\n");
                opened = true;
            }
            match s {
                ReaderResult::Word(w) => {
                    push_str(&mut current, w.as_str());
                    push_str(&mut current, " ");
                },
                ReaderResult::AttributeEnd => {
                    push_str(&mut current, "\n</");
                    push_str(&mut current, self.zone());
                    push_str(&mut current, ">\n");
                    self.advance_zone();
                    if left > 0 {
                        left = left - 1;
                    }
                    opened = false;
                },
                ReaderResult::Malformed => {},
            }
        }
        pieces.push(current);
        pieces
    }
}

impl Reader for RepeatedXmlReader {
    closed spec fn ready(&self) -> bool {
        self.wf()
    }

    closed spec fn next_token(&self) -> Tok {
        token(self.unread(), self.pending(), self.inside(), self.zone_name()).0
    }

    fn next_word(&mut self) -> (r: Option<ReaderResult>) {
        RepeatedXmlReader::next_word(self)
    }
}

impl ZoneRepeatedReader for RepeatedXmlReader {
    closed spec fn zone_index(&self) -> nat {
        self.attribute_index as nat
    }

    closed spec fn zone_count(&self) -> nat {
        self.attribute_order@.len()
    }

    closed spec fn zone_names(&self) -> Seq<Seq<char>> {
        self.zones()
    }

    fn transform_zone(&mut self) {
        self.advance_zone();
    }

    fn zone(&self) -> (r: &str) {
        if self.attribute_index < self.attribute_order.len() {
            self.attribute_order[self.attribute_index].as_str()
        } else {
            ""
        }
    }

    fn zones_len(&self) -> (r: usize) {
        self.attribute_order.len()
    }
}

/// The tokenizer of a single zone, the `text` element.
pub struct XmlReader {
    inner: RepeatedXmlReader,
}

impl XmlReader {
    pub closed spec fn wf(&self) -> bool {
        self.inner.wf()
    }

    pub fn new(reader: ByteReader) -> (r: XmlReader)
        ensures
            r.wf(),
            r.next_token() == token(reader.remaining(), None, false, seq!['t', 'e', 'x', 't']).0,
    {
        let t = string_of_text();
        let zones = vec![t];
        let inner = RepeatedXmlReader::new(reader, zones);
        assert(inner.zones()[0] == inner.zone_name());
        assert(inner.zone_name() =~= seq!['t', 'e', 'x', 't']);
        XmlReader { inner }
    }
}

/// The name of the one zone of [`XmlReader`].
fn string_of_text() -> (r: String)
    ensures
        r@ == seq!['t', 'e', 'x', 't'],
{
    let mut s = string_of('t');
    push_str(&mut s, "ext");
    proof {
        reveal_strlit("ext");
    }
    s
}

impl XmlReader {
    /// Splits the words of the `text` elements into pieces of XML text,
    /// `skips` elements to a piece.
    pub fn divide_write(&mut self, skips: u16) -> (r: Vec<String>)
        requires
            old(self).wf(),
        ensures
            final(self).wf(),
            r@.len() >= 1,
    {
        self.inner.divide_write(skips)
    }
}

impl XmlReader {
    /// The next word of a `text` element, or the end of one, as `token`
    /// gives it for the zone `text`.
    pub fn next_word(&mut self) -> (r: Option<ReaderResult>)
        requires
            old(self).wf(),
        ensures
            final(self).wf(),
            tok_result(r, old(self).next_token()),
    {
        self.inner.next_word()
    }
}

impl Reader for XmlReader {
    closed spec fn ready(&self) -> bool {
        self.wf()
    }

    closed spec fn next_token(&self) -> Tok {
        self.inner.next_token()
    }

    fn next_word(&mut self) -> (r: Option<ReaderResult>) {
        self.inner.next_word()
    }
}

} // verus!
