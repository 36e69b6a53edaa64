//! Decoding characters from bytes, and sorting them into the classes that
//! the tokenizer works with.
use crate::bytes::U8Provider;
use vstd::prelude::*;
use vstd::string::StrSliceExecFns;
use vstd::utf8::{decode_first_scalar, is_scalar, pop_first_scalar, valid_first_scalar};

verus! {

/// Relies on `char::from_u32`, which gives the character of a Unicode
/// scalar value and `None` for anything else.
#[verifier::external_body]
fn char_from_u32(v: u32) -> (r: Option<char>)
    ensures
        is_scalar(v) ==> r == Some(v as char),
        !is_scalar(v) ==> r is None,
{
    char::from_u32(v)
}

/// Reads one UTF-8 encoded character; `None` at the end of the bytes or
/// where they do not begin with a well-formed encoding.
pub fn read_char<R: U8Provider>(reader: &mut R) -> (r: Option<char>)
    ensures
        final(reader).contents() == old(reader).contents(),
        r is Some <==> valid_first_scalar(old(reader).remaining()),
        r is Some ==> r->0 == decode_first_scalar(old(reader).remaining()) as char && final(reader).remaining() == pop_first_scalar(old(reader).remaining()),
        old(reader).remaining().len() > 0 ==> final(reader).remaining().len() < old(reader).remaining().len(),
        final(reader).remaining().len() <= old(reader).remaining().len(),
        old(reader).remaining().len() == 0 ==> final(reader).remaining() == old(reader).remaining(),
{
    let ghost s = reader.remaining();
    let b0 = match reader.next_u8() {
        Some(b) => b,
        None => {
            return None;
        },
    };
    let cp: u32;
    if b0 <= 0x7f {
        cp = (b0 & 0x7f) as u32;
        assert(cp <= 0x7f) by (bit_vector)
            requires
                cp == (b0 & 0x7f) as u32,
        ;
        assert(pop_first_scalar(s) =~= s.drop_first());
    } else if 0xc0 <= b0 && b0 <= 0xdf {
        let rest = match reader.take(1) {
            Some(rest) => rest,
            None => {
                return None;
            },
        };
        let b1 = rest[0];
        assert(b1 == s[1]);
        if !(0x80 <= b1 && b1 <= 0xbf) {
            return None;
        }
        cp = ((b0 & 0x1f) as u32) << 6u32 | ((b1 & 0x3f) as u32);
        assert(cp <= 0x7ff) by (bit_vector)
            requires
                cp == ((b0 & 0x1f) as u32) << 6u32 | ((b1 & 0x3f) as u32),
        ;
        if cp < 0x80 {
            return None;
        }
        assert(pop_first_scalar(s) =~= s.drop_first().skip(1));
    } else if 0xe0 <= b0 && b0 <= 0xef {
        let rest = match reader.take(2) {
            Some(rest) => rest,
            None => {
                return None;
            },
        };
        let b1 = rest[0];
        let b2 = rest[1];
        assert(b1 == s[1] && b2 == s[2]);
        if !(0x80 <= b1 && b1 <= 0xbf && 0x80 <= b2 && b2 <= 0xbf) {
            return None;
        }
        cp = ((b0 & 0x0f) as u32) << 12u32 | ((b1 & 0x3f) as u32) << 6u32 | ((b2 & 0x3f) as u32);
        assert(cp <= 0xffff) by (bit_vector)
            requires
                cp == ((b0 & 0x0f) as u32) << 12u32 | ((b1 & 0x3f) as u32) << 6u32 | ((b2 & 0x3f) as u32),
        ;
        if cp < 0x800 || (0xD800 <= cp && cp <= 0xDFFF) {
            return None;
        }
        assert(pop_first_scalar(s) =~= s.drop_first().skip(2));
    } else if 0xf0 <= b0 && b0 <= 0xf7 {
        let rest = match reader.take(3) {
            Some(rest) => rest,
            None => {
                return None;
            },
        };
        let b1 = rest[0];
        let b2 = rest[1];
        let b3 = rest[2];
        assert(b1 == s[1] && b2 == s[2] && b3 == s[3]);
        if !(0x80 <= b1 && b1 <= 0xbf && 0x80 <= b2 && b2 <= 0xbf && 0x80 <= b3 && b3 <= 0xbf) {
            return None;
        }
        cp = ((b0 & 0x07) as u32) << 18u32 | ((b1 & 0x3f) as u32) << 12u32 | ((b2 & 0x3f) as u32)
            << 6u32 | ((b3 & 0x3f) as u32);
        if cp < 0x10000 || cp > 0x10ffff {
            return None;
        }
        assert(pop_first_scalar(s) =~= s.drop_first().skip(3));
    } else {
        return None;
    }
    assert(cp == decode_first_scalar(s));
    assert(is_scalar(cp));
    char_from_u32(cp)
}

/// Relies on `String::push`: appends one character.
#[verifier::external_body]
pub(crate) fn push_char(s: &mut String, c: char)
    ensures
        final(s)@ == old(s)@.push(c),
{
    s.push(c)
}

/// The characters of a line read from `s` after `acc`: up to a line feed,
/// a NUL, the end or malformed bytes, with carriage returns left out.
pub open spec fn line_spec(s: Seq<u8>, acc: Seq<char>) -> Seq<char>
    decreases s.len(),
{
    if s.len() == 0 || !valid_first_scalar(s) {
        acc
    } else {
        let c = decode_first_scalar(s) as char;
        if c == '\n' || c == '\0' {
            acc
        } else if c == '\r' {
            line_spec(pop_first_scalar(s), acc)
        } else {
            line_spec(pop_first_scalar(s), acc.push(c))
        }
    }
}

/// The characters of a word read from `s` after `acc`: up to a space, a
/// NUL, the end or malformed bytes.
pub open spec fn word_spec(s: Seq<u8>, acc: Seq<char>) -> Seq<char>
    decreases s.len(),
{
    if s.len() == 0 || !valid_first_scalar(s) {
        acc
    } else {
        let c = decode_first_scalar(s) as char;
        if c == ' ' || c == '\0' {
            acc
        } else {
            word_spec(pop_first_scalar(s), acc.push(c))
        }
    }
}

/// Reads a line: characters up to a line feed, a NUL or the end, without
/// carriage returns. `None` when the line is empty.
pub fn read_line<R: U8Provider>(reader: &mut R) -> (r: Option<String>)
    ensures
        final(reader).contents() == old(reader).contents(),
        line_spec(old(reader).remaining(), seq![]).len() > 0 ==> r is Some && r->0@ == line_spec(old(reader).remaining(), seq![]),
        line_spec(old(reader).remaining(), seq![]).len() == 0 ==> r is None,
{
    let mut line = String::new();
    let ghost goal = line_spec(reader.remaining(), seq![]);
    proof {
        assert(line@ =~= Seq::<char>::empty());
    }
    loop
        invariant_except_break
            goal == line_spec(reader.remaining(), line@),
        invariant
            reader.contents() == old(reader).contents(),
            goal == line_spec(old(reader).remaining(), seq![]),
        ensures
            goal == line@,
        decreases reader.remaining().len(),
    {
        let c = match read_char(reader) {
            Some(c) => c,
            None => {
                break;
            },
        };
        if c == '\n' || c == '\0' {
            break;
        } else if c != '\r' {
            push_char(&mut line, c);
        }
    }
    if line.as_str().unicode_len() > 0 {
        Some(line)
    } else {
        None
    }
}

/// Reads a word: characters up to a space, a NUL or the end. `None` when
/// the word is empty.
pub fn read_to_space<R: U8Provider>(reader: &mut R) -> (r: Option<String>)
    ensures
        final(reader).contents() == old(reader).contents(),
        word_spec(old(reader).remaining(), seq![]).len() > 0 ==> r is Some && r->0@ == word_spec(old(reader).remaining(), seq![]),
        word_spec(old(reader).remaining(), seq![]).len() == 0 ==> r is None,
{
    let mut word = String::new();
    let ghost goal = word_spec(reader.remaining(), seq![]);
    proof {
        assert(word@ =~= Seq::<char>::empty());
    }
    loop
        invariant_except_break
            goal == word_spec(reader.remaining(), word@),
        invariant
            reader.contents() == old(reader).contents(),
            goal == word_spec(old(reader).remaining(), seq![]),
        ensures
            goal == word@,
        decreases reader.remaining().len(),
    {
        let c = match read_char(reader) {
            Some(c) => c,
            None => {
                break;
            },
        };
        if c == ' ' || c == '\0' {
            break;
        }
        push_char(&mut word, c);
    }
    if word.as_str().unicode_len() > 0 {
        Some(word)
    } else {
        None
    }
}

/// Whether `c` is alphabetic in the Unicode sense; what `char::is_alphabetic` answers.
pub uninterp spec fn is_alphabetic_char(c: char) -> bool;

/// Whether `c` has the Unicode White_Space property, as `char::is_whitespace`
/// answers: the 25 code points of that property.
pub open spec fn is_whitespace_char(c: char) -> bool {
    ('\u{9}' <= c <= '\u{d}') || c == ' ' || c == '\u{85}' || c == '\u{a0}' || c == '\u{1680}' || ('\u{2000}'
        <= c <= '\u{200a}') || c == '\u{2028}' || c == '\u{2029}' || c == '\u{202f}' || c == '\u{205f}'
        || c == '\u{3000}'
}

/// The lower-case form of `c`, which may be several characters; what
/// `char::to_lowercase` yields.
pub uninterp spec fn lowercase_of(c: char) -> Seq<char>;

/// Relies on `char::is_alphabetic`: the answer depends on the character alone.
#[verifier::external_body]
fn is_alphabetic(c: char) -> (r: bool)
    ensures
        r == is_alphabetic_char(c),
{
    c.is_alphabetic()
}

/// Relies on `char::is_whitespace`: true exactly for the characters with the
/// Unicode White_Space property.
#[verifier::external_body]
fn is_whitespace(c: char) -> (r: bool)
    ensures
        r == is_whitespace_char(c),
{
    c.is_whitespace()
}

/// Relies on `char::to_lowercase`: the characters depend on `c` alone.
#[verifier::external_body]
fn to_lowercase(c: char) -> (r: String)
    ensures
        r@ == lowercase_of(c),
{
    c.to_lowercase().collect::<String>()
}

/// The punctuation that separates words.
pub open spec fn is_punctuation(c: char) -> bool {
    c == ',' || c == '.' || c == ';' || c == '(' || c == ')' || c == '"' || c == '|' || c == '\\'
        || c == '/' || c == '=' || c == '-' || c == '+' || c == '*' || c == '<' || c == '>' || c
        == '{' || c == '}' || c == '[' || c == ']' || c == ':' || c == '!' || c == '?' || c == '，'
        || c == '；' || c == '。' || c == '、'
}

/// A decimal ASCII digit.
pub open spec fn is_ascii_digit_char(c: char) -> bool {
    '0' <= c <= '9'
}

/// A character that ends a word.
pub open spec fn is_delimiter(c: char) -> bool {
    is_whitespace_char(c) || is_ascii_digit_char(c) || is_punctuation(c)
}

/// The class of a character, as the tokenizer sees it.
pub enum CharType {
    /// An alphabetic character, given in lower case.
    Letter(String),
    /// A character that belongs to a word but is no letter.
    Ordinary(char),
    /// A character that ends a word.
    Delimiter(char),
    /// The NUL character, which ends the input.
    EOF,
}

/// Whether `t` is the class of `c`.
pub open spec fn classifies(c: char, t: CharType) -> bool {
    if is_alphabetic_char(c) {
        t matches CharType::Letter(s) && s@ == lowercase_of(c)
    } else if is_delimiter(c) {
        t == CharType::Delimiter(c)
    } else if c == '\0' {
        t is EOF
    } else {
        t == CharType::Ordinary(c)
    }
}

/// A way to sort characters into classes.
pub trait CharInterpretation {
    fn interpret_character(c: char) -> (r: CharType)
        ensures
            classifies(c, r),
    ;
}

/// Letters by Unicode, word ends by white space, digits and common
/// punctuation (Latin and CJK).
pub struct CommCharInterpreter;

impl CharInterpretation for CommCharInterpreter {
    fn interpret_character(c: char) -> (r: CharType) {
        interpret_character(c)
    }
}

fn is_punctuation_exec(c: char) -> (r: bool)
    ensures
        r == is_punctuation(c),
{
    c == ',' || c == '.' || c == ';' || c == '(' || c == ')' || c == '"' || c == '|' || c == '\\'
        || c == '/' || c == '=' || c == '-' || c == '+' || c == '*' || c == '<' || c == '>' || c
        == '{' || c == '}' || c == '[' || c == ']' || c == ':' || c == '!' || c == '?' || c == '，'
        || c == '；' || c == '。' || c == '、'
}

/// The class of `c`.
pub fn interpret_character(c: char) -> (r: CharType)
    ensures
        classifies(c, r),
{
    if is_alphabetic(c) {
        CharType::Letter(to_lowercase(c))
    } else if is_whitespace(c) || ('0' <= c && c <= '9') || is_punctuation_exec(c) {
        CharType::Delimiter(c)
    } else if c == '\0' {
        CharType::EOF
    } else {
        CharType::Ordinary(c)
    }
}

/// Whether `c` is a letter.
pub fn is_letter(c: char) -> (r: bool)
    ensures
        r == is_alphabetic_char(c),
{
    is_alphabetic(c)
}

} // verus!
