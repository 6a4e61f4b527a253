//! Strict-shape reader for the JSON of a saved state: the members of an object
//! stand in the order in which they are written, and white space may stand
//! between them.
//!
//! A number is found here as a piece of text. What number it writes is read
//! outside, as a double, and handed back by its bits: see
//! [`cluster_line_numbers`] and [`parse_cluster_line`].
use vstd::prelude::*;
use vstd::utf8::*;

use crate::double;
use crate::double::whole_number;
use crate::drain;
use crate::drain::{Cluster, ClusterView, Slot, SlotView};
use crate::text;
use crate::text::{chars_of, matches_at, run_from, text_eq, Class};
use crate::tokenizer::TokenKind;

verus! {

/// Std's `char::from_u32`: the character of the number `i`, and nothing where
/// `i` is a surrogate or above the last code point.
pub assume_specification[ char::from_u32 ](i: u32) -> (r: Option<char>)
    ensures
        r is Some <==> (i < 0xD800 || (0xE000 <= i && i <= 0x10FFFF)),
        r matches Some(c) ==> c as int == i,
;

/// Why a text is refused.
#[derive(Debug, Clone, PartialEq, Eq)]
pub enum JsonError {
    /// `wanted` was expected where `left` bytes of the text were left.
    Expected { wanted: char, left: usize },
    /// Another key was expected.
    ExpectedKey { key: String, got: String },
    /// A string ends in a backslash.
    UnterminatedEscape,
    /// Fewer than four bytes follow a `\u`.
    TruncatedEscape,
    /// What follows a `\u` is no hex number.
    InvalidHex,
    /// The number behind a `\u` is no character.
    InvalidCodepoint,
    /// A backslash is followed by something that is no escape, of which this
    /// is the first byte.
    UnknownEscape(u8),
    /// A string does not end.
    UnterminatedString,
    /// No number stands where one was expected.
    ExpectedNumber,
    /// A number could not be read.
    InvalidNumber,
    /// A number is not whole, or below zero, or not finite.
    NotWhole,
    /// Neither `,` nor `]` follows a slot.
    ExpectedCommaOrBracket,
    /// No token kind has that name.
    UnknownKind(String),
    /// No slot has that tag.
    UnknownTag(String),
}

/// What a refusal says.
pub enum JsonFault {
    Expected { wanted: char, left: nat },
    ExpectedKey { key: Seq<char>, got: Seq<char> },
    UnterminatedEscape,
    TruncatedEscape,
    InvalidHex,
    InvalidCodepoint,
    UnknownEscape(u8),
    UnterminatedString,
    ExpectedNumber,
    InvalidNumber,
    NotWhole,
    ExpectedCommaOrBracket,
    UnknownKind(Seq<char>),
    UnknownTag(Seq<char>),
}

impl View for JsonError {
    type V = JsonFault;

    open spec fn view(&self) -> JsonFault {
        match self {
            JsonError::Expected { wanted, left } => JsonFault::Expected {
                wanted: *wanted,
                left: *left as nat,
            },
            JsonError::ExpectedKey { key, got } => JsonFault::ExpectedKey { key: key@, got: got@ },
            JsonError::UnterminatedEscape => JsonFault::UnterminatedEscape,
            JsonError::TruncatedEscape => JsonFault::TruncatedEscape,
            JsonError::InvalidHex => JsonFault::InvalidHex,
            JsonError::InvalidCodepoint => JsonFault::InvalidCodepoint,
            JsonError::UnknownEscape(b) => JsonFault::UnknownEscape(*b),
            JsonError::UnterminatedString => JsonFault::UnterminatedString,
            JsonError::ExpectedNumber => JsonFault::ExpectedNumber,
            JsonError::InvalidNumber => JsonFault::InvalidNumber,
            JsonError::NotWhole => JsonFault::NotWhole,
            JsonError::ExpectedCommaOrBracket => JsonFault::ExpectedCommaOrBracket,
            JsonError::UnknownKind(s) => JsonFault::UnknownKind(s@),
            JsonError::UnknownTag(s) => JsonFault::UnknownTag(s@),
        }
    }
}

// ---------------------------------------------------------------------------
// The grammar. Each function takes the text that is left and gives what it
// read and the text that is left then.
// ---------------------------------------------------------------------------
pub open spec fn skip_space(s: Seq<char>) -> Seq<char> {
    text::trim_front(s, Class::AsciiSpace)
}

/// Optional white space, then the character `c`.
pub open spec fn read_char(s: Seq<char>, c: char) -> Result<Seq<char>, JsonFault> {
    let t = skip_space(s);
    if t.len() > 0 && t[0] == c {
        Ok(t.skip(1))
    } else {
        Err(JsonFault::Expected { wanted: c, left: encode_utf8(t).len() })
    }
}

pub open spec fn hex_value(c: char) -> int {
    if text::is_digit(c) {
        c as int - '0' as int
    } else if 'a' <= c && c <= 'f' {
        c as int - 'a' as int + 10
    } else {
        c as int - 'A' as int + 10
    }
}

/// The number of a row of hex digits.
pub open spec fn hex_number(s: Seq<char>) -> int
    decreases s.len(),
{
    if s.len() == 0 {
        0
    } else {
        hex_number(s.drop_last()) * 16 + hex_value(s.last())
    }
}

/// The digits of a hex number of four characters, of which the first may be a
/// plus sign.
pub open spec fn hex_digits(s: Seq<char>) -> Seq<char> {
    if s[0] == '+' {
        s.skip(1)
    } else {
        s
    }
}

/// The character that the hex number behind a `\u` stands for.
pub open spec fn read_hex(s: Seq<char>) -> Result<(char, Seq<char>), JsonFault> {
    if encode_utf8(s).len() < 4 {
        Err(JsonFault::TruncatedEscape)
    } else if s.len() < 4 || !text::all_in(hex_digits(s.take(4)), Class::HexDigit) {
        Err(JsonFault::InvalidHex)
    } else {
        let n = hex_number(hex_digits(s.take(4)));
        if 0xD800 <= n && n < 0xE000 {
            Err(JsonFault::InvalidCodepoint)
        } else {
            Ok((n as char, s.skip(4)))
        }
    }
}

/// The character that an escape stands for, read from behind the backslash.
pub open spec fn read_escape(s: Seq<char>) -> Result<(char, Seq<char>), JsonFault> {
    if s.len() == 0 {
        Err(JsonFault::UnterminatedEscape)
    } else if s[0] == '"' || s[0] == '\\' || s[0] == '/' {
        Ok((s[0], s.skip(1)))
    } else if s[0] == 'b' {
        Ok(('\u{08}', s.skip(1)))
    } else if s[0] == 'f' {
        Ok(('\u{0C}', s.skip(1)))
    } else if s[0] == 'n' {
        Ok(('\n', s.skip(1)))
    } else if s[0] == 'r' {
        Ok(('\r', s.skip(1)))
    } else if s[0] == 't' {
        Ok(('\t', s.skip(1)))
    } else if s[0] == 'u' {
        read_hex(s.skip(1))
    } else {
        Err(JsonFault::UnknownEscape(encode_utf8(s)[0]))
    }
}

/// An escape takes up at least one character.
pub proof fn lemma_escape_shrinks(s: Seq<char>)
    ensures
        read_escape(s) matches Ok((c, t)) ==> t.len() < s.len(),
{
}

/// A string, read from behind its opening quote.
pub open spec fn read_body(s: Seq<char>) -> Result<(Seq<char>, Seq<char>), JsonFault>
    decreases s.len(),
{
    if s.len() == 0 {
        Err(JsonFault::UnterminatedString)
    } else if s[0] == '"' {
        Ok((Seq::empty(), s.skip(1)))
    } else {
        proof {
            lemma_escape_shrinks(s.skip(1));
        }
        let first = if s[0] == '\\' {
            read_escape(s.skip(1))
        } else {
            Ok((s[0], s.skip(1)))
        };
        match first {
            Err(e) => Err(e),
            Ok((c, rest)) => match read_body(rest) {
                Err(e) => Err(e),
                Ok((t, left)) => Ok((seq![c] + t, left)),
            },
        }
    }
}

/// A string.
pub open spec fn read_string(s: Seq<char>) -> Result<(Seq<char>, Seq<char>), JsonFault> {
    match read_char(s, '"') {
        Err(e) => Err(e),
        Ok(t) => read_body(t),
    }
}

/// A string or `null`.
pub open spec fn read_opt(s: Seq<char>) -> Result<(Option<Seq<char>>, Seq<char>), JsonFault> {
    let t = skip_space(s);
    if text::starts_with(t, "null"@) {
        Ok((None, t.skip("null"@.len() as int)))
    } else {
        match read_string(s) {
            Err(e) => Err(e),
            Ok((v, left)) => Ok((Some(v), left)),
        }
    }
}

/// The key of a member, and the colon behind it.
pub open spec fn read_key(s: Seq<char>, key: Seq<char>) -> Result<Seq<char>, JsonFault> {
    match read_string(s) {
        Err(e) => Err(e),
        Ok((got, t)) => if got != key {
            Err(JsonFault::ExpectedKey { key, got })
        } else {
            read_char(t, ':')
        },
    }
}

/// The comma before a member, its key, and the colon behind it.
pub open spec fn read_next_key(s: Seq<char>, key: Seq<char>) -> Result<Seq<char>, JsonFault> {
    match read_char(s, ',') {
        Err(e) => Err(e),
        Ok(t) => read_key(t, key),
    }
}

/// `s` has one of two characters at the place `i`.
pub open spec fn one_of(s: Seq<char>, i: int, a: char, b: char) -> bool {
    0 <= i < s.len() && (s[i] == a || s[i] == b)
}

/// Where the digits from the place `i` on end.
pub open spec fn digits_end(s: Seq<char>, i: int) -> int {
    i + text::run(s.skip(i), Class::Digit)
}

/// Where the number that `s` starts with ends: an optional minus sign, digits,
/// an optional dot with digits behind it, an optional exponent.
pub open spec fn number_end(s: Seq<char>) -> int {
    let a = if one_of(s, 0, '-', '-') {
        1int
    } else {
        0
    };
    let b = digits_end(s, a);
    let c = if one_of(s, b, '.', '.') {
        digits_end(s, b + 1)
    } else {
        b
    };
    if one_of(s, c, 'e', 'E') {
        digits_end(
            s,
            if one_of(s, c + 1, '+', '-') {
                c + 2
            } else {
                c + 1
            },
        )
    } else {
        c
    }
}

/// The text of a number.
pub open spec fn read_number(s: Seq<char>) -> Result<(Seq<char>, Seq<char>), JsonFault> {
    let t = skip_space(s);
    let n = number_end(t);
    if n == 0 {
        Err(JsonFault::ExpectedNumber)
    } else {
        Ok((t.take(n), t.skip(n)))
    }
}

/// What a number's text was read as: the bits of a double, or nothing where it
/// could not be read.
pub open spec fn read_whole(reading: Option<u64>) -> Result<u64, JsonFault> {
    match reading {
        None => Err(JsonFault::InvalidNumber),
        Some(b) => match double::saturated_whole(b) {
            None => Err(JsonFault::NotWhole),
            Some(n) => Ok(n),
        },
    }
}

/// The kind of that name.
pub open spec fn kind_named(s: Seq<char>) -> Option<TokenKind> {
    if exists|k: TokenKind| #[trigger] k.name() == s {
        Some(choose|k: TokenKind| #[trigger] k.name() == s)
    } else {
        None
    }
}

/// What stands in a slot behind its tag.
pub open spec fn read_slot_value(
    tag: Seq<char>,
    s: Seq<char>,
) -> Result<(SlotView, Seq<char>), JsonFault> {
    if tag == "L"@ {
        match read_next_key(s, "v"@) {
            Err(e) => Err(e),
            Ok(t) => match read_string(t) {
                Err(e) => Err(e),
                Ok((v, left)) => Ok((SlotView::Text(v), left)),
            },
        }
    } else if tag == "W"@ {
        match read_next_key(s, "k"@) {
            Err(e) => Err(e),
            Ok(t) => match read_string(t) {
                Err(e) => Err(e),
                Ok((k, left)) => match kind_named(k) {
                    None => Err(JsonFault::UnknownKind(k)),
                    Some(kind) => Ok((SlotView::Typed(kind), left)),
                },
            },
        }
    } else if tag == "S"@ {
        Ok((SlotView::Star, s))
    } else {
        Err(JsonFault::UnknownTag(tag))
    }
}

/// A slot.
#[verifier::opaque]
pub open spec fn read_slot(s: Seq<char>) -> Result<(SlotView, Seq<char>), JsonFault> {
    match read_char(s, '{') {
        Err(e) => Err(e),
        Ok(t) => match read_key(t, "t"@) {
            Err(e) => Err(e),
            Ok(t) => match read_string(t) {
                Err(e) => Err(e),
                Ok((tag, t)) => match read_slot_value(tag, t) {
                    Err(e) => Err(e),
                    Ok((slot, t)) => match read_char(t, '}') {
                        Err(e) => Err(e),
                        Ok(left) => Ok((slot, left)),
                    },
                },
            },
        },
    }
}

pub proof fn lemma_skip_space_shrinks(s: Seq<char>)
    ensures
        skip_space(s).len() <= s.len(),
{
    text::lemma_run(s, Class::AsciiSpace);
}

pub proof fn lemma_char_shrinks(s: Seq<char>, c: char)
    ensures
        read_char(s, c) matches Ok(t) ==> t.len() < s.len(),
{
    lemma_skip_space_shrinks(s);
}

pub proof fn lemma_body_shrinks(s: Seq<char>)
    ensures
        read_body(s) matches Ok((v, t)) ==> t.len() < s.len(),
    decreases s.len(),
{
    if s.len() > 0 && s[0] != '"' {
        lemma_escape_shrinks(s.skip(1));
        let first = if s[0] == '\\' {
            read_escape(s.skip(1))
        } else {
            Ok((s[0], s.skip(1)))
        };
        if let Ok((c, rest)) = first {
            lemma_body_shrinks(rest);
        }
    }
}

pub proof fn lemma_string_shrinks(s: Seq<char>)
    ensures
        read_string(s) matches Ok((v, t)) ==> t.len() < s.len(),
{
    lemma_char_shrinks(s, '"');
    if let Ok(t) = read_char(s, '"') {
        lemma_body_shrinks(t);
    }
}

pub proof fn lemma_key_shrinks(s: Seq<char>, key: Seq<char>)
    ensures
        read_key(s, key) matches Ok(t) ==> t.len() < s.len(),
{
    lemma_string_shrinks(s);
    if let Ok((got, t)) = read_string(s) {
        lemma_char_shrinks(t, ':');
    }
}

/// A slot takes up something.
pub proof fn lemma_slot_shrinks(s: Seq<char>)
    ensures
        read_slot(s) matches Ok((slot, t)) ==> t.len() < s.len(),
{
    reveal(read_slot);
    lemma_char_shrinks(s, '{');
    if let Ok(t) = read_char(s, '{') {
        lemma_key_shrinks(t, "t"@);
        if let Ok(t) = read_key(t, "t"@) {
            lemma_string_shrinks(t);
            if let Ok((tag, t)) = read_string(t) {
                lemma_char_shrinks(t, ',');
                if let Ok(u) = read_char(t, ',') {
                    lemma_key_shrinks(u, "v"@);
                    lemma_key_shrinks(u, "k"@);
                    if let Ok(u) = read_key(u, "v"@) {
                        lemma_string_shrinks(u);
                    }
                    if let Ok(u) = read_key(u, "k"@) {
                        lemma_string_shrinks(u);
                    }
                }
                if let Ok((slot, t)) = read_slot_value(tag, t) {
                    lemma_char_shrinks(t, '}');
                }
            }
        }
    }
}

/// Slots with commas between them, up to the closing bracket.
pub open spec fn read_slots(s: Seq<char>) -> Result<(Seq<SlotView>, Seq<char>), JsonFault>
    decreases s.len(),
{
    match read_slot(s) {
        Err(e) => Err(e),
        Ok((slot, rest)) => {
            proof {
                lemma_slot_shrinks(s);
                lemma_skip_space_shrinks(rest);
            }
            let t = skip_space(rest);
            if t.len() > 0 && t[0] == ',' {
                match read_slots(t.skip(1)) {
                    Err(e) => Err(e),
                    Ok((slots, left)) => Ok((seq![slot] + slots, left)),
                }
            } else if t.len() > 0 && t[0] == ']' {
                Ok((seq![slot], t.skip(1)))
            } else {
                Err(JsonFault::ExpectedCommaOrBracket)
            }
        },
    }
}

/// A row of slots in brackets.
pub open spec fn read_template(s: Seq<char>) -> Result<(Seq<SlotView>, Seq<char>), JsonFault> {
    match read_char(s, '[') {
        Err(e) => Err(e),
        Ok(t) => {
            let u = skip_space(t);
            if u.len() > 0 && u[0] == ']' {
                Ok((Seq::empty(), u.skip(1)))
            } else {
                read_slots(u)
            }
        },
    }
}

/// The `id` of a cluster line, as text.
pub open spec fn read_id(s: Seq<char>) -> Result<(Seq<char>, Seq<char>), JsonFault> {
    match read_char(s, '{') {
        Err(e) => Err(e),
        Ok(t) => match read_key(t, "id"@) {
            Err(e) => Err(e),
            Ok(t) => read_number(t),
        },
    }
}

/// The `category` of a cluster line.
pub open spec fn read_category(s: Seq<char>) -> Result<
    (Option<Seq<char>>, Seq<char>),
    JsonFault,
> {
    match read_next_key(s, "category"@) {
        Err(e) => Err(e),
        Ok(t) => read_opt(t),
    }
}

/// The `count` of a cluster line, as text.
pub open spec fn read_count(s: Seq<char>) -> Result<(Seq<char>, Seq<char>), JsonFault> {
    match read_next_key(s, "count"@) {
        Err(e) => Err(e),
        Ok(t) => read_number(t),
    }
}

/// A member of a cluster line that holds a time or `null`.
pub open spec fn read_seen(s: Seq<char>, key: Seq<char>) -> Result<
    (Option<Seq<char>>, Seq<char>),
    JsonFault,
> {
    match read_next_key(s, key) {
        Err(e) => Err(e),
        Ok(t) => read_opt(t),
    }
}

/// The `template` of a cluster line, and the closing brace behind it. What
/// follows the brace is not looked at.
pub open spec fn read_last(s: Seq<char>) -> Result<Seq<SlotView>, JsonFault> {
    match read_next_key(s, "template"@) {
        Err(e) => Err(e),
        Ok(t) => match read_template(t) {
            Err(e) => Err(e),
            Ok((template, t)) => match read_char(t, '}') {
                Err(e) => Err(e),
                Ok(_) => Ok(template),
            },
        },
    }
}

/// The members of a cluster line behind its `count`.
pub open spec fn read_rest(
    id: u64,
    count: u64,
    s: Seq<char>,
) -> Result<ClusterView, JsonFault> {
    match read_seen(s, "first_seen"@) {
        Err(e) => Err(e),
        Ok((first_seen, t)) => match read_seen(t, "last_seen"@) {
            Err(e) => Err(e),
            Ok((last_seen, t)) => match read_last(t) {
                Err(e) => Err(e),
                Ok(template) => Ok(ClusterView { id, template, count, first_seen, last_seen }),
            },
        },
    }
}

/// A cluster line, of which the texts of the `id` and the `count` were read as
/// the doubles `id` and `count`.
#[verifier::opaque]
pub open spec fn read_cluster_line(
    s: Seq<char>,
    id: Option<u64>,
    count: Option<u64>,
) -> Result<(Option<Seq<char>>, ClusterView), JsonFault> {
    match read_id(s) {
        Err(e) => Err(e),
        Ok((_, t)) => match read_whole(id) {
            Err(e) => Err(e),
            Ok(id) => match read_category(t) {
                Err(e) => Err(e),
                Ok((category, t)) => match read_count(t) {
                    Err(e) => Err(e),
                    Ok((_, t)) => match read_whole(count) {
                        Err(e) => Err(e),
                        Ok(count) => match read_rest(id, count, t) {
                            Err(e) => Err(e),
                            Ok(c) => Ok((category, c)),
                        },
                    },
                },
            },
        },
    }
}

/// The texts of the `id` and of the `count` of a cluster line, as far as the
/// line has its shape up to them.
pub open spec fn cluster_numbers(s: Seq<char>) -> (Option<Seq<char>>, Option<Seq<char>>) {
    match read_id(s) {
        Err(_) => (None, None),
        Ok((id, t)) => match read_category(t) {
            Err(_) => (Some(id), None),
            Ok((_, t)) => match read_count(t) {
                Err(_) => (Some(id), None),
                Ok((count, _)) => (Some(id), Some(count)),
            },
        },
    }
}

/// The `version` of the header line, as text.
pub open spec fn read_version(s: Seq<char>) -> Result<(Seq<char>, Seq<char>), JsonFault> {
    match read_char(s, '{') {
        Err(e) => Err(e),
        Ok(t) => match read_key(t, "_meta"@) {
            Err(e) => Err(e),
            Ok(t) => match read_char(t, '{') {
                Err(e) => Err(e),
                Ok(t) => match read_key(t, "version"@) {
                    Err(e) => Err(e),
                    Ok(t) => read_number(t),
                },
            },
        },
    }
}

/// A further number of the header line, as text.
pub open spec fn read_next_number(s: Seq<char>, key: Seq<char>) -> Result<
    (Seq<char>, Seq<char>),
    JsonFault,
> {
    match read_next_key(s, key) {
        Err(e) => Err(e),
        Ok(t) => read_number(t),
    }
}

/// The two braces that close the header line.
pub open spec fn read_close(s: Seq<char>) -> Result<(), JsonFault> {
    match read_char(s, '}') {
        Err(e) => Err(e),
        Ok(t) => match read_char(t, '}') {
            Err(e) => Err(e),
            Ok(_) => Ok(()),
        },
    }
}

/// The depth and the threshold of the header line, of which the numbers were
/// read as these doubles. The version may be any whole number.
#[verifier::opaque]
pub open spec fn read_meta(
    s: Seq<char>,
    version: Option<u64>,
    depth: Option<u64>,
    threshold: Option<u64>,
) -> Result<(usize, u64), JsonFault> {
    match read_version(s) {
        Err(e) => Err(e),
        Ok((_, t)) => match read_whole(version) {
            Err(e) => Err(e),
            Ok(_) => match read_next_number(t, "depth"@) {
                Err(e) => Err(e),
                Ok((_, t)) => match read_whole(depth) {
                    Err(e) => Err(e),
                    Ok(depth) => match read_next_number(t, "threshold"@) {
                        Err(e) => Err(e),
                        Ok((_, t)) => match threshold {
                            None => Err(JsonFault::InvalidNumber),
                            Some(bits) => match read_close(t) {
                                Err(e) => Err(e),
                                Ok(_) => Ok((depth as usize, bits)),
                            },
                        },
                    },
                },
            },
        },
    }
}

/// The texts of the version, the depth and the threshold of a header line, as
/// far as the line has its shape up to them.
pub open spec fn header_numbers(s: Seq<char>) -> (
    Option<Seq<char>>,
    Option<Seq<char>>,
    Option<Seq<char>>,
) {
    match read_version(s) {
        Err(_) => (None, None, None),
        Ok((version, t)) => match read_next_number(t, "depth"@) {
            Err(_) => (Some(version), None, None),
            Ok((depth, t)) => match read_next_number(t, "threshold"@) {
                Err(_) => (Some(version), Some(depth), None),
                Ok((threshold, _)) => (Some(version), Some(depth), Some(threshold)),
            },
        },
    }
}

// ---------------------------------------------------------------------------
// The reader
// ---------------------------------------------------------------------------
/// A text and how far it has been read.
pub struct JsonParser<'a> {
    src: &'a str,
    chars: Vec<char>,
    pos: usize,
}

/// `v` in front of what `r` has read.
spec fn in_front(
    v: Seq<char>,
    r: Result<(Seq<char>, Seq<char>), JsonFault>,
) -> Result<(Seq<char>, Seq<char>), JsonFault> {
    match r {
        Err(e) => Err(e),
        Ok((t, left)) => Ok((v + t, left)),
    }
}

impl<'a> JsonParser<'a> {
    /// The text that is left.
    pub closed spec fn rest(&self) -> Seq<char> {
        self.chars@.skip(self.pos as int)
    }

    /// The reader stands in the text.
    pub closed spec fn ready(&self) -> bool {
        self.chars@ == self.src@ && self.pos <= self.chars@.len() <= usize::MAX
    }

    pub fn new(src: &'a str) -> (r: JsonParser<'a>)
        ensures
            r.ready(),
            r.rest() == src@,
    {
        let chars: Vec<char> = chars_of(src);
        let n: usize = chars.len();
        proof {
            assert(chars@.len() == n);
            assert(chars@.skip(0) =~= chars@);
        }
        JsonParser { src, chars, pos: 0 }
    }

    /// Steps over `n` characters.
    fn advance(&mut self, n: usize)
        requires
            old(self).ready(),
            n <= old(self).rest().len(),
        ensures
            final(self).ready(),
            final(self).rest() == old(self).rest().skip(n as int),
    {
        let ghost before = self.rest();
        proof {
            assert(before.len() == self.chars@.len() - self.pos);
        }
        self.pos += n;
        proof {
            assert(self.rest() =~= before.skip(n as int));
        }
    }

    fn skip_ws(&mut self)
        requires
            old(self).ready(),
        ensures
            final(self).ready(),
            final(self).rest() == skip_space(old(self).rest()),
    {
        let n: usize = run_from(self.chars.as_slice(), self.pos, Class::AsciiSpace);
        self.advance(n);
    }

    /// The first character that is left.
    fn first(&self) -> (r: Option<char>)
        requires
            self.ready(),
        ensures
            r is Some <==> self.rest().len() > 0,
            r matches Some(c) ==> c == self.rest()[0],
    {
        if self.pos < self.chars.len() {
            Some(self.chars[self.pos])
        } else {
            None
        }
    }

    /// The first character that is left behind white space, which is stepped
    /// over.
    fn peek(&mut self) -> (r: Option<char>)
        requires
            old(self).ready(),
        ensures
            final(self).ready(),
            final(self).rest() == skip_space(old(self).rest()),
            r is Some <==> skip_space(old(self).rest()).len() > 0,
            r matches Some(c) ==> c == skip_space(old(self).rest())[0],
    {
        self.skip_ws();
        self.first()
    }

    /// The text that is left.
    fn remainder(&self) -> (r: &'a str)
        requires
            self.ready(),
        ensures
            r@ == self.rest(),
    {
        self.src.substring_char(self.pos, self.chars.len())
    }

    fn expect(&mut self, c: char) -> (r: Result<(), JsonError>)
        requires
            old(self).ready(),
        ensures
            final(self).ready(),
            match read_char(old(self).rest(), c) {
                Ok(t) => r is Ok && final(self).rest() == t,
                Err(e) => r is Err && r->Err_0@ == e,
            },
    {
        match self.peek() {
            Some(d) => {
                if d == c {
                    self.advance(1);
                    return Ok(());
                }
            },
            None => {},
        }
        Err(JsonError::Expected { wanted: c, left: self.remainder().as_bytes().len() })
    }

    fn expect_key(&mut self, key: &str) -> (r: Result<(), JsonError>)
        requires
            old(self).ready(),
        ensures
            final(self).ready(),
            match read_key(old(self).rest(), key@) {
                Ok(t) => r is Ok && final(self).rest() == t,
                Err(e) => r is Err && r->Err_0@ == e,
            },
    {
        let s: String = self.parse_string()?;
        if !text_eq(s.as_str(), key) {
            return Err(JsonError::ExpectedKey { key: key.to_owned(), got: s });
        }
        self.expect(':')
    }

    fn expect_next_key(&mut self, key: &str) -> (r: Result<(), JsonError>)
        requires
            old(self).ready(),
        ensures
            final(self).ready(),
            match read_next_key(old(self).rest(), key@) {
                Ok(t) => r is Ok && final(self).rest() == t,
                Err(e) => r is Err && r->Err_0@ == e,
            },
    {
        self.expect(',')?;
        self.expect_key(key)
    }

    /// The character behind a `\u`.
    fn parse_hex(&mut self) -> (r: Result<char, JsonError>)
        requires
            old(self).ready(),
        ensures
            final(self).ready(),
            match read_hex(old(self).rest()) {
                Ok((c, t)) => r == Ok::<char, JsonError>(c) && final(self).rest() == t,
                Err(e) => r is Err && r->Err_0@ == e,
            },
    {
        let ghost s = self.rest();
        if self.remainder().as_bytes().len() < 4 {
            return Err(JsonError::TruncatedEscape);
        }
        if self.chars.len() - self.pos < 4 {
            return Err(JsonError::InvalidHex);
        }
        let four: &[char] = text::piece(self.chars.as_slice(), self.pos, self.pos + 4);
        proof {
            assert(four@ =~= s.take(4));
        }
        let digits: &[char] = if four[0] == '+' {
            text::piece(four, 1, 4)
        } else {
            four
        };
        proof {
            assert(four@.subrange(1, 4) =~= four@.skip(1));
            assert(digits@ == hex_digits(s.take(4)));
        }
        if !text::all_chars(digits, Class::HexDigit) {
            return Err(JsonError::InvalidHex);
        }
        let code: u32 = hex_code(digits);
        match char::from_u32(code) {
            Some(c) => {
                self.advance(4);
                assert((code as int) as char == c);
                Ok(c)
            },
            None => Err(JsonError::InvalidCodepoint),
        }
    }

    /// The character of an escape, from behind the backslash.
    fn parse_escape(&mut self) -> (r: Result<char, JsonError>)
        requires
            old(self).ready(),
        ensures
            final(self).ready(),
            match read_escape(old(self).rest()) {
                Ok((c, t)) => r == Ok::<char, JsonError>(c) && final(self).rest() == t,
                Err(e) => r is Err && r->Err_0@ == e,
            },
    {
        let c: char = match self.first() {
            None => return Err(JsonError::UnterminatedEscape),
            Some(c) => c,
        };
        if c == 'u' {
            self.advance(1);
            return self.parse_hex();
        }
        let plain: char = if c == '"' || c == '\\' || c == '/' {
            c
        } else if c == 'b' {
            '\u{08}'
        } else if c == 'f' {
            '\u{0C}'
        } else if c == 'n' {
            '\n'
        } else if c == 'r' {
            '\r'
        } else if c == 't' {
            '\t'
        } else {
            let left: &str = self.remainder();
            let bytes: &[u8] = left.as_bytes();
            proof {
                text::lemma_bytes_at_least_chars(left@);
            }
            return Err(JsonError::UnknownEscape(bytes[0]));
        };
        self.advance(1);
        Ok(plain)
    }

    /// Reads a string, and steps over it.
    pub fn parse_string(&mut self) -> (r: Result<String, JsonError>)
        requires
            old(self).ready(),
        ensures
            final(self).ready(),
            match read_string(old(self).rest()) {
                Ok((v, t)) => r is Ok && r->Ok_0@ == v && final(self).rest() == t,
                Err(e) => r is Err && r->Err_0@ == e,
            },
    {
        self.expect('"')?;
        let ghost start = self.rest();
        let mut out: String = String::new();
        proof {
            if let Ok((t, left)) = read_body(start) {
                assert(out@ + t =~= t);
            }
        }
        loop
            invariant
                self.ready(),
                read_string(old(self).rest()) == read_body(start),
                read_body(start) == in_front(out@, read_body(self.rest())),
            decreases self.rest().len(),
        {
            let ghost here = self.rest();
            let ghost before = out@;
            let c: char = match self.first() {
                None => return Err(JsonError::UnterminatedString),
                Some(c) => c,
            };
            if c == '"' {
                self.advance(1);
                proof {
                    assert(before + Seq::<char>::empty() =~= before);
                }
                return Ok(out);
            }
            self.advance(1);
            if c == '\\' {
                proof {
                    lemma_escape_shrinks(here.skip(1));
                }
                let d: char = self.parse_escape()?;
                out.push(d);
                proof {
                    if let Ok((t, left)) = read_body(self.rest()) {
                        assert(before + (seq![d] + t) =~= before.push(d) + t);
                    }
                }
            } else {
                out.push(c);
                proof {
                    if let Ok((t, left)) = read_body(self.rest()) {
                        assert(before + (seq![c] + t) =~= before.push(c) + t);
                    }
                }
            }
        }
    }

    /// Reads a string or `null`, and steps over it.
    pub fn parse_optional_string(&mut self) -> (r: Result<Option<String>, JsonError>)
        requires
            old(self).ready(),
        ensures
            final(self).ready(),
            match read_opt(old(self).rest()) {
                Ok((v, t)) => r is Ok && text::opt_string(r->Ok_0) == v && final(self).rest() == t,
                Err(e) => r is Err && r->Err_0@ == e,
            },
    {
        let ghost s = self.rest();
        self.skip_ws();
        let ghost t = self.rest();
        proof {
            lemma_skip_space_twice(s);
            reveal_strlit("null");
            assert("null"@.len() == 4);
            if 4 <= t.len() {
                assert(self.chars@.subrange(self.pos as int, self.pos + 4) =~= t.take(4));
            }
        }
        if matches_at(self.chars.as_slice(), self.pos, "null") {
            self.advance(4);
            Ok(None)
        } else {
            let v: String = self.parse_string()?;
            Ok(Some(v))
        }
    }

    /// Steps over the digits that stand at the place `i` of the text that is
    /// left.
    fn after_digits(&self, i: usize) -> (r: usize)
        requires
            self.ready(),
            i <= self.rest().len(),
        ensures
            r == digits_end(self.rest(), i as int),
            r <= self.rest().len(),
    {
        let ghost s = self.rest();
        proof {
            assert(s.skip(i as int) =~= self.chars@.skip(self.pos + i));
        }
        i + run_from(self.chars.as_slice(), self.pos + i, Class::Digit)
    }

    /// Whether one of two characters stands at the place `i` of the text that
    /// is left.
    fn has_at(&self, i: usize, a: char, b: char) -> (r: bool)
        requires
            self.ready(),
            i <= self.rest().len(),
        ensures
            r == one_of(self.rest(), i as int, a, b),
    {
        i < self.chars.len() - self.pos && (self.chars[self.pos + i] == a || self.chars[self.pos
            + i] == b)
    }

    /// The text of a number.
    fn parse_number(&mut self) -> (r: Result<&'a str, JsonError>)
        requires
            old(self).ready(),
        ensures
            final(self).ready(),
            match read_number(old(self).rest()) {
                Ok((v, t)) => r is Ok && r->Ok_0@ == v && final(self).rest() == t,
                Err(e) => r is Err && r->Err_0@ == e,
            },
    {
        self.skip_ws();
        let ghost t = self.rest();
        let mut n: usize = 0;
        if self.has_at(n, '-', '-') {
            n += 1;
        }
        n = self.after_digits(n);
        if self.has_at(n, '.', '.') {
            n = self.after_digits(n + 1);
        }
        if self.has_at(n, 'e', 'E') {
            n += 1;
            if self.has_at(n, '+', '-') {
                n += 1;
            }
            n = self.after_digits(n);
        }
        assert(n == number_end(t));
        if n == 0 {
            return Err(JsonError::ExpectedNumber);
        }
        let v: &'a str = self.src.substring_char(self.pos, self.pos + n);
        proof {
            assert(v@ =~= t.take(n as int));
        }
        self.advance(n);
        Ok(v)
    }

    fn parse_slot(&mut self) -> (r: Result<Slot, JsonError>)
        requires
            old(self).ready(),
        ensures
            final(self).ready(),
            match read_slot(old(self).rest()) {
                Ok((v, t)) => r is Ok && r->Ok_0@ == v && final(self).rest() == t,
                Err(e) => r is Err && r->Err_0@ == e,
            },
    {
        proof {
            reveal(read_slot);
        }
        self.expect('{')?;
        self.expect_key("t")?;
        let tag: String = self.parse_string()?;
        let slot: Slot = if text_eq(tag.as_str(), "L") {
            self.expect_next_key("v")?;
            let v: String = self.parse_string()?;
            Slot::Text(v)
        } else if text_eq(tag.as_str(), "W") {
            self.expect_next_key("k")?;
            let k: String = self.parse_string()?;
            match TokenKind::from_label(k.as_str()) {
                None => return Err(JsonError::UnknownKind(k)),
                Some(kind) => {
                    proof {
                        assert(kind.name() == k@);
                        lemma_kind_named(kind);
                    }
                    Slot::Typed(kind)
                },
            }
        } else if text_eq(tag.as_str(), "S") {
            Slot::Star
        } else {
            return Err(JsonError::UnknownTag(tag));
        };
        self.expect('}')?;
        Ok(slot)
    }

    fn parse_template(&mut self) -> (r: Result<Vec<Slot>, JsonError>)
        requires
            old(self).ready(),
        ensures
            final(self).ready(),
            match read_template(old(self).rest()) {
                Ok((v, t)) => r is Ok && drain::slot_views(r->Ok_0@) == v && final(self).rest()
                    == t,
                Err(e) => r is Err && r->Err_0@ == e,
            },
    {
        self.expect('[')?;
        let mut out: Vec<Slot> = Vec::new();
        if let Some(c) = self.peek() {
            if c == ']' {
                self.advance(1);
                proof {
                    assert(drain::slot_views(out@) =~= Seq::<SlotView>::empty());
                }
                return Ok(out);
            }
        }
        let ghost start = self.rest();
        proof {
            if let Ok((t, left)) = read_slots(start) {
                assert(drain::slot_views(out@) + t =~= t);
            }
        }
        loop
            invariant
                self.ready(),
                read_template(old(self).rest()) == read_slots(start),
                read_slots(start) == slots_in_front(
                    drain::slot_views(out@),
                    read_slots(self.rest()),
                ),
            decreases self.rest().len(),
        {
            let ghost here = self.rest();
            let ghost before = drain::slot_views(out@);
            proof {
                lemma_slot_shrinks(here);
            }
            let slot: Slot = self.parse_slot()?;
            proof {
                lemma_skip_space_shrinks(self.rest());
            }
            let next: Option<char> = self.peek();
            out.push(slot);
            proof {
                assert(drain::slot_views(out@) =~= before.push(slot@));
                assert(before + seq![slot@] =~= before.push(slot@));
            }
            match next {
                Some(c) => {
                    if c == ',' {
                        self.advance(1);
                        proof {
                            if let Ok((t, left)) = read_slots(self.rest()) {
                                assert(before + (seq![slot@] + t) =~= before.push(slot@) + t);
                            }
                        }
                    } else if c == ']' {
                        self.advance(1);
                        return Ok(out);
                    } else {
                        return Err(JsonError::ExpectedCommaOrBracket);
                    }
                },
                None => return Err(JsonError::ExpectedCommaOrBracket),
            }
        }
    }
}

/// `v` in front of what `r` has read.
spec fn slots_in_front(
    v: Seq<SlotView>,
    r: Result<(Seq<SlotView>, Seq<char>), JsonFault>,
) -> Result<(Seq<SlotView>, Seq<char>), JsonFault> {
    match r {
        Err(e) => Err(e),
        Ok((t, left)) => Ok((v + t, left)),
    }
}

/// White space that was stepped over is gone.
pub proof fn lemma_skip_space_twice(s: Seq<char>)
    ensures
        skip_space(skip_space(s)) == skip_space(s),
{
    text::lemma_run(s, Class::AsciiSpace);
    let t = skip_space(s);
    if t.len() > 0 {
        assert(t[0] == s[text::run(s, Class::AsciiSpace) as int]);
    }
    assert(text::run(t, Class::AsciiSpace) == 0);
    assert(t.skip(0) =~= t);
}

/// A kind is found by its name.
pub proof fn lemma_kind_named(k: TokenKind)
    ensures
        kind_named(k.name()) == Some(k),
{
    let s = k.name();
    let found = choose|c: TokenKind| #[trigger] c.name() == s;
    assert(found.name() == s);
    crate::tokenizer::law_names_are_distinct(found, k);
}

/// The number of up to four hex digits.
fn hex_code(digits: &[char]) -> (r: u32)
    requires
        digits@.len() <= 4,
        text::all_in(digits@, Class::HexDigit),
    ensures
        r == hex_number(digits@),
        r <= 0xFFFF,
{
    let mut n: u32 = 0;
    let mut i: usize = 0;
    proof {
        assert(digits@.take(0) =~= Seq::<char>::empty());
    }
    while i < digits.len()
        invariant
            i <= digits@.len() <= 4,
            text::all_in(digits@, Class::HexDigit),
            n == hex_number(digits@.take(i as int)),
            i == 0 ==> n == 0,
            i == 1 ==> n <= 0xF,
            i == 2 ==> n <= 0xFF,
            i == 3 ==> n <= 0xFFF,
            i == 4 ==> n <= 0xFFFF,
        decreases digits@.len() - i,
    {
        let c: char = digits[i];
        proof {
            assert(digits@.take(i + 1).drop_last() =~= digits@.take(i as int));
            assert(Class::HexDigit.has(digits@[i as int]));
        }
        let d: u32 = if '0' <= c && c <= '9' {
            c as u32 - '0' as u32
        } else if 'a' <= c && c <= 'f' {
            c as u32 - 'a' as u32 + 10
        } else {
            c as u32 - 'A' as u32 + 10
        };
        n = n * 16 + d;
        i += 1;
    }
    proof {
        assert(digits@.take(digits@.len() as int) =~= digits@);
    }
    n
}

/// The whole number that a number's text was read as.
fn parse_uint(reading: Option<u64>) -> (r: Result<u64, JsonError>)
    ensures
        match read_whole(reading) {
            Ok(n) => r == Ok::<u64, JsonError>(n),
            Err(e) => r is Err && r->Err_0@ == e,
        },
{
    match reading {
        None => Err(JsonError::InvalidNumber),
        Some(b) => match whole_number(b) {
            None => Err(JsonError::NotWhole),
            Some(n) => Ok(n),
        },
    }
}

/// The texts from which the `id` and the `count` of a cluster line are to be
/// read, as far as the line has its shape up to them.
pub fn cluster_line_numbers<'a>(line: &'a str) -> (r: (Option<&'a str>, Option<&'a str>))
    ensures
        text::opt_text(r.0) == cluster_numbers(line@).0,
        text::opt_text(r.1) == cluster_numbers(line@).1,
{
    let mut p: JsonParser<'a> = JsonParser::new(line);
    let id: &'a str = match id_member(&mut p) {
        Err(_) => return (None, None),
        Ok(id) => id,
    };
    match category_member(&mut p) {
        Err(_) => return (Some(id), None),
        Ok(_) => {},
    }
    match count_member(&mut p) {
        Err(_) => (Some(id), None),
        Ok(count) => (Some(id), Some(count)),
    }
}

fn id_member<'a>(p: &mut JsonParser<'a>) -> (r: Result<&'a str, JsonError>)
    requires
        old(p).ready(),
    ensures
        final(p).ready(),
        match read_id(old(p).rest()) {
            Ok((v, t)) => r is Ok && r->Ok_0@ == v && final(p).rest() == t,
            Err(e) => r is Err && r->Err_0@ == e,
        },
{
    p.expect('{')?;
    p.expect_key("id")?;
    p.parse_number()
}

fn category_member<'a>(p: &mut JsonParser<'a>) -> (r: Result<Option<String>, JsonError>)
    requires
        old(p).ready(),
    ensures
        final(p).ready(),
        match read_category(old(p).rest()) {
            Ok((v, t)) => r is Ok && text::opt_string(r->Ok_0) == v && final(p).rest() == t,
            Err(e) => r is Err && r->Err_0@ == e,
        },
{
    p.expect_next_key("category")?;
    p.parse_optional_string()
}

fn count_member<'a>(p: &mut JsonParser<'a>) -> (r: Result<&'a str, JsonError>)
    requires
        old(p).ready(),
    ensures
        final(p).ready(),
        match read_count(old(p).rest()) {
            Ok((v, t)) => r is Ok && r->Ok_0@ == v && final(p).rest() == t,
            Err(e) => r is Err && r->Err_0@ == e,
        },
{
    p.expect_next_key("count")?;
    p.parse_number()
}

/// Reads a cluster line: the category and the cluster. `id` and `count` are
/// what the texts that [`cluster_line_numbers`] finds were read as.
pub fn parse_cluster_line(line: &str, id: Option<u64>, count: Option<u64>) -> (r: Result<
    (Option<String>, Cluster),
    JsonError,
>)
    ensures
        match read_cluster_line(line@, id, count) {
            Ok((category, c)) => {
                &&& r is Ok
                &&& text::opt_string(r->Ok_0.0) == category
                &&& r->Ok_0.1@ == c
            },
            Err(e) => r is Err && r->Err_0@ == e,
        },
{
    proof {
        reveal(read_cluster_line);
    }
    let mut p: JsonParser<'_> = JsonParser::new(line);
    let _ = id_member(&mut p)?;
    let id: u64 = parse_uint(id)?;
    let category: Option<String> = category_member(&mut p)?;
    let _ = count_member(&mut p)?;
    let count: u64 = parse_uint(count)?;
    p.expect_next_key("first_seen")?;
    let first_seen: Option<String> = p.parse_optional_string()?;
    p.expect_next_key("last_seen")?;
    let last_seen: Option<String> = p.parse_optional_string()?;
    p.expect_next_key("template")?;
    let template: Vec<Slot> = p.parse_template()?;
    p.expect('}')?;
    Ok((category, Cluster { id, template, count, first_seen, last_seen }))
}

fn version_member<'a>(p: &mut JsonParser<'a>) -> (r: Result<&'a str, JsonError>)
    requires
        old(p).ready(),
    ensures
        final(p).ready(),
        match read_version(old(p).rest()) {
            Ok((v, t)) => r is Ok && r->Ok_0@ == v && final(p).rest() == t,
            Err(e) => r is Err && r->Err_0@ == e,
        },
{
    p.expect('{')?;
    p.expect_key("_meta")?;
    p.expect('{')?;
    p.expect_key("version")?;
    p.parse_number()
}

fn number_member<'a>(p: &mut JsonParser<'a>, key: &str) -> (r: Result<&'a str, JsonError>)
    requires
        old(p).ready(),
    ensures
        final(p).ready(),
        match read_next_number(old(p).rest(), key@) {
            Ok((v, t)) => r is Ok && r->Ok_0@ == v && final(p).rest() == t,
            Err(e) => r is Err && r->Err_0@ == e,
        },
{
    p.expect_next_key(key)?;
    p.parse_number()
}

/// The texts from which the version, the depth and the threshold of a header
/// line are to be read, as far as the line has its shape up to them.
pub fn meta_numbers<'a>(line: &'a str) -> (r: (
    Option<&'a str>,
    Option<&'a str>,
    Option<&'a str>,
))
    ensures
        text::opt_text(r.0) == header_numbers(line@).0,
        text::opt_text(r.1) == header_numbers(line@).1,
        text::opt_text(r.2) == header_numbers(line@).2,
{
    let mut p: JsonParser<'a> = JsonParser::new(line);
    let version: &'a str = match version_member(&mut p) {
        Err(_) => return (None, None, None),
        Ok(v) => v,
    };
    let depth: &'a str = match number_member(&mut p, "depth") {
        Err(_) => return (Some(version), None, None),
        Ok(v) => v,
    };
    match number_member(&mut p, "threshold") {
        Err(_) => (Some(version), Some(depth), None),
        Ok(v) => (Some(version), Some(depth), Some(v)),
    }
}

/// Reads a header line: the depth, and the bits of the threshold. The other
/// arguments are what the texts that [`meta_numbers`] finds were read as.
pub fn parse_meta(
    line: &str,
    version: Option<u64>,
    depth: Option<u64>,
    threshold: Option<u64>,
) -> (r: Result<(usize, u64), JsonError>)
    ensures
        match read_meta(line@, version, depth, threshold) {
            Ok(v) => r == Ok::<(usize, u64), JsonError>(v),
            Err(e) => r is Err && r->Err_0@ == e,
        },
{
    proof {
        reveal(read_meta);
    }
    let mut p: JsonParser<'_> = JsonParser::new(line);
    let _ = version_member(&mut p)?;
    let _ = parse_uint(version)?;
    let _ = number_member(&mut p, "depth")?;
    let depth: u64 = parse_uint(depth)?;
    let _ = number_member(&mut p, "threshold")?;
    let bits: u64 = match threshold {
        None => return Err(JsonError::InvalidNumber),
        Some(b) => b,
    };
    p.expect('}')?;
    p.expect('}')?;
    Ok((depth as usize, bits))
}

}
