//! Tokenizer for the content of Bitcoin Core `debug.log` lines.
//!
//! Two passes:
//! 1. **Structural split**: break a line's content into atoms on white space
//!    plus the punctuation that the log's format strings use (`(`, `)`, `'`,
//!    `/`, a trailing `:` or `,`). `=` is cut too, except behind a `peer` or
//!    `height` that a word starts with: their recognizers want the whole
//!    `peer=1234`, up to the punctuation behind it. In such a word a `/` is not
//!    cut. Brackets are cut too, except in an IPv6 address with a port, so
//!    `[::1]:8333` stays whole.
//! 2. **Classification**: try the shapes of [`crate::lexical`] in a fixed
//!    order. The one that follows is looked at too, so that `42 bytes` folds
//!    into one token.
use vstd::prelude::*;

use crate::lexical;
use crate::text;
use crate::text::{chars_of, gap_from, matches_at, piece, run_from, text_eq, Class};

verus! {

/// A single token. Every variant borrows its text from the source line.
#[derive(Debug, Clone, Copy, Eq)]
pub enum Token<'a> {
    /// Literal text that no recognizer matched.
    Text(&'a str),
    /// `peer=<int>` collapsed into one token.
    PeerId(&'a str),
    /// `height=<int>` collapsed into one token.
    BlockHeight(&'a str),
    /// Decimal integer with optional sign.
    Int(&'a str),
    /// Decimal float with optional sign and exponent.
    Float(&'a str),
    /// Exactly 64 lower-case hex digits (block or transaction hash).
    Hash(&'a str),
    /// `0x` and hex digits, or 8 to 63 hex digits of which one is a letter.
    Hex(&'a str),
    /// `a.b.c.d`.
    Ipv4(&'a str),
    /// `a.b.c.d:<port>`.
    Ipv4Port(&'a str),
    /// Bare IPv6 (such as `::1` or `fe80::abcd`).
    Ipv6(&'a str),
    /// `[<ipv6>]:<port>`.
    Ipv6Port(&'a str),
    /// `<base32>.onion`.
    Onion(&'a str),
    /// `<base32>.onion:<port>`.
    OnionPort(&'a str),
    /// `<base32>.b32.i2p`.
    I2P(&'a str),
    /// `<base32>.b32.i2p:<port>`.
    I2PPort(&'a str),
    /// A folded `<int> bytes` pair.
    ByteCount(&'a str),
    /// Number with a time unit behind it.
    Duration(&'a str),
    /// Bech32 address (`bc1...`, `tb1...`, `bcrt1...`).
    Bech32(&'a str),
    /// Base58 string of the length of a legacy address.
    Base58(&'a str),
}

/// Flat kind tag mirroring [`Token`] minus `Text`. Used in template slots and
/// in the saved state.
#[derive(Debug, Clone, Copy, PartialEq, Eq, Hash, Structural)]
pub enum TokenKind {
    PeerId,
    BlockHeight,
    Int,
    Float,
    Hash,
    Hex,
    Ipv4,
    Ipv4Port,
    Ipv6,
    Ipv6Port,
    Onion,
    OnionPort,
    I2P,
    I2PPort,
    ByteCount,
    Duration,
    Bech32,
    Base58,
}

/// What a token is: its kind, `None` for literal text, and its text.
pub struct TokenView {
    pub kind: Option<TokenKind>,
    pub text: Seq<char>,
}

impl TokenView {
    /// Literal text is equal by content; values of one kind are equal whatever
    /// they hold.
    pub open spec fn same(self, other: TokenView) -> bool {
        self.kind == other.kind && (self.kind is None ==> self.text == other.text)
    }
}

impl<'a> View for Token<'a> {
    type V = TokenView;

    open spec fn view(&self) -> TokenView {
        match self {
            Token::Text(s) => TokenView { kind: None, text: s@ },
            Token::PeerId(s) => TokenView { kind: Some(TokenKind::PeerId), text: s@ },
            Token::BlockHeight(s) => TokenView { kind: Some(TokenKind::BlockHeight), text: s@ },
            Token::Int(s) => TokenView { kind: Some(TokenKind::Int), text: s@ },
            Token::Float(s) => TokenView { kind: Some(TokenKind::Float), text: s@ },
            Token::Hash(s) => TokenView { kind: Some(TokenKind::Hash), text: s@ },
            Token::Hex(s) => TokenView { kind: Some(TokenKind::Hex), text: s@ },
            Token::Ipv4(s) => TokenView { kind: Some(TokenKind::Ipv4), text: s@ },
            Token::Ipv4Port(s) => TokenView { kind: Some(TokenKind::Ipv4Port), text: s@ },
            Token::Ipv6(s) => TokenView { kind: Some(TokenKind::Ipv6), text: s@ },
            Token::Ipv6Port(s) => TokenView { kind: Some(TokenKind::Ipv6Port), text: s@ },
            Token::Onion(s) => TokenView { kind: Some(TokenKind::Onion), text: s@ },
            Token::OnionPort(s) => TokenView { kind: Some(TokenKind::OnionPort), text: s@ },
            Token::I2P(s) => TokenView { kind: Some(TokenKind::I2P), text: s@ },
            Token::I2PPort(s) => TokenView { kind: Some(TokenKind::I2PPort), text: s@ },
            Token::ByteCount(s) => TokenView { kind: Some(TokenKind::ByteCount), text: s@ },
            Token::Duration(s) => TokenView { kind: Some(TokenKind::Duration), text: s@ },
            Token::Bech32(s) => TokenView { kind: Some(TokenKind::Bech32), text: s@ },
            Token::Base58(s) => TokenView { kind: Some(TokenKind::Base58), text: s@ },
        }
    }
}

impl<'a> Token<'a> {
    /// The kind tag, or `None` for [`Token::Text`].
    pub fn kind(&self) -> (r: Option<TokenKind>)
        ensures
            r == self@.kind,
    {
        match self {
            Token::Text(_) => None,
            Token::PeerId(_) => Some(TokenKind::PeerId),
            Token::BlockHeight(_) => Some(TokenKind::BlockHeight),
            Token::Int(_) => Some(TokenKind::Int),
            Token::Float(_) => Some(TokenKind::Float),
            Token::Hash(_) => Some(TokenKind::Hash),
            Token::Hex(_) => Some(TokenKind::Hex),
            Token::Ipv4(_) => Some(TokenKind::Ipv4),
            Token::Ipv4Port(_) => Some(TokenKind::Ipv4Port),
            Token::Ipv6(_) => Some(TokenKind::Ipv6),
            Token::Ipv6Port(_) => Some(TokenKind::Ipv6Port),
            Token::Onion(_) => Some(TokenKind::Onion),
            Token::OnionPort(_) => Some(TokenKind::OnionPort),
            Token::I2P(_) => Some(TokenKind::I2P),
            Token::I2PPort(_) => Some(TokenKind::I2PPort),
            Token::ByteCount(_) => Some(TokenKind::ByteCount),
            Token::Duration(_) => Some(TokenKind::Duration),
            Token::Bech32(_) => Some(TokenKind::Bech32),
            Token::Base58(_) => Some(TokenKind::Base58),
        }
    }

    /// The text that this token borrows from the source.
    pub fn text(&self) -> (r: &'a str)
        ensures
            r@ == self@.text,
    {
        match *self {
            Token::Text(s) => s,
            Token::PeerId(s) => s,
            Token::BlockHeight(s) => s,
            Token::Int(s) => s,
            Token::Float(s) => s,
            Token::Hash(s) => s,
            Token::Hex(s) => s,
            Token::Ipv4(s) => s,
            Token::Ipv4Port(s) => s,
            Token::Ipv6(s) => s,
            Token::Ipv6Port(s) => s,
            Token::Onion(s) => s,
            Token::OnionPort(s) => s,
            Token::I2P(s) => s,
            Token::I2PPort(s) => s,
            Token::ByteCount(s) => s,
            Token::Duration(s) => s,
            Token::Bech32(s) => s,
            Token::Base58(s) => s,
        }
    }

    /// The token of `kind` with the text `s`.
    fn of_kind(kind: TokenKind, s: &'a str) -> (r: Token<'a>)
        ensures
            r@.kind == Some(kind),
            r@.text == s@,
    {
        match kind {
            TokenKind::PeerId => Token::PeerId(s),
            TokenKind::BlockHeight => Token::BlockHeight(s),
            TokenKind::Int => Token::Int(s),
            TokenKind::Float => Token::Float(s),
            TokenKind::Hash => Token::Hash(s),
            TokenKind::Hex => Token::Hex(s),
            TokenKind::Ipv4 => Token::Ipv4(s),
            TokenKind::Ipv4Port => Token::Ipv4Port(s),
            TokenKind::Ipv6 => Token::Ipv6(s),
            TokenKind::Ipv6Port => Token::Ipv6Port(s),
            TokenKind::Onion => Token::Onion(s),
            TokenKind::OnionPort => Token::OnionPort(s),
            TokenKind::I2P => Token::I2P(s),
            TokenKind::I2PPort => Token::I2PPort(s),
            TokenKind::ByteCount => Token::ByteCount(s),
            TokenKind::Duration => Token::Duration(s),
            TokenKind::Bech32 => Token::Bech32(s),
            TokenKind::Base58 => Token::Base58(s),
        }
    }
}

/// `Text` compares by content; the other variants compare by kind only, so
/// `PeerId("3") == PeerId("4567")`. This is what lets two lines that differ
/// only in their values share one template.
impl<'a> PartialEq for Token<'a> {
    fn eq(&self, other: &Self) -> (r: bool) {
        match (self.kind(), other.kind()) {
            (None, None) => text_eq(self.text(), other.text()),
            (Some(a), Some(b)) => a == b,
            _ => false,
        }
    }
}

impl<'a> vstd::std_specs::cmp::PartialEqSpecImpl for Token<'a> {
    open spec fn obeys_eq_spec() -> bool {
        true
    }

    open spec fn eq_spec(&self, other: &Self) -> bool {
        self@.same(other@)
    }
}

impl TokenKind {
    /// The short name of a kind.
    pub open spec fn name(self) -> Seq<char> {
        match self {
            TokenKind::PeerId => "PEER"@,
            TokenKind::BlockHeight => "HEIGHT"@,
            TokenKind::Int => "INT"@,
            TokenKind::Float => "FLOAT"@,
            TokenKind::Hash => "HASH"@,
            TokenKind::Hex => "HEX"@,
            TokenKind::Ipv4 => "IPv4"@,
            TokenKind::Ipv4Port => "IPv4:PORT"@,
            TokenKind::Ipv6 => "IPv6"@,
            TokenKind::Ipv6Port => "IPv6:PORT"@,
            TokenKind::Onion => "ONION"@,
            TokenKind::OnionPort => "ONION:PORT"@,
            TokenKind::I2P => "I2P"@,
            TokenKind::I2PPort => "I2P:PORT"@,
            TokenKind::ByteCount => "BYTES"@,
            TokenKind::Duration => "DUR"@,
            TokenKind::Bech32 => "BECH32"@,
            TokenKind::Base58 => "BASE58"@,
        }
    }

    /// The short name used in rendered templates and in the saved state.
    pub fn label(self) -> (r: &'static str)
        ensures
            r@ == self.name(),
    {
        match self {
            TokenKind::PeerId => "PEER",
            TokenKind::BlockHeight => "HEIGHT",
            TokenKind::Int => "INT",
            TokenKind::Float => "FLOAT",
            TokenKind::Hash => "HASH",
            TokenKind::Hex => "HEX",
            TokenKind::Ipv4 => "IPv4",
            TokenKind::Ipv4Port => "IPv4:PORT",
            TokenKind::Ipv6 => "IPv6",
            TokenKind::Ipv6Port => "IPv6:PORT",
            TokenKind::Onion => "ONION",
            TokenKind::OnionPort => "ONION:PORT",
            TokenKind::I2P => "I2P",
            TokenKind::I2PPort => "I2P:PORT",
            TokenKind::ByteCount => "BYTES",
            TokenKind::Duration => "DUR",
            TokenKind::Bech32 => "BECH32",
            TokenKind::Base58 => "BASE58",
        }
    }

    /// The kind of that name: `None` where no kind has it.
    pub fn from_label(s: &str) -> (r: Option<TokenKind>)
        ensures
            forall|k: TokenKind| (r == Some(k)) == (#[trigger] k.name() == s@),
    {
        proof {
            assert forall|a: TokenKind, b: TokenKind| #[trigger] a.name() == #[trigger] b.name() implies a
                == b by {
                law_names_are_distinct(a, b);
            }
        }
        if text_eq(s, "PEER") {
            proof {
                assert(TokenKind::PeerId.name() == s@);
            }
            return Some(TokenKind::PeerId);
        }
        if text_eq(s, "HEIGHT") {
            proof {
                assert(TokenKind::BlockHeight.name() == s@);
            }
            return Some(TokenKind::BlockHeight);
        }
        if text_eq(s, "INT") {
            proof {
                assert(TokenKind::Int.name() == s@);
            }
            return Some(TokenKind::Int);
        }
        if text_eq(s, "FLOAT") {
            proof {
                assert(TokenKind::Float.name() == s@);
            }
            return Some(TokenKind::Float);
        }
        if text_eq(s, "HASH") {
            proof {
                assert(TokenKind::Hash.name() == s@);
            }
            return Some(TokenKind::Hash);
        }
        if text_eq(s, "HEX") {
            proof {
                assert(TokenKind::Hex.name() == s@);
            }
            return Some(TokenKind::Hex);
        }
        if text_eq(s, "IPv4") {
            proof {
                assert(TokenKind::Ipv4.name() == s@);
            }
            return Some(TokenKind::Ipv4);
        }
        if text_eq(s, "IPv4:PORT") {
            proof {
                assert(TokenKind::Ipv4Port.name() == s@);
            }
            return Some(TokenKind::Ipv4Port);
        }
        if text_eq(s, "IPv6") {
            proof {
                assert(TokenKind::Ipv6.name() == s@);
            }
            return Some(TokenKind::Ipv6);
        }
        if text_eq(s, "IPv6:PORT") {
            proof {
                assert(TokenKind::Ipv6Port.name() == s@);
            }
            return Some(TokenKind::Ipv6Port);
        }
        if text_eq(s, "ONION") {
            proof {
                assert(TokenKind::Onion.name() == s@);
            }
            return Some(TokenKind::Onion);
        }
        if text_eq(s, "ONION:PORT") {
            proof {
                assert(TokenKind::OnionPort.name() == s@);
            }
            return Some(TokenKind::OnionPort);
        }
        if text_eq(s, "I2P") {
            proof {
                assert(TokenKind::I2P.name() == s@);
            }
            return Some(TokenKind::I2P);
        }
        if text_eq(s, "I2P:PORT") {
            proof {
                assert(TokenKind::I2PPort.name() == s@);
            }
            return Some(TokenKind::I2PPort);
        }
        if text_eq(s, "BYTES") {
            proof {
                assert(TokenKind::ByteCount.name() == s@);
            }
            return Some(TokenKind::ByteCount);
        }
        if text_eq(s, "DUR") {
            proof {
                assert(TokenKind::Duration.name() == s@);
            }
            return Some(TokenKind::Duration);
        }
        if text_eq(s, "BECH32") {
            proof {
                assert(TokenKind::Bech32.name() == s@);
            }
            return Some(TokenKind::Bech32);
        }
        if text_eq(s, "BASE58") {
            proof {
                assert(TokenKind::Base58.name() == s@);
            }
            return Some(TokenKind::Base58);
        }
        None
    }
}

/// Two kinds of one name are one kind.
pub proof fn law_names_are_distinct(a: TokenKind, b: TokenKind)
    requires
        a.name() == b.name(),
    ensures
        a == b,
{
    reveal_strlit("PEER");
    reveal_strlit("HEIGHT");
    reveal_strlit("INT");
    reveal_strlit("FLOAT");
    reveal_strlit("HASH");
    reveal_strlit("HEX");
    reveal_strlit("IPv4");
    reveal_strlit("IPv4:PORT");
    reveal_strlit("IPv6");
    reveal_strlit("IPv6:PORT");
    reveal_strlit("ONION");
    reveal_strlit("ONION:PORT");
    reveal_strlit("I2P");
    reveal_strlit("I2P:PORT");
    reveal_strlit("BYTES");
    reveal_strlit("DUR");
    reveal_strlit("BECH32");
    reveal_strlit("BASE58");
    assert("INT"@.len() == 3 && "HEX"@.len() == 3 && "I2P"@.len() == 3 && "DUR"@.len() == 3);
    assert("PEER"@.len() == 4 && "HASH"@.len() == 4 && "IPv4"@.len() == 4 && "IPv6"@.len() == 4);
    assert("FLOAT"@.len() == 5 && "ONION"@.len() == 5 && "BYTES"@.len() == 5);
    assert("HEIGHT"@.len() == 6 && "BECH32"@.len() == 6 && "BASE58"@.len() == 6);
    assert("I2P:PORT"@.len() == 8);
    assert("IPv4:PORT"@.len() == 9 && "IPv6:PORT"@.len() == 9);
    assert("ONION:PORT"@.len() == 10);
    // Names of one length differ in one of these places.
    assert("IPv4"@[3] == '4' && "IPv6"@[3] == '6');
    assert("IPv4:PORT"@[3] == '4' && "IPv6:PORT"@[3] == '6');
    assert("INT"@[1] == 'N' && "I2P"@[1] == '2');
    assert("BECH32"@[1] == 'E' && "BASE58"@[1] == 'A');
    assert("PEER"@[0] == 'P' && "HASH"@[0] == 'H' && "IPv4"@[0] == 'I' && "IPv6"@[0]
        == 'I');
    assert("INT"@[0] == 'I' && "HEX"@[0] == 'H' && "DUR"@[0] == 'D' && "I2P"@[0]
        == 'I');
    assert("FLOAT"@[0] == 'F' && "ONION"@[0] == 'O' && "BYTES"@[0] == 'B');
    assert("HEIGHT"@[0] == 'H' && "BECH32"@[0] == 'B' && "BASE58"@[0] == 'B');
}

// ---------------------------------------------------------------------------
// First pass: structural split
// ---------------------------------------------------------------------------
/// A bracketed address with a port is not cut.
pub open spec fn looks_like_ipv6_port(s: Seq<char>) -> bool {
    &&& s.len() > 0 && s[0] == '['
    &&& exists|i: int| text::occurs_at(s, "]:"@, i)
}

/// How far `s` goes up to the first place where a word is cut whose `=` belongs
/// to a value. A slash is no such place, nor is a bracketed address with a port,
/// which goes on to the end.
pub open spec fn value_len(s: Seq<char>) -> int
    decreases s.len(),
{
    if s.len() == 0 {
        0
    } else if looks_like_ipv6_port(s) {
        s.len() as int
    } else if Class::ValuePunctuation.has(s[0]) {
        0
    } else {
        1 + value_len(s.skip(1))
    }
}

/// How far `s` goes up to the first place where its word is cut.
pub open spec fn uncut_len(s: Seq<char>, in_value: bool) -> int {
    if in_value {
        value_len(s)
    } else {
        text::gap(s, Class::Punctuation) as int
    }
}

pub proof fn lemma_uncut(s: Seq<char>, in_value: bool)
    ensures
        0 <= uncut_len(s, in_value) <= s.len(),
    decreases s.len(),
{
    text::lemma_gap(s, Class::Punctuation);
    if s.len() > 0 {
        lemma_uncut(s.skip(1), true);
    }
}

/// How long the first piece of `s` is: up to the first place where the word is
/// cut, or the punctuation itself.
pub open spec fn piece_len(s: Seq<char>, in_value: bool) -> int {
    if uncut_len(s, in_value) > 0 {
        uncut_len(s, in_value)
    } else {
        1
    }
}

/// `b` cut at its punctuation, which stands as pieces of its own.
pub open spec fn pieces(b: Seq<char>, in_value: bool) -> Seq<Seq<char>>
    decreases b.len(),
{
    if b.len() == 0 {
        Seq::empty()
    } else {
        proof {
            lemma_uncut(b, in_value);
        }
        let n = piece_len(b, in_value);
        seq![b.take(n)] + pieces(b.skip(n), in_value)
    }
}

/// How long the name and the `=` are that a word starts with, where that `=`
/// belongs to a value; zero where there is none.
pub open spec fn protected_len(s: Seq<char>) -> int {
    if text::starts_with(s, "peer="@) {
        5
    } else if text::starts_with(s, "height="@) {
        7
    } else {
        0
    }
}

/// How long the first atom of a word with such a name is: it goes on behind the
/// `=` up to the first place where the word is cut.
pub open spec fn value_end(s: Seq<char>) -> int {
    protected_len(s) + value_len(s.skip(protected_len(s)))
}

/// `w` ends in a colon or a comma, and is more than that.
pub open spec fn has_trailing_separator(w: Seq<char>) -> bool {
    w.len() > 1 && (w.last() == ':' || w.last() == ',')
}

/// The atoms of a word without its trailing separator.
pub open spec fn split_body(b: Seq<char>) -> Seq<Seq<char>> {
    if looks_like_ipv6_port(b) {
        seq![b]
    } else if protected_len(b) > 0 {
        seq![b.take(value_end(b))] + pieces(b.skip(value_end(b)), true)
    } else {
        pieces(b, false)
    }
}

/// The atoms of one word: a trailing separator stands by itself.
pub open spec fn split_word(w: Seq<char>) -> Seq<Seq<char>> {
    if has_trailing_separator(w) {
        split_body(w.drop_last()).push(seq![w.last()])
    } else {
        split_body(w)
    }
}

/// The atoms of the words of `s`, in order.
pub open spec fn atoms(s: Seq<char>) -> Seq<Seq<char>>
    decreases s.len(),
{
    let t = text::trim_front(s, Class::AsciiSpace);
    if t.len() == 0 {
        Seq::empty()
    } else {
        proof {
            text::lemma_run(s, Class::AsciiSpace);
            text::lemma_gap(t, Class::AsciiSpace);
        }
        let n = text::gap(t, Class::AsciiSpace) as int;
        split_word(t.take(n)) + atoms(t.skip(n))
    }
}

/// The texts of a row of slices.
pub open spec fn texts(v: Seq<&str>) -> Seq<Seq<char>> {
    Seq::new(v.len(), |i: int| v[i]@)
}

/// How far `s` goes from `from` up to the first place where a word is cut whose
/// `=` belongs to a value.
fn value_from(s: &[char], from: usize) -> (r: usize)
    requires
        from <= s@.len(),
    ensures
        r == value_len(s@.skip(from as int)),
        from + r <= s@.len(),
{
    let mut i: usize = from;
    while i < s.len()
        invariant
            from <= i <= s@.len(),
            value_len(s@.skip(from as int)) == i - from + value_len(s@.skip(i as int)),
        decreases s@.len() - i,
    {
        let ghost rest = s@.skip(i as int);
        proof {
            assert(rest[0] == s@[i as int]);
            assert(rest.skip(1) =~= s@.skip(i + 1));
            assert(s@.subrange(i as int, s@.len() as int) =~= rest);
        }
        if bracketed(piece(s, i, s.len())) {
            return s.len() - from;
        }
        if Class::ValuePunctuation.holds(s[i]) {
            return i - from;
        }
        i += 1;
    }
    i - from
}

/// Where the first atom of a word ends whose `=` belongs to a value; zero for
/// any other word.
fn protected_end(s: &[char]) -> (r: usize)
    ensures
        r == if protected_len(s@) > 0 {
            value_end(s@)
        } else {
            0
        },
        r <= s@.len(),
{
    proof {
        reveal_strlit("peer=");
        reveal_strlit("height=");
    }
    let n: usize = if matches_at(s, 0, "peer=") {
        5
    } else if matches_at(s, 0, "height=") {
        7
    } else {
        return 0;
    };
    let value: usize = value_from(s, n);
    proof {
        assert(n + value <= s.len());
    }
    n + value
}

fn bracketed(s: &[char]) -> (r: bool)
    ensures
        r == looks_like_ipv6_port(s@),
{
    if s.len() == 0 || s[0] != '[' {
        return false;
    }
    let mut i: usize = 0;
    while i < s.len()
        invariant
            i <= s@.len(),
            s@.len() > 0 && s@[0] == '[',
            forall|j: int| 0 <= j < i ==> !text::occurs_at(s@, "]:"@, j),
        decreases s@.len() - i,
    {
        if matches_at(s, i, "]:") {
            return true;
        }
        i += 1;
    }
    proof {
        reveal_strlit("]:");
    }
    false
}

/// Appends the atoms of the word that stands at `from..to`.
fn split_atom<'a>(content: &'a str, chars: &[char], from: usize, to: usize, out: &mut Vec<&'a str>)
    requires
        chars@ == content@,
        from < to <= chars@.len(),
    ensures
        texts(final(out)@) == texts(old(out)@) + split_word(
            chars@.subrange(from as int, to as int),
        ),
{
    let ghost word = chars@.subrange(from as int, to as int);
    let last: char = chars[to - 1];
    // Peel a single trailing `:` or `,` so it never glues onto a value.
    let peeled: bool = to - from > 1 && (last == ':' || last == ',');
    let end: usize = if peeled {
        to - 1
    } else {
        to
    };
    let ghost body = chars@.subrange(from as int, end as int);
    proof {
        assert(word.last() == last);
        if peeled {
            assert(body =~= word.drop_last());
        }
    }
    split_unpeeled(content, chars, from, end, out);
    if peeled {
        let ghost before = texts(out@);
        out.push(content.substring_char(end, to));
        proof {
            assert(chars@.subrange(end as int, to as int) =~= seq![word.last()]);
            assert(texts(out@) =~= before.push(seq![word.last()]));
            assert(texts(out@) =~= texts(old(out)@) + split_word(word));
        }
    }
}

/// Appends the atoms of the word without a trailing separator that stands at
/// `from..to`.
fn split_unpeeled<'a>(
    content: &'a str,
    chars: &[char],
    from: usize,
    to: usize,
    out: &mut Vec<&'a str>,
)
    requires
        chars@ == content@,
        from <= to <= chars@.len(),
    ensures
        texts(final(out)@) == texts(old(out)@) + split_body(
            chars@.subrange(from as int, to as int),
        ),
{
    let ghost before = texts(out@);
    let body: &[char] = piece(chars, from, to);
    if bracketed(body) {
        out.push(content.substring_char(from, to));
        proof {
            assert(texts(out@) =~= before + seq![body@]);
        }
        return;
    }
    let n: usize = protected_end(body);
    proof {
        lemma_uncut(body@.skip(protected_len(body@)), true);
    }
    if n > 0 {
        out.push(content.substring_char(from, from + n));
        proof {
            assert(chars@.subrange(from as int, from + n) =~= body@.take(n as int));
            assert(chars@.subrange(from + n, to as int) =~= body@.skip(n as int));
            assert(texts(out@) =~= before + seq![body@.take(n as int)]);
        }
    }
    split_at_punctuation(content, chars, from + n, to, n > 0, out);
    proof {
        assert(texts(out@) =~= before + split_body(body@));
    }
}

/// Appends the pieces of what stands at `from..to`.
fn split_at_punctuation<'a>(
    content: &'a str,
    chars: &[char],
    from: usize,
    to: usize,
    in_value: bool,
    out: &mut Vec<&'a str>,
)
    requires
        chars@ == content@,
        from <= to <= chars@.len(),
    ensures
        texts(final(out)@) == texts(old(out)@) + pieces(
            chars@.subrange(from as int, to as int),
            in_value,
        ),
{
    let ghost all = texts(out@) + pieces(chars@.subrange(from as int, to as int), in_value);
    let mut start: usize = from;
    while start < to
        invariant
            chars@ == content@,
            from <= start <= to <= chars@.len(),
            texts(out@) + pieces(chars@.subrange(start as int, to as int), in_value) == all,
        decreases to - start,
    {
        let ghost rest = chars@.subrange(start as int, to as int);
        let ghost before = texts(out@);
        let body: &[char] = piece(chars, start, to);
        proof {
            assert(rest.skip(0) =~= rest);
            lemma_uncut(rest, in_value);
        }
        let uncut: usize = if in_value {
            value_from(body, 0)
        } else {
            gap_from(body, 0, Class::Punctuation)
        };
        let n: usize = if uncut > 0 {
            uncut
        } else {
            1
        };
        out.push(content.substring_char(start, start + n));
        proof {
            let left = pieces(rest.skip(n as int), in_value);
            assert(chars@.subrange(start as int, start + n) =~= rest.take(n as int));
            assert(chars@.subrange(start + n, to as int) =~= rest.skip(n as int));
            assert(texts(out@) =~= before.push(rest.take(n as int)));
            assert(texts(out@) + left =~= before + (seq![rest.take(n as int)] + left));
        }
        start = start + n;
    }
    proof {
        assert(pieces(chars@.subrange(start as int, to as int), in_value)
            =~= Seq::<Seq<char>>::empty());
    }
}

/// The atoms of a line's content.
pub fn split_content(content: &str) -> (r: Vec<&str>)
    ensures
        texts(r@) == atoms(content@),
{
    let v: Vec<char> = chars_of(content);
    let chars: &[char] = v.as_slice();
    let mut out: Vec<&str> = Vec::new();
    let mut i: usize = 0;
    proof {
        assert(chars@.skip(0) =~= chars@);
        assert(texts(out@) + atoms(content@) =~= atoms(content@));
    }
    loop
        invariant
            chars@ == content@,
            i <= chars.len(),
            texts(out@) + atoms(chars@.skip(i as int)) == atoms(content@),
        decreases chars@.len() - i,
    {
        let ghost rest = chars@.skip(i as int);
        let from: usize = i + run_from(chars, i, Class::AsciiSpace);
        let ghost t = chars@.skip(from as int);
        proof {
            text::lemma_run(rest, Class::AsciiSpace);
            assert(t =~= text::trim_front(rest, Class::AsciiSpace));
        }
        if from == chars.len() {
            proof {
                assert(atoms(rest) =~= Seq::<Seq<char>>::empty());
            }
            return out;
        }
        let n: usize = gap_from(chars, from, Class::AsciiSpace);
        let ghost before = texts(out@);
        proof {
            text::lemma_gap(t, Class::AsciiSpace);
            assert(t[0] == chars@[from as int]);
            assert(t[0] == rest[from - i]);
        }
        split_atom(content, chars, from, from + n, &mut out);
        proof {
            assert(chars@.subrange(from as int, from + n) =~= t.take(n as int));
            assert(chars@.skip(from + n) =~= t.skip(n as int));
            assert(before + (split_word(t.take(n as int)) + atoms(t.skip(n as int))) =~= (before
                + split_word(t.take(n as int))) + atoms(t.skip(n as int)));
        }
        i = from + n;
    }
}

// ---------------------------------------------------------------------------
// Second pass: classification
// ---------------------------------------------------------------------------
/// The kind of the atom `s` where `peek` follows it: the first shape of the
/// list that it has, or none.
pub open spec fn kind_of(s: Seq<char>, peek: Option<Seq<char>>) -> Option<TokenKind> {
    if lexical::is_peer_id(s) {
        Some(TokenKind::PeerId)
    } else if lexical::is_block_height(s) {
        Some(TokenKind::BlockHeight)
    } else if lexical::is_unsigned_int(s) && peek == Some("bytes"@) {
        Some(TokenKind::ByteCount)
    } else if lexical::is_duration(s) {
        Some(TokenKind::Duration)
    } else if lexical::is_hash(s) {
        Some(TokenKind::Hash)
    } else if lexical::is_ipv6_port(s) {
        Some(TokenKind::Ipv6Port)
    } else if lexical::is_ipv6(s) {
        Some(TokenKind::Ipv6)
    } else if lexical::is_ipv4_port(s) {
        Some(TokenKind::Ipv4Port)
    } else if lexical::is_ipv4(s) {
        Some(TokenKind::Ipv4)
    } else if lexical::is_onion_port(s) {
        Some(TokenKind::OnionPort)
    } else if lexical::is_onion(s) {
        Some(TokenKind::Onion)
    } else if lexical::is_i2p_port(s) {
        Some(TokenKind::I2PPort)
    } else if lexical::is_i2p(s) {
        Some(TokenKind::I2P)
    } else if lexical::is_bech32(s) {
        Some(TokenKind::Bech32)
    } else if lexical::is_hex(s) {
        Some(TokenKind::Hex)
    } else if lexical::is_base58(s) {
        Some(TokenKind::Base58)
    } else if lexical::is_float(s) {
        Some(TokenKind::Float)
    } else if lexical::is_signed_int(s) {
        Some(TokenKind::Int)
    } else {
        None
    }
}

/// How many atoms a token of that kind takes up.
pub open spec fn width(kind: Option<TokenKind>) -> int {
    if kind == Some(TokenKind::ByteCount) {
        2
    } else {
        1
    }
}

/// The kind of the atom `s` where `peek` follows it.
fn recognize(s: &str, peek: Option<&str>) -> (r: Option<TokenKind>)
    ensures
        r == kind_of(s@, text::opt_text(peek)),
{
    let v: Vec<char> = chars_of(s);
    let a: &[char] = v.as_slice();
    if lexical::recognize_peer_id(a) {
        Some(TokenKind::PeerId)
    } else if lexical::recognize_block_height(a) {
        Some(TokenKind::BlockHeight)
    } else if lexical::unsigned_int(a) && followed_by_bytes(peek) {
        Some(TokenKind::ByteCount)
    } else if lexical::recognize_duration(a) {
        Some(TokenKind::Duration)
    } else if lexical::recognize_hash(a) {
        Some(TokenKind::Hash)
    } else if lexical::recognize_ipv6_port(a) {
        Some(TokenKind::Ipv6Port)
    } else if lexical::ipv6(a) {
        Some(TokenKind::Ipv6)
    } else if lexical::recognize_ipv4_port(a) {
        Some(TokenKind::Ipv4Port)
    } else if lexical::ipv4(a) {
        Some(TokenKind::Ipv4)
    } else if lexical::recognize_onion_port(a) {
        Some(TokenKind::OnionPort)
    } else if lexical::recognize_onion(a) {
        Some(TokenKind::Onion)
    } else if lexical::recognize_i2p_port(a) {
        Some(TokenKind::I2PPort)
    } else if lexical::recognize_i2p(a) {
        Some(TokenKind::I2P)
    } else if lexical::recognize_bech32(a) {
        Some(TokenKind::Bech32)
    } else if lexical::recognize_hex(a) {
        Some(TokenKind::Hex)
    } else if lexical::recognize_base58(a) {
        Some(TokenKind::Base58)
    } else if lexical::float(a) {
        Some(TokenKind::Float)
    } else if lexical::signed_int(a) {
        Some(TokenKind::Int)
    } else {
        None
    }
}

fn followed_by_bytes(peek: Option<&str>) -> (r: bool)
    ensures
        r == (text::opt_text(peek) == Some("bytes"@)),
{
    match peek {
        Some(p) => text_eq(p, "bytes"),
        None => false,
    }
}

/// Classifies a single atom. The second value is the number of atoms that the
/// token takes up: two for a byte count, which swallows the word `bytes`, and
/// one for any other.
pub fn classify<'a>(s: &'a str, peek: Option<&'a str>) -> (r: (Token<'a>, usize))
    ensures
        r.0@ == (TokenView { kind: kind_of(s@, text::opt_text(peek)), text: s@ }),
        r.1 == width(kind_of(s@, text::opt_text(peek))),
{
    match recognize(s, peek) {
        Some(kind) => {
            let n: usize = match kind {
                TokenKind::ByteCount => 2,
                _ => 1,
            };
            (Token::of_kind(kind, s), n)
        },
        None => (Token::Text(s), 1),
    }
}

/// The atom that follows the first of `atoms`.
pub open spec fn second(atoms: Seq<Seq<char>>) -> Option<Seq<char>> {
    if atoms.len() > 1 {
        Some(atoms[1])
    } else {
        None
    }
}

/// The tokens of a row of atoms.
pub open spec fn tokens_of_atoms(atoms: Seq<Seq<char>>) -> Seq<TokenView>
    decreases atoms.len(),
{
    if atoms.len() == 0 {
        Seq::empty()
    } else {
        let kind = kind_of(atoms[0], second(atoms));
        let token = TokenView { kind, text: atoms[0] };
        seq![token] + tokens_of_atoms(atoms.skip(width(kind)))
    }
}

/// The tokens of a line's content.
pub open spec fn tokens_of(content: Seq<char>) -> Seq<TokenView> {
    tokens_of_atoms(atoms(content))
}

/// The views of a row of tokens.
pub open spec fn views(v: Seq<Token>) -> Seq<TokenView> {
    Seq::new(v.len(), |i: int| v[i]@)
}

/// Tokenizes the content of a log line, which is what stands behind the
/// timestamp and the category. The tokens borrow from `content`.
pub fn tokenize(content: &str) -> (r: Vec<Token<'_>>)
    ensures
        views(r@) == tokens_of(content@),
{
    let parts: Vec<&str> = split_content(content);
    let ghost all = texts(parts@);
    let mut out: Vec<Token<'_>> = Vec::new();
    let mut i: usize = 0;
    proof {
        assert(all.skip(0) =~= all);
        assert(views(out@) + tokens_of_atoms(all) =~= tokens_of_atoms(all));
    }
    while i < parts.len()
        invariant
            all == texts(parts@),
            i <= parts@.len(),
            views(out@) + tokens_of_atoms(all.skip(i as int)) == tokens_of_atoms(all),
        decreases parts@.len() - i,
    {
        let ghost rest = all.skip(i as int);
        let ghost before = views(out@);
        let peek: Option<&str> = if i + 1 < parts.len() {
            Some(parts[i + 1])
        } else {
            None
        };
        let (tok, n): (Token<'_>, usize) = classify(parts[i], peek);
        proof {
            assert(rest[0] == parts@[i as int]@);
            if rest.len() > 1 {
                assert(rest[1] == parts@[i + 1]@);
            }
            assert(text::opt_text(peek) == second(rest));
        }
        out.push(tok);
        proof {
            assert(rest.skip(n as int) =~= all.skip(i + n));
            assert(views(out@) =~= before.push(tok@));
            assert(before + (seq![tok@] + tokens_of_atoms(rest.skip(n as int))) =~= before.push(
                tok@,
            ) + tokens_of_atoms(rest.skip(n as int)));
        }
        i += n;
    }
    proof {
        assert(tokens_of_atoms(all.skip(i as int)) =~= Seq::<TokenView>::empty());
        assert(views(out@) + Seq::<TokenView>::empty() =~= views(out@));
    }
    out
}

// ---------------------------------------------------------------------------
// Laws
// ---------------------------------------------------------------------------
/// The parts, one behind the other.
pub open spec fn concat(parts: Seq<Seq<char>>) -> Seq<char>
    decreases parts.len(),
{
    if parts.len() == 0 {
        Seq::empty()
    } else {
        parts[0] + concat(parts.skip(1))
    }
}

/// `s` without its ASCII white space.
pub open spec fn without_space(s: Seq<char>) -> Seq<char>
    decreases s.len(),
{
    if s.len() == 0 {
        Seq::empty()
    } else if text::is_ascii_space(s[0]) {
        without_space(s.skip(1))
    } else {
        seq![s[0]] + without_space(s.skip(1))
    }
}

pub proof fn lemma_concat_add(a: Seq<Seq<char>>, b: Seq<Seq<char>>)
    ensures
        concat(a + b) == concat(a) + concat(b),
    decreases a.len(),
{
    if a.len() == 0 {
        assert(a + b =~= b);
        assert(concat(a) + concat(b) =~= concat(b));
    } else {
        lemma_concat_add(a.skip(1), b);
        assert((a + b).skip(1) =~= a.skip(1) + b);
        assert(a[0] + (concat(a.skip(1)) + concat(b)) =~= (a[0] + concat(a.skip(1))) + concat(b));
    }
}

pub proof fn lemma_concat_one(p: Seq<char>)
    ensures
        concat(seq![p]) == p,
{
    assert(seq![p].skip(1) =~= Seq::<Seq<char>>::empty());
    assert(concat(seq![p].skip(1)) =~= Seq::<char>::empty());
    assert(p + Seq::<char>::empty() =~= p);
}

proof fn lemma_pieces(b: Seq<char>, in_value: bool)
    ensures
        concat(pieces(b, in_value)) == b,
        forall|i: int|
            0 <= i < pieces(b, in_value).len() ==> #[trigger] pieces(b, in_value)[i].len() > 0,
    decreases b.len(),
{
    let all = pieces(b, in_value);
    if b.len() == 0 {
        assert(concat(all) =~= b);
    } else {
        lemma_uncut(b, in_value);
        let n = piece_len(b, in_value);
        let rest = pieces(b.skip(n), in_value);
        lemma_pieces(b.skip(n), in_value);
        lemma_concat_one(b.take(n));
        lemma_concat_add(seq![b.take(n)], rest);
        assert(b.take(n) + b.skip(n) =~= b);
        assert forall|i: int| 0 <= i < all.len() implies #[trigger] all[i].len() > 0 by {
            if i > 0 {
                assert(all[i] == rest[i - 1]);
            }
        }
    }
}

proof fn lemma_split_body(b: Seq<char>)
    requires
        b.len() > 0,
    ensures
        concat(split_body(b)) == b,
        forall|i: int| 0 <= i < split_body(b).len() ==> #[trigger] split_body(b)[i].len() > 0,
{
    lemma_concat_one(b);
    lemma_pieces(b, false);
    if protected_len(b) > 0 {
        reveal_strlit("peer=");
        reveal_strlit("height=");
        lemma_uncut(b.skip(protected_len(b)), true);
        let n = value_end(b);
        let rest = pieces(b.skip(n), true);
        lemma_pieces(b.skip(n), true);
        lemma_concat_one(b.take(n));
        lemma_concat_add(seq![b.take(n)], rest);
        assert(b.take(n) + b.skip(n) =~= b);
        assert forall|i: int| 0 <= i < split_body(b).len() implies #[trigger] split_body(
            b,
        )[i].len() > 0 by {
            if !looks_like_ipv6_port(b) && i > 0 {
                assert(split_body(b)[i] == rest[i - 1]);
            }
        }
    }
}

proof fn lemma_split_word(w: Seq<char>)
    requires
        w.len() > 0,
    ensures
        concat(split_word(w)) == w,
        forall|i: int| 0 <= i < split_word(w).len() ==> #[trigger] split_word(w)[i].len() > 0,
{
    if has_trailing_separator(w) {
        let body = split_body(w.drop_last());
        lemma_split_body(w.drop_last());
        lemma_concat_one(seq![w.last()]);
        lemma_concat_add(body, seq![seq![w.last()]]);
        assert(body.push(seq![w.last()]) =~= body + seq![seq![w.last()]]);
        assert(w.drop_last() + seq![w.last()] =~= w);
    } else {
        lemma_split_body(w);
    }
}

proof fn lemma_without_space_run(s: Seq<char>, n: int)
    requires
        0 <= n <= s.len(),
        forall|i: int| 0 <= i < n ==> text::is_ascii_space(#[trigger] s[i]),
    ensures
        without_space(s) == without_space(s.skip(n)),
    decreases n,
{
    if n == 0 {
        assert(s.skip(0) =~= s);
    } else {
        let t = s.skip(1);
        assert(text::is_ascii_space(s[0]));
        assert forall|i: int| 0 <= i < n - 1 implies text::is_ascii_space(#[trigger] t[i]) by {
            assert(t[i] == s[i + 1]);
        }
        lemma_without_space_run(t, n - 1);
        assert(t.skip(n - 1) =~= s.skip(n));
    }
}

proof fn lemma_without_space_word(s: Seq<char>, n: int)
    requires
        0 <= n <= s.len(),
        forall|i: int| 0 <= i < n ==> !text::is_ascii_space(#[trigger] s[i]),
    ensures
        without_space(s) == s.take(n) + without_space(s.skip(n)),
    decreases n,
{
    if n == 0 {
        assert(s.skip(0) =~= s);
        assert(s.take(0) + without_space(s) =~= without_space(s));
    } else {
        let t = s.skip(1);
        assert(!text::is_ascii_space(s[0]));
        assert forall|i: int| 0 <= i < n - 1 implies !text::is_ascii_space(#[trigger] t[i]) by {
            assert(t[i] == s[i + 1]);
        }
        lemma_without_space_word(t, n - 1);
        assert(t.skip(n - 1) =~= s.skip(n));
        assert(seq![s[0]] + (t.take(n - 1) + without_space(s.skip(n))) =~= s.take(n)
            + without_space(s.skip(n)));
    }
}

/// The structural split loses nothing but white space: the atoms of a content,
/// one behind the other, are the content without its ASCII white space, and no
/// atom is empty.
pub proof fn law_split_loses_only_space(s: Seq<char>)
    ensures
        concat(atoms(s)) == without_space(s),
        forall|i: int| 0 <= i < atoms(s).len() ==> #[trigger] atoms(s)[i].len() > 0,
    decreases s.len(),
{
    text::lemma_run(s, Class::AsciiSpace);
    let a = text::run(s, Class::AsciiSpace) as int;
    let t = s.skip(a);
    assert forall|i: int| 0 <= i < a implies text::is_ascii_space(#[trigger] s[i]) by {
        assert(Class::AsciiSpace.has(s[i]));
    }
    lemma_without_space_run(s, a);
    if t.len() == 0 {
        assert(without_space(t) =~= Seq::<char>::empty());
        assert(concat(atoms(s)) =~= Seq::<char>::empty());
    } else {
        text::lemma_gap(t, Class::AsciiSpace);
        let n = text::gap(t, Class::AsciiSpace) as int;
        assert(t[0] == s[a]);
        assert forall|i: int| 0 <= i < n implies !text::is_ascii_space(#[trigger] t[i]) by {
            assert(!Class::AsciiSpace.has(t[i]));
        }
        lemma_without_space_word(t, n);
        lemma_split_word(t.take(n));
        law_split_loses_only_space(t.skip(n));
        lemma_concat_add(split_word(t.take(n)), atoms(t.skip(n)));
        assert forall|i: int| 0 <= i < atoms(s).len() implies #[trigger] atoms(s)[i].len()
            > 0 by {
            let k = split_word(t.take(n)).len();
            if i < k {
                assert(atoms(s)[i] == split_word(t.take(n))[i]);
            } else {
                assert(atoms(s)[i] == atoms(t.skip(n))[i - k]);
            }
        }
    }
}

/// The atoms that a row of tokens was made from: the text of each, and the word
/// `bytes` behind a byte count.
pub open spec fn atoms_of_tokens(tokens: Seq<TokenView>) -> Seq<Seq<char>>
    decreases tokens.len(),
{
    if tokens.len() == 0 {
        Seq::empty()
    } else if tokens[0].kind == Some(TokenKind::ByteCount) {
        seq![tokens[0].text, "bytes"@] + atoms_of_tokens(tokens.skip(1))
    } else {
        seq![tokens[0].text] + atoms_of_tokens(tokens.skip(1))
    }
}

/// Classification drops no atom and makes none up: the atoms can be read back
/// from the tokens.
pub proof fn law_tokens_keep_the_atoms(atoms: Seq<Seq<char>>)
    ensures
        atoms_of_tokens(tokens_of_atoms(atoms)) == atoms,
    decreases atoms.len(),
{
    if atoms.len() == 0 {
        assert(atoms_of_tokens(tokens_of_atoms(atoms)) =~= atoms);
    } else {
        let kind = kind_of(atoms[0], second(atoms));
        let token = TokenView { kind, text: atoms[0] };
        let rest = atoms.skip(width(kind));
        law_tokens_keep_the_atoms(rest);
        let tokens = tokens_of_atoms(atoms);
        assert(tokens.skip(1) =~= tokens_of_atoms(rest));
        assert(tokens[0] == token);
        if kind == Some(TokenKind::ByteCount) {
            assert(second(atoms) == Some("bytes"@));
            assert(seq![atoms[0], "bytes"@] + rest =~= atoms);
        } else {
            assert(seq![atoms[0]] + rest =~= atoms);
        }
    }
}

/// Equality of tokens is an equivalence.
pub proof fn law_token_equality_is_an_equivalence(a: TokenView, b: TokenView, c: TokenView)
    ensures
        a.same(a),
        a.same(b) ==> b.same(a),
        a.same(b) && b.same(c) ==> a.same(c),
{
}

/// Two values of one kind are equal tokens, whatever they hold.
pub proof fn law_values_of_a_kind_are_equal(a: TokenView, b: TokenView)
    requires
        a.kind is Some,
        a.kind == b.kind,
    ensures
        a.same(b),
{
}

}
