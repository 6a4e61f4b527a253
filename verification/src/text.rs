//! Character-level text: the vocabulary that the other modules state their
//! contracts in, and the executable helpers that go with it.
//!
//! A `str` is the sequence of its characters. Every separator and every
//! alphabet of the log format is ASCII, so cutting at characters and cutting
//! at bytes give the same pieces.
use vstd::prelude::*;
use vstd::slice::slice_subrange;
use vstd::utf8::*;

verus! {

/// Std's `String::push`: appends the one character `c` to the end of `s`.
pub assume_specification[ String::push ](s: &mut String, c: char)
    ensures
        final(s)@ == old(s)@.push(c),
;

// ---------------------------------------------------------------------------
// Character classes
// ---------------------------------------------------------------------------
pub open spec fn is_digit(c: char) -> bool {
    '0' <= c && c <= '9'
}

/// The five characters that ASCII counts as white space.
pub open spec fn is_ascii_space(c: char) -> bool {
    c == ' ' || c == '\t' || c == '\n' || c == '\r' || c == '\u{0C}'
}

/// The characters with the Unicode property `White_Space`.
pub open spec fn is_space(c: char) -> bool {
    ||| '\u{09}' <= c && c <= '\u{0D}'
    ||| c == ' '
    ||| c == '\u{85}'
    ||| c == '\u{A0}'
    ||| c == '\u{1680}'
    ||| '\u{2000}' <= c && c <= '\u{200A}'
    ||| c == '\u{2028}'
    ||| c == '\u{2029}'
    ||| c == '\u{202F}'
    ||| c == '\u{205F}'
    ||| c == '\u{3000}'
}

pub open spec fn is_hex_letter(c: char) -> bool {
    ('a' <= c && c <= 'f') || ('A' <= c && c <= 'F')
}

/// The base58 alphabet: digits and letters without `0`, `I`, `O` and `l`.
pub open spec fn is_base58(c: char) -> bool {
    ||| '1' <= c && c <= '9'
    ||| 'A' <= c && c <= 'Z' && c != 'I' && c != 'O'
    ||| 'a' <= c && c <= 'z' && c != 'l'
}

/// The bech32 alphabet: digits and lower-case letters without `1`, `b`, `i`
/// and `o`.
pub open spec fn is_bech32(c: char) -> bool {
    ||| is_digit(c) && c != '1'
    ||| 'a' <= c && c <= 'z' && c != 'b' && c != 'i' && c != 'o'
}

/// A set of characters.
#[derive(Clone, Copy)]
pub enum Class {
    /// This one character.
    Only(char),
    Digit,
    /// Digits and the letters `a`..`f` in either case.
    HexDigit,
    /// The letters `a`..`f` in either case.
    HexLetter,
    /// Digits and the lower-case letters `a`..`f`.
    LowerHex,
    /// ASCII letters.
    Letter,
    Base32,
    Base58,
    Bech32,
    AsciiSpace,
    /// Unicode white space.
    Space,
    /// White space that a bracket tag cannot hold, or a colon.
    SpaceOrColon,
    /// `\r` and `\n`.
    LineEnd,
    /// The characters that the tokenizer cuts a word at.
    Punctuation,
    /// The characters that it cuts a word at whose `=` belongs to a value.
    ValuePunctuation,
}

impl Class {
    pub open spec fn has(self, c: char) -> bool {
        match self {
            Class::Only(d) => c == d,
            Class::Digit => is_digit(c),
            Class::HexDigit => is_digit(c) || is_hex_letter(c),
            Class::HexLetter => is_hex_letter(c),
            Class::LowerHex => is_digit(c) || ('a' <= c && c <= 'f'),
            Class::Letter => ('a' <= c && c <= 'z') || ('A' <= c && c <= 'Z'),
            Class::Base32 => ('a' <= c && c <= 'z') || ('2' <= c && c <= '7'),
            Class::Base58 => is_base58(c),
            Class::Bech32 => is_bech32(c),
            Class::AsciiSpace => is_ascii_space(c),
            Class::Space => is_space(c),
            Class::SpaceOrColon => is_ascii_space(c) || c == ':',
            Class::LineEnd => c == '\r' || c == '\n',
            Class::Punctuation => {
                c == '=' || c == '(' || c == ')' || c == '[' || c == ']' || c == '\'' || c == '/'
            },
            Class::ValuePunctuation => {
                c == '=' || c == '(' || c == ')' || c == '[' || c == ']' || c == '\''
            },
        }
    }

    /// Whether `c` belongs to the class.
    pub fn holds(self, c: char) -> (r: bool)
        ensures
            r == self.has(c),
    {
        match self {
            Class::Only(d) => c == d,
            Class::Digit => '0' <= c && c <= '9',
            Class::HexDigit => ('0' <= c && c <= '9') || ('a' <= c && c <= 'f') || ('A' <= c && c
                <= 'F'),
            Class::HexLetter => ('a' <= c && c <= 'f') || ('A' <= c && c <= 'F'),
            Class::LowerHex => ('0' <= c && c <= '9') || ('a' <= c && c <= 'f'),
            Class::Letter => ('a' <= c && c <= 'z') || ('A' <= c && c <= 'Z'),
            Class::Base32 => ('a' <= c && c <= 'z') || ('2' <= c && c <= '7'),
            Class::Base58 => ('1' <= c && c <= '9') || ('A' <= c && c <= 'Z' && c != 'I' && c
                != 'O') || ('a' <= c && c <= 'z' && c != 'l'),
            Class::Bech32 => ('0' <= c && c <= '9' && c != '1') || ('a' <= c && c <= 'z' && c
                != 'b' && c != 'i' && c != 'o'),
            Class::AsciiSpace => c == ' ' || c == '\t' || c == '\n' || c == '\r' || c == '\u{0C}',
            Class::Space => ('\u{09}' <= c && c <= '\u{0D}') || c == ' ' || c == '\u{85}' || c
                == '\u{A0}' || c == '\u{1680}' || ('\u{2000}' <= c && c <= '\u{200A}') || c
                == '\u{2028}' || c == '\u{2029}' || c == '\u{202F}' || c == '\u{205F}' || c
                == '\u{3000}',
            Class::SpaceOrColon => c == ' ' || c == '\t' || c == '\n' || c == '\r' || c == '\u{0C}'
                || c == ':',
            Class::LineEnd => c == '\r' || c == '\n',
            Class::Punctuation => c == '=' || c == '(' || c == ')' || c == '[' || c == ']' || c
                == '\'' || c == '/',
            Class::ValuePunctuation => c == '=' || c == '(' || c == ')' || c == '[' || c == ']'
                || c == '\'',
        }
    }
}

// ---------------------------------------------------------------------------
// Runs
// ---------------------------------------------------------------------------
/// Every character of `s` belongs to `k`.
pub open spec fn all_in(s: Seq<char>, k: Class) -> bool {
    forall|i: int| 0 <= i < s.len() ==> k.has(#[trigger] s[i])
}

/// Some character of `s` belongs to `k`.
pub open spec fn any_in(s: Seq<char>, k: Class) -> bool {
    exists|i: int| 0 <= i < s.len() && k.has(#[trigger] s[i])
}

/// How many characters at the front of `s` belong to `k`.
pub open spec fn run(s: Seq<char>, k: Class) -> nat
    decreases s.len(),
{
    if s.len() > 0 && k.has(s[0]) {
        1 + run(s.skip(1), k)
    } else {
        0
    }
}

/// How many characters stand in `s` before the first that belongs to `k`: the
/// length of `s` where there is none.
pub open spec fn gap(s: Seq<char>, k: Class) -> nat
    decreases s.len(),
{
    if s.len() > 0 && !k.has(s[0]) {
        1 + gap(s.skip(1), k)
    } else {
        0
    }
}

/// The place of the last character of `s` that belongs to `k`, counted from
/// one; zero where there is none.
pub open spec fn last_place(s: Seq<char>, k: Class) -> nat
    decreases s.len(),
{
    if s.len() == 0 {
        0
    } else if k.has(s.last()) {
        s.len()
    } else {
        last_place(s.drop_last(), k)
    }
}

/// `s` without the characters of `k` at its front.
pub open spec fn trim_front(s: Seq<char>, k: Class) -> Seq<char> {
    s.skip(run(s, k) as int)
}

/// `s` without the characters of `k` at its back.
pub open spec fn trim_back(s: Seq<char>, k: Class) -> Seq<char>
    decreases s.len(),
{
    if s.len() > 0 && k.has(s.last()) {
        trim_back(s.drop_last(), k)
    } else {
        s
    }
}

/// What `run` counts: the longest prefix inside the class.
pub proof fn lemma_run(s: Seq<char>, k: Class)
    ensures
        0 <= run(s, k) <= s.len(),
        forall|i: int| 0 <= i < run(s, k) ==> k.has(#[trigger] s[i]),
        run(s, k) < s.len() ==> !k.has(s[run(s, k) as int]),
    decreases s.len(),
{
    if s.len() > 0 && k.has(s[0]) {
        let t = s.skip(1);
        lemma_run(t, k);
        assert forall|i: int| 0 <= i < run(s, k) implies k.has(#[trigger] s[i]) by {
            if i > 0 {
                assert(s[i] == t[i - 1]);
            }
        }
        if run(s, k) < s.len() {
            assert(s[run(s, k) as int] == t[run(t, k) as int]);
        }
    }
}

/// What `gap` counts: the longest prefix outside the class.
pub proof fn lemma_gap(s: Seq<char>, k: Class)
    ensures
        0 <= gap(s, k) <= s.len(),
        forall|i: int| 0 <= i < gap(s, k) ==> !k.has(#[trigger] s[i]),
        gap(s, k) < s.len() ==> k.has(s[gap(s, k) as int]),
    decreases s.len(),
{
    if s.len() > 0 && !k.has(s[0]) {
        let t = s.skip(1);
        lemma_gap(t, k);
        assert forall|i: int| 0 <= i < gap(s, k) implies !k.has(#[trigger] s[i]) by {
            if i > 0 {
                assert(s[i] == t[i - 1]);
            }
        }
        if gap(s, k) < s.len() {
            assert(s[gap(s, k) as int] == t[gap(t, k) as int]);
        }
    }
}

/// A prefix inside the class, followed by a character outside it or by
/// nothing, is what `run` counts.
pub proof fn lemma_run_is(s: Seq<char>, k: Class, n: int)
    requires
        0 <= n <= s.len(),
        forall|i: int| 0 <= i < n ==> k.has(#[trigger] s[i]),
        n < s.len() ==> !k.has(s[n]),
    ensures
        run(s, k) == n,
{
    lemma_run(s, k);
    if run(s, k) < n {
        assert(k.has(s[run(s, k) as int]));
    }
}

/// A prefix outside the class, followed by a character of it or by nothing,
/// is what `gap` counts.
pub proof fn lemma_gap_is(s: Seq<char>, k: Class, n: int)
    requires
        0 <= n <= s.len(),
        forall|i: int| 0 <= i < n ==> !k.has(#[trigger] s[i]),
        n < s.len() ==> k.has(s[n]),
    ensures
        gap(s, k) == n,
{
    lemma_gap(s, k);
    if gap(s, k) < n {
        assert(!k.has(s[gap(s, k) as int]));
    }
}

/// What `last_place` finds.
pub proof fn lemma_last_place(s: Seq<char>, k: Class)
    ensures
        last_place(s, k) <= s.len(),
        last_place(s, k) > 0 ==> k.has(s[last_place(s, k) - 1]),
        forall|i: int| last_place(s, k) <= i < s.len() ==> !k.has(#[trigger] s[i]),
    decreases s.len(),
{
    if s.len() > 0 && !k.has(s.last()) {
        let t = s.drop_last();
        lemma_last_place(t, k);
        assert forall|i: int| last_place(s, k) <= i < s.len() implies !k.has(#[trigger] s[i]) by {
            if i < t.len() {
                assert(s[i] == t[i]);
            }
        }
    }
}

/// The text behind an optional slice.
pub open spec fn opt_text(s: Option<&str>) -> Option<Seq<char>> {
    match s {
        Some(t) => Some(t@),
        None => None,
    }
}

/// The text of an optional string.
pub open spec fn opt_string(s: Option<String>) -> Option<Seq<char>> {
    match s {
        Some(t) => Some(t@),
        None => None,
    }
}

/// The characters of `s`, in order.
pub fn chars_of(s: &str) -> (r: Vec<char>)
    ensures
        r@ == s@,
{
    let mut out: Vec<char> = Vec::new();
    for c in it: s.chars()
        invariant
            it.seq() == s@,
            out@ == s@.take(it.index() as int),
    {
        proof {
            assert(s@.take(it.index() + 1) =~= s@.take(it.index() as int).push(
                s@[it.index() as int],
            ));
        }
        out.push(c);
    }
    proof {
        assert(s@.take(s@.len() as int) =~= s@);
    }
    out
}

/// Whether `a` and `b` hold the same characters.
pub fn text_eq(a: &str, b: &str) -> (r: bool)
    ensures
        r == (a@ == b@),
{
    proof {
        encode_utf8_decode_utf8(a@);
        encode_utf8_decode_utf8(b@);
    }
    let x: &[u8] = a.as_bytes();
    let y: &[u8] = b.as_bytes();
    if x.len() != y.len() {
        return false;
    }
    let mut i: usize = 0;
    while i < x.len()
        invariant
            i <= x@.len(),
            x@.len() == y@.len(),
            x@ == encode_utf8(a@),
            y@ == encode_utf8(b@),
            forall|j: int| 0 <= j < i ==> x@[j] == y@[j],
        decreases x@.len() - i,
    {
        if x[i] != y[i] {
            return false;
        }
        i += 1;
    }
    proof {
        assert(x@ =~= y@);
    }
    true
}

/// A string of the same characters.
pub fn owned(s: Option<&str>) -> (r: Option<String>)
    ensures
        opt_string(r) == opt_text(s),
{
    match s {
        Some(t) => Some(t.to_owned()),
        None => None,
    }
}

/// Whether every character of `s` belongs to `k`.
pub fn all_chars(s: &[char], k: Class) -> (r: bool)
    ensures
        r == all_in(s@, k),
{
    let mut i: usize = 0;
    while i < s.len()
        invariant
            i <= s@.len(),
            forall|j: int| 0 <= j < i ==> k.has(#[trigger] s@[j]),
        decreases s@.len() - i,
    {
        if !k.holds(s[i]) {
            return false;
        }
        i += 1;
    }
    true
}

/// Whether some character of `s` belongs to `k`.
pub fn any_char(s: &[char], k: Class) -> (r: bool)
    ensures
        r == any_in(s@, k),
{
    let mut i: usize = 0;
    while i < s.len()
        invariant
            i <= s@.len(),
            forall|j: int| 0 <= j < i ==> !k.has(#[trigger] s@[j]),
        decreases s@.len() - i,
    {
        if k.holds(s[i]) {
            return true;
        }
        i += 1;
    }
    false
}

/// How many characters of `s` from `from` on belong to `k` without a break.
pub fn run_from(s: &[char], from: usize, k: Class) -> (r: usize)
    requires
        from <= s@.len(),
    ensures
        r == run(s@.skip(from as int), k),
        from + r <= s@.len(),
{
    let ghost t = s@.skip(from as int);
    let mut i: usize = from;
    while i < s.len() && k.holds(s[i])
        invariant
            from <= i <= s@.len(),
            t == s@.skip(from as int),
            forall|j: int| 0 <= j < i - from ==> k.has(#[trigger] t[j]),
        decreases s@.len() - i,
    {
        proof {
            assert(t[i - from] == s@[i as int]);
        }
        i += 1;
    }
    proof {
        if i < s@.len() {
            assert(t[i - from] == s@[i as int]);
        }
        lemma_run_is(t, k, i - from);
    }
    i - from
}

/// How many characters of `s` stand from `from` on before the first of `k`.
pub fn gap_from(s: &[char], from: usize, k: Class) -> (r: usize)
    requires
        from <= s@.len(),
    ensures
        r == gap(s@.skip(from as int), k),
        from + r <= s@.len(),
{
    let ghost t = s@.skip(from as int);
    let mut i: usize = from;
    while i < s.len() && !k.holds(s[i])
        invariant
            from <= i <= s@.len(),
            t == s@.skip(from as int),
            forall|j: int| 0 <= j < i - from ==> !k.has(#[trigger] t[j]),
        decreases s@.len() - i,
    {
        proof {
            assert(t[i - from] == s@[i as int]);
        }
        i += 1;
    }
    proof {
        if i < s@.len() {
            assert(t[i - from] == s@[i as int]);
        }
        lemma_gap_is(t, k, i - from);
    }
    i - from
}

/// The place of the last character of `s` that belongs to `k`, counted from
/// one; zero where there is none.
pub fn last_of(s: &[char], k: Class) -> (r: usize)
    ensures
        r == last_place(s@, k),
        r <= s@.len(),
{
    let mut n: usize = s.len();
    proof {
        assert(s@.take(n as int) =~= s@);
    }
    while n > 0
        invariant
            n <= s@.len(),
            last_place(s@.take(n as int), k) == last_place(s@, k),
        decreases n,
    {
        proof {
            assert(s@.take(n as int).last() == s@[n - 1]);
            assert(s@.take(n as int).drop_last() =~= s@.take(n - 1));
        }
        if k.holds(s[n - 1]) {
            return n;
        }
        n -= 1;
    }
    0
}

/// The length of `s` without the characters of `k` at its back.
pub fn trimmed_len(s: &[char], k: Class) -> (r: usize)
    ensures
        r <= s@.len(),
        s@.take(r as int) == trim_back(s@, k),
{
    let mut n: usize = s.len();
    proof {
        assert(s@.take(n as int) =~= s@);
    }
    while n > 0 && k.holds(s[n - 1])
        invariant
            n <= s@.len(),
            trim_back(s@.take(n as int), k) == trim_back(s@, k),
        decreases n,
    {
        proof {
            assert(s@.take(n as int).last() == s@[n - 1]);
            assert(s@.take(n as int).drop_last() =~= s@.take(n - 1));
        }
        n -= 1;
    }
    proof {
        if n > 0 {
            assert(s@.take(n as int).last() == s@[n - 1]);
        }
    }
    n
}

// ---------------------------------------------------------------------------
// Prefixes, suffixes, pieces
// ---------------------------------------------------------------------------
pub open spec fn starts_with(s: Seq<char>, p: Seq<char>) -> bool {
    p.len() <= s.len() && s.take(p.len() as int) == p
}

pub open spec fn ends_with(s: Seq<char>, p: Seq<char>) -> bool {
    p.len() <= s.len() && s.skip(s.len() - p.len()) == p
}

/// `p` occurs in `s` at the place `i`.
pub open spec fn occurs_at(s: Seq<char>, p: Seq<char>, i: int) -> bool {
    0 <= i && i + p.len() <= s.len() && s.subrange(i, i + p.len()) == p
}

/// The pieces of `s` between the occurrences of `c`: one more than there are
/// occurrences.
pub open spec fn split_on(s: Seq<char>, c: char) -> Seq<Seq<char>>
    decreases s.len(),
{
    let n = gap(s, Class::Only(c));
    if n >= s.len() {
        seq![s]
    } else {
        proof {
            lemma_gap(s, Class::Only(c));
        }
        seq![s.take(n as int)] + split_on(s.skip(n as int + 1), c)
    }
}

/// Whether `p` occurs in `s` at the place `at`.
pub fn matches_at(s: &[char], at: usize, p: &str) -> (r: bool)
    ensures
        r == occurs_at(s@, p@, at as int),
{
    let q: Vec<char> = chars_of(p);
    if at > s.len() || q.len() > s.len() - at {
        return false;
    }
    let ghost piece = s@.subrange(at as int, at + q@.len());
    let mut i: usize = 0;
    while i < q.len()
        invariant
            i <= q@.len(),
            q@ == p@,
            at + q@.len() <= s.len(),
            piece == s@.subrange(at as int, at + q@.len()),
            forall|j: int| 0 <= j < i ==> s@[at + j] == #[trigger] q@[j],
        decreases q@.len() - i,
    {
        if s[at + i] != q[i] {
            proof {
                assert(piece[i as int] == s@[at + i]);
            }
            return false;
        }
        i += 1;
    }
    proof {
        assert(piece =~= p@);
    }
    true
}

/// Whether `s` starts with `p`.
pub fn has_prefix(s: &[char], p: &str) -> (r: bool)
    ensures
        r == starts_with(s@, p@),
{
    matches_at(s, 0, p)
}

/// Whether `s` ends with `p`; where it does, the length of what stands before.
pub fn before_suffix(s: &[char], p: &str) -> (r: Option<usize>)
    ensures
        r is Some <==> ends_with(s@, p@),
        r matches Some(n) ==> n + p@.len() == s@.len(),
{
    let q: Vec<char> = chars_of(p);
    if q.len() > s.len() {
        return None;
    }
    let at: usize = s.len() - q.len();
    proof {
        assert(s@.subrange(at as int, at + p@.len()) =~= s@.skip(s@.len() - p@.len()));
    }
    if matches_at(s, at, p) {
        Some(at)
    } else {
        None
    }
}

/// The characters of `s` from `from` on, up to `to`.
pub fn piece(s: &[char], from: usize, to: usize) -> (r: &[char])
    requires
        from <= to <= s@.len(),
    ensures
        r@ == s@.subrange(from as int, to as int),
{
    slice_subrange(s, from, to)
}

// ---------------------------------------------------------------------------
// Decimal numbers
// ---------------------------------------------------------------------------
pub open spec fn digit_value(c: char) -> nat {
    (c as int - '0' as int) as nat
}

/// The number that a row of digits writes.
pub open spec fn number(s: Seq<char>) -> nat
    decreases s.len(),
{
    if s.len() == 0 {
        0
    } else {
        number(s.drop_last()) * 10 + digit_value(s.last())
    }
}

pub open spec fn digit_char(n: nat) -> char {
    ('0' as int + n) as char
}

/// The shortest row of digits that writes `n`.
pub open spec fn decimal(n: nat) -> Seq<char>
    decreases n,
{
    if n < 10 {
        seq![digit_char(n)]
    } else {
        decimal(n / 10).push(digit_char(n % 10))
    }
}

/// The digits of `n` write `n`.
pub proof fn lemma_decimal(n: nat)
    ensures
        decimal(n).len() > 0,
        all_in(decimal(n), Class::Digit),
        number(decimal(n)) == n,
    decreases n,
{
    if n < 10 {
        let s = seq![digit_char(n)];
        assert(s.drop_last() =~= Seq::<char>::empty());
        assert(number(s.drop_last()) == 0);
    } else {
        lemma_decimal(n / 10);
        let s = decimal(n / 10);
        assert(s.push(digit_char(n % 10)).drop_last() =~= s);
    }
}

/// The digit that stands for `d`.
pub fn digit(d: u8) -> (c: char)
    requires
        d < 10,
    ensures
        c == digit_char(d as nat),
{
    (48u8 + d) as char
}

/// Appends the decimal digits of `n`.
pub fn push_decimal(out: &mut String, n: u64)
    ensures
        final(out)@ == old(out)@ + decimal(n as nat),
    decreases n,
{
    if n >= 10 {
        push_decimal(out, n / 10);
    }
    out.push(digit((n % 10) as u8));
    proof {
        assert(out@ =~= old(out)@ + decimal(n as nat));
    }
}

// ---------------------------------------------------------------------------
// Padding
// ---------------------------------------------------------------------------
/// As often `fill` as brings a text of the length `len` up to a width.
pub open spec fn padding(fill: char, len: nat, width: nat) -> Seq<char> {
    Seq::new(
        if len < width {
            (width - len) as nat
        } else {
            0
        },
        |i: int| fill,
    )
}

/// `n` in decimal digits, with `fill` before it up to a width.
pub open spec fn padded(fill: char, n: nat, width: nat) -> Seq<char> {
    padding(fill, decimal(n).len(), width) + decimal(n)
}

/// Appends `fill` as often as brings a text of the length `len` up to a width.
pub fn push_padding(out: &mut String, fill: char, len: usize, width: usize)
    ensures
        final(out)@ == old(out)@ + padding(fill, len as nat, width as nat),
{
    let ghost all = padding(fill, len as nat, width as nat);
    let mut i: usize = len;
    proof {
        assert(out@ =~= old(out)@ + all.take(0));
    }
    while i < width
        invariant
            len <= i,
            i <= width || i == len,
            all == padding(fill, len as nat, width as nat),
            out@ == old(out)@ + all.take(i - len),
        decreases width - i,
    {
        out.push(fill);
        proof {
            assert(out@ =~= old(out)@ + all.take(i + 1 - len));
        }
        i += 1;
    }
    proof {
        assert(all.take(i - len) =~= all);
    }
}

/// Appends `n` with `fill` before it up to a width.
pub fn push_padded(out: &mut String, fill: char, n: u64, width: usize)
    ensures
        final(out)@ == old(out)@ + padded(fill, n as nat, width as nat),
{
    let mut digits: String = String::new();
    push_decimal(&mut digits, n);
    proof {
        assert(digits@ =~= decimal(n as nat));
    }
    push_padding(out, fill, chars_of(digits.as_str()).len(), width);
    out.append(digits.as_str());
    proof {
        assert(out@ =~= old(out)@ + padded(fill, n as nat, width as nat));
    }
}

/// A text has at least as many bytes as characters.
pub proof fn lemma_bytes_at_least_chars(s: Seq<char>)
    ensures
        encode_utf8(s).len() >= s.len(),
    decreases s.len(),
{
    if s.len() > 0 {
        lemma_bytes_at_least_chars(s.drop_first());
    }
}

// ---------------------------------------------------------------------------
// Laws
// ---------------------------------------------------------------------------
/// Each further digit makes a number ten times as large, and adds its own value.
pub proof fn law_a_digit_counts_by_its_place(s: Seq<char>, c: char)
    requires
        '0' <= c <= '9',
    ensures
        number(Seq::empty()) == 0,
        number(s.push(c)) == 10 * number(s) + (c as int - 48),
{
    assert(s.push(c).drop_last() =~= s);
}

/// A number is written in decimal digits, with no zero before them, and these
/// digits write it.
pub proof fn law_a_number_is_written_in_its_digits(n: nat)
    ensures
        decimal(n).len() > 0,
        forall|i: int| 0 <= i < decimal(n).len() ==> '0' <= #[trigger] decimal(n)[i] <= '9',
        number(decimal(n)) == n,
        decimal(n)[0] == '0' ==> n == 0 && decimal(n).len() == 1,
    decreases n,
{
    lemma_decimal(n);
    assert forall|i: int| 0 <= i < decimal(n).len() implies '0' <= #[trigger] decimal(n)[i]
        <= '9' by {
        assert(Class::Digit.has(decimal(n)[i]));
    }
    if n >= 10 {
        law_a_number_is_written_in_its_digits(n / 10);
        assert(decimal(n)[0] == decimal(n / 10)[0]);
    }
}

/// Padding brings a number up to a width, and no further.
pub proof fn law_padding_fills_up_to_the_width(fill: char, n: nat, width: nat, i: int)
    ensures
        decimal(n).len() >= width ==> padded(fill, n, width) == decimal(n),
        decimal(n).len() < width ==> {
            &&& padded(fill, n, width).len() == width
            &&& padded(fill, n, width).skip(width - decimal(n).len()) == decimal(n)
            &&& 0 <= i < width - decimal(n).len() ==> padded(fill, n, width)[i] == fill
        },
{
    if decimal(n).len() >= width {
        assert(padded(fill, n, width) =~= decimal(n));
    } else {
        assert(padded(fill, n, width).skip(width - decimal(n).len()) =~= decimal(n));
    }
}

}
