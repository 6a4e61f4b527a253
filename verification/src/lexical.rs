//! The shapes of value that Bitcoin Core writes into its log: numbers,
//! network addresses, hashes, durations, coin addresses. Each shape is a
//! predicate on a row of characters, with the function that decides it.
use vstd::prelude::*;

use crate::text;
use crate::text::{
    all_chars, any_char, before_suffix, gap_from, has_prefix, last_of, piece, run_from, Class,
};

verus! {

// ---------------------------------------------------------------------------
// Numbers
// ---------------------------------------------------------------------------
/// One digit or more.
pub open spec fn is_unsigned_int(s: Seq<char>) -> bool {
    s.len() > 0 && text::all_in(s, Class::Digit)
}

/// `s` without the sign at its front, where it has one.
pub open spec fn after_sign(s: Seq<char>) -> Seq<char> {
    if s.len() > 0 && (s[0] == '+' || s[0] == '-') {
        s.skip(1)
    } else {
        s
    }
}

/// An optional sign, then one digit or more.
pub open spec fn is_signed_int(s: Seq<char>) -> bool {
    is_unsigned_int(after_sign(s))
}

/// What may follow the fraction of a float: nothing, or `e` or `E` and a
/// signed integer.
pub open spec fn is_exponent(s: Seq<char>) -> bool {
    s.len() == 0 || ((s[0] == 'e' || s[0] == 'E') && is_signed_int(s.skip(1)))
}

/// A dot, one digit or more, and an optional exponent.
pub open spec fn is_fraction(s: Seq<char>) -> bool {
    &&& s.len() > 0 && s[0] == '.'
    &&& text::run(s.skip(1), Class::Digit) > 0
    &&& is_exponent(s.skip(1).skip(text::run(s.skip(1), Class::Digit) as int))
}

/// An optional sign, one digit or more, and a fraction.
pub open spec fn is_float(s: Seq<char>) -> bool {
    let t = after_sign(s);
    &&& text::run(t, Class::Digit) > 0
    &&& is_fraction(t.skip(text::run(t, Class::Digit) as int))
}

/// A whole number from 0 to 65535.
pub open spec fn is_port(s: Seq<char>) -> bool {
    is_unsigned_int(s) && text::number(s) <= 65535
}

/// One to three digits that write at most 255.
pub open spec fn is_octet(s: Seq<char>) -> bool {
    is_unsigned_int(s) && s.len() <= 3 && text::number(s) <= 255
}

pub fn unsigned_int(s: &[char]) -> (r: bool)
    ensures
        r == is_unsigned_int(s@),
{
    s.len() > 0 && all_chars(s, Class::Digit)
}

/// `s` without the sign at its front.
fn unsigned_part(s: &[char]) -> (r: &[char])
    ensures
        r@ == after_sign(s@),
{
    if s.len() > 0 && (s[0] == '+' || s[0] == '-') {
        piece(s, 1, s.len())
    } else {
        s
    }
}

pub fn signed_int(s: &[char]) -> (r: bool)
    ensures
        r == is_signed_int(s@),
{
    unsigned_int(unsigned_part(s))
}

fn exponent(s: &[char]) -> (r: bool)
    ensures
        r == is_exponent(s@),
{
    s.len() == 0 || ((s[0] == 'e' || s[0] == 'E') && signed_int(piece(s, 1, s.len())))
}

fn fraction(s: &[char]) -> (r: bool)
    ensures
        r == is_fraction(s@),
{
    if s.len() == 0 || s[0] != '.' {
        return false;
    }
    let t: &[char] = piece(s, 1, s.len());
    proof {
        assert(t@.skip(0) =~= t@);
    }
    let n: usize = run_from(t, 0, Class::Digit);
    n > 0 && exponent(piece(t, n, t.len()))
}

pub fn float(s: &[char]) -> (r: bool)
    ensures
        r == is_float(s@),
{
    let t: &[char] = unsigned_part(s);
    proof {
        assert(t@.skip(0) =~= t@);
    }
    let n: usize = run_from(t, 0, Class::Digit);
    n > 0 && fraction(piece(t, n, t.len()))
}

/// A longer row of digits never writes less than its front does.
proof fn lemma_number_grows(s: Seq<char>, n: int)
    requires
        0 <= n <= s.len(),
    ensures
        text::number(s.take(n)) <= text::number(s),
    decreases s.len() - n,
{
    if n == s.len() {
        assert(s.take(n) =~= s);
    } else {
        lemma_number_grows(s, n + 1);
        assert(s.take(n + 1).drop_last() =~= s.take(n));
    }
}

/// Whether the digits `s` write at most `max`.
fn at_most(s: &[char], max: u32) -> (r: bool)
    requires
        text::all_in(s@, Class::Digit),
        max <= 65535,
    ensures
        r == (text::number(s@) <= max),
{
    let mut n: u32 = 0;
    let mut i: usize = 0;
    while i < s.len()
        invariant
            i <= s@.len(),
            text::all_in(s@, Class::Digit),
            n == text::number(s@.take(i as int)),
            n <= max <= 65535,
        decreases s@.len() - i,
    {
        proof {
            assert(s@.take(i + 1).drop_last() =~= s@.take(i as int));
            assert(Class::Digit.has(s@[i as int]));
            lemma_number_grows(s@, i + 1);
        }
        n = n * 10 + (s[i] as u32 - '0' as u32);
        if n > max {
            return false;
        }
        i += 1;
    }
    proof {
        assert(s@.take(s@.len() as int) =~= s@);
    }
    true
}

pub fn port(s: &[char]) -> (r: bool)
    ensures
        r == is_port(s@),
{
    unsigned_int(s) && at_most(s, 65535)
}

fn octet(s: &[char]) -> (r: bool)
    ensures
        r == is_octet(s@),
{
    unsigned_int(s) && s.len() <= 3 && at_most(s, 255)
}

// ---------------------------------------------------------------------------
// IP addresses
// ---------------------------------------------------------------------------
pub open spec fn all_octets(parts: Seq<Seq<char>>) -> bool {
    forall|i: int| 0 <= i < parts.len() ==> is_octet(#[trigger] parts[i])
}

/// Four octets with dots between them.
pub open spec fn is_ipv4(s: Seq<char>) -> bool {
    text::split_on(s, '.').len() == 4 && all_octets(text::split_on(s, '.'))
}

/// How many times `::` occurs in `s`, counted from the front without overlap.
pub open spec fn colon_pairs(s: Seq<char>) -> nat
    decreases s.len(),
{
    if s.len() < 2 {
        0
    } else if s[0] == ':' && s[1] == ':' {
        1 + colon_pairs(s.skip(2))
    } else {
        colon_pairs(s.skip(1))
    }
}

/// Nothing, or one to four hex digits.
pub open spec fn is_hextet(s: Seq<char>) -> bool {
    s.len() <= 4 && text::all_in(s, Class::HexDigit)
}

pub open spec fn all_hextets(parts: Seq<Seq<char>>) -> bool {
    forall|i: int| 0 <= i < parts.len() ==> is_hextet(#[trigger] parts[i])
}

/// Groups of up to four hex digits with two colons or more between them, of
/// which at most one pair is a `::`.
pub open spec fn is_ipv6(s: Seq<char>) -> bool {
    &&& text::split_on(s, ':').len() >= 3
    &&& colon_pairs(s) <= 1
    &&& all_hextets(text::split_on(s, ':'))
}

proof fn lemma_cons_octets(p: Seq<char>, rest: Seq<Seq<char>>)
    ensures
        all_octets(seq![p] + rest) == (is_octet(p) && all_octets(rest)),
{
    let all = seq![p] + rest;
    if all_octets(all) {
        assert(is_octet(all[0]));
        assert forall|i: int| 0 <= i < rest.len() implies is_octet(#[trigger] rest[i]) by {
            assert(all[i + 1] == rest[i]);
        }
    }
    if is_octet(p) && all_octets(rest) {
        assert forall|i: int| 0 <= i < all.len() implies is_octet(#[trigger] all[i]) by {
            if i > 0 {
                assert(all[i] == rest[i - 1]);
            }
        }
    }
}

proof fn lemma_cons_hextets(p: Seq<char>, rest: Seq<Seq<char>>)
    ensures
        all_hextets(seq![p] + rest) == (is_hextet(p) && all_hextets(rest)),
{
    let all = seq![p] + rest;
    if all_hextets(all) {
        assert(is_hextet(all[0]));
        assert forall|i: int| 0 <= i < rest.len() implies is_hextet(#[trigger] rest[i]) by {
            assert(all[i + 1] == rest[i]);
        }
    }
    if is_hextet(p) && all_hextets(rest) {
        assert forall|i: int| 0 <= i < all.len() implies is_hextet(#[trigger] all[i]) by {
            if i > 0 {
                assert(all[i] == rest[i - 1]);
            }
        }
    }
}

/// There is always at least one piece.
proof fn lemma_split_nonempty(s: Seq<char>, c: char)
    ensures
        text::split_on(s, c).len() >= 1,
{
    text::lemma_gap(s, Class::Only(c));
}

pub fn ipv4(s: &[char]) -> (r: bool)
    ensures
        r == is_ipv4(s@),
{
    let mut from: usize = 0;
    let mut count: usize = 0;
    proof {
        assert(s@.skip(0) =~= s@);
    }
    loop
        invariant
            from <= s.len(),
            count < 4,
            is_ipv4(s@) == (count + text::split_on(s@.skip(from as int), '.').len() == 4
                && all_octets(text::split_on(s@.skip(from as int), '.'))),
        decreases s@.len() - from,
    {
        let ghost rest = s@.skip(from as int);
        let n: usize = gap_from(s, from, Class::Only('.'));
        let p: &[char] = piece(s, from, from + n);
        proof {
            text::lemma_gap(rest, Class::Only('.'));
            assert(p@ =~= rest.take(n as int));
        }
        count += 1;
        if !octet(p) {
            proof {
                if n < rest.len() {
                    lemma_cons_octets(p@, text::split_on(rest.skip(n + 1), '.'));
                } else {
                    assert(rest.take(n as int) =~= rest);
                    assert(text::split_on(rest, '.')[0] == rest);
                }
            }
            return false;
        }
        if from + n == s.len() {
            proof {
                assert(rest.take(n as int) =~= rest);
                assert(text::split_on(rest, '.') =~= seq![rest]);
            }
            return count == 4;
        }
        proof {
            lemma_cons_octets(p@, text::split_on(rest.skip(n + 1), '.'));
            assert(rest.skip(n + 1) =~= s@.skip(from + n + 1));
            lemma_split_nonempty(rest.skip(n + 1), '.');
        }
        if count == 4 {
            return false;
        }
        from = from + n + 1;
    }
}

/// How many times `::` occurs in `s`, without overlap.
fn count_colon_pairs(s: &[char]) -> (r: usize)
    ensures
        r == colon_pairs(s@),
{
    let mut i: usize = 0;
    let mut count: usize = 0;
    proof {
        assert(s@.skip(0) =~= s@);
    }
    while i < s.len() && s.len() - i >= 2
        invariant
            i <= s.len(),
            count <= i,
            colon_pairs(s@) == count + colon_pairs(s@.skip(i as int)),
        decreases s@.len() - i,
    {
        let ghost rest = s@.skip(i as int);
        proof {
            assert(rest[0] == s@[i as int]);
            assert(rest[1] == s@[i + 1]);
        }
        if s[i] == ':' && s[i + 1] == ':' {
            proof {
                assert(rest.skip(2) =~= s@.skip(i + 2));
            }
            count += 1;
            i += 2;
        } else {
            proof {
                assert(rest.skip(1) =~= s@.skip(i + 1));
            }
            i += 1;
        }
    }
    count
}

fn hextet(s: &[char]) -> (r: bool)
    ensures
        r == is_hextet(s@),
{
    s.len() <= 4 && all_chars(s, Class::HexDigit)
}

pub fn ipv6(s: &[char]) -> (r: bool)
    ensures
        r == is_ipv6(s@),
{
    if count_colon_pairs(s) > 1 {
        return false;
    }
    let mut from: usize = 0;
    let mut count: usize = 0;
    proof {
        assert(s@.skip(0) =~= s@);
    }
    loop
        invariant
            from <= s.len(),
            count <= from,
            colon_pairs(s@) <= 1,
            is_ipv6(s@) == (count + text::split_on(s@.skip(from as int), ':').len() >= 3
                && all_hextets(text::split_on(s@.skip(from as int), ':'))),
        decreases s@.len() - from,
    {
        let ghost rest = s@.skip(from as int);
        let n: usize = gap_from(s, from, Class::Only(':'));
        let p: &[char] = piece(s, from, from + n);
        proof {
            text::lemma_gap(rest, Class::Only(':'));
            assert(p@ =~= rest.take(n as int));
        }
        if !hextet(p) {
            proof {
                if n < rest.len() {
                    lemma_cons_hextets(p@, text::split_on(rest.skip(n + 1), ':'));
                } else {
                    assert(rest.take(n as int) =~= rest);
                    assert(text::split_on(rest, ':')[0] == rest);
                }
            }
            return false;
        }
        if from + n == s.len() {
            proof {
                assert(rest.take(n as int) =~= rest);
                assert(text::split_on(rest, ':') =~= seq![rest]);
            }
            return count >= 2;
        }
        proof {
            lemma_cons_hextets(p@, text::split_on(rest.skip(n + 1), ':'));
            assert(rest.skip(n + 1) =~= s@.skip(from + n + 1));
        }
        from = from + n + 1;
        count += 1;
    }
}

// ---------------------------------------------------------------------------
// Values
// ---------------------------------------------------------------------------
/// `peer=` and a signed integer.
pub open spec fn is_peer_id(s: Seq<char>) -> bool {
    text::starts_with(s, "peer="@) && is_signed_int(s.skip("peer="@.len() as int))
}

/// `height=` and an unsigned integer.
pub open spec fn is_block_height(s: Seq<char>) -> bool {
    text::starts_with(s, "height="@) && is_unsigned_int(s.skip("height="@.len() as int))
}

/// A float or a signed integer, then `unit`.
pub open spec fn is_amount_of(s: Seq<char>, unit: Seq<char>) -> bool {
    &&& text::ends_with(s, unit)
    &&& is_float(s.take(s.len() - unit.len())) || is_signed_int(s.take(s.len() - unit.len()))
}

/// A number with a time unit behind it.
pub open spec fn is_duration(s: Seq<char>) -> bool {
    ||| is_amount_of(s, "μs"@)
    ||| is_amount_of(s, "ns"@)
    ||| is_amount_of(s, "us"@)
    ||| is_amount_of(s, "ms"@)
    ||| is_amount_of(s, "s"@)
    ||| is_amount_of(s, "m"@)
    ||| is_amount_of(s, "h"@)
    ||| is_amount_of(s, "d"@)
}

/// Exactly 64 lower-case hex digits.
pub open spec fn is_hash(s: Seq<char>) -> bool {
    s.len() == 64 && text::all_in(s, Class::LowerHex)
}

/// `0x` and one hex digit or more.
pub open spec fn is_prefixed_hex(s: Seq<char>) -> bool {
    &&& text::starts_with(s, "0x"@)
    &&& s.len() > "0x"@.len()
    &&& text::all_in(s.skip("0x"@.len() as int), Class::HexDigit)
}

/// Prefixed hex, or 8 to 63 hex digits of which one at least is a letter.
pub open spec fn is_hex(s: Seq<char>) -> bool {
    ||| is_prefixed_hex(s)
    ||| 8 <= s.len() <= 63 && text::all_in(s, Class::HexDigit) && text::any_in(s, Class::HexLetter)
}

/// What stands before the last colon of `s`, where there is one.
pub open spec fn host_of(s: Seq<char>) -> Option<Seq<char>> {
    let n = text::last_place(s, Class::Only(':'));
    if n == 0 {
        None
    } else {
        Some(s.take(n - 1))
    }
}

/// The last colon of `s` is followed by a port.
pub open spec fn ends_in_port(s: Seq<char>) -> bool {
    is_port(s.skip(text::last_place(s, Class::Only(':')) as int))
}

pub open spec fn is_ipv4_port(s: Seq<char>) -> bool {
    host_of(s) matches Some(host) && is_ipv4(host) && ends_in_port(s)
}

/// `[`, an IPv6 address, `]:` and a port.
pub open spec fn is_ipv6_port(s: Seq<char>) -> bool {
    &&& s.len() > 0 && s[0] == '['
    &&& {
        let inner = s.skip(1);
        let n = text::gap(inner, Class::Only(']')) as int;
        &&& n < inner.len()
        &&& is_ipv6(inner.take(n))
        &&& n + 1 < inner.len() && inner[n + 1] == ':'
        &&& is_port(inner.skip(n + 2))
    }
}

/// One or more of the base32 letters and digits.
pub open spec fn is_base32(s: Seq<char>) -> bool {
    s.len() > 0 && text::all_in(s, Class::Base32)
}

/// The label of an onion address: 16 or 56 base32 characters.
pub open spec fn is_onion_base(s: Seq<char>) -> bool {
    (s.len() == 16 || s.len() == 56) && is_base32(s)
}

/// The label of an I2P address: 52 base32 characters.
pub open spec fn is_i2p_base(s: Seq<char>) -> bool {
    s.len() == 52 && is_base32(s)
}

pub open spec fn is_onion(s: Seq<char>) -> bool {
    text::ends_with(s, ".onion"@) && is_onion_base(s.take(s.len() - ".onion"@.len()))
}

pub open spec fn is_onion_port(s: Seq<char>) -> bool {
    host_of(s) matches Some(host) && is_onion(host) && ends_in_port(s)
}

pub open spec fn is_i2p(s: Seq<char>) -> bool {
    text::ends_with(s, ".b32.i2p"@) && is_i2p_base(s.take(s.len() - ".b32.i2p"@.len()))
}

pub open spec fn is_i2p_port(s: Seq<char>) -> bool {
    host_of(s) matches Some(host) && is_i2p(host) && ends_in_port(s)
}

/// `prefix` and six or more bech32 characters.
pub open spec fn is_bech32_of(s: Seq<char>, prefix: Seq<char>) -> bool {
    &&& text::starts_with(s, prefix)
    &&& s.len() - prefix.len() >= 6
    &&& text::all_in(s.skip(prefix.len() as int), Class::Bech32)
}

/// A bech32 address of the main, test or regression-test network.
pub open spec fn is_bech32(s: Seq<char>) -> bool {
    is_bech32_of(s, "bc1"@) || is_bech32_of(s, "tb1"@) || is_bech32_of(s, "bcrt1"@)
}

/// 26 to 35 base58 characters of which one at least is a letter.
pub open spec fn is_base58(s: Seq<char>) -> bool {
    26 <= s.len() <= 35 && text::all_in(s, Class::Base58) && text::any_in(s, Class::Letter)
}

/// What follows `prefix` in `s`, where `s` starts with it.
fn after_prefix<'a>(s: &'a [char], prefix: &str) -> (r: Option<&'a [char]>)
    ensures
        r is Some <==> text::starts_with(s@, prefix@),
        r matches Some(t) ==> t@ == s@.skip(prefix@.len() as int),
{
    if has_prefix(s, prefix) {
        let n: usize = text::chars_of(prefix).len();
        Some(piece(s, n, s.len()))
    } else {
        None
    }
}

pub fn recognize_peer_id(s: &[char]) -> (r: bool)
    ensures
        r == is_peer_id(s@),
{
    match after_prefix(s, "peer=") {
        Some(rest) => signed_int(rest),
        None => false,
    }
}

pub fn recognize_block_height(s: &[char]) -> (r: bool)
    ensures
        r == is_block_height(s@),
{
    match after_prefix(s, "height=") {
        Some(rest) => unsigned_int(rest),
        None => false,
    }
}

fn amount_of(s: &[char], unit: &str) -> (r: bool)
    ensures
        r == is_amount_of(s@, unit@),
{
    match before_suffix(s, unit) {
        Some(n) => {
            let num: &[char] = piece(s, 0, n);
            float(num) || signed_int(num)
        },
        None => false,
    }
}

pub fn recognize_duration(s: &[char]) -> (r: bool)
    ensures
        r == is_duration(s@),
{
    amount_of(s, "μs") || amount_of(s, "ns") || amount_of(s, "us") || amount_of(s, "ms")
        || amount_of(s, "s") || amount_of(s, "m") || amount_of(s, "h") || amount_of(s, "d")
}

pub fn recognize_hash(s: &[char]) -> (r: bool)
    ensures
        r == is_hash(s@),
{
    s.len() == 64 && all_chars(s, Class::LowerHex)
}

pub fn recognize_hex(s: &[char]) -> (r: bool)
    ensures
        r == is_hex(s@),
{
    if let Some(rest) = after_prefix(s, "0x") {
        if rest.len() > 0 && all_chars(rest, Class::HexDigit) {
            return true;
        }
    }
    8 <= s.len() && s.len() <= 63 && all_chars(s, Class::HexDigit) && any_char(s, Class::HexLetter)
}

/// The place of the last colon, counted from one, and whether a port follows.
fn host_and_port(s: &[char]) -> (r: Option<&[char]>)
    ensures
        r is Some <==> host_of(s@) is Some && ends_in_port(s@),
        r matches Some(host) ==> host_of(s@) == Some(host@),
{
    let n: usize = last_of(s, Class::Only(':'));
    if n > 0 && port(piece(s, n, s.len())) {
        Some(piece(s, 0, n - 1))
    } else {
        None
    }
}

pub fn recognize_ipv4_port(s: &[char]) -> (r: bool)
    ensures
        r == is_ipv4_port(s@),
{
    match host_and_port(s) {
        Some(host) => ipv4(host),
        None => false,
    }
}

pub fn recognize_ipv6_port(s: &[char]) -> (r: bool)
    ensures
        r == is_ipv6_port(s@),
{
    if s.len() == 0 || s[0] != '[' {
        return false;
    }
    let inner: &[char] = piece(s, 1, s.len());
    proof {
        assert(inner@.skip(0) =~= inner@);
    }
    let n: usize = gap_from(inner, 0, Class::Only(']'));
    if n >= inner.len() || !ipv6(piece(inner, 0, n)) {
        return false;
    }
    if n + 1 >= inner.len() || inner[n + 1] != ':' {
        return false;
    }
    port(piece(inner, n + 2, inner.len()))
}

pub fn base32(s: &[char]) -> (r: bool)
    ensures
        r == is_base32(s@),
{
    s.len() > 0 && all_chars(s, Class::Base32)
}

fn onion_base(s: &[char]) -> (r: bool)
    ensures
        r == is_onion_base(s@),
{
    (s.len() == 16 || s.len() == 56) && base32(s)
}

fn i2p_base(s: &[char]) -> (r: bool)
    ensures
        r == is_i2p_base(s@),
{
    s.len() == 52 && base32(s)
}

pub fn recognize_onion(s: &[char]) -> (r: bool)
    ensures
        r == is_onion(s@),
{
    match before_suffix(s, ".onion") {
        Some(n) => onion_base(piece(s, 0, n)),
        None => false,
    }
}

pub fn recognize_onion_port(s: &[char]) -> (r: bool)
    ensures
        r == is_onion_port(s@),
{
    match host_and_port(s) {
        Some(host) => recognize_onion(host),
        None => false,
    }
}

pub fn recognize_i2p(s: &[char]) -> (r: bool)
    ensures
        r == is_i2p(s@),
{
    match before_suffix(s, ".b32.i2p") {
        Some(n) => i2p_base(piece(s, 0, n)),
        None => false,
    }
}

pub fn recognize_i2p_port(s: &[char]) -> (r: bool)
    ensures
        r == is_i2p_port(s@),
{
    match host_and_port(s) {
        Some(host) => recognize_i2p(host),
        None => false,
    }
}

fn bech32_of(s: &[char], prefix: &str) -> (r: bool)
    ensures
        r == is_bech32_of(s@, prefix@),
{
    match after_prefix(s, prefix) {
        Some(body) => body.len() >= 6 && all_chars(body, Class::Bech32),
        None => false,
    }
}

pub fn recognize_bech32(s: &[char]) -> (r: bool)
    ensures
        r == is_bech32(s@),
{
    bech32_of(s, "bc1") || bech32_of(s, "tb1") || bech32_of(s, "bcrt1")
}

pub fn recognize_base58(s: &[char]) -> (r: bool)
    ensures
        r == is_base58(s@),
{
    26 <= s.len() && s.len() <= 35 && all_chars(s, Class::Base58) && any_char(s, Class::Letter)
}

}
