//! What the tokenizer is for: from the written form of a value to its kind, and
//! back. Each law says of one kind exactly which atoms have it.
use vstd::prelude::*;

use crate::lexical;
use crate::text;
use crate::text::Class;
use crate::tokenizer;
use crate::tokenizer::TokenKind;

verus! {

// ---------------------------------------------------------------------------
// Written forms
// ---------------------------------------------------------------------------
/// One decimal digit or more.
pub open spec fn digits(s: Seq<char>) -> bool {
    s.len() > 0 && forall|i: int| 0 <= i < s.len() ==> '0' <= #[trigger] s[i] <= '9'
}

/// Digits, with a sign before them or without.
pub open spec fn signed(s: Seq<char>) -> bool {
    digits(s) || (s.len() > 0 && (s[0] == '+' || s[0] == '-') && digits(s.skip(1)))
}

/// Digits, then `e` or `E` at the place `k`, then a signed number.
pub open spec fn exponent_at(s: Seq<char>, k: int) -> bool {
    0 < k < s.len() && digits(s.take(k)) && (s[k] == 'e' || s[k] == 'E') && signed(s.skip(k + 1))
}

/// What may follow the dot of a decimal fraction.
pub open spec fn fraction(s: Seq<char>) -> bool {
    digits(s) || exists|k: int| exponent_at(s, k)
}

/// A signed number, a dot at the place `k`, and a fraction.
pub open spec fn decimal_at(s: Seq<char>, k: int) -> bool {
    0 < k < s.len() && signed(s.take(k)) && s[k] == '.' && fraction(s.skip(k + 1))
}

/// A number with a decimal fraction.
pub open spec fn decimal(s: Seq<char>) -> bool {
    exists|k: int| decimal_at(s, k)
}

/// A unit of time.
pub open spec fn unit(s: Seq<char>) -> bool {
    s == "ns"@ || s == "us"@ || s == "μs"@ || s == "ms"@ || s == "s"@ || s == "m"@ || s == "h"@
        || s == "d"@
}

/// A number, then a unit of time from the place `k` on.
pub open spec fn amount_at(s: Seq<char>, k: int) -> bool {
    0 < k < s.len() && (signed(s.take(k)) || decimal(s.take(k))) && unit(s.skip(k))
}

/// A length of time.
pub open spec fn duration(s: Seq<char>) -> bool {
    exists|k: int| amount_at(s, k)
}

/// A whole number up to 65535.
pub open spec fn port(s: Seq<char>) -> bool {
    digits(s) && text::number(s) <= 65535
}

/// One to three digits that write at most 255.
pub open spec fn octet(s: Seq<char>) -> bool {
    digits(s) && s.len() <= 3 && text::number(s) <= 255
}

/// Four octets, with dots at the places `a`, `b` and `c`.
pub open spec fn quad_at(s: Seq<char>, a: int, b: int, c: int) -> bool {
    &&& 0 <= a < b < c < s.len()
    &&& s[a] == '.' && s[b] == '.' && s[c] == '.'
    &&& octet(s.subrange(0, a))
    &&& octet(s.subrange(a + 1, b))
    &&& octet(s.subrange(b + 1, c))
    &&& octet(s.subrange(c + 1, s.len() as int))
}

/// An IPv4 address.
pub open spec fn ipv4(s: Seq<char>) -> bool {
    exists|a: int, b: int, c: int| quad_at(s, a, b, c)
}

/// A hex digit of either case.
pub open spec fn is_hex_digit(c: char) -> bool {
    '0' <= c <= '9' || 'a' <= c <= 'f' || 'A' <= c <= 'F'
}

/// Two colons follow each other at the place `i`.
pub open spec fn pair_at(s: Seq<char>, i: int) -> bool {
    0 <= i && i + 1 < s.len() && s[i] == ':' && s[i + 1] == ':'
}

/// A hex digit stands at the place `i`.
pub open spec fn hex_at(s: Seq<char>, i: int) -> bool {
    0 <= i < s.len() && is_hex_digit(s[i])
}

/// Five hex digits in a row start at the place `i`.
pub open spec fn long_at(s: Seq<char>, i: int) -> bool {
    hex_at(s, i) && hex_at(s, i + 1) && hex_at(s, i + 2) && hex_at(s, i + 3) && hex_at(s, i + 4)
}

/// A colon stands at the place `i`.
pub open spec fn colon_at(s: Seq<char>, i: int) -> bool {
    0 <= i < s.len() && s[i] == ':'
}

/// An IPv6 address: hex digits and colons, two colons or more, no more than four
/// hex digits in a row, and no two double colons apart from each other.
pub open spec fn ipv6(s: Seq<char>) -> bool {
    &&& forall|i: int| 0 <= i < s.len() ==> is_hex_digit(#[trigger] s[i]) || s[i] == ':'
    &&& exists|i: int, j: int| i < j && #[trigger] colon_at(s, i) && #[trigger] colon_at(s, j)
    &&& forall|i: int| !#[trigger] long_at(s, i)
    &&& forall|i: int, j: int|
        i + 2 <= j ==> !(#[trigger] pair_at(s, i) && #[trigger] pair_at(s, j))
}

/// Lower-case hex digits.
pub open spec fn lower_hex(s: Seq<char>) -> bool {
    forall|i: int| 0 <= i < s.len() ==> '0' <= #[trigger] s[i] <= '9' || 'a' <= s[i] <= 'f'
}

/// Hex digits of either case.
pub open spec fn any_hex(s: Seq<char>) -> bool {
    forall|i: int| 0 <= i < s.len() ==> is_hex_digit(#[trigger] s[i])
}

/// The letters and digits of base32.
pub open spec fn base32(s: Seq<char>) -> bool {
    forall|i: int| 0 <= i < s.len() ==> 'a' <= #[trigger] s[i] <= 'z' || '2' <= s[i] <= '7'
}

/// The letters and digits of base58: without `0`, `O`, `I` and `l`.
pub open spec fn base58(s: Seq<char>) -> bool {
    forall|i: int|
        0 <= i < s.len() ==> {
            ||| '1' <= #[trigger] s[i] <= '9'
            ||| 'A' <= s[i] <= 'Z' && s[i] != 'O' && s[i] != 'I'
            ||| 'a' <= s[i] <= 'z' && s[i] != 'l'
        }
}

/// The letters and digits of bech32: without `1`, `b`, `i` and `o`.
pub open spec fn bech32(s: Seq<char>) -> bool {
    forall|i: int|
        0 <= i < s.len() ==> {
            ||| '0' <= #[trigger] s[i] <= '9' && s[i] != '1'
            ||| 'a' <= s[i] <= 'z' && s[i] != 'b' && s[i] != 'i' && s[i] != 'o'
        }
}

/// A letter of ASCII stands at the place `i`.
pub open spec fn letter_at(s: Seq<char>, i: int) -> bool {
    0 <= i < s.len() && ('a' <= s[i] <= 'z' || 'A' <= s[i] <= 'Z')
}

/// The label of an onion address: 16 characters of base32, or 56.
pub open spec fn onion_label(s: Seq<char>) -> bool {
    (s.len() == 16 || s.len() == 56) && base32(s)
}

/// An onion address.
pub open spec fn onion(s: Seq<char>) -> bool {
    s.len() > 6 && s.skip(s.len() - 6) == ".onion"@ && onion_label(s.take(s.len() - 6))
}

/// An I2P address: 52 characters of base32, and its ending.
pub open spec fn i2p(s: Seq<char>) -> bool {
    s.len() == 60 && s.skip(52) == ".b32.i2p"@ && base32(s.take(52))
}

/// A host up to the colon at the place `k`, and a port behind it.
pub open spec fn port_at(s: Seq<char>, k: int) -> bool {
    0 <= k < s.len() && s[k] == ':' && port(s.skip(k + 1))
}

/// A bracketed IPv6 address that ends before the place `k`, and a port.
pub open spec fn bracket_at(s: Seq<char>, k: int) -> bool {
    &&& 0 < k && k + 1 < s.len()
    &&& s[0] == '[' && s[k] == ']' && s[k + 1] == ':'
    &&& ipv6(s.subrange(1, k))
    &&& port(s.skip(k + 2))
}

/// 64 lower-case hex digits.
pub open spec fn hash(s: Seq<char>) -> bool {
    s.len() == 64 && lower_hex(s)
}

/// A bech32 address of the main, the test or the regression-test network.
pub open spec fn bech32_address(s: Seq<char>) -> bool {
    ||| s.len() >= 9 && s.take(3) == "bc1"@ && bech32(s.skip(3))
    ||| s.len() >= 9 && s.take(3) == "tb1"@ && bech32(s.skip(3))
    ||| s.len() >= 11 && s.take(5) == "bcrt1"@ && bech32(s.skip(5))
}

/// Hex digits behind a `0x`, or 8 to 63 of them with a letter among them.
pub open spec fn hex(s: Seq<char>) -> bool {
    ||| s.len() >= 3 && s[0] == '0' && s[1] == 'x' && any_hex(s.skip(2))
    ||| 8 <= s.len() <= 63 && any_hex(s) && exists|i: int| letter_at(s, i)
}

/// 26 to 35 letters and digits of base58, with a letter among them.
pub open spec fn base58_text(s: Seq<char>) -> bool {
    26 <= s.len() <= 35 && base58(s) && exists|i: int| letter_at(s, i)
}

// ---------------------------------------------------------------------------
// Numbers
// ---------------------------------------------------------------------------
proof fn lemma_digits(s: Seq<char>)
    ensures
        lexical::is_unsigned_int(s) == digits(s),
{
    if digits(s) {
        assert forall|i: int| 0 <= i < s.len() implies Class::Digit.has(#[trigger] s[i]) by {}
    }
    if lexical::is_unsigned_int(s) {
        assert forall|i: int| 0 <= i < s.len() implies '0' <= #[trigger] s[i] <= '9' by {
            assert(Class::Digit.has(s[i]));
        }
    }
}

proof fn lemma_signed(s: Seq<char>)
    ensures
        lexical::is_signed_int(s) == signed(s),
{
    lemma_digits(s);
    if s.len() > 0 {
        lemma_digits(s.skip(1));
        if digits(s) {
            assert('0' <= s[0] <= '9');
        }
    }
}

/// The digits at the front of a text are all of them, where something else
/// follows.
proof fn lemma_run_of_digits(s: Seq<char>, k: int)
    requires
        0 <= k <= s.len(),
        k > 0 ==> digits(s.take(k)),
        k < s.len() ==> !('0' <= s[k] <= '9'),
    ensures
        text::run(s, Class::Digit) == k,
{
    assert forall|i: int| 0 <= i < k implies Class::Digit.has(#[trigger] s[i]) by {
        assert(s.take(k)[i] == s[i]);
    }
    text::lemma_run_is(s, Class::Digit, k);
}

proof fn lemma_digits_run(s: Seq<char>)
    ensures
        0 <= text::run(s, Class::Digit) <= s.len(),
        text::run(s, Class::Digit) > 0 ==> digits(s.take(text::run(s, Class::Digit) as int)),
{
    text::lemma_run(s, Class::Digit);
    let n = text::run(s, Class::Digit) as int;
    assert forall|i: int| 0 <= i < n implies '0' <= #[trigger] s.take(n)[i] <= '9' by {
        assert(Class::Digit.has(s[i]));
    }
}

proof fn lemma_fraction(s: Seq<char>)
    ensures
        fraction(s) == (text::run(s, Class::Digit) > 0 && lexical::is_exponent(
            s.skip(text::run(s, Class::Digit) as int),
        )),
{
    let n = text::run(s, Class::Digit) as int;
    lemma_digits_run(s);
    if digits(s) {
        assert(s.take(s.len() as int) =~= s);
        lemma_run_of_digits(s, s.len() as int);
    }
    if exists|k: int| exponent_at(s, k) {
        let k = choose|k: int| exponent_at(s, k);
        lemma_run_of_digits(s, k);
        assert(s.skip(k).skip(1) =~= s.skip(k + 1));
        assert(s.skip(k)[0] == s[k]);
        lemma_signed(s.skip(k + 1));
    }
    if n > 0 && lexical::is_exponent(s.skip(n)) {
        if s.skip(n).len() == 0 {
            assert(s.take(n) =~= s);
        } else {
            assert(s.skip(n)[0] == s[n]);
            assert(s.skip(n).skip(1) =~= s.skip(n + 1));
            lemma_signed(s.skip(n + 1));
            assert(exponent_at(s, n));
        }
    }
}

/// The length of the sign of a number.
spec fn sign_len(s: Seq<char>) -> int {
    if s.len() > 0 && (s[0] == '+' || s[0] == '-') {
        1
    } else {
        0
    }
}

proof fn lemma_decimal(s: Seq<char>)
    ensures
        lexical::is_float(s) == decimal(s),
{
    let g = sign_len(s);
    let t = lexical::after_sign(s);
    assert(t =~= s.skip(g));
    if decimal(s) {
        let k = choose|k: int| decimal_at(s, k);
        let front = s.take(k);
        if g == 1 {
            assert(front[0] == s[0]);
            assert(!digits(front));
            assert(digits(front.skip(1)));
            assert(t.take(k - 1) =~= front.skip(1));
        } else {
            assert(front[0] == s[0]);
            assert(digits(front));
            assert(t.take(k) =~= front);
        }
        assert(t[k - g] == s[k]);
        assert(digits(t.take(k - g)));
        lemma_run_of_digits(t, k - g);
        assert(t.skip(k - g).skip(1) =~= s.skip(k + 1));
        assert(t.skip(k - g)[0] == '.');
        lemma_fraction(s.skip(k + 1));
    }
    if lexical::is_float(s) {
        let n = text::run(t, Class::Digit) as int;
        lemma_digits_run(t);
        let k = g + n;
        assert(t.skip(n)[0] == s[k]);
        assert(t.skip(n).skip(1) =~= s.skip(k + 1));
        lemma_fraction(s.skip(k + 1));
        let front = s.take(k);
        if g == 1 {
            assert(front.skip(1) =~= t.take(n));
            assert(front[0] == s[0]);
        } else {
            assert(front =~= t.take(n));
        }
        assert(decimal_at(s, k));
    }
}

proof fn lemma_amount(s: Seq<char>, u: Seq<char>)
    requires
        unit(u),
        u.len() > 0,
    ensures
        lexical::is_amount_of(s, u) ==> amount_at(s, s.len() - u.len()),
        (exists|k: int| amount_at(s, k) && s.skip(k) == u) ==> lexical::is_amount_of(s, u),
{
    let k = s.len() - u.len();
    if lexical::is_amount_of(s, u) {
        lemma_decimal(s.take(k));
        lemma_signed(s.take(k));
        if k == 0 {
            assert(s.take(k).len() == 0);
            assert(!signed(s.take(k)));
            assert(!decimal(s.take(k)));
        }
    }
    if exists|k: int| amount_at(s, k) && s.skip(k) == u {
        let j = choose|j: int| amount_at(s, j) && s.skip(j) == u;
        assert(s.skip(j).len() == s.len() - j);
        assert(j == k);
        lemma_decimal(s.take(k));
        lemma_signed(s.take(k));
    }
}

proof fn lemma_units()
    ensures
        "ns"@.len() == 2,
        "us"@.len() == 2,
        "μs"@.len() == 2,
        "ms"@.len() == 2,
        "s"@.len() == 1,
        "m"@.len() == 1,
        "h"@.len() == 1,
        "d"@.len() == 1,
        "ns"@[1] == 's',
        "us"@[1] == 's',
        "μs"@[1] == 's',
        "ms"@[1] == 's',
        "s"@[0] == 's',
        "m"@[0] == 'm',
        "h"@[0] == 'h',
        "d"@[0] == 'd',
        "ns"@[0] == 'n',
        "us"@[0] == 'u',
        "μs"@[0] == 'μ',
        "ms"@[0] == 'm',
{
    reveal_strlit("ns");
    reveal_strlit("us");
    reveal_strlit("μs");
    reveal_strlit("ms");
    reveal_strlit("s");
    reveal_strlit("m");
    reveal_strlit("h");
    reveal_strlit("d");
}

proof fn lemma_duration(s: Seq<char>)
    ensures
        lexical::is_duration(s) == duration(s),
{
    lemma_units();
    lemma_amount(s, "ns"@);
    lemma_amount(s, "us"@);
    lemma_amount(s, "μs"@);
    lemma_amount(s, "ms"@);
    lemma_amount(s, "s"@);
    lemma_amount(s, "m"@);
    lemma_amount(s, "h"@);
    lemma_amount(s, "d"@);
    if duration(s) {
        let k = choose|k: int| amount_at(s, k);
        assert(unit(s.skip(k)));
    }
}

/// A character that a number can hold.
spec fn in_number(c: char) -> bool {
    '0' <= c <= '9' || c == '+' || c == '-' || c == '.' || c == 'e' || c == 'E'
}

proof fn lemma_signed_alphabet(s: Seq<char>)
    requires
        signed(s),
    ensures
        s.len() > 0,
        forall|i: int| 0 <= i < s.len() ==> in_number(#[trigger] s[i]),
        '0' <= s.last() <= '9',
        '0' <= s[0] <= '9' || s[0] == '+' || s[0] == '-',
        forall|i: int| 0 < i < s.len() ==> '0' <= #[trigger] s[i] <= '9',
{
    if !digits(s) {
        let t = s.skip(1);
        assert forall|i: int| 0 < i < s.len() implies '0' <= #[trigger] s[i] <= '9' by {
            assert(t[i - 1] == s[i]);
        }
        assert(t.len() > 0);
    }
    assert(s.last() == s[s.len() - 1]);
}

proof fn lemma_decimal_alphabet(s: Seq<char>)
    requires
        decimal(s),
    ensures
        s.len() > 2,
        forall|i: int| 0 <= i < s.len() ==> in_number(#[trigger] s[i]),
        '0' <= s.last() <= '9',
        '0' <= s[0] <= '9' || s[0] == '+' || s[0] == '-',
        exists|k: int| 0 < k < s.len() && #[trigger] s[k] == '.' && forall|i: int|
            0 <= i < s.len() && i != k ==> #[trigger] s[i] != '.',
{
    let k = choose|k: int| decimal_at(s, k);
    let a = s.take(k);
    let b = s.skip(k + 1);
    lemma_signed_alphabet(a);
    assert(a[0] == s[0]);
    assert(b.len() > 0);
    assert forall|i: int| 0 <= i < b.len() implies in_number(#[trigger] b[i]) && b[i] != '.' by {
        if !digits(b) {
            let j = choose|j: int| exponent_at(b, j);
            lemma_signed_alphabet(b.skip(j + 1));
            if i < j {
                assert(b.take(j)[i] == b[i]);
            } else if i > j {
                assert(b.skip(j + 1)[i - j - 1] == b[i]);
            }
        }
    }
    assert('0' <= b.last() <= '9') by {
        if !digits(b) {
            let j = choose|j: int| exponent_at(b, j);
            lemma_signed_alphabet(b.skip(j + 1));
            assert(b.skip(j + 1).last() == b.last());
        }
    }
    assert(s.last() == b.last());
    assert forall|i: int| 0 <= i < s.len() implies in_number(#[trigger] s[i]) && (i != k ==> s[i]
        != '.') by {
        if i < k {
            assert(a[i] == s[i]);
        } else if i > k {
            assert(b[i - k - 1] == s[i]);
        }
    }
    assert(s[k] == '.');
}

/// What a length of time looks like: it starts like a number, ends in the letter
/// of a unit, and holds nothing but both.
proof fn lemma_duration_alphabet(s: Seq<char>)
    requires
        duration(s),
    ensures
        s.len() >= 2,
        '0' <= s[0] <= '9' || s[0] == '+' || s[0] == '-',
        s.last() == 's' || s.last() == 'm' || s.last() == 'h' || s.last() == 'd',
        forall|i: int|
            0 <= i < s.len() ==> in_number(#[trigger] s[i]) || s[i] == 's' || s[i] == 'm' || s[i]
                == 'h' || s[i] == 'd' || s[i] == 'n' || s[i] == 'u' || s[i] == 'μ',
{
    lemma_units();
    let k = choose|k: int| amount_at(s, k);
    let a = s.take(k);
    let u = s.skip(k);
    if signed(a) {
        lemma_signed_alphabet(a);
    } else {
        lemma_decimal_alphabet(a);
    }
    assert(a[0] == s[0]);
    assert(u.last() == s.last());
    assert(unit(u));
    assert forall|i: int| 0 <= i < s.len() implies in_number(#[trigger] s[i]) || s[i] == 's' || s[i]
        == 'm' || s[i] == 'h' || s[i] == 'd' || s[i] == 'n' || s[i] == 'u' || s[i] == 'μ' by {
        if i < k {
            assert(a[i] == s[i]);
        } else {
            assert(u[i - k] == s[i]);
        }
    }
}

/// A length of time among hex digits is a number of days.
proof fn lemma_hex_duration(s: Seq<char>)
    requires
        any_hex(s),
    ensures
        duration(s) <==> s.len() > 1 && s.last() == 'd' && digits(s.drop_last()),
{
    lemma_units();
    let n = s.len() - 1;
    if duration(s) {
        lemma_duration_alphabet(s);
        let k = choose|k: int| amount_at(s, k);
        let a = s.take(k);
        let u = s.skip(k);
        assert(u[0] == s[k]);
        assert(is_hex_digit(s[k]));
        assert(u.last() == s.last());
        assert(is_hex_digit(s[n]));
        assert(u =~= "d"@);
        assert(a =~= s.drop_last());
        if decimal(a) {
            let j = choose|j: int| decimal_at(a, j);
            assert(a[j] == s[j]);
            assert(is_hex_digit(s[j]));
        }
        assert(signed(a));
        assert(is_hex_digit(s[0]));
        assert(a[0] == s[0]);
    }
    if s.len() > 1 && s.last() == 'd' && digits(s.drop_last()) {
        assert(s.take(n) =~= s.drop_last());
        assert(s.skip(n) =~= "d"@);
        assert(amount_at(s, n));
    }
}

// ---------------------------------------------------------------------------
// Addresses
// ---------------------------------------------------------------------------
proof fn lemma_port(s: Seq<char>)
    ensures
        lexical::is_port(s) == port(s),
        lexical::is_octet(s) == octet(s),
{
    lemma_digits(s);
}

/// A host and a port, by the last colon.
proof fn lemma_host_and_port(s: Seq<char>)
    ensures
        lexical::host_of(s) is Some && lexical::ends_in_port(s) ==> {
            let k = lexical::host_of(s)->Some_0.len() as int;
            port_at(s, k) && lexical::host_of(s)->Some_0 == s.take(k)
        },
        forall|k: int| #[trigger]
            port_at(s, k) ==> lexical::host_of(s) == Some(s.take(k)) && lexical::ends_in_port(s),
{
    let n = text::last_place(s, Class::Only(':')) as int;
    text::lemma_last_place(s, Class::Only(':'));
    lemma_port(s.skip(n));
    assert forall|k: int| #[trigger] port_at(s, k) implies lexical::host_of(s) == Some(s.take(k))
        && lexical::ends_in_port(s) by {
        let p = s.skip(k + 1);
        if n > k + 1 {
            assert(p[n - k - 2] == s[n - 1]);
            assert(Class::Only(':').has(s[n - 1]));
        } else if n <= k {
            assert(!Class::Only(':').has(s[k]));
        }
        assert(n == k + 1);
    }
}

proof fn lemma_split_step(s: Seq<char>, c: char, k: int)
    requires
        0 <= k < s.len(),
        s[k] == c,
        forall|i: int| 0 <= i < k ==> #[trigger] s[i] != c,
    ensures
        text::split_on(s, c) == seq![s.take(k)] + text::split_on(s.skip(k + 1), c),
{
    text::lemma_gap_is(s, Class::Only(c), k);
}

proof fn lemma_split_end(s: Seq<char>, c: char)
    requires
        forall|i: int| 0 <= i < s.len() ==> #[trigger] s[i] != c,
    ensures
        text::split_on(s, c) == seq![s],
{
    text::lemma_gap_is(s, Class::Only(c), s.len() as int);
}

/// An octet and a dot before a text are one more piece of it.
proof fn lemma_octet_before(p: Seq<char>, rest: Seq<char>)
    requires
        octet(p),
    ensures
        text::split_on(p + seq!['.'] + rest, '.') == seq![p] + text::split_on(rest, '.'),
{
    let s = p + seq!['.'] + rest;
    let k = p.len() as int;
    assert forall|i: int| 0 <= i < k implies #[trigger] s[i] != '.' by {
        assert(s[i] == p[i]);
    }
    assert(s[k] == '.');
    lemma_split_step(s, '.', k);
    assert(s.take(k) =~= p);
    assert(s.skip(k + 1) =~= rest);
}

proof fn lemma_octets(w: Seq<char>, x: Seq<char>, y: Seq<char>, z: Seq<char>)
    requires
        octet(w),
        octet(x),
        octet(y),
        octet(z),
    ensures
        lexical::is_ipv4(w + seq!['.'] + (x + seq!['.'] + (y + seq!['.'] + z))),
{
    let s3 = y + seq!['.'] + z;
    let s2 = x + seq!['.'] + s3;
    let s = w + seq!['.'] + s2;
    lemma_octet_before(w, s2);
    lemma_octet_before(x, s3);
    lemma_octet_before(y, z);
    lemma_split_end(z, '.');
    let parts = text::split_on(s, '.');
    assert(parts =~= seq![w, x, y, z]);
    lemma_port(w);
    lemma_port(x);
    lemma_port(y);
    lemma_port(z);
}

proof fn lemma_quad(s: Seq<char>, a: int, b: int, c: int)
    requires
        quad_at(s, a, b, c),
    ensures
        lexical::is_ipv4(s),
{
    let w = s.subrange(0, a);
    let x = s.subrange(a + 1, b);
    let y = s.subrange(b + 1, c);
    let z = s.subrange(c + 1, s.len() as int);
    lemma_octets(w, x, y, z);
    assert(s =~= w + seq!['.'] + (x + seq!['.'] + (y + seq!['.'] + z)));
}

/// The first of the pieces of a text, and where the others begin.
proof fn lemma_split_first(s: Seq<char>, c: char) -> (k: int)
    ensures
        0 <= k <= s.len(),
        text::split_on(s, c).len() > 0,
        text::split_on(s, c)[0] == s.take(k),
        forall|i: int| 0 <= i < k ==> #[trigger] s[i] != c,
        k < s.len() ==> s[k] == c && text::split_on(s, c) == seq![s.take(k)] + text::split_on(
            s.skip(k + 1),
            c,
        ),
        k == s.len() ==> text::split_on(s, c) == seq![s],
{
    text::lemma_gap(s, Class::Only(c));
    let k = text::gap(s, Class::Only(c)) as int;
    if k == s.len() {
        assert(s.take(k) =~= s);
    }
    k
}

proof fn lemma_ipv4(s: Seq<char>)
    ensures
        lexical::is_ipv4(s) == ipv4(s),
{
    if ipv4(s) {
        let (a, b, c) = choose|a: int, b: int, c: int| quad_at(s, a, b, c);
        lemma_quad(s, a, b, c);
    }
    if lexical::is_ipv4(s) {
        let parts = text::split_on(s, '.');
        let a = lemma_split_first(s, '.');
        let s1 = s.skip(a + 1);
        let p1 = text::split_on(s1, '.');
        assert(parts[1] == p1[0] && parts[2] == p1[1] && parts[3] == p1[2]);
        let i = lemma_split_first(s1, '.');
        let b = a + 1 + i;
        let s2 = s1.skip(i + 1);
        let p2 = text::split_on(s2, '.');
        assert(p1[1] == p2[0] && p1[2] == p2[1]);
        assert(s2 =~= s.skip(b + 1));
        let j = lemma_split_first(s2, '.');
        let c = b + 1 + j;
        let s3 = s2.skip(j + 1);
        let p3 = text::split_on(s3, '.');
        assert(p2[1] == p3[0]);
        assert(p3.len() == 1);
        let e = lemma_split_first(s3, '.');
        if e < s3.len() {
            let more = lemma_split_first(s3.skip(e + 1), '.');
        }
        assert(e == s3.len());
        assert(lexical::is_octet(parts[0]) && lexical::is_octet(parts[1]) && lexical::is_octet(
            parts[2],
        ) && lexical::is_octet(parts[3]));
        lemma_port(parts[0]);
        lemma_port(parts[1]);
        lemma_port(parts[2]);
        lemma_port(parts[3]);
        assert(s.subrange(0, a) =~= parts[0]);
        assert(s.subrange(a + 1, b) =~= parts[1]);
        assert(s.subrange(b + 1, c) =~= parts[2]);
        assert(s.subrange(c + 1, s.len() as int) =~= parts[3]);
        assert(s1[i] == s[b]);
        assert(s2[j] == s[c]);
        assert(quad_at(s, a, b, c));
    }
}

/// What an IPv4 address looks like.
proof fn lemma_ipv4_alphabet(s: Seq<char>)
    requires
        ipv4(s),
    ensures
        s.len() >= 7,
        forall|i: int| 0 <= i < s.len() ==> '0' <= #[trigger] s[i] <= '9' || s[i] == '.',
        '0' <= s.last() <= '9',
        exists|i: int, j: int|
            0 < i < j < s.len() && #[trigger] s[i] == '.' && #[trigger] s[j] == '.',
{
    let (a, b, c) = choose|a: int, b: int, c: int| quad_at(s, a, b, c);
    let w = s.subrange(0, a);
    let x = s.subrange(a + 1, b);
    let y = s.subrange(b + 1, c);
    let z = s.subrange(c + 1, s.len() as int);
    assert(octet(w) && octet(x) && octet(y) && octet(z));
    assert forall|i: int| 0 <= i < s.len() implies '0' <= #[trigger] s[i] <= '9' || s[i] == '.' by {
        if i < a {
            assert(w[i] == s[i]);
        } else if a < i < b {
            assert(x[i - a - 1] == s[i]);
        } else if b < i < c {
            assert(y[i - b - 1] == s[i]);
        } else if i > c {
            assert(z[i - c - 1] == s[i]);
        }
    }
    assert(z[z.len() - 1] == s.last());
    assert(s[a] == '.' && s[b] == '.');
}

/// No two double colons stand apart from each other.
spec fn no_two_pairs(s: Seq<char>) -> bool {
    forall|i: int, j: int|
        i + 2 <= j ==> !(#[trigger] pair_at(s, i) && #[trigger] pair_at(s, j))
}

spec fn no_pair(s: Seq<char>) -> bool {
    forall|i: int| !#[trigger] pair_at(s, i)
}

proof fn lemma_no_pair(s: Seq<char>)
    ensures
        (lexical::colon_pairs(s) == 0) == no_pair(s),
    decreases s.len(),
{
    if s.len() >= 2 {
        if s[0] == ':' && s[1] == ':' {
            assert(pair_at(s, 0));
        } else {
            let t = s.skip(1);
            lemma_no_pair(t);
            if no_pair(t) {
                assert forall|i: int| !#[trigger] pair_at(s, i) by {
                    if i > 0 {
                        assert(!pair_at(t, i - 1));
                    }
                }
            }
            if no_pair(s) {
                assert forall|i: int| !#[trigger] pair_at(t, i) by {
                    assert(!pair_at(s, i + 1));
                }
            }
        }
    }
}

proof fn lemma_pairs(s: Seq<char>)
    ensures
        (lexical::colon_pairs(s) <= 1) == no_two_pairs(s),
    decreases s.len(),
{
    if s.len() >= 2 {
        if s[0] == ':' && s[1] == ':' {
            let t = s.skip(2);
            assert(pair_at(s, 0));
            lemma_no_pair(t);
            if no_pair(t) {
                assert forall|i: int, j: int| i + 2 <= j implies !(#[trigger] pair_at(s, i)
                    && #[trigger] pair_at(s, j)) by {
                    if j >= 2 {
                        assert(!pair_at(t, j - 2));
                    }
                }
            }
            if no_two_pairs(s) {
                assert forall|i: int| !#[trigger] pair_at(t, i) by {
                    assert(pair_at(t, i) ==> pair_at(s, i + 2));
                }
            }
        } else {
            let t = s.skip(1);
            lemma_pairs(t);
            if no_two_pairs(t) {
                assert forall|i: int, j: int| i + 2 <= j implies !(#[trigger] pair_at(s, i)
                    && #[trigger] pair_at(s, j)) by {
                    if pair_at(s, i) && pair_at(s, j) {
                        assert(i > 0);
                        assert(pair_at(t, i - 1) && pair_at(t, j - 1));
                    }
                }
            }
            if no_two_pairs(s) {
                assert forall|i: int, j: int| i + 2 <= j implies !(#[trigger] pair_at(t, i)
                    && #[trigger] pair_at(t, j)) by {
                    if pair_at(t, i) && pair_at(t, j) {
                        assert(pair_at(s, i + 1) && pair_at(s, j + 1));
                    }
                }
            }
        }
    }
}

spec fn hex_and_colons(s: Seq<char>) -> bool {
    &&& forall|i: int| 0 <= i < s.len() ==> is_hex_digit(#[trigger] s[i]) || s[i] == ':'
    &&& forall|i: int| !#[trigger] long_at(s, i)
}

proof fn lemma_hextet(s: Seq<char>)
    ensures
        lexical::is_hextet(s) == (s.len() <= 4 && any_hex(s)),
{
    if any_hex(s) {
        assert forall|i: int| 0 <= i < s.len() implies Class::HexDigit.has(#[trigger] s[i]) by {
            assert(is_hex_digit(s[i]));
        }
    }
    if lexical::is_hextet(s) {
        assert forall|i: int| 0 <= i < s.len() implies is_hex_digit(#[trigger] s[i]) by {
            assert(Class::HexDigit.has(s[i]));
        }
    }
}

proof fn lemma_cons_all(p: Seq<char>, rest: Seq<Seq<char>>)
    ensures
        lexical::all_hextets(seq![p] + rest) == (lexical::is_hextet(p) && lexical::all_hextets(
            rest,
        )),
{
    let all = seq![p] + rest;
    if lexical::all_hextets(all) {
        assert(lexical::is_hextet(all[0]));
        assert forall|i: int| 0 <= i < rest.len() implies lexical::is_hextet(
            #[trigger] rest[i],
        ) by {
            assert(all[i + 1] == rest[i]);
        }
    }
    if lexical::is_hextet(p) && lexical::all_hextets(rest) {
        assert forall|i: int| 0 <= i < all.len() implies lexical::is_hextet(#[trigger] all[i]) by {
            if i > 0 {
                assert(all[i] == rest[i - 1]);
            }
        }
    }
}

proof fn lemma_groups(s: Seq<char>)
    ensures
        lexical::all_hextets(text::split_on(s, ':')) == hex_and_colons(s),
    decreases s.len(),
{
    let k = lemma_split_first(s, ':');
    let p = s.take(k);
    lemma_hextet(p);
    if k == s.len() {
        assert(p =~= s);
        let none = Seq::<Seq<char>>::empty();
        assert(seq![s] =~= seq![p] + none);
        lemma_cons_all(p, none);
        assert(lexical::all_hextets(none));
        if s.len() <= 4 && any_hex(s) {
            assert forall|i: int| !#[trigger] long_at(s, i) by {}
        }
        if hex_and_colons(s) {
            assert forall|i: int| 0 <= i < s.len() implies is_hex_digit(#[trigger] s[i]) by {}
            if s.len() > 4 {
                assert(is_hex_digit(s[0]) && is_hex_digit(s[1]) && is_hex_digit(s[2])
                    && is_hex_digit(s[3]) && is_hex_digit(s[4]));
                assert(hex_at(s, 0) && hex_at(s, 1) && hex_at(s, 2) && hex_at(s, 3)
                    && hex_at(s, 4));
                assert(long_at(s, 0));
            }
        }
    } else {
        let t = s.skip(k + 1);
        lemma_groups(t);
        lemma_cons_all(p, text::split_on(t, ':'));
        if p.len() <= 4 && any_hex(p) && hex_and_colons(t) {
            assert forall|i: int| 0 <= i < s.len() implies is_hex_digit(#[trigger] s[i]) || s[i]
                == ':' by {
                if i < k {
                    assert(p[i] == s[i]);
                } else if i > k {
                    assert(t[i - k - 1] == s[i]);
                }
            }
            assert forall|i: int| !#[trigger] long_at(s, i) by {
                if long_at(s, i) {
                    assert(hex_at(s, i) && hex_at(s, i + 1) && hex_at(s, i + 2) && hex_at(s, i + 3)
                        && hex_at(s, i + 4));
                    if i > k {
                        assert(t[i - k - 1] == s[i]);
                        assert(long_at(t, i - k - 1));
                    } else {
                        assert(i + 4 >= k);
                        assert(s[k] == ':');
                    }
                }
            }
        }
        if hex_and_colons(s) {
            assert forall|i: int| 0 <= i < p.len() implies is_hex_digit(#[trigger] p[i]) by {
                assert(p[i] == s[i]);
            }
            if p.len() > 4 {
                assert(is_hex_digit(s[0]) && is_hex_digit(s[1]) && is_hex_digit(s[2])
                    && is_hex_digit(s[3]) && is_hex_digit(s[4]));
                assert(hex_at(s, 0) && hex_at(s, 1) && hex_at(s, 2) && hex_at(s, 3)
                    && hex_at(s, 4));
                assert(long_at(s, 0));
            }
            assert forall|i: int| 0 <= i < t.len() implies is_hex_digit(#[trigger] t[i]) || t[i]
                == ':' by {
                assert(t[i] == s[i + k + 1]);
            }
            assert forall|i: int| !#[trigger] long_at(t, i) by {
                if long_at(t, i) {
                    let j = i + k + 1;
                    assert(hex_at(s, j) && hex_at(s, j + 1) && hex_at(s, j + 2) && hex_at(s, j + 3)
                        && hex_at(s, j + 4));
                    assert(long_at(s, j));
                }
            }
        }
    }
}

proof fn lemma_ipv6(s: Seq<char>)
    ensures
        lexical::is_ipv6(s) == ipv6(s),
{
    lemma_pairs(s);
    lemma_groups(s);
    let parts = text::split_on(s, ':');
    let i = lemma_split_first(s, ':');
    if i < s.len() {
        let t = s.skip(i + 1);
        let j = lemma_split_first(t, ':');
        if j < t.len() {
            let more = lemma_split_first(t.skip(j + 1), ':');
            assert(t[j] == s[i + 1 + j]);
            assert(colon_at(s, i) && colon_at(s, i + 1 + j));
        } else {
            assert forall|x: int, y: int| x < y implies !(#[trigger] colon_at(s, x)
                && #[trigger] colon_at(s, y)) by {
                if colon_at(s, x) && colon_at(s, y) {
                    if x < i {
                        assert(s[x] != ':');
                    }
                    assert(t[y - i - 1] == s[y]);
                }
            }
        }
    } else {
        assert forall|x: int| !#[trigger] colon_at(s, x) by {}
    }
}

proof fn lemma_ipv6_port(s: Seq<char>)
    ensures
        lexical::is_ipv6_port(s) == (exists|k: int| bracket_at(s, k)),
{
    if exists|k: int| bracket_at(s, k) {
        let k = choose|k: int| bracket_at(s, k);
        let inner = s.skip(1);
        let host = s.subrange(1, k);
        assert forall|i: int| 0 <= i < k - 1 implies !Class::Only(']').has(
            #[trigger] inner[i],
        ) by {
            assert(host[i] == inner[i]);
        }
        assert(inner[k - 1] == s[k]);
        text::lemma_gap_is(inner, Class::Only(']'), k - 1);
        assert(inner.take(k - 1) =~= host);
        assert(inner[k] == s[k + 1]);
        assert(inner.skip(k + 1) =~= s.skip(k + 2));
        lemma_ipv6(host);
        lemma_port(s.skip(k + 2));
    }
    if lexical::is_ipv6_port(s) {
        let inner = s.skip(1);
        let n = text::gap(inner, Class::Only(']')) as int;
        text::lemma_gap(inner, Class::Only(']'));
        let k = n + 1;
        assert(s.subrange(1, k) =~= inner.take(n));
        assert(inner[n] == s[k]);
        assert(inner[n + 1] == s[k + 1]);
        assert(inner.skip(n + 2) =~= s.skip(k + 2));
        lemma_ipv6(s.subrange(1, k));
        lemma_port(s.skip(k + 2));
        assert(bracket_at(s, k));
    }
}

proof fn lemma_base32(s: Seq<char>)
    requires
        s.len() > 0,
    ensures
        lexical::is_base32(s) == base32(s),
{
    if base32(s) {
        assert forall|i: int| 0 <= i < s.len() implies Class::Base32.has(#[trigger] s[i]) by {}
    }
    if lexical::is_base32(s) {
        assert forall|i: int| 0 <= i < s.len() implies 'a' <= #[trigger] s[i] <= 'z' || '2' <= s[i]
            <= '7' by {
            assert(Class::Base32.has(s[i]));
        }
    }
}

proof fn lemma_labels(s: Seq<char>)
    ensures
        lexical::is_onion(s) == onion(s),
        lexical::is_i2p(s) == i2p(s),
{
    reveal_strlit(".onion");
    reveal_strlit(".b32.i2p");
    assert(".onion"@.len() == 6);
    assert(".b32.i2p"@.len() == 8);
    if s.len() > 6 {
        lemma_base32(s.take(s.len() - 6));
    }
    if s.len() > 8 {
        lemma_base32(s.take(s.len() - 8));
    }
}

// ---------------------------------------------------------------------------
// Rows of letters and digits
// ---------------------------------------------------------------------------
proof fn lemma_hash(s: Seq<char>)
    ensures
        lexical::is_hash(s) == hash(s),
{
    if lower_hex(s) {
        assert forall|i: int| 0 <= i < s.len() implies Class::LowerHex.has(#[trigger] s[i]) by {}
    }
    if lexical::is_hash(s) {
        assert forall|i: int| 0 <= i < s.len() implies '0' <= #[trigger] s[i] <= '9' || 'a' <= s[i]
            <= 'f' by {
            assert(Class::LowerHex.has(s[i]));
        }
    }
}

proof fn lemma_any_hex(s: Seq<char>)
    ensures
        text::all_in(s, Class::HexDigit) == any_hex(s),
{
    if any_hex(s) {
        assert forall|i: int| 0 <= i < s.len() implies Class::HexDigit.has(#[trigger] s[i]) by {
            assert(is_hex_digit(s[i]));
        }
    }
    if text::all_in(s, Class::HexDigit) {
        assert forall|i: int| 0 <= i < s.len() implies is_hex_digit(#[trigger] s[i]) by {
            assert(Class::HexDigit.has(s[i]));
        }
    }
}

proof fn lemma_hex(s: Seq<char>)
    ensures
        lexical::is_hex(s) == hex(s),
{
    reveal_strlit("0x");
    assert("0x"@.len() == 2);
    lemma_any_hex(s);
    if s.len() >= 2 {
        lemma_any_hex(s.skip(2));
        assert(s.take(2)[0] == s[0] && s.take(2)[1] == s[1]);
        if s[0] == '0' && s[1] == 'x' {
            assert(s.take(2) =~= "0x"@);
        }
    }
    if any_hex(s) && text::any_in(s, Class::HexLetter) {
        let i = choose|i: int| 0 <= i < s.len() && Class::HexLetter.has(#[trigger] s[i]);
        assert(letter_at(s, i));
    }
    if any_hex(s) && exists|i: int| letter_at(s, i) {
        let i = choose|i: int| letter_at(s, i);
        assert(is_hex_digit(s[i]));
        assert(Class::HexLetter.has(s[i]));
    }
}

proof fn lemma_base58(s: Seq<char>)
    ensures
        lexical::is_base58(s) == base58_text(s),
{
    if base58(s) {
        assert forall|i: int| 0 <= i < s.len() implies Class::Base58.has(#[trigger] s[i]) by {}
    }
    if text::all_in(s, Class::Base58) {
        assert forall|i: int| 0 <= i < s.len() implies {
            ||| '1' <= #[trigger] s[i] <= '9'
            ||| 'A' <= s[i] <= 'Z' && s[i] != 'O' && s[i] != 'I'
            ||| 'a' <= s[i] <= 'z' && s[i] != 'l'
        } by {
            assert(Class::Base58.has(s[i]));
        }
    }
    if text::any_in(s, Class::Letter) {
        let i = choose|i: int| 0 <= i < s.len() && Class::Letter.has(#[trigger] s[i]);
        assert(letter_at(s, i));
    }
    if exists|i: int| letter_at(s, i) {
        let i = choose|i: int| letter_at(s, i);
        assert(Class::Letter.has(s[i]));
    }
}

proof fn lemma_bech32_chars(s: Seq<char>)
    ensures
        text::all_in(s, Class::Bech32) == bech32(s),
{
    if bech32(s) {
        assert forall|i: int| 0 <= i < s.len() implies Class::Bech32.has(#[trigger] s[i]) by {}
    }
    if text::all_in(s, Class::Bech32) {
        assert forall|i: int| 0 <= i < s.len() implies {
            ||| '0' <= #[trigger] s[i] <= '9' && s[i] != '1'
            ||| 'a' <= s[i] <= 'z' && s[i] != 'b' && s[i] != 'i' && s[i] != 'o'
        } by {
            assert(Class::Bech32.has(s[i]));
        }
    }
}

proof fn lemma_bech32(s: Seq<char>)
    ensures
        lexical::is_bech32(s) == bech32_address(s),
        bech32_address(s) ==> s[0] == 'b' || s[0] == 't',
        bech32_address(s) ==> forall|i: int|
            0 <= i < s.len() ==> '0' <= #[trigger] s[i] <= '9' || 'a' <= s[i] <= 'z',
{
    reveal_strlit("bc1");
    reveal_strlit("tb1");
    reveal_strlit("bcrt1");
    assert("bc1"@.len() == 3 && "tb1"@.len() == 3 && "bcrt1"@.len() == 5);
    if s.len() >= 3 {
        lemma_bech32_chars(s.skip(3));
        assert(s.take(3)[0] == s[0] && s.take(3)[1] == s[1] && s.take(3)[2] == s[2]);
    }
    if s.len() >= 5 {
        lemma_bech32_chars(s.skip(5));
        let t = s.take(5);
        assert(t[0] == s[0] && t[1] == s[1] && t[2] == s[2] && t[3] == s[3] && t[4] == s[4]);
    }
    if bech32_address(s) {
        assert forall|i: int| 0 <= i < s.len() implies '0' <= #[trigger] s[i] <= '9' || 'a' <= s[i]
            <= 'z' by {
            if i >= 3 {
                assert(s.skip(3)[i - 3] == s[i]);
            }
            if i >= 5 {
                assert(s.skip(5)[i - 5] == s[i]);
            }
        }
    }
}

// ---------------------------------------------------------------------------
// Which form has which kind
// ---------------------------------------------------------------------------
/// A peer id: `peer=` and a signed number.
pub open spec fn peer(s: Seq<char>) -> bool {
    s.len() > 5 && s.take(5) == "peer="@ && signed(s.skip(5))
}

/// A block height: `height=` and digits.
pub open spec fn height(s: Seq<char>) -> bool {
    s.len() > 7 && s.take(7) == "height="@ && digits(s.skip(7))
}

/// A bracketed IPv6 address with a port.
pub open spec fn ipv6_port(s: Seq<char>) -> bool {
    exists|k: int| bracket_at(s, k)
}

/// An IPv4 address, and a port behind the colon at the place `k`.
pub open spec fn ipv4_port_at(s: Seq<char>, k: int) -> bool {
    port_at(s, k) && ipv4(s.take(k))
}

/// An IPv4 address with a port.
pub open spec fn ipv4_port(s: Seq<char>) -> bool {
    exists|k: int| ipv4_port_at(s, k)
}

/// An onion address, and a port behind the colon at the place `k`.
pub open spec fn onion_port_at(s: Seq<char>, k: int) -> bool {
    port_at(s, k) && onion(s.take(k))
}

/// An onion address with a port.
pub open spec fn onion_port(s: Seq<char>) -> bool {
    exists|k: int| onion_port_at(s, k)
}

/// An I2P address, and a port behind the colon at the place `k`.
pub open spec fn i2p_port_at(s: Seq<char>, k: int) -> bool {
    port_at(s, k) && i2p(s.take(k))
}

/// An I2P address with a port.
pub open spec fn i2p_port(s: Seq<char>) -> bool {
    exists|k: int| i2p_port_at(s, k)
}

proof fn lemma_names(s: Seq<char>)
    ensures
        lexical::is_peer_id(s) == peer(s),
        lexical::is_block_height(s) == height(s),
        peer(s) ==> s[4] == '=' && s[0] == 'p',
        height(s) ==> s[6] == '=' && s[0] == 'h',
{
    reveal_strlit("peer=");
    reveal_strlit("height=");
    assert("peer="@.len() == 5);
    assert("height="@.len() == 7);
    if s.len() >= 5 {
        lemma_signed(s.skip(5));
        assert(s.take(5)[4] == s[4] && s.take(5)[0] == s[0]);
        if s.len() == 5 {
            assert(!signed(s.skip(5)));
        }
    }
    if s.len() >= 7 {
        lemma_digits(s.skip(7));
        assert(s.take(7)[6] == s[6] && s.take(7)[0] == s[0]);
    }
}

proof fn lemma_ports(s: Seq<char>)
    ensures
        lexical::is_ipv4_port(s) == ipv4_port(s),
        lexical::is_onion_port(s) == onion_port(s),
        lexical::is_i2p_port(s) == i2p_port(s),
{
    lemma_host_and_port(s);
    if lexical::host_of(s) is Some && lexical::ends_in_port(s) {
        let k = lexical::host_of(s)->Some_0.len() as int;
        lemma_ipv4(s.take(k));
        lemma_labels(s.take(k));
        assert(port_at(s, k));
        assert(lexical::is_ipv4_port(s) ==> ipv4_port_at(s, k));
        assert(lexical::is_onion_port(s) ==> onion_port_at(s, k));
        assert(lexical::is_i2p_port(s) ==> i2p_port_at(s, k));
    }
    if ipv4_port(s) {
        let k = choose|k: int| ipv4_port_at(s, k);
        assert(port_at(s, k));
        lemma_ipv4(s.take(k));
    }
    if onion_port(s) {
        let k = choose|k: int| onion_port_at(s, k);
        assert(port_at(s, k));
        lemma_labels(s.take(k));
    }
    if i2p_port(s) {
        let k = choose|k: int| i2p_port_at(s, k);
        assert(port_at(s, k));
        lemma_labels(s.take(k));
    }
}

/// The forms in the order in which they are tried.
spec fn kind_by_form(s: Seq<char>, peek: Option<Seq<char>>) -> Option<TokenKind> {
    if peer(s) {
        Some(TokenKind::PeerId)
    } else if height(s) {
        Some(TokenKind::BlockHeight)
    } else if digits(s) && peek == Some("bytes"@) {
        Some(TokenKind::ByteCount)
    } else if duration(s) {
        Some(TokenKind::Duration)
    } else if hash(s) {
        Some(TokenKind::Hash)
    } else if ipv6_port(s) {
        Some(TokenKind::Ipv6Port)
    } else if ipv6(s) {
        Some(TokenKind::Ipv6)
    } else if ipv4_port(s) {
        Some(TokenKind::Ipv4Port)
    } else if ipv4(s) {
        Some(TokenKind::Ipv4)
    } else if onion_port(s) {
        Some(TokenKind::OnionPort)
    } else if onion(s) {
        Some(TokenKind::Onion)
    } else if i2p_port(s) {
        Some(TokenKind::I2PPort)
    } else if i2p(s) {
        Some(TokenKind::I2P)
    } else if bech32_address(s) {
        Some(TokenKind::Bech32)
    } else if hex(s) {
        Some(TokenKind::Hex)
    } else if base58_text(s) {
        Some(TokenKind::Base58)
    } else if decimal(s) {
        Some(TokenKind::Float)
    } else if signed(s) {
        Some(TokenKind::Int)
    } else {
        None
    }
}

proof fn lemma_kind(s: Seq<char>, peek: Option<Seq<char>>)
    ensures
        tokenizer::kind_of(s, peek) == kind_by_form(s, peek),
{
    lemma_names(s);
    lemma_digits(s);
    lemma_signed(s);
    lemma_decimal(s);
    lemma_duration(s);
    lemma_hash(s);
    lemma_ipv6_port(s);
    lemma_ipv6(s);
    lemma_ports(s);
    lemma_ipv4(s);
    lemma_labels(s);
    lemma_bech32(s);
    lemma_hex(s);
    lemma_base58(s);
}

/// A name with `=` is none of the other forms.
proof fn lemma_no_name(s: Seq<char>)
    requires
        forall|i: int| 0 <= i < s.len() ==> #[trigger] s[i] != '=',
    ensures
        !peer(s),
        !height(s),
{
    lemma_names(s);
}

/// What ends in a digit or a letter other than those of the units is no length
/// of time.
proof fn lemma_no_duration(s: Seq<char>, i: int)
    requires
        0 <= i < s.len(),
        !in_number(s[i]),
        s[i] != 's' && s[i] != 'm' && s[i] != 'h' && s[i] != 'd' && s[i] != 'n' && s[i] != 'u'
            && s[i] != 'μ',
    ensures
        !duration(s),
        !digits(s),
        !signed(s),
        !decimal(s),
{
    if duration(s) {
        lemma_duration_alphabet(s);
    }
    if signed(s) {
        lemma_signed_alphabet(s);
    }
    if decimal(s) {
        lemma_decimal_alphabet(s);
    }
}

/// `peer=` and a signed number is a peer id, and nothing else is.
pub proof fn law_peer_ids(s: Seq<char>, peek: Option<Seq<char>>)
    ensures
        tokenizer::kind_of(s, peek) == Some(TokenKind::PeerId) <==> peer(s),
{
    lemma_kind(s, peek);
}

/// `height=` and digits is a block height, and nothing else is.
pub proof fn law_block_heights(s: Seq<char>, peek: Option<Seq<char>>)
    ensures
        tokenizer::kind_of(s, peek) == Some(TokenKind::BlockHeight) <==> height(s),
{
    lemma_kind(s, peek);
    lemma_names(s);
}

/// Digits with the word `bytes` behind them are a byte count, and nothing else
/// is.
pub proof fn law_byte_counts(s: Seq<char>, peek: Option<Seq<char>>)
    ensures
        tokenizer::kind_of(s, peek) == Some(TokenKind::ByteCount) <==> digits(s) && peek == Some(
            "bytes"@,
        ),
{
    lemma_kind(s, peek);
    if digits(s) {
        lemma_no_name(s);
    }
}

/// A number and a unit of time is a duration, and nothing else is.
pub proof fn law_durations(s: Seq<char>, peek: Option<Seq<char>>)
    ensures
        tokenizer::kind_of(s, peek) == Some(TokenKind::Duration) <==> duration(s),
{
    lemma_kind(s, peek);
    if duration(s) {
        lemma_duration_alphabet(s);
        lemma_no_name(s);
        assert(s.last() == s[s.len() - 1]);
    }
}

/// 64 lower-case hex digits are a hash, and nothing else is; but for digits with
/// a `d` behind them, which are a number of days, and for digits before the
/// word `bytes`.
pub proof fn law_hashes(s: Seq<char>, peek: Option<Seq<char>>)
    ensures
        tokenizer::kind_of(s, peek) == Some(TokenKind::Hash) <==> {
            &&& hash(s)
            &&& !(s.last() == 'd' && digits(s.drop_last()))
            &&& !(digits(s) && peek == Some("bytes"@))
        },
{
    lemma_kind(s, peek);
    if hash(s) {
        lemma_no_name(s);
        assert forall|i: int| 0 <= i < s.len() implies is_hex_digit(#[trigger] s[i]) by {}
        lemma_hex_duration(s);
    }
}

/// A bracketed IPv6 address with a port is that, and nothing else is.
pub proof fn law_ipv6_addresses_with_ports(s: Seq<char>, peek: Option<Seq<char>>)
    ensures
        tokenizer::kind_of(s, peek) == Some(TokenKind::Ipv6Port) <==> ipv6_port(s),
{
    lemma_kind(s, peek);
    if ipv6_port(s) {
        lemma_names(s);
        lemma_no_duration(s, 0);
    }
}

/// An IPv6 address is that, and nothing else is.
pub proof fn law_ipv6_addresses(s: Seq<char>, peek: Option<Seq<char>>)
    ensures
        tokenizer::kind_of(s, peek) == Some(TokenKind::Ipv6) <==> ipv6(s),
{
    lemma_kind(s, peek);
    if ipv6(s) {
        let (i, j) = choose|i: int, j: int|
            i < j && #[trigger] colon_at(s, i) && #[trigger] colon_at(s, j);
        lemma_no_name(s);
        lemma_no_duration(s, i);
        assert(!hash(s));
        assert(is_hex_digit(s[0]) || s[0] == ':');
    }
}

/// What stands around the colon of a host with a port.
proof fn lemma_port_alphabet(s: Seq<char>, k: int)
    requires
        port_at(s, k),
    ensures
        forall|i: int| k < i < s.len() ==> '0' <= #[trigger] s[i] <= '9',
        s[k] == ':',
        k + 1 < s.len(),
        '0' <= s.last() <= '9',
{
    let p = s.skip(k + 1);
    assert forall|i: int| k < i < s.len() implies '0' <= #[trigger] s[i] <= '9' by {
        assert(p[i - k - 1] == s[i]);
    }
    assert(p.len() > 0);
    assert(s.last() == s[s.len() - 1]);
}

proof fn lemma_ipv4_port_alphabet(s: Seq<char>)
    requires
        ipv4_port(s),
    ensures
        s.len() > 8,
        forall|i: int|
            0 <= i < s.len() ==> '0' <= #[trigger] s[i] <= '9' || s[i] == '.' || s[i] == ':',
        exists|i: int| colon_at(s, i),
        exists|i: int| 0 <= i < s.len() && #[trigger] s[i] == '.',
{
    let k = choose|k: int| ipv4_port_at(s, k);
    let h = s.take(k);
    lemma_port_alphabet(s, k);
    lemma_ipv4_alphabet(h);
    assert forall|i: int| 0 <= i < s.len() implies '0' <= #[trigger] s[i] <= '9' || s[i] == '.'
        || s[i] == ':' by {
        if i < k {
            assert(h[i] == s[i]);
        }
    }
    assert(colon_at(s, k));
    let (i, j) = choose|i: int, j: int|
        0 < i < j < h.len() && #[trigger] h[i] == '.' && #[trigger] h[j] == '.';
    assert(s[i] == h[i]);
}

/// An IPv4 address with a port is that, and nothing else is.
pub proof fn law_ipv4_addresses_with_ports(s: Seq<char>, peek: Option<Seq<char>>)
    ensures
        tokenizer::kind_of(s, peek) == Some(TokenKind::Ipv4Port) <==> ipv4_port(s),
{
    lemma_kind(s, peek);
    if ipv4_port(s) {
        lemma_ipv4_port_alphabet(s);
        lemma_no_name(s);
        let i = choose|i: int| colon_at(s, i);
        lemma_no_duration(s, i);
        assert(!hash(s));
        assert('0' <= s[0] <= '9' || s[0] == '.' || s[0] == ':');
        let j = choose|j: int| 0 <= j < s.len() && #[trigger] s[j] == '.';
        assert(!ipv6(s));
    }
}

/// An IPv4 address is that, and nothing else is.
pub proof fn law_ipv4_addresses(s: Seq<char>, peek: Option<Seq<char>>)
    ensures
        tokenizer::kind_of(s, peek) == Some(TokenKind::Ipv4) <==> ipv4(s),
{
    lemma_kind(s, peek);
    if ipv4(s) {
        lemma_ipv4_alphabet(s);
        lemma_no_name(s);
        if duration(s) {
            lemma_duration_alphabet(s);
        }
        let (i, j) = choose|i: int, j: int|
            0 < i < j < s.len() && #[trigger] s[i] == '.' && #[trigger] s[j] == '.';
        assert(!digits(s));
        assert(!hash(s));
        assert('0' <= s[0] <= '9' || s[0] == '.');
        assert(!ipv6(s));
        if ipv4_port(s) {
            let k = choose|k: int| ipv4_port_at(s, k);
            assert(s[k] == ':');
        }
    }
}

/// What an onion address looks like.
proof fn lemma_onion_alphabet(s: Seq<char>)
    requires
        onion(s),
    ensures
        s.len() == 22 || s.len() == 62,
        s[s.len() - 6] == '.',
        s[s.len() - 4] == 'n',
        s[s.len() - 3] == 'i',
        s[s.len() - 5] == 'o',
        s.last() == 'n',
        forall|i: int|
            0 <= i < s.len() ==> 'a' <= #[trigger] s[i] <= 'z' || '2' <= s[i] <= '7' || s[i]
                == '.',
{
    reveal_strlit(".onion");
    let n = s.len() - 6;
    let e = s.skip(n);
    let b = s.take(n);
    assert(e[0] == s[n] && e[1] == s[n + 1] && e[2] == s[n + 2] && e[3] == s[n + 3] && e[4] == s[n
        + 4] && e[5] == s[n + 5]);
    assert forall|i: int| 0 <= i < s.len() implies 'a' <= #[trigger] s[i] <= 'z' || '2' <= s[i]
        <= '7' || s[i] == '.' by {
        if i < n {
            assert(b[i] == s[i]);
        }
    }
}

/// What an I2P address looks like.
proof fn lemma_i2p_alphabet(s: Seq<char>)
    requires
        i2p(s),
    ensures
        s.len() == 60,
        s[52] == '.',
        s[56] == '.',
        s[57] == 'i',
        s.last() == 'p',
        forall|i: int|
            0 <= i < s.len() ==> 'a' <= #[trigger] s[i] <= 'z' || '2' <= s[i] <= '7' || s[i]
                == '.',
{
    reveal_strlit(".b32.i2p");
    let e = s.skip(52);
    let b = s.take(52);
    assert(e[0] == s[52] && e[1] == s[53] && e[2] == s[54] && e[3] == s[55] && e[4] == s[56] && e[5]
        == s[57] && e[6] == s[58] && e[7] == s[59]);
    assert forall|i: int| 0 <= i < s.len() implies 'a' <= #[trigger] s[i] <= 'z' || '2' <= s[i]
        <= '7' || s[i] == '.' by {
        if i < 52 {
            assert(b[i] == s[i]);
        }
    }
}

/// A label of 16 or 56 characters of base32 and `.onion` is an onion address,
/// and nothing else is.
pub proof fn law_onion_addresses(s: Seq<char>, peek: Option<Seq<char>>)
    ensures
        tokenizer::kind_of(s, peek) == Some(TokenKind::Onion) <==> onion(s),
{
    lemma_kind(s, peek);
    if onion(s) {
        lemma_onion_alphabet(s);
        let n = s.len() - 6;
        lemma_no_name(s);
        lemma_no_duration(s, n + 3);
        assert(!hash(s));
        assert('a' <= s[0] <= 'z' || '2' <= s[0] <= '7' || s[0] == '.');
        assert(!ipv6(s));
        if ipv4(s) {
            lemma_ipv4_alphabet(s);
        }
        if ipv4_port(s) {
            lemma_ipv4_port_alphabet(s);
        }
        if onion_port(s) {
            let k = choose|k: int| onion_port_at(s, k);
            assert(s[k] == ':');
        }
    }
}

/// An onion address with a port is that, and nothing else is.
pub proof fn law_onion_addresses_with_ports(s: Seq<char>, peek: Option<Seq<char>>)
    ensures
        tokenizer::kind_of(s, peek) == Some(TokenKind::OnionPort) <==> onion_port(s),
{
    lemma_kind(s, peek);
    if onion_port(s) {
        let k = choose|k: int| onion_port_at(s, k);
        let h = s.take(k);
        lemma_onion_alphabet(h);
        lemma_port_alphabet(s, k);
        assert(s[k - 3] == h[k - 3]);
        assert forall|i: int| 0 <= i < s.len() implies #[trigger] s[i] != '=' && s[i] != '[' by {
            if i < k {
                assert(h[i] == s[i]);
            }
        }
        lemma_no_name(s);
        lemma_no_duration(s, k);
        assert(!hash(s));
        assert(!ipv6(s));
        if ipv4(s) {
            lemma_ipv4_alphabet(s);
        }
        if ipv4_port(s) {
            lemma_ipv4_port_alphabet(s);
        }
        assert(s[0] != '[');
    }
}

/// A label of 52 characters of base32 and `.b32.i2p` is an I2P address, and
/// nothing else is.
pub proof fn law_i2p_addresses(s: Seq<char>, peek: Option<Seq<char>>)
    ensures
        tokenizer::kind_of(s, peek) == Some(TokenKind::I2P) <==> i2p(s),
{
    lemma_kind(s, peek);
    if i2p(s) {
        lemma_i2p_alphabet(s);
        lemma_no_name(s);
        lemma_no_duration(s, 57);
        assert(!hash(s));
        assert('a' <= s[0] <= 'z' || '2' <= s[0] <= '7' || s[0] == '.');
        assert(!ipv6(s));
        if ipv4(s) {
            lemma_ipv4_alphabet(s);
        }
        if ipv4_port(s) {
            lemma_ipv4_port_alphabet(s);
        }
        if onion(s) {
            lemma_onion_alphabet(s);
        }
        if onion_port(s) {
            let k = choose|k: int| onion_port_at(s, k);
            assert(s[k] == ':');
        }
        if i2p_port(s) {
            let k = choose|k: int| i2p_port_at(s, k);
            assert(s[k] == ':');
        }
    }
}

/// An I2P address with a port is that, and nothing else is.
pub proof fn law_i2p_addresses_with_ports(s: Seq<char>, peek: Option<Seq<char>>)
    ensures
        tokenizer::kind_of(s, peek) == Some(TokenKind::I2PPort) <==> i2p_port(s),
{
    lemma_kind(s, peek);
    if i2p_port(s) {
        let k = choose|k: int| i2p_port_at(s, k);
        let h = s.take(k);
        lemma_i2p_alphabet(h);
        lemma_port_alphabet(s, k);
        assert(s[57] == h[57]);
        assert forall|i: int| 0 <= i < s.len() implies #[trigger] s[i] != '=' && s[i] != '[' by {
            if i < k {
                assert(h[i] == s[i]);
            }
        }
        lemma_no_name(s);
        lemma_no_duration(s, k);
        assert(!hash(s));
        assert(!ipv6(s));
        if ipv4(s) {
            lemma_ipv4_alphabet(s);
        }
        if ipv4_port(s) {
            lemma_ipv4_port_alphabet(s);
        }
        if onion(s) {
            lemma_onion_alphabet(s);
        }
        if onion_port(s) {
            let j = choose|j: int| onion_port_at(s, j);
            lemma_onion_alphabet(s.take(j));
            assert(s[j] == ':');
            if j < k {
                assert(h[j] == s[j]);
            } else if j > k {
                assert('0' <= s[j] <= '9');
            }
        }
        assert(s[0] != '[');
    }
}

/// A row of letters and digits without dots and colons is no network address.
proof fn lemma_no_address(s: Seq<char>)
    requires
        s.len() > 0,
        forall|i: int|
            0 <= i < s.len() ==> '0' <= #[trigger] s[i] <= '9' || 'a' <= s[i] <= 'z' || 'A' <= s[i]
                <= 'Z',
    ensures
        !peer(s),
        !height(s),
        !ipv6_port(s),
        !ipv6(s),
        !ipv4_port(s),
        !ipv4(s),
        !onion_port(s),
        !onion(s),
        !i2p_port(s),
        !i2p(s),
        !decimal(s),
{
    lemma_no_name(s);
    assert(s[0] != '[');
    if ipv4_port(s) {
        lemma_ipv4_port_alphabet(s);
    }
    if ipv4(s) {
        lemma_ipv4_alphabet(s);
    }
    if onion(s) {
        lemma_onion_alphabet(s);
    }
    if onion_port(s) {
        let k = choose|k: int| onion_port_at(s, k);
        assert(s[k] == ':');
    }
    if i2p(s) {
        lemma_i2p_alphabet(s);
    }
    if i2p_port(s) {
        let k = choose|k: int| i2p_port_at(s, k);
        assert(s[k] == ':');
    }
    if decimal(s) {
        lemma_decimal_alphabet(s);
    }
    assert(!ipv6(s)) by {
        if ipv6(s) {
            let (i, j) = choose|i: int, j: int|
                i < j && #[trigger] colon_at(s, i) && #[trigger] colon_at(s, j);
            assert(s[i] == ':');
        }
    }
}

/// A prefix of one of the networks and six or more characters of bech32 is a
/// bech32 address, and nothing else is; but for 64 lower-case hex digits, which
/// are a hash.
pub proof fn law_bech32_addresses(s: Seq<char>, peek: Option<Seq<char>>)
    ensures
        tokenizer::kind_of(s, peek) == Some(TokenKind::Bech32) <==> bech32_address(s) && !hash(s),
{
    lemma_kind(s, peek);
    lemma_bech32(s);
    if bech32_address(s) {
        lemma_no_address(s);
        lemma_no_duration_by_front(s);
    }
}

proof fn lemma_no_duration_by_front(s: Seq<char>)
    requires
        s.len() > 0,
        !('0' <= s[0] <= '9' || s[0] == '+' || s[0] == '-'),
    ensures
        !duration(s),
        !digits(s),
{
    if duration(s) {
        lemma_duration_alphabet(s);
    }
}

/// Hex digits behind a `0x`, or 8 to 63 hex digits with a letter among them, are
/// hex, and nothing else is; but for digits with a `d` behind them, which are a
/// number of days, and for bech32 addresses.
pub proof fn law_hex_numbers(s: Seq<char>, peek: Option<Seq<char>>)
    ensures
        tokenizer::kind_of(s, peek) == Some(TokenKind::Hex) <==> {
            &&& hex(s)
            &&& !(s.len() > 1 && s.last() == 'd' && digits(s.drop_last()))
            &&& !bech32_address(s)
        },
{
    lemma_kind(s, peek);
    lemma_bech32(s);
    if hex(s) {
        assert forall|i: int| 0 <= i < s.len() implies '0' <= #[trigger] s[i] <= '9' || 'a' <= s[i]
            <= 'z' || 'A' <= s[i] <= 'Z' by {
            if any_hex(s) {
                assert(is_hex_digit(s[i]));
            } else if i >= 2 {
                assert(s.skip(2)[i - 2] == s[i]);
                assert(is_hex_digit(s.skip(2)[i - 2]));
            }
        }
        lemma_no_address(s);
        if any_hex(s) {
            assert forall|i: int| 0 <= i < s.len() implies is_hex_digit(#[trigger] s[i]) by {}
            lemma_hex_duration(s);
            if s.len() >= 3 && s[0] == '0' && s[1] == 'x' {
                assert(is_hex_digit(s[1]));
            }
            let i = choose|i: int| letter_at(s, i);
            assert(!digits(s));
            assert(!hash(s));
        } else {
            lemma_no_duration(s, 1);
            if s.last() == 'd' && digits(s.drop_last()) {
                assert(s.drop_last()[1] == s[1]);
            }
            assert(!hash(s));
        }
    }
}

/// 26 to 35 letters and digits of base58, with a letter among them, are base58,
/// and nothing else is; but for what is a length of time, a bech32 address or
/// hex.
pub proof fn law_base58_texts(s: Seq<char>, peek: Option<Seq<char>>)
    ensures
        tokenizer::kind_of(s, peek) == Some(TokenKind::Base58) <==> {
            &&& base58_text(s)
            &&& !duration(s)
            &&& !bech32_address(s)
            &&& !hex(s)
        },
{
    lemma_kind(s, peek);
    if base58_text(s) {
        assert forall|i: int| 0 <= i < s.len() implies '0' <= #[trigger] s[i] <= '9' || 'a' <= s[i]
            <= 'z' || 'A' <= s[i] <= 'Z' by {}
        lemma_no_address(s);
        let i = choose|i: int| letter_at(s, i);
        assert(!digits(s));
    }
}

/// A number with a decimal fraction is a float, and nothing else is.
pub proof fn law_floats(s: Seq<char>, peek: Option<Seq<char>>)
    ensures
        tokenizer::kind_of(s, peek) == Some(TokenKind::Float) <==> decimal(s),
{
    lemma_kind(s, peek);
    if decimal(s) {
        lemma_decimal_alphabet(s);
        let k = choose|k: int|
            0 < k < s.len() && #[trigger] s[k] == '.' && forall|i: int|
                0 <= i < s.len() && i != k ==> #[trigger] s[i] != '.';
        lemma_no_name(s);
        if duration(s) {
            lemma_duration_alphabet(s);
        }
        assert(!digits(s));
        assert(!hash(s));
        assert(s[0] != '[');
        assert(!ipv6(s));
        if ipv4(s) {
            lemma_ipv4_alphabet(s);
            let (i, j) = choose|i: int, j: int|
                0 < i < j < s.len() && #[trigger] s[i] == '.' && #[trigger] s[j] == '.';
            assert(i == k && j == k);
        }
        if ipv4_port(s) {
            let c = choose|c: int| ipv4_port_at(s, c);
            assert(s[c] == ':');
            assert(in_number(s[c]));
        }
        if onion(s) {
            lemma_onion_alphabet(s);
            assert(in_number(s[s.len() - 3]));
        }
        if onion_port(s) {
            let c = choose|c: int| onion_port_at(s, c);
            assert(s[c] == ':');
            assert(in_number(s[c]));
        }
        if i2p(s) {
            lemma_i2p_alphabet(s);
            assert(in_number(s[57]));
        }
        if i2p_port(s) {
            let c = choose|c: int| i2p_port_at(s, c);
            assert(s[c] == ':');
            assert(in_number(s[c]));
        }
        lemma_bech32(s);
        if hex(s) {
            if any_hex(s) {
                assert(is_hex_digit(s[k]));
            } else {
                assert(in_number(s[1]));
            }
        }
        assert(!base58_text(s));
    }
}

/// Digits, with a sign or without, are an integer, and nothing else is; but for
/// digits before the word `bytes`, and 64 digits, which are a hash.
pub proof fn law_integers(s: Seq<char>, peek: Option<Seq<char>>)
    ensures
        tokenizer::kind_of(s, peek) == Some(TokenKind::Int) <==> {
            &&& signed(s)
            &&& !(digits(s) && peek == Some("bytes"@))
            &&& !(digits(s) && s.len() == 64)
        },
{
    lemma_kind(s, peek);
    if signed(s) {
        lemma_signed_alphabet(s);
        lemma_no_name(s);
        if duration(s) {
            lemma_duration_alphabet(s);
        }
        assert(s[0] != '[');
        assert(hash(s) == (digits(s) && s.len() == 64)) by {
            if hash(s) && !digits(s) {
                assert('0' <= s[0] <= '9' || 'a' <= s[0] <= 'f');
            }
        }
        if ipv4(s) {
            lemma_ipv4_alphabet(s);
        }
        if ipv4_port(s) {
            lemma_ipv4_port_alphabet(s);
            let i = choose|i: int| colon_at(s, i);
            assert(in_number(s[i]));
        }
        if onion(s) {
            lemma_onion_alphabet(s);
            assert(in_number(s[s.len() - 3]));
        }
        if onion_port(s) {
            let c = choose|c: int| onion_port_at(s, c);
            assert(in_number(s[c]));
        }
        if i2p(s) {
            lemma_i2p_alphabet(s);
            assert(in_number(s[57]));
        }
        if i2p_port(s) {
            let c = choose|c: int| i2p_port_at(s, c);
            assert(in_number(s[c]));
        }
        assert(!ipv6(s)) by {
            if ipv6(s) {
                let (i, j) = choose|i: int, j: int|
                    i < j && #[trigger] colon_at(s, i) && #[trigger] colon_at(s, j);
                assert(in_number(s[i]));
            }
        }
        lemma_bech32(s);
        if hex(s) {
            if s.len() >= 3 && s[0] == '0' && s[1] == 'x' {
                assert(in_number(s[1]));
            } else {
                let i = choose|i: int| letter_at(s, i);
                assert(is_hex_digit(s[0]));
                assert(i == 0 || '0' <= s[i] <= '9');
            }
        }
        if base58_text(s) {
            let i = choose|i: int| letter_at(s, i);
            assert(i == 0 || '0' <= s[i] <= '9');
        }
        if decimal(s) {
            lemma_decimal_alphabet(s);
            let k = choose|k: int|
                0 < k < s.len() && #[trigger] s[k] == '.' && forall|i: int|
                    0 <= i < s.len() && i != k ==> #[trigger] s[i] != '.';
            assert('0' <= s[k] <= '9');
        }
    }
}

/// The values as they are written: each has its kind, whatever follows it.
pub proof fn law_a_written_address_has_its_kind(
    label: Seq<char>,
    p: Seq<char>,
    peek: Option<Seq<char>>,
)
    requires
        port(p),
        base32(label),
    ensures
        label.len() == 16 || label.len() == 56 ==> tokenizer::kind_of(
            label + ".onion"@,
            peek,
        ) == Some(TokenKind::Onion) && tokenizer::kind_of(label + ".onion"@ + ":"@ + p, peek)
            == Some(TokenKind::OnionPort),
        label.len() == 52 ==> tokenizer::kind_of(label + ".b32.i2p"@, peek) == Some(
            TokenKind::I2P,
        ) && tokenizer::kind_of(label + ".b32.i2p"@ + ":"@ + p, peek) == Some(TokenKind::I2PPort),
{
    reveal_strlit(".onion");
    reveal_strlit(".b32.i2p");
    reveal_strlit(":");
    assert(".onion"@.len() == 6 && ".b32.i2p"@.len() == 8 && ":"@.len() == 1);
    let n = label.len() as int;
    if n == 16 || n == 56 {
        let h = label + ".onion"@;
        let s = h + ":"@ + p;
        assert(h.take(n) =~= label);
        assert(h.skip(n) =~= ".onion"@);
        assert(s.take(n + 6) =~= h);
        assert(s.skip(n + 7) =~= p);
        assert(onion_port_at(s, n + 6));
        law_onion_addresses(h, peek);
        law_onion_addresses_with_ports(s, peek);
    }
    if n == 52 {
        let h = label + ".b32.i2p"@;
        let s = h + ":"@ + p;
        assert(h.take(52) =~= label);
        assert(h.skip(52) =~= ".b32.i2p"@);
        assert(s.take(60) =~= h);
        assert(s.skip(61) =~= p);
        assert(i2p_port_at(s, 60));
        law_i2p_addresses(h, peek);
        law_i2p_addresses_with_ports(s, peek);
    }
}

}
