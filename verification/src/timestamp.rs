//! The two timestamp shapes that Bitcoin Core writes at the front of a
//! `debug.log` line:
//!
//! - `2026-05-15T00:06:31.149660Z`: fractional seconds and a trailing `Z`;
//! - `2026-05-15T00:06:31`: whole seconds, no suffix.
//!
//! Both are read into one key of integer fields, so that they compare
//! correctly against each other.
use std::cmp::Ordering;
use vstd::prelude::*;

use crate::text;
use crate::text::{chars_of, run_from, Class};

verus! {

#[derive(Debug, Clone, Copy, PartialEq, Eq, Ord, Structural)]
pub struct TimestampKey {
    pub year: u16,
    pub month: u8,
    pub day: u8,
    pub hour: u8,
    pub minute: u8,
    pub second: u8,
    pub nanos: u32,
}

impl TimestampKey {
    /// The fields read as the digits of one number, the year first: the order
    /// of these numbers is the order of the keys, field by field.
    pub open spec fn rank(self) -> int {
        (((((self.year * 256 + self.month) * 256 + self.day) * 256 + self.hour) * 256
            + self.minute) * 256 + self.second) * 0x1_0000_0000 + self.nanos
    }

    /// Whether `self` stands strictly before `other`.
    pub fn precedes(&self, other: &TimestampKey) -> (r: bool)
        ensures
            r == (self.rank() < other.rank()),
    {
        proof {
            law_keys_are_ordered_by_their_fields(*self, *other);
        }
        if self.year != other.year {
            return self.year < other.year;
        }
        if self.month != other.month {
            return self.month < other.month;
        }
        if self.day != other.day {
            return self.day < other.day;
        }
        if self.hour != other.hour {
            return self.hour < other.hour;
        }
        if self.minute != other.minute {
            return self.minute < other.minute;
        }
        if self.second != other.second {
            return self.second < other.second;
        }
        self.nanos < other.nanos
    }
}

/// Two numbers to one base are ordered by what stands before their last digits,
/// and by these where that is the same.
proof fn lemma_last_digit(x: int, p: int, y: int, q: int, base: int)
    requires
        0 <= p < base,
        0 <= q < base,
    ensures
        (x * base + p == y * base + q) == (x == y && p == q),
        (x * base + p < y * base + q) == (x < y || (x == y && p < q)),
{
    if x < y {
        assert(x * base + base <= y * base) by (nonlinear_arith)
            requires
                x < y,
                0 < base,
        ;
    } else if y < x {
        assert(y * base + base <= x * base) by (nonlinear_arith)
            requires
                y < x,
                0 < base,
        ;
    }
}

/// A time before another: the first field in which the two differ is smaller.
pub open spec fn is_earlier(a: TimestampKey, b: TimestampKey) -> bool {
    if a.year != b.year {
        a.year < b.year
    } else if a.month != b.month {
        a.month < b.month
    } else if a.day != b.day {
        a.day < b.day
    } else if a.hour != b.hour {
        a.hour < b.hour
    } else if a.minute != b.minute {
        a.minute < b.minute
    } else if a.second != b.second {
        a.second < b.second
    } else {
        a.nanos < b.nanos
    }
}

/// The ranks are ordered as the fields are, the year first.
pub proof fn law_keys_are_ordered_by_their_fields(a: TimestampKey, b: TimestampKey)
    ensures
        (a.rank() == b.rank()) == (a == b),
        (a.rank() < b.rank()) == is_earlier(a, b),
{
    let (a1, b1) = (a.year * 256 + a.month, b.year * 256 + b.month);
    let (a2, b2) = (a1 * 256 + a.day, b1 * 256 + b.day);
    let (a3, b3) = (a2 * 256 + a.hour, b2 * 256 + b.hour);
    let (a4, b4) = (a3 * 256 + a.minute, b3 * 256 + b.minute);
    let (a5, b5) = (a4 * 256 + a.second, b4 * 256 + b.second);
    lemma_last_digit(a.year as int, a.month as int, b.year as int, b.month as int, 256);
    lemma_last_digit(a1, a.day as int, b1, b.day as int, 256);
    lemma_last_digit(a2, a.hour as int, b2, b.hour as int, 256);
    lemma_last_digit(a3, a.minute as int, b3, b.minute as int, 256);
    lemma_last_digit(a4, a.second as int, b4, b.second as int, 256);
    lemma_last_digit(a5, a.nanos as int, b5, b.nanos as int, 0x1_0000_0000);
}

/// Keys of one rank are one key: no two keys tie.
pub proof fn law_rank_identifies_the_key(a: TimestampKey, b: TimestampKey)
    requires
        a.rank() == b.rank(),
    ensures
        a == b,
{
    law_keys_are_ordered_by_their_fields(a, b);
}

impl PartialOrd for TimestampKey {
    fn partial_cmp(&self, other: &Self) -> (r: Option<Ordering>) {
        if self.precedes(other) {
            Some(Ordering::Less)
        } else if other.precedes(self) {
            Some(Ordering::Greater)
        } else {
            Some(Ordering::Equal)
        }
    }
}

impl vstd::std_specs::cmp::PartialOrdSpecImpl for TimestampKey {
    open spec fn obeys_partial_cmp_spec() -> bool {
        true
    }

    open spec fn partial_cmp_spec(&self, other: &Self) -> Option<Ordering> {
        if self.rank() < other.rank() {
            Some(Ordering::Less)
        } else if self.rank() > other.rank() {
            Some(Ordering::Greater)
        } else {
            Some(Ordering::Equal)
        }
    }
}

/// Keys compare as the times do that they stand for.
pub proof fn law_keys_compare_by_time(a: TimestampKey, b: TimestampKey)
    ensures
        (vstd::std_specs::cmp::PartialOrdSpec::partial_cmp_spec(&a, &b) == Some(Ordering::Less))
            == is_earlier(a, b),
        (vstd::std_specs::cmp::PartialOrdSpec::partial_cmp_spec(&a, &b) == Some(Ordering::Greater))
            == is_earlier(b, a),
        (vstd::std_specs::cmp::PartialOrdSpec::partial_cmp_spec(&a, &b) == Some(Ordering::Equal))
            == (a == b),
{
    law_keys_are_ordered_by_their_fields(a, b);
    law_keys_are_ordered_by_their_fields(b, a);
}

/// The key of a line that no timestamp stands before: every field is zero.
pub open spec fn zero_key() -> TimestampKey {
    TimestampKey { year: 0, month: 0, day: 0, hour: 0, minute: 0, second: 0, nanos: 0 }
}

impl Default for TimestampKey {
    fn default() -> (r: Self)
        ensures
            r == zero_key(),
    {
        TimestampKey { year: 0, month: 0, day: 0, hour: 0, minute: 0, second: 0, nanos: 0 }
    }
}

/// `s` starts with `dddd-dd-ddTdd:dd:dd`.
pub open spec fn has_seconds(s: Seq<char>) -> bool {
    &&& s.len() >= 19
    &&& s[4] == '-' && s[7] == '-' && s[10] == 'T' && s[13] == ':' && s[16] == ':'
    &&& text::all_in(s.subrange(0, 4), Class::Digit)
    &&& text::all_in(s.subrange(5, 7), Class::Digit)
    &&& text::all_in(s.subrange(8, 10), Class::Digit)
    &&& text::all_in(s.subrange(11, 13), Class::Digit)
    &&& text::all_in(s.subrange(14, 16), Class::Digit)
    &&& text::all_in(s.subrange(17, 19), Class::Digit)
}

pub open spec fn power_of_ten(n: nat) -> nat
    decreases n,
{
    if n == 0 {
        1
    } else {
        10 * power_of_ten((n - 1) as nat)
    }
}

/// The nanoseconds after the whole seconds of `s`: zero where no dot follows
/// them, and nothing where the dot is followed by no digit or by more than
/// nine.
pub open spec fn nanos_of(s: Seq<char>) -> Option<nat> {
    if s.len() > 19 && s[19] == '.' {
        let n = text::run(s.skip(20), Class::Digit);
        if n == 0 || n > 9 {
            None
        } else {
            Some(text::number(s.subrange(20, 20 + n as int)) * power_of_ten((9 - n) as nat))
        }
    } else {
        Some(0)
    }
}

/// The timestamp that `s` starts with.
pub open spec fn timestamp_of(s: Seq<char>) -> Option<TimestampKey> {
    if !has_seconds(s) || nanos_of(s) is None {
        None
    } else {
        Some(
            TimestampKey {
                year: text::number(s.subrange(0, 4)) as u16,
                month: text::number(s.subrange(5, 7)) as u8,
                day: text::number(s.subrange(8, 10)) as u8,
                hour: text::number(s.subrange(11, 13)) as u8,
                minute: text::number(s.subrange(14, 16)) as u8,
                second: text::number(s.subrange(17, 19)) as u8,
                nanos: nanos_of(s)->0 as u32,
            },
        )
    }
}

/// A row of digits writes a number below the power of ten of its length.
pub proof fn lemma_number_bound(s: Seq<char>)
    requires
        text::all_in(s, Class::Digit),
    ensures
        text::number(s) < power_of_ten(s.len()),
    decreases s.len(),
{
    if s.len() > 0 {
        assert(text::all_in(s.drop_last(), Class::Digit)) by {
            assert forall|i: int| 0 <= i < s.len() - 1 implies Class::Digit.has(
                #[trigger] s.drop_last()[i],
            ) by {
                assert(s.drop_last()[i] == s[i]);
            }
        }
        lemma_number_bound(s.drop_last());
        assert(Class::Digit.has(s[s.len() - 1]));
    }
}

/// The number that the digits from `from` up to `to` write, where they are
/// digits.
fn parse_int(b: &[char], from: usize, to: usize) -> (r: Option<u32>)
    requires
        from <= to <= b@.len(),
        to - from <= 9,
    ensures
        r is Some <==> text::all_in(b@.subrange(from as int, to as int), Class::Digit),
        r matches Some(n) ==> n == text::number(b@.subrange(from as int, to as int)),
{
    let ghost all = b@.subrange(from as int, to as int);
    let mut n: u32 = 0;
    let mut i: usize = from;
    proof {
        reveal_with_fuel(power_of_ten, 11);
        assert(b@.subrange(from as int, from as int) =~= Seq::<char>::empty());
    }
    while i < to
        invariant
            from <= i <= to <= b@.len(),
            to - from <= 9,
            all == b@.subrange(from as int, to as int),
            text::all_in(b@.subrange(from as int, i as int), Class::Digit),
            n == text::number(b@.subrange(from as int, i as int)),
        decreases to - i,
    {
        let ghost head = b@.subrange(from as int, i as int);
        let ghost next = b@.subrange(from as int, i + 1);
        let c: char = b[i];
        proof {
            assert(next.drop_last() =~= head);
            assert(next.last() == b@[i as int]);
            assert(all[i - from] == b@[i as int]);
            lemma_number_bound(head);
            reveal_with_fuel(power_of_ten, 11);
            assert(power_of_ten(head.len()) <= 100_000_000) by {
                reveal_with_fuel(power_of_ten, 11);
            }
        }
        if !Class::Digit.holds(c) {
            return None;
        }
        n = n * 10 + (c as u32 - '0' as u32);
        i += 1;
        proof {
            assert forall|j: int| 0 <= j < next.len() implies Class::Digit.has(
                #[trigger] next[j],
            ) by {
                if j < head.len() {
                    assert(next[j] == head[j]);
                }
            }
        }
    }
    Some(n)
}

/// Reads the timestamp that `s` starts with: nothing where it starts with
/// neither shape. What follows the timestamp is ignored, so a whole log line
/// may be handed over.
pub fn parse_timestamp(s: &str) -> (r: Option<TimestampKey>)
    ensures
        r == timestamp_of(s@),
{
    let chars: Vec<char> = chars_of(s);
    let b: &[char] = chars.as_slice();
    if b.len() < 19 {
        return None;
    }
    if b[4] != '-' || b[7] != '-' || b[10] != 'T' || b[13] != ':' || b[16] != ':' {
        return None;
    }
    let year: u32 = match parse_int(b, 0, 4) {
        Some(n) => n,
        None => return None,
    };
    let month: u32 = match parse_int(b, 5, 7) {
        Some(n) => n,
        None => return None,
    };
    let day: u32 = match parse_int(b, 8, 10) {
        Some(n) => n,
        None => return None,
    };
    let hour: u32 = match parse_int(b, 11, 13) {
        Some(n) => n,
        None => return None,
    };
    let minute: u32 = match parse_int(b, 14, 16) {
        Some(n) => n,
        None => return None,
    };
    let second: u32 = match parse_int(b, 17, 19) {
        Some(n) => n,
        None => return None,
    };
    proof {
        reveal_with_fuel(power_of_ten, 5);
        lemma_number_bound(s@.subrange(0, 4));
        lemma_number_bound(s@.subrange(5, 7));
        lemma_number_bound(s@.subrange(8, 10));
        lemma_number_bound(s@.subrange(11, 13));
        lemma_number_bound(s@.subrange(14, 16));
        lemma_number_bound(s@.subrange(17, 19));
    }
    let nanos: u32 = if b.len() > 19 && b[19] == '.' {
        match fraction(b) {
            Some(n) => n,
            None => return None,
        }
    } else {
        0
    };
    Some(
        TimestampKey {
            year: year as u16,
            month: month as u8,
            day: day as u8,
            hour: hour as u8,
            minute: minute as u8,
            second: second as u8,
            nanos,
        },
    )
}

/// The fraction that the digits after the dot at place 19 write, in
/// nanoseconds.
fn fraction(b: &[char]) -> (r: Option<u32>)
    requires
        b@.len() > 19,
        b@[19] == '.',
    ensures
        r is Some <==> nanos_of(b@) is Some,
        r matches Some(n) ==> nanos_of(b@) == Some(n as nat),
{
    let len: usize = run_from(b, 20, Class::Digit);
    if len == 0 || len > 9 {
        return None;
    }
    let ghost digits = b@.subrange(20, 20 + len);
    proof {
        let t = b@.skip(20);
        text::lemma_run(t, Class::Digit);
        assert forall|i: int| 0 <= i < digits.len() implies Class::Digit.has(
            #[trigger] digits[i],
        ) by {
            assert(digits[i] == t[i]);
        }
        lemma_number_bound(digits);
    }
    let mut n: u32 = match parse_int(b, 20, 20 + len) {
        Some(n) => n,
        None => return None,
    };
    let ghost value = n as nat;
    let mut left: usize = 9 - len;
    let ghost zeros = (9 - len) as nat;
    proof {
        lemma_power_of_ten_sum(len as nat, zeros);
        assert(power_of_ten(9) == 1_000_000_000) by {
            reveal_with_fuel(power_of_ten, 10);
        }
        assert(value * power_of_ten(zeros) < power_of_ten(len as nat) * power_of_ten(zeros))
            by (nonlinear_arith)
            requires
                value < power_of_ten(len as nat),
                power_of_ten(zeros) > 0,
        ;
        assert(n * power_of_ten(left as nat) == value * power_of_ten(zeros));
    }
    while left > 0
        invariant
            n * power_of_ten(left as nat) == value * power_of_ten(zeros),
            value * power_of_ten(zeros) < 1_000_000_000,
        decreases left,
    {
        proof {
            let rest = power_of_ten((left - 1) as nat);
            lemma_power_of_ten_positive((left - 1) as nat);
            assert(n * (10 * rest) == (n * 10) * rest) by (nonlinear_arith);
            assert(n * 10 <= (n * 10) * rest) by (nonlinear_arith)
                requires
                    rest >= 1,
                    n >= 0,
            ;
        }
        n = n * 10;
        left -= 1;
    }
    proof {
        assert(power_of_ten(0) == 1);
        assert(n * power_of_ten(0) == n);
    }
    Some(n)
}

proof fn lemma_power_of_ten_positive(n: nat)
    ensures
        power_of_ten(n) >= 1,
    decreases n,
{
    if n > 0 {
        lemma_power_of_ten_positive((n - 1) as nat);
    }
}

proof fn lemma_power_of_ten_sum(a: nat, b: nat)
    ensures
        power_of_ten(a) * power_of_ten(b) == power_of_ten(a + b),
        power_of_ten(b) > 0,
    decreases a,
{
    lemma_power_of_ten_positive(b);
    if a == 0 {
        assert(power_of_ten(a) == 1);
        assert(1 * power_of_ten(b) == power_of_ten(b));
    } else {
        lemma_power_of_ten_sum((a - 1) as nat, b);
        let x = power_of_ten((a - 1) as nat);
        let y = power_of_ten(b);
        assert((10 * x) * y == 10 * (x * y)) by (nonlinear_arith);
        assert((a + b - 1) as nat == (a - 1) as nat + b);
    }
}

// ---------------------------------------------------------------------------
// Laws
// ---------------------------------------------------------------------------
/// The character is one of the ten digits.
pub open spec fn is_ten(c: char) -> bool {
    '0' <= c <= '9'
}

/// The number that two digits write.
pub open spec fn two(a: char, b: char) -> int {
    (a as int - 48) * 10 + (b as int - 48)
}

/// `s` starts with a date and a time of whole seconds, written in digits.
pub open spec fn starts_with_seconds(s: Seq<char>) -> bool {
    &&& s.len() >= 19
    &&& is_ten(s[0]) && is_ten(s[1]) && is_ten(s[2]) && is_ten(s[3])
    &&& s[4] == '-' && is_ten(s[5]) && is_ten(s[6])
    &&& s[7] == '-' && is_ten(s[8]) && is_ten(s[9])
    &&& s[10] == 'T' && is_ten(s[11]) && is_ten(s[12])
    &&& s[13] == ':' && is_ten(s[14]) && is_ten(s[15])
    &&& s[16] == ':' && is_ten(s[17]) && is_ten(s[18])
}

/// How many nanoseconds the digit at the place `i` of a fraction stands for, in
/// units of its own place; nothing where the fraction is shorter.
pub open spec fn place_value(f: Seq<char>, i: int) -> int {
    if i < f.len() {
        f[i] as int - 48
    } else {
        0
    }
}

/// The nanoseconds that the digits of a fraction stand for, place by place.
pub open spec fn by_places(f: Seq<char>) -> int {
    place_value(f, 0) * 100_000_000 + place_value(f, 1) * 10_000_000 + place_value(f, 2) * 1_000_000
        + place_value(f, 3) * 100_000 + place_value(f, 4) * 10_000 + place_value(f, 5) * 1_000
        + place_value(f, 6) * 100 + place_value(f, 7) * 10 + place_value(f, 8)
}

proof fn lemma_number_of_two(s: Seq<char>, a: char, b: char)
    requires
        s == seq![a, b],
        is_ten(a),
        is_ten(b),
    ensures
        text::number(s) == two(a, b),
        text::all_in(s, Class::Digit),
{
    reveal_with_fuel(text::number, 3);
    assert(s.drop_last() =~= seq![a]);
    assert(s.drop_last().drop_last() =~= Seq::<char>::empty());
}

proof fn lemma_number_of_four(s: Seq<char>, a: char, b: char, c: char, d: char)
    requires
        s == seq![a, b, c, d],
        is_ten(a),
        is_ten(b),
        is_ten(c),
        is_ten(d),
    ensures
        text::number(s) == two(a, b) * 100 + two(c, d),
        text::all_in(s, Class::Digit),
{
    reveal_with_fuel(text::number, 3);
    assert(s.take(2) =~= seq![a, b]);
    lemma_number_of_two(s.take(2), a, b);
    assert(s.drop_last() =~= seq![a, b, c]);
    assert(s.drop_last().drop_last() =~= s.take(2));
}

proof fn lemma_two_digits(s: Seq<char>, i: int)
    requires
        0 <= i,
        i + 2 <= s.len(),
    ensures
        text::all_in(s.subrange(i, i + 2), Class::Digit) == (is_ten(s[i]) && is_ten(s[i + 1])),
        is_ten(s[i]) && is_ten(s[i + 1]) ==> text::number(s.subrange(i, i + 2)) == two(
            s[i],
            s[i + 1],
        ),
{
    let t = s.subrange(i, i + 2);
    assert(t =~= seq![s[i], s[i + 1]]);
    if text::all_in(t, Class::Digit) {
        assert(Class::Digit.has(t[0]) && Class::Digit.has(t[1]));
    }
    if is_ten(s[i]) && is_ten(s[i + 1]) {
        lemma_number_of_two(t, s[i], s[i + 1]);
    }
}

proof fn lemma_year_digits(s: Seq<char>)
    requires
        4 <= s.len(),
    ensures
        text::all_in(s.subrange(0, 4), Class::Digit) == (is_ten(s[0]) && is_ten(s[1]) && is_ten(
            s[2],
        ) && is_ten(s[3])),
        is_ten(s[0]) && is_ten(s[1]) && is_ten(s[2]) && is_ten(s[3]) ==> text::number(
            s.subrange(0, 4),
        ) == two(s[0], s[1]) * 100 + two(s[2], s[3]),
{
    let t = s.subrange(0, 4);
    assert(t =~= seq![s[0], s[1], s[2], s[3]]);
    if text::all_in(t, Class::Digit) {
        assert(Class::Digit.has(t[0]) && Class::Digit.has(t[1]) && Class::Digit.has(t[2])
            && Class::Digit.has(t[3]));
    }
    if is_ten(s[0]) && is_ten(s[1]) && is_ten(s[2]) && is_ten(s[3]) {
        lemma_number_of_four(t, s[0], s[1], s[2], s[3]);
    }
}

proof fn lemma_seconds(s: Seq<char>)
    ensures
        has_seconds(s) == starts_with_seconds(s),
{
    if s.len() >= 19 {
        lemma_year_digits(s);
        lemma_two_digits(s, 5);
        lemma_two_digits(s, 8);
        lemma_two_digits(s, 11);
        lemma_two_digits(s, 14);
        lemma_two_digits(s, 17);
    }
}

/// A timestamp is read exactly where a text starts with one; each field is the
/// number that its digits write.
pub proof fn law_each_field_is_its_digits(s: Seq<char>)
    ensures
        timestamp_of(s) is Some ==> starts_with_seconds(s),
        starts_with_seconds(s) && (s.len() == 19 || s[19] != '.') ==> timestamp_of(s) is Some
            && timestamp_of(s)->Some_0.nanos == 0,
        timestamp_of(s) matches Some(k) ==> {
            &&& k.year == two(s[0], s[1]) * 100 + two(s[2], s[3])
            &&& k.month == two(s[5], s[6])
            &&& k.day == two(s[8], s[9])
            &&& k.hour == two(s[11], s[12])
            &&& k.minute == two(s[14], s[15])
            &&& k.second == two(s[17], s[18])
        },
{
    lemma_seconds(s);
    if s.len() >= 19 {
        lemma_year_digits(s);
        lemma_two_digits(s, 5);
        lemma_two_digits(s, 8);
        lemma_two_digits(s, 11);
        lemma_two_digits(s, 14);
        lemma_two_digits(s, 17);
    }
}

/// The number that a fraction writes, brought to nine digits, is the sum of its
/// digits by their places.
proof fn lemma_nanos(f: Seq<char>)
    requires
        1 <= f.len() <= 9,
        text::all_in(f, Class::Digit),
    ensures
        text::number(f) * power_of_ten((9 - f.len()) as nat) == by_places(f),
    decreases f.len(),
{
    let n = f.len() as int;
    let g = f.drop_last();
    let d = f.last() as int - 48;
    let scale = power_of_ten((9 - n) as nat) as int;
    assert(Class::Digit.has(f[n - 1]));
    assert(text::number(f) == text::number(g) * 10 + d);
    assert(power_of_ten((10 - n) as nat) == 10 * scale);
    assert((text::number(g) * 10 + d) * scale == text::number(g) * (10 * scale) + d * scale)
        by (nonlinear_arith);
    assert(d * scale == d * power_of_ten((9 - n) as nat));
    lemma_powers();
    assert forall|i: int| 0 <= i < n - 1 implies #[trigger] place_value(f, i) == place_value(
        g,
        i,
    ) by {
        assert(g[i] == f[i]);
    }
    assert(place_value(f, n - 1) == d);
    if n > 1 {
        assert forall|i: int| 0 <= i < g.len() implies Class::Digit.has(#[trigger] g[i]) by {
            assert(g[i] == f[i]);
        }
        lemma_nanos(g);
        lemma_one_place(f, g);
    } else {
        assert(text::number(g) == 0);
        assert(scale == 100_000_000);
    }
}

proof fn lemma_powers()
    ensures
        power_of_ten(0) == 1,
        power_of_ten(1) == 10,
        power_of_ten(2) == 100,
        power_of_ten(3) == 1_000,
        power_of_ten(4) == 10_000,
        power_of_ten(5) == 100_000,
        power_of_ten(6) == 1_000_000,
        power_of_ten(7) == 10_000_000,
        power_of_ten(8) == 100_000_000,
        power_of_ten(9) == 1_000_000_000,
{
    reveal_with_fuel(power_of_ten, 11);
}

proof fn lemma_one_place(f: Seq<char>, g: Seq<char>)
    requires
        2 <= f.len() <= 9,
        g == f.drop_last(),
    ensures
        by_places(f) == by_places(g) + (f.last() as int - 48) * power_of_ten(
            (9 - f.len()) as nat,
        ),
{
    lemma_powers();
    let n = f.len() as int;
    let d = f.last() as int - 48;
    let scale = power_of_ten((9 - n) as nat) as int;
    assert forall|i: int| 0 <= i < n - 1 implies #[trigger] place_value(f, i) == place_value(
        g,
        i,
    ) by {
        assert(g[i] == f[i]);
    }
    if n == 2 {
        assert(d * scale == d * 10_000_000);
    } else if n == 3 {
        assert(d * scale == d * 1_000_000);
    } else if n == 4 {
        assert(d * scale == d * 100_000);
    } else if n == 5 {
        assert(d * scale == d * 10_000);
    } else if n == 6 {
        assert(d * scale == d * 1_000);
    } else if n == 7 {
        assert(d * scale == d * 100);
    } else if n == 8 {
        assert(d * scale == d * 10);
    } else {
        assert(d * scale == d);
    }
}

/// A fraction of one to nine digits is read as nanoseconds: its first digit
/// counts tenths of a second, the next hundredths, and so on.
pub proof fn law_a_fraction_is_read_by_places(base: Seq<char>, f: Seq<char>, tail: Seq<char>)
    requires
        base.len() == 19,
        starts_with_seconds(base),
        forall|i: int| 0 <= i < f.len() ==> is_ten(#[trigger] f[i]),
        tail.len() > 0 ==> !is_ten(tail[0]),
    ensures
        1 <= f.len() <= 9 <==> timestamp_of(base + seq!['.'] + f + tail) is Some,
        timestamp_of(base + seq!['.'] + f + tail) matches Some(k) ==> k.nanos == by_places(f),
{
    let s = base + seq!['.'] + f + tail;
    assert forall|i: int| 0 <= i < 19 implies s[i] == base[i] by {}
    assert(starts_with_seconds(s));
    lemma_seconds(s);
    let t = s.skip(20);
    assert(t =~= f + tail);
    assert forall|i: int| 0 <= i < f.len() implies Class::Digit.has(#[trigger] t[i]) by {
        assert(t[i] == f[i]);
        assert(is_ten(f[i]));
    }
    if tail.len() > 0 {
        assert(t[f.len() as int] == tail[0]);
    }
    text::lemma_run_is(t, Class::Digit, f.len() as int);
    if 1 <= f.len() <= 9 {
        assert(s.subrange(20, 20 + f.len() as int) =~= f);
        assert forall|i: int| 0 <= i < f.len() implies Class::Digit.has(#[trigger] f[i]) by {
            assert(is_ten(f[i]));
        }
        lemma_nanos(f);
        lemma_number_bound(f);
        lemma_powers();
        assert(0 <= place_value(f, 0) <= 9 && 0 <= place_value(f, 1) <= 9 && 0 <= place_value(f, 2)
            <= 9 && 0 <= place_value(f, 3) <= 9 && 0 <= place_value(f, 4) <= 9 && 0 <= place_value(
            f,
            5,
        ) <= 9 && 0 <= place_value(f, 6) <= 9 && 0 <= place_value(f, 7) <= 9 && 0 <= place_value(
            f,
            8,
        ) <= 9);
    }
}

/// Timestamps are ordered as their texts are: of two that differ first in a
/// character of their date or time, the one with the lower character is the
/// earlier.
pub proof fn law_text_order_is_time_order(a: Seq<char>, b: Seq<char>, i: int)
    requires
        timestamp_of(a) is Some,
        timestamp_of(b) is Some,
        0 <= i < 19,
        forall|j: int| 0 <= j < i ==> a[j] == b[j],
        (a[i] as int) < b[i] as int,
    ensures
        timestamp_of(a)->Some_0.rank() < timestamp_of(b)->Some_0.rank(),
{
    law_each_field_is_its_digits(a);
    law_each_field_is_its_digits(b);
    law_keys_are_ordered_by_their_fields(timestamp_of(a)->Some_0, timestamp_of(b)->Some_0);
}

/// Of two timestamps of one second, the one with the smaller fraction is the
/// earlier, and one without a fraction is the earliest.
pub proof fn law_fractions_order_within_a_second(a: Seq<char>, b: Seq<char>)
    requires
        timestamp_of(a) is Some,
        timestamp_of(b) is Some,
        a.take(19) == b.take(19),
    ensures
        (timestamp_of(a)->Some_0.rank() < timestamp_of(b)->Some_0.rank()) == (
        timestamp_of(a)->Some_0.nanos < timestamp_of(b)->Some_0.nanos),
{
    law_each_field_is_its_digits(a);
    law_each_field_is_its_digits(b);
    assert forall|i: int| 0 <= i < 19 implies a[i] == b[i] by {
        assert(a.take(19)[i] == a[i]);
        assert(b.take(19)[i] == b[i]);
    }
    law_keys_are_ordered_by_their_fields(timestamp_of(a)->Some_0, timestamp_of(b)->Some_0);
}

}
