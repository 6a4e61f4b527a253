//! Double-precision numbers by their bits, in integer arithmetic.
//!
//! A threshold and the numbers of a saved state are doubles (IEEE 754
//! binary64). This module holds a double as the `u64` of its bits, and decides
//! on those bits what the library asks of a double: whether a quotient of two
//! counts reaches it, and which whole number it is.
use vstd::arithmetic::div_mod::*;
use vstd::arithmetic::power2::*;
use vstd::prelude::*;

verus! {

/// The weight of the lowest bit of the exponent: two to the 52nd.
pub const FRACTION_BITS: u64 = 0x0010_0000_0000_0000;

/// The bits of one.
pub const ONE: u64 = 0x3FF0_0000_0000_0000;

/// The bits of infinity: what lies above, below the sign bit, is no number.
pub const INFINITY: u64 = 0x7FF0_0000_0000_0000;

/// The sign bit, which alone is minus zero.
pub const SIGN: u64 = 0x8000_0000_0000_0000;

/// The value of the finite double with the bits `b`, where its sign bit is
/// clear, in units of two to the minus 1074th.
pub open spec fn magnitude(b: nat) -> nat {
    let e = b / FRACTION_BITS as nat;
    let f = b % FRACTION_BITS as nat;
    if e == 0 {
        f
    } else {
        (FRACTION_BITS + f) as nat * pow2((e - 1) as nat)
    }
}

/// The double is not a number.
pub open spec fn is_nan(b: u64) -> bool {
    b % SIGN > INFINITY
}

/// The quotient `m / n`, rounded to the nearest double with ties to even, is
/// at least the double with the bits `t`: it lies past the midpoint between
/// `t` and the double below, or on it where `t` is even.
pub open spec fn rounds_to_at_least(m: nat, n: nat, t: nat) -> bool {
    let twice = 2 * (m * pow2(1074));
    let sum = n * (magnitude((t - 1) as nat) + magnitude(t));
    twice > sum || (twice == sum && t % 2 == 0)
}

/// Whether the quotient `m / n` of two counts, rounded to a double, is at least
/// the double with the bits `threshold`. For counts up to two to the 53rd,
/// which are doubles themselves, that is the quotient of the two doubles. A
/// threshold that is no number is never reached, one of zero or below always
/// is, and one above one never is.
pub open spec fn reaches(m: nat, n: nat, threshold: u64) -> bool {
    if is_nan(threshold) {
        false
    } else if threshold == 0 || threshold >= SIGN {
        true
    } else if threshold > ONE {
        false
    } else {
        rounds_to_at_least(m, n, threshold as nat)
    }
}

/// The whole number that the double with the bits `b` is: nothing where it is
/// no number, infinite, below zero, or not whole. Minus zero is zero.
pub open spec fn whole_value(b: u64) -> Option<nat> {
    if b == SIGN {
        Some(0)
    } else if b >= INFINITY || magnitude(b as nat) % pow2(1074) != 0 {
        None
    } else {
        Some(magnitude(b as nat) / pow2(1074))
    }
}

/// The whole number that the double is, the largest `u64` standing for all
/// that are larger.
pub open spec fn saturated_whole(b: u64) -> Option<u64> {
    match whole_value(b) {
        None => None,
        Some(n) => if n > u64::MAX {
            Some(u64::MAX)
        } else {
            Some(n as u64)
        },
    }
}

/// Two to the `k`th.
fn two_to(k: u64) -> (r: u128)
    requires
        k <= 126,
    ensures
        r == pow2(k as nat),
{
    let mut r: u128 = 1;
    let mut i: u64 = 0;
    proof {
        lemma2_to64();
    }
    while i < k
        invariant
            i <= k <= 126,
            r == pow2(i as nat),
        decreases k - i,
    {
        proof {
            lemma_pow2_unfold((i + 1) as nat);
            lemma_below_pow2_126((i + 1) as nat);
        }
        r = r * 2;
        i += 1;
    }
    r
}

proof fn lemma_below_pow2_126(k: nat)
    requires
        k <= 126,
    ensures
        pow2(k) <= 0x4000_0000_0000_0000_0000_0000_0000_0000,
{
    lemma2_to64_rest();
    lemma_pow2_adds(63, 63);
    assert(0x8000_0000_0000_0000 * 0x8000_0000_0000_0000
        == 0x4000_0000_0000_0000_0000_0000_0000_0000);
    if k < 126 {
        lemma_pow2_strictly_increases(k, 126);
    }
}

/// A larger double has a larger value.
proof fn lemma_magnitude_step(b: nat)
    ensures
        magnitude(b) < magnitude(b + 1),
{
    let w = FRACTION_BITS as nat;
    let e = b / w;
    let f = b % w;
    lemma_fundamental_div_mod(b as int, w as int);
    if f + 1 < w {
        lemma_fundamental_div_mod_converse(((b + 1) as int), w as int, e as int, (f + 1) as int);
        if e > 0 {
            let p = pow2((e - 1) as nat);
            lemma_pow2_pos((e - 1) as nat);
            assert((w + f) * p < (w + f + 1) * p) by (nonlinear_arith)
                requires
                    p > 0,
            ;
        }
    } else {
        assert(b + 1 == (e + 1) * w) by (nonlinear_arith)
            requires
                b == w * e + f,
                f + 1 == w,
        ;
        assert((b + 1) as int == (e + 1) * w + 0);
        assert((e + 1) * w == w * (e + 1)) by (nonlinear_arith);
        lemma_fundamental_div_mod_converse((b + 1) as int, w as int, (e + 1) as int, 0);
        if e == 0 {
            lemma2_to64();
            assert(w * pow2(0) == w);
        } else {
            let p = pow2((e - 1) as nat);
            lemma_pow2_pos((e - 1) as nat);
            lemma_pow2_unfold(e);
            assert((w + f) * p < w * (2 * p)) by (nonlinear_arith)
                requires
                    p > 0,
                    f < w,
            ;
        }
    }
}

proof fn lemma_magnitude_grows(a: nat, b: nat)
    requires
        a <= b,
    ensures
        magnitude(a) <= magnitude(b),
        a < b ==> magnitude(a) < magnitude(b),
    decreases b - a,
{
    if a < b {
        lemma_magnitude_grows(a, (b - 1) as nat);
        lemma_magnitude_step((b - 1) as nat);
    }
}

/// How far the double with the bits `b` lies from `m / n`, scaled.
pub open spec fn distance(m: nat, n: nat, b: nat) -> nat {
    let x = m * pow2(1074);
    let y = n * magnitude(b);
    if x <= y {
        (y - x) as nat
    } else {
        (x - y) as nat
    }
}

/// `b` is the double that `m / n` rounds to: none is nearer, and where another
/// is as near, `b` is the even one.
pub open spec fn is_nearest(m: nat, n: nat, b: nat) -> bool {
    forall|c: nat|
        c != b ==> distance(m, n, b) < #[trigger] distance(m, n, c) || (distance(m, n, b)
            == distance(m, n, c) && b % 2 == 0)
}

/// `rounds_to_at_least` is what its name says: it holds of `t` exactly where
/// the double that the quotient rounds to is `t` or above.
pub proof fn law_reaching_is_rounding(m: nat, n: nat, t: nat, b: nat)
    requires
        n > 0,
        t > 0,
        is_nearest(m, n, b),
    ensures
        rounds_to_at_least(m, n, t) <==> b >= t,
{
    let low = (t - 1) as nat;
    lemma_magnitude_grows(low, t);
    let at_t = n * magnitude(t);
    let at_low = n * magnitude(low);
    let at_b = n * magnitude(b);
    assert(n * (magnitude(low) + magnitude(t)) == at_low + at_t) by (nonlinear_arith)
        requires
            at_low == n * magnitude(low),
            at_t == n * magnitude(t),
    ;
    lemma_times_keeps_order(n, magnitude(low), magnitude(t));
    if b >= t {
        lemma_magnitude_grows(t, b);
        lemma_times_keeps_order(n, magnitude(t), magnitude(b));
        assert(distance(m, n, low) >= distance(m, n, b));
        if b > t {
            assert(at_b > at_t);
        }
    } else {
        lemma_magnitude_grows(b, low);
        lemma_times_keeps_order(n, magnitude(b), magnitude(low));
        assert(distance(m, n, t) >= distance(m, n, b));
        if b < low {
            assert(at_b < at_low);
        }
    }
}

proof fn lemma_times_keeps_order(n: nat, a: nat, b: nat)
    requires
        n > 0,
        a <= b,
    ensures
        n * a <= n * b,
        a < b ==> n * a < n * b,
{
    assert(n * a <= n * b) by (nonlinear_arith)
        requires
            a <= b,
    ;
    if a < b {
        assert(n * a < n * b) by (nonlinear_arith)
            requires
                n > 0,
                a < b,
        ;
    }
}

/// Whether the quotient `m / n` reaches the threshold.
pub fn quotient_reaches(m: u64, n: u64, threshold: u64) -> (r: bool)
    requires
        1 <= m <= n,
    ensures
        r == reaches(m as nat, n as nat, threshold),
{
    if threshold % SIGN > INFINITY {
        return false;
    }
    if threshold == 0 || threshold >= SIGN {
        return true;
    }
    if threshold > ONE {
        return false;
    }
    let e: u64 = threshold / FRACTION_BITS;
    let f: u64 = threshold % FRACTION_BITS;
    let ghost t = threshold as nat;
    if e < 955 {
        // Below two to the minus 68th, which no quotient of two counts is.
        proof {
            lemma_tiny_is_reached(m as nat, n as nat, t);
        }
        return true;
    }
    // The midpoint below the threshold is `s` times a power of two.
    let (s, k): (u128, u64) = if f > 0 {
        (FRACTION_BITS as u128 * 2 + f as u128 * 2 - 1, 1076 - e)
    } else {
        (FRACTION_BITS as u128 * 4 - 1, 1077 - e)
    };
    proof {
        assert(e <= 1023);
        lemma_midpoint(t, s as nat, k as nat);
        assert(s * n <= 0x40_0000_0000_0000 * 0xFFFF_FFFF_FFFF_FFFF) by (nonlinear_arith)
            requires
                s <= 0x40_0000_0000_0000,
                n <= 0xFFFF_FFFF_FFFF_FFFF,
                s >= 0,
                n >= 0,
        ;
    }
    let rhs: u128 = s * n as u128;
    let p: u128 = two_to(k);
    proof {
        lemma_pow2_pos(k as nat);
    }
    let q: u128 = rhs / p;
    let rest: u128 = rhs % p;
    proof {
        lemma_compare_scaled(m as nat, n as nat, t, s as nat, k as nat);
        lemma_fundamental_div_mod(rhs as int, p as int);
        lemma_compare_quotient(m as int, p as int, q as int, rest as int);
    }
    m as u128 > q || (m as u128 == q && rest == 0 && f % 2 == 0)
}

/// The two doubles at a midpoint have the sum `s * 2^(1075 - k)`.
proof fn lemma_midpoint(t: nat, s: nat, k: nat)
    requires
        955 <= t / FRACTION_BITS as nat <= 1023,
        t % FRACTION_BITS as nat > 0 ==> s == FRACTION_BITS * 2 + t % FRACTION_BITS as nat * 2 - 1
            && k == 1076 - t / FRACTION_BITS as nat,
        t % FRACTION_BITS as nat == 0 ==> s == FRACTION_BITS * 4 - 1 && k == 1077 - t
            / FRACTION_BITS as nat,
    ensures
        k <= 1075,
        magnitude((t - 1) as nat) + magnitude(t) == s * pow2((1075 - k) as nat),
{
    let w = FRACTION_BITS as nat;
    let e = t / w;
    let f = t % w;
    lemma_fundamental_div_mod(t as int, w as int);
    if f > 0 {
        lemma_fundamental_div_mod_converse((t - 1) as int, w as int, e as int, (f - 1) as int);
        let p = pow2((e - 1) as nat);
        assert((w + f - 1) * p + (w + f) * p == (w * 2 + f * 2 - 1) * p) by (nonlinear_arith);
    } else {
        assert(t - 1 == w * (e - 1) + (w - 1)) by (nonlinear_arith)
            requires
                t == w * e,
        ;
        lemma_fundamental_div_mod_converse((t - 1) as int, w as int, (e - 1) as int, (w - 1) as int);
        let p = pow2((e - 2) as nat);
        lemma_pow2_unfold((e - 1) as nat);
        assert((w + (w - 1)) * p + w * (2 * p) == (w * 4 - 1) * p) by (nonlinear_arith);
    }
}

proof fn lemma_compare_scaled(m: nat, n: nat, t: nat, s: nat, k: nat)
    requires
        k <= 1075,
        magnitude((t - 1) as nat) + magnitude(t) == s * pow2((1075 - k) as nat),
    ensures
        (m * pow2(k) > s * n) == (2 * (m * pow2(1074)) > n * (magnitude((t - 1) as nat) + magnitude(
            t,
        ))),
        (m * pow2(k) == s * n) == (2 * (m * pow2(1074)) == n * (magnitude((t - 1) as nat)
            + magnitude(t))),
{
    let p = pow2((1075 - k) as nat);
    lemma_pow2_pos((1075 - k) as nat);
    lemma_pow2_unfold(1075);
    lemma_pow2_adds(k, (1075 - k) as nat);
    let a = m * pow2(k);
    let b = s * n;
    assert(2 * (m * pow2(1074)) == a * p) by (nonlinear_arith)
        requires
            2 * pow2(1074) == pow2(k) * p,
            a == m * pow2(k),
    ;
    assert(n * (s * p) == b * p) by (nonlinear_arith)
        requires
            b == s * n,
    ;
    assert((a > b) == (a * p > b * p) && (a == b) == (a * p == b * p)) by (nonlinear_arith)
        requires
            p > 0,
    ;
}

/// Comparing `m * p` with `p * q + rest` is comparing `m` with `q`.
proof fn lemma_compare_quotient(m: int, p: int, q: int, rest: int)
    requires
        0 <= rest < p,
    ensures
        (m * p > p * q + rest) == (m > q),
        (m * p == p * q + rest) == (m == q && rest == 0),
{
    if m > q {
        assert(m * p >= p * q + p) by (nonlinear_arith)
            requires
                m >= q + 1,
                p > 0,
        ;
    } else if m < q {
        assert(m * p <= p * q - p) by (nonlinear_arith)
            requires
                m <= q - 1,
                p > 0,
        ;
    } else {
        assert(m * p == p * q) by (nonlinear_arith)
            requires
                m == q,
        ;
    }
}

proof fn lemma_tiny_is_reached(m: nat, n: nat, t: nat)
    requires
        1 <= m <= n <= u64::MAX,
        0 < t,
        t / FRACTION_BITS as nat <= 954,
    ensures
        rounds_to_at_least(m, n, t),
{
    let w = FRACTION_BITS as nat;
    lemma_magnitude_grows((t - 1) as nat, t);
    // The magnitude of `t` is below that of the bits `955 * w`.
    let top = 955 * w;
    lemma_fundamental_div_mod(t as int, w as int);
    assert(t < top) by (nonlinear_arith)
        requires
            t == w * (t / w) + t % w,
            t % w < w,
            w > 0,
            t / w <= 954,
            top == 955 * w,
    ;
    lemma_magnitude_grows(t, top);
    lemma_fundamental_div_mod_converse(top as int, w as int, 955, 0);
    assert(magnitude(top) == w * pow2(954));
    lemma2_to64_rest();
    assert(w == pow2(52));
    lemma_pow2_adds(52, 954);
    lemma_pow2_adds(64, 1006);
    lemma_pow2_strictly_increases(1070, 1074);
    let sum = magnitude((t - 1) as nat) + magnitude(t);
    let small = pow2(1006);
    assert(sum < 2 * small);
    assert(n * sum <= pow2(64) * (2 * small)) by (nonlinear_arith)
        requires
            n <= pow2(64),
            sum <= 2 * small,
            n >= 0,
            sum >= 0,
    ;
    assert(pow2(64) * (2 * small) == 2 * (pow2(64) * small)) by (nonlinear_arith);
    assert(m * pow2(1074) >= pow2(1074)) by (nonlinear_arith)
        requires
            m >= 1,
            pow2(1074) >= 0,
    ;
}

/// One reaches every threshold that is a number and not above one.
pub proof fn lemma_one_reaches(n: nat, threshold: u64)
    requires
        n > 0,
        !is_nan(threshold),
        threshold <= ONE || threshold >= SIGN,
    ensures
        reaches(n, n, threshold),
{
    if 0 < threshold <= ONE {
        let t = threshold as nat;
        let w = FRACTION_BITS as nat;
        lemma_magnitude_grows(t, ONE as nat);
        lemma_magnitude_grows((t - 1) as nat, t);
        assert(ONE as nat / w == 1023 && ONE as nat % w == 0);
        lemma2_to64_rest();
        lemma_pow2_adds(52, 1022);
        let one = pow2(1074);
        assert(magnitude(ONE as nat) == one);
        let sum = magnitude((t - 1) as nat) + magnitude(t);
        lemma_times_keeps_order(n, sum, 2 * one);
        assert(n * (2 * one) == 2 * (n * one)) by (nonlinear_arith);
    }
}

/// The whole number that a double is, as a `u64`: the largest `u64` where it
/// is larger.
pub fn whole_number(b: u64) -> (r: Option<u64>)
    ensures
        r == saturated_whole(b),
{
    if b == SIGN {
        return Some(0);
    }
    if b >= INFINITY {
        return None;
    }
    let e: u64 = b / FRACTION_BITS;
    let f: u64 = b % FRACTION_BITS;
    proof {
        lemma2_to64();
        lemma2_to64_rest();
        lemma_pow2_strictly_increases(53, 1074);
    }
    if e == 0 {
        if f == 0 {
            proof {
                lemma_small_mod(0, pow2(1074));
                lemma_basic_div(0, pow2(1074) as int);
            }
            return Some(0);
        }
        proof {
            lemma_small_mod(f as nat, pow2(1074));
        }
        return None;
    }
    let whole: u64 = FRACTION_BITS + f;
    let ghost units = magnitude(b as nat);
    assert(units == whole * pow2((e - 1) as nat));
    if e < 1023 {
        proof {
            lemma_pow2_adds(53, (e - 1) as nat);
            lemma_pow2_pos((e - 1) as nat);
            assert(whole * pow2((e - 1) as nat) < pow2(53) * pow2((e - 1) as nat))
                by (nonlinear_arith)
                requires
                    whole < pow2(53),
                    pow2((e - 1) as nat) > 0,
            ;
            assert(whole * pow2((e - 1) as nat) > 0) by (nonlinear_arith)
                requires
                    whole > 0,
                    pow2((e - 1) as nat) > 0,
            ;
            if 53 + e - 1 < 1074 {
                lemma_pow2_strictly_increases((53 + e - 1) as nat, 1074);
            }
            lemma_small_mod(units, pow2(1074));
        }
        return None;
    }
    if e <= 1075 {
        let k: u64 = 1075 - e;
        let p: u128 = two_to(k);
        let ghost scale = pow2((e - 1) as nat);
        proof {
            lemma_pow2_pos(k as nat);
            lemma_pow2_pos((e - 1) as nat);
            lemma_pow2_adds(k as nat, (e - 1) as nat);
            lemma_truncate_scaled(whole as int, p as int, scale as int);
        }
        if whole as u128 % p != 0 {
            return None;
        }
        let v: u128 = whole as u128 / p;
        proof {
            lemma_div_is_ordered_by_denominator(whole as int, 1, p as int);
            lemma_div_basics(whole as int);
        }
        return Some(v as u64);
    }
    let k: u64 = e - 1075;
    proof {
        lemma_pow2_adds(1074, k as nat);
        assert(whole * pow2((e - 1) as nat) == (whole * pow2(k as nat)) * pow2(1074))
            by (nonlinear_arith)
            requires
                pow2((e - 1) as nat) == pow2(1074) * pow2(k as nat),
        ;
        lemma_mod_multiples_basic((whole * pow2(k as nat)) as int, pow2(1074) as int);
        lemma_multiple_over_divisor((whole * pow2(k as nat)) as int, pow2(1074) as int);
        assert(whole_value(b) == Some((whole * pow2(k as nat)) as nat));
    }
    if k >= 12 {
        proof {
            if k > 12 {
                lemma_pow2_strictly_increases(12, k as nat);
            }
            assert(whole * pow2(k as nat) >= 0x0010_0000_0000_0000 * 0x1000) by (nonlinear_arith)
                requires
                    whole >= 0x0010_0000_0000_0000,
                    pow2(k as nat) >= 0x1000,
            ;
        }
        return Some(u64::MAX);
    }
    let p: u128 = two_to(k);
    proof {
        if k < 11 {
            lemma_pow2_strictly_increases(k as nat, 11);
        }
        assert(whole * p <= 0x001F_FFFF_FFFF_FFFF * 0x800) by (nonlinear_arith)
            requires
                whole <= 0x001F_FFFF_FFFF_FFFF,
                p <= 0x800,
                whole >= 0,
                p >= 0,
        ;
    }
    Some((whole as u128 * p) as u64)
}

proof fn lemma_multiple_over_divisor(x: int, d: int)
    requires
        d > 0,
    ensures
        (x * d) / d == x,
{
    lemma_div_multiples_vanish(x, d);
    assert(x * d == d * x) by (nonlinear_arith);
}

/// Scaling both sides by `scale` keeps the remainder zero and the quotient.
proof fn lemma_truncate_scaled(x: int, p: int, scale: int)
    requires
        x >= 0,
        p > 0,
        scale > 0,
    ensures
        (x * scale) % (p * scale) == (x % p) * scale,
        ((x * scale) % (p * scale) == 0) == (x % p == 0),
        (x * scale) / (p * scale) == x / p,
{
    lemma_fundamental_div_mod(x, p);
    let q = x / p;
    let r = x % p;
    assert(x * scale == (p * scale) * q + r * scale) by (nonlinear_arith)
        requires
            x == p * q + r,
    ;
    assert(0 <= r * scale < p * scale) by (nonlinear_arith)
        requires
            0 <= r < p,
            scale > 0,
    ;
    lemma_fundamental_div_mod_converse(x * scale, p * scale, q, r * scale);
    assert((r * scale == 0) == (r == 0)) by (nonlinear_arith)
        requires
            scale > 0,
    ;
}

/// The place of the highest bit of `n`.
proof fn lemma_highest_bit(n: nat) -> (k: nat)
    requires
        n > 0,
    ensures
        pow2(k) <= n < pow2(k + 1),
    decreases n,
{
    lemma2_to64();
    if n == 1 {
        0
    } else {
        let k = lemma_highest_bit(n / 2);
        lemma_pow2_unfold(k + 1);
        lemma_pow2_unfold(k + 2);
        k + 1
    }
}

/// A double has the value `n`.
proof fn lemma_exact_double(n: nat) -> (c: nat)
    requires
        n <= 0x20_0000_0000_0000,
    ensures
        c < INFINITY,
        magnitude(c) == n * pow2(1074),
{
    lemma2_to64();
    lemma2_to64_rest();
    if n == 0 {
        assert(0 * pow2(1074) == 0);
        return 0;
    }
    let w = FRACTION_BITS as nat;
    let k = lemma_highest_bit(n);
    if k >= 54 {
        if k > 54 {
            lemma_pow2_strictly_increases(54, k);
        }
        assert(false);
    }
    if k == 53 {
        assert(n == 0x20_0000_0000_0000);
        let c = (1076 * w) as nat;
        lemma_fundamental_div_mod_converse(c as int, w as int, 1076, 0);
        lemma_pow2_adds(1, 1074);
        assert(w * (2 * pow2(1074)) == n * pow2(1074)) by (nonlinear_arith)
            requires
                2 * w == n,
        ;
        return c;
    }
    let d = (52 - k) as nat;
    let up = pow2(d);
    lemma_pow2_adds(k, d);
    lemma_pow2_adds(k + 1, d);
    lemma_pow2_pos(d);
    assert(w <= n * up < 2 * w) by (nonlinear_arith)
        requires
            pow2(k) <= n,
            n + 1 <= pow2(k + 1),
            pow2(k) * up == w,
            pow2(k + 1) * up == 2 * w,
            up > 0,
    ;
    let f = (n * up - w) as nat;
    let e = (1023 + k) as nat;
    let c = w * e + f;
    lemma_fundamental_div_mod_converse(c as int, w as int, e as int, f as int);
    lemma_pow2_adds(d, (e - 1) as nat);
    assert((n * up) * pow2((e - 1) as nat) == n * (up * pow2((e - 1) as nat))) by (nonlinear_arith);
    c
}

/// A whole number up to two to the 53rd is read exactly: the double nearest to
/// it is that number.
pub proof fn law_small_numbers_are_read_exactly(n: u64, b: u64)
    requires
        n <= 0x20_0000_0000_0000,
        is_nearest(n as nat, 1, b as nat),
    ensures
        saturated_whole(b) == Some(n),
{
    let x = n * pow2(1074);
    let c = lemma_exact_double(n as nat);
    assert(distance(n as nat, 1, c) == 0);
    assert(magnitude(b as nat) == x);
    if b as nat <= c {
        lemma_magnitude_grows(b as nat, c);
    } else {
        lemma_magnitude_grows(c, b as nat);
    }
    assert(b as nat == c);
    lemma_pow2_pos(1074);
    lemma_mod_multiples_basic(n as int, pow2(1074) as int);
    lemma_multiple_over_divisor(n as int, pow2(1074) as int);
}

/// A higher threshold is stricter: what reaches it reaches every lower one.
/// Both are numbers from zero up.
pub proof fn law_a_higher_threshold_is_stricter(m: nat, n: nat, low: u64, high: u64)
    requires
        n > 0,
        low <= high <= INFINITY,
        reaches(m, n, high),
    ensures
        reaches(m, n, low),
{
    if 0 < low < high {
        let a = low as nat;
        let b = high as nat;
        lemma_magnitude_grows(a, b);
        lemma_magnitude_grows((a - 1) as nat, (b - 1) as nat);
        let below = magnitude((a - 1) as nat) + magnitude(a);
        let above = magnitude((b - 1) as nat) + magnitude(b);
        lemma_times_keeps_order(n, below, above);
    }
}

/// A larger quotient reaches every threshold that a smaller one reaches.
pub proof fn law_more_reaches_too(m: nat, more: nat, n: nat, threshold: u64)
    requires
        m <= more,
        reaches(m, n, threshold),
    ensures
        reaches(more, n, threshold),
{
    let p = pow2(1074);
    assert(m * p <= more * p) by (nonlinear_arith)
        requires
            m <= more,
            p >= 0,
    ;
}

/// How doubles grow: from zero, by a step that is one unit up to the 53rd bit
/// and twice as large each time the exponent grows; one is two to the 1074th
/// units.
pub proof fn law_doubles_grow_by_their_exponent(e: nat, f: nat)
    requires
        f < 0x10_0000_0000_0000,
    ensures
        magnitude(0) == 0,
        magnitude(0x3FF0_0000_0000_0000) == pow2(1074),
        magnitude(f) == f,
        magnitude(0x10_0000_0000_0000 + f) == 0x10_0000_0000_0000 + f,
        magnitude((e + 2) * 0x10_0000_0000_0000 + f) == 2 * magnitude(
            (e + 1) * 0x10_0000_0000_0000 + f,
        ),
{
    let w = 0x10_0000_0000_0000nat;
    let one = 0x3FF0_0000_0000_0000nat;
    assert(one / w == 1023 && one % w == 0);
    lemma2_to64_rest();
    lemma_pow2_adds(52, 1022);
    lemma_fundamental_div_mod_converse(f as int, w as int, 0, f as int);
    lemma_fundamental_div_mod_converse((w + f) as int, w as int, 1, f as int);
    lemma2_to64();
    assert((w + f) * pow2(0) == w + f);
    let a = (e + 1) * w + f;
    let b = (e + 2) * w + f;
    assert((e + 1) * w == w * (e + 1)) by (nonlinear_arith);
    assert((e + 2) * w == w * (e + 2)) by (nonlinear_arith);
    lemma_fundamental_div_mod_converse(a as int, w as int, (e + 1) as int, f as int);
    lemma_fundamental_div_mod_converse(b as int, w as int, (e + 2) as int, f as int);
    lemma_pow2_unfold(e + 1);
    let p = pow2(e);
    assert((w + f) * (2 * p) == 2 * ((w + f) * p)) by (nonlinear_arith);
}

/// A double is a whole number where its value is one; what is beyond the largest
/// number is read as that, and minus zero as zero. What is negative, not finite
/// or has a fraction is none.
pub proof fn law_a_whole_number_is_its_value(b: u64, n: nat)
    ensures
        b < 0x7FF0_0000_0000_0000 && magnitude(b as nat) == n * pow2(1074) ==> saturated_whole(b)
            == Some(
            if n > 0xFFFF_FFFF_FFFF_FFFF {
                0xFFFF_FFFF_FFFF_FFFFu64
            } else {
                n as u64
            },
        ),
        b < 0x7FF0_0000_0000_0000 && (forall|k: nat|
            magnitude(b as nat) != #[trigger] (k * pow2(1074))) ==> saturated_whole(b) is None,
        b >= 0x7FF0_0000_0000_0000 && b != 0x8000_0000_0000_0000 ==> saturated_whole(b) is None,
        saturated_whole(0x8000_0000_0000_0000) == Some(0u64),
{
    let p = pow2(1074);
    lemma_pow2_pos(1074);
    let m = magnitude(b as nat);
    if m == n * p {
        assert(n * p == p * n) by (nonlinear_arith);
        lemma_fundamental_div_mod_converse(m as int, p as int, n as int, 0);
    }
    lemma_fundamental_div_mod(m as int, p as int);
    let q = m / p;
    if m % p == 0 {
        assert(p * q == q * p) by (nonlinear_arith);
        assert(m == q * p);
    }
}

/// A quotient of counts below two to the 53rd reaches one half where twice the
/// upper count is at least the lower, and one where the two are the same.
pub proof fn law_half_and_all_are_reached_exactly(m: nat, n: nat)
    requires
        1 <= m <= n < 0x20_0000_0000_0000,
    ensures
        reaches(m, n, 0x3FE0_0000_0000_0000) <==> 2 * m >= n,
        reaches(m, n, 0x3FF0_0000_0000_0000) <==> m == n,
{
    let w = 0x10_0000_0000_0000nat;
    let half = 0x3FE0_0000_0000_0000nat;
    let one = 0x3FF0_0000_0000_0000nat;
    let big = 0x40_0000_0000_0000nat;
    assert(half / w == 1022 && half % w == 0);
    assert(one / w == 1023 && one % w == 0);
    assert((half - 1) as nat / w == 1021 && (half - 1) as nat % w == w - 1);
    assert((one - 1) as nat / w == 1022 && (one - 1) as nat % w == w - 1);
    let p = pow2(1020);
    lemma_pow2_pos(1020);
    lemma_pow2_unfold(1021);
    lemma_pow2_unfold(1022);
    lemma2_to64_rest();
    lemma_pow2_adds(54, 1020);
    assert(pow2(54) == big);
    assert(pow2(1074) == big * p);
    let x = 2 * (m * (big * p));
    let low = (2 * w - 1) * p + w * (2 * p);
    assert((w + (w - 1)) as nat * p == (2 * w - 1) * p);
    assert(magnitude((half - 1) as nat) + magnitude(half) == low);
    assert(low == (big - 1) * p) by (nonlinear_arith)
        requires
            low == (2 * w - 1) * p + w * (2 * p),
            big == 4 * w,
    ;
    let high = (2 * w - 1) * (2 * p) + w * (2 * (2 * p));
    assert(magnitude((one - 1) as nat) + magnitude(one) == high);
    assert(high == 2 * ((big - 1) * p)) by (nonlinear_arith)
        requires
            high == (2 * w - 1) * (2 * p) + w * (2 * (2 * p)),
            big == 4 * w,
    ;
    lemma_scaled(2 * m, n, big, p);
    lemma_scaled(m, n, big, p);
    assert(x == (2 * m) * (big * p)) by (nonlinear_arith)
        requires
            x == 2 * (m * (big * p)),
    ;
    assert(n * (2 * ((big - 1) * p)) == 2 * (n * ((big - 1) * p))) by (nonlinear_arith);
}

proof fn lemma_scaled(k: nat, n: nat, big: nat, p: nat)
    requires
        n < big,
        p > 0,
    ensures
        k >= n ==> k * (big * p) >= n * ((big - 1) * p),
        k < n ==> k * (big * p) < n * ((big - 1) * p),
{
    if k >= n {
        assert(k * (big * p) >= n * ((big - 1) * p)) by (nonlinear_arith)
            requires
                k >= n,
                big > 0,
                p > 0,
        ;
    } else {
        assert(k * big < n * (big - 1)) by (nonlinear_arith)
            requires
                k + 1 <= n < big,
        ;
        assert(k * (big * p) == (k * big) * p) by (nonlinear_arith);
        assert(n * ((big - 1) * p) == (n * (big - 1)) * p) by (nonlinear_arith);
        assert((k * big) * p < (n * (big - 1)) * p) by (nonlinear_arith)
            requires
                k * big < n * (big - 1),
                p > 0,
        ;
    }
}

/// Every quotient reaches zero and what is below it, none a number above one or
/// what is no number.
pub proof fn law_thresholds_outside_of_zero_to_one(m: nat, n: nat, t: u64)
    ensures
        reaches(m, n, 0),
        0x8000_0000_0000_0000 <= t <= 0xFFF0_0000_0000_0000 ==> reaches(m, n, t),
        0x3FF0_0000_0000_0000 < t < 0x8000_0000_0000_0000 ==> !reaches(m, n, t),
        t > 0xFFF0_0000_0000_0000 ==> !reaches(m, n, t),
{
}

}
