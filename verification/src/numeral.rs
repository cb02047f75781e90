//! Decimal numerals, read as the nearest binary64 value.
use vstd::arithmetic::power::{lemma_pow0, lemma_pow1, lemma_pow_adds, lemma_pow_positive, pow};
use vstd::arithmetic::power2::{
    lemma2_to64,
    lemma_pow2_adds,
    lemma_pow2_pos,
    lemma_pow2_strictly_increases,
    pow2,
};
use vstd::prelude::*;
use vstd::string::*;

use crate::binary64::{huge_is_infinite, nearest, round_ratio, tiny_is_zero};
use crate::measure::Measure;
use crate::natural::Natural;
use crate::number::{
    decimal_of,
    denominator,
    digits_only,
    digits_value_append,
    digits_value_bound,
    digits_value_single,
    is_decimal,
    numerator,
    scale,
    signed_minus,
    significand,
    ten_outgrows_two,
    unsigned,
    Decimal,
};
use crate::text::{chars_of, digits_value, is_digit, lower, lower_text, same, slice_text};

verus! {

/// The binary64 value nearest to the number that a numeral writes out; `None` when it writes out
/// none.
pub open spec fn numeral_value(s: Seq<char>) -> Option<Measure> {
    if is_decimal(s) {
        Some(nearest(numerator(s), denominator(s)).signed(signed_minus(s)))
    } else {
        None
    }
}

/// A power of ten is at most the power of two with four times its exponent.
proof fn ten_below_sixteen(k: nat)
    ensures
        pow(10, k) <= pow2(4 * k),
    decreases k,
{
    lemma2_to64();
    if k == 0 {
        lemma_pow0(10);
    } else {
        ten_below_sixteen((k - 1) as nat);
        lemma_pow_adds(10, (k - 1) as nat, 1);
        lemma_pow1(10);
        lemma_pow2_adds((4 * (k - 1)) as nat, 4);
    }
}

proof fn ten_grows(a: nat, b: nat)
    requires
        a <= b,
    ensures
        pow(10, b) == pow(10, a) * pow(10, (b - a) as nat),
        0 < pow(10, a) <= pow(10, b),
{
    lemma_pow_adds(10, a, (b - a) as nat);
    lemma_pow_positive(10, a);
    lemma_pow_positive(10, (b - a) as nat);
    let x = pow(10, a);
    let y = pow(10, (b - a) as nat);
    assert(x <= x * y) by (nonlinear_arith)
        requires
            x > 0,
            y >= 1,
    ;
}

/// Digits with zeros in front are worth as much as those that follow.
proof fn zeros_count_for_nothing(s: Seq<char>, z: int)
    requires
        0 <= z <= s.len(),
        forall|i: int| 0 <= i < z ==> s[i] == '0',
    ensures
        digits_value(s) == digits_value(s.skip(z)),
{
    let lead = s.take(z);
    zeros_are_zero(lead);
    assert(lead + s.skip(z) =~= s);
    digits_value_append(lead, s.skip(z));
    assert(0 * pow(10, s.skip(z).len()) == 0);
}

proof fn zeros_are_zero(s: Seq<char>)
    requires
        forall|i: int| 0 <= i < s.len() ==> s[i] == '0',
    ensures
        digits_value(s) == 0,
    decreases s.len(),
{
    if s.len() > 0 {
        zeros_are_zero(s.drop_last());
    }
}

/// The value of digits, the first `z` of them zero and the next one not.
proof fn value_bounds(s: Seq<char>, z: int)
    requires
        0 <= z < s.len(),
        digits_only(s),
        forall|i: int| 0 <= i < z ==> s[i] == '0',
        s[z] != '0',
    ensures
        pow(10, (s.len() - z - 1) as nat) <= digits_value(s) < pow(10, (s.len() - z) as nat),
        digits_value(s) > 0,
{
    let t = s.skip(z);
    assert forall|i: int| 0 <= i < t.len() implies is_digit(#[trigger] t[i]) by {
        assert(is_digit(s[i + z]));
    }
    zeros_count_for_nothing(s, z);
    digits_value_bound(t);
    assert(t =~= seq![t[0]] + t.skip(1));
    digits_value_append(seq![t[0]], t.skip(1));
    digits_value_single(t[0]);
    assert(is_digit(t[0]));
    lemma_pow_positive(10, (s.len() - z - 1) as nat);
    let first = (t[0] as u32 - 48) as int;
    let p = pow(10, (s.len() - z - 1) as nat);
    assert(first * p >= p) by (nonlinear_arith)
        requires
            first >= 1,
            p > 0,
    ;
}

proof fn far_above(s: Seq<char>, v: nat, n: nat, z: nat)
    requires
        v == digits_value(significand(s)),
        n == significand(s).len(),
        z < n,
        pow(10, (n - z - 1) as nat) <= v,
        n + scale(s) - z > 400,
    ensures
        nearest(numerator(s), denominator(s)) == (Measure::Infinite { negative: false }),
{
    let k = scale(s);
    ten_outgrows_two(400);
    lemma_pow2_strictly_increases(1024, 1200);
    lemma_pow2_pos(1024);
    let a = (n - z - 1) as nat;
    let h = pow2(1024) as int;
    if k >= 0 {
        lemma_pow_adds(10, a, k as nat);
        lemma_pow_positive(10, k as nat);
        ten_grows(400, a + k as nat);
        let x = pow(10, a);
        let y = pow(10, k as nat);
        assert(v * y >= x * y) by (nonlinear_arith)
            requires
                v >= x,
                y > 0,
        ;
        assert(1 * h == h);
    } else {
        let m = (-k) as nat;
        // a >= m + 400
        ten_grows(m, a);
        ten_grows(400, (a - m) as nat);
        let d = pow(10, m);
        let e = pow(10, (a - m) as nat);
        lemma_pow_positive(10, m);
        assert(d * e >= d * h) by (nonlinear_arith)
            requires
                e >= h,
                d > 0,
        ;
        assert(denominator(s) == d);
        assert(v >= d * h);
        assert(d * h > 0) by (nonlinear_arith)
            requires
                d > 0,
                h > 0,
        ;
    }
    huge_is_infinite(numerator(s), denominator(s));
}

proof fn far_below(s: Seq<char>, v: nat, n: nat, z: nat)
    requires
        v == digits_value(significand(s)),
        n == significand(s).len(),
        z < n,
        0 < v < pow(10, (n - z) as nat),
        n + scale(s) - z < -400,
    ensures
        nearest(numerator(s), denominator(s)) == (Measure::Finite {
            negative: false,
            mantissa: 0,
            exponent: -1074i32,
        }),
{
    let m = (-scale(s)) as nat;
    let a = (n - z) as nat;
    ten_outgrows_two(400);
    lemma_pow2_strictly_increases(1076, 1200);
    lemma_pow2_pos(1076);
    ten_grows(a, m);
    ten_grows(400, (m - a) as nat);
    let x = pow(10, a);
    let y = pow(10, (m - a) as nat);
    let h = pow2(1076) as int;
    assert(v * h <= x * y) by (nonlinear_arith)
        requires
            0 <= v <= x,
            0 <= h <= y,
    ;
    tiny_is_zero(numerator(s), denominator(s));
}

/// A numeral with its first digit near its point is neither too great nor too small to be rounded.
proof fn within_reach(s: Seq<char>, v: nat, n: nat, z: nat)
    requires
        v == digits_value(significand(s)),
        n == significand(s).len(),
        z < n,
        pow(10, (n - z - 1) as nat) <= v,
        0 < v < pow(10, (n - z) as nat),
        -400 <= n + scale(s) - z <= 400,
    ensures
        numerator(s) > 0,
        denominator(s) > 0,
        denominator(s) <= numerator(s) * pow2(1604),
        numerator(s) <= denominator(s) * pow2(1604),
{
    let k = scale(s);
    let num = numerator(s);
    let den = denominator(s);
    ten_below_sixteen(401);
    ten_grows(400, 401);
    let w = pow2(1604) as int;
    let t = pow(10, 401);
    if k >= 0 {
        let y = pow(10, k as nat);
        lemma_pow_positive(10, k as nat);
        assert(v * y > 0) by (nonlinear_arith)
            requires
                v > 0,
                y > 0,
        ;
        lemma_pow_adds(10, (n - z) as nat, k as nat);
        let x = pow(10, (n - z) as nat);
        assert(v * y <= x * y) by (nonlinear_arith)
            requires
                v < x,
                y > 0,
        ;
        ten_grows((n - z) as nat + k as nat, 401);
        assert(num * w >= 1) by (nonlinear_arith)
            requires
                num >= 1,
                w >= 1,
        ;
        assert(1 * w == w);
    } else {
        let m = (-k) as nat;
        lemma_pow_positive(10, m);
        let d = pow(10, m);
        let lo = (n - z - 1) as nat;
        let hi = (n - z) as nat;
        // den <= num * 10^401
        if m <= lo {
            ten_grows(m, lo);
            assert(num * w >= num) by (nonlinear_arith)
                requires
                    num >= 1,
                    w >= 1,
            ;
        } else {
            ten_grows(lo, m);
            ten_grows((m - lo) as nat, 401);
            let x = pow(10, lo);
            let y = pow(10, (m - lo) as nat);
            assert(x * y <= num * w) by (nonlinear_arith)
                requires
                    0 < x <= num,
                    0 < y <= w,
            ;
        }
        if hi <= m {
            ten_grows(hi, m);
            assert(d * w >= d) by (nonlinear_arith)
                requires
                    d >= 1,
                    w >= 1,
            ;
        } else {
            ten_grows(m, hi);
            ten_grows((hi - m) as nat, 401);
            let y = pow(10, (hi - m) as nat);
            assert(d * y <= d * w) by (nonlinear_arith)
                requires
                    0 < d,
                    0 < y <= w,
            ;
        }
    }
}

fn times_ten(n: Natural, times: u128) -> (r: Natural)
    ensures
        r.value() == n.value() * pow(10, times as nat),
{
    let ghost was = n.value();
    let mut r = n;
    let mut i: u128 = 0;
    proof {
        lemma_pow0(10);
        assert(was * 1 == was);
    }
    while i < times
        invariant
            i <= times,
            r.value() == was * pow(10, i as nat),
        decreases times - i,
    {
        r.times_plus(10, 0);
        proof {
            lemma_pow_adds(10, i as nat, 1);
            lemma_pow1(10);
            let p = pow(10, i as nat);
            assert(was * p * 10 == was * (p * 10)) by (nonlinear_arith);
        }
        i += 1;
    }
    r
}

fn round_decimal(d: &Decimal, Ghost(s): Ghost<Seq<char>>) -> (r: Measure)
    requires
        d.reads(s),
    ensures
        r == nearest(numerator(s), denominator(s)),
{
    let n: usize = d.digits.len();
    let ghost v = digits_value(significand(s));
    let ghost point = significand(s).len() + scale(s);
    let mut z: usize = 0;
    while z < n && d.digits[z] == '0'
        invariant
            z <= n,
            n == d.digits@.len(),
            forall|i: int| 0 <= i < z ==> d.digits@[i] == '0',
        decreases n - z,
    {
        z += 1;
    }
    if z == n {
        proof {
            zeros_are_zero(d.digits@);
            assert(v == 0);
            if scale(s) >= 0 {
                assert(0 * pow(10, scale(s) as nat) == 0);
            }
            assert(numerator(s) == 0);
        }
        return Measure::Finite { negative: false, mantissa: 0, exponent: 0 };
    }
    proof {
        value_bounds(d.digits@, z as int);
    }
    let first: i128 = z as i128;
    // The point may be far out, but no text is that long.
    if d.point > first + 400 {
        proof {
            far_above(s, v, n as nat, z as nat);
        }
        return Measure::Infinite { negative: false };
    }
    if d.point < first - 400 {
        proof {
            far_below(s, v, n as nat, z as nat);
        }
        return Measure::Finite { negative: false, mantissa: 0, exponent: -1074 };
    }
    assert(d.point == point);
    let mut num = Natural::new(0);
    let mut i: usize = 0;
    assert(d.digits@.take(0) =~= Seq::<char>::empty());
    while i < n
        invariant
            i <= n,
            n == d.digits@.len(),
            digits_only(d.digits@),
            num.value() == digits_value(d.digits@.take(i as int)),
        decreases n - i,
    {
        assert(is_digit(d.digits@[i as int]));
        assert(d.digits@.take(i as int + 1).drop_last() =~= d.digits@.take(i as int));
        num.times_plus(10, d.digits[i] as u32 - 48);
        i += 1;
    }
    assert(d.digits@.take(n as int) =~= d.digits@);
    let den = Natural::new(1);
    proof {
        within_reach(s, v, n as nat, z as nat);
        lemma_pow0(10);
    }
    if d.point >= n as i128 {
        let up = times_ten(num, (d.point - n as i128) as u128);
        round_ratio(up, den, Ghost(1604))
    } else {
        let down = times_ten(den, (n as i128 - d.point) as u128);
        assert(1 * pow(10, (n - d.point) as nat) == pow(10, (n - d.point) as nat));
        round_ratio(num, down, Ghost(1604))
    }
}

/// The binary64 value nearest to the number that a numeral writes out; `None` when it writes out
/// none.
pub fn read_measure(s: &str) -> (r: Option<Measure>)
    ensures
        r == numeral_value(s@),
{
    match decimal_of(s) {
        Some(d) => {
            let m = round_decimal(&d, Ghost(s@));
            Some(m.with_sign(d.negative))
        },
        None => None,
    }
}

/// The binary64 value that a text names: a numeral, infinity, or what is not a number.
pub open spec fn float_value(s: Seq<char>) -> Option<Measure> {
    let word = lower(unsigned(s));
    if word == "nan"@ {
        Some(Measure::NotANumber)
    } else if word == "inf"@ || word == "infinity"@ {
        Some(Measure::Infinite { negative: signed_minus(s) })
    } else {
        numeral_value(s)
    }
}

/// The binary64 value that a text names; `None` when it names none.
pub fn read_float(s: &str) -> (r: Option<Measure>)
    ensures
        r == float_value(s@),
{
    let chars = chars_of(s);
    let sign: usize = if chars.len() > 0 && (chars[0] == '+' || chars[0] == '-') {
        1
    } else {
        0
    };
    let negative = chars.len() > 0 && chars[0] == '-';
    let body = slice_text(&chars, sign, chars.len());
    assert(body@ =~= unsigned(s@));
    let word = lower_text(body.as_str());
    if same(word.as_str(), "nan") {
        return Some(Measure::NotANumber);
    }
    if same(word.as_str(), "inf") || same(word.as_str(), "infinity") {
        return Some(Measure::Infinite { negative });
    }
    read_measure(s)
}

} // verus!
