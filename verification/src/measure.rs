//! Measured quantities: the exact value of a binary64 number, as integers.
use vstd::arithmetic::power2::{
    lemma2_to64,
    lemma2_to64_rest,
    lemma_pow2_adds,
    lemma_pow2_pos,
    lemma_pow2_strictly_increases,
    lemma_pow2_unfold,
    pow2,
};
use vstd::prelude::*;
use vstd::string::*;

use crate::json_writer::{dec_is_digits, dec_value};
use crate::number::{is_decimal, power_of_two, unsigned};
use crate::text::{
    all_digits,
    chars_of,
    dec,
    dec_text,
    digits_value,
    is_digit,
    owned,
    pad0,
    padded_text,
    text_of,
};

verus! {

/// A measured quantity: the sign, and the magnitude as `mantissa * 2^exponent`.
#[derive(Debug, Clone, Copy, PartialEq, Eq, Structural)]
pub enum Measure {
    /// Not a number.
    NotANumber,
    Infinite { negative: bool },
    Finite { negative: bool, mantissa: u64, exponent: i32 },
}

/// The number of parts nearest to `mantissa / 2^k`, `scale` of them to the whole, ties to even.
pub open spec fn in_parts(mantissa: u64, k: nat, scale: nat) -> nat {
    let num = mantissa as nat * scale;
    let q = num / pow2(k);
    let r = num % pow2(k);
    if 2 * r > pow2(k) || (2 * r == pow2(k) && q % 2 == 1) {
        q + 1
    } else {
        q
    }
}

/// A magnitude with three decimal places.
pub open spec fn fixed_magnitude(mantissa: u64, exponent: i32) -> Seq<char> {
    if exponent >= 0 {
        dec(mantissa as nat * pow2(exponent as nat)) + ".000"@
    } else {
        let t = in_parts(mantissa, (-exponent) as nat, 1000);
        dec(t / 1000) + "."@ + pad0(dec(t % 1000), 3)
    }
}

/// A magnitude with one decimal place, or with none.
pub open spec fn rounded_magnitude(mantissa: u64, exponent: i32, place: bool) -> Seq<char> {
    if exponent >= 0 {
        dec(mantissa as nat * pow2(exponent as nat)) + (if place {
            ".0"@
        } else {
            ""@
        })
    } else if place {
        let t = in_parts(mantissa, (-exponent) as nat, 10);
        dec(t / 10) + "."@ + dec(t % 10)
    } else {
        dec(in_parts(mantissa, (-exponent) as nat, 1))
    }
}

/// Whether `m * 2^e` and `n * 2^f` are the same.
pub open spec fn same_magnitude(m: u64, e: i32, n: u64, f: i32) -> bool {
    if e >= f {
        m as nat * pow2((e - f) as nat) == n
    } else {
        n as nat * pow2((f - e) as nat) == m
    }
}

impl Measure {
    /// Whether two quantities are the same. What is not a number is not even the same as itself, and
    /// zero is zero whatever its sign.
    pub open spec fn equals(self, other: Measure) -> bool {
        match (self, other) {
            (Measure::Infinite { negative: a }, Measure::Infinite { negative: b }) => a == b,
            (
                Measure::Finite { negative: a, mantissa: m, exponent: e },
                Measure::Finite { negative: b, mantissa: n, exponent: f },
            ) => (m == 0 && n == 0) || (a == b && same_magnitude(m, e, n, f)),
            _ => false,
        }
    }

    /// Whether the quantity is finite and above zero.
    pub open spec fn positive(self) -> bool {
        match self {
            Measure::NotANumber => false,
            Measure::Infinite { .. } => false,
            Measure::Finite { negative, mantissa, .. } => !negative && mantissa > 0,
        }
    }

    /// Whether the quantity is above a whole number.
    pub open spec fn above(self, n: nat) -> bool {
        match self {
            Measure::NotANumber => false,
            Measure::Infinite { negative } => !negative,
            Measure::Finite { negative, mantissa, exponent } => !negative && (if exponent >= 0 {
                mantissa as nat * pow2(exponent as nat) > n
            } else {
                mantissa as nat > n * pow2((-exponent) as nat)
            }),
        }
    }

    /// The whole part of a quantity that is not negative, at most `u64::MAX`.
    pub open spec fn whole_part(self) -> u64 {
        match self {
            Measure::NotANumber => 0,
            Measure::Infinite { negative } => if negative {
                0
            } else {
                u64::MAX
            },
            Measure::Finite { negative, mantissa, exponent } => if negative {
                0
            } else if exponent >= 0 {
                crate::number::saturate(mantissa as nat * pow2(exponent as nat))
            } else {
                (mantissa as nat / pow2((-exponent) as nat)) as u64
            },
        }
    }

    /// The quantity with three decimal places; `null` when it is not finite.
    pub open spec fn fixed(self) -> Seq<char> {
        match self {
            Measure::NotANumber => "null"@,
            Measure::Infinite { .. } => "null"@,
            Measure::Finite { negative, mantissa, exponent } => if negative {
                "-"@ + fixed_magnitude(mantissa, exponent)
            } else {
                fixed_magnitude(mantissa, exponent)
            },
        }
    }

    /// The quantity with one decimal place, or with none.
    pub open spec fn rounded(self, place: bool) -> Seq<char> {
        match self {
            Measure::NotANumber => "NaN"@,
            Measure::Infinite { negative } => if negative {
                "-inf"@
            } else {
                "inf"@
            },
            Measure::Finite { negative, mantissa, exponent } => if negative {
                "-"@ + rounded_magnitude(mantissa, exponent, place)
            } else {
                rounded_magnitude(mantissa, exponent, place)
            },
        }
    }

    /// Whether the quantity is finite and above zero.
    pub fn is_positive(self) -> (r: bool)
        ensures
            r == self.positive(),
    {
        match self {
            Measure::NotANumber => false,
            Measure::Infinite { .. } => false,
            Measure::Finite { negative, mantissa, .. } => !negative && mantissa > 0,
        }
    }

    /// Whether the quantity is finite and above a whole number.
    pub fn exceeds(self, n: u64) -> (r: bool)
        ensures
            r == self.above(n as nat),
    {
        match self {
            Measure::NotANumber => false,
            Measure::Infinite { negative } => !negative,
            Measure::Finite { negative, mantissa, exponent } => {
                if negative {
                    false
                } else if exponent >= 0 {
                    match scaled(mantissa, exponent as u32) {
                        Some(v) => v > n as u128,
                        None => true,
                    }
                } else {
                    let k: i64 = -(exponent as i64);
                    if k >= 64 {
                        proof {
                            lemma2_to64();
                            lemma2_to64_rest();
                            large_power(k as nat);
                            let p = pow2(k as nat) as int;
                            if n > 0 {
                                assert(n * p >= p) by (nonlinear_arith)
                                    requires
                                        n >= 1,
                                        p > 0,
                                ;
                            } else {
                                assert(n * p == 0) by (nonlinear_arith)
                                    requires
                                        n == 0,
                                ;
                            }
                        }
                        n == 0 && mantissa > 0
                    } else {
                        let unit: u64 = power_of_two(k as u32);
                        let bound: u128 = times(n, unit);
                        mantissa as u128 > bound
                    }
                }
            },
        }
    }

    /// Whether two quantities are the same.
    pub fn is_same(self, other: Measure) -> (r: bool)
        ensures
            r == self.equals(other),
    {
        match (self, other) {
            (Measure::Infinite { negative: a }, Measure::Infinite { negative: b }) => a == b,
            (
                Measure::Finite { negative: a, mantissa: m, exponent: e },
                Measure::Finite { negative: b, mantissa: n, exponent: f },
            ) => {
                let apart: i64 = e as i64 - f as i64;
                let level = if apart >= 0 {
                    scaled(m, apart as u32) == Some(n as u128)
                } else {
                    scaled(n, (-apart) as u32) == Some(m as u128)
                };
                (m == 0 && n == 0) || (a == b && level)
            },
            _ => false,
        }
    }

    /// The whole part of a quantity that is not negative, at most `u64::MAX`; zero for what is
    /// negative or not finite.
    pub fn whole(self) -> (r: u64)
        ensures
            r == self.whole_part(),
    {
        match self {
            Measure::NotANumber => 0,
            Measure::Infinite { negative } => if negative {
                0
            } else {
                u64::MAX
            },
            Measure::Finite { negative, mantissa, exponent } => {
                if negative {
                    0
                } else if exponent >= 0 {
                    match scaled(mantissa, exponent as u32) {
                        Some(v) => if v > u64::MAX as u128 {
                            u64::MAX
                        } else {
                            v as u64
                        },
                        None => u64::MAX,
                    }
                } else {
                    let k: i64 = -(exponent as i64);
                    if k >= 64 {
                        proof {
                            lemma2_to64();
                            lemma2_to64_rest();
                            large_power(k as nat);
                            let p = pow2(k as nat) as int;
                            assert(mantissa as int / p == 0) by (nonlinear_arith)
                                requires
                                    0 <= mantissa < p,
                            ;
                        }
                        0
                    } else {
                        let unit: u64 = power_of_two(k as u32);
                        proof {
                            let u = unit as int;
                            assert(0 <= mantissa as int / u <= mantissa) by (nonlinear_arith)
                                requires
                                    u >= 1,
                                    mantissa >= 0,
                            ;
                        }
                        mantissa / unit
                    }
                }
            },
        }
    }

    /// The quantity with three decimal places; `null` when it is not finite.
    pub fn fixed3(self) -> (r: String)
        ensures
            r@ == self.fixed(),
    {
        match self {
            Measure::NotANumber => owned("null"),
            Measure::Infinite { .. } => owned("null"),
            Measure::Finite { negative, mantissa, exponent } => {
                let size = fixed_text(mantissa, exponent);
                if negative {
                    let mut out = owned("-");
                    out.append(size.as_str());
                    out
                } else {
                    size
                }
            },
        }
    }
}

impl Measure {
    /// The quantity without its sign.
    pub open spec fn size(self) -> Measure {
        match self {
            Measure::NotANumber => Measure::NotANumber,
            Measure::Infinite { .. } => Measure::Infinite { negative: false },
            Measure::Finite { mantissa, exponent, .. } => Measure::Finite {
                negative: false,
                mantissa,
                exponent,
            },
        }
    }

    /// Whether the quantity is below zero, or is a zero with a minus sign.
    pub open spec fn marked(self) -> bool {
        match self {
            Measure::NotANumber => false,
            Measure::Infinite { negative } => negative,
            Measure::Finite { negative, .. } => negative,
        }
    }

    /// The whole part, cut off at the bounds of an `i64`; zero for what is not a number.
    pub open spec fn truncated(self) -> i64 {
        let w = self.size().whole_part();
        if self.marked() {
            if w > i64::MAX {
                i64::MIN
            } else {
                (-(w as int)) as i64
            }
        } else if w > i64::MAX {
            i64::MAX
        } else {
            w as i64
        }
    }

    /// The whole part, cut off at the bounds of an `i64`; zero for what is not a number.
    pub fn to_i64(self) -> (r: i64)
        ensures
            r == self.truncated(),
    {
        let (size, minus) = match self {
            Measure::NotANumber => (self, false),
            Measure::Infinite { negative } => (Measure::Infinite { negative: false }, negative),
            Measure::Finite { negative, mantissa, exponent } => (
                Measure::Finite { negative: false, mantissa, exponent },
                negative,
            ),
        };
        let w: u64 = size.whole();
        if minus {
            if w > i64::MAX as u64 {
                i64::MIN
            } else {
                -(w as i64)
            }
        } else if w > i64::MAX as u64 {
            i64::MAX
        } else {
            w as i64
        }
    }

    /// The quantity with one decimal place, or with none.
    pub fn rounded_text(self, place: bool) -> (r: String)
        ensures
            r@ == self.rounded(place),
    {
        match self {
            Measure::NotANumber => owned("NaN"),
            Measure::Infinite { negative } => if negative {
                owned("-inf")
            } else {
                owned("inf")
            },
            Measure::Finite { negative, mantissa, exponent } => {
                let size = rounded_magnitude_text(mantissa, exponent, place);
                if negative {
                    let mut out = owned("-");
                    out.append(size.as_str());
                    out
                } else {
                    size
                }
            },
        }
    }
}

fn rounded_magnitude_text(mantissa: u64, exponent: i32, place: bool) -> (r: String)
    ensures
        r@ == rounded_magnitude(mantissa, exponent, place),
{
    if exponent >= 0 {
        let mut out = shifted_text(mantissa, exponent as u32);
        out.append(
            if place {
                ".0"
            } else {
                ""
            },
        );
        return out;
    }
    let k: i64 = -(exponent as i64);
    if place {
        let t: u128 = parts_of(mantissa, k as u32, 10);
        let mut out = dec_text(t / 10);
        out.append(".");
        out.append(dec_text(t % 10).as_str());
        out
    } else {
        dec_text(parts_of(mantissa, k as u32, 1))
    }
}

proof fn large_power(k: nat)
    requires
        k >= 64,
    ensures
        pow2(k) > u64::MAX,
{
    lemma2_to64();
    lemma2_to64_rest();
    if k > 64 {
        lemma_pow2_strictly_increases(64, k);
    }
}

fn times(a: u64, b: u64) -> (r: u128)
    ensures
        r == a * b,
{
    proof {
        assert(0 <= a * b <= 0xffff_ffff_ffff_ffff * 0xffff_ffff_ffff_ffff) by (nonlinear_arith)
            requires
                0 <= a <= 0xffff_ffff_ffff_ffff,
                0 <= b <= 0xffff_ffff_ffff_ffff,
        ;
    }
    a as u128 * b as u128
}

/// `m * 2^e`; `None` when it is 2^64 or more and cannot be had.
fn scaled(m: u64, e: u32) -> (r: Option<u128>)
    ensures
        match r {
            Some(v) => v == m as nat * pow2(e as nat),
            None => m as nat * pow2(e as nat) > u64::MAX,
        },
{
    if m == 0 {
        assert(0 * pow2(e as nat) == 0);
        return Some(0);
    }
    if e >= 64 {
        proof {
            large_power(e as nat);
            let p = pow2(e as nat) as int;
            assert(m * p >= p) by (nonlinear_arith)
                requires
                    m >= 1,
                    p > 0,
            ;
        }
        return None;
    }
    let unit: u64 = power_of_two(e);
    Some(times(m, unit))
}

/// Digits without a leading zero are the numeral of their value.
proof fn numeral_is_unique(s: Seq<char>)
    requires
        all_digits(s),
        s[0] != '0' || s.len() == 1,
    ensures
        s == dec(digits_value(s)),
    decreases s.len(),
{
    let n = digits_value(s);
    assert(is_digit(s[s.len() - 1]));
    let d = (s.last() as u32 - 48) as nat;
    if s.len() == 1 {
        assert(s.drop_last() =~= Seq::<char>::empty());
        assert(digits_value(Seq::<char>::empty()) == 0);
        assert(n == d);
        assert(s =~= dec(n));
    } else {
        let head = s.drop_last();
        assert forall|i: int| 0 <= i < head.len() implies is_digit(#[trigger] head[i]) by {
            assert(is_digit(s[i]));
        }
        assert(head[0] == s[0]);
        numeral_is_unique(head);
        leading_digit_counts(head);
        let h = digits_value(head);
        assert(n == h * 10 + d);
        assert(n / 10 == h && n % 10 == d);
        assert(s =~= dec(h).push(s.last()));
    }
}

/// Digits that do not begin with a zero are worth more than nothing.
proof fn leading_digit_counts(s: Seq<char>)
    requires
        all_digits(s),
        s[0] != '0',
    ensures
        digits_value(s) > 0,
    decreases s.len(),
{
    assert(is_digit(s[0]));
    if s.len() > 1 {
        let head = s.drop_last();
        assert forall|i: int| 0 <= i < head.len() implies is_digit(#[trigger] head[i]) by {
            assert(is_digit(s[i]));
        }
        leading_digit_counts(head);
    } else {
        assert(s.drop_last() =~= Seq::<char>::empty());
    }
}

/// Doubles the number that a numeral writes out.
fn double_numeral(v: &mut Vec<char>, Ghost(n): Ghost<nat>)
    requires
        old(v)@ == dec(n),
        n > 0,
    ensures
        final(v)@ == dec(2 * n),
{
    proof {
        dec_is_digits(n);
        dec_value(n);
        dec_leads(n);
    }
    let ghost s = v@;
    let carry = crate::number::double_fraction(v);
    let ghost w = v@;
    if carry {
        v.insert(0, '1');
        proof {
            crate::number::digits_value_append(seq!['1'], w);
            crate::number::digits_value_single('1');
            assert(v@ =~= seq!['1'] + w);
            assert forall|i: int| 0 <= i < v@.len() implies is_digit(#[trigger] v@[i]) by {
                if i > 0 {
                    assert(v@[i] == w[i - 1]);
                }
            }
            assert(1 * vstd::arithmetic::power::pow(10, w.len()) == vstd::arithmetic::power::pow(
                10,
                w.len(),
            ));
            numeral_is_unique(v@);
        }
    } else {
        proof {
            assert(w.len() == s.len());
            assert forall|i: int| 0 <= i < w.len() implies is_digit(#[trigger] w[i]) by {}
            if w[0] == '0' && w.len() > 1 {
                // A doubled number has no fewer digits than the number itself.
                no_leading_zero(s, w);
            }
            if w.len() == 1 {
                assert(all_digits(w));
            }
            numeral_is_unique(w);
        }
    }
}

/// Of two runs of digits of one length, the one worth at least as much does not begin with a zero
/// where the other does not.
proof fn no_leading_zero(s: Seq<char>, w: Seq<char>)
    requires
        all_digits(s),
        all_digits(w),
        s.len() == w.len(),
        s[0] != '0',
        digits_value(w) >= digits_value(s),
    ensures
        w[0] != '0',
{
    let one = w.take(1);
    let rest = w.skip(1);
    let s1 = s.take(1);
    let s2 = s.skip(1);
    assert(w =~= one + rest);
    assert(s =~= s1 + s2);
    crate::number::digits_value_append(one, rest);
    crate::number::digits_value_append(s1, s2);
    assert(one =~= seq![w[0]]);
    assert(s1 =~= seq![s[0]]);
    crate::number::digits_value_single(w[0]);
    crate::number::digits_value_single(s[0]);
    assert(is_digit(s[0]));
    assert forall|i: int| 0 <= i < rest.len() implies is_digit(#[trigger] rest[i]) by {
        assert(is_digit(w[i + 1]));
    }
    crate::number::digits_value_bound(rest);
    if w[0] == '0' {
        let p = vstd::arithmetic::power::pow(10, rest.len());
        let a = (s[0] as u32 - 48) as nat as int;
        assert(a * p >= p) by (nonlinear_arith)
            requires
                a >= 1,
                p >= 0,
        ;
        assert(0 * p == 0);
    }
}

/// A numeral above zero does not begin with a zero.
proof fn dec_leads(n: nat)
    requires
        n > 0,
    ensures
        dec(n)[0] != '0',
        dec(n).len() > 0,
    decreases n,
{
    if n >= 10 {
        dec_leads(n / 10);
        assert(dec(n)[0] == dec(n / 10)[0]);
    }
}

/// The numeral of `m * 2^e`.
fn shifted_text(m: u64, e: u32) -> (r: String)
    ensures
        r@ == dec(m as nat * pow2(e as nat)),
{
    if m == 0 {
        assert(0 * pow2(e as nat) == 0);
        return dec_text(0);
    }
    let mut v = chars_of(dec_text(m as u128).as_str());
    let mut i: u32 = 0;
    proof {
        lemma2_to64();
        assert(m * 1 == m);
    }
    while i < e
        invariant
            i <= e,
            m > 0,
            v@ == dec(m as nat * pow2(i as nat)),
        decreases e - i,
    {
        proof {
            lemma_pow2_pos(i as nat);
            lemma_pow2_unfold((i + 1) as nat);
            let p = pow2(i as nat);
            assert(m as nat * p > 0) by (nonlinear_arith)
                requires
                    m > 0,
                    p > 0,
            ;
            assert(m as nat * (2 * p) == 2 * (m as nat * p)) by (nonlinear_arith);
        }
        double_numeral(&mut v, Ghost(m as nat * pow2(i as nat)));
        i += 1;
    }
    text_of(&v)
}

/// The number of parts nearest to `mantissa / 2^k`.
fn parts_of(mantissa: u64, k: u32, scale: u32) -> (r: u128)
    requires
        k > 0,
        scale <= 1000,
    ensures
        r == in_parts(mantissa, k as nat, scale as nat),
{
    proof {
        assert(0 <= mantissa * scale <= 0xffff_ffff_ffff_ffff * 1000) by (nonlinear_arith)
            requires
                0 <= mantissa <= 0xffff_ffff_ffff_ffff,
                0 <= scale <= 1000,
        ;
    }
    let num: u128 = mantissa as u128 * scale as u128;
    if k >= 80 {
        proof {
            lemma2_to64();
            lemma2_to64_rest();
            lemma_pow2_adds(64, 16);
            if k > 80 {
                lemma_pow2_strictly_increases(80, k as nat);
            }
            let p = pow2(k as nat) as int;
            assert(p >= 0x1_0000_0000_0000_0000 * 0x10000);
            assert(num as int / p == 0 && num as int % p == num) by (nonlinear_arith)
                requires
                    0 <= num < p,
            ;
        }
        return 0;
    }
    let mut unit: u128 = 1;
    let mut i: u32 = 0;
    proof {
        lemma2_to64();
    }
    while i < k
        invariant
            i <= k < 80,
            unit == pow2(i as nat),
            unit <= 0x1_0000_0000_0000_0000_0000,
        decreases k - i,
    {
        proof {
            lemma_pow2_unfold((i + 1) as nat);
            lemma2_to64();
            lemma2_to64_rest();
            lemma_pow2_adds(64, 16);
            if i + 1 < 80 {
                lemma_pow2_strictly_increases((i + 1) as nat, 80);
            }
        }
        unit = unit * 2;
        i += 1;
    }
    proof {
        lemma_pow2_pos(k as nat);
        let u = unit as int;
        assert(0 <= num as int / u <= num && 0 <= num as int % u < u) by (nonlinear_arith)
            requires
                u >= 1,
                num >= 0,
        ;
    }
    let q: u128 = num / unit;
    let r: u128 = num % unit;
    if 2 * r > unit || (2 * r == unit && q % 2 == 1) {
        q + 1
    } else {
        q
    }
}

fn fixed_text(mantissa: u64, exponent: i32) -> (r: String)
    ensures
        r@ == fixed_magnitude(mantissa, exponent),
{
    if exponent >= 0 {
        let mut out = shifted_text(mantissa, exponent as u32);
        out.append(".000");
        out
    } else {
        let k: i64 = -(exponent as i64);
        let t: u128 = parts_of(mantissa, k as u32, 1000);
        let mut out = dec_text(t / 1000);
        out.append(".");
        out.append(padded_text(t % 1000, 3).as_str());
        out
    }
}

/// Digits, a point and three more digits are a decimal number.
proof fn fixed_is_decimal(w: Seq<char>, f: Seq<char>, negative: bool)
    requires
        crate::text::all_digits(w),
        f.len() == 3,
        crate::number::digits_only(f),
    ensures
        ({
            let t = if negative {
                "-"@ + (w + "."@ + f)
            } else {
                w + "."@ + f
            };
            &&& is_decimal(t)
            &&& t.len() > 0
            &&& t[0] == '-' || is_digit(t[0])
            &&& forall|i: int| 0 <= i < t.len() ==> crate::json::in_number(#[trigger] t[i])
        }),
{
    reveal_strlit("-");
    reveal_strlit(".");
    let m = w + "."@ + f;
    let t = if negative {
        "-"@ + m
    } else {
        m
    };
    assert(is_digit(w[0]));
    assert(m[0] == w[0]);
    assert(unsigned(t) =~= m);
    assert forall|i: int| 0 <= i < m.len() implies m[i] == '.' || is_digit(#[trigger] m[i]) by {
        if i < w.len() {
            assert(is_digit(w[i]));
        } else if i > w.len() {
            assert(m[i] == f[i - w.len() - 1]);
        }
    }
    let l = crate::text::lower(m);
    crate::text::find_from_is_first(l, 'e', 0);
    assert forall|i: int| 0 <= i < l.len() implies l[i] != 'e' by {
        assert(m[i] == '.' || is_digit(m[i]));
    }
    assert(crate::number::mantissa_end(m) == m.len());
    assert(m.take(m.len() as int) =~= m);
    crate::text::find_from_is_first(m, '.', 0);
    let dot = crate::text::find(m, '.');
    assert(m[w.len() as int] == '.');
    assert(dot == w.len()) by {
        if dot < w.len() {
            assert(m[dot] == w[dot]);
            assert(is_digit(w[dot]));
        }
    }
    assert(crate::number::whole_digits(m) =~= w);
    assert(crate::number::fraction_digits(m) =~= f);
    assert(is_decimal(t));
    assert forall|i: int| 0 <= i < t.len() implies crate::json::in_number(#[trigger] t[i]) by {
        if negative {
            if i > 0 {
                assert(t[i] == m[i - 1]);
            }
        }
    }
}

/// A finite measure with three decimal places is a decimal number that begins with a digit or a
/// minus sign.
pub proof fn fixed_is_a_number(m: Measure)
    requires
        m is Finite,
    ensures
        is_decimal(m.fixed()),
        m.fixed().len() > 0,
        m.fixed()[0] == '-' || is_digit(m.fixed()[0]),
        forall|i: int| 0 <= i < m.fixed().len() ==> crate::json::in_number(#[trigger] m.fixed()[i]),
{
    let (negative, mantissa, exponent) = match m {
        Measure::Finite { negative, mantissa, exponent } => (negative, mantissa, exponent),
        _ => (false, 0, 0),
    };
    reveal_strlit(".000");
    reveal_strlit(".");
    reveal_strlit("-");
    if exponent >= 0 {
        let w = dec(mantissa as nat * pow2(exponent as nat));
        crate::json_writer::dec_is_digits(mantissa as nat * pow2(exponent as nat));
        let f = seq!['0', '0', '0'];
        assert(w + ".000"@ =~= w + "."@ + f);
        fixed_is_decimal(w, f, negative);
    } else {
        let t = in_parts(mantissa, (-exponent) as nat, 1000);
        crate::json_writer::dec_is_digits(t / 1000);
        crate::json_writer::dec_is_digits(t % 1000);
        let d = dec(t % 1000);
        assert(d.len() <= 3) by {
            reveal_with_fuel(dec, 4);
        }
        let f = pad0(d, 3);
        assert forall|i: int| 0 <= i < f.len() implies is_digit(#[trigger] f[i]) by {
            if i >= 3 - d.len() {
                assert(f[i] == d[i - (3 - d.len())]);
            }
        }
        fixed_is_decimal(dec(t / 1000), f, negative);
    }
}

/// What is not above a number has no greater whole part.
pub proof fn whole_is_no_greater(m: Measure, n: u64)
    requires
        !m.above(n as nat),
    ensures
        m.whole_part() <= n,
{
    match m {
        Measure::Finite { negative, mantissa, exponent } => if !negative && exponent < 0 {
            let p = pow2((-exponent) as nat) as int;
            lemma_pow2_pos((-exponent) as nat);
            assert(0 <= mantissa as int / p <= n) by (nonlinear_arith)
                requires
                    0 <= mantissa <= n * p,
                    p > 0,
            ;
        },
        _ => {},
    }
}

/// `mantissa * 2^exponent`; `None` when it is 2^64 or more.
pub(crate) fn exact_whole(mantissa: u64, exponent: i32) -> (r: Option<u64>)
    requires
        exponent >= 0,
    ensures
        match r {
            Some(n) => n == mantissa as nat * pow2(exponent as nat),
            None => mantissa as nat * pow2(exponent as nat) > u64::MAX,
        },
{
    match scaled(mantissa, exponent as u32) {
        Some(v) => if v > u64::MAX as u128 {
            None
        } else {
            Some(v as u64)
        },
        None => None,
    }
}

/// The parts shown are the nearest: they miss the quantity by half a part at the most.
pub proof fn the_nearest_parts_are_shown(m: u64, k: nat, scale: nat)
    ensures
        ({
            let t = in_parts(m, k, scale);
            &&& 2 * (t * pow2(k)) <= 2 * (m * scale) + pow2(k)
            &&& 2 * (m * scale) <= 2 * (t * pow2(k)) + pow2(k)
        }),
{
    let num = m as nat * scale;
    let p = pow2(k);
    lemma_pow2_pos(k);
    let q = num / p;
    let r = num % p;
    assert(q * p + r == num && 0 <= r < p && (q + 1) * p == q * p + p) by (nonlinear_arith)
        requires
            p > 0,
            q == num / p,
            r == num % p,
    ;
    assert(m * scale == num);
}

/// A quantity with three decimal places reads back as the thousandths nearest to it; a whole number
/// reads back as itself. A sign stands before one that is negative.
pub proof fn decimal_places_read_back(m: u64, e: i32)
    ensures
        e < 0 ==> exists|a: Seq<char>, b: Seq<char>|
            (Measure::Finite { negative: false, mantissa: m, exponent: e }).fixed()
                == #[trigger] a.add("."@).add(b) && b.len() >= 3 && digits_value(a) * 1000
                + digits_value(b) == in_parts(m, (-e) as nat, 1000) && digits_value(b) < 1000,
        e < 0 ==> exists|a: Seq<char>, b: Seq<char>|
            (Measure::Finite { negative: false, mantissa: m, exponent: e }).rounded(true)
                == #[trigger] a.add("."@).add(b) && digits_value(a) * 10 + digits_value(b)
                == in_parts(m, (-e) as nat, 10) && digits_value(b) < 10,
        e < 0 ==> digits_value(
            (Measure::Finite { negative: false, mantissa: m, exponent: e }).rounded(false),
        ) == in_parts(m, (-e) as nat, 1),
        e == 0 ==> exists|a: Seq<char>|
            (Measure::Finite { negative: false, mantissa: m, exponent: e }).fixed()
                == #[trigger] a.add(".000"@) && digits_value(a) == m,
        e == 0 ==> exists|a: Seq<char>|
            (Measure::Finite { negative: false, mantissa: m, exponent: e }).rounded(true)
                == #[trigger] a.add(".0"@) && digits_value(a) == m,
        (Measure::Finite { negative: true, mantissa: m, exponent: e }).fixed() == "-"@ + (
        Measure::Finite { negative: false, mantissa: m, exponent: e }).fixed(),
{
    let x = Measure::Finite { negative: false, mantissa: m, exponent: e };
    if e < 0 {
        let t = in_parts(m, (-e) as nat, 1000);
        dec_value(t / 1000);
        dec_value(t % 1000);
        crate::number::padding_keeps_the_value(dec(t % 1000), 3);
        assert(x.fixed() == dec(t / 1000).add("."@).add(pad0(dec(t % 1000), 3)));
        let u = in_parts(m, (-e) as nat, 10);
        dec_value(u / 10);
        dec_value(u % 10);
        assert(x.rounded(true) == dec(u / 10).add("."@).add(dec(u % 10)));
        dec_value(in_parts(m, (-e) as nat, 1));
    } else if e == 0 {
        lemma2_to64();
        assert(m as nat * 1 == m);
        dec_value(m as nat);
        assert(x.fixed() == dec(m as nat).add(".000"@));
        assert(x.rounded(true) == dec(m as nat).add(".0"@));
    }
}

} // verus!
