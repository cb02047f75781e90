//! Decimal numerals and the integers that a binary64 reading of them truncates to.
//!
//! A numeral is kept as text. Where a whole number is wanted, the numeral is read as the nearest
//! binary64 value, ties to even, and that value is truncated toward zero, saturating at the bounds
//! of the integer type. Both steps are carried out on integers alone.
use vstd::arithmetic::power::{lemma_pow_adds, lemma_pow_positive, pow};
use vstd::arithmetic::power2::{lemma_pow2_adds, lemma_pow2_pos, lemma_pow2_unfold, pow2};
use vstd::prelude::*;
use vstd::string::*;

use crate::text::{
    all_digits,
    chars_of,
    digits_value,
    digits_value_grows,
    find,
    find_char,
    is_digit,
    lower,
    lower_text,
    same,
    slice_text,
};

verus! {

/// Whether every character of `s` is an ASCII digit. The empty text qualifies.
pub open spec fn digits_only(s: Seq<char>) -> bool {
    forall|i: int| 0 <= i < s.len() ==> is_digit(#[trigger] s[i])
}

/// `s` without one leading `+` or `-`.
pub open spec fn unsigned(s: Seq<char>) -> Seq<char> {
    if s.len() > 0 && (s[0] == '+' || s[0] == '-') {
        s.skip(1)
    } else {
        s
    }
}

/// Whether `s` begins with `-`.
pub open spec fn signed_minus(s: Seq<char>) -> bool {
    s.len() > 0 && s[0] == '-'
}

/// The index of the first `e` or `E`, or the length when there is none.
pub open spec fn mantissa_end(s: Seq<char>) -> int {
    find(lower(s), 'e')
}

/// The digits before the decimal point of a mantissa.
pub open spec fn whole_digits(m: Seq<char>) -> Seq<char> {
    m.take(find(m, '.'))
}

/// The digits after the decimal point of a mantissa; none when it has no point.
pub open spec fn fraction_digits(m: Seq<char>) -> Seq<char> {
    if find(m, '.') < m.len() {
        m.skip(find(m, '.') + 1)
    } else {
        Seq::empty()
    }
}

/// Digits with at most one decimal point among them, and at least one digit.
pub open spec fn is_mantissa(m: Seq<char>) -> bool {
    digits_only(whole_digits(m)) && digits_only(fraction_digits(m)) && whole_digits(m).len()
        + fraction_digits(m).len() > 0
}

/// A finite decimal number: an optional sign, a mantissa, and optionally `e` or `E` followed by an
/// optional sign and at least one digit.
pub open spec fn is_decimal(s: Seq<char>) -> bool {
    let b = unsigned(s);
    let e = mantissa_end(b);
    is_mantissa(b.take(e)) && (e < b.len() ==> all_digits(unsigned(b.skip(e + 1))))
}

/// The mantissa of a decimal number.
pub open spec fn mantissa(s: Seq<char>) -> Seq<char> {
    unsigned(s).take(mantissa_end(unsigned(s)))
}

/// The power of ten written after the mantissa; zero when none is.
pub open spec fn exponent(s: Seq<char>) -> int {
    let b = unsigned(s);
    let e = mantissa_end(b);
    if e < b.len() {
        let x = b.skip(e + 1);
        if signed_minus(x) {
            -(digits_value(unsigned(x)) as int)
        } else {
            digits_value(unsigned(x)) as int
        }
    } else {
        0
    }
}

/// All the digits of the mantissa, without the decimal point.
pub open spec fn significand(s: Seq<char>) -> Seq<char> {
    whole_digits(mantissa(s)) + fraction_digits(mantissa(s))
}

/// The power of ten that scales the significand, read as an integer, to the number's magnitude.
pub open spec fn scale(s: Seq<char>) -> int {
    exponent(s) - fraction_digits(mantissa(s)).len()
}

/// The numerator of the magnitude of a decimal number.
pub open spec fn numerator(s: Seq<char>) -> nat {
    if scale(s) >= 0 {
        (digits_value(significand(s)) * pow(10, scale(s) as nat)) as nat
    } else {
        digits_value(significand(s))
    }
}

/// The denominator of the magnitude of a decimal number.
pub open spec fn denominator(s: Seq<char>) -> nat {
    if scale(s) >= 0 {
        1
    } else {
        pow(10, (-scale(s)) as nat) as nat
    }
}

/// The number of binary digits of `n`; none for zero.
pub open spec fn bits(n: nat) -> nat
    decreases n,
{
    if n == 0 {
        0
    } else {
        1 + bits(n / 2)
    }
}

/// The multiple of `unit` nearest to `i + r/den`, ties to the even multiple.
pub open spec fn round_to_unit(i: nat, r: nat, den: nat, unit: nat) -> nat {
    let q = i / unit;
    let rest = (i % unit) * den + r;
    if 2 * rest > unit * den || (2 * rest == unit * den && q % 2 == 1) {
        (q + 1) * unit
    } else {
        q * unit
    }
}

/// The integer part of the binary64 value nearest to `num / den`.
///
/// A binary64 value has 53 significant bits. From 2^52 on its neighbours are whole numbers, so the
/// nearest value is a rounding to a power of two. Below that the nearest value has the same integer
/// part, unless the fraction is within half a step of the next whole number.
pub open spec fn nearest_whole(num: nat, den: nat) -> nat {
    let i = num / den;
    let r = num % den;
    if i >= pow2(52) {
        round_to_unit(i, r, den, pow2((bits(i) - 53) as nat))
    } else {
        let m = (54 - bits(i)) as nat;
        if r * pow2(m) >= den * (pow2(m) - 1) {
            i + 1
        } else {
            i
        }
    }
}

/// Whether the binary64 value nearest to `num / den` is a whole number.
///
/// Below 2^52 it is one where the fraction is within half a step of a whole number: of the next one,
/// or of the integer part itself. The steps next to zero are the smallest there are, 2^-1074.
pub open spec fn nearest_is_whole(num: nat, den: nat) -> bool {
    let i = num / den;
    let r = num % den;
    let up = (54 - bits(i)) as nat;
    let down = if i == 0 {
        1075
    } else {
        up
    };
    i >= pow2(52) || r * pow2(up) >= den * (pow2(up) - 1) || r * pow2(down) <= den
}

/// The value of digits written one after the other.
pub proof fn digits_value_append(a: Seq<char>, b: Seq<char>)
    ensures
        digits_value(a + b) == digits_value(a) * pow(10, b.len()) + digits_value(b),
    decreases b.len(),
{
    if b.len() == 0 {
        assert(a + b =~= a);
        vstd::arithmetic::power::lemma_pow0(10);
    } else {
        assert((a + b).drop_last() =~= a + b.drop_last());
        digits_value_append(a, b.drop_last());
        lemma_pow_adds(10, (b.len() - 1) as nat, 1);
        vstd::arithmetic::power::lemma_pow1(10);
        let va = digits_value(a) as int;
        let vb = digits_value(b.drop_last()) as int;
        let p = pow(10, (b.len() - 1) as nat);
        let d = (b.last() as u32 - 48) as nat as int;
        assert((va * p + vb) * 10 + d == va * (p * 10) + (vb * 10 + d)) by (nonlinear_arith);
    }
}

/// The value of `n` digits is below 10^n.
pub proof fn digits_value_bound(s: Seq<char>)
    requires
        digits_only(s),
    ensures
        0 <= digits_value(s) < pow(10, s.len()),
    decreases s.len(),
{
    if s.len() == 0 {
        vstd::arithmetic::power::lemma_pow0(10);
    } else {
        digits_value_bound(s.drop_last());
        lemma_pow_adds(10, (s.len() - 1) as nat, 1);
        vstd::arithmetic::power::lemma_pow1(10);
        assert(is_digit(s[s.len() - 1]));
    }
}

/// The value of one digit.
pub proof fn digits_value_single(c: char)
    ensures
        digits_value(seq![c]) == (c as u32 - 48) as nat,
{
    assert(seq![c].drop_last() =~= Seq::<char>::empty());
    assert(digits_value(Seq::<char>::empty()) == 0);
}

/// Doubles a fraction written as decimal digits, in place, and returns the whole part that
/// overflows.
pub(crate) fn double_fraction(v: &mut Vec<char>) -> (carry: bool)
    requires
        digits_only(old(v)@),
    ensures
        digits_only(final(v)@),
        final(v)@.len() == old(v)@.len(),
        2 * digits_value(old(v)@) == (if carry {
            pow(10, old(v)@.len())
        } else {
            0
        }) + digits_value(final(v)@),
{
    let ghost orig = v@;
    let n: usize = v.len();
    let mut k: usize = n;
    let mut up: bool = false;
    assert(orig.skip(n as int) =~= Seq::<char>::empty());
    while k > 0
        invariant
            k <= n,
            n == orig.len(),
            v@.len() == n,
            digits_only(orig),
            digits_only(v@),
            forall|j: int| 0 <= j < k ==> v@[j] == orig[j],
            2 * digits_value(orig.skip(k as int)) == (if up {
                pow(10, (n - k) as nat)
            } else {
                0
            }) + digits_value(v@.skip(k as int)),
        decreases k,
    {
        let ghost prev = v@;
        let ghost was = up;
        k -= 1;
        let c = v[k];
        assert(is_digit(orig[k as int]));
        let d: u32 = c as u32 - 48;
        let t: u32 = 2 * d + (if up {
            1u32
        } else {
            0u32
        });
        let low: u32 = t % 10;
        up = t >= 10;
        v.set(k, (48u8 + low as u8) as char);
        proof {
            let tail_old = orig.skip(k as int + 1);
            let tail_new = prev.skip(k as int + 1);
            assert(orig.skip(k as int) =~= seq![c] + tail_old);
            assert(v@.skip(k as int) =~= seq![v@[k as int]] + tail_new);
            digits_value_append(seq![c], tail_old);
            digits_value_append(seq![v@[k as int]], tail_new);
            digits_value_single(c);
            digits_value_single(v@[k as int]);
            let p = pow(10, (n - k - 1) as nat);
            lemma_pow_adds(10, (n - k - 1) as nat, 1);
            vstd::arithmetic::power::lemma_pow1(10);
            let up_now: int = if up {
                1
            } else {
                0
            };
            let up_was: int = if was {
                1
            } else {
                0
            };
            let vo = digits_value(tail_old) as int;
            let vn = digits_value(tail_new) as int;
            assert(2 * vo == up_was * p + vn);
            assert(2 * d as int + up_was == 10 * up_now + low as int);
            assert(2 * (d as int * p + vo) == up_now * (p * 10) + (low as int * p + vn))
                by (nonlinear_arith)
                requires
                    2 * vo == up_was * p + vn,
                    2 * d as int + up_was == 10 * up_now + low as int,
            ;
        }
    }
    assert(orig.skip(0) =~= orig);
    assert(v@.skip(0) =~= v@);
    up
}

/// Whether the first `m` binary digits of `f / den` are all ones.
spec fn all_ones(f: int, den: int, m: nat) -> bool
    decreases m,
{
    m == 0 || (2 * f >= den && all_ones(2 * f - den, den, (m - 1) as nat))
}

proof fn all_ones_is_close_to_one(f: int, den: int, m: nat)
    requires
        0 <= f < den,
    ensures
        all_ones(f, den, m) <==> f * pow2(m) >= den * (pow2(m) - 1),
    decreases m,
{
    if m == 0 {
        vstd::arithmetic::power2::lemma2_to64();
        assert(f * 1 >= den * 0);
    } else {
        let h = pow2((m - 1) as nat) as int;
        lemma_pow2_unfold(m);
        lemma_pow2_pos((m - 1) as nat);
        let p = pow2(m) as int;
        assert(p == 2 * h);
        assert(f * p == f * (2 * h) && den * (p - 1) == den * (2 * h - 1));
        if 2 * f >= den {
            all_ones_is_close_to_one(2 * f - den, den, (m - 1) as nat);
            assert(f * (2 * h) >= den * (2 * h - 1) <==> (2 * f - den) * h >= den * (h - 1))
                by (nonlinear_arith);
        } else {
            assert(f * (2 * h) < den * (2 * h - 1)) by (nonlinear_arith)
                requires
                    2 * f < den,
                    0 <= f,
                    h >= 1,
            ;
        }
    }
}

/// Whether the first `m` binary digits of the decimal fraction `digits` are all ones.
fn fraction_near_one(digits: &Vec<char>, from: usize, m: u32) -> (r: bool)
    requires
        from <= digits@.len(),
        digits_only(digits@),
    ensures
        r == (digits_value(digits@.skip(from as int)) * pow2(m as nat) >= pow(
            10,
            (digits@.len() - from) as nat,
        ) * (pow2(m as nat) - 1)),
{
    let mut v: Vec<char> = Vec::new();
    let mut i: usize = from;
    while i < digits.len()
        invariant
            from <= i <= digits@.len(),
            v@ == digits@.subrange(from as int, i as int),
        decreases digits@.len() - i,
    {
        v.push(digits[i]);
        i += 1;
        assert(v@ =~= digits@.subrange(from as int, i as int));
    }
    let ghost tail = digits@.skip(from as int);
    assert(v@ =~= tail);
    let ghost n = tail.len();
    let ghost den = pow(10, n);
    let ghost f0 = digits_value(tail) as int;
    proof {
        digits_value_bound(tail);
        all_ones_is_close_to_one(f0, den, m as nat);
    }
    let mut left: u32 = m;
    while left > 0
        invariant
            digits_only(v@),
            v@.len() == n,
            den == pow(10, n),
            f0 == digits_value(digits@.skip(from as int)),
            n == digits@.len() - from,
            all_ones(f0, den, m as nat) <==> f0 * pow2(m as nat) >= den * (pow2(m as nat) - 1),
            left <= m,
            all_ones(f0, den, m as nat) == all_ones(digits_value(v@) as int, den, left as nat),
        decreases left,
    {
        proof {
            digits_value_bound(v@);
        }
        let ghost before = digits_value(v@) as int;
        let carry = double_fraction(&mut v);
        proof {
            digits_value_bound(v@);
            assert(all_ones(before, den, left as nat) == (2 * before >= den && all_ones(
                2 * before - den,
                den,
                (left - 1) as nat,
            )));
        }
        if !carry {
            return false;
        }
        left -= 1;
    }
    true
}

/// Whether at most the `m`-th of the first `m` binary digits of `f / den` is a one, with nothing
/// after it.
spec fn tiny(f: int, den: int, m: nat) -> bool
    decreases m,
{
    if m == 0 {
        f <= den
    } else {
        tiny(2 * f, den, (m - 1) as nat)
    }
}

proof fn tiny_is_small(f: int, den: int, m: nat)
    requires
        0 <= f,
    ensures
        tiny(f, den, m) <==> f * pow2(m) <= den,
    decreases m,
{
    if m == 0 {
        vstd::arithmetic::power2::lemma2_to64();
        assert(f * 1 == f);
    } else {
        tiny_is_small(2 * f, den, (m - 1) as nat);
        lemma_pow2_unfold(m);
        let h = pow2((m - 1) as nat) as int;
        assert((2 * f) * h == f * (2 * h)) by (nonlinear_arith);
    }
}

proof fn large_is_not_tiny(f: int, den: int, m: nat)
    requires
        f > den,
        den > 0,
    ensures
        !tiny(f, den, m),
    decreases m,
{
    if m > 0 {
        large_is_not_tiny(2 * f, den, (m - 1) as nat);
    }
}

/// Whether the decimal fraction `digits` times 2^m is at most one.
fn fraction_tiny(digits: &Vec<char>, from: usize, m: u32) -> (r: bool)
    requires
        from <= digits@.len(),
        digits_only(digits@),
    ensures
        r == (digits_value(digits@.skip(from as int)) * pow2(m as nat) <= pow(
            10,
            (digits@.len() - from) as nat,
        )),
{
    let mut v: Vec<char> = Vec::new();
    let mut i: usize = from;
    while i < digits.len()
        invariant
            from <= i <= digits@.len(),
            v@ == digits@.subrange(from as int, i as int),
        decreases digits@.len() - i,
    {
        v.push(digits[i]);
        i += 1;
        assert(v@ =~= digits@.subrange(from as int, i as int));
    }
    let ghost tail = digits@.skip(from as int);
    assert(v@ =~= tail);
    let ghost n = tail.len();
    let ghost den = pow(10, n);
    let ghost f0 = digits_value(tail) as int;
    proof {
        digits_value_bound(tail);
        lemma_pow_positive(10, n);
        tiny_is_small(f0, den, m as nat);
    }
    let mut left: u32 = m;
    while left > 0
        invariant
            digits_only(v@),
            v@.len() == n,
            den == pow(10, n),
            den > 0,
            f0 == digits_value(digits@.skip(from as int)),
            n == digits@.len() - from,
            tiny(f0, den, m as nat) <==> f0 * pow2(m as nat) <= den,
            left <= m,
            tiny(f0, den, m as nat) == tiny(digits_value(v@) as int, den, left as nat),
        decreases left,
    {
        let ghost before = digits_value(v@) as int;
        let carry = double_fraction(&mut v);
        proof {
            digits_value_bound(v@);
            assert(v@.skip(0) =~= v@);
            assert(tiny(before, den, left as nat) == tiny(2 * before, den, (left - 1) as nat));
        }
        left -= 1;
        if carry {
            let clean = all_zero(&v, 0);
            proof {
                if left > 0 {
                    // The doubled value is at least one, and doubled again it is more than one.
                    assert(tiny(2 * before, den, left as nat) == tiny(
                        4 * before,
                        den,
                        (left - 1) as nat,
                    ));
                    large_is_not_tiny(4 * before, den, (left - 1) as nat);
                } else {
                    assert(tiny(2 * before, den, 0) == (2 * before <= den));
                }
            }
            return left == 0 && clean;
        }
    }
    proof {
        digits_value_bound(v@);
    }
    true
}

/// A number lies between the powers of two that its count of binary digits names.
pub proof fn bits_bounds(n: nat)
    requires
        n > 0,
    ensures
        pow2((bits(n) - 1) as nat) <= n < pow2(bits(n)),
        bits(n) >= 1,
    decreases n,
{
    lemma_pow2_unfold(bits(n));
    if n / 2 == 0 {
        assert(bits(n / 2) == 0);
        assert(n == 1);
        vstd::arithmetic::power2::lemma2_to64();
    } else {
        bits_bounds(n / 2);
        lemma_pow2_unfold((bits(n) - 1) as nat);
    }
}

/// The number of binary digits of `n`.
pub(crate) fn bit_count(n: u64) -> (r: u32)
    ensures
        r == bits(n as nat),
        r <= 64,
{
    let mut left: u64 = n;
    let mut r: u32 = 0;
    proof {
        vstd::arithmetic::power2::lemma2_to64();
        vstd::arithmetic::power2::lemma2_to64_rest();
        if n > 0 {
            bits_bounds(n as nat);
            if bits(n as nat) > 64 {
                vstd::arithmetic::power2::lemma_pow2_strictly_increases(
                    64,
                    bits(n as nat),
                );
                if bits(n as nat) - 1 > 64 {
                    vstd::arithmetic::power2::lemma_pow2_strictly_increases(
                        64,
                        (bits(n as nat) - 1) as nat,
                    );
                }
            }
        }
    }
    while left > 0
        invariant
            r + bits(left as nat) == bits(n as nat),
            bits(n as nat) <= 64,
        decreases left,
    {
        assert(bits(left as nat) == 1 + bits((left / 2) as nat));
        left = left / 2;
        r += 1;
    }
    r
}

/// Whether the decimal fraction `digits` is below, at or above one half: -1, 0 or 1.
fn fraction_against_half(digits: &Vec<char>, from: usize) -> (r: i8)
    requires
        from <= digits@.len(),
        digits_only(digits@),
    ensures
        ({
            let f = 2 * digits_value(digits@.skip(from as int));
            let den = pow(10, (digits@.len() - from) as nat);
            r == (if f < den {
                -1int
            } else if f == den {
                0
            } else {
                1
            })
        }),
{
    let mut v: Vec<char> = Vec::new();
    let mut i: usize = from;
    while i < digits.len()
        invariant
            from <= i <= digits@.len(),
            v@ == digits@.subrange(from as int, i as int),
        decreases digits@.len() - i,
    {
        v.push(digits[i]);
        i += 1;
        assert(v@ =~= digits@.subrange(from as int, i as int));
    }
    assert(v@ =~= digits@.skip(from as int));
    let carry = double_fraction(&mut v);
    proof {
        digits_value_bound(v@);
    }
    if !carry {
        return -1;
    }
    let zero = all_zero(&v, 0);
    assert(v@.skip(0) =~= v@);
    if zero {
        0
    } else {
        1
    }
}

/// Whether the digits from `from` on are all zeros.
fn all_zero(digits: &Vec<char>, from: usize) -> (r: bool)
    requires
        from <= digits@.len(),
        digits_only(digits@),
    ensures
        r == (digits_value(digits@.skip(from as int)) == 0),
{
    let mut i: usize = digits.len();
    assert(digits@.skip(i as int) =~= Seq::<char>::empty());
    while i > from
        invariant
            from <= i <= digits@.len(),
            digits_only(digits@),
            digits_value(digits@.skip(i as int)) == 0,
        decreases i,
    {
        proof {
            let c = digits@[i - 1];
            assert(is_digit(c));
            assert(digits@.skip(i - 1) =~= seq![c] + digits@.skip(i as int));
            digits_value_append(seq![c], digits@.skip(i as int));
            digits_value_single(c);
            lemma_pow_positive(10, (digits@.len() - i) as nat);
            let p = pow(10, (digits@.len() - i) as nat);
            let d = (c as u32 - 48) as nat as int;
            assert(d * p == 0 <==> d == 0) by (nonlinear_arith)
                requires
                    p > 0,
            ;
            let lead = digits@.skip(from as int).take(i - 1 - from);
            assert(digits@.skip(from as int) =~= lead + digits@.skip(i - 1));
            digits_value_append(lead, digits@.skip(i - 1));
            let a = digits_value(lead) as int;
            let q = pow(10, (digits@.len() - i + 1) as nat);
            lemma_pow_positive(10, (digits@.len() - i + 1) as nat);
            assert(a * q >= 0) by (nonlinear_arith)
                requires
                    a >= 0,
                    q > 0,
            ;
        }
        if digits[i - 1] != '0' {
            return false;
        }
        i -= 1;
    }
    true
}

/// The power of two `2^k`.
pub(crate) fn power_of_two(k: u32) -> (r: u64)
    requires
        k < 64,
    ensures
        r == pow2(k as nat),
        r > 0,
{
    let mut r: u64 = 1;
    let mut i: u32 = 0;
    proof {
        vstd::arithmetic::power2::lemma2_to64();
        vstd::arithmetic::power2::lemma2_to64_rest();
    }
    while i < k
        invariant
            i <= k < 64,
            r == pow2(i as nat),
            pow2(63) == 0x8000000000000000,
        decreases k - i,
    {
        proof {
            lemma_pow2_unfold((i + 1) as nat);
            if i + 1 < 63 {
                vstd::arithmetic::power2::lemma_pow2_strictly_increases((i + 1) as nat, 63);
            }
        }
        r = r * 2;
        i += 1;
    }
    proof {
        lemma_pow2_pos(k as nat);
    }
    r
}

/// Rounding to a power of two never goes below the highest power of two that a number holds.
pub proof fn round_keeps_high_bit(i: nat, r: nat, den: nat)
    requires
        i >= pow2(52),
    ensures
        bits(i) >= 53,
        round_to_unit(i, r, den, pow2((bits(i) - 53) as nat)) >= pow2((bits(i) - 1) as nat),
{
    lemma_pow2_pos(52);
    bits_bounds(i);
    let b = bits(i);
    if b < 53 {
        if b < 52 {
            vstd::arithmetic::power2::lemma_pow2_strictly_increases(b, 52);
        }
    }
    let u = pow2((b - 53) as nat);
    lemma_pow2_pos((b - 53) as nat);
    lemma_pow2_adds((b - 53) as nat, 52);
    let high = pow2(52);
    let q = i / u;
    assert(q >= high) by (nonlinear_arith)
        requires
            q == i / u,
            i >= u * high,
            u > 0,
    ;
    assert(q * u >= u * high && (q + 1) * u >= u * high) by (nonlinear_arith)
        requires
            q >= high,
            u > 0,
    ;
}

/// `min(n, u64::MAX)`.
pub open spec fn saturate(n: nat) -> u64 {
    if n <= u64::MAX {
        n as u64
    } else {
        u64::MAX
    }
}

/// A whole number of 2^64 or more saturates after rounding too.
proof fn large_saturates(num: nat, den: nat)
    requires
        den > 0,
        num / den > u64::MAX,
    ensures
        saturate(nearest_whole(num, den)) == u64::MAX,
        nearest_is_whole(num, den),
{
    let i = num / den;
    vstd::arithmetic::power2::lemma2_to64();
    vstd::arithmetic::power2::lemma2_to64_rest();
    round_keeps_high_bit(i, num % den, den);
    bits_bounds(i);
    let b = bits(i);
    if b < 65 {
        if b < 64 {
            vstd::arithmetic::power2::lemma_pow2_strictly_increases(b, 64);
        }
    }
    if b - 1 > 64 {
        vstd::arithmetic::power2::lemma_pow2_strictly_increases(64, (b - 1) as nat);
    }
}

/// A finite decimal number taken apart.
#[derive(Debug, Clone, PartialEq, Eq)]
pub struct Decimal {
    pub negative: bool,
    /// The significant digits, before and after the decimal point.
    pub digits: Vec<char>,
    /// How many of the digits stand before the decimal point once the exponent is applied.
    pub point: i128,
}

/// Far enough from every digit's position to settle the value without its exact place.
pub open spec fn far() -> int {
    0x1_0000_0000_0000_0000_0000
}

/// Whether `p` stands for the decimal point position `q`: the same position, or one equally far out
/// on the same side.
pub open spec fn same_point(p: int, q: int) -> bool {
    p == q || (p > far() && q > far()) || (p < -far() && q < -far())
}

impl Decimal {
    /// Whether this is the decimal number `s`, taken apart.
    pub open spec fn reads(self, s: Seq<char>) -> bool {
        self.negative == signed_minus(s) && self.digits@ == significand(s) && digits_only(
            self.digits@,
        ) && same_point(self.point as int, significand(s).len() + scale(s))
    }
}

/// Whether the characters from `from` to `to` are all ASCII digits.
fn only_digits(chars: &Vec<char>, from: usize, to: usize) -> (r: bool)
    requires
        from <= to <= chars@.len(),
    ensures
        r == digits_only(chars@.subrange(from as int, to as int)),
{
    let mut i: usize = from;
    while i < to
        invariant
            from <= i <= to <= chars@.len(),
            forall|k: int| from <= k < i ==> is_digit(#[trigger] chars@[k]),
        decreases to - i,
    {
        let c = chars[i];
        if !('0' <= c && c <= '9') {
            assert(!is_digit(chars@.subrange(from as int, to as int)[i - from]));
            return false;
        }
        i += 1;
    }
    true
}

/// The value of a run of digits, when it is at most 2^90; `None` above that.
fn bounded_value(chars: &Vec<char>, from: usize) -> (r: Option<u128>)
    requires
        from <= chars@.len(),
        digits_only(chars@.skip(from as int)),
    ensures
        match r {
            Some(n) => n == digits_value(chars@.skip(from as int)) && n
                <= 0x400_0000_0000_0000_0000_0000,
            None => digits_value(chars@.skip(from as int)) > 0x400_0000_0000_0000_0000_0000,
        },
{
    let ghost body = chars@.skip(from as int);
    let mut acc: u128 = 0;
    let mut i: usize = from;
    assert(body.take(0) =~= Seq::<char>::empty());
    while i < chars.len()
        invariant
            from <= i <= chars@.len(),
            body == chars@.skip(from as int),
            digits_only(body),
            acc == digits_value(body.take(i - from)),
            acc <= 0x400_0000_0000_0000_0000_0000,
        decreases chars@.len() - i,
    {
        assert(is_digit(body[i - from]));
        let d: u32 = chars[i] as u32 - 48;
        let next: u128 = acc * 10 + d as u128;
        proof {
            assert(body.take(i - from + 1).drop_last() =~= body.take(i - from));
            digits_value_grows(body, i - from + 1);
        }
        if next > 0x400_0000_0000_0000_0000_0000 {
            return None;
        }
        acc = next;
        i += 1;
    }
    assert(body.take(i - from) =~= body);
    Some(acc)
}

/// The digits of a mantissa and how many stand before its point; `None` when it is not one.
fn mantissa_parts(head: &str) -> (r: Option<(Vec<char>, usize)>)
    ensures
        match r {
            Some((digits, dot)) => is_mantissa(head@) && digits@ == whole_digits(head@)
                + fraction_digits(head@) && digits_only(digits@) && dot == whole_digits(
                head@,
            ).len(),
            None => !is_mantissa(head@),
        },
{
    let m = chars_of(head);
    let dot: usize = find_char(&m, '.', 0);
    let count: usize = m.len();
    let frac: usize = if dot < count {
        dot + 1
    } else {
        dot
    };
    let ghost w = whole_digits(m@);
    let ghost f = fraction_digits(m@);
    proof {
        assert(m@.subrange(0, dot as int) =~= w);
        assert(m@.subrange(frac as int, count as int) =~= f);
    }
    if !only_digits(&m, 0, dot) || !only_digits(&m, frac, count) || (dot == 0 && count == frac) {
        return None;
    }
    let mut digits: Vec<char> = Vec::new();
    let mut i: usize = 0;
    while i < dot
        invariant
            i <= dot <= m@.len(),
            digits@ == m@.subrange(0, i as int),
        decreases dot - i,
    {
        digits.push(m[i]);
        i += 1;
        assert(digits@ =~= m@.subrange(0, i as int));
    }
    let mut j: usize = frac;
    assert(digits@ =~= w + m@.subrange(frac as int, frac as int));
    while j < count
        invariant
            frac <= j <= count,
            count == m@.len(),
            digits@ == w + m@.subrange(frac as int, j as int),
        decreases count - j,
    {
        digits.push(m[j]);
        j += 1;
        assert(digits@ =~= w + m@.subrange(frac as int, j as int));
    }
    proof {
        assert forall|k: int| 0 <= k < digits@.len() implies is_digit(#[trigger] digits@[k]) by {
            if k < w.len() {
                assert(digits@[k] == w[k]);
            } else {
                assert(digits@[k] == f[k - w.len()]);
            }
        }
    }
    Some((digits, dot))
}

/// The number that an exponent's text writes out.
spec fn power_value(x: Seq<char>) -> int {
    if signed_minus(x) {
        -(digits_value(unsigned(x)) as int)
    } else {
        digits_value(unsigned(x)) as int
    }
}

/// The exponent that `x` writes out, cut off at 2^90 either way; `None` when it is not one.
fn power_of(x: &str) -> (r: Option<i128>)
    ensures
        match r {
            Some(n) => all_digits(unsigned(x@)) && -0x400_0000_0000_0000_0000_0000 <= n
                <= 0x400_0000_0000_0000_0000_0000 && (n == power_value(x@) || (n
                == 0x400_0000_0000_0000_0000_0000 && power_value(x@) > n) || (n
                == -0x400_0000_0000_0000_0000_0000 && power_value(x@) < n)),
            None => !all_digits(unsigned(x@)),
        },
{
    let power = chars_of(x);
    let from: usize = if power.len() > 0 && (power[0] == '+' || power[0] == '-') {
        1
    } else {
        0
    };
    let down = power.len() > 0 && power[0] == '-';
    proof {
        assert(power@.skip(from as int) =~= unsigned(x@));
        assert(power@.subrange(from as int, power@.len() as int) =~= unsigned(x@));
    }
    if from >= power.len() || !only_digits(&power, from, power.len()) {
        return None;
    }
    let size: i128 = match bounded_value(&power, from) {
        Some(n) => n as i128,
        None => 0x400_0000_0000_0000_0000_0000,
    };
    if down {
        Some(-size)
    } else {
        Some(size)
    }
}

/// Takes a decimal number apart; `None` when the text is not one.
pub fn decimal_of(s: &str) -> (r: Option<Decimal>)
    ensures
        match r {
            Some(d) => is_decimal(s@) && d.reads(s@),
            None => !is_decimal(s@),
        },
{
    let chars = chars_of(s);
    let sign: usize = if chars.len() > 0 && (chars[0] == '+' || chars[0] == '-') {
        1
    } else {
        0
    };
    let negative = chars.len() > 0 && chars[0] == '-';
    let body = slice_text(&chars, sign, chars.len());
    let ghost b = unsigned(s@);
    assert(body@ =~= b);
    let plain = chars_of(body.as_str());
    let folded = chars_of(lower_text(body.as_str()).as_str());
    let e: usize = find_char(&folded, 'e', 0);
    assert(e == mantissa_end(b));
    let head = slice_text(&plain, 0, e);
    assert(head@ =~= b.take(e as int));
    let (digits, dot) = match mantissa_parts(head.as_str()) {
        Some(parts) => parts,
        None => {
            return None;
        },
    };
    if e >= plain.len() {
        return Some(Decimal { negative, digits, point: dot as i128 });
    }
    let tail = slice_text(&plain, e + 1, plain.len());
    assert(tail@ =~= b.skip(e as int + 1));
    match power_of(tail.as_str()) {
        Some(n) => Some(Decimal { negative, digits, point: dot as i128 + n }),
        None => None,
    }
}

/// The integer part of the nearest binary64 value to a whole number and a decimal fraction, and
/// whether that value is a whole number.
fn round_parts(i: u64, digits: &Vec<char>, from: usize) -> (r: (u64, bool))
    requires
        from <= digits@.len(),
        digits_only(digits@),
    ensures
        ({
            let f = digits_value(digits@.skip(from as int));
            let den = pow(10, (digits@.len() - from) as nat) as nat;
            &&& r.0 == saturate(nearest_whole((i * den + f) as nat, den))
            &&& r.1 == nearest_is_whole((i * den + f) as nat, den)
        }),
{
    let ghost f = digits_value(digits@.skip(from as int));
    let ghost den = pow(10, (digits@.len() - from) as nat) as nat;
    let ghost num = (i * den + f) as nat;
    proof {
        lemma_pow_positive(10, (digits@.len() - from) as nat);
        digits_value_bound(digits@.skip(from as int));
        assert(i * den >= 0) by (nonlinear_arith);
        vstd::arithmetic::div_mod::lemma_fundamental_div_mod_converse(
            num as int,
            den as int,
            i as int,
            f as int,
        );
        assert(num / den == i && num % den == f);
        vstd::arithmetic::power2::lemma2_to64();
        vstd::arithmetic::power2::lemma2_to64_rest();
    }
    let b: u32 = bit_count(i);
    if i < 0x10_0000_0000_0000 {
        proof {
            if i > 0 {
                bits_bounds(i as nat);
                if b > 52 {
                    if b - 1 > 52 {
                        vstd::arithmetic::power2::lemma_pow2_strictly_increases(52, (b - 1) as nat);
                    }
                }
            }
        }
        assert(b <= 52);
        let near = fraction_near_one(digits, from, 54 - b);
        assert(near == (f * pow2((54 - b) as nat) >= den * (pow2((54 - b) as nat) - 1)));
        if near {
            return (i + 1, true);
        }
        let down: u32 = if i == 0 {
            1075
        } else {
            54 - b
        };
        assert(i == 0 ==> bits(0) == 0);
        let small = fraction_tiny(digits, from, down);
        assert(small == (f * pow2(down as nat) <= den));
        return (i, small);
    }
    proof {
        round_keeps_high_bit(i as nat, f as nat, den);
    }
    let unit: u64 = power_of_two(b - 53);
    let q: u64 = i / unit;
    let low: u64 = i % unit;
    let up: bool = if unit == 1 {
        let c: i8 = fraction_against_half(digits, from);
        proof {
            assert(low == 0);
            assert(low * den == 0) by (nonlinear_arith)
                requires
                    low == 0,
            ;
            assert(unit * den == den) by (nonlinear_arith)
                requires
                    unit == 1,
            ;
        }
        c > 0 || (c == 0 && q % 2 == 1)
    } else {
        let half: u64 = unit / 2;
        proof {
            lemma_pow2_unfold((b - 53) as nat);
            assert(unit == 2 * half);
            assert(2 * (low * den + f) - unit * den == 2 * ((low - half) * den + f))
                by (nonlinear_arith)
                requires
                    unit == 2 * half,
            ;
            if low < half {
                assert((low - half) * den <= -den) by (nonlinear_arith)
                    requires
                        low < half,
                        den > 0,
                ;
            } else if low > half {
                assert((low - half) * den >= den) by (nonlinear_arith)
                    requires
                        low > half,
                        den > 0,
                ;
            } else {
                assert((low - half) * den == 0) by (nonlinear_arith)
                    requires
                        low == half,
                ;
            }
        }
        let exact = all_zero(digits, from);
        low > half || (low == half && (!exact || q % 2 == 1))
    };
    proof {
        assert(round_to_unit(i as nat, f as nat, den, unit as nat) == (if up {
            (q + 1) * unit
        } else {
            q * unit
        }));
        assert(q * unit <= i) by (nonlinear_arith)
            requires
                q == i / unit,
                unit > 0,
        ;
        assert((q + 1) * unit == q * unit + unit) by (nonlinear_arith);
    }
    let whole: u64 = if up {
        let low_end: u64 = q * unit;
        let sum: u128 = low_end as u128 + unit as u128;
        if sum > u64::MAX as u128 {
            u64::MAX
        } else {
            sum as u64
        }
    } else {
        q * unit
    };
    (whole, true)
}

/// A nonzero significand whose point lies twenty places beyond its digits is worth 2^64 or more.
proof fn far_right_is_large(v: nat, zeros: nat)
    requires
        v > 0,
        zeros >= 20,
    ensures
        v * pow(10, zeros) > u64::MAX,
{
    lemma_pow_adds(10, 20, (zeros - 20) as nat);
    lemma_pow_positive(10, (zeros - 20) as nat);
    assert(pow(10, 20) == 100000000000000000000) by {
        reveal_with_fuel(pow, 21);
    }
    let p = pow(10, zeros);
    let q = pow(10, (zeros - 20) as nat);
    assert(p >= 100000000000000000000) by (nonlinear_arith)
        requires
            p == 100000000000000000000 * q,
            q >= 1,
    ;
    assert(v * p >= p) by (nonlinear_arith)
        requires
            v >= 1,
            p >= 0,
    ;
}

/// A power of ten is at least the power of two with three times its exponent.
pub proof fn ten_outgrows_two(k: nat)
    ensures
        pow(10, k) >= pow2(3 * k),
    decreases k,
{
    vstd::arithmetic::power2::lemma2_to64();
    if k == 0 {
        vstd::arithmetic::power::lemma_pow0(10);
    } else {
        ten_outgrows_two((k - 1) as nat);
        lemma_pow_adds(10, (k - 1) as nat, 1);
        vstd::arithmetic::power::lemma_pow1(10);
        lemma_pow2_adds((3 * (k - 1)) as nat, 3);
    }
}

/// The integer part of the binary64 value nearest to a decimal number's magnitude, and whether that
/// value is a whole number.
fn magnitude(d: &Decimal, Ghost(s): Ghost<Seq<char>>) -> (r: (u64, bool))
    requires
        d.reads(s),
    ensures
        r.0 == saturate(nearest_whole(numerator(s), denominator(s))),
        r.1 == nearest_is_whole(numerator(s), denominator(s)),
{
    let ghost v = digits_value(significand(s));
    let ghost q = significand(s).len() + scale(s);
    assert(d.digits@.skip(0) =~= d.digits@);
    let n: usize = d.digits.len();
    if all_zero(&d.digits, 0) {
        proof {
            vstd::arithmetic::power2::lemma2_to64();
            vstd::arithmetic::power2::lemma2_to64_rest();
            if scale(s) < 0 {
                lemma_pow_positive(10, (-scale(s)) as nat);
            }
            let den = denominator(s);
            let num = numerator(s);
            assert(num == 0) by (nonlinear_arith)
                requires
                    num == if scale(s) >= 0 {
                        (v * pow(10, scale(s) as nat)) as nat
                    } else {
                        v
                    },
                    v == 0,
            ;
            vstd::arithmetic::div_mod::lemma_div_basics(den as int);
            assert(0nat / den == 0 && 0nat % den == 0) by (nonlinear_arith)
                requires
                    den > 0,
            ;
            assert(bits(0) == 0);
            assert(0 * pow2(54) < den * (pow2(54) - 1)) by (nonlinear_arith)
                requires
                    den > 0,
                    pow2(54) > 1,
            ;
            assert(0 * pow2(1075) <= den);
        }
        return (0, true);
    }
    if d.point < 0 {
        proof {
            // Every digit stands after the point and after at least one zero.
            digits_value_bound(significand(s));
            let k = (-scale(s)) as nat;
            assert(k >= n + 1);
            lemma_pow_adds(10, n as nat, (k - n) as nat);
            vstd::arithmetic::power::lemma_pow1(10);
            lemma_pow_adds(10, 1, (k - n - 1) as nat);
            lemma_pow_positive(10, (k - n - 1) as nat);
            lemma_pow_positive(10, n as nat);
            let a = pow(10, n as nat);
            let c = pow(10, (k - n) as nat);
            let den = denominator(s) as int;
            let t = pow(10, (k - n - 1) as nat);
            assert(den >= 10 * a) by (nonlinear_arith)
                requires
                    den == a * c,
                    c == 10 * t,
                    t >= 1,
                    a >= 1,
            ;
            assert(v as int / den == 0 && v as int % den == v) by (nonlinear_arith)
                requires
                    0 <= v,
                    (v as int) < den,
            ;
            vstd::arithmetic::power2::lemma2_to64();
            vstd::arithmetic::power2::lemma2_to64_rest();
            assert(bits(0) == 0);
            assert(v * pow2(54) < den * (pow2(54) - 1)) by (nonlinear_arith)
                requires
                    10 * v < den,
                    pow2(54) > 2,
                    v >= 0,
            ;
            assert(denominator(s) == den && numerator(s) == v);
            assert(nearest_is_whole(numerator(s), denominator(s)) == (v * pow2(1075) <= den));
        }
        if d.point <= -400 {
            proof {
                let k = (-scale(s)) as nat;
                let c = pow(10, (k - n) as nat);
                ten_outgrows_two((k - n) as nat);
                if 3 * (k - n) > 1075 {
                    vstd::arithmetic::power2::lemma_pow2_strictly_increases(
                        1075,
                        (3 * (k - n)) as nat,
                    );
                }
                let a = pow(10, n as nat);
                let two = pow2(1075) as int;
                assert(v * two <= a * c) by (nonlinear_arith)
                    requires
                        0 <= v <= a,
                        0 <= two <= c,
                ;
            }
            return (0, true);
        }
        let zeros: usize = (-d.point) as usize;
        let mut padded: Vec<char> = Vec::new();
        let mut j: usize = 0;
        assert(digits_value(Seq::<char>::empty()) == 0);
        while j < zeros
            invariant
                j <= zeros,
                padded@.len() == j,
                digits_value(padded@) == 0,
                digits_only(padded@),
            decreases zeros - j,
        {
            let ghost was = padded@;
            padded.push('0');
            assert(padded@.drop_last() =~= was);
            j += 1;
        }
        let ghost lead = padded@;
        let mut t: usize = 0;
        assert(lead + d.digits@.take(0) =~= lead);
        while t < n
            invariant
                t <= n,
                n == d.digits@.len(),
                digits_only(d.digits@),
                digits_only(lead),
                padded@ == lead + d.digits@.take(t as int),
            decreases n - t,
        {
            padded.push(d.digits[t]);
            t += 1;
            assert(padded@ =~= lead + d.digits@.take(t as int));
        }
        proof {
            assert(padded@ =~= lead + d.digits@);
            assert forall|x: int| 0 <= x < padded@.len() implies is_digit(#[trigger] padded@[x]) by {
                if x < lead.len() {
                    assert(is_digit(lead[x]));
                } else {
                    assert(is_digit(d.digits@[x - lead.len()]));
                }
            }
            digits_value_append(lead, d.digits@);
            assert(0 * pow(10, d.digits@.len()) == 0);
            assert(padded@.skip(0) =~= padded@);
            assert(d.point == q);
            assert(zeros + n == -scale(s));
        }
        return (0, fraction_tiny(&padded, 0, 1075));
    }
    let mut acc: u64 = 0;
    let mut i: usize = 0;
    assert(d.digits@.take(0) =~= Seq::<char>::empty());
    while i < n && (i as i128) < d.point
        invariant
            i <= n,
            i <= d.point,
            n == d.digits@.len(),
            d.reads(s),
            v == digits_value(significand(s)),
            q == n + scale(s),
            acc == digits_value(d.digits@.take(i as int)),
            d.point >= 0,
        decreases n - i,
    {
        assert(is_digit(d.digits@[i as int]));
        let digit: u32 = d.digits[i] as u32 - 48;
        let next: u128 = acc as u128 * 10 + digit as u128;
        proof {
            assert(d.digits@.take(i as int + 1).drop_last() =~= d.digits@.take(i as int));
            assert(next == digits_value(d.digits@.take(i as int + 1)));
        }
        if next > u64::MAX as u128 {
            proof {
                let p = i as int + 1;
                let head = digits_value(d.digits@.take(p)) as int;
                digits_value_grows(d.digits@, p);
                if scale(s) >= 0 {
                    lemma_pow_positive(10, scale(s) as nat);
                    let t = pow(10, scale(s) as nat);
                    assert(v * t >= v) by (nonlinear_arith)
                        requires
                            v >= 0,
                            t >= 1,
                    ;
                    assert(numerator(s) / denominator(s) == numerator(s));
                    large_saturates(numerator(s), denominator(s));
                } else {
                    // The point is at `q`, at or after `p`; the whole part is at least `head`.
                    split_value(d.digits@, q);
                    let w = d.digits@.take(q);
                    digits_value_grows(w, p);
                    assert(w.take(p) =~= d.digits@.take(p));
                    let den = denominator(s) as int;
                    lemma_pow_positive(10, (n - q) as nat);
                    digits_value_bound(d.digits@.skip(q));
                    vstd::arithmetic::div_mod::lemma_fundamental_div_mod_converse(
                        v as int,
                        den,
                        digits_value(w) as int,
                        digits_value(d.digits@.skip(q)) as int,
                    );
                    large_saturates(numerator(s), denominator(s));
                }
            }
            return (u64::MAX, true);
        }
        acc = next as u64;
        i += 1;
    }
    if (i as i128) == d.point {
        proof {
            assert(q == i);
            split_value(d.digits@, i as int);
            if scale(s) >= 0 {
                assert(scale(s) == 0);
                assert(d.digits@.skip(i as int) =~= Seq::<char>::empty());
                vstd::arithmetic::power::lemma_pow0(10);
                assert(numerator(s) == v * 1);
                assert(d.digits@.take(i as int) =~= d.digits@);
                assert(digits_value(Seq::<char>::empty()) == 0);
            }
            lemma_pow_positive(10, (n - i) as nat);
            let den = pow(10, (n - i) as nat);
            assert(denominator(s) == den as nat);
            assert(acc * den >= 0) by (nonlinear_arith)
                requires
                    den > 0,
                    acc >= 0,
            ;
            assert(numerator(s) == (acc * den + digits_value(d.digits@.skip(i as int))) as nat);
        }
        return round_parts(acc, &d.digits, i);
    }
    // The point lies beyond the digits: the rest of the whole part is zeros.
    assert(d.digits@.take(n as int) =~= d.digits@);
    assert(v > 0);
    let mut zeros: i128 = 0;
    proof {
        vstd::arithmetic::power::lemma_pow0(10);
        assert(v * 1 == v);
    }
    while (n as i128) + zeros < d.point
        invariant
            0 <= zeros <= 19,
            n <= d.point,
            n + zeros <= d.point,
            n == d.digits@.len(),
            d.reads(s),
            v == digits_value(significand(s)),
            v > 0,
            q == n + scale(s),
            acc == v * pow(10, zeros as nat),
        decreases d.point - zeros,
    {
        let next: u128 = acc as u128 * 10;
        proof {
            lemma_pow_adds(10, zeros as nat, 1);
            vstd::arithmetic::power::lemma_pow1(10);
            let t = pow(10, zeros as nat);
            assert((v * t) * 10 == v * (t * 10)) by (nonlinear_arith);
            assert(next == v * pow(10, (zeros + 1) as nat));
            assert(q >= n + zeros + 1);
            if next > u64::MAX {
                let more = (q - n - zeros - 1) as nat;
                lemma_pow_adds(10, (zeros + 1) as nat, more);
                lemma_pow_positive(10, more);
                lemma_pow_positive(10, (zeros + 1) as nat);
                let a = pow(10, (zeros + 1) as nat);
                let c = pow(10, more);
                assert(v * (a * c) >= v * a) by (nonlinear_arith)
                    requires
                        v > 0,
                        a > 0,
                        c >= 1,
                ;
                assert(numerator(s) / denominator(s) == numerator(s));
                large_saturates(numerator(s), denominator(s));
            } else if zeros == 19 {
                far_right_is_large(v, 20);
            }
        }
        if next > u64::MAX as u128 {
            return (u64::MAX, true);
        }
        acc = next as u64;
        zeros = zeros + 1;
    }
    let none: Vec<char> = Vec::new();
    proof {
        assert(q == n + zeros);
        assert(none@.skip(0) =~= Seq::<char>::empty());
        assert(digits_value(Seq::<char>::empty()) == 0);
        vstd::arithmetic::power::lemma_pow0(10);
        assert(acc * 1 + 0 == numerator(s));
    }
    round_parts(acc, &none, 0)
}

/// A significand's value is its head scaled past its tail, plus its tail.
proof fn split_value(s: Seq<char>, i: int)
    requires
        0 <= i <= s.len(),
    ensures
        digits_value(s) == digits_value(s.take(i)) * pow(10, (s.len() - i) as nat) + digits_value(
            s.skip(i),
        ),
{
    assert(s =~= s.take(i) + s.skip(i));
    digits_value_append(s.take(i), s.skip(i));
}

/// What a text reads as when it is taken for a binary64 number.
#[derive(Debug, Clone, Copy, PartialEq, Eq)]
pub enum Reading {
    NotANumber,
    Infinite { negative: bool },
    /// A number, by its sign, the integer part of its magnitude, and whether there is nothing but
    /// that part; `u64::MAX` stands for every magnitude from `u64::MAX` on.
    Finite { negative: bool, whole: u64, exact: bool },
}

/// What `s` reads as; `None` when it is not a number at all.
pub open spec fn reading(s: Seq<char>) -> Option<Reading> {
    let word = lower(unsigned(s));
    if word == "nan"@ {
        Some(Reading::NotANumber)
    } else if word == "inf"@ || word == "infinity"@ {
        Some(Reading::Infinite { negative: signed_minus(s) })
    } else if is_decimal(s) {
        Some(
            Reading::Finite {
                negative: signed_minus(s),
                whole: saturate(nearest_whole(numerator(s), denominator(s))),
                exact: nearest_is_whole(numerator(s), denominator(s)),
            },
        )
    } else {
        None
    }
}

/// What `s` reads as; `None` when it is not a number at all.
pub fn read_number(s: &str) -> (r: Option<Reading>)
    ensures
        r == reading(s@),
{
    let chars = chars_of(s);
    let sign: usize = if chars.len() > 0 && (chars[0] == '+' || chars[0] == '-') {
        1
    } else {
        0
    };
    let negative = chars.len() > 0 && chars[0] == '-';
    let body = slice_text(&chars, sign, chars.len());
    assert(body@ =~= unsigned(s@));
    let word = lower_text(body.as_str());
    if same(word.as_str(), "nan") {
        return Some(Reading::NotANumber);
    }
    if same(word.as_str(), "inf") || same(word.as_str(), "infinity") {
        return Some(Reading::Infinite { negative });
    }
    match decimal_of(s) {
        Some(d) => {
            let (whole, exact): (u64, bool) = magnitude(&d, Ghost(s@));
            Some(Reading::Finite { negative, whole, exact })
        },
        None => None,
    }
}

impl Reading {
    /// The truncation to `i64`: zero for what is not a number, the nearest bound for what is out of
    /// range.
    pub open spec fn as_i64(self) -> i64 {
        match self {
            Reading::NotANumber => 0,
            Reading::Infinite { negative } => if negative {
                i64::MIN
            } else {
                i64::MAX
            },
            Reading::Finite { negative, whole, .. } => if negative {
                if whole > 0x7fff_ffff_ffff_ffff {
                    i64::MIN
                } else {
                    (-(whole as int)) as i64
                }
            } else if whole > 0x7fff_ffff_ffff_ffff {
                i64::MAX
            } else {
                whole as i64
            },
        }
    }

    /// The truncation to `u64`: zero for what is not a number or is negative, `u64::MAX` for what is
    /// out of range.
    pub open spec fn as_u64(self) -> u64 {
        match self {
            Reading::NotANumber => 0,
            Reading::Infinite { negative } => if negative {
                0
            } else {
                u64::MAX
            },
            Reading::Finite { negative, whole, .. } => if negative {
                0
            } else {
                whole
            },
        }
    }

    /// The number truncated to `i64`.
    pub fn to_i64(self) -> (r: i64)
        ensures
            r == self.as_i64(),
    {
        match self {
            Reading::NotANumber => 0,
            Reading::Infinite { negative } => if negative {
                i64::MIN
            } else {
                i64::MAX
            },
            Reading::Finite { negative, whole, .. } => if negative {
                if whole > 0x7fff_ffff_ffff_ffff {
                    i64::MIN
                } else {
                    -(whole as i64)
                }
            } else if whole > 0x7fff_ffff_ffff_ffff {
                i64::MAX
            } else {
                whole as i64
            },
        }
    }

    /// The number truncated to `u64`.
    pub fn to_u64(self) -> (r: u64)
        ensures
            r == self.as_u64(),
    {
        match self {
            Reading::NotANumber => 0,
            Reading::Infinite { negative } => if negative {
                0
            } else {
                u64::MAX
            },
            Reading::Finite { negative, whole, .. } => if negative {
                0
            } else {
                whole
            },
        }
    }
}

proof fn zeros_are_nothing(n: nat)
    ensures
        digits_value(Seq::new(n, |i: int| '0')) == 0,
    decreases n,
{
    if n > 0 {
        let z = Seq::new(n, |i: int| '0');
        assert(z.drop_last() =~= Seq::new((n - 1) as nat, |i: int| '0'));
        zeros_are_nothing((n - 1) as nat);
    }
}

/// Zeros put before a numeral change nothing of its value, and bring it to the width.
pub proof fn padding_keeps_the_value(s: Seq<char>, width: nat)
    ensures
        digits_value(crate::text::pad0(s, width)) == digits_value(s),
        crate::text::pad0(s, width).len() >= width,
        s.is_suffix_of(crate::text::pad0(s, width)),
{
    if s.len() < width {
        let z = Seq::new((width - s.len()) as nat, |i: int| '0');
        zeros_are_nothing((width - s.len()) as nat);
        digits_value_append(z, s);
        assert(0 * pow(10, s.len()) == 0);
        let p = z + s;
        assert(p.subrange(p.len() - s.len(), p.len() as int) =~= s);
    } else {
        assert(s.subrange(0, s.len() as int) =~= s);
    }
}

} // verus!
