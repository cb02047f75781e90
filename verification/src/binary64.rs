//! Arithmetic on measures, rounded to the nearest binary64 value: 53 significant binary digits, ties
//! to even, with steps of 2^-1074 next to zero and nothing finite from 2^1024 on.
use vstd::arithmetic::power2::{
    lemma2_to64,
    lemma2_to64_rest,
    lemma_pow2_adds,
    lemma_pow2_pos,
    lemma_pow2_strictly_increases,
    lemma_pow2_unfold,
    pow2,
};
use vstd::prelude::*;

use crate::measure::{same_magnitude, Measure};
use crate::natural::Natural;
use crate::number::{bits, bits_bounds};

verus! {

/// The whole number nearest to `a / b`, ties to even.
pub open spec fn half_even(a: nat, b: nat) -> nat {
    let q = a / b;
    let r = a % b;
    if 2 * r > b || (2 * r == b && q % 2 == 1) {
        q + 1
    } else {
        q
    }
}

/// 2^k, for a `k` above zero; else 1.
pub open spec fn up(k: int) -> nat {
    if k > 0 {
        pow2(k as nat)
    } else {
        1
    }
}

/// 2^-k, for a `k` below zero; else 1.
pub open spec fn down(k: int) -> nat {
    up(-k)
}

/// The least power of two above `num / den`, by its exponent.
pub open spec fn magnitude(num: nat, den: nat) -> int {
    if num >= den {
        bits(num / den) as int
    } else {
        1 - bits(((den - 1) as nat) / num)
    }
}

/// The exponent of the step between binary64 values next to `num / den`.
pub open spec fn step(num: nat, den: nat) -> int {
    let l = magnitude(num, den);
    if l - 53 > -1074 {
        l - 53
    } else {
        -1074
    }
}

/// A count of steps as a measure: infinite where it is out of range.
pub open spec fn in_steps(n: nat, u: int) -> Measure {
    let (m, e) = if n == 0x20_0000_0000_0000 {
        (0x10_0000_0000_0000nat, u + 1)
    } else {
        (n, u)
    };
    if e > 971 {
        Measure::Infinite { negative: false }
    } else {
        Measure::Finite { negative: false, mantissa: m as u64, exponent: e as i32 }
    }
}

/// The binary64 value nearest to `num / den`.
pub open spec fn nearest(num: nat, den: nat) -> Measure {
    if num == 0 {
        Measure::Finite { negative: false, mantissa: 0, exponent: 0 }
    } else {
        let u = step(num, den);
        in_steps(half_even(num * down(u), den * up(u)), u)
    }
}

pub proof fn up_is_positive(k: int)
    ensures
        up(k) > 0,
        down(k) > 0,
{
    if k > 0 {
        lemma_pow2_pos(k as nat);
    }
    if k < 0 {
        lemma_pow2_pos((-k) as nat);
    }
}

/// Multiplying powers of two adds their exponents.
pub proof fn up_adds(a: int, b: int)
    requires
        0 <= a,
        0 <= b,
    ensures
        up(a + b) == up(a) * up(b),
{
    lemma2_to64();
    if a > 0 && b > 0 {
        lemma_pow2_adds(a as nat, b as nat);
    }
    assert(1 * up(b) == up(b));
    assert(up(a) * 1 == up(a));
}

pub proof fn up_grows(a: int, b: int)
    requires
        a <= b,
    ensures
        up(a) <= up(b),
        a < b && 0 < b && 0 <= a ==> 2 * up(a) <= up(b),
{
    up_is_positive(a);
    up_is_positive(b);
    lemma2_to64();
    if a > 0 && a < b {
        lemma_pow2_strictly_increases(a as nat, b as nat);
        up_adds(a, b - a);
        lemma_pow2_unfold((b - a) as nat);
        lemma_pow2_pos((b - a - 1) as nat);
        let p = up(a) as int;
        let q = up(b - a) as int;
        assert(2 * p <= p * q) by (nonlinear_arith)
            requires
                q >= 2,
                p > 0,
        ;
    } else if a <= 0 && 0 < b {
        lemma_pow2_unfold(b as nat);
        lemma_pow2_pos((b - 1) as nat);
    }
}

/// The magnitude bounds a ratio from both sides.
pub proof fn magnitude_bounds(num: nat, den: nat)
    requires
        num > 0,
        den > 0,
    ensures
        num * down(magnitude(num, den)) < den * up(magnitude(num, den)),
        den * up(magnitude(num, den)) <= 2 * num * down(magnitude(num, den)),
{
    let l = magnitude(num, den);
    lemma2_to64();
    if num >= den {
        let i = num / den;
        assert(i >= 1) by (nonlinear_arith)
            requires
                i == num / den,
                num >= den,
                den > 0,
        ;
        bits_bounds(i);
        lemma_pow2_unfold(bits(i));
        let p = pow2(bits(i)) as int;
        let h = pow2((bits(i) - 1) as nat) as int;
        assert(up(l) == p);
        assert(num < den * p && den * p <= 2 * num) by (nonlinear_arith)
            requires
                i == num / den,
                i < p,
                p == 2 * h,
                h <= i,
                den > 0,
        ;
        assert(num * 1 == num);
        assert(2 * num * 1 == 2 * num);
    } else {
        let j = ((den - 1) as nat) / num;
        assert(j >= 1) by (nonlinear_arith)
            requires
                j == ((den - 1) as nat) / num,
                num <= den - 1,
                num > 0,
        ;
        bits_bounds(j);
        let k = bits(j);
        lemma_pow2_unfold(k);
        let p = pow2(k) as int;
        let h = pow2((k - 1) as nat) as int;
        assert(num * h < den && den <= num * p) by (nonlinear_arith)
            requires
                j == ((den - 1) as nat) / num,
                j < p,
                h <= j,
                num > 0,
                den > 0,
        ;
        assert(l == 1 - k);
        assert(down(l) == h) by {
            if k == 1 {
                assert(h == 1);
            }
        }
        assert(up(l) == 1);
        assert(den * 1 == den);
        assert(2 * num * h == num * p) by (nonlinear_arith)
            requires
                p == 2 * h,
        ;
    }
}

/// `2^a / 2^b` and `2^(a - b)` are the same ratio.
proof fn same_power(a: int, b: int)
    requires
        0 <= a,
        0 <= b,
    ensures
        up(a) * down(a - b) == up(b) * up(a - b),
{
    lemma2_to64();
    if a >= b {
        up_adds(b, a - b);
        assert(up(a) * 1 == up(a));
    } else {
        up_adds(a, b - a);
        assert(up(b) * 1 == up(b));
    }
}

/// Only one exponent bounds a ratio from both sides.
proof fn magnitude_is_unique(num: nat, den: nat, a: int, b: int)
    requires
        num > 0,
        den > 0,
        0 <= a,
        0 <= b,
        num * up(a) < den * up(b),
        den * up(b) <= 2 * (num * up(a)),
    ensures
        magnitude(num, den) == b - a,
{
    let l = magnitude(num, den);
    let k = b - a;
    magnitude_bounds(num, den);
    same_power(b, a);
    up_is_positive(l);
    up_is_positive(k);
    up_is_positive(a);
    up_is_positive(b);
    let n = num as int;
    let d = den as int;
    let ua = up(a) as int;
    let ub = up(b) as int;
    let uk = up(k) as int;
    let dk = down(k) as int;
    let ul = up(l) as int;
    let dl = down(l) as int;
    // The same bounds, over 2^k alone.
    assert(n * dk < d * uk) by (nonlinear_arith)
        requires
            n * ua < d * ub,
            ub * dk == ua * uk,
            ua > 0,
            ub > 0,
            dk > 0,
            uk > 0,
    {
        // n * ua * dk < d * ub * dk = d * ua * uk
        assert((n * ua) * dk < (d * ub) * dk) by (nonlinear_arith)
            requires
                n * ua < d * ub,
                dk > 0,
        ;
        assert((d * ub) * dk == d * (ua * uk)) by (nonlinear_arith)
            requires
                ub * dk == ua * uk,
        ;
        assert((n * dk) * ua < (d * uk) * ua) by (nonlinear_arith)
            requires
                (n * ua) * dk < d * (ua * uk),
        ;
    }
    assert(d * uk <= 2 * (n * dk)) by (nonlinear_arith)
        requires
            d * ub <= 2 * (n * ua),
            ub * dk == ua * uk,
            ua > 0,
            dk > 0,
    {
        assert((d * ub) * dk <= 2 * (n * ua) * dk) by (nonlinear_arith)
            requires
                d * ub <= 2 * (n * ua),
                dk > 0,
        ;
        assert((d * ub) * dk == d * (ua * uk)) by (nonlinear_arith)
            requires
                ub * dk == ua * uk,
        ;
        assert((d * uk) * ua <= (2 * (n * dk)) * ua) by (nonlinear_arith)
            requires
                d * (ua * uk) <= 2 * (n * ua) * dk,
        ;
    }
    if l < k {
        // d * uk <= 2 n dk, n dl < d ul, and uk * dl >= 2 * ul * dk.
        two_apart(l, k);
        assert(false) by (nonlinear_arith)
            requires
                d * uk <= 2 * (n * dk),
                n * dl < d * ul,
                uk * dl >= 2 * (ul * dk),
                dl > 0,
                dk > 0,
                d > 0,
        {
            assert((d * uk) * dl <= 2 * (n * dk) * dl) by (nonlinear_arith)
                requires
                    d * uk <= 2 * (n * dk),
                    dl > 0,
            ;
            assert((n * dl) * dk < (d * ul) * dk) by (nonlinear_arith)
                requires
                    n * dl < d * ul,
                    dk > 0,
            ;
            assert(d * (uk * dl) >= d * (2 * (ul * dk))) by (nonlinear_arith)
                requires
                    uk * dl >= 2 * (ul * dk),
                    d > 0,
            ;
            assert((d * uk) * dl == d * (uk * dl)) by (nonlinear_arith);
            assert(2 * (n * dk) * dl == 2 * ((n * dl) * dk)) by (nonlinear_arith);
            assert(d * (2 * (ul * dk)) == 2 * ((d * ul) * dk)) by (nonlinear_arith);
        }
    }
    if k < l {
        two_apart(k, l);
        assert(d * ul <= 2 * (n * dl)) by (nonlinear_arith)
            requires
                d * ul <= 2 * n * dl,
        ;
        assert(false) by (nonlinear_arith)
            requires
                d * ul <= 2 * (n * dl),
                n * dk < d * uk,
                ul * dk >= 2 * (uk * dl),
                dl > 0,
                dk > 0,
                d > 0,
        {
            assert((d * ul) * dk <= 2 * (n * dl) * dk) by (nonlinear_arith)
                requires
                    d * ul <= 2 * (n * dl),
                    dk > 0,
            ;
            assert((n * dk) * dl < (d * uk) * dl) by (nonlinear_arith)
                requires
                    n * dk < d * uk,
                    dl > 0,
            ;
            assert(d * (ul * dk) >= d * (2 * (uk * dl))) by (nonlinear_arith)
                requires
                    ul * dk >= 2 * (uk * dl),
                    d > 0,
            ;
            assert((d * ul) * dk == d * (ul * dk)) by (nonlinear_arith);
            assert(2 * (n * dl) * dk == 2 * ((n * dk) * dl)) by (nonlinear_arith);
            assert(d * (2 * (uk * dl)) == 2 * ((d * uk) * dl)) by (nonlinear_arith);
        }
    }
}

/// A greater exponent stands for at least twice the ratio.
proof fn two_apart(a: int, b: int)
    requires
        a < b,
    ensures
        up(b) * down(a) >= 2 * (up(a) * down(b)),
{
    up_is_positive(a);
    up_is_positive(b);
    lemma2_to64();
    if b <= 0 {
        up_grows(-b, -a);
        if b == 0 {
            lemma_pow2_unfold((-a) as nat);
            lemma_pow2_pos((-a - 1) as nat);
        }
        assert(up(b) * down(a) == down(a));
        assert(up(a) * down(b) == down(b));
    } else if a >= 0 {
        up_grows(a, b);
        assert(up(b) * 1 == up(b));
        assert(up(a) * 1 == up(a));
    } else {
        up_grows(0, b);
        up_grows(0, -a);
        let x = up(b) as int;
        let y = down(a) as int;
        assert(x * y >= 2) by (nonlinear_arith)
            requires
                x >= 2,
                y >= 2,
        ;
        assert(up(a) * down(b) == 1);
    }
}

/// Rounding depends on the ratio alone.
proof fn half_even_of_same_ratio(a: nat, b: nat, c: nat, d: nat)
    requires
        b > 0,
        d > 0,
        a * d == c * b,
    ensures
        half_even(a, b) == half_even(c, d),
{
    let q = a / b;
    let r = a % b;
    vstd::arithmetic::div_mod::lemma_fundamental_div_mod(a as int, b as int);
    assert(a == b * q + r && 0 <= r < b);
    // c = q d + s with s b = r d.
    let s = c as int - q * d;
    assert(s * b == r * d) by (nonlinear_arith)
        requires
            a == b * q + r,
            a * d == c * b,
            s == c as int - q * d,
    ;
    assert(0 <= s < d) by (nonlinear_arith)
        requires
            s * b == r * d,
            0 <= r < b,
            b > 0,
            d > 0,
    ;
    vstd::arithmetic::div_mod::lemma_fundamental_div_mod_converse(
        c as int,
        d as int,
        q as int,
        s,
    );
    assert(c / d == q && c % d == s);
    assert(2 * r > b <==> 2 * s > d) by (nonlinear_arith)
        requires
            s * b == r * d,
            b > 0,
            d > 0,
    ;
    assert(2 * r == b <==> 2 * s == d) by (nonlinear_arith)
        requires
            s * b == r * d,
            b > 0,
            d > 0,
    ;
}

/// The whole number nearest to a ratio is no further from it than one half.
pub proof fn half_even_is_near(a: nat, b: nat)
    requires
        b > 0,
    ensures
        2 * (half_even(a, b) * b) <= 2 * a + b,
        2 * a <= 2 * (half_even(a, b) * b) + b,
{
    let q = a / b;
    let r = a % b;
    vstd::arithmetic::div_mod::lemma_fundamental_div_mod(a as int, b as int);
    assert((q + 1) * b == q * b + b) by (nonlinear_arith);
    assert(b * q == q * b) by (nonlinear_arith);
}

/// What is 2^1024 or more has no finite nearest value.
pub proof fn huge_is_infinite(num: nat, den: nat)
    requires
        den > 0,
        num > 0,
        num >= den * pow2(1024),
    ensures
        nearest(num, den) == (Measure::Infinite { negative: false }),
{
    let l = magnitude(num, den);
    magnitude_bounds(num, den);
    if l <= 1024 {
        up_grows(l, 1024);
        up_is_positive(l);
        let x = up(l) as int;
        let y = down(l) as int;
        let p = pow2(1024) as int;
        assert(den * x <= den * p) by (nonlinear_arith)
            requires
                x <= p,
                den > 0,
        ;
        assert(num * y >= num) by (nonlinear_arith)
            requires
                y >= 1,
        ;
        assert(false);
    }
}

/// What is 2^-1076 or less is nearest to zero.
pub proof fn tiny_is_zero(num: nat, den: nat)
    requires
        num > 0,
        num * pow2(1076) <= den,
    ensures
        nearest(num, den) == (Measure::Finite { negative: false, mantissa: 0, exponent: -1074i32 }),
{
    let l = magnitude(num, den);
    lemma_pow2_pos(1076);
    assert(den > 0) by (nonlinear_arith)
        requires
            num > 0,
            pow2(1076) > 0,
            num * pow2(1076) <= den,
    ;
    magnitude_bounds(num, den);
    lemma_pow2_unfold(1076);
    lemma_pow2_unfold(1075);
    let p = pow2(1074) as int;
    assert(4 * (num * p) <= den) by (nonlinear_arith)
        requires
            num * pow2(1076) <= den,
            pow2(1076) == 4 * p,
    ;
    if l >= -1074 {
        up_grows(-l, 1074);
        up_is_positive(l);
        let x = up(l) as int;
        let y = down(l) as int;
        assert(2 * num * y <= 2 * (num * p)) by (nonlinear_arith)
            requires
                y <= p,
                num > 0,
        ;
        assert(den * x >= den) by (nonlinear_arith)
            requires
                x >= 1,
        ;
        assert(false);
    }
    assert(step(num, den) == -1074);
    assert(down(-1074) == p);
    let a = num * pow2(1074);
    assert(den * 1 == den);
    assert(a / den == 0 && a % den == a) by {
        vstd::arithmetic::div_mod::lemma_small_mod(a, den);
        vstd::arithmetic::div_mod::lemma_basic_div(a as int, den as int);
    }
}

/// Two ratios of the same value, by powers of two.
proof fn ratio_of_steps(num: nat, den: nat, a: int, b: int, s: int, u: int)
    requires
        0 <= a,
        0 <= b,
        0 <= s,
        u == b - a - s,
    ensures
        (num * up(a) * up(s)) * (den * up(u)) == (num * down(u)) * (den * up(b)),
{
    up_adds(a, s);
    same_power(b, a + s);
    let x = up(a + s) as int;
    let y = up(u) as int;
    let z = down(u) as int;
    let w = up(b) as int;
    let n = num as int;
    let d = den as int;
    assert(w * z == x * y);
    assert((n * up(a) * up(s)) * (d * y) == n * d * (x * y)) by (nonlinear_arith)
        requires
            x == up(a) * up(s),
    ;
    assert((n * z) * (d * w) == n * d * (w * z)) by (nonlinear_arith);
}

/// The binary64 value nearest to `p / q`. The two are within `2^reach` of each other.
pub(crate) fn round_ratio(num: Natural, den: Natural, Ghost(reach): Ghost<nat>) -> (r: Measure)
    requires
        num.value() > 0,
        den.value() > 0,
        reach <= 0x1000_0000,
        den.value() <= num.value() * pow2(reach),
        num.value() <= den.value() * pow2(reach),
    ensures
        r == nearest(num.value(), den.value()),
{
    let ghost n0 = num.value();
    let ghost d0 = den.value();
    let mut p = num;
    let mut q = den;
    let mut a: u32 = 0;
    let mut b: u32 = 0;
    proof {
        lemma2_to64();
        assert(n0 * 1 == n0);
        assert(d0 * 1 == d0);
    }
    while p.less(&q)
        invariant
            n0 > 0,
            q.value() == d0,
            p.value() == n0 * up(a as int),
            a <= reach,
            reach <= 0x1000_0000,
            d0 <= n0 * pow2(reach),
        decreases reach - a,
    {
        proof {
            up_is_positive(a as int);
            let x = up(a as int) as int;
            assert(n0 * x > 0) by (nonlinear_arith)
                requires
                    n0 > 0,
                    x > 0,
            ;
            if a == reach {
                lemma2_to64();
                assert(up(a as int) == pow2(reach));
                assert(false);
            }
            up_adds(a as int, 1);
            lemma2_to64();
            assert(n0 * (x * 2) == (n0 * x) * 2) by (nonlinear_arith);
        }
        p.times_plus(2, 0);
        a += 1;
    }
    while !p.less(&q)
        invariant
            d0 > 0,
            n0 > 0,
            p.value() == n0 * up(a as int),
            q.value() == d0 * up(b as int),
            a <= reach,
            b <= reach + a + 1,
            reach <= 0x1000_0000,
            n0 <= d0 * pow2(reach),
            b == 0 ==> p.value() >= q.value(),
            b > 0 ==> q.value() <= 2 * p.value(),
        decreases reach + a + 1 - b,
    {
        proof {
            up_is_positive(b as int);
            let x = up(b as int) as int;
            assert(d0 * x > 0) by (nonlinear_arith)
                requires
                    d0 > 0,
                    x > 0,
            ;
            up_adds(b as int, 1);
            lemma2_to64();
            assert(d0 * (x * 2) == (d0 * x) * 2) by (nonlinear_arith);
            if b > reach + a {
                // q = d0 2^b > d0 2^(reach + a) >= n0 2^a = p.
                up_grows(reach + a, b as int);
                up_adds(reach as int, a as int);
                up_is_positive(a as int);
                let y = up(a as int) as int;
                let z = pow2(reach) as int;
                lemma_pow2_pos(reach);
                assert(up(reach as int) == z);
                assert(n0 * y <= (d0 * z) * y) by (nonlinear_arith)
                    requires
                        n0 <= d0 * z,
                        y > 0,
                ;
                assert((d0 * z) * y == d0 * (z * y)) by (nonlinear_arith);
                assert(2 * (z * y) <= x);
                assert(d0 * (z * y) < d0 * x) by (nonlinear_arith)
                    requires
                        2 * (z * y) <= x,
                        z > 0,
                        y > 0,
                        d0 > 0,
                        x > 0,
                ;
                assert(false);
            }
        }
        q.times_plus(2, 0);
        b += 1;
    }
    proof {
        magnitude_is_unique(n0, d0, a as int, b as int);
    }
    let l: i64 = b as i64 - a as i64;
    let u: i64 = if l - 53 > -1074 {
        l - 53
    } else {
        -1074
    };
    let ghost p0 = p.value();
    let ghost q0 = q.value();
    if l < u {
        // Less than half of the least step.
        proof {
            let s = u - l;
            up_grows(0, s);
            half_of_least(n0, d0, a as int, b as int, u as int);
        }
        return Measure::Finite { negative: false, mantissa: 0, exponent: -1074 };
    }
    let steps: i64 = l - u;
    let mut n: u64 = 0;
    let mut i: i64 = 0;
    proof {
        assert(p0 * 1 == p0);
        assert(0 * q0 == 0);
    }
    while i < steps
        invariant
            0 <= i <= steps <= 53,
            q.value() == q0,
            p.value() < q0,
            p0 * up(i as int) == n * q0 + p.value(),
            n < up(i as int),
        decreases steps - i,
    {
        let ghost before = p.value();
        let ghost had = n as int;
        proof {
            up_adds(i as int, 1);
            lemma2_to64();
            lemma2_to64_rest();
            up_grows(i as int + 1, 53);
            let x = up(i as int) as int;
            assert(p0 * (x * 2) == 2 * (p0 * x)) by (nonlinear_arith);
            assert((2 * had) * q0 == 2 * (had * q0)) by (nonlinear_arith);
            assert((2 * had + 1) * q0 == 2 * (had * q0) + q0) by (nonlinear_arith);
        }
        p.times_plus(2, 0);
        n = 2 * n;
        if !p.less(&q) {
            p.subtract(&q);
            n = n + 1;
        }
        i += 1;
    }
    proof {
        up_grows(steps as int, 53);
        lemma2_to64();
        lemma2_to64_rest();
        ratio_of_steps(n0, d0, a as int, b as int, steps as int, u as int);
        let x = p0 * up(steps as int);
        let y = q0;
        up_is_positive(u as int);
        let uu = up(u as int) as int;
        assert(d0 * uu > 0) by (nonlinear_arith)
            requires
                d0 > 0,
                uu > 0,
        ;
        half_even_of_same_ratio(x, y, (n0 * down(u as int)) as nat, (d0 * up(u as int)) as nat);
        vstd::arithmetic::div_mod::lemma_fundamental_div_mod_converse(
            x as int,
            y as int,
            n as int,
            p.value() as int,
        );
    }
    let ghost rest = p.value();
    p.times_plus(2, 0);
    let above = q.less(&p);
    let below = p.less(&q);
    if above || (!below && n % 2 == 1) {
        n = n + 1;
    }
    let (m, e): (u64, i64) = if n == 0x20_0000_0000_0000 {
        (0x10_0000_0000_0000, u + 1)
    } else {
        (n, u)
    };
    if e > 971 {
        Measure::Infinite { negative: false }
    } else {
        Measure::Finite { negative: false, mantissa: m, exponent: e as i32 }
    }
}

/// A ratio below half of the least step is nearest to zero.
proof fn half_of_least(num: nat, den: nat, a: int, b: int, u: int)
    requires
        num > 0,
        den > 0,
        0 <= a,
        0 <= b,
        num * up(a) < den * up(b),
        den * up(b) <= 2 * (num * up(a)),
        u == -1074,
        b - a < u,
    ensures
        nearest(num, den) == (Measure::Finite { negative: false, mantissa: 0, exponent: -1074i32 }),
{
    magnitude_is_unique(num, den, a, b);
    let l = b - a;
    assert(step(num, den) == u);
    // num / den < 2^l <= 2^(u - 1).
    let n = num as int;
    let d = den as int;
    let x = n * up(a) as int;
    let y = d * up(b) as int;
    let t = down(u) as int;
    up_is_positive(a);
    up_is_positive(b);
    up_is_positive(u);
    // a > b + 1074, so down(u) times up(b) is at most half of up(a).
    up_adds(b, -u);
    up_grows(b - u, a);
    let ua = up(a) as int;
    let ub = up(b) as int;
    assert(ub * t == up(b - u));
    assert(2 * (ub * t) <= ua);
    assert(2 * (n * t) < d) by (nonlinear_arith)
        requires
            n * ua < d * ub,
            2 * (ub * t) <= ua,
            ub > 0,
            n > 0,
            t > 0,
            d > 0,
    {
        // 2 n t ub <= n ua < d ub
        assert(n * (2 * (ub * t)) <= n * ua) by (nonlinear_arith)
            requires
                2 * (ub * t) <= ua,
                n > 0,
        ;
        assert(n * (2 * (ub * t)) == (2 * (n * t)) * ub) by (nonlinear_arith);
        assert((2 * (n * t)) * ub < d * ub);
    }
    let c = (num * down(u)) as nat;
    assert(den * up(u) == den) by {
        assert(up(u) == 1);
        assert(den * 1 == den);
    }
    assert(c / den == 0 && c % den == c) by {
        vstd::arithmetic::div_mod::lemma_small_mod(c, den);
        vstd::arithmetic::div_mod::lemma_basic_div(c as int, den as int);
    }
}

/// The binary64 value nearest to `p / q * 2^e`.
pub open spec fn nearest_scaled(p: nat, q: nat, e: int) -> Measure {
    nearest(p * up(e), q * down(e))
}

fn round_scaled(p: u128, q: u64, e: i64) -> (r: Measure)
    requires
        p > 0,
        q > 0,
        -0x2_0000_0000 <= e <= 0x2_0000_0000,
    ensures
        r == nearest_scaled(p as nat, q as nat, e as int),
{
    let ghost num = (p * up(e as int)) as nat;
    let ghost den = (q * down(e as int)) as nat;
    proof {
        up_is_positive(e as int);
        lemma2_to64();
        lemma2_to64_rest();
        lemma_pow2_adds(64, 64);
        let x = up(e as int) as int;
        let y = down(e as int) as int;
        assert(p * x > 0 && q * y > 0) by (nonlinear_arith)
            requires
                p > 0,
                q > 0,
                x > 0,
                y > 0,
        ;
        assert(p < pow2(128) && q < pow2(64));
    }
    if e >= 1100 {
        proof {
            // p * 2^e >= 2^1100 >= q * 2^1024.
            up_grows(1100, e as int);
            lemma_pow2_adds(64, 1024);
            lemma_pow2_strictly_increases(1088, 1100);
            let x = up(e as int) as int;
            let h = pow2(1024) as int;
            lemma_pow2_pos(1024);
            assert(p * x >= x) by (nonlinear_arith)
                requires
                    p > 0,
                    x > 0,
            ;
            assert(q * h <= pow2(64) * h) by (nonlinear_arith)
                requires
                    q < pow2(64),
                    h > 0,
            ;
            assert(q * down(e as int) == q);
            huge_is_infinite(num, den);
        }
        return Measure::Infinite { negative: false };
    }
    if e <= -1300 {
        proof {
            // p * 2^1076 < 2^1204 <= q * 2^-e.
            up_grows(1300, -e as int);
            lemma_pow2_adds(128, 1076);
            lemma_pow2_strictly_increases(1204, 1300);
            let y = down(e as int) as int;
            let h = pow2(1076) as int;
            lemma_pow2_pos(1076);
            assert(q * y >= y) by (nonlinear_arith)
                requires
                    q > 0,
                    y > 0,
            ;
            assert(p * h <= pow2(128) * h) by (nonlinear_arith)
                requires
                    p < pow2(128),
                    h > 0,
            ;
            assert(p * up(e as int) == p);
            tiny_is_zero(num, den);
        }
        return Measure::Finite { negative: false, mantissa: 0, exponent: -1074 };
    }
    let mut a = Natural::of_words(
        (p / 0x1_0000_0000_0000_0000) as u64,
        (p % 0x1_0000_0000_0000_0000) as u64,
    );
    let mut b = Natural::new(q);
    assert(a.value() == p);
    if e > 0 {
        a.shift_up(e as u32);
    } else if e < 0 {
        b.shift_up((-e) as u32);
    }
    proof {
        assert(p * 1 == p && q * 1 == q);
        assert(a.value() == num && b.value() == den);
        up_grows(e as int, 1100);
        up_grows(-e as int, 1300);
        let x = up(e as int) as int;
        let y = down(e as int) as int;
        lemma_pow2_adds(128, 1100);
        lemma_pow2_adds(64, 1300);
        lemma_pow2_pos(1100);
        lemma_pow2_pos(1300);
        assert(p * x <= pow2(128) * pow2(1100)) by (nonlinear_arith)
            requires
                p < pow2(128),
                x <= pow2(1100),
                p > 0,
                x > 0,
        ;
        assert(q * y <= pow2(64) * pow2(1300)) by (nonlinear_arith)
            requires
                q < pow2(64),
                y <= pow2(1300),
                q > 0,
                y > 0,
        ;
        lemma_pow2_strictly_increases(1228, 2000);
        lemma_pow2_strictly_increases(1364, 2000);
        let w = pow2(2000) as int;
        assert(den <= num * w && num <= den * w) by (nonlinear_arith)
            requires
                num >= 1,
                den >= 1,
                num <= w,
                den <= w,
        ;
    }
    round_ratio(a, b, Ghost(2000))
}

impl Measure {
    /// A magnitude with a sign.
    pub open spec fn signed(self, negative: bool) -> Measure {
        match self {
            Measure::NotANumber => self,
            Measure::Infinite { .. } => Measure::Infinite { negative },
            Measure::Finite { mantissa, exponent, .. } => Measure::Finite {
                negative,
                mantissa,
                exponent,
            },
        }
    }

    /// Whether the quantity is zero.
    pub open spec fn zero(self) -> bool {
        self is Finite && self->mantissa == 0
    }

    /// The product of two quantities.
    pub open spec fn times(self, other: Measure) -> Measure {
        let negative = self.marked() != other.marked();
        match (self, other) {
            (
                Measure::Finite { mantissa: m, exponent: e, .. },
                Measure::Finite { mantissa: n, exponent: f, .. },
            ) => nearest_scaled(m as nat * n as nat, 1, e + f).signed(negative),
            (Measure::NotANumber, _) => Measure::NotANumber,
            (_, Measure::NotANumber) => Measure::NotANumber,
            _ => if self.zero() || other.zero() {
                Measure::NotANumber
            } else {
                Measure::Infinite { negative }
            },
        }
    }

    /// The quotient of two quantities.
    pub open spec fn over(self, other: Measure) -> Measure {
        let negative = self.marked() != other.marked();
        match (self, other) {
            (
                Measure::Finite { mantissa: m, exponent: e, .. },
                Measure::Finite { mantissa: n, exponent: f, .. },
            ) => if n == 0 {
                if m == 0 {
                    Measure::NotANumber
                } else {
                    Measure::Infinite { negative }
                }
            } else {
                nearest_scaled(m as nat, n as nat, e - f).signed(negative)
            },
            (Measure::NotANumber, _) => Measure::NotANumber,
            (_, Measure::NotANumber) => Measure::NotANumber,
            (Measure::Infinite { .. }, Measure::Infinite { .. }) => Measure::NotANumber,
            (Measure::Infinite { .. }, _) => Measure::Infinite { negative },
            (_, Measure::Infinite { .. }) => Measure::Finite { negative, mantissa: 0, exponent: 0 },
        }
    }

    /// Whether one quantity is above another.
    pub open spec fn greater(self, other: Measure) -> bool {
        match (self, other) {
            (Measure::NotANumber, _) => false,
            (_, Measure::NotANumber) => false,
            (Measure::Infinite { negative: a }, Measure::Infinite { negative: b }) => !a && b,
            (Measure::Infinite { negative }, _) => !negative,
            (_, Measure::Infinite { negative }) => negative,
            (
                Measure::Finite { negative: a, mantissa: m, exponent: e },
                Measure::Finite { negative: b, mantissa: n, exponent: f },
            ) => {
                let x = if a {
                    -(m as int)
                } else {
                    m as int
                };
                let y = if b {
                    -(n as int)
                } else {
                    n as int
                };
                x * up(e - f) > y * down(e - f)
            },
        }
    }

    pub(crate) fn with_sign(self, negative: bool) -> (r: Measure)
        ensures
            r == self.signed(negative),
    {
        match self {
            Measure::NotANumber => self,
            Measure::Infinite { .. } => Measure::Infinite { negative },
            Measure::Finite { mantissa, exponent, .. } => Measure::Finite {
                negative,
                mantissa,
                exponent,
            },
        }
    }

    fn is_marked(self) -> (r: bool)
        ensures
            r == self.marked(),
    {
        match self {
            Measure::NotANumber => false,
            Measure::Infinite { negative } => negative,
            Measure::Finite { negative, .. } => negative,
        }
    }

    fn is_zero(self) -> (r: bool)
        ensures
            r == self.zero(),
    {
        match self {
            Measure::Finite { mantissa, .. } => mantissa == 0,
            _ => false,
        }
    }

    /// The binary64 value nearest to a whole number.
    pub fn of_whole(n: u64) -> (r: Measure)
        ensures
            r == nearest(n as nat, 1),
    {
        if n == 0 {
            return Measure::Finite { negative: false, mantissa: 0, exponent: 0 };
        }
        assert(n * 1 == n);
        round_scaled(n as u128, 1, 0)
    }

    /// The product of two quantities, rounded.
    pub fn product(self, other: Measure) -> (r: Measure)
        ensures
            r == self.times(other),
    {
        let negative = self.is_marked() != other.is_marked();
        match (self, other) {
            (
                Measure::Finite { mantissa: m, exponent: e, .. },
                Measure::Finite { mantissa: n, exponent: f, .. },
            ) => {
                if m == 0 || n == 0 {
                    proof {
                        assert(m as nat * n as nat == 0) by (nonlinear_arith)
                            requires
                                m == 0 || n == 0,
                        ;
                        assert(0 * up(e + f) == 0);
                    }
                    return Measure::Finite { negative, mantissa: 0, exponent: 0 };
                }
                proof {
                    assert(0 < m * n <= 0xffff_ffff_ffff_ffff * 0xffff_ffff_ffff_ffff)
                        by (nonlinear_arith)
                        requires
                            0 < m <= 0xffff_ffff_ffff_ffff,
                            0 < n <= 0xffff_ffff_ffff_ffff,
                    ;
                }
                round_scaled(m as u128 * n as u128, 1, e as i64 + f as i64).with_sign(negative)
            },
            (Measure::NotANumber, _) => Measure::NotANumber,
            (_, Measure::NotANumber) => Measure::NotANumber,
            _ => if self.is_zero() || other.is_zero() {
                Measure::NotANumber
            } else {
                Measure::Infinite { negative }
            },
        }
    }

    /// The quotient of two quantities, rounded.
    pub fn quotient(self, other: Measure) -> (r: Measure)
        ensures
            r == self.over(other),
    {
        let negative = self.is_marked() != other.is_marked();
        match (self, other) {
            (
                Measure::Finite { mantissa: m, exponent: e, .. },
                Measure::Finite { mantissa: n, exponent: f, .. },
            ) => {
                if n == 0 {
                    if m == 0 {
                        Measure::NotANumber
                    } else {
                        Measure::Infinite { negative }
                    }
                } else if m == 0 {
                    assert(0 * up(e - f) == 0);
                    Measure::Finite { negative, mantissa: 0, exponent: 0 }
                } else {
                    round_scaled(m as u128, n, e as i64 - f as i64).with_sign(negative)
                }
            },
            (Measure::NotANumber, _) => Measure::NotANumber,
            (_, Measure::NotANumber) => Measure::NotANumber,
            (Measure::Infinite { .. }, Measure::Infinite { .. }) => Measure::NotANumber,
            (Measure::Infinite { .. }, _) => Measure::Infinite { negative },
            (_, Measure::Infinite { .. }) => Measure::Finite { negative, mantissa: 0, exponent: 0 },
        }
    }

    /// Whether one quantity is above another.
    pub fn is_above(self, other: Measure) -> (r: bool)
        ensures
            r == self.greater(other),
    {
        match (self, other) {
            (Measure::NotANumber, _) => false,
            (_, Measure::NotANumber) => false,
            (Measure::Infinite { negative: a }, Measure::Infinite { negative: b }) => !a && b,
            (Measure::Infinite { negative }, _) => !negative,
            (_, Measure::Infinite { negative }) => negative,
            (
                Measure::Finite { negative: a, mantissa: m, exponent: e },
                Measure::Finite { negative: b, mantissa: n, exponent: f },
            ) => {
                let d: i64 = e as i64 - f as i64;
                proof {
                    let u = up(e - f) as int;
                    let v = down(e - f) as int;
                    up_is_positive(e - f);
                    assert(0 * u == 0 && 0 * v == 0);
                    assert(m > 0 ==> m * u > 0) by (nonlinear_arith)
                        requires
                            u > 0,
                    ;
                    assert(n > 0 ==> n * v > 0) by (nonlinear_arith)
                        requires
                            v > 0,
                    ;
                    assert((-(m as int)) * u == -(m * u)) by (nonlinear_arith);
                    assert((-(n as int)) * v == -(n * v)) by (nonlinear_arith);
                }
                if m == 0 && n == 0 {
                    false
                } else if m == 0 {
                    b
                } else if n == 0 {
                    !a
                } else if a && !b {
                    false
                } else if !a && b {
                    true
                } else if a {
                    below(m, n, d)
                } else {
                    below(n, m, -d)
                }
            },
        }
    }
}

/// Whether `m * 2^d` is below `n`.
fn below(m: u64, n: u64, d: i64) -> (r: bool)
    requires
        m > 0,
        n > 0,
        -0x2_0000_0000 <= d <= 0x2_0000_0000,
    ensures
        r == (m * up(d as int) < n * down(d as int)),
{
    proof {
        lemma2_to64();
        lemma2_to64_rest();
    }
    if d >= 64 {
        proof {
            up_grows(64, d as int);
            let u = up(d as int) as int;
            assert(m * u >= u) by (nonlinear_arith)
                requires
                    m > 0,
                    u > 0,
            ;
            assert(n * 1 == n);
        }
        return false;
    }
    if d <= -64 {
        proof {
            up_grows(64, -d as int);
            let v = down(d as int) as int;
            assert(n * v >= v) by (nonlinear_arith)
                requires
                    n > 0,
                    v > 0,
            ;
            assert(m * 1 == m);
        }
        return true;
    }
    proof {
        assert(m * 1 == m && n * 1 == n);
    }
    if d >= 0 {
        let u: u64 = crate::number::power_of_two(d as u32);
        proof {
            assert(u == up(d as int));
            assert(0 <= m * u <= 0xffff_ffff_ffff_ffff * 0xffff_ffff_ffff_ffff)
                by (nonlinear_arith)
                requires
                    0 <= m <= 0xffff_ffff_ffff_ffff,
                    0 <= u <= 0xffff_ffff_ffff_ffff,
            ;
        }
        (m as u128) * (u as u128) < n as u128
    } else {
        let v: u64 = crate::number::power_of_two((-d) as u32);
        proof {
            assert(v == down(d as int));
            assert(0 <= n * v <= 0xffff_ffff_ffff_ffff * 0xffff_ffff_ffff_ffff)
                by (nonlinear_arith)
                requires
                    0 <= n <= 0xffff_ffff_ffff_ffff,
                    0 <= v <= 0xffff_ffff_ffff_ffff,
            ;
        }
        (m as u128) < (n as u128) * (v as u128)
    }
}

/// A whole number up to 2^53 is a binary64 value itself: nothing of it is lost.
pub proof fn whole_numbers_are_exact(n: nat)
    requires
        n <= 0x20_0000_0000_0000,
    ensures
        nearest(n, 1).whole_part() == n,
        !nearest(n, 1).marked(),
{
    lemma2_to64();
    lemma2_to64_rest();
    if n == 0 {
        assert(0 * pow2(0) == 0);
    } else {
        assert(n / 1 == n);
        bits_bounds(n);
        let l = bits(n) as int;
        if l > 54 {
            lemma_pow2_strictly_increases(53, (l - 1) as nat);
        }
        let u = l - 53;
        if l == 54 {
            assert(n == 0x20_0000_0000_0000);
            assert(up(1) == 2);
            assert(half_even(n * 1, 2) == 0x10_0000_0000_0000);
            assert(1 * 2 == 2);
            assert(0x10_0000_0000_0000nat * pow2(1) == n);
        } else {
            let k = (-u) as nat;
            let p = pow2(k);
            lemma_pow2_pos(k);
            assert(down(u) == p && up(u) == 1);
            let m = n * p;
            assert(m / 1 == m && m % 1 == 0);
            assert(half_even(m, 1) == m);
            lemma_pow2_adds(bits(n), k);
            assert(m < 0x20_0000_0000_0000) by (nonlinear_arith)
                requires
                    m == n * p,
                    n < pow2(bits(n)),
                    pow2(bits(n)) * p == 0x20_0000_0000_0000,
                    p > 0,
            ;
            vstd::arithmetic::div_mod::lemma_div_multiples_vanish(n as int, p as int);
            assert(p * n == n * p) by (nonlinear_arith);
            if k == 0 {
                assert(n * 1 == n);
            }
        }
    }
}

/// Quantities are ordered: never both above each other, what is not a number above nothing, whole
/// numbers as numbers are, and the other way round once the signs are.
pub proof fn quantities_are_ordered(a: Measure, b: Measure, m: u64, n: u64)
    ensures
        !(a.greater(b) && b.greater(a)),
        a is NotANumber || b is NotANumber ==> !a.greater(b),
        (Measure::Finite { negative: false, mantissa: m, exponent: 0 }).greater(
            Measure::Finite { negative: false, mantissa: n, exponent: 0 },
        ) <==> m > n,
        a is Finite && !(a->Finite_negative) && a->mantissa > 0 && b is Finite && b->Finite_negative
            ==> a.greater(b),
        a is Finite && b is Finite ==> (a.greater(b) <==> b.signed(!b->Finite_negative).greater(
            a.signed(!a->Finite_negative),
        )),
        a is Finite ==> (Measure::Infinite { negative: false }).greater(a) && a.greater(
            Measure::Infinite { negative: true },
        ),
{
    match (a, b) {
        (
            Measure::Finite { negative: s, mantissa: x, exponent: e },
            Measure::Finite { negative: t, mantissa: y, exponent: f },
        ) => {
            up_is_positive(e - f);
            up_is_positive(f - e);
            let k = up(e - f) as int;
            let l = down(e - f) as int;
            assert(f - e == -(e - f));
            assert(up(f - e) == l && down(f - e) == k);
            let p = if s {
                -(x as int)
            } else {
                x as int
            };
            let q = if t {
                -(y as int)
            } else {
                y as int
            };
            assert((-q) * l == -(q * l) && (-p) * k == -(p * k)) by (nonlinear_arith);
            assert(p > 0 && q <= 0 && k > 0 && l > 0 ==> p * k > 0 && q * l <= 0)
                by (nonlinear_arith);
        },
        _ => {},
    }
    assert(m as int * 1 == m && n as int * 1 == n);
}

/// Whole numbers multiply as numbers do, and a quantity above zero divided by itself is one.
pub proof fn whole_numbers_multiply(m: u64, n: u64, e: i32)
    ensures
        m * n <= 0x20_0000_0000_0000 ==> (Measure::Finite {
            negative: false,
            mantissa: m,
            exponent: 0,
        }).times(Measure::Finite { negative: false, mantissa: n, exponent: 0 }).whole_part() == m * n,
        m > 0 ==> ({
            let x = Measure::Finite { negative: false, mantissa: m, exponent: e };
            x.over(x) == (Measure::Finite {
                negative: false,
                mantissa: 0x10_0000_0000_0000,
                exponent: -52i32,
            })
        }),
{
    lemma2_to64();
    lemma2_to64_rest();
    let p = m as nat * n as nat;
    assert(p == m * n);
    assert(p * 1 == p);
    if p <= 0x20_0000_0000_0000 {
        whole_numbers_are_exact(p);
    }
    if m > 0 {
        let d = m as nat;
        assert(d * 1 == d);
        assert(d / d == 1) by (nonlinear_arith)
            requires
                d > 0,
        ;
        assert(bits(1) == 1) by {
            reveal_with_fuel(bits, 3);
        }
        assert(magnitude(d, d) == 1);
        assert(step(d, d) == -52);
        assert(up(-52) == 1);
        assert(down(-52) == 0x10_0000_0000_0000);
        vstd::arithmetic::div_mod::lemma_div_multiples_vanish(0x10_0000_0000_0000, d as int);
        vstd::arithmetic::div_mod::lemma_mod_multiples_basic(0x10_0000_0000_0000, d as int);
        assert(d * 0x10_0000_0000_0000 == 0x10_0000_0000_0000 * d) by (nonlinear_arith);
        assert(half_even(d * 0x10_0000_0000_0000, d) == 0x10_0000_0000_0000);
    }
}

/// Two quantities that are the same are neither above the other, and of two finite ones that are not
/// the same one is.
pub proof fn what_is_the_same_is_not_above(a: Measure, b: Measure)
    ensures
        a.equals(b) ==> !a.greater(b) && !b.greater(a),
        a is Finite && b is Finite && !a.equals(b) ==> a.greater(b) || b.greater(a),
        a.equals(b) ==> b.equals(a),
        a is NotANumber ==> !a.equals(b),
{
    match (a, b) {
        (
            Measure::Finite { negative: s, mantissa: m, exponent: e },
            Measure::Finite { negative: t, mantissa: n, exponent: f },
        ) => {
            lemma2_to64();
            let k = e - f;
            up_is_positive(k);
            up_is_positive(-k);
            let u = up(k) as int;
            let d = down(k) as int;
            assert(f - e == -k && up(-k) == d && down(-k) == u);
            if k > 0 {
                assert(u == pow2(k as nat) && d == 1);
            } else if k < 0 {
                assert(d == pow2((-k) as nat) && u == 1);
            } else {
                assert(u == 1 && d == 1);
            }
            let x = m as int;
            let y = n as int;
            assert(same_magnitude(m, e, n, f) <==> x * u == y * d) by {
                assert(x * 1 == x && y * 1 == y);
            }
            assert(same_magnitude(n, f, m, e) <==> x * u == y * d) by {
                assert(x * 1 == x && y * 1 == y);
            }
            assert((-x) * u == -(x * u) && (-y) * d == -(y * d)) by (nonlinear_arith);
            assert(x * u >= 0 && y * d >= 0) by (nonlinear_arith)
                requires
                    x >= 0,
                    y >= 0,
                    u > 0,
                    d > 0,
            ;
            assert(x * u == 0 <==> x == 0) by (nonlinear_arith)
                requires
                    u > 0,
            ;
            assert(y * d == 0 <==> y == 0) by (nonlinear_arith)
                requires
                    d > 0,
            ;
        },
        _ => {},
    }
}

} // verus!
