//! Whole numbers of any size.
use vstd::arithmetic::power::{lemma_pow0, lemma_pow1, lemma_pow_adds, lemma_pow_positive, pow};
use vstd::arithmetic::power2::{lemma2_to64, lemma_pow2_unfold, pow2};
use vstd::prelude::*;

verus! {

/// What one digit counts up to.
pub open spec fn base() -> int {
    0x1_0000_0000
}

/// The number that digits stand for, the least significant first.
pub open spec fn number_of_digits(d: Seq<u32>) -> nat
    decreases d.len(),
{
    if d.len() == 0 {
        0
    } else {
        (number_of_digits(d.drop_last()) + d.last() * pow(base(), (d.len() - 1) as nat)) as nat
    }
}

/// A whole number of any size.
#[derive(Debug, Clone)]
pub struct Natural {
    digits: Vec<u32>,
}

proof fn place_value(n: nat)
    ensures
        pow(base(), n + 1) == base() * pow(base(), n),
        pow(base(), n) > 0,
        pow(base(), 0) == 1,
{
    lemma_pow_adds(base(), 1, n);
    lemma_pow1(base());
    lemma_pow_positive(base(), n);
    lemma_pow0(base());
}

/// A number of `n` digits is below the value of the next place.
proof fn digits_are_bounded(d: Seq<u32>)
    ensures
        number_of_digits(d) < pow(base(), d.len()),
    decreases d.len(),
{
    place_value(0);
    if d.len() > 0 {
        digits_are_bounded(d.drop_last());
        let n = (d.len() - 1) as nat;
        place_value(n);
        let p = pow(base(), n);
        let low = number_of_digits(d.drop_last()) as int;
        let top = d.last() as int;
        assert(top * p >= 0) by (nonlinear_arith)
            requires
                top >= 0,
                p > 0,
        ;
        assert(low + top * p < base() * p) by (nonlinear_arith)
            requires
                low < p,
                0 <= top <= base() - 1,
                p > 0,
        ;
    }
}

proof fn number_is_a_sum(d: Seq<u32>)
    requires
        d.len() > 0,
    ensures
        number_of_digits(d) == number_of_digits(d.drop_last()) + d.last() * pow(
            base(),
            (d.len() - 1) as nat,
        ),
{
    place_value((d.len() - 1) as nat);
    let p = pow(base(), (d.len() - 1) as nat);
    assert(d.last() * p >= 0) by (nonlinear_arith)
        requires
            p > 0,
    ;
}

/// Digits of zero in front change nothing.
proof fn zeros_in_front(d: Seq<u32>, n: int)
    requires
        0 <= n <= d.len(),
        forall|i: int| n <= i < d.len() ==> d[i] == 0,
    ensures
        number_of_digits(d) == number_of_digits(d.take(n)),
    decreases d.len(),
{
    if n == d.len() {
        assert(d.take(n) =~= d);
    } else {
        let e = d.drop_last();
        zeros_in_front(e, n);
        assert(e.take(n) =~= d.take(n));
        number_is_a_sum(d);
        let p = pow(base(), (d.len() - 1) as nat);
        assert(0 * p == 0);
    }
}

impl Natural {
    /// The number.
    pub closed spec fn value(self) -> nat {
        number_of_digits(self.digits@)
    }

    /// A number of one word.
    pub fn new(n: u64) -> (r: Self)
        ensures
            r.value() == n,
    {
        let mut digits: Vec<u32> = Vec::new();
        digits.push((n % 0x1_0000_0000) as u32);
        digits.push((n / 0x1_0000_0000) as u32);
        let r = Natural { digits };
        proof {
            let d = r.digits@;
            let low = (n % 0x1_0000_0000) as u32;
            let high = (n / 0x1_0000_0000) as u32;
            place_value(0);
            assert(d.len() == 2 && d[0] == low && d[1] == high);
            let e = d.drop_last();
            assert(e.len() == 1 && e.last() == low);
            assert(e.drop_last() =~= Seq::<u32>::empty());
            number_is_a_sum(d);
            number_is_a_sum(e);
            assert(number_of_digits(Seq::<u32>::empty()) == 0);
            assert(low * pow(base(), 0) == low);
            assert(high * pow(base(), 1) == high * base());
        }
        r
    }

    /// The same number again.
    pub fn copy(&self) -> (r: Self)
        ensures
            r.value() == self.value(),
    {
        let mut digits: Vec<u32> = Vec::new();
        let mut i: usize = 0;
        while i < self.digits.len()
            invariant
                i <= self.digits@.len(),
                digits@ == self.digits@.take(i as int),
            decreases self.digits@.len() - i,
        {
            digits.push(self.digits[i]);
            i += 1;
            assert(digits@ =~= self.digits@.take(i as int));
        }
        assert(self.digits@.take(i as int) =~= self.digits@);
        Natural { digits }
    }

    /// A number of two words.
    pub fn of_words(high: u64, low: u64) -> (r: Self)
        ensures
            r.value() == high * 0x1_0000_0000_0000_0000 + low,
    {
        let mut r = Natural::new(high);
        proof {
            lemma2_to64();
        }
        r.shift_up(32);
        r.times_plus(1, (low / 0x1_0000_0000) as u32);
        r.shift_up(32);
        r.times_plus(1, (low % 0x1_0000_0000) as u32);
        r
    }

    /// Multiplies by a digit and adds another.
    pub fn times_plus(&mut self, k: u32, more: u32)
        ensures
            final(self).value() == old(self).value() * k + more,
    {
        let ghost was = self.digits@;
        let n: usize = self.digits.len();
        let mut carry: u64 = more as u64;
        let mut i: usize = 0;
        proof {
            place_value(0);
            assert(was.take(0) =~= Seq::<u32>::empty());
            assert(self.digits@.take(0) =~= Seq::<u32>::empty());
            assert(0 * k == 0) by (nonlinear_arith);
        }
        while i < n
            invariant
                i <= n,
                n == was.len(),
                self.digits@.len() == n,
                carry < 0x1_0000_0000,
                forall|j: int| i <= j < n ==> self.digits@[j] == was[j],
                number_of_digits(self.digits@.take(i as int)) + carry * pow(base(), i as nat)
                    == number_of_digits(was.take(i as int)) * k + more,
            decreases n - i,
        {
            let ghost prev = self.digits@;
            let ghost c0 = carry as int;
            let d: u32 = self.digits[i];
            proof {
                assert(d as int * k as int <= 0xffff_ffff * 0xffff_ffff) by (nonlinear_arith)
                    requires
                        0 <= d <= 0xffff_ffff,
                        0 <= k <= 0xffff_ffff,
                ;
            }
            let t: u64 = d as u64 * k as u64 + carry;
            let low: u32 = (t % 0x1_0000_0000) as u32;
            carry = t / 0x1_0000_0000;
            self.digits.set(i, low);
            proof {
                let new = self.digits@.take(i as int + 1);
                let old_ = was.take(i as int + 1);
                assert(new.drop_last() =~= prev.take(i as int));
                assert(old_.drop_last() =~= was.take(i as int));
                number_is_a_sum(new);
                number_is_a_sum(old_);
                place_value(i as nat);
                let p = pow(base(), i as nat);
                let a = number_of_digits(prev.take(i as int)) as int;
                let b = number_of_digits(was.take(i as int)) as int;
                assert(a + low * p + carry * (base() * p) == (b + d * p) * k + more)
                    by (nonlinear_arith)
                    requires
                        a + c0 * p == b * k + more,
                        d * k + c0 == low + base() * carry,
                ;
            }
            i += 1;
        }
        assert(self.digits@.take(n as int) =~= self.digits@);
        assert(was.take(n as int) =~= was);
        let ghost before = self.digits@;
        self.digits.push(carry as u32);
        proof {
            assert(self.digits@.drop_last() =~= before);
            number_is_a_sum(self.digits@);
        }
    }

    /// Doubles the number as often as is said.
    pub fn shift_up(&mut self, times: u32)
        ensures
            final(self).value() == old(self).value() * pow2(times as nat),
    {
        let ghost was = self.value();
        proof {
            lemma2_to64();
        }
        let mut i: u32 = 0;
        while i < times
            invariant
                i <= times,
                self.value() == was * pow2(i as nat),
            decreases times - i,
        {
            self.times_plus(2, 0);
            proof {
                lemma_pow2_unfold((i + 1) as nat);
                let p = pow2(i as nat) as int;
                assert(was * p * 2 == was * (2 * p)) by (nonlinear_arith);
            }
            i += 1;
        }
    }

    /// The digit at a place; zero beyond the last.
    fn digit(&self, i: usize) -> (r: u32)
        ensures
            r == (if i < self.digits@.len() {
                self.digits@[i as int]
            } else {
                0
            }),
    {
        if i < self.digits.len() {
            self.digits[i]
        } else {
            0
        }
    }

    /// The digits, with zeros in front up to a length.
    spec fn padded(self, n: nat) -> Seq<u32> {
        Seq::new(
            n,
            |i: int|
                if i < self.digits@.len() {
                    self.digits@[i]
                } else {
                    0
                },
        )
    }

    proof fn padding_keeps_the_number(self, n: nat)
        requires
            n >= self.digits@.len(),
        ensures
            number_of_digits(self.padded(n)) == self.value(),
    {
        zeros_in_front(self.padded(n), self.digits@.len() as int);
        assert(self.padded(n).take(self.digits@.len() as int) =~= self.digits@);
    }

    /// Whether the number is below another.
    pub fn less(&self, other: &Natural) -> (r: bool)
        ensures
            r == (self.value() < other.value()),
    {
        let n: usize = if self.digits.len() > other.digits.len() {
            self.digits.len()
        } else {
            other.digits.len()
        };
        let ghost a = self.padded(n as nat);
        let ghost b = other.padded(n as nat);
        proof {
            self.padding_keeps_the_number(n as nat);
            other.padding_keeps_the_number(n as nat);
            assert(a.take(n as int) =~= a);
            assert(b.take(n as int) =~= b);
        }
        let mut i: usize = n;
        while i > 0
            invariant
                i <= n,
                a == self.padded(n as nat),
                b == other.padded(n as nat),
                number_of_digits(a) == self.value(),
                number_of_digits(b) == other.value(),
                number_of_digits(a) - number_of_digits(b) == number_of_digits(a.take(i as int))
                    - number_of_digits(b.take(i as int)),
            decreases i,
        {
            let x: u32 = self.digit(i - 1);
            let y: u32 = other.digit(i - 1);
            proof {
                let ai = a.take(i as int);
                let bi = b.take(i as int);
                assert(ai.drop_last() =~= a.take(i - 1));
                assert(bi.drop_last() =~= b.take(i - 1));
                number_is_a_sum(ai);
                number_is_a_sum(bi);
                digits_are_bounded(a.take(i - 1));
                digits_are_bounded(b.take(i - 1));
                let p = pow(base(), (i - 1) as nat);
                if x < y {
                    assert(y * p >= x * p + p) by (nonlinear_arith)
                        requires
                            x < y,
                            p > 0,
                    ;
                } else if x > y {
                    assert(x * p >= y * p + p) by (nonlinear_arith)
                        requires
                            x > y,
                            p > 0,
                    ;
                }
            }
            if x < y {
                return true;
            }
            if x > y {
                return false;
            }
            i -= 1;
        }
        assert(a.take(0) =~= b.take(0));
        false
    }

    /// Takes a number off that is no greater.
    pub fn subtract(&mut self, other: &Natural)
        requires
            other.value() <= old(self).value(),
        ensures
            final(self).value() == old(self).value() - other.value(),
    {
        let ghost first = *self;
        let m: usize = other.digits.len();
        while self.digits.len() < m
            invariant
                self.value() == first.value(),
                m == other.digits@.len(),
            decreases m - self.digits@.len(),
        {
            let ghost d = self.digits@;
            self.digits.push(0);
            proof {
                zeros_in_front(self.digits@, d.len() as int);
                assert(self.digits@.take(d.len() as int) =~= d);
            }
        }
        let ghost was = self.digits@;
        let n: usize = self.digits.len();
        let ghost b = other.padded(n as nat);
        proof {
            other.padding_keeps_the_number(n as nat);
            place_value(0);
            assert(was.take(0) =~= Seq::<u32>::empty());
            assert(self.digits@.take(0) =~= Seq::<u32>::empty());
            assert(b.take(0) =~= Seq::<u32>::empty());
        }
        let mut borrow: u64 = 0;
        let mut i: usize = 0;
        while i < n
            invariant
                i <= n,
                n == was.len(),
                self.digits@.len() == n,
                b == other.padded(n as nat),
                borrow <= 1,
                forall|j: int| i <= j < n ==> self.digits@[j] == was[j],
                number_of_digits(self.digits@.take(i as int)) + number_of_digits(b.take(i as int))
                    == number_of_digits(was.take(i as int)) + borrow * pow(base(), i as nat),
            decreases n - i,
        {
            let ghost prev = self.digits@;
            let ghost c0 = borrow as int;
            let x: u32 = self.digits[i];
            let y: u32 = other.digit(i);
            let t: u64 = 0x1_0000_0000 + x as u64 - y as u64 - borrow;
            let low: u32 = (t % 0x1_0000_0000) as u32;
            borrow = if t < 0x1_0000_0000 {
                1
            } else {
                0
            };
            self.digits.set(i, low);
            proof {
                let new = self.digits@.take(i as int + 1);
                let old_ = was.take(i as int + 1);
                let sub_ = b.take(i as int + 1);
                assert(new.drop_last() =~= prev.take(i as int));
                assert(old_.drop_last() =~= was.take(i as int));
                assert(sub_.drop_last() =~= b.take(i as int));
                number_is_a_sum(new);
                number_is_a_sum(old_);
                number_is_a_sum(sub_);
                place_value(i as nat);
                let p = pow(base(), i as nat);
                let v = number_of_digits(prev.take(i as int)) as int;
                let w = number_of_digits(was.take(i as int)) as int;
                let s = number_of_digits(b.take(i as int)) as int;
                assert((v + low * p) + (s + y * p) == (w + x * p) + borrow * (base() * p))
                    by (nonlinear_arith)
                    requires
                        v + s == w + c0 * p,
                        low + y + c0 == x + base() * borrow,
                ;
            }
            i += 1;
        }
        proof {
            assert(self.digits@.take(n as int) =~= self.digits@);
            assert(was.take(n as int) =~= was);
            assert(b.take(n as int) =~= b);
            digits_are_bounded(self.digits@);
            if borrow == 1 {
                let p = pow(base(), n as nat);
                assert(1 * p == p);
                assert(number_of_digits(self.digits@) + other.value() == first.value() + p);
                assert(false);
            }
            let p = pow(base(), n as nat);
            assert(0 * p == 0);
        }
    }
}

} // verus!
