//! Unbounded natural numbers, kept as little-endian base-2^32 digits.

use vstd::prelude::*;

verus! {

/// The base in which a [`Natural`] keeps its digits.
pub open spec fn radix() -> nat {
    0x1_0000_0000
}

/// `radix()` raised to the power `n`.
pub open spec fn radix_pow(n: nat) -> nat
    decreases n,
{
    if n == 0 {
        1
    } else {
        radix() * radix_pow((n - 1) as nat)
    }
}

/// The digit of weight `radix_pow(i)`; zero beyond the stored digits.
pub open spec fn digit(s: Seq<u32>, i: int) -> nat {
    if 0 <= i < s.len() {
        s[i] as nat
    } else {
        0
    }
}

/// The number that the `n` lowest digits of `s` stand for.
pub open spec fn low_value(s: Seq<u32>, n: nat) -> nat
    decreases n,
{
    if n == 0 {
        0
    } else {
        low_value(s, (n - 1) as nat) + digit(s, n - 1) * radix_pow((n - 1) as nat)
    }
}

/// The number that a little-endian digit sequence stands for.
pub open spec fn digits_value(s: Seq<u32>) -> nat {
    low_value(s, s.len())
}

/// Digits at or above position `n` do not matter to `low_value(_, n)`.
pub proof fn lemma_low_value_agree(s: Seq<u32>, t: Seq<u32>, n: nat)
    requires
        forall|i: int| 0 <= i < n ==> digit(s, i) == digit(t, i),
    ensures
        low_value(s, n) == low_value(t, n),
    decreases n,
{
    if n > 0 {
        lemma_low_value_agree(s, t, (n - 1) as nat);
        assert(digit(s, n - 1) == digit(t, n - 1));
    }
}

/// Counting more digits than are stored adds nothing.
pub proof fn lemma_low_value_beyond(s: Seq<u32>, n: nat)
    requires
        n >= s.len(),
    ensures
        low_value(s, n) == digits_value(s),
    decreases n,
{
    if n > s.len() {
        lemma_low_value_beyond(s, (n - 1) as nat);
        assert(digit(s, n - 1) == 0);
        assert(digit(s, n - 1) * radix_pow((n - 1) as nat) == 0) by (nonlinear_arith)
            requires
                digit(s, n - 1) == 0,
        ;
    }
}

/// `n` digits stand for a number below `radix_pow(n)`.
pub proof fn lemma_low_value_bound(s: Seq<u32>, n: nat)
    ensures
        low_value(s, n) < radix_pow(n),
    decreases n,
{
    if n > 0 {
        lemma_low_value_bound(s, (n - 1) as nat);
        let d = digit(s, n - 1);
        let p = radix_pow((n - 1) as nat);
        assert(d <= radix() - 1);
        assert(d * p <= (radix() - 1) * p) by (nonlinear_arith)
            requires
                d <= radix() - 1,
                p >= 0,
        ;
        assert((radix() - 1) * p + p == radix() * p) by (nonlinear_arith);
    }
}

/// One step of a digit-by-digit sum: appending digit `d` at weight
/// `radix_pow(n)`.
pub proof fn lemma_low_value_push(s: Seq<u32>, d: u32)
    ensures
        low_value(s.push(d), (s.len() + 1) as nat) == digits_value(s) + d * radix_pow(s.len()),
        forall|n: nat| n <= s.len() ==> low_value(s.push(d), n) == low_value(s, n),
{
    let t = s.push(d);
    assert forall|n: nat| n <= s.len() implies low_value(t, n) == low_value(s, n) by {
        lemma_low_value_agree(t, s, n);
    }
    assert(digit(t, s.len() as int) == d);
}

/// Putting a zero digit below the others multiplies by the radix.
pub proof fn lemma_low_value_shift(s: Seq<u32>, n: nat)
    ensures
        low_value(seq![0u32] + s, n + 1) == radix() * low_value(s, n),
    decreases n,
{
    let t = seq![0u32] + s;
    if n == 0 {
        assert(low_value(t, 0) == 0);
        assert(digit(t, 0) == 0);
        assert(low_value(t, 1) == low_value(t, 0) + digit(t, 0) * radix_pow(0));
    } else {
        lemma_low_value_shift(s, (n - 1) as nat);
        assert(digit(t, n as int) == digit(s, n - 1));
        let d = digit(s, n - 1);
        let p = radix_pow((n - 1) as nat);
        let l = low_value(s, (n - 1) as nat);
        assert(radix_pow(n) == radix() * p);
        assert(low_value(t, n + 1) == low_value(t, n) + d * radix_pow(n));
        assert(radix() * l + d * (radix() * p) == radix() * (l + d * p)) by (nonlinear_arith);
    }
}

/// The number that the digits of `s` from position `i` up stand for, the
/// digit at `i` having weight one.
pub open spec fn high_value(s: Seq<u32>, i: nat) -> nat
    decreases s.len() - i,
{
    if i >= s.len() {
        0
    } else {
        s[i as int] as nat + radix() * high_value(s, i + 1)
    }
}

/// A number is its low digits plus its high digits at their weight.
pub proof fn lemma_low_high_split(s: Seq<u32>, i: nat)
    requires
        i <= s.len(),
    ensures
        digits_value(s) == low_value(s, i) + radix_pow(i) * high_value(s, i),
    decreases s.len() - i,
{
    if i == s.len() {
        assert(radix_pow(i) * high_value(s, i) == 0) by (nonlinear_arith)
            requires
                high_value(s, i) == 0,
        ;
    } else {
        lemma_low_high_split(s, i + 1);
        let p = radix_pow(i);
        let d = s[i as int] as nat;
        let h = high_value(s, i + 1);
        assert(digit(s, i as int) == d);
        assert(radix_pow(i + 1) == radix() * p);
        assert(d * p + (radix() * p) * h == p * (d + radix() * h)) by (nonlinear_arith);
    }
}

/// Whether `c` divides `x`.
pub open spec fn divides(c: int, x: int) -> bool {
    exists|k: int| x == #[trigger] (k * c)
}

/// What divides divisor and remainder divides the dividend.
pub proof fn lemma_divides_dividend(c: int, x: int, y: int, q: int, r: int)
    requires
        x == q * y + r,
        divides(c, y),
        divides(c, r),
    ensures
        divides(c, x),
{
    let ky = choose|k: int| y == #[trigger] (k * c);
    let kr = choose|k: int| r == #[trigger] (k * c);
    assert(x == (q * ky + kr) * c) by (nonlinear_arith)
        requires
            x == q * y + r,
            y == ky * c,
            r == kr * c,
    ;
}

/// What divides dividend and divisor divides the remainder.
pub proof fn lemma_divides_remainder(c: int, x: int, y: int, q: int, r: int)
    requires
        x == q * y + r,
        divides(c, x),
        divides(c, y),
    ensures
        divides(c, r),
{
    let kx = choose|k: int| x == #[trigger] (k * c);
    let ky = choose|k: int| y == #[trigger] (k * c);
    assert(r == (kx - q * ky) * c) by (nonlinear_arith)
        requires
            x == q * y + r,
            x == kx * c,
            y == ky * c,
    ;
}

/// Division by a divisor leaves no remainder.
pub proof fn lemma_divides_exactly(g: int, x: int, q: int, r: int)
    requires
        g > 0,
        x == q * g + r,
        0 <= r < g,
        divides(g, x),
    ensures
        r == 0,
{
    let k = choose|k: int| x == #[trigger] (k * g);
    assert(r == (k - q) * g) by (nonlinear_arith)
        requires
            x == q * g + r,
            x == k * g,
    ;
    assert(k - q == 0) by (nonlinear_arith)
        requires
            r == (k - q) * g,
            0 <= r < g,
            g > 0,
    ;
}

/// An unbounded natural number.
#[derive(Debug)]
pub struct Natural {
    digits: Vec<u32>,
}

impl View for Natural {
    type V = nat;

    closed spec fn view(&self) -> nat {
        digits_value(self.digits@)
    }
}

impl Natural {
    /// The number zero.
    pub fn zero() -> (r: Natural)
        ensures
            r@ == 0,
    {
        Natural { digits: Vec::new() }
    }

    /// Drops zero digits from the top; the value stays.
    fn trimmed(digits: Vec<u32>) -> (r: Natural)
        ensures
            r@ == digits_value(digits@),
    {
        let ghost given = digits@;
        let mut digits = digits;
        while digits.len() > 0 && digits[digits.len() - 1] == 0
            invariant
                digits_value(digits@) == digits_value(given),
            decreases digits.len(),
        {
            proof {
                let s = digits@;
                let t = s.drop_last();
                lemma_low_value_agree(s, t, t.len());
                assert(digit(s, s.len() - 1) == 0);
                assert(digit(s, s.len() - 1) * radix_pow((s.len() - 1) as nat) == 0)
                    by (nonlinear_arith)
                    requires
                        digit(s, s.len() - 1) == 0,
                ;
            }
            digits.pop();
        }
        Natural { digits }
    }

    /// The number that the little-endian base-2^32 digits `digits` stand for.
    pub fn from_digits(digits: Vec<u32>) -> (r: Natural)
        ensures
            r@ == digits_value(digits@),
    {
        Natural::trimmed(digits)
    }

    /// The little-endian base-2^32 digits of this number.
    pub fn to_digits(&self) -> (r: Vec<u32>)
        ensures
            digits_value(r@) == self@,
    {
        let mut out: Vec<u32> = Vec::new();
        let mut i: usize = 0;
        while i < self.digits.len()
            invariant
                i <= self.digits.len(),
                out@ == self.digits@.take(i as int),
            decreases self.digits.len() - i,
        {
            out.push(self.digits[i]);
            i += 1;
            assert(out@ == self.digits@.take(i as int));
        }
        assert(out@ == self.digits@);
        out
    }

    /// This number as a `u64`, where it is small enough.
    pub fn to_u64(&self) -> (r: Option<u64>)
        ensures
            r is Some <==> self@ <= u64::MAX,
            r is Some ==> r->Some_0 == self@,
    {
        let limit = Natural::from_u64(u64::MAX);
        if !self.le(&limit) {
            return None;
        }
        let lo = self.digit_at(0);
        let hi = self.digit_at(1);
        proof {
            let s = self.digits@;
            reveal_with_fuel(low_value, 3);
            reveal_with_fuel(radix_pow, 3);
            assert(radix_pow(2) == radix() * radix());
            if s.len() >= 2 {
                lemma_low_high_split(s, 2);
                let h = high_value(s, 2);
                if h > 0 {
                    assert(radix_pow(2) * h >= radix_pow(2)) by (nonlinear_arith)
                        requires
                            h >= 1,
                            radix_pow(2) > 0,
                    ;
                }
            } else {
                lemma_low_value_beyond(s, 2);
            }
            assert(low_value(s, 2) == lo * 1 + hi * radix());
        }
        Some(lo + hi * 0x1_0000_0000)
    }

    /// The natural number equal to `x`.
    pub fn from_u64(x: u64) -> (r: Natural)
        ensures
            r@ == x,
    {
        let lo: u32 = (x % 0x1_0000_0000) as u32;
        let hi: u32 = (x / 0x1_0000_0000) as u32;
        let mut digits: Vec<u32> = Vec::new();
        digits.push(lo);
        digits.push(hi);
        proof {
            let s = digits@;
            reveal_with_fuel(low_value, 3);
            reveal_with_fuel(radix_pow, 2);
            assert(digit(s, 0) == lo);
            assert(digit(s, 1) == hi);
            assert(radix_pow(0) == 1);
            assert(radix_pow(1) == radix());
            assert(low_value(s, 2) == lo * 1 + hi * radix());
        }
        Natural::trimmed(digits)
    }

    /// The digit at position `i` as a wide integer; zero beyond the stored digits.
    fn digit_at(&self, i: usize) -> (d: u64)
        ensures
            d == digit(self.digits@, i as int),
    {
        if i < self.digits.len() {
            self.digits[i] as u64
        } else {
            0
        }
    }

    /// The sum of two numbers.
    pub fn add(&self, other: &Natural) -> (r: Natural)
        ensures
            r@ == self@ + other@,
    {
        let n: usize = if self.digits.len() >= other.digits.len() {
            self.digits.len()
        } else {
            other.digits.len()
        };
        let mut out: Vec<u32> = Vec::new();
        let mut carry: u64 = 0;
        let mut i: usize = 0;
        while i < n
            invariant
                i <= n,
                out.len() == i,
                carry <= 1,
                digits_value(out@) + carry * radix_pow(i as nat) == low_value(
                    self.digits@,
                    i as nat,
                ) + low_value(other.digits@, i as nat),
            decreases n - i,
        {
            let x: u64 = self.digit_at(i);
            let y: u64 = other.digit_at(i);
            let sum: u64 = x + y + carry;
            let d: u32 = (sum % 0x1_0000_0000) as u32;
            let c: u64 = sum / 0x1_0000_0000;
            proof {
                lemma_low_value_push(out@, d);
                let p = radix_pow(i as nat);
                assert(radix_pow((i + 1) as nat) == radix() * p);
                assert(d + c * radix() == x + y + carry);
                assert(d * p + c * (radix() * p) == x * p + y * p + carry * p) by (nonlinear_arith)
                    requires
                        d + c * radix() == x + y + carry,
                ;
            }
            out.push(d);
            carry = c;
            i += 1;
        }
        proof {
            lemma_low_value_push(out@, carry as u32);
            lemma_low_value_beyond(self.digits@, n as nat);
            lemma_low_value_beyond(other.digits@, n as nat);
        }
        out.push(carry as u32);
        Natural::trimmed(out)
    }

    /// Digit-wise difference with a final borrow. The borrow is set exactly
    /// when `self` is the smaller; otherwise the first part is the difference.
    fn sub_borrow(&self, other: &Natural) -> (r: (Natural, bool))
        ensures
            r.1 <==> self@ < other@,
            !r.1 ==> r.0@ == self@ - other@,
    {
        let n: usize = if self.digits.len() >= other.digits.len() {
            self.digits.len()
        } else {
            other.digits.len()
        };
        let mut out: Vec<u32> = Vec::new();
        let mut borrow: u64 = 0;
        let mut i: usize = 0;
        while i < n
            invariant
                i <= n,
                out.len() == i,
                borrow <= 1,
                digits_value(out@) + low_value(other.digits@, i as nat) == low_value(
                    self.digits@,
                    i as nat,
                ) + borrow * radix_pow(i as nat),
            decreases n - i,
        {
            let x: u64 = self.digit_at(i);
            let y: u64 = other.digit_at(i);
            let t: u64 = x + 0x1_0000_0000 - y - borrow;
            let d: u32 = (t % 0x1_0000_0000) as u32;
            let nb: u64 = 1 - t / 0x1_0000_0000;
            proof {
                lemma_low_value_push(out@, d);
                let p = radix_pow(i as nat);
                assert(radix_pow((i + 1) as nat) == radix() * p);
                assert(d + y + borrow == x + nb * radix());
                assert(d * p + y * p + borrow * p == x * p + nb * (radix() * p))
                    by (nonlinear_arith)
                    requires
                        d + y + borrow == x + nb * radix(),
                ;
            }
            out.push(d);
            borrow = nb;
            i += 1;
        }
        proof {
            lemma_low_value_beyond(self.digits@, n as nat);
            lemma_low_value_beyond(other.digits@, n as nat);
            lemma_low_value_bound(out@, n as nat);
            lemma_low_value_bound(self.digits@, n as nat);
            lemma_low_value_bound(other.digits@, n as nat);
        }
        (Natural::trimmed(out), borrow == 1)
    }

    /// Whether `self` is strictly below `other`.
    pub fn lt(&self, other: &Natural) -> (b: bool)
        ensures
            b == (self@ < other@),
    {
        self.sub_borrow(other).1
    }

    /// Whether `self` is at most `other`.
    pub fn le(&self, other: &Natural) -> (b: bool)
        ensures
            b == (self@ <= other@),
    {
        !other.sub_borrow(self).1
    }

    /// Whether the two numbers are equal.
    pub fn eq(&self, other: &Natural) -> (b: bool)
        ensures
            b == (self@ == other@),
    {
        !self.sub_borrow(other).1 && !other.sub_borrow(self).1
    }

    /// Whether this number is zero.
    pub fn is_zero(&self) -> (b: bool)
        ensures
            b == (self@ == 0),
    {
        let z = Natural::zero();
        !z.sub_borrow(self).1
    }

    /// `self - other` where that is a natural number.
    pub fn checked_sub(&self, other: &Natural) -> (r: Option<Natural>)
        ensures
            r is Some <==> self@ >= other@,
            r is Some ==> r->Some_0@ == self@ - other@,
    {
        let (d, borrow) = self.sub_borrow(other);
        if borrow {
            None
        } else {
            Some(d)
        }
    }

    /// The product with a single digit.
    fn mul_digit(&self, x: u32) -> (r: Natural)
        ensures
            r@ == self@ * x,
    {
        let n: usize = self.digits.len();
        let mut out: Vec<u32> = Vec::new();
        let mut carry: u64 = 0;
        let mut i: usize = 0;
        proof {
            assert(low_value(self.digits@, 0) * x == 0) by (nonlinear_arith)
                requires
                    low_value(self.digits@, 0) == 0,
            ;
            assert(carry * radix_pow(0) == 0) by (nonlinear_arith)
                requires
                    carry == 0,
            ;
        }
        while i < n
            invariant
                i <= n,
                n == self.digits.len(),
                out.len() == i,
                carry < 0x1_0000_0000,
                digits_value(out@) + carry * radix_pow(i as nat) == low_value(
                    self.digits@,
                    i as nat,
                ) * x,
            decreases n - i,
        {
            let a: u64 = self.digits[i] as u64;
            assert(a * (x as u64) <= 0xFFFF_FFFF * 0xFFFF_FFFF) by (nonlinear_arith)
                requires
                    a <= 0xFFFF_FFFF,
                    x <= 0xFFFF_FFFF,
            ;
            let t: u64 = a * (x as u64) + carry;
            let d: u32 = (t % 0x1_0000_0000) as u32;
            let c: u64 = t / 0x1_0000_0000;
            proof {
                lemma_low_value_push(out@, d);
                let p = radix_pow(i as nat);
                let l = low_value(self.digits@, i as nat);
                assert(radix_pow((i + 1) as nat) == radix() * p);
                assert(digit(self.digits@, i as int) == a);
                assert(d + c * radix() == a * x + carry);
                assert(d * p + c * (radix() * p) == (a * p) * x + carry * p) by (nonlinear_arith)
                    requires
                        d + c * radix() == a * x + carry,
                ;
                assert((l + a * p) * x == l * x + (a * p) * x) by (nonlinear_arith);
            }
            out.push(d);
            carry = c;
            i += 1;
        }
        proof {
            lemma_low_value_push(out@, carry as u32);
        }
        out.push(carry as u32);
        Natural::trimmed(out)
    }

    /// The product with the radix.
    fn shifted(&self) -> (r: Natural)
        ensures
            r@ == self@ * radix(),
    {
        let mut out: Vec<u32> = Vec::new();
        out.push(0);
        let mut i: usize = 0;
        while i < self.digits.len()
            invariant
                i <= self.digits.len(),
                out@ == seq![0u32] + self.digits@.take(i as int),
            decreases self.digits.len() - i,
        {
            out.push(self.digits[i]);
            i += 1;
            assert(out@ == seq![0u32] + self.digits@.take(i as int));
        }
        proof {
            assert(self.digits@.take(self.digits.len() as int) == self.digits@);
            lemma_low_value_shift(self.digits@, self.digits@.len());
            assert(radix() * self@ == self@ * radix()) by (nonlinear_arith);
        }
        Natural { digits: out }
    }

    /// The product of two numbers.
    pub fn mul(&self, other: &Natural) -> (r: Natural)
        ensures
            r@ == self@ * other@,
    {
        let n: usize = self.digits.len();
        let mut acc = Natural::zero();
        let mut weighted = other.clone();
        let mut i: usize = 0;
        proof {
            assert(low_value(self.digits@, 0) * other@ == 0) by (nonlinear_arith)
                requires
                    low_value(self.digits@, 0) == 0,
            ;
            assert(other@ * radix_pow(0) == other@) by (nonlinear_arith)
                requires
                    radix_pow(0) == 1,
            ;
        }
        while i < n
            invariant
                i <= n,
                n == self.digits.len(),
                acc@ == low_value(self.digits@, i as nat) * other@,
                weighted@ == other@ * radix_pow(i as nat),
            decreases n - i,
        {
            let term = weighted.mul_digit(self.digits[i]);
            proof {
                let a = self.digits[i as int] as nat;
                let p = radix_pow(i as nat);
                let l = low_value(self.digits@, i as nat);
                let b = other@;
                assert(digit(self.digits@, i as int) == a);
                assert(radix_pow((i + 1) as nat) == radix() * p);
                assert(l * b + (b * p) * a == (l + a * p) * b) by (nonlinear_arith);
                assert((b * p) * radix() == b * (radix() * p)) by (nonlinear_arith);
            }
            acc = acc.add(&term);
            weighted = weighted.shifted();
            i += 1;
        }
        acc
    }

    /// One digit of a quotient: how often `self` goes into `t`, and what is
    /// left.
    fn quotient_digit(&self, t: &Natural) -> (r: (u32, Natural))
        requires
            self@ > 0,
            t@ < radix() * self@,
        ensures
            t@ == r.0 * self@ + r.1@,
            r.1@ < self@,
    {
        let mut lo: u64 = 0;
        let mut hi: u64 = 0x1_0000_0000;
        proof {
            assert(lo * self@ == 0) by (nonlinear_arith)
                requires
                    lo == 0,
            ;
        }
        while hi - lo > 1
            invariant
                lo < hi <= 0x1_0000_0000,
                self@ > 0,
                lo * self@ <= t@ < hi * self@,
            decreases hi - lo,
        {
            let mid: u64 = lo + (hi - lo) / 2;
            let p = self.mul_digit(mid as u32);
            proof {
                assert(self@ * mid == mid * self@) by (nonlinear_arith);
            }
            if p.le(t) {
                lo = mid;
            } else {
                hi = mid;
            }
        }
        let p = self.mul_digit(lo as u32);
        proof {
            assert(self@ * lo == lo * self@) by (nonlinear_arith);
            assert(hi * self@ == lo * self@ + self@) by (nonlinear_arith)
                requires
                    hi == lo + 1,
            ;
        }
        match t.checked_sub(&p) {
            Some(rest) => (lo as u32, rest),
            None => (0, Natural::zero()),
        }
    }

    /// Quotient and remainder of the division by `divisor`.
    pub fn div_rem(&self, divisor: &Natural) -> (r: (Natural, Natural))
        requires
            divisor@ > 0,
        ensures
            self@ == r.0@ * divisor@ + r.1@,
            r.1@ < divisor@,
    {
        let mut quotient = Natural::zero();
        let mut rest = Natural::zero();
        let mut i: usize = self.digits.len();
        proof {
            assert(quotient@ * divisor@ == 0) by (nonlinear_arith)
                requires
                    quotient@ == 0,
            ;
        }
        while i > 0
            invariant
                i <= self.digits.len(),
                divisor@ > 0,
                high_value(self.digits@, i as nat) == quotient@ * divisor@ + rest@,
                rest@ < divisor@,
            decreases i,
        {
            i -= 1;
            let d = self.digits[i];
            let t = rest.shifted().add(&Natural::from_u64(d as u64));
            proof {
                assert(rest@ * radix() + d < radix() * divisor@) by (nonlinear_arith)
                    requires
                        rest@ + 1 <= divisor@,
                        d < radix(),
                ;
            }
            let (qd, left) = divisor.quotient_digit(&t);
            proof {
                let q = quotient@;
                let dv = divisor@;
                let r0 = rest@;
                assert(high_value(self.digits@, i as nat) == d + radix() * high_value(
                    self.digits@,
                    (i + 1) as nat,
                ));
                assert(d + radix() * (q * dv + r0) == (q * radix() + qd) * dv + left@)
                    by (nonlinear_arith)
                    requires
                        r0 * radix() + d == qd * dv + left@,
                ;
            }
            quotient = quotient.shifted().add(&Natural::from_u64(qd as u64));
            rest = left;
        }
        proof {
            lemma_low_high_split(self.digits@, 0);
            assert(radix_pow(0) * high_value(self.digits@, 0) == high_value(self.digits@, 0))
                by (nonlinear_arith)
                requires
                    radix_pow(0) == 1,
            ;
        }
        (quotient, rest)
    }

    /// The greatest common divisor: it divides both numbers, and whatever
    /// divides both divides it. It is zero only where both are.
    pub fn gcd(&self, other: &Natural) -> (g: Natural)
        ensures
            divides(g@ as int, self@ as int),
            divides(g@ as int, other@ as int),
            forall|c: int|
                divides(c, self@ as int) && divides(c, other@ as int) ==> #[trigger] divides(
                    c,
                    g@ as int,
                ),
            g@ == 0 ==> self@ == 0 && other@ == 0,
    {
        let mut x = self.clone();
        let mut y = other.clone();
        while !y.is_zero()
            invariant
                forall|c: int|
                    divides(c, x@ as int) && divides(c, y@ as int) ==> divides(c, self@ as int)
                        && divides(c, other@ as int),
                forall|c: int|
                    divides(c, self@ as int) && divides(c, other@ as int) ==> divides(
                        c,
                        x@ as int,
                    ) && divides(c, y@ as int),
            decreases y@,
        {
            let (q, r) = x.div_rem(&y);
            proof {
                let (xv, yv, qv, rv) = (x@ as int, y@ as int, q@ as int, r@ as int);
                assert forall|c: int| divides(c, yv) && divides(c, rv) implies divides(
                    c,
                    self@ as int,
                ) && divides(c, other@ as int) by {
                    lemma_divides_dividend(c, xv, yv, qv, rv);
                }
                assert forall|c: int|
                    divides(c, self@ as int) && divides(c, other@ as int) implies divides(c, yv)
                    && divides(c, rv) by {
                    lemma_divides_remainder(c, xv, yv, qv, rv);
                }
            }
            x = y;
            y = r;
        }
        proof {
            let g = x@ as int;
            assert(g == 1 * g);
            assert(0 == 0 * g);
            assert(divides(g, g));
            assert(divides(g, 0));
            if g == 0 {
                let ka = choose|k: int| self@ as int == #[trigger] (k * g);
                let kb = choose|k: int| other@ as int == #[trigger] (k * g);
                assert(ka * g == 0 && kb * g == 0) by (nonlinear_arith)
                    requires
                        g == 0,
                ;
            }
        }
        x
    }
}

impl Clone for Natural {
    /// A second copy of this number.
    fn clone(&self) -> (r: Natural)
        ensures
            r@ == self@,
    {
        Natural { digits: self.to_digits() }
    }
}

} // verus!
