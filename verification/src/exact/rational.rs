//! Exact rational numbers. The view of a [`Rational`] is the real number it
//! denotes, and every operation is specified by real arithmetic on views.

use super::natural::{digits_value, lemma_divides_exactly, Natural};
use vstd::prelude::*;

verus! {

/// The integer with the given sign and magnitude.
pub open spec fn signed(negative: bool, magnitude: nat) -> int {
    if negative {
        -(magnitude as int)
    } else {
        magnitude as int
    }
}

/// The real number `n / d`.
pub open spec fn quotient(n: int, d: int) -> real {
    (n as real) / (d as real)
}

/// The larger of two reals.
pub open spec fn real_max(a: real, b: real) -> real {
    if a >= b {
        a
    } else {
        b
    }
}

/// The absolute value of a real.
pub open spec fn real_abs(a: real) -> real {
    if a >= 0real {
        a
    } else {
        -a
    }
}

/// The integer nearest to `x`, a half counting away from zero.
pub open spec fn rounded(x: real) -> int {
    if x >= 0real {
        (x + 1real / 2real).floor()
    } else {
        -((-x + 1real / 2real).floor())
    }
}

/// The integer `n` as a `usize`, where it is one; else the nearest `usize`.
pub open spec fn saturated(n: int) -> usize {
    if n < 0 {
        0
    } else if n > usize::MAX {
        usize::MAX
    } else {
        n as usize
    }
}

/// Multiplication of reals distributes over addition.
pub proof fn lemma_real_distributes(a: real, b: real, c: real)
    ensures
        (a + b) * c == a * c + b * c,
        c * (a + b) == c * a + c * b,
{
    assert((a + b) * c == a * c + b * c && c * (a + b) == c * a + c * b) by (nonlinear_arith);
}

/// Multiplication of reals is associative and commutative.
pub proof fn lemma_real_regroups(a: real, b: real, c: real)
    ensures
        (a * b) * c == a * (b * c),
        (a * b) * c == b * (a * c),
        a * b == b * a,
{
    assert((a * b) * c == a * (b * c) && (a * b) * c == b * (a * c) && a * b == b * a)
        by (nonlinear_arith);
}

/// The real of a product of integers is the product of their reals.
proof fn lemma_real_of_product(a: int, b: int)
    ensures
        ((a * b) as real) == (a as real) * (b as real),
{
    assert(((a * b) as real) == (a as real) * (b as real)) by (nonlinear_arith);
}

/// Fractions are added over the product of their denominators.
pub proof fn lemma_quotient_add(a: int, b: int, c: int, d: int)
    requires
        b > 0,
        d > 0,
    ensures
        quotient(a, b) + quotient(c, d) == quotient(a * d + c * b, b * d),
{
    lemma_real_of_product(a, d);
    lemma_real_of_product(c, b);
    lemma_real_of_product(b, d);
    let (ra, rb, rc, rd) = (a as real, b as real, c as real, d as real);
    assert(ra / rb + rc / rd == (ra * rd + rc * rb) / (rb * rd)) by (nonlinear_arith)
        requires
            rb > 0real,
            rd > 0real,
    ;
}

/// Fractions are multiplied numerator by numerator and denominator by
/// denominator.
pub proof fn lemma_quotient_mul(a: int, b: int, c: int, d: int)
    requires
        b > 0,
        d > 0,
    ensures
        quotient(a, b) * quotient(c, d) == quotient(a * c, b * d),
{
    lemma_real_of_product(a, c);
    lemma_real_of_product(b, d);
    let (ra, rb, rc, rd) = (a as real, b as real, c as real, d as real);
    assert((ra / rb) * (rc / rd) == (ra * rc) / (rb * rd)) by (nonlinear_arith)
        requires
            rb > 0real,
            rd > 0real,
    ;
}

/// A fraction is divided by multiplying with the inverse.
pub proof fn lemma_quotient_div(a: int, b: int, c: int, d: int)
    requires
        b > 0,
        c > 0,
        d > 0,
    ensures
        quotient(a, b) / quotient(c, d) == quotient(a * d, b * c),
        quotient(a, b) / quotient(-c, d) == quotient(-(a * d), b * c),
{
    lemma_real_of_product(a, d);
    lemma_real_of_product(b, c);
    let (ra, rb, rc, rd) = (a as real, b as real, c as real, d as real);
    assert((ra / rb) / (rc / rd) == (ra * rd) / (rb * rc)) by (nonlinear_arith)
        requires
            rb > 0real,
            rc > 0real,
            rd > 0real,
    ;
    assert((ra / rb) / ((-rc) / rd) == (-(ra * rd)) / (rb * rc)) by (nonlinear_arith)
        requires
            rb > 0real,
            rc > 0real,
            rd > 0real,
    ;
}

/// A fraction with a positive denominator has the sign of its numerator.
pub proof fn lemma_quotient_sign(a: int, b: int)
    requires
        b > 0,
    ensures
        quotient(a, b) < 0real <==> a < 0,
        quotient(a, b) == 0real <==> a == 0,
        quotient(a, b) > 0real <==> a > 0,
        quotient(-a, b) == -quotient(a, b),
{
    let (ra, rb) = (a as real, b as real);
    assert((ra / rb < 0real <==> ra < 0real) && (ra / rb == 0real <==> ra == 0real) && (ra / rb
        > 0real <==> ra > 0real) && (-ra) / rb == -(ra / rb)) by (nonlinear_arith)
        requires
            rb > 0real,
    ;
}

/// A fraction with the denominator one is its numerator.
pub proof fn lemma_quotient_unit(a: int)
    ensures
        quotient(a, 1) == a as real,
{
    let ra = a as real;
    assert(ra / 1real == ra) by (nonlinear_arith);
}

/// A common factor of numerator and denominator cancels.
pub proof fn lemma_quotient_cancel(a: int, b: int, g: int)
    requires
        b > 0,
        g > 0,
    ensures
        quotient(a * g, b * g) == quotient(a, b),
{
    lemma_real_of_product(a, g);
    lemma_real_of_product(b, g);
    let (ra, rb, rg) = (a as real, b as real, g as real);
    assert((ra * rg) / (rb * rg) == ra / rb) by (nonlinear_arith)
        requires
            rb > 0real,
            rg > 0real,
    ;
}

/// The floor of a fraction is the quotient of the division with remainder.
pub proof fn lemma_quotient_floor(t: int, d: int, q: int)
    requires
        d > 0,
        q * d <= t < (q + 1) * d,
    ensures
        quotient(t, d).floor() == q,
{
    let (rt, rd, rq) = (t as real, d as real, q as real);
    lemma_real_of_product(q, d);
    lemma_real_of_product(q + 1, d);
    assert(rq <= rt / rd < rq + 1real) by (nonlinear_arith)
        requires
            rd > 0real,
            rq * rd <= rt < (rq + 1real) * rd,
    ;
}

/// An exact rational number.
#[derive(Debug)]
pub struct Rational {
    negative: bool,
    numer: Natural,
    denom: Natural,
}

impl View for Rational {
    type V = real;

    closed spec fn view(&self) -> real {
        quotient(signed(self.negative, self.numer@), self.denom@ as int)
    }
}

/// Adds two integers given by sign and magnitude.
fn signed_sum(an: bool, a: &Natural, bn: bool, b: &Natural) -> (r: (bool, Natural))
    ensures
        signed(r.0, r.1@) == signed(an, a@) + signed(bn, b@),
{
    if an == bn {
        (an, a.add(b))
    } else {
        match a.checked_sub(b) {
            Some(d) => (an, d),
            None => {
                match b.checked_sub(a) {
                    Some(d) => (bn, d),
                    None => (false, Natural::zero()),
                }
            },
        }
    }
}

impl Rational {
    /// The denominator is positive.
    #[verifier::type_invariant]
    spec fn well_formed(&self) -> bool {
        self.denom@ > 0
    }

    /// The number with the given sign, numerator and denominator, in lowest
    /// terms.
    fn reduced(negative: bool, numer: Natural, denom: Natural) -> (r: Rational)
        requires
            denom@ > 0,
        ensures
            r@ == quotient(signed(negative, numer@), denom@ as int),
    {
        let g = numer.gcd(&denom);
        let (n, rn) = numer.div_rem(&g);
        let (d, rd) = denom.div_rem(&g);
        proof {
            lemma_divides_exactly(g@ as int, numer@ as int, n@ as int, rn@ as int);
            lemma_divides_exactly(g@ as int, denom@ as int, d@ as int, rd@ as int);
            assert(d@ > 0) by (nonlinear_arith)
                requires
                    denom@ == d@ * g@,
                    denom@ > 0,
            ;
            lemma_quotient_cancel(signed(negative, n@), d@ as int, g@ as int);
            assert(signed(negative, numer@) == signed(negative, n@) * g@) by (nonlinear_arith)
                requires
                    numer@ == n@ * g@,
            ;
        }
        Rational { negative, numer: n, denom: d }
    }

    /// The rational `0`.
    pub fn zero() -> (r: Rational)
        ensures
            r@ == 0real,
    {
        proof {
            lemma_quotient_sign(0, 1);
        }
        Rational { negative: false, numer: Natural::zero(), denom: Natural::from_u64(1) }
    }

    /// The rational `1`.
    pub fn one() -> (r: Rational)
        ensures
            r@ == 1real,
    {
        proof {
            lemma_quotient_unit(1);
        }
        Rational { negative: false, numer: Natural::from_u64(1), denom: Natural::from_u64(1) }
    }

    /// The rational equal to the integer `x`.
    pub fn from_int(x: i64) -> (r: Rational)
        ensures
            r@ == x as real,
    {
        let negative = x < 0;
        let magnitude: u64 = if x >= 0 {
            x as u64
        } else {
            (-(x + 1)) as u64 + 1
        };
        proof {
            assert(signed(negative, magnitude as nat) == x);
            lemma_quotient_unit(x as int);
        }
        Rational { negative, numer: Natural::from_u64(magnitude), denom: Natural::from_u64(1) }
    }

    /// The rational equal to the count `n`.
    pub fn from_usize(n: usize) -> (r: Rational)
        ensures
            r@ == n as real,
    {
        proof {
            lemma_quotient_unit(n as int);
        }
        Rational { negative: false, numer: Natural::from_u64(n as u64), denom: Natural::from_u64(1) }
    }

    /// The rational equal to the natural number `n`.
    pub fn from_natural(n: Natural) -> (r: Rational)
        ensures
            r@ == n@ as real,
    {
        proof {
            lemma_quotient_unit(n@ as int);
        }
        Rational { negative: false, numer: n, denom: Natural::from_u64(1) }
    }

    /// The rational `n / d`; none where `d` is zero.
    pub fn from_ratio(n: i64, d: u64) -> (r: Option<Rational>)
        ensures
            r is Some <==> d != 0,
            r is Some ==> r->Some_0@ == quotient(n as int, d as int),
    {
        if d == 0 {
            return None;
        }
        let negative = n < 0;
        let magnitude: u64 = if n >= 0 {
            n as u64
        } else {
            (-(n + 1)) as u64 + 1
        };
        assert(signed(negative, magnitude as nat) == n);
        Some(Rational::reduced(negative, Natural::from_u64(magnitude), Natural::from_u64(d)))
    }

    /// The rational with the given sign whose numerator and denominator are
    /// given by little-endian base-2^32 digits; none where the denominator is zero.
    pub fn from_parts(negative: bool, numer: Vec<u32>, denom: Vec<u32>) -> (r: Option<Rational>)
        ensures
            r is Some <==> digits_value(denom@) != 0,
            r is Some ==> r->Some_0@ == quotient(
                signed(negative, digits_value(numer@)),
                digits_value(denom@) as int,
            ),
    {
        let d = Natural::from_digits(denom);
        if d.is_zero() {
            return None;
        }
        Some(Rational::reduced(negative, Natural::from_digits(numer), d))
    }

    /// Sign, numerator digits and denominator digits of this number, the
    /// digits little-endian in base 2^32. The denominator is positive.
    pub fn to_parts(&self) -> (r: (bool, Vec<u32>, Vec<u32>))
        ensures
            digits_value(r.2@) > 0,
            self@ == quotient(signed(r.0, digits_value(r.1@)), digits_value(r.2@) as int),
    {
        proof {
            use_type_invariant(self);
        }
        (self.negative, self.numer.to_digits(), self.denom.to_digits())
    }

    /// The number with the opposite sign.
    pub fn neg(&self) -> (r: Rational)
        ensures
            r@ == -self@,
    {
        proof {
            use_type_invariant(self);
            lemma_quotient_sign(signed(self.negative, self.numer@), self.denom@ as int);
        }
        Rational {
            negative: !self.negative,
            numer: self.numer.clone(),
            denom: self.denom.clone(),
        }
    }

    /// The sum of two numbers.
    pub fn add(&self, other: &Rational) -> (r: Rational)
        ensures
            r@ == self@ + other@,
    {
        proof {
            use_type_invariant(self);
            use_type_invariant(other);
        }
        let x = self.numer.mul(&other.denom);
        let y = other.numer.mul(&self.denom);
        let denom = self.denom.mul(&other.denom);
        let (negative, numer) = signed_sum(self.negative, &x, other.negative, &y);
        proof {
            let a = signed(self.negative, self.numer@);
            let b = self.denom@ as int;
            let c = signed(other.negative, other.numer@);
            let d = other.denom@ as int;
            lemma_quotient_add(a, b, c, d);
            assert(signed(self.negative, x@) == a * d) by (nonlinear_arith)
                requires
                    x@ == self.numer@ * other.denom@,
                    a == signed(self.negative, self.numer@),
                    d == other.denom@,
            ;
            assert(signed(other.negative, y@) == c * b) by (nonlinear_arith)
                requires
                    y@ == other.numer@ * self.denom@,
                    c == signed(other.negative, other.numer@),
                    b == self.denom@,
            ;
            assert(b * d > 0) by (nonlinear_arith)
                requires
                    b > 0,
                    d > 0,
            ;
        }
        Rational::reduced(negative, numer, denom)
    }

    /// The difference of two numbers.
    pub fn sub(&self, other: &Rational) -> (r: Rational)
        ensures
            r@ == self@ - other@,
    {
        let minus = other.neg();
        self.add(&minus)
    }

    /// The product of two numbers.
    pub fn mul(&self, other: &Rational) -> (r: Rational)
        ensures
            r@ == self@ * other@,
    {
        proof {
            use_type_invariant(self);
            use_type_invariant(other);
        }
        let numer = self.numer.mul(&other.numer);
        let denom = self.denom.mul(&other.denom);
        let negative = self.negative != other.negative;
        proof {
            let a = signed(self.negative, self.numer@);
            let b = self.denom@ as int;
            let c = signed(other.negative, other.numer@);
            let d = other.denom@ as int;
            lemma_quotient_mul(a, b, c, d);
            assert(signed(negative, numer@) == a * c) by (nonlinear_arith)
                requires
                    numer@ == self.numer@ * other.numer@,
                    a == signed(self.negative, self.numer@),
                    c == signed(other.negative, other.numer@),
                    negative == (self.negative != other.negative),
            ;
            assert(b * d > 0) by (nonlinear_arith)
                requires
                    b > 0,
                    d > 0,
            ;
        }
        Rational::reduced(negative, numer, denom)
    }

    /// The quotient of two numbers.
    pub fn div(&self, other: &Rational) -> (r: Rational)
        requires
            other@ != 0real,
        ensures
            r@ == self@ / other@,
    {
        proof {
            use_type_invariant(self);
            use_type_invariant(other);
        }
        let numer = self.numer.mul(&other.denom);
        let denom = self.denom.mul(&other.numer);
        let negative = self.negative != other.negative;
        proof {
            let a = signed(self.negative, self.numer@);
            let b = self.denom@ as int;
            let m = other.numer@ as int;
            let d = other.denom@ as int;
            lemma_quotient_sign(signed(other.negative, other.numer@), d);
            assert(m > 0);
            lemma_quotient_div(a, b, m, d);
            assert(b * m > 0) by (nonlinear_arith)
                requires
                    b > 0,
                    m > 0,
            ;
            assert(signed(negative, numer@) == if other.negative {
                -(a * d)
            } else {
                a * d
            }) by (nonlinear_arith)
                requires
                    numer@ == self.numer@ * other.denom@,
                    a == signed(self.negative, self.numer@),
                    d == other.denom@,
                    negative == (self.negative != other.negative),
            ;
        }
        Rational::reduced(negative, numer, denom)
    }

    /// Whether this number is below zero.
    pub fn is_negative(&self) -> (b: bool)
        ensures
            b == (self@ < 0real),
    {
        proof {
            use_type_invariant(self);
            lemma_quotient_sign(signed(self.negative, self.numer@), self.denom@ as int);
        }
        self.negative && !self.numer.is_zero()
    }

    /// Whether this number is zero.
    pub fn is_zero(&self) -> (b: bool)
        ensures
            b == (self@ == 0real),
    {
        proof {
            use_type_invariant(self);
            lemma_quotient_sign(signed(self.negative, self.numer@), self.denom@ as int);
        }
        self.numer.is_zero()
    }

    /// Whether this number is above zero.
    pub fn is_positive(&self) -> (b: bool)
        ensures
            b == (self@ > 0real),
    {
        proof {
            use_type_invariant(self);
            lemma_quotient_sign(signed(self.negative, self.numer@), self.denom@ as int);
        }
        !self.negative && !self.numer.is_zero()
    }

    /// Whether `self` is strictly below `other`.
    pub fn lt(&self, other: &Rational) -> (b: bool)
        ensures
            b == (self@ < other@),
    {
        self.sub(other).is_negative()
    }

    /// Whether `self` is at most `other`.
    pub fn le(&self, other: &Rational) -> (b: bool)
        ensures
            b == (self@ <= other@),
    {
        !other.sub(self).is_negative()
    }

    /// Whether `self` is strictly above `other`.
    pub fn gt(&self, other: &Rational) -> (b: bool)
        ensures
            b == (self@ > other@),
    {
        other.sub(self).is_negative()
    }

    /// Whether `self` is at least `other`.
    pub fn ge(&self, other: &Rational) -> (b: bool)
        ensures
            b == (self@ >= other@),
    {
        !self.sub(other).is_negative()
    }

    /// Whether the two numbers are the same number.
    pub fn same(&self, other: &Rational) -> (b: bool)
        ensures
            b == (self@ == other@),
    {
        self.sub(other).is_zero()
    }

    /// The magnitude of this number rounded to the nearest integer, a half
    /// counting upwards.
    pub fn round_to_natural(&self) -> (r: Natural)
        ensures
            r@ == rounded(real_abs(self@)),
    {
        proof {
            use_type_invariant(self);
        }
        let ghost n = self.numer@ as int;
        let ghost d = self.denom@ as int;
        let two = Natural::from_u64(2);
        let t = two.mul(&self.numer).add(&self.denom);
        let dd = two.mul(&self.denom);
        let (q, rest) = t.div_rem(&dd);
        proof {
            lemma_quotient_sign(n, d);
            lemma_quotient_sign(-n, d);
            assert(real_abs(self@) == quotient(n, d));
            let (rn, rd) = (n as real, d as real);
            lemma_real_of_product(2, n);
            lemma_real_of_product(2, d);
            assert(rn / rd + 1real / 2real == (2real * rn + rd) / (2real * rd)) by (nonlinear_arith)
                requires
                    rd > 0real,
            ;
            assert((q@ + 1) * (2 * d) == q@ * (2 * d) + 2 * d) by (nonlinear_arith);
            lemma_quotient_floor(2 * n + d, 2 * d, q@ as int);
        }
        q
    }

    /// This number rounded to the nearest integer, a half counting away
    /// from zero, as a `usize`: zero for a negative number, and the largest
    /// `usize` for one beyond it.
    pub fn round_to_usize(&self) -> (r: usize)
        ensures
            r == saturated(rounded(self@)),
    {
        let q = self.round_to_natural();
        if self.is_negative() {
            return 0;
        }
        match q.to_u64() {
            Some(v) => if v > usize::MAX as u64 {
                usize::MAX
            } else {
                v as usize
            },
            None => usize::MAX,
        }
    }

    /// The absolute value.
    pub fn abs(&self) -> (r: Rational)
        ensures
            r@ == real_abs(self@),
    {
        if self.is_negative() {
            self.neg()
        } else {
            self.clone()
        }
    }
}

impl Clone for Rational {
    /// A second copy of this number.
    fn clone(&self) -> (r: Rational)
        ensures
            r@ == self@,
    {
        proof {
            use_type_invariant(self);
        }
        Rational { negative: self.negative, numer: self.numer.clone(), denom: self.denom.clone() }
    }
}

} // verus!
