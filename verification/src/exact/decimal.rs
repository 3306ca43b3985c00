//! Numbers as decimal text.

use super::natural::Natural;
use super::rational::{real_abs, rounded, Rational};
use vstd::prelude::*;
use vstd::string::StringExecFns;

verus! {

/// The decimal digit `d` as text.
pub open spec fn digit_text(d: nat) -> Seq<char> {
    if d == 0 {
        "0"@
    } else if d == 1 {
        "1"@
    } else if d == 2 {
        "2"@
    } else if d == 3 {
        "3"@
    } else if d == 4 {
        "4"@
    } else if d == 5 {
        "5"@
    } else if d == 6 {
        "6"@
    } else if d == 7 {
        "7"@
    } else if d == 8 {
        "8"@
    } else {
        "9"@
    }
}

/// The number `n` in decimal, without leading zeros.
pub open spec fn decimal_text(n: nat) -> Seq<char>
    decreases n,
{
    if n < 10 {
        digit_text(n)
    } else {
        decimal_text(n / 10) + digit_text(n % 10)
    }
}

/// The `places` lowest decimal digits of `n`, with leading zeros.
pub open spec fn fraction_text(n: nat, places: nat) -> Seq<char>
    decreases places,
{
    if places == 0 {
        Seq::empty()
    } else {
        fraction_text(n / 10, (places - 1) as nat) + digit_text(n % 10)
    }
}

/// Ten to the power `p`.
pub open spec fn power_of_ten(p: nat) -> nat
    decreases p,
{
    if p == 0 {
        1
    } else {
        10 * power_of_ten((p - 1) as nat)
    }
}

/// How many units of the last place the number `x` has when it is rounded
/// to `places` decimals, a half counting away from zero.
pub open spec fn decimal_units(x: real, places: nat) -> nat {
    rounded(real_abs(x) * (power_of_ten(places) as real)) as nat
}

/// The number `x` with `places` decimals: a minus sign where it is negative,
/// the whole part, and, where there are decimals, a point and the decimals.
pub open spec fn fixed_text(x: real, places: nat) -> Seq<char> {
    let units = decimal_units(x, places);
    let scale = power_of_ten(places);
    let sign = if x < 0real {
        "-"@
    } else {
        Seq::empty()
    };
    let tail = if places == 0 {
        Seq::empty()
    } else {
        "."@ + fraction_text(units % scale, places)
    };
    sign + decimal_text(units / scale) + tail
}

/// A power of ten is positive.
pub proof fn lemma_power_of_ten_positive(p: nat)
    ensures
        power_of_ten(p) > 0,
    decreases p,
{
    if p > 0 {
        lemma_power_of_ten_positive((p - 1) as nat);
    }
}

/// The decimal digit `d` as text.
pub fn digit_str(d: usize) -> (r: &'static str)
    requires
        d < 10,
    ensures
        r@ == digit_text(d as nat),
{
    match d {
        0 => "0",
        1 => "1",
        2 => "2",
        3 => "3",
        4 => "4",
        5 => "5",
        6 => "6",
        7 => "7",
        8 => "8",
        _ => "9",
    }
}

/// The number `n` in decimal.
pub fn natural_text(n: &Natural) -> (r: String)
    ensures
        r@ == decimal_text(n@),
    decreases n@,
{
    let ten = Natural::from_u64(10);
    let (rest, last) = n.div_rem(&ten);
    let digit = match last.to_u64() {
        Some(d) => d as usize,
        None => 0,
    };
    if rest.is_zero() {
        String::from_str(digit_str(digit))
    } else {
        let head = natural_text(&rest);
        head.concat(digit_str(digit))
    }
}

/// The `places` lowest decimal digits of `n`, with leading zeros.
pub fn fraction_digits(n: &Natural, places: usize) -> (r: String)
    ensures
        r@ == fraction_text(n@, places as nat),
    decreases places,
{
    if places == 0 {
        let r = String::new();
        assert(r@ =~= fraction_text(n@, 0));
        r
    } else {
        let ten = Natural::from_u64(10);
        let (rest, last) = n.div_rem(&ten);
        let digit = match last.to_u64() {
            Some(d) => d as usize,
            None => 0,
        };
        let head = fraction_digits(&rest, places - 1);
        head.concat(digit_str(digit))
    }
}

/// Ten to the power `p`.
pub fn ten_to(p: usize) -> (r: Natural)
    ensures
        r@ == power_of_ten(p as nat),
{
    let ten = Natural::from_u64(10);
    let mut acc = Natural::from_u64(1);
    let mut i: usize = 0;
    while i < p
        invariant
            i <= p,
            ten@ == 10,
            acc@ == power_of_ten(i as nat),
        decreases p - i,
    {
        acc = ten.mul(&acc);
        i += 1;
    }
    acc
}

/// The number `value` with `places` decimals, rounded, a half counting
/// away from zero.
pub fn fixed(value: &Rational, places: usize) -> (r: String)
    ensures
        r@ == fixed_text(value@, places as nat),
{
    let scale = ten_to(places);
    proof {
        lemma_power_of_ten_positive(places as nat);
    }
    let units = value.abs().mul(&Rational::from_natural(scale.clone())).round_to_natural();
    let (whole, part) = units.div_rem(&scale);
    proof {
        let (a, k) = (real_abs(value@), scale@ as real);
        assert(a * k >= 0real) by (nonlinear_arith)
            requires
                a >= 0real,
                k >= 0real,
        ;
        assert(units@ == decimal_units(value@, places as nat));
        let (u, s) = (units@ as int, scale@ as int);
        vstd::arithmetic::div_mod::lemma_fundamental_div_mod_converse(
            u,
            s,
            whole@ as int,
            part@ as int,
        );
    }
    let mut text = if value.is_negative() {
        String::from_str("-")
    } else {
        String::new()
    };
    text.append(natural_text(&whole).as_str());
    if places > 0 {
        text.append(".");
        text.append(fraction_digits(&part, places).as_str());
    }
    proof {
        assert(whole@ == units@ / scale@);
        assert(part@ == units@ % scale@);
        assert(text@ =~= fixed_text(value@, places as nat));
    }
    text
}

} // verus!
