//! Exact decimal prices, kept in a normal form so that two prices of the same
//! value are equal field by field and can key a price level.

use vstd::prelude::*;

verus! {

/// Ten to the power `n`.
pub open spec fn pow10(n: nat) -> int
    decreases n,
{
    if n == 0 {
        1
    } else {
        10 * pow10((n - 1) as nat)
    }
}

proof fn lemma_pow10_positive(n: nat)
    ensures
        pow10(n) >= 1,
    decreases n,
{
    if n > 0 {
        lemma_pow10_positive((n - 1) as nat);
    }
}

/// A decimal number `(-1)^negative * units / 10^scale`, with no trailing zero
/// digit behind the point and no negative zero.
#[derive(Clone, Copy, Debug, PartialEq, Eq, Structural, Hash)]
pub struct Price {
    negative: bool,
    units: u128,
    scale: u32,
}

impl Price {
    /// The signed integer that the digits of the price spell, point removed.
    pub closed spec fn digits(&self) -> int {
        if self.negative {
            -(self.units as int)
        } else {
            self.units as int
        }
    }

    /// How many of those digits stand behind the point.
    pub closed spec fn places(&self) -> nat {
        self.scale as nat
    }

    /// The normal form: no trailing zero behind the point, no negative zero,
    /// and digits that fit an `i128`.
    pub closed spec fn is_normal(&self) -> bool {
        &&& self.scale == 0 || self.units % 10 != 0
        &&& self.units == 0 ==> !self.negative
        &&& i128::MIN <= self.digits() <= i128::MAX
    }

    /// The digits of the price as one signed integer, point removed.
    pub fn mantissa(&self) -> (r: i128)
        requires
            self.is_normal(),
        ensures
            r == self.digits(),
    {
        if self.negative {
            if self.units == 0x8000_0000_0000_0000_0000_0000_0000_0000 {
                i128::MIN
            } else {
                -(self.units as i128)
            }
        } else {
            self.units as i128
        }
    }

    /// How many digits of the mantissa stand behind the point.
    pub fn scale(&self) -> (r: u32)
        ensures
            r == self.places(),
    {
        self.scale
    }

    /// The price `mantissa / 10^scale`, with trailing zeros behind the point
    /// dropped.
    pub fn new(mantissa: i128, scale: u32) -> (r: Price)
        ensures
            r.is_normal(),
            r.places() <= scale,
            mantissa as int == r.digits() * pow10((scale - r.places()) as nat),
    {
        let negative = mantissa < 0;
        let mut units: u128 = if negative {
            (-(mantissa + 1)) as u128 + 1
        } else {
            mantissa as u128
        };
        let ghost sign: int = if negative { -1 } else { 1 };
        let mut s: u32 = scale;
        while s > 0 && units % 10 == 0
            invariant
                s <= scale,
                negative <==> mantissa < 0,
                sign == (if negative { -1int } else { 1int }),
                mantissa as int == sign * (units as int) * pow10((scale - s) as nat),
            decreases s,
        {
            let next: u128 = units / 10;
            proof {
                let p = pow10((scale - s) as nat);
                let n = (scale - (s - 1)) as nat;
                assert(pow10(n) == 10 * pow10((n - 1) as nat));
                assert(pow10(n) == 10 * p);
                assert(sign * (units as int) * p == sign * (next as int) * (10 * p))
                    by (nonlinear_arith)
                    requires
                        units as int == 10 * next as int,
                ;
            }
            units = next;
            s = s - 1;
        }
        proof {
            let d: int = sign * (units as int);
            assert(d == (if negative { -(units as int) } else { units as int }));
            lemma_pow10_positive((scale - s) as nat);
            let p = pow10((scale - s) as nat);
            assert((d < 0 && mantissa <= d) || (d >= 0 && d <= mantissa)) by (nonlinear_arith)
                requires
                    mantissa == d * p,
                    p >= 1,
            ;
        }
        Price { negative: negative && units != 0, units, scale: s }
    }

    /// The price that a `rust_decimal::Decimal` holds, in normal form.
    pub fn from_decimal(d: &rust_decimal::Decimal) -> (r: Price)
        ensures
            r.is_normal(),
    {
        Price::new(d.mantissa(), d.scale())
    }
}

/// Ten to the power `a + b` is ten to the `a` times ten to the `b`.
proof fn lemma_pow10_add(a: nat, b: nat)
    ensures
        pow10(a + b) == pow10(a) * pow10(b),
    decreases b,
{
    if b > 0 {
        lemma_pow10_add(a, (b - 1) as nat);
        assert(pow10(a + b) == 10 * pow10((a + b - 1) as nat));
        assert(pow10(a) * pow10(b) == pow10(a) * (10 * pow10((b - 1) as nat)));
        assert(pow10(a) * (10 * pow10((b - 1) as nat)) == 10 * (pow10(a) * pow10((b - 1) as nat)))
            by (nonlinear_arith);
    }
}

/// Prices in normal form of one value are one price: `a` and `b` stand for
/// the same number exactly when they are equal, so equality can key a level.
pub proof fn law_equal_value_equal_price(a: Price, b: Price)
    requires
        a.is_normal(),
        b.is_normal(),
        a.digits() * pow10(b.places()) == b.digits() * pow10(a.places()),
    ensures
        a == b,
    decreases (if a.places() < b.places() { 1int } else { 0int }),
{
    if a.places() < b.places() {
        law_equal_value_equal_price(b, a);
    } else {
        let d = (a.places() - b.places()) as nat;
        let pb = pow10(b.places());
        lemma_pow10_add(b.places(), d);
        lemma_pow10_positive(b.places());
        assert(a.places() == b.places() + d);
        assert(a.digits() * pb == b.digits() * (pb * pow10(d)));
        assert(a.digits() == b.digits() * pow10(d)) by (nonlinear_arith)
            requires
                a.digits() * pb == b.digits() * (pb * pow10(d)),
                pb >= 1,
        ;
        if d > 0 {
            let q = b.digits() * pow10((d - 1) as nat);
            assert(pow10(d) == 10 * pow10((d - 1) as nat));
            assert(a.digits() == 10 * q) by (nonlinear_arith)
                requires
                    a.digits() == b.digits() * pow10(d),
                    pow10(d) == 10 * pow10((d - 1) as nat),
                    q == b.digits() * pow10((d - 1) as nat),
            ;
            assert(a.units % 10 == 0);
            assert(false);
        }
        assert(pow10(0) == 1);
        assert(a.digits() == b.digits());
    }
}

#[verifier::external_type_specification]
#[verifier::external_body]
pub struct ExDecimal(rust_decimal::Decimal);

/// Relies on rust_decimal's `Decimal::mantissa`: the signed 96-bit integer of
/// the decimal's digits.
pub assume_specification[ rust_decimal::Decimal::mantissa ](d: &rust_decimal::Decimal) -> (r: i128)
    ensures
        -0x1_0000_0000_0000_0000_0000_0000 < r < 0x1_0000_0000_0000_0000_0000_0000,
;

/// Relies on rust_decimal's `Decimal::scale`: how many of the digits stand
/// behind the point.
pub assume_specification[ rust_decimal::Decimal::scale ](d: &rust_decimal::Decimal) -> (r: u32);

} // verus!
