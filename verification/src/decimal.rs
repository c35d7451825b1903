//! Fixed-scale signed decimal arithmetic.
//!
//! A `Dec` holds an integer mantissa `m` and denotes the number
//! `m / SCALE`.  With `SCALE = 10^6` every constant the venue uses
//! (0.0001, 0.00075, 0.005, 0.001, 0.002, 1.1) is exact.  Division
//! truncates toward zero, as the contracts state through `tdiv`.

use vstd::prelude::*;

verus! {

/// Mantissa units per 1.0.
pub const SCALE: i128 = 1_000_000;

/// Largest mantissa admitted for prices, quantities and leverage
/// (10^9 in decimal units): keeps every product the engine forms
/// inside `i128`.
pub const AMT_MAX: i128 = 1_000_000_000_000_000;

/// Saturation bound for balances and margins (10^24 in decimal
/// units): account money is clamped into `[-BAL_MAX, BAL_MAX]`.
pub const BAL_MAX: i128 = 1_000_000_000_000_000_000_000_000_000_000;

/// Largest mantissa a position's accumulated quantity may reach
/// (10^13 in decimal units): keeps quantity-times-price products
/// inside `i128`.  Growing a position past it is refused.
pub const POS_MAX: i128 = 10_000_000_000_000_000_000;

/// Truncating division (toward zero) for a positive divisor.
pub open spec fn tdiv(a: int, b: int) -> int {
    if a >= 0 {
        a / b
    } else {
        -((-a) / b)
    }
}

/// Mantissa of the product of two decimals.
pub open spec fn dmul(a: int, b: int) -> int {
    tdiv(a * b, SCALE as int)
}

/// Mantissa of the quotient of two decimals.
pub open spec fn ddiv(a: int, b: int) -> int {
    tdiv(a * (SCALE as int), b)
}

/// Saturating value of a balance sum.
pub open spec fn capped(x: int) -> int {
    if x > BAL_MAX as int {
        BAL_MAX as int
    } else if x < -BAL_MAX as int {
        -BAL_MAX as int
    } else {
        x
    }
}

/// Range admitted for prices, quantities, open interest and leverage.
pub open spec fn amt_ok(x: int) -> bool {
    0 <= x <= AMT_MAX
}

/// Fixed-scale decimal number, denoting `m / SCALE`.
#[derive(Clone, Copy, Debug, PartialEq, Eq, Structural, Hash)]
pub struct Dec {
    pub m: i128,
}

impl View for Dec {
    type V = int;

    open spec fn view(&self) -> int {
        self.m as int
    }
}

/// Truncating division on machine integers, via unsigned division on
/// the magnitudes.
fn tdiv_exec(a: i128, b: i128) -> (r: i128)
    requires
        b > 0,
        a > i128::MIN,
    ensures
        r == tdiv(a as int, b as int),
{
    if a >= 0 {
        ((a as u128) / (b as u128)) as i128
    } else {
        let neg = -a;
        let q = (neg as u128) / (b as u128);
        proof {
            assert(q <= neg as u128) by (nonlinear_arith)
                requires
                    q == (neg as u128) / (b as u128),
                    b as u128 >= 1,
            ;
        }
        -(q as i128)
    }
}

impl Dec {
    /// Decimal with the given mantissa.
    pub fn new(m: i128) -> (r: Dec)
        ensures
            r@ == m as int,
    {
        Dec { m }
    }

    /// Decimal denoting the given whole number of units.
    pub fn from_int(units: i64) -> (r: Dec)
        ensures
            r@ == units as int * SCALE as int,
    {
        Dec { m: (units as i128) * SCALE }
    }

    /// The zero decimal.
    pub fn zero() -> (r: Dec)
        ensures
            r@ == 0,
    {
        Dec { m: 0 }
    }

    /// The decimal one.
    pub fn one() -> (r: Dec)
        ensures
            r@ == SCALE as int,
    {
        Dec { m: SCALE }
    }

    pub fn add(self, rhs: Dec) -> (r: Dec)
        requires
            i128::MIN <= self@ + rhs@ <= i128::MAX,
        ensures
            r@ == self@ + rhs@,
    {
        Dec { m: self.m + rhs.m }
    }

    pub fn sub(self, rhs: Dec) -> (r: Dec)
        requires
            i128::MIN <= self@ - rhs@ <= i128::MAX,
        ensures
            r@ == self@ - rhs@,
    {
        Dec { m: self.m - rhs.m }
    }

    pub fn neg(self) -> (r: Dec)
        requires
            self@ != i128::MIN,
        ensures
            r@ == -self@,
    {
        Dec { m: -self.m }
    }

    pub fn mul(self, rhs: Dec) -> (r: Dec)
        requires
            i128::MIN < self@ * rhs@ <= i128::MAX,
        ensures
            r@ == dmul(self@, rhs@),
    {
        let p = self.m * rhs.m;
        Dec { m: tdiv_exec(p, SCALE) }
    }

    pub fn div(self, rhs: Dec) -> (r: Dec)
        requires
            rhs@ > 0,
            i128::MIN < self@ * (SCALE as int) <= i128::MAX,
        ensures
            r@ == ddiv(self@, rhs@),
    {
        let p = self.m * SCALE;
        Dec { m: tdiv_exec(p, rhs.m) }
    }

    /// Saturating addition: the exact sum where it stays inside
    /// `[-BAL_MAX, BAL_MAX]`, else the nearer bound.
    pub fn cap_add(self, rhs: Dec) -> (r: Dec)
        requires
            i128::MIN < self@ + rhs@ < i128::MAX,
        ensures
            r@ == capped(self@ + rhs@),
    {
        let s = self.m + rhs.m;
        if s > BAL_MAX {
            Dec { m: BAL_MAX }
        } else if s < -BAL_MAX {
            Dec { m: -BAL_MAX }
        } else {
            Dec { m: s }
        }
    }

    pub fn lt(self, rhs: Dec) -> (r: bool)
        ensures
            r == (self@ < rhs@),
    {
        self.m < rhs.m
    }

    pub fn le(self, rhs: Dec) -> (r: bool)
        ensures
            r == (self@ <= rhs@),
    {
        self.m <= rhs.m
    }

    pub fn gt(self, rhs: Dec) -> (r: bool)
        ensures
            r == (self@ > rhs@),
    {
        self.m > rhs.m
    }

    pub fn ge(self, rhs: Dec) -> (r: bool)
        ensures
            r == (self@ >= rhs@),
    {
        self.m >= rhs.m
    }

    pub fn is_zero(self) -> (r: bool)
        ensures
            r == (self@ == 0),
    {
        self.m == 0
    }
}


/// Round-trip refund: debiting an in-band balance and then crediting
/// the same amount back restores it exactly — the saturation at the
/// representable band never engages on the way back.
pub proof fn lemma_debit_credit_round_trip(bal: int, amount: int)
    requires
        0 <= bal <= BAL_MAX,
        0 <= amount <= bal,
    ensures
        capped((bal - amount) + amount) == bal,
{
}

/// Truncating division never grows the magnitude of its dividend.
pub proof fn lemma_tdiv_magnitude(a: int, b: int)
    requires
        b > 0,
    ensures
        a >= 0 ==> 0 <= tdiv(a, b) <= a,
        a < 0 ==> a <= tdiv(a, b) <= 0,
{
    if a >= 0 {
        vstd::arithmetic::div_mod::lemma_div_is_ordered_by_denominator(a, 1, b);
        vstd::arithmetic::div_mod::lemma_div_pos_is_pos(a, b);
    } else {
        vstd::arithmetic::div_mod::lemma_div_is_ordered_by_denominator(-a, 1, b);
        vstd::arithmetic::div_mod::lemma_div_pos_is_pos(-a, b);
    }
}

} // verus!
