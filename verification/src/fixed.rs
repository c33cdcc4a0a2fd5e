//! Exact fixed-point decimal values.
//!
//! [`Dec`] carries amounts, thresholds and rates as a count of millionths,
//! so every value has exactly six fractional digits.  [`Fee`] carries the
//! result of charging an amount at a rate; it has twelve fractional digits,
//! which is enough to hold the product of any two `Dec` values exactly.
//! Neither type ever rounds.

use vstd::prelude::*;

verus! {

/// Fractional digits of a `Dec`.
pub const DEC_SCALE: u32 = 6;

/// Fractional digits of a `Fee`: twice those of a `Dec`, so a product of two
/// `Dec` values is held exactly.
pub const FEE_SCALE: u32 = 12;

/// Largest magnitude, in millionths, that an amount or threshold may have:
/// values up to a hundred trillion.  Together with `RATE_UNIT_CAP` this keeps
/// every intermediate product and sum of the fee calculation inside `i128`.
pub const AMOUNT_UNIT_CAP: i128 = 100_000_000_000_000_000_000;

/// Largest magnitude, in millionths, that a rate may have: rates up to ten
/// million.  Far beyond the usual `[0, 1]`, but small enough that charging
/// the largest representable amount cannot overflow.
pub const RATE_UNIT_CAP: i128 = 10_000_000_000_000;

/// Largest magnitude a mantissa handed to `Dec::new` or `Fee::new` may have.
pub const MANTISSA_CAP: i64 = 100_000_000_000_000;

/// 10 to the `e`.
pub open spec fn pow10(e: nat) -> int
    decreases e,
{
    if e == 0 {
        1
    } else {
        10 * pow10((e - 1) as nat)
    }
}

/// `v` millionths is small enough to stand as an amount or threshold.
pub open spec fn in_amount_range(v: int) -> bool {
    -AMOUNT_UNIT_CAP <= v <= AMOUNT_UNIT_CAP
}

/// `v` millionths is small enough to stand as a rate.
pub open spec fn in_rate_range(v: int) -> bool {
    -RATE_UNIT_CAP <= v <= RATE_UNIT_CAP
}

proof fn lemma_pow10_pos(e: nat)
    ensures
        pow10(e) >= 1,
    decreases e,
{
    if e > 0 {
        lemma_pow10_pos((e - 1) as nat);
    }
}

proof fn lemma_pow10_mono(a: nat, b: nat)
    requires
        a <= b,
    ensures
        1 <= pow10(a) <= pow10(b),
    decreases b,
{
    lemma_pow10_pos(a);
    if a < b {
        lemma_pow10_mono(a, (b - 1) as nat);
        lemma_pow10_pos((b - 1) as nat);
    }
}

/// 10 to the `e`, for the small exponents the constructors need.
fn pow10_i128(e: u32) -> (r: i128)
    requires
        e <= 12,
    ensures
        r == pow10(e as nat),
{
    let mut r: i128 = 1;
    let mut i: u32 = 0;
    while i < e
        invariant
            i <= e,
            e <= 12,
            r == pow10(i as nat),
        decreases e - i,
    {
        proof {
            lemma_pow10_mono(i as nat, 11);
            assert(pow10(11) == 100_000_000_000) by {
                reveal_with_fuel(pow10, 12);
            }
        }
        r = r * 10;
        i = i + 1;
    }
    r
}

/// An exact decimal with six fractional digits, stored as a count of
/// millionths.  `Dec` values carry amounts, tier thresholds and rates.
#[derive(Clone, Copy, Debug, PartialEq, Eq, Structural)]
pub struct Dec {
    units: i128,
}

impl View for Dec {
    type V = int;

    /// The value in millionths.
    closed spec fn view(&self) -> int {
        self.units as int
    }
}

impl Dec {
    /// The decimal `mantissa / 10^scale`, exactly.
    ///
    /// `144999.99` is written `Dec::new(14499999, 2)`.  The mantissa cap and
    /// the six-digit scale keep the value inside the range the fee
    /// calculation can charge without overflowing.
    pub fn new(mantissa: i64, scale: u32) -> (d: Dec)
        requires
            scale <= DEC_SCALE,
            -MANTISSA_CAP <= mantissa <= MANTISSA_CAP,
        ensures
            d@ == mantissa * pow10((DEC_SCALE - scale) as nat),
            in_amount_range(d@),
    {
        let p: i128 = pow10_i128(DEC_SCALE - scale);
        proof {
            lemma_pow10_mono((DEC_SCALE - scale) as nat, 6);
            assert(pow10(6) == 1_000_000) by {
                reveal_with_fuel(pow10, 7);
            }
            assert(-AMOUNT_UNIT_CAP <= mantissa * p <= AMOUNT_UNIT_CAP) by (nonlinear_arith)
                requires
                    -MANTISSA_CAP <= mantissa <= MANTISSA_CAP,
                    1 <= p <= 1_000_000,
                    AMOUNT_UNIT_CAP == 100_000_000_000_000_000_000,
                    MANTISSA_CAP == 100_000_000_000_000,
            ;
        }
        Dec { units: (mantissa as i128) * p }
    }

    /// The value as a count of millionths.
    pub fn units(&self) -> (u: i128)
        ensures
            u as int == self@,
    {
        self.units
    }

    /// The exact product of an amount and a rate, as a `Fee`.
    ///
    /// The rate cap is what the fee arithmetic can absorb; a table never
    /// holds a rate beyond it.
    pub fn times(self, rate: Dec) -> (f: Fee)
        requires
            in_amount_range(self@),
            in_rate_range(rate@),
        ensures
            f@ == self@ * rate@,
    {
        proof {
            assert(-AMOUNT_UNIT_CAP * RATE_UNIT_CAP <= self.units * rate.units
                <= AMOUNT_UNIT_CAP * RATE_UNIT_CAP) by (nonlinear_arith)
                requires
                    -AMOUNT_UNIT_CAP <= self.units <= AMOUNT_UNIT_CAP,
                    -RATE_UNIT_CAP <= rate.units <= RATE_UNIT_CAP,
            ;
        }
        Fee { units: self.units * rate.units }
    }
}

/// An exact decimal with twelve fractional digits, stored as a count of
/// trillionths.  A `Fee` is what a tier table charges on an amount.
#[derive(Clone, Copy, Debug, PartialEq, Eq, Structural)]
pub struct Fee {
    units: i128,
}

impl View for Fee {
    type V = int;

    /// The value in trillionths.
    closed spec fn view(&self) -> int {
        self.units as int
    }
}

impl Fee {
    /// The decimal `mantissa / 10^scale`, exactly.
    ///
    /// `2100.05` is written `Fee::new(210005, 2)`.
    pub fn new(mantissa: i64, scale: u32) -> (f: Fee)
        requires
            scale <= FEE_SCALE,
            -MANTISSA_CAP <= mantissa <= MANTISSA_CAP,
        ensures
            f@ == mantissa * pow10((FEE_SCALE - scale) as nat),
    {
        let p: i128 = pow10_i128(FEE_SCALE - scale);
        proof {
            lemma_pow10_mono((FEE_SCALE - scale) as nat, 12);
            assert(pow10(12) == 1_000_000_000_000) by {
                reveal_with_fuel(pow10, 13);
            }
            assert(-100_000_000_000_000_000_000_000_000 <= mantissa * p
                <= 100_000_000_000_000_000_000_000_000) by (nonlinear_arith)
                requires
                    -MANTISSA_CAP <= mantissa <= MANTISSA_CAP,
                    1 <= p <= 1_000_000_000_000,
                    MANTISSA_CAP == 100_000_000_000_000,
            ;
        }
        Fee { units: (mantissa as i128) * p }
    }

    /// The value as a count of trillionths.
    pub fn units(&self) -> (u: i128)
        ensures
            u as int == self@,
    {
        self.units
    }

    /// A fee from a raw count of trillionths.
    pub(crate) fn from_units(units: i128) -> (f: Fee)
        ensures
            f@ == units as int,
    {
        Fee { units }
    }
}

} // verus!
