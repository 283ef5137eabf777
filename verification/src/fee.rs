//! The fee: a percentage of the subtotal, rounded to whole cents.

use crate::decimal::Decimal;
use vstd::prelude::*;

verus! {

/// A subtotal times a percentage, both in millionths, counts the fee in
/// units of which this many make one cent.
pub const RAW_PER_CENT: u128 = 1_000_000_000_000;

/// A fee, held as a count of cents.
#[derive(Clone, Copy, Debug, PartialEq, Eq, Structural)]
pub struct Fee {
    pub cents: u128,
}

impl View for Fee {
    type V = nat;

    /// The fee in cents.
    open spec fn view(&self) -> nat {
        self.cents as nat
    }
}

impl DeepView for Fee {
    type V = nat;

    open spec fn deep_view(&self) -> nat {
        self@
    }
}

/// How many whole units are nearest to `raw`; a half counts as a whole.
pub open spec fn rounded(raw: nat, unit: nat) -> nat {
    (2 * raw + unit) / (2 * unit)
}

/// The fee in cents on a subtotal at a percentage, both in millionths:
/// `subtotal × percent / 100`, rounded to the nearest cent, halves up.
pub open spec fn fee_cents(subtotal: nat, percent: nat) -> nat {
    rounded(subtotal * percent, RAW_PER_CENT as nat)
}

/// `rounded` is the nearest count of units, and the larger of two that are
/// equally near: it is off by half a unit at most, and by less from above.
pub proof fn lemma_rounded_is_nearest(raw: nat, unit: nat)
    requires
        unit > 0,
    ensures
        2 * rounded(raw, unit) * unit - unit <= 2 * raw < 2 * rounded(raw, unit) * unit + unit,
{
    let n = (2 * raw + unit) as int;
    let d = (2 * unit) as int;
    assert(n == d * (n / d) + n % d && 0 <= n % d < d) by (nonlinear_arith)
        requires
            d > 0,
    ;
    assert(2 * rounded(raw, unit) * unit == d * (n / d)) by (nonlinear_arith)
        requires
            rounded(raw, unit) == n / d,
            d == 2 * unit,
    ;
}

/// Rounding a whole count of units gives that count: to round what is
/// rounded changes nothing.
pub proof fn lemma_rounded_whole(count: nat, unit: nat)
    requires
        unit > 0,
    ensures
        rounded(count * unit, unit) == count,
{
    let n = (2 * (count * unit) + unit) as int;
    let d = (2 * unit) as int;
    assert(n == d * count + unit) by (nonlinear_arith)
        requires
            n == 2 * (count * unit) + unit,
            d == 2 * unit,
    ;
    assert(n / d == count) by (nonlinear_arith)
        requires
            n == d * count + unit,
            0 <= unit < d,
            d > 0,
    ;
}

/// No fee is owed on nothing, nor at no percentage.
pub proof fn lemma_fee_cents_zero(subtotal: nat, percent: nat)
    requires
        subtotal == 0 || percent == 0,
    ensures
        fee_cents(subtotal, percent) == 0,
{
    assert(subtotal * percent == 0) by (nonlinear_arith)
        requires
            subtotal == 0 || percent == 0,
    ;
    assert(RAW_PER_CENT == 1_000_000_000_000);
    assert(1_000_000_000_000int / 2_000_000_000_000int == 0);
}

/// Rounds a raw fee to cents: to the nearest cent, a half cent up.
pub fn round_to_2(raw: u128) -> (fee: Fee)
    ensures
        fee@ == rounded(raw as nat, RAW_PER_CENT as nat),
{
    let whole: u128 = raw / RAW_PER_CENT;
    let part: u128 = raw % RAW_PER_CENT;
    let cents: u128 = if part >= RAW_PER_CENT / 2 {
        whole + 1
    } else {
        whole
    };
    assert(cents == (2 * raw + 1_000_000_000_000) / 2_000_000_000_000);
    Fee { cents }
}

/// Computes the fee on `subtotal` at `percent` per cent.
pub fn compute_fee(subtotal: Decimal, percent: Decimal) -> (fee: Fee)
    ensures
        fee@ == fee_cents(subtotal@, percent@),
{
    assert(subtotal.micros * percent.micros <= u128::MAX) by (nonlinear_arith)
        requires
            subtotal.micros <= u64::MAX,
            percent.micros <= u64::MAX,
    ;
    round_to_2(subtotal.micros as u128 * percent.micros as u128)
}

impl Fee {
    /// The fee of `cents` cents.
    pub fn from_cents(cents: u128) -> (fee: Fee)
        ensures
            fee@ == cents,
    {
        Fee { cents }
    }

    /// The fee in cents.
    pub fn cents(&self) -> (c: u128)
        ensures
            c == self@,
    {
        self.cents
    }
}

} // verus!
