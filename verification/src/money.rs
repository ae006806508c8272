//! Exact monetary amounts as scaled integers.

use vstd::prelude::*;

verus! {

/// Number of decimal places carried by one `Money` unit.
pub const SCALE: u32 = 8;

/// Units in one whole (10 to the power `SCALE`).
pub const UNITS_PER_WHOLE: i128 = 100_000_000i128;

/// Largest size a single order may have, in units. Any number of orders of at
/// most this size that fit in memory at one price still sum without overflow.
pub const MAX_ORDER_UNITS: i128 = 9_000_000_000_000_000_000i128;

/// A signed fixed-precision decimal: `units` counts hundred-millionths.
/// Arithmetic on it is integer arithmetic, so it never rounds.
#[derive(Clone, Copy, Debug, PartialEq, Eq, Structural, Hash)]
pub struct Money {
    pub units: i128,
}

/// The mantissa of a decimal brought from `scale` decimal places to
/// `SCALE`, one digit at a time and without rounding: `None` where a digit
/// other than zero would have to be dropped.
pub open spec fn rescaled(mantissa: int, scale: nat) -> Option<int>
    decreases (if scale >= 8 { scale - 8 } else { 8 - scale }),
{
    if scale == 8 {
        Some(mantissa)
    } else if scale < 8 {
        rescaled(mantissa * 10, scale + 1)
    } else if mantissa % 10 == 0 {
        rescaled(mantissa / 10, (scale - 1) as nat)
    } else {
        None
    }
}

impl Money {
    /// The amount zero.
    pub fn zero() -> (m: Money)
        ensures
            m.units == 0,
    {
        Money { units: 0i128 }
    }

    /// The amount of `units` hundred-millionths.
    pub fn from_units(units: i128) -> (m: Money)
        ensures
            m.units == units,
    {
        Money { units }
    }

    /// The amount of `whole` whole units.
    pub fn from_whole(whole: i64) -> (m: Money)
        ensures
            m.units == whole * UNITS_PER_WHOLE,
    {
        let w: i128 = whole as i128;
        Money { units: w * UNITS_PER_WHOLE }
    }

    /// The amount that the decimal `mantissa / 10^scale` stands for, or `None`
    /// where it has digits beyond the precision of `Money` or is too large.
    /// Nothing is ever rounded.
    pub fn from_scaled(mantissa: i128, scale: u32) -> (m: Option<Money>)
        ensures
            m.is_some() ==> rescaled(mantissa as int, scale as nat) == Some(m.unwrap().units as int),
            m.is_none() ==> (match rescaled(mantissa as int, scale as nat) {
                Some(u) => u < i128::MIN || u > i128::MAX,
                None => true,
            }),
    {
        let mut units: i128 = mantissa;
        let mut at: u32 = scale;
        while at > SCALE
            invariant
                rescaled(units as int, at as nat) == rescaled(mantissa as int, scale as nat),
            decreases at,
        {
            if units % 10 != 0 {
                return None;
            }
            units = units / 10;
            at = at - 1;
        }
        while at < SCALE
            invariant
                at <= SCALE,
                rescaled(units as int, at as nat) == rescaled(mantissa as int, scale as nat),
            decreases SCALE - at,
        {
            match units.checked_mul(10) {
                Some(more) => {
                    units = more;
                },
                None => {
                    proof {
                        lemma_rescaled_grows(units * 10, (at + 1) as nat);
                    }
                    return None;
                },
            }
            at = at + 1;
        }
        Some(Money { units })
    }

    /// True where the amount is above zero.
    pub fn is_positive(self) -> (b: bool)
        ensures
            b == (self.units > 0),
    {
        self.units > 0i128
    }

    /// The sum, or `None` exactly where it leaves the representable range.
    pub fn checked_add(self, rhs: Money) -> (sum: Option<Money>)
        ensures
            sum.is_some() == (i128::MIN <= self.units + rhs.units <= i128::MAX),
            sum.is_some() ==> sum.unwrap().units == self.units + rhs.units,
    {
        match self.units.checked_add(rhs.units) {
            Some(u) => Some(Money { units: u }),
            None => None,
        }
    }

    /// The difference, or `None` exactly where it leaves the representable range.
    pub fn checked_sub(self, rhs: Money) -> (diff: Option<Money>)
        ensures
            diff.is_some() == (i128::MIN <= self.units - rhs.units <= i128::MAX),
            diff.is_some() ==> diff.unwrap().units == self.units - rhs.units,
    {
        match self.units.checked_sub(rhs.units) {
            Some(u) => Some(Money { units: u }),
            None => None,
        }
    }

    /// The smaller of two amounts.
    pub fn min(self, rhs: Money) -> (m: Money)
        ensures
            m.units == if self.units <= rhs.units { self.units } else { rhs.units },
    {
        if self.units <= rhs.units { self } else { rhs }
    }
}

/// Bringing a mantissa up to `SCALE` places never brings it closer to zero.
proof fn lemma_rescaled_grows(mantissa: int, scale: nat)
    requires
        scale <= 8,
    ensures
        rescaled(mantissa, scale).is_some(),
        mantissa >= 0 ==> rescaled(mantissa, scale).unwrap() >= mantissa,
        mantissa <= 0 ==> rescaled(mantissa, scale).unwrap() <= mantissa,
    decreases 8 - scale,
{
    if scale < 8 {
        lemma_rescaled_grows(mantissa * 10, scale + 1);
    }
}

} // verus!
