//! Angles: degrees to radians, and sine, cosine and tangent by their power
//! series about zero.

use crate::fixed::Fixed;
use vstd::prelude::*;

verus! {

/// Raw units of the number pi.
pub const PI: i64 = 3_141_592_654;

/// The last factor that the series of the sine takes in: its terms go up to
/// the power 17.
pub const SINE_LAST: u32 = 16;

/// The last factor that the series of the cosine takes in: its terms go up to
/// the power 18.
pub const COSINE_LAST: u32 = 17;

/// The nested form of an alternating power series in `x2`, the square of the
/// argument: `1 - x2 / (k (k + 1)) * (1 - x2 / ((k + 2) (k + 3)) * (...))`,
/// with one factor for each of `k`, `k + 2`, ... up to `last`.
pub open spec fn nested_series(x2: Fixed, k: nat, last: nat) -> Fixed
    decreases last + 2 - k,
{
    if k > last {
        Fixed::one_spec()
    } else {
        Fixed::one_spec().sub_spec(
            x2.mul_spec(nested_series(x2, k + 2, last)).div_spec(
                Fixed::from_int_spec((k * (k + 1)) as int),
            ),
        )
    }
}

/// The nested series, summed from the innermost factor outward.
fn series(x2: Fixed, first: u32, last: u32) -> (r: Fixed)
    requires
        first <= last <= 1000,
        (last - first) % 2 == 0,
    ensures
        r == nested_series(x2, first as nat, last as nat),
{
    let one = Fixed::one();
    let mut acc = one;
    let mut k: u32 = last + 2;
    while k > first
        invariant
            first <= k <= last + 2,
            last <= 1000,
            (k - first) % 2 == 0,
            one == Fixed::one_spec(),
            acc == nested_series(x2, k as nat, last as nat),
        decreases k,
    {
        k = k - 2;
        assert(k * (k + 1) <= 1_003_002) by (nonlinear_arith)
            requires
                k <= 1001,
        ;
        let divisor: u32 = k * (k + 1);
        acc = one.sub(x2.mul(acc).div(Fixed::from_int(divisor as i64)));
    }
    acc
}

impl Fixed {
    /// An angle in degrees, in radians: `self * pi / 180`.
    pub open spec fn to_radians_spec(self) -> Fixed {
        self.mul_spec(Fixed::of(PI as int)).div_spec(Fixed::from_int_spec(180))
    }

    /// The series of the sine up to the power 17.
    pub open spec fn sin_spec(self) -> Fixed {
        self.mul_spec(nested_series(self.mul_spec(self), 2, SINE_LAST as nat))
    }

    /// The series of the cosine up to the power 18.
    pub open spec fn cos_spec(self) -> Fixed {
        nested_series(self.mul_spec(self), 1, COSINE_LAST as nat)
    }

    /// The quotient of the two series.
    pub open spec fn tan_spec(self) -> Fixed {
        self.sin_spec().div_spec(self.cos_spec())
    }

    /// An angle in degrees, in radians.
    pub fn to_radians(self) -> (r: Fixed)
        ensures
            r == self.to_radians_spec(),
    {
        self.mul(Fixed::from_raw(PI)).div(Fixed::from_int(180))
    }

    /// The sine of an angle in radians, by its power series about zero; the
    /// series is cut off where its terms fall below one raw unit for angles
    /// up to a right angle.
    pub fn sin(self) -> (r: Fixed)
        ensures
            r == self.sin_spec(),
    {
        self.mul(series(self.mul(self), 2, SINE_LAST))
    }

    /// The cosine of an angle in radians, by its power series about zero.
    pub fn cos(self) -> (r: Fixed)
        ensures
            r == self.cos_spec(),
    {
        series(self.mul(self), 1, COSINE_LAST)
    }

    /// The tangent of an angle in radians: sine over cosine.
    pub fn tan(self) -> (r: Fixed)
        ensures
            r == self.tan_spec(),
    {
        self.sin().div(self.cos())
    }
}

} // verus!
