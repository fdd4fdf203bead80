use vstd::prelude::*;

use crate::constants::COUNTER_CAP;

verus! {

/// An exact rational number.
///
/// Liveness, reuse and demand are real-valued statistics; this library
/// carries them as exact integer fractions so that every comparison and
/// rounding the tuner performs is itself exact.
#[derive(Clone, Copy, Debug, PartialEq, Eq, Structural)]
pub struct Ratio {
    pub num: i128,
    pub den: i128,
}

/// Smallest integer no smaller than `r`, clamped below at zero.
pub open spec fn spec_ceil_clamped(r: Ratio) -> int
    recommends
        r.den >= 1,
{
    if r.num <= 0 {
        0
    } else {
        (r.num + r.den - 1) as int / r.den as int
    }
}

impl Ratio {
    /// Denominators are positive and small for every value this library
    /// builds: they are window counts, never above the counter cap.
    pub open spec fn wf(self) -> bool {
        1 <= self.den <= COUNTER_CAP + 1
    }

    /// The value `num / den`.
    pub fn new(num: i128, den: i128) -> (r: Ratio)
        requires
            den >= 1,
        ensures
            r == (Ratio { num, den }),
    {
        Ratio { num, den }
    }

    /// The value zero, as `0 / 1`.
    pub fn zero() -> (r: Ratio)
        ensures
            r == (Ratio { num: 0, den: 1 }),
    {
        Ratio { num: 0, den: 1 }
    }

    /// Whether the value is strictly negative.
    pub fn is_negative(&self) -> (b: bool)
        requires
            self.den >= 1,
        ensures
            b == (self.num < 0),
    {
        self.num < 0
    }

    /// Smallest integer no smaller than the value, clamped below at zero.
    pub fn ceil_clamped(&self) -> (c: usize)
        requires
            self.wf(),
            self.num <= COUNTER_CAP * self.den,
        ensures
            c == spec_ceil_clamped(*self),
            c <= COUNTER_CAP,
    {
        if self.num <= 0 {
            0
        } else {
            let q: i128 = (self.num + self.den - 1) / self.den;
            proof {
                lemma_ceil_bound(self.num as int, self.den as int, COUNTER_CAP as int);
            }
            q as usize
        }
    }
}

/// If `num <= cap * den` then the ceiling of `num / den` is at most `cap`.
proof fn lemma_ceil_bound(num: int, den: int, cap: int)
    requires
        1 <= den,
        1 <= num,
        0 <= cap,
        num <= cap * den,
    ensures
        0 <= (num + den - 1) / den <= cap,
{
    assert(num + den - 1 < (cap + 1) * den) by (nonlinear_arith)
        requires
            1 <= den,
            num <= cap * den,
    ;
    assert((num + den - 1) / den < cap + 1) by (nonlinear_arith)
        requires
            1 <= den,
            0 <= num + den - 1,
            num + den - 1 < (cap + 1) * den,
    ;
    assert(0 <= (num + den - 1) / den) by (nonlinear_arith)
        requires
            1 <= den,
            0 <= num + den - 1,
    ;
}

} // verus!
