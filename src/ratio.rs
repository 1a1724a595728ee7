//! Exact rational numbers, probabilities and the error taxonomy.
use vstd::prelude::*;

verus! {

/// Why a construction or a query failed.
#[derive(Clone, Copy, Debug, PartialEq, Eq, Structural)]
pub enum DistError {
    /// A parameter lies outside its domain (a non-positive standard
    /// deviation, a probability outside `[0, 1]`, a zero denominator).
    InvalidParameter,
    /// The query has no meaning for this kind of law (a mass of a
    /// continuous law).
    NotApplicable,
    /// An exact value does not fit the 128-bit integers it is computed in.
    Overflow,
}

/// The rational number `num / den`. It is kept as given: `2/4` and `1/2` are
/// different values of this type that stand for the same number.
#[derive(Clone, Copy, Debug, PartialEq, Eq, Structural)]
pub struct Ratio {
    pub num: i128,
    pub den: u128,
}

impl View for Ratio {
    type V = (int, int);

    open spec fn view(&self) -> (int, int) {
        (self.num as int, self.den as int)
    }
}

impl Ratio {
    /// A fraction is a number when its denominator is not zero.
    pub open spec fn valid(self) -> bool {
        self.den > 0
    }

    pub fn new(num: i128, den: u128) -> (r: Ratio)
        ensures
            r@ == (num as int, den as int),
    {
        Ratio { num, den }
    }

    /// The whole number `v`.
    pub fn from_integer(v: i64) -> (r: Ratio)
        ensures
            r@ == (v as int, 1int),
    {
        Ratio { num: v as i128, den: 1 }
    }
}

/// The probability `num / den`: valid when `0 < den` and `num <= den`.
#[derive(Clone, Copy, Debug, PartialEq, Eq, Structural)]
pub struct Probability {
    pub num: u32,
    pub den: u32,
}

impl Probability {
    pub open spec fn valid(self) -> bool {
        self.den > 0 && self.num <= self.den
    }

    pub fn new(num: u32, den: u32) -> (r: Probability)
        ensures
            r.num == num,
            r.den == den,
    {
        Probability { num, den }
    }

    pub fn is_valid(&self) -> (r: bool)
        ensures
            r == self.valid(),
    {
        self.den > 0 && self.num <= self.den
    }
}

} // verus!
