//! The capability set shared by every law.
use vstd::prelude::*;
use crate::ratio::{DistError, Ratio};

verus! {

/// A probability law with closed-form moments, queried at integer points.
///
/// Values are fractions `(numerator, denominator)`. A discrete law gives
/// every mass over one common denominator, `mass_den`.
pub trait Distribution {
    spec fn mean_spec(&self) -> (int, int);

    spec fn variance_spec(&self) -> (int, int);

    /// Whether the law is discrete, so that `mass` answers.
    spec fn discrete(&self) -> bool;

    /// The numerator of the mass at `x`, over `mass_den`.
    spec fn mass_num(&self, x: int) -> int;

    spec fn mass_den(&self) -> int;

    fn mean(&self) -> (r: Ratio)
        ensures
            r@ == self.mean_spec(),
    ;

    fn variance(&self) -> (r: Ratio)
        ensures
            r@ == self.variance_spec(),
    ;

    fn is_discrete(&self) -> (r: bool)
        ensures
            r == self.discrete(),
    ;

    /// The probability of the outcome `x`; `NotApplicable` for a continuous law.
    fn mass(&self, x: i64) -> (r: Result<Ratio, DistError>)
        ensures
            self.discrete() ==> (r matches Ok(m) && m@ == (self.mass_num(x as int), self.mass_den())),
            !self.discrete() ==> r == Err::<Ratio, DistError>(DistError::NotApplicable),
    ;
}

/// The numerator of the total mass of the points `0 .. m - 1`, over `mass_den`.
pub open spec fn mass_sum<D: Distribution>(dist: &D, m: nat) -> int
    decreases m,
{
    if m == 0 {
        0
    } else {
        mass_sum(dist, (m - 1) as nat) + dist.mass_num(m - 1)
    }
}

} // verus!
