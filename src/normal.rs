//! The Normal law, with exact rational parameters.
//!
//! Its density involves `exp` and `sqrt` and has no exact rational value, so
//! it is not evaluated here; the moments and the refusal of `mass` are.
use vstd::prelude::*;
use crate::distribution::Distribution;
use crate::ratio::{DistError, Ratio};

verus! {

/// Whether `sigma` can be squared exactly in 128-bit integers.
pub open spec fn squarable(sigma: Ratio) -> bool {
    sigma.num <= i64::MAX && sigma.den <= u64::MAX
}

/// The Normal law of mean `mu` and standard deviation `sigma > 0`.
pub struct Normal {
    mu: Ratio,
    sigma: Ratio,
}

impl Normal {
    #[verifier::type_invariant]
    spec fn inv(self) -> bool {
        &&& self.mu.valid()
        &&& self.sigma.valid()
        &&& self.sigma.num > 0
        &&& squarable(self.sigma)
    }

    pub closed spec fn mu(self) -> Ratio {
        self.mu
    }

    pub closed spec fn sigma(self) -> Ratio {
        self.sigma
    }

    /// Fails with `InvalidParameter` when a denominator is zero or
    /// `sigma <= 0`, and with `Overflow` when `sigma` cannot be squared exactly.
    pub fn new(mu: Ratio, sigma: Ratio) -> (r: Result<Normal, DistError>)
        ensures
            r is Ok <==> mu.valid() && sigma.valid() && sigma.num > 0 && squarable(sigma),
            r matches Ok(d) ==> d.mu() == mu && d.sigma() == sigma,
            !(mu.valid() && sigma.valid() && sigma.num > 0) ==> r == Err::<Normal, DistError>(
                DistError::InvalidParameter,
            ),
            mu.valid() && sigma.valid() && sigma.num > 0 && !squarable(sigma) ==> r == Err::<
                Normal,
                DistError,
            >(DistError::Overflow),
    {
        if mu.den == 0 || sigma.den == 0 || sigma.num <= 0 {
            Err(DistError::InvalidParameter)
        } else if sigma.num > i64::MAX as i128 || sigma.den > u64::MAX as u128 {
            Err(DistError::Overflow)
        } else {
            Ok(Normal { mu, sigma })
        }
    }

    pub fn standard_deviation(&self) -> (r: Ratio)
        ensures
            r == self.sigma(),
    {
        self.sigma
    }
}

impl Distribution for Normal {
    /// `mu`.
    open spec fn mean_spec(&self) -> (int, int) {
        self.mu()@
    }

    /// `sigma^2`.
    open spec fn variance_spec(&self) -> (int, int) {
        let s = self.sigma();
        (s.num * s.num, s.den * s.den)
    }

    open spec fn discrete(&self) -> bool {
        false
    }

    /// A continuous law has no mass; this value is never returned.
    open spec fn mass_num(&self, x: int) -> int {
        0
    }

    open spec fn mass_den(&self) -> int {
        1
    }

    fn mean(&self) -> (r: Ratio) {
        self.mu
    }

    fn variance(&self) -> (r: Ratio) {
        proof {
            use_type_invariant(self);
        }
        let n = self.sigma.num;
        let d = self.sigma.den;
        proof {
            assert(n * n <= 0x7fff_ffff_ffff_ffff * 0x7fff_ffff_ffff_ffff) by (nonlinear_arith)
                requires
                    0 < n <= 0x7fff_ffff_ffff_ffff,
            ;
            assert(d * d <= 0xffff_ffff_ffff_ffff * 0xffff_ffff_ffff_ffff) by (nonlinear_arith)
                requires
                    0 < d <= 0xffff_ffff_ffff_ffff,
            ;
        }
        Ratio { num: n * n, den: d * d }
    }

    fn is_discrete(&self) -> (r: bool) {
        false
    }

    fn mass(&self, x: i64) -> (r: Result<Ratio, DistError>) {
        Err(DistError::NotApplicable)
    }
}

} // verus!
