//! The Bernoulli law: one trial, outcome 1 with probability `p`.
use vstd::prelude::*;
use crate::distribution::Distribution;
use crate::ratio::{DistError, Probability, Ratio};

verus! {

/// One trial that gives 1 with probability `p` and 0 otherwise.
pub struct Bernoulli {
    p: Probability,
}

impl Bernoulli {
    #[verifier::type_invariant]
    spec fn inv(self) -> bool {
        self.p.valid()
    }

    /// The success probability.
    pub closed spec fn prob(self) -> Probability {
        self.p
    }

    /// Fails with `InvalidParameter` exactly when `p` is not a probability.
    pub fn new(p: Probability) -> (r: Result<Bernoulli, DistError>)
        ensures
            p.valid() <==> r is Ok,
            r matches Ok(b) ==> b.prob() == p,
            !p.valid() ==> r == Err::<Bernoulli, DistError>(DistError::InvalidParameter),
    {
        if p.is_valid() {
            Ok(Bernoulli { p })
        } else {
            Err(DistError::InvalidParameter)
        }
    }

    pub fn success_probability(&self) -> (r: Probability)
        ensures
            r == self.prob(),
            r.valid(),
    {
        proof {
            use_type_invariant(self);
        }
        self.p
    }

    /// The same value as `mass`. A discrete law has no true density; this
    /// name is offered for callers that query every law by density.
    pub fn density(&self, x: i64) -> (r: Ratio)
        ensures
            r@ == (self.mass_num(x as int), self.mass_den()),
    {
        self.mass_at(x)
    }

    fn mass_at(&self, x: i64) -> (r: Ratio)
        ensures
            r@ == (self.mass_num(x as int), self.mass_den()),
    {
        proof {
            use_type_invariant(self);
        }
        let num: u32 = if x == 0 {
            self.p.den - self.p.num
        } else if x == 1 {
            self.p.num
        } else {
            0
        };
        Ratio { num: num as i128, den: self.p.den as u128 }
    }

    /// The two outcomes carry the whole probability: `mass(0) + mass(1) == 1`.
    pub proof fn lemma_masses_sum_to_one(self)
        ensures
            self.mass_num(0) + self.mass_num(1) == self.mass_den(),
    {
    }

    /// Every point outside `{0, 1}` has probability zero.
    pub proof fn lemma_outside_support(self, x: int)
        requires
            x != 0,
            x != 1,
        ensures
            self.mass_num(x) == 0,
    {
    }
}

impl Distribution for Bernoulli {
    /// `p`.
    open spec fn mean_spec(&self) -> (int, int) {
        (self.prob().num as int, self.prob().den as int)
    }

    /// `p * (1 - p)`.
    open spec fn variance_spec(&self) -> (int, int) {
        let p = self.prob();
        (p.num * (p.den - p.num), p.den * p.den)
    }

    open spec fn discrete(&self) -> bool {
        true
    }

    /// `1 - p` at 0, `p` at 1, and 0 elsewhere.
    open spec fn mass_num(&self, x: int) -> int {
        let p = self.prob();
        if x == 0 {
            p.den - p.num
        } else if x == 1 {
            p.num as int
        } else {
            0
        }
    }

    open spec fn mass_den(&self) -> int {
        self.prob().den as int
    }

    fn mean(&self) -> (r: Ratio) {
        Ratio { num: self.p.num as i128, den: self.p.den as u128 }
    }

    fn variance(&self) -> (r: Ratio) {
        proof {
            use_type_invariant(self);
        }
        let n = self.p.num as u64;
        let d = self.p.den as u64;
        proof {
            assert(n * (d - n) <= 0xffff_ffff_ffff_ffff) by (nonlinear_arith)
                requires
                    n <= d,
                    d <= 0xffff_ffff,
            ;
            assert(d * d <= 0xffff_ffff_ffff_ffff) by (nonlinear_arith)
                requires
                    d <= 0xffff_ffff,
            ;
        }
        Ratio { num: (n * (d - n)) as i128, den: (d * d) as u128 }
    }

    fn is_discrete(&self) -> (r: bool) {
        true
    }

    fn mass(&self, x: i64) -> (r: Result<Ratio, DistError>) {
        Ok(self.mass_at(x))
    }
}

} // verus!
