//! The Binomial law: the number of successes in `n` independent trials.
use vstd::prelude::*;
use crate::combinatorics::{
    binom, binomial_coefficient, checked_power, expansion_sum, expansion_term,
    lemma_binom_diagonal, lemma_binom_le_power, lemma_binomial_theorem, lemma_expansion_sum_mono,
    lemma_first_moment, lemma_moment_bounds, lemma_power_base_mono, lemma_power_exp_mono,
    lemma_term_le_sum, lemma_term_nonneg, moment_sum, power, power_u128,
};
use crate::expectation::{fits_i128, fold_fits, term, weighted_sum};
use crate::distribution::{mass_sum, Distribution};
use crate::ratio::{DistError, Probability, Ratio};

verus! {

/// Whether a law with `n` trials and a success probability of denominator
/// `den` can be computed exactly in 128-bit integers: `n * den^n` and
/// `den^n` fit in an `i128`. Every mass numerator is at most `den^n`, and the
/// numerator of the expectation over `0 ..= n` at most `n * den^n`.
pub open spec fn representable(n: nat, den: nat) -> bool {
    &&& power(den as int, n) <= i128::MAX
    &&& n * power(den as int, n) <= i128::MAX
}

/// The number of successes among `n` independent trials of probability `p`.
pub struct Binomial {
    n: u32,
    p: Probability,
}

impl Binomial {
    #[verifier::type_invariant]
    spec fn inv(self) -> bool {
        &&& self.p.valid()
        &&& representable(self.n as nat, self.p.den as nat)
    }

    pub closed spec fn trials_spec(self) -> nat {
        self.n as nat
    }

    pub closed spec fn prob(self) -> Probability {
        self.p
    }

    /// Fails with `InvalidParameter` when `p` is not a probability, and with
    /// `Overflow` when the masses of the law cannot be computed exactly.
    pub fn new(n: u32, p: Probability) -> (r: Result<Binomial, DistError>)
        ensures
            r is Ok <==> p.valid() && representable(n as nat, p.den as nat),
            r matches Ok(b) ==> b.trials_spec() == n && b.prob() == p,
            !p.valid() ==> r == Err::<Binomial, DistError>(DistError::InvalidParameter),
            p.valid() && !representable(n as nat, p.den as nat) ==> r == Err::<Binomial, DistError>(
                DistError::Overflow,
            ),
    {
        if !p.is_valid() {
            return Err(DistError::InvalidParameter);
        }
        let limit: u128 = i128::MAX as u128;
        let dn = match checked_power(p.den as u128, n, limit) {
            Some(v) => v,
            None => {
                return Err(DistError::Overflow);
            },
        };
        proof {
            lemma_power_exp_mono(p.den as int, 0, n as nat);
        }
        if n > 0 && dn > limit / (n as u128) {
            proof {
                assert(n * dn > limit) by (nonlinear_arith)
                    requires
                        dn > (limit as int) / (n as int),
                        n > 0,
                ;
            }
            return Err(DistError::Overflow);
        }
        proof {
            if n > 0 {
                assert(n * dn <= limit) by (nonlinear_arith)
                    requires
                        dn <= (limit as int) / (n as int),
                        n > 0,
                ;
            }
        }
        Ok(Binomial { n, p })
    }

    pub fn trials(&self) -> (r: u32)
        ensures
            r == self.trials_spec(),
            representable(r as nat, self.prob().den as nat),
    {
        proof {
            use_type_invariant(self);
        }
        self.n
    }

    pub fn success_probability(&self) -> (r: Probability)
        ensures
            r == self.prob(),
            r.valid(),
    {
        proof {
            use_type_invariant(self);
        }
        self.p
    }

    /// The same value as `mass`. A discrete law has no true density; this
    /// name is offered for callers that query every law by density.
    pub fn density(&self, x: i64) -> (r: Ratio)
        ensures
            r@ == (self.mass_num(x as int), self.mass_den()),
    {
        self.mass_at(x)
    }

    fn mass_at(&self, x: i64) -> (r: Ratio)
        ensures
            r@ == (self.mass_num(x as int), self.mass_den()),
    {
        proof {
            use_type_invariant(self);
        }
        let n = self.n;
        let a = self.p.num as u128;
        let d = self.p.den as u128;
        proof {
            lemma_power_exp_mono(d as int, 0, n as nat);
        }
        let dn = power_u128(d, n);
        if x < 0 || x > n as i64 {
            return Ratio { num: 0, den: dn };
        }
        let k = x as u32;
        if a == 0 {
            proof {
                let c = binom(n as nat, k as nat) as int;
                let pb = power(d as int, (n - k) as nat);
                if k > 0 {
                    assert(power(0, k as nat) == 0 * power(0, (k - 1) as nat));
                    assert(c * 0 * pb == 0) by (nonlinear_arith);
                } else {
                    assert(binom(n as nat, 0) == 1);
                    assert(power(0, 0) == 1);
                    assert(1 * 1 * pb == pb) by (nonlinear_arith);
                }
            }
            let num: u128 = if k == 0 { dn } else { 0 };
            return Ratio { num: num as i128, den: dn };
        }
        if a == d {
            proof {
                let c = binom(n as nat, k as nat) as int;
                let pa = power(d as int, k as nat);
                if k < n {
                    assert(power(0, (n - k) as nat) == 0 * power(0, (n - k - 1) as nat));
                    assert(c * pa * 0 == 0) by (nonlinear_arith);
                } else {
                    lemma_binom_diagonal(n as nat);
                    assert(power(0, 0) == 1);
                    assert(1 * pa * 1 == pa) by (nonlinear_arith);
                }
            }
            let num: u128 = if k == n { dn } else { 0 };
            return Ratio { num: num as i128, den: dn };
        }
        proof {
            let b = (d - a) as int;
            assert forall|j: nat| 1 <= j <= k implies #[trigger] binom(n as nat, j) * j
                <= u128::MAX by {
                lemma_binom_le_power(n as nat, a as int, b, j);
                assert(a + b == d);
                let c = binom(n as nat, j) as int;
                let pd = power(d as int, n as nat);
                assert(pd == power(self.p.den as int, n as nat));
                assert(c * j <= u128::MAX) by (nonlinear_arith)
                    requires
                        c <= pd,
                        c >= 0,
                        j <= n,
                        n * pd <= i128::MAX,
                ;
            }
            lemma_power_base_mono(a as int, d as int, k as nat);
            lemma_power_base_mono((d - a) as int, d as int, (n - k) as nat);
            lemma_power_exp_mono(d as int, k as nat, n as nat);
            lemma_power_exp_mono(d as int, (n - k) as nat, n as nat);
            lemma_power_exp_mono(a as int, 0, k as nat);
            lemma_power_exp_mono(b, 0, (n - k) as nat);
        }
        let c = binomial_coefficient(n, k);
        let ak = power_u128(a, k);
        let bk = power_u128(d - a, n - k);
        proof {
            let b = (d - a) as int;
            lemma_term_le_sum(n as nat, a as int, b, k as nat, (n + 1) as nat);
            lemma_binomial_theorem(n as nat, a as int, b);
            assert(a + b == d);
            assert(c * ak <= c * ak * bk) by (nonlinear_arith)
                requires
                    c >= 0,
                    ak >= 1,
                    bk >= 1,
            ;
            assert(c * ak * bk <= i128::MAX);
        }
        let num = c * ak * bk;
        Ratio { num: num as i128, den: dn }
    }
}

impl Binomial {
    /// The masses of the outcomes `0 ..= n` add up to one.
    pub proof fn lemma_masses_sum_to_one(self)
        ensures
            mass_sum(&self, self.trials_spec() + 1) == self.mass_den(),
    {
        let n = self.trials_spec();
        let a = self.prob().num as int;
        let b = self.prob().den - self.prob().num;
        self.lemma_mass_sum_is_expansion(n + 1);
        lemma_binomial_theorem(n, a, b);
        assert(a + b == self.prob().den);
    }

    proof fn lemma_mass_sum_is_expansion(self, m: nat)
        requires
            m <= self.trials_spec() + 1,
        ensures
            mass_sum(&self, m) == expansion_sum(
                self.trials_spec(),
                self.prob().num as int,
                self.prob().den - self.prob().num,
                m,
            ),
        decreases m,
    {
        if m > 0 {
            self.lemma_mass_sum_is_expansion((m - 1) as nat);
        }
    }
}

impl Binomial {
    /// Over the domain `0, 1, ..., n`, the exact expectation fold stays
    /// within `i128` and gives the mean `n * p`: its numerator over `den^n`
    /// equals `n * a / den` where `p = a / den`.
    pub proof fn lemma_expectation_is_mean(self, domain: Seq<i64>)
        requires
            self.prob().valid(),
            representable(self.trials_spec(), self.prob().den as nat),
            domain.len() == self.trials_spec() + 1,
            forall|i: int| 0 <= i < domain.len() ==> domain[i] == i,
        ensures
            fold_fits(&self, domain),
            weighted_sum(&self, domain) * self.prob().den == self.trials_spec() * self.prob().num
                * self.mass_den(),
    {
        let n = self.trials_spec();
        let a = self.prob().num as int;
        let d = self.prob().den as int;
        let b = d - a;
        lemma_binomial_theorem(n, a, b);
        assert(a + b == d);
        assert forall|k: int| 0 <= k < domain.len() implies {
            &&& fits_i128(#[trigger] term(&self, domain[k]))
            &&& fits_i128(weighted_sum(&self, domain.take(k + 1)))
        } by {
            self.lemma_weighted_prefix(domain, (k + 1) as nat);
            lemma_moment_bounds(n, a, b, (k + 1) as nat);
            lemma_moment_bounds(n, a, b, k as nat);
            lemma_expansion_sum_mono(n, a, b, (k + 1) as nat, n + 1);
            let es = expansion_sum(n, a, b, (k + 1) as nat);
            let pd = power(d, n);
            assert(n * es <= n * pd) by (nonlinear_arith)
                requires
                    0 <= es <= pd,
            ;
            let t = expansion_term(n, a, b, k as nat);
            lemma_term_nonneg(n, a, b, k as nat);
            assert(k * t >= 0) by (nonlinear_arith)
                requires
                    k >= 0,
                    t >= 0,
            ;
            assert(0 <= k <= n);
            assert(domain[k] == k);
            assert(self.mass_num(k) == t);
            assert(term(&self, domain[k]) == k * t);
            let ms0 = moment_sum(n, a, b, k as nat);
            let ms1 = moment_sum(n, a, b, (k + 1) as nat);
            assert(ms1 == ms0 + k * t);
            assert(n * pd <= i128::MAX);
            assert(0 <= ms1 <= i128::MAX);
            assert(0 <= k * t <= ms1);
        }
        self.lemma_weighted_prefix(domain, n + 1);
        assert(domain.take((n + 1) as int) =~= domain);
        if n >= 1 {
            lemma_first_moment(n, a, b);
            let q = power(d, (n - 1) as nat);
            assert(power(d, n) == d * q);
            let w = weighted_sum(&self, domain);
            assert(w == n * a * q);
            assert(w * d == n * a * (d * q)) by (nonlinear_arith)
                requires
                    w == n * a * q,
            ;
            assert(self.mass_den() == d * q);
            let md = self.mass_den();
            assert(w * d == n * a * md) by (nonlinear_arith)
                requires
                    w * d == n * a * (d * q),
                    md == d * q,
            ;
        } else {
            assert(moment_sum(0, a, b, 0) == 0);
            assert(moment_sum(0, a, b, 1) == 0 + 0 * expansion_term(0, a, b, 0));
            assert(weighted_sum(&self, domain) == 0);
            let md = self.mass_den();
            assert(0 * d == n * a * md) by (nonlinear_arith)
                requires
                    n == 0,
            ;
        }
    }

    /// The fold over the first `m` points of `0, 1, ..., n` is the partial
    /// first moment of the expansion.
    proof fn lemma_weighted_prefix(self, domain: Seq<i64>, m: nat)
        requires
            m <= domain.len(),
            domain.len() == self.trials_spec() + 1,
            forall|i: int| 0 <= i < domain.len() ==> domain[i] == i,
        ensures
            weighted_sum(&self, domain.take(m as int)) == moment_sum(
                self.trials_spec(),
                self.prob().num as int,
                self.prob().den - self.prob().num,
                m,
            ),
        decreases m,
    {
        if m > 0 {
            self.lemma_weighted_prefix(domain, (m - 1) as nat);
            let s = domain.take(m as int);
            assert(s.drop_last() =~= domain.take(m - 1));
            assert(s.last() == m - 1);
        } else {
            assert(domain.take(0).len() == 0);
        }
    }
}

impl Distribution for Binomial {
    /// `n * p`.
    open spec fn mean_spec(&self) -> (int, int) {
        (self.trials_spec() * self.prob().num, self.prob().den as int)
    }

    /// `n * p * (1 - p)`.
    open spec fn variance_spec(&self) -> (int, int) {
        let p = self.prob();
        (self.trials_spec() * p.num * (p.den - p.num), p.den * p.den)
    }

    open spec fn discrete(&self) -> bool {
        true
    }

    /// `binom(n, x) * a^x * (d - a)^(n - x)` over `d^n`, where `p = a / d`,
    /// for `0 <= x <= n`; zero elsewhere.
    open spec fn mass_num(&self, x: int) -> int {
        let n = self.trials_spec();
        let p = self.prob();
        if 0 <= x <= n {
            binom(n, x as nat) * power(p.num as int, x as nat) * power(
                p.den - p.num,
                (n - x) as nat,
            )
        } else {
            0
        }
    }

    open spec fn mass_den(&self) -> int {
        power(self.prob().den as int, self.trials_spec())
    }

    fn mean(&self) -> (r: Ratio) {
        let n = self.n as u64;
        let a = self.p.num as u64;
        proof {
            assert(n * a <= 0xffff_ffff_ffff_ffff) by (nonlinear_arith)
                requires
                    n <= 0xffff_ffff,
                    a <= 0xffff_ffff,
            ;
        }
        Ratio { num: (n * a) as i128, den: self.p.den as u128 }
    }

    fn variance(&self) -> (r: Ratio) {
        proof {
            use_type_invariant(self);
        }
        let n = self.n as u128;
        let a = self.p.num as u128;
        let d = self.p.den as u128;
        proof {
            assert(n * a <= 0xffff_ffff_ffff_ffff) by (nonlinear_arith)
                requires
                    n <= 0xffff_ffff,
                    a <= 0xffff_ffff,
            ;
            assert(n * a * (d - a) <= 0xffff_ffff_ffff_ffff_ffff_ffff) by (nonlinear_arith)
                requires
                    n * a <= 0xffff_ffff_ffff_ffff,
                    a <= d,
                    d <= 0xffff_ffff,
            ;
            assert(d * d <= 0xffff_ffff_ffff_ffff) by (nonlinear_arith)
                requires
                    d <= 0xffff_ffff,
            ;
        }
        Ratio { num: (n * a * (d - a)) as i128, den: d * d }
    }

    fn is_discrete(&self) -> (r: bool) {
        true
    }

    fn mass(&self, x: i64) -> (r: Result<Ratio, DistError>) {
        Ok(self.mass_at(x))
    }
}

} // verus!
