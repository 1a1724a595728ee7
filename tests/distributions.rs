use mlrs::bernoulli::Bernoulli;
use mlrs::binomial::Binomial;
use mlrs::combinatorics::{binomial_coefficient, power_u128};
use mlrs::distribution::Distribution;
use mlrs::expectation::calculate_expectation;
use mlrs::normal::Normal;
use mlrs::ratio::{DistError, Probability, Ratio};

fn prob(num: u32, den: u32) -> Probability {
    Probability::new(num, den)
}

fn frac(num: i128, den: u128) -> Ratio {
    Ratio::new(num, den)
}

fn same_value(a: Ratio, b: Ratio) -> bool {
    a.num * (b.den as i128) == b.num * (a.den as i128)
}

#[test]
fn coefficient_small_values() {
    assert_eq!(binomial_coefficient(10, 0), 1);
    assert_eq!(binomial_coefficient(10, 3), 120);
    assert_eq!(binomial_coefficient(10, 10), 1);
    assert_eq!(binomial_coefficient(5, 7), 0);
    assert_eq!(binomial_coefficient(0, 0), 1);
}

#[test]
fn coefficient_beyond_factorial_range() {
    // 30! does not fit in 64 bits; the multiplicative rule never forms it.
    assert_eq!(binomial_coefficient(30, 15), 155117520);
    assert_eq!(binomial_coefficient(60, 30), 118264581564861424);
    assert_eq!(binomial_coefficient(13, 6), 1716);
}

#[test]
fn power_values() {
    assert_eq!(power_u128(10, 10), 10_000_000_000);
    assert_eq!(power_u128(2, 0), 1);
    assert_eq!(power_u128(0, 3), 0);
    assert_eq!(power_u128(9, 10), 3486784401);
}

#[test]
fn normal_moments() {
    let n = Normal::new(frac(0, 1), frac(1, 1)).unwrap();
    assert_eq!(n.mean(), frac(0, 1));
    assert_eq!(n.variance(), frac(1, 1));
    let m = Normal::new(frac(-5, 2), frac(3, 2)).unwrap();
    assert_eq!(m.mean(), frac(-5, 2));
    assert_eq!(m.variance(), frac(9, 4));
    assert_eq!(m.standard_deviation(), frac(3, 2));
    assert!(!m.is_discrete());
}

#[test]
fn normal_rejects_zero_deviation() {
    assert!(matches!(Normal::new(frac(0, 1), frac(0, 1)), Err(DistError::InvalidParameter)));
}

#[test]
fn normal_rejects_bad_parameters() {
    assert!(matches!(Normal::new(frac(0, 1), frac(-1, 1)), Err(DistError::InvalidParameter)));
    assert!(matches!(Normal::new(frac(0, 1), frac(1, 0)), Err(DistError::InvalidParameter)));
    assert!(matches!(Normal::new(frac(1, 0), frac(1, 1)), Err(DistError::InvalidParameter)));
    assert!(matches!(
        Normal::new(frac(0, 1), frac(i64::MAX as i128 + 1, 1)),
        Err(DistError::Overflow)
    ));
}

#[test]
fn normal_has_no_mass() {
    let n = Normal::new(frac(0, 1), frac(1, 1)).unwrap();
    for x in [-3i64, 0, 1, 7, i64::MIN, i64::MAX] {
        assert_eq!(n.mass(x), Err(DistError::NotApplicable));
    }
}

#[test]
fn bernoulli_moments_and_masses() {
    let b = Bernoulli::new(prob(3, 10)).unwrap();
    assert_eq!(b.mean(), frac(3, 10));
    assert_eq!(b.variance(), frac(21, 100));
    assert_eq!(b.mass(0), Ok(frac(7, 10)));
    assert_eq!(b.mass(1), Ok(frac(3, 10)));
    assert_eq!(b.density(1), frac(3, 10));
    assert_eq!(b.success_probability(), prob(3, 10));
    assert!(b.is_discrete());
}

#[test]
fn bernoulli_masses_sum_to_one() {
    for (num, den) in [(0u32, 1u32), (1, 2), (3, 10), (5, 5), (1, 7)] {
        let b = Bernoulli::new(prob(num, den)).unwrap();
        let m0 = b.mass(0).unwrap();
        let m1 = b.mass(1).unwrap();
        assert_eq!(m0.den, m1.den);
        assert_eq!(m0.num + m1.num, m0.den as i128);
    }
}

#[test]
fn bernoulli_outside_support() {
    let b = Bernoulli::new(prob(1, 2)).unwrap();
    for x in [-1i64, 2, 3, 100] {
        assert_eq!(b.mass(x).unwrap().num, 0);
    }
}

#[test]
fn bernoulli_rejects_bad_probability() {
    assert!(matches!(Bernoulli::new(prob(11, 10)), Err(DistError::InvalidParameter)));
    assert!(matches!(Bernoulli::new(prob(0, 0)), Err(DistError::InvalidParameter)));
}

#[test]
fn binomial_moments() {
    let b = Binomial::new(10, prob(1, 10)).unwrap();
    assert_eq!(b.mean(), frac(10, 10));
    assert_eq!(b.variance(), frac(90, 100));
    assert_eq!(b.trials(), 10);
    assert_eq!(b.success_probability(), prob(1, 10));
}

#[test]
fn binomial_ten_trials_extremes() {
    let b = Binomial::new(10, prob(1, 10)).unwrap();
    // 0.9^10 and 0.1^10, exactly.
    assert_eq!(b.mass(0), Ok(frac(3486784401, 10_000_000_000)));
    assert_eq!(b.mass(10), Ok(frac(1, 10_000_000_000)));
    assert_eq!(b.mass(1), Ok(frac(3874204890, 10_000_000_000)));
    assert_eq!(b.mass(5), Ok(frac(14880348, 10_000_000_000)));
    assert_eq!(b.density(5), frac(14880348, 10_000_000_000));
    assert_eq!(b.mass(-1).unwrap().num, 0);
    assert_eq!(b.mass(11).unwrap().num, 0);
}

#[test]
fn binomial_masses_sum_to_one() {
    for (n, num, den) in [(10u32, 1u32, 10u32), (7, 2, 3), (0, 1, 2), (12, 0, 5), (5, 4, 4)] {
        let b = Binomial::new(n, prob(num, den)).unwrap();
        let mut total: i128 = 0;
        for x in 0..=(n as i64) {
            let m = b.mass(x).unwrap();
            assert_eq!(m.den, (den as u128).pow(n));
            total += m.num;
        }
        assert_eq!(total, (den as i128).pow(n));
    }
}

#[test]
fn binomial_thirty_fair_trials() {
    let b = Binomial::new(30, prob(1, 2)).unwrap();
    let mut total: i128 = 0;
    for x in 0..=30i64 {
        total += b.mass(x).unwrap().num;
    }
    assert_eq!(total, 1i128 << 30);
    assert_eq!(b.mass(15), Ok(frac(155117520, 1 << 30)));
}

#[test]
fn binomial_rejects_bad_parameters() {
    assert!(matches!(Binomial::new(3, prob(3, 2)), Err(DistError::InvalidParameter)));
    assert!(matches!(Binomial::new(3, prob(0, 0)), Err(DistError::InvalidParameter)));
    assert!(matches!(Binomial::new(37, prob(1, 10)), Err(DistError::Overflow)));
    assert!(matches!(Binomial::new(121, prob(1, 2)), Err(DistError::Overflow)));
    assert!(matches!(
        Binomial::new(4, prob(3_000_000_000, 3_000_000_000)),
        Err(DistError::Overflow)
    ));
    assert!(matches!(Binomial::new(200, prob(1, 2)), Err(DistError::Overflow)));
}

#[test]
fn binomial_largest_representable_laws() {
    let b = Binomial::new(36, prob(1, 10)).unwrap();
    assert_eq!(b.mass(0), Ok(frac(9i128.pow(36), 10u128.pow(36))));
    assert_eq!(b.mass(36), Ok(frac(1, 10u128.pow(36))));
    assert_eq!(b.mass(1), Ok(frac(36 * 9i128.pow(35), 10u128.pow(36))));
    let b = Binomial::new(120, prob(1, 2)).unwrap();
    assert_eq!(b.mass(0), Ok(frac(1, 1u128 << 120)));
    assert_eq!(b.mass(2), Ok(frac(7140, 1u128 << 120)));
}

#[test]
fn expectation_over_support_equals_mean_for_largest_laws() {
    for (n, num, den) in [
        (36u32, 1u32, 10u32),
        (120, 1, 2),
        (4, 2_000_000_000, 2_000_000_000),
        (4, 1_999_999_999, 2_000_000_000),
        (0, 1, 3),
        (5, 0, 7),
    ] {
        let b = Binomial::new(n, prob(num, den)).unwrap();
        let domain: Vec<i64> = (0..=n as i64).collect();
        let e = calculate_expectation(&b, &domain).unwrap();
        assert_eq!(e.den, (den as u128).pow(n));
        let mean = b.mean();
        assert_eq!(mean, frac(n as i128 * num as i128, den as u128));
        // e.num / den^n == n * num / den, compared without overflow.
        if n > 0 {
            assert_eq!(e.num, n as i128 * num as i128 * (den as i128).pow(n - 1));
        } else {
            assert_eq!(e.num, 0);
        }
    }
}

#[test]
fn coefficient_with_large_trial_counts() {
    assert_eq!(binomial_coefficient(200, 2), 19900);
    assert_eq!(binomial_coefficient(100, 50), 100891344545564193334812497256);
    assert_eq!(binomial_coefficient(4_000_000_000, 1), 4_000_000_000);
}

#[test]
fn binomial_certain_outcomes() {
    let b = Binomial::new(6, prob(4, 4)).unwrap();
    assert_eq!(b.mass(6), Ok(frac(4096, 4096)));
    assert_eq!(b.mass(5).unwrap().num, 0);
    let b = Binomial::new(6, prob(0, 4)).unwrap();
    assert_eq!(b.mass(0), Ok(frac(4096, 4096)));
    assert_eq!(b.mass(1).unwrap().num, 0);
}

#[test]
fn expectation_of_bernoulli() {
    let b = Bernoulli::new(prob(3, 10)).unwrap();
    let e = calculate_expectation(&b, &[0, 1]).unwrap();
    assert_eq!(e, frac(3, 10));
    let e = calculate_expectation(&b, &[-1, 0, 1, 2]).unwrap();
    assert_eq!(e, frac(3, 10));
}

#[test]
fn expectation_of_binomial_matches_mean() {
    let b = Binomial::new(10, prob(1, 10)).unwrap();
    let domain: Vec<i64> = (0..=10).collect();
    let e = calculate_expectation(&b, &domain).unwrap();
    assert!(same_value(e, b.mean()));
    assert_eq!(e.den, 10_000_000_000);
    let b = Binomial::new(30, prob(1, 2)).unwrap();
    let domain: Vec<i64> = (-10..=40).collect();
    let e = calculate_expectation(&b, &domain).unwrap();
    assert!(same_value(e, frac(15, 1)));
}

#[test]
fn expectation_over_empty_domain_is_zero() {
    let b = Binomial::new(4, prob(1, 3)).unwrap();
    assert_eq!(calculate_expectation(&b, &[]), Ok(frac(0, 1)));
}

#[test]
fn expectation_of_normal_is_not_exact() {
    let n = Normal::new(frac(0, 1), frac(1, 1)).unwrap();
    let domain: Vec<i64> = (-10..=10).collect();
    assert_eq!(calculate_expectation(&n, &domain), Err(DistError::NotApplicable));
}

#[test]
fn expectation_of_normal_over_empty_domain_is_zero() {
    let n = Normal::new(frac(0, 1), frac(1, 1)).unwrap();
    assert_eq!(calculate_expectation(&n, &[]), Ok(frac(0, 1)));
}

#[test]
fn ratio_from_integer() {
    assert_eq!(Ratio::from_integer(-4), frac(-4, 1));
    assert!(prob(2, 3).is_valid());
    assert!(!prob(4, 3).is_valid());
}
