//! The expectation of a law, approximated over a finite domain.
use vstd::prelude::*;
use crate::distribution::Distribution;
use crate::ratio::{DistError, Ratio};

verus! {

pub open spec fn fits_i128(v: int) -> bool {
    i128::MIN <= v <= i128::MAX
}

/// The numerator of `x * mass(x)`, over the law's mass denominator.
pub open spec fn term<D: Distribution>(dist: &D, x: i64) -> int {
    x * dist.mass_num(x as int)
}

/// The numerator of `sum of x * mass(x)` over the points of `s`, in order.
pub open spec fn weighted_sum<D: Distribution>(dist: &D, s: Seq<i64>) -> int
    decreases s.len(),
{
    if s.len() == 0 {
        0
    } else {
        weighted_sum(dist, s.drop_last()) + term(dist, s.last())
    }
}

/// Whether each term, and each running total of a left-to-right fold over
/// `s`, fits in an `i128`.
pub open spec fn fold_fits<D: Distribution>(dist: &D, s: Seq<i64>) -> bool {
    forall|k: int|
        0 <= k < s.len() ==> {
            &&& fits_i128(#[trigger] term(dist, s[k]))
            &&& fits_i128(weighted_sum(dist, s.take(k + 1)))
        }
}

/// `sum of x * mass(x)` over `range`, folded from left to right.
///
/// This is a finite approximation of the expectation: it is exact only when
/// `range` covers the support of the law. An empty range gives zero, whatever
/// the law. Over a non-empty range a continuous law gives `NotApplicable`, as
/// it has no exact density; an exact total that leaves the 128-bit range
/// gives `Overflow`.
pub fn calculate_expectation<D: Distribution>(dist: &D, range: &[i64]) -> (r: Result<
    Ratio,
    DistError,
>)
    ensures
        range@.len() == 0 ==> r == Ok::<Ratio, DistError>(Ratio { num: 0, den: 1 }),
        !dist.discrete() && range@.len() > 0 ==> r == Err::<Ratio, DistError>(
            DistError::NotApplicable,
        ),
        dist.discrete() ==> (r is Ok <==> fold_fits(dist, range@)),
        dist.discrete() && !fold_fits(dist, range@) ==> r == Err::<Ratio, DistError>(
            DistError::Overflow,
        ),
        r matches Ok(e) ==> e@ == (
            weighted_sum(dist, range@),
            if range@.len() == 0 {
                1
            } else {
                dist.mass_den()
            },
        ),
{
    if range.len() == 0 {
        return Ok(Ratio { num: 0, den: 1 });
    }
    if !dist.is_discrete() {
        return Err(DistError::NotApplicable);
    }
    let mut total: i128 = 0;
    let mut den: u128 = 1;
    let mut i: usize = 0;
    while i < range.len()
        invariant
            dist.discrete(),
            i <= range@.len(),
            total == weighted_sum(dist, range@.take(i as int)),
            i == 0 ==> den == 1,
            i > 0 ==> den == dist.mass_den(),
            fold_fits(dist, range@.take(i as int)),
        decreases range@.len() - i,
    {
        let x = range[i];
        let m = match dist.mass(x) {
            Ok(m) => m,
            Err(e) => {
                return Err(e);
            },
        };
        proof {
            let s = range@.take(i as int + 1);
            assert(s.drop_last() =~= range@.take(i as int));
            assert(s.last() == x);
            assert(weighted_sum(dist, s) == total + term(dist, x));
        }
        let t = match (x as i128).checked_mul(m.num) {
            Some(t) => t,
            None => {
                proof {
                    assert(!fold_fits(dist, range@)) by {
                        assert(range@[i as int] == x);
                        assert(!fits_i128(term(dist, range@[i as int])));
                    }
                }
                return Err(DistError::Overflow);
            },
        };
        let next = match total.checked_add(t) {
            Some(v) => v,
            None => {
                proof {
                    assert(!fold_fits(dist, range@)) by {
                        assert(!fits_i128(weighted_sum(dist, range@.take(i as int + 1))));
                    }
                }
                return Err(DistError::Overflow);
            },
        };
        proof {
            let s = range@.take(i as int + 1);
            assert forall|k: int| 0 <= k < s.len() implies {
                &&& fits_i128(#[trigger] term(dist, s[k]))
                &&& fits_i128(weighted_sum(dist, s.take(k + 1)))
            } by {
                if k < i {
                    assert(s.take(k + 1) =~= range@.take(i as int).take(k + 1));
                    assert(s[k] == range@.take(i as int)[k]);
                } else {
                    assert(s.take(k + 1) =~= s);
                }
            }
        }
        total = next;
        den = m.den;
        i = i + 1;
    }
    proof {
        assert(range@.take(i as int) =~= range@);
    }
    Ok(Ratio { num: total, den })
}

} // verus!
