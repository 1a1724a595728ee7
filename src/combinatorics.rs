//! Binomial coefficients and integer powers.
use vstd::prelude::*;

verus! {

/// `b` raised to the power `e`.
pub open spec fn power(b: int, e: nat) -> int
    decreases e,
{
    if e == 0 {
        1
    } else {
        b * power(b, (e - 1) as nat)
    }
}

/// The number of ways to choose `k` items among `n`, by Pascal's rule.
pub open spec fn binom(n: nat, k: nat) -> nat
    decreases n,
{
    if k == 0 {
        1
    } else if n == 0 {
        0
    } else {
        binom((n - 1) as nat, (k - 1) as nat) + binom((n - 1) as nat, k)
    }
}

/// No subset is larger than the set: `binom(n, k)` is zero for `k > n`.
pub proof fn lemma_binom_zero_above(n: nat, k: nat)
    requires
        k > n,
    ensures
        binom(n, k) == 0,
    decreases n,
{
    if n > 0 {
        lemma_binom_zero_above((n - 1) as nat, (k - 1) as nat);
        lemma_binom_zero_above((n - 1) as nat, k);
    }
}

/// Choosing one item among `n` can be done in `n` ways.
pub proof fn lemma_binom_one(n: nat)
    ensures
        binom(n, 1) == n,
    decreases n,
{
    if n > 0 {
        lemma_binom_one((n - 1) as nat);
        assert(binom(n, 1) == binom((n - 1) as nat, 0) + binom((n - 1) as nat, 1));
    }
}

/// Absorption: `(k + 1) * binom(n + 1, k + 1) == (n + 1) * binom(n, k)`.
pub proof fn lemma_absorption(n: nat, k: nat)
    ensures
        (k + 1) * binom(n + 1, k + 1) == (n + 1) * binom(n, k),
    decreases n,
{
    if k == 0 {
        lemma_binom_one(n + 1);
        let c1 = binom(n + 1, k + 1);
        let c0 = binom(n, k);
        assert(c1 == n + 1 && c0 == 1);
        assert((k + 1) * c1 == (n + 1) * c0) by (nonlinear_arith)
            requires
                k == 0,
                c1 == n + 1,
                c0 == 1,
        ;
    } else if n == 0 {
        lemma_binom_zero_above(0, k);
        lemma_binom_zero_above(0, k + 1);
        assert(binom(1, k + 1) == binom(0, k) + binom(0, k + 1));
        assert((k + 1) * binom(n + 1, k + 1) == (n + 1) * binom(n, k));
    } else {
        let m = (n - 1) as nat;
        lemma_absorption(m, (k - 1) as nat);
        lemma_absorption(m, k);
        let a = binom(n, k);
        let b = binom(n, k + 1);
        let p = binom(m, (k - 1) as nat);
        let q = binom(m, k);
        assert(binom(n + 1, k + 1) == a + b);
        assert(a == p + q);
        assert(k * a == n * p);
        assert((k + 1) * b == n * q);
        assert((k + 1) * (a + b) == (n + 1) * a) by (nonlinear_arith)
            requires
                k * a == n * p,
                (k + 1) * b == n * q,
                a == p + q,
        ;
        assert((k + 1) * binom(n + 1, k + 1) == (n + 1) * binom(n, k));
    }
}

/// One step of the multiplicative rule:
/// `binom(n, k) * (n - k) == binom(n, k + 1) * (k + 1)`.
pub proof fn lemma_binom_step(n: nat, k: nat)
    requires
        k <= n,
    ensures
        binom(n, k) * (n - k) == binom(n, k + 1) * (k + 1),
{
    lemma_absorption(n, k);
    assert(binom(n + 1, k + 1) == binom(n, k) + binom(n, k + 1));
    assert((k + 1) * binom(n + 1, k + 1) == (k + 1) * binom(n, k) + (k + 1) * binom(n, k + 1))
        by (nonlinear_arith)
        requires
            binom(n + 1, k + 1) == binom(n, k) + binom(n, k + 1),
    ;
    assert((n + 1) * binom(n, k) - (k + 1) * binom(n, k) == (n - k) * binom(n, k))
        by (nonlinear_arith)
        requires
            k <= n,
    ;
}

/// A positive base gives a positive power.
pub proof fn lemma_power_positive(b: int, e: nat)
    requires
        b > 0,
    ensures
        power(b, e) > 0,
    decreases e,
{
    if e > 0 {
        lemma_power_positive(b, (e - 1) as nat);
        assert(b * power(b, (e - 1) as nat) > 0) by (nonlinear_arith)
            requires
                b > 0,
                power(b, (e - 1) as nat) > 0,
        ;
    }
}

/// Powers are monotone in a non-negative base.
pub proof fn lemma_power_base_mono(a: int, b: int, e: nat)
    requires
        0 <= a <= b,
    ensures
        0 <= power(a, e) <= power(b, e),
    decreases e,
{
    if e > 0 {
        lemma_power_base_mono(a, b, (e - 1) as nat);
        let pa = power(a, (e - 1) as nat);
        let pb = power(b, (e - 1) as nat);
        assert(0 <= a * pa <= b * pb) by (nonlinear_arith)
            requires
                0 <= a <= b,
                0 <= pa <= pb,
        ;
    }
}

/// Powers of a base of at least one grow with the exponent.
pub proof fn lemma_power_exp_mono(b: int, e1: nat, e2: nat)
    requires
        b >= 1,
        e1 <= e2,
    ensures
        1 <= power(b, e1) <= power(b, e2),
    decreases e2,
{
    lemma_power_positive(b, e1);
    if e1 < e2 {
        lemma_power_exp_mono(b, e1, (e2 - 1) as nat);
        let p = power(b, (e2 - 1) as nat);
        assert(p <= b * p) by (nonlinear_arith)
            requires
                b >= 1,
                p >= 1,
        ;
    }
}

/// The binomial coefficient `binom(n, k)`, by the multiplicative rule
/// `c = c * (n - i) / (i + 1)`, which never forms a factorial.
///
/// The intermediate products are `binom(n, j) * j` for `1 <= j <= k`; the
/// caller bounds them.
pub fn binomial_coefficient(n: u32, k: u32) -> (r: u128)
    requires
        forall|j: nat| 1 <= j <= k ==> #[trigger] binom(n as nat, j) * j <= u128::MAX,
    ensures
        r == binom(n as nat, k as nat),
{
    if k > n {
        proof {
            lemma_binom_zero_above(n as nat, k as nat);
        }
        return 0;
    }
    let mut c: u128 = 1;
    let mut i: u32 = 0;
    while i < k
        invariant
            i <= k <= n,
            forall|j: nat| 1 <= j <= k ==> #[trigger] binom(n as nat, j) * j <= u128::MAX,
            c == binom(n as nat, i as nat),
        decreases k - i,
    {
        proof {
            lemma_binom_step(n as nat, i as nat);
            assert(binom(n as nat, (i + 1) as nat) * ((i + 1) as nat) <= u128::MAX);
        }
        let prod: u128 = c * ((n - i) as u128);
        proof {
            let next = binom(n as nat, (i + 1) as nat);
            assert(prod == next * (i + 1));
            assert((prod as int) / ((i + 1) as int) == next) by (nonlinear_arith)
                requires
                    prod == next * (i + 1),
                    i + 1 > 0,
            ;
        }
        c = prod / ((i + 1) as u128);
        i = i + 1;
    }
    c
}

/// `b` raised to the power `e`, when that power fits in 128 bits.
pub fn power_u128(b: u128, e: u32) -> (r: u128)
    requires
        power(b as int, e as nat) <= u128::MAX,
    ensures
        r == power(b as int, e as nat),
{
    let mut r: u128 = 1;
    let mut i: u32 = 0;
    while i < e
        invariant
            i <= e,
            power(b as int, e as nat) <= u128::MAX,
            r == power(b as int, i as nat),
        decreases e - i,
    {
        proof {
            if b >= 1 {
                lemma_power_exp_mono(b as int, (i + 1) as nat, e as nat);
            } else {
                assert(power(b as int, (i + 1) as nat) == 0);
            }
        }
        r = b * r;
        i = i + 1;
    }
    r
}

/// The term of index `x` in the expansion of `(a + b)^n`:
/// `binom(n, x) * a^x * b^(n - x)`, zero for `x > n`.
pub open spec fn expansion_term(n: nat, a: int, b: int, x: nat) -> int {
    if x <= n {
        binom(n, x) * power(a, x) * power(b, (n - x) as nat)
    } else {
        0
    }
}

/// The sum of the terms of index below `m` in the expansion of `(a + b)^n`.
pub open spec fn expansion_sum(n: nat, a: int, b: int, m: nat) -> int
    decreases m,
{
    if m == 0 {
        0
    } else {
        expansion_sum(n, a, b, (m - 1) as nat) + expansion_term(n, a, b, (m - 1) as nat)
    }
}

/// Pascal's rule carried to the terms of the expansion.
proof fn lemma_term_step(n: nat, a: int, b: int, x: nat)
    ensures
        expansion_term(n + 1, a, b, x) == (if x > 0 {
            a * expansion_term(n, a, b, (x - 1) as nat)
        } else {
            0
        }) + b * expansion_term(n, a, b, x),
{
    if x == 0 {
        assert(binom(n + 1, 0) == 1 && binom(n, 0) == 1);
        assert(power(b, (n + 1) as nat) == b * power(b, n));
        assert(power(a, 0) == 1);
        let pb = power(b, n);
        assert(1 * 1 * (b * pb) == b * (1 * 1 * pb)) by (nonlinear_arith);
    } else if x > n + 1 {
        lemma_binom_zero_above(n + 1, x);
        lemma_binom_zero_above(n, x);
        lemma_binom_zero_above(n, (x - 1) as nat);
    } else {
        let y = (x - 1) as nat;
        let c1 = binom(n, y);
        let c2 = binom(n, x);
        assert(binom(n + 1, x) == c1 + c2);
        let ay = power(a, y);
        assert(power(a, x) == a * ay);
        let r = (n + 1 - x) as nat;
        let br = power(b, r);
        assert(r == n - y);
        if x == n + 1 {
            lemma_binom_zero_above(n, x);
            assert(expansion_term(n, a, b, x) == 0);
            assert(expansion_term(n + 1, a, b, x) == (c1 + c2) * (a * ay) * br);
            assert(expansion_term(n, a, b, y) == c1 * ay * br);
            assert((c1 + 0) * (a * ay) * br == a * (c1 * ay * br)) by (nonlinear_arith);
            assert(b * 0 == 0);
        } else {
            let r2 = (n - x) as nat;
            assert(br == b * power(b, r2));
            let br2 = power(b, r2);
            assert(expansion_term(n + 1, a, b, x) == (c1 + c2) * (a * ay) * br);
            assert(expansion_term(n, a, b, y) == c1 * ay * br);
            assert(expansion_term(n, a, b, x) == c2 * (a * ay) * br2);
            assert((c1 + c2) * (a * ay) * br == a * (c1 * ay * br) + b * (c2 * (a * ay) * br2))
                by (nonlinear_arith)
                requires
                    br == b * br2,
            ;
        }
    }
}

/// Summing Pascal's rule: the partial sums of the expansion of
/// `(a + b)^(n + 1)` in terms of those of `(a + b)^n`.
proof fn lemma_sum_step(n: nat, a: int, b: int, m: nat)
    requires
        m >= 1,
    ensures
        expansion_sum(n + 1, a, b, m) == a * expansion_sum(n, a, b, (m - 1) as nat) + b
            * expansion_sum(n, a, b, m),
    decreases m,
{
    lemma_term_step(n, a, b, (m - 1) as nat);
    if m == 1 {
        assert(expansion_sum(n + 1, a, b, 0) == 0);
        assert(expansion_sum(n, a, b, 0) == 0);
        assert(expansion_sum(n + 1, a, b, 1) == expansion_term(n + 1, a, b, 0));
        assert(expansion_sum(n, a, b, 1) == expansion_term(n, a, b, 0));
        assert(a * 0 == 0);
    } else {
        let k = (m - 1) as nat;
        let j = (m - 2) as nat;
        lemma_sum_step(n, a, b, k);
        let sj = expansion_sum(n, a, b, j);
        let sk = expansion_sum(n, a, b, k);
        let tj = expansion_term(n, a, b, j);
        let tk = expansion_term(n, a, b, k);
        assert(sk == sj + tj);
        assert(expansion_sum(n, a, b, m) == sk + tk);
        assert(a * sj + b * sk + (a * tj + b * tk) == a * sk + b * (sk + tk)) by (nonlinear_arith)
            requires
                sk == sj + tj,
        ;
    }
}

/// The binomial theorem: the terms of the expansion of `(a + b)^n` add up
/// to `(a + b)^n`.
pub proof fn lemma_binomial_theorem(n: nat, a: int, b: int)
    ensures
        expansion_sum(n, a, b, n + 1) == power(a + b, n),
    decreases n,
{
    if n == 0 {
        assert(expansion_sum(0, a, b, 0) == 0);
        assert(expansion_sum(0, a, b, 1) == expansion_term(0, a, b, 0));
        assert(binom(0, 0) == 1);
    } else {
        let m = (n - 1) as nat;
        lemma_binomial_theorem(m, a, b);
        lemma_sum_step(m, a, b, n + 1);
        lemma_binom_zero_above(m, n);
        assert(expansion_term(m, a, b, n) == 0);
        assert(expansion_sum(m, a, b, n + 1) == expansion_sum(m, a, b, n));
        let p = power(a + b, m);
        assert(a * p + b * p == (a + b) * p) by (nonlinear_arith);
    }
}

/// With non-negative `a` and `b`, every term of the expansion is non-negative.
pub proof fn lemma_term_nonneg(n: nat, a: int, b: int, x: nat)
    requires
        a >= 0,
        b >= 0,
    ensures
        expansion_term(n, a, b, x) >= 0,
{
    if x <= n {
        lemma_power_base_mono(a, a, x);
        lemma_power_base_mono(b, b, (n - x) as nat);
        let c = binom(n, x) as int;
        let pa = power(a, x);
        let pb = power(b, (n - x) as nat);
        assert(c * pa * pb >= 0) by (nonlinear_arith)
            requires
                c >= 0,
                pa >= 0,
                pb >= 0,
        ;
    }
}

/// With non-negative `a` and `b`, a term of the expansion is at most any
/// partial sum that contains it.
pub proof fn lemma_term_le_sum(n: nat, a: int, b: int, x: nat, m: nat)
    requires
        a >= 0,
        b >= 0,
        x < m,
    ensures
        expansion_term(n, a, b, x) <= expansion_sum(n, a, b, m),
    decreases m,
{
    let k = (m - 1) as nat;
    if x < k {
        lemma_term_le_sum(n, a, b, x, k);
        lemma_term_nonneg(n, a, b, k);
    } else {
        lemma_expansion_sum_nonneg(n, a, b, k);
    }
}

proof fn lemma_expansion_sum_nonneg(n: nat, a: int, b: int, m: nat)
    requires
        a >= 0,
        b >= 0,
    ensures
        expansion_sum(n, a, b, m) >= 0,
    decreases m,
{
    if m > 0 {
        lemma_expansion_sum_nonneg(n, a, b, (m - 1) as nat);
        lemma_term_nonneg(n, a, b, (m - 1) as nat);
    }
}

/// `b^e` when it is at most `limit`, and `None` when it exceeds it.
pub fn checked_power(b: u128, e: u32, limit: u128) -> (r: Option<u128>)
    ensures
        power(b as int, e as nat) <= limit ==> r == Some(power(b as int, e as nat) as u128),
        power(b as int, e as nat) > limit ==> r is None,
{
    if b == 0 {
        let v: u128 = if e == 0 { 1 } else { 0 };
        proof {
            if e > 0 {
                assert(power(0, e as nat) == 0 * power(0, (e - 1) as nat));
            }
        }
        return if v <= limit { Some(v) } else { None };
    }
    let mut acc: u128 = 1;
    let mut i: u32 = 0;
    if acc > limit {
        proof {
            lemma_power_exp_mono(b as int, 0, e as nat);
        }
        return None;
    }
    while i < e
        invariant
            i <= e,
            b >= 1,
            acc == power(b as int, i as nat),
            acc <= limit,
        decreases e - i,
    {
        if acc > limit / b {
            proof {
                assert(acc * b > limit) by (nonlinear_arith)
                    requires
                        acc > limit / b,
                        b > 0,
                ;
                assert(power(b as int, (i + 1) as nat) == b * power(b as int, i as nat));
                lemma_power_exp_mono(b as int, (i + 1) as nat, e as nat);
            }
            return None;
        }
        proof {
            assert(acc * b <= limit) by (nonlinear_arith)
                requires
                    acc <= limit / b,
                    b > 0,
            ;
        }
        acc = acc * b;
        i = i + 1;
    }
    Some(acc)
}

/// `binom(n, n) == 1`.
pub proof fn lemma_binom_diagonal(n: nat)
    ensures
        binom(n, n) == 1,
    decreases n,
{
    if n > 0 {
        lemma_binom_diagonal((n - 1) as nat);
        lemma_binom_zero_above((n - 1) as nat, n);
    }
}

/// With `a, b >= 1`, no coefficient exceeds `(a + b)^n`.
pub proof fn lemma_binom_le_power(n: nat, a: int, b: int, x: nat)
    requires
        a >= 1,
        b >= 1,
        x <= n,
    ensures
        binom(n, x) <= power(a + b, n),
{
    lemma_term_le_sum(n, a, b, x, n + 1);
    lemma_binomial_theorem(n, a, b);
    lemma_power_exp_mono(a, 0, x);
    lemma_power_exp_mono(b, 0, (n - x) as nat);
    let c = binom(n, x) as int;
    let pa = power(a, x);
    let pb = power(b, (n - x) as nat);
    assert(c <= c * pa * pb) by (nonlinear_arith)
        requires
            c >= 0,
            pa >= 1,
            pb >= 1,
    ;
}

/// The sum of `x * expansion_term(n, a, b, x)` for `x < m`.
pub open spec fn moment_sum(n: nat, a: int, b: int, m: nat) -> int
    decreases m,
{
    if m == 0 {
        0
    } else {
        moment_sum(n, a, b, (m - 1) as nat) + (m - 1) * expansion_term(n, a, b, (m - 1) as nat)
    }
}

proof fn lemma_moment_term(n: nat, a: int, b: int, x: nat)
    requires
        n >= 1,
        x >= 1,
    ensures
        x * expansion_term(n, a, b, x) == n * a * expansion_term(
            (n - 1) as nat,
            a,
            b,
            (x - 1) as nat,
        ),
{
    let m = (n - 1) as nat;
    let y = (x - 1) as nat;
    if x > n {
        assert(expansion_term(n, a, b, x) == 0);
        assert(expansion_term(m, a, b, y) == 0);
        assert(x * 0 == 0 && n * a * 0 == 0) by (nonlinear_arith);
    } else {
        lemma_absorption(m, y);
        let c = binom(n, x) as int;
        let c1 = binom(m, y) as int;
        assert(x * c == n * c1);
        let ay = power(a, y);
        assert(power(a, x) == a * ay);
        let br = power(b, (n - x) as nat);
        assert((n - x) as nat == (m - y) as nat);
        assert(x * (c * (a * ay) * br) == n * a * (c1 * ay * br)) by (nonlinear_arith)
            requires
                x * c == n * c1,
        ;
    }
}

/// Absorption summed: `moment_sum(n, a, b, m + 1) == n * a * expansion_sum(n - 1, a, b, m)`.
proof fn lemma_moment_sum(n: nat, a: int, b: int, m: nat)
    requires
        n >= 1,
    ensures
        moment_sum(n, a, b, m + 1) == n * a * expansion_sum((n - 1) as nat, a, b, m),
    decreases m,
{
    if m == 0 {
        assert(moment_sum(n, a, b, 0) == 0);
        assert(expansion_sum((n - 1) as nat, a, b, 0) == 0);
        assert(0 * expansion_term(n, a, b, 0) == 0);
        assert(n * a * 0 == 0) by (nonlinear_arith);
    } else {
        lemma_moment_sum(n, a, b, (m - 1) as nat);
        lemma_moment_term(n, a, b, m);
        let e = expansion_sum((n - 1) as nat, a, b, (m - 1) as nat);
        let t = expansion_term((n - 1) as nat, a, b, (m - 1) as nat);
        assert(n * a * e + n * a * t == n * a * (e + t)) by (nonlinear_arith);
    }
}

/// The first moment of the expansion:
/// `sum of x * binom(n, x) * a^x * b^(n - x) == n * a * (a + b)^(n - 1)`.
pub proof fn lemma_first_moment(n: nat, a: int, b: int)
    requires
        n >= 1,
    ensures
        moment_sum(n, a, b, n + 1) == n * a * power(a + b, (n - 1) as nat),
{
    lemma_moment_sum(n, a, b, n);
    lemma_binomial_theorem((n - 1) as nat, a, b);
}

/// With non-negative `a` and `b`, the partial sums of the expansion grow with `m`.
pub proof fn lemma_expansion_sum_mono(n: nat, a: int, b: int, m1: nat, m2: nat)
    requires
        a >= 0,
        b >= 0,
        m1 <= m2,
    ensures
        0 <= expansion_sum(n, a, b, m1) <= expansion_sum(n, a, b, m2),
    decreases m2,
{
    lemma_expansion_sum_nonneg(n, a, b, m1);
    if m1 < m2 {
        lemma_expansion_sum_mono(n, a, b, m1, (m2 - 1) as nat);
        lemma_term_nonneg(n, a, b, (m2 - 1) as nat);
    }
}

/// With non-negative `a` and `b`, for `m <= n + 1`:
/// `0 <= moment_sum(n, a, b, m) <= n * expansion_sum(n, a, b, m)`.
pub proof fn lemma_moment_bounds(n: nat, a: int, b: int, m: nat)
    requires
        a >= 0,
        b >= 0,
        m <= n + 1,
    ensures
        0 <= moment_sum(n, a, b, m) <= n * expansion_sum(n, a, b, m),
    decreases m,
{
    if m > 0 {
        let k = (m - 1) as nat;
        lemma_moment_bounds(n, a, b, k);
        lemma_term_nonneg(n, a, b, k);
        let t = expansion_term(n, a, b, k);
        let ms = moment_sum(n, a, b, k);
        let es = expansion_sum(n, a, b, k);
        assert(0 <= ms + k * t <= n * (es + t)) by (nonlinear_arith)
            requires
                0 <= ms <= n * es,
                t >= 0,
                k <= n,
        ;
    }
}

} // verus!
