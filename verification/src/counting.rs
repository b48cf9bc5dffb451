//! Factorials, binomial coefficients and the number of ordered selections.

use vstd::arithmetic::div_mod::lemma_div_multiples_vanish;
use vstd::prelude::*;

verus! {

/// `n!`, the product of the numbers from 1 to `n`.
pub open spec fn factorial(n: nat) -> nat
    decreases n,
{
    if n == 0 {
        1
    } else {
        n * factorial((n - 1) as nat)
    }
}

/// The number of ways to choose `k` things out of `n`, by Pascal's rule.
pub open spec fn binomial(n: nat, k: nat) -> nat
    decreases n,
{
    if k == 0 {
        1
    } else if n == 0 {
        0
    } else {
        binomial((n - 1) as nat, (k - 1) as nat) + binomial((n - 1) as nat, k)
    }
}

/// The number of ways to choose `k` things out of `n` and put them in a row:
/// `n * (n - 1) * ... * (n - k + 1)`.
pub open spec fn arrangement_count(n: nat, k: nat) -> nat
    decreases k,
{
    if k == 0 {
        1
    } else if n == 0 {
        0
    } else {
        n * arrangement_count((n - 1) as nat, (k - 1) as nat)
    }
}

/// A factorial is never zero.
pub proof fn lemma_factorial_positive(n: nat)
    ensures
        factorial(n) >= 1,
    decreases n,
{
    if n > 0 {
        lemma_factorial_positive((n - 1) as nat);
        assert(n * factorial((n - 1) as nat) >= 1) by (nonlinear_arith)
            requires
                n >= 1,
                factorial((n - 1) as nat) >= 1,
        ;
    }
}

/// Nothing can be chosen in more places than there are things.
pub proof fn lemma_arrangement_count_zero(n: nat, k: nat)
    requires
        k > n,
    ensures
        arrangement_count(n, k) == 0,
    decreases k,
{
    if n > 0 {
        lemma_arrangement_count_zero((n - 1) as nat, (k - 1) as nat);
        assert(arrangement_count(n, k) == n * arrangement_count((n - 1) as nat, (k - 1) as nat));
        assert(n * 0 == 0);
    }
}

/// Where there are things enough, there is a way to choose.
pub proof fn lemma_arrangement_count_positive(n: nat, k: nat)
    requires
        k <= n,
    ensures
        arrangement_count(n, k) >= 1,
    decreases k,
{
    if k > 0 {
        lemma_arrangement_count_positive((n - 1) as nat, (k - 1) as nat);
        assert(n * arrangement_count((n - 1) as nat, (k - 1) as nat) >= 1) by (nonlinear_arith)
            requires
                n >= 1,
                arrangement_count((n - 1) as nat, (k - 1) as nat) >= 1,
        ;
    }
}

/// With `k` places taken out of `n` things, `n - k` things are left for the
/// next place.
pub proof fn lemma_arrangement_count_step(n: nat, k: nat)
    requires
        k < n,
    ensures
        arrangement_count(n, k + 1) == arrangement_count(n, k) * (n - k),
    decreases k,
{
    if k == 0 {
        assert(arrangement_count((n - 1) as nat, 0) == 1);
        assert(arrangement_count(n, 1) == n * arrangement_count((n - 1) as nat, 0));
        assert(arrangement_count(n, 0) == 1);
        assert(n * 1 == 1 * (n - 0)) by (nonlinear_arith);
    } else {
        let m = (n - 1) as nat;
        let j = (k - 1) as nat;
        lemma_arrangement_count_step(m, j);
        let a = arrangement_count(m, j);
        assert(arrangement_count(m, k) == a * (m - j));
        assert(arrangement_count(n, k + 1) == n * arrangement_count(m, k));
        assert(arrangement_count(n, k) == n * a);
        assert(n * (a * (m - j)) == (n * a) * (n - k)) by (nonlinear_arith)
            requires
                m - j == n - k,
        ;
        assert(arrangement_count(n, k + 1) == arrangement_count(n, k) * (n - k));
    }
}

/// The number of ordered selections is `n! / (n - k)!`.
pub proof fn lemma_arrangement_count_is_quotient(n: nat, k: nat)
    requires
        k <= n,
    ensures
        arrangement_count(n, k) * factorial((n - k) as nat) == factorial(n),
        arrangement_count(n, k) == factorial(n) / factorial((n - k) as nat),
    decreases k,
{
    let rest = factorial((n - k) as nat);
    lemma_factorial_positive((n - k) as nat);
    if k > 0 {
        let m = (n - 1) as nat;
        let j = (k - 1) as nat;
        lemma_arrangement_count_is_quotient(m, j);
        let a = arrangement_count(m, j);
        assert(m - j == n - k);
        assert(a * rest == factorial(m));
        assert((n * a) * rest == n * factorial(m)) by (nonlinear_arith)
            requires
                a * rest == factorial(m),
        ;
        assert(arrangement_count(n, k) == n * a);
        assert(factorial(n) == n * factorial(m));
    } else {
        assert(arrangement_count(n, 0) == 1);
        assert(1 * rest == rest);
    }
    lemma_div_multiples_vanish(arrangement_count(n, k) as int, rest as int);
    assert(arrangement_count(n, k) * rest == rest * arrangement_count(n, k)) by (nonlinear_arith);
}

/// There is no way to choose more things than there are.
pub proof fn lemma_binomial_zero(n: nat, k: nat)
    requires
        k > n,
    ensures
        binomial(n, k) == 0,
    decreases n,
{
    if n > 0 {
        lemma_binomial_zero((n - 1) as nat, (k - 1) as nat);
        lemma_binomial_zero((n - 1) as nat, k);
    }
}

/// Each choice of `k` things out of `n` can be put in a row in `k!` ways.
pub proof fn lemma_binomial_times_factorial(n: nat, k: nat)
    ensures
        binomial(n, k) * factorial(k) == arrangement_count(n, k),
    decreases n,
{
    if k == 0 {
    } else if n == 0 {
        assert(0 * factorial(k) == 0);
    } else {
        let m = (n - 1) as nat;
        let j = (k - 1) as nat;
        lemma_binomial_times_factorial(m, j);
        lemma_binomial_times_factorial(m, k);
        let a = arrangement_count(m, j);
        if k <= m {
            lemma_arrangement_count_step(m, j);
            assert(arrangement_count(m, k) == a * (m - j));
        } else {
            lemma_arrangement_count_zero(m, k);
            if j > m {
                lemma_arrangement_count_zero(m, j);
            }
            assert(a * (m - j) == 0) by (nonlinear_arith)
                requires
                    m == j || a == 0,
            ;
        }
        assert(arrangement_count(m, k) == a * (m - j));
        let b1 = binomial(m, j);
        let b2 = binomial(m, k);
        let fj = factorial(j);
        assert(factorial(k) == k * fj);
        assert((b1 + b2) * (k * fj) == k * (b1 * fj) + b2 * (k * fj)) by (nonlinear_arith);
        assert(k * a + a * (m - j) == n * a) by (nonlinear_arith)
            requires
                k + (m - j) == n,
        ;
    }
}

/// The number of ordered selections of `places` out of `things`, where it
/// fits a `usize`.
pub fn permutation_count(things: usize, places: usize) -> (count: Option<usize>)
    ensures
        match count {
            Some(c) => c == arrangement_count(things as nat, places as nat),
            None => arrangement_count(things as nat, places as nat) > usize::MAX,
        },
{
    if places > things {
        proof {
            lemma_arrangement_count_zero(things as nat, places as nat);
        }
        return Some(0);
    }
    let mut count: usize = 1;
    let mut taken: usize = 0;
    while taken < places
        invariant
            taken <= places <= things,
            count == arrangement_count(things as nat, taken as nat),
        decreases places - taken,
    {
        proof {
            lemma_arrangement_count_step(things as nat, taken as nat);
        }
        match count.checked_mul(things - taken) {
            Some(more) => {
                count = more;
            },
            None => {
                proof {
                    lemma_arrangement_count_grows(things as nat, (taken + 1) as nat, places as nat);
                }
                return None;
            },
        }
        taken += 1;
    }
    Some(count)
}

/// Taking more places, while things are left, does not give fewer selections.
pub proof fn lemma_arrangement_count_grows(n: nat, j: nat, k: nat)
    requires
        j <= k <= n,
    ensures
        arrangement_count(n, j) <= arrangement_count(n, k),
    decreases k - j,
{
    if j < k {
        lemma_arrangement_count_step(n, j);
        lemma_arrangement_count_grows(n, j + 1, k);
        assert(arrangement_count(n, j) <= arrangement_count(n, j) * (n - j)) by (nonlinear_arith)
            requires
                n - j >= 1,
                arrangement_count(n, j) >= 0,
        ;
    }
}

} // verus!
