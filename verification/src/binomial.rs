//! Binomial coefficients: a Pascal-triangle specification, the identities the
//! power-set generator needs, and the iterative multiplicative computation
//! used to size each cardinality level.

use vstd::prelude::*;

verus! {

/// C(n, k), defined by Pascal's rule; 0 when k > n.
pub open spec fn binom(n: nat, k: nat) -> nat
    decreases n,
{
    if k == 0 {
        1
    } else if k > n {
        0
    } else {
        binom((n - 1) as nat, (k - 1) as nat) + binom((n - 1) as nat, k)
    }
}

/// 2 to the power n.
pub open spec fn two_pow(n: nat) -> nat
    decreases n,
{
    if n == 0 {
        1
    } else {
        2 * two_pow((n - 1) as nat)
    }
}

/// C(n, n) == 1.
pub proof fn lemma_binom_diag(n: nat)
    ensures
        binom(n, n) == 1,
    decreases n,
{
    if n > 0 {
        lemma_binom_diag((n - 1) as nat);
        assert(binom((n - 1) as nat, n) == 0);
    }
}

/// C(n, 1) == n.
pub proof fn lemma_binom_one(n: nat)
    ensures
        binom(n, 1) == n,
    decreases n,
{
    if n > 0 {
        lemma_binom_one((n - 1) as nat);
        assert(binom((n - 1) as nat, 0) == 1);
    }
}

/// The absorption identity: (k+1) * C(n, k+1) == (n-k) * C(n, k) for k < n.
pub proof fn lemma_binom_absorb(n: nat, k: nat)
    requires
        k < n,
    ensures
        (k + 1) * binom(n, (k + 1) as nat) == (n - k) * binom(n, k),
    decreases n,
{
    if k == 0 {
        lemma_binom_one(n);
        assert((k + 1) * binom(n, (k + 1) as nat) == (n - k) * binom(n, k))
            by (nonlinear_arith)
            requires
                k == 0,
                binom(n, 1) == n,
                binom(n, 0) == 1,
        {}
    } else {
        let m = (n - 1) as nat;
        assert(binom(n, (k + 1) as nat) == binom(m, k) + binom(m, (k + 1) as nat));
        assert(binom(n, k) == binom(m, (k - 1) as nat) + binom(m, k));
        if k < m {
            lemma_binom_absorb(m, k);
            assert((k + 1) * binom(m, (k + 1) as nat) == (m - k) * binom(m, k));
        } else {
            // k == m, so binom(m, k+1) == 0 and (m - k) == 0
            assert(binom(m, (k + 1) as nat) == 0);
            assert((k + 1) * binom(m, (k + 1) as nat) == (m - k) * binom(m, k))
                by (nonlinear_arith)
                requires
                    binom(m, (k + 1) as nat) == 0,
                    m == k,
            {}
        }
        lemma_binom_absorb(m, (k - 1) as nat);
        assert(k * binom(m, k) == (m - (k - 1)) * binom(m, (k - 1) as nat));
        assert((k + 1) * binom(n, (k + 1) as nat) == n * binom(m, k)) by (nonlinear_arith)
            requires
                binom(n, (k + 1) as nat) == binom(m, k) + binom(m, (k + 1) as nat),
                (k + 1) * binom(m, (k + 1) as nat) == (m - k) * binom(m, k),
                m == n - 1,
                k < n,
        {}
        assert((n - k) * binom(n, k) == n * binom(m, k)) by (nonlinear_arith)
            requires
                binom(n, k) == binom(m, (k - 1) as nat) + binom(m, k),
                k * binom(m, k) == (m - (k - 1)) * binom(m, (k - 1) as nat),
                m == n - 1,
                0 < k < n,
        {}
    }
}

/// Every binomial coefficient is bounded by the corresponding power of two.
pub proof fn lemma_binom_le_two_pow(n: nat, k: nat)
    ensures
        binom(n, k) <= two_pow(n),
    decreases n,
{
    if k == 0 || k > n {
        lemma_two_pow_pos(n);
    } else {
        lemma_binom_le_two_pow((n - 1) as nat, (k - 1) as nat);
        lemma_binom_le_two_pow((n - 1) as nat, k);
    }
}

/// Powers of two are positive.
pub proof fn lemma_two_pow_pos(n: nat)
    ensures
        two_pow(n) >= 1,
    decreases n,
{
    if n > 0 {
        lemma_two_pow_pos((n - 1) as nat);
    }
}

/// Sum of the binomial coefficients C(n, 0) .. C(n, k-1).
pub open spec fn binom_sum(n: nat, k: nat) -> nat
    decreases k,
{
    if k == 0 {
        0
    } else {
        binom_sum(n, (k - 1) as nat) + binom(n, (k - 1) as nat)
    }
}

/// Splitting a partial row sum one row up by Pascal's rule.
pub proof fn lemma_binom_sum_split(n: nat, k: nat)
    ensures
        binom_sum((n + 1) as nat, (k + 1) as nat) == binom_sum(n, k) + binom_sum(
            n,
            (k + 1) as nat,
        ),
    decreases k,
{
    if k == 0 {
        assert(binom_sum((n + 1) as nat, 1) == binom_sum((n + 1) as nat, 0) + binom(
            (n + 1) as nat,
            0,
        ));
        assert(binom_sum(n, 1) == binom_sum(n, 0) + binom(n, 0));
    } else {
        lemma_binom_sum_split(n, (k - 1) as nat);
        assert(binom((n + 1) as nat, k) == binom(n, (k - 1) as nat) + binom(n, k));
        assert(binom_sum(n, (k + 1) as nat) == binom_sum(n, k) + binom(n, k));
        assert(binom_sum(n, k) == binom_sum(n, (k - 1) as nat) + binom(n, (k - 1) as nat));
    }
}

/// A full row of Pascal's triangle sums to a power of two.
pub proof fn lemma_binom_row_sum(n: nat)
    ensures
        binom_sum(n, (n + 1) as nat) == two_pow(n),
    decreases n,
{
    if n == 0 {
        assert(binom_sum(0, 1) == binom_sum(0, 0) + binom(0, 0));
    } else {
        let m = (n - 1) as nat;
        lemma_binom_row_sum(m);
        lemma_binom_sum_split(m, n);
        // binom_sum(n, n + 1) == binom_sum(m, n) + binom_sum(m, n + 1)
        assert(binom_sum(m, n) == two_pow(m));
        assert(binom_sum(m, (n + 1) as nat) == binom_sum(m, n) + binom(m, n));
        assert(binom(m, n) == 0);
    }
}

/// C(n, k) by the multiplicative formula, the product over v of
/// (n - v) / (v + 1), computed iteratively in integer arithmetic; each
/// partial product is itself a binomial coefficient, so every division is
/// exact. Returns 0 when k > n, and 1 when k == 0 or k == n.
pub fn binomial_approx(n: usize, k: usize) -> (r: usize)
    requires
        forall|i: int| 0 <= i < k && k < n ==> #[trigger] binom(n as nat, i as nat) * (n - i) <= usize::MAX,
    ensures
        r == binom(n as nat, k as nat),
{
    if n < k {
        return 0;
    }
    if k == 0 || k == n {
        proof {
            lemma_binom_diag(n as nat);
        }
        return 1;
    }
    let mut acc: usize = 1;
    let mut v: usize = 0;
    while v < k
        invariant
            v <= k,
            k < n,
            acc == binom(n as nat, v as nat),
            forall|i: int| 0 <= i < k ==> #[trigger] binom(n as nat, i as nat) * (n - i) <= usize::MAX,
        decreases k - v,
    {
        proof {
            lemma_binom_absorb(n as nat, v as nat);
            assert(acc * (n - v) == (v + 1) * binom(n as nat, (v + 1) as nat));
            assert(((v + 1) * binom(n as nat, (v + 1) as nat)) / (v + 1)
                == binom(n as nat, (v + 1) as nat)) by (nonlinear_arith)
                requires
                    v + 1 >= 1,
            {}
        }
        acc = (acc * (n - v)) / (v + 1);
        v += 1;
    }
    acc
}

} // verus!
