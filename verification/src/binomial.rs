//! Binomial coefficients over the naturals and the identities the
//! hypergeometric distribution rests on.

use vstd::prelude::*;

verus! {

/// The number of ways to pick `k` items out of `n`, by Pascal's rule.
pub open spec fn binomial(n: nat, k: nat) -> nat
    decreases n,
{
    if k == 0 {
        1
    } else if n == 0 {
        0
    } else {
        binomial((n - 1) as nat, (k - 1) as nat) + binomial((n - 1) as nat, k)
    }
}

/// Nothing can be picked more often than there are items.
pub proof fn lemma_binomial_beyond(n: nat, k: nat)
    requires
        k > n,
    ensures
        binomial(n, k) == 0,
    decreases n,
{
    if n > 0 {
        lemma_binomial_beyond((n - 1) as nat, (k - 1) as nat);
        lemma_binomial_beyond((n - 1) as nat, k);
    }
}

/// Within range a binomial coefficient is positive.
pub proof fn lemma_binomial_positive(n: nat, k: nat)
    requires
        k <= n,
    ensures
        binomial(n, k) > 0,
    decreases n,
{
    if k > 0 && n > 0 {
        lemma_binomial_positive((n - 1) as nat, (k - 1) as nat);
    }
}

/// The absorption identity: `(k + 1) * C(n, k + 1) == (n - k) * C(n, k)`.
pub proof fn lemma_binomial_absorb(n: nat, k: nat)
    ensures
        (k + 1) * binomial(n, k + 1) == (n - k) * binomial(n, k),
    decreases n,
{
    let up = binomial(n, k + 1) as int;
    let at = binomial(n, k) as int;
    if n == 0 {
        assert(up == 0);
        assert(k > 0 ==> at == 0);
        assert((k + 1) * up == (n - k) * at) by (nonlinear_arith)
            requires
                up == 0,
                n == 0,
                k > 0 ==> at == 0,
                k >= 0,
        ;
    } else {
        let m = (n - 1) as nat;
        lemma_binomial_absorb(m, k);
        let a = binomial(m, k) as int;
        let b = binomial(m, k + 1) as int;
        assert(up == a + b);
        if k == 0 {
            assert(at == 1);
            assert(a == 1);
            assert((k + 1) * up == (n - k) * at) by (nonlinear_arith)
                requires
                    k == 0,
                    a == 1,
                    at == 1,
                    up == a + b,
                    (k + 1) * b == (m - k) * a,
                    m == n - 1,
            ;
        } else {
            let j = (k - 1) as nat;
            lemma_binomial_absorb(m, j);
            let c = binomial(m, j) as int;
            assert(at == c + a);
            assert((k + 1) * up == (n - k) * at) by (nonlinear_arith)
                requires
                    up == a + b,
                    at == c + a,
                    (k + 1) * b == (m - k) * a,
                    (j + 1) * a == (m - j) * c,
                    j == k - 1,
                    m == n - 1,
            ;
        }
    }
}

/// The sum of `C(a, k) * C(b, m - k)` over `k` from zero to `j`.
pub open spec fn convolution(a: nat, b: nat, m: nat, j: int) -> nat
    decreases j + 1,
{
    if j < 0 {
        0
    } else {
        binomial(a, j as nat) * binomial(b, (m - j) as nat) + convolution(a, b, m, j - 1)
    }
}

/// With nothing to pick from on the one side, everything is picked on the other.
proof fn lemma_convolution_empty(b: nat, m: nat, j: int)
    requires
        0 <= j <= m,
    ensures
        convolution(0, b, m, j) == binomial(b, m),
    decreases j,
{
    if j > 0 {
        lemma_convolution_empty(b, m, j - 1);
        assert(binomial(0, j as nat) == 0);
        assert(binomial(0, j as nat) * binomial(b, (m - j) as nat) == 0) by (nonlinear_arith)
            requires
                binomial(0, j as nat) == 0,
        ;
    } else {
        assert(convolution(0, b, m, -1) == 0);
        assert(binomial(0, 0) == 1);
        assert(1 * binomial(b, m) == binomial(b, m)) by (nonlinear_arith);
    }
}

/// Pascal's rule under the sum: one more item on the first side either is
/// picked or is not.
proof fn lemma_convolution_pascal(a: nat, b: nat, m: nat, j: int)
    requires
        a >= 1,
        m >= 1,
        0 <= j <= m,
    ensures
        convolution(a, b, m, j) == convolution((a - 1) as nat, b, m, j) + convolution(
            (a - 1) as nat,
            b,
            (m - 1) as nat,
            j - 1,
        ),
    decreases j,
{
    let a1 = (a - 1) as nat;
    let m1 = (m - 1) as nat;
    if j == 0 {
        assert(convolution(a, b, m, -1) == 0);
        assert(convolution(a1, b, m, -1) == 0);
        assert(convolution(a1, b, m1, -1) == 0);
        assert(binomial(a, 0) == 1);
        assert(binomial(a1, 0) == 1);
    } else {
        lemma_convolution_pascal(a, b, m, j - 1);
        let x = binomial(a1, (j - 1) as nat);
        let y = binomial(a1, j as nat);
        let z = binomial(b, (m - j) as nat);
        assert(binomial(a, j as nat) == x + y);
        assert((m1 - (j - 1)) as nat == (m - j) as nat);
        assert((x + y) * z == x * z + y * z) by (nonlinear_arith);
        assert(convolution(a1, b, m1, j - 1) == x * z + convolution(a1, b, m1, j - 2));
        assert(convolution(a1, b, m, j) == y * z + convolution(a1, b, m, j - 1));
        assert(convolution(a, b, m, j) == (x + y) * z + convolution(a, b, m, j - 1));
    }
}

/// Vandermonde's identity: picking `m` out of two heaps of `a` and `b`
/// items is picking `k` out of the first and `m - k` out of the second, for
/// some `k`.
pub proof fn lemma_vandermonde(a: nat, b: nat, m: nat)
    ensures
        convolution(a, b, m, m as int) == binomial(a + b, m),
    decreases a,
{
    if a == 0 {
        lemma_convolution_empty(b, m, m as int);
    } else if m == 0 {
        assert(convolution(a, b, m, -1) == 0);
        assert(binomial(a, 0) == 1 && binomial(b, 0) == 1);
        assert(1 * 1 == 1) by (nonlinear_arith);
    } else {
        let a1 = (a - 1) as nat;
        let m1 = (m - 1) as nat;
        lemma_convolution_pascal(a, b, m, m as int);
        lemma_vandermonde(a1, b, m);
        lemma_vandermonde(a1, b, m1);
        assert(a1 + b == (a + b - 1) as nat);
        assert(binomial(a + b, m) == binomial(a1 + b, m1) + binomial(a1 + b, m));
    }
}

} // verus!
