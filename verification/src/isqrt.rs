//! The integer square root, by which the sieve bounds its outer loop.
use vstd::prelude::*;
use vstd::arithmetic::div_mod::lemma_fundamental_div_mod;

verus! {

/// `r` is the largest integer whose square does not exceed `n`.
pub open spec fn is_integer_sqrt(r: int, n: int) -> bool {
    0 <= r && r * r <= n < (r + 1) * (r + 1)
}

/// Squaring keeps the order of non-negative integers.
pub proof fn lemma_square_monotonic(a: int, b: int)
    requires
        0 <= a <= b,
    ensures
        a * a <= b * b,
{
    assert(a * a <= b * b) by (nonlinear_arith)
        requires
            0 <= a <= b,
    ;
}

/// A non-negative integer whose square is below the square of `b` is below `b`.
pub proof fn lemma_square_reflects_order(a: int, b: int)
    requires
        0 <= a,
        0 <= b,
        a * a < b * b,
    ensures
        a < b,
{
    if a >= b {
        lemma_square_monotonic(b, a);
    }
}

/// A number has only one integer square root.
pub proof fn lemma_integer_sqrt_unique(r: int, s: int, n: int)
    requires
        is_integer_sqrt(r, n),
        is_integer_sqrt(s, n),
    ensures
        r == s,
{
    lemma_square_reflects_order(r, s + 1);
    lemma_square_reflects_order(s, r + 1);
}

/// For a positive `m`, the square of `m` is at most `n` exactly when `m` is at
/// most the quotient of `n` by `m`.
proof fn lemma_square_by_quotient(m: int, n: int)
    requires
        m > 0,
        n >= 0,
    ensures
        m * m <= n <==> m <= n / m,
{
    lemma_fundamental_div_mod(n, m);
    let q = n / m;
    if m <= q {
        assert(m * m <= m * q) by (nonlinear_arith)
            requires
                0 < m <= q,
        ;
    } else {
        assert(m * (q + 1) <= m * m) by (nonlinear_arith)
            requires
                0 < m,
                q + 1 <= m,
        ;
        assert(m * (q + 1) == m * q + m) by (nonlinear_arith);
    }
}

/// The integer square root of `n`, found by bisection.
pub fn integer_sqrt(n: usize) -> (r: usize)
    ensures
        is_integer_sqrt(r as int, n as int),
{
    if n == 0 {
        assert(is_integer_sqrt(0, 0)) by (nonlinear_arith);
        return 0;
    }
    let mut lo: usize = 1;
    let mut hi: usize = n;
    proof {
        assert(n < (n + 1) * (n + 1)) by (nonlinear_arith);
    }
    while lo < hi
        invariant
            1 <= lo <= hi <= n,
            lo * lo <= n,
            n < (hi + 1) * (hi + 1),
        decreases hi - lo,
    {
        let mid: usize = lo + (hi - lo + 1) / 2;
        proof {
            lemma_square_by_quotient(mid as int, n as int);
        }
        if mid <= n / mid {
            lo = mid;
        } else {
            hi = mid - 1;
        }
    }
    lo
}

} // verus!
