//! What it means for an integer to be prime, and the arithmetic facts about
//! divisors that the sieve rests on.
use vstd::prelude::*;
use vstd::arithmetic::div_mod::{
    lemma_fundamental_div_mod,
    lemma_fundamental_div_mod_converse,
    lemma_mod_multiples_basic,
};

verus! {

/// `d` is a positive integer that divides `n` without remainder.
pub open spec fn divides(d: int, n: int) -> bool {
    d > 0 && n % d == 0
}

/// `n` is at least two and no integer strictly between one and `n` divides it.
pub open spec fn is_prime(n: int) -> bool {
    n >= 2 && forall|d: int| 1 < d < n ==> !#[trigger] divides(d, n)
}

/// The primes from two to `max`, in ascending order.
pub open spec fn primes_up_to(max: int) -> Seq<int>
    decreases max,
{
    if max < 2 {
        Seq::empty()
    } else if is_prime(max) {
        primes_up_to(max - 1).push(max)
    } else {
        primes_up_to(max - 1)
    }
}

/// A multiple of `d` is divided by `d`.
pub proof fn lemma_divides_multiple(d: int, k: int)
    requires
        d > 0,
    ensures
        divides(d, k * d),
{
    lemma_mod_multiples_basic(k, d);
}

/// Whatever `d` divides is `d` times its quotient.
pub proof fn lemma_divides_factors(d: int, n: int)
    requires
        divides(d, n),
    ensures
        n == (n / d) * d,
{
    lemma_fundamental_div_mod(n, d);
    assert(d * (n / d) == (n / d) * d) by (nonlinear_arith);
}

/// Divisibility is transitive.
pub proof fn lemma_divides_transitive(a: int, b: int, c: int)
    requires
        divides(a, b),
        divides(b, c),
    ensures
        divides(a, c),
{
    lemma_divides_factors(a, b);
    lemma_divides_factors(b, c);
    let k = b / a;
    let m = c / b;
    assert(c == (m * k) * a) by (nonlinear_arith)
        requires
            b == k * a,
            c == m * b,
    ;
    lemma_divides_multiple(a, m * k);
}

/// Between a multiple of `d` and the next one nothing is divided by `d`, and
/// the next one is.
pub proof fn lemma_next_multiple(d: int, j: int, p: int)
    requires
        divides(d, j),
        j <= p <= j + d,
    ensures
        divides(d, p) <==> p == j || p == j + d,
{
    lemma_divides_factors(d, j);
    let q = j / d;
    if p == j + d {
        assert(p == (q + 1) * d) by (nonlinear_arith)
            requires
                p == j + d,
                j == q * d,
        ;
        lemma_divides_multiple(d, q + 1);
    } else {
        assert(p == d * q + (p - j)) by (nonlinear_arith)
            requires
                j == q * d,
        ;
        lemma_fundamental_div_mod_converse(p, d, q, p - j);
    }
}

/// A divisor of `n` that is at least two and whose square does not exceed `n`
/// lies strictly between one and `n`.
pub proof fn lemma_small_divisor_is_proper(d: int, n: int)
    requires
        d >= 2,
        d * d <= n,
    ensures
        1 < d < n,
{
    assert(d < d * d) by (nonlinear_arith)
        requires
            d >= 2,
    ;
}

/// A number with a divisor strictly between one and itself has one that is at
/// least two and whose square does not exceed the number.
pub proof fn lemma_composite_has_small_divisor(e: int, n: int) -> (d: int)
    requires
        1 < e < n,
        divides(e, n),
    ensures
        d >= 2,
        d * d <= n,
        divides(d, n),
{
    lemma_divides_factors(e, n);
    let f = n / e;
    assert(f >= 2 && e * f == n) by (nonlinear_arith)
        requires
            n == f * e,
            1 < e < n,
    ;
    lemma_divides_multiple(f, e);
    if e <= f {
        assert(e * e <= e * f) by (nonlinear_arith)
            requires
                0 < e <= f,
        ;
        e
    } else {
        assert(f * f <= e * f) by (nonlinear_arith)
            requires
                0 < f <= e,
        ;
        f
    }
}

} // verus!
