//! The sieve builder: a marking table with one flag per integer from zero to
//! the bound, set exactly at the primes.
use vstd::prelude::*;
use crate::isqrt::{
    integer_sqrt,
    is_integer_sqrt,
    lemma_square_monotonic,
    lemma_square_reflects_order,
};
use crate::primality::{
    divides,
    is_prime,
    lemma_composite_has_small_divisor,
    lemma_divides_multiple,
    lemma_divides_transitive,
    lemma_next_multiple,
    lemma_small_divisor_is_proper,
};

verus! {

/// `table` has one flag for each integer from zero to `max`, and the flag at a
/// position is set exactly when the position is prime.
pub open spec fn is_marking_table(table: Seq<bool>, max: int) -> bool {
    &&& table.len() == max + 1
    &&& forall|p: int| 0 <= p <= max ==> #[trigger] table[p] == is_prime(p)
}

/// The sieving index `i` strikes `p`: `p` is a multiple of `i` and no smaller
/// than the square of `i`.
spec fn strikes(i: int, p: int) -> bool {
    i * i <= p && divides(i, p)
}

/// No sieving index from two up to, but not including, `bound` strikes `p`.
spec fn survives(p: int, bound: int) -> bool {
    forall|i: int| 2 <= i < bound ==> !#[trigger] strikes(i, p)
}

/// An index that an earlier one has struck strikes nothing new.
proof fn lemma_struck_index_strikes_nothing(i: int, p: int)
    requires
        i >= 2,
        !survives(i, i),
    ensures
        survives(p, i) == survives(p, i + 1),
{
    if survives(p, i) && strikes(i, p) {
        let d = choose|d: int| 2 <= d < i && strikes(d, i);
        lemma_divides_transitive(d, i, p);
        lemma_small_divisor_is_proper(i, i * i);
        assert(strikes(d, p));
    }
}

/// Once every index up to the integer square root of `max` has been applied,
/// what is left up to `max` are the primes.
proof fn lemma_survivors_are_primes(p: int, root: int, max: int)
    requires
        is_integer_sqrt(root, max),
        2 <= p <= max,
    ensures
        survives(p, root + 1) == is_prime(p),
{
    if is_prime(p) {
        assert forall|i: int| 2 <= i < root + 1 implies !#[trigger] strikes(i, p) by {
            if i * i <= p {
                lemma_small_divisor_is_proper(i, p);
            }
        }
    }
    if survives(p, root + 1) && !is_prime(p) {
        let e = choose|e: int| 1 < e < p && divides(e, p);
        let d = lemma_composite_has_small_divisor(e, p);
        lemma_square_reflects_order(d, root + 1);
        assert(strikes(d, p));
    }
}

/// Clears the flag of every multiple of `i` from its square up to `max`, and
/// leaves the other flags as they are.
fn strike_multiples(values: &mut Vec<bool>, i: usize, max: usize)
    requires
        old(values).len() == max + 1,
        2 <= i,
        i * i <= max,
    ensures
        final(values).len() == max + 1,
        forall|p: int|
            0 <= p <= max ==> #[trigger] final(values)@[p] == (old(values)@[p] && !strikes(
                i as int,
                p,
            )),
{
    let ghost before = values@;
    let mut j: usize = i * i;
    proof {
        lemma_divides_multiple(i as int, i as int);
    }
    while j <= max
        invariant_except_break
            forall|p: int|
                0 <= p <= max ==> #[trigger] values@[p] == (before[p] && !(p < j && strikes(
                    i as int,
                    p,
                ))),
        invariant
            values.len() == max + 1,
            before.len() == max + 1,
            2 <= i,
            i * i <= j,
            divides(i as int, j as int),
        ensures
            forall|p: int|
                0 <= p <= max ==> #[trigger] values@[p] == (before[p] && !strikes(i as int, p)),
        decreases max - j,
    {
        values[j] = false;
        if max - j < i {
            proof {
                assert forall|p: int| 0 <= p <= max implies #[trigger] values@[p] == (before[p]
                    && !strikes(i as int, p)) by {
                    if j <= p {
                        lemma_next_multiple(i as int, j as int, p);
                    }
                }
            }
            break ;
        }
        proof {
            assert forall|p: int| 0 <= p <= max implies #[trigger] values@[p] == (before[p] && !(p
                < j + i && strikes(i as int, p))) by {
                if j <= p < j + i {
                    lemma_next_multiple(i as int, j as int, p);
                }
            }
            lemma_next_multiple(i as int, j as int, j + i);
        }
        j = j + i;
    }
}

/// Builds the marking table for the integers from zero to `max`: the flag at
/// each position says whether the position is prime.
///
/// The table holds `max + 1` flags, so `max` must leave room for one more.
pub fn sieve_of_eratosthenes(max: usize) -> (table: Vec<bool>)
    requires
        max < usize::MAX,
    ensures
        table@.len() == max + 1,
        !table@[0],
        max >= 1 ==> !table@[1],
        forall|p: int| 2 <= p <= max ==> #[trigger] table@[p] == is_prime(p),
        is_marking_table(table@, max as int),
{
    let mut values: Vec<bool> = vec![true; max + 1];
    values[0] = false;
    if max >= 1 {
        values[1] = false;
    }
    let root: usize = integer_sqrt(max);
    proof {
        if root > max {
            lemma_square_monotonic(max as int + 1, root as int);
            assert((max + 1) * (max + 1) > max) by (nonlinear_arith);
        }
    }
    let upper: usize = root + 1;
    let mut i: usize = 2;
    while i < upper
        invariant
            values.len() == max + 1,
            is_integer_sqrt(root as int, max as int),
            upper == root + 1,
            2 <= i,
            i <= upper || i == 2,
            !values@[0],
            max >= 1 ==> !values@[1],
            forall|p: int| 2 <= p <= max ==> #[trigger] values@[p] == survives(p, i as int),
        decreases upper - i,
    {
        proof {
            lemma_square_monotonic(i as int, root as int);
            lemma_small_divisor_is_proper(i as int, i * i);
        }
        if values[i] {
            strike_multiples(&mut values, i, max);
        } else {
            proof {
                assert forall|p: int| 2 <= p <= max implies survives(p, i as int) == survives(
                    p,
                    i + 1,
                ) by {
                    lemma_struck_index_strikes_nothing(i as int, p);
                }
            }
        }
        i = i + 1;
    }
    proof {
        assert forall|p: int| 2 <= p <= max implies #[trigger] values@[p] == is_prime(p) by {
            if i != upper {
                assert((root + 1) * (root + 1) == 1) by (nonlinear_arith)
                    requires
                        root == 0,
                ;
            }
            lemma_survivors_are_primes(p, root as int, max as int);
        }
    }
    values
}

} // verus!
