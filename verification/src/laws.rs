//! What holds of the sieve builder and the prime extractor taken together,
//! stated over the same predicates as their contracts.
use vstd::prelude::*;
use crate::extract::{as_positions, lemma_marked_positions_sound, marked_positions};
use crate::primality::{is_prime, primes_up_to};
use crate::sieve::is_marking_table;

verus! {

/// In a marking table the flags of zero and of one are clear, whenever the
/// table is long enough to hold them.
pub proof fn lemma_zero_and_one_unmarked(table: Seq<bool>, max: int)
    requires
        is_marking_table(table, max),
    ensures
        table.len() >= 1 ==> !table[0],
        table.len() >= 2 ==> !table[1],
{
    if table.len() >= 1 {
        assert(table[0] == is_prime(0));
    }
    if table.len() >= 2 {
        assert(table[1] == is_prime(1));
    }
}

/// A bound has one marking table only: building it again gives the same flags.
pub proof fn lemma_marking_table_unique(first: Seq<bool>, second: Seq<bool>, max: int)
    requires
        is_marking_table(first, max),
        is_marking_table(second, max),
    ensures
        first == second,
{
    assert forall|p: int| 0 <= p < first.len() implies first[p] == second[p] by {
        assert(first[p] == is_prime(p));
        assert(second[p] == is_prime(p));
    }
    assert(first =~= second);
}

/// A table has one list of marked positions only: extracting again gives the
/// same list.
pub proof fn lemma_extraction_unique(sieve: Seq<bool>, first: Seq<usize>, second: Seq<usize>)
    requires
        as_positions(first) == marked_positions(sieve),
        as_positions(second) == marked_positions(sieve),
    ensures
        first == second,
{
    assert(first.len() == as_positions(first).len());
    assert(second.len() == as_positions(second).len());
    assert forall|k: int| 0 <= k < first.len() implies first[k] == second[k] by {
        assert(as_positions(first)[k] == first[k] as int);
        assert(as_positions(second)[k] == second[k] as int);
    }
    assert(first =~= second);
}

/// The marked positions of the marking table for `max` are the primes up to
/// `max`.
pub proof fn lemma_marked_positions_are_primes(table: Seq<bool>, max: int)
    requires
        is_marking_table(table, max),
    ensures
        marked_positions(table) == primes_up_to(max),
    decreases table.len(),
{
    if max >= 0 {
        let shorter = table.drop_last();
        assert forall|p: int| 0 <= p <= max - 1 implies #[trigger] shorter[p] == is_prime(p) by {
            assert(table[p] == is_prime(p));
        }
        lemma_marked_positions_are_primes(shorter, max - 1);
        assert(table[max] == is_prime(max));
    }
}

/// Extracting from the marking table for `max` gives the primes up to `max`:
/// a strictly increasing list that holds each of them and nothing else.
pub proof fn lemma_extraction_lists_primes(table: Seq<bool>, max: int, primes: Seq<usize>)
    requires
        is_marking_table(table, max),
        as_positions(primes) == marked_positions(table),
    ensures
        as_positions(primes) == primes_up_to(max),
        forall|a: int, b: int| 0 <= a < b < primes.len() ==> primes[a] < primes[b],
        forall|k: int|
            0 <= k < primes.len() ==> #[trigger] primes[k] <= max && is_prime(primes[k] as int),
        forall|p: int|
            0 <= p <= max && #[trigger] is_prime(p) ==> exists|k: int|
                0 <= k < primes.len() && primes[k] == p,
{
    let list = as_positions(primes);
    lemma_marked_positions_are_primes(table, max);
    lemma_marked_positions_sound(table);
    assert forall|a: int, b: int| 0 <= a < b < primes.len() implies primes[a] < primes[b] by {
        assert(list[a] < list[b]);
    }
    assert forall|k: int| 0 <= k < primes.len() implies #[trigger] primes[k] <= max && is_prime(
        primes[k] as int,
    ) by {
        assert(0 <= list[k] < table.len() && table[list[k]]);
    }
    assert forall|p: int| 0 <= p <= max && #[trigger] is_prime(p) implies exists|k: int|
        0 <= k < primes.len() && primes[k] == p by {
        assert(table[p]);
        assert(list.contains(p));
        let k = choose|k: int| 0 <= k < list.len() && list[k] == p;
        assert(primes[k] == p);
    }
}

/// The primes up to a bound begin with the primes up to any smaller bound, in
/// the same order, and go on with primes above the smaller bound.
pub proof fn lemma_primes_extend(small: int, large: int)
    requires
        small <= large,
    ensures
        primes_up_to(small).is_prefix_of(primes_up_to(large)),
        forall|k: int|
            primes_up_to(small).len() <= k < primes_up_to(large).len() ==> small
                < #[trigger] primes_up_to(large)[k],
    decreases large - small,
{
    if small < large {
        lemma_primes_extend(small, large - 1);
        if large >= 2 && is_prime(large) {
            assert(primes_up_to(large) == primes_up_to(large - 1).push(large));
        } else {
            assert(primes_up_to(large) == primes_up_to(large - 1));
        }
    }
}

/// The list extracted for a bound begins with the list extracted for any
/// smaller bound: every prime of the smaller list stands at the same place in
/// the larger one, and what the larger one adds lies above the smaller bound.
pub proof fn lemma_smaller_bound_lists_prefix(
    small_table: Seq<bool>,
    small: int,
    small_primes: Seq<usize>,
    large_table: Seq<bool>,
    large: int,
    large_primes: Seq<usize>,
)
    requires
        small <= large,
        is_marking_table(small_table, small),
        as_positions(small_primes) == marked_positions(small_table),
        is_marking_table(large_table, large),
        as_positions(large_primes) == marked_positions(large_table),
    ensures
        small_primes.is_prefix_of(large_primes),
        forall|k: int|
            small_primes.len() <= k < large_primes.len() ==> small < #[trigger] large_primes[k],
{
    let shorter = as_positions(small_primes);
    let longer = as_positions(large_primes);
    lemma_marked_positions_are_primes(small_table, small);
    lemma_marked_positions_are_primes(large_table, large);
    lemma_primes_extend(small, large);
    assert forall|k: int| 0 <= k < small_primes.len() implies small_primes[k]
        == large_primes[k] by {
        assert(shorter[k] == longer.subrange(0, shorter.len() as int)[k]);
    }
    assert(small_primes =~= large_primes.subrange(0, small_primes.len() as int));
    assert forall|k: int| small_primes.len() <= k < large_primes.len() implies small
        < #[trigger] large_primes[k] by {
        assert(small < longer[k]);
    }
}

} // verus!
