//! The prime extractor: the positions of a marking table whose flag is set.
use vstd::prelude::*;

verus! {

/// The positions of `sieve` whose flag is set, in ascending order.
pub open spec fn marked_positions(sieve: Seq<bool>) -> Seq<int>
    decreases sieve.len(),
{
    if sieve.len() == 0 {
        Seq::empty()
    } else if sieve.last() {
        marked_positions(sieve.drop_last()).push(sieve.len() - 1)
    } else {
        marked_positions(sieve.drop_last())
    }
}

/// `list` is strictly increasing, each of its entries is a position of
/// `sieve` whose flag is set, and every such position is among them.
pub open spec fn lists_marked_positions(list: Seq<int>, sieve: Seq<bool>) -> bool {
    &&& forall|a: int, b: int| 0 <= a < b < list.len() ==> list[a] < list[b]
    &&& forall|k: int|
        0 <= k < list.len() ==> 0 <= #[trigger] list[k] < sieve.len() && sieve[list[k]]
    &&& forall|p: int| 0 <= p < sieve.len() && #[trigger] sieve[p] ==> list.contains(p)
}

/// A list of positions as mathematical integers.
pub open spec fn as_positions(list: Seq<usize>) -> Seq<int> {
    list.map_values(|p: usize| p as int)
}

/// The marked positions of a table are a strictly increasing list of exactly
/// the positions whose flag is set.
pub proof fn lemma_marked_positions_sound(sieve: Seq<bool>)
    ensures
        lists_marked_positions(marked_positions(sieve), sieve),
    decreases sieve.len(),
{
    if sieve.len() > 0 {
        let shorter = sieve.drop_last();
        let rest = marked_positions(shorter);
        let list = marked_positions(sieve);
        lemma_marked_positions_sound(shorter);
        assert forall|p: int|
            0 <= p < sieve.len() && #[trigger] sieve[p] implies list.contains(p) by {
            if p < shorter.len() {
                assert(shorter[p]);
                let k = choose|k: int| 0 <= k < rest.len() && rest[k] == p;
                assert(list[k] == p);
            } else {
                assert(list[list.len() - 1] == p);
            }
        }
        assert forall|k: int| 0 <= k < list.len() implies 0 <= #[trigger] list[k] < sieve.len()
            && sieve[list[k]] by {
            if k < rest.len() {
                assert(shorter[rest[k]]);
            }
        }
    }
}

/// Only one list is strictly increasing and holds exactly the positions of a
/// table whose flag is set: the table's marked positions.
pub proof fn lemma_marked_positions_unique(list: Seq<int>, sieve: Seq<bool>)
    requires
        lists_marked_positions(list, sieve),
    ensures
        list == marked_positions(sieve),
    decreases sieve.len(),
{
    if sieve.len() == 0 {
        if list.len() > 0 {
            assert(0 <= list[0] < sieve.len());
        }
        assert(list =~= Seq::empty());
    } else {
        let shorter = sieve.drop_last();
        let top = sieve.len() - 1;
        if sieve.last() {
            assert(sieve[top]);
            let k = choose|k: int| 0 <= k < list.len() && list[k] == top;
            let last = list.len() - 1;
            assert(list[last] < sieve.len());
            assert(k == last);
            let front = list.drop_last();
            assert forall|p: int|
                0 <= p < shorter.len() && #[trigger] shorter[p] implies front.contains(p) by {
                assert(sieve[p]);
                let h = choose|h: int| 0 <= h < list.len() && list[h] == p;
                assert(front[h] == p);
            }
            assert forall|h: int| 0 <= h < front.len() implies 0 <= #[trigger] front[h]
                < shorter.len() && shorter[front[h]] by {
                assert(list[h] < list[last]);
                assert(sieve[list[h]]);
            }
            lemma_marked_positions_unique(front, shorter);
            assert(list =~= front.push(top));
        } else {
            assert forall|p: int|
                0 <= p < shorter.len() && #[trigger] shorter[p] implies list.contains(p) by {
                assert(sieve[p]);
            }
            assert forall|h: int| 0 <= h < list.len() implies 0 <= #[trigger] list[h]
                < shorter.len() && shorter[list[h]] by {
                assert(sieve[list[h]]);
            }
            lemma_marked_positions_unique(list, shorter);
        }
    }
}

/// Lists the positions of `sieve` whose flag is set, in ascending order.
///
/// Any table is accepted, whatever built it, an empty one too.
pub fn sieve_to_primes(sieve: &[bool]) -> (primes: Vec<usize>)
    ensures
        as_positions(primes@) == marked_positions(sieve@),
        forall|a: int, b: int| 0 <= a < b < primes@.len() ==> primes@[a] < primes@[b],
        forall|k: int|
            0 <= k < primes@.len() ==> #[trigger] primes@[k] < sieve@.len()
                && sieve@[primes@[k] as int],
        forall|p: int|
            0 <= p < sieve@.len() && #[trigger] sieve@[p] ==> primes@.contains(p as usize),
{
    let mut primes: Vec<usize> = Vec::new();
    let mut position: usize = 0;
    while position < sieve.len()
        invariant
            position <= sieve@.len(),
            as_positions(primes@) == marked_positions(sieve@.take(position as int)),
        decreases sieve@.len() - position,
    {
        let ghost seen = sieve@.take(position as int);
        let ghost next = sieve@.take(position + 1);
        proof {
            assert(next.drop_last() =~= seen);
            assert(next.last() == sieve@[position as int]);
        }
        if sieve[position] {
            let ghost listed = primes@;
            primes.push(position);
            proof {
                assert(as_positions(primes@) =~= as_positions(listed).push(position as int));
            }
        }
        position = position + 1;
    }
    proof {
        assert(sieve@.take(position as int) =~= sieve@);
        lemma_marked_positions_sound(sieve@);
        let list = as_positions(primes@);
        assert forall|a: int, b: int| 0 <= a < b < primes@.len() implies primes@[a]
            < primes@[b] by {
            assert(list[a] < list[b]);
        }
        assert forall|k: int| 0 <= k < primes@.len() implies #[trigger] primes@[k] < sieve@.len()
            && sieve@[primes@[k] as int] by {
            assert(0 <= list[k] < sieve@.len() && sieve@[list[k]]);
        }
        assert forall|p: int|
            0 <= p < sieve@.len() && #[trigger] sieve@[p] implies primes@.contains(p as usize) by {
            assert(list.contains(p));
            let k = choose|k: int| 0 <= k < list.len() && list[k] == p;
            assert(primes@[k] == p as usize);
        }
    }
    primes
}

} // verus!
