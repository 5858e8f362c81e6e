use prime_sieve::isqrt::integer_sqrt;
use prime_sieve::{sieve_of_eratosthenes, sieve_to_primes};

fn has_no_proper_divisor(p: usize) -> bool {
    p >= 2 && (2..p).all(|d| p % d != 0)
}

fn primes_by_trial_division(max: usize) -> Vec<usize> {
    (0..=max).filter(|&p| has_no_proper_divisor(p)).collect()
}

#[test]
fn bound_zero_gives_one_clear_flag() {
    let table = sieve_of_eratosthenes(0);
    assert_eq!(table.len(), 1);
    assert!(!table[0]);
    assert_eq!(table, vec![false]);
    assert_eq!(sieve_to_primes(&table), Vec::<usize>::new());
}

#[test]
fn bound_two_marks_only_two() {
    assert_eq!(sieve_of_eratosthenes(2), vec![false, false, true]);
}

#[test]
fn table_for_ten_flag_by_flag() {
    assert_eq!(
        sieve_of_eratosthenes(10),
        vec![false, false, true, true, false, true, false, true, false, false, false]
    );
}

#[test]
fn table_has_one_flag_more_than_the_bound() {
    for max in 0..300 {
        assert_eq!(sieve_of_eratosthenes(max).len(), max + 1);
    }
}

#[test]
fn zero_and_one_are_never_marked() {
    for max in 1..300 {
        let table = sieve_of_eratosthenes(max);
        assert!(!table[0]);
        assert!(!table[1]);
    }
}

#[test]
fn flags_agree_with_trial_division() {
    for max in 0..300 {
        let table = sieve_of_eratosthenes(max);
        for p in 0..=max {
            assert_eq!(table[p], has_no_proper_divisor(p), "bound {max}, position {p}");
        }
    }
}

#[test]
fn building_twice_gives_the_same_table() {
    for max in [0, 1, 2, 3, 4, 24, 25, 26, 100, 1000] {
        assert_eq!(sieve_of_eratosthenes(max), sieve_of_eratosthenes(max));
    }
}

#[test]
fn extraction_lists_the_primes_in_ascending_order() {
    for max in 0..300 {
        let primes = sieve_to_primes(&sieve_of_eratosthenes(max));
        assert_eq!(primes, primes_by_trial_division(max));
        assert!(primes.windows(2).all(|pair| pair[0] < pair[1]));
    }
}

#[test]
fn smaller_bound_gives_a_prefix() {
    let large = sieve_to_primes(&sieve_of_eratosthenes(200));
    for max in 0..200 {
        let small = sieve_to_primes(&sieve_of_eratosthenes(max));
        assert!(small.len() <= large.len());
        assert_eq!(small[..], large[..small.len()]);
        assert!(large[small.len()..].iter().all(|&p| p > max));
    }
}

#[test]
fn squares_of_primes_are_struck() {
    for root in [2usize, 3, 5, 7, 11, 13, 31, 97] {
        let square = root * root;
        for max in [square - 1, square, square + 1] {
            let table = sieve_of_eratosthenes(max);
            assert!(table[root]);
            if square <= max {
                assert!(!table[square]);
            }
            assert_eq!(sieve_to_primes(&table), primes_by_trial_division(max));
        }
    }
}

#[test]
fn primes_up_to_one_hundred() {
    assert_eq!(
        sieve_to_primes(&sieve_of_eratosthenes(100)),
        vec![
            2, 3, 5, 7, 11, 13, 17, 19, 23, 29, 31, 37, 41, 43, 47, 53, 59, 61, 67, 71, 73, 79,
            83, 89, 97
        ]
    );
}

#[test]
fn a_million_has_78498_primes() {
    let primes = sieve_to_primes(&sieve_of_eratosthenes(1_000_000));
    assert_eq!(primes.len(), 78_498);
    assert_eq!(primes.first(), Some(&2));
    assert_eq!(primes.last(), Some(&999_983));
}

#[test]
fn extraction_of_an_empty_table_is_empty() {
    assert_eq!(sieve_to_primes(&[]), Vec::<usize>::new());
}

#[test]
fn extraction_of_a_single_flag() {
    assert_eq!(sieve_to_primes(&[false]), Vec::<usize>::new());
    assert_eq!(sieve_to_primes(&[true]), vec![0]);
}

#[test]
fn extraction_takes_any_table() {
    assert_eq!(sieve_to_primes(&[true, false, true, true, false]), vec![0, 2, 3]);
    assert_eq!(sieve_to_primes(&[true, true, true]), vec![0, 1, 2]);
    assert_eq!(sieve_to_primes(&[false, false, false]), Vec::<usize>::new());
}

#[test]
fn extraction_leaves_the_table_alone() {
    let table = sieve_of_eratosthenes(50);
    let copy = table.clone();
    let first = sieve_to_primes(&table);
    let second = sieve_to_primes(&table);
    assert_eq!(table, copy);
    assert_eq!(first, second);
}

#[test]
fn integer_sqrt_at_small_values() {
    let expected = [0usize, 1, 1, 1, 2, 2, 2, 2, 2, 3, 3, 3, 3, 3, 3, 3, 4, 4];
    for (n, root) in expected.iter().enumerate() {
        assert_eq!(integer_sqrt(n), *root, "square root of {n}");
    }
}

#[test]
fn integer_sqrt_around_perfect_squares() {
    for root in [1usize, 2, 3, 10, 99, 100, 1000, 46_340, 65_535] {
        let square = root * root;
        assert_eq!(integer_sqrt(square - 1), root - 1);
        assert_eq!(integer_sqrt(square), root);
        assert_eq!(integer_sqrt(square + 1), root);
    }
}

#[test]
fn integer_sqrt_of_the_largest_values() {
    for n in [usize::MAX, usize::MAX - 1, usize::MAX / 2, usize::MAX / 3] {
        let root = integer_sqrt(n) as u128;
        assert!(root * root <= n as u128);
        assert!((root + 1) * (root + 1) > n as u128);
    }
}
