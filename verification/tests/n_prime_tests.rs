use fast_primes_3::n_prime;

#[test]
fn first_prime_is_two() {
    assert_eq!(n_prime(1, 1), 2);
}

#[test]
fn known_primes_for_any_worker_count() {
    for workers in [1usize, 2, 4, 8] {
        assert_eq!(n_prime(1, workers), 2);
        assert_eq!(n_prime(2, workers), 3);
        assert_eq!(n_prime(3, workers), 5);
        assert_eq!(n_prime(6, workers), 13);
        assert_eq!(n_prime(100, workers), 541);
    }
}

#[test]
fn answer_is_independent_of_worker_count() {
    let reference = n_prime(50, 1);
    assert_eq!(reference, 229);
    for workers in [2usize, 3, 4, 7, 8, 16, 32] {
        assert_eq!(n_prime(50, workers), reference);
    }
}

#[test]
fn mid_range_values() {
    assert_eq!(n_prime(4, 2), 7);
    assert_eq!(n_prime(5, 2), 11);
    assert_eq!(n_prime(10, 3), 29);
    assert_eq!(n_prime(25, 5), 97);
    assert_eq!(n_prime(1000, 8), 7919);
}
