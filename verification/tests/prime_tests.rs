use fast_primes_3::prime::{check_if_prime, CheckIfPrimeIterator, CheckIfPrimeState, PotentialPrimesGenerator};

/// Reference primality by plain trial division over every divisor.
fn trial_division(n: u64) -> bool {
    if n < 2 {
        return false;
    }
    let mut d: u64 = 2;
    while d < n {
        if n % d == 0 {
            return false;
        }
        d += 1;
    }
    true
}

#[test]
fn oracle_small_values() {
    assert_eq!(check_if_prime(2), true);
    assert_eq!(check_if_prime(9), false);
    assert_eq!(check_if_prime(97), true);
    assert_eq!(check_if_prime(100), false);
}

#[test]
fn oracle_agrees_with_trial_division_up_to_10000() {
    for n in 2..=10000u64 {
        assert_eq!(check_if_prime(n), trial_division(n), "disagreement at {}", n);
    }
}

#[test]
fn oracle_handles_squares_of_primes() {
    // 25, 49, 121 and 169 exercise the 6k+5 / 6k+7 boundary exactly.
    assert!(!check_if_prime(25));
    assert!(!check_if_prime(49));
    assert!(!check_if_prime(121));
    assert!(!check_if_prime(169));
    assert!(check_if_prime(10007));
}

#[test]
fn generator_first_ten_candidates() {
    let mut generator = PotentialPrimesGenerator::new();
    let mut produced: Vec<u64> = Vec::new();
    for _ in 0..10 {
        produced.push(generator.next());
    }
    assert_eq!(produced, vec![2, 3, 5, 7, 9, 11, 13, 15, 17, 19]);
}

#[test]
fn generator_is_a_superset_of_the_primes() {
    let mut generator = PotentialPrimesGenerator::new();
    let mut produced: Vec<u64> = Vec::new();
    for _ in 0..500 {
        produced.push(generator.next());
    }
    let bound = *produced.last().unwrap();
    for n in 2..=bound {
        if trial_division(n) {
            assert!(produced.contains(&n), "generator skipped the prime {}", n);
        }
    }
}

#[test]
fn generator_is_strictly_increasing() {
    let mut generator = PotentialPrimesGenerator::new();
    let mut previous = generator.next();
    for _ in 0..200 {
        let next = generator.next();
        assert!(next > previous);
        previous = next;
    }
}

#[test]
fn state_is_completed_only_on_verdicts() {
    assert!(!CheckIfPrimeState::InitialCheck.is_completed());
    assert!(!CheckIfPrimeState::DivisibilityChecks.is_completed());
    assert!(CheckIfPrimeState::Completed(true).is_completed());
    assert!(CheckIfPrimeState::Completed(false).is_completed());
}

/// Drives the incremental test to its verdict.
fn run_iterator(number: u64) -> bool {
    let mut it = CheckIfPrimeIterator::new(number);
    assert!(!it.is_completed());
    let mut steps = 0u64;
    loop {
        let state = it.next().unwrap();
        steps += 1;
        assert!(steps <= number + 16, "iterator failed to reach a verdict");
        if let CheckIfPrimeState::Completed(is_prime) = state {
            assert!(it.is_completed());
            return is_prime;
        }
    }
}

#[test]
fn iterator_reaches_the_oracle_verdict() {
    for n in [2u64, 3, 4, 5, 9, 25, 49, 91, 97, 121, 541, 10007, 10009] {
        assert_eq!(run_iterator(n), check_if_prime(n), "iterator disagrees at {}", n);
    }
}

#[test]
fn iterator_verdict_is_final() {
    let mut it = CheckIfPrimeIterator::new(9);
    loop {
        if let Some(CheckIfPrimeState::Completed(v)) = it.next() {
            assert!(!v);
            break;
        }
    }
    for _ in 0..5 {
        let again = it.next().unwrap();
        assert!(matches!(again, CheckIfPrimeState::Completed(false)));
    }
}
