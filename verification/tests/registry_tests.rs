use fast_primes_3::models::{ProcessState, RegistryError, TestedNumbersState};
use fast_primes_3::prime::check_if_prime;

#[test]
fn process_state_reports_in_flight() {
    assert!(ProcessState::Processing.is_processing());
    assert!(!ProcessState::Completed.is_processing());
}

#[test]
fn fresh_registry_is_empty() {
    let registry = TestedNumbersState::new();
    assert_eq!(registry.tested_numbers_map().len(), 0);
    assert_eq!(registry.found_primes_count(), 0);
    assert!(!registry.numbers_processing());
    assert_eq!(registry.nth_prime(1), None);
}

#[test]
fn dispatch_order_is_the_candidate_stream() {
    let mut registry = TestedNumbersState::new();
    let mut dispatched: Vec<u64> = Vec::new();
    for _ in 0..10 {
        dispatched.push(registry.test_new_number());
    }
    assert_eq!(dispatched, vec![2, 3, 5, 7, 9, 11, 13, 15, 17, 19]);
    let records = registry.tested_numbers_map();
    assert_eq!(records.len(), 10);
    for (k, record) in records.iter().enumerate() {
        assert_eq!(record.number, dispatched[k]);
        assert!(record.process_state.is_processing());
        assert!(!record.is_prime);
    }
    assert!(registry.numbers_processing());
}

#[test]
fn count_matches_records_under_out_of_order_completion() {
    let mut registry = TestedNumbersState::new();
    let mut dispatched: Vec<u64> = Vec::new();
    for _ in 0..7 {
        dispatched.push(registry.test_new_number());
    }
    // Complete in a scrambled order, as workers would finish.
    for number in [13u64, 3, 9, 2, 11, 5, 7] {
        assert_eq!(registry.complete_tested_number(number, check_if_prime(number)), Ok(()));
    }
    assert!(!registry.numbers_processing());
    // 2, 3, 5, 7, 11, 13 are prime; 9 is not.
    assert_eq!(registry.found_primes_count(), 6);
    let flagged = registry
        .tested_numbers_map()
        .iter()
        .filter(|record| record.is_prime)
        .count();
    assert_eq!(flagged, registry.found_primes_count());
}

#[test]
fn scrambled_stress_keeps_count_consistent() {
    let mut registry = TestedNumbersState::new();
    let mut dispatched: Vec<u64> = Vec::new();
    for _ in 0..200 {
        dispatched.push(registry.test_new_number());
    }
    // Deterministic scramble of the completion order.
    let mut order: Vec<u64> = dispatched.clone();
    let mut state: u64 = 0x2545F4914F6CDD1D;
    for k in (1..order.len()).rev() {
        state = state.wrapping_mul(6364136223846793005).wrapping_add(1442695040888963407);
        let j = (state >> 33) as usize % (k + 1);
        order.swap(k, j);
    }
    let mut expected: usize = 0;
    for number in order {
        let verdict = check_if_prime(number);
        assert_eq!(registry.complete_tested_number(number, verdict), Ok(()));
        if verdict {
            expected += 1;
        }
        assert_eq!(registry.found_primes_count(), expected);
    }
    assert!(!registry.numbers_processing());
}

#[test]
fn completing_an_unknown_number_is_reported() {
    let mut registry = TestedNumbersState::new();
    let first = registry.test_new_number();
    assert_eq!(first, 2);
    // 4 is not even a candidate, and 3 was never dispatched.
    assert_eq!(registry.complete_tested_number(4, false), Err(RegistryError::NotRegistered));
    assert_eq!(registry.complete_tested_number(3, true), Err(RegistryError::NotRegistered));
    // The failed calls changed nothing.
    assert_eq!(registry.found_primes_count(), 0);
    assert!(registry.numbers_processing());
}

#[test]
fn completing_twice_is_reported() {
    let mut registry = TestedNumbersState::new();
    let number = registry.test_new_number();
    assert_eq!(registry.complete_tested_number(number, true), Ok(()));
    assert_eq!(registry.found_primes_count(), 1);
    assert_eq!(
        registry.complete_tested_number(number, true),
        Err(RegistryError::AlreadyCompleted)
    );
    // The double completion neither recounted nor rewrote the record.
    assert_eq!(registry.found_primes_count(), 1);
}

#[test]
fn nth_prime_scans_ascending() {
    let mut registry = TestedNumbersState::new();
    for _ in 0..7 {
        let number = registry.test_new_number();
        registry.complete_tested_number(number, check_if_prime(number)).unwrap();
    }
    // Records now cover 2, 3, 5, 7, 9, 11, 13.
    assert_eq!(registry.nth_prime(1), Some(2));
    assert_eq!(registry.nth_prime(2), Some(3));
    assert_eq!(registry.nth_prime(3), Some(5));
    assert_eq!(registry.nth_prime(4), Some(7));
    assert_eq!(registry.nth_prime(5), Some(11));
    assert_eq!(registry.nth_prime(6), Some(13));
    assert_eq!(registry.nth_prime(7), None);
}

#[test]
fn late_small_prime_needs_the_drain() {
    // A large composite finishing early and a small prime finishing
    // late must not let extraction return too large an answer: the
    // count alone says "enough", only the drain makes it safe.
    let mut registry = TestedNumbersState::new();
    for _ in 0..7 {
        registry.test_new_number();
    }
    // Everything completes except 11 -- the verdict for 11 is late.
    for number in [2u64, 3, 5, 7, 9, 13] {
        registry.complete_tested_number(number, check_if_prime(number)).unwrap();
    }
    // Five primes are already counted (2, 3, 5, 7, 13), so a naive
    // "stop at count >= 5" would extract 13 as the 5th prime...
    assert_eq!(registry.found_primes_count(), 5);
    assert_eq!(registry.nth_prime(5), Some(13));
    // ...but the registry still reports in-flight work, so a correct
    // coordinator keeps draining instead of extracting.
    assert!(registry.numbers_processing());
    registry.complete_tested_number(11, check_if_prime(11)).unwrap();
    assert!(!registry.numbers_processing());
    // After the drain the 5th prime is 11, not 13.
    assert_eq!(registry.nth_prime(5), Some(11));
    assert_ne!(registry.nth_prime(5), Some(13));
}

#[test]
fn found_primes_count_is_monotone() {
    let mut registry = TestedNumbersState::new();
    let mut numbers: Vec<u64> = Vec::new();
    for _ in 0..50 {
        numbers.push(registry.test_new_number());
    }
    let mut last_count: usize = registry.found_primes_count();
    for number in numbers.iter().rev() {
        registry.complete_tested_number(*number, check_if_prime(*number)).unwrap();
        let count = registry.found_primes_count();
        assert!(count >= last_count);
        last_count = count;
    }
}
