//! The coordinator: drives the generator, oracle and registry to a
//! proven n-th prime answer.
//!
//! Each round dispatches up to one candidate per worker slot in
//! ascending order, then drains the whole batch -- every pending
//! record is completed -- before the count is consulted again.  The
//! answer is extracted only from a fully drained registry, so a
//! verdict for a small candidate can never be missed.

use vstd::prelude::*;
use crate::models::{
    count_prime_flags, lemma_match_counts, lemma_records_sorted, records_match_candidates,
    NumberState, ProcessState, TestedNumbersState,
};
use crate::prime::{
    candidates_below, check_if_prime, is_nth_prime_spec, is_prime_spec,
    lemma_candidates_below_props, lemma_candidates_below_take, lemma_prime_count_monotone,
    prime_count_upto,
};

verus! {

/// Every record carries a finished test whose recorded verdict
/// equals true primality.
spec fn all_completed_honest(s: Seq<NumberState>) -> bool {
    forall|k: int|
        0 <= k < s.len() ==> {
            &&& (#[trigger] s[k]).process_state is Completed
            &&& s[k].is_prime == is_prime_spec(s[k].number as int)
        }
}

/// The records before `start` are completed with honest verdicts;
/// from `start` on they are still pending.
spec fn drained_upto(s: Seq<NumberState>, start: int) -> bool {
    &&& all_completed_honest(s.take(start))
    &&& forall|k: int|
        start <= k < s.len() ==> (#[trigger] s[k]).process_state is Processing && !s[k].is_prime
}

/// Appending a fresh pending record keeps a registry drained up to
/// the same point: the drained prefix is untouched and the new
/// record joins the pending suffix.
proof fn lemma_push_keeps_drained(olds: Seq<NumberState>, news: Seq<NumberState>, start: int)
    requires
        0 <= start <= olds.len(),
        drained_upto(olds, start),
        news.len() == olds.len() + 1,
        forall|k: int| 0 <= k < olds.len() ==> news[k] == olds[k],
        news.last().process_state is Processing,
        !news.last().is_prime,
    ensures
        drained_upto(news, start),
{
    assert(news.take(start) =~= olds.take(start));
    assert forall|k: int|
        start <= k < news.len() implies (#[trigger] news[k]).process_state is Processing
        && !news[k].is_prime by {
        if k < olds.len() {
            assert(news[k] == olds[k]);
        } else {
            assert(news[k] == news.last());
        }
    }
}

/// Computes the n-th prime, 1-indexed: `n_prime(1, k) == 2`.
///
/// `n_threads` is the worker budget: each round registers up to that
/// many candidates before their tests are recorded, as a pool of that
/// many workers would.  The answer is proved independent of it.  The
/// result is pinned whenever the n-th prime exists within the machine
/// word, which is every input a caller can exhaust.
pub fn n_prime(n: usize, n_threads: usize) -> (r: u64)
    requires
        n >= 1,
        n_threads >= 1,
    ensures
        (exists|p: int| is_nth_prime_spec(p, n as int) && p <= u64::MAX - 2) ==> is_nth_prime_spec(
            r as int,
            n as int,
        ),
{
    let mut tested_numbers = TestedNumbersState::new();
    while tested_numbers.found_primes_count() < n && tested_numbers.can_test_new_number()
        invariant
            tested_numbers.wf(),
            all_completed_honest(tested_numbers.records()),
            n >= 1,
            n_threads >= 1,
        decreases u64::MAX - tested_numbers.cursor(),
    {
        let ghost c0 = tested_numbers.cursor();
        let start = tested_numbers.tested_numbers_map().len();
        proof {
            assert(tested_numbers.records().take(start as int) =~= tested_numbers.records());
        }
        let ghost before_first = tested_numbers;
        let _first = tested_numbers.test_new_number();
        proof {
            lemma_push_keeps_drained(before_first.records(), tested_numbers.records(), start as int);
        }
        let mut dispatched: usize = 1;
        while dispatched < n_threads && tested_numbers.can_test_new_number()
            invariant
                tested_numbers.wf(),
                tested_numbers.records().len() == start + dispatched,
                drained_upto(tested_numbers.records(), start as int),
                1 <= dispatched <= n_threads,
                c0 < tested_numbers.cursor(),
            decreases n_threads - dispatched,
        {
            let ghost before_next = tested_numbers;
            let _next = tested_numbers.test_new_number();
            proof {
                lemma_push_keeps_drained(before_next.records(), tested_numbers.records(), start as int);
            }
            dispatched = dispatched + 1;
        }
        let len = tested_numbers.tested_numbers_map().len();
        let mut idx = start;
        while idx < len
            invariant
                tested_numbers.wf(),
                tested_numbers.records().len() == len,
                start <= idx <= len,
                drained_upto(tested_numbers.records(), idx as int),
                c0 < tested_numbers.cursor(),
            decreases len - idx,
        {
            let number = tested_numbers.tested_numbers_map()[idx].number;
            proof {
                lemma_candidates_below_props(tested_numbers.cursor());
                assert(tested_numbers.records()[idx as int].number as int == candidates_below(
                    tested_numbers.cursor(),
                )[idx as int]);
            }
            let verdict = check_if_prime(number);
            let ghost mid = tested_numbers;
            proof {
                lemma_records_sorted(mid.records(), mid.cursor());
            }
            match tested_numbers.complete_tested_number(number, verdict) {
                Ok(()) => {
                    proof {
                        let k = choose|k: int|
                            {
                                &&& 0 <= k < mid.records().len()
                                &&& (#[trigger] mid.records()[k]).number == number
                                &&& mid.records()[k].process_state is Processing
                                &&& tested_numbers.records() == mid.records().update(
                                    k,
                                    NumberState {
                                        number,
                                        process_state: ProcessState::Completed,
                                        is_prime: verdict,
                                    },
                                )
                            };
                        assert(k == idx) by {
                            if k < idx {
                                assert(mid.records().take(idx as int)[k] == mid.records()[k]);
                            }
                            if k != idx {
                                assert(mid.records()[k].number != mid.records()[idx as int].number);
                            }
                        }
                        let news = tested_numbers.records();
                        assert forall|j: int|
                            0 <= j < news.take(idx + 1).len() implies {
                            &&& (#[trigger] news.take(idx + 1)[j]).process_state is Completed
                            &&& news.take(idx + 1)[j].is_prime == is_prime_spec(
                                news.take(idx + 1)[j].number as int,
                            )
                        } by {
                            if j < idx {
                                assert(news.take(idx + 1)[j] == mid.records().take(idx as int)[j]);
                            } else {
                                assert(news.take(idx + 1)[j] == news[idx as int]);
                            }
                        }
                    }
                },
                Err(e) => {
                    proof {
                        if e is AlreadyCompleted {
                            let k = choose|k: int|
                                {
                                    &&& 0 <= k < mid.records().len()
                                    &&& (#[trigger] mid.records()[k]).number == number
                                    &&& mid.records()[k].process_state is Completed
                                };
                            if k != idx {
                                assert(mid.records()[k].number != mid.records()[idx as int].number);
                            }
                        }
                        assert(false);
                    }
                },
            }
            idx = idx + 1;
        }
        proof {
            assert(tested_numbers.records().take(len as int) =~= tested_numbers.records());
        }
    }
    if tested_numbers.found_primes_count() >= n {
        proof {
            lemma_match_counts(tested_numbers.records(), tested_numbers.cursor());
        }
        match tested_numbers.nth_prime(n) {
            Some(p) => {
                proof {
                    let s = tested_numbers.records();
                    let cursor = tested_numbers.cursor();
                    let j = choose|j: int|
                        {
                            &&& 0 <= j < s.len()
                            &&& (#[trigger] s[j]).number == p
                            &&& s[j].is_prime
                            &&& count_prime_flags(s.take(j + 1)) == n
                        };
                    lemma_candidates_below_take(cursor, j);
                    assert(candidates_below(p as int + 1) == candidates_below(cursor).take(j + 1));
                    assert(records_match_candidates(s.take(j + 1), p as int + 1)) by {
                        assert forall|k: int|
                            0 <= k < s.take(j + 1).len() implies #[trigger] (s.take(
                            j + 1,
                        )[k].number as int) == candidates_below(p as int + 1)[k] by {
                            assert(s.take(j + 1)[k] == s[k]);
                            assert(candidates_below(p as int + 1)[k] == candidates_below(
                                cursor,
                            )[k]);
                        }
                    }
                    assert forall|k: int|
                        0 <= k < s.take(j + 1).len() implies (#[trigger] s.take(
                        j + 1,
                    )[k]).is_prime == is_prime_spec(s.take(j + 1)[k].number as int) by {
                        assert(s.take(j + 1)[k] == s[k]);
                    }
                    lemma_match_counts(s.take(j + 1), p as int + 1);
                    assert(prime_count_upto(p as int) == n);
                    assert(is_prime_spec(p as int));
                }
                p
            },
            None => {
                proof {
                    assert(false);
                }
                0
            },
        }
    } else {
        proof {
            lemma_match_counts(tested_numbers.records(), tested_numbers.cursor());
            if exists|p: int| is_nth_prime_spec(p, n as int) && p <= u64::MAX - 2 {
                let p = choose|p: int| is_nth_prime_spec(p, n as int) && p <= u64::MAX - 2;
                lemma_prime_count_monotone(p, tested_numbers.cursor() - 1);
                assert(false);
            }
        }
        0
    }
}

} // verus!
