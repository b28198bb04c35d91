//! The test registry: the single source of truth for every candidate
//! ever dispatched, its processing state, and its verdict.
//!
//! Records are kept for the whole run, ascending by candidate, so the
//! final answer can be extracted deterministically even though
//! workers complete their tests out of order.

use vstd::prelude::*;
use crate::prime::{
    candidates_below, is_candidate, is_prime_spec, lemma_candidates_below_props,
    lemma_prime_is_candidate, prime_count_upto, PotentialPrimesGenerator,
};

verus! {

/// Lifecycle of one candidate's test: registered and in flight, or
/// finished with a verdict recorded.
#[derive(Debug, Clone, Copy)]
pub enum ProcessState {
    Processing,
    Completed,
}

impl ProcessState {
    /// Whether the record is still in flight.
    pub fn is_processing(&self) -> (r: bool)
        ensures
            r == (self is Processing),
    {
        if let ProcessState::Processing = self {
            true
        } else {
            false
        }
    }
}

/// One candidate's record: the number, whether its test finished,
/// and the verdict (false until a test completes positively).
#[derive(Debug, Clone, Copy)]
pub struct NumberState {
    pub number: u64,
    pub process_state: ProcessState,
    pub is_prime: bool,
}

/// The coordination faults the registry reports rather than ignores:
/// completing a number that was never dispatched, or completing the
/// same number twice.  Both signal a coordination bug in the caller.
#[derive(Debug, Clone, Copy, PartialEq, Eq, Structural)]
pub enum RegistryError {
    NotRegistered,
    AlreadyCompleted,
}

/// How many records carry a positive verdict.
pub open spec fn count_prime_flags(s: Seq<NumberState>) -> nat
    decreases s.len(),
{
    if s.len() == 0 {
        0
    } else {
        count_prime_flags(s.drop_last()) + (if s.last().is_prime {
            1nat
        } else {
            0nat
        })
    }
}

/// The record list mirrors the candidate stream: entry `k` holds the
/// `k`-th candidate below the generator's cursor.
pub open spec fn records_match_candidates(s: Seq<NumberState>, cursor: int) -> bool {
    &&& s.len() == candidates_below(cursor).len()
    &&& forall|k: int|
        0 <= k < s.len() ==> #[trigger] (s[k].number as int) == candidates_below(cursor)[k]
}

/// A positive verdict only ever stands on a completed test.
pub open spec fn flags_completed(s: Seq<NumberState>) -> bool {
    forall|k: int|
        0 <= k < s.len() && #[trigger] s[k].is_prime ==> s[k].process_state is Completed
}

/// How many records are Completed and carry a positive verdict.
pub open spec fn count_completed_primes(s: Seq<NumberState>) -> nat
    decreases s.len(),
{
    if s.len() == 0 {
        0
    } else {
        count_completed_primes(s.drop_last()) + (if s.last().is_prime
            && s.last().process_state is Completed {
            1nat
        } else {
            0nat
        })
    }
}

/// Where verdicts only stand on completed tests, counting positive
/// verdicts and counting completed-with-positive-verdict records is
/// the same.
proof fn lemma_flags_are_completed_primes(s: Seq<NumberState>)
    requires
        flags_completed(s),
    ensures
        count_prime_flags(s) == count_completed_primes(s),
    decreases s.len(),
{
    if s.len() > 0 {
        assert(s.last() == s[s.len() - 1]);
        assert forall|k: int|
            0 <= k < s.drop_last().len() && #[trigger] s.drop_last()[k].is_prime implies s.drop_last()[k].process_state
            is Completed by {
            assert(s.drop_last()[k] == s[k]);
        }
        lemma_flags_are_completed_primes(s.drop_last());
    }
}

/// The registry's cached count always equals the number of records
/// that are Completed with a positive verdict, whatever sequence of
/// registrations and completions led here: no lost updates and no
/// double counting.
pub proof fn lemma_count_is_completed_primes(registry: &TestedNumbersState)
    requires
        registry.wf(),
    ensures
        registry.counted() == count_completed_primes(registry.records()),
{
    lemma_flags_are_completed_primes(registry.records());
}

/// The count of positive verdicts never exceeds the record count.
proof fn lemma_count_flags_le_len(s: Seq<NumberState>)
    ensures
        count_prime_flags(s) <= s.len(),
    decreases s.len(),
{
    if s.len() > 0 {
        lemma_count_flags_le_len(s.drop_last());
    }
}

/// Replacing one record changes the flag count by the difference of
/// the two records' flags.
proof fn lemma_count_flags_update(s: Seq<NumberState>, k: int, rec: NumberState)
    requires
        0 <= k < s.len(),
    ensures
        count_prime_flags(s.update(k, rec)) == count_prime_flags(s) - (if s[k].is_prime {
            1int
        } else {
            0int
        }) + (if rec.is_prime {
            1int
        } else {
            0int
        }),
    decreases s.len(),
{
    let t = s.update(k, rec);
    if k == s.len() - 1 {
        assert(t.drop_last() =~= s.drop_last());
        assert(t.last() == rec);
    } else {
        lemma_count_flags_update(s.drop_last(), k, rec);
        assert(t.drop_last() =~= s.drop_last().update(k, rec));
        assert(t.last() == s.last());
    }
}

/// Extending a prefix by one record adds that record's flag to the
/// prefix's flag count.
proof fn lemma_count_flags_take_step(s: Seq<NumberState>, idx: int)
    requires
        0 <= idx < s.len(),
    ensures
        count_prime_flags(s.take(idx + 1)) == count_prime_flags(s.take(idx)) + (if s[idx].is_prime {
            1int
        } else {
            0int
        }),
{
    assert(s.take(idx + 1).drop_last() =~= s.take(idx));
    assert(s.take(idx + 1).last() == s[idx]);
}

/// A record list that mirrors the candidate stream and whose
/// verdicts all equal true primality counts primes exactly: its flag
/// count is the number of primes below the cursor.
pub proof fn lemma_match_counts(s: Seq<NumberState>, cursor: int)
    requires
        records_match_candidates(s, cursor),
        forall|k: int|
            0 <= k < s.len() ==> (#[trigger] s[k]).is_prime == is_prime_spec(s[k].number as int),
    ensures
        count_prime_flags(s) == prime_count_upto(cursor - 1),
    decreases cursor,
{
    if cursor <= 2 {
        assert(s.len() == 0);
    } else if is_candidate(cursor - 1) {
        let sp = s.drop_last();
        assert(candidates_below(cursor) == candidates_below(cursor - 1).push(cursor - 1));
        assert forall|k: int|
            0 <= k < sp.len() implies #[trigger] (sp[k].number as int) == candidates_below(
            cursor - 1,
        )[k] by {
            assert(sp[k] == s[k]);
            assert(candidates_below(cursor - 1)[k] == candidates_below(cursor)[k]);
        }
        assert forall|k: int|
            0 <= k < sp.len() implies (#[trigger] sp[k]).is_prime == is_prime_spec(
            sp[k].number as int,
        ) by {
            assert(sp[k] == s[k]);
        }
        lemma_match_counts(sp, cursor - 1);
        assert(s.last().number as int == cursor - 1);
        assert(s.last().is_prime == is_prime_spec(cursor - 1));
    } else {
        assert(candidates_below(cursor) == candidates_below(cursor - 1));
        lemma_match_counts(s, cursor - 1);
        if is_prime_spec(cursor - 1) {
            lemma_prime_is_candidate(cursor - 1);
        }
        assert(prime_count_upto(cursor - 1) == prime_count_upto(cursor - 2));
    }
}

/// Records ascend strictly by candidate, so every candidate has at
/// most one record: ascending iteration over the registry is sound.
pub proof fn lemma_records_sorted(s: Seq<NumberState>, cursor: int)
    requires
        records_match_candidates(s, cursor),
    ensures
        forall|k1: int, k2: int|
            0 <= k1 < k2 < s.len() ==> (#[trigger] s[k1]).number < (#[trigger] s[k2]).number,
{
    lemma_candidates_below_props(cursor);
}

/// The shared test registry.  It owns the candidate generator, so
/// drawing a candidate and recording it as pending is one step, and
/// no candidate can ever be dispatched twice or skipped.
pub struct TestedNumbersState {
    tested_numbers_map: Vec<NumberState>,
    p_primes_gen: PotentialPrimesGenerator,
    found_primes_count: usize,
}

impl TestedNumbersState {
    /// The records, ascending by candidate.
    pub closed spec fn records(&self) -> Seq<NumberState> {
        self.tested_numbers_map@
    }

    /// The generator cursor: the next candidate to dispatch.
    pub closed spec fn cursor(&self) -> int {
        self.p_primes_gen.cursor()
    }

    /// The cached count of positive verdicts.
    pub closed spec fn counted(&self) -> int {
        self.found_primes_count as int
    }

    /// Registry invariant: the cursor is a sound generator state, the
    /// records mirror the candidate stream, verdicts only stand on
    /// completed tests, and the cached count matches the records.
    pub open spec fn wf(&self) -> bool {
        &&& self.cursor() == 2 || (self.cursor() >= 3 && self.cursor() % 2 == 1)
        &&& self.cursor() <= u64::MAX
        &&& records_match_candidates(self.records(), self.cursor())
        &&& flags_completed(self.records())
        &&& self.counted() == count_prime_flags(self.records())
    }

    /// A fresh registry: no records, cursor at the first candidate.
    pub fn new() -> (r: Self)
        ensures
            r.wf(),
            r.records().len() == 0,
            r.cursor() == 2,
            r.counted() == 0,
    {
        Self {
            tested_numbers_map: Vec::new(),
            p_primes_gen: PotentialPrimesGenerator::new(),
            found_primes_count: 0,
        }
    }

    /// Read access to the full record list, ascending by candidate.
    pub fn tested_numbers_map(&self) -> (r: &Vec<NumberState>)
        ensures
            r@ == self.records(),
    {
        &self.tested_numbers_map
    }

    /// Whether another candidate can be dispatched without the
    /// generator exceeding the machine word.
    pub fn can_test_new_number(&self) -> (r: bool)
        ensures
            r == (self.cursor() <= u64::MAX - 2),
    {
        self.p_primes_gen.can_advance()
    }

    /// Draws the next candidate from the generator and registers it
    /// as Processing.  The record is new by construction, nothing
    /// prime is skipped, and the count is untouched.
    pub fn test_new_number(&mut self) -> (r: u64)
        requires
            old(self).wf(),
            old(self).cursor() <= u64::MAX - 2,
        ensures
            final(self).wf(),
            r as int == old(self).cursor(),
            r >= 2,
            is_candidate(r as int),
            final(self).records() == old(self).records().push(
                NumberState { number: r, process_state: ProcessState::Processing, is_prime: false },
            ),
            final(self).cursor() == PotentialPrimesGenerator::next_cursor(old(self).cursor()),
            forall|m: int| r < m < final(self).cursor() ==> !is_prime_spec(m),
            final(self).counted() == old(self).counted(),
    {
        let next_number_to_test = self.p_primes_gen.next();
        let new_number_state = NumberState {
            number: next_number_to_test,
            process_state: ProcessState::Processing,
            is_prime: false,
        };
        self.tested_numbers_map.push(new_number_state);
        proof {
            let c = old(self).cursor();
            let cn = self.cursor();
            let olds = old(self).records();
            let news = self.records();
            if c == 2 {
                assert(candidates_below(3) =~= candidates_below(2).push(2));
            } else {
                assert(!is_candidate(c + 1));
                assert(candidates_below(c + 2) =~= candidates_below(c + 1));
                assert(candidates_below(c + 1) =~= candidates_below(c).push(c));
            }
            assert(candidates_below(cn) =~= candidates_below(c).push(c));
            assert forall|k: int|
                0 <= k < news.len() implies #[trigger] (news[k].number as int) == candidates_below(
                cn,
            )[k] by {
                if k < olds.len() {
                    assert(news[k] == olds[k]);
                } else {
                    assert(news[k] == new_number_state);
                }
            }
            assert(news.drop_last() =~= olds);
            assert(count_prime_flags(news) == count_prime_flags(olds));
        }
        next_number_to_test
    }

    /// Records a finished test.  On success the one Processing record
    /// for `number` becomes Completed with the given verdict and the
    /// count grows exactly when the verdict is positive.  Completing
    /// an unknown number or completing one twice changes nothing and
    /// reports the coordination fault.
    pub fn complete_tested_number(&mut self, number: u64, is_prime: bool) -> (r: Result<
        (),
        RegistryError,
    >)
        requires
            old(self).wf(),
        ensures
            final(self).wf(),
            final(self).cursor() == old(self).cursor(),
            match r {
                Ok(()) => {
                    &&& exists|k: int|
                        {
                            &&& 0 <= k < old(self).records().len()
                            &&& (#[trigger] old(self).records()[k]).number == number
                            &&& old(self).records()[k].process_state is Processing
                            &&& final(self).records() == old(self).records().update(
                                k,
                                NumberState {
                                    number,
                                    process_state: ProcessState::Completed,
                                    is_prime,
                                },
                            )
                        }
                    &&& final(self).counted() == old(self).counted() + (if is_prime {
                        1int
                    } else {
                        0int
                    })
                },
                Err(RegistryError::NotRegistered) => {
                    &&& forall|k: int|
                        0 <= k < old(self).records().len() ==> (#[trigger] old(
                            self,
                        ).records()[k]).number != number
                    &&& *final(self) == *old(self)
                },
                Err(RegistryError::AlreadyCompleted) => {
                    &&& exists|k: int|
                        {
                            &&& 0 <= k < old(self).records().len()
                            &&& (#[trigger] old(self).records()[k]).number == number
                            &&& old(self).records()[k].process_state is Completed
                        }
                    &&& *final(self) == *old(self)
                },
            },
    {
        let ghost olds = old(self).records();
        let mut idx: usize = 0;
        let len = self.tested_numbers_map.len();
        while idx < len
            invariant
                *self == *old(self),
                old(self).wf(),
                len == olds.len(),
                olds == old(self).records(),
                0 <= idx <= len,
                forall|k: int| 0 <= k < idx ==> (#[trigger] olds[k]).number != number,
            decreases len - idx,
        {
            if self.tested_numbers_map[idx].number == number {
                match self.tested_numbers_map[idx].process_state {
                    ProcessState::Processing => {
                        let rec = NumberState {
                            number,
                            process_state: ProcessState::Completed,
                            is_prime,
                        };
                        proof {
                            lemma_count_flags_update(olds, idx as int, rec);
                            lemma_count_flags_le_len(olds.update(idx as int, rec));
                            assert(!olds[idx as int].is_prime);
                        }
                        self.tested_numbers_map[idx] = rec;
                        if is_prime {
                            self.found_primes_count = self.found_primes_count + 1;
                        }
                        proof {
                            let news = self.records();
                            assert(news == olds.update(idx as int, rec));
                            assert forall|k: int|
                                0 <= k < news.len() implies #[trigger] (news[k].number as int)
                                == candidates_below(old(self).cursor())[k] by {
                                if k != idx {
                                    assert(news[k] == olds[k]);
                                }
                            }
                            assert forall|k: int|
                                0 <= k < news.len() && #[trigger] news[k].is_prime implies news[k].process_state
                                is Completed by {
                                if k != idx {
                                    assert(news[k] == olds[k]);
                                }
                            }
                        }
                        return Ok(());
                    },
                    ProcessState::Completed => {
                        return Err(RegistryError::AlreadyCompleted);
                    },
                }
            }
            idx = idx + 1;
        }
        Err(RegistryError::NotRegistered)
    }

    /// The n-th candidate with a positive verdict, 1-indexed in
    /// ascending order, or None when fewer than `n` have one so far.
    pub fn nth_prime(&self, n: usize) -> (r: Option<u64>)
        requires
            self.wf(),
            n >= 1,
        ensures
            match r {
                Some(p) => exists|j: int|
                    {
                        &&& 0 <= j < self.records().len()
                        &&& (#[trigger] self.records()[j]).number == p
                        &&& self.records()[j].is_prime
                        &&& count_prime_flags(self.records().take(j + 1)) == n
                    },
                None => count_prime_flags(self.records()) < n,
            },
    {
        let ghost s = self.records();
        let len = self.tested_numbers_map.len();
        let mut idx: usize = 0;
        let mut seen: usize = 0;
        while idx < len
            invariant
                len == s.len(),
                s == self.records(),
                0 <= idx <= len,
                n >= 1,
                seen as int == count_prime_flags(s.take(idx as int)),
                seen < n,
            decreases len - idx,
        {
            let rec = self.tested_numbers_map[idx];
            proof {
                lemma_count_flags_take_step(s, idx as int);
            }
            if rec.is_prime {
                seen = seen + 1;
                if seen == n {
                    return Some(rec.number);
                }
            }
            idx = idx + 1;
        }
        proof {
            assert(s.take(len as int) =~= s);
        }
        None
    }

    /// Whether any dispatched candidate is still being tested.  While
    /// this holds, a verdict for a smaller candidate may still be in
    /// flight, so extraction must wait.
    pub fn numbers_processing(&self) -> (r: bool)
        ensures
            r == exists|k: int|
                0 <= k < self.records().len() && (#[trigger] self.records()[k]).process_state
                    is Processing,
    {
        let ghost s = self.records();
        let len = self.tested_numbers_map.len();
        let mut idx: usize = 0;
        while idx < len
            invariant
                len == s.len(),
                s == self.records(),
                0 <= idx <= len,
                forall|k: int|
                    0 <= k < idx ==> !((#[trigger] s[k]).process_state is Processing),
            decreases len - idx,
        {
            if self.tested_numbers_map[idx].process_state.is_processing() {
                return true;
            }
            idx = idx + 1;
        }
        false
    }

    /// The number of candidates proved prime so far; never decreasing
    /// over the life of the registry.
    pub fn found_primes_count(&self) -> (r: usize)
        ensures
            r as int == self.counted(),
    {
        self.found_primes_count
    }
}

} // verus!
