//! The primality oracle and the number theory behind it.
//!
//! `is_prime_spec` is the mathematical definition of primality; the
//! executable oracle `check_if_prime` (trial division by 2, 3 and the
//! numbers 6k+5, 6k+7 up to the square root) is proved to decide it.

use vstd::prelude::*;
use vstd::arithmetic::div_mod::{
    lemma_fundamental_div_mod, lemma_mod_multiples_basic, lemma_mod_multiples_vanish,
};
use vstd::arithmetic::mul::lemma_mul_inequality;

verus! {

/// A number is prime when it is at least 2 and no number strictly
/// between 1 and it divides it.
pub open spec fn is_prime_spec(n: int) -> bool {
    n >= 2 && forall|d: int| 2 <= d < n ==> #[trigger] (n % d) != 0
}

/// Divisibility is transitive: if `k` divides `j` and `j` divides `n`,
/// then `k` divides `n`.
proof fn lemma_divisor_transfers(n: int, j: int, k: int)
    requires
        j >= 1,
        k >= 1,
        n % j == 0,
        j % k == 0,
    ensures
        n % k == 0,
{
    lemma_fundamental_div_mod(n, j);
    lemma_fundamental_div_mod(j, k);
    let qn = n / j;
    let qj = j / k;
    assert(n == (qj * qn) * k) by (nonlinear_arith)
        requires
            n == j * qn,
            j == k * qj,
    ;
    lemma_mod_multiples_basic(qj * qn, k);
}

/// An even number above 2 is not prime: 2 is a proper divisor.
proof fn lemma_even_not_prime(n: int)
    requires
        n >= 4,
        n % 2 == 0,
    ensures
        !is_prime_spec(n),
{
    assert(2 <= 2 < n && n % 2 == 0);
}

/// A composite number has a divisor no larger than its square root:
/// of two cofactors, the smaller one squared is at most the product.
proof fn lemma_small_factor(n: int)
    requires
        n >= 2,
        !is_prime_spec(n),
    ensures
        exists|d: int| 2 <= d && d * d <= n && #[trigger] (n % d) == 0,
{
    let d0 = choose|d: int| 2 <= d < n && #[trigger] (n % d) == 0;
    lemma_fundamental_div_mod(n, d0);
    let e = n / d0;
    assert(e >= 2) by (nonlinear_arith)
        requires
            n == d0 * e,
            2 <= d0 < n,
    ;
    if d0 <= e {
        assert(d0 * d0 <= n) by (nonlinear_arith)
            requires
                n == d0 * e,
                d0 <= e,
                d0 >= 2,
        ;
        assert(2 <= d0 && d0 * d0 <= n && n % d0 == 0);
    } else {
        lemma_mod_multiples_basic(d0, e);
        assert(d0 * e == e * d0) by (nonlinear_arith);
        assert(n % e == 0);
        assert(e * e <= n) by (nonlinear_arith)
            requires
                n == d0 * e,
                e < d0,
                e >= 2,
        ;
        assert(2 <= e && e * e <= n && n % e == 0);
    }
}

/// A number coprime to 2 and 3 leaves remainder 1 or 5 modulo 6.
proof fn lemma_mod6_residues(d: int)
    requires
        d >= 2,
        d % 2 != 0,
        d % 3 != 0,
    ensures
        d % 6 == 1 || d % 6 == 5,
{
    let r = d % 6;
    let q = d / 6;
    lemma_fundamental_div_mod(d, 6);
    lemma_mod_multiples_vanish(3 * q, r, 2);
    lemma_mod_multiples_vanish(2 * q, r, 3);
    assert(d == 2 * (3 * q) + r);
    assert(d == 3 * (2 * q) + r);
}

/// Within the window `[i, i + 6)` starting at a place with residue 5
/// modulo 6, the only spots with residue 1 or 5 are `i` and `i + 2`.
proof fn lemma_mod6_window(i: int, j: int)
    requires
        i % 6 == 5,
        i <= j < i + 6,
        j % 6 == 5 || j % 6 == 1,
    ensures
        j == i || j == i + 2,
{
    lemma_fundamental_div_mod(i, 6);
    lemma_fundamental_div_mod(j, 6);
}

/// Completeness of trial division in 6k+5, 6k+7 steps: a number not
/// divisible by 2 or 3 and with no divisor of residue 1 or 5 modulo 6
/// below `bound` is prime, provided `bound` squared exceeds it.
proof fn lemma_trial_division_prime(n: int, bound: int)
    requires
        n >= 5,
        n % 2 != 0,
        n % 3 != 0,
        bound >= 5,
        n < bound * bound,
        forall|j: int| 5 <= j < bound && (j % 6 == 5 || j % 6 == 1) ==> #[trigger] (n % j) != 0,
    ensures
        is_prime_spec(n),
{
    if !is_prime_spec(n) {
        lemma_small_factor(n);
        let d = choose|d: int| 2 <= d && d * d <= n && #[trigger] (n % d) == 0;
        if d % 2 == 0 {
            lemma_divisor_transfers(n, d, 2);
        }
        if d % 3 == 0 {
            lemma_divisor_transfers(n, d, 3);
        }
        assert(d >= 5);
        lemma_mod6_residues(d);
        assert(d < bound) by (nonlinear_arith)
            requires
                d * d <= n,
                n < bound * bound,
                d >= 0,
                bound >= 0,
        ;
        assert(n % d != 0);
        assert(false);
    }
}

/// The pure primality oracle: trial division by 2 and 3, then by
/// 6k+5 and 6k+7 while their square is at most `n`.  Deterministic,
/// stateless, and proved to agree with `is_prime_spec`.  Inputs below
/// 2 are outside the oracle's domain and are rejected up front.
pub fn check_if_prime(n: u64) -> (r: bool)
    requires
        n >= 2,
    ensures
        r == is_prime_spec(n as int),
{
    if n == 2 || n == 3 {
        return true;
    }
    if n % 2 == 0 {
        proof {
            assert(2 < n as int && (n as int) % 2 == 0);
        }
        return false;
    }
    if n % 3 == 0 {
        proof {
            assert(3 < n as int && (n as int) % 3 == 0);
        }
        return false;
    }
    let mut i: u64 = 5;
    while i <= n / i
        invariant
            n >= 5,
            n % 2 != 0,
            n % 3 != 0,
            5 <= i,
            i % 6 == 5,
            i <= n,
            forall|j: int|
                5 <= j < i && (j % 6 == 5 || j % 6 == 1) ==> #[trigger] ((n as int) % j) != 0,
        decreases n - i,
    {
        proof {
            lemma_fundamental_div_mod(n as int, i as int);
            lemma_mul_inequality(i as int, (n as int) / (i as int), i as int);
            assert((i as int) * (i as int) <= n as int);
        }
        if n % i == 0 {
            proof {
                assert(i < n) by (nonlinear_arith)
                    requires
                        (i as int) * (i as int) <= n as int,
                        i >= 2,
                ;
                assert(2 <= i as int && (i as int) < n as int && (n as int) % (i as int) == 0);
            }
            return false;
        }
        proof {
            assert(i + 2 < n) by (nonlinear_arith)
                requires
                    (i as int) * (i as int) <= n as int,
                    i >= 5,
            ;
        }
        if n % (i + 2) == 0 {
            proof {
                assert(2 <= i as int + 2 && (i as int + 2) < n as int && (n as int) % (i as int + 2) == 0);
            }
            return false;
        }
        proof {
            lemma_mul_inequality(5, i as int, i as int);
            assert(i + 6 <= n);
            assert forall|j: int|
                5 <= j < i + 6 && (j % 6 == 5 || j % 6 == 1) implies #[trigger] ((n as int) % j)
                != 0 by {
                if j >= i {
                    lemma_mod6_window(i as int, j);
                }
            }
        }
        i = i + 6;
    }
    proof {
        lemma_fundamental_div_mod(n as int, i as int);
        assert(n < (i as int) * (i as int)) by (nonlinear_arith)
            requires
                (n as int) / (i as int) < i as int,
                n as int == (i as int) * ((n as int) / (i as int)) + (n as int) % (i as int),
                0 <= (n as int) % (i as int) < i as int,
                i >= 5,
        ;
        lemma_trial_division_prime(n as int, i as int);
    }
    true
}

/// A candidate the generator may hand out: 2 itself, or any odd
/// number from 3 up.  Every prime is among the candidates.
pub open spec fn is_candidate(m: int) -> bool {
    m == 2 || (m >= 3 && m % 2 == 1)
}

/// The candidates strictly below `c`, in ascending order.
pub open spec fn candidates_below(c: int) -> Seq<int>
    decreases c,
{
    if c <= 2 {
        Seq::empty()
    } else if is_candidate(c - 1) {
        candidates_below(c - 1).push(c - 1)
    } else {
        candidates_below(c - 1)
    }
}

/// How many primes lie in the closed interval `[2, c]`.
pub open spec fn prime_count_upto(c: int) -> nat
    decreases c,
{
    if c < 2 {
        0
    } else {
        prime_count_upto(c - 1) + (if is_prime_spec(c) {
            1nat
        } else {
            0nat
        })
    }
}

/// `p` is the n-th prime, counting from `n == 1` at 2.
pub open spec fn is_nth_prime_spec(p: int, n: int) -> bool {
    is_prime_spec(p) && prime_count_upto(p) == n
}

/// Every prime is a candidate: a prime other than 2 is odd.
pub proof fn lemma_prime_is_candidate(m: int)
    requires
        is_prime_spec(m),
    ensures
        is_candidate(m),
{
    if m != 2 && !(m >= 3 && m % 2 == 1) {
        assert(m >= 4 && m % 2 == 0);
        lemma_even_not_prime(m);
    }
}

/// The prime count never goes down as the interval grows.
pub proof fn lemma_prime_count_monotone(a: int, b: int)
    requires
        a <= b,
    ensures
        prime_count_upto(a) <= prime_count_upto(b),
    decreases b - a,
{
    if a < b {
        lemma_prime_count_monotone(a, b - 1);
    }
}

/// The n-th prime is unique: two numbers that each carry the same
/// prime count and are themselves prime must coincide.  Hence any two
/// runs that deliver an n-th prime deliver the same one, no matter
/// how many workers they used or how their completions interleaved.
pub proof fn lemma_nth_prime_unique(p1: int, p2: int, n: int)
    requires
        is_nth_prime_spec(p1, n),
        is_nth_prime_spec(p2, n),
    ensures
        p1 == p2,
{
    if p1 < p2 {
        lemma_prime_count_monotone(p1, p2 - 1);
        assert(false);
    }
    if p2 < p1 {
        lemma_prime_count_monotone(p2, p1 - 1);
        assert(false);
    }
}

/// Every entry of `candidates_below(c)` is a candidate below `c`, and
/// the entries ascend strictly.
pub proof fn lemma_candidates_below_props(c: int)
    ensures
        forall|k: int|
            0 <= k < candidates_below(c).len() ==> is_candidate(
                #[trigger] candidates_below(c)[k],
            ) && 2 <= candidates_below(c)[k] < c,
        forall|k1: int, k2: int|
            0 <= k1 < k2 < candidates_below(c).len() ==> #[trigger] candidates_below(c)[k1]
                < #[trigger] candidates_below(c)[k2],
    decreases c,
{
    if c > 2 {
        lemma_candidates_below_props(c - 1);
        let s = candidates_below(c - 1);
        let t = candidates_below(c);
        assert forall|k: int| 0 <= k < t.len() implies is_candidate(#[trigger] t[k]) && 2 <= t[k]
            < c by {
            if is_candidate(c - 1) && k == s.len() {
                assert(t[k] == c - 1);
            } else {
                assert(t[k] == s[k]);
            }
        }
        assert forall|k1: int, k2: int|
            0 <= k1 < k2 < t.len() implies #[trigger] t[k1] < #[trigger] t[k2] by {
            if is_candidate(c - 1) && k2 == s.len() {
                assert(t[k1] == s[k1]);
                assert(s[k1] < c - 1);
            } else {
                assert(t[k1] == s[k1] && t[k2] == s[k2]);
            }
        }
    }
}

/// The candidate list below any bound contains every candidate below
/// it; with `lemma_prime_is_candidate` this says the pre-filter only
/// ever removes guaranteed composites, never a prime.
pub proof fn lemma_candidates_below_complete(c: int, m: int)
    requires
        is_candidate(m),
        2 <= m < c,
    ensures
        candidates_below(c).contains(m),
    decreases c,
{
    if c > 2 {
        if m == c - 1 {
            assert(candidates_below(c)[candidates_below(c).len() - 1] == m);
        } else {
            lemma_candidates_below_complete(c - 1, m);
            let idx = choose|idx: int|
                0 <= idx < candidates_below(c - 1).len() && #[trigger] candidates_below(
                    c - 1,
                )[idx] == m;
            assert(candidates_below(c)[idx] == m);
        }
    }
}

/// A prefix of the candidate list is itself a full candidate list:
/// cutting just after the entry `x` leaves the candidates below `x + 1`.
pub proof fn lemma_candidates_below_take(c: int, j: int)
    requires
        0 <= j < candidates_below(c).len(),
    ensures
        candidates_below(c).take(j + 1) == candidates_below(candidates_below(c)[j] + 1),
    decreases c,
{
    if c > 2 {
        let s = candidates_below(c - 1);
        if is_candidate(c - 1) {
            if j == s.len() {
                assert(candidates_below(c).take(j + 1) =~= candidates_below(c));
            } else {
                lemma_candidates_below_take(c - 1, j);
                assert(candidates_below(c).take(j + 1) =~= s.take(j + 1));
            }
        } else {
            lemma_candidates_below_take(c - 1, j);
        }
    }
}

/// Generates the ascending stream of candidates 2, 3, 5, 7, 9, 11, ...
/// The only numbers it ever skips are even numbers above 2 -- never a
/// prime.  It is not restartable mid-stream: a fresh generator is the
/// only way to start again from 2.
pub struct PotentialPrimesGenerator {
    current: u64,
}

impl PotentialPrimesGenerator {
    /// The candidate this generator will hand out next.
    pub closed spec fn cursor(&self) -> int {
        self.current as int
    }

    /// The cursor is 2 at the start and odd afterwards.
    pub open spec fn wf(&self) -> bool {
        &&& self.cursor() == 2 || (self.cursor() >= 3 && self.cursor() % 2 == 1)
        &&& self.cursor() <= u64::MAX
    }

    /// The cursor that follows `c` in the candidate stream.
    pub open spec fn next_cursor(c: int) -> int {
        if c == 2 {
            3
        } else {
            c + 2
        }
    }

    pub fn new() -> (r: Self)
        ensures
            r.wf(),
            r.cursor() == 2,
    {
        Self { current: 2 }
    }

    /// Whether the generator can advance again without leaving `u64`.
    pub fn can_advance(&self) -> (r: bool)
        ensures
            r == (self.cursor() <= u64::MAX - 2),
    {
        self.current <= u64::MAX - 2
    }

    /// Hands out the cursor and advances just past it.  Nothing
    /// strictly between the returned candidate and the new cursor is
    /// prime, so the stream never skips a prime.
    pub fn next(&mut self) -> (r: u64)
        requires
            old(self).wf(),
            old(self).cursor() <= u64::MAX - 2,
        ensures
            final(self).wf(),
            r as int == old(self).cursor(),
            final(self).cursor() == Self::next_cursor(old(self).cursor()),
            is_candidate(r as int),
            forall|m: int| r < m < final(self).cursor() ==> !is_prime_spec(m),
    {
        let v = self.current;
        if self.current == 2 {
            self.current = 3;
        } else {
            self.current = self.current + 2;
            proof {
                assert forall|m: int| v < m < self.cursor() implies !is_prime_spec(m) by {
                    assert(m == v + 1);
                    assert(m >= 4 && m % 2 == 0);
                    lemma_even_not_prime(m);
                }
            }
        }
        v
    }
}

/// The phases of one incremental primality test.
#[derive(Clone, Copy, Debug)]
pub enum CheckIfPrimeState {
    InitialCheck,
    DivisibilityChecks,
    Completed(bool),
}

impl CheckIfPrimeState {
    /// Whether this phase is a final verdict.
    pub fn is_completed(&self) -> (r: bool)
        ensures
            r == (self is Completed),
    {
        if let CheckIfPrimeState::Completed(_) = self {
            true
        } else {
            false
        }
    }
}

/// An incremental form of the oracle: each `next` call performs one
/// step of the same trial-division scheme as `check_if_prime`, so a
/// long test can be paused or interleaved between steps.
pub struct CheckIfPrimeIterator {
    number: u64,
    state: CheckIfPrimeState,
    divisor: u64,
}

impl CheckIfPrimeIterator {
    /// The number under test; fixed for the iterator's lifetime.
    pub closed spec fn number_spec(&self) -> int {
        self.number as int
    }

    /// The phase the test is in.
    pub closed spec fn state_spec(&self) -> CheckIfPrimeState {
        self.state
    }

    /// The next trial divisor (meaningful in the dividing phase).
    pub closed spec fn divisor_spec(&self) -> int {
        self.divisor as int
    }

    /// What the state machine maintains between steps: in the
    /// dividing phase the divisor has residue 5 modulo 6 and no
    /// number of residue 1 or 5 below it divides the number; a
    /// verdict, once reached, equals `is_prime_spec`.
    pub open spec fn wf(&self) -> bool {
        &&& self.number_spec() >= 2
        &&& match self.state_spec() {
            CheckIfPrimeState::InitialCheck => self.divisor_spec() == 5,
            CheckIfPrimeState::DivisibilityChecks => {
                &&& self.number_spec() >= 5
                &&& self.number_spec() % 2 != 0
                &&& self.number_spec() % 3 != 0
                &&& self.divisor_spec() >= 5
                &&& self.divisor_spec() % 6 == 5
                &&& self.divisor_spec() <= self.number_spec() + 6
                &&& forall|j: int|
                    5 <= j < self.divisor_spec() && (j % 6 == 5 || j % 6 == 1)
                        ==> #[trigger] (self.number_spec() % j) != 0
            },
            CheckIfPrimeState::Completed(b) => b == is_prime_spec(self.number_spec()),
        }
    }

    /// An upper bound on the steps still needed for a verdict; each
    /// `next` call strictly decreases it until the test completes.
    pub open spec fn steps_left(&self) -> int {
        match self.state_spec() {
            CheckIfPrimeState::InitialCheck => self.number_spec() + 15,
            CheckIfPrimeState::DivisibilityChecks => self.number_spec() + 7 - self.divisor_spec(),
            CheckIfPrimeState::Completed(_) => 0,
        }
    }

    pub fn new(number: u64) -> (r: Self)
        requires
            number >= 2,
        ensures
            r.wf(),
            r.number_spec() == number,
            r.state_spec() is InitialCheck,
    {
        Self { number, state: CheckIfPrimeState::InitialCheck, divisor: 5 }
    }

    /// Whether the test has reached its verdict.
    pub fn is_completed(&self) -> (r: bool)
        ensures
            r == (self.state_spec() is Completed),
    {
        self.state.is_completed()
    }

    /// One step of the test.  The number never changes, a verdict is
    /// final, and until one is reached every step makes progress.
    pub fn next(&mut self) -> (r: Option<CheckIfPrimeState>)
        requires
            old(self).wf(),
        ensures
            final(self).wf(),
            final(self).number_spec() == old(self).number_spec(),
            r == Some(final(self).state_spec()),
            old(self).state_spec() is Completed ==> final(self).state_spec() == old(
                self,
            ).state_spec(),
            !(old(self).state_spec() is Completed) ==> final(self).steps_left() < old(
                self,
            ).steps_left(),
    {
        let number = self.number;
        let new_state = match self.state {
            CheckIfPrimeState::InitialCheck => {
                if number == 2 || number == 3 {
                    CheckIfPrimeState::Completed(true)
                } else if number % 2 == 0 {
                    proof {
                        assert(2 < number as int && (number as int) % 2 == 0);
                    }
                    CheckIfPrimeState::Completed(false)
                } else if number % 3 == 0 {
                    proof {
                        assert(3 < number as int && (number as int) % 3 == 0);
                    }
                    CheckIfPrimeState::Completed(false)
                } else {
                    CheckIfPrimeState::DivisibilityChecks
                }
            },
            CheckIfPrimeState::DivisibilityChecks => {
                let divisor = self.divisor;
                if divisor <= number / divisor {
                    proof {
                        lemma_fundamental_div_mod(number as int, divisor as int);
                        assert((divisor as int) * (divisor as int) <= number as int)
                            by (nonlinear_arith)
                            requires
                                divisor as int <= (number as int) / (divisor as int),
                                number as int == (divisor as int) * ((number as int) / (
                                divisor as int)) + (number as int) % (divisor as int),
                                0 <= (number as int) % (divisor as int),
                                divisor >= 5,
                        ;
                        assert(divisor + 2 < number) by (nonlinear_arith)
                            requires
                                (divisor as int) * (divisor as int) <= number as int,
                                divisor >= 5,
                        ;
                    }
                    if number % divisor == 0 || number % (divisor + 2) == 0 {
                        proof {
                            if number % divisor == 0 {
                                assert(2 <= divisor as int && (divisor as int) < number as int
                                    && (number as int) % (divisor as int) == 0);
                            } else {
                                assert(2 <= divisor as int + 2 && (divisor as int + 2)
                                    < number as int && (number as int) % (divisor as int + 2)
                                    == 0);
                            }
                        }
                        CheckIfPrimeState::Completed(false)
                    } else {
                        proof {
                            lemma_mul_inequality(5, divisor as int, divisor as int);
                            assert(divisor + 6 <= number);
                            assert forall|j: int|
                                5 <= j < divisor + 6 && (j % 6 == 5 || j % 6 == 1) implies #[trigger] (
                            (number as int) % j) != 0 by {
                                if j >= divisor {
                                    lemma_mod6_window(divisor as int, j);
                                }
                            }
                        }
                        self.divisor = divisor + 6;
                        CheckIfPrimeState::DivisibilityChecks
                    }
                } else {
                    proof {
                        lemma_fundamental_div_mod(number as int, divisor as int);
                        assert(number < (divisor as int) * (divisor as int)) by (nonlinear_arith)
                            requires
                                (number as int) / (divisor as int) < divisor as int,
                                number as int == (divisor as int) * ((number as int) / (
                                divisor as int)) + (number as int) % (divisor as int),
                                0 <= (number as int) % (divisor as int) < divisor as int,
                                divisor >= 5,
                        ;
                        lemma_trial_division_prime(number as int, divisor as int);
                    }
                    CheckIfPrimeState::Completed(true)
                }
            },
            CheckIfPrimeState::Completed(b) => CheckIfPrimeState::Completed(b),
        };
        self.state = new_state;
        Some(self.state)
    }
}

} // verus!
