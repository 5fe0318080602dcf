//! Prime numbers, prime factorisations and the sieve of Eratosthenes.
use crate::common::minimap::MiniMap;
use crate::math::factors::{is_factorization, lemma_empty_product, product_of, record_factor};
use crate::math::arith::{
    lemma_divides_transitive, lemma_divisor_not_larger, lemma_multiple_has_no_remainder,
};
use vstd::arithmetic::div_mod::lemma_fundamental_div_mod;
use vstd::prelude::*;

verus! {

/// Whether `n` is a prime number.
pub open spec fn is_prime_number(n: nat) -> bool {
    n >= 2 && forall|d: nat| 2 <= d < n ==> #[trigger] (n % d) != 0
}

/// Whether `p` is the largest prime that divides `m`.
pub open spec fn is_largest_prime_factor(p: nat, m: nat) -> bool {
    &&& is_prime_number(p)
    &&& m % p == 0
    &&& forall|q: nat| is_prime_number(q) && #[trigger] (m % q) == 0 ==> q <= p
}

/// Every number from two on has a prime divisor.
pub proof fn lemma_has_prime_divisor(n: nat)
    requires
        n >= 2,
    ensures
        exists|p: nat| is_prime_number(p) && p <= n && #[trigger] (n % p) == 0,
    decreases n,
{
    if is_prime_number(n) {
        lemma_multiple_has_no_remainder(n as int, 1);
        assert(n % n == 0);
    } else {
        let d = choose|d: nat| 2 <= d < n && #[trigger] (n % d) == 0;
        lemma_has_prime_divisor(d);
        let p = choose|p: nat| is_prime_number(p) && p <= d && #[trigger] (d % p) == 0;
        lemma_divides_transitive(p as int, d as int, n as int);
        assert(n % p == 0);
    }
}

/// Between two consecutive multiples of `i` there is no multiple of `i`.
proof fn lemma_no_multiple_between(i: int, j: int, m: int)
    requires
        i > 0,
        j % i == 0,
        j < m < j + i,
    ensures
        m % i != 0,
{
    if m % i == 0 {
        lemma_fundamental_div_mod(j, i);
        lemma_fundamental_div_mod(m, i);
        let k = j / i;
        let q = m / i;
        assert(false) by (nonlinear_arith)
            requires
                i > 0,
                j == i * k,
                m == i * q,
                j < m < j + i,
        ;
    }
}

/// Sieve of Eratosthenes.
///
/// The sieve holds, for every number up to its limit, the largest prime
/// that divides it; for 0 and 1, which no prime is taken to divide, it
/// holds 0. It tells in constant time whether a number is prime, and
/// factorises a number in time logarithmic in the number.
pub struct PrimeSieve(Vec<u64>);

impl View for PrimeSieve {
    type V = Seq<u64>;

    closed spec fn view(&self) -> Seq<u64> {
        self.0@
    }
}

/// What the sieve holds for `m` when the primes below `bound` have been
/// struck: the largest of them that divides `m`, or 0 if none does.
pub open spec fn struck(value: u64, m: nat, bound: nat) -> bool {
    if value == 0 {
        forall|p: nat| is_prime_number(p) && p < bound ==> #[trigger] (m % p) != 0
    } else {
        &&& is_prime_number(value as nat)
        &&& value < bound
        &&& m % (value as nat) == 0
        &&& forall|p: nat| is_prime_number(p) && p < bound && #[trigger] (m % p) == 0 ==> p <= value
    }
}

/// Whether the table is that of a sieve: 0 for 0 and 1, and the largest
/// prime factor for every other index.
pub open spec fn is_sieve(table: Seq<u64>) -> bool {
    &&& table.len() >= 1
    &&& forall|m: int| 0 <= m < table.len() && m < 2 ==> #[trigger] table[m] == 0
    &&& forall|m: int|
        2 <= m < table.len() ==> is_largest_prime_factor((#[trigger] table[m]) as nat, m as nat)
}

impl PrimeSieve {
    /// Validity of the type.
    pub open spec fn wf(&self) -> bool {
        is_sieve(self@)
    }

    /// Constructs the sieve for the numbers up to `n`.
    pub fn new(n: u64) -> (r: PrimeSieve)
        requires
            n < usize::MAX,
        ensures
            r.wf(),
            r@.len() == n + 1,
    {
        let mut sieve: Vec<u64> = vec![0; n as usize + 1];
        let mut i: u64 = 2;
        while i <= n
            invariant
                2 <= i,
                i == 2 || i % 2 == 1,
                n < usize::MAX,
                sieve@.len() == n + 1,
                forall|m: int| 0 <= m < sieve@.len() && m < 2 ==> #[trigger] sieve@[m] == 0,
                forall|m: int| 2 <= m <= n ==> struck(#[trigger] sieve@[m], m as nat, i as nat),
            decreases n + 2 - i,
        {
            let ghost before = sieve@;
            let next: u64 = if i == 2 {
                3
            } else {
                i + 2
            };
            if sieve[i as usize] == 0 {
                // A prime: every multiple of it has it as a divisor.
                proof {
                    lemma_has_prime_divisor(i as nat);
                    assert(is_prime_number(i as nat));
                    lemma_multiple_has_no_remainder(i as int, 1);
                }
                let mut j: u64 = i;
                loop
                    invariant_except_break
                        forall|m: int|
                            0 <= m <= n ==> #[trigger] sieve@[m] == (if m >= i && m < j && m % (
                            i as int) == 0 {
                                i
                            } else {
                                before[m]
                            }),
                    invariant
                        2 <= i <= j <= n,
                        j % i == 0,
                        n < usize::MAX,
                        sieve@.len() == n + 1,
                        before.len() == n + 1,
                    ensures
                        sieve@.len() == n + 1,
                        forall|m: int|
                            0 <= m <= n ==> #[trigger] sieve@[m] == (if m >= i && m % (i as int)
                                == 0 {
                                i
                            } else {
                                before[m]
                            }),
                    decreases n - j,
                {
                    sieve[j as usize] = i;
                    if n - j < i {
                        assert forall|m: int| 0 <= m <= n implies #[trigger] sieve@[m] == (if m
                            >= i && m % (i as int) == 0 {
                            i
                        } else {
                            before[m]
                        }) by {
                            if m > j {
                                lemma_no_multiple_between(i as int, j as int, m);
                            }
                        }
                        break ;
                    }
                    assert forall|m: int| 0 <= m <= n implies #[trigger] sieve@[m] == (if m >= i
                        && m < j + i && m % (i as int) == 0 {
                        i
                    } else {
                        before[m]
                    }) by {
                        if j < m < j + i {
                            lemma_no_multiple_between(i as int, j as int, m);
                        }
                    }
                    proof {
                        lemma_multiple_has_no_remainder(i as int, j as int / i as int + 1);
                        lemma_fundamental_div_mod(j as int, i as int);
                        assert(i as int * (j as int / i as int + 1) == j + i) by (nonlinear_arith)
                            requires
                                j == i as int * (j as int / i as int),
                        ;
                    }
                    j = j + i;
                }
            }
            proof {
                assert forall|m: int| 2 <= m <= n implies struck(
                    #[trigger] sieve@[m],
                    m as nat,
                    next as nat,
                ) by {
                    lemma_next_bound(before[m], sieve@[m], m as nat, i as nat, next as nat);
                }
            }
            i = next;
        }
        proof {
            assert forall|m: int| 2 <= m < sieve@.len() implies is_largest_prime_factor(
                (#[trigger] sieve@[m]) as nat,
                m as nat,
            ) by {
                assert(struck(sieve@[m], m as nat, i as nat));
                lemma_has_prime_divisor(m as nat);
                let p = choose|p: nat| is_prime_number(p) && p <= m as nat && #[trigger] (m as nat
                    % p) == 0;
                assert(p < i);
                assert(sieve@[m] != 0);
                assert forall|q: nat| is_prime_number(q) && #[trigger] (m as nat % q)
                    == 0 implies q <= sieve@[m] by {
                    lemma_divisor_not_larger(q as int, m);
                }
            }
        }
        PrimeSieve(sieve)
    }

    /// Checks whether the given number is a prime.
    pub fn is_prime(&self, n: u64) -> (r: bool)
        requires
            self.wf(),
            n < self@.len(),
        ensures
            r == is_prime_number(n as nat),
    {
        let limit = self.0.len();
        if n < 2 {
            false
        } else {
            assert(n < limit);
            proof {
                let value = self.0@[n as int];
                assert(is_largest_prime_factor(value as nat, n as nat));
                lemma_multiple_has_no_remainder(n as int, 1);
                assert(n as nat % n as nat == 0);
                lemma_divisor_not_larger(value as int, n as int);
                if is_prime_number(n as nat) {
                    assert(n <= value);
                }
            }
            self.0[n as usize] == n
        }
    }

    /// Factorises the given number into its prime factors.
    ///
    /// Returns the pairs of a prime and the number of times it divides `n`,
    /// in increasing order of the primes. For 0 and 1 there are none.
    pub fn factorize(&self, n: u64) -> (r: Vec<(u64, usize)>)
        requires
            self.wf(),
            n < self@.len(),
        ensures
            n >= 1 ==> is_factorization(r@, n as nat, |p: nat| is_prime_number(p)),
            n == 0 ==> r@.len() == 0,
    {
        let mut factors: MiniMap<usize> = MiniMap::new();
        let mut rest: u64 = n;
        let limit = self.0.len();
        let ghost prime = |p: nat| is_prime_number(p);
        proof {
            lemma_empty_product(factors.entries());
        }
        while rest > 1
            invariant
                self.wf(),
                n < self@.len(),
                limit == self.0@.len(),
                rest <= n,
                n >= 1 ==> rest >= 1,
                prime == |p: nat| is_prime_number(p),
                factors.wf(),
                n == 0 ==> factors.entries().len() == 0,
                n >= 1 ==> is_factorization(
                    factors.entries(),
                    product_of(factors.entries()),
                    prime,
                ) && product_of(factors.entries()) * rest == n,
            decreases rest,
        {
            let p = self.0[rest as usize];
            proof {
                assert(is_largest_prime_factor(self.0@[rest as int] as nat, rest as nat));
                lemma_fundamental_div_mod(rest as int, p as int);
                let done = product_of(factors.entries()) as int;
                let next = rest as int / p as int;
                assert(done * p * next == n && done * p >= 1 && next >= 1 && next < rest && done * p
                    <= n) by (nonlinear_arith)
                    requires
                        done * rest == n,
                        rest == p * next,
                        p >= 2,
                        rest >= 2,
                        done >= 0,
                        n >= 1,
                ;
                assert(prime(p as nat));
            }
            record_factor(&mut factors, p, Ghost(prime));
            rest = rest / p;
        }
        proof {
            factors.lemma_entries();
            if n >= 1 {
                assert(rest == 1);
                assert(product_of(factors.entries()) * 1 == product_of(factors.entries()))
                    by (nonlinear_arith);
            }
        }
        factors.into_inner()
    }

    /// Turns the sieve into the vector that holds the largest prime divisor
    /// of each index.
    pub fn into_inner(self) -> (r: Vec<u64>)
        ensures
            r@ == self@,
    {
        self.0
    }
}

/// What was struck for the primes below `i` is struck for the primes below
/// the next candidate, once the multiples of a prime `i` hold `i`.
proof fn lemma_next_bound(old_value: u64, new_value: u64, m: nat, i: nat, next: nat)
    requires
        m >= 2,
        i >= 2,
        i == 2 || i % 2 == 1,
        next == i + 1 || next == i + 2,
        i == 2 ==> next == 3,
        struck(old_value, m, i),
        is_prime_number(i) ==> new_value == (if m >= i && m % i == 0 {
            i as u64
        } else {
            old_value
        }),
        !is_prime_number(i) ==> new_value == old_value,
        i <= u64::MAX,
    ensures
        struck(new_value, m, next),
{
    // The number after an odd candidate is even and so not a prime.
    if next == i + 2 {
        assert(!is_prime_number(i + 1)) by {
            assert((i + 1) % 2 == 0);
        }
    }
    if is_prime_number(i) && m % i == 0 {
        lemma_divisor_not_larger(i as int, m as int);
    }
}

} // verus!
