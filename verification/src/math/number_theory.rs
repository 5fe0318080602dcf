//! Greatest common divisors, modular powers, primality and factorisation.
use crate::common::minimap::MiniMap;
use crate::math::arith::{
    gcd_abs, gcd_nat, lemma_divisor_not_larger, lemma_gcd_divides,
    lemma_multiple_has_no_remainder, lemma_trunc_magnitudes, negatable, trunc_rem,
};
use crate::math::factors::{is_factorization, lemma_empty_product, product_of, record_factor};
use crate::math::sieve::is_prime_number;
use rand::Rng;
use vstd::arithmetic::div_mod::lemma_fundamental_div_mod;
use vstd::arithmetic::div_mod::{
    lemma_mod_bound, lemma_mul_mod_noop, lemma_mul_mod_noop_right, lemma_small_mod,
};
use vstd::arithmetic::power::{lemma_pow0, lemma_pow1, lemma_pow_adds, pow};
use vstd::arithmetic::power2::{
    lemma2_to64, lemma_pow2_strictly_increases, lemma_pow2_unfold, pow2,
};
use vstd::math::abs;
use vstd::prelude::*;

verus! {

/// Euclid's algorithm on signed integers with the truncating remainder.
///
/// Its magnitude is the greatest common divisor of the magnitudes
/// ([`lemma_euclid_magnitude`]); its sign is that of the last non-zero
/// remainder, and so may be negative.
pub open spec fn euclid(a: int, b: int) -> int
    decreases abs(b),
    via euclid_decreases
{
    if b == 0 {
        a
    } else {
        euclid(b, trunc_rem(a, b))
    }
}

#[via_fn]
proof fn euclid_decreases(a: int, b: int) {
    if b != 0 {
        lemma_trunc_magnitudes(a, b);
    }
}

/// The magnitude of [`euclid`] is the greatest common divisor of the
/// magnitudes of its arguments.
pub proof fn lemma_euclid_magnitude(a: int, b: int)
    ensures
        abs(euclid(a, b)) == gcd_abs(a, b),
    decreases abs(b),
{
    if b != 0 {
        lemma_trunc_magnitudes(a, b);
        lemma_euclid_magnitude(b, trunc_rem(a, b));
    }
}

/// Whether Euclid's algorithm on `a` and `b` stays within `i64`: the one
/// remainder that does not exist there is that of `i64::MIN` by `-1`.
pub open spec fn gcd_defined(a: i64, b: i64) -> bool {
    !(a == i64::MIN && b == -1) && !(a == -1 && b == i64::MIN)
}

/// Computes the greatest common divisor of `a` and `b` by Euclid's algorithm.
///
/// The result divides both arguments and every common divisor divides it; it
/// carries the sign that [`euclid`] gives it.
pub fn gcd(a: i64, b: i64) -> (r: i64)
    requires
        gcd_defined(a, b),
    ensures
        r == euclid(a as int, b as int),
        abs(r as int) == gcd_abs(a as int, b as int),
    decreases abs(b as int),
{
    proof {
        lemma_euclid_magnitude(a as int, b as int);
    }
    if b == 0 {
        a
    } else {
        proof {
            lemma_trunc_magnitudes(a as int, b as int);
            if b == i64::MIN && a != i64::MIN {
                lemma_small_mod(abs(a as int), abs(b as int));
            }
        }
        gcd(b, a % b)
    }
}

/// Euclid's algorithm on 128-bit integers.
pub fn euclid_wide(a: i128, b: i128) -> (r: i128)
    requires
        negatable(a as int),
        negatable(b as int),
    ensures
        r == euclid(a as int, b as int),
        abs(r as int) == gcd_abs(a as int, b as int),
        negatable(r as int),
{
    proof {
        lemma_euclid_magnitude(a as int, b as int);
    }
    let mut x: i128 = a;
    let mut y: i128 = b;
    while y != 0
        invariant
            negatable(x as int),
            negatable(y as int),
            euclid(x as int, y as int) == euclid(a as int, b as int),
        decreases abs(y as int),
    {
        proof {
            lemma_trunc_magnitudes(x as int, y as int);
        }
        let t: i128 = x % y;
        x = y;
        y = t;
    }
    x
}

/// Computes the greatest common divisor of two unsigned integers.
pub fn gcd_unsigned(a: u64, b: u64) -> (r: u64)
    ensures
        r == gcd_nat(a as nat, b as nat),
    decreases b,
{
    if b == 0 {
        a
    } else {
        gcd_unsigned(b, a % b)
    }
}

/// Whether `base` can be raised to a power modulo `modulus` in 128 bits: the
/// modulus is not zero, and neither the square of a residue nor the
/// product of the base and a residue overflows.
pub open spec fn mod_pow_defined(base: u128, modulus: u128) -> bool {
    &&& modulus > 0
    &&& (modulus - 1) * (modulus - 1) <= u128::MAX
    &&& base * (modulus - 1) <= u128::MAX
}

/// Raises `base` to the power `exponent` modulo `modulus`, by repeated
/// squaring.
pub fn mod_pow(base: u128, exponent: u128, modulus: u128) -> (r: u128)
    requires
        mod_pow_defined(base, modulus),
    ensures
        r == pow(base as int, exponent as nat) % (modulus as int),
        r < modulus,
    decreases exponent,
{
    let ghost b = base as int;
    let ghost m = modulus as int;
    proof {
        lemma_mod_bound(pow(b, exponent as nat), m);
    }
    if exponent == 0 {
        proof {
            lemma_pow0(b);
        }
        1 % modulus
    } else if exponent == 1 {
        proof {
            lemma_pow1(b);
        }
        base % modulus
    } else if exponent % 2 == 0 {
        let p = mod_pow(base, exponent / 2, modulus);
        proof {
            let half = (exponent / 2) as nat;
            lemma_pow_adds(b, half, half);
            lemma_mul_mod_noop(pow(b, half), pow(b, half), m);
            assert(p * p <= (modulus - 1) * (modulus - 1)) by (nonlinear_arith)
                requires
                    0 <= p <= modulus - 1,
            ;
        }
        (p * p) % modulus
    } else {
        let p = mod_pow(base, exponent - 1, modulus);
        proof {
            let less = (exponent - 1) as nat;
            reveal(pow);
            assert(pow(b, exponent as nat) == b * pow(b, less));
            lemma_mul_mod_noop_right(b, pow(b, less), m);
            assert(base * p <= base * (modulus - 1)) by (nonlinear_arith)
                requires
                    0 <= p <= modulus - 1,
                    base >= 0,
            ;
        }
        (base * p) % modulus
    }
}

/// The odd part of `m`: what is left when every factor two is taken out.
pub open spec fn odd_part(m: nat) -> nat
    decreases m,
{
    if m == 0 || m % 2 == 1 {
        m
    } else {
        odd_part(m / 2)
    }
}

/// The number of factors two in `m`.
pub open spec fn twos(m: nat) -> nat
    decreases m,
{
    if m == 0 || m % 2 == 1 {
        0
    } else {
        1 + twos(m / 2)
    }
}

/// Whether the odd number `n` is a strong probable prime to the base `a`:
/// with `n - 1 == d * 2^r` and `d` odd, either `a^d` is 1 modulo `n`, or
/// one of `a^d`, `a^(2d)`, ..., `a^(2^(r-1) d)` is -1 modulo `n`.
pub open spec fn strong_probable_prime(n: nat, a: nat) -> bool {
    let d = odd_part((n - 1) as nat);
    let r = twos((n - 1) as nat);
    pow(a as int, d) % (n as int) == 1 || exists|j: nat|
        j < r && #[trigger] pow(a as int, d * pow2(j)) % (n as int) == n - 1
}

/// The bases that decide primality for every 64-bit number.
pub open spec fn witness(k: int) -> nat {
    if k == 0 {
        2
    } else if k == 1 {
        325
    } else if k == 2 {
        9375
    } else if k == 3 {
        28178
    } else if k == 4 {
        450775
    } else if k == 5 {
        9780504
    } else {
        1795265022
    }
}

/// Whether `n` passes the tests to the bases from the `k`-th on. A base that
/// is a multiple of `n` ends the tests in favour of `n`.
pub open spec fn survives(n: nat, k: int) -> bool
    decreases 7 - k,
{
    if k >= 7 {
        true
    } else {
        let a = witness(k) % n;
        a == 0 || (strong_probable_prime(n, a) && survives(n, k + 1))
    }
}

/// What the Miller-Rabin test with the seven bases says of `n`.
pub open spec fn passes_miller_rabin(n: nat) -> bool {
    n == 2 || (n > 2 && n % 2 == 1 && survives(n, 0))
}

/// The `k`-th base.
fn base_at(k: usize) -> (r: u64)
    requires
        k < 7,
    ensures
        r == witness(k as int),
{
    if k == 0 {
        2
    } else if k == 1 {
        325
    } else if k == 2 {
        9375
    } else if k == 3 {
        28178
    } else if k == 4 {
        450775
    } else if k == 5 {
        9780504
    } else {
        1795265022
    }
}

/// Tests whether the odd `candidate` is a strong probable prime to `base`.
fn is_strong_probable_prime(candidate: u64, base: u64, r: u32, d: u64) -> (res: bool)
    requires
        candidate > 2,
        candidate % 2 == 1,
        0 < base < candidate,
        d == odd_part((candidate - 1) as nat),
        r == twos((candidate - 1) as nat),
    ensures
        res == strong_probable_prime(candidate as nat, base as nat),
{
    let ghost n = candidate as int;
    let ghost a = base as int;
    assert(r >= 1) by {
        reveal_with_fuel(twos, 2);
    }
    assert((candidate - 1) * (candidate - 1) <= u128::MAX && base * (candidate - 1) <= u128::MAX)
        by (nonlinear_arith)
        requires
            0 < base < candidate <= 0xffff_ffff_ffff_ffff,
    ;
    let first = mod_pow(base as u128, d as u128, candidate as u128) as u64;
    proof {
        assert(pow2(0) == 1) by {
            lemma2_to64();
        }
        assert(d * pow2(0) == d) by (nonlinear_arith)
            requires
                pow2(0) == 1,
        ;
    }
    if first == 1 || first == candidate - 1 {
        assert(first == 1 || pow(a, d as nat * pow2(0)) % n == n - 1);
        return true;
    }
    let mut x: u64 = first;
    let mut j: u32 = 1;
    while j < r
        invariant
            1 <= j,
            j <= r || r == 0,
            n == candidate,
            a == base,
            candidate > 2,
            d == odd_part((candidate - 1) as nat),
            r == twos((candidate - 1) as nat),
            x < candidate,
            x == pow(a, d as nat * pow2((j - 1) as nat)) % n,
            pow(a, d as nat) % n != 1,
            forall|i: nat| i < j ==> #[trigger] pow(a, d as nat * pow2(i)) % n != n - 1,
        decreases r - j,
    {
        proof {
            let e = d as nat * pow2((j - 1) as nat);
            lemma_pow2_unfold(j as nat);
            assert(d as nat * pow2(j as nat) == e + e) by (nonlinear_arith)
                requires
                    pow2(j as nat) == 2 * pow2((j - 1) as nat),
                    e == d as nat * pow2((j - 1) as nat),
            ;
            lemma_pow_adds(a, e, e);
            lemma_mul_mod_noop(pow(a, e), pow(a, e), n);
            assert(x * x <= (candidate - 1) * (candidate - 1) <= u128::MAX) by (nonlinear_arith)
                requires
                    0 <= x <= candidate - 1,
                    candidate <= 0xffff_ffff_ffff_ffff,
            ;
            lemma_mod_bound(x * x, n);
        }
        x = ((x as u128 * x as u128) % (candidate as u128)) as u64;
        if x == candidate - 1 {
            return true;
        }
        assert forall|i: nat| i < j + 1 implies #[trigger] pow(a, d as nat * pow2(i)) % n != n
            - 1 by {
            if i == j {
            }
        }
        j += 1;
    }
    false
}

/// Checks whether a given number is a prime, by the Miller-Rabin test with
/// seven bases that are known to decide every 64-bit number.
pub fn is_prime(candidate: u64) -> (r: bool)
    ensures
        r == passes_miller_rabin(candidate as nat),
{
    // 2 is the only even prime.
    if candidate <= 2 || candidate % 2 == 0 {
        return candidate == 2;
    }
    // Write the candidate as 2^r * d + 1.

    let mut d: u64 = candidate - 1;
    let mut r: u32 = 0;
    proof {
        lemma2_to64();
    }
    while d % 2 == 0
        invariant
            d > 0,
            r <= 63,
            odd_part(d as nat) == odd_part((candidate - 1) as nat),
            twos((candidate - 1) as nat) == r + twos(d as nat),
            d as int * pow2(r as nat) == candidate - 1,
        decreases d,
    {
        proof {
            lemma_pow2_unfold((r + 1) as nat);
            assert((d / 2) as int * pow2((r + 1) as nat) == d as int * pow2(r as nat))
                by (nonlinear_arith)
                requires
                    d % 2 == 0,
                    pow2((r + 1) as nat) == 2 * pow2(r as nat),
            ;
            if r >= 63 {
                lemma2_to64();
                if r > 63 {
                    lemma_pow2_strictly_increases(63, r as nat);
                }
                assert(false) by (nonlinear_arith)
                    requires
                        d as int * pow2(r as nat) <= 0xffff_ffff_ffff_ffff,
                        pow2(r as nat) >= 0x8000_0000_0000_0000,
                        d >= 2,
                ;
            }
        }
        d = d / 2;
        r += 1;
    }
    let mut k: usize = 0;
    while k < 7
        invariant
            0 <= k <= 7,
            candidate > 2,
            candidate % 2 == 1,
            d == odd_part((candidate - 1) as nat),
            r == twos((candidate - 1) as nat),
            survives(candidate as nat, 0) == survives(candidate as nat, k as int),
        decreases 7 - k,
    {
        // The base reduced modulo the candidate; a multiple of the
        // candidate shows that the candidate is one of the prime bases.
        let base = base_at(k) % candidate;
        if base == 0 {
            return true;
        }
        if !is_strong_probable_prime(candidate, base, r, d) {
            return false;
        }
        k += 1;
    }
    true
}

/// One step of the walk of Pollard's rho: `v * v + c` modulo `n`.
pub open spec fn rho_step(v: nat, c: nat, n: nat) -> nat {
    (v * v + c) % n
}

/// The distance between two naturals.
pub open spec fn distance(a: nat, b: nat) -> nat {
    if a >= b {
        (a - b) as nat
    } else {
        (b - a) as nat
    }
}

/// The walk of Pollard's rho from the pair `(x, y)`: `x` takes one step and
/// `y` two, until the distance between them shares a divisor with `n`.
/// The walk ends with that divisor if it is a proper one, and without a
/// result if it is `n` itself or if the steps run out.
pub open spec fn rho_walk(n: nat, c: nat, x: nat, y: nat, steps: nat) -> Option<nat>
    decreases steps,
{
    if steps == 0 {
        None
    } else {
        let x1 = rho_step(x, c, n);
        let y1 = rho_step(rho_step(y, c, n), c, n);
        let d = gcd_nat(distance(x1, y1), n);
        if d == 1 {
            rho_walk(n, c, x1, y1, (steps - 1) as nat)
        } else if d == n {
            None
        } else {
            Some(d)
        }
    }
}

/// One step of the walk on machine integers.
fn step(v: u64, c: u64, n: u64) -> (r: u64)
    requires
        v < n,
        c < n,
    ensures
        r == rho_step(v as nat, c as nat, n as nat),
        r < n,
{
    assert(v * v + c <= u128::MAX) by (nonlinear_arith)
        requires
            0 <= v <= 0xffff_ffff_ffff_ffff,
            0 <= c <= 0xffff_ffff_ffff_ffff,
    ;
    proof {
        lemma_mod_bound(v * v + c, n as int);
    }
    (((v as u128) * (v as u128) + (c as u128)) % (n as u128)) as u64
}

/// Looks for a proper divisor of `n` by one walk of Pollard's rho, with the
/// polynomial `x * x + c` and the start `start`.
///
/// The walk is given at most `n` steps, which is more than any walk needs to
/// come back to where it was. A divisor that is returned is a proper one.
pub fn rho_attempt(n: u64, start: u64, c: u64) -> (r: Option<u64>)
    requires
        n >= 2,
        start < n,
        c < n,
    ensures
        r.is_some() == rho_walk(n as nat, c as nat, start as nat, start as nat, n as nat).is_some(),
        r matches Some(d) ==> rho_walk(n as nat, c as nat, start as nat, start as nat, n as nat)
            == Some(d as nat) && 1 < d < n && n % d == 0,
{
    let mut x: u64 = start;
    let mut y: u64 = start;
    let mut steps: u64 = n;
    while steps > 0
        invariant
            n >= 2,
            c < n,
            x < n,
            y < n,
            rho_walk(n as nat, c as nat, x as nat, y as nat, steps as nat) == rho_walk(
                n as nat,
                c as nat,
                start as nat,
                start as nat,
                n as nat,
            ),
        decreases steps,
    {
        x = step(x, c, n);
        y = step(y, c, n);
        y = step(y, c, n);
        let gap = if x >= y {
            x - y
        } else {
            y - x
        };
        let d = gcd_unsigned(gap, n);
        proof {
            lemma_gcd_divides(gap as nat, n as nat);
            lemma_divisor_not_larger(d as int, n as int);
        }
        if d != 1 {
            if d == n {
                return None;
            } else {
                return Some(d);
            }
        }
        steps = steps - 1;
    }
    None
}

/// A random number from `low` up to, but not including, `high`.
///
/// Trusted: that `gen_range` of the generator of the thread returns a number
/// in the range it is given. Nothing is said of which one.
#[verifier::external_body]
fn random_between(low: u64, high: u64) -> (r: u64)
    requires
        low < high,
    ensures
        low <= r < high,
{
    rand::thread_rng().gen_range(low, high)
}

/// What counts as a prime factor: a number that the Miller-Rabin test
/// passes, or that no smaller number from two on divides.
pub open spec fn probable_prime() -> spec_fn(nat) -> bool {
    |p: nat| passes_miller_rabin(p) || is_prime_number(p)
}

/// The least divisor of `n` from two on.
fn least_divisor(n: u64) -> (d: u64)
    requires
        n >= 2,
    ensures
        2 <= d <= n,
        n % d == 0,
        d == n ==> is_prime_number(n as nat),
{
    let mut d: u64 = 2;
    while n % d != 0
        invariant
            2 <= d <= n,
            forall|k: nat| 2 <= k < d ==> #[trigger] (n as nat % k) != 0,
        decreases n - d,
    {
        proof {
            if d == n {
                lemma_multiple_has_no_remainder(n as int, 1);
            }
        }
        d += 1;
    }
    d
}

/// Finds a divisor of `n` other than one; it is `n` itself only if `n` is a
/// prime.
///
/// Pollard's rho is tried with random polynomials and starts. The attempts
/// are limited, so that the search ends whatever the random numbers are:
/// after the last one the least divisor is searched for directly.
fn find_divisor(n: u64) -> (d: u64)
    requires
        n >= 2,
    ensures
        2 <= d <= n,
        n % d == 0,
        d == n ==> is_prime_number(n as nat),
{
    let mut attempts: u32 = 0;
    while attempts < 64
        invariant
            n >= 2,
        decreases 64 - attempts,
    {
        let x = random_between(1, n);
        let c = random_between(1, n);
        match rho_attempt(n, x, c) {
            Some(d) => {
                return d;
            },
            None => {},
        }
        attempts += 1;
    }
    least_divisor(n)
}

/// Adds the prime factors of `n` to the factors that were found.
fn split(n: u64, factors: &mut MiniMap<usize>)
    requires
        n >= 1,
        old(factors).wf(),
        is_factorization(
            old(factors).entries(),
            product_of(old(factors).entries()),
            probable_prime(),
        ),
        product_of(old(factors).entries()) * n <= u64::MAX,
    ensures
        final(factors).wf(),
        is_factorization(
            final(factors).entries(),
            product_of(old(factors).entries()) * (n as nat),
            probable_prime(),
        ),
    decreases n,
{
    let ghost done = product_of(factors.entries());
    if n == 1 {
        assert(done * 1 == done) by (nonlinear_arith);
    } else if is_prime(n) {
        // The only factor of a prime is itself.
        record_factor(factors, n, Ghost(probable_prime()));
    } else {
        let d = find_divisor(n);
        if d == n {
            record_factor(factors, n, Ghost(probable_prime()));
        } else {
            proof {
                lemma_fundamental_div_mod(n as int, d as int);
                let q = n as int / d as int;
                assert(1 < q < n && done * d <= u64::MAX && (done * d) * q == done * n)
                    by (nonlinear_arith)
                    requires
                        n == d * q,
                        2 <= d < n,
                        done * n <= u64::MAX,
                        done >= 0,
                ;
            }
            split(d, factors);
            split(n / d, factors);
        }
    }
}

/// Factorises the given integer into its prime factors.
///
/// Returns the pairs of a prime and the number of times it divides `n`, in
/// increasing order of the primes; their product is `n`. What is taken for a
/// prime is what [`is_prime`] says is one.
pub fn factorize(n: u64) -> (r: Vec<(u64, usize)>)
    requires
        n >= 1,
    ensures
        is_factorization(r@, n as nat, probable_prime()),
{
    let mut factors: MiniMap<usize> = MiniMap::new();
    let mut rest: u64 = n;
    proof {
        lemma_empty_product(factors.entries());
        let product = product_of(factors.entries());
        assert(product * rest == rest) by (nonlinear_arith)
            requires
                product == 1,
        ;
    }
    // Take all trivial twos.
    while rest % 2 == 0
        invariant
            rest >= 1,
            factors.wf(),
            is_factorization(factors.entries(), product_of(factors.entries()), probable_prime()),
            product_of(factors.entries()) * rest == n,
        decreases rest,
    {
        proof {
            let done = product_of(factors.entries()) as int;
            assert(done * 2 * (rest as int / 2) == n && done * 2 <= n && rest as int / 2 >= 1)
                by (nonlinear_arith)
                requires
                    done * rest == n,
                    rest % 2 == 0,
                    rest >= 1,
                    done >= 0,
            ;
            assert(is_prime_number(2));
        }
        record_factor(&mut factors, 2, Ghost(probable_prime()));
        rest = rest / 2;
    }
    if rest > 1 {
        split(rest, &mut factors);
    } else {
        assert(product_of(factors.entries()) * 1 == product_of(factors.entries()))
            by (nonlinear_arith);
    }
    proof {
        factors.lemma_entries();
    }
    factors.into_inner()
}

} // verus!
