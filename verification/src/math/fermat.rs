//! Fermat's little theorem: modulo a prime, a residue that is not zero is
//! inverted by its power to the modulus less two.
use super::arith::{
    gcd_nat, lemma_divides_product, lemma_divisor_not_larger, lemma_gcd_divides,
    lemma_gcd_greatest, lemma_multiple_has_no_remainder,
};
use super::modint::{InvertibleModulus, Mod1e9p7, Modulus, RuntimePrimeModulus};
use super::sieve::is_prime_number;
use vstd::arithmetic::div_mod::{
    lemma_add_mod_noop, lemma_fundamental_div_mod, lemma_mod_equivalence,
    lemma_mod_multiples_vanish, lemma_mul_mod_noop_left, lemma_mul_mod_noop_right,
    lemma_small_mod, lemma_truncate_middle,
};
use vstd::arithmetic::power::{lemma0_pow, lemma_pow0, lemma_pow_positive, pow};
use vstd::prelude::*;

verus! {

/// A common factor of two numbers is a factor of their greatest common
/// divisor.
pub proof fn lemma_gcd_scales(k: nat, a: nat, b: nat)
    requires
        k > 0,
    ensures
        gcd_nat(k * a, k * b) == k * gcd_nat(a, b),
    decreases b,
{
    if b == 0 {
        assert(k * b == 0) by (nonlinear_arith)
            requires
                b == 0,
        ;
    } else {
        lemma_truncate_middle(a as int, k as int, b as int);
        assert((k * a) % (k * b) == k * (a % b));
        lemma_gcd_scales(k, b, a % b);
    }
}

/// A prime that divides a product divides one of its factors.
pub proof fn lemma_prime_divides_factor(p: nat, x: nat, y: nat)
    requires
        is_prime_number(p),
        (x * y) % p == 0,
    ensures
        x % p == 0 || y % p == 0,
{
    if x % p != 0 && y != 0 {
        let g = gcd_nat(x, p);
        lemma_gcd_divides(x, p);
        lemma_divisor_not_larger(g as int, p as int);
        assert(g == 1) by {
            if g >= 2 && g < p {
                assert(p % g != 0);
            }
        }
        lemma_gcd_scales(y, x, p);
        assert(y * gcd_nat(x, p) == y) by (nonlinear_arith)
            requires
                gcd_nat(x, p) == 1,
        ;
        assert(y * x == x * y) by (nonlinear_arith);
        assert(y * p == p * y) by (nonlinear_arith);
        lemma_multiple_has_no_remainder(p as int, y as int);
        lemma_gcd_greatest(y * x, y * p, p as int);
    }
}

/// The number of ways to pick `k` of `n` things, by Pascal's rule.
pub open spec fn binomial(n: nat, k: nat) -> nat
    decreases n,
{
    if k == 0 {
        1
    } else if n == 0 {
        0
    } else {
        binomial((n - 1) as nat, (k - 1) as nat) + binomial((n - 1) as nat, k)
    }
}

/// There is no way to pick more than all, and one way to pick all.
pub proof fn lemma_binomial_ends(n: nat, k: nat)
    ensures
        k > n ==> binomial(n, k) == 0,
        k == n ==> binomial(n, k) == 1,
    decreases n,
{
    if n > 0 && k > 0 {
        lemma_binomial_ends((n - 1) as nat, (k - 1) as nat);
        lemma_binomial_ends((n - 1) as nat, k);
    }
}

/// `k * binomial(n, k) == n * binomial(n - 1, k - 1)`.
pub proof fn lemma_binomial_absorbs(n: nat, k: nat)
    requires
        n >= 1,
        k >= 1,
    ensures
        k * binomial(n, k) == n * binomial((n - 1) as nat, (k - 1) as nat),
    decreases n,
{
    let above = (n - 1) as nat;
    let left = binomial(above, (k - 1) as nat) as int;
    let right = binomial(above, k) as int;
    assert(binomial(n, k) == left + right);
    if n == 1 {
        lemma_binomial_ends(0, k);
        lemma_binomial_ends(0, (k - 1) as nat);
        assert(k * (left + right) == 1 * left) by (nonlinear_arith)
            requires
                right == 0,
                k >= 1,
                k > 1 ==> left == 0,
        ;
    } else {
        let corner = binomial((above - 1) as nat, (k - 1) as nat) as int;
        lemma_binomial_absorbs(above, k);
        assert(k * right == above * corner);
        if k == 1 {
            assert(left == 1);
            assert(corner == 1);
            assert(k * (left + right) == n * left) by (nonlinear_arith)
                requires
                    k == 1,
                    left == 1,
                    corner == 1,
                    k * right == above * corner,
                    above == n - 1,
            ;
        } else {
            let far = binomial((above - 1) as nat, (k - 2) as nat) as int;
            lemma_binomial_absorbs(above, (k - 1) as nat);
            assert((k - 1) * left == above * far);
            assert(left == far + corner);
            assert(k * (left + right) == n * left) by (nonlinear_arith)
                requires
                    k * right == above * corner,
                    (k - 1) * left == above * far,
                    left == far + corner,
                    above == n - 1,
            ;
        }
    }
}

/// A prime divides the number of ways to pick some, but not all, of as many
/// things as the prime says.
pub proof fn lemma_prime_divides_binomial(p: nat, k: nat)
    requires
        is_prime_number(p),
        0 < k < p,
    ensures
        binomial(p, k) % p == 0,
{
    lemma_binomial_absorbs(p, k);
    lemma_multiple_has_no_remainder(p as int, binomial((p - 1) as nat, (k - 1) as nat) as int);
    lemma_prime_divides_factor(p, k, binomial(p, k));
    lemma_small_mod(k, p);
}

/// The sum of `binomial(n, k) * x^k` for `k` up to `m`.
pub open spec fn binomial_sum(n: nat, x: int, m: nat) -> int
    decreases m,
{
    if m == 0 {
        binomial(n, 0) * pow(x, 0)
    } else {
        binomial_sum(n, x, (m - 1) as nat) + binomial(n, m) * pow(x, m)
    }
}

/// Multiplying the sum by `x + 1` gives the sum of the next row, and one
/// term more.
pub proof fn lemma_binomial_sum_grows(n: nat, x: int, m: nat)
    ensures
        (x + 1) * binomial_sum(n, x, m) == binomial_sum(n + 1, x, m) + binomial(n, m) * pow(
            x,
            m + 1,
        ),
    decreases m,
{
    reveal(pow);
    let high = pow(x, m + 1);
    let low = pow(x, m);
    assert(high == x * low);
    if m == 0 {
        assert(low == 1);
        assert(binomial_sum(n, x, 0) == 1);
        assert(binomial_sum(n + 1, x, 0) == 1);
        assert(binomial(n, 0) * high == x);
    } else {
        let before = (m - 1) as nat;
        lemma_binomial_sum_grows(n, x, before);
        let a = binomial_sum(n, x, before);
        let next = binomial_sum(n + 1, x, before);
        let b = binomial(n, m) as int;
        let c = binomial(n, before) as int;
        assert(binomial(n + 1, m) == c + b);
        assert((x + 1) * a == next + c * low);
        assert((x + 1) * (a + b * low) == (next + (c + b) * low) + b * high) by (nonlinear_arith)
            requires
                (x + 1) * a == next + c * low,
                high == x * low,
        ;
    }
}

/// The binomial theorem for `x + 1`.
pub proof fn lemma_binomial_theorem(x: int, n: nat)
    ensures
        pow(x + 1, n) == binomial_sum(n, x, n),
    decreases n,
{
    reveal(pow);
    if n > 0 {
        let less = (n - 1) as nat;
        lemma_binomial_theorem(x, less);
        lemma_binomial_sum_grows(less, x, less);
        lemma_binomial_ends(less, less);
        lemma_binomial_ends(n, n);
        assert(binomial(less, less) * pow(x, n) == binomial(n, n) * pow(x, n));
    }
}

/// Modulo a prime, the terms of its row between the first and the last
/// vanish.
pub proof fn lemma_prime_row(p: nat, x: int, m: nat)
    requires
        is_prime_number(p),
        m < p,
    ensures
        binomial_sum(p, x, m) % (p as int) == 1,
    decreases m,
{
    reveal(pow);
    if m == 0 {
        assert(binomial_sum(p, x, 0) == 1);
        lemma_small_mod(1, p);
    } else {
        let before = (m - 1) as nat;
        lemma_prime_row(p, x, before);
        lemma_prime_divides_binomial(p, m);
        let term = binomial(p, m) * pow(x, m);
        lemma_divides_product(p as int, binomial(p, m) as int, pow(x, m));
        lemma_fundamental_div_mod(term, p as int);
        lemma_mod_multiples_vanish(term / (p as int), binomial_sum(p, x, before), p as int);
    }
}

/// Modulo a prime `p`, `(x + 1)^p` is `x^p + 1`.
pub proof fn lemma_prime_power_of_successor(p: nat, x: int)
    requires
        is_prime_number(p),
    ensures
        pow(x + 1, p) % (p as int) == (pow(x, p) + 1) % (p as int),
{
    let m = p as int;
    let before = (p - 1) as nat;
    lemma_binomial_theorem(x, p);
    lemma_prime_row(p, x, before);
    lemma_binomial_ends(p, p);
    assert(binomial(p, p) * pow(x, p) == pow(x, p));
    assert(pow(x + 1, p) == binomial_sum(p, x, before) + pow(x, p));
    lemma_add_mod_noop(binomial_sum(p, x, before), pow(x, p), m);
    lemma_add_mod_noop(1, pow(x, p), m);
    lemma_small_mod(1, p);
}

/// Fermat's little theorem: modulo a prime `p`, `a^p` is `a`.
pub proof fn lemma_prime_power(p: nat, a: nat)
    requires
        is_prime_number(p),
    ensures
        pow(a as int, p) % (p as int) == a % p,
    decreases a,
{
    let m = p as int;
    if a == 0 {
        lemma0_pow(p);
    } else {
        let less = (a - 1) as nat;
        lemma_prime_power(p, less);
        lemma_prime_power_of_successor(p, less as int);
        lemma_add_mod_noop(pow(less as int, p), 1, m);
        lemma_add_mod_noop(less as int, 1, m);
    }
}

/// Modulo a prime `p`, a residue that is not zero, multiplied by its power to
/// `p - 2`, gives one.
pub proof fn lemma_prime_power_inverts(p: nat, a: nat)
    requires
        is_prime_number(p),
        0 < a < p,
    ensures
        (a * (pow(a as int, (p - 2) as nat) % (p as int))) % (p as int) == 1,
{
    reveal(pow);
    let m = p as int;
    let b = a as int;
    let below = pow(b, (p - 2) as nat);
    let unit = pow(b, (p - 1) as nat);
    assert(unit == b * below);
    assert(pow(b, p) == b * unit);
    lemma_prime_power(p, a);
    lemma_small_mod(a, p);
    lemma_small_mod(1, p);
    lemma_pow_positive(b, (p - 1) as nat);
    let rest = (unit - 1) as nat;
    lemma_mod_equivalence(b * unit, b, m);
    assert(a * rest == b * unit - b) by (nonlinear_arith)
        requires
            rest == unit - 1,
            a == b,
    ;
    lemma_prime_divides_factor(p, a, rest);
    lemma_mod_equivalence(unit, 1, m);
    lemma_mul_mod_noop_right(b, below, m);
}

/// A modulus chosen at run time that is a prime inverts every residue but
/// zero: the residue times its inverse is one.
pub proof fn lemma_runtime_prime_inverts(modulus: RuntimePrimeModulus, residue: nat)
    requires
        is_prime_number(modulus.value()),
        0 < residue < modulus.value(),
    ensures
        (residue * modulus.inverse_of(residue)) % modulus.value() == 1,
{
    lemma_prime_power_inverts(modulus.value(), residue);
}

/// If 10^9 + 7 is a prime, that modulus inverts every residue but zero: the
/// residue times its inverse is one.
pub proof fn lemma_fixed_prime_inverts(modulus: Mod1e9p7, residue: nat)
    requires
        is_prime_number(1_000_000_007),
        0 < residue < 1_000_000_007,
    ensures
        (residue * modulus.inverse_of(residue)) % modulus.value() == 1,
{
    lemma_prime_power_inverts(1_000_000_007, residue);
}

/// Modulo a prime chosen at run time, a residue that is divided by another,
/// not zero, and then multiplied by it, is the residue again.
pub proof fn lemma_runtime_prime_divides(modulus: RuntimePrimeModulus, residue: nat, divisor: nat)
    requires
        is_prime_number(modulus.value()),
        residue < modulus.value(),
        0 < divisor < modulus.value(),
    ensures
        (((residue * modulus.inverse_of(divisor)) % modulus.value()) * divisor) % modulus.value()
            == residue,
{
    let m = modulus.value() as int;
    let a = residue as int;
    let b = divisor as int;
    let i = modulus.inverse_of(divisor) as int;
    lemma_prime_power_inverts(modulus.value(), divisor);
    lemma_mul_mod_noop_left(a * i, b, m);
    assert(a * i * b == a * (b * i)) by (nonlinear_arith);
    lemma_mul_mod_noop_right(a, b * i, m);
    lemma_small_mod(residue, modulus.value());
}

} // verus!
