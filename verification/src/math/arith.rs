//! Integer division as machines do it, and the greatest common divisor.
//!
//! Specifications divide in the Euclidean way; machine integers truncate
//! toward zero. The functions here name the machine's quotient and remainder
//! and relate them to the mathematical ones.
use vstd::arithmetic::div_mod::{lemma_fundamental_div_mod, lemma_fundamental_div_mod_converse};
use vstd::math::abs;
use vstd::prelude::*;

verus! {

/// The quotient of `a` by `b`, rounded toward zero.
pub open spec fn trunc_div(a: int, b: int) -> int {
    if a >= 0 {
        a / b
    } else {
        -((-a) / b)
    }
}

/// The remainder that goes with [`trunc_div`]; it has the sign of `a`.
pub open spec fn trunc_rem(a: int, b: int) -> int {
    if a >= 0 {
        a % b
    } else {
        -((-a) % b)
    }
}

/// Whether `v` is a value of `i64`.
pub open spec fn fits_i64(v: int) -> bool {
    i64::MIN <= v <= i64::MAX
}

/// The greatest common divisor of two naturals, with `gcd_nat(0, 0) == 0`.
pub open spec fn gcd_nat(a: nat, b: nat) -> nat
    decreases b,
{
    if b == 0 {
        a
    } else {
        gcd_nat(b, a % b)
    }
}

/// The greatest common divisor of the magnitudes of two integers.
pub open spec fn gcd_abs(a: int, b: int) -> nat {
    gcd_nat(abs(a), abs(b))
}

/// Euclidean division by a non-zero divisor of either sign: the remainder is
/// below the divisor's magnitude and the quotient is no larger than the
/// dividend.
pub proof fn lemma_euclid_division(a: int, b: int)
    requires
        a >= 0,
        b != 0,
    ensures
        a == b * (a / b) + a % b,
        0 <= a % b < abs(b),
        -a <= a / b <= a,
        b > 0 ==> a / b >= 0,
        b < 0 ==> a / b <= 0,
        a % b == a % (abs(b) as int),
        abs(a / b) == a / (abs(b) as int),
{
    assert(a == b * (a / b) + a % b && 0 <= a % b && (b > 0 ==> a % b < b) && (b < 0 ==> a % b
        < -b)) by (nonlinear_arith)
        requires
            b != 0,
    ;
    assert(-a <= a / b <= a && (b > 0 ==> a / b >= 0) && (b < 0 ==> a / b <= 0))
        by (nonlinear_arith)
        requires
            a >= 0,
            b != 0,
            a == b * (a / b) + a % b,
            0 <= a % b,
            (b > 0 ==> a % b < b),
            (b < 0 ==> a % b < -b),
    ;
    if b < 0 {
        assert(a == (-(a / b)) * (-b) + a % b) by (nonlinear_arith)
            requires
                a == b * (a / b) + a % b,
        ;
        lemma_fundamental_div_mod_converse(a, -b, -(a / b), a % b);
    }
}

/// Truncating division in terms of magnitudes: the quotient's magnitude is the
/// quotient of the magnitudes, and likewise for the remainder.
pub proof fn lemma_trunc_magnitudes(a: int, b: int)
    requires
        b != 0,
    ensures
        abs(trunc_div(a, b)) == abs(a) / abs(b),
        abs(trunc_rem(a, b)) == abs(a) % abs(b),
        abs(trunc_rem(a, b)) < abs(b),
        a == b * trunc_div(a, b) + trunc_rem(a, b),
        a >= 0 ==> trunc_rem(a, b) >= 0,
        a <= 0 ==> trunc_rem(a, b) <= 0,
{
    if a >= 0 {
        lemma_euclid_division(a, b);
    } else {
        lemma_euclid_division(-a, b);
        assert(a == b * (-((-a) / b)) + (-((-a) % b))) by (nonlinear_arith)
            requires
                -a == b * ((-a) / b) + (-a) % b,
        ;
    }
}

/// A multiple of a positive number leaves no remainder.
pub proof fn lemma_multiple_has_no_remainder(d: int, k: int)
    requires
        d > 0,
    ensures
        (d * k) % d == 0,
        (d * k) / d == k,
{
    assert(d * k == k * d + 0) by (nonlinear_arith);
    lemma_fundamental_div_mod_converse(d * k, d, k, 0);
}

/// The sum and the difference of two multiples of `d` are multiples of `d`.
pub proof fn lemma_divides_sum(d: int, x: int, y: int)
    requires
        d > 0,
        x % d == 0,
        y % d == 0,
    ensures
        (x + y) % d == 0,
        (x - y) % d == 0,
{
    lemma_fundamental_div_mod(x, d);
    lemma_fundamental_div_mod(y, d);
    let p = x / d;
    let q = y / d;
    assert(x + y == d * (p + q)) by (nonlinear_arith)
        requires
            x == d * p,
            y == d * q,
    ;
    assert(x - y == d * (p - q)) by (nonlinear_arith)
        requires
            x == d * p,
            y == d * q,
    ;
    lemma_multiple_has_no_remainder(d, p + q);
    lemma_multiple_has_no_remainder(d, p - q);
}

/// A multiple of a multiple of `d` is a multiple of `d`.
pub proof fn lemma_divides_product(d: int, x: int, k: int)
    requires
        d > 0,
        x % d == 0,
    ensures
        (x * k) % d == 0,
        (k * x) % d == 0,
{
    lemma_fundamental_div_mod(x, d);
    let p = x / d;
    assert(x * k == d * (p * k) && k * x == d * (p * k)) by (nonlinear_arith)
        requires
            x == d * p,
    ;
    lemma_multiple_has_no_remainder(d, p * k);
}

/// Divisibility is transitive.
pub proof fn lemma_divides_transitive(d: int, e: int, x: int)
    requires
        d > 0,
        e > 0,
        e % d == 0,
        x % e == 0,
    ensures
        x % d == 0,
{
    lemma_fundamental_div_mod(x, e);
    assert(x == e * (x / e));
    lemma_divides_product(d, e, x / e);
}

/// A positive multiple of `d` is at least `d`.
pub proof fn lemma_divisor_not_larger(d: int, x: int)
    requires
        d > 0,
        x > 0,
        x % d == 0,
    ensures
        d <= x,
{
    lemma_fundamental_div_mod(x, d);
    assert(d <= x) by (nonlinear_arith)
        requires
            d > 0,
            x > 0,
            x == d * (x / d),
    ;
}

/// Division by a positive divisor of `n` is exact, whichever way it rounds,
/// and commutes with negation.
pub proof fn lemma_exact_division(n: int, g: int)
    requires
        g > 0,
        abs(n) as int % g == 0,
    ensures
        n == g * (n / g),
        n % g == 0,
        trunc_div(n, g) == n / g,
        trunc_rem(n, g) == 0,
        (-n) / g == -(n / g),
        abs(n / g) == abs(n) as int / g,
{
    let m = abs(n) as int;
    lemma_fundamental_div_mod(m, g);
    let k = m / g;
    if n >= 0 {
        lemma_multiple_has_no_remainder(g, -k);
        assert(-n == g * (-k)) by (nonlinear_arith)
            requires
                n == g * k,
        ;
    } else {
        lemma_multiple_has_no_remainder(g, -k);
        assert(n == g * (-k)) by (nonlinear_arith)
            requires
                -n == g * k,
        ;
    }
    assert(k >= 0) by (nonlinear_arith)
        requires
            m >= 0,
            g > 0,
            m == g * k,
    ;
}

/// Exact division by a divisor of either sign: dividing by `-g` negates the
/// quotient, and truncation does not matter.
pub proof fn lemma_exact_signed_division(n: int, g: int)
    requires
        g != 0,
        abs(n) as int % abs(g) as int == 0,
    ensures
        n == g * (n / g),
        trunc_div(n, g) == n / g,
        n / (-g) == -(n / g),
        abs(n / g) == abs(n) as int / abs(g) as int,
        abs(n / g) <= abs(n),
{
    let m = abs(g) as int;
    lemma_exact_division(n, m);
    lemma_euclid_division(abs(n) as int, m);
    let k = n / m;
    assert(n == (-m) * (-k)) by (nonlinear_arith)
        requires
            n == m * k,
    ;
    assert(n == (-k) * (-m) + 0 && n == k * m + 0) by (nonlinear_arith)
        requires
            n == m * k,
    ;
    // Euclidean division by a negative divisor, through its defining equation.
    assert(n / (-m) == -k) by {
        let q = n / (-m);
        let r = n % (-m);
        assert(n == (-m) * q + r && 0 <= r < m) by (nonlinear_arith)
            requires
                q == n / (-m),
                r == n % (-m),
                m > 0,
        ;
        assert(q == -k) by (nonlinear_arith)
            requires
                n == (-m) * q + r,
                n == m * k,
                0 <= r < m,
                m > 0,
        ;
    }
    if n < 0 {
        lemma_exact_division(-n, m);
        assert((-n) / (-m) == k) by {
            let q = (-n) / (-m);
            let r = (-n) % (-m);
            assert(-n == (-m) * q + r && 0 <= r < m) by (nonlinear_arith)
                requires
                    q == (-n) / (-m),
                    r == (-n) % (-m),
                    m > 0,
            ;
            assert(q == k) by (nonlinear_arith)
                requires
                    -n == (-m) * q + r,
                    n == m * k,
                    0 <= r < m,
                    m > 0,
            ;
        }
    }
}

/// The quotient of the pair `(n, d)` in lowest terms with a positive
/// denominator; meaningful for `d != 0`.
pub open spec fn reduced(n: int, d: int) -> (int, int) {
    let g = gcd_abs(n, d) as int;
    if d > 0 {
        (n / g, d / g)
    } else {
        ((-n) / g, (-d) / g)
    }
}

/// Whether the pair `(n, d)` is in lowest terms with a positive denominator.
pub open spec fn is_canonical(n: int, d: int) -> bool {
    d > 0 && gcd_abs(n, d) == 1
}

/// `gcd_nat(a, b)` divides `a` and `b`, and is zero only for `a == b == 0`.
pub proof fn lemma_gcd_divides(a: nat, b: nat)
    ensures
        gcd_nat(a, b) == 0 <==> (a == 0 && b == 0),
        gcd_nat(a, b) > 0 ==> a % gcd_nat(a, b) == 0 && b % gcd_nat(a, b) == 0,
    decreases b,
{
    if b != 0 {
        lemma_gcd_divides(b, a % b);
        let g = gcd_nat(a, b) as int;
        lemma_fundamental_div_mod(a as int, b as int);
        lemma_divides_product(g, b as int, a as int / b as int);
        lemma_divides_sum(g, b as int * (a as int / b as int), (a % b) as int);
    } else if a > 0 {
        lemma_multiple_has_no_remainder(a as int, 1);
        lemma_multiple_has_no_remainder(a as int, 0);
    }
}

/// Every common divisor of `a` and `b` divides `gcd_nat(a, b)`.
pub proof fn lemma_gcd_greatest(a: nat, b: nat, d: int)
    requires
        d > 0,
        a as int % d == 0,
        b as int % d == 0,
    ensures
        gcd_nat(a, b) as int % d == 0,
    decreases b,
{
    if b != 0 {
        lemma_fundamental_div_mod(a as int, b as int);
        lemma_divides_product(d, b as int, a as int / b as int);
        lemma_divides_sum(d, a as int, b as int * (a as int / b as int));
        lemma_gcd_greatest(b, a % b, d);
    }
}

/// Dividing two numbers by their greatest common divisor leaves them coprime.
pub proof fn lemma_gcd_of_quotients(a: nat, b: nat)
    requires
        a > 0 || b > 0,
    ensures
        gcd_nat(a / gcd_nat(a, b), b / gcd_nat(a, b)) == 1,
{
    lemma_gcd_divides(a, b);
    let g = gcd_nat(a, b) as int;
    let x = a as int / g;
    let y = b as int / g;
    lemma_fundamental_div_mod(a as int, g);
    lemma_fundamental_div_mod(b as int, g);
    assert(x >= 0 && y >= 0 && (x > 0 || y > 0)) by (nonlinear_arith)
        requires
            g > 0,
            a == g * x,
            b == g * y,
            a >= 0,
            b >= 0,
            a > 0 || b > 0,
    ;
    lemma_gcd_divides(x as nat, y as nat);
    let h = gcd_nat(x as nat, y as nat) as int;
    lemma_fundamental_div_mod(x, h);
    lemma_fundamental_div_mod(y, h);
    assert(a == (g * h) * (x / h)) by (nonlinear_arith)
        requires
            a == g * x,
            x == h * (x / h),
    ;
    assert(b == (g * h) * (y / h)) by (nonlinear_arith)
        requires
            b == g * y,
            y == h * (y / h),
    ;
    assert(g * h > 0) by (nonlinear_arith)
        requires
            g > 0,
            h > 0,
    ;
    lemma_multiple_has_no_remainder(g * h, x / h);
    lemma_multiple_has_no_remainder(g * h, y / h);
    lemma_gcd_greatest(a, b, g * h);
    lemma_divisor_not_larger(g * h, g);
    assert(h == 1) by (nonlinear_arith)
        requires
            g > 0,
            h > 0,
            g * h <= g,
    ;
}

/// The reduced pair is canonical and denotes the same ratio as the pair it
/// came from; a canonical pair is its own reduced form.
pub proof fn lemma_reduced(n: int, d: int)
    requires
        d != 0,
    ensures
        is_canonical(reduced(n, d).0, reduced(n, d).1),
        reduced(n, d).0 * d == n * reduced(n, d).1,
        is_canonical(n, d) ==> reduced(n, d) == (n, d),
        n == 0 <==> reduced(n, d).0 == 0,
        reduced(n, d).0 > 0 <==> (n > 0 && d > 0) || (n < 0 && d < 0),
{
    let g = gcd_abs(n, d) as int;
    lemma_gcd_divides(abs(n), abs(d));
    lemma_gcd_of_quotients(abs(n), abs(d));
    lemma_exact_division(n, g);
    lemma_exact_division(d, g);
    let p = n / g;
    let q = d / g;
    assert(p * d == n * q) by (nonlinear_arith)
        requires
            n == g * p,
            d == g * q,
    ;
    assert((-p) * d == n * (-q)) by (nonlinear_arith)
        requires
            p * d == n * q,
    ;
    assert((q > 0 <==> d > 0) && (p > 0 <==> n > 0) && (p == 0 <==> n == 0)) by (nonlinear_arith)
        requires
            g > 0,
            n == g * p,
            d == g * q,
    ;
    if g == 1 {
        assert(n / 1 == n && d / 1 == d && (-n) / 1 == -n && (-d) / 1 == -d);
    }
}

/// Whether `v` is a value of `i128` other than the least, so that it can be
/// negated.
pub open spec fn negatable(v: int) -> bool {
    i128::MIN < v <= i128::MAX
}

/// Computes the greatest common divisor of the magnitudes of `a` and `b`.
pub fn gcd_wide(a: i128, b: i128) -> (r: i128)
    requires
        negatable(a as int),
        negatable(b as int),
    ensures
        r == gcd_abs(a as int, b as int),
{
    let mut x: i128 = if a < 0 {
        -a
    } else {
        a
    };
    let mut y: i128 = if b < 0 {
        -b
    } else {
        b
    };
    while y != 0
        invariant
            x >= 0,
            y >= 0,
            gcd_nat(x as nat, y as nat) == gcd_abs(a as int, b as int),
        decreases y,
    {
        proof {
            lemma_euclid_division(x as int, y as int);
        }
        let t: i128 = x % y;
        x = y;
        y = t;
    }
    x
}

/// Brings the pair `(n, d)` to lowest terms with a positive denominator.
pub fn reduce_wide(n: i128, d: i128) -> (r: (i128, i128))
    requires
        d != 0,
        negatable(n as int),
        negatable(d as int),
    ensures
        r.0 == reduced(n as int, d as int).0,
        r.1 == reduced(n as int, d as int).1,
        is_canonical(r.0 as int, r.1 as int),
{
    let g: i128 = gcd_wide(n, d);
    proof {
        lemma_reduced(n as int, d as int);
        lemma_gcd_divides(abs(n as int), abs(d as int));
        lemma_exact_division(n as int, g as int);
        lemma_exact_division(d as int, g as int);
        lemma_euclid_division(abs(n as int) as int, g as int);
        lemma_euclid_division(abs(d as int) as int, g as int);
    }
    if d > 0 {
        (n / g, d / g)
    } else {
        ((-n) / g, (-d) / g)
    }
}

} // verus!
