//! The exact coordinate strategy: homogeneous integer storage with a shared
//! divisor, and rational logical coordinates.
//!
//! A tuple of raw values `v[0..N]` with divisor `z` stands for the rationals
//! `v[i] / z`. Normalising divides all of them by their greatest common
//! divisor and makes the divisor positive, which is the form with the least
//! denominator.
use crate::math::arith::{
    fits_i64, gcd_nat, gcd_wide, lemma_divides_transitive, lemma_divisor_not_larger,
    lemma_euclid_division, lemma_exact_division, lemma_exact_signed_division,
    lemma_gcd_divides, lemma_gcd_greatest, lemma_multiple_has_no_remainder, negatable, reduced,
};
use crate::math::number_theory::{euclid, euclid_wide, lemma_euclid_magnitude};
use crate::math::numtraits::NonZeroI64;
use crate::math::quot::{lemma_product_range, representable, Quot};
use vstd::arithmetic::div_mod::lemma_fundamental_div_mod;
use vstd::math::abs;
use vstd::prelude::*;

verus! {

/// The values of a sequence of machine integers.
pub open spec fn as_ints(s: Seq<i64>) -> Seq<int> {
    s.map_values(|v: i64| v as int)
}

/// The greatest common divisor of `start` and the magnitudes of `values`.
pub open spec fn gcd_fold(start: nat, values: Seq<int>) -> nat
    decreases values.len(),
{
    if values.len() == 0 {
        start
    } else {
        gcd_nat(gcd_fold(start, values.drop_last()), abs(values.last()))
    }
}

/// Euclid's algorithm folded over `values` from the left; its magnitude is
/// their greatest common divisor.
pub open spec fn euclid_fold(values: Seq<int>) -> int
    decreases values.len(),
{
    if values.len() == 0 {
        0
    } else if values.len() == 1 {
        values[0]
    } else {
        euclid(euclid_fold(values.drop_last()), values.last())
    }
}

/// Each value divided by `g`.
pub open spec fn scaled(values: Seq<int>, g: int) -> Seq<int> {
    values.map_values(|v: int| v / g)
}

/// Whether every value is a value of `i64`.
pub open spec fn all_fit(values: Seq<int>) -> bool {
    forall|i: int| 0 <= i < values.len() ==> fits_i64(#[trigger] values[i])
}

/// The number that normalising divides by: the greatest common divisor of
/// the divisor and the values, with the divisor's sign.
pub open spec fn normal_scale(values: Seq<int>, divisor: int) -> int {
    let g = gcd_fold(abs(divisor), values) as int;
    if divisor < 0 {
        -g
    } else {
        g
    }
}

/// The values and the divisor in normal form: without a common factor, and
/// with a positive divisor.
pub open spec fn normal_form(values: Seq<int>, divisor: int) -> (Seq<int>, int) {
    let s = normal_scale(values, divisor);
    (scaled(values, s), divisor / s)
}

/// Whether the normal form of the values and the divisor fits the machine.
pub open spec fn normalizable(values: Seq<int>, divisor: int) -> bool {
    divisor != 0 && all_fit(normal_form(values, divisor).0) && fits_i64(
        normal_form(values, divisor).1,
    )
}

/// Whether the values can be divided by their common divisor on the machine:
/// they are not all zero, and each quotient fits.
pub open spec fn reducible(values: Seq<int>) -> bool {
    euclid_fold(values) != 0 && all_fit(scaled(values, euclid_fold(values)))
}

/// The folded divisor is zero only if everything is zero; otherwise it
/// divides the start and every value, and every common divisor of them
/// divides it.
pub proof fn lemma_gcd_fold(start: nat, values: Seq<int>)
    ensures
        gcd_fold(start, values) == 0 <==> start == 0 && (forall|i: int|
            0 <= i < values.len() ==> #[trigger] values[i] == 0),
        start > 0 ==> gcd_fold(start, values) <= start,
        gcd_fold(start, values) > 0 ==> start % gcd_fold(start, values) == 0,
        gcd_fold(start, values) > 0 ==> (forall|i: int|
            0 <= i < values.len() ==> abs(#[trigger] values[i]) % gcd_fold(start, values) == 0),
        forall|d: int|
            d > 0 && start as int % d == 0 && (forall|i: int|
                0 <= i < values.len() ==> abs(#[trigger] values[i]) as int % d == 0)
                ==> #[trigger] (gcd_fold(start, values) as int % d) == 0,
    decreases values.len(),
{
    if values.len() == 0 {
        if start > 0 {
            lemma_multiple_has_no_remainder(start as int, 1);
        }
        assert forall|d: int| d > 0 && start as int % d == 0 implies #[trigger] (gcd_fold(
            start,
            values,
        ) as int % d) == 0 by {}
    } else {
        let rest = values.drop_last();
        let last = abs(values.last());
        lemma_gcd_fold(start, rest);
        let h = gcd_fold(start, rest);
        let g = gcd_fold(start, values);
        lemma_gcd_divides(h, last);
        if h == 0 {
            assert forall|i: int| 0 <= i < values.len() - 1 implies #[trigger] values[i] == 0 by {
                assert(rest[i] == values[i]);
            }
        } else {
            assert(exists|i: int| 0 <= i < rest.len() && #[trigger] rest[i] != 0 || start != 0);
            if start == 0 {
                let i = choose|i: int| 0 <= i < rest.len() && #[trigger] rest[i] != 0;
                assert(values[i] == rest[i]);
            }
        }
        if g > 0 {
            if h > 0 {
                lemma_divisor_not_larger(g as int, h as int);
                lemma_divides_transitive(g as int, h as int, start as int);
            } else {
                lemma_multiple_has_no_remainder(g as int, 0);
            }
            assert forall|i: int| 0 <= i < values.len() implies abs(#[trigger] values[i]) % g
                == 0 by {
                if i < rest.len() {
                    assert(rest[i] == values[i]);
                    if h > 0 {
                        lemma_divides_transitive(g as int, h as int, abs(values[i]) as int);
                    } else {
                        lemma_multiple_has_no_remainder(g as int, 0);
                    }
                } else {
                    assert(values[i] == values.last());
                }
            }
        }
        assert forall|d: int|
            d > 0 && start as int % d == 0 && (forall|i: int|
                0 <= i < values.len() ==> abs(#[trigger] values[i]) as int % d == 0) implies #[trigger] (g as int
            % d) == 0 by {
            assert forall|i: int| 0 <= i < rest.len() implies abs(#[trigger] rest[i]) as int % d
                == 0 by {
                assert(rest[i] == values[i]);
            }
            assert(h as int % d == 0);
            assert(abs(values[values.len() - 1]) as int % d == 0);
            lemma_gcd_greatest(h, last, d);
        }
    }
}

/// The magnitude of the folded Euclid is the folded divisor.
pub proof fn lemma_euclid_fold_magnitude(values: Seq<int>)
    ensures
        abs(euclid_fold(values)) == gcd_fold(0, values),
    decreases values.len(),
{
    reveal_with_fuel(gcd_fold, 2);
    reveal_with_fuel(gcd_nat, 2);
    if values.len() == 1 {
        assert(values.drop_last().len() == 0);
        assert(values.last() == values[0]);
        if values[0] != 0 {
            lemma_multiple_has_no_remainder(abs(values[0]) as int, 0);
        }
    } else if values.len() > 1 {
        lemma_euclid_fold_magnitude(values.drop_last());
        lemma_euclid_magnitude(euclid_fold(values.drop_last()), values.last());
    }
}

/// Normalising is idempotent: a normal form is its own normal form. It has a
/// positive divisor and no common factor.
pub proof fn lemma_normal_form_idempotent(values: Seq<int>, divisor: int)
    requires
        divisor != 0,
    ensures
        normal_form(normal_form(values, divisor).0, normal_form(values, divisor).1) == normal_form(
            values,
            divisor,
        ),
        normal_form(values, divisor).1 > 0,
        gcd_fold(abs(normal_form(values, divisor).1), normal_form(values, divisor).0) == 1,
{
    let start = abs(divisor);
    let g = gcd_fold(start, values) as int;
    let s = normal_scale(values, divisor);
    let form = normal_form(values, divisor);
    lemma_gcd_fold(start, values);
    lemma_exact_signed_division(divisor, s);
    assert(form.1 > 0) by (nonlinear_arith)
        requires
            divisor == s * form.1,
            (divisor < 0 && s < 0) || (divisor > 0 && s > 0),
    ;
    let h = gcd_fold(abs(form.1), form.0) as int;
    lemma_gcd_fold(abs(form.1), form.0);
    // `g * h` divides the divisor and every value, hence `g`.
    assert(g * h > 0) by (nonlinear_arith)
        requires
            g > 0,
            h > 0,
    ;
    lemma_fundamental_div_mod(form.1, h);
    assert(start as int == (g * h) * (form.1 / h)) by (nonlinear_arith)
        requires
            divisor == s * form.1,
            form.1 == h * (form.1 / h),
            form.1 > 0,
            (divisor < 0 && s == -g && start == -divisor) || (divisor > 0 && s == g && start
                == divisor),
    ;
    lemma_multiple_has_no_remainder(g * h, form.1 / h);
    assert forall|i: int| 0 <= i < values.len() implies abs(#[trigger] values[i]) as int % (g * h)
        == 0 by {
        lemma_exact_signed_division(values[i], s);
        let q = values[i] / s;
        assert(form.0[i] == q);
        let m = abs(q) as int;
        assert(m % h == 0);
        lemma_fundamental_div_mod(m, h);
        assert(abs(values[i]) as int == (g * h) * (m / h)) by (nonlinear_arith)
            requires
                values[i] == s * q,
                m == h * (m / h),
                (m == q || m == -q),
                m >= 0,
                abs(values[i]) as int == values[i] || abs(values[i]) as int == -values[i],
                abs(values[i]) as int >= 0,
                s == g || s == -g,
                g > 0,
                h > 0,
        ;
        lemma_multiple_has_no_remainder(g * h, m / h);
    }
    assert(g % (g * h) == 0);
    lemma_divisor_not_larger(g * h, g);
    assert(h == 1) by (nonlinear_arith)
        requires
            g > 0,
            h > 0,
            g * h <= g,
    ;
    assert(normal_scale(form.0, form.1) == 1);
    assert(scaled(form.0, 1) =~= form.0);
    assert(form.1 / 1 == form.1);
}

/// The folded divisor of a longer prefix comes from that of the shorter one.
proof fn lemma_gcd_fold_step(start: nat, values: Seq<int>, i: int)
    requires
        0 <= i < values.len(),
    ensures
        gcd_fold(start, values.take(i + 1)) == gcd_nat(
            gcd_fold(start, values.take(i)),
            abs(values[i]),
        ),
{
    assert(values.take(i + 1).drop_last() =~= values.take(i));
}

/// Divides the raw values and the divisor jointly by the greatest common
/// divisor of all of them, and makes the divisor positive.
pub fn normalize_with_divisor<const N: usize>(values: ([i64; N], NonZeroI64)) -> (r: (
    [i64; N],
    NonZeroI64,
))
    requires
        normalizable(as_ints(values.0@), values.1@),
    ensures
        as_ints(r.0@) == normal_form(as_ints(values.0@), values.1@).0,
        r.1@ == normal_form(as_ints(values.0@), values.1@).1,
        r.1@ > 0,
        r.1.wf(),
{
    let z: i64 = values.1.get();
    let ghost ints = as_ints(values.0@);
    let ghost start = abs(z as int);
    let mut g: i128 = if z < 0 {
        -(z as i128)
    } else {
        z as i128
    };
    let mut i: usize = 0;
    while i < N
        invariant
            0 <= i <= N,
            ints == as_ints(values.0@),
            ints.len() == N,
            start == abs(z as int),
            start > 0,
            g == gcd_fold(start, ints.take(i as int)),
            0 < g <= start,
        decreases N - i,
    {
        proof {
            lemma_gcd_fold_step(start, ints, i as int);
            lemma_gcd_fold(start, ints.take(i as int + 1));
            lemma_gcd_fold(start, ints.take(i as int));
        }
        g = gcd_wide(g, values.0[i] as i128);
        i += 1;
    }
    proof {
        assert(ints.take(N as int) =~= ints);
        lemma_gcd_fold(start, ints);
    }
    let s: i64 = if z < 0 {
        (-g) as i64
    } else {
        g as i64
    };
    let ghost form = normal_form(ints, z as int);
    assert(s == normal_scale(ints, z as int));
    let mut out: [i64; N] = values.0;
    let mut j: usize = 0;
    while j < N
        invariant
            0 <= j <= N,
            ints == as_ints(values.0@),
            ints.len() == N,
            s != 0,
            abs(s as int) == gcd_fold(start, ints),
            s == normal_scale(ints, z as int),
            form == normal_form(ints, z as int),
            all_fit(form.0),
            forall|k: int| 0 <= k < N ==> abs(#[trigger] ints[k]) % gcd_fold(start, ints) == 0,
            forall|k: int| 0 <= k < j ==> #[trigger] out@[k] as int == form.0[k],
            forall|k: int| j <= k < N ==> #[trigger] out@[k] == values.0@[k],
        decreases N - j,
    {
        proof {
            assert(ints[j as int] == values.0@[j as int]);
            lemma_exact_signed_division(ints[j as int], s as int);
            assert(fits_i64(form.0[j as int]));
        }
        out[j] = out[j] / s;
        j += 1;
    }
    proof {
        lemma_exact_signed_division(z as int, s as int);
        assert(z as int / s as int > 0) by (nonlinear_arith)
            requires
                z == s * (z as int / s as int),
                (z < 0 && s < 0) || (z > 0 && s > 0),
        ;
        assert(as_ints(out@) =~= form.0);
        assert(form.1 == z as int / s as int);
        assert(s == -1 ==> z as int / s as int == -z) by (nonlinear_arith)
            requires
                z == s * (z as int / s as int),
        ;
    }
    let divisor = NonZeroI64::new(z / s).unwrap();
    (out, divisor)
}

/// The quotient of a machine integer by a divisor of it fits the machine,
/// but for that of the least integer by minus one.
pub proof fn lemma_quotient_fits(v: int, s: int)
    requires
        fits_i64(v),
        s != 0,
        abs(v) as int % abs(s) as int == 0,
    ensures
        fits_i64(v / s) <==> !(v == i64::MIN && s == -1),
{
    lemma_exact_signed_division(v, s);
    let q = v / s;
    if v == i64::MIN {
        if s == -1 || s == 1 {
            assert(q == v * s) by (nonlinear_arith)
                requires
                    v == s * q,
                    s == -1 || s == 1,
            ;
        } else {
            assert(-0x4000_0000_0000_0000 <= q <= 0x4000_0000_0000_0000) by (nonlinear_arith)
                requires
                    v == s * q,
                    v == -0x8000_0000_0000_0000,
                    s <= -2 || s >= 2,
            ;
        }
    }
}

/// Values and a divisor can be normalised on the machine unless one of them
/// is the least integer, which has no negative.
pub proof fn lemma_normalizable(values: Seq<int>, divisor: int)
    requires
        divisor != 0,
        i64::MIN < divisor <= i64::MAX,
        forall|i: int| 0 <= i < values.len() ==> i64::MIN < #[trigger] values[i] <= i64::MAX,
    ensures
        normalizable(values, divisor),
{
    let s = normal_scale(values, divisor);
    lemma_gcd_fold(abs(divisor), values);
    lemma_quotient_fits(divisor, s);
    assert forall|i: int| 0 <= i < values.len() implies fits_i64(
        #[trigger] normal_form(values, divisor).0[i],
    ) by {
        lemma_quotient_fits(values[i], s);
    }
}

/// The number that normalising divides by.
fn scale_of<const N: usize>(values: &[i64; N], z: i64) -> (s: i64)
    requires
        z != 0,
    ensures
        s == normal_scale(as_ints(values@), z as int),
        s != 0,
        abs(z as int) % abs(s as int) == 0,
        forall|k: int| 0 <= k < N ==> abs(#[trigger] as_ints(values@)[k]) % abs(s as int) == 0,
{
    let ghost ints = as_ints(values@);
    let ghost start = abs(z as int);
    let mut g: i128 = if z < 0 {
        -(z as i128)
    } else {
        z as i128
    };
    let mut i: usize = 0;
    while i < N
        invariant
            0 <= i <= N,
            ints == as_ints(values@),
            ints.len() == N,
            start == abs(z as int),
            start > 0,
            g == gcd_fold(start, ints.take(i as int)),
            0 < g <= start,
        decreases N - i,
    {
        proof {
            lemma_gcd_fold_step(start, ints, i as int);
            lemma_gcd_fold(start, ints.take(i as int + 1));
            lemma_gcd_fold(start, ints.take(i as int));
        }
        g = gcd_wide(g, values[i] as i128);
        i += 1;
    }
    proof {
        assert(ints.take(N as int) =~= ints);
        lemma_gcd_fold(start, ints);
    }
    if z < 0 {
        (-g) as i64
    } else {
        g as i64
    }
}

/// Tests whether the values and the divisor can be normalised on the
/// machine: whether every quotient by their common divisor fits.
pub fn can_normalize<const N: usize>(values: &[i64; N], divisor: NonZeroI64) -> (r: bool)
    ensures
        r == normalizable(as_ints(values@), divisor@),
{
    let z = divisor.get();
    let s = scale_of(values, z);
    let ghost ints = as_ints(values@);
    let ghost form = normal_form(ints, z as int);
    proof {
        lemma_quotient_fits(z as int, s as int);
    }
    if s != -1 {
        proof {
            assert forall|k: int| 0 <= k < form.0.len() implies fits_i64(#[trigger] form.0[k]) by {
                lemma_quotient_fits(ints[k], s as int);
            }
        }
        return true;
    }
    if z == i64::MIN {
        return false;
    }
    let mut i: usize = 0;
    while i < N
        invariant
            0 <= i <= N,
            ints == as_ints(values@),
            ints.len() == N,
            s == -1,
            z == divisor@,
            s == normal_scale(ints, z as int),
            form == normal_form(ints, z as int),
            form.0.len() == N,
            forall|k: int| 0 <= k < N ==> abs(#[trigger] ints[k]) % abs(s as int) == 0,
            forall|k: int| 0 <= k < i ==> fits_i64(#[trigger] form.0[k]),
        decreases N - i,
    {
        proof {
            assert(ints[i as int] == values@[i as int]);
            lemma_quotient_fits(ints[i as int], s as int);
        }
        if values[i] == i64::MIN {
            assert(!fits_i64(form.0[i as int]));
            return false;
        }
        i += 1;
    }
    true
}

/// Normalises `values` with `last` as the divisor. Returns `None` exactly
/// when that is impossible: when `last` is zero, which no divisor can be,
/// or when the normal form does not fit the machine.
pub fn try_normalize<const N: usize>(values: [i64; N], last: i64) -> (r: Option<
    ([i64; N], NonZeroI64),
>)
    ensures
        r.is_none() <==> !normalizable(as_ints(values@), last as int),
        r matches Some(n) ==> {
            &&& as_ints(n.0@) == normal_form(as_ints(values@), last as int).0
            &&& n.1@ == normal_form(as_ints(values@), last as int).1
            &&& n.1@ > 0
            &&& n.1.wf()
        },
{
    match NonZeroI64::new(last) {
        Some(divisor) => {
            if can_normalize(&values, divisor) {
                Some(normalize_with_divisor((values, divisor)))
            } else {
                None
            }
        },
        None => None,
    }
}

/// The folded Euclid of a longer prefix comes from that of the shorter one.
proof fn lemma_euclid_fold_step(values: Seq<int>, i: int)
    requires
        0 <= i < values.len(),
    ensures
        i >= 1 ==> euclid_fold(values.take(i + 1)) == euclid(
            euclid_fold(values.take(i)),
            values[i],
        ),
        euclid_fold(values.take(1)) == values[0],
{
    assert(values.take(i + 1).drop_last() =~= values.take(i));
}

/// Tests whether the values can be divided by their common divisor on the
/// machine: whether [`normalize`] can be called.
pub fn can_reduce<const N: usize>(values: &[i64; N]) -> (r: bool)
    ensures
        r == (N > 0 && reducible(as_ints(values@))),
{
    if N == 0 {
        return false;
    }
    let ghost ints = as_ints(values@);
    let mut div: i128 = values[0] as i128;
    let mut i: usize = 1;
    proof {
        lemma_euclid_fold_step(ints, 0);
        assert(ints[0] == values@[0]);
    }
    while i < N
        invariant
            1 <= i <= N,
            ints == as_ints(values@),
            ints.len() == N,
            div == euclid_fold(ints.take(i as int)),
            negatable(div as int),
        decreases N - i,
    {
        proof {
            lemma_euclid_fold_step(ints, i as int);
            assert(ints[i as int] == values@[i as int]);
        }
        div = euclid_wide(div, values[i] as i128);
        i += 1;
    }
    proof {
        assert(ints.take(N as int) =~= ints);
        lemma_euclid_fold_magnitude(ints);
        lemma_gcd_fold(0, ints);
    }
    if div == 0 {
        return false;
    }
    let ghost form = scaled(ints, div as int);
    if div != -1 {
        proof {
            assert forall|k: int| 0 <= k < form.len() implies fits_i64(#[trigger] form[k]) by {
                lemma_quotient_fits(ints[k], div as int);
            }
        }
        return true;
    }
    let mut j: usize = 0;
    while j < N
        invariant
            0 <= j <= N,
            ints == as_ints(values@),
            ints.len() == N,
            div == -1,
            div == euclid_fold(ints),
            form == scaled(ints, div as int),
            form.len() == N,
            forall|k: int| 0 <= k < N ==> abs(#[trigger] ints[k]) % abs(div as int) == 0,
            forall|k: int| 0 <= k < j ==> fits_i64(#[trigger] form[k]),
        decreases N - j,
    {
        proof {
            assert(ints[j as int] == values@[j as int]);
            lemma_quotient_fits(ints[j as int], div as int);
        }
        if values[j] == i64::MIN {
            assert(!fits_i64(form[j as int]));
            return false;
        }
        j += 1;
    }
    true
}

/// Divides the raw values by the common divisor that Euclid's algorithm
/// finds for them, folded from the left.
///
/// The divisor's magnitude is the greatest common divisor; its sign is the
/// one the algorithm gives, so the result is fixed up to that sign only by
/// [`euclid_fold`].
pub fn normalize<const N: usize>(values: [i64; N]) -> (r: [i64; N])
    requires
        N > 0,
        reducible(as_ints(values@)),
    ensures
        as_ints(r@) == scaled(as_ints(values@), euclid_fold(as_ints(values@))),
{
    let ghost ints = as_ints(values@);
    let mut div: i128 = values[0] as i128;
    let mut i: usize = 1;
    proof {
        lemma_euclid_fold_step(ints, 0);
        assert(ints[0] == values@[0]);
    }
    while i < N
        invariant
            1 <= i <= N,
            ints == as_ints(values@),
            ints.len() == N,
            div == euclid_fold(ints.take(i as int)),
            negatable(div as int),
        decreases N - i,
    {
        proof {
            lemma_euclid_fold_step(ints, i as int);
            assert(ints[i as int] == values@[i as int]);
        }
        div = euclid_wide(div, values[i] as i128);
        i += 1;
    }
    proof {
        assert(ints.take(N as int) =~= ints);
        lemma_euclid_fold_magnitude(ints);
        lemma_gcd_fold(0, ints);
    }
    let ghost form = scaled(ints, div as int);
    let mut out: [i64; N] = values;
    let mut j: usize = 0;
    while j < N
        invariant
            0 <= j <= N,
            ints == as_ints(values@),
            ints.len() == N,
            div != 0,
            negatable(div as int),
            form == scaled(ints, div as int),
            all_fit(form),
            forall|k: int| 0 <= k < N ==> abs(#[trigger] ints[k]) % abs(div as int) == 0,
            forall|k: int| 0 <= k < j ==> #[trigger] out@[k] as int == form[k],
            forall|k: int| j <= k < N ==> #[trigger] out@[k] == values@[k],
        decreases N - j,
    {
        proof {
            assert(ints[j as int] == values@[j as int]);
            lemma_exact_signed_division(ints[j as int], div as int);
            assert(fits_i64(form[j as int]));
        }
        out[j] = ((out[j] as i128) / div) as i64;
        j += 1;
    }
    proof {
        assert(as_ints(out@) =~= form);
    }
    out
}

/// The views of a sequence of quotients.
pub open spec fn as_ratios(s: Seq<Quot>) -> Seq<(int, int)> {
    s.map_values(|q: Quot| q@)
}

/// The least common multiple of two positive integers.
pub open spec fn lcm(a: int, b: int) -> int {
    a * b / (gcd_nat(abs(a), abs(b)) as int)
}

/// The least common multiple of the denominators of `coordinates`.
pub open spec fn common_denominator(coordinates: Seq<(int, int)>) -> int
    decreases coordinates.len(),
{
    if coordinates.len() == 0 {
        1
    } else if coordinates.len() == 1 {
        coordinates[0].1
    } else {
        lcm(common_denominator(coordinates.drop_last()), coordinates.last().1)
    }
}

/// The raw value that stands for the `i`-th coordinate over the common
/// denominator.
pub open spec fn raw_value(coordinates: Seq<(int, int)>, i: int) -> int {
    coordinates[i].0 * (common_denominator(coordinates) / coordinates[i].1)
}

/// Whether the coordinates can share a divisor on the machine: the common
/// denominator and every raw value fit.
pub open spec fn combinable(coordinates: Seq<(int, int)>) -> bool {
    &&& fits_i64(common_denominator(coordinates))
    &&& forall|i: int|
        0 <= i < coordinates.len() ==> fits_i64(#[trigger] raw_value(coordinates, i))
}

/// The least common multiple of two positive integers is a positive multiple
/// of the first.
pub proof fn lemma_lcm(a: int, b: int)
    requires
        a > 0,
        b > 0,
    ensures
        lcm(a, b) >= a,
        lcm(a, b) == a * (b / (gcd_nat(abs(a), abs(b)) as int)),
{
    let g = gcd_nat(abs(a), abs(b)) as int;
    lemma_gcd_divides(abs(a), abs(b));
    lemma_exact_division(b, g);
    let k = b / g;
    assert(a * b == g * (a * k)) by (nonlinear_arith)
        requires
            b == g * k,
    ;
    lemma_multiple_has_no_remainder(g, a * k);
    assert(a * k >= a) by (nonlinear_arith)
        requires
            a > 0,
            b > 0,
            g > 0,
            b == g * k,
    ;
}

/// With positive denominators, the common denominator of a prefix is positive
/// and no larger than that of the whole.
pub proof fn lemma_common_denominator_grows(coordinates: Seq<(int, int)>, k: int)
    requires
        1 <= k <= coordinates.len(),
        forall|i: int| 0 <= i < coordinates.len() ==> (#[trigger] coordinates[i]).1 > 0,
    ensures
        0 < common_denominator(coordinates.take(k)) <= common_denominator(coordinates),
    decreases coordinates.len(),
{
    if k == coordinates.len() {
        assert(coordinates.take(k) =~= coordinates);
        if k > 1 {
            lemma_common_denominator_grows(coordinates.drop_last(), k - 1);
            assert(coordinates.drop_last().take(k - 1) =~= coordinates.drop_last());
            lemma_lcm(common_denominator(coordinates.drop_last()), coordinates.last().1);
        }
    } else {
        assert(coordinates.take(k) =~= coordinates.drop_last().take(k));
        lemma_common_denominator_grows(coordinates.drop_last(), k);
        lemma_common_denominator_grows(coordinates.drop_last(), coordinates.len() - 1);
        assert(coordinates.drop_last().take(coordinates.len() - 1) =~= coordinates.drop_last());
        lemma_lcm(common_denominator(coordinates.drop_last()), coordinates.last().1);
    }
}

/// Brings rational coordinates over their least common denominator.
pub fn from_coordinates<const N: usize>(coordinates: [Quot; N]) -> (r: ([i64; N], NonZeroI64))
    requires
        N > 0,
        forall|i: int| 0 <= i < N ==> (#[trigger] coordinates@[i]).wf(),
        combinable(as_ratios(coordinates@)),
    ensures
        r.1@ == common_denominator(as_ratios(coordinates@)),
        r.1@ > 0,
        r.1.wf(),
        forall|i: int| 0 <= i < N ==> #[trigger] r.0@[i] == raw_value(as_ratios(coordinates@), i),
{
    let ghost ratios = as_ratios(coordinates@);
    let mut div: i64 = coordinates[0].denominator();
    proof {
        assert forall|i: int| 0 <= i < ratios.len() implies (#[trigger] ratios[i]).1 > 0 by {
            coordinates@[i].lemma_wf();
        }
    }
    let mut i: usize = 1;
    proof {
        assert(ratios.take(1)[0] == ratios[0]);
    }
    while i < N
        invariant
            1 <= i <= N,
            ratios == as_ratios(coordinates@),
            ratios.len() == N,
            forall|k: int| 0 <= k < ratios.len() ==> (#[trigger] ratios[k]).1 > 0,
            fits_i64(common_denominator(ratios)),
            div == common_denominator(ratios.take(i as int)),
            div > 0,
        decreases N - i,
    {
        let d: i64 = coordinates[i].denominator();
        let g: i128 = gcd_wide(div as i128, d as i128);
        proof {
            assert(ratios.take(i as int + 1).drop_last() =~= ratios.take(i as int));
            assert(ratios.take(i as int + 1).last() == ratios[i as int]);
            lemma_common_denominator_grows(ratios, i as int + 1);
            lemma_gcd_divides(abs(div as int), abs(d as int));
            lemma_product_range(div as int, d as int);
            lemma_lcm(div as int, d as int);
        }
        div = ((div as i128 * d as i128) / g) as i64;
        i += 1;
    }
    proof {
        assert(ratios.take(N as int) =~= ratios);
    }
    let mut values: [i64; N] = [0;N];
    let mut j: usize = 0;
    while j < N
        invariant
            0 <= j <= N,
            ratios == as_ratios(coordinates@),
            ratios.len() == N,
            combinable(ratios),
            div == common_denominator(ratios),
            div > 0,
            forall|k: int| 0 <= k < j ==> #[trigger] values@[k] == raw_value(ratios, k),
        decreases N - j,
    {
        let n: i64 = coordinates[j].numerator();
        let d: i64 = coordinates[j].denominator();
        proof {
            assert(ratios[j as int] == coordinates@[j as int]@);
            assert(fits_i64(raw_value(ratios, j as int)));
            lemma_euclid_division(div as int, d as int);
        }
        values[j] = n * (div / d);
        j += 1;
    }
    (values, NonZeroI64::new(div).unwrap())
}

/// Turns raw values over a shared divisor into rational coordinates.
pub fn to_coordinates<const N: usize>(values: ([i64; N], NonZeroI64)) -> (r: [Quot; N])
    requires
        forall|i: int| 0 <= i < N ==> representable(#[trigger] values.0@[i] as int, values.1@),
    ensures
        forall|i: int|
            0 <= i < N ==> (#[trigger] r@[i])@ == reduced(values.0@[i] as int, values.1@)
                && r@[i].wf(),
{
    let mut coordinates: [Quot; N] = [Quot::zero();N];
    let mut i: usize = 0;
    while i < N
        invariant
            0 <= i <= N,
            forall|k: int| 0 <= k < N ==> representable(#[trigger] values.0@[k] as int, values.1@),
            forall|k: int|
                0 <= k < i ==> (#[trigger] coordinates@[k])@ == reduced(
                    values.0@[k] as int,
                    values.1@,
                ) && coordinates@[k].wf(),
        decreases N - i,
    {
        coordinates[i] = Quot::new_nonzero(values.0[i], values.1);
        i += 1;
    }
    coordinates
}

/// The machine integers with the given values.
pub open spec fn as_machine(values: Seq<int>) -> Seq<i64> {
    values.map_values(|v: int| v as i64)
}

/// A coordinate strategy: how raw values with a shared divisor stand for
/// logical coordinates.
///
/// `Self` is the type of the raw values. The exact strategy is that of
/// `i64`, with non-zero integers as divisors and quotients as coordinates.
pub trait ValidCoordinate: Sized + Copy {
    /// The type of the shared divisor.
    type Divisor: Copy;

    /// The type of the logical coordinates.
    type Coordinate: Copy;

    /// The divisor that a raw value can be, if it can be one.
    spec fn as_divisor(last: Self) -> Option<Self::Divisor>;

    /// Whether the values can be normalised without a divisor.
    spec fn can_reduce(values: Seq<Self>) -> bool;

    /// The values, normalised without a divisor.
    spec fn reduced_values(values: Seq<Self>) -> Seq<Self>;

    /// Whether the values can be normalised together with the divisor.
    spec fn can_normalize(values: Seq<Self>, divisor: Self::Divisor) -> bool;

    /// The values, normalised together with the divisor.
    spec fn normal_values(values: Seq<Self>, divisor: Self::Divisor) -> Seq<Self>;

    /// The divisor, normalised together with the values.
    spec fn normal_divisor(values: Seq<Self>, divisor: Self::Divisor) -> Self::Divisor;

    /// Whether the coordinates can be brought over a shared divisor.
    spec fn can_combine(coordinates: Seq<Self::Coordinate>) -> bool;

    /// The raw values of the coordinates over their shared divisor.
    spec fn raw_values(coordinates: Seq<Self::Coordinate>) -> Seq<Self>;

    /// The shared divisor of the coordinates.
    spec fn shared_divisor(coordinates: Seq<Self::Coordinate>) -> Self::Divisor;

    /// Whether the raw values over the divisor are coordinates of the type.
    spec fn can_express(values: Seq<Self>, divisor: Self::Divisor) -> bool;

    /// The coordinates that the raw values over the divisor stand for.
    spec fn coordinates_of(values: Seq<Self>, divisor: Self::Divisor) -> Seq<Self::Coordinate>;

    /// Normalises the values with `last` as their divisor. Returns `None`
    /// exactly when `last` cannot be a divisor, or when the values cannot
    /// be normalised with it.
    fn try_normalize<const N: usize>(values: [Self; N], last: Self) -> (r: Option<
        ([Self; N], Self::Divisor),
    >)
        ensures
            r.is_some() == (Self::as_divisor(last) matches Some(d) && Self::can_normalize(
                values@,
                d,
            )),
            r matches Some(n) ==> n.0@ == Self::normal_values(
                values@,
                Self::as_divisor(last).unwrap(),
            ) && n.1 == Self::normal_divisor(values@, Self::as_divisor(last).unwrap()),
    ;

    /// Normalises the values without a divisor.
    fn normalize<const N: usize>(values: [Self; N]) -> (r: [Self; N])
        requires
            N > 0,
            Self::can_reduce(values@),
        ensures
            r@ == Self::reduced_values(values@),
    ;

    /// Normalises the values together with their divisor.
    fn normalize_with_divisor<const N: usize>(values: ([Self; N], Self::Divisor)) -> (r: (
        [Self; N],
        Self::Divisor,
    ))
        requires
            Self::can_normalize(values.0@, values.1),
        ensures
            r.0@ == Self::normal_values(values.0@, values.1),
            r.1 == Self::normal_divisor(values.0@, values.1),
    ;

    /// Brings the coordinates over a shared divisor.
    fn from_coordinates<const N: usize>(coordinates: [Self::Coordinate; N]) -> (r: (
        [Self; N],
        Self::Divisor,
    ))
        requires
            N > 0,
            Self::can_combine(coordinates@),
        ensures
            r.0@ == Self::raw_values(coordinates@),
            r.1 == Self::shared_divisor(coordinates@),
    ;

    /// Turns raw values over a divisor into coordinates.
    fn to_coordinates<const N: usize>(values: ([Self; N], Self::Divisor)) -> (r: [
        Self::Coordinate;
        N
    ])
        requires
            Self::can_express(values.0@, values.1),
        ensures
            r@ == Self::coordinates_of(values.0@, values.1),
    ;
}

impl ValidCoordinate for i64 {
    type Divisor = NonZeroI64;

    type Coordinate = Quot;

    open spec fn as_divisor(last: i64) -> Option<NonZeroI64> {
        if last == 0 {
            None
        } else {
            Some(NonZeroI64::spec_new(last as int))
        }
    }

    open spec fn can_reduce(values: Seq<i64>) -> bool {
        reducible(as_ints(values))
    }

    open spec fn reduced_values(values: Seq<i64>) -> Seq<i64> {
        as_machine(scaled(as_ints(values), euclid_fold(as_ints(values))))
    }

    open spec fn can_normalize(values: Seq<i64>, divisor: NonZeroI64) -> bool {
        normalizable(as_ints(values), divisor@)
    }

    open spec fn normal_values(values: Seq<i64>, divisor: NonZeroI64) -> Seq<i64> {
        as_machine(normal_form(as_ints(values), divisor@).0)
    }

    open spec fn normal_divisor(values: Seq<i64>, divisor: NonZeroI64) -> NonZeroI64 {
        NonZeroI64::spec_new(normal_form(as_ints(values), divisor@).1)
    }

    open spec fn can_combine(coordinates: Seq<Quot>) -> bool {
        &&& forall|i: int| 0 <= i < coordinates.len() ==> (#[trigger] coordinates[i]).wf()
        &&& combinable(as_ratios(coordinates))
    }

    open spec fn raw_values(coordinates: Seq<Quot>) -> Seq<i64> {
        Seq::new(coordinates.len(), |i: int| raw_value(as_ratios(coordinates), i) as i64)
    }

    open spec fn shared_divisor(coordinates: Seq<Quot>) -> NonZeroI64 {
        NonZeroI64::spec_new(common_denominator(as_ratios(coordinates)))
    }

    open spec fn can_express(values: Seq<i64>, divisor: NonZeroI64) -> bool {
        forall|i: int| 0 <= i < values.len() ==> representable(#[trigger] values[i] as int, divisor@)
    }

    open spec fn coordinates_of(values: Seq<i64>, divisor: NonZeroI64) -> Seq<Quot> {
        Seq::new(values.len(), |i: int| Quot::spec_of(reduced(values[i] as int, divisor@)))
    }

    fn try_normalize<const N: usize>(values: [i64; N], last: i64) -> (r: Option<
        ([i64; N], NonZeroI64),
    >) {
        proof {
            NonZeroI64::lemma_spec_new_view(last as int);
        }
        let r = try_normalize(values, last);
        proof {
            if let Some(n) = r {
                NonZeroI64::lemma_view_injective(n.1, n.1);
                assert(n.0@ =~= as_machine(as_ints(n.0@)));
            }
        }
        r
    }

    fn normalize<const N: usize>(values: [i64; N]) -> (r: [i64; N]) {
        let r = normalize(values);
        assert(r@ =~= as_machine(as_ints(r@)));
        r
    }

    fn normalize_with_divisor<const N: usize>(values: ([i64; N], NonZeroI64)) -> (r: (
        [i64; N],
        NonZeroI64,
    )) {
        let r = normalize_with_divisor(values);
        proof {
            NonZeroI64::lemma_view_injective(r.1, r.1);
            assert(r.0@ =~= as_machine(as_ints(r.0@)));
        }
        r
    }

    fn from_coordinates<const N: usize>(coordinates: [Quot; N]) -> (r: ([i64; N], NonZeroI64)) {
        let r = from_coordinates(coordinates);
        proof {
            NonZeroI64::lemma_view_injective(r.1, r.1);
            assert(r.0@ =~= Seq::new(
                coordinates@.len(),
                |i: int| raw_value(as_ratios(coordinates@), i) as i64,
            ));
        }
        r
    }

    fn to_coordinates<const N: usize>(values: ([i64; N], NonZeroI64)) -> (r: [Quot; N]) {
        let r = to_coordinates(values);
        proof {
            assert forall|i: int| 0 <= i < N implies #[trigger] r@[i] == Quot::spec_of(
                reduced(values.0@[i] as int, values.1@),
            ) by {
                r@[i].lemma_spec_of();
            }
            assert(r@ =~= Seq::new(
                values.0@.len(),
                |i: int| Quot::spec_of(reduced(values.0@[i] as int, values.1@)),
            ));
        }
        r
    }
}

} // verus!
