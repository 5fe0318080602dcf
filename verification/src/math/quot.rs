//! Rational numbers in lowest terms.
use crate::math::arith::{
    fits_i64, gcd_abs, gcd_nat, is_canonical, lemma_exact_signed_division, lemma_gcd_divides, lemma_reduced, lemma_trunc_magnitudes, negatable, reduce_wide, reduced, trunc_div, trunc_rem,
};
use crate::math::numtraits::{NonZeroI64, Numeric, Sign, Signed};
use core::cmp::Ordering;
use vstd::math::abs;
use vstd::prelude::*;
use vstd::std_specs::cmp::{PartialEqSpecImpl, PartialOrdSpecImpl};

verus! {

/// Whether the ratio `n / d` in lowest terms has a numerator and a
/// denominator that `i64` holds.
pub open spec fn representable(n: int, d: int) -> bool {
    fits_i64(reduced(n, d).0) && fits_i64(reduced(n, d).1)
}

/// The sum of two ratios, in lowest terms.
pub open spec fn ratio_sum(a: (int, int), b: (int, int)) -> (int, int) {
    reduced(a.0 * b.1 + b.0 * a.1, a.1 * b.1)
}

/// The difference of two ratios, in lowest terms.
pub open spec fn ratio_difference(a: (int, int), b: (int, int)) -> (int, int) {
    reduced(a.0 * b.1 - b.0 * a.1, a.1 * b.1)
}

/// The product of two ratios, in lowest terms.
pub open spec fn ratio_product(a: (int, int), b: (int, int)) -> (int, int) {
    reduced(a.0 * b.0, a.1 * b.1)
}

/// The quotient of two ratios, in lowest terms; meaningful for `b.0 != 0`.
pub open spec fn ratio_quotient(a: (int, int), b: (int, int)) -> (int, int) {
    reduced(a.0 * b.1, a.1 * b.0)
}

/// The integral part of a ratio: the ratio with its fractional part cut off
/// toward zero.
pub open spec fn ratio_trunc(a: (int, int)) -> int {
    trunc_div(a.0, a.1)
}

/// The remainder of two ratios: `a` less `b` times the integral part of the
/// quotient of `a` by `b`.
pub open spec fn ratio_remainder(a: (int, int), b: (int, int)) -> (int, int) {
    ratio_difference(a, ratio_product((ratio_trunc(ratio_quotient(a, b)), 1), b))
}

/// Whether both parts of a ratio are values of `i64`.
pub open spec fn fits_pair(r: (int, int)) -> bool {
    fits_i64(r.0) && fits_i64(r.1)
}

/// The order of two ratios with positive denominators: negative, zero or
/// positive as `a` is below, equal to or above `b`.
pub open spec fn ratio_order(a: (int, int), b: (int, int)) -> int {
    a.0 * b.1 - b.0 * a.1
}

/// A quotient: a rational number `numerator / denominator` in lowest terms
/// with a positive denominator.
#[derive(Clone, Copy, Debug)]
pub struct Quot {
    numerator: i64,
    denominator: NonZeroI64,
}

impl View for Quot {
    type V = (int, int);

    closed spec fn view(&self) -> (int, int) {
        (self.numerator as int, self.denominator@)
    }
}

impl Quot {
    /// The invariant of the type: lowest terms, positive denominator.
    #[verifier::type_invariant]
    pub closed spec fn wf(self) -> bool {
        is_canonical(self.numerator as int, self.denominator@)
    }

    /// The quotient with the given numerator and denominator.
    pub closed spec fn spec_of(ratio: (int, int)) -> Quot {
        Quot { numerator: ratio.0 as i64, denominator: NonZeroI64::spec_new(ratio.1) }
    }

    /// A quotient is the quotient of its view.
    pub proof fn lemma_spec_of(self)
        ensures
            Quot::spec_of(self@) == self,
    {
        NonZeroI64::lemma_view_injective(self.denominator, self.denominator);
    }

    /// A well-formed quotient is canonical and its fields are machine integers.
    pub proof fn lemma_wf(self)
        ensures
            self.wf() <==> is_canonical(self@.0, self@.1),
            fits_i64(self@.0),
            fits_i64(self@.1),
    {
        NonZeroI64::lemma_view_injective(self.denominator, self.denominator);
    }

    fn from_wide(n: i128, d: i128) -> (r: Quot)
        requires
            d != 0,
            negatable(n as int),
            negatable(d as int),
            representable(n as int, d as int),
        ensures
            r@ == reduced(n as int, d as int),
            r.wf(),
    {
        let (p, q) = reduce_wide(n, d);
        let denominator = NonZeroI64::new(q as i64).unwrap();
        Quot { numerator: p as i64, denominator }
    }

    /// The quotient of the wide pair, if it is representable.
    fn try_from_wide(n: i128, d: i128) -> (r: Option<Quot>)
        requires
            d != 0,
            negatable(n as int),
            negatable(d as int),
        ensures
            r.is_some() == representable(n as int, d as int),
            r matches Some(q) ==> q@ == reduced(n as int, d as int) && q.wf(),
    {
        let (p, q) = reduce_wide(n, d);
        if p < i64::MIN as i128 || p > i64::MAX as i128 || q > i64::MAX as i128 {
            None
        } else {
            let denominator = NonZeroI64::new(q as i64).unwrap();
            Some(Quot { numerator: p as i64, denominator })
        }
    }

    /// Tests whether the ratio of the two integers in lowest terms has a
    /// numerator and a denominator that the type holds: whether
    /// [`Quot::new`] and [`Quot::new_nonzero`] can be called.
    pub fn can_represent(numerator: i64, denominator: i64) -> (r: bool)
        ensures
            r == (denominator != 0 && representable(numerator as int, denominator as int)),
    {
        if denominator == 0 {
            false
        } else {
            Quot::try_from_wide(numerator as i128, denominator as i128).is_some()
        }
    }

    /// Constructs a quotient from a numerator and a denominator, in lowest
    /// terms. Returns `None` exactly when the denominator is zero.
    pub fn new(numerator: i64, denominator: i64) -> (r: Option<Quot>)
        requires
            denominator != 0 ==> representable(numerator as int, denominator as int),
        ensures
            r.is_none() <==> denominator == 0,
            r matches Some(q) ==> {
                &&& q@ == reduced(numerator as int, denominator as int)
                &&& gcd_abs(q@.0, q@.1) == 1
                &&& q@.1 > 0
                &&& q@.0 * denominator == numerator * q@.1
                &&& q.wf()
            },
    {
        if denominator == 0 {
            None
        } else {
            proof {
                lemma_reduced(numerator as int, denominator as int);
            }
            Some(Quot::from_wide(numerator as i128, denominator as i128))
        }
    }

    /// Constructs a quotient from a numerator and a non-zero denominator.
    pub fn new_nonzero(numerator: i64, denominator: NonZeroI64) -> (r: Quot)
        requires
            representable(numerator as int, denominator@),
        ensures
            r@ == reduced(numerator as int, denominator@),
            gcd_abs(r@.0, r@.1) == 1,
            r@.1 > 0,
            r@.0 * denominator@ == numerator * r@.1,
            r.wf(),
    {
        let d = denominator.get();
        proof {
            lemma_reduced(numerator as int, d as int);
        }
        Quot::from_wide(numerator as i128, d as i128)
    }

    /// The integer `v` as a quotient.
    pub fn from_integer(v: i64) -> (r: Quot)
        ensures
            r@ == (v as int, 1int),
            r.wf(),
    {
        assert(gcd_nat(abs(v as int), 1) == 1) by {
            reveal_with_fuel(gcd_nat, 3);
        }
        Quot { numerator: v, denominator: NonZeroI64::one() }
    }

    /// Gets the 0-value.
    pub fn zero() -> (r: Quot)
        ensures
            r@ == (0int, 1int),
            r.wf(),
    {
        Quot::from_integer(0)
    }

    /// Gets the 1-value.
    pub fn one() -> (r: Quot)
        ensures
            r@ == (1int, 1int),
            r.wf(),
    {
        Quot::from_integer(1)
    }

    /// Converts a small integer.
    pub fn from_int(value: i8) -> (r: Quot)
        ensures
            r@ == (value as int, 1int),
            r.wf(),
    {
        Quot::from_integer(value as i64)
    }

    /// Tests whether the value is zero.
    pub fn is_zero(self) -> (r: bool)
        ensures
            r <==> self@.0 == 0,
    {
        self.numerator == 0
    }

    /// Tests whether the value is one.
    pub fn is_one(self) -> (r: bool)
        ensures
            r <==> self@ == (1int, 1int),
    {
        self.numerator == 1 && self.denominator.get() == 1
    }

    /// Gets the numerator of the quotient.
    pub fn numerator(self) -> (r: i64)
        ensures
            r == self@.0,
    {
        self.numerator
    }

    /// Gets the denominator of the quotient; it is positive.
    pub fn denominator(self) -> (r: i64)
        ensures
            r == self@.1,
            r > 0,
            self.wf(),
    {
        proof {
            use_type_invariant(&self);
        }
        self.denominator.get()
    }

    /// Truncates the quotient: gives its integral part, rounding toward
    /// zero.
    pub fn trunc(self) -> (r: i64)
        ensures
            r == ratio_trunc(self@),
    {
        let n = self.numerator;
        let d = self.denominator();
        proof {
            lemma_trunc_magnitudes(n as int, d as int);
            let q = trunc_div(n as int, d as int);
            assert(-abs(n as int) <= q <= abs(n as int)) by (nonlinear_arith)
                requires
                    n == d * q + trunc_rem(n as int, d as int),
                    d > 0,
                    abs(trunc_rem(n as int, d as int)) < d,
                    n >= 0 ==> trunc_rem(n as int, d as int) >= 0,
                    n <= 0 ==> trunc_rem(n as int, d as int) <= 0,
            ;
        }
        n / d
    }

    /// Computes the absolute value of the quotient.
    pub fn abs(self) -> (r: Quot)
        requires
            self@.0 != i64::MIN,
        ensures
            r@ == (abs(self@.0) as int, self@.1),
            r.wf(),
    {
        proof {
            use_type_invariant(&self);
        }
        let numerator = if self.numerator < 0 {
            -self.numerator
        } else {
            self.numerator
        };
        Quot { numerator, denominator: self.denominator }
    }

    /// The negated quotient.
    pub fn neg(self) -> (r: Quot)
        requires
            self@.0 != i64::MIN,
        ensures
            r@ == (-self@.0, self@.1),
            r.wf(),
    {
        proof {
            use_type_invariant(&self);
        }
        Quot { numerator: -self.numerator, denominator: self.denominator }
    }

    /// The sum of two quotients.
    pub fn add(self, rhs: Quot) -> (r: Quot)
        requires
            fits_i64(ratio_sum(self@, rhs@).0),
            fits_i64(ratio_sum(self@, rhs@).1),
        ensures
            r@ == ratio_sum(self@, rhs@),
            r.wf(),
    {
        let (a, b) = (self.numerator as i128, self.denominator() as i128);
        let (c, d) = (rhs.numerator as i128, rhs.denominator() as i128);
        proof {
            lemma_product_range(a as int, d as int);
            lemma_product_range(c as int, b as int);
            lemma_product_range(b as int, d as int);
        }
        Quot::from_wide(a * d + c * b, b * d)
    }

    /// The difference of two quotients.
    pub fn sub(self, rhs: Quot) -> (r: Quot)
        requires
            fits_i64(ratio_difference(self@, rhs@).0),
            fits_i64(ratio_difference(self@, rhs@).1),
        ensures
            r@ == ratio_difference(self@, rhs@),
            r.wf(),
    {
        let (a, b) = (self.numerator as i128, self.denominator() as i128);
        let (c, d) = (rhs.numerator as i128, rhs.denominator() as i128);
        proof {
            lemma_product_range(a as int, d as int);
            lemma_product_range(c as int, b as int);
            lemma_product_range(b as int, d as int);
        }
        Quot::from_wide(a * d - c * b, b * d)
    }

    /// The product of two quotients.
    pub fn mul(self, rhs: Quot) -> (r: Quot)
        requires
            fits_i64(ratio_product(self@, rhs@).0),
            fits_i64(ratio_product(self@, rhs@).1),
        ensures
            r@ == ratio_product(self@, rhs@),
            r.wf(),
    {
        let (a, b) = (self.numerator as i128, self.denominator() as i128);
        let (c, d) = (rhs.numerator as i128, rhs.denominator() as i128);
        proof {
            lemma_square_range(a as int, c as int);
            lemma_product_range(b as int, d as int);
        }
        Quot::from_wide(a * c, b * d)
    }

    /// The quotient of two quotients; the divisor is not zero.
    pub fn div(self, rhs: Quot) -> (r: Quot)
        requires
            rhs@.0 != 0,
            fits_i64(ratio_quotient(self@, rhs@).0),
            fits_i64(ratio_quotient(self@, rhs@).1),
        ensures
            r@ == ratio_quotient(self@, rhs@),
            r.wf(),
    {
        let (a, b) = (self.numerator as i128, self.denominator() as i128);
        let (c, d) = (rhs.numerator as i128, rhs.denominator() as i128);
        proof {
            lemma_product_range(a as int, d as int);
            lemma_product_range(c as int, b as int);
        }
        Quot::from_wide(a * d, b * c)
    }

    /// The sum of two quotients, or `None` if the type does not hold it.
    pub fn checked_add(self, rhs: Quot) -> (r: Option<Quot>)
        ensures
            r.is_some() == fits_pair(ratio_sum(self@, rhs@)),
            r matches Some(q) ==> q@ == ratio_sum(self@, rhs@) && q.wf(),
    {
        let (a, b) = (self.numerator as i128, self.denominator() as i128);
        let (c, d) = (rhs.numerator as i128, rhs.denominator() as i128);
        proof {
            lemma_product_range(a as int, d as int);
            lemma_product_range(c as int, b as int);
            lemma_product_range(b as int, d as int);
        }
        Quot::try_from_wide(a * d + c * b, b * d)
    }

    /// The difference of two quotients, or `None` if the type does not hold
    /// it.
    pub fn checked_sub(self, rhs: Quot) -> (r: Option<Quot>)
        ensures
            r.is_some() == fits_pair(ratio_difference(self@, rhs@)),
            r matches Some(q) ==> q@ == ratio_difference(self@, rhs@) && q.wf(),
    {
        let (a, b) = (self.numerator as i128, self.denominator() as i128);
        let (c, d) = (rhs.numerator as i128, rhs.denominator() as i128);
        proof {
            lemma_product_range(a as int, d as int);
            lemma_product_range(c as int, b as int);
            lemma_product_range(b as int, d as int);
        }
        Quot::try_from_wide(a * d - c * b, b * d)
    }

    /// The product of two quotients, or `None` if the type does not hold it.
    pub fn checked_mul(self, rhs: Quot) -> (r: Option<Quot>)
        ensures
            r.is_some() == fits_pair(ratio_product(self@, rhs@)),
            r matches Some(q) ==> q@ == ratio_product(self@, rhs@) && q.wf(),
    {
        let (a, b) = (self.numerator as i128, self.denominator() as i128);
        let (c, d) = (rhs.numerator as i128, rhs.denominator() as i128);
        proof {
            lemma_square_range(a as int, c as int);
            lemma_product_range(b as int, d as int);
        }
        Quot::try_from_wide(a * c, b * d)
    }

    /// The quotient of two quotients, or `None` if the divisor is zero or
    /// the type does not hold the quotient.
    pub fn checked_div(self, rhs: Quot) -> (r: Option<Quot>)
        ensures
            r.is_some() == (rhs@.0 != 0 && fits_pair(ratio_quotient(self@, rhs@))),
            r matches Some(q) ==> q@ == ratio_quotient(self@, rhs@) && q.wf(),
    {
        if rhs.numerator == 0 {
            return None;
        }
        let (a, b) = (self.numerator as i128, self.denominator() as i128);
        let (c, d) = (rhs.numerator as i128, rhs.denominator() as i128);
        proof {
            lemma_product_range(a as int, d as int);
            lemma_product_range(c as int, b as int);
        }
        Quot::try_from_wide(a * d, b * c)
    }

    /// The remainder of two quotients, or `None` if it cannot be formed on
    /// the machine.
    pub fn checked_rem(self, rhs: Quot) -> (r: Option<Quot>)
        ensures
            r.is_some() == self.has_remainder(rhs),
            r matches Some(q) ==> q@ == ratio_remainder(self@, rhs@) && q.wf(),
    {
        match self.checked_div(rhs) {
            Some(quotient) => {
                let whole = Quot::from_integer(quotient.trunc());
                match whole.checked_mul(rhs) {
                    Some(product) => self.checked_sub(product),
                    None => None,
                }
            },
            None => None,
        }
    }

    /// Whether the remainder by `rhs` can be formed on the machine: `rhs` is
    /// not zero, and the quotient, its product with `rhs` and the
    /// difference fit.
    pub open spec fn has_remainder(self, rhs: Quot) -> bool {
        &&& rhs@.0 != 0
        &&& fits_pair(ratio_quotient(self@, rhs@))
        &&& fits_pair(ratio_product((ratio_trunc(ratio_quotient(self@, rhs@)), 1), rhs@))
        &&& fits_pair(ratio_remainder(self@, rhs@))
    }

    /// The remainder: `self` less `rhs` times the integral part of the
    /// quotient of `self` by `rhs`.
    pub fn rem(self, rhs: Quot) -> (r: Quot)
        requires
            self.has_remainder(rhs),
        ensures
            r@ == ratio_remainder(self@, rhs@),
            r.wf(),
    {
        let whole = Quot::from_integer(self.div(rhs).trunc());
        self.sub(whole.mul(rhs))
    }

    /// Returns the sign of the number.
    pub fn get_sign(self) -> (r: Sign)
        ensures
            r == Sign::of(self@.0),
    {
        Sign::of_i64(self.numerator)
    }

    /// Returns the absolute value of the number.
    pub fn get_abs(self) -> (r: Quot)
        requires
            self@.0 != i64::MIN,
        ensures
            r@ == (abs(self@.0) as int, self@.1),
            r.wf(),
    {
        self.abs()
    }

    /// The two cross products whose order is the order of the quotients.
    fn cross(self, other: Quot) -> (r: (i128, i128))
        ensures
            r.0 == self@.0 * other@.1,
            r.1 == other@.0 * self@.1,
            self.wf(),
            other.wf(),
    {
        let (a, b) = (self.numerator as i128, self.denominator() as i128);
        let (c, d) = (other.numerator as i128, other.denominator() as i128);
        proof {
            lemma_product_range(a as int, d as int);
            lemma_product_range(c as int, b as int);
        }
        (a * d, c * b)
    }

    /// Whether `self` is strictly below `other`.
    pub fn is_below(self, other: Quot) -> (r: bool)
        ensures
            r <==> ratio_order(self@, other@) < 0,
    {
        let (l, r) = self.cross(other);
        l < r
    }

    /// Whether `self` and `other` are the same number.
    pub fn is_same(self, other: Quot) -> (r: bool)
        ensures
            r <==> ratio_order(self@, other@) == 0,
    {
        let (l, r) = self.cross(other);
        l == r
    }
}

impl Numeric for Quot {
    open spec fn is_zero_value(self) -> bool {
        self@.0 == 0
    }

    open spec fn is_one_value(self) -> bool {
        self@ == (1int, 1int)
    }

    closed spec fn of_small(value: i8) -> Quot {
        Quot { numerator: value as i64, denominator: NonZeroI64::spec_new(1) }
    }

    fn zero() -> (r: Quot) {
        Quot::zero()
    }

    fn is_zero(self) -> (r: bool) {
        Quot::is_zero(self)
    }

    fn one() -> (r: Quot) {
        Quot::one()
    }

    fn is_one(self) -> (r: bool) {
        Quot::is_one(self)
    }

    fn from_int(value: i8) -> (r: Quot) {
        assert(gcd_nat(abs(value as int), 1) == 1) by {
            reveal_with_fuel(gcd_nat, 3);
        }
        Quot { numerator: value as i64, denominator: NonZeroI64::one() }
    }
}

impl Signed for Quot {
    open spec fn sign_of(self) -> Sign {
        Sign::of(self@.0)
    }

    open spec fn has_abs(self) -> bool {
        self@.0 != i64::MIN
    }

    closed spec fn abs_of(self) -> Quot {
        Quot {
            numerator: (if self.numerator < 0 {
                (-self.numerator) as i64
            } else {
                self.numerator
            }),
            denominator: self.denominator,
        }
    }

    fn get_sign(self) -> (r: Sign) {
        Quot::get_sign(self)
    }

    fn get_abs(self) -> (r: Quot) {
        proof {
            use_type_invariant(&self);
        }
        let numerator = if self.numerator < 0 {
            -self.numerator
        } else {
            self.numerator
        };
        Quot { numerator, denominator: self.denominator }
    }
}

impl PartialEq for Quot {
    /// Equality compares cross products.
    fn eq(&self, other: &Quot) -> (r: bool) {
        self.is_same(*other)
    }
}

impl PartialEqSpecImpl for Quot {
    open spec fn obeys_eq_spec() -> bool {
        true
    }

    open spec fn eq_spec(&self, other: &Quot) -> bool {
        ratio_order(self@, other@) == 0
    }
}

impl PartialOrd for Quot {
    /// The order compares cross products; it is total.
    fn partial_cmp(&self, other: &Quot) -> (r: Option<Ordering>) {
        if self.is_below(*other) {
            Some(Ordering::Less)
        } else if self.is_same(*other) {
            Some(Ordering::Equal)
        } else {
            Some(Ordering::Greater)
        }
    }
}

impl PartialOrdSpecImpl for Quot {
    open spec fn obeys_partial_cmp_spec() -> bool {
        true
    }

    open spec fn partial_cmp_spec(&self, other: &Quot) -> Option<Ordering> {
        if ratio_order(self@, other@) < 0 {
            Some(Ordering::Less)
        } else if ratio_order(self@, other@) == 0 {
            Some(Ordering::Equal)
        } else {
            Some(Ordering::Greater)
        }
    }
}

/// A ratio of machine integers is representable unless its numerator or its
/// denominator is the least integer, which has no negative.
pub proof fn lemma_representable(n: int, d: int)
    requires
        d != 0,
        i64::MIN < n <= i64::MAX,
        i64::MIN < d <= i64::MAX,
    ensures
        representable(n, d),
{
    let g = gcd_abs(n, d) as int;
    lemma_gcd_divides(abs(n), abs(d));
    lemma_exact_signed_division(n, g);
    lemma_exact_signed_division(d, g);
    lemma_exact_signed_division(-n, g);
    lemma_exact_signed_division(-d, g);
}

/// The product of a 64-bit value and a positive 64-bit value leaves room in
/// 128 bits for the sum of two such products, and is zero only if the first
/// factor is.
pub proof fn lemma_product_range(a: int, d: int)
    requires
        fits_i64(a),
        0 < d <= i64::MAX,
    ensures
        -0x3fff_ffff_ffff_ffff_8000_0000_0000_0000 <= a * d
            <= 0x3fff_ffff_ffff_ffff_8000_0000_0000_0000,
        a == 0 <==> a * d == 0,
        a > 0 <==> a * d > 0,
        a * d == d * a,
{
    assert(-0x3fff_ffff_ffff_ffff_8000_0000_0000_0000 <= a * d
        <= 0x3fff_ffff_ffff_ffff_8000_0000_0000_0000 && (a == 0 <==> a * d == 0) && (a > 0 <==> a
        * d > 0) && a * d == d * a) by (nonlinear_arith)
        requires
            -0x8000_0000_0000_0000 <= a <= 0x7fff_ffff_ffff_ffff,
            0 < d <= 0x7fff_ffff_ffff_ffff,
    ;
}

/// The product of two 64-bit values leaves room in 128 bits for the
/// difference of two such products, and is zero only if a factor is.
pub proof fn lemma_square_range(a: int, b: int)
    requires
        fits_i64(a),
        fits_i64(b),
    ensures
        -0x3fff_ffff_ffff_ffff_8000_0000_0000_0000 <= a * b
            <= 0x4000_0000_0000_0000_0000_0000_0000_0000,
        a * b == 0 <==> a == 0 || b == 0,
        a * b == b * a,
{
    assert(-0x3fff_ffff_ffff_ffff_8000_0000_0000_0000 <= a * b
        <= 0x4000_0000_0000_0000_0000_0000_0000_0000 && (a * b == 0 <==> a == 0 || b == 0) && a
        * b == b * a) by (nonlinear_arith)
        requires
            -0x8000_0000_0000_0000 <= a <= 0x7fff_ffff_ffff_ffff,
            -0x8000_0000_0000_0000 <= b <= 0x7fff_ffff_ffff_ffff,
    ;
}

} // verus!
