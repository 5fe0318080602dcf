//! The numeric kernel: signs and integers that are known not to be zero.
use vstd::prelude::*;

verus! {

/// Sign of a number.
#[derive(Debug, Clone, Copy, PartialEq, Eq, Structural, PartialOrd, Ord, Hash)]
pub enum Sign {
    /// Negative sign.
    Negative,
    /// The number has no sign: it is zero.
    Neutral,
    /// Positive sign.
    Positive,
}

impl Sign {
    /// The sign of the integer `v`.
    pub open spec fn of(v: int) -> Sign {
        if v < 0 {
            Sign::Negative
        } else if v > 0 {
            Sign::Positive
        } else {
            Sign::Neutral
        }
    }

    /// The sign of the negated number.
    pub open spec fn flipped(self) -> Sign {
        match self {
            Sign::Negative => Sign::Positive,
            Sign::Neutral => Sign::Neutral,
            Sign::Positive => Sign::Negative,
        }
    }

    /// Negation: swaps `Negative` and `Positive` and keeps `Neutral`.
    pub fn neg(self) -> (r: Sign)
        ensures
            r == self.flipped(),
    {
        match self {
            Sign::Negative => Sign::Positive,
            Sign::Neutral => Sign::Neutral,
            Sign::Positive => Sign::Negative,
        }
    }

    /// The sign of a machine integer.
    pub fn of_i64(v: i64) -> (r: Sign)
        ensures
            r == Sign::of(v as int),
    {
        if v < 0 {
            Sign::Negative
        } else if v > 0 {
            Sign::Positive
        } else {
            Sign::Neutral
        }
    }
}

/// A 64-bit signed integer that is not zero; the type of denominators and
/// divisors.
#[derive(Debug, Clone, Copy, PartialEq, Eq, Structural, PartialOrd, Ord, Hash)]
pub struct NonZeroI64 {
    value: i64,
}

impl View for NonZeroI64 {
    type V = int;

    closed spec fn view(&self) -> int {
        self.value as int
    }
}

impl NonZeroI64 {
    /// The invariant of the type: the held value is not zero.
    #[verifier::type_invariant]
    pub closed spec fn wf(self) -> bool {
        self.value != 0
    }

    /// The non-zero integer that holds `v`.
    pub closed spec fn spec_new(v: int) -> NonZeroI64 {
        NonZeroI64 { value: v as i64 }
    }

    /// Creates a non-zero value; `None` exactly when `value` is zero.
    pub fn new(value: i64) -> (r: Option<NonZeroI64>)
        ensures
            r.is_none() <==> value == 0,
            r matches Some(n) ==> n@ == value && n.wf() && n == NonZeroI64::spec_new(value as int),
    {
        if value == 0 {
            None
        } else {
            Some(NonZeroI64 { value })
        }
    }

    /// The held value.
    pub fn get(self) -> (r: i64)
        ensures
            r == self@,
            r != 0,
            self.wf(),
    {
        proof {
            use_type_invariant(&self);
        }
        self.value
    }

    /// The number one, which every strategy can use as a neutral divisor.
    pub fn one() -> (r: NonZeroI64)
        ensures
            r@ == 1,
            r.wf(),
            r == NonZeroI64::spec_new(1),
    {
        NonZeroI64 { value: 1 }
    }

    /// Two values with the same view are the same value, and `spec_new` is the
    /// value with the given view.
    pub proof fn lemma_view_injective(a: NonZeroI64, b: NonZeroI64)
        ensures
            a@ == b@ ==> a == b,
            NonZeroI64::spec_new(a@) == a,
            i64::MIN <= a@ <= i64::MAX,
            a.wf() <==> a@ != 0,
    {
    }

    /// The view of `spec_new(v)` is `v` for every `v` that `i64` holds.
    pub proof fn lemma_spec_new_view(v: int)
        requires
            i64::MIN <= v <= i64::MAX,
        ensures
            NonZeroI64::spec_new(v)@ == v,
    {
    }
}

/// A numeric type: it has a zero and a one.
pub trait Numeric: Copy {
    /// Whether the value is the zero of the type.
    spec fn is_zero_value(self) -> bool;

    /// Whether the value is the one of the type.
    spec fn is_one_value(self) -> bool;

    /// The value that stands for the small integer `value`.
    spec fn of_small(value: i8) -> Self;

    /// Returns zero.
    fn zero() -> (r: Self)
        ensures
            r.is_zero_value(),
    ;

    /// Tests whether the value is zero.
    fn is_zero(self) -> (r: bool)
        ensures
            r == self.is_zero_value(),
    ;

    /// Returns one.
    fn one() -> (r: Self)
        ensures
            r.is_one_value(),
    ;

    /// Tests whether the value is one.
    fn is_one(self) -> (r: bool)
        ensures
            r == self.is_one_value(),
    ;

    /// Converts the given small integer to the type.
    fn from_int(value: i8) -> (r: Self)
        ensures
            r == Self::of_small(value),
    ;
}

/// A numeric type with signs.
pub trait Signed: Numeric {
    /// The sign of the value.
    spec fn sign_of(self) -> Sign;

    /// Whether the type holds the absolute value of the value.
    spec fn has_abs(self) -> bool;

    /// The absolute value.
    spec fn abs_of(self) -> Self;

    /// Returns the sign of the number.
    fn get_sign(self) -> (r: Sign)
        ensures
            r == self.sign_of(),
    ;

    /// Returns the absolute value of the number.
    fn get_abs(self) -> (r: Self)
        requires
            self.has_abs(),
        ensures
            r == self.abs_of(),
    ;
}

/// A numeric type that cannot hold zero.
pub trait NonZero: Sized + Copy {
    /// The numeric type that can.
    type Base: Numeric;

    /// The held value.
    spec fn held(self) -> Self::Base;

    /// Creates a new non-zero value. Returns `None` exactly when the given
    /// value is zero.
    fn new(value: Self::Base) -> (r: Option<Self>)
        ensures
            r.is_none() == value.is_zero_value(),
            r matches Some(n) ==> n.held() == value,
    ;

    /// Gets the value as a value of the type that can hold zero.
    fn get(self) -> (r: Self::Base)
        ensures
            r == self.held(),
            !r.is_zero_value(),
    ;
}

/// An integral type, with the type of its values other than zero.
pub trait Integer: Numeric {
    /// The corresponding type that cannot hold zero.
    type NonZero: NonZero<Base = Self>;
}

/// A floating-point type: a signed numeric type with square roots.
pub trait Float: Signed {
    /// Computes the square root of the number.
    fn get_sqrt(self) -> Self;
}

impl Numeric for i64 {
    open spec fn is_zero_value(self) -> bool {
        self == 0
    }

    open spec fn is_one_value(self) -> bool {
        self == 1
    }

    open spec fn of_small(value: i8) -> i64 {
        value as i64
    }

    fn zero() -> (r: i64) {
        0
    }

    fn is_zero(self) -> (r: bool) {
        self == 0
    }

    fn one() -> (r: i64) {
        1
    }

    fn is_one(self) -> (r: bool) {
        self == 1
    }

    fn from_int(value: i8) -> (r: i64) {
        value as i64
    }
}

impl Signed for i64 {
    open spec fn sign_of(self) -> Sign {
        Sign::of(self as int)
    }

    open spec fn has_abs(self) -> bool {
        self != i64::MIN
    }

    open spec fn abs_of(self) -> i64 {
        if self < 0 {
            (-self) as i64
        } else {
            self
        }
    }

    fn get_sign(self) -> (r: Sign) {
        Sign::of_i64(self)
    }

    fn get_abs(self) -> (r: i64) {
        if self < 0 {
            -self
        } else {
            self
        }
    }
}

impl NonZero for NonZeroI64 {
    type Base = i64;

    closed spec fn held(self) -> i64 {
        self.value
    }

    fn new(value: i64) -> (r: Option<NonZeroI64>) {
        NonZeroI64::new(value)
    }

    fn get(self) -> (r: i64) {
        NonZeroI64::get(self)
    }
}

impl Integer for i64 {
    type NonZero = NonZeroI64;
}

} // verus!
