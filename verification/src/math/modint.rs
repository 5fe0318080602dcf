//! Integers modulo a number.
use vstd::arithmetic::div_mod::{
    lemma_mod_add_multiples_vanish, lemma_mod_bound, lemma_mul_mod_noop,
    lemma_mul_mod_noop_right, lemma_small_mod,
};
use vstd::arithmetic::power::{lemma_pow0, lemma_pow1, lemma_pow_adds, pow};
use vstd::prelude::*;
use vstd::std_specs::cmp::PartialEqSpecImpl;
use vstd::std_specs::convert::FromSpecImpl;

verus! {

/// Whether residues modulo `m` can be multiplied in 64 bits: `m` is not
/// zero, and the square of `m - 1` fits.
pub open spec fn fits_modulus(m: nat) -> bool {
    m >= 1 && (m - 1) * (m - 1) <= u64::MAX
}

/// A modulus for [`ModInt`]: a number that residues are taken by.
pub trait Modulus: Copy {
    /// The modulus as a number.
    spec fn value(self) -> nat;

    /// Modulus in which computations are done.
    fn modulus(self) -> (r: u64)
        ensures
            r == self.value(),
    ;
}

/// A modulus in which numbers can be inverted.
pub trait InvertibleModulus: Modulus {
    /// The residue that `inverse` computes for a residue: the power that
    /// inverts it.
    spec fn inverse_of(self, residue: nat) -> nat;

    /// Computes the inverse of the given [`ModInt`].
    fn inverse(self, value: ModInt<Self>) -> (r: ModInt<Self>)
        requires
            value.wf(),
            fits_modulus(self.value()),
            self.value() >= 2,
            value.modulus_of() == self,
        ensures
            r.wf(),
            r.modulus_of() == self,
            r@ == self.inverse_of(value@),
    ;
}

/// An integer for which all computations are done modulo the modulus that it
/// carries. The residue is always below the modulus.
#[derive(Debug)]
pub struct ModInt<M: Modulus>(u64, M);

impl<M: Modulus> Clone for ModInt<M> {
    fn clone(&self) -> (r: Self)
        ensures
            r == *self,
    {
        ModInt(self.0, self.1)
    }
}

impl<M: Modulus> Copy for ModInt<M> {

}

impl<M: Modulus> View for ModInt<M> {
    type V = nat;

    closed spec fn view(&self) -> nat {
        self.0 as nat
    }
}

impl<M: Modulus> ModInt<M> {
    /// The modulus that the value carries.
    pub closed spec fn modulus_of(self) -> M {
        self.1
    }

    /// Validity of the type: residues can be multiplied, and the residue is
    /// below the modulus.
    pub open spec fn wf(self) -> bool {
        fits_modulus(self.modulus_of().value()) && self@ < self.modulus_of().value()
    }

    /// The residue of `value` in the given modulus.
    pub fn new(value: u64, modulus: M) -> (r: Self)
        requires
            fits_modulus(modulus.value()),
        ensures
            r.wf(),
            r.modulus_of() == modulus,
            r@ == value as nat % modulus.value(),
    {
        let m = modulus.modulus();
        proof {
            lemma_mod_bound(value as int, m as int);
        }
        ModInt(value % m, modulus)
    }

    /// Computes the sum.
    pub fn add(self, rhs: Self) -> (r: Self)
        requires
            self.wf(),
            rhs.wf(),
            rhs.modulus_of() == self.modulus_of(),
        ensures
            r.wf(),
            r.modulus_of() == self.modulus_of(),
            r@ == (self@ + rhs@) % self.modulus_of().value(),
    {
        let m = self.1.modulus();
        // Both residues are below the modulus: their sum is below its double.
        let sum: u128 = self.0 as u128 + rhs.0 as u128;
        proof {
            lemma_mod_bound(sum as int, m as int);
        }
        ModInt((sum % (m as u128)) as u64, self.1)
    }

    /// Computes the product.
    pub fn mul(self, rhs: Self) -> (r: Self)
        requires
            self.wf(),
            rhs.wf(),
            rhs.modulus_of() == self.modulus_of(),
        ensures
            r.wf(),
            r.modulus_of() == self.modulus_of(),
            r@ == (self@ * rhs@) % self.modulus_of().value(),
    {
        let m = self.1.modulus();
        proof {
            assert(self.0 * rhs.0 <= (m - 1) * (m - 1)) by (nonlinear_arith)
                requires
                    0 <= self.0 <= m - 1,
                    0 <= rhs.0 <= m - 1,
            ;
            lemma_mod_bound(self.0 * rhs.0, m as int);
        }
        ModInt((self.0 * rhs.0) % m, self.1)
    }

    /// Computes the difference.
    pub fn sub(self, rhs: Self) -> (r: Self)
        requires
            self.wf(),
            rhs.wf(),
            rhs.modulus_of() == self.modulus_of(),
        ensures
            r.wf(),
            r.modulus_of() == self.modulus_of(),
            r@ == (self@ - rhs@) % (self.modulus_of().value() as int),
    {
        let m = self.1.modulus();
        let l = self.0;
        let r = rhs.0;
        if l < r {
            proof {
                lemma_mod_add_multiples_vanish(l - r, m as int);
                lemma_small_mod((l + m - r) as nat, m as nat);
            }
            ModInt(l + (m - r), self.1)
        } else {
            proof {
                lemma_small_mod((l - r) as nat, m as nat);
            }
            ModInt(l - r, self.1)
        }
    }

    /// Computes the value raised to the given power, by repeated squaring.
    pub fn pow(self, rhs: usize) -> (r: Self)
        requires
            self.wf(),
        ensures
            r.wf(),
            r.modulus_of() == self.modulus_of(),
            r@ == pow(self@ as int, rhs as nat) % (self.modulus_of().value() as int),
        decreases rhs,
    {
        let ghost b = self@ as int;
        let ghost m = self.modulus_of().value() as int;
        if rhs == 0 {
            proof {
                lemma_pow0(b);
            }
            ModInt::new(1, self.1)
        } else if rhs == 1 {
            proof {
                lemma_pow1(b);
                lemma_small_mod(b as nat, m as nat);
            }
            self
        } else if rhs % 2 == 0 {
            let p = self.pow(rhs / 2);
            proof {
                let half = (rhs / 2) as nat;
                lemma_pow_adds(b, half, half);
                lemma_mul_mod_noop(pow(b, half), pow(b, half), m);
            }
            p.mul(p)
        } else {
            let p = self.pow(rhs - 1);
            proof {
                let less = (rhs - 1) as nat;
                reveal(pow);
                assert(pow(b, rhs as nat) == b * pow(b, less));
                lemma_mul_mod_noop_right(b, pow(b, less), m);
            }
            self.mul(p)
        }
    }

    /// Computes the inverse of the value, as the modulus defines it. For a
    /// prime modulus and a value that is not zero, the value times its
    /// inverse is one: see [`lemma_runtime_prime_inverts`] and
    /// [`lemma_fixed_prime_inverts`].
    ///
    /// [`lemma_runtime_prime_inverts`]: super::fermat::lemma_runtime_prime_inverts
    /// [`lemma_fixed_prime_inverts`]: super::fermat::lemma_fixed_prime_inverts
    pub fn inv(self) -> (r: Self) where M: InvertibleModulus
        requires
            self.wf(),
            self.modulus_of().value() >= 2,
        ensures
            r.wf(),
            r.modulus_of() == self.modulus_of(),
            r@ == self.modulus_of().inverse_of(self@),
    {
        self.modulus().inverse(self)
    }

    /// Divides by multiplying with the inverse.
    pub fn div(self, rhs: Self) -> (r: Self) where M: InvertibleModulus
        requires
            self.wf(),
            rhs.wf(),
            rhs.modulus_of() == self.modulus_of(),
            self.modulus_of().value() >= 2,
        ensures
            r.wf(),
            r.modulus_of() == self.modulus_of(),
            r@ == (self@ * self.modulus_of().inverse_of(rhs@)) % self.modulus_of().value(),
    {
        self.mul(rhs.inv())
    }

    /// Returns the modulus used.
    pub fn modulus(self) -> (r: M)
        ensures
            r == self.modulus_of(),
    {
        self.1
    }

    /// Returns the residue without the modulus. It is below the modulus.
    pub fn into_inner(self) -> (r: u64)
        ensures
            r == self@,
    {
        self.0
    }

    /// Whether two values have the same residue.
    pub fn has_same_residue(self, other: Self) -> (r: bool)
        ensures
            r == (self@ == other@),
    {
        self.0 == other.0
    }
}

impl<M: Modulus> PartialEq for ModInt<M> {
    /// Equality compares the residues.
    fn eq(&self, other: &Self) -> (r: bool) {
        self.has_same_residue(*other)
    }
}

impl<M: Modulus> PartialEqSpecImpl for ModInt<M> {
    open spec fn obeys_eq_spec() -> bool {
        true
    }

    open spec fn eq_spec(&self, other: &Self) -> bool {
        self@ == other@
    }
}

/// The commonly used modulus 10^9 + 7.
#[derive(Debug, Clone, Copy, Default)]
pub struct Mod1e9p7;

impl Modulus for Mod1e9p7 {
    open spec fn value(self) -> nat {
        1_000_000_007
    }

    fn modulus(self) -> (r: u64) {
        1_000_000_007
    }
}

impl InvertibleModulus for Mod1e9p7 {
    open spec fn inverse_of(self, residue: nat) -> nat {
        (pow(residue as int, 1_000_000_005) % 1_000_000_007) as nat
    }

    fn inverse(self, value: ModInt<Self>) -> (r: ModInt<Self>) {
        value.pow(1_000_000_005)
    }
}

impl From<u64> for ModInt<Mod1e9p7> {
    /// The residue of `val` modulo 10^9 + 7.
    fn from(val: u64) -> (r: Self)
        ensures
            r.wf(),
            r@ == val as nat % 1_000_000_007,
    {
        ModInt::new(val, Mod1e9p7)
    }
}

impl FromSpecImpl<u64> for ModInt<Mod1e9p7> {
    open spec fn obeys_from_spec() -> bool {
        true
    }

    closed spec fn from_spec(val: u64) -> Self {
        ModInt((val % 1_000_000_007) as u64, Mod1e9p7)
    }
}

/// A modulus whose value is chosen at run time.
#[derive(Debug, Clone, Copy)]
pub struct RuntimeModulus(pub u64);

/// A modulus whose value is chosen at run time and is a prime, so that
/// numbers can be inverted by raising them to the power of the modulus less
/// two.
#[derive(Debug, Clone, Copy)]
pub struct RuntimePrimeModulus(pub u64);

impl Modulus for RuntimePrimeModulus {
    open spec fn value(self) -> nat {
        self.0 as nat
    }

    fn modulus(self) -> (r: u64) {
        self.0
    }
}

impl InvertibleModulus for RuntimePrimeModulus {
    open spec fn inverse_of(self, residue: nat) -> nat {
        (pow(residue as int, (self.0 - 2) as nat) % (self.0 as int)) as nat
    }

    fn inverse(self, value: ModInt<Self>) -> (r: ModInt<Self>) {
        assert(self.0 - 2 <= 0xffff_ffff) by (nonlinear_arith)
            requires
                self.0 >= 2,
                (self.0 - 1) * (self.0 - 1) <= 0xffff_ffff_ffff_ffff,
        ;
        value.pow((self.0 - 2) as usize)
    }
}

} // verus!
