//! Arithmetic: divisibility, rationals, modular integers, primes,
//! permutations and subsets.
pub mod arith;
pub mod factors;
pub mod fermat;
pub mod modint;
pub mod number_theory;
pub mod numtraits;
pub mod permutations;
pub mod quot;
pub mod sieve;
pub mod subsets;

pub use modint::{InvertibleModulus, Mod1e9p7, ModInt, Modulus, RuntimeModulus, RuntimePrimeModulus};
pub use number_theory::{factorize, gcd, gcd_unsigned, is_prime, mod_pow};
pub use numtraits::{Float, Integer, NonZero, NonZeroI64, Numeric, Sign, Signed};
pub use permutations::next_permutation;
pub use quot::Quot;
pub use sieve::PrimeSieve;
pub use subsets::subsets;
