//! Rolling hash for strings.
//!
//! With `x` a number modulo a prime, the hash of a string `c0 c1 ... cn` is
//! built from the terms `ci * x^i`. The terms are kept in a binary indexed
//! tree, so that the sum of the terms of a substring, and from it the hash
//! of the substring, is found in logarithmic time, and so that one
//! character can be replaced in logarithmic time.
use crate::math::arith::{fits_i64, lemma_trunc_magnitudes, trunc_div};
use crate::math::modint::{InvertibleModulus, Mod1e9p7, ModInt, Modulus};
use crate::range::bit::{
    covers, ints, lemma_lsb, lemma_range_sum, lsb, prefix, range_sum, Bit, Bound,
};
use rand::RngCore;
use vstd::arithmetic::div_mod::{
    lemma_fundamental_div_mod_converse, lemma_mul_mod_noop_left, lemma_small_mod,
};
use vstd::arithmetic::power::{lemma_pow0, pow};
use vstd::prelude::*;
use vstd::string::axiom_spec_iter;

verus! {

/// The modulus of the hash.
pub open spec fn modulus() -> nat {
    1_000_000_007
}

/// The term of the character `c` at the position `i`: the residue of `c`
/// times `x^i`.
pub open spec fn term(x: nat, c: char, i: nat) -> int {
    (((pow(x as int, i) % (modulus() as int)) as nat * ((c as u32 as nat) % modulus())) % modulus())
        as int
}

/// The terms of the characters of a string.
pub open spec fn terms(x: nat, chars: Seq<char>) -> Seq<int> {
    Seq::new(chars.len(), |i: int| term(x, chars[i], i as nat))
}

/// The hash of the characters from `from` up to, not including, `to`: the
/// sum of their terms, divided by `x^from`.
pub open spec fn hash_of(x: nat, chars: Seq<char>, from: int, to: int) -> nat {
    let total = range_sum(terms(x, chars), 0, to) - range_sum(terms(x, chars), 0, from);
    let shift = (pow(x as int, from as nat) % (modulus() as int)) as nat;
    (((total % (modulus() as int)) as nat) * Mod1e9p7.inverse_of(shift)) % modulus()
}

/// The sum of a range of residues is not negative and below the number of
/// residues times the modulus.
pub proof fn lemma_sum_of_residues(values: Seq<int>, from: int, to: int)
    requires
        0 <= from <= to <= values.len(),
        forall|i: int| 0 <= i < values.len() ==> 0 <= #[trigger] values[i] < modulus(),
    ensures
        0 <= range_sum(values, from, to) <= (to - from) * (modulus() - 1),
    decreases to - from,
{
    if from < to {
        lemma_sum_of_residues(values, from, to - 1);
        assert((to - 1 - from) * (modulus() - 1) + (modulus() - 1) == (to - from) * (modulus()
            - 1)) by (nonlinear_arith);
    }
}

/// A random 64-bit number.
///
/// Trusted: nothing but that `next_u64` of the generator of the thread
/// returns.
#[verifier::external_body]
fn random_u64() -> u64 {
    rand::thread_rng().next_u64()
}

/// The characters of a string.
fn chars_of(input: &str) -> (r: Vec<char>)
    ensures
        r@ == input@,
{
    broadcast use axiom_spec_iter;

    let mut chars: Vec<char> = Vec::new();
    for c in it: input.chars()
        invariant
            it.seq() == input@,
            chars@ == input@.take(it.index() as int),
    {
        chars.push(c);
        assert(chars@ =~= input@.take(it.index() + 1));
    }
    assert(chars@ =~= input@);
    chars
}

/// Rolling hash for strings, modulo 10^9 + 7.
pub struct RollingHash {
    /// Terms of the hash.
    hashes: Bit,
    /// The characters, for easier modification.
    chars: Vec<char>,
    /// The number that the hash is built on.
    x: ModInt<Mod1e9p7>,
}

impl RollingHash {
    /// The characters of the string.
    pub closed spec fn chars_of(&self) -> Seq<char> {
        self.chars@
    }

    /// The number that the hash is built on.
    pub closed spec fn x_of(&self) -> nat {
        self.x@
    }

    /// Validity of the type: the tree holds the terms of the characters.
    pub closed spec fn wf(&self) -> bool {
        &&& self.x.wf()
        &&& self.chars@.len() <= 0xffff_ffff
        &&& self.hashes@ == terms(self.x@, self.chars@)
    }

    /// Constructs the rolling hash of the string with a random `x`.
    pub fn new(input: &str) -> (r: RollingHash)
        requires
            input@.len() <= 0xffff_ffff,
        ensures
            r.wf(),
            r.chars_of() == input@,
            r.x_of() < modulus(),
    {
        // Choose a random `x`.
        let x = ModInt::new(random_u64(), Mod1e9p7);
        RollingHash::with_x(input, x)
    }

    /// Constructs the rolling hash of the string that uses the given `x`.
    pub fn with_x(input: &str, x: ModInt<Mod1e9p7>) -> (r: RollingHash)
        requires
            x.wf(),
            input@.len() <= 0xffff_ffff,
        ensures
            r.wf(),
            r.chars_of() == input@,
            r.x_of() == x@,
    {
        let chars = chars_of(input);
        let n = chars.len();
        let mut values: Vec<i64> = Vec::new();
        // The power of `x` of the current position.
        let mut power = ModInt::new(1, Mod1e9p7);
        let mut i: usize = 0;
        proof {
            lemma_pow0(x@ as int);
        }
        while i < n
            invariant
                0 <= i <= n,
                n == chars@.len(),
                x.wf(),
                power.wf(),
                power@ == pow(x@ as int, i as nat) % (modulus() as int),
                values@.len() == i,
                forall|j: int| 0 <= j < i ==> #[trigger] values@[j] == term(x@, chars@[j], j as nat),
            decreases n - i,
        {
            let c = chars[i];
            let residue = ModInt::new(c as u32 as u64, Mod1e9p7);
            assert(residue@ == (c as u32 as nat) % modulus());
            let hash = power.mul(residue);
            assert(hash@ == term(x@, c, i as nat));
            values.push(hash.into_inner() as i64);
            proof {
                reveal(pow);
                lemma_mul_mod_noop_left(
                    pow(x@ as int, i as nat),
                    x@ as int,
                    modulus() as int,
                );
                assert(pow(x@ as int, (i + 1) as nat) == x@ * pow(x@ as int, i as nat));
                assert(x@ * pow(x@ as int, i as nat) == pow(x@ as int, i as nat) * x@)
                    by (nonlinear_arith);
            }
            power = power.mul(x);
            i += 1;
        }
        proof {
            assert(ints(values@) =~= terms(x@, chars@));
            assert forall|y: int, to: int|
                1 <= y <= values@.len() && y - lsb(y as nat) <= to
                    <= y implies fits_i64(
                #[trigger] range_sum(ints(values@), y - lsb(y as nat), to),
            ) by {
                lemma_lsb(y as nat);
                let from = y - lsb(y as nat);
                lemma_sum_of_residues(ints(values@), from, to);
                assert((to - from) * (modulus() - 1) <= 0xffff_ffff * 1_000_000_006)
                    by (nonlinear_arith)
                    requires
                        0 <= to - from <= 0xffff_ffff,
                        modulus() == 1_000_000_007,
                ;
            }
        }
        let hashes = Bit::from(values);
        RollingHash { hashes, chars, x }
    }

    /// Gets the hash of the substring over the given range of characters.
    pub fn get_hash(&self, start: Bound, end: Bound) -> (r: ModInt<Mod1e9p7>)
        requires
            self.wf(),
            0 <= Bit::first_index(start) <= self.chars_of().len(),
            0 <= self.end_index(end) <= self.chars_of().len(),
            self.chars_of().len() >= 1 || !(end is Unbounded),
        ensures
            r.wf(),
            r@ == hash_of(
                self.x_of(),
                self.chars_of(),
                Bit::first_index(start),
                self.end_index(end),
            ),
    {
        let first: usize = match start {
            Bound::Included(i) => i,
            Bound::Excluded(i) => i + 1,
            Bound::Unbounded => 0,
        };
        let x_pow = self.x.pow(first);
        proof {
            self.hashes.lemma_view();
            lemma_sum_of_residues(self.hashes@, 0, Bit::first_index(start));
            lemma_sum_of_residues(self.hashes@, 0, self.hashes.end_index(end));
            assert(self.chars@.len() * (modulus() - 1) <= 0xffff_ffff * 1_000_000_006)
                by (nonlinear_arith)
                requires
                    0 <= self.chars@.len() <= 0xffff_ffff,
                    modulus() == 1_000_000_007,
            ;
            assert(Bit::first_index(start) * (modulus() - 1) <= self.chars@.len() * (modulus()
                - 1) && self.hashes.end_index(end) * (modulus() - 1) <= self.chars@.len() * (
            modulus() - 1)) by (nonlinear_arith)
                requires
                    0 <= Bit::first_index(start) <= self.chars@.len(),
                    0 <= self.hashes.end_index(end) <= self.chars@.len(),
                    modulus() == 1_000_000_007,
            ;
        }
        let total: i64 = self.hashes.sum(start, end);
        let residue: i64 = total % 1_000_000_007;
        let residue: u64 = if residue < 0 {
            (residue + 1_000_000_007) as u64
        } else {
            residue as u64
        };
        proof {
            lemma_trunc_magnitudes(total as int, 1_000_000_007);
            if total < 0 {
                lemma_fundamental_div_mod_converse(
                    total as int,
                    1_000_000_007,
                    trunc_div(total as int, 1_000_000_007) - (if residue
                        == 0 {
                        0int
                    } else {
                        1int
                    }),
                    residue as int % 1_000_000_007,
                );
            }
            lemma_small_mod(residue as nat, modulus());
        }
        ModInt::new(residue, Mod1e9p7).div(x_pow)
    }

    /// The number of characters up to the end of a range, for an end `bound`.
    pub open spec fn end_index(&self, bound: Bound) -> int {
        match bound {
            Bound::Excluded(i) => i as int,
            Bound::Included(i) => i + 1,
            Bound::Unbounded => self.chars_of().len() as int,
        }
    }

    /// Replaces the character at the given index with a new one.
    pub fn set_char(&mut self, index: usize, new_char: char)
        requires
            old(self).wf(),
            index < old(self).chars_of().len(),
        ensures
            final(self).wf(),
            final(self).chars_of() == old(self).chars_of().update(index as int, new_char),
            final(self).x_of() == old(self).x_of(),
    {
        let old_char = self.chars[index];
        self.chars[index] = new_char;
        let x_pow = self.x.pow(index);
        // The tree allows for additions at a position: the term changes by
        // the difference of the new term and the old one.
        let new_term = x_pow.mul(ModInt::new(new_char as u32 as u64, Mod1e9p7));
        let old_term = x_pow.mul(ModInt::new(old_char as u32 as u64, Mod1e9p7));
        let change: i64 = new_term.into_inner() as i64 - old_term.into_inner() as i64;
        proof {
            self.hashes.lemma_view();
            let nodes = self.hashes.nodes();
            assert forall|y: int|
                1 <= y <= nodes.len() && covers(
                    y as nat,
                    (index + 1) as nat,
                ) implies fits_i64(#[trigger] nodes[y - 1] + change) by {
                lemma_lsb(y as nat);
                let low = y - lsb(y as nat);
                lemma_range_sum(nodes, low, y);
                lemma_sum_of_residues(self.hashes@, low, y);
                assert((y - low) * (modulus() - 1) <= 0xffff_ffff * 1_000_000_006)
                    by (nonlinear_arith)
                    requires
                        0 <= y - low <= 0xffff_ffff,
                        modulus() == 1_000_000_007,
                ;
                assert(nodes[y - 1] == prefix(nodes, y as nat) - prefix(nodes, low as nat));
            }
        }
        self.hashes.add(index, change);
        proof {
            assert(self.hashes@ =~= terms(self.x@, self.chars@));
        }
    }

    /// The number of characters.
    pub fn len(&self) -> (r: usize)
        ensures
            r == self.chars_of().len(),
    {
        self.chars.len()
    }

    /// Returns the `x` used for hashing.
    pub fn x(&self) -> (r: ModInt<Mod1e9p7>)
        ensures
            r@ == self.x_of(),
    {
        self.x
    }
}

} // verus!
