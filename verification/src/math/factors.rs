//! Factorisations: sorted lists of pairs of a factor and its exponent.
use crate::common::minimap::{differs_in_value, gained_entry, sorted_keys, MiniMap};
use vstd::arithmetic::power::{lemma_pow1, lemma_pow_positive, pow};
use vstd::arithmetic::power2::{
    lemma2_to64, lemma_pow2_pos, lemma_pow2_strictly_increases, lemma_pow2_unfold, pow2,
};
use vstd::prelude::*;

verus! {

/// The product of the prime powers `p^e` of a list of pairs `(p, e)`.
pub open spec fn product_of(factors: Seq<(u64, usize)>) -> nat
    decreases factors.len(),
{
    if factors.len() == 0 {
        1
    } else {
        product_of(factors.drop_last()) * (pow(
            factors.last().0 as int,
            factors.last().1 as nat,
        ) as nat)
    }
}

/// Whether the pairs `(p, e)` are a factorisation of `n` into powers of
/// numbers that the predicate holds of: the `p` increase strictly, each `e`
/// is positive, and the product of the `p^e` is `n`.
pub open spec fn is_factorization(
    factors: Seq<(u64, usize)>,
    n: nat,
    prime: spec_fn(nat) -> bool,
) -> bool {
    &&& sorted_keys(factors)
    &&& forall|i: int|
        0 <= i < factors.len() ==> (#[trigger] factors[i]).0 >= 2 && prime(factors[i].0 as nat)
            && factors[i].1 >= 1
    &&& product_of(factors) == n
}

/// A power of a base from two on is at least the power of two.
proof fn lemma_power_at_least(p: int, e: nat)
    requires
        p >= 2,
    ensures
        pow(p, e) >= pow2(e),
        pow(p, e) >= 1,
    decreases e,
{
    reveal(pow);
    lemma_pow2_pos(e);
    if e == 0 {
        lemma2_to64();
    } else {
        lemma_power_at_least(p, (e - 1) as nat);
        lemma_pow2_unfold(e);
        assert(p * pow(p, (e - 1) as nat) >= 2 * pow2((e - 1) as nat)) by (nonlinear_arith)
            requires
                p >= 2,
                pow(p, (e - 1) as nat) >= pow2((e - 1) as nat),
                pow2((e - 1) as nat) >= 0,
        ;
    }
}

/// With bases from two on, the product is at least each of its powers, so an
/// exponent of a product that fits in 64 bits is below 64.
pub proof fn lemma_product_bounds(factors: Seq<(u64, usize)>, index: int)
    requires
        forall|i: int| 0 <= i < factors.len() ==> (#[trigger] factors[i]).0 >= 2,
        0 <= index < factors.len(),
    ensures
        product_of(factors) >= 1,
        pow(factors[index].0 as int, factors[index].1 as nat) <= product_of(factors),
        product_of(factors) <= u64::MAX ==> factors[index].1 < 64,
    decreases factors.len(),
{
    let rest = factors.drop_last();
    let last = pow(factors.last().0 as int, factors.last().1 as nat);
    lemma_power_at_least(factors.last().0 as int, factors.last().1 as nat);
    lemma_product_positive(rest);
    if index == factors.len() - 1 {
        assert(product_of(rest) * (last as nat) >= last) by (nonlinear_arith)
            requires
                product_of(rest) >= 1,
                last >= 1,
        ;
    } else {
        assert(rest[index] == factors[index]);
        lemma_product_bounds(rest, index);
        assert(product_of(rest) * (last as nat) >= product_of(rest)) by (nonlinear_arith)
            requires
                product_of(rest) >= 1,
                last >= 1,
        ;
    }
    lemma_power_at_least(factors[index].0 as int, factors[index].1 as nat);
    if product_of(factors) <= u64::MAX && factors[index].1 >= 64 {
        lemma2_to64();
        if factors[index].1 > 64 {
            lemma_pow2_strictly_increases(64, factors[index].1 as nat);
        }
    }
}

/// With bases from two on, the product is positive.
pub proof fn lemma_product_positive(factors: Seq<(u64, usize)>)
    requires
        forall|i: int| 0 <= i < factors.len() ==> (#[trigger] factors[i]).0 >= 2,
    ensures
        product_of(factors) >= 1,
    decreases factors.len(),
{
    if factors.len() > 0 {
        let rest = factors.drop_last();
        lemma_product_positive(rest);
        lemma_power_at_least(factors.last().0 as int, factors.last().1 as nat);
        assert(product_of(rest) * (pow(factors.last().0 as int, factors.last().1 as nat) as nat)
            >= 1) by (nonlinear_arith)
            requires
                product_of(rest) >= 1,
                pow(factors.last().0 as int, factors.last().1 as nat) >= 1,
        ;
    }
}

/// A new pair `(p, 1)` multiplies the product by `p`.
pub proof fn lemma_product_gained(
    before: Seq<(u64, usize)>,
    after: Seq<(u64, usize)>,
    index: int,
    key: u64,
)
    requires
        gained_entry(before, after, index, key),
        after[index].1 == 1,
    ensures
        product_of(after) == product_of(before) * key,
    decreases before.len(),
{
    if index == before.len() {
        assert(after.drop_last() =~= before);
        lemma_pow1(key as int);
    } else {
        assert(after.last() == before.last());
        let a = after.drop_last();
        let b = before.drop_last();
        assert(gained_entry(b, a, index, key)) by {
            assert forall|j: int| index <= j < b.len() implies a[j + 1] == b[j] by {
                assert(after[j + 1] == before[j]);
            }
        }
        lemma_product_gained(b, a, index, key);
        let last = pow(before.last().0 as int, before.last().1 as nat) as nat;
        assert((product_of(b) * key) * last == (product_of(b) * last) * key) by (nonlinear_arith);
    }
}

/// One more in the exponent of `p` multiplies the product by `p`.
pub proof fn lemma_product_bumped(
    before: Seq<(u64, usize)>,
    after: Seq<(u64, usize)>,
    index: int,
)
    requires
        differs_in_value(before, after, index),
        after[index].1 == before[index].1 + 1,
        before[index].0 >= 2,
    ensures
        product_of(after) == product_of(before) * before[index].0,
    decreases before.len(),
{
    let key = before[index].0;
    if index == before.len() - 1 {
        assert(after.drop_last() =~= before.drop_last());
        reveal(pow);
        let e = before[index].1 as nat;
        lemma_pow_positive(key as int, e);
        assert(pow(key as int, e + 1) == key * pow(key as int, e));
        assert(product_of(before.drop_last()) * ((key * pow(key as int, e)) as nat) == (product_of(
            before.drop_last(),
        ) * (pow(key as int, e) as nat)) * key) by (nonlinear_arith)
            requires
                pow(key as int, e) > 0,
                key >= 2,
        ;
    } else {
        assert(after.last() == before.last());
        let a = after.drop_last();
        let b = before.drop_last();
        assert(differs_in_value(b, a, index));
        lemma_product_bumped(b, a, index);
        let last = pow(before.last().0 as int, before.last().1 as nat) as nat;
        assert((product_of(b) * key) * last == (product_of(b) * last) * key) by (nonlinear_arith);
    }
}

/// The product of no pairs is one.
pub proof fn lemma_empty_product(factors: Seq<(u64, usize)>)
    requires
        factors.len() == 0,
    ensures
        product_of(factors) == 1,
        forall|prime: spec_fn(nat) -> bool| #[trigger] is_factorization(factors, 1, prime),
{
}

/// Counts one more factor `p`: adds the pair `(p, 1)`, or one to the
/// exponent of `p`.
pub fn record_factor(
    factors: &mut MiniMap<usize>,
    p: u64,
    Ghost(prime): Ghost<spec_fn(nat) -> bool>,
)
    requires
        old(factors).wf(),
        p >= 2,
        prime(p as nat),
        is_factorization(old(factors).entries(), product_of(old(factors).entries()), prime),
        product_of(old(factors).entries()) * p <= u64::MAX,
    ensures
        final(factors).wf(),
        is_factorization(
            final(factors).entries(),
            product_of(old(factors).entries()) * (p as nat),
            prime,
        ),
{
    let ghost before = factors.entries();
    proof {
        factors.lemma_entries();
        lemma_product_positive(before);
        assert(product_of(before) <= u64::MAX) by (nonlinear_arith)
            requires
                product_of(before) * p <= u64::MAX,
                p >= 2,
                product_of(before) >= 1,
        ;
    }
    let entry = factors.entry(p);
    let ghost position = entry.position();
    let ghost vacant = entry is Vacant;
    proof {
        entry.lemma_position();
        if !vacant {
            lemma_product_bounds(before, position);
        }
    }
    let count = entry.or_insert(0);
    *count += 1;
    proof {
        let after = factors.entries();
        factors.lemma_entries();
        if vacant {
            lemma_product_gained(before, after, position, p);
        } else {
            lemma_product_bumped(before, after, position);
        }
        assert forall|i: int| 0 <= i < after.len() implies (#[trigger] after[i]).0 >= 2 && prime(
            after[i].0 as nat,
        ) && after[i].1 >= 1 by {
            if vacant {
                if i < position {
                    assert(after[i] == before[i]);
                } else if i > position {
                    assert(after[i] == before[i - 1]);
                }
            } else {
                if i != position {
                    assert(after[i] == before[i]);
                }
            }
        }
    }
}

} // verus!
