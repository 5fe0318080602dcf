use comlib::math::number_theory::rho_attempt;
use comlib::math::{
    factorize, gcd, is_prime, mod_pow, next_permutation, subsets, Mod1e9p7, ModInt, PrimeSieve,
    Quot, RuntimePrimeModulus, Sign,
};

#[test]
fn test_modular_power() {
    assert_eq!(
        ModInt::<Mod1e9p7>::from(10u64).pow(10),
        ModInt::<Mod1e9p7>::from(999999937u64)
    );
    assert_eq!(
        ModInt::<Mod1e9p7>::from(5u64).pow(3),
        ModInt::<Mod1e9p7>::from(125u64)
    );
    assert_eq!(
        ModInt::<Mod1e9p7>::from(5u64).pow(0),
        ModInt::<Mod1e9p7>::from(1u64)
    );
    assert_eq!(
        ModInt::<Mod1e9p7>::from(0u64).pow(0),
        ModInt::<Mod1e9p7>::from(1u64)
    );
}

#[test]
fn test_gcd() {
    assert_eq!(gcd(1, 2), 1);
    assert_eq!(gcd(99, 0), 99);
    assert_eq!(gcd(0, 99), 99);
    assert_eq!(gcd(6, 9), 3);
    assert_eq!(gcd(9, 6), 3);
}

#[test]
fn test_prime_sieve_construction() {
    let sieve = PrimeSieve::new(10);
    assert_eq!(sieve.into_inner(), [0, 0, 2, 3, 2, 5, 3, 7, 2, 3, 5]);
}

#[test]
fn test_prime_sieve_is_prime() {
    let sieve = PrimeSieve::new(10_000);
    assert!(!sieve.is_prime(0));
    assert!(!sieve.is_prime(1));
    assert!(sieve.is_prime(2));
    assert!(sieve.is_prime(3));
    assert!(!sieve.is_prime(4));
    assert!(sieve.is_prime(5));
    assert!(!sieve.is_prime(6));
    assert!(sieve.is_prime(7));
    assert!(!sieve.is_prime(8));
    assert!(!sieve.is_prime(9));
    assert!(!sieve.is_prime(10));
    assert!(sieve.is_prime(11));

    assert!(sieve.is_prime(211));
    assert!(sieve.is_prime(3433));
    assert!(!sieve.is_prime(3435));
    assert!(sieve.is_prime(7717));
    assert!(!sieve.is_prime(7719));
    assert!(!sieve.is_prime(7721));
    assert!(sieve.is_prime(7723));
    assert!(sieve.is_prime(7547));
    assert!(sieve.is_prime(7549));
    assert!(!sieve.is_prime(10_000));
}

#[test]
fn test_prime_sieve_factorization() {
    let sieve = PrimeSieve::new(10_000);
    assert_eq!(sieve.factorize(2), [(2, 1)]);
    assert_eq!(sieve.factorize(4), [(2, 2)]);
    assert_eq!(sieve.factorize(8), [(2, 3)]);
    assert_eq!(sieve.factorize(9), [(3, 2)]);
    assert_eq!(sieve.factorize(21), [(3, 1), (7, 1)]);
    assert_eq!(sieve.factorize(1009), [(1009, 1)]);
    assert_eq!(sieve.factorize(10_000), [(2, 4), (5, 4)]);
}

#[test]
fn test_is_prime() {
    assert!(!is_prime(0));
    assert!(!is_prime(1));
    assert!(is_prime(2));
    assert!(is_prime(3));
    assert!(!is_prime(4));
    assert!(is_prime(5));
    assert!(is_prime(7));
    assert!(!is_prime(21));
    assert!(is_prime(23));
    assert!(is_prime(1_000_000_007));
    assert!(is_prime(1_000_000_009));
}

#[test]
fn test_is_prime_against_sieve() {
    let n = 100_000;
    let sieve = PrimeSieve::new(n);
    for i in 0..=n {
        assert_eq!(is_prime(i), sieve.is_prime(i), "Failed {}", i);
    }
}

#[test]
fn test_factorize() {
    assert_eq!(factorize(2), [(2, 1)]);
    assert_eq!(factorize(4), [(2, 2)]);
    assert_eq!(factorize(8), [(2, 3)]);
    assert_eq!(factorize(9), [(3, 2)]);
    assert_eq!(factorize(21), [(3, 1), (7, 1)]);
    assert_eq!(factorize(450775), [(5, 2), (13, 1), (19, 1), (73, 1)]);
}

#[test]
fn test_factorize_against_sieve() {
    let n = 100_000;
    let sieve = PrimeSieve::new(n);

    for i in 1..=n {
        assert_eq!(factorize(i), sieve.factorize(i), "Failed {}", i);
    }
}

#[test]
fn test_next_permutation() {
    let mut perm = [1, 2, 3];
    assert!(next_permutation(&mut perm));
    assert_eq!(perm, [1, 3, 2]);
    assert!(next_permutation(&mut perm));
    assert_eq!(perm, [2, 1, 3]);
    assert!(next_permutation(&mut perm));
    assert_eq!(perm, [2, 3, 1]);
    assert!(next_permutation(&mut perm));
    assert_eq!(perm, [3, 1, 2]);
    assert!(next_permutation(&mut perm));
    assert_eq!(perm, [3, 2, 1]);
    assert!(!next_permutation(&mut perm));
    assert_eq!(perm, [1, 2, 3]);
}

#[test]
fn test_next_permutation_duplicate_elements() {
    let mut perm = [1, 2, 2];
    assert!(next_permutation(&mut perm));
    assert_eq!(perm, [2, 1, 2]);
    assert!(next_permutation(&mut perm));
    assert_eq!(perm, [2, 2, 1]);
    assert!(!next_permutation(&mut perm));
    assert_eq!(perm, [1, 2, 2]);
}

fn select_all(subset: comlib::math::subsets::Subset, items: &[i32]) -> Vec<i32> {
    let mut chosen = Vec::new();
    let mut iter = subset.select(items);
    while let Some(item) = iter.next() {
        chosen.push(*item);
    }
    chosen
}

#[test]
fn test_subsets() {
    let items = [1, 2, 3];

    let mut all = subsets(items.len());
    let mut subsets: Vec<Vec<i32>> = Vec::new();
    while let Some(subset) = all.next() {
        subsets.push(select_all(subset, &items));
    }

    assert_eq!(
        subsets,
        [
            vec![],
            vec![1],
            vec![2],
            vec![1, 2],
            vec![3],
            vec![1, 3],
            vec![2, 3],
            vec![1, 2, 3]
        ]
    );
}

#[test]
fn test_subset_is_empty() {
    let mut subsets = subsets(3);
    assert!(subsets.next().unwrap().is_empty());
    assert!(!subsets.next().unwrap().is_empty());
    assert!(!subsets.next().unwrap().is_empty());
    assert!(!subsets.next().unwrap().is_empty());
    assert!(!subsets.next().unwrap().is_empty());
    assert!(!subsets.next().unwrap().is_empty());
    assert!(!subsets.next().unwrap().is_empty());
    assert!(!subsets.next().unwrap().is_empty());
    assert!(subsets.next().is_none());
}

#[test]
fn test_subset_contains() {
    let items = [0, 1, 2];

    let mut all = subsets(items.len());
    while let Some(subset) = all.next() {
        let elements = select_all(subset, &items);
        for &item in &items {
            if elements.contains(&item) {
                assert!(subset.contains(item as usize));
            } else {
                assert!(!subset.contains(item as usize));
            }
        }
    }
}

#[test]
fn subset_len_counts_members() {
    let mut all = subsets(4);
    let mut sizes = Vec::new();
    while let Some(subset) = all.next() {
        sizes.push(subset.len());
    }
    assert_eq!(sizes, [0, 1, 1, 2, 1, 2, 2, 3, 1, 2, 2, 3, 2, 3, 3, 4]);
    assert_eq!(subsets(64).size_hint(), None.or(usize::try_from(u64::MAX).ok().and(None)));
}

#[test]
fn mod_pow_small_values() {
    assert_eq!(mod_pow(2, 10, 1000), 24);
    assert_eq!(mod_pow(3, 0, 7), 1);
    assert_eq!(mod_pow(5, 1, 3), 2);
    assert_eq!(mod_pow(7, 13, 1), 0);
    assert_eq!(mod_pow(10, 18, 1_000_000_007), 49);
}

#[test]
fn gcd_keeps_the_sign_of_the_last_remainder() {
    assert_eq!(gcd(2, -1), -1);
    assert_eq!(gcd(-2, 1), 1);
    assert_eq!(gcd(6, -4), 2);
    assert_eq!(gcd(4, -6), -2);
    assert_eq!(gcd(0, 0), 0);
    assert_eq!(gcd(-7, 0), -7);
}

#[test]
fn quot_is_reduced_with_positive_denominator() {
    let q = Quot::new(6, -4).unwrap();
    assert_eq!((q.numerator(), q.denominator()), (-3, 2));
    let q = Quot::new(-10, -4).unwrap();
    assert_eq!((q.numerator(), q.denominator()), (5, 2));
    let q = Quot::new(0, -7).unwrap();
    assert_eq!((q.numerator(), q.denominator()), (0, 1));
    assert!(Quot::new(1, 0).is_none());
    let q = Quot::new(i64::MIN, 2).unwrap();
    assert_eq!((q.numerator(), q.denominator()), (i64::MIN / 2, 1));
}

#[test]
fn quot_arithmetic() {
    let half = Quot::new(1, 2).unwrap();
    let third = Quot::new(1, 3).unwrap();
    let sum = half.add(third);
    assert_eq!((sum.numerator(), sum.denominator()), (5, 6));
    let difference = third.sub(half);
    assert_eq!((difference.numerator(), difference.denominator()), (-1, 6));
    let product = half.mul(third);
    assert_eq!((product.numerator(), product.denominator()), (1, 6));
    let quotient = half.div(third.neg());
    assert_eq!((quotient.numerator(), quotient.denominator()), (-3, 2));
    assert_eq!(quotient.get_sign(), Sign::Negative);
    assert_eq!(quotient.abs(), Quot::new(3, 2).unwrap());
    assert_eq!(Quot::new(7, 2).unwrap().trunc(), 3);
    assert_eq!(Quot::new(-7, 2).unwrap().trunc(), -3);
    assert_eq!(Quot::new(6, 3).unwrap().trunc(), 2);
    assert_eq!(Quot::new(1, 3).unwrap().trunc(), 0);
    assert!(third < half);
    assert!(half.is_below(Quot::one()));
    assert!(Quot::zero().is_zero());
    assert!(Quot::from_int(1).is_one());
    assert_eq!(Sign::Negative.neg(), Sign::Positive);
    assert_eq!(Sign::Neutral.neg(), Sign::Neutral);
}

#[test]
fn modint_arithmetic_in_a_small_prime() {
    let p = RuntimePrimeModulus(5);
    let a = ModInt::new(7, p);
    assert_eq!(a, ModInt::new(2, p));
    let b = ModInt::new(3, p);
    assert_eq!(a.add(b).into_inner(), 0);
    assert_eq!(a.mul(b).into_inner(), 1);
    assert_eq!(b.sub(a).into_inner(), 1);
    assert_eq!(a.sub(b).into_inner(), 4);
    assert_eq!(a.div(b).into_inner(), 4);
    assert_eq!(b.inv().into_inner(), 2);
    assert_eq!(a.modulus().0, 5);
}

#[test]
fn pollard_rho_finds_a_proper_divisor() {
    // The walk of x * x + 1 from 2, modulo 8051 = 83 * 97.
    assert_eq!(rho_attempt(8051, 2, 1), Some(97));
    // A walk that comes back to its start without a divisor.
    assert_eq!(rho_attempt(4, 0, 0), None);
    for (n, x, c) in [(8051u64, 5, 3), (10403, 2, 1), (1_000_036_000_099, 2, 1)] {
        if let Some(d) = rho_attempt(n, x, c) {
            assert!(1 < d && d < n && n % d == 0);
        }
    }
    assert_eq!(factorize(1), []);
    assert_eq!(factorize(1_000_036_000_099), [(1_000_003, 1), (1_000_033, 1)]);
    assert_eq!(factorize(u64::MAX), [(3, 1), (5, 1), (17, 1), (257, 1), (641, 1), (65537, 1), (6700417, 1)]);
}

#[test]
fn a_prime_modulus_inverts_every_residue_but_zero() {
    for p in [2u64, 3, 13, 101, 65_537] {
        let modulus = RuntimePrimeModulus(p);
        for a in 1..p.min(200) {
            let value = ModInt::new(a, modulus);
            assert_eq!(value.mul(value.inv()).into_inner(), 1);
            let other = ModInt::new(a + 5, modulus);
            assert_eq!(other.div(value).mul(value), other);
        }
    }
    for a in [1u64, 2, 3, 999_999_937, 1_000_000_006] {
        let value = ModInt::<Mod1e9p7>::from(a);
        assert_eq!(value.mul(value.inv()).into_inner(), 1);
    }
    assert_eq!(ModInt::<Mod1e9p7>::from(2u64).inv().into_inner(), 500_000_004);
}

#[test]
fn the_next_permutation_is_the_least_one_above() {
    // All arrangements of 1, 2, 2, 3, in order.
    let expected: [[i64; 4]; 12] = [
        [1, 2, 2, 3],
        [1, 2, 3, 2],
        [1, 3, 2, 2],
        [2, 1, 2, 3],
        [2, 1, 3, 2],
        [2, 2, 1, 3],
        [2, 2, 3, 1],
        [2, 3, 1, 2],
        [2, 3, 2, 1],
        [3, 1, 2, 2],
        [3, 2, 1, 2],
        [3, 2, 2, 1],
    ];
    let mut perm = expected[0];
    for (k, want) in expected.iter().enumerate() {
        assert_eq!(&perm, want);
        let more = next_permutation(&mut perm);
        assert_eq!(more, k + 1 < expected.len());
    }
    assert_eq!(perm, expected[0]);
}
