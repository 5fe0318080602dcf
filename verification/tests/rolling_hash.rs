use comlib::math::{Mod1e9p7, ModInt};
use comlib::range::Bound::{Excluded, Included, Unbounded};
use comlib::string::RollingHash;

#[test]
fn test_rolling_hash() {
    let mut hash: RollingHash = RollingHash::new("abcxyzabc");
    assert_eq!(
        hash.get_hash(Included(0), Included(2)),
        hash.get_hash(Included(6), Unbounded)
    );
    assert_ne!(
        hash.get_hash(Included(3), Included(5)),
        hash.get_hash(Included(6), Unbounded)
    );
    // Change the string to "abdxyzabc"
    hash.set_char(2, 'd');
    assert_ne!(
        hash.get_hash(Included(0), Included(2)),
        hash.get_hash(Included(6), Unbounded)
    );
    assert_ne!(
        hash.get_hash(Included(3), Included(5)),
        hash.get_hash(Included(6), Unbounded)
    );
    assert_eq!(
        hash.get_hash(Included(0), Included(1)),
        hash.get_hash(Included(6), Excluded(8))
    );
    // Change the string to "abdxyzabd"
    hash.set_char(8, 'd');
    assert_eq!(
        hash.get_hash(Included(0), Included(2)),
        hash.get_hash(Included(6), Unbounded)
    );
    assert_ne!(
        hash.get_hash(Included(3), Included(5)),
        hash.get_hash(Included(6), Unbounded)
    );
    assert_eq!(
        hash.get_hash(Included(0), Included(1)),
        hash.get_hash(Included(6), Excluded(8))
    );
}

#[test]
fn rolling_hash_with_a_given_x() {
    let x = ModInt::new(31, Mod1e9p7);
    let hash = RollingHash::with_x("ab", x);
    assert_eq!(hash.x().into_inner(), 31);
    // 'a' = 97, 'b' = 98: the terms are 97 and 98 * 31.
    assert_eq!(hash.get_hash(Included(0), Included(0)).into_inner(), 97);
    assert_eq!(hash.get_hash(Included(1), Included(1)).into_inner(), 98);
    assert_eq!(hash.get_hash(Unbounded, Unbounded).into_inner(), 97 + 98 * 31);
}
