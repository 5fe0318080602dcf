//! Subsets of up to 64 items, as bit masks.
//!
//! The lowest bit of a mask stands for item 0, the next for item 1, and so
//! on. The subsets of `n` items are the masks from 0 to `2^n - 1`.
use vstd::arithmetic::div_mod::lemma_fundamental_div_mod_converse;
use vstd::arithmetic::power2::{lemma2_to64, lemma_pow2_adds, lemma_pow2_pos, pow2};
use vstd::bits::lemma_u64_shr_is_div;
use vstd::prelude::*;
use vstd::std_specs::bits::axiom_u64_trailing_zeros;

verus! {

/// Whether the mask has the bit of item `i`.
pub open spec fn has_bit(mask: u64, i: nat) -> bool {
    i < 64 && (mask >> (i as u64)) & 1 == 1
}

/// The number of items below `upto` whose bit the mask has.
pub open spec fn count_bits(mask: u64, upto: nat) -> nat
    decreases upto,
{
    if upto == 0 {
        0
    } else {
        count_bits(mask, (upto - 1) as nat) + if has_bit(mask, (upto - 1) as nat) {
            1nat
        } else {
            0nat
        }
    }
}

/// The items among the first `upto` whose bit the mask has, in order.
pub open spec fn selected<T>(mask: u64, items: Seq<T>, upto: nat) -> Seq<T>
    decreases upto,
{
    if upto == 0 {
        Seq::empty()
    } else if has_bit(mask, (upto - 1) as nat) {
        selected(mask, items, (upto - 1) as nat).push(items[upto - 1])
    } else {
        selected(mask, items, (upto - 1) as nat)
    }
}

/// A subset of some items.
#[derive(Debug, Copy, Clone, PartialEq, Eq, Structural, Hash, PartialOrd, Ord)]
pub struct Subset {
    /// Bit mask of the subset: the lowest bit stands for item 0, the next
    /// for item 1, and so on.
    pub mask: u64,
}

/// The subsets of a number of items, in the order of their masks.
#[derive(Debug, Clone, Copy)]
pub struct Subsets {
    next: u64,
    last: u64,
    exhausted: bool,
}

/// The items of a slice that belong to a subset, in order.
pub struct SubsetIter<'a, T> {
    mask: u64,
    items: &'a [T],
    position: usize,
}

/// A mask is zero exactly if it has no bit.
pub proof fn lemma_zero_mask(mask: u64)
    ensures
        mask == 0 <==> forall|i: nat| !has_bit(mask, i),
{
    if mask == 0 {
        assert forall|i: nat| !has_bit(mask, i) by {
            if i < 64 {
                let k = i as u64;
                assert((0u64 >> k) & 1 == 0) by (bit_vector);
            }
        }
    } else {
        axiom_u64_trailing_zeros(mask);
        let i = mask.trailing_zeros() as nat;
        assert(has_bit(mask, i));
    }
}

/// The greatest mask of `n` items is `2^n - 1`.
pub proof fn lemma_full_mask(n: nat)
    requires
        1 <= n <= 64,
    ensures
        (u64::MAX >> ((64 - n) as u64)) == pow2(n) - 1,
{
    let shift = (64 - n) as u64;
    lemma_u64_shr_is_div(u64::MAX, shift);
    lemma_pow2_adds(n, shift as nat);
    lemma_pow2_pos(n);
    lemma_pow2_pos(shift as nat);
    lemma2_to64();
    let p = pow2(shift as nat) as int;
    let q = pow2(n) as int;
    assert(u64::MAX as int == (q - 1) * p + (p - 1)) by (nonlinear_arith)
        requires
            q * p == 0x1_0000_0000_0000_0000,
            u64::MAX == 0xffff_ffff_ffff_ffff,
    ;
    lemma_fundamental_div_mod_converse(u64::MAX as int, p, q - 1, p - 1);
}

/// Constructs the subsets of `n` items: the masks from 0 to `2^n - 1`.
pub fn subsets(n: usize) -> (r: Subsets)
    requires
        1 <= n <= 64,
    ensures
        r.upcoming() == Some(0u64),
        r.last_mask() == pow2(n as nat) - 1,
{
    proof {
        lemma_full_mask(n as nat);
    }
    Subsets { next: 0, last: u64::MAX >> ((64 - n) as u64), exhausted: false }
}

impl Subsets {
    /// The mask of the subset that comes next, if any is left.
    pub closed spec fn upcoming(self) -> Option<u64> {
        if self.exhausted || self.next > self.last {
            None
        } else {
            Some(self.next)
        }
    }

    /// The mask of the last subset.
    pub closed spec fn last_mask(self) -> u64 {
        self.last
    }

    /// The next subset, if any is left. The one after it has the next mask,
    /// up to the last one.
    pub fn next(&mut self) -> (r: Option<Subset>)
        ensures
            r == (match old(self).upcoming() {
                Some(mask) => Some(Subset { mask }),
                None => None,
            }),
            final(self).last_mask() == old(self).last_mask(),
            final(self).upcoming() == (match old(self).upcoming() {
                Some(mask) if mask < old(self).last_mask() => Some((mask + 1) as u64),
                _ => None,
            }),
    {
        if self.exhausted || self.next > self.last {
            return None;
        }
        let mask = self.next;
        if mask < self.last {
            self.next = mask + 1;
        } else {
            self.exhausted = true;
        }
        Some(Subset { mask })
    }

    /// How many subsets are left, if the number fits.
    pub fn size_hint(&self) -> (r: Option<usize>)
        ensures
            self.upcoming().is_none() ==> r == Some(0usize),
            self.upcoming() matches Some(mask) ==> r == (if self.last_mask() - mask + 1
                <= usize::MAX {
                Some((self.last_mask() - mask + 1) as usize)
            } else {
                None
            }),
    {
        if self.exhausted || self.next > self.last {
            Some(0)
        } else {
            let left: u64 = self.last - self.next;
            if left < usize::MAX as u64 {
                Some(left as usize + 1)
            } else {
                None
            }
        }
    }
}

impl Subset {
    /// Selects the items of the slice that belong to the subset.
    pub fn select<'a, T>(self, items: &'a [T]) -> (r: SubsetIter<'a, T>)
        ensures
            r.wf(),
            r.remaining() == selected(self.mask, items@, items@.len()),
    {
        let r = SubsetIter { mask: self.mask, items, position: 0 };
        assert(r.remaining() =~= selected(self.mask, items@, items@.len()));
        r
    }

    /// Checks whether the set is empty.
    pub fn is_empty(self) -> (r: bool)
        ensures
            r <==> forall|i: nat| !has_bit(self.mask, i),
    {
        proof {
            lemma_zero_mask(self.mask);
        }
        self.mask == 0
    }

    /// Checks whether the set contains the item `i`.
    pub fn contains(self, i: usize) -> (r: bool)
        requires
            i < 64,
        ensures
            r == has_bit(self.mask, i as nat),
    {
        let mask = self.mask;
        let shift = i as u64;
        assert(((mask >> shift) & 1 != 0) == ((mask >> shift) & 1 == 1)) by (bit_vector);
        (self.mask >> i) & 1 != 0
    }

    /// Returns the size of the subset.
    pub fn len(self) -> (r: usize)
        ensures
            r == count_bits(self.mask, 64),
    {
        let mut count: usize = 0;
        let mut i: usize = 0;
        while i < 64
            invariant
                0 <= i <= 64,
                count == count_bits(self.mask, i as nat),
                count <= i,
            decreases 64 - i,
        {
            if self.contains(i) {
                count += 1;
            }
            i += 1;
        }
        count
    }
}

impl<'a, T> SubsetIter<'a, T> {
    /// Validity: the position is within the items.
    pub closed spec fn wf(self) -> bool {
        self.position <= self.items@.len()
    }

    /// The items that are still to come, in order.
    pub closed spec fn remaining(self) -> Seq<T> {
        selected(self.mask, self.items@, self.items@.len()).skip(
            selected(self.mask, self.items@, self.position as nat).len() as int,
        )
    }

    /// The next item of the subset, if any is left.
    pub fn next(&mut self) -> (r: Option<&'a T>)
        requires
            old(self).wf(),
        ensures
            final(self).wf(),
            old(self).remaining().len() == 0 ==> r.is_none() && final(self).remaining().len() == 0,
            old(self).remaining().len() > 0 ==> r == Some(&old(self).remaining()[0])
                && final(self).remaining() == old(self).remaining().drop_first(),
    {
        let n = self.items.len();
        proof {
            lemma_selected_prefix(self.mask, self.items@, self.position as nat, n as nat);
        }
        while self.position < n
            invariant
                n == self.items@.len(),
                self.position <= n,
                self.mask == old(self).mask,
                self.items == old(self).items,
                old(self).position <= self.position,
                selected(self.mask, self.items@, self.position as nat) == selected(
                    self.mask,
                    self.items@,
                    old(self).position as nat,
                ),
            decreases n - self.position,
        {
            let i = self.position;
            self.position = i + 1;
            if i < 64 && (Subset { mask: self.mask }).contains(i) {
                proof {
                    lemma_selected_prefix(self.mask, self.items@, (i + 1) as nat, n as nat);
                    lemma_selected_prefix(self.mask, self.items@, i as nat, n as nat);
                    let all = selected(self.mask, self.items@, n as nat);
                    let before = selected(self.mask, self.items@, i as nat);
                    let after = selected(self.mask, self.items@, (i + 1) as nat);
                    assert(after == before.push(self.items@[i as int]));
                    assert(all.take(after.len() as int)[before.len() as int] == after[before.len() as int]);
                    assert(all.skip(before.len() as int)[0] == self.items@[i as int]);
                    assert(all.skip(before.len() as int).drop_first() =~= all.skip(
                        before.len() as int + 1,
                    ));
                }
                return Some(&self.items[i]);
            }
        }
        proof {
            let all = selected(self.mask, self.items@, n as nat);
            assert(all.skip(all.len() as int).len() == 0);
        }
        None
    }
}

/// What a mask selects among the first items is the start of what it selects
/// among more of them.
pub proof fn lemma_selected_prefix<T>(mask: u64, items: Seq<T>, fewer: nat, more: nat)
    requires
        fewer <= more,
    ensures
        selected(mask, items, fewer).len() <= selected(mask, items, more).len(),
        selected(mask, items, more).take(selected(mask, items, fewer).len() as int) == selected(
            mask,
            items,
            fewer,
        ),
    decreases more - fewer,
{
    if fewer < more {
        lemma_selected_prefix(mask, items, fewer, (more - 1) as nat);
        let shorter = selected(mask, items, (more - 1) as nat);
        let longer = selected(mask, items, more);
        let prefix = selected(mask, items, fewer);
        assert(longer.take(prefix.len() as int) =~= shorter.take(prefix.len() as int));
    } else {
        let all = selected(mask, items, fewer);
        assert(all.take(all.len() as int) =~= all);
    }
}

} // verus!
