//! Binary indexed tree.
//!
//! A binary indexed tree, also known as Fenwick tree, keeps an array of
//! numbers so that one value can be changed, and the sum over a range
//! found, in logarithmic time. Indices start at 0.
//!
//! The node at index `i` holds the sum of the values at the `lsb(i + 1)`
//! indices that end with `i`, where `lsb` is the lowest bit that is set.
use crate::math::arith::fits_i64;
use vstd::prelude::*;

verus! {

/// The value of the lowest bit that is set in `x`, for `x >= 1`.
pub open spec fn lsb(x: nat) -> nat {
    ((x as u64) & !((x - 1) as u64)) as nat
}

/// The sum of the first `count` values, as the tree holds it: the node that
/// ends at `count`, and the sum of the values before what it covers.
pub open spec fn prefix(tree: Seq<i64>, count: nat) -> int
    decreases count,
    via prefix_decreases
{
    if count == 0 || count > tree.len() || count > 0x7fff_ffff_ffff_ffff {
        0
    } else {
        tree[count - 1] + prefix(tree, (count - lsb(count)) as nat)
    }
}

#[via_fn]
proof fn prefix_decreases(tree: Seq<i64>, count: nat) {
    if !(count == 0 || count > tree.len() || count > 0x7fff_ffff_ffff_ffff) {
        lemma_lsb(count);
    }
}

/// The values that a tree stands for: each is the difference of two sums.
pub open spec fn values(tree: Seq<i64>) -> Seq<int> {
    Seq::new(tree.len(), |i: int| prefix(tree, (i + 1) as nat) - prefix(tree, i as nat))
}

/// The values of a sequence of machine integers.
pub open spec fn ints(data: Seq<i64>) -> Seq<int> {
    data.map_values(|v: i64| v as int)
}

/// The sum of the values from index `from` up to, not including, `to`.
pub open spec fn range_sum(values: Seq<int>, from: int, to: int) -> int
    decreases to - from,
{
    if from >= to {
        0
    } else {
        range_sum(values, from, to - 1) + values[to - 1]
    }
}

/// Whether the node that ends at `y` covers the position `p`; both count
/// from one.
pub open spec fn covers(y: nat, p: nat) -> bool {
    y - lsb(y) < p <= y
}

/// The lowest bit of a positive number is positive and not above it.
pub proof fn lemma_lsb(x: nat)
    requires
        1 <= x <= 0x7fff_ffff_ffff_ffff,
    ensures
        1 <= lsb(x) <= x,
{
    let v = x as u64;
    let w = (x - 1) as u64;
    assert(1 <= (v & !w) <= v) by (bit_vector)
        requires
            1 <= v <= 0x7fff_ffff_ffff_ffff,
            w == v - 1,
    ;
}

/// The node after `y` on the way up covers what `y` covers, and no node
/// between them covers anything that `y` does.
pub proof fn lemma_next_node(y: nat, z: nat)
    requires
        1 <= y <= 0x3fff_ffff_ffff_ffff,
    ensures
        1 <= lsb(y) <= y,
        1 <= lsb(y + lsb(y)) <= y + lsb(y),
        y + lsb(y) - lsb(y + lsb(y)) <= y - lsb(y),
        y < z < y + lsb(y) ==> 1 <= lsb(z) <= z && z - lsb(z) >= y,
{
    lemma_lsb(y);
    let v = y as u64;
    let w = (y - 1) as u64;
    let l = v & !w;
    let n = (y + lsb(y)) as u64;
    assert(n == v + l);
    let m = (n - 1) as u64;
    lemma_lsb(n as nat);
    assert(n - (n & !m) <= v - l) by (bit_vector)
        requires
            1 <= v <= 0x3fff_ffff_ffff_ffff,
            w == v - 1,
            l == v & !w,
            n == v + l,
            m == n - 1,
    ;
    if y < z < y + lsb(y) {
        let u = z as u64;
        let t = (z - 1) as u64;
        lemma_lsb(z);
        assert(u - (u & !t) >= v) by (bit_vector)
            requires
                1 <= v <= 0x3fff_ffff_ffff_ffff,
                w == v - 1,
                l == v & !w,
                v < u,
                u < v + l,
                t == u - 1,
        ;
    }
}

/// The tree holds the sums of its values: a range of values adds up to the
/// difference of two prefix sums.
pub proof fn lemma_range_sum(tree: Seq<i64>, from: int, to: int)
    requires
        0 <= from <= to <= tree.len(),
    ensures
        range_sum(values(tree), from, to) == prefix(tree, to as nat) - prefix(tree, from as nat),
    decreases to - from,
{
    if from < to {
        lemma_range_sum(tree, from, to - 1);
    }
}

/// Adding `v` to every node that covers the position `p` adds `v` to every
/// prefix sum that reaches `p`, and to no other.
pub proof fn lemma_prefix_after_add(before: Seq<i64>, after: Seq<i64>, p: nat, v: int, count: nat)
    requires
        after.len() == before.len(),
        before.len() <= 0x3fff_ffff_ffff_ffff,
        1 <= p <= before.len(),
        forall|y: int|
            1 <= y <= before.len() ==> #[trigger] after[y - 1] == before[y - 1] + (if covers(
                y as nat,
                p,
            ) {
                v
            } else {
                0
            }),
        count <= before.len(),
    ensures
        prefix(after, count) == prefix(before, count) + (if count >= p {
            v
        } else {
            0
        }),
    decreases count,
{
    if count > 0 {
        lemma_lsb(count);
        lemma_prefix_after_add(before, after, p, v, (count - lsb(count)) as nat);
        assert(after[count - 1] == before[count - 1] + (if covers(count, p) {
            v
        } else {
            0
        }));
    }
}

/// One end of a range of indices.
#[derive(Debug, Clone, Copy, PartialEq, Eq, Structural)]
pub enum Bound {
    /// The index itself belongs to the range.
    Included(usize),
    /// The index itself does not belong to the range.
    Excluded(usize),
    /// The range has no end on this side.
    Unbounded,
}

/// Binary indexed tree over 64-bit integers.
#[derive(Debug, PartialEq, Eq)]
pub struct Bit(Vec<i64>);

impl View for Bit {
    type V = Seq<int>;

    closed spec fn view(&self) -> Seq<int> {
        values(self.0@)
    }
}

impl Bit {
    /// The nodes of the tree.
    pub closed spec fn nodes(&self) -> Seq<i64> {
        self.0@
    }

    /// The view is the values of the nodes.
    pub proof fn lemma_view(&self)
        ensures
            self@ == values(self.nodes()),
            self@.len() == self.nodes().len(),
    {
    }

    /// The number of values before the range, for a start `bound`.
    pub open spec fn first_index(bound: Bound) -> int {
        match bound {
            Bound::Excluded(i) => i + 1,
            Bound::Included(i) => i as int,
            Bound::Unbounded => 0,
        }
    }

    /// The number of values up to the end of the range, for an end `bound`.
    pub open spec fn end_index(&self, bound: Bound) -> int {
        match bound {
            Bound::Excluded(i) => i as int,
            Bound::Included(i) => i + 1,
            Bound::Unbounded => self@.len() as int,
        }
    }

    /// Whether `value` can be added at `index` on the machine: the index
    /// exists, and every node that covers it has room.
    pub open spec fn addable(&self, index: usize, value: int) -> bool {
        &&& index < self@.len()
        &&& forall|y: int|
            1 <= y <= self.nodes().len() && covers(y as nat, (index + 1) as nat) ==> fits_i64(
                #[trigger] self.nodes()[y - 1] + value,
            )
    }

    /// The number of values.
    pub fn len(&self) -> (r: usize)
        ensures
            r == self@.len(),
    {
        self.0.len()
    }

    /// The tree of as many zeros.
    pub fn zeros(len: usize) -> (r: Bit)
        ensures
            r@.len() == len,
            forall|i: int| 0 <= i < len ==> #[trigger] r@[i] == 0,
            forall|i: int| 0 <= i < len ==> #[trigger] r.nodes()[i] == 0,
    {
        let r = Bit(vec![0i64; len]);
        proof {
            assert forall|count: nat| count <= len implies #[trigger] prefix(r.0@, count) == 0 by {
                lemma_zero_prefix(r.0@, count);
            }
        }
        r
    }

    /// Whether the tree of the values can be built on the machine: every sum
    /// that a node holds while the values are added one after the other
    /// fits. These are the sums of the values from the start of what a node
    /// covers on.
    pub open spec fn buildable(data: Seq<i64>) -> bool {
        &&& data.len() <= 0x3fff_ffff_ffff_ffff
        &&& forall|y: int, to: int|
            1 <= y <= data.len() && y - lsb(y as nat) <= to <= y ==> fits_i64(
                #[trigger] range_sum(ints(data), y - lsb(y as nat), to),
            )
    }

    /// Constructs the binary indexed tree of the given values.
    pub fn from(data: Vec<i64>) -> (r: Bit)
        requires
            Bit::buildable(data@),
        ensures
            r@ == ints(data@),
    {
        let n = data.len();
        let mut tree = Bit::zeros(n);
        let ghost values_ = ints(data@);
        let mut i: usize = 0;
        proof {
            assert forall|y: int| 1 <= y <= n implies #[trigger] tree.nodes()[y - 1] == range_sum(
                values_,
                y - lsb(y as nat),
                if y <= i {
                    y
                } else if y - lsb(y as nat) >= i {
                    y - lsb(y as nat)
                } else {
                    i as int
                },
            ) by {
                lemma_lsb(y as nat);
            }
        }
        while i < n
            invariant
                0 <= i <= n,
                n == data@.len(),
                n == tree@.len(),
                n == tree.nodes().len(),
                values_ == ints(data@),
                Bit::buildable(data@),
                forall|j: int| 0 <= j < i ==> #[trigger] tree@[j] == data@[j],
                forall|j: int| i <= j < n ==> #[trigger] tree@[j] == 0,
                forall|y: int|
                    1 <= y <= n ==> #[trigger] tree.nodes()[y - 1] == range_sum(
                        values_,
                        y - lsb(y as nat),
                        if y <= i {
                            y
                        } else if y - lsb(y as nat) >= i {
                            y - lsb(y as nat)
                        } else {
                            i as int
                        },
                    ),
            decreases n - i,
        {
            let ghost before = tree.nodes();
            proof {
                tree.lemma_view();
                assert forall|y: int|
                    1 <= y <= n && covers(y as nat, (i + 1) as nat) implies fits_i64(
                    #[trigger] tree.nodes()[y - 1] + data@[i as int],
                ) by {
                    lemma_lsb(y as nat);
                    assert(tree.nodes()[y - 1] + data@[i as int] == range_sum(
                        values_,
                        y - lsb(y as nat),
                        i + 1,
                    ));
                }
            }
            tree.add(i, data[i]);
            proof {
                assert forall|y: int| 1 <= y <= n implies #[trigger] tree.nodes()[y - 1]
                    == range_sum(
                    values_,
                    y - lsb(y as nat),
                    if y <= i + 1 {
                        y
                    } else if y - lsb(y as nat) >= i + 1 {
                        y - lsb(y as nat)
                    } else {
                        i + 1
                    },
                ) by {
                    lemma_lsb(y as nat);
                    assert(tree.nodes()[y - 1] == before[y - 1] + (if covers(
                        y as nat,
                        (i + 1) as nat,
                    ) {
                        data@[i as int] as int
                    } else {
                        0
                    }));
                }
            }
            i += 1;
        }
        assert(tree@ =~= values_);
        tree
    }

    /// Computes the sum of the values up to and including `index`.
    fn sum_until(&self, index: usize) -> (r: i128)
        requires
            index < self@.len(),
            self@.len() <= 0x3fff_ffff_ffff_ffff,
        ensures
            r == prefix(self.nodes(), (index + 1) as nat),
            r == range_sum(self@, 0, index + 1),
            -0x2000_0000_0000_0000_0000_0000_0000_0000 <= r
                <= 0x2000_0000_0000_0000_0000_0000_0000_0000,
    {
        proof {
            lemma_range_sum(self.0@, 0, index + 1);
        }
        let len = self.0.len();
        let mut count: u64 = index as u64 + 1;
        let mut sum: i128 = 0;
        while count > 0
            invariant
                count <= index + 1,
                index < self.0@.len(),
                len == self.0@.len(),
                len <= 0x3fff_ffff_ffff_ffff,
                -(index + 1 - count) * 0x8000_0000_0000_0000 <= sum <= (index + 1 - count)
                    * 0x8000_0000_0000_0000,
                sum + prefix(self.0@, count as nat) == prefix(self.0@, (index + 1) as nat),
            decreases count,
        {
            proof {
                lemma_lsb(count as nat);
            }
            sum = sum + self.0[(count - 1) as usize] as i128;
            count = count - (count & !(count - 1));
        }
        sum
    }

    /// Whether the bounds are bounds of a range of the values.
    pub open spec fn bounded(&self, start: Bound, end: Bound) -> bool {
        &&& 0 <= Bit::first_index(start) <= self@.len()
        &&& 0 <= self.end_index(end) <= self@.len()
        &&& self@.len() >= 1 || !(end is Unbounded)
        &&& self@.len() <= 0x3fff_ffff_ffff_ffff
    }

    /// The sum of the values up to the end of the range, less the sum of
    /// the values before its start.
    pub open spec fn total(&self, start: Bound, end: Bound) -> int {
        range_sum(self@, 0, self.end_index(end)) - range_sum(self@, 0, Bit::first_index(start))
    }

    /// Computes the sum of the values in the range, in 128 bits, where it
    /// always fits.
    pub fn sum_wide(&self, start: Bound, end: Bound) -> (r: i128)
        requires
            self.bounded(start, end),
        ensures
            r == self.total(start, end),
            Bit::first_index(start) <= self.end_index(end) ==> r == range_sum(
                self@,
                Bit::first_index(start),
                self.end_index(end),
            ),
    {
        proof {
            lemma_range_sum(self.0@, 0, Bit::first_index(start));
            lemma_range_sum(self.0@, 0, self.end_index(end));
            if Bit::first_index(start) <= self.end_index(end) {
                lemma_range_sum(self.0@, Bit::first_index(start), self.end_index(end));
            }
        }
        // The sum up to the lower bound, which is not included.
        let lower: i128 = match start {
            Bound::Excluded(i) => self.sum_until(i),
            Bound::Included(i) => if i == 0 {
                0
            } else {
                self.sum_until(i - 1)
            },
            Bound::Unbounded => 0,
        };
        // The sum up to the upper bound, which is included.
        let upper: i128 = match end {
            Bound::Excluded(i) => if i == 0 {
                0
            } else {
                self.sum_until(i - 1)
            },
            Bound::Included(i) => self.sum_until(i),
            Bound::Unbounded => self.sum_until(self.0.len() - 1),
        };
        upper - lower
    }

    /// Computes the sum of the values in the range.
    pub fn sum(&self, start: Bound, end: Bound) -> (r: i64)
        requires
            self.bounded(start, end),
            fits_i64(self.total(start, end)),
        ensures
            r == self.total(start, end),
            Bit::first_index(start) <= self.end_index(end) ==> r == range_sum(
                self@,
                Bit::first_index(start),
                self.end_index(end),
            ),
    {
        self.sum_wide(start, end) as i64
    }

    /// Tests whether the value at `index` can be changed by `delta`.
    fn can_change(&self, index: usize, delta: i128) -> (r: bool)
        requires
            -0x8000_0000_0000_0000 <= delta <= 0x8000_0000_0000_0000,
        ensures
            r == (self.addable(index, delta as int) && self@.len() <= 0x3fff_ffff_ffff_ffff),
    {
        let n = self.0.len();
        if index >= n || n as u64 > 0x3fff_ffff_ffff_ffff {
            return false;
        }
        let ghost p = (index + 1) as nat;
        let mut y: u64 = index as u64 + 1;
        proof {
            lemma_lsb(p);
        }
        while y <= n as u64
            invariant
                n == self.0@.len(),
                n <= 0x3fff_ffff_ffff_ffff,
                index < n,
                -0x8000_0000_0000_0000 <= delta <= 0x8000_0000_0000_0000,
                p == index + 1,
                1 <= p <= y <= 0x8000_0000_0000_0000,
                y <= n ==> covers(y as nat, p),
                forall|z: int|
                    1 <= z <= n && z < y && covers(z as nat, p) ==> fits_i64(
                        #[trigger] self.0@[z - 1] + delta,
                    ),
            decreases 0x8000_0000_0000_0000 - y,
        {
            proof {
                lemma_next_node(y as nat, 0);
                assert(lsb(y as nat) == (y & !((y - 1) as u64)));
                assert forall|z: nat| y < z < y + lsb(y as nat) implies !#[trigger] covers(z, p) by {
                    lemma_next_node(y as nat, z);
                }
            }
            let node = self.0[(y - 1) as usize] as i128;
            let changed = node + delta;
            if changed < i64::MIN as i128 || changed > i64::MAX as i128 {
                assert(!fits_i64(self.nodes()[y as int - 1] + delta));
                return false;
            }
            y = y + (y & !(y - 1));
        }
        true
    }

    /// Tests whether `value` can be added at `index` on the machine: whether
    /// [`Bit::add`] can be called.
    pub fn can_add(&self, index: usize, value: i64) -> (r: bool)
        ensures
            r == (self.addable(index, value as int) && self@.len() <= 0x3fff_ffff_ffff_ffff),
    {
        self.can_change(index, value as i128)
    }

    /// Tests whether `value` can be taken away at `index` on the machine:
    /// whether [`Bit::sub`] can be called.
    pub fn can_sub(&self, index: usize, value: i64) -> (r: bool)
        ensures
            r == (self.addable(index, -(value as int)) && self@.len() <= 0x3fff_ffff_ffff_ffff),
    {
        self.can_change(index, -(value as i128))
    }

    /// Tests whether the tree of the values can be built on the machine:
    /// whether [`Bit::from`] can be called.
    pub fn can_build(data: &Vec<i64>) -> (r: bool)
        ensures
            r == Bit::buildable(data@),
    {
        let n = data.len();
        if n as u64 > 0x3fff_ffff_ffff_ffff {
            return false;
        }
        let ghost values_ = ints(data@);
        let mut y: u64 = 1;
        while y <= n as u64
            invariant
                n == data@.len(),
                n <= 0x3fff_ffff_ffff_ffff,
                values_ == ints(data@),
                1 <= y <= n + 1,
                forall|node: int, to: int|
                    1 <= node < y && node - lsb(node as nat) <= to <= node ==> fits_i64(
                        #[trigger] range_sum(values_, node - lsb(node as nat), to),
                    ),
            decreases n + 1 - y,
        {
            proof {
                lemma_lsb(y as nat);
                assert(lsb(y as nat) == (y & !((y - 1) as u64)));
            }
            let low: u64 = y - (y & !(y - 1));
            let mut sum: i128 = 0;
            let mut to: u64 = low;
            while to < y
                invariant
                    n == data@.len(),
                    n <= 0x3fff_ffff_ffff_ffff,
                    values_ == ints(data@),
                    1 <= y <= n,
                    low == y - lsb(y as nat),
                    low <= to <= y,
                    sum == range_sum(values_, low as int, to as int),
                    fits_i64(sum as int),
                    forall|t: int|
                        low <= t <= to ==> fits_i64(#[trigger] range_sum(values_, low as int, t)),
                decreases y - to,
            {
                assert(values_[to as int] == data@[to as int]);
                sum = sum + data[to as usize] as i128;
                to = to + 1;
                if sum < i64::MIN as i128 || sum > i64::MAX as i128 {
                    proof {
                        let node = y as int;
                        assert(1 <= node <= data@.len() && node - lsb(node as nat) <= to <= node);
                        assert(!fits_i64(
                            range_sum(ints(data@), node - lsb(node as nat), to as int),
                        ));
                    }
                    return false;
                }
            }
            y = y + 1;
        }
        true
    }

    /// Increases the value at the given index by the given value.
    pub fn add(&mut self, index: usize, value: i64)
        requires
            old(self).addable(index, value as int),
            old(self)@.len() <= 0x3fff_ffff_ffff_ffff,
        ensures
            final(self)@ == old(self)@.update(index as int, old(self)@[index as int] + value),
            final(self).nodes().len() == old(self).nodes().len(),
            forall|y: int|
                1 <= y <= old(self).nodes().len() ==> #[trigger] final(self).nodes()[y - 1] == old(
                    self,
                ).nodes()[y - 1] + (if covers(y as nat, (index + 1) as nat) {
                    value as int
                } else {
                    0
                }),
    {
        let n = self.0.len();
        let ghost p = (index + 1) as nat;
        let mut y: u64 = index as u64 + 1;
        proof {
            lemma_lsb(p);
        }
        while y <= n as u64
            invariant
                n == self.0@.len(),
                n == old(self).0@.len(),
                n <= 0x3fff_ffff_ffff_ffff,
                p == index + 1,
                1 <= p <= y <= 0x8000_0000_0000_0000,
                y <= n ==> covers(y as nat, p),
                old(self).addable(index, value as int),
                forall|z: int|
                    1 <= z <= n ==> #[trigger] self.0@[z - 1] == old(self).0@[z - 1] + (if z < y
                        && covers(z as nat, p) {
                        value as int
                    } else {
                        0
                    }),
            decreases 0x8000_0000_0000_0000 - y,
        {
            proof {
                lemma_next_node(y as nat, 0);
                assert(lsb(y as nat) == (y & !((y - 1) as u64)));
                assert forall|z: nat| y < z < y + lsb(y as nat) implies !#[trigger] covers(z, p) by {
                    lemma_next_node(y as nat, z);
                }
                assert(fits_i64(old(self).nodes()[y as int - 1] + value));
            }
            let slot = (y - 1) as usize;
            let node = self.0[slot];
            self.0[slot] = node + value;
            y = y + (y & !(y - 1));
        }
        proof {
            assert forall|z: int| 1 <= z <= n implies #[trigger] self.0@[z - 1] == old(self).0@[z
                - 1] + (if covers(z as nat, p) {
                value as int
            } else {
                0
            }) by {}
            assert forall|count: nat| count <= n implies #[trigger] prefix(self.0@, count)
                == prefix(old(self).0@, count) + (if count >= p {
                value as int
            } else {
                0
            }) by {
                lemma_prefix_after_add(old(self).0@, self.0@, p, value as int, count);
            }
            assert(self@ =~= old(self)@.update(index as int, old(self)@[index as int] + value));
        }
    }

    /// Decreases the value at the given index by the given value.
    pub fn sub(&mut self, index: usize, value: i64)
        requires
            old(self).addable(index, -(value as int)),
            old(self)@.len() <= 0x3fff_ffff_ffff_ffff,
        ensures
            final(self)@ == old(self)@.update(index as int, old(self)@[index as int] - value),
    {
        let n = self.0.len();
        let ghost p = (index + 1) as nat;
        let mut y: u64 = index as u64 + 1;
        proof {
            lemma_lsb(p);
        }
        while y <= n as u64
            invariant
                n == self.0@.len(),
                n == old(self).0@.len(),
                n <= 0x3fff_ffff_ffff_ffff,
                p == index + 1,
                1 <= p <= y <= 0x8000_0000_0000_0000,
                y <= n ==> covers(y as nat, p),
                old(self).addable(index, -(value as int)),
                forall|z: int|
                    1 <= z <= n ==> #[trigger] self.0@[z - 1] == old(self).0@[z - 1] + (if z < y
                        && covers(z as nat, p) {
                        -(value as int)
                    } else {
                        0
                    }),
            decreases 0x8000_0000_0000_0000 - y,
        {
            proof {
                lemma_next_node(y as nat, 0);
                assert(lsb(y as nat) == (y & !((y - 1) as u64)));
                assert forall|z: nat| y < z < y + lsb(y as nat) implies !#[trigger] covers(z, p) by {
                    lemma_next_node(y as nat, z);
                }
                assert(fits_i64(old(self).nodes()[y as int - 1] + (-(value as int))));
            }
            let slot = (y - 1) as usize;
            let node = self.0[slot];
            self.0[slot] = node - value;
            y = y + (y & !(y - 1));
        }
        proof {
            assert forall|z: int| 1 <= z <= n implies #[trigger] self.0@[z - 1] == old(self).0@[z
                - 1] + (if covers(z as nat, p) {
                -(value as int)
            } else {
                0
            }) by {}
            assert forall|count: nat| count <= n implies #[trigger] prefix(self.0@, count)
                == prefix(old(self).0@, count) + (if count >= p {
                -(value as int)
            } else {
                0
            }) by {
                lemma_prefix_after_add(old(self).0@, self.0@, p, -(value as int), count);
            }
            assert(self@ =~= old(self)@.update(index as int, old(self)@[index as int] - value));
        }
    }
}

/// A tree of zeros has zero sums.
pub proof fn lemma_zero_prefix(tree: Seq<i64>, count: nat)
    requires
        forall|i: int| 0 <= i < tree.len() ==> #[trigger] tree[i] == 0,
    ensures
        prefix(tree, count) == 0,
    decreases count,
{
    if !(count == 0 || count > tree.len() || count > 0x7fff_ffff_ffff_ffff) {
        lemma_lsb(count);
        lemma_zero_prefix(tree, (count - lsb(count)) as nat);
    }
}

} // verus!
