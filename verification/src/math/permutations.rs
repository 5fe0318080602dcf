//! The next permutation in lexicographic order.
use vstd::prelude::*;

verus! {

/// Whether the sequence never increases from `from` on.
pub open spec fn descending_from(s: Seq<i64>, from: int) -> bool {
    forall|k: int| from < k < s.len() ==> s[k - 1] >= #[trigger] s[k]
}

/// Whether `i` is the start of the longest suffix that never increases, and
/// the element before that suffix is smaller than its first one.
pub open spec fn is_pivot(s: Seq<i64>, i: int) -> bool {
    &&& 0 < i < s.len()
    &&& s[i - 1] < s[i]
    &&& descending_from(s, i)
}

/// Whether `j` is the last index whose element is above the one before the
/// suffix that starts at `i`.
pub open spec fn is_successor(s: Seq<i64>, i: int, j: int) -> bool {
    &&& i <= j < s.len()
    &&& s[i - 1] < s[j]
    &&& forall|k: int| j < k < s.len() ==> #[trigger] s[k] <= s[i - 1]
}

/// The sequence with the elements at `a` and `b` exchanged.
pub open spec fn swapped(s: Seq<i64>, a: int, b: int) -> Seq<i64> {
    s.update(a, s[b]).update(b, s[a])
}

/// The sequence with its part from `from` on reversed.
pub open spec fn with_reversed_suffix(s: Seq<i64>, from: int) -> Seq<i64> {
    s.take(from) + s.skip(from).reverse()
}

/// The permutation after `s`: the element before the pivot is exchanged with
/// its successor, and the suffix is reversed, which sorts it.
pub open spec fn successor_permutation(s: Seq<i64>, i: int, j: int) -> Seq<i64> {
    with_reversed_suffix(swapped(s, i - 1, j), i)
}

/// Whether `a` comes before `b` in lexicographic order; both have one length.
pub open spec fn lex_less(a: Seq<i64>, b: Seq<i64>) -> bool {
    exists|k: int|
        0 <= k < a.len() && k < b.len() && a[k] < b[k] && (forall|l: int|
            0 <= l < k ==> a[l] == #[trigger] b[l])
}

/// Reverses the part of the slice from `from` on.
fn reverse_from(data: &mut [i64], from: usize)
    requires
        from <= old(data)@.len(),
    ensures
        final(data)@ == with_reversed_suffix(old(data)@, from as int),
        final(data)@.to_multiset() == old(data)@.to_multiset(),
{
    let n = data.len();
    let mut low: usize = from;
    let mut high: usize = n;
    let ghost target = with_reversed_suffix(old(data)@, from as int);
    while high - low > 1
        invariant
            from <= low <= high <= n,
            n == data@.len(),
            n == old(data)@.len(),
            low - from == n - high,
            target == with_reversed_suffix(old(data)@, from as int),
            data@.to_multiset() == old(data)@.to_multiset(),
            forall|k: int| 0 <= k < low || high <= k < n ==> #[trigger] data@[k] == target[k],
            forall|k: int| low <= k < high ==> #[trigger] data@[k] == old(data)@[k],
        decreases high - low,
    {
        let ghost before = data@;
        let a = data[low];
        let b = data[high - 1];
        data[low] = b;
        data[high - 1] = a;
        proof {
            assert(data@ =~= swapped(before, low as int, high - 1));
            lemma_swap_keeps_elements(before, low as int, high - 1);
        }
        low += 1;
        high -= 1;
    }
    assert(data@ =~= target);
}

/// Exchanging two elements keeps the elements.
pub proof fn lemma_swap_keeps_elements(s: Seq<i64>, a: int, b: int)
    requires
        0 <= a < s.len(),
        0 <= b < s.len(),
    ensures
        swapped(s, a, b).to_multiset() == s.to_multiset(),
{
    vstd::seq_lib::to_multiset_update(s, a, s[b]);
    vstd::seq_lib::to_multiset_update(s.update(a, s[b]), b, s[a]);
    vstd::seq_lib::to_multiset_contains(s, s[a]);
    vstd::seq_lib::to_multiset_contains(s, s[b]);
    assert(swapped(s, a, b).to_multiset() =~= s.to_multiset());
}

/// Reversing the part from `from` on keeps the elements.
pub proof fn lemma_reversal_keeps_elements(s: Seq<i64>, from: int)
    requires
        0 <= from <= s.len(),
    ensures
        with_reversed_suffix(s, from).to_multiset() == s.to_multiset(),
{
    let head = s.take(from);
    let tail = s.skip(from);
    tail.lemma_reverse_to_multiset();
    vstd::seq_lib::lemma_multiset_commutative(head, tail.reverse());
    vstd::seq_lib::lemma_multiset_commutative(head, tail);
    assert(head + tail =~= s);
}

/// Two arrangements of the same elements that agree before `at`: what one
/// holds at `at`, the other holds at `at` or later.
pub proof fn lemma_found_later(a: Seq<i64>, b: Seq<i64>, at: int)
    requires
        a.to_multiset() == b.to_multiset(),
        0 <= at < a.len(),
        forall|l: int| 0 <= l < at ==> a[l] == #[trigger] b[l],
    ensures
        a.len() == b.len(),
        exists|l: int| at <= l < b.len() && #[trigger] b[l] == a[at],
{
    vstd::seq_lib::to_multiset_len(a);
    vstd::seq_lib::to_multiset_len(b);
    let value = a[at];
    assert(a.take(at) =~= b.take(at));
    assert(a.take(at) + a.skip(at) =~= a);
    assert(b.take(at) + b.skip(at) =~= b);
    vstd::seq_lib::lemma_multiset_commutative(a.take(at), a.skip(at));
    vstd::seq_lib::lemma_multiset_commutative(b.take(at), b.skip(at));
    assert(a.skip(at).to_multiset().count(value) == b.skip(at).to_multiset().count(value)) by {
        assert(a.to_multiset().count(value) == a.take(at).to_multiset().count(value) + a.skip(
            at,
        ).to_multiset().count(value));
        assert(b.to_multiset().count(value) == b.take(at).to_multiset().count(value) + b.skip(
            at,
        ).to_multiset().count(value));
    }
    assert(a.skip(at)[0] == value);
    assert(a.skip(at).contains(value));
    vstd::seq_lib::to_multiset_contains(a.skip(at), value);
    vstd::seq_lib::to_multiset_contains(b.skip(at), value);
    let k = choose|k: int| 0 <= k < b.skip(at).len() && b.skip(at)[k] == value;
    assert(b[at + k] == value);
}

/// In a part that never increases, an earlier element is not below a later
/// one.
pub proof fn lemma_descending(s: Seq<i64>, from: int, x: int, y: int)
    requires
        descending_from(s, from),
        0 <= from <= x <= y < s.len(),
    ensures
        s[x] >= s[y],
    decreases y - x,
{
    if x < y {
        lemma_descending(s, from, x, y - 1);
        assert(s[y - 1] >= s[y]);
    }
}

/// No arrangement of the same elements comes after one that never increases.
pub proof fn lemma_last_permutation(s: Seq<i64>, other: Seq<i64>)
    requires
        descending_from(s, 0),
        other.to_multiset() == s.to_multiset(),
    ensures
        !lex_less(s, other),
{
    if lex_less(s, other) {
        let m = choose|k: int|
            0 <= k < s.len() && k < other.len() && s[k] < other[k] && (forall|l: int|
                0 <= l < k ==> s[l] == #[trigger] other[l]);
        assert forall|l: int| 0 <= l < m implies other[l] == #[trigger] s[l] by {
            assert(s[l] == other[l]);
        }
        lemma_found_later(other, s, m);
        let l = choose|l: int| m <= l < s.len() && #[trigger] s[l] == other[m];
        lemma_descending(s, 0, m, l);
    }
}

/// The permutation after `s` is the least one above it: no arrangement of the
/// same elements that comes after `s` comes before it.
pub proof fn lemma_successor_is_least(s: Seq<i64>, i: int, j: int, other: Seq<i64>)
    requires
        is_pivot(s, i),
        is_successor(s, i, j),
        other.to_multiset() == s.to_multiset(),
        lex_less(s, other),
    ensures
        successor_permutation(s, i, j).to_multiset() == s.to_multiset(),
        !lex_less(other, successor_permutation(s, i, j)),
{
    let n = s.len() as int;
    let w = swapped(s, i - 1, j);
    let t = successor_permutation(s, i, j);
    lemma_swap_keeps_elements(s, i - 1, j);
    lemma_reversal_keeps_elements(w, i);
    assert(t.len() == n);
    assert forall|l: int| 0 <= l < i implies #[trigger] t[l] == w[l] by {}
    assert forall|l: int| i <= l < n implies #[trigger] t[l] == w[n - 1 - (l - i)] by {
        assert(t[l] == w.skip(i).reverse()[l - i]);
    }
    // After the exchange the suffix still never increases.
    assert(descending_from(w, i)) by {
        assert forall|k: int| i < k < n implies w[k - 1] >= #[trigger] w[k] by {
            assert(s[k - 1] >= s[k]);
            if k - 1 == j {
                assert(s[k] <= s[i - 1]);
            }
            if k == j {
                lemma_descending(s, i, k - 1, j);
            }
        }
    }
    let m = choose|k: int|
        0 <= k < s.len() && k < other.len() && s[k] < other[k] && (forall|l: int|
            0 <= l < k ==> s[l] == #[trigger] other[l]);
    assert forall|l: int| 0 <= l < m implies other[l] == #[trigger] s[l] by {
        assert(s[l] == other[l]);
    }
    lemma_found_later(other, s, m);
    let found = choose|l: int| m <= l < s.len() && #[trigger] s[l] == other[m];
    if lex_less(other, t) {
        let d = choose|k: int|
            0 <= k < other.len() && k < t.len() && other[k] < t[k] && (forall|l: int|
                0 <= l < k ==> other[l] == #[trigger] t[l]);
        if m >= i {
            // Within the suffix of `s` nothing later is larger.
            lemma_descending(s, i, m, found);
        } else if m < i - 1 {
            // `other` is above `s`, and so above its successor, at `m`.
            assert(t[m] == s[m]);
            if d < m {
                assert(other[d] == s[d]);
                assert(t[d] == s[d]);
            } else if d > m {
                assert(other[m] == t[m]);
            }
        } else {
            // `other` holds at the pivot's place an element of the suffix
            // that is above the pivot: the successor is the least of them.
            assert(found >= i);
            if found > j {
                assert(s[found] <= s[i - 1]);
            }
            lemma_descending(s, i, found, j);
            assert(t[m] == s[j]);
            if d < m {
                assert(other[d] == s[d]);
                assert(t[d] == s[d]);
            } else if d == m {
            } else {
                // Behind the pivot's place the successor never decreases.
                lemma_found_later(other, t, d);
                let later = choose|l: int| d <= l < t.len() && #[trigger] t[l] == other[d];
                lemma_descending(w, i, n - 1 - (later - i), n - 1 - (d - i));
            }
        }
    }
}

/// Computes the next permutation in lexicographic order, in place.
///
/// Returns `false` if the elements never increase, so that there is no next
/// permutation; the elements are then put into the first permutation, in
/// which they never decrease. Otherwise the slice holds the same elements in
/// the least order that comes after the one before.
pub fn next_permutation(data: &mut [i64]) -> (r: bool)
    ensures
        final(data)@.to_multiset() == old(data)@.to_multiset(),
        !r ==> descending_from(old(data)@, 0) && final(data)@ == old(data)@.reverse(),
        r ==> lex_less(old(data)@, final(data)@) && (exists|i: int, j: int|
            is_pivot(old(data)@, i) && is_successor(old(data)@, i, j) && final(data)@
                == #[trigger] successor_permutation(old(data)@, i, j)),
        r ==> (forall|other: Seq<i64>|
            other.to_multiset() == old(data)@.to_multiset() && lex_less(old(data)@, other)
                ==> !#[trigger] lex_less(other, final(data)@)),
        !r ==> (forall|other: Seq<i64>|
            other.to_multiset() == old(data)@.to_multiset() ==> !#[trigger] lex_less(
                old(data)@,
                other,
            )),
{
    // Lists of no or one element have no other permutation.
    let n = data.len();
    if n <= 1 {
        proof {
            assert(data@ =~= data@.reverse());
            assert forall|other: Seq<i64>|
                other.to_multiset() == data@.to_multiset() implies !#[trigger] lex_less(
                data@,
                other,
            ) by {
                lemma_last_permutation(data@, other);
            }
        }
        return false;
    }
    // From the back, look for two neighbours that increase.

    let mut i: usize = n - 1;
    while i > 0 && data[i - 1] >= data[i]
        invariant
            0 <= i < n,
            n == data@.len(),
            data@ == old(data)@,
            descending_from(data@, i as int),
        decreases i,
    {
        i -= 1;
    }
    if i == 0 {
        // The last permutation: start over with the first.
        reverse_from(data, 0);
        proof {
            assert(old(data)@.take(0) + old(data)@.skip(0).reverse() =~= old(data)@.reverse());
            assert forall|other: Seq<i64>|
                other.to_multiset() == old(data)@.to_multiset() implies !#[trigger] lex_less(
                old(data)@,
                other,
            ) by {
                lemma_last_permutation(old(data)@, other);
            }
        }
        return false;
    }
    // The suffix from `i` on never increases. The element before it is
    // exchanged with the last element of the suffix that is above it, and
    // the suffix is reversed.

    let pivot = data[i - 1];
    let mut j: usize = n - 1;
    while data[j] <= pivot
        invariant
            0 < i <= j < n,
            n == data@.len(),
            data@ == old(data)@,
            pivot == data@[i - 1],
            pivot < data@[i as int],
            forall|k: int| j < k < n ==> #[trigger] data@[k] <= pivot,
        decreases j,
    {
        j -= 1;
    }
    let other = data[j];
    data[i - 1] = other;
    data[j] = pivot;
    proof {
        assert(data@ =~= swapped(old(data)@, i - 1, j as int));
        lemma_swap_keeps_elements(old(data)@, i - 1, j as int);
    }
    reverse_from(data, i);
    proof {
        assert(is_pivot(old(data)@, i as int));
        assert(is_successor(old(data)@, i as int, j as int));
        let after = successor_permutation(old(data)@, i as int, j as int);
        assert(after[i - 1] == other);
        assert forall|l: int| 0 <= l < i - 1 implies old(data)@[l] == #[trigger] after[l] by {}
        assert(lex_less(old(data)@, after));
        assert forall|other: Seq<i64>|
            other.to_multiset() == old(data)@.to_multiset() && lex_less(
                old(data)@,
                other,
            ) implies !#[trigger] lex_less(other, after) by {
            lemma_successor_is_least(old(data)@, i as int, j as int, other);
        }
    }
    true
}

} // verus!
