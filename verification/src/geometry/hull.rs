//! The convex hull of a set of points, by Andrew's monotone chain.
use crate::geometry::polygon::Polygon;
use crate::geometry::primitive::{
    orientation, orientation_defined, ratio_below, Orientation, Point,
};
use crate::math::numtraits::NonZeroI64;
use core::cmp::Ordering;
use vstd::prelude::*;
use vstd::seq_lib::{to_multiset_contains, to_multiset_len};

verus! {

/// Whether the points are in lexicographic order of their positions: by `x`,
/// then by `y`.
pub open spec fn sorted(points: Seq<Point>) -> bool {
    forall|i: int, j: int| 0 <= i < j < points.len() ==> !points[j].before(points[i])
}

/// Whether all the points denote one position.
pub open spec fn all_coincide(points: Seq<Point>) -> bool {
    forall|i: int, j: int|
        0 <= i < points.len() && 0 <= j < points.len() ==> points[i].same_position(points[j])
}

/// Whether the turn of every three of the points can be computed.
pub open spec fn orientable(points: Seq<Point>) -> bool {
    forall|a: Point, b: Point, c: Point|
        points.contains(a) && points.contains(b) && points.contains(c)
            ==> #[trigger] orientation_defined(a, b, c)
}

/// The index of the first point from `from` on that does not coincide with
/// the first point, or the number of points if there is none.
pub open spec fn first_distinct(points: Seq<Point>, from: int) -> int
    decreases points.len() - from,
{
    if from < 0 || from >= points.len() {
        points.len() as int
    } else if !points[from].same_position(points[0]) {
        from
    } else {
        first_distinct(points, from + 1)
    }
}

/// The chain with `p` appended, after the points at its end that would make
/// a `bad` turn with `p` have been taken away. The first point stays.
pub open spec fn chain_push(chain: Seq<Point>, p: Point, bad: Orientation) -> Seq<Point>
    decreases chain.len(),
{
    if chain.len() >= 2 && orientation(chain[chain.len() - 2], chain[chain.len() - 1], p) == bad {
        chain_push(chain.drop_last(), p, bad)
    } else {
        chain.push(p)
    }
}

/// The chain that starts with the first point and the point at `seed`, after
/// the points from `seed + 1` up to `upto` have been pushed.
pub open spec fn chain(points: Seq<Point>, seed: int, upto: int, bad: Orientation) -> Seq<Point>
    decreases upto - seed,
{
    if upto <= seed + 1 {
        seq![points[0], points[seed]]
    } else {
        chain_push(chain(points, seed, upto - 1, bad), points[upto - 1], bad)
    }
}

/// The hull of sorted points: the lower chain, which never turns clockwise,
/// from the first point to the last, followed by the inner points of the
/// upper chain, which never turns counter-clockwise, from the last to the
/// first.
pub open spec fn monotone_chain(points: Seq<Point>) -> Seq<Point> {
    let seed = first_distinct(points, 1);
    let lower = chain(points, seed, points.len() as int, Orientation::Clockwise);
    let upper = chain(points, seed, points.len() as int, Orientation::Counterclockwise);
    lower + upper.subrange(1, upper.len() - 1).reverse()
}

/// Coinciding is transitive over a point with a divisor.
pub proof fn lemma_same_position_transitive(a: Point, b: Point, c: Point)
    requires
        b.wf(),
        a.same_position(b),
        b.same_position(c),
    ensures
        a.same_position(c),
        b.same_position(a),
{
    crate::math::numtraits::NonZeroI64::lemma_view_injective(b.z, b.z);
    assert(c.z@ * a.x == a.z@ * c.x) by (nonlinear_arith)
        requires
            b.z@ * a.x == a.z@ * b.x,
            c.z@ * b.x == b.z@ * c.x,
            b.z@ != 0,
    ;
    assert(c.z@ * a.y == a.z@ * c.y) by (nonlinear_arith)
        requires
            b.z@ * a.y == a.z@ * b.y,
            c.z@ * b.y == b.z@ * c.y,
            b.z@ != 0,
    ;
}

/// If `p * da == dc * q` for non-zero `da` and `dc`, the signs of `p` and `q`
/// agree or differ as those of `da` and `dc` do.
proof fn lemma_sign_transfer(p: int, q: int, da: int, dc: int)
    requires
        p * da == dc * q,
        da != 0,
        dc != 0,
    ensures
        p == 0 <==> q == 0,
        (da > 0) == (dc > 0) ==> (p > 0) == (q > 0),
        (da > 0) != (dc > 0) ==> (p > 0) == (q < 0),
{
    assert((p == 0 <==> q == 0) && ((da > 0) == (dc > 0) ==> (p > 0) == (q > 0)) && ((da > 0) != (
    dc > 0) ==> (p > 0) == (q < 0))) by (nonlinear_arith)
        requires
            p * da == dc * q,
            da != 0,
            dc != 0,
    ;
}

/// The order of two ratios does not change when one of them is replaced by
/// an equal ratio.
pub proof fn lemma_ratio_below_congruent(nc: int, dc: int, na: int, da: int, nb: int, db: int)
    requires
        dc != 0,
        da != 0,
        db != 0,
        nc * da == na * dc,
    ensures
        ratio_below(nc, dc, nb, db) == ratio_below(na, da, nb, db),
        ratio_below(nb, db, nc, dc) == ratio_below(nb, db, na, da),
{
    let p = nc * db - nb * dc;
    let q = na * db - nb * da;
    assert(p * da == dc * q) by (nonlinear_arith)
        requires
            nc * da == na * dc,
            p == nc * db - nb * dc,
            q == na * db - nb * da,
    ;
    lemma_sign_transfer(p, q, da, dc);
    assert((-p) * da == dc * (-q)) by (nonlinear_arith)
        requires
            p * da == dc * q,
    ;
    lemma_sign_transfer(-p, -q, da, dc);
    assert(nb * dc - nc * db == -p && nb * da - na * db == -q);
}

/// The order of ratios is transitive, and no ratio is below itself.
pub proof fn lemma_ratio_below_transitive(n1: int, d1: int, n2: int, d2: int, n3: int, d3: int)
    requires
        d1 != 0,
        d2 != 0,
        d3 != 0,
        ratio_below(n1, d1, n2, d2),
        ratio_below(n2, d2, n3, d3),
    ensures
        ratio_below(n1, d1, n3, d3),
        !ratio_below(n1, d1, n1, d1),
{
    // The same ratios with positive denominators.
    let (a1, b1) = if d1 < 0 {
        (-n1, -d1)
    } else {
        (n1, d1)
    };
    let (a2, b2) = if d2 < 0 {
        (-n2, -d2)
    } else {
        (n2, d2)
    };
    let (a3, b3) = if d3 < 0 {
        (-n3, -d3)
    } else {
        (n3, d3)
    };
    assert(a1 * b2 < a2 * b1) by (nonlinear_arith)
        requires
            ratio_below(n1, d1, n2, d2),
            (a1 == n1 && b1 == d1 && d1 > 0) || (a1 == -n1 && b1 == -d1 && d1 < 0),
            (a2 == n2 && b2 == d2 && d2 > 0) || (a2 == -n2 && b2 == -d2 && d2 < 0),
    ;
    assert(a2 * b3 < a3 * b2) by (nonlinear_arith)
        requires
            ratio_below(n2, d2, n3, d3),
            (a2 == n2 && b2 == d2 && d2 > 0) || (a2 == -n2 && b2 == -d2 && d2 < 0),
            (a3 == n3 && b3 == d3 && d3 > 0) || (a3 == -n3 && b3 == -d3 && d3 < 0),
    ;
    assert((a1 * b2) * b3 < (a2 * b1) * b3) by (nonlinear_arith)
        requires
            a1 * b2 < a2 * b1,
            b3 > 0,
    ;
    assert((a2 * b3) * b1 < (a3 * b2) * b1) by (nonlinear_arith)
        requires
            a2 * b3 < a3 * b2,
            b1 > 0,
    ;
    assert((a2 * b1) * b3 == (a2 * b3) * b1 && (a1 * b2) * b3 == (a1 * b3) * b2 && (a3 * b2) * b1
        == (a3 * b1) * b2) by (nonlinear_arith);
    assert(a1 * b3 < a3 * b1) by (nonlinear_arith)
        requires
            (a1 * b3) * b2 < (a3 * b1) * b2,
            b2 > 0,
    ;
    assert(ratio_below(n1, d1, n3, d3)) by (nonlinear_arith)
        requires
            a1 * b3 < a3 * b1,
            (a1 == n1 && b1 == d1 && d1 > 0) || (a1 == -n1 && b1 == -d1 && d1 < 0),
            (a3 == n3 && b3 == d3 && d3 > 0) || (a3 == -n3 && b3 == -d3 && d3 < 0),
    ;
}

/// Two ratios of which neither is below the other are equal.
pub proof fn lemma_ratio_equal(n1: int, d1: int, n2: int, d2: int)
    requires
        d1 != 0,
        d2 != 0,
    ensures
        !ratio_below(n1, d1, n2, d2) && !ratio_below(n2, d2, n1, d1) <==> n1 * d2 == n2 * d1,
{
    assert(n2 * d1 == d1 * n2 && n1 * d2 == d2 * n1) by (nonlinear_arith);
}

/// Coming before is a strict order of the positions: no point comes before
/// itself, and a point that comes before a second one comes before every
/// point that the second one comes before.
pub proof fn lemma_before_transitive(a: Point, b: Point, c: Point)
    requires
        a.wf(),
        b.wf(),
        c.wf(),
        a.before(b),
        b.before(c),
    ensures
        a.before(c),
        !a.before(a),
{
    NonZeroI64::lemma_view_injective(a.z, a.z);
    NonZeroI64::lemma_view_injective(b.z, b.z);
    NonZeroI64::lemma_view_injective(c.z, c.z);
    let (ax, ay, az) = (a.x as int, a.y as int, a.z@);
    let (bx, by, bz) = (b.x as int, b.y as int, b.z@);
    let (cx, cy, cz) = (c.x as int, c.y as int, c.z@);
    lemma_ratio_equal(ax, az, bx, bz);
    lemma_ratio_equal(bx, bz, cx, cz);
    lemma_ratio_equal(ax, az, cx, cz);
    lemma_ratio_equal(ax, az, ax, az);
    lemma_ratio_equal(ay, az, ay, az);
    if ratio_below(ax, az, bx, bz) {
        if ratio_below(bx, bz, cx, cz) {
            lemma_ratio_below_transitive(ax, az, bx, bz, cx, cz);
        } else {
            // `b` and `c` have one `x`.
            assert(cx * bz == bx * cz) by (nonlinear_arith)
                requires
                    bx * cz == cx * bz,
            ;
            lemma_ratio_below_congruent(cx, cz, bx, bz, ax, az);
        }
    } else {
        // `a` and `b` have one `x`.
        lemma_ratio_below_congruent(ax, az, bx, bz, cx, cz);
        if !ratio_below(bx, bz, cx, cz) {
            lemma_ratio_below_transitive(ay, az, by, bz, cy, cz);
        }
    }
}

/// Of two points with a divisor, one comes before the other unless they
/// coincide; and a point can be replaced by one that coincides with it.
pub proof fn lemma_order_of_points(a: Point, b: Point, c: Point)
    requires
        a.wf(),
        b.wf(),
        c.wf(),
    ensures
        !a.before(b) && !b.before(a) ==> a.same_position(b),
        a.same_position(b) ==> !a.before(b) && !b.before(a),
        c.same_position(a) ==> c.before(b) == a.before(b) && b.before(c) == b.before(a),
{
    NonZeroI64::lemma_view_injective(a.z, a.z);
    NonZeroI64::lemma_view_injective(b.z, b.z);
    NonZeroI64::lemma_view_injective(c.z, c.z);
    let (ax, ay, az) = (a.x as int, a.y as int, a.z@);
    let (bx, by, bz) = (b.x as int, b.y as int, b.z@);
    let (cx, cy, cz) = (c.x as int, c.y as int, c.z@);
    assert(bz * ax == ax * bz && az * bx == bx * az && bz * ay == ay * bz && az * by == by * az)
        by (nonlinear_arith);
    if c.same_position(a) {
        assert(cx * az == ax * cz && cy * az == ay * cz) by (nonlinear_arith)
            requires
                az * cx == cz * ax,
                az * cy == cz * ay,
        ;
        lemma_ratio_below_congruent(cx, cz, ax, az, bx, bz);
        lemma_ratio_below_congruent(cy, cz, ay, az, by, bz);
    }
}

/// The order of two points for sorting: by the `x` of the positions, then by
/// their `y`.
pub fn lex_order(a: &Point, b: &Point) -> (r: Ordering)
    ensures
        (r == Ordering::Less) == a.before(*b),
        (r == Ordering::Greater) == b.before(*a),
{
    if a.is_before_along(*b, true) {
        Ordering::Less
    } else if b.is_before_along(*a, true) {
        Ordering::Greater
    } else if a.is_before_along(*b, false) {
        Ordering::Less
    } else if b.is_before_along(*a, false) {
        Ordering::Greater
    } else {
        Ordering::Equal
    }
}

/// Sorts the points with `sort_by` of the standard library and [`lex_order`].
///
/// Trusted: that the call leaves the same points, each as often as before,
/// in an order in which no point comes before an earlier one. The order
/// that is handed to the call is a strict one, of which two points are
/// equal only if they coincide ([`lemma_before_transitive`],
/// [`lemma_order_of_points`]).
#[verifier::external_body]
fn sort_points(points: &mut Vec<Point>)
    ensures
        final(points)@.to_multiset() == old(points)@.to_multiset(),
        sorted(final(points)@),
{
    points.sort_by(|a, b| lex_order(a, b));
}

/// Whether `hull` is the monotone chain of `points` taken in the sorted order
/// `order`.
pub open spec fn is_hull_of(hull: Seq<Point>, points: Seq<Point>, order: Seq<Point>) -> bool {
    &&& sorted(order)
    &&& order.to_multiset() == points.to_multiset()
    &&& hull == monotone_chain(order)
}

/// Tests whether the turn of every three of the points can be computed:
/// whether [`convex_hull`] can be called. Every three points are tested.
pub fn can_orient_all(points: &Vec<Point>) -> (r: bool)
    ensures
        r == orientable(points@),
{
    let n = points.len();
    let mut i: usize = 0;
    while i < n
        invariant
            0 <= i <= n,
            n == points@.len(),
            forall|a: int, b: int, c: int|
                0 <= a < i && 0 <= b < n && 0 <= c < n ==> #[trigger] orientation_defined(
                    points@[a],
                    points@[b],
                    points@[c],
                ),
        decreases n - i,
    {
        let mut j: usize = 0;
        while j < n
            invariant
                0 <= i < n,
                0 <= j <= n,
                n == points@.len(),
                forall|a: int, b: int, c: int|
                    0 <= a < i && 0 <= b < n && 0 <= c < n ==> #[trigger] orientation_defined(
                        points@[a],
                        points@[b],
                        points@[c],
                    ),
                forall|b: int, c: int|
                    0 <= b < j && 0 <= c < n ==> #[trigger] orientation_defined(
                        points@[i as int],
                        points@[b],
                        points@[c],
                    ),
            decreases n - j,
        {
            let mut k: usize = 0;
            while k < n
                invariant
                    0 <= i < n,
                    0 <= j < n,
                    0 <= k <= n,
                    n == points@.len(),
                    forall|c: int|
                        0 <= c < k ==> #[trigger] orientation_defined(
                            points@[i as int],
                            points@[j as int],
                            points@[c],
                        ),
                decreases n - k,
            {
                if !Point::can_orient([points[i], points[j], points[k]]) {
                    assert(points@.contains(points@[i as int]) && points@.contains(
                        points@[j as int],
                    ) && points@.contains(points@[k as int]));
                    return false;
                }
                k += 1;
            }
            j += 1;
        }
        i += 1;
    }
    proof {
        assert forall|a: Point, b: Point, c: Point|
            points@.contains(a) && points@.contains(b) && points@.contains(
                c,
            ) implies #[trigger] orientation_defined(a, b, c) by {
            let ia = choose|k: int| 0 <= k < points@.len() && points@[k] == a;
            let ib = choose|k: int| 0 <= k < points@.len() && points@[k] == b;
            let ic = choose|k: int| 0 <= k < points@.len() && points@[k] == c;
            assert(orientation_defined(points@[ia], points@[ib], points@[ic]));
        }
    }
    true
}

/// Appends `p` to the chain, after taking away the points at its end that
/// would make a `bad` turn with `p`.
fn push_to_chain(chain: &mut Vec<Point>, p: Point, bad: Orientation, Ghost(universe): Ghost<Seq<Point>>)
    requires
        old(chain)@.len() >= 1,
        orientable(universe),
        universe.contains(p),
        forall|i: int| 0 <= i < old(chain)@.len() ==> universe.contains(#[trigger] old(chain)@[i]),
    ensures
        final(chain)@ == chain_push(old(chain)@, p, bad),
        final(chain)@.len() >= 2,
        final(chain)@[0] == old(chain)@[0],
        final(chain)@.last() == p,
        forall|i: int|
            0 <= i < final(chain)@.len() ==> universe.contains(#[trigger] final(chain)@[i]),
{
    loop
        invariant
            1 <= chain@.len() <= old(chain)@.len(),
            chain@ == old(chain)@.take(chain@.len() as int),
            chain_push(chain@, p, bad) == chain_push(old(chain)@, p, bad),
            orientable(universe),
            universe.contains(p),
            forall|i: int|
                0 <= i < old(chain)@.len() ==> universe.contains(#[trigger] old(chain)@[i]),
        ensures
            chain_push(chain@, p, bad) == chain@.push(p),
        decreases chain@.len(),
    {
        let len = chain.len();
        if len < 2 {
            break ;
        }
        assert(universe.contains(chain@[len - 2]) && universe.contains(chain@[len - 1]));
        let turn = Point::ordering([chain[len - 2], chain[len - 1], p]);
        if turn != bad {
            break ;
        }
        chain.pop();
        assert(chain@ =~= old(chain)@.take(chain@.len() as int));
    }
    chain.push(p);
}

/// Computes the convex hull of the given points.
///
/// Returns `None` if all the points coincide, as they do when there are
/// fewer than two. Otherwise returns the hull in counter-clockwise order,
/// starting at the least point in the lexicographic order; the hull holds
/// every given point that lies on its boundary, the points on its edges
/// included. If no two of the points coincide and they do not all lie on
/// one line, the area of the hull is positive: see
/// [`lemma_hull_area_positive`].
///
/// [`lemma_hull_area_positive`]: crate::geometry::hull_area::lemma_hull_area_positive
pub fn convex_hull(points: Vec<Point>) -> (r: Option<Polygon>)
    requires
        orientable(points@),
    ensures
        r.is_none() <==> all_coincide(points@),
        r matches Some(hull) ==> (exists|order: Seq<Point>|
            #[trigger] is_hull_of(hull@, points@, order)),
{
    let ghost given = points@;
    let mut points = points;
    if points.len() <= 1 {
        return None;
    }
    sort_points(&mut points);
    proof {
        to_multiset_len(points@);
        to_multiset_len(given);
        assert forall|a: Point| points@.contains(a) == given.contains(a) by {
            to_multiset_contains(points@, a);
            to_multiset_contains(given, a);
        }
    }
    let n = points.len();
    let first = points[0];
    proof {
        use_type_invariant(&first.z);
    }
    let mut i: usize = 1;
    while i < n && points[i].coincides(first)
        invariant
            1 <= i <= n,
            n == points@.len(),
            first == points@[0],
            forall|k: int| 0 <= k < i ==> (#[trigger] points@[k]).same_position(first),
            first_distinct(points@, 1) == first_distinct(points@, i as int),
        decreases n - i,
    {
        i += 1;
    }
    if i == n {
        proof {
            assert forall|a: int, b: int| 0 <= a < given.len() && 0 <= b < given.len() implies given[a].same_position(
                given[b],
            ) by {
                assert(given.contains(given[a]));
                assert(given.contains(given[b]));
                assert(points@.contains(given[a]) && points@.contains(given[b]));
                let ka = choose|k: int| 0 <= k < points@.len() && points@[k] == given[a];
                let kb = choose|k: int| 0 <= k < points@.len() && points@[k] == given[b];
                lemma_same_position_transitive(points@[kb], first, points@[kb]);
                lemma_same_position_transitive(points@[ka], first, points@[kb]);
            }
        }
        return None;
    }
    proof {
        assert(!all_coincide(given)) by {
            assert(points@.contains(points@[i as int]) && points@.contains(points@[0]));
            assert(given.contains(points@[i as int]) && given.contains(points@[0]));
            let ka = choose|k: int| 0 <= k < given.len() && given[k] == points@[i as int];
            let kb = choose|k: int| 0 <= k < given.len() && given[k] == points@[0];
            assert(!given[ka].same_position(given[kb]));
        }
    }
    let seed = i;
    let mut lower: Vec<Point> = Vec::new();
    lower.push(first);
    lower.push(points[seed]);
    let mut upper: Vec<Point> = lower.clone();
    i += 1;
    assert(lower@ =~= seq![points@[0], points@[seed as int]]);
    assert(upper@ =~= lower@);
    while i < n
        invariant
            seed + 1 <= i <= n,
            n == points@.len(),
            orientable(points@),
            lower@ == chain(points@, seed as int, i as int, Orientation::Clockwise),
            upper@ == chain(points@, seed as int, i as int, Orientation::Counterclockwise),
            lower@.len() >= 2,
            upper@.len() >= 2,
            forall|k: int| 0 <= k < lower@.len() ==> points@.contains(#[trigger] lower@[k]),
            forall|k: int| 0 <= k < upper@.len() ==> points@.contains(#[trigger] upper@[k]),
        decreases n - i,
    {
        let point = points[i];
        assert(points@.contains(point));
        push_to_chain(&mut lower, point, Orientation::Clockwise, Ghost(points@));
        push_to_chain(&mut upper, point, Orientation::Counterclockwise, Ghost(points@));
        i += 1;
    }
    // The upper chain backwards, without its two ends, ends the hull.
    let ghost lower_chain = lower@;
    let mut k: usize = upper.len() - 1;
    while k > 1
        invariant
            1 <= k <= upper@.len() - 1,
            lower@ == lower_chain + upper@.subrange(k as int, upper@.len() - 1).reverse(),
        decreases k,
    {
        k -= 1;
        lower.push(upper[k]);
        assert(lower@ =~= lower_chain + upper@.subrange(k as int, upper@.len() - 1).reverse());
    }
    let hull = Polygon::from(lower);
    assert(first_distinct(points@, 1) == seed);
    assert(upper@.subrange(1, upper@.len() - 1).reverse() =~= upper@.subrange(
        k as int,
        upper@.len() - 1,
    ).reverse());
    assert(hull@ == monotone_chain(points@));
    assert(is_hull_of(hull@, given, points@));
    let r = Some(hull);
    assert(r matches Some(h) ==> is_hull_of(h@, given, points@));
    r
}

/// Whether the three points from the `i`-th on make the `bad` turn.
pub open spec fn turns_at(chain: Seq<Point>, i: int, bad: Orientation) -> bool {
    orientation(chain[i], chain[i + 1], chain[i + 2]) == bad
}

/// Whether no three consecutive points of the chain make the `bad` turn.
pub open spec fn never_turns(chain: Seq<Point>, bad: Orientation) -> bool {
    forall|i: int| 0 <= i && i + 2 < chain.len() ==> !#[trigger] turns_at(chain, i, bad)
}

/// Pushing a point keeps the first point of the chain and ends the chain
/// with the point; the chain then holds points of the old chain and the new
/// point.
pub proof fn lemma_chain_push(chain: Seq<Point>, p: Point, bad: Orientation)
    requires
        chain.len() >= 1,
    ensures
        2 <= chain_push(chain, p, bad).len() <= chain.len() + 1,
        chain_push(chain, p, bad).first() == chain.first(),
        chain_push(chain, p, bad).last() == p,
        chain_push(chain, p, bad).drop_last() == chain.take(
            chain_push(chain, p, bad).len() - 1,
        ),
    decreases chain.len(),
{
    let pushed = chain_push(chain, p, bad);
    if chain.len() >= 2 && orientation(chain[chain.len() - 2], chain[chain.len() - 1], p) == bad {
        let rest = chain.drop_last();
        lemma_chain_push(rest, p, bad);
        assert(rest.take(pushed.len() - 1) =~= chain.take(pushed.len() - 1));
    } else {
        assert(pushed.drop_last() =~= chain.take(pushed.len() - 1));
    }
}

/// Pushing a point onto a chain that never makes the `bad` turn gives a
/// chain that never makes it.
pub proof fn lemma_chain_push_turns(chain: Seq<Point>, p: Point, bad: Orientation)
    requires
        chain.len() >= 1,
        never_turns(chain, bad),
    ensures
        never_turns(chain_push(chain, p, bad), bad),
    decreases chain.len(),
{
    let pushed = chain_push(chain, p, bad);
    if chain.len() >= 2 && orientation(chain[chain.len() - 2], chain[chain.len() - 1], p) == bad {
        let rest = chain.drop_last();
        assert forall|i: int| 0 <= i && i + 2 < rest.len() implies !#[trigger] turns_at(
            rest,
            i,
            bad,
        ) by {
            assert(!turns_at(chain, i, bad));
        }
        lemma_chain_push_turns(rest, p, bad);
    } else {
        assert forall|i: int| 0 <= i && i + 2 < pushed.len() implies !#[trigger] turns_at(
            pushed,
            i,
            bad,
        ) by {
            if i + 2 < chain.len() {
                assert(!turns_at(chain, i, bad));
            }
        }
    }
}

/// Each chain of the hull starts at the first point and ends at the last
/// point that was pushed; it holds given points only, and never makes the
/// turn that it avoids.
pub proof fn lemma_chain(points: Seq<Point>, seed: int, upto: int, bad: Orientation)
    requires
        1 <= seed < upto <= points.len(),
    ensures
        chain(points, seed, upto, bad).len() >= 2,
        chain(points, seed, upto, bad).first() == points[0],
        chain(points, seed, upto, bad).last() == points[upto - 1],
        forall|i: int|
            0 <= i < chain(points, seed, upto, bad).len() ==> points.contains(
                #[trigger] chain(points, seed, upto, bad)[i],
            ),
        never_turns(chain(points, seed, upto, bad), bad),
    decreases upto - seed,
{
    let this = chain(points, seed, upto, bad);
    if upto > seed + 1 {
        let before = chain(points, seed, upto - 1, bad);
        lemma_chain(points, seed, upto - 1, bad);
        lemma_chain_push(before, points[upto - 1], bad);
        lemma_chain_push_turns(before, points[upto - 1], bad);
        assert forall|i: int| 0 <= i < this.len() implies points.contains(#[trigger] this[i]) by {
            if i < this.len() - 1 {
                assert(this[i] == this.drop_last()[i]);
                assert(this[i] == before[i]);
                assert(points.contains(before[i]));
            } else {
                assert(points[upto - 1] == this[i]);
            }
        }
    } else {
        assert(this[0] == points[0] && this[1] == points[seed]);
        assert forall|i: int| 0 <= i < this.len() implies points.contains(#[trigger] this[i]) by {
            if i == 0 {
                assert(points[0] == this[i]);
            } else {
                assert(points[seed] == this[i]);
            }
        }
    }
}

/// The index of the first point that differs from the first one is that of
/// such a point, if there is one from `from` on.
pub proof fn lemma_first_distinct(points: Seq<Point>, from: int)
    requires
        0 <= from,
    ensures
        from <= first_distinct(points, from) || first_distinct(points, from) == points.len(),
        first_distinct(points, from) <= points.len(),
        first_distinct(points, from) < points.len() ==> !points[first_distinct(
            points,
            from,
        )].same_position(points[0]),
        forall|k: int|
            from <= k < first_distinct(points, from) ==> (#[trigger] points[k]).same_position(
                points[0],
            ),
    decreases points.len() - from,
{
    if from < points.len() && points[from].same_position(points[0]) {
        lemma_first_distinct(points, from + 1);
    }
}

/// The two chains of the hull of sorted points that do not all coincide
/// start at one point and end at another one, and these two points differ.
/// The lower chain never turns clockwise and the upper chain never turns
/// counter-clockwise, and the hull holds given points only.
pub proof fn lemma_hull_chains(points: Seq<Point>)
    requires
        sorted(points),
        forall|i: int| 0 <= i < points.len() ==> (#[trigger] points[i]).wf(),
        !all_coincide(points),
    ensures
        ({
            let seed = first_distinct(points, 1);
            let lower = chain(points, seed, points.len() as int, Orientation::Clockwise);
            let upper = chain(points, seed, points.len() as int, Orientation::Counterclockwise);
            &&& 1 <= seed < points.len()
            &&& lower.first() == points.first()
            &&& upper.first() == points.first()
            &&& lower.last() == points.last()
            &&& upper.last() == points.last()
            &&& !points.first().same_position(points.last())
            &&& never_turns(lower, Orientation::Clockwise)
            &&& never_turns(upper, Orientation::Counterclockwise)
            &&& monotone_chain(points).first() == points.first()
            &&& forall|i: int|
                0 <= i < monotone_chain(points).len() ==> points.contains(
                    #[trigger] monotone_chain(points)[i],
                )
        }),
{
    let n = points.len() as int;
    let seed = first_distinct(points, 1);
    lemma_first_distinct(points, 1);
    // Some point differs from the first one, or all would coincide.
    if seed >= n {
        assert forall|i: int, j: int| 0 <= i < n && 0 <= j < n implies points[i].same_position(
            points[j],
        ) by {
            assert(points[0].same_position(points[0]));
            assert(points[i].same_position(points[0]));
            assert(points[j].same_position(points[0]));
            lemma_same_position_transitive(points[j], points[0], points[j]);
            lemma_same_position_transitive(points[i], points[0], points[j]);
        }
    }
    lemma_chain(points, seed, n, Orientation::Clockwise);
    lemma_chain(points, seed, n, Orientation::Counterclockwise);
    // The last point is not before the one at `seed`, which is not before
    // the first: if the last coincided with the first, so would that one.
    if points[0].same_position(points[n - 1]) {
        lemma_same_position_transitive(points[n - 1], points[n - 1], points[n - 1]);
        lemma_same_position_transitive(points[0], points[n - 1], points[n - 1]);
        lemma_same_position_transitive(points[n - 1], points[0], points[0]);
        lemma_order_of_points(points[0], points[seed], points[n - 1]);
        lemma_order_of_points(points[seed], points[0], points[seed]);
        assert(false);
    }
    let lower = chain(points, seed, n, Orientation::Clockwise);
    let upper = chain(points, seed, n, Orientation::Counterclockwise);
    let hull = monotone_chain(points);
    assert forall|i: int| 0 <= i < hull.len() implies points.contains(#[trigger] hull[i]) by {
        if i < lower.len() {
            assert(hull[i] == lower[i]);
        } else {
            let inner = upper.subrange(1, upper.len() - 1);
            let k = i - lower.len();
            assert(hull[i] == inner.reverse()[k]);
            assert(inner.reverse()[k] == upper[inner.len() - k]);
        }
    }
}

} // verus!
