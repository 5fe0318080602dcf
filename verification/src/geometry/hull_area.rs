//! The area of a convex hull: positive, unless the given points lie on one
//! line or some of them coincide.
//!
//! The positions are rational. For the proofs they are brought to a common
//! divisor, the unit, so that each point has a place with integer
//! coordinates, and turns and areas are signs and sums of integers.
use crate::geometry::hull::{
    chain, chain_push, first_distinct, is_hull_of, lemma_chain, lemma_chain_push,
    lemma_order_of_points, monotone_chain, never_turns, turns_at,
};
use crate::geometry::polygon::{shoelace, shoelace_term, signed_area, vertex_before};
use crate::geometry::primitive::{cross, orientation, Orientation, Point};
use crate::math::arith::{
    lemma_divides_product, lemma_multiple_has_no_remainder, lemma_reduced, reduced,
};
use crate::math::numtraits::NonZeroI64;
use crate::math::quot::{ratio_difference, ratio_product, ratio_sum};
use vstd::arithmetic::div_mod::lemma_fundamental_div_mod;
use vstd::math::abs;
use vstd::prelude::*;
use vstd::seq_lib::to_multiset_contains;

verus! {

/// Whether the divisor of `p` divides the unit.
pub open spec fn measures(p: Point, unit: int) -> bool {
    unit > 0 && p.z@ != 0 && unit % (abs(p.z@) as int) == 0
}

/// What the raw coordinates of `p` are multiplied by to give its place: the
/// unit over the divisor.
pub open spec fn lift(p: Point, unit: int) -> int {
    if p.z@ > 0 {
        unit / p.z@
    } else {
        -(unit / (-p.z@))
    }
}

/// The place of `p`: its position times the unit.
pub open spec fn place(p: Point, unit: int) -> (int, int) {
    (p.x * lift(p, unit), p.y * lift(p, unit))
}

/// The product of the magnitudes of the divisors: a unit for all the points.
pub open spec fn common_unit(points: Seq<Point>) -> int
    decreases points.len(),
{
    if points.len() == 0 {
        1
    } else {
        common_unit(points.drop_last()) * abs(points.last().z@)
    }
}

/// The lift times the divisor is the unit, and has the sign of the divisor.
pub proof fn lemma_lift(p: Point, unit: int)
    requires
        measures(p, unit),
    ensures
        lift(p, unit) * p.z@ == unit,
        (lift(p, unit) > 0) == (p.z@ > 0),
        (lift(p, unit) < 0) == (p.z@ < 0),
{
    let z = p.z@;
    let m = abs(z) as int;
    let q = unit / m;
    lemma_fundamental_div_mod(unit, m);
    assert(unit == m * q);
    assert(q > 0) by (nonlinear_arith)
        requires
            unit == m * q,
            unit > 0,
            m > 0,
    ;
    if z > 0 {
        assert(q * z == unit) by (nonlinear_arith)
            requires
                unit == m * q,
                m == z,
        ;
    } else {
        assert((-q) * z == unit) by (nonlinear_arith)
            requires
                unit == m * q,
                m == -z,
        ;
    }
}

/// The common unit is one for all the points.
pub proof fn lemma_common_unit(points: Seq<Point>)
    requires
        forall|i: int| 0 <= i < points.len() ==> (#[trigger] points[i]).wf(),
    ensures
        common_unit(points) > 0,
        forall|i: int|
            0 <= i < points.len() ==> measures(#[trigger] points[i], common_unit(points)),
    decreases points.len(),
{
    if points.len() > 0 {
        let rest = points.drop_last();
        let last = points.last();
        assert(last.wf());
        NonZeroI64::lemma_view_injective(last.z, last.z);
        let m = abs(last.z@) as int;
        let before = common_unit(rest);
        assert forall|i: int| 0 <= i < rest.len() implies (#[trigger] rest[i]).wf() by {
            assert(points[i].wf());
        }
        lemma_common_unit(rest);
        assert(before * m > 0) by (nonlinear_arith)
            requires
                before > 0,
                m > 0,
        ;
        assert forall|i: int| 0 <= i < points.len() implies measures(
            #[trigger] points[i],
            common_unit(points),
        ) by {
            if i < rest.len() {
                assert(measures(rest[i], before));
                lemma_divides_product(abs(points[i].z@) as int, before, m);
            } else {
                lemma_multiple_has_no_remainder(m, before);
                assert(m * before == before * m) by (nonlinear_arith);
            }
        }
    }
}

/// The cross product of two vectors.
pub open spec fn cross_of(u: (int, int), v: (int, int)) -> int {
    u.0 * v.1 - u.1 * v.0
}

/// The vector from `a` to `b`.
pub open spec fn vector(a: (int, int), b: (int, int)) -> (int, int) {
    (b.0 - a.0, b.1 - a.1)
}

/// Whether the vector points to the right, or straight up.
pub open spec fn ascends(u: (int, int)) -> bool {
    u.0 > 0 || (u.0 == 0 && u.1 > 0)
}

/// The turn that a cross product stands for.
pub open spec fn turn_of(product: int) -> Orientation {
    if product < 0 {
        Orientation::Clockwise
    } else if product == 0 {
        Orientation::Collinear
    } else {
        Orientation::Counterclockwise
    }
}

/// A difference of raw coordinates, cleared of divisors, is the unit times
/// the difference of the places.
proof fn lemma_lifted_difference(xa: int, za: int, sa: int, xb: int, zb: int, sb: int, unit: int)
    requires
        sa * za == unit,
        sb * zb == unit,
    ensures
        (xb * za - xa * zb) * (sa * sb) == unit * (xb * sb - xa * sa),
{
    assert(xb * za * (sa * sb) == (xb * sb) * (sa * za)) by (nonlinear_arith);
    assert(xa * zb * (sa * sb) == (xa * sa) * (sb * zb)) by (nonlinear_arith);
    assert((xb * za - xa * zb) * (sa * sb) == xb * za * (sa * sb) - xa * zb * (sa * sb))
        by (nonlinear_arith);
    assert(unit * (xb * sb - xa * sa) == (xb * sb) * unit - (xa * sa) * unit)
        by (nonlinear_arith);
}

/// If `p * w == unit * r` for a positive unit, `r` has the sign of `p` where
/// `w` is positive, and the opposite sign where `w` is negative.
proof fn lemma_sign_of_lifted(p: int, w: int, unit: int, r: int)
    requires
        p * w == unit * r,
        unit > 0,
        w != 0,
    ensures
        (r == 0) == (p == 0),
        w > 0 ==> (r > 0) == (p > 0),
        w < 0 ==> (r > 0) == (p < 0),
{
    if p == 0 {
        assert(r == 0) by (nonlinear_arith)
            requires
                p * w == unit * r,
                p == 0,
                unit > 0,
        ;
    } else if (p > 0) == (w > 0) {
        assert(r > 0) by (nonlinear_arith)
            requires
                p * w == unit * r,
                (p > 0 && w > 0) || (p < 0 && w < 0),
                unit > 0,
        ;
    } else {
        assert(r < 0) by (nonlinear_arith)
            requires
                p * w == unit * r,
                (p > 0 && w < 0) || (p < 0 && w > 0),
                unit > 0,
        ;
    }
}

/// Points coincide where their places are equal, and come before one
/// another as their places do.
pub proof fn lemma_place_order(a: Point, b: Point, unit: int)
    requires
        measures(a, unit),
        measures(b, unit),
    ensures
        a.same_position(b) == (place(a, unit) == place(b, unit)),
        a.before(b) == ascends(vector(place(a, unit), place(b, unit))),
{
    lemma_lift(a, unit);
    lemma_lift(b, unit);
    let sa = lift(a, unit);
    let sb = lift(b, unit);
    let za = a.z@;
    let zb = b.z@;
    let (xa, ya) = (a.x as int, a.y as int);
    let (xb, yb) = (b.x as int, b.y as int);
    lemma_lifted_difference(xa, za, sa, xb, zb, sb, unit);
    lemma_lifted_difference(ya, za, sa, yb, zb, sb, unit);
    let dx = xb * za - xa * zb;
    let dy = yb * za - ya * zb;
    let ex = xb * sb - xa * sa;
    let ey = yb * sb - ya * sa;
    let w = sa * sb;
    assert(w != 0 && (w > 0) == ((za < 0) == (zb < 0))) by (nonlinear_arith)
        requires
            w == sa * sb,
            (sa > 0) == (za > 0),
            (sa < 0) == (za < 0),
            (sb > 0) == (zb > 0),
            (sb < 0) == (zb < 0),
            za != 0,
            zb != 0,
    ;
    lemma_sign_of_lifted(dx, w, unit, ex);
    lemma_sign_of_lifted(dy, w, unit, ey);
    assert(zb * xa == xa * zb && za * xb == xb * za && zb * ya == ya * zb && za * yb == yb * za)
        by (nonlinear_arith);
}

/// The turn of three points is the turn of their places.
pub proof fn lemma_place_turn(a: Point, b: Point, c: Point, unit: int)
    requires
        measures(a, unit),
        measures(b, unit),
        measures(c, unit),
    ensures
        orientation(a, b, c) == turn_of(
            cross_of(
                vector(place(a, unit), place(b, unit)),
                vector(place(a, unit), place(c, unit)),
            ),
        ),
{
    lemma_lift(a, unit);
    lemma_lift(b, unit);
    lemma_lift(c, unit);
    let sa = lift(a, unit);
    let sb = lift(b, unit);
    let sc = lift(c, unit);
    let (xa, ya, za) = (a.x as int, a.y as int, a.z@);
    let (xb, yb, zb) = (b.x as int, b.y as int, b.z@);
    let (xc, yc, zc) = (c.x as int, c.y as int, c.z@);
    lemma_lifted_difference(xa, za, sa, xb, zb, sb, unit);
    lemma_lifted_difference(ya, za, sa, yb, zb, sb, unit);
    lemma_lifted_difference(xa, za, sa, xc, zc, sc, unit);
    lemma_lifted_difference(ya, za, sa, yc, zc, sc, unit);
    let dx1 = xb * za - xa * zb;
    let dy1 = yb * za - ya * zb;
    let dx2 = xc * za - xa * zc;
    let dy2 = yc * za - ya * zc;
    let ex1 = xb * sb - xa * sa;
    let ey1 = yb * sb - ya * sa;
    let ex2 = xc * sc - xa * sa;
    let ey2 = yc * sc - ya * sa;
    let p = sa * sb;
    let q = sa * sc;
    let raw = dx1 * dy2 - dx2 * dy1;
    let flat = ex1 * ey2 - ex2 * ey1;
    assert(raw == cross(a, b, c));
    assert(ex2 * ey1 == ey1 * ex2) by (nonlinear_arith);
    assert(flat == cross_of(
        vector(place(a, unit), place(b, unit)),
        vector(place(a, unit), place(c, unit)),
    ));
    assert((dx1 * p) * (dy2 * q) == (dx1 * dy2) * (p * q)) by (nonlinear_arith);
    assert((dx2 * q) * (dy1 * p) == (dx2 * dy1) * (p * q)) by (nonlinear_arith);
    assert((unit * ex1) * (unit * ey2) == (unit * unit) * (ex1 * ey2)) by (nonlinear_arith);
    assert((unit * ex2) * (unit * ey1) == (unit * unit) * (ex2 * ey1)) by (nonlinear_arith);
    assert(raw * (p * q) == (dx1 * dy2) * (p * q) - (dx2 * dy1) * (p * q)) by (nonlinear_arith)
        requires
            raw == dx1 * dy2 - dx2 * dy1,
    ;
    assert((unit * unit) * flat == (unit * unit) * (ex1 * ey2) - (unit * unit) * (ex2 * ey1))
        by (nonlinear_arith)
        requires
            flat == ex1 * ey2 - ex2 * ey1,
    ;
    let w = p * q;
    let uu = unit * unit;
    assert(raw * w == uu * flat);
    assert(uu > 0) by (nonlinear_arith)
        requires
            uu == unit * unit,
            unit > 0,
    ;
    assert(w != 0 && (w > 0) == ((zb < 0) == (zc < 0))) by (nonlinear_arith)
        requires
            w == (sa * sb) * (sa * sc),
            sa != 0,
            (sb > 0) == (zb > 0),
            (sb < 0) == (zb < 0),
            (sc > 0) == (zc > 0),
            (sc < 0) == (zc < 0),
            zb != 0,
            zc != 0,
    ;
    lemma_sign_of_lifted(raw, w, uu, flat);
}

/// Whether a cross product does not stand for the `bad` turn.
pub open spec fn avoids(bad: Orientation, product: int) -> bool {
    turn_of(product) != bad
}

/// Among vectors that point to the right or straight up, turning one way is
/// transitive: if `a`, `b` and `b`, `c` do not make the `bad` turn, neither
/// do `a`, `c`.
pub proof fn lemma_turn_transitive(bad: Orientation, a: (int, int), b: (int, int), c: (int, int))
    requires
        bad != Orientation::Collinear,
        ascends(a) || a == (0int, 0int),
        ascends(b),
        ascends(c) || c == (0int, 0int),
        avoids(bad, cross_of(a, b)),
        avoids(bad, cross_of(b, c)),
    ensures
        avoids(bad, cross_of(a, c)),
{
    let ab = cross_of(a, b);
    let bc = cross_of(b, c);
    let ac = cross_of(a, c);
    if b.0 > 0 {
        assert(b.0 * ac == a.0 * bc + c.0 * ab) by (nonlinear_arith)
            requires
                ab == a.0 * b.1 - a.1 * b.0,
                bc == b.0 * c.1 - b.1 * c.0,
                ac == a.0 * c.1 - a.1 * c.0,
        ;
        if bad == Orientation::Clockwise {
            assert(ac >= 0) by (nonlinear_arith)
                requires
                    b.0 * ac == a.0 * bc + c.0 * ab,
                    b.0 > 0,
                    a.0 >= 0,
                    c.0 >= 0,
                    ab >= 0,
                    bc >= 0,
            ;
        } else {
            assert(ac <= 0) by (nonlinear_arith)
                requires
                    b.0 * ac == a.0 * bc + c.0 * ab,
                    b.0 > 0,
                    a.0 >= 0,
                    c.0 >= 0,
                    ab <= 0,
                    bc <= 0,
            ;
        }
    } else {
        if bad == Orientation::Clockwise {
            assert(c.0 == 0 && ac >= 0) by (nonlinear_arith)
                requires
                    bc == b.0 * c.1 - b.1 * c.0,
                    ac == a.0 * c.1 - a.1 * c.0,
                    b.0 == 0,
                    b.1 > 0,
                    bc >= 0,
                    c.0 > 0 || (c.0 == 0 && c.1 >= 0),
                    a.0 >= 0,
            ;
        } else {
            assert(a.0 == 0 && ac <= 0) by (nonlinear_arith)
                requires
                    ab == a.0 * b.1 - a.1 * b.0,
                    ac == a.0 * c.1 - a.1 * c.0,
                    b.0 == 0,
                    b.1 > 0,
                    ab <= 0,
                    a.0 > 0 || (a.0 == 0 && a.1 >= 0),
                    c.0 >= 0,
            ;
        }
    }
}

/// Whether every point of the chain comes before the points after it.
pub open spec fn rises(chain: Seq<Point>) -> bool {
    forall|i: int, j: int| 0 <= i < j < chain.len() ==> chain[i].before(chain[j])
}

/// Whether the unit is one for every point of the sequence.
pub open spec fn measured(points: Seq<Point>, unit: int) -> bool {
    forall|i: int| 0 <= i < points.len() ==> measures(#[trigger] points[i], unit)
}

/// The vector from the first point of the chain to the `i`-th.
pub open spec fn spoke(chain: Seq<Point>, unit: int, i: int) -> (int, int) {
    vector(place(chain[0], unit), place(chain[i], unit))
}

/// The vector from the `i`-th point of the chain to the next.
pub open spec fn step(chain: Seq<Point>, unit: int, i: int) -> (int, int) {
    vector(place(chain[i], unit), place(chain[i + 1], unit))
}

/// A chain that rises and never makes the `bad` turn never makes it as seen
/// from its first point: the first point, the `i`-th and the next do not
/// make it.
pub proof fn lemma_fan(chain: Seq<Point>, unit: int, bad: Orientation, i: int)
    requires
        bad != Orientation::Collinear,
        measured(chain, unit),
        rises(chain),
        never_turns(chain, bad),
        1 <= i,
        i + 1 < chain.len(),
    ensures
        avoids(bad, cross_of(spoke(chain, unit, i), step(chain, unit, i))),
        avoids(bad, cross_of(spoke(chain, unit, i), spoke(chain, unit, i + 1))),
    decreases i,
{
    let here = spoke(chain, unit, i);
    let next = step(chain, unit, i);
    let back = step(chain, unit, i - 1);
    // The turn at the point before.
    assert(!turns_at(chain, i - 1, bad));
    lemma_place_turn(chain[i - 1], chain[i], chain[i + 1], unit);
    let local = cross_of(back, vector(place(chain[i - 1], unit), place(chain[i + 1], unit)));
    assert(local == cross_of(back, next)) by (nonlinear_arith)
        requires
            local == back.0 * (back.1 + next.1) - back.1 * (back.0 + next.0),
            cross_of(back, next) == back.0 * next.1 - back.1 * next.0,
    ;
    if i == 1 {
        assert(here == back);
    } else {
        let before = spoke(chain, unit, i - 1);
        lemma_fan(chain, unit, bad, i - 1);
        assert(chain[0].before(chain[i - 1]));
        assert(chain[i - 1].before(chain[i]));
        assert(chain[i].before(chain[i + 1]));
        lemma_place_order(chain[0], chain[i - 1], unit);
        lemma_place_order(chain[i - 1], chain[i], unit);
        lemma_place_order(chain[i], chain[i + 1], unit);
        lemma_turn_transitive(bad, before, back, next);
        assert(cross_of(here, next) == cross_of(before, next) + cross_of(back, next))
            by (nonlinear_arith)
            requires
                here.0 == before.0 + back.0,
                here.1 == before.1 + back.1,
                cross_of(here, next) == here.0 * next.1 - here.1 * next.0,
                cross_of(before, next) == before.0 * next.1 - before.1 * next.0,
                cross_of(back, next) == back.0 * next.1 - back.1 * next.0,
        ;
    }
    let far = spoke(chain, unit, i + 1);
    assert(cross_of(here, far) == cross_of(here, next)) by (nonlinear_arith)
        requires
            far.0 == here.0 + next.0,
            far.1 == here.1 + next.1,
            cross_of(here, far) == here.0 * far.1 - here.1 * far.0,
            cross_of(here, next) == here.0 * next.1 - here.1 * next.0,
    ;
}

/// Whether every point comes before the points after it.
pub open spec fn strictly_sorted(points: Seq<Point>) -> bool {
    forall|i: int, j: int| 0 <= i < j < points.len() ==> points[i].before(points[j])
}

/// Whether the point is one of the first `count` points.
pub open spec fn among(points: Seq<Point>, count: int, p: Point) -> bool {
    exists|m: int| 0 <= m < count && m < points.len() && points[m] == p
}

/// A chain of points that are strictly sorted rises, and holds only points
/// that were pushed.
pub proof fn lemma_chain_rises(points: Seq<Point>, seed: int, upto: int, bad: Orientation)
    requires
        strictly_sorted(points),
        1 <= seed < upto <= points.len(),
    ensures
        rises(chain(points, seed, upto, bad)),
        forall|i: int|
            0 <= i < chain(points, seed, upto, bad).len() ==> among(
                points,
                upto,
                #[trigger] chain(points, seed, upto, bad)[i],
            ),
    decreases upto - seed,
{
    let this = chain(points, seed, upto, bad);
    if upto > seed + 1 {
        let before = chain(points, seed, upto - 1, bad);
        let p = points[upto - 1];
        lemma_chain_rises(points, seed, upto - 1, bad);
        lemma_chain(points, seed, upto - 1, bad);
        lemma_chain_push(before, p, bad);
        assert forall|i: int| 0 <= i < this.len() implies among(
            points,
            upto,
            #[trigger] this[i],
        ) by {
            if i < this.len() - 1 {
                assert(this[i] == this.drop_last()[i]);
                assert(this[i] == before[i]);
                assert(among(points, upto - 1, before[i]));
                let m = choose|m: int|
                    0 <= m < upto - 1 && m < points.len() && points[m] == before[i];
                assert(points[m] == this[i]);
            } else {
                assert(points[upto - 1] == this[i]);
            }
        }
        assert forall|i: int, j: int| 0 <= i < j < this.len() implies this[i].before(this[j]) by {
            assert(this[i] == this.drop_last()[i]);
            assert(this[i] == before[i]);
            if j < this.len() - 1 {
                assert(this[j] == this.drop_last()[j]);
                assert(this[j] == before[j]);
            } else {
                assert(among(points, upto - 1, before[i]));
                let m = choose|m: int|
                    0 <= m < upto - 1 && m < points.len() && points[m] == before[i];
                assert(points[m].before(points[upto - 1]));
            }
        }
    } else {
        assert(this[0] == points[0] && this[1] == points[seed]);
        assert(points[0].before(points[seed]));
        assert forall|i: int| 0 <= i < this.len() implies among(
            points,
            upto,
            #[trigger] this[i],
        ) by {
            if i == 0 {
                assert(points[0] == this[i]);
            } else {
                assert(points[seed] == this[i]);
            }
        }
    }
}

/// How far the point lies to the left of the line through `from` in the
/// direction `along`, as a cross product.
pub open spec fn height(along: (int, int), from: (int, int), unit: int, x: Point) -> int {
    cross_of(along, vector(from, place(x, unit)))
}

/// Whether the height `mine` is at least as far as `other` on the side that
/// a chain without `bad` turns bounds: above for the upper chain, below for
/// the lower one.
pub open spec fn reaches(bad: Orientation, mine: int, other: int) -> bool {
    if bad == Orientation::Counterclockwise {
        mine >= other
    } else {
        mine <= other
    }
}

/// Whether some point of the chain reaches the height of `x`.
pub open spec fn outdoes(
    chain: Seq<Point>,
    bad: Orientation,
    along: (int, int),
    from: (int, int),
    unit: int,
    x: Point,
) -> bool {
    exists|k: int|
        0 <= k < chain.len() && reaches(
            bad,
            height(along, from, unit, #[trigger] chain[k]),
            height(along, from, unit, x),
        )
}

/// The turn opposite to a turn.
pub open spec fn opposite(turn: Orientation) -> Orientation {
    match turn {
        Orientation::Clockwise => Orientation::Counterclockwise,
        Orientation::Collinear => Orientation::Collinear,
        Orientation::Counterclockwise => Orientation::Clockwise,
    }
}

/// A point that is taken from a chain lies no further out than the point
/// before it or the point that is pushed.
proof fn lemma_taken_point(
    a: Point,
    b: Point,
    p: Point,
    bad: Orientation,
    along: (int, int),
    from: (int, int),
    unit: int,
)
    requires
        bad != Orientation::Collinear,
        ascends(along),
        measures(a, unit),
        measures(b, unit),
        measures(p, unit),
        a.before(b),
        b.before(p),
        orientation(a, b, p) == bad,
    ensures
        reaches(bad, height(along, from, unit, a), height(along, from, unit, b)) || reaches(
            bad,
            height(along, from, unit, p),
            height(along, from, unit, b),
        ),
{
    let at_a = place(a, unit);
    let at_b = place(b, unit);
    let at_p = place(p, unit);
    let u = vector(at_a, at_b);
    let v = vector(at_b, at_p);
    let w = vector(at_a, at_p);
    lemma_place_order(a, b, unit);
    lemma_place_order(b, p, unit);
    lemma_place_turn(a, b, p, unit);
    assert(cross_of(u, w) == cross_of(u, v)) by (nonlinear_arith)
        requires
            w.0 == u.0 + v.0,
            w.1 == u.1 + v.1,
            cross_of(u, w) == u.0 * w.1 - u.1 * w.0,
            cross_of(u, v) == u.0 * v.1 - u.1 * v.0,
    ;
    let ha = height(along, from, unit, a);
    let hb = height(along, from, unit, b);
    let hp = height(along, from, unit, p);
    assert(hb - ha == cross_of(along, u) && hp - hb == cross_of(along, v)) by (nonlinear_arith)
        requires
            ha == along.0 * (at_a.1 - from.1) - along.1 * (at_a.0 - from.0),
            hb == along.0 * (at_b.1 - from.1) - along.1 * (at_b.0 - from.0),
            hp == along.0 * (at_p.1 - from.1) - along.1 * (at_p.0 - from.0),
            cross_of(along, u) == along.0 * (at_b.1 - at_a.1) - along.1 * (at_b.0 - at_a.0),
            cross_of(along, v) == along.0 * (at_p.1 - at_b.1) - along.1 * (at_p.0 - at_b.0),
    ;
    if !reaches(bad, ha, hb) && !reaches(bad, hp, hb) {
        lemma_turn_transitive(opposite(bad), along, u, v);
    }
}

/// After a point is pushed, some point of the chain reaches the height of
/// each point that the chain held, and of the point that was pushed.
pub proof fn lemma_push_outdoes(
    chain: Seq<Point>,
    p: Point,
    bad: Orientation,
    along: (int, int),
    from: (int, int),
    unit: int,
)
    requires
        bad != Orientation::Collinear,
        ascends(along),
        chain.len() >= 1,
        measured(chain, unit),
        measures(p, unit),
        rises(chain),
        forall|i: int| 0 <= i < chain.len() ==> (#[trigger] chain[i]).before(p),
    ensures
        outdoes(chain_push(chain, p, bad), bad, along, from, unit, p),
        forall|i: int|
            0 <= i < chain.len() ==> outdoes(
                chain_push(chain, p, bad),
                bad,
                along,
                from,
                unit,
                #[trigger] chain[i],
            ),
    decreases chain.len(),
{
    let pushed = chain_push(chain, p, bad);
    lemma_chain_push(chain, p, bad);
    assert(pushed[pushed.len() - 1] == p);
    if chain.len() >= 2 && orientation(chain[chain.len() - 2], chain[chain.len() - 1], p) == bad {
        let rest = chain.drop_last();
        let a = chain[chain.len() - 2];
        let b = chain[chain.len() - 1];
        assert forall|i: int| 0 <= i < rest.len() implies (#[trigger] rest[i]).before(p) by {
            assert(chain[i].before(p));
        }
        assert forall|i: int| 0 <= i < rest.len() implies measures(#[trigger] rest[i], unit) by {
            assert(measures(chain[i], unit));
        }
        assert forall|i: int, j: int| 0 <= i < j < rest.len() implies rest[i].before(rest[j]) by {
            assert(chain[i].before(chain[j]));
        }
        lemma_push_outdoes(rest, p, bad, along, from, unit);
        assert(measures(a, unit) && measures(b, unit));
        assert(a.before(b));
        assert(b.before(p));
        lemma_taken_point(a, b, p, bad, along, from, unit);
        assert forall|i: int| 0 <= i < chain.len() implies outdoes(
            pushed,
            bad,
            along,
            from,
            unit,
            #[trigger] chain[i],
        ) by {
            if i < rest.len() {
                assert(rest[i] == chain[i]);
            } else {
                assert(rest[rest.len() - 1] == a);
                assert(outdoes(pushed, bad, along, from, unit, a));
                if reaches(bad, height(along, from, unit, a), height(along, from, unit, b)) {
                    let k = choose|k: int|
                        0 <= k < pushed.len() && reaches(
                            bad,
                            height(along, from, unit, #[trigger] pushed[k]),
                            height(along, from, unit, a),
                        );
                    assert(reaches(
                        bad,
                        height(along, from, unit, pushed[k]),
                        height(along, from, unit, b),
                    ));
                }
            }
        }
    } else {
        assert forall|i: int| 0 <= i < chain.len() implies outdoes(
            pushed,
            bad,
            along,
            from,
            unit,
            #[trigger] chain[i],
        ) by {
            assert(pushed[i] == chain[i]);
        }
    }
}

/// Some point of a chain reaches the height of each point that was pushed.
pub proof fn lemma_chain_outdoes(
    points: Seq<Point>,
    seed: int,
    upto: int,
    bad: Orientation,
    along: (int, int),
    from: (int, int),
    unit: int,
    m: int,
)
    requires
        bad != Orientation::Collinear,
        ascends(along),
        strictly_sorted(points),
        measured(points, unit),
        1 <= seed < upto <= points.len(),
        m == 0 || seed <= m < upto,
    ensures
        outdoes(chain(points, seed, upto, bad), bad, along, from, unit, points[m]),
    decreases upto - seed,
{
    let this = chain(points, seed, upto, bad);
    if upto > seed + 1 {
        let before = chain(points, seed, upto - 1, bad);
        let p = points[upto - 1];
        lemma_chain_rises(points, seed, upto - 1, bad);
        lemma_chain(points, seed, upto - 1, bad);
        assert forall|i: int| 0 <= i < before.len() implies (#[trigger] before[i]).before(p)
            && measures(before[i], unit) by {
            assert(among(points, upto - 1, before[i]));
            let k = choose|k: int| 0 <= k < upto - 1 && k < points.len() && points[k] == before[i];
            assert(points[k].before(points[upto - 1]));
            assert(measures(points[k], unit));
        }
        lemma_push_outdoes(before, p, bad, along, from, unit);
        if m < upto - 1 {
            lemma_chain_outdoes(points, seed, upto - 1, bad, along, from, unit, m);
            let k = choose|k: int|
                0 <= k < before.len() && reaches(
                    bad,
                    height(along, from, unit, #[trigger] before[k]),
                    height(along, from, unit, points[m]),
                );
            assert(outdoes(this, bad, along, from, unit, before[k]));
            let l = choose|l: int|
                0 <= l < this.len() && reaches(
                    bad,
                    height(along, from, unit, #[trigger] this[l]),
                    height(along, from, unit, before[k]),
                );
            assert(reaches(
                bad,
                height(along, from, unit, this[l]),
                height(along, from, unit, points[m]),
            ));
        }
    } else {
        assert(this[0] == points[0] && this[1] == points[seed]);
        if m == 0 {
            assert(reaches(
                bad,
                height(along, from, unit, this[0]),
                height(along, from, unit, points[m]),
            ));
        } else {
            assert(reaches(
                bad,
                height(along, from, unit, this[1]),
                height(along, from, unit, points[m]),
            ));
        }
    }
}

/// Whether the chain is flat as seen from its first point: that point, the
/// `i`-th and the next lie on one line, for every `i`.
pub open spec fn flat(chain: Seq<Point>, unit: int) -> bool {
    forall|i: int|
        1 <= i && i + 1 < chain.len() ==> cross_of(
            #[trigger] spoke(chain, unit, i),
            spoke(chain, unit, i + 1),
        ) == 0
}

/// All points of a flat chain that rises lie on the line through its first
/// and its last point.
pub proof fn lemma_flat_chain(chain: Seq<Point>, unit: int, j: int)
    requires
        measured(chain, unit),
        rises(chain),
        flat(chain, unit),
        1 <= j < chain.len(),
    ensures
        cross_of(spoke(chain, unit, j), spoke(chain, unit, chain.len() - 1)) == 0,
    decreases chain.len() - j,
{
    let last = chain.len() - 1;
    let here = spoke(chain, unit, j);
    let end = spoke(chain, unit, last);
    if j < last {
        let next = spoke(chain, unit, j + 1);
        lemma_flat_chain(chain, unit, j + 1);
        assert(cross_of(spoke(chain, unit, j), next) == 0);
        assert(chain[0].before(chain[j]));
        assert(chain[0].before(chain[j + 1]));
        assert(chain[0].before(chain[last]));
        lemma_place_order(chain[0], chain[j], unit);
        lemma_place_order(chain[0], chain[j + 1], unit);
        lemma_place_order(chain[0], chain[last], unit);
        lemma_turn_transitive(Orientation::Clockwise, here, next, end);
        lemma_turn_transitive(Orientation::Counterclockwise, here, next, end);
    } else {
        assert(cross_of(here, here) == 0) by (nonlinear_arith)
            requires
                cross_of(here, here) == here.0 * here.1 - here.1 * here.0,
        ;
    }
}

/// A chain that rises and holds a point off the line through its first and
/// its last point is not flat.
pub proof fn lemma_chain_not_flat(chain: Seq<Point>, unit: int, k: int)
    requires
        measured(chain, unit),
        rises(chain),
        0 <= k < chain.len(),
        height(
            spoke(chain, unit, chain.len() - 1),
            place(chain[0], unit),
            unit,
            chain[k],
        ) != 0,
    ensures
        !flat(chain, unit),
{
    let end = spoke(chain, unit, chain.len() - 1);
    let here = spoke(chain, unit, k);
    assert(height(end, place(chain[0], unit), unit, chain[k]) == cross_of(end, here));
    assert(cross_of(end, here) == -cross_of(here, end)) by (nonlinear_arith)
        requires
            cross_of(end, here) == end.0 * here.1 - end.1 * here.0,
            cross_of(here, end) == here.0 * end.1 - here.1 * end.0,
    ;
    if flat(chain, unit) {
        if k >= 1 {
            lemma_flat_chain(chain, unit, k);
        } else {
            assert(here == (0int, 0int));
            assert(cross_of(here, end) == 0) by (nonlinear_arith)
                requires
                    here.0 == 0,
                    here.1 == 0,
                    cross_of(here, end) == here.0 * end.1 - here.1 * end.0,
            ;
        }
    }
}

/// Two vectors that are parallel to a third one, not zero, are parallel.
proof fn lemma_parallel(d0: int, d1: int, x0: int, x1: int, y0: int, y1: int)
    requires
        d0 * x1 - d1 * x0 == 0,
        d0 * y1 - d1 * y0 == 0,
        d0 != 0 || d1 != 0,
    ensures
        x0 * y1 - x1 * y0 == 0,
{
    let xy = x0 * y1 - x1 * y0;
    assert(d0 * xy == x0 * (d0 * y1) - y0 * (d0 * x1)) by (nonlinear_arith)
        requires
            xy == x0 * y1 - x1 * y0,
    ;
    assert(x0 * (d1 * y0) - y0 * (d1 * x0) == 0) by (nonlinear_arith);
    assert(d1 * xy == y1 * (d1 * x0) - x1 * (d1 * y0)) by (nonlinear_arith)
        requires
            xy == x0 * y1 - x1 * y0,
    ;
    assert(y1 * (d0 * x1) - x1 * (d0 * y1) == 0) by (nonlinear_arith);
    assert(d0 * xy == 0 && d1 * xy == 0);
    assert(xy == 0) by (nonlinear_arith)
        requires
            d0 * xy == 0,
            d1 * xy == 0,
            d0 != 0 || d1 != 0,
    ;
}

/// Three points on one line through `from` in the direction `along` make no
/// turn.
pub proof fn lemma_on_one_line(
    a: (int, int),
    b: (int, int),
    c: (int, int),
    along: (int, int),
    from: (int, int),
)
    requires
        ascends(along),
        cross_of(along, vector(from, a)) == 0,
        cross_of(along, vector(from, b)) == 0,
        cross_of(along, vector(from, c)) == 0,
    ensures
        cross_of(vector(a, b), vector(a, c)) == 0,
{
    let x = vector(a, b);
    let y = vector(a, c);
    let dx = cross_of(along, x);
    let dy = cross_of(along, y);
    assert(dx == 0 && dy == 0) by (nonlinear_arith)
        requires
            along.0 * (a.1 - from.1) - along.1 * (a.0 - from.0) == 0,
            along.0 * (b.1 - from.1) - along.1 * (b.0 - from.0) == 0,
            along.0 * (c.1 - from.1) - along.1 * (c.0 - from.0) == 0,
            dx == along.0 * (b.1 - a.1) - along.1 * (b.0 - a.0),
            dy == along.0 * (c.1 - a.1) - along.1 * (c.0 - a.0),
    ;
    lemma_parallel(along.0, along.1, x.0, x.1, y.0, y.1);
}

/// Whether the ratio `r`, with a positive denominator, is `top / unit`.
pub open spec fn denotes(r: (int, int), top: int, unit: int) -> bool {
    r.1 > 0 && unit > 0 && r.0 * unit == top * r.1
}

/// The reduced form of `n / d` is `top / unit` if `n / d` is.
proof fn lemma_reduced_denotes(n: int, d: int, top: int, unit: int)
    requires
        d != 0,
        unit > 0,
        n * unit == top * d,
    ensures
        denotes(reduced(n, d), top, unit),
{
    lemma_reduced(n, d);
    let r = reduced(n, d);
    assert((r.0 * unit) * d == (r.0 * d) * unit) by (nonlinear_arith);
    assert((top * r.1) * d == (top * d) * r.1) by (nonlinear_arith);
    assert((n * r.1) * unit == (n * unit) * r.1) by (nonlinear_arith);
    assert(r.0 * unit == top * r.1) by (nonlinear_arith)
        requires
            (r.0 * unit) * d == (top * r.1) * d,
            d != 0,
    ;
}

/// The product of two ratios is the product of what they are.
proof fn lemma_product_denotes(
    a: (int, int),
    b: (int, int),
    top_a: int,
    top_b: int,
    unit_a: int,
    unit_b: int,
)
    requires
        denotes(a, top_a, unit_a),
        denotes(b, top_b, unit_b),
    ensures
        denotes(ratio_product(a, b), top_a * top_b, unit_a * unit_b),
{
    assert(a.1 * b.1 > 0 && unit_a * unit_b > 0) by (nonlinear_arith)
        requires
            a.1 > 0,
            b.1 > 0,
            unit_a > 0,
            unit_b > 0,
    ;
    assert((a.0 * b.0) * (unit_a * unit_b) == (a.0 * unit_a) * (b.0 * unit_b))
        by (nonlinear_arith);
    assert((top_a * top_b) * (a.1 * b.1) == (top_a * a.1) * (top_b * b.1)) by (nonlinear_arith);
    lemma_reduced_denotes(a.0 * b.0, a.1 * b.1, top_a * top_b, unit_a * unit_b);
}

/// The sum and the difference of two ratios over one unit are the sum and
/// the difference of what they are.
proof fn lemma_sum_denotes(a: (int, int), b: (int, int), top_a: int, top_b: int, unit: int)
    requires
        denotes(a, top_a, unit),
        denotes(b, top_b, unit),
    ensures
        denotes(ratio_sum(a, b), top_a + top_b, unit),
        denotes(ratio_difference(a, b), top_a - top_b, unit),
{
    assert(a.1 * b.1 > 0) by (nonlinear_arith)
        requires
            a.1 > 0,
            b.1 > 0,
    ;
    assert((a.0 * b.1) * unit == (a.0 * unit) * b.1) by (nonlinear_arith);
    assert((b.0 * a.1) * unit == (b.0 * unit) * a.1) by (nonlinear_arith);
    assert((top_a * a.1) * b.1 == top_a * (a.1 * b.1)) by (nonlinear_arith);
    assert((top_b * b.1) * a.1 == top_b * (a.1 * b.1)) by (nonlinear_arith);
    assert((a.0 * b.1 + b.0 * a.1) * unit == (a.0 * b.1) * unit + (b.0 * a.1) * unit)
        by (nonlinear_arith);
    assert((a.0 * b.1 - b.0 * a.1) * unit == (a.0 * b.1) * unit - (b.0 * a.1) * unit)
        by (nonlinear_arith);
    assert((top_a + top_b) * (a.1 * b.1) == top_a * (a.1 * b.1) + top_b * (a.1 * b.1))
        by (nonlinear_arith);
    assert((top_a - top_b) * (a.1 * b.1) == top_a * (a.1 * b.1) - top_b * (a.1 * b.1))
        by (nonlinear_arith);
    lemma_reduced_denotes(a.0 * b.1 + b.0 * a.1, a.1 * b.1, top_a + top_b, unit);
    lemma_reduced_denotes(a.0 * b.1 - b.0 * a.1, a.1 * b.1, top_a - top_b, unit);
}

/// The shoelace term of an edge is the cross product of the places of its
/// ends, over the square of the unit.
pub proof fn lemma_term_denotes(p: Point, q: Point, unit: int)
    requires
        measures(p, unit),
        measures(q, unit),
    ensures
        denotes(shoelace_term(p, q), cross_of(place(p, unit), place(q, unit)), unit * unit),
{
    lemma_lift(p, unit);
    lemma_lift(q, unit);
    let sp = lift(p, unit);
    let sq = lift(q, unit);
    let at_p = place(p, unit);
    let at_q = place(q, unit);
    assert(p.x * unit == at_p.0 * p.z@ && p.y * unit == at_p.1 * p.z@) by (nonlinear_arith)
        requires
            sp * p.z@ == unit,
            at_p.0 == p.x * sp,
            at_p.1 == p.y * sp,
    ;
    assert(q.x * unit == at_q.0 * q.z@ && q.y * unit == at_q.1 * q.z@) by (nonlinear_arith)
        requires
            sq * q.z@ == unit,
            at_q.0 == q.x * sq,
            at_q.1 == q.y * sq,
    ;
    let px = reduced(p.x as int, p.z@);
    let py = reduced(p.y as int, p.z@);
    let qx = reduced(q.x as int, q.z@);
    let qy = reduced(q.y as int, q.z@);
    lemma_reduced_denotes(p.x as int, p.z@, at_p.0, unit);
    lemma_reduced_denotes(p.y as int, p.z@, at_p.1, unit);
    lemma_reduced_denotes(q.x as int, q.z@, at_q.0, unit);
    lemma_reduced_denotes(q.y as int, q.z@, at_q.1, unit);
    lemma_product_denotes(px, qy, at_p.0, at_q.1, unit, unit);
    lemma_product_denotes(qx, py, at_q.0, at_p.1, unit, unit);
    lemma_sum_denotes(
        ratio_product(px, qy),
        ratio_product(qx, py),
        at_p.0 * at_q.1,
        at_q.0 * at_p.1,
        unit * unit,
    );
    assert(at_q.0 * at_p.1 == at_p.1 * at_q.0) by (nonlinear_arith);
}

/// Twice the area that the first `k` edges of the polygon sweep, seen from
/// the origin, in units: the sum of the cross products of the places.
pub open spec fn twice_area(points: Seq<Point>, unit: int, k: nat) -> int
    decreases k,
{
    if k == 0 {
        0
    } else {
        twice_area(points, unit, (k - 1) as nat) + cross_of(
            place(vertex_before(points, k - 1), unit),
            place(points[k - 1], unit),
        )
    }
}

/// The sum of the shoelace terms is the sum of the cross products of the
/// places, over the square of the unit.
pub proof fn lemma_shoelace_denotes(points: Seq<Point>, unit: int, k: nat)
    requires
        measured(points, unit),
        points.len() >= 1,
        k <= points.len(),
    ensures
        denotes(shoelace(points, k), twice_area(points, unit, k), unit * unit),
    decreases k,
{
    assert(measures(points[0], unit));
    assert(unit * unit > 0) by (nonlinear_arith)
        requires
            unit > 0,
    ;
    if k > 0 {
        let before = vertex_before(points, k - 1);
        let here = points[k - 1];
        assert(measures(here, unit));
        assert(measures(points[points.len() - 1], unit));
        if k > 1 {
            assert(measures(points[k - 2], unit));
        }
        lemma_shoelace_denotes(points, unit, (k - 1) as nat);
        lemma_term_denotes(before, here, unit);
        lemma_sum_denotes(
            shoelace(points, (k - 1) as nat),
            shoelace_term(before, here),
            twice_area(points, unit, (k - 1) as nat),
            cross_of(place(before, unit), place(here, unit)),
            unit * unit,
        );
        assert(shoelace(points, k) == ratio_sum(
            shoelace(points, (k - 1) as nat),
            shoelace_term(before, here),
        ));
        assert(twice_area(points, unit, k) == twice_area(points, unit, (k - 1) as nat) + cross_of(
            place(before, unit),
            place(here, unit),
        ));
        assert(denotes(shoelace(points, k), twice_area(points, unit, k), unit * unit));
    } else {
        let uu = unit * unit;
        assert(shoelace(points, k) == (0int, 1int));
        assert(twice_area(points, unit, k) == 0);
        assert(0 * uu == 0 * 1) by (nonlinear_arith);
        assert(denotes((0int, 1int), 0, uu));
    }
}

/// The signed area is positive where the sum of the cross products of the
/// places is.
pub proof fn lemma_area_sign(points: Seq<Point>, unit: int)
    requires
        measured(points, unit),
        points.len() >= 1,
    ensures
        signed_area(points).0 > 0 <==> twice_area(points, unit, points.len()) > 0,
{
    let sum = shoelace(points, points.len());
    let top = twice_area(points, unit, points.len());
    lemma_shoelace_denotes(points, unit, points.len());
    lemma_reduced(sum.0 * 1, sum.1 * 2);
    assert((sum.0 > 0) == (top > 0)) by (nonlinear_arith)
        requires
            sum.0 * (unit * unit) == top * sum.1,
            unit * unit > 0,
            sum.1 > 0,
    ;
}

/// The cross product of the vectors from the first vertex to the ends of
/// the `i`-th edge: twice the area of the triangle that the edge makes with
/// the first vertex.
pub open spec fn fan_term(points: Seq<Point>, unit: int, i: int) -> int {
    cross_of(
        vector(place(points[0], unit), place(vertex_before(points, i), unit)),
        vector(place(points[0], unit), place(points[i], unit)),
    )
}

/// The sum of the first `k` terms of the fan.
pub open spec fn fan_area(points: Seq<Point>, unit: int, k: nat) -> int
    decreases k,
{
    if k == 0 {
        0
    } else {
        fan_area(points, unit, (k - 1) as nat) + fan_term(points, unit, k - 1)
    }
}

/// The cross product of two places, seen from a third one.
proof fn lemma_seen_from(o: (int, int), p: (int, int), q: (int, int))
    ensures
        cross_of(p, q) == cross_of(vector(o, p), vector(o, q)) - cross_of(o, p) + cross_of(o, q),
{
    assert(cross_of(p, q) == cross_of(vector(o, p), vector(o, q)) - cross_of(o, p) + cross_of(
        o,
        q,
    )) by (nonlinear_arith)
        requires
            cross_of(p, q) == p.0 * q.1 - p.1 * q.0,
            cross_of(vector(o, p), vector(o, q)) == (p.0 - o.0) * (q.1 - o.1) - (p.1 - o.1) * (q.0
                - o.0),
            cross_of(o, p) == o.0 * p.1 - o.1 * p.0,
            cross_of(o, q) == o.0 * q.1 - o.1 * q.0,
    ;
}

/// The area that the edges sweep is the area of the fan, up to what the
/// first and the last of the edges leave open.
pub proof fn lemma_fan_area(points: Seq<Point>, unit: int, k: nat)
    requires
        1 <= k <= points.len(),
    ensures
        twice_area(points, unit, k) == fan_area(points, unit, k) + cross_of(
            place(points[0], unit),
            place(points[k - 1], unit),
        ) - cross_of(place(points[0], unit), place(points.last(), unit)),
    decreases k,
{
    let o = place(points[0], unit);
    let p = place(vertex_before(points, k - 1), unit);
    let q = place(points[k - 1], unit);
    lemma_seen_from(o, p, q);
    assert(twice_area(points, unit, k) == twice_area(points, unit, (k - 1) as nat) + cross_of(
        p,
        q,
    ));
    assert(fan_area(points, unit, k) == fan_area(points, unit, (k - 1) as nat) + fan_term(
        points,
        unit,
        k - 1,
    ));
    if k > 1 {
        lemma_fan_area(points, unit, (k - 1) as nat);
    } else {
        assert(twice_area(points, unit, 0) == 0);
        assert(fan_area(points, unit, 0) == 0);
    }
}

/// A fan without a negative term has no negative area, and a positive one
/// once it holds a positive term.
pub proof fn lemma_fan_area_sign(points: Seq<Point>, unit: int, k: nat, strict: int)
    requires
        k <= points.len(),
        forall|i: int| 0 <= i < points.len() ==> #[trigger] fan_term(points, unit, i) >= 0,
        0 <= strict < points.len(),
        fan_term(points, unit, strict) > 0,
    ensures
        fan_area(points, unit, k) >= 0,
        k > strict ==> fan_area(points, unit, k) > 0,
    decreases k,
{
    if k > 0 {
        lemma_fan_area_sign(points, unit, (k - 1) as nat, strict);
        assert(fan_term(points, unit, k - 1) >= 0);
    }
}

/// The lower chain of sorted points that do not coincide: it never turns
/// clockwise.
pub open spec fn lower_chain(points: Seq<Point>) -> Seq<Point> {
    chain(points, 1, points.len() as int, Orientation::Clockwise)
}

/// The upper chain of sorted points that do not coincide: it never turns
/// counter-clockwise.
pub open spec fn upper_chain(points: Seq<Point>) -> Seq<Point> {
    chain(points, 1, points.len() as int, Orientation::Counterclockwise)
}

/// A chain of strictly sorted points runs from the first point to the last,
/// rises, and never makes the turn that it avoids.
pub proof fn lemma_chain_facts(points: Seq<Point>, unit: int, bad: Orientation)
    requires
        strictly_sorted(points),
        measured(points, unit),
        points.len() >= 2,
    ensures
        chain(points, 1, points.len() as int, bad).len() >= 2,
        chain(points, 1, points.len() as int, bad)[0] == points[0],
        chain(points, 1, points.len() as int, bad).last() == points.last(),
        rises(chain(points, 1, points.len() as int, bad)),
        measured(chain(points, 1, points.len() as int, bad), unit),
        never_turns(chain(points, 1, points.len() as int, bad), bad),
{
    let n = points.len() as int;
    let this = chain(points, 1, n, bad);
    lemma_chain(points, 1, n, bad);
    lemma_chain_rises(points, 1, n, bad);
    assert forall|i: int| 0 <= i < this.len() implies measures(#[trigger] this[i], unit) by {
        assert(among(points, n, this[i]));
        let m = choose|m: int| 0 <= m < n && m < points.len() && points[m] == this[i];
        assert(measures(points[m], unit));
    }
}

/// The hull of strictly sorted points is the lower chain, followed by the
/// inner points of the upper chain from the last to the first.
pub proof fn lemma_hull_parts(points: Seq<Point>, unit: int)
    requires
        strictly_sorted(points),
        measured(points, unit),
        points.len() >= 2,
    ensures
        monotone_chain(points) == lower_chain(points) + upper_chain(points).subrange(
            1,
            upper_chain(points).len() - 1,
        ).reverse(),
{
    assert(points[0].before(points[1]));
    assert(measures(points[0], unit) && measures(points[1], unit));
    lemma_place_order(points[0], points[1], unit);
    lemma_place_order(points[1], points[0], unit);
    assert(!points[1].same_position(points[0]));
    assert(first_distinct(points, 1) == 1);
}

/// The index in the upper chain of the point that the hull holds at `i`,
/// behind the lower chain.
pub open spec fn upper_index(points: Seq<Point>, i: int) -> int {
    upper_chain(points).len() - 2 - (i - lower_chain(points).len())
}

/// The terms of the fan of the hull are the turns of the chains as seen from
/// the first point, and none is negative.
pub proof fn lemma_hull_fan_term(points: Seq<Point>, unit: int, i: int)
    requires
        strictly_sorted(points),
        measured(points, unit),
        points.len() >= 2,
        0 <= i < monotone_chain(points).len(),
    ensures
        fan_term(monotone_chain(points), unit, i) >= 0,
        2 <= i < lower_chain(points).len() ==> fan_term(monotone_chain(points), unit, i)
            == cross_of(
            spoke(lower_chain(points), unit, i - 1),
            spoke(lower_chain(points), unit, i),
        ),
        lower_chain(points).len() <= i ==> fan_term(monotone_chain(points), unit, i) == -cross_of(
            spoke(upper_chain(points), unit, upper_index(points, i)),
            spoke(upper_chain(points), unit, upper_index(points, i) + 1),
        ),
{
    let lower = lower_chain(points);
    let upper = upper_chain(points);
    let hull = monotone_chain(points);
    let a = lower.len() as int;
    let b = upper.len() as int;
    lemma_hull_parts(points, unit);
    lemma_chain_facts(points, unit, Orientation::Clockwise);
    lemma_chain_facts(points, unit, Orientation::Counterclockwise);
    let inner = upper.subrange(1, b - 1);
    assert(hull.len() == a + b - 2);
    assert forall|t: int| 0 <= t < a implies hull[t] == lower[t] by {}
    assert forall|t: int| a <= t < a + b - 2 implies hull[t] == upper[b - 2 - (t - a)] by {
        assert(hull[t] == inner.reverse()[t - a]);
        assert(inner.reverse()[t - a] == inner[inner.len() - 1 - (t - a)]);
    }
    let from = place(hull[0], unit);
    let first = vector(from, place(vertex_before(hull, i), unit));
    let second = vector(from, place(hull[i], unit));
    if i == 0 {
        assert(second == (0int, 0int));
        assert(cross_of(first, second) == 0) by (nonlinear_arith)
            requires
                second.0 == 0,
                second.1 == 0,
                cross_of(first, second) == first.0 * second.1 - first.1 * second.0,
        ;
    } else if i == 1 {
        assert(vertex_before(hull, i) == hull[0]);
        assert(first == (0int, 0int));
        assert(cross_of(first, second) == 0) by (nonlinear_arith)
            requires
                first.0 == 0,
                first.1 == 0,
                cross_of(first, second) == first.0 * second.1 - first.1 * second.0,
        ;
    } else if i < a {
        assert(vertex_before(hull, i) == lower[i - 1]);
        assert(first == spoke(lower, unit, i - 1));
        assert(second == spoke(lower, unit, i));
        lemma_fan(lower, unit, Orientation::Clockwise, i - 1);
    } else {
        let j = upper_index(points, i);
        assert(1 <= j && j + 1 < b);
        assert(hull[i] == upper[j]);
        assert(vertex_before(hull, i) == hull[i - 1]);
        if i == a {
            assert(hull[i - 1] == lower[a - 1]);
            assert(lower[a - 1] == upper[b - 1]);
        } else {
            assert(hull[i - 1] == upper[b - 2 - (i - 1 - a)]);
        }
        assert(vertex_before(hull, i) == upper[j + 1]);
        assert(hull[0] == upper[0]);
        assert(first == spoke(upper, unit, j + 1));
        assert(second == spoke(upper, unit, j));
        lemma_fan(upper, unit, Orientation::Counterclockwise, j);
        assert(cross_of(first, second) == -cross_of(second, first)) by (nonlinear_arith)
            requires
                cross_of(first, second) == first.0 * second.1 - first.1 * second.0,
                cross_of(second, first) == second.0 * first.1 - second.1 * first.0,
        ;
    }
}

/// Whether no two of the points coincide.
pub open spec fn apart(points: Seq<Point>) -> bool {
    forall|i: int, j: int| 0 <= i < j < points.len() ==> !points[i].same_position(points[j])
}

/// The hull of strictly sorted points that do not all lie on one line has a
/// positive area.
pub proof fn lemma_sorted_hull_area_positive(points: Seq<Point>, a: Point, b: Point, c: Point)
    requires
        strictly_sorted(points),
        forall|i: int| 0 <= i < points.len() ==> (#[trigger] points[i]).wf(),
        points.contains(a),
        points.contains(b),
        points.contains(c),
        orientation(a, b, c) != Orientation::Collinear,
    ensures
        signed_area(monotone_chain(points)).0 > 0,
{
    let unit = common_unit(points);
    lemma_common_unit(points);
    assert(measured(points, unit));
    let n = points.len() as int;
    let ia = choose|i: int| 0 <= i < points.len() && points[i] == a;
    let ib = choose|i: int| 0 <= i < points.len() && points[i] == b;
    let ic = choose|i: int| 0 <= i < points.len() && points[i] == c;
    assert(measures(points[ia], unit) && measures(points[ib], unit) && measures(points[ic], unit));
    lemma_place_turn(a, b, c, unit);
    let turn = cross_of(
        vector(place(a, unit), place(b, unit)),
        vector(place(a, unit), place(c, unit)),
    );
    assert(turn != 0);
    if n < 2 {
        let v = vector(place(a, unit), place(a, unit));
        assert(cross_of(v, v) == 0) by (nonlinear_arith)
            requires
                cross_of(v, v) == v.0 * v.1 - v.1 * v.0,
        ;
        assert(false);
    }
    let lower = lower_chain(points);
    let upper = upper_chain(points);
    let hull = monotone_chain(points);
    lemma_hull_parts(points, unit);
    lemma_chain_facts(points, unit, Orientation::Clockwise);
    lemma_chain_facts(points, unit, Orientation::Counterclockwise);
    let from = place(points[0], unit);
    let along = vector(from, place(points[n - 1], unit));
    assert(points[0].before(points[n - 1]));
    assert(measures(points[0], unit) && measures(points[n - 1], unit));
    lemma_place_order(points[0], points[n - 1], unit);
    // One of the three points lies off the line through the first and the
    // last point.
    let m = if height(along, from, unit, a) != 0 {
        ia
    } else if height(along, from, unit, b) != 0 {
        ib
    } else {
        ic
    };
    if height(along, from, unit, points[m]) == 0 {
        lemma_on_one_line(place(a, unit), place(b, unit), place(c, unit), along, from);
        assert(false);
    }
    let off = height(along, from, unit, points[m]);
    let bad = if off > 0 {
        Orientation::Counterclockwise
    } else {
        Orientation::Clockwise
    };
    let side = chain(points, 1, n, bad);
    lemma_chain_outdoes(points, 1, n, bad, along, from, unit, m);
    let k = choose|k: int|
        0 <= k < side.len() && reaches(
            bad,
            height(along, from, unit, #[trigger] side[k]),
            height(along, from, unit, points[m]),
        );
    assert(spoke(side, unit, side.len() - 1) == along);
    assert(place(side[0], unit) == from);
    lemma_chain_not_flat(side, unit, k);
    let j = choose|j: int|
        1 <= j && j + 1 < side.len() && cross_of(
            #[trigger] spoke(side, unit, j),
            spoke(side, unit, j + 1),
        ) != 0;
    lemma_fan(side, unit, bad, j);
    let strict = if off > 0 {
        lower.len() + (upper.len() - 2 - j)
    } else {
        j + 1
    };
    assert(hull.len() == lower.len() + upper.len() - 2);
    assert(0 <= strict < hull.len());
    lemma_hull_fan_term(points, unit, strict);
    if off > 0 {
        assert(upper_index(points, strict) == j);
    }
    assert(fan_term(hull, unit, strict) > 0);
    assert forall|i: int| 0 <= i < hull.len() implies #[trigger] fan_term(hull, unit, i) >= 0 by {
        lemma_hull_fan_term(points, unit, i);
    }
    lemma_fan_area_sign(hull, unit, hull.len(), strict);
    lemma_fan_area(hull, unit, hull.len());
    assert forall|i: int| 0 <= i < hull.len() implies measures(#[trigger] hull[i], unit) by {
        if i < lower.len() {
            assert(hull[i] == lower[i]);
        } else {
            let inner = upper.subrange(1, upper.len() - 1);
            assert(hull[i] == inner.reverse()[i - lower.len()]);
            assert(inner.reverse()[i - lower.len()] == inner[inner.len() - 1 - (i - lower.len())]);
            assert(hull[i] == upper[upper.len() - 2 - (i - lower.len())]);
        }
    }
    lemma_area_sign(hull, unit);
}

/// The convex hull of points of which no two coincide, and which do not all
/// lie on one line, has a positive area: it runs counter-clockwise.
pub proof fn lemma_hull_area_positive(
    points: Seq<Point>,
    order: Seq<Point>,
    hull: Seq<Point>,
    a: Point,
    b: Point,
    c: Point,
)
    requires
        forall|i: int| 0 <= i < points.len() ==> (#[trigger] points[i]).wf(),
        apart(points),
        is_hull_of(hull, points, order),
        points.contains(a),
        points.contains(b),
        points.contains(c),
        orientation(a, b, c) != Orientation::Collinear,
    ensures
        signed_area(hull).0 > 0,
{
    assert forall|x: Point| order.contains(x) == points.contains(x) by {
        to_multiset_contains(order, x);
        to_multiset_contains(points, x);
    }
    assert(points.no_duplicates()) by {
        assert forall|i: int, j: int|
            0 <= i < points.len() && 0 <= j < points.len() && i != j implies points[i]
            != points[j] by {
            if points[i] == points[j] {
                assert(points[i].same_position(points[j]));
                assert(points[j].same_position(points[i]));
            }
        }
    }
    points.lemma_multiset_has_no_duplicates();
    order.lemma_multiset_has_no_duplicates_conv();
    assert forall|i: int| 0 <= i < order.len() implies (#[trigger] order[i]).wf() by {
        assert(order.contains(order[i]));
        assert(points.contains(order[i]));
        let k = choose|k: int| 0 <= k < points.len() && points[k] == order[i];
        assert(points[k].wf());
    }
    assert forall|i: int, j: int| 0 <= i < j < order.len() implies order[i].before(order[j]) by {
        assert(order.contains(order[i]) && order.contains(order[j]));
        assert(points.contains(order[i]) && points.contains(order[j]));
        let k = choose|k: int| 0 <= k < points.len() && points[k] == order[i];
        let l = choose|l: int| 0 <= l < points.len() && points[l] == order[j];
        assert(order[i] != order[j]);
        assert(k != l);
        assert(!order[j].before(order[i]));
        lemma_order_of_points(order[i], order[j], order[i]);
        if k < l {
            assert(!points[k].same_position(points[l]));
        } else {
            assert(!points[l].same_position(points[k]));
        }
    }
    lemma_sorted_hull_area_positive(order, a, b, c);
}

} // verus!
