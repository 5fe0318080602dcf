//! Laws that relate the operations on points and lines.
use crate::geometry::coordinate::{
    all_fit, euclid_fold, lemma_euclid_fold_magnitude, lemma_gcd_fold,
    lemma_normal_form_idempotent, normal_form, normal_scale, scaled,
};
use vstd::math::abs;
use crate::math::arith::lemma_exact_signed_division;
use crate::math::numtraits::NonZeroI64;
use crate::geometry::hull::orientable;
use crate::geometry::primitive::{
    cross, orientation, orientation_defined, Line, Orientation, Point, Segment,
};
use crate::math::arith::fits_i64;
use vstd::arithmetic::mul::{
    lemma_mul_is_associative, lemma_mul_is_commutative, lemma_mul_is_distributive_add,
    lemma_mul_is_distributive_sub, lemma_mul_is_distributive_sub_other_way,
};
use vstd::prelude::*;

verus! {

/// Normalising is idempotent: the normal form of a point is a point in
/// normal form, so normalising it again changes nothing.
pub proof fn lemma_normalized_idempotent(p: Point)
    requires
        p.wf(),
        Point::representable(p.x as int, p.y as int, p.z@),
    ensures
        ({
            let n = Point::normal_of(p.x as int, p.y as int, p.z@);
            &&& Point::representable(n.x as int, n.y as int, n.z@)
            &&& Point::normal_of(n.x as int, n.y as int, n.z@) == n
            &&& n.wf()
        }),
{
    NonZeroI64::lemma_view_injective(p.z, p.z);
    let values = seq![p.x as int, p.y as int];
    let form = normal_form(values, p.z@);
    let n = Point::normal_of(p.x as int, p.y as int, p.z@);
    lemma_normal_form_idempotent(values, p.z@);
    assert(all_fit(form.0));
    assert(n.x == form.0[0] && n.y == form.0[1]);
    NonZeroI64::lemma_spec_new_view(form.1);
    NonZeroI64::lemma_view_injective(n.z, n.z);
    assert(seq![n.x as int, n.y as int] =~= form.0);
}

/// A common factor of three products can be drawn out of their sum.
proof fn lemma_scaled_sum(d: int, a: int, b: int, c: int, x: int, y: int, z: int)
    ensures
        d * (a * x + b * y + c * z) == (d * a) * x + (d * b) * y + (d * c) * z,
{
    lemma_mul_is_distributive_add(d, a * x + b * y, c * z);
    lemma_mul_is_distributive_add(d, a * x, b * y);
    lemma_mul_is_associative(d, a, x);
    lemma_mul_is_associative(d, b, y);
    lemma_mul_is_associative(d, c, z);
}

/// The line spanned by two distinct points passes through both of them.
pub proof fn lemma_spanned_line_passes_through(p1: Point, p2: Point)
    requires
        p1.wf(),
        p2.wf(),
        Line::spannable(p1, p2),
    ensures
        Line::through(p1, p2).passes_through(p1),
        Line::through(p1, p2).passes_through(p2),
{
    let span = Line::span(p1, p2);
    let d = euclid_fold(span);
    lemma_euclid_fold_magnitude(span);
    lemma_gcd_fold(0, span);
    assert(span[0] != 0 || span[1] != 0) by {
        if span[0] == 0 && span[1] == 0 {
            assert(p1.same_position(p2));
        }
    }
    assert(d != 0);
    let line = Line::through(p1, p2);
    let co = scaled(span, d);
    lemma_exact_signed_division(span[0], d);
    lemma_exact_signed_division(span[1], d);
    lemma_exact_signed_division(span[2], d);
    assert(line.a == co[0] && line.b == co[1] && line.c == co[2]);
    let (a, b, c) = (line.a as int, line.b as int, line.c as int);
    let (x1, y1, z1) = (p1.x as int, p1.y as int, p1.z@);
    let (x2, y2, z2) = (p2.x as int, p2.y as int, p2.z@);
    assert((z2 * y1 - z1 * y2) * x1 + (z1 * x2 - z2 * x1) * y1 + (x1 * y2 - x2 * y1) * z1 == 0)
        by (nonlinear_arith);
    assert((z2 * y1 - z1 * y2) * x2 + (z1 * x2 - z2 * x1) * y2 + (x1 * y2 - x2 * y1) * z2 == 0)
        by (nonlinear_arith);
    lemma_scaled_sum(d, a, b, c, x1, y1, z1);
    lemma_scaled_sum(d, a, b, c, x2, y2, z2);
    assert(a * x1 + b * y1 + c * z1 == 0) by (nonlinear_arith)
        requires
            d != 0,
            d * (a * x1 + b * y1 + c * z1) == 0,
    ;
    assert(a * x2 + b * y2 + c * z2 == 0) by (nonlinear_arith)
        requires
            d != 0,
            d * (a * x2 + b * y2 + c * z2) == 0,
    ;
}

/// A product is zero only if a factor is.
proof fn lemma_zero_product(a: int, b: int, c: int)
    requires
        a * (b * c) == 0,
        a != 0,
        b != 0,
    ensures
        c == 0,
{
    assert(c == 0) by (nonlinear_arith)
        requires
            a * (b * c) == 0,
            a != 0,
            b != 0,
    ;
}

/// The weighted difference of two coordinates, after the base point is
/// taken from both, does not depend on the base point.
proof fn lemma_shear(v0: int, v1: int, y0: int, z0: int, w0: int, w1: int)
    ensures
        (v1 * z0 - y0 * w1) * w0 - (v0 * z0 - y0 * w0) * w1 == z0 * (v1 * w0 - v0 * w1),
{
    lemma_mul_is_distributive_sub_other_way(w0, v1 * z0, y0 * w1);
    lemma_mul_is_distributive_sub_other_way(w1, v0 * z0, y0 * w0);
    lemma_mul_is_commutative(v1, z0);
    lemma_mul_is_commutative(v0, z0);
    lemma_mul_is_associative(z0, v1, w0);
    lemma_mul_is_associative(z0, v0, w1);
    lemma_mul_is_associative(y0, w1, w0);
    lemma_mul_is_associative(y0, w0, w1);
    lemma_mul_is_commutative(w1, w0);
    lemma_mul_is_distributive_sub(z0, v1 * w0, v0 * w1);
}

/// The difference of two weighted differences of products, regrouped.
proof fn lemma_weighted_difference(
    a: int,
    b: int,
    e0: int,
    e1: int,
    f0: int,
    f1: int,
    w0: int,
    w1: int,
)
    ensures
        (a * e1 - f1 * b) * w0 - (a * e0 - f0 * b) * w1 == a * (e1 * w0 - e0 * w1) - b * (f1 * w0
            - f0 * w1),
{
    lemma_mul_is_distributive_sub_other_way(w0, a * e1, f1 * b);
    lemma_mul_is_distributive_sub_other_way(w1, a * e0, f0 * b);
    lemma_mul_is_associative(a, e1, w0);
    lemma_mul_is_associative(a, e0, w1);
    lemma_mul_is_commutative(f1, b);
    lemma_mul_is_commutative(f0, b);
    lemma_mul_is_associative(b, f1, w0);
    lemma_mul_is_associative(b, f0, w1);
    lemma_mul_is_distributive_sub(a, e1 * w0, e0 * w1);
    lemma_mul_is_distributive_sub(b, f1 * w0, f0 * w1);
}

/// The differences of the cross products of two points with a segment,
/// weighted by the divisors of the points, in terms of the differences of
/// the coordinates of the points.
proof fn lemma_cross_difference(s0: Point, s1: Point, p: Point, q: Point)
    ensures
        cross(s0, s1, q) * p.z@ - cross(s0, s1, p) * q.z@ == s0.z@ * ((s1.x * s0.z@ - s0.x * s1.z@)
            * (q.y * p.z@ - p.y * q.z@) - (s1.y * s0.z@ - s0.y * s1.z@) * (q.x * p.z@ - p.x
            * q.z@)),
{
    let (x0, y0, z0) = (s0.x as int, s0.y as int, s0.z@);
    let (x1, y1, z1) = (s1.x as int, s1.y as int, s1.z@);
    let (u0, v0, w0) = (p.x as int, p.y as int, p.z@);
    let (u1, v1, w1) = (q.x as int, q.y as int, q.z@);
    let a = x1 * z0 - x0 * z1;
    let b = y1 * z0 - y0 * z1;
    let e0 = v0 * z0 - y0 * w0;
    let e1 = v1 * z0 - y0 * w1;
    let f0 = u0 * z0 - x0 * w0;
    let f1 = u1 * z0 - x0 * w1;
    let dy = v1 * w0 - v0 * w1;
    let dx = u1 * w0 - u0 * w1;
    lemma_shear(v0, v1, y0, z0, w0, w1);
    lemma_shear(u0, u1, x0, z0, w0, w1);
    lemma_weighted_difference(a, b, e0, e1, f0, f1, w0, w1);
    lemma_mul_is_associative(a, z0, dy);
    lemma_mul_is_associative(z0, a, dy);
    lemma_mul_is_associative(b, z0, dx);
    lemma_mul_is_associative(z0, b, dx);
    lemma_mul_is_commutative(a, z0);
    lemma_mul_is_commutative(b, z0);
    lemma_mul_is_distributive_sub(z0, a * dy, b * dx);
    assert(cross(s0, s1, q) == a * e1 - f1 * b);
    assert(cross(s0, s1, p) == a * e0 - f0 * b);
}

/// Two segments of one line that are not points differ along the same axis:
/// where the endpoints of one differ, so do the endpoints of the other. So
/// the overlap of two such segments is never empty for want of an order.
pub proof fn lemma_collinear_segments_spread(this: Segment, other: Segment, on_x: bool)
    requires
        this.0.wf(),
        this.1.wf(),
        other.0.wf(),
        other.1.wf(),
        other.wf(),
        this.is_collinear_with(other),
        this.spreads(on_x),
    ensures
        other.spreads(on_x),
{
    let (s0, s1, p, q) = (this.0, this.1, other.0, other.1);
    NonZeroI64::lemma_view_injective(s0.z, s0.z);
    NonZeroI64::lemma_view_injective(s1.z, s1.z);
    NonZeroI64::lemma_view_injective(p.z, p.z);
    NonZeroI64::lemma_view_injective(q.z, q.z);
    lemma_cross_difference(s0, s1, p, q);
    let z0 = s0.z@;
    let a = s1.x * z0 - s0.x * s1.z@;
    let b = s1.y * z0 - s0.y * s1.z@;
    let dx = q.x * p.z@ - p.x * q.z@;
    let dy = q.y * p.z@ - p.y * q.z@;
    assert(cross(s0, s1, p) == 0 && cross(s0, s1, q) == 0);
    assert(z0 * (a * dy - b * dx) == 0);
    if !other.spreads(on_x) {
        if on_x {
            // The endpoints of `other` have one `x`: then they have one `y`.
            assert(dx == 0);
            assert(a != 0);
            assert(z0 * (a * dy) == 0) by (nonlinear_arith)
                requires
                    z0 * (a * dy - b * dx) == 0,
                    dx == 0,
            ;
            lemma_zero_product(z0, a, dy);
        } else {
            assert(dy == 0);
            assert(b != 0);
            assert(z0 * (b * dx) == 0) by (nonlinear_arith)
                requires
                    z0 * (a * dy - b * dx) == 0,
                    dy == 0,
            ;
            lemma_zero_product(z0, b, dx);
        }
        assert(p.same_position(q)) by (nonlinear_arith)
            requires
                q.x * p.z@ - p.x * q.z@ == 0,
                q.y * p.z@ - p.y * q.z@ == 0,
        ;
    }
}

/// If the lines through two segments do not cross in one point, the
/// endpoints of the second segment lie on one side of the first, or both on
/// its line.
pub proof fn lemma_parallel_lines_do_not_straddle(this: Segment, other: Segment)
    requires
        this.0.wf(),
        this.1.wf(),
        other.0.wf(),
        other.1.wf(),
        Line::spannable(this.0, this.1),
        Line::spannable(other.0, other.1),
        Line::through(this.0, this.1).meet(Line::through(other.0, other.1)).2 == 0,
    ensures
        orientation(this.0, this.1, other.0) == orientation(this.0, this.1, other.1),
{
    let (s0, s1, p, q) = (this.0, this.1, other.0, other.1);
    NonZeroI64::lemma_view_injective(s0.z, s0.z);
    NonZeroI64::lemma_view_injective(s1.z, s1.z);
    NonZeroI64::lemma_view_injective(p.z, p.z);
    NonZeroI64::lemma_view_injective(q.z, q.z);
    lemma_cross_difference(s0, s1, p, q);
    let z0 = s0.z@;
    let a = s1.x * z0 - s0.x * s1.z@;
    let b = s1.y * z0 - s0.y * s1.z@;
    let dx = q.x * p.z@ - p.x * q.z@;
    let dy = q.y * p.z@ - p.y * q.z@;
    // The coefficients of the two lines, before and after they are reduced.
    let span1 = Line::span(s0, s1);
    let span2 = Line::span(p, q);
    let d1 = euclid_fold(span1);
    let d2 = euclid_fold(span2);
    lemma_euclid_fold_magnitude(span1);
    lemma_gcd_fold(0, span1);
    lemma_euclid_fold_magnitude(span2);
    lemma_gcd_fold(0, span2);
    assert(span1[0] != 0 || span1[1] != 0) by {
        if span1[0] == 0 && span1[1] == 0 {
            assert(s0.same_position(s1));
        }
    }
    assert(span2[0] != 0 || span2[1] != 0) by {
        if span2[0] == 0 && span2[1] == 0 {
            assert(p.same_position(q));
        }
    }
    lemma_exact_signed_division(span1[0], d1);
    lemma_exact_signed_division(span1[1], d1);
    lemma_exact_signed_division(span2[0], d2);
    lemma_exact_signed_division(span2[1], d2);
    let l1 = Line::through(s0, s1);
    let l2 = Line::through(p, q);
    let (a1, b1) = (l1.a as int, l1.b as int);
    let (a2, b2) = (l2.a as int, l2.b as int);
    assert(a1 == scaled(span1, d1)[0] && b1 == scaled(span1, d1)[1]);
    assert(a2 == scaled(span2, d2)[0] && b2 == scaled(span2, d2)[1]);
    assert(span1[0] == -b && span1[1] == a) by (nonlinear_arith)
        requires
            span1[0] == s1.z@ * s0.y - s0.z@ * s1.y,
            span1[1] == s0.z@ * s1.x - s1.z@ * s0.x,
            a == s1.x * z0 - s0.x * s1.z@,
            b == s1.y * z0 - s0.y * s1.z@,
            z0 == s0.z@,
    ;
    assert(span2[0] == -dy && span2[1] == dx) by (nonlinear_arith)
        requires
            span2[0] == q.z@ * p.y - p.z@ * q.y,
            span2[1] == p.z@ * q.x - q.z@ * p.x,
            dx == q.x * p.z@ - p.x * q.z@,
            dy == q.y * p.z@ - p.y * q.z@,
    ;
    assert(a * dy - b * dx == 0) by (nonlinear_arith)
        requires
            a1 * b2 - a2 * b1 == 0,
            -b == d1 * a1,
            a == d1 * b1,
            -dy == d2 * a2,
            dx == d2 * b2,
    ;
    let c0 = cross(s0, s1, p);
    let c1 = cross(s0, s1, q);
    assert(c1 * p.z@ == c0 * q.z@) by (nonlinear_arith)
        requires
            c1 * p.z@ - c0 * q.z@ == z0 * (a * dy - b * dx),
            a * dy - b * dx == 0,
    ;
    assert((c0 == 0 <==> c1 == 0) && ((p.z@ > 0) == (q.z@ > 0) ==> (c0 > 0) == (c1 > 0)) && ((p.z@
        > 0) != (q.z@ > 0) ==> (c0 > 0) == (c1 < 0))) by (nonlinear_arith)
        requires
            c1 * p.z@ == c0 * q.z@,
            p.z@ != 0,
            q.z@ != 0,
    ;
}

/// Two proper segments that are not on one line, and of which neither lies
/// strictly on one side of the other, cross where their lines do: in one
/// point.
pub proof fn lemma_crossing_segments_meet(this: Segment, other: Segment)
    requires
        this.0.wf(),
        this.1.wf(),
        other.0.wf(),
        other.1.wf(),
        Line::spannable(this.0, this.1),
        Line::spannable(other.0, other.1),
        !this.has_on_one_side(other),
        !this.is_collinear_with(other),
    ensures
        this.crossing(other) is Point,
        Line::through(this.0, this.1).intersection(Line::through(other.0, other.1)) is Point,
{
    let l1 = Line::through(this.0, this.1);
    let l2 = Line::through(other.0, other.1);
    if l1.meet(l2).2 == 0 {
        lemma_parallel_lines_do_not_straddle(this, other);
        let o = orientation(this.0, this.1, other.0);
        assert(o == Orientation::Clockwise || o == Orientation::Collinear || o
            == Orientation::Counterclockwise);
    }
}

/// A point in normal form lies on a line if the raw triple that it was
/// reduced from satisfies the equation of the line.
proof fn lemma_normal_point_on_line(line: Line, x: int, y: int, z: int)
    requires
        z != 0,
        Point::representable(x, y, z),
        line.a * x + line.b * y + line.c * z == 0,
    ensures
        line.passes_through(Point::normal_of(x, y, z)),
{
    let values = seq![x, y];
    let s = normal_scale(values, z);
    let form = normal_form(values, z);
    lemma_gcd_fold(abs(z), values);
    assert(abs(values[0]) % abs(s) == 0 && abs(values[1]) % abs(s) == 0);
    lemma_exact_signed_division(x, s);
    lemma_exact_signed_division(y, s);
    lemma_exact_signed_division(z, s);
    let p = Point::normal_of(x, y, z);
    assert(fits_i64(form.0[0]) && fits_i64(form.0[1]));
    NonZeroI64::lemma_spec_new_view(form.1);
    assert(p.x == x / s && p.y == y / s && p.z@ == z / s);
    let (a, b, c) = (line.a as int, line.b as int, line.c as int);
    lemma_scaled_sum(s, a, b, c, x / s, y / s, z / s);
    lemma_mul_is_commutative(s, a);
    lemma_mul_is_commutative(s, b);
    lemma_mul_is_commutative(s, c);
    lemma_mul_is_associative(a, s, x / s);
    lemma_mul_is_associative(b, s, y / s);
    lemma_mul_is_associative(c, s, z / s);
    assert(s * (a * (x / s) + b * (y / s) + c * (z / s)) == 0);
    assert(a * (x / s) + b * (y / s) + c * (z / s) == 0) by (nonlinear_arith)
        requires
            s != 0,
            s * (a * (x / s) + b * (y / s) + c * (z / s)) == 0,
    ;
}

/// The point in which two lines cross lies on both of them.
pub proof fn lemma_intersection_on_both_lines(l1: Line, l2: Line)
    requires
        l1.meetable(l2),
        l1.meet(l2).2 != 0,
    ensures
        l1.intersection(l2) matches crate::geometry::primitive::LineIntersection::Point(p)
            && l1.passes_through(p) && l2.passes_through(p),
{
    let (a1, b1, c1) = (l1.a as int, l1.b as int, l1.c as int);
    let (a2, b2, c2) = (l2.a as int, l2.b as int, l2.c as int);
    let m = l1.meet(l2);
    assert(a1 * (c2 * b1 - c1 * b2) + b1 * (c1 * a2 - c2 * a1) + c1 * (a1 * b2 - a2 * b1) == 0)
        by (nonlinear_arith);
    assert(a2 * (c2 * b1 - c1 * b2) + b2 * (c1 * a2 - c2 * a1) + c2 * (a1 * b2 - a2 * b1) == 0)
        by (nonlinear_arith);
    lemma_normal_point_on_line(l1, m.0, m.1, m.2);
    lemma_normal_point_on_line(l2, m.0, m.1, m.2);
}

/// The point of a line that is closest to a point with the divisor one lies
/// on the line.
pub proof fn lemma_closest_point_on_line(line: Line, p: Point)
    requires
        line.projectable(p),
        p.z@ == 1,
    ensures
        line.passes_through(
            Point::normal_of(line.foot(p).0, line.foot(p).1, line.foot(p).2),
        ),
{
    let (a, b, c) = (line.a as int, line.b as int, line.c as int);
    let (x, y) = (p.x as int, p.y as int);
    let d = b * x - a * y;
    let q = a * a + b * b;
    assert(q != 0) by (nonlinear_arith)
        requires
            q == a * a + b * b,
            a != 0 || b != 0,
    ;
    assert(a * (a * y - b * x) == -(a * d)) by (nonlinear_arith)
        requires
            d == b * x - a * y,
    ;
    assert(a * (b * d - a * c) + b * (-(a * d) - b * c) + c * (q * 1) == 0) by (nonlinear_arith)
        requires
            q == a * a + b * b,
    ;
    lemma_normal_point_on_line(line, line.foot(p).0, line.foot(p).1, line.foot(p).2);
}

/// Whether the raw fields of the point are at most `limit` in magnitude.
pub open spec fn within(p: Point, limit: int) -> bool {
    &&& -limit <= p.x <= limit
    &&& -limit <= p.y <= limit
    &&& -limit <= p.z@ <= limit
}

/// The product of two numbers of bounded magnitude is bounded by the
/// product of the bounds.
proof fn lemma_bounded_product(a: int, b: int, m: int, n: int)
    requires
        -m <= a <= m,
        -n <= b <= n,
    ensures
        -(m * n) <= a * b <= m * n,
{
    assert(-(m * n) <= a * b <= m * n) by (nonlinear_arith)
        requires
            -m <= a <= m,
            -n <= b <= n,
    ;
}

/// The turn of three points whose raw fields have at most thirty bits can
/// be computed.
pub proof fn lemma_orientation_defined(p0: Point, p1: Point, p2: Point)
    requires
        within(p0, 0x4000_0000),
        within(p1, 0x4000_0000),
        within(p2, 0x4000_0000),
    ensures
        orientation_defined(p0, p1, p2),
{
    let m = 0x4000_0000int;
    lemma_bounded_product(p1.x as int, p0.z@, m, m);
    lemma_bounded_product(p0.x as int, p1.z@, m, m);
    lemma_bounded_product(p1.y as int, p0.z@, m, m);
    lemma_bounded_product(p0.y as int, p1.z@, m, m);
    lemma_bounded_product(p2.x as int, p0.z@, m, m);
    lemma_bounded_product(p0.x as int, p2.z@, m, m);
    lemma_bounded_product(p2.y as int, p0.z@, m, m);
    lemma_bounded_product(p0.y as int, p2.z@, m, m);
    let dx1 = p1.x * p0.z@ - p0.x * p1.z@;
    let dy1 = p1.y * p0.z@ - p0.y * p1.z@;
    let dx2 = p2.x * p0.z@ - p0.x * p2.z@;
    let dy2 = p2.y * p0.z@ - p0.y * p2.z@;
    let d = 2 * (m * m);
    assert(m * m == 0x1000_0000_0000_0000) by (nonlinear_arith)
        requires
            m == 0x4000_0000,
    ;
    lemma_bounded_product(dx1, dy2, d, d);
    lemma_bounded_product(dx2, dy1, d, d);
    assert(d * d == 0x400_0000_0000_0000_0000_0000_0000_0000) by (nonlinear_arith)
        requires
            d == 0x2000_0000_0000_0000,
    ;
}

/// The turn of every three of a set of points whose raw fields have at most
/// thirty bits can be computed.
pub proof fn lemma_orientable(points: Seq<Point>)
    requires
        forall|i: int| 0 <= i < points.len() ==> within(#[trigger] points[i], 0x4000_0000),
    ensures
        orientable(points),
{
    assert forall|a: Point, b: Point, c: Point|
        points.contains(a) && points.contains(b) && points.contains(
            c,
        ) implies #[trigger] orientation_defined(a, b, c) by {
        lemma_orientation_defined(a, b, c);
    }
}

/// The line through two distinct points whose raw fields have at most thirty
/// bits can be formed.
pub proof fn lemma_spannable(p1: Point, p2: Point)
    requires
        within(p1, 0x4000_0000),
        within(p2, 0x4000_0000),
        !p1.same_position(p2),
    ensures
        Line::spannable(p1, p2),
{
    let m = 0x4000_0000int;
    lemma_bounded_product(p2.z@, p1.y as int, m, m);
    lemma_bounded_product(p1.z@, p2.y as int, m, m);
    lemma_bounded_product(p1.z@, p2.x as int, m, m);
    lemma_bounded_product(p2.z@, p1.x as int, m, m);
    lemma_bounded_product(p1.x as int, p2.y as int, m, m);
    lemma_bounded_product(p2.x as int, p1.y as int, m, m);
    assert(m * m == 0x1000_0000_0000_0000) by (nonlinear_arith)
        requires
            m == 0x4000_0000,
    ;
    let span = Line::span(p1, p2);
    let d = euclid_fold(span);
    lemma_euclid_fold_magnitude(span);
    lemma_gcd_fold(0, span);
    assert(span[0] != 0 || span[1] != 0) by {
        if span[0] == 0 && span[1] == 0 {
            assert(p1.same_position(p2));
        }
    }
    assert forall|i: int| 0 <= i < span.len() implies fits_i64(#[trigger] span[i]) by {}
    assert forall|i: int| 0 <= i < span.len() implies fits_i64(#[trigger] scaled(span, d)[i]) by {
        lemma_exact_signed_division(span[i], d);
    }
}

} // verus!
