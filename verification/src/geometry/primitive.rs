//! Points, lines and segments in homogeneous integer coordinates.
//!
//! Overflow policy: products are formed in 128 bits, so that no product of
//! two stored values can overflow; a function whose result must be stored in
//! 64 bits asks in its `requires` that it fits, and never wraps.
use crate::geometry::coordinate::{
    all_fit, as_ints, can_reduce, euclid_fold, lemma_euclid_fold_magnitude, lemma_gcd_fold,
    normal_form, normalizable, normalize, normalize_with_divisor, reducible, scaled,
    to_coordinates, try_normalize,
};
use crate::math::arith::{fits_i64, reduced};
use crate::math::numtraits::NonZeroI64;
use crate::math::quot::{
    fits_pair, lemma_square_range, ratio_difference, ratio_product, ratio_sum, representable, Quot,
};
use vstd::prelude::*;
use vstd::std_specs::cmp::PartialEqSpecImpl;
use vstd::std_specs::convert::FromSpecImpl;

verus! {

/// Whether `v` is a value of `i128`.
pub open spec fn fits_i128(v: int) -> bool {
    i128::MIN <= v <= i128::MAX
}

/// Tests whether a wide value is a value of `i64`.
fn in_i64(v: i128) -> (r: bool)
    ensures
        r == fits_i64(v as int),
{
    i64::MIN as i128 <= v && v <= i64::MAX as i128
}

/// A point of the plane in homogeneous coordinates: the raw triple
/// `(x, y, z)` stands for the position `(x / z, y / z)`.
///
/// Several raw triples denote the same position, so points are compared by
/// cross-multiplication, never field by field.
#[derive(Clone, Copy, Debug)]
pub struct Point {
    pub x: i64,
    pub y: i64,
    pub z: NonZeroI64,
}

/// The turn that three points make.
#[derive(Debug, Clone, Copy, PartialEq, Eq, Structural, PartialOrd, Ord, Hash)]
pub enum Orientation {
    Counterclockwise,
    Collinear,
    Clockwise,
}

/// The cross product `(p1 - p0) x (p2 - p0)` of the positions, scaled by
/// `z0 * z0 * z1 * z2` to clear the denominators.
pub open spec fn cross(p0: Point, p1: Point, p2: Point) -> int {
    (p1.x * p0.z@ - p0.x * p1.z@) * (p2.y * p0.z@ - p0.y * p2.z@) - (p2.x * p0.z@ - p0.x * p2.z@)
        * (p1.y * p0.z@ - p0.y * p1.z@)
}

/// The turn from `p0` over `p1` to `p2`: the sign of the cross product
/// `(p1 - p0) x (p2 - p0)` of the positions.
pub open spec fn orientation(p0: Point, p1: Point, p2: Point) -> Orientation {
    let c = cross(p0, p1, p2);
    let s = if (p1.z@ < 0) != (p2.z@ < 0) {
        -c
    } else {
        c
    };
    if s < 0 {
        Orientation::Clockwise
    } else if s == 0 {
        Orientation::Collinear
    } else {
        Orientation::Counterclockwise
    }
}

/// Whether the cross product of the three points can be formed in 128 bits.
pub open spec fn orientation_defined(p0: Point, p1: Point, p2: Point) -> bool {
    let dx1 = p1.x * p0.z@ - p0.x * p1.z@;
    let dy1 = p1.y * p0.z@ - p0.y * p1.z@;
    let dx2 = p2.x * p0.z@ - p0.x * p2.z@;
    let dy2 = p2.y * p0.z@ - p0.y * p2.z@;
    fits_i128(dx1 * dy2) && fits_i128(dx2 * dy1) && fits_i128(dx1 * dy2 - dx2 * dy1)
}

/// Whether the ratio `n1 / d1` is below `n2 / d2`, for non-zero `d1`, `d2`.
pub open spec fn ratio_below(n1: int, d1: int, n2: int, d2: int) -> bool {
    if (d1 < 0) == (d2 < 0) {
        n1 * d2 < n2 * d1
    } else {
        n1 * d2 > n2 * d1
    }
}

impl Point {
    /// The raw fields as integers.
    pub open spec fn raw(self) -> (int, int, int) {
        (self.x as int, self.y as int, self.z@)
    }

    /// Validity of the type: the divisor is not zero.
    pub open spec fn wf(self) -> bool {
        self.z.wf()
    }

    /// The point with the given raw fields.
    pub open spec fn of(x: int, y: int, z: int) -> Point {
        Point { x: x as i64, y: y as i64, z: NonZeroI64::spec_new(z) }
    }

    /// The point whose raw fields are the normal form of `(x, y, z)`.
    pub open spec fn normal_of(x: int, y: int, z: int) -> Point {
        let form = normal_form(seq![x, y], z);
        Point::of(form.0[0], form.0[1], form.1)
    }

    /// One coordinate of the position as a ratio: `x` over `z`, or `y` over
    /// `z`.
    pub open spec fn along(self, on_x: bool) -> (int, int) {
        if on_x {
            (self.x as int, self.z@)
        } else {
            (self.y as int, self.z@)
        }
    }

    /// Whether `self` lies strictly before `other` along the chosen axis.
    pub open spec fn precedes(self, other: Point, on_x: bool) -> bool {
        ratio_below(
            self.along(on_x).0,
            self.along(on_x).1,
            other.along(on_x).0,
            other.along(on_x).1,
        )
    }

    /// Whether two points denote the same position.
    pub open spec fn same_position(self, other: Point) -> bool {
        other.z@ * self.x == self.z@ * other.x && other.z@ * self.y == self.z@ * other.y
    }

    /// The raw triple of the point in normal form.
    pub open spec fn normal(self) -> (int, int, int) {
        let form = normal_form(seq![self.x as int, self.y as int], self.z@);
        (form.0[0], form.0[1], form.1)
    }

    /// Whether the normal form of the raw triple `(x, y, z)` fits the machine.
    pub open spec fn representable(x: int, y: int, z: int) -> bool {
        normalizable(seq![x, y], z)
    }

    /// Whether `self` comes before `other` in the lexicographic order of the
    /// positions: by `x`, then by `y`.
    pub open spec fn before(self, other: Point) -> bool {
        ratio_below(self.x as int, self.z@, other.x as int, other.z@) || (!ratio_below(
            other.x as int,
            other.z@,
            self.x as int,
            self.z@,
        ) && ratio_below(self.y as int, self.z@, other.y as int, other.z@))
    }

    /// Tests whether the normal form of the raw triple fits the machine:
    /// whether [`Point::new`] and [`Point::normalized`] can be called.
    pub fn can_represent(x: i64, y: i64, z: i64) -> (r: bool)
        ensures
            r == Point::representable(x as int, y as int, z as int),
    {
        Point::try_new(x, y, z).is_some()
    }

    /// Creates a point from raw fields, in normal form.
    pub fn new(x: i64, y: i64, z: NonZeroI64) -> (r: Point)
        requires
            Point::representable(x as int, y as int, z@),
        ensures
            r == Point::normal_of(x as int, y as int, z@),
            r.raw() == (Point { x, y, z }).normal(),
            r.z@ > 0,
            r.wf(),
    {
        Point { x, y, z }.normalized()
    }

    /// Creates a point from three raw values. Returns `None` exactly when `z`
    /// cannot become a divisor: when it is zero, or when the normal form of
    /// the three values does not fit the machine.
    pub fn try_new(x: i64, y: i64, z: i64) -> (r: Option<Point>)
        ensures
            r.is_none() <==> !Point::representable(x as int, y as int, z as int),
            r matches Some(p) ==> {
                &&& p == Point::normal_of(x as int, y as int, z as int)
                &&& p.raw() == Point::of(x as int, y as int, z as int).normal()
                &&& p.z@ > 0
                &&& p.wf()
            },
    {
        let values: [i64; 2] = [x, y];
        assert(as_ints(values@) =~= seq![x as int, y as int]);
        match try_normalize(values, z) {
            Some(n) => {
                assert(as_ints(n.0@)[0] == n.0@[0] && as_ints(n.0@)[1] == n.0@[1]);
                proof {
                    NonZeroI64::lemma_view_injective(n.1, n.1);
                    NonZeroI64::lemma_spec_new_view(z as int);
                }
                Some(Point { x: n.0[0], y: n.0[1], z: n.1 })
            },
            None => None,
        }
    }

    /// Brings the point to normal form in place.
    pub fn normalize(&mut self)
        requires
            Point::representable(old(self).x as int, old(self).y as int, old(self).z@),
        ensures
            *final(self) == Point::normal_of(old(self).x as int, old(self).y as int, old(self).z@),
            final(self).raw() == old(self).normal(),
            final(self).z@ > 0,
            final(self).wf(),
    {
        *self = self.normalized();
    }

    /// The same position in normal form: no common factor, positive divisor.
    pub fn normalized(self) -> (r: Point)
        requires
            Point::representable(self.x as int, self.y as int, self.z@),
        ensures
            r == Point::normal_of(self.x as int, self.y as int, self.z@),
            r.raw() == self.normal(),
            r.z@ > 0,
            r.wf(),
    {
        let values: [i64; 2] = [self.x, self.y];
        assert(as_ints(values@) =~= seq![self.x as int, self.y as int]);
        let normalized = normalize_with_divisor((values, self.z));
        assert(as_ints(normalized.0@)[0] == normalized.0@[0] && as_ints(normalized.0@)[1]
            == normalized.0@[1]);
        proof {
            NonZeroI64::lemma_view_injective(normalized.1, normalized.1);
        }
        Point { x: normalized.0[0], y: normalized.0[1], z: normalized.1 }
    }

    /// The logical `x` coordinate.
    pub fn x(self) -> (r: Quot)
        requires
            representable(self.x as int, self.z@),
        ensures
            r@ == reduced(self.x as int, self.z@),
            r.wf(),
    {
        let values: [i64; 1] = [self.x];
        to_coordinates((values, self.z))[0]
    }

    /// The logical `y` coordinate.
    pub fn y(self) -> (r: Quot)
        requires
            representable(self.y as int, self.z@),
        ensures
            r@ == reduced(self.y as int, self.z@),
            r.wf(),
    {
        let values: [i64; 1] = [self.y];
        to_coordinates((values, self.z))[0]
    }

    /// The two differences `p.x * z0 - x0 * p.z` and `p.y * z0 - y0 * p.z`:
    /// the vector from `self` to `p`, scaled by both divisors.
    fn scaled_vector_to(self, p: Point) -> (r: (i128, i128))
        ensures
            r.0 == p.x * self.z@ - self.x * p.z@,
            r.1 == p.y * self.z@ - self.y * p.z@,
    {
        let z0 = self.z.get() as i128;
        let z = p.z.get() as i128;
        proof {
            lemma_square_range(p.x as int, z0 as int);
            lemma_square_range(self.x as int, z as int);
            lemma_square_range(p.y as int, z0 as int);
            lemma_square_range(self.y as int, z as int);
        }
        ((p.x as i128) * z0 - (self.x as i128) * z, (p.y as i128) * z0 - (self.y as i128) * z)
    }

    /// Tests whether the turn of the three points can be computed: whether
    /// [`Point::ordering`] can be called.
    pub fn can_orient(points: [Point; 3]) -> (r: bool)
        ensures
            r == orientation_defined(points@[0], points@[1], points@[2]),
    {
        let p0 = points[0];
        let (dx1, dy1) = p0.scaled_vector_to(points[1]);
        let (dx2, dy2) = p0.scaled_vector_to(points[2]);
        match (dx1.checked_mul(dy2), dx2.checked_mul(dy1)) {
            (Some(left), Some(right)) => left.checked_sub(right).is_some(),
            _ => false,
        }
    }

    /// Tells which way the path `p0`, `p1`, `p2` turns, from the sign of the
    /// cross product `(p1 - p0) x (p2 - p0)`; a zero product is `Collinear`.
    pub fn ordering(points: [Point; 3]) -> (r: Orientation)
        requires
            orientation_defined(points@[0], points@[1], points@[2]),
        ensures
            r == orientation(points@[0], points@[1], points@[2]),
    {
        let p0 = points[0];
        let p1 = points[1];
        let p2 = points[2];
        let (dx1, dy1) = p0.scaled_vector_to(p1);
        let (dx2, dy2) = p0.scaled_vector_to(p2);
        let c: i128 = dx1 * dy2 - dx2 * dy1;
        let flip = (p1.z.get() < 0) != (p2.z.get() < 0);
        if c == 0 {
            Orientation::Collinear
        } else if (c < 0) != flip {
            Orientation::Clockwise
        } else {
            Orientation::Counterclockwise
        }
    }

    /// Whether `self` lies strictly before `other` along the chosen axis.
    pub fn is_before_along(self, other: Point, on_x: bool) -> (r: bool)
        ensures
            r == self.precedes(other, on_x),
    {
        let d1 = self.z.get();
        let d2 = other.z.get();
        let n1 = if on_x {
            self.x
        } else {
            self.y
        };
        let n2 = if on_x {
            other.x
        } else {
            other.y
        };
        proof {
            lemma_square_range(n1 as int, d2 as int);
            lemma_square_range(n2 as int, d1 as int);
        }
        let l: i128 = (n1 as i128) * (d2 as i128);
        let r: i128 = (n2 as i128) * (d1 as i128);
        if (d1 < 0) == (d2 < 0) {
            l < r
        } else {
            l > r
        }
    }

    /// Whether `self` and `other` denote the same position.
    pub fn coincides(self, other: Point) -> (r: bool)
        ensures
            r == self.same_position(other),
    {
        let z1 = self.z.get() as i128;
        let z2 = other.z.get() as i128;
        proof {
            lemma_square_range(z2 as int, self.x as int);
            lemma_square_range(z1 as int, other.x as int);
            lemma_square_range(z2 as int, self.y as int);
            lemma_square_range(z1 as int, other.y as int);
        }
        z2 * (self.x as i128) == z1 * (other.x as i128) && z2 * (self.y as i128) == z1 * (
        other.y as i128)
    }
}

impl PartialEq for Point {
    /// Equality is that of the positions, by cross-multiplication.
    fn eq(&self, other: &Point) -> (r: bool) {
        self.coincides(*other)
    }
}

impl PartialEqSpecImpl for Point {
    open spec fn obeys_eq_spec() -> bool {
        true
    }

    open spec fn eq_spec(&self, other: &Point) -> bool {
        self.same_position(*other)
    }
}

impl From<(i64, i64)> for Point {
    /// The point with the given integer coordinates.
    fn from(pair: (i64, i64)) -> (r: Point)
        ensures
            r.raw() == (pair.0 as int, pair.1 as int, 1int),
            r.wf(),
    {
        Point { x: pair.0, y: pair.1, z: NonZeroI64::one() }
    }
}

impl FromSpecImpl<(i64, i64)> for Point {
    open spec fn obeys_from_spec() -> bool {
        true
    }

    open spec fn from_spec(pair: (i64, i64)) -> Point {
        Point { x: pair.0, y: pair.1, z: NonZeroI64::spec_new(1) }
    }
}

/// The set of points `(x, y)` that satisfy `a * x + b * y + c = 0`.
///
/// A line built by [`Line::spanned_by`] holds coefficients without a common
/// factor. Lines are compared by the proportionality of `(a, c)` and
/// `(b, c)`.
#[derive(Debug, Clone, Copy)]
pub struct Line {
    pub a: i64,
    pub b: i64,
    pub c: i64,
}

/// The outcome of intersecting two lines.
#[derive(Debug, Clone, Copy, PartialEq)]
pub enum LineIntersection {
    /// The lines are parallel and distinct.
    Empty,
    /// The lines cross in one point.
    Point(Point),
    /// The lines are the same line.
    Line(Line),
}

impl Line {
    /// The coefficients as integers.
    pub open spec fn coefficients(self) -> Seq<int> {
        seq![self.a as int, self.b as int, self.c as int]
    }

    /// The line with the given coefficients.
    pub open spec fn of(coefficients: Seq<int>) -> Line {
        Line { a: coefficients[0] as i64, b: coefficients[1] as i64, c: coefficients[2] as i64 }
    }

    /// The line through two points, with reduced coefficients.
    pub open spec fn through(p1: Point, p2: Point) -> Line {
        Line::of(scaled(Line::span(p1, p2), euclid_fold(Line::span(p1, p2))))
    }

    /// Whether the line through two points can be formed on the machine:
    /// the points differ, and the coefficients fit before and after they are
    /// reduced.
    pub open spec fn spannable(p1: Point, p2: Point) -> bool {
        &&& !p1.same_position(p2)
        &&& all_fit(Line::span(p1, p2))
        &&& all_fit(scaled(Line::span(p1, p2), euclid_fold(Line::span(p1, p2))))
    }

    /// Whether the intersection with `other` can be formed on the machine.
    pub open spec fn meetable(self, other: Line) -> bool {
        &&& fits_i64(self.meet(other).0)
        &&& fits_i64(self.meet(other).1)
        &&& fits_i64(self.meet(other).2)
        &&& self.meet(other).2 != 0 ==> Point::representable(
            self.meet(other).0,
            self.meet(other).1,
            self.meet(other).2,
        )
    }

    /// What [`Line::intersect`] returns.
    pub open spec fn intersection(self, other: Line) -> LineIntersection {
        let m = self.meet(other);
        if m.2 != 0 {
            LineIntersection::Point(Point::normal_of(m.0, m.1, m.2))
        } else if m.0 == 0 && m.1 == 0 {
            LineIntersection::Line(self)
        } else {
            LineIntersection::Empty
        }
    }

    /// The coefficients of the line through two points, before they are
    /// reduced: the cross product of the two raw triples.
    pub open spec fn span(p1: Point, p2: Point) -> Seq<int> {
        seq![
            p2.z@ * p1.y - p1.z@ * p2.y,
            p1.z@ * p2.x - p2.z@ * p1.x,
            p1.x * p2.y - p2.x * p1.y,
        ]
    }

    /// Whether the point lies on the line.
    pub open spec fn passes_through(self, p: Point) -> bool {
        self.a * p.x + self.b * p.y + self.c * p.z@ == 0
    }

    /// The raw triple of the point that two lines share: the cross product
    /// of their coefficients.
    pub open spec fn meet(self, other: Line) -> (int, int, int) {
        (
            other.c * self.b - self.c * other.b,
            self.c * other.a - other.c * self.a,
            self.a * other.b - other.a * self.b,
        )
    }

    /// The raw triple of the foot of the perpendicular from `p`, before it
    /// is reduced.
    pub open spec fn foot(self, p: Point) -> (int, int, int) {
        (
            self.b * (self.b * p.x - self.a * p.y) - self.a * self.c,
            self.a * (self.a * p.y - self.b * p.x) - self.b * self.c,
            (self.a * self.a + self.b * self.b) * p.z@,
        )
    }

    /// Whether two lines have proportional `(a, c)` and `(b, c)`.
    pub open spec fn proportional(self, other: Line) -> bool {
        self.a * other.c == other.a * self.c && self.b * other.c == other.b * self.c
    }

    /// Tests whether the line through the two points can be formed on the
    /// machine: whether [`Line::spanned_by`] can be called.
    pub fn can_span(p1: Point, p2: Point) -> (r: bool)
        ensures
            r == Line::spannable(p1, p2),
    {
        if p1.coincides(p2) {
            return false;
        }
        let p1_z = p1.z.get() as i128;
        let p2_z = p2.z.get() as i128;
        proof {
            lemma_square_range(p2_z as int, p1.y as int);
            lemma_square_range(p1_z as int, p2.y as int);
            lemma_square_range(p1_z as int, p2.x as int);
            lemma_square_range(p2_z as int, p1.x as int);
            lemma_square_range(p1.x as int, p2.y as int);
            lemma_square_range(p2.x as int, p1.y as int);
        }
        let a: i128 = p2_z * (p1.y as i128) - p1_z * (p2.y as i128);
        let b: i128 = p1_z * (p2.x as i128) - p2_z * (p1.x as i128);
        let c: i128 = (p1.x as i128) * (p2.y as i128) - (p2.x as i128) * (p1.y as i128);
        let ghost span = Line::span(p1, p2);
        assert(span[0] == a && span[1] == b && span[2] == c);
        if !(in_i64(a) && in_i64(b) && in_i64(c)) {
            return false;
        }
        let line = Line { a: a as i64, b: b as i64, c: c as i64 };
        assert(line.coefficients() =~= span);
        proof {
            lemma_euclid_fold_magnitude(span);
            lemma_gcd_fold(0, span);
            if euclid_fold(span) == 0 {
                assert(span[0] == 0 && span[1] == 0);
            }
        }
        line.can_normalize()
    }

    /// The line through two distinct points.
    pub fn spanned_by(p1: Point, p2: Point) -> (r: Line)
        requires
            Line::spannable(p1, p2),
        ensures
            r == Line::through(p1, p2),
            r.coefficients() == scaled(Line::span(p1, p2), euclid_fold(Line::span(p1, p2))),
            euclid_fold(Line::span(p1, p2)) != 0,
    {
        let p1_z = p1.z.get() as i128;
        let p2_z = p2.z.get() as i128;
        proof {
            lemma_square_range(p2_z as int, p1.y as int);
            lemma_square_range(p1_z as int, p2.y as int);
            lemma_square_range(p1_z as int, p2.x as int);
            lemma_square_range(p2_z as int, p1.x as int);
            lemma_square_range(p1.x as int, p2.y as int);
            lemma_square_range(p2.x as int, p1.y as int);
            let span = Line::span(p1, p2);
            assert(fits_i64(span[0]) && fits_i64(span[1]) && fits_i64(span[2]));
            lemma_euclid_fold_magnitude(span);
            lemma_gcd_fold(0, span);
            if euclid_fold(span) == 0 {
                assert(span[0] == 0 && span[1] == 0);
            }
        }
        let a = (p2_z * (p1.y as i128) - p1_z * (p2.y as i128)) as i64;
        let b = (p1_z * (p2.x as i128) - p2_z * (p1.x as i128)) as i64;
        let c = ((p1.x as i128) * (p2.y as i128) - (p2.x as i128) * (p1.y as i128)) as i64;
        let line = Line { a, b, c };
        assert(line.coefficients() =~= Line::span(p1, p2));
        let r = line.normalized();
        assert(r.coefficients()[0] == r.a && r.coefficients()[1] == r.b && r.coefficients()[2]
            == r.c);
        r
    }

    /// Tests whether the coefficients can be divided by their common divisor
    /// on the machine: whether [`Line::normalize`] and [`Line::normalized`]
    /// can be called.
    pub fn can_normalize(self) -> (r: bool)
        ensures
            r == reducible(self.coefficients()),
    {
        let values: [i64; 3] = [self.a, self.b, self.c];
        assert(as_ints(values@) =~= self.coefficients());
        can_reduce(&values)
    }

    /// Divides the coefficients by their common divisor, in place.
    pub fn normalize(&mut self)
        requires
            reducible(old(self).coefficients()),
        ensures
            final(self).coefficients() == scaled(
                old(self).coefficients(),
                euclid_fold(old(self).coefficients()),
            ),
    {
        *self = self.normalized();
    }

    /// The same line with its coefficients divided by their common divisor.
    pub fn normalized(self) -> (r: Line)
        requires
            reducible(self.coefficients()),
        ensures
            r.coefficients() == scaled(self.coefficients(), euclid_fold(self.coefficients())),
    {
        let values: [i64; 3] = [self.a, self.b, self.c];
        assert(as_ints(values@) =~= self.coefficients());
        let n = normalize(values);
        let r = Line { a: n[0], b: n[1], c: n[2] };
        assert(r.coefficients() =~= as_ints(n@));
        r
    }

    /// Tests whether the point lies on the line.
    pub fn contains(self, p: Point) -> (r: bool)
        ensures
            r == self.passes_through(p),
    {
        let pz = p.z.get();
        proof {
            lemma_square_range(self.a as int, p.x as int);
            lemma_square_range(self.b as int, p.y as int);
            lemma_square_range(self.c as int, pz as int);
        }
        let t1: i128 = (self.a as i128) * (p.x as i128);
        let t2: i128 = (self.b as i128) * (p.y as i128);
        let t3: i128 = (self.c as i128) * (pz as i128);
        match t1.checked_add(t2) {
            Some(u) => u == -t3,
            None => false,
        }
    }

    /// Tests whether the intersection with `other` can be formed on the
    /// machine: whether [`Line::intersect`] can be called.
    pub fn can_meet(self, other: Line) -> (r: bool)
        ensures
            r == self.meetable(other),
    {
        proof {
            lemma_square_range(other.c as int, self.b as int);
            lemma_square_range(self.c as int, other.b as int);
            lemma_square_range(self.c as int, other.a as int);
            lemma_square_range(other.c as int, self.a as int);
            lemma_square_range(self.a as int, other.b as int);
            lemma_square_range(other.a as int, self.b as int);
        }
        let x: i128 = (other.c as i128) * (self.b as i128) - (self.c as i128) * (other.b as i128);
        let y: i128 = (self.c as i128) * (other.a as i128) - (other.c as i128) * (self.a as i128);
        let z: i128 = (self.a as i128) * (other.b as i128) - (other.a as i128) * (self.b as i128);
        if !(in_i64(x) && in_i64(y) && in_i64(z)) {
            return false;
        }
        z == 0 || Point::can_represent(x as i64, y as i64, z as i64)
    }

    /// Intersects two lines.
    ///
    /// With `(x, y, z)` the cross product of the coefficients: for `z != 0`
    /// the lines cross in the point `(x / z, y / z)`; for `x == y == z == 0`
    /// they are the same line; otherwise they are parallel and distinct.
    pub fn intersect(self, other: Line) -> (r: LineIntersection)
        requires
            self.meetable(other),
        ensures
            r == self.intersection(other),
    {
        proof {
            lemma_square_range(other.c as int, self.b as int);
            lemma_square_range(self.c as int, other.b as int);
            lemma_square_range(self.c as int, other.a as int);
            lemma_square_range(other.c as int, self.a as int);
            lemma_square_range(self.a as int, other.b as int);
            lemma_square_range(other.a as int, self.b as int);
        }
        let x = ((other.c as i128) * (self.b as i128) - (self.c as i128) * (other.b as i128)) as i64;
        let y = ((self.c as i128) * (other.a as i128) - (other.c as i128) * (self.a as i128)) as i64;
        let z = ((self.a as i128) * (other.b as i128) - (other.a as i128) * (self.b as i128)) as i64;
        if let Some(p) = Point::try_new(x, y, z) {
            LineIntersection::Point(p)
        } else if x == 0 && y == 0 {
            LineIntersection::Line(self)
        } else {
            LineIntersection::Empty
        }
    }

    /// Whether the projection of `p` can be formed on the machine: the line
    /// has a direction, the intermediate values fit, and so does the
    /// reduced result.
    pub open spec fn projectable(self, p: Point) -> bool {
        &&& (self.a != 0 || self.b != 0)
        &&& fits_i64(self.b * p.x - self.a * p.y)
        &&& fits_i64(self.a * self.a + self.b * self.b)
        &&& fits_i64(self.foot(p).0)
        &&& fits_i64(self.foot(p).1)
        &&& fits_i64(self.foot(p).2)
        &&& Point::representable(self.foot(p).0, self.foot(p).1, self.foot(p).2)
    }

    /// Tests whether the projection of `p` can be formed on the machine:
    /// whether [`Line::closest_point_to`] can be called.
    pub fn can_project(self, p: Point) -> (r: bool)
        ensures
            r == self.projectable(p),
    {
        if self.a == 0 && self.b == 0 {
            return false;
        }
        let a = self.a as i128;
        let b = self.b as i128;
        let c = self.c as i128;
        let pz = p.z.get() as i128;
        proof {
            lemma_square_range(b as int, p.x as int);
            lemma_square_range(a as int, p.y as int);
            lemma_square_range(a as int, c as int);
            lemma_square_range(b as int, c as int);
            lemma_square_range(a as int, a as int);
            lemma_square_range(b as int, b as int);
        }
        let d: i128 = b * (p.x as i128) - a * (p.y as i128);
        if !in_i64(d) {
            return false;
        }
        let q: i128 = match (a * a).checked_add(b * b) {
            Some(q) => q,
            None => {
                return false;
            },
        };
        if !in_i64(q) {
            return false;
        }
        proof {
            lemma_square_range(b as int, d as int);
            lemma_square_range(a as int, d as int);
            lemma_square_range(q as int, pz as int);
            assert(self.a * (self.a * p.y - self.b * p.x) == -(self.a * (self.b * p.x - self.a
                * p.y))) by (nonlinear_arith);
            assert(a * (-d) == -(a * d)) by (nonlinear_arith);
        }
        let x: i128 = b * d - a * c;
        let y: i128 = a * (-d) - b * c;
        let z: i128 = q * pz;
        assert(x == self.foot(p).0 && y == self.foot(p).1 && z == self.foot(p).2);
        if !(in_i64(x) && in_i64(y) && in_i64(z)) {
            return false;
        }
        Point::can_represent(x as i64, y as i64, z as i64)
    }

    /// The point of the line that is closest to `p`.
    pub fn closest_point_to(self, p: Point) -> (r: Point)
        requires
            self.projectable(p),
        ensures
            r == Point::normal_of(self.foot(p).0, self.foot(p).1, self.foot(p).2),
            r.z@ > 0,
            r.wf(),
    {
        let a = self.a as i128;
        let b = self.b as i128;
        let c = self.c as i128;
        let pz = p.z.get() as i128;
        proof {
            lemma_square_range(b as int, p.x as int);
            lemma_square_range(a as int, p.y as int);
            lemma_square_range(a as int, c as int);
            lemma_square_range(b as int, c as int);
            lemma_square_range(a as int, a as int);
            lemma_square_range(b as int, b as int);
            lemma_square_range(b as int, self.b * p.x - self.a * p.y);
            lemma_square_range(a as int, self.b * p.x - self.a * p.y);
            lemma_square_range(self.a * self.a + self.b * self.b, pz as int);
            assert(self.a * self.a + self.b * self.b != 0) by (nonlinear_arith)
                requires
                    self.a != 0 || self.b != 0,
            ;
            assert(self.a * (self.a * p.y - self.b * p.x) == -(self.a * (self.b * p.x - self.a
                * p.y))) by (nonlinear_arith);
        }
        let d: i128 = b * (p.x as i128) - a * (p.y as i128);
        let x = (b * d - a * c) as i64;
        let y = (a * (-d) - b * c) as i64;
        let z = ((a * a + b * b) * pz) as i64;
        let values: [i64; 2] = [x, y];
        assert(as_ints(values@) =~= seq![self.foot(p).0, self.foot(p).1]);
        let n = try_normalize(values, z).unwrap();
        assert(as_ints(n.0@)[0] == n.0@[0] && as_ints(n.0@)[1] == n.0@[1]);
        proof {
            NonZeroI64::lemma_view_injective(n.1, n.1);
        }
        Point { x: n.0[0], y: n.0[1], z: n.1 }
    }

    /// Whether two lines are equal: whether `(a, c)` and `(b, c)` are
    /// proportional.
    pub fn is_proportional_to(self, other: Line) -> (r: bool)
        ensures
            r == self.proportional(other),
    {
        proof {
            lemma_square_range(self.a as int, other.c as int);
            lemma_square_range(other.a as int, self.c as int);
            lemma_square_range(self.b as int, other.c as int);
            lemma_square_range(other.b as int, self.c as int);
        }
        (self.a as i128) * (other.c as i128) == (other.a as i128) * (self.c as i128) && (
        self.b as i128) * (other.c as i128) == (other.b as i128) * (self.c as i128)
    }
}

impl PartialEq for Line {
    /// Equality by proportionality of the coefficients.
    fn eq(&self, other: &Line) -> (r: bool) {
        self.is_proportional_to(*other)
    }
}

impl PartialEqSpecImpl for Line {
    open spec fn obeys_eq_spec() -> bool {
        true
    }

    open spec fn eq_spec(&self, other: &Line) -> bool {
        self.proportional(*other)
    }
}

impl LineIntersection {
    /// Asserts that there is no intersection.
    pub fn unwrap_none(self)
        requires
            self is Empty,
    {
    }

    /// The point of intersection.
    pub fn unwrap_point(self) -> (r: Point)
        requires
            self is Point,
        ensures
            self == LineIntersection::Point(r),
    {
        match self {
            LineIntersection::Point(p) => p,
            _ => unreached(),
        }
    }

    /// The line of intersection.
    pub fn unwrap_line(self) -> (r: Line)
        requires
            self is Line,
        ensures
            self == LineIntersection::Line(r),
    {
        match self {
            LineIntersection::Line(l) => l,
            _ => unreached(),
        }
    }
}

/// A segment between two distinct points. Two segments are equal when they
/// have the same endpoints, in either order.
#[derive(Debug, Clone, Copy)]
pub struct Segment(pub Point, pub Point);

/// The outcome of intersecting two segments.
#[derive(Debug, Clone, Copy, PartialEq)]
pub enum SegmentIntersection {
    /// The segments share no point.
    Empty,
    /// The segments share exactly one point.
    Point(Point),
    /// The segments overlap in a segment.
    Segment(Segment),
}

impl Segment {
    /// Validity of the type: the endpoints differ.
    pub open spec fn wf(self) -> bool {
        !self.0.same_position(self.1)
    }

    /// Whether two segments have the same endpoints, in either order.
    pub open spec fn same_endpoints(self, other: Segment) -> bool {
        (self.0.same_position(other.0) && self.1.same_position(other.1)) || (
        self.0.same_position(other.1) && self.1.same_position(other.0))
    }

    /// Whether both endpoints of `other` lie strictly on the same side of the
    /// line through `self`.
    pub open spec fn has_on_one_side(self, other: Segment) -> bool {
        let o1 = orientation(self.0, self.1, other.0);
        let o2 = orientation(self.0, self.1, other.1);
        (o1 == Orientation::Counterclockwise && o2 == Orientation::Counterclockwise) || (o1
            == Orientation::Clockwise && o2 == Orientation::Clockwise)
    }

    /// Whether both endpoints of `other` lie on the line through `self`.
    pub open spec fn is_collinear_with(self, other: Segment) -> bool {
        orientation(self.0, self.1, other.0) == Orientation::Collinear && orientation(
            self.0,
            self.1,
            other.1,
        ) == Orientation::Collinear
    }

    /// The endpoints in increasing order along the chosen axis.
    pub open spec fn ordered(self, on_x: bool) -> (Point, Point) {
        if self.0.precedes(self.1, on_x) {
            (self.0, self.1)
        } else {
            (self.1, self.0)
        }
    }

    /// Whether the endpoints differ along the chosen axis.
    pub open spec fn spreads(self, on_x: bool) -> bool {
        self.0.precedes(self.1, on_x) || self.1.precedes(self.0, on_x)
    }

    /// The intersection of two segments of one line, as intervals along the
    /// chosen axis: from the later start to the earlier end.
    pub open spec fn overlap_along(self, other: Segment, on_x: bool) -> SegmentIntersection {
        if !other.spreads(on_x) {
            SegmentIntersection::Empty
        } else {
            let (start1, end1) = self.ordered(on_x);
            let (start2, end2) = other.ordered(on_x);
            let start = if start1.precedes(start2, on_x) {
                start2
            } else {
                start1
            };
            let end = if end2.precedes(end1, on_x) {
                end2
            } else {
                end1
            };
            if start.precedes(end, on_x) {
                SegmentIntersection::Segment(Segment(start, end))
            } else if end.precedes(start, on_x) {
                SegmentIntersection::Empty
            } else {
                SegmentIntersection::Point(start)
            }
        }
    }

    /// The intersection of two segments of one line: along `x` if the
    /// endpoints of `self` differ there, else along `y`.
    pub open spec fn overlap(self, other: Segment) -> SegmentIntersection {
        if self.spreads(true) {
            self.overlap_along(other, true)
        } else if self.spreads(false) {
            self.overlap_along(other, false)
        } else {
            SegmentIntersection::Empty
        }
    }

    /// The point in which the lines through two segments cross, if they
    /// cross in one point.
    pub open spec fn crossing(self, other: Segment) -> SegmentIntersection {
        match Line::through(self.0, self.1).intersection(Line::through(other.0, other.1)) {
            LineIntersection::Point(p) => SegmentIntersection::Point(p),
            _ => SegmentIntersection::Empty,
        }
    }

    /// What [`Segment::intersect`] returns.
    ///
    /// No point is shared if one segment lies strictly on one side of the
    /// other. If all four endpoints are on one line, the result is the
    /// overlap of two intervals. Otherwise the segments cross where their
    /// lines do.
    pub open spec fn intersection(self, other: Segment) -> SegmentIntersection {
        if self.has_on_one_side(other) {
            SegmentIntersection::Empty
        } else if self.is_collinear_with(other) {
            self.overlap(other)
        } else if other.has_on_one_side(self) {
            SegmentIntersection::Empty
        } else {
            self.crossing(other)
        }
    }

    /// Whether the intersection with `other` can be formed on the machine:
    /// the cross products that are needed fit in 128 bits, and where the
    /// segments cross, their lines and the crossing point fit in 64 bits.
    pub open spec fn intersectable(self, other: Segment) -> bool {
        &&& orientation_defined(self.0, self.1, other.0)
        &&& orientation_defined(self.0, self.1, other.1)
        &&& !self.has_on_one_side(other) && !self.is_collinear_with(other) ==> {
            &&& orientation_defined(other.0, other.1, self.0)
            &&& orientation_defined(other.0, other.1, self.1)
            &&& !other.has_on_one_side(self) ==> {
                &&& Line::spannable(self.0, self.1)
                &&& Line::spannable(other.0, other.1)
                &&& Line::through(self.0, self.1).meetable(Line::through(other.0, other.1))
            }
        }
    }

    /// The segment between two points. Returns `None` exactly when the two
    /// points coincide.
    pub fn between(p1: Point, p2: Point) -> (r: Option<Segment>)
        ensures
            r.is_none() <==> p1.same_position(p2),
            r matches Some(s) ==> s == Segment(p1, p2) && s.wf(),
    {
        if !p1.coincides(p2) {
            Some(Segment(p1, p2))
        } else {
            None
        }
    }

    /// The line through the endpoints.
    pub fn to_line(self) -> (r: Line)
        requires
            Line::spannable(self.0, self.1),
        ensures
            r == Line::through(self.0, self.1),
    {
        Line::spanned_by(self.0, self.1)
    }

    /// The endpoints in increasing order along the chosen axis, or `None` if
    /// they do not differ there.
    fn order_points_by(self, on_x: bool) -> (r: Option<(Point, Point)>)
        ensures
            r.is_some() == self.spreads(on_x),
            r matches Some(pair) ==> pair == self.ordered(on_x),
    {
        if self.0.is_before_along(self.1, on_x) {
            Some((self.0, self.1))
        } else if self.1.is_before_along(self.0, on_x) {
            Some((self.1, self.0))
        } else {
            None
        }
    }

    /// The overlap of two segments of one line along the chosen axis, given
    /// the ordered endpoints of `self`.
    fn overlap_from(self, other: Segment, on_x: bool, start1: Point, end1: Point) -> (r:
        SegmentIntersection)
        requires
            (start1, end1) == self.ordered(on_x),
        ensures
            r == self.overlap_along(other, on_x),
    {
        match other.order_points_by(on_x) {
            Some((start2, end2)) => {
                let start = if start1.is_before_along(start2, on_x) {
                    start2
                } else {
                    start1
                };
                let end = if end2.is_before_along(end1, on_x) {
                    end2
                } else {
                    end1
                };
                if start.is_before_along(end, on_x) {
                    SegmentIntersection::Segment(Segment(start, end))
                } else if end.is_before_along(start, on_x) {
                    SegmentIntersection::Empty
                } else {
                    SegmentIntersection::Point(start)
                }
            },
            None => SegmentIntersection::Empty,
        }
    }

    /// Tests whether the intersection with `other` can be formed on the
    /// machine: whether [`Segment::intersect`] can be called.
    pub fn can_intersect(self, other: Segment) -> (r: bool)
        ensures
            r == self.intersectable(other),
    {
        if !Point::can_orient([self.0, self.1, other.0]) || !Point::can_orient(
            [self.0, self.1, other.1],
        ) {
            return false;
        }
        let sides = (
            Point::ordering([self.0, self.1, other.0]),
            Point::ordering([self.0, self.1, other.1]),
        );
        match sides {
            (Orientation::Counterclockwise, Orientation::Counterclockwise) => true,
            (Orientation::Clockwise, Orientation::Clockwise) => true,
            (Orientation::Collinear, Orientation::Collinear) => true,
            _ => {
                if !Point::can_orient([other.0, other.1, self.0]) || !Point::can_orient(
                    [other.0, other.1, self.1],
                ) {
                    return false;
                }
                let other_sides = (
                    Point::ordering([other.0, other.1, self.0]),
                    Point::ordering([other.0, other.1, self.1]),
                );
                match other_sides {
                    (Orientation::Counterclockwise, Orientation::Counterclockwise) => true,
                    (Orientation::Clockwise, Orientation::Clockwise) => true,
                    _ => {
                        if !Line::can_span(self.0, self.1) || !Line::can_span(other.0, other.1) {
                            return false;
                        }
                        self.to_line().can_meet(other.to_line())
                    },
                }
            },
        }
    }

    /// Intersects two segments.
    pub fn intersect(self, other: Segment) -> (r: SegmentIntersection)
        requires
            self.intersectable(other),
        ensures
            r == self.intersection(other),
    {
        // On which sides of `self` the endpoints of `other` lie.
        let sides = (
            Point::ordering([self.0, self.1, other.0]),
            Point::ordering([self.0, self.1, other.1]),
        );
        match sides {
            // The same strict side: no point in common.
            (Orientation::Counterclockwise, Orientation::Counterclockwise) => {
                SegmentIntersection::Empty
            },
            (Orientation::Clockwise, Orientation::Clockwise) => SegmentIntersection::Empty,
            // All four points on one line: the overlap may be a segment.
            (Orientation::Collinear, Orientation::Collinear) => {
                if let Some((start1, end1)) = self.order_points_by(true) {
                    self.overlap_from(other, true, start1, end1)
                } else if let Some((start1, end1)) = self.order_points_by(false) {
                    self.overlap_from(other, false, start1, end1)
                } else {
                    SegmentIntersection::Empty
                }
            },
            // The segments may cross in a point.
            _ => {
                let other_sides = (
                    Point::ordering([other.0, other.1, self.0]),
                    Point::ordering([other.0, other.1, self.1]),
                );
                match other_sides {
                    (Orientation::Counterclockwise, Orientation::Counterclockwise) => {
                        SegmentIntersection::Empty
                    },
                    (Orientation::Clockwise, Orientation::Clockwise) => SegmentIntersection::Empty,
                    _ => match self.to_line().intersect(other.to_line()) {
                        LineIntersection::Point(p) => SegmentIntersection::Point(p),
                        _ => SegmentIntersection::Empty,
                    },
                }
            },
        }
    }

    /// The difference of the two endpoints along the chosen axis, as a ratio
    /// in lowest terms.
    pub open spec fn extent(self, on_x: bool) -> (int, int) {
        ratio_difference(
            reduced(self.1.along(on_x).0, self.1.along(on_x).1),
            reduced(self.0.along(on_x).0, self.0.along(on_x).1),
        )
    }

    /// The square of the length, as a ratio in lowest terms.
    pub open spec fn squared_length(self) -> (int, int) {
        ratio_sum(
            ratio_product(self.extent(true), self.extent(true)),
            ratio_product(self.extent(false), self.extent(false)),
        )
    }

    /// Whether the squared length can be formed on the machine: the
    /// coordinates, their differences, the squares and the sum all fit.
    pub open spec fn measurable(self) -> bool {
        &&& representable(self.0.x as int, self.0.z@)
        &&& representable(self.0.y as int, self.0.z@)
        &&& representable(self.1.x as int, self.1.z@)
        &&& representable(self.1.y as int, self.1.z@)
        &&& fits_pair(self.extent(true))
        &&& fits_pair(self.extent(false))
        &&& fits_pair(ratio_product(self.extent(true), self.extent(true)))
        &&& fits_pair(ratio_product(self.extent(false), self.extent(false)))
        &&& fits_pair(self.squared_length())
    }

    /// Tests whether the squared length can be formed on the machine:
    /// whether [`Segment::sq_len`] can be called.
    pub fn can_measure(self) -> (r: bool)
        ensures
            r == self.measurable(),
    {
        let (z0, z1) = (self.0.z.get(), self.1.z.get());
        if !(Quot::can_represent(self.0.x, z0) && Quot::can_represent(self.0.y, z0)
            && Quot::can_represent(self.1.x, z1) && Quot::can_represent(self.1.y, z1)) {
            return false;
        }
        let dx = match self.1.x().checked_sub(self.0.x()) {
            Some(dx) => dx,
            None => {
                return false;
            },
        };
        let dy = match self.1.y().checked_sub(self.0.y()) {
            Some(dy) => dy,
            None => {
                return false;
            },
        };
        match (dx.checked_mul(dx), dy.checked_mul(dy)) {
            (Some(xx), Some(yy)) => xx.checked_add(yy).is_some(),
            _ => false,
        }
    }

    /// The square of the length of the segment.
    pub fn sq_len(self) -> (r: Quot)
        requires
            self.measurable(),
        ensures
            r@ == self.squared_length(),
            r.wf(),
    {
        let dx = self.1.x().sub(self.0.x());
        let dy = self.1.y().sub(self.0.y());
        dx.mul(dx).add(dy.mul(dy))
    }

    /// Whether two segments have the same endpoints, in either order.
    pub fn has_same_endpoints(self, other: Segment) -> (r: bool)
        ensures
            r == self.same_endpoints(other),
    {
        (self.0.coincides(other.0) && self.1.coincides(other.1)) || (self.0.coincides(other.1)
            && self.1.coincides(other.0))
    }
}

impl PartialEq for Segment {
    /// Equality up to the order of the endpoints.
    fn eq(&self, other: &Segment) -> (r: bool) {
        self.has_same_endpoints(*other)
    }
}

impl PartialEqSpecImpl for Segment {
    open spec fn obeys_eq_spec() -> bool {
        true
    }

    open spec fn eq_spec(&self, other: &Segment) -> bool {
        self.same_endpoints(*other)
    }
}

impl SegmentIntersection {
    /// Asserts that there is no intersection.
    pub fn unwrap_none(self)
        requires
            self is Empty,
    {
    }

    /// The point of intersection.
    pub fn unwrap_point(self) -> (r: Point)
        requires
            self is Point,
        ensures
            self == SegmentIntersection::Point(r),
    {
        match self {
            SegmentIntersection::Point(p) => p,
            _ => unreached(),
        }
    }

    /// The segment of intersection.
    pub fn unwrap_line(self) -> (r: Segment)
        requires
            self is Segment,
        ensures
            self == SegmentIntersection::Segment(r),
    {
        match self {
            SegmentIntersection::Segment(l) => l,
            _ => unreached(),
        }
    }
}

} // verus!
