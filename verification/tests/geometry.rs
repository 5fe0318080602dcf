use comlib::geometry::coordinate::{
    can_normalize, can_reduce, from_coordinates, normalize, normalize_with_divisor,
    to_coordinates, try_normalize,
};
use comlib::geometry::hull::{can_orient_all, lex_order};
use comlib::geometry::{
    convex_hull, Line, LineIntersection, Orientation, Point, Polygon, Segment,
    SegmentIntersection, Unit, ValidCoordinate,
};
use comlib::math::{NonZeroI64, Quot};
use std::cmp::Ordering;

fn pt(x: i64, y: i64) -> Point {
    Point::from((x, y))
}

fn raw(p: Point) -> (i64, i64, i64) {
    (p.x, p.y, p.z.get())
}

fn nz(v: i64) -> NonZeroI64 {
    NonZeroI64::new(v).unwrap()
}

fn q(n: i64, d: i64) -> Quot {
    Quot::new(n, d).unwrap()
}

#[test]
fn spanned_line_contains_its_points() {
    let pairs = [
        ((0, 0), (1, 0)),
        ((0, 0), (0, 1)),
        ((-3, 7), (5, -11)),
        ((2, 2), (6, 6)),
        ((1_000_000, -999_999), (-123_456, 654_321)),
    ];
    for (a, b) in pairs {
        let (p1, p2) = (Point::from(a), Point::from(b));
        let line = Line::spanned_by(p1, p2);
        assert!(line.contains(p1));
        assert!(line.contains(p2));
    }
    // Two points with different divisors: (1/2, 3/2) and (5/3, -2/3).
    let p1 = Point::try_new(1, 3, 2).unwrap();
    let p2 = Point::try_new(5, -2, 3).unwrap();
    let line = Line::spanned_by(p1, p2);
    assert!(line.contains(p1) && line.contains(p2));
    assert!(!line.contains(pt(0, 0)));
}

#[test]
fn line_coefficients_are_reduced() {
    // a = -5, b = 2, c = 9, and Euclid's algorithm gives the divisor -1.
    let line = Line::spanned_by(pt(1, -2), pt(3, 3));
    assert_eq!((line.a, line.b, line.c), (5, -2, -9));
    // a = -6, b = 4, c = 0, and the divisor is -2.
    let line = Line::spanned_by(pt(0, 0), pt(4, 6));
    assert_eq!((line.a, line.b, line.c), (3, -2, 0));
    // The divisor of 6, -9 and 15 is -3.
    let mut line = Line { a: 6, b: -9, c: 15 };
    line.normalize();
    assert_eq!((line.a, line.b, line.c), (-2, 3, -5));
    assert_eq!(line, Line { a: 4, b: -6, c: 10 }.normalized());
}

#[test]
fn points_are_created_in_normal_form() {
    assert_eq!(raw(Point::try_new(2, 6, 2).unwrap()), (1, 3, 1));
    assert_eq!(raw(Point::try_new(2, 6, -4).unwrap()), (-1, -3, 2));
    assert_eq!(raw(Point::try_new(0, 0, -7).unwrap()), (0, 0, 1));
    assert_eq!(raw(Point::new(6, -9, nz(12))), (2, -3, 4));
    assert!(Point::try_new(1, 2, 0).is_none());
    // The normal form would hold the negative of the least integer.
    assert!(Point::try_new(i64::MIN, 3, -1).is_none());
    assert!(Point::try_new(3, 5, i64::MIN).is_none());
    assert_eq!(raw(Point::try_new(i64::MIN, 0, -2).unwrap()), (1 << 62, 0, 1));
    assert_eq!(raw(pt(4, 6)), (4, 6, 1));
}

#[test]
fn normalized_is_idempotent() {
    let triples = [(2, 6, 2), (4, -6, -10), (0, 0, 5), (7, 11, 13), (-8, 12, 20)];
    for (x, y, z) in triples {
        let once = Point { x, y, z: nz(z) }.normalized();
        let twice = once.normalized();
        assert_eq!(raw(once), raw(twice));
        assert!(once.z.get() > 0);
        let mut in_place = Point { x, y, z: nz(z) };
        in_place.normalize();
        assert_eq!(raw(in_place), raw(once));
    }
}

#[test]
fn logical_coordinates_are_quotients() {
    let p = Point { x: 6, y: -9, z: nz(-4) };
    assert_eq!((p.x().numerator(), p.x().denominator()), (-3, 2));
    assert_eq!((p.y().numerator(), p.y().denominator()), (9, 4));
}

#[test]
fn ordering_tells_the_turn() {
    let (a, b) = (pt(0, 0), pt(2, 0));
    assert_eq!(Point::ordering([a, b, pt(1, 1)]), Orientation::Counterclockwise);
    assert_eq!(Point::ordering([a, b, pt(1, -1)]), Orientation::Clockwise);
    assert_eq!(Point::ordering([a, b, pt(5, 0)]), Orientation::Collinear);
    assert_eq!(Point::ordering([a, b, b]), Orientation::Collinear);
    // The same positions with other raw fields, negative divisors among them.
    let c = Point { x: -3, y: -3, z: nz(-3) };
    let b2 = Point { x: -4, y: 0, z: nz(-2) };
    assert_eq!(Point::ordering([a, b2, c]), Orientation::Counterclockwise);
    assert_eq!(Point::ordering([c, b2, a]), Orientation::Clockwise);
}

#[test]
fn lines_intersect_in_a_point_a_line_or_nothing() {
    let l1 = Line::spanned_by(pt(1, -2), pt(3, 3));
    let l2 = Line::spanned_by(pt(1, 1), pt(2, -2));
    let p = l1.intersect(l2).unwrap_point();
    assert_eq!(raw(p), (17, -7, 11));
    assert_eq!(l2.intersect(l1).unwrap_point(), p);
    let l3 = Line::spanned_by(pt(1, 1), pt(3, 5));
    let l4 = Line::spanned_by(pt(2, -2), pt(3, 0));
    l3.intersect(l4).unwrap_none();
    assert_eq!(l3.intersect(l4), LineIntersection::Empty);
    let l5 = Line::spanned_by(pt(-2, -5), pt(-1, -3));
    assert_eq!(l3.intersect(l5).unwrap_line(), l3);
}

#[test]
fn closest_point_is_the_foot_of_the_perpendicular() {
    let line = Line::spanned_by(pt(0, 0), pt(2, 1));
    // The foot of (1, 3) on x = 2 y is (2, 1).
    assert_eq!(raw(line.closest_point_to(pt(1, 3))), (2, 1, 1));
    // The foot of (0, 1) is (2/5, 1/5).
    assert_eq!(raw(line.closest_point_to(pt(0, 1))), (2, 1, 5));
}

#[test]
fn segments_cross_in_a_point() {
    let a = Segment::between(pt(0, 0), pt(4, 4)).unwrap();
    let b = Segment::between(pt(0, 4), pt(4, 0)).unwrap();
    assert_eq!(a.intersect(b), SegmentIntersection::Point(pt(2, 2)));
    assert_eq!(raw(b.intersect(a).unwrap_point()), (2, 2, 1));
    // They touch in an endpoint.
    let c = Segment::between(pt(2, 2), pt(5, 1)).unwrap();
    assert_eq!(a.intersect(c), SegmentIntersection::Point(pt(2, 2)));
    // The lines cross, but outside one of the segments.
    let d = Segment::between(pt(5, 0), pt(6, -1)).unwrap();
    a.intersect(d).unwrap_none();
    let e = Segment::between(pt(0, 1), pt(1, 3)).unwrap();
    assert_eq!(e.intersect(a), SegmentIntersection::Empty);
    // Crossing in a point that is no lattice point.
    let f = Segment::between(pt(0, 0), pt(3, 1)).unwrap();
    let g = Segment::between(pt(0, 1), pt(2, 0)).unwrap();
    assert_eq!(raw(f.intersect(g).unwrap_point()), (6, 2, 5));
}

#[test]
fn segments_of_one_line_overlap() {
    let a = Segment::between(pt(-2, -5), pt(7, -5)).unwrap();
    let b = Segment::between(pt(-3, -5), pt(-1, -5)).unwrap();
    let overlap = a.intersect(b).unwrap_line();
    assert_eq!((raw(overlap.0), raw(overlap.1)), ((-2, -5, 1), (-1, -5, 1)));
    // Vertical segments are ordered along y.
    let c = Segment::between(pt(-4, -4), pt(-4, -9)).unwrap();
    let d = Segment::between(pt(-4, -6), pt(-4, -20)).unwrap();
    let overlap = c.intersect(d).unwrap_line();
    assert_eq!((raw(overlap.0), raw(overlap.1)), ((-4, -9, 1), (-4, -6, 1)));
    let e = Segment::between(pt(-4, -9), pt(-4, -12)).unwrap();
    assert_eq!(c.intersect(e), SegmentIntersection::Point(pt(-4, -9)));
    assert!(Segment::between(pt(1, 1), Point::try_new(3, 3, 3).unwrap()).is_none());
}

#[test]
fn squared_length_of_a_segment() {
    let s = Segment::between(pt(1, 2), pt(4, 6)).unwrap();
    assert_eq!(s.sq_len(), q(25, 1));
    let s = Segment::between(Point::try_new(1, 1, 2).unwrap(), pt(1, 1)).unwrap();
    assert_eq!(s.sq_len(), q(1, 2));
    assert_eq!(s.to_line(), Line::spanned_by(pt(0, 0), pt(1, 1)));
}

#[test]
fn the_exact_strategy_normalizes() {
    assert_eq!(normalize([6, -9, 15]), [-2, 3, -5]);
    assert_eq!(normalize([-5, 2, 9]), [5, -2, -9]);
    assert_eq!(normalize([0, 0, -4]), [0, 0, 1]);
    let (values, divisor) = normalize_with_divisor(([4, -6, 8], nz(-10)));
    assert_eq!((values, divisor.get()), ([-2, 3, -4], 5));
    let (values, divisor) = normalize_with_divisor(([0, 0], nz(-3)));
    assert_eq!((values, divisor.get()), ([0, 0], 1));
    assert!(try_normalize([1, 2], 0).is_none());
    let (values, divisor) = try_normalize([2, 6], 2).unwrap();
    assert_eq!((values, divisor.get()), ([1, 3], 1));
    // 1/2, -2/3 and 5/4 over the common denominator 12.
    let (values, divisor) = from_coordinates([q(1, 2), q(-2, 3), q(5, 4)]);
    assert_eq!((values, divisor.get()), ([6, -8, 15], 12));
    let coordinates = to_coordinates(([6, -8, 15], nz(12)));
    assert_eq!(coordinates, [q(1, 2), q(-2, 3), q(5, 4)]);
    let values = <i64 as ValidCoordinate>::normalize([4, 8]);
    assert_eq!(values, [1, 2]);
    let (values, divisor) = <i64 as ValidCoordinate>::try_normalize([4, 8], -4).unwrap();
    assert_eq!((values, divisor.get()), ([-1, -2], 1));
    assert_eq!(Unit.mul(Unit::one()).div(Unit), Unit);
}

#[test]
fn points_are_ordered_by_x_then_y() {
    assert_eq!(lex_order(&pt(1, 5), &pt(2, 0)), Ordering::Less);
    assert_eq!(lex_order(&pt(2, 0), &pt(1, 5)), Ordering::Greater);
    assert_eq!(lex_order(&pt(1, 5), &pt(1, 6)), Ordering::Less);
    assert_eq!(
        lex_order(&pt(1, 5), &Point { x: -2, y: -10, z: nz(-2) }),
        Ordering::Equal
    );
    assert_eq!(
        lex_order(&Point { x: 1, y: 0, z: nz(-2) }, &Point { x: 1, y: 0, z: nz(3) }),
        Ordering::Less
    );
}

fn hull_of(points: &[(i64, i64)]) -> Option<Vec<(i64, i64, i64)>> {
    let points = points.iter().map(|&p| Point::from(p)).collect();
    convex_hull(points).map(|hull| hull.points().into_iter().map(raw).collect())
}

#[test]
fn hull_of_degenerate_input_is_none() {
    assert_eq!(hull_of(&[]), None);
    assert_eq!(hull_of(&[(3, 4)]), None);
    assert_eq!(hull_of(&[(0, 0), (0, 0), (0, 0), (0, 0)]), None);
    let same = vec![pt(1, 2), Point::try_new(2, 4, 2).unwrap(), Point { x: -3, y: -6, z: nz(-3) }];
    assert!(convex_hull(same).is_none());
}

#[test]
fn hull_runs_counter_clockwise_from_the_least_point() {
    // A square with a point inside and points on two edges.
    let hull = hull_of(&[(2, 2), (0, 0), (1, 1), (2, 0), (0, 2), (1, 0), (2, 1)]).unwrap();
    assert_eq!(
        hull,
        [(0, 0, 1), (1, 0, 1), (2, 0, 1), (2, 1, 1), (2, 2, 1), (0, 2, 1)]
    );
    // Two points: the hull is the segment.
    assert_eq!(hull_of(&[(5, 5), (1, 2)]).unwrap(), [(1, 2, 1), (5, 5, 1)]);
    // Points of one line stay on the hull, each once for each chain.
    assert_eq!(
        hull_of(&[(2, 2), (0, 0), (1, 1)]).unwrap(),
        [(0, 0, 1), (1, 1, 1), (2, 2, 1), (1, 1, 1)]
    );
}

#[test]
fn hull_has_positive_area() {
    let inputs: [&[(i64, i64)]; 4] = [
        &[(0, 0), (4, 0), (0, 3)],
        &[(3, 1), (-2, 4), (0, 0), (5, 5), (1, 1), (-1, -3), (2, 6)],
        &[(0, 0), (1, 0), (2, 0), (2, 2)],
        &[(-5, -5), (5, 5), (-5, 5), (5, -5), (0, 0)],
    ];
    let areas = [q(6, 1), q(34, 1), q(2, 1), q(100, 1)];
    for (input, expected) in inputs.iter().zip(areas) {
        let points = input.iter().map(|&p| Point::from(p)).collect();
        let area = convex_hull(points).unwrap().area();
        assert_eq!(area, expected);
        assert!(area.numerator() > 0);
    }
}

#[test]
fn hull_of_points_that_coincide_can_have_no_area() {
    // A point that is given twice is kept twice by both chains, which hides
    // the turn at it: the hull runs there and back.
    let twice = [(0, 0), (1, 1), (1, 1), (2, 0)];
    assert_eq!(
        hull_of(&twice).unwrap(),
        [(0, 0, 1), (1, 1, 1), (1, 1, 1), (2, 0, 1), (1, 1, 1), (1, 1, 1)]
    );
    let points = twice.iter().map(|&p| Point::from(p)).collect();
    assert_eq!(convex_hull(points).unwrap().area(), q(0, 1));
    // Given once, the point is a corner of a triangle.
    let once = [(0, 0), (1, 1), (2, 0)];
    assert_eq!(hull_of(&once).unwrap(), [(0, 0, 1), (2, 0, 1), (1, 1, 1)]);
    let points = once.iter().map(|&p| Point::from(p)).collect();
    assert_eq!(convex_hull(points).unwrap().area(), q(1, 1));
}

#[test]
fn hull_of_rational_points_has_positive_area() {
    // The corners (1/2, 0), (3/2, 0), (1, 2/3) and the inner point (1, 1/3),
    // with divisors of either sign.
    let points = vec![
        Point::try_new(-3, -2, -3).unwrap(),
        Point::try_new(1, 0, 2).unwrap(),
        Point::try_new(3, 1, 3).unwrap(),
        Point::try_new(-3, 0, -2).unwrap(),
    ];
    let area = convex_hull(points).unwrap().area();
    assert_eq!(area, q(1, 3));
}

#[test]
fn polygon_has_points_edges_and_area() {
    let polygon = Polygon::from(vec![pt(0, 0), pt(0, 2), pt(3, 2), pt(3, 0)]);
    assert_eq!(polygon.points().len(), 4);
    // Clockwise: the area is negative.
    assert_eq!(polygon.area(), q(-6, 1));
    let mut edges = polygon.segments();
    let first = edges.next().unwrap();
    assert_eq!((raw(first.0), raw(first.1)), ((3, 0, 1), (0, 0, 1)));
    let last = edges.next_back().unwrap();
    assert_eq!((raw(last.0), raw(last.1)), ((3, 2, 1), (3, 0, 1)));
    let second = edges.next().unwrap();
    assert_eq!((raw(second.0), raw(second.1)), ((0, 0, 1), (0, 2, 1)));
    let third = edges.next_back().unwrap();
    assert_eq!((raw(third.0), raw(third.1)), ((0, 2, 1), (3, 2, 1)));
    assert!(edges.next().is_none());
    assert!(edges.next_back().is_none());
    let triangle = Polygon::from(vec![pt(0, 0), pt(1, 0), Point::try_new(1, 1, 2).unwrap()]);
    assert_eq!(triangle.area(), q(1, 4));
}

#[test]
fn reduced_quotient_has_no_common_divisor() {
    for a in -12i64..=12 {
        for b in -12i64..=12 {
            if b == 0 {
                assert!(Quot::new(a, b).is_none());
                continue;
            }
            let quot = Quot::new(a, b).unwrap();
            let (n, d) = (quot.numerator(), quot.denominator());
            assert!(d > 0);
            assert_eq!(comlib::math::gcd(n, d).abs(), 1);
            assert_eq!(n * b, a * d);
            assert!((n as f64 / d as f64 - a as f64 / b as f64).abs() < 1e-12);
        }
    }
    // The quotient 7/3 has the integral part 2, and 7/2 - 2 * 3/2 is left.
    let seven_halves = q(7, 2);
    assert_eq!(seven_halves.rem(q(3, 2)), q(1, 2));
    assert_eq!(q(-7, 2).rem(q(3, 2)), q(-1, 2));
    assert_eq!(q(9, 2).rem(q(3, 2)), q(0, 1));
}

#[test]
fn what_fits_the_machine_can_be_tested() {
    let far = 1i64 << 62;
    // Coordinates.
    assert!(can_reduce(&[6, -9, 15]));
    assert!(!can_reduce(&[0, 0, 0]));
    assert!(can_reduce(&[i64::MIN, 0, 0]));
    assert!(!can_reduce(&[i64::MIN, -1]));
    assert!(!can_reduce::<0>(&[]));
    assert!(can_normalize(&[4, 8], nz(-4)));
    assert!(!can_normalize(&[i64::MIN, 3], nz(-1)));
    assert!(can_normalize(&[i64::MIN, 3], nz(1)));
    assert!(Quot::can_represent(6, -4));
    assert!(Quot::can_represent(i64::MIN, 2));
    assert!(!Quot::can_represent(i64::MIN, -1));
    assert!(!Quot::can_represent(3, i64::MIN));
    assert!(!Quot::can_represent(1, 0));
    // Points.
    assert!(Point::can_represent(2, 6, -2));
    assert!(!Point::can_represent(2, 6, 0));
    assert!(!Point::can_represent(i64::MIN, 6, -1));
    assert!(Point::can_orient([pt(0, 0), pt(far, 0), pt(0, far)]));
    assert!(!Point::can_orient([
        pt(i64::MIN, i64::MIN),
        pt(i64::MAX, i64::MIN),
        pt(i64::MIN, i64::MAX)
    ]));
    assert!(can_orient_all(&vec![pt(0, 0), pt(far, 0), pt(0, far), pt(-far, -far)]));
    assert!(!can_orient_all(&vec![
        pt(0, 0),
        pt(i64::MIN, i64::MIN),
        pt(i64::MAX, i64::MIN),
        pt(i64::MIN, i64::MAX)
    ]));
    assert!(can_orient_all(&vec![]));
    // Lines.
    assert!(Line::can_span(pt(1, -2), pt(3, 3)));
    assert!(!Line::can_span(pt(1, -2), Point::try_new(3, -6, 3).unwrap()));
    assert!(!Line::can_span(pt(i64::MIN, 0), pt(0, 1)));
    assert!(Line { a: 6, b: -9, c: 15 }.can_normalize());
    assert!(!Line { a: 0, b: 0, c: 0 }.can_normalize());
    assert!(!Line { a: i64::MIN, b: -1, c: 0 }.can_normalize());
    let steep = Line { a: i64::MAX, b: 1, c: 0 };
    let flat = Line { a: 1, b: i64::MAX, c: 0 };
    assert!(!steep.can_meet(flat));
    assert!(steep.can_meet(steep));
    assert!(Line::spanned_by(pt(1, -2), pt(3, 3)).can_meet(Line::spanned_by(pt(1, 1), pt(2, -2))));
    assert!(Line::spanned_by(pt(0, 0), pt(2, 1)).can_project(pt(1, 3)));
    assert!(!Line { a: 0, b: 0, c: 5 }.can_project(pt(1, 3)));
    assert!(!steep.can_project(pt(1, 3)));
    // Segments.
    let a = Segment::between(pt(0, 0), pt(4, 4)).unwrap();
    let b = Segment::between(pt(0, 4), pt(4, 0)).unwrap();
    assert!(a.can_intersect(b) && a.can_measure());
    let wide = Segment::between(pt(i64::MIN, 0), pt(i64::MAX, 1)).unwrap();
    assert!(!wide.can_measure());
    // The turns can be computed, but the line through `wide` cannot be formed.
    assert!(!wide.can_intersect(Segment::between(pt(0, -1), pt(0, 2)).unwrap()));
    assert!(!wide.can_intersect(Segment::between(pt(i64::MAX, i64::MAX), pt(0, i64::MIN)).unwrap()));
    // Polygons.
    let square = Polygon::from(vec![pt(0, 0), pt(2, 0), pt(2, 2), pt(0, 2)]);
    assert!(square.can_compute_area() && square.can_have_segments());
    let doubled = Polygon::from(vec![pt(0, 0), pt(2, 0), pt(2, 0)]);
    assert!(doubled.can_compute_area() && !doubled.can_have_segments());
    assert_eq!(doubled.area(), q(0, 1));
    let empty = Polygon::from(vec![]);
    assert!(!empty.can_compute_area() && !empty.can_have_segments());
    let huge = Polygon::from(vec![pt(far, far), pt(-far, far), pt(-far, -far)]);
    assert!(!huge.can_compute_area());
    assert!(!Polygon::from(vec![pt(5, 5)]).can_have_segments());
}

#[test]
fn checked_quotient_arithmetic() {
    let half = q(1, 2);
    let third = q(1, 3);
    assert_eq!(half.checked_add(third), Some(q(5, 6)));
    assert_eq!(half.checked_sub(third), Some(q(1, 6)));
    assert_eq!(half.checked_mul(third), Some(q(1, 6)));
    assert_eq!(half.checked_div(third), Some(q(3, 2)));
    assert_eq!(half.checked_div(q(0, 5)), None);
    assert_eq!(q(7, 2).checked_rem(q(3, 2)), Some(q(1, 2)));
    assert_eq!(q(7, 2).checked_rem(q(0, 1)), None);
    let most = q(i64::MAX, 1);
    assert_eq!(most.checked_add(q(1, 1)), None);
    assert_eq!(most.checked_add(q(-1, 1)), Some(q(i64::MAX - 1, 1)));
    assert_eq!(most.checked_mul(q(2, 1)), None);
    assert_eq!(most.checked_mul(half).map(|r| r.denominator()), Some(2));
    assert_eq!(q(i64::MIN, 1).checked_sub(q(1, 1)), None);
    assert_eq!(q(1, i64::MAX).checked_div(q(2, 1)), None);
}
