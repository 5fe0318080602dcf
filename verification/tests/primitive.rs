use comlib::geometry::{Line, LineIntersection, Point, Segment, SegmentIntersection};

fn pt(x: i64, y: i64) -> Point {
    Point::from((x, y))
}

#[test]
fn test_is_on_line() {
    let l = Line::spanned_by(pt(1, -2), pt(3, 3));
    assert!(l.contains(pt(1, -2)));
    assert!(l.contains(pt(3, 3)));
    assert!(l.contains(pt(5, 8)));
    assert!(!l.contains(pt(0, 0)));
    assert!(!l.contains(pt(-1, 2)));
    assert!(!l.contains(pt(2, 0)));
    assert!(!l.contains(pt(2, 1)));
}

#[test]
fn test_point_equality() {
    assert_eq!(Point::from((1, 3)), Point::from((1, 3)));
    assert_ne!(Point::from((1, 3)), Point::from((3, 1)));

    assert_eq!(Point::from((1, 3)), Point::try_new(2, 6, 2).unwrap());
    assert_eq!(
        Point::try_new(3, 9, 3).unwrap(),
        Point::try_new(2, 6, 2).unwrap()
    );
}

#[test]
fn test_line_intersect() {
    let l1 = Line::spanned_by(pt(1, -2), pt(3, 3));
    let l2 = Line::spanned_by(pt(1, 1), pt(2, -2));
    let p1 = l1.intersect(l2).unwrap_point();
    let p2 = l2.intersect(l1).unwrap_point();
    assert_eq!(p1, p2);
    let x = p1.x();
    let y = p1.y();
    let p1 = (
        x.numerator() as f64 / x.denominator() as f64,
        y.numerator() as f64 / y.denominator() as f64,
    );
    assert_eq!(p1, (17. / 11., -7. / 11.));

    let l1 = Line::spanned_by(pt(1, 1), pt(3, 5));
    let l2 = Line::spanned_by(pt(2, -2), pt(3, 0));
    assert_ne!(l1, l2);
    assert!(matches!(l1.intersect(l2), LineIntersection::Empty));
    let l2 = Line::spanned_by(pt(-2, -5), pt(-1, -3));
    assert_eq!(l1, l2);
    assert!(matches!(l1.intersect(l2), LineIntersection::Line(_)));
}

#[test]
fn test_line_closest_point_to() {
    let l1 = Line::spanned_by(pt(1, 3), pt(2, 1));
    assert_eq!(l1.closest_point_to(pt(0, 0)), Point::from((2, 1)));
    assert_eq!(l1.closest_point_to(pt(7, 1)), Point::from((3, -1)));
    assert_eq!(l1.closest_point_to(pt(1, 3)), Point::from((1, 3)));

    // Horizontal line
    let l2 = Line::spanned_by(pt(1, 5), pt(2, 5));
    assert_eq!(l2.closest_point_to(pt(1, 5)), Point::from((1, 5)));
    assert_eq!(l2.closest_point_to(pt(-10, 5)), Point::from((-10, 5)));
    assert_eq!(l2.closest_point_to(pt(7, 8)), Point::from((7, 5)));

    // Vertical line
    let l3 = Line::spanned_by(pt(3, 1), Point::from((3, 4)));
    assert_eq!(l3.closest_point_to(pt(0, 0)), Point::from((3, 0)));
    assert_eq!(l3.closest_point_to(pt(6, 3)), Point::from((3, 3)));
    assert_eq!(l3.closest_point_to(pt(-123, 45)), Point::from((3, 45)));
}

#[test]
fn test_segment_intersection() {
    // -2 -5 7 -5 -3 -5 -4 -5
    assert_eq!(
        Segment::between(pt(-2, -5), pt(7, -5))
            .unwrap()
            .intersect(Segment::between(pt(-3, -5), pt(-4, -5)).unwrap()),
        SegmentIntersection::Empty
    );

    assert_eq!(
        Segment::between(pt(-2, -5), pt(7, -5))
            .unwrap()
            .intersect(Segment::between(pt(-3, -5), pt(-2, -5)).unwrap()),
        SegmentIntersection::Point(Point::from((-2, -5)))
    );

    assert_eq!(
        Segment::between(pt(-2, -5), pt(7, -5))
            .unwrap()
            .intersect(Segment::between(pt(-3, -5), pt(-1, -5)).unwrap()),
        SegmentIntersection::Segment(Segment::between(pt(-1, -5), pt(-2, -5)).unwrap())
    );

    // -4 -4 -4 -9 -4 1 -4 -2
    assert_eq!(
        Segment::between(pt(-4, -4), pt(-4, -9))
            .unwrap()
            .intersect(Segment::between(pt(-4, 1), pt(-4, -2)).unwrap()),
        SegmentIntersection::Empty
    );
}

#[test]
fn test_segment_equality() {
    assert_eq!(
        Segment::between(pt(0, 1), pt(0, 2)).unwrap(),
        Segment::between(pt(0, 1), pt(0, 2)).unwrap()
    );
    assert_eq!(
        Segment::between(pt(0, 1), pt(0, 2)).unwrap(),
        Segment::between(pt(0, 2), pt(0, 1)).unwrap()
    );
}
