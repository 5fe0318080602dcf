//! Polygons: ordered points with a closing edge from the last point to the
//! first.
use crate::geometry::primitive::{Point, Segment};
use crate::math::arith::reduced;
use crate::math::quot::{
    fits_pair, ratio_difference, ratio_product, ratio_quotient, ratio_sum, representable, Quot,
};
use vstd::prelude::*;
use vstd::std_specs::convert::FromSpecImpl;

verus! {

/// A polygon: its vertices in order. The edge from the last vertex to the
/// first closes it.
pub struct Polygon(Vec<Point>);

impl View for Polygon {
    type V = Seq<Point>;

    closed spec fn view(&self) -> Seq<Point> {
        self.0@
    }
}

/// The vertex before the `i`-th, cyclically.
pub open spec fn vertex_before(points: Seq<Point>, i: int) -> Point {
    if i == 0 {
        points.last()
    } else {
        points[i - 1]
    }
}

/// The edges of a polygon, the closing edge first: the `i`-th edge ends in
/// the `i`-th vertex.
pub open spec fn edges(points: Seq<Point>) -> Seq<Segment> {
    Seq::new(points.len(), |i: int| Segment(vertex_before(points, i), points[i]))
}

/// Whether every edge of the polygon is a segment: there is a vertex, and no
/// vertex coincides with the one before it.
pub open spec fn has_edges(points: Seq<Point>) -> bool {
    &&& points.len() >= 1
    &&& forall|i: int|
        0 <= i < points.len() ==> !vertex_before(points, i).same_position(#[trigger] points[i])
}

/// The shoelace term of the edge from `p` to `q`: `p.x * q.y - q.x * p.y`
/// on the logical coordinates, as a ratio in lowest terms.
pub open spec fn shoelace_term(p: Point, q: Point) -> (int, int) {
    ratio_difference(
        ratio_product(reduced(p.x as int, p.z@), reduced(q.y as int, q.z@)),
        ratio_product(reduced(q.x as int, q.z@), reduced(p.y as int, p.z@)),
    )
}

/// The sum of the shoelace terms of the first `k` edges.
pub open spec fn shoelace(points: Seq<Point>, k: nat) -> (int, int)
    decreases k,
{
    if k == 0 {
        (0, 1)
    } else {
        ratio_sum(
            shoelace(points, (k - 1) as nat),
            shoelace_term(vertex_before(points, k - 1), points[k - 1]),
        )
    }
}

/// The signed area of the polygon: half the shoelace sum.
pub open spec fn signed_area(points: Seq<Point>) -> (int, int) {
    ratio_quotient(shoelace(points, points.len()), (2, 1))
}

/// Whether the shoelace term of the edge from `p` to `q` can be formed on
/// the machine.
pub open spec fn term_defined(p: Point, q: Point) -> bool {
    &&& representable(p.x as int, p.z@)
    &&& representable(p.y as int, p.z@)
    &&& representable(q.x as int, q.z@)
    &&& representable(q.y as int, q.z@)
    &&& fits_pair(ratio_product(reduced(p.x as int, p.z@), reduced(q.y as int, q.z@)))
    &&& fits_pair(ratio_product(reduced(q.x as int, q.z@), reduced(p.y as int, p.z@)))
    &&& fits_pair(shoelace_term(p, q))
}

/// Whether the signed area can be formed on the machine: there is a vertex,
/// and every term, every partial sum and the half of the sum fit.
pub open spec fn area_defined(points: Seq<Point>) -> bool {
    &&& points.len() >= 1
    &&& forall|i: int|
        0 <= i < points.len() ==> term_defined(vertex_before(points, i), #[trigger] points[i])
    &&& forall|k: nat| 0 < k <= points.len() ==> fits_pair(#[trigger] shoelace(points, k))
    &&& fits_pair(signed_area(points))
}

/// Whether the first `count` terms of the shoelace sum and the sums of them
/// can be formed on the machine.
pub open spec fn sums_defined(points: Seq<Point>, count: nat) -> bool
    decreases count,
{
    if count == 0 {
        true
    } else {
        &&& sums_defined(points, (count - 1) as nat)
        &&& term_defined(vertex_before(points, count - 1), points[count - 1])
        &&& fits_pair(shoelace(points, count))
    }
}

/// A property that holds up to a count if it held before and two further
/// conditions hold holds up to the count exactly if all the conditions up to
/// it do.
proof fn lemma_conjunction(
    whole: spec_fn(nat) -> bool,
    first: spec_fn(int) -> bool,
    second: spec_fn(nat) -> bool,
    count: nat,
)
    requires
        whole(0),
        forall|k: nat|
            k > 0 ==> #[trigger] whole(k) == (whole((k - 1) as nat) && first(k - 1) && second(k)),
    ensures
        whole(count) <==> (forall|i: int| 0 <= i < count ==> #[trigger] first(i)) && (forall|k: nat|
            0 < k <= count ==> #[trigger] second(k)),
    decreases count,
{
    if count > 0 {
        lemma_conjunction(whole, first, second, (count - 1) as nat);
        assert(whole(count) == (whole((count - 1) as nat) && first(count - 1) && second(count)));
        if whole(count) {
            assert forall|i: int| 0 <= i < count implies #[trigger] first(i) by {
                if i == count - 1 {
                }
            }
            assert forall|k: nat| 0 < k <= count implies #[trigger] second(k) by {
                if k == count {
                }
            }
        } else if whole((count - 1) as nat) {
            if !first(count - 1) {
            } else {
                assert(!second(count));
            }
        }
    }
}

/// The terms and sums up to `count` can be formed exactly if each of them
/// can.
pub proof fn lemma_sums_defined(points: Seq<Point>, count: nat)
    ensures
        sums_defined(points, count) <==> (forall|i: int|
            0 <= i < count ==> term_defined(vertex_before(points, i), #[trigger] points[i]))
            && (forall|k: nat| 0 < k <= count ==> fits_pair(#[trigger] shoelace(points, k))),
{
    let whole = |k: nat| sums_defined(points, k);
    let first = |i: int| term_defined(vertex_before(points, i), points[i]);
    let second = |k: nat| fits_pair(shoelace(points, k));
    assert forall|k: nat| k > 0 implies #[trigger] whole(k) == (whole((k - 1) as nat) && first(
        k - 1,
    ) && second(k)) by {}
    lemma_conjunction(whole, first, second, count);
    if sums_defined(points, count) {
        assert forall|i: int| 0 <= i < count implies term_defined(
            vertex_before(points, i),
            #[trigger] points[i],
        ) by {
            assert(first(i));
        }
        assert forall|k: nat| 0 < k <= count implies fits_pair(
            #[trigger] shoelace(points, k),
        ) by {
            assert(second(k));
        }
    } else {
        if (forall|i: int|
            0 <= i < count ==> term_defined(vertex_before(points, i), #[trigger] points[i]))
            && (forall|k: nat| 0 < k <= count ==> fits_pair(#[trigger] shoelace(points, k))) {
            assert forall|i: int| 0 <= i < count implies #[trigger] first(i) by {
                assert(term_defined(vertex_before(points, i), points[i]));
            }
            assert forall|k: nat| 0 < k <= count implies #[trigger] second(k) by {
                assert(fits_pair(shoelace(points, k)));
            }
        }
    }
}

/// If the terms and sums up to a count can be formed, so can those up to a
/// smaller count.
pub proof fn lemma_sums_defined_before(points: Seq<Point>, fewer: nat, more: nat)
    requires
        fewer <= more,
        sums_defined(points, more),
    ensures
        sums_defined(points, fewer),
    decreases more - fewer,
{
    if fewer < more {
        lemma_sums_defined_before(points, fewer, (more - 1) as nat);
    }
}

/// The sum so far with the term of the next edge, or `None` if the term or
/// the sum cannot be formed on the machine.
fn checked_step(area: Quot, p: Point, q: Point) -> (r: Option<Quot>)
    ensures
        r.is_some() == (term_defined(p, q) && fits_pair(ratio_sum(area@, shoelace_term(p, q)))),
        r matches Some(sum) ==> sum@ == ratio_sum(area@, shoelace_term(p, q)) && sum.wf(),
{
    match checked_term(p, q) {
        Some(term) => area.checked_add(term),
        None => None,
    }
}

/// The shoelace term of the edge from `p` to `q`, or `None` if it cannot be
/// formed on the machine.
fn checked_term(p: Point, q: Point) -> (r: Option<Quot>)
    ensures
        r.is_some() == term_defined(p, q),
        r matches Some(term) ==> term@ == shoelace_term(p, q) && term.wf(),
{
    let (pz, qz) = (p.z.get(), q.z.get());
    if !(Quot::can_represent(p.x, pz) && Quot::can_represent(p.y, pz) && Quot::can_represent(
        q.x,
        qz,
    ) && Quot::can_represent(q.y, qz)) {
        return None;
    }
    match (p.x().checked_mul(q.y()), q.x().checked_mul(p.y())) {
        (Some(left), Some(right)) => left.checked_sub(right),
        _ => None,
    }
}

/// The edges of a polygon that are still to come, from either end.
pub struct PolygonSegmentIter<'a> {
    previous: Point,
    points: &'a Vec<Point>,
    front: usize,
    back: usize,
}

impl<'a> PolygonSegmentIter<'a> {
    /// Validity: the edges that are left are edges of a polygon with edges.
    pub closed spec fn wf(self) -> bool {
        &&& has_edges(self.points@)
        &&& self.front <= self.back <= self.points@.len()
        &&& self.previous == vertex_before(self.points@, self.front as int)
    }

    /// The edges that are left, in order.
    pub closed spec fn remaining(self) -> Seq<Segment> {
        edges(self.points@).subrange(self.front as int, self.back as int)
    }

    /// The next edge from the front, if any is left.
    pub fn next(&mut self) -> (r: Option<Segment>)
        requires
            old(self).wf(),
        ensures
            final(self).wf(),
            old(self).remaining().len() == 0 ==> r.is_none() && final(self).remaining()
                == old(self).remaining(),
            old(self).remaining().len() > 0 ==> r == Some(old(self).remaining().first())
                && final(self).remaining() == old(self).remaining().drop_first(),
    {
        if self.front == self.back {
            return None;
        }
        let first = self.points[self.front];
        assert(!vertex_before(self.points@, self.front as int).same_position(
            self.points@[self.front as int],
        ));
        let segment = Segment::between(self.previous, first).unwrap();
        self.previous = first;
        self.front = self.front + 1;
        assert(final(self).remaining() =~= old(self).remaining().drop_first());
        Some(segment)
    }

    /// The next edge from the back, if any is left.
    pub fn next_back(&mut self) -> (r: Option<Segment>)
        requires
            old(self).wf(),
        ensures
            final(self).wf(),
            old(self).remaining().len() == 0 ==> r.is_none() && final(self).remaining()
                == old(self).remaining(),
            old(self).remaining().len() > 0 ==> r == Some(old(self).remaining().last())
                && final(self).remaining() == old(self).remaining().drop_last(),
    {
        if self.front == self.back {
            return None;
        }
        let end = self.points[self.back - 1];
        let start = if self.back - 1 == self.front {
            self.previous
        } else {
            self.points[self.back - 2]
        };
        assert(!vertex_before(self.points@, self.back - 1).same_position(
            self.points@[self.back - 1],
        ));
        let segment = Segment::between(start, end).unwrap();
        self.back = self.back - 1;
        assert(final(self).remaining() =~= old(self).remaining().drop_last());
        Some(segment)
    }
}

impl Polygon {
    /// The vertices, in order.
    pub fn points(&self) -> (r: Vec<Point>)
        ensures
            r@ == self@,
    {
        let mut out: Vec<Point> = Vec::new();
        let mut i: usize = 0;
        while i < self.0.len()
            invariant
                0 <= i <= self.0@.len(),
                out@ == self.0@.take(i as int),
            decreases self.0@.len() - i,
        {
            out.push(self.0[i]);
            assert(out@ =~= self.0@.take(i as int + 1));
            i += 1;
        }
        assert(out@ =~= self.0@);
        out
    }

    /// The edges, the closing edge from the last vertex to the first one
    /// first; as many as there are vertices.
    pub fn segments(&self) -> (r: PolygonSegmentIter<'_>)
        requires
            has_edges(self@),
        ensures
            r.wf(),
            r.remaining() == edges(self@),
    {
        let n = self.0.len();
        let r = PolygonSegmentIter { previous: self.0[n - 1], points: &self.0, front: 0, back: n };
        assert(r.remaining() =~= edges(self@));
        r
    }

    /// Tests whether every edge of the polygon is a segment: whether
    /// [`Polygon::segments`] can be called.
    pub fn can_have_segments(&self) -> (r: bool)
        ensures
            r == has_edges(self@),
    {
        let n = self.0.len();
        if n == 0 {
            return false;
        }
        let mut previous = self.0[n - 1];
        let mut i: usize = 0;
        while i < n
            invariant
                0 <= i <= n,
                n == self.0@.len(),
                previous == vertex_before(self.0@, i as int),
                forall|k: int|
                    0 <= k < i ==> !vertex_before(self.0@, k).same_position(#[trigger] self.0@[k]),
            decreases n - i,
        {
            let current = self.0[i];
            if previous.coincides(current) {
                return false;
            }
            previous = current;
            i += 1;
        }
        true
    }

    /// Tests whether the signed area can be formed on the machine: whether
    /// [`Polygon::area`] can be called.
    pub fn can_compute_area(&self) -> (r: bool)
        ensures
            r == area_defined(self@),
    {
        let n = self.0.len();
        if n == 0 {
            return false;
        }
        let ghost points = self.0@;
        proof {
            lemma_sums_defined(points, n as nat);
        }
        let mut area = Quot::zero();
        let mut previous = self.0[n - 1];
        let mut i: usize = 0;
        while i < n
            invariant
                0 <= i <= n,
                n == self.0@.len(),
                points == self.0@,
                previous == vertex_before(points, i as int),
                area@ == shoelace(points, i as nat),
                area.wf(),
                sums_defined(points, i as nat),
                !sums_defined(points, n as nat) ==> !area_defined(points),
            decreases n - i,
        {
            let current = self.0[i];
            area = match checked_step(area, previous, current) {
                Some(sum) => sum,
                None => {
                    proof {
                        if sums_defined(points, n as nat) {
                            lemma_sums_defined_before(points, (i + 1) as nat, n as nat);
                        }
                    }
                    return false;
                },
            };
            previous = current;
            i += 1;
        }
        area.checked_div(Quot::from_int(2)).is_some()
    }

    /// Computes the signed area of the polygon.
    ///
    /// The area is positive if the vertices run counter-clockwise, and
    /// negative if they run clockwise.
    pub fn area(&self) -> (r: Quot)
        requires
            area_defined(self@),
        ensures
            r@ == signed_area(self@),
            r.wf(),
    {
        let n = self.0.len();
        let mut area = Quot::zero();
        let mut previous = self.0[n - 1];
        let mut i: usize = 0;
        while i < n
            invariant
                0 <= i <= n,
                n == self.0@.len(),
                area_defined(self.0@),
                previous == vertex_before(self.0@, i as int),
                area@ == shoelace(self.0@, i as nat),
                area.wf(),
            decreases n - i,
        {
            let current = self.0[i];
            assert(term_defined(vertex_before(self.0@, i as int), self.0@[i as int]));
            assert(fits_pair(shoelace(self.0@, (i + 1) as nat)));
            let term = previous.x().mul(current.y()).sub(current.x().mul(previous.y()));
            area = area.add(term);
            previous = current;
            i += 1;
        }
        area.div(Quot::from_int(2))
    }
}

impl From<Vec<Point>> for Polygon {
    /// The polygon with the given vertices, in their order.
    fn from(points: Vec<Point>) -> (r: Polygon)
        ensures
            r@ == points@,
    {
        Polygon(points)
    }
}

impl FromSpecImpl<Vec<Point>> for Polygon {
    open spec fn obeys_from_spec() -> bool {
        true
    }

    closed spec fn from_spec(points: Vec<Point>) -> Polygon {
        Polygon(points)
    }
}

} // verus!
