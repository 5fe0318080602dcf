//! Points, lines, segments and polygons with exact rational coordinates.
//!
//! A point is kept in homogeneous coordinates: three integers `(x, y, z)`
//! that stand for the position `(x / z, y / z)`. The predicates on points
//! are computed on these integers, without any rounding.
pub mod coordinate;
pub mod hull;
pub mod hull_area;
pub mod laws;
pub mod polygon;
pub mod primitive;
pub mod unit;

pub use coordinate::ValidCoordinate;
pub use hull::convex_hull;
pub use polygon::{Polygon, PolygonSegmentIter};
pub use primitive::{Line, LineIntersection, Orientation, Point, Segment, SegmentIntersection};
pub use unit::Unit;
