//! Polygon containment resolution for layered manufacturing output.
//!
//! Closed polygons extracted from a flattened vector path may nest
//! arbitrarily deeply.  The resolver assigns every polygon its nesting
//! level (how many other polygon boundaries enclose it) and the index of
//! its immediate enclosing polygon, by a single top-to-bottom sweep over
//! all polygon vertices with an x-ordered set of active edges.
//!
//! Coordinates are fixed-point integers (`i32`); a caller working in
//! floating point scales its coordinates before building `Point`s, so
//! that all comparisons and the edge/vertex ordering here are exact.

pub mod polygons;
pub mod poly_points;
pub mod scanline;
pub mod resolver;
