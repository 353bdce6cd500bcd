//! Exact Delaunay triangulation and medial-axis extraction on an integer grid.
//!
//! Points carry integer coordinates, circumcenters are kept as exact rationals,
//! and every predicate (in-circle, collinearity, point-in-polygon) is decided
//! without rounding.
//!
//! The way through the crate:
//!
//! - [`delaunay`] triangulates points by incremental insertion into an
//!   enclosing triangle. No point lies strictly inside the circumcircle of a
//!   triangle that it returns.
//! - [`triangles_within`] keeps the triangles that lie inside an outline, which
//!   [`point_inside_shape`] tells by casting a ray.
//! - [`edge_adjacency`] finds for each edge the one or two triangles that it is
//!   a side of, and [`medial_axis`] joins the circumcenters of the two
//!   triangles of every shared edge.
//!
//! The modules `power`, `parity`, `pairing`, `enclosure` and `emptiness` hold
//! the geometry and the counting from which the emptiness of the circumcircles
//! is proved.

pub mod adjacency;
pub mod bounds;
pub mod edge;
pub mod emptiness;
pub mod enclosure;
pub mod error;
pub mod index;
pub mod medial;
pub mod pairing;
pub mod parity;
pub mod point;
pub mod polygon;
pub mod power;
pub mod sequences;
pub mod tally;
pub mod triangle;
pub mod triangulator;

pub use adjacency::{edge_adjacency, Incidence};
pub use edge::Edge;
pub use enclosure::{bounds_of, Bounds};
pub use error::GeometryError;
pub use medial::{medial_axis, AxisEdge};
pub use point::{Point, GRID_MAX, REACH};
pub use polygon::{point_inside_shape, triangles_within};
pub use tally::cancel_pairs;
pub use triangle::{Center, Triangle};
pub use triangulator::{delaunay, insert_point};
