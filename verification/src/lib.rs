//! Planar polygon geometry on an integer grid, for filling and outlining
//! polygons with triangles.
//!
//! Points have whole coordinates, so every predicate is computed exactly: the
//! turn of three points, the side on which a line passes a point, whether two
//! segments meet. Where a result does not lie on the grid, such as the
//! crossing of two lines, it is rounded down, and the contracts say so.
//!
//! - `point`: points, vectors, segments, the orientation predicate.
//! - `vector_ops`: the operators on points and vectors.
//! - `intersection`: how two segments meet, and which segments of a list
//!   cross.
//! - `edges`: the edges of polygons that occur an odd number of times, which
//!   bound what the polygons cover by the even-odd rule.
//! - `split`: a polygon that revisits points, split along its repeated edges.
//! - `half_edge`, `point_edges`: the endpoints of a set of edges from the
//!   highest down, each with its edges.
//! - `face_triangulation`: the sweep that cuts a set of edges into monotone
//!   polygons.
//! - `monotone_polygon`: monotone polygons and their triangulation.
//! - `area`: the area law of that triangulation: the triangles have at least
//!   the area that the polygon encloses, and when exactly that.
//! - `funnel`: polygons whose chains lie apart as the cut rule takes them to
//!   lie, of which the area law holds exactly.
//! - `face`: from edges to triangles over a list of vertices.
//! - `stroke`: the triangles of the outline of a path.
//! - `laws`: what holds of the triangulation of a triangle.

pub mod area;
pub mod edges;
pub mod face;
pub mod face_triangulation;
pub mod funnel;
pub mod half_edge;
pub mod intersection;
pub mod laws;
pub mod monotone_polygon;
pub mod point;
pub mod point_edges;
pub mod split;
pub mod stroke;
pub mod vector_ops;

pub use crate::face::{face_triangulation, triangulate_polygons_face};
pub use crate::face_triangulation::sweeping_line_triangulation;
pub use crate::point::Point;
