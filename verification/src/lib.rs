//! Turns a tile occupancy grid into collider rectangles and occluder edges.
//!
//! Two passes read the same [`Grid`]. [`partition`] cuts the solid cells into
//! rectangles that do not overlap; [`build_edges`] traces the boundary
//! between solid and open space as straight segments. Neither changes the
//! grid, and neither needs the other.

pub mod cells;
pub mod edge_laws;
pub mod edges;
pub mod grid;
pub mod plates;
pub mod rect_laws;
pub mod rects;
pub mod runs;

pub use crate::cells::{Cell, Cells};
pub use crate::edges::{build_edges, Edge, Edges, TILE_SIZE};
pub use crate::grid::{Grid, TaggedCell};
pub use crate::plates::{plate_rows, row_plates, Plate};
pub use crate::rects::{partition, Rect};
pub use crate::runs::Side;
