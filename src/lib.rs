//! A k-d tree over integer points: bounding-box aware insertion with
//! midpoint splitting, and exact k-nearest-neighbour search under the
//! squared Euclidean distance.
pub mod candidates;
pub mod kdtree;
pub mod metric;

pub use kdtree::{ErrorKind, KdTree};
