//! Connected groups of points of the plane.
//!
//! Every distinct point gets a dense identifier in order of first appearance,
//! a parent-pointer forest over the identifiers records which points have been
//! connected, and the groups can be read off root by root.

pub mod point;
pub mod record;
pub mod forest;
pub mod lemmas;
pub mod registry;
pub mod laws;

pub use point::Point;
pub use registry::UnionFind;
