//! A 3-D axis-aligned bounding-box (AABB) spatial index with two
//! construction strategies: a one-shot bulk loader that builds a balanced
//! tree from a complete leaf set, and a dynamic R-tree that supports
//! single-item insertion with split-on-overflow rebalancing. Both support
//! overlap queries over the stored leaves.
//!
//! Coordinates are bounded integers, so every geometric computation in the
//! index (merging, overlap tests, volume scoring) is exact.

pub mod aabb;
pub mod autodiff;
pub mod omt;
pub mod rtree;

pub use aabb::AABB;
pub use aabb::Leaf;
