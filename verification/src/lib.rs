//! An online ball tree: an incrementally built spatial index over keys with
//! opaque payloads, answering approximate nearest-neighbour queries.
//!
//! Keys are any type with a measurable difference (a metric capability):
//! a scalar distance between two keys and a weighted midpoint of two balls.
//! The tree keeps every inserted pair inside nested bounding balls; a query
//! descends greedily toward the nearer child, fans out in parallel once a
//! subtree is too small to fill the quota alone, and sorts the candidates by
//! their true distance to the query key.

pub mod ball;
pub mod metric;
pub mod nodes;
pub mod point;
pub mod tree;

pub use ball::Ball;
pub use tree::BallTree;
pub use metric::HasMeasurableDiff;
pub use metric::MAX_DIFF;
pub use nodes::calc_total_nodes;
pub use point::Point;
pub use point::SCALE;
