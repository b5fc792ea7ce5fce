//! Vectors, the metrics that compare them, and the collection that holds them.

mod buffer;
pub mod collection;
pub mod distance;
pub mod ranking;
pub mod vector;

pub use collection::VectorCollection;
pub use distance::{DistanceMetric, Measurements};
pub use vector::Vector;
