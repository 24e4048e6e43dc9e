//! Exact nearest-neighbor search over a static set of 2-D points with
//! integer coordinates: a brute-force baseline, a k-d tree with verified
//! branch-and-bound search, and a batch runner that answers many queries
//! in input order.

pub mod batch;
pub mod brute_force;
pub mod laws;
pub mod point;
pub mod search;
pub mod spatial_tree;

pub use batch::BatchQueryRunner;
pub use brute_force::nearest_neighbor_noddy;
pub use point::get_distance_squared;
pub use point::Point;
pub use search::QueryResult;
pub use search::SearchError;
pub use spatial_tree::SpatialTree;
