//! Graph-based clustering: build an undirected graph from entity-id pairs,
//! compute all-pairs shortest-path hop counts, and partition the nodes into
//! `k` clusters by incremental nearest-medoid assignment.

pub mod clustering;
pub mod graph_build;
pub mod medoid;
pub mod oracle;
pub mod petgraph_api;
pub mod rand_api;

pub use clustering::cluster_graph_k_mean;
pub use clustering::ClusterError;
pub use graph_build::build_graph;
pub use medoid::graph_get_center;
pub use medoid::Cluster;
pub use oracle::all_pairs_distances;
pub use oracle::graph_get_distance;
pub use oracle::DistanceOracle;
pub use oracle::MAX_DISTANCE;
