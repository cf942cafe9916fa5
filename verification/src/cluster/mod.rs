//! Clustering: the density-based (DBSCAN) labelling and the cluster
//! bookkeeping of agglomerative clustering.

pub mod dbscan;
pub mod hierarchical;

pub use dbscan::{dbscan_from_neighbors, DBSCANResult};
pub use hierarchical::{ClusterPartition, Linkage};
