use rustyai::cluster::dbscan::dbscan_from_neighbors;
use rustyai::cluster::hierarchical::{check_hierarchical, ClusterPartition};
use rustyai::error::RustyAIError;

/// The points within `eps` of each point, itself excluded.
fn region_neighbors(points: &[[f64; 2]], eps: f64) -> Vec<Vec<usize>> {
    let n = points.len();
    let mut out = Vec::new();
    for i in 0..n {
        let mut nb = Vec::new();
        for j in 0..n {
            let dx = points[i][0] - points[j][0];
            let dy = points[i][1] - points[j][1];
            if i != j && (dx * dx + dy * dy).sqrt() <= eps {
                nb.push(j);
            }
        }
        out.push(nb);
    }
    out
}

#[test]
fn test_dbscan() {
    let x = [[1.0, 2.0], [2.0, 2.0], [2.0, 3.0], [8.0, 7.0], [8.0, 8.0], [25.0, 80.0]];
    let result = dbscan_from_neighbors(&region_neighbors(&x, 3.0), 2).unwrap();
    assert!(result.n_clusters >= 1);
}

#[test]
fn test_dbscan_labels() {
    let x = [[1.0, 2.0], [2.0, 2.0], [2.0, 3.0], [8.0, 7.0], [8.0, 8.0], [25.0, 80.0]];
    let result = dbscan_from_neighbors(&region_neighbors(&x, 3.0), 2).unwrap();
    assert_eq!(result.labels, vec![0, 0, 0, -1, -1, -1]);
    assert_eq!(result.core_points, vec![0, 1, 2]);
    assert_eq!(result.n_clusters, 1);

    let result = dbscan_from_neighbors(&region_neighbors(&x, 3.0), 1).unwrap();
    assert_eq!(result.labels, vec![0, 0, 0, 1, 1, -1]);
    assert_eq!(result.n_clusters, 2);
}

#[test]
fn test_dbscan_border_point_joins_cluster() {
    // 0 - 1 - 2 in a chain: only 1 is a core point for min_samples 2
    let neighbors = vec![vec![1], vec![0, 2], vec![1], vec![]];
    let result = dbscan_from_neighbors(&neighbors, 2).unwrap();
    assert_eq!(result.labels, vec![0, 0, 0, -1]);
    assert_eq!(result.core_points, vec![1]);
}

#[test]
fn test_dbscan_all_noise_finds_no_cluster() {
    let result = dbscan_from_neighbors(&vec![vec![], vec![]], 1).unwrap();
    assert_eq!(result.labels, vec![-1, -1]);
    assert!(result.core_points.is_empty());
    assert_eq!(result.n_clusters, 0);
}

#[test]
fn test_dbscan_empty_data() {
    assert!(matches!(dbscan_from_neighbors(&vec![], 2), Err(RustyAIError::EmptyData)));
}

#[test]
fn test_cluster_partition_merge() {
    let mut p = ClusterPartition::singletons(4);
    assert_eq!(p.len(), 4);
    p.merge(0, 1);
    assert_eq!(p.len(), 3);
    assert_eq!(p.members(0), &vec![0, 1]);
    assert_eq!(p.members(1), &vec![2]);
    p.merge(1, 2);
    assert_eq!(p.len(), 2);
    assert_eq!(p.members(1), &vec![2, 3]);
    assert_eq!(p.labels(), vec![0, 0, 1, 1]);
}

#[test]
fn test_check_hierarchical() {
    assert!(matches!(check_hierarchical(0, 1), Err(RustyAIError::EmptyData)));
    match check_hierarchical(3, 4) {
        Err(RustyAIError::InvalidParameter { name, .. }) => assert_eq!(name, "n_clusters"),
        other => panic!("expected InvalidParameter, got {:?}", other),
    }
    assert!(check_hierarchical(4, 2).is_ok());
}
