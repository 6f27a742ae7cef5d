use graphcluster::all_pairs_distances;
use graphcluster::build_graph;
use graphcluster::cluster_graph_k_mean;
use graphcluster::graph_get_center;
use graphcluster::graph_get_distance;
use graphcluster::ClusterError;
use graphcluster::MAX_DISTANCE;
use petgraph::graph::NodeIndex;

#[test]
fn test_for_build_graph() {
    let edges: Vec<(u64, u64)> = vec![(1, 2), (1, 3), (2, 4), (3, 4), (4, 5), (5, 1), (5, 2)];
    let g = build_graph(edges);
    assert_eq!(g.node_count(), 5);
    assert_eq!(g.edge_count(), 7);
}

#[test]
fn test_cluster_graph_k_mean() {
    let edges: Vec<(u64, u64)> = vec![(1, 2), (1, 3), (2, 3), (4, 5)];
    let g = build_graph(edges);
    let clusters = cluster_graph_k_mean(&g, 2).unwrap();
    let mut a: Vec<u64> = clusters[0].iter().map(|&n| g[n]).collect();
    let mut b: Vec<u64> = clusters[1].iter().map(|&n| g[n]).collect();

    println!("test_cluster_graph_k_mean a clusters {:#?} b {:#?}", a, b);
    if a.len() < b.len() {
        (a, b) = (b, a)
    }
    assert_eq!(a.len() + b.len(), 5);
}

#[test]
fn build_graph_dedupes_nodes_not_edges() {
    // Repeated pairs and self-loops each add an edge; ids are registered once.
    let edges: Vec<(u64, u64)> = vec![(1, 1), (1, 2), (2, 1), (1, 2)];
    let g = build_graph(edges);
    assert_eq!(g.node_count(), 2);
    assert_eq!(g.edge_count(), 4);
}

#[test]
fn build_graph_first_seen_order() {
    // Node positions follow first appearance: 7 -> 0, 3 -> 1, 9 -> 2.
    let edges: Vec<(u64, u64)> = vec![(7, 3), (3, 9), (9, 7)];
    let g = build_graph(edges);
    assert_eq!(g[NodeIndex::new(0)], 7u64);
    assert_eq!(g[NodeIndex::new(1)], 3u64);
    assert_eq!(g[NodeIndex::new(2)], 9u64);
}

#[test]
fn build_graph_empty() {
    let g = build_graph(Vec::new());
    assert_eq!(g.node_count(), 0);
    assert_eq!(g.edge_count(), 0);
}

#[test]
fn distance_exact_hop_counts() {
    // Path 1 - 2 - 3: positions 0, 1, 2.
    let edges: Vec<(u64, u64)> = vec![(1, 2), (2, 3)];
    let g = build_graph(edges);
    let oracle = all_pairs_distances(&g);
    let n1 = NodeIndex::new(0);
    let n2 = NodeIndex::new(1);
    let n3 = NodeIndex::new(2);
    assert_eq!(graph_get_distance(&oracle, &n1, &n1), 0);
    assert_eq!(graph_get_distance(&oracle, &n1, &n2), 1);
    assert_eq!(graph_get_distance(&oracle, &n1, &n3), 2);
    assert_eq!(graph_get_distance(&oracle, &n3, &n1), 2);
}

#[test]
fn distance_sentinel_for_unreachable() {
    // Two components: 1 - 2 and 3 - 4. Cross-component lookups miss the
    // distance row and must come back as the sentinel, never a hop count.
    let edges: Vec<(u64, u64)> = vec![(1, 2), (3, 4)];
    let g = build_graph(edges);
    let oracle = all_pairs_distances(&g);
    let n1 = NodeIndex::new(0);
    let n3 = NodeIndex::new(2);
    assert_eq!(graph_get_distance(&oracle, &n1, &n3), MAX_DISTANCE);
    assert_eq!(graph_get_distance(&oracle, &n3, &n1), MAX_DISTANCE);
    assert_eq!(MAX_DISTANCE, 100);
}

#[test]
fn center_of_path_is_middle() {
    // Path 1 - 2 - 3: summed distances are 3, 2, 3, so node 2 is medoid.
    let edges: Vec<(u64, u64)> = vec![(1, 2), (2, 3)];
    let g = build_graph(edges);
    let oracle = all_pairs_distances(&g);
    let cluster = vec![NodeIndex::new(0), NodeIndex::new(1), NodeIndex::new(2)];
    let center = graph_get_center(&oracle, &cluster);
    assert_eq!(g[center], 2u64);
}

#[test]
fn center_tie_breaks_to_first_member() {
    // Members 1 and 3 of the path 1 - 2 - 3 both sum to 2: first one wins.
    let edges: Vec<(u64, u64)> = vec![(1, 2), (2, 3)];
    let g = build_graph(edges);
    let oracle = all_pairs_distances(&g);
    let cluster = vec![NodeIndex::new(2), NodeIndex::new(0)];
    let center = graph_get_center(&oracle, &cluster);
    assert_eq!(g[center], 3u64);
}

#[test]
fn cluster_rejects_k_above_node_count() {
    let edges: Vec<(u64, u64)> = vec![(1, 2), (2, 3)];
    let g = build_graph(edges);
    let r = cluster_graph_k_mean(&g, 4);
    assert_eq!(r, Err(ClusterError::InsufficientNodes));
}

#[test]
fn cluster_empty_graph_zero_k() {
    let g = build_graph(Vec::new());
    assert_eq!(g.node_count(), 0);
    let clusters = cluster_graph_k_mean(&g, 0).unwrap();
    assert_eq!(clusters.len(), 0);
}

#[test]
fn cluster_partitions_all_nodes() {
    // Every node ends up in exactly one cluster, whatever the random order.
    let edges: Vec<(u64, u64)> = vec![(1, 2), (1, 3), (2, 3), (4, 5)];
    let g = build_graph(edges);
    for _ in 0..10 {
        let clusters = cluster_graph_k_mean(&g, 2).unwrap();
        assert_eq!(clusters.len(), 2);
        let mut seen: Vec<u64> = Vec::new();
        for c in clusters.iter() {
            assert!(!c.is_empty());
            for &n in c.iter() {
                seen.push(g[n]);
            }
        }
        seen.sort();
        assert_eq!(seen, vec![1, 2, 3, 4, 5]);
    }
}

#[test]
fn cluster_single_cluster_holds_everything() {
    let edges: Vec<(u64, u64)> = vec![(1, 2), (3, 4)];
    let g = build_graph(edges);
    let clusters = cluster_graph_k_mean(&g, 1).unwrap();
    assert_eq!(clusters.len(), 1);
    assert_eq!(clusters[0].len(), 4);
}

#[test]
fn cluster_k_equals_node_count() {
    // Each node seeds its own cluster; nothing is left to assign.
    let edges: Vec<(u64, u64)> = vec![(1, 2), (2, 3)];
    let g = build_graph(edges);
    let clusters = cluster_graph_k_mean(&g, 3).unwrap();
    assert_eq!(clusters.len(), 3);
    for c in clusters.iter() {
        assert_eq!(c.len(), 1);
    }
}
