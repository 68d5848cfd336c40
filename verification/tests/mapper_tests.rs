use tda_rs::mapper::{cluster_edges, graph_from_clusters, group_by_label, MapperEdge, MapperGraph, MapperNode};

#[test]
fn test_mapper_n_components() {
    let graph = MapperGraph {
        nodes: vec![
            MapperNode { id: 0, points: vec![0] },
            MapperNode { id: 1, points: vec![1] },
        ],
        edges: vec![MapperEdge { source: 0, target: 1 }],
    };
    assert_eq!(graph.n_components(), 1);
    assert!(graph.is_connected());
}

#[test]
fn test_mapper_disconnected() {
    let graph = MapperGraph {
        nodes: vec![
            MapperNode { id: 0, points: vec![0] },
            MapperNode { id: 1, points: vec![1] },
        ],
        edges: vec![],
    };
    assert_eq!(graph.n_components(), 2);
    assert!(!graph.is_connected());
}

fn path_graph() -> MapperGraph {
    MapperGraph {
        nodes: (0..5).map(|i| MapperNode { id: i, points: vec![i] }).collect(),
        edges: vec![
            MapperEdge { source: 0, target: 1 },
            MapperEdge { source: 1, target: 2 },
            MapperEdge { source: 3, target: 4 },
        ],
    }
}

#[test]
fn components_of_two_paths() {
    let g = path_graph();
    assert_eq!(g.n_nodes(), 5);
    assert_eq!(g.n_edges(), 3);
    assert_eq!(g.n_components(), 2);
    assert!(!g.is_connected());
}

#[test]
fn adjacency_lists_both_directions_in_edge_order() {
    let g = path_graph();
    let adj = g.adjacency();
    assert_eq!(adj.len(), 5);
    assert_eq!(adj[&0], vec![1]);
    assert_eq!(adj[&1], vec![0, 2]);
    assert_eq!(adj[&2], vec![1]);
    assert_eq!(adj[&4], vec![3]);
}

#[test]
fn empty_graph_is_connected_with_no_components() {
    let g = MapperGraph { nodes: vec![], edges: vec![] };
    assert!(g.is_connected());
    assert_eq!(g.n_components(), 0);
}

#[test]
fn cluster_edges_join_overlapping_clusters_of_different_intervals() {
    let clusters = vec![vec![0, 1], vec![1, 2], vec![5], vec![2, 3]];
    let intervals = vec![0, 1, 1, 2];
    let edges = cluster_edges(&clusters, &intervals);
    let pairs: Vec<(usize, usize)> = edges.iter().map(|e| (e.source, e.target)).collect();
    assert_eq!(pairs, vec![(0, 1), (1, 3)]);
}

#[test]
fn cluster_edges_skip_clusters_of_one_interval() {
    let clusters = vec![vec![0, 1], vec![1]];
    let intervals = vec![4, 4];
    assert!(cluster_edges(&clusters, &intervals).is_empty());
}

#[test]
fn group_by_label_keeps_order_and_drops_empty_clusters() {
    let indices = vec![10, 11, 12, 13];
    let labels = vec![2, 0, 2, 0];
    let clusters = group_by_label(&indices, &labels, 3);
    assert_eq!(clusters, vec![vec![11, 13], vec![10, 12]]);
}

#[test]
fn graph_from_clusters_numbers_the_nodes() {
    let clusters = vec![vec![0, 1], vec![1, 2]];
    let g = graph_from_clusters(&clusters, &vec![0, 1]);
    assert_eq!(g.n_nodes(), 2);
    assert_eq!(g.nodes[1].id, 1);
    assert_eq!(g.nodes[1].points, vec![1, 2]);
    assert_eq!(g.n_edges(), 1);
    assert!(g.is_connected());
}

#[test]
fn connected_exactly_when_one_component() {
    let cases = vec![
        (vec![vec![0, 1], vec![1, 2], vec![2, 3]], vec![0, 1, 2]),
        (vec![vec![0], vec![1], vec![2]], vec![0, 1, 2]),
        (vec![vec![0, 1], vec![1]], vec![0, 0]),
        (vec![vec![4]], vec![0]),
    ];
    for (clusters, intervals) in cases {
        let g = graph_from_clusters(&clusters, &intervals);
        assert_eq!(g.is_connected(), g.n_components() <= 1);
    }
}
