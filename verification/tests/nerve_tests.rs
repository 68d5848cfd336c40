use tda_rs::complex::Simplex;
use tda_rs::mapper::{MapperEdge, MapperGraph, MapperNode};
use tda_rs::nerve::{mapper_graph_to_cover, verify_nerve_theorem, Cover};

#[test]
fn test_cover_valid() {
    let cover = Cover::new(vec![vec![0, 1], vec![1, 2], vec![2, 3]], 4);
    assert!(cover.is_valid());
}

#[test]
fn test_cover_invalid() {
    let cover = Cover::new(vec![vec![0, 1], vec![1, 2]], 4);
    assert!(!cover.is_valid());
}

#[test]
fn test_nerve_basic() {
    let cover = Cover::new(vec![vec![0, 1], vec![1, 2]], 3);
    let nerve = cover.nerve();
    // Sets 0 and 1 share point 1, so there's an edge
    assert!(nerve.contains(&Simplex::edge(0, 1)));
}

#[test]
fn test_nerve_disjoint() {
    let cover = Cover::new(vec![vec![0], vec![1]], 2);
    let nerve = cover.nerve();
    // Sets are disjoint, no edge
    assert!(!nerve.contains(&Simplex::edge(0, 1)));
}

#[test]
fn test_nerve_triple_overlap() {
    let cover = Cover::new(vec![vec![0, 1, 2], vec![0, 1, 2], vec![0, 1, 2]], 3);
    let nerve = cover.nerve();
    // All three sets overlap, so we get a triangle
    assert!(nerve.contains(&Simplex::new(vec![0, 1, 2])));
}

#[test]
fn test_verify_nerve_theorem() {
    let cover = Cover::new(vec![vec![0, 1], vec![1, 2], vec![0, 2]], 3);
    let verification = verify_nerve_theorem(&cover);
    assert!(verification.cover_is_valid);
    assert!(verification.contractibility_assumed);
    assert!(verification.nerve.n_simplices() > 0);
}

#[test]
fn test_mapper_to_cover() {
    let graph = MapperGraph {
        nodes: vec![
            MapperNode { id: 0, points: vec![0, 1] },
            MapperNode { id: 1, points: vec![1, 2] },
        ],
        edges: vec![MapperEdge { source: 0, target: 1 }],
    };
    let cover = mapper_graph_to_cover(&graph, 3);
    assert!(cover.is_valid());
    let nerve = cover.nerve();
    // Sets share point 1, so there's an edge
    assert!(nerve.contains(&Simplex::edge(0, 1)));
}

#[test]
fn test_nerve_empty_cover() {
    let cover = Cover::new(vec![], 0);
    let nerve = cover.nerve();
    assert_eq!(nerve.n_simplices(), 0);
}

#[test]
fn test_nerve_single_set() {
    let cover = Cover::new(vec![vec![0, 1, 2]], 3);
    let nerve = cover.nerve();
    assert!(nerve.contains(&Simplex::vertex(0)));
    assert_eq!(nerve.simplices_of_dim(1).len(), 0);
}

#[test]
fn nerve_of_three_pairwise_overlapping_sets_is_a_hollow_triangle() {
    let cover = Cover::new(vec![vec![0, 1], vec![1, 2], vec![0, 2]], 3);
    let nerve = cover.nerve();
    assert!(nerve.contains(&Simplex::edge(0, 1)));
    assert!(nerve.contains(&Simplex::edge(1, 2)));
    assert!(nerve.contains(&Simplex::edge(0, 2)));
    assert!(!nerve.contains(&Simplex::new(vec![0, 1, 2])));
    assert_eq!(nerve.n_simplices(), 6);
    assert_eq!(nerve.euler_characteristic(), 0);
}

#[test]
fn nerve_leaves_out_empty_sets() {
    let cover = Cover::new(vec![vec![0], vec![], vec![0]], 1);
    let nerve = cover.nerve();
    assert!(nerve.contains(&Simplex::vertex(0)));
    assert!(!nerve.contains(&Simplex::vertex(1)));
    assert!(nerve.contains(&Simplex::edge(0, 2)));
    assert_eq!(nerve.n_simplices(), 3);
}

#[test]
fn cover_with_points_outside_the_range_still_needs_every_point() {
    let cover = Cover::new(vec![vec![0, 7]], 2);
    assert!(!cover.is_valid());
    let cover = Cover::new(vec![vec![1, 0, 7]], 2);
    assert!(cover.is_valid());
}

#[test]
fn verify_nerve_theorem_reports_an_invalid_cover() {
    let cover = Cover::new(vec![vec![0]], 2);
    let verification = verify_nerve_theorem(&cover);
    assert!(!verification.cover_is_valid);
    assert!(verification.contractibility_assumed);
    assert_eq!(verification.nerve.n_simplices(), 1);
}

#[test]
fn mapper_graph_to_cover_keeps_the_node_points() {
    let graph = MapperGraph {
        nodes: vec![
            MapperNode { id: 0, points: vec![2, 0] },
            MapperNode { id: 1, points: vec![1] },
        ],
        edges: vec![],
    };
    let cover = mapper_graph_to_cover(&graph, 3);
    assert_eq!(cover.sets, vec![vec![2, 0], vec![1]]);
    assert_eq!(cover.n_points, 3);
    assert!(cover.is_valid());
}

#[test]
fn nerve_vertex_count_is_one_past_the_last_nonempty_set() {
    let cover = Cover::new(vec![vec![0], vec![1], vec![], vec![]], 2);
    assert_eq!(cover.nerve().n_vertices(), 2);
    let verification = verify_nerve_theorem(&cover);
    assert_eq!(verification.nerve.n_vertices(), 2);
    let empty_sets = Cover::new(vec![vec![], vec![]], 0);
    assert_eq!(empty_sets.nerve().n_vertices(), 0);
    let copy = cover.clone();
    assert_eq!(copy.sets, cover.sets);
}
