use tda_rs::boundary::BoundaryMatrix;
use tda_rs::complex::{Simplex, SimplicialComplex};

#[test]
fn test_simplex_construction() {
    let s = Simplex::new(vec![0, 1, 2]);
    assert_eq!(s.dim(), 2);
    assert_eq!(s.vertices(), vec![0, 1, 2]);
}

#[test]
fn test_simplex_faces() {
    let s = Simplex::new(vec![0, 1, 2]);
    let faces = s.faces();
    assert_eq!(faces.len(), 3);
    assert!(faces.contains(&Simplex::new(vec![0, 1])));
    assert!(faces.contains(&Simplex::new(vec![0, 2])));
    assert!(faces.contains(&Simplex::new(vec![1, 2])));
}

#[test]
fn test_simplicial_complex_from_simplices() {
    let tri = Simplex::new(vec![0, 1, 2]);
    let sc = SimplicialComplex::from_simplices(vec![tri]);
    // Should contain 1 triangle + 3 edges + 3 vertices = 7
    assert_eq!(sc.n_simplices(), 7);
}

#[test]
fn test_euler_characteristic_triangle() {
    let tri = Simplex::new(vec![0, 1, 2]);
    let sc = SimplicialComplex::from_simplices(vec![tri]);
    // 3 vertices - 3 edges + 1 triangle = 1
    assert_eq!(sc.euler_characteristic(), 1);
}

#[test]
fn test_boundary_matrix() {
    let tri = Simplex::new(vec![0, 1, 2]);
    let sc = SimplicialComplex::from_simplices(vec![tri]);
    let bm: BoundaryMatrix = sc.boundary_matrix(2);
    // 3 edges, 1 triangle: should be 3x1
    assert_eq!(bm.nrows(), 3);
    assert_eq!(bm.ncols(), 1);
    // All entries should be 1
    assert_eq!(bm.get(0, 0), 1);
    assert_eq!(bm.get(1, 0), 1);
    assert_eq!(bm.get(2, 0), 1);
}

#[test]
fn test_simplex_contains_face() {
    let s = Simplex::new(vec![0, 1, 2]);
    let f = Simplex::new(vec![0, 1]);
    assert!(s.contains_face(&f));
    assert!(!f.contains_face(&s));
}

#[test]
fn test_simplicial_complex_add_simplex() {
    let mut sc = SimplicialComplex::new();
    sc.add_simplex(&Simplex::new(vec![0, 1, 2]));
    assert_eq!(sc.n_simplices(), 7); // 1 tri + 3 edges + 3 vertices
    assert_eq!(sc.n_vertices(), 3);
}

#[test]
fn simplex_new_sorts_and_drops_repeats() {
    let s = Simplex::new(vec![3, 1, 3, 0]);
    assert_eq!(s.vertices(), vec![0, 1, 3]);
    assert_eq!(s.dim(), 2);
    assert_eq!(s.len(), 3);
    assert_eq!(s.get(2), 3);
}

#[test]
fn simplex_vertex_and_edge() {
    assert_eq!(Simplex::vertex(4).vertices(), vec![4]);
    assert_eq!(Simplex::vertex(4).dim(), 0);
    assert_eq!(Simplex::edge(5, 2).vertices(), vec![2, 5]);
    assert_eq!(Simplex::edge(2, 2).vertices(), vec![2]);
}

#[test]
fn simplex_faces_of_vertex_and_edge() {
    assert!(Simplex::vertex(1).faces().is_empty());
    let faces = Simplex::edge(1, 4).faces();
    assert_eq!(faces, vec![Simplex::vertex(4), Simplex::vertex(1)]);
}

#[test]
fn simplex_with_vertex_and_has_vertex() {
    let s = Simplex::edge(0, 4).with_vertex(2);
    assert_eq!(s.vertices(), vec![0, 2, 4]);
    assert!(s.has_vertex(2));
    assert!(!s.has_vertex(3));
    assert_eq!(s.duplicate(), s);
}

#[test]
fn simplex_contains_face_needs_all_vertices() {
    let s = Simplex::new(vec![0, 2, 4]);
    assert!(s.contains_face(&Simplex::new(vec![0, 4])));
    assert!(s.contains_face(&s.duplicate()));
    assert!(!s.contains_face(&Simplex::new(vec![0, 3])));
}

#[test]
fn complex_from_two_triangles_sharing_an_edge() {
    let sc = SimplicialComplex::from_simplices(vec![
        Simplex::new(vec![0, 1, 2]),
        Simplex::new(vec![1, 2, 3]),
    ]);
    // 4 vertices, 5 edges, 2 triangles
    assert_eq!(sc.n_simplices(), 11);
    assert_eq!(sc.n_vertices(), 4);
    assert_eq!(sc.simplices_of_dim(0).len(), 4);
    assert_eq!(sc.simplices_of_dim(1).len(), 5);
    assert_eq!(sc.simplices_of_dim(2).len(), 2);
    assert_eq!(sc.euler_characteristic(), 1);
    assert!(sc.contains(&Simplex::edge(1, 2)));
    assert!(!sc.contains(&Simplex::edge(0, 3)));
}

#[test]
fn complex_is_closed_under_faces() {
    let sc = SimplicialComplex::from_simplices(vec![
        Simplex::new(vec![0, 1, 2, 3]),
        Simplex::edge(3, 7),
    ]);
    for s in sc.simplices() {
        for f in s.faces() {
            assert!(sc.contains(&f));
        }
    }
    assert_eq!(sc.n_vertices(), 8);
    // the tetrahedron: 4 + 6 + 4 + 1, and the edge with its new vertex: 2
    assert_eq!(sc.n_simplices(), 17);
}

#[test]
fn complex_of_a_hollow_triangle_has_euler_characteristic_zero() {
    let sc = SimplicialComplex::from_simplices(vec![
        Simplex::edge(0, 1),
        Simplex::edge(1, 2),
        Simplex::edge(0, 2),
    ]);
    assert_eq!(sc.euler_characteristic(), 0);
}

#[test]
fn empty_complex() {
    let sc = SimplicialComplex::new();
    assert_eq!(sc.n_simplices(), 0);
    assert_eq!(sc.n_vertices(), 0);
    assert_eq!(sc.euler_characteristic(), 0);
}

#[test]
fn add_simplex_twice_changes_nothing() {
    let mut sc = SimplicialComplex::new();
    sc.add_simplex(&Simplex::edge(0, 1));
    sc.add_simplex(&Simplex::edge(0, 1));
    assert_eq!(sc.n_simplices(), 3);
    sc.add_simplex(&Simplex::vertex(5));
    assert_eq!(sc.n_simplices(), 4);
    assert_eq!(sc.n_vertices(), 6);
}

#[test]
fn boundary_matrix_of_edges_into_vertices() {
    let sc = SimplicialComplex::from_simplices(vec![Simplex::new(vec![0, 1, 2])]);
    let bm = sc.boundary_matrix(1);
    assert_eq!(bm.nrows(), 3);
    assert_eq!(bm.ncols(), 3);
    // columns: edges [0,1], [0,2], [1,2]; rows: vertices 0, 1, 2
    assert_eq!(bm.get(0, 0), 1);
    assert_eq!(bm.get(1, 0), 1);
    assert_eq!(bm.get(2, 0), 0);
    assert_eq!(bm.get(0, 2), 0);
    assert_eq!(bm.get(2, 2), 1);
}

#[test]
fn added_simplices_are_contained() {
    let mut sc = SimplicialComplex::from_simplices(vec![Simplex::edge(0, 9)]);
    assert!(sc.contains(&Simplex::edge(0, 9)));
    let t = Simplex::new(vec![2, 5, 7]);
    sc.add_simplex(&t);
    assert!(sc.contains(&t));
    assert!(sc.contains(&Simplex::edge(5, 7)));
    assert_eq!(sc.n_vertices(), 10);
}
