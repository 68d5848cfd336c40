use tda_rs::alpha::{alpha_from_graph, alpha_planar};
use tda_rs::complex::Simplex;

fn cube(n: usize, value: bool) -> Vec<Vec<Vec<bool>>> {
    vec![vec![vec![value; n]; n]; n]
}

#[test]
fn alpha_away_from_the_plane_with_everything_allowed() {
    let within = vec![vec![true; 3]; 3];
    let c = alpha_from_graph(3, &within, &cube(3, true));
    assert!(c.contains(&Simplex::new(vec![0, 1, 2])));
    assert_eq!(c.n_simplices(), 7);
}

#[test]
fn alpha_away_from_the_plane_needs_all_three_edges() {
    let mut within = vec![vec![true; 3]; 3];
    within[1][2] = false;
    within[2][1] = false;
    let c = alpha_from_graph(3, &within, &cube(3, true));
    assert!(!c.contains(&Simplex::new(vec![0, 1, 2])));
    assert!(!c.contains(&Simplex::edge(1, 2)));
    assert_eq!(c.n_simplices(), 5);
}

#[test]
fn alpha_away_from_the_plane_with_a_large_circumradius() {
    let within = vec![vec![true; 3]; 3];
    let c = alpha_from_graph(3, &within, &cube(3, false));
    assert!(!c.contains(&Simplex::new(vec![0, 1, 2])));
    assert_eq!(c.n_simplices(), 6);
}

#[test]
fn alpha_in_the_plane_with_everything_allowed() {
    let within = vec![vec![true; 3]; 3];
    let c = alpha_planar(3, &within, &cube(3, true), &cube(3, true));
    assert!(c.contains(&Simplex::new(vec![0, 1, 2])));
    assert_eq!(c.n_simplices(), 7);
}

#[test]
fn alpha_in_the_plane_keeps_sides_of_a_rejected_triangle() {
    let within = vec![vec![true; 3]; 3];
    let c = alpha_planar(3, &within, &cube(3, true), &cube(3, false));
    assert!(!c.contains(&Simplex::new(vec![0, 1, 2])));
    assert!(c.contains(&Simplex::edge(0, 2)));
    assert_eq!(c.n_simplices(), 6);
}

#[test]
fn alpha_in_the_plane_adds_the_faces_of_a_chosen_triangle() {
    let within = vec![vec![false; 3]; 3];
    let c = alpha_planar(3, &within, &cube(3, true), &cube(3, true));
    assert!(c.contains(&Simplex::edge(1, 2)));
    assert_eq!(c.n_simplices(), 7);
}

#[test]
fn alpha_in_the_plane_without_delaunay_triangles_has_only_vertices() {
    let within = vec![vec![true; 4]; 4];
    let c = alpha_planar(4, &within, &cube(4, false), &cube(4, true));
    assert_eq!(c.n_simplices(), 4);
    assert_eq!(c.n_vertices(), 4);
}
