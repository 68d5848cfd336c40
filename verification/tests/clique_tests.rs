use tda_rs::clique::{cech_candidates, cech_from_candidates, vietoris_rips_from_graph};
use tda_rs::complex::Simplex;

fn all_close(n: usize) -> Vec<Vec<bool>> {
    vec![vec![true; n]; n]
}

#[test]
fn rips_of_three_close_points_is_a_filled_triangle() {
    let c = vietoris_rips_from_graph(3, &all_close(3), 2);
    assert!(c.contains(&Simplex::new(vec![0, 1, 2])));
    assert_eq!(c.n_simplices(), 7);
    assert_eq!(c.n_vertices(), 3);
}

#[test]
fn rips_without_close_pairs_has_only_vertices() {
    let within = vec![vec![false; 3]; 3];
    let c = vietoris_rips_from_graph(3, &within, 2);
    assert_eq!(c.n_simplices(), 3);
    assert!(!c.contains(&Simplex::edge(0, 1)));
}

#[test]
fn rips_with_one_close_pair() {
    let mut within = vec![vec![false; 3]; 3];
    within[0][1] = true;
    within[1][0] = true;
    let c = vietoris_rips_from_graph(3, &within, 2);
    assert!(c.contains(&Simplex::edge(0, 1)));
    assert!(!c.contains(&Simplex::edge(1, 2)));
    assert_eq!(c.n_simplices(), 4);
}

#[test]
fn rips_stops_at_the_requested_dimension() {
    let c = vietoris_rips_from_graph(4, &all_close(4), 1);
    assert_eq!(c.n_simplices(), 10);
    assert!(!c.contains(&Simplex::new(vec![0, 1, 2])));
    let c0 = vietoris_rips_from_graph(4, &all_close(4), 0);
    assert_eq!(c0.n_simplices(), 4);
}

#[test]
fn rips_of_a_square_cycle_has_no_triangles() {
    let mut within = vec![vec![false; 4]; 4];
    for (a, b) in [(0, 1), (1, 2), (2, 3), (0, 3)] {
        within[a][b] = true;
        within[b][a] = true;
    }
    let c = vietoris_rips_from_graph(4, &within, 3);
    assert_eq!(c.n_simplices(), 8);
    assert_eq!(c.euler_characteristic(), 0);
}

#[test]
fn cech_candidates_by_size_then_lexicographic() {
    let c = cech_candidates(3, 2);
    assert_eq!(c, vec![vec![0, 1], vec![0, 2], vec![1, 2], vec![0, 1, 2]]);
    assert!(cech_candidates(3, 0).is_empty());
    assert_eq!(cech_candidates(2, 5), vec![vec![0, 1]]);
}

#[test]
fn cech_of_four_points_whose_balls_all_meet_is_a_tetrahedron() {
    let cands = cech_candidates(4, 3);
    let meets = vec![true; cands.len()];
    let c = cech_from_candidates(4, &cands, &meets);
    assert!(c.contains(&Simplex::new(vec![0, 1, 2, 3])));
    assert_eq!(c.n_simplices(), 15);
    assert_eq!(c.euler_characteristic(), 1);
}

#[test]
fn cech_leaves_out_a_triangle_whose_balls_meet_only_in_pairs() {
    // three points whose balls meet pairwise but have no common point
    let cands = cech_candidates(3, 2);
    let meets: Vec<bool> = cands.iter().map(|c| c.len() == 2).collect();
    let c = cech_from_candidates(3, &cands, &meets);
    assert!(c.contains(&Simplex::edge(0, 1)));
    assert!(c.contains(&Simplex::edge(0, 2)));
    assert!(c.contains(&Simplex::edge(1, 2)));
    assert!(!c.contains(&Simplex::new(vec![0, 1, 2])));
    assert_eq!(c.n_simplices(), 6);
    assert_eq!(c.n_vertices(), 3);
}

#[test]
fn cech_adds_the_faces_of_a_chosen_simplex() {
    let cands = vec![vec![0, 1], vec![1, 2, 3]];
    let c = cech_from_candidates(5, &cands, &vec![false, true]);
    assert!(c.contains(&Simplex::edge(2, 3)));
    assert!(!c.contains(&Simplex::edge(0, 1)));
    assert!(c.contains(&Simplex::vertex(4)));
    assert_eq!(c.n_simplices(), 5 + 3 + 1);
}
