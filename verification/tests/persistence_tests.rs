use tda_rs::complex::Simplex;
use tda_rs::persistence::{compute_persistence_pairs, symmetric_difference, PersistenceIndexPair};

#[test]
fn test_symmetric_difference() {
    let a = vec![0, 2, 4];
    let b = vec![1, 2, 3];
    let sd = symmetric_difference(&a, &b);
    assert_eq!(sd, vec![0, 1, 3, 4]);
}

#[test]
fn test_symmetric_difference_empty() {
    let a = vec![1, 2, 3];
    let b = vec![1, 2, 3];
    let sd = symmetric_difference(&a, &b);
    assert!(sd.is_empty());
}

#[test]
fn symmetric_difference_with_an_empty_side() {
    assert_eq!(symmetric_difference(&[], &[3, 5]), vec![3, 5]);
    assert_eq!(symmetric_difference(&[3, 5], &[]), vec![3, 5]);
    assert_eq!(symmetric_difference(&[1, 9], &[4]), vec![1, 4, 9]);
}

fn pair(dim: usize, birth: usize, death: Option<usize>) -> PersistenceIndexPair {
    PersistenceIndexPair { dim, birth, death }
}

#[test]
fn persistence_of_two_points_joined_by_an_edge() {
    let steps = vec![Simplex::vertex(0), Simplex::vertex(1), Simplex::edge(0, 1)];
    let pairs = compute_persistence_pairs(&steps);
    assert_eq!(pairs, vec![pair(0, 1, Some(2)), pair(0, 0, None)]);
}

#[test]
fn persistence_of_a_filled_triangle() {
    let steps = vec![
        Simplex::vertex(0),
        Simplex::vertex(1),
        Simplex::vertex(2),
        Simplex::edge(0, 1),
        Simplex::edge(1, 2),
        Simplex::edge(0, 2),
        Simplex::new(vec![0, 1, 2]),
    ];
    let pairs = compute_persistence_pairs(&steps);
    // edge [0,1] kills vertex 1, edge [1,2] kills vertex 2, the triangle
    // kills the loop born with edge [0,2]; vertex 0 lives forever
    assert_eq!(
        pairs,
        vec![pair(0, 1, Some(3)), pair(0, 2, Some(4)), pair(1, 5, Some(6)), pair(0, 0, None)]
    );
}

#[test]
fn persistence_of_a_hollow_triangle_keeps_the_loop() {
    let steps = vec![
        Simplex::vertex(0),
        Simplex::vertex(1),
        Simplex::vertex(2),
        Simplex::edge(0, 1),
        Simplex::edge(1, 2),
        Simplex::edge(0, 2),
    ];
    let pairs = compute_persistence_pairs(&steps);
    assert_eq!(
        pairs,
        vec![pair(0, 1, Some(3)), pair(0, 2, Some(4)), pair(0, 0, None), pair(1, 5, None)]
    );
}

#[test]
fn persistence_of_an_empty_filtration() {
    let pairs = compute_persistence_pairs(&vec![]);
    assert!(pairs.is_empty());
}

#[test]
fn persistence_of_isolated_points() {
    let steps = vec![Simplex::vertex(0), Simplex::vertex(1)];
    let pairs = compute_persistence_pairs(&steps);
    assert_eq!(pairs, vec![pair(0, 0, None), pair(0, 1, None)]);
}

#[test]
fn finite_pairs_are_born_before_they_die() {
    // the boundary of a tetrahedron, faces before cofaces
    let mut steps: Vec<Simplex> = (0..4).map(Simplex::vertex).collect();
    for (a, b) in [(0, 1), (0, 2), (1, 2), (0, 3), (1, 3), (2, 3)] {
        steps.push(Simplex::edge(a, b));
    }
    for t in [vec![0, 1, 2], vec![0, 1, 3], vec![0, 2, 3], vec![1, 2, 3]] {
        steps.push(Simplex::new(t));
    }
    let pairs = compute_persistence_pairs(&steps);
    assert_eq!(pairs.len(), 8);
    for p in &pairs {
        if let Some(d) = p.death {
            assert!(p.birth < d);
            assert_eq!(steps[d].dim(), p.dim + 1);
        }
    }
    // one component and one hollow sphere live forever
    let essential: Vec<&PersistenceIndexPair> = pairs.iter().filter(|p| p.death.is_none()).collect();
    assert_eq!(essential.len(), 2);
    assert_eq!(essential[0].dim, 0);
    assert_eq!(essential[1].dim, 2);
}
