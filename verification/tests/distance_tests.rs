use tda_rs::distance::{is_valid_matching, next_permutation, saturating_matching_exists};

#[test]
fn test_next_permutation() {
    let mut arr = vec![0, 1, 2];
    assert!(next_permutation(&mut arr));
    assert_eq!(arr, vec![0, 2, 1]);
}

#[test]
fn next_permutation_runs_through_all_orders() {
    let mut arr = vec![0, 1, 2];
    let mut seen = vec![arr.clone()];
    while next_permutation(&mut arr) {
        seen.push(arr.clone());
    }
    assert_eq!(
        seen,
        vec![vec![0, 1, 2], vec![0, 2, 1], vec![1, 0, 2], vec![1, 2, 0], vec![2, 0, 1], vec![2, 1, 0]]
    );
    // the last permutation is left as it is
    assert_eq!(arr, vec![2, 1, 0]);
}

#[test]
fn next_permutation_of_short_and_repeated_arrays() {
    let mut empty: Vec<usize> = vec![];
    assert!(!next_permutation(&mut empty));
    let mut one = vec![7];
    assert!(!next_permutation(&mut one));
    assert_eq!(one, vec![7]);
    let mut rep = vec![1, 1, 2];
    assert!(next_permutation(&mut rep));
    assert_eq!(rep, vec![1, 2, 1]);
    assert!(next_permutation(&mut rep));
    assert_eq!(rep, vec![2, 1, 1]);
    assert!(!next_permutation(&mut rep));
}

#[test]
fn saturating_matching_found_along_an_augmenting_path() {
    // left 0 can take 0 or 1, left 1 only 0: both can be matched
    let adj = vec![vec![0, 1], vec![0]];
    assert!(saturating_matching_exists(&adj, 2));
}

#[test]
fn no_saturating_matching_when_two_left_vertices_share_one_neighbour() {
    let adj = vec![vec![0], vec![0], vec![1, 2]];
    assert!(!saturating_matching_exists(&adj, 3));
    let isolated: Vec<Vec<usize>> = vec![vec![]];
    assert!(!saturating_matching_exists(&isolated, 3));
    let none: Vec<Vec<usize>> = vec![];
    assert!(saturating_matching_exists(&none, 0));
}

#[test]
fn valid_matching_may_send_a_near_point_to_the_diagonal_to_free_a_partner() {
    // first diagram (0,1), (0,2); second (0,1.5); threshold 0.5:
    // (0,2) takes (0,1.5) and (0,1) goes to the diagonal
    let close = vec![vec![true], vec![true]];
    assert!(is_valid_matching(&close, 1, &vec![true, false], &vec![false]));
}

#[test]
fn valid_matching_needs_a_partner_for_every_far_point_on_both_sides() {
    let close = vec![vec![true, false]];
    assert!(!is_valid_matching(&close, 2, &vec![false], &vec![false, false]));
    assert!(is_valid_matching(&close, 2, &vec![false], &vec![false, true]));
    assert!(is_valid_matching(&close, 2, &vec![true], &vec![true, true]));
}

#[test]
fn valid_matching_when_every_point_finds_a_partner() {
    let close = vec![vec![true, true], vec![true, false]];
    assert!(is_valid_matching(&close, 2, &vec![false, false], &vec![false, false]));
}

#[test]
fn no_valid_matching_when_a_far_point_is_left_over() {
    let close = vec![vec![true], vec![true]];
    assert!(!is_valid_matching(&close, 1, &vec![false, false], &vec![false]));
    assert!(is_valid_matching(&close, 1, &vec![false, true], &vec![false]));
}

#[test]
fn valid_matching_of_empty_diagrams() {
    let close: Vec<Vec<bool>> = vec![];
    assert!(is_valid_matching(&close, 0, &vec![], &vec![]));
    assert!(!is_valid_matching(&close, 1, &vec![], &vec![false]));
}

#[test]
fn next_permutation_runs_through_every_arrangement_of_repeated_entries_once() {
    let mut arr = vec![0, 0, 1, 2];
    let mut seen = vec![arr.clone()];
    while next_permutation(&mut arr) {
        seen.push(arr.clone());
    }
    // 4! / 2! arrangements, strictly increasing
    assert_eq!(seen.len(), 12);
    for w in seen.windows(2) {
        assert!(w[0] < w[1]);
    }
    assert_eq!(arr, vec![2, 1, 0, 0]);
}

#[test]
fn valid_matching_does_not_depend_on_which_diagram_comes_first() {
    let close = vec![vec![true, false, true], vec![false, false, true]];
    let near1 = vec![false, false];
    let near2 = vec![true, false, false];
    let transposed: Vec<Vec<bool>> = (0..3).map(|j| close.iter().map(|row| row[j]).collect()).collect();
    assert_eq!(
        is_valid_matching(&close, 3, &near1, &near2),
        is_valid_matching(&transposed, 2, &near2, &near1)
    );
    assert!(!is_valid_matching(&close, 3, &near1, &near2));
}
