use dg4::ring::{are_neighbors, next_index, prev_index};

#[test]
fn next_index_wraps_at_the_end() {
    assert_eq!(next_index(0, 5), 1);
    assert_eq!(next_index(3, 5), 4);
    assert_eq!(next_index(4, 5), 0);
    assert_eq!(next_index(0, 1), 0);
}

#[test]
fn prev_index_wraps_at_the_start() {
    assert_eq!(prev_index(0, 5), 4);
    assert_eq!(prev_index(1, 5), 0);
    assert_eq!(prev_index(4, 5), 3);
    assert_eq!(prev_index(0, 1), 0);
}

#[test]
fn next_and_prev_undo_each_other() {
    for n in 1..20usize {
        for i in 0..n {
            assert_eq!(prev_index(next_index(i, n), n), i);
            assert_eq!(next_index(prev_index(i, n), n), i);
        }
    }
}

#[test]
fn every_pair_is_adjacent_on_rings_below_two() {
    assert!(are_neighbors(0, 0, 0));
    assert!(are_neighbors(3, 7, 0));
    assert!(are_neighbors(0, 0, 1));
    assert!(are_neighbors(5, 9, 1));
}

#[test]
fn a_vertex_is_adjacent_to_itself() {
    assert!(are_neighbors(2, 2, 5));
    assert!(are_neighbors(9, 9, 5));
}

#[test]
fn ring_neighbours_are_adjacent_and_others_are_not() {
    assert!(are_neighbors(0, 1, 5));
    assert!(are_neighbors(0, 4, 5));
    assert!(are_neighbors(4, 0, 5));
    assert!(are_neighbors(2, 3, 5));
    assert!(!are_neighbors(0, 2, 5));
    assert!(!are_neighbors(0, 3, 5));
    assert!(!are_neighbors(1, 3, 5));
    assert!(!are_neighbors(1, 4, 5));
}

#[test]
fn adjacency_matches_the_modular_formula() {
    for n in 2..12usize {
        for i in 0..n {
            for j in 0..n {
                let expected = i == j || j == (i + 1) % n || j == (i + n - 1) % n;
                assert_eq!(are_neighbors(i, j, n), expected);
                assert_eq!(are_neighbors(i, j, n), are_neighbors(j, i, n));
            }
        }
    }
}

#[test]
fn all_pairs_are_adjacent_up_to_three_vertices() {
    for n in 0..=3usize {
        for i in 0..n {
            for j in 0..n {
                assert!(are_neighbors(i, j, n));
            }
        }
    }
}

#[test]
fn four_vertices_have_two_pairs_that_are_not_adjacent() {
    let mut apart = Vec::new();
    for i in 0..4usize {
        for j in (i + 1)..4 {
            if !are_neighbors(i, j, 4) {
                apart.push((i, j));
            }
        }
    }
    assert_eq!(apart, vec![(0, 2), (1, 3)]);
}

#[test]
fn indices_beyond_the_ring_are_taken_modulo_its_size() {
    assert!(are_neighbors(7, 3, 5));
    assert!(are_neighbors(7, 1, 5));
    assert!(!are_neighbors(7, 0, 5));
    assert!(!are_neighbors(7, 2, 5));
    assert!(are_neighbors(usize::MAX, 1, usize::MAX));
    assert!(are_neighbors(usize::MAX, usize::MAX - 1, usize::MAX));
    assert!(!are_neighbors(usize::MAX, 0, usize::MAX));
    assert!(are_neighbors(usize::MAX, (usize::MAX % 5 + 1) % 5, 5));
    assert!(!are_neighbors(usize::MAX, (usize::MAX % 5 + 3) % 5, 5));
}
