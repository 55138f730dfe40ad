use dg4::forces::{
    apply_displacement, constraint_pass, edge_pass, growth_pass, jitter_pass, repel_pass,
};
use dg4::geometry::Vec2;
use dg4::rng::Rng;
use std::cell::RefCell;

fn v(x: f64, y: f64) -> Vec2 {
    Vec2::new(x, y)
}

fn triangle() -> Vec<Vec2> {
    vec![v(0.0, 0.0), v(1.0, 0.0), v(0.0, 1.0)]
}

fn ring(n: usize) -> Vec<Vec2> {
    (0..n).map(|i| v(i as f64, 10.0 * i as f64)).collect()
}

fn index_of(p: Vec2) -> usize {
    p.x as usize
}

#[test]
fn edge_pass_adds_at_the_start_and_subtracts_at_the_end() {
    let positions = triangle();
    let mut delta = vec![Vec2::ZERO; 3];
    edge_pass(&positions, &mut delta, &|a: Vec2, b: Vec2| Some(b - a));
    assert_eq!(delta, vec![v(1.0, 1.0), v(-2.0, 1.0), v(1.0, -2.0)]);
}

#[test]
fn edge_pass_adds_into_what_the_buffer_holds() {
    let positions = triangle();
    let mut delta = vec![v(10.0, 0.0), v(0.0, 10.0), v(5.0, 5.0)];
    edge_pass(&positions, &mut delta, &|a: Vec2, b: Vec2| Some(b - a));
    assert_eq!(delta, vec![v(11.0, 1.0), v(-2.0, 11.0), v(6.0, 3.0)]);
}

#[test]
fn edge_pass_leaves_skipped_edges_alone() {
    let positions = triangle();
    let mut delta = vec![v(1.0, 2.0), v(3.0, 4.0), v(5.0, 6.0)];
    edge_pass(&positions, &mut delta, &|_: Vec2, _: Vec2| None);
    assert_eq!(delta, vec![v(1.0, 2.0), v(3.0, 4.0), v(5.0, 6.0)]);
}

#[test]
fn edge_pass_visits_the_edges_in_ring_order() {
    let positions = ring(4);
    let mut delta = vec![Vec2::ZERO; 4];
    let seen = RefCell::new(Vec::new());
    edge_pass(&positions, &mut delta, &|a: Vec2, b: Vec2| {
        seen.borrow_mut().push((index_of(a), index_of(b)));
        None
    });
    assert_eq!(seen.into_inner(), vec![(0, 1), (1, 2), (2, 3), (3, 0)]);
}

#[test]
fn edge_pass_applies_each_correction_before_the_next_edge() {
    let positions = ring(3);
    let mut delta = vec![Vec2::ZERO; 3];
    let big = 1.0e16;
    edge_pass(&positions, &mut delta, &|a: Vec2, _: Vec2| {
        Some(if index_of(a) == 2 { v(1.0, 0.0) } else { v(big, 0.0) })
    });
    let first = (0.0 + big) - 1.0;
    let second = (0.0 - big) + big;
    let third = (0.0 - big) + 1.0;
    assert_eq!(delta, vec![v(first, 0.0), v(second, 0.0), v(third, 0.0)]);
}

#[test]
fn edge_pass_on_one_vertex_hands_it_over_twice() {
    let positions = vec![v(3.0, 4.0)];
    let mut delta = vec![v(1.0, 1.0)];
    let seen = RefCell::new(Vec::new());
    edge_pass(&positions, &mut delta, &|a: Vec2, b: Vec2| {
        seen.borrow_mut().push((a, b));
        Some(v(0.5, 0.25))
    });
    assert_eq!(seen.into_inner(), vec![(v(3.0, 4.0), v(3.0, 4.0))]);
    assert_eq!(delta, vec![v(1.0, 1.0)]);
}

#[test]
fn edge_pass_on_no_vertex_asks_nothing() {
    let positions: Vec<Vec2> = Vec::new();
    let mut delta: Vec<Vec2> = Vec::new();
    let calls = RefCell::new(0);
    edge_pass(&positions, &mut delta, &|_: Vec2, _: Vec2| {
        *calls.borrow_mut() += 1;
        None
    });
    assert_eq!(calls.into_inner(), 0);
    assert!(delta.is_empty());
}

fn pairs_visited(n: usize) -> Vec<(usize, usize)> {
    let positions = ring(n);
    let mut delta = vec![Vec2::ZERO; n];
    let seen = RefCell::new(Vec::new());
    repel_pass(&positions, &mut delta, &|a: Vec2, b: Vec2| {
        seen.borrow_mut().push((index_of(a), index_of(b)));
        None
    });
    seen.into_inner()
}

#[test]
fn repel_pass_visits_the_pairs_that_are_not_adjacent() {
    assert_eq!(pairs_visited(4), vec![(0, 2), (1, 3)]);
    assert_eq!(pairs_visited(5), vec![(0, 2), (0, 3), (1, 3), (1, 4), (2, 4)]);
    assert_eq!(
        pairs_visited(6),
        vec![(0, 2), (0, 3), (0, 4), (1, 3), (1, 4), (1, 5), (2, 4), (2, 5), (3, 5)]
    );
}

#[test]
fn repel_pass_finds_no_pair_on_small_rings() {
    for n in 0..=3 {
        assert_eq!(pairs_visited(n), vec![]);
    }
}

#[test]
fn repel_pass_counts_the_pairs_of_larger_rings() {
    for n in 4..40usize {
        assert_eq!(pairs_visited(n).len(), n * (n - 3) / 2);
    }
}

#[test]
fn repel_pass_pushes_the_second_vertex_and_pulls_the_first() {
    let positions = ring(4);
    let mut delta = vec![v(0.0, 1.0); 4];
    repel_pass(&positions, &mut delta, &|a: Vec2, _: Vec2| {
        Some(if index_of(a) == 0 { v(1.0, 0.0) } else { v(4.0, 0.0) })
    });
    assert_eq!(delta, vec![v(-1.0, 1.0), v(-4.0, 1.0), v(1.0, 1.0), v(4.0, 1.0)]);
}

#[test]
fn repel_pass_sums_the_pushes_of_all_partners() {
    let positions = ring(5);
    let mut delta = vec![Vec2::ZERO; 5];
    repel_pass(&positions, &mut delta, &|a: Vec2, b: Vec2| {
        Some(v((10 * index_of(a) + index_of(b)) as f64, 1.0))
    });
    let expected = vec![
        v(-2.0 - 3.0, -2.0),
        v(-13.0 - 14.0, -2.0),
        v(2.0 - 24.0, 0.0),
        v(3.0 + 13.0, 2.0),
        v(14.0 + 24.0, 2.0),
    ];
    assert_eq!(delta, expected);
}

#[test]
fn repel_pass_leaves_skipped_pairs_alone() {
    let positions = ring(6);
    let mut delta: Vec<Vec2> = (0..6).map(|i| v(i as f64, -1.0)).collect();
    let before = delta.clone();
    repel_pass(&positions, &mut delta, &|_: Vec2, _: Vec2| None);
    assert_eq!(delta, before);
}

#[test]
fn growth_pass_hands_over_predecessor_and_successor() {
    let positions = ring(4);
    let mut delta = vec![Vec2::ZERO; 4];
    let seen = RefCell::new(Vec::new());
    growth_pass(&positions, &mut delta, &|before: Vec2, after: Vec2| {
        seen.borrow_mut().push((index_of(before), index_of(after)));
        None
    });
    assert_eq!(seen.into_inner(), vec![(3, 1), (0, 2), (1, 3), (2, 0)]);
    assert_eq!(delta, vec![Vec2::ZERO; 4]);
}

#[test]
fn growth_pass_adds_the_drift_of_each_vertex() {
    let positions = triangle();
    let mut delta = vec![v(1.0, 1.0); 3];
    growth_pass(&positions, &mut delta, &|before: Vec2, after: Vec2| {
        if before == v(1.0, 0.0) {
            None
        } else {
            Some(after - before)
        }
    });
    assert_eq!(delta, vec![v(2.0, 0.0), v(1.0, 2.0), v(1.0, 1.0)]);
}

#[test]
fn constraint_pass_adds_the_correction_of_each_vertex() {
    let positions = vec![v(0.5, 0.0), v(3.0, 0.0), v(0.0, -2.0)];
    let mut delta = vec![v(1.0, 1.0); 3];
    constraint_pass(&positions, &mut delta, &|p: Vec2| {
        if p.length() > 1.0 {
            Some(-p)
        } else {
            None
        }
    });
    assert_eq!(delta, vec![v(1.0, 1.0), v(-2.0, 1.0), v(1.0, 3.0)]);
}

#[test]
fn constraint_pass_visits_the_vertices_in_index_order() {
    let positions = ring(5);
    let mut delta = vec![Vec2::ZERO; 5];
    let seen = RefCell::new(Vec::new());
    constraint_pass(&positions, &mut delta, &|p: Vec2| {
        seen.borrow_mut().push(index_of(p));
        None
    });
    assert_eq!(seen.into_inner(), vec![0, 1, 2, 3, 4]);
}

#[test]
fn jitter_pass_draws_x_then_y_for_each_vertex() {
    let seed = 0xD1FF_EA11_2026_0001;
    let mut reference = Rng::new(seed);
    let draws: Vec<i64> = (0..8).map(|_| reference.next_signed_unit()).collect();
    assert_eq!(draws[0], -3410166417488147);
    assert_eq!(draws[1], -1820371867846122);

    let mut rng = Rng::new(seed);
    let mut delta = vec![v(0.5, -0.5); 3];
    let seen = RefCell::new(Vec::new());
    jitter_pass(&mut rng, &mut delta, &|x: i64, y: i64| {
        seen.borrow_mut().push((x, y));
        v(x as f64, y as f64)
    });
    assert_eq!(
        seen.into_inner(),
        vec![(draws[0], draws[1]), (draws[2], draws[3]), (draws[4], draws[5])]
    );
    for i in 0..3 {
        assert_eq!(delta[i], v(0.5 + draws[2 * i] as f64, -0.5 + draws[2 * i + 1] as f64));
    }
    assert_eq!(rng.next_signed_unit(), draws[6]);
    assert_eq!(rng.next_signed_unit(), draws[7]);
}

#[test]
fn jitter_pass_on_an_empty_buffer_draws_nothing() {
    let mut rng = Rng::new(7);
    let mut untouched = Rng::new(7);
    let mut delta: Vec<Vec2> = Vec::new();
    jitter_pass(&mut rng, &mut delta, &|x: i64, y: i64| v(x as f64, y as f64));
    assert!(delta.is_empty());
    assert_eq!(rng.next_u64(), untouched.next_u64());
}

#[test]
fn apply_displacement_adds_entry_by_entry() {
    let positions = triangle();
    let delta = vec![v(0.5, 0.5), v(-1.0, 2.0), v(0.0, -1.0)];
    let moved = apply_displacement(&positions, &delta);
    assert_eq!(moved, vec![v(0.5, 0.5), v(0.0, 2.0), v(0.0, 0.0)]);
}

#[test]
fn apply_displacement_of_nothing_is_nothing() {
    let moved = apply_displacement(&Vec::new(), &Vec::new());
    assert!(moved.is_empty());
}
