use dg4::geometry::Vec2;
use dg4::remesh::split_edges;
use std::cell::RefCell;

fn v(x: f64, y: f64) -> Vec2 {
    Vec2::new(x, y)
}

fn blend(a: Vec2, b: Vec2, k: usize, segments: usize) -> Vec2 {
    a.lerp(b, k as f64 / segments as f64)
}

fn square() -> Vec<Vec2> {
    vec![v(0.0, 0.0), v(4.0, 0.0), v(4.0, 4.0), v(0.0, 4.0)]
}

#[test]
fn every_edge_is_cut_into_the_segments_asked_for() {
    let out = split_edges(square(), &|_: Vec2, _: Vec2| 4, &blend);
    let expected = vec![
        v(0.0, 0.0),
        v(1.0, 0.0),
        v(2.0, 0.0),
        v(3.0, 0.0),
        v(4.0, 0.0),
        v(4.0, 1.0),
        v(4.0, 2.0),
        v(4.0, 3.0),
        v(4.0, 4.0),
        v(3.0, 4.0),
        v(2.0, 4.0),
        v(1.0, 4.0),
        v(0.0, 4.0),
        v(0.0, 3.0),
        v(0.0, 2.0),
        v(0.0, 1.0),
    ];
    assert_eq!(out, expected);
}

#[test]
fn edges_are_cut_independently() {
    let counts = |a: Vec2, _: Vec2| -> usize {
        if a == v(0.0, 0.0) {
            1
        } else if a == v(4.0, 0.0) {
            2
        } else if a == v(4.0, 4.0) {
            0
        } else {
            4
        }
    };
    let out = split_edges(square(), &counts, &blend);
    let expected = vec![
        v(0.0, 0.0),
        v(4.0, 0.0),
        v(4.0, 2.0),
        v(4.0, 4.0),
        v(0.0, 4.0),
        v(0.0, 3.0),
        v(0.0, 2.0),
        v(0.0, 1.0),
    ];
    assert_eq!(out, expected);
}

#[test]
fn a_ring_without_a_cut_comes_back_unchanged() {
    assert_eq!(split_edges(square(), &|_: Vec2, _: Vec2| 1, &blend), square());
    assert_eq!(split_edges(square(), &|_: Vec2, _: Vec2| 0, &blend), square());
}

#[test]
fn rings_below_two_vertices_are_not_split() {
    let calls = RefCell::new(0);
    let count = |_: Vec2, _: Vec2| -> usize {
        *calls.borrow_mut() += 1;
        5
    };
    assert_eq!(split_edges(Vec::new(), &count, &blend), Vec::new());
    assert_eq!(split_edges(vec![v(1.0, 2.0)], &count, &blend), vec![v(1.0, 2.0)]);
    assert_eq!(calls.into_inner(), 0);
}

#[test]
fn two_vertices_form_two_edges() {
    let out = split_edges(vec![v(0.0, 0.0), v(2.0, 0.0)], &|_: Vec2, _: Vec2| 2, &blend);
    assert_eq!(out, vec![v(0.0, 0.0), v(1.0, 0.0), v(2.0, 0.0), v(1.0, 0.0)]);
}

#[test]
fn the_edges_are_walked_in_ring_order() {
    let seen = RefCell::new(Vec::new());
    let count = |a: Vec2, b: Vec2| -> usize {
        seen.borrow_mut().push((a, b));
        1
    };
    split_edges(square(), &count, &blend);
    let s = square();
    assert_eq!(seen.into_inner(), vec![(s[0], s[1]), (s[1], s[2]), (s[2], s[3]), (s[3], s[0])]);
}

#[test]
fn inner_points_are_asked_for_with_index_and_count() {
    let seen = RefCell::new(Vec::new());
    let lerp = |a: Vec2, b: Vec2, k: usize, segments: usize| -> Vec2 {
        seen.borrow_mut().push((a, b, k, segments));
        blend(a, b, k, segments)
    };
    let out = split_edges(vec![v(0.0, 0.0), v(3.0, 0.0), v(3.0, 3.0)], &|a: Vec2, _: Vec2| a.x as usize, &lerp);
    let a = v(3.0, 0.0);
    let b = v(3.0, 3.0);
    let c = v(0.0, 0.0);
    assert_eq!(seen.into_inner(), vec![(a, b, 1, 3), (a, b, 2, 3), (b, c, 1, 3), (b, c, 2, 3)]);
    assert_eq!(out.len(), 7);
    assert_eq!(out[0], c);
    assert_eq!(out[1], a);
    assert_eq!(out[4], b);
}

#[test]
fn the_split_ring_keeps_the_old_vertices_in_order() {
    let ring: Vec<Vec2> = (0..9).map(|i| v(i as f64, (i * i) as f64)).collect();
    let out = split_edges(ring.clone(), &|a: Vec2, _: Vec2| a.x as usize % 4, &blend);
    let mut at = 0;
    for (i, vertex) in ring.iter().enumerate() {
        assert_eq!(out[at], *vertex);
        let cuts = i % 4;
        at += if cuts > 1 { cuts } else { 1 };
    }
    assert_eq!(at, out.len());
}
