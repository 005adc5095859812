use img2stl::edge::{Bounds, Edge};
use img2stl::edge_collection::{
    connect, edge_angle, edge_segment_length_squared, maybe_remove_zig_zags, tip_redundant, Angle,
    Edges,
};
use img2stl::vert::Vert;
use std::f64::consts::FRAC_PI_2;

const EPSILON: f64 = 1e-8;

/// Ten lattice units stand for one unit of the coordinates written here.
fn p(x: f64, y: f64) -> Vert {
    let (sx, sy) = (x * 10.0, y * 10.0);
    assert_eq!(sx, sx.round());
    assert_eq!(sy, sy.round());
    Vert::new(sx as i64, sy as i64)
}

fn radians(a: Angle) -> f64 {
    (a.cross as f64).atan2(a.dot as f64)
}

fn points(e: &Edge) -> Vec<Vert> {
    e.verts.iter().copied().collect()
}

#[test]
fn test_rm_zig_zag_too_short_edge() {
    let mut edge = Edge::from([]);
    maybe_remove_zig_zags(&mut edge);
    assert_eq!(edge.len(), 0);

    let mut edge = Edge::from([
        p(0., 10.), // outside zig-zag
        p(0., 0.),  // start zig-zag
        p(1., 0.),  // zig
        p(1., 0.5), // zag
        p(5., 1.),  // zag
    ]);
    maybe_remove_zig_zags(&mut edge);
    assert_eq!(edge.len(), 5);
}

#[test]
fn test_rm_zig_zag_shortest_edge() {
    // a single period is one short of a staircase and stays as it is
    let verts = [
        p(-2., -10.), // outside zig-zag
        p(0., 0.),    // start zig-zag
        p(1., 0.),    // zig
        p(1., 0.5),   // zag
        p(2., 0.5),   // zig
        p(10., 4.),   // outside zig-zag
    ];
    let mut edge = Edge::from(verts);
    maybe_remove_zig_zags(&mut edge);
    assert_eq!(edge, Edge::from(verts));
}

#[test]
fn test_rm_zig_zag_1() {
    let mut edge = Edge::from([
        p(-2., -10.), // outside zig-zag
        p(0., 0.),    // start zig-zag
        p(1., 0.),    // zig
        p(1., 0.5),   // zag
        p(2., 0.5),   // zig
        p(2., 1.),    // zag
        p(3., 1.),    // zig
        p(3., 1.5),   // zag last point
        p(10., 4.),   // outside zig-zag
    ]);
    maybe_remove_zig_zags(&mut edge);
    assert_eq!(points(&edge), vec![p(-2., -10.), p(0., 0.), p(3., 1.5), p(10., 4.)]);
    // the box keeps what it held before the staircase went
    assert_eq!(edge.bounds, Some(Bounds { min_x: -20, max_x: 100, min_y: -100, max_y: 40 }));
}

#[test]
fn test_edge_angle() {
    let left_turn = Edge::from([p(0., 0.), p(1., 0.), p(1., 1.)]);
    let angle = radians(edge_angle(&left_turn, 1));
    assert!(angle > 0.);
    assert!((angle - FRAC_PI_2).abs() < EPSILON);

    let right_turn = Edge::from([p(0., 0.), p(1., 0.), p(1., -1.)]);
    let angle = radians(edge_angle(&right_turn, 1));
    assert!(angle < 0.);
    assert!((angle + FRAC_PI_2).abs() < EPSILON);
}

#[test]
fn test_maybe_remove_zig_zags() {
    let mut e = Edge::from([
        p(1., 50.), // start not in zig-zag
        p(0., 0.),  // first point in zig-zag
        p(3., 1.),
        p(3., 2.),
        p(6., 3.),
        p(6., 4.),
        p(9., 5.),
        p(9., 6.),
        p(12., 7.),
        p(13., 40.0), // end, not in zig-zag
    ]);
    maybe_remove_zig_zags(&mut e);
    assert_eq!(points(&e), vec![p(1., 50.), p(0., 0.), p(12., 7.), p(13., 40.0)]);
}

#[test]
fn test_add_edge_creates_closed_edge() {
    let mut es = Edges::new();
    es.add_edge(Edge::from([p(0., 0.), p(100., 0.)]));
    es.add_edge(Edge::from([p(100., 0.), p(100., 100.)]));
    es.add_edge(Edge::from([p(100., 100.), p(0., 100.)]));
    es.add_edge(Edge::from([p(0., 100.), p(0., 0.)]));
    assert_eq!(es.closed_edges.len(), 1, "closed edge created");
    assert_eq!(es.edges.len(), 0);
    let ring = &es.closed_edges[0];
    assert_eq!(ring.front(), ring.back());
    assert_eq!(ring._is_hole, Some(false));
}

#[test]
fn test_edges_add_edge() {
    let e = Edge::from([p(0., 0.), p(0., 0.1)]);
    let mut es = Edges::new();
    es.add_edge(e);
    assert_eq!(es.edges.len(), 1);
    assert_eq!(es.closed_edges.len(), 0);
}

#[test]
fn test_edges_add_edge_back_to_front() {
    let e = Edge::from([p(0., 0.), p(0., 1.)]);
    let i = Edge::from([p(0., 1.), p(2., 2.)]);
    let mut es = Edges::new();
    es.add_edge(e);
    es.add_edge(i);
    assert_eq!(es.edges.len(), 1);
    assert_eq!(es.edges[0].len(), 3);
}

#[test]
fn test_edges_add_edge_front_to_front() {
    let e = Edge::from([p(0., 0.), p(0., 1.)]);
    let i = Edge::from([p(0., 0.), p(2., 2.)]);
    let mut es = Edges::new();
    es.add_edge(e);
    es.add_edge(i);
    assert_eq!(es.edges.len(), 1);
    assert_eq!(es.edges[0].len(), 3);
    assert_eq!(points(&es.edges[0]), vec![p(2., 2.), p(0., 0.), p(0., 1.)]);
}

#[test]
fn tip_redundant_is_exact() {
    let a = Vert::new(0, 0);
    assert!(tip_redundant(&a, &Vert::new(3, 1), &Vert::new(6, 2)));
    assert!(!tip_redundant(&a, &Vert::new(3, 1), &Vert::new(6, 3)));
    assert!(tip_redundant(&a, &Vert::new(0, 5), &Vert::new(0, 9)));
    assert!(!tip_redundant(&a, &Vert::new(0, 5), &Vert::new(1, 9)));
    assert!(!tip_redundant(&a, &Vert::new(1, 5), &Vert::new(1, 9)));
    // a slope that floating point would have to round
    let far = 1 << 29;
    assert!(!tip_redundant(&Vert::new(-far, -far), &a, &Vert::new(far, far - 1)));
    assert!(tip_redundant(&Vert::new(-far, -far), &a, &Vert::new(far, far)));
}

#[test]
fn angles_compare_exactly() {
    let quarter = Angle { cross: 5, dot: 0 };
    let same = Angle { cross: 1, dot: 0 };
    let back = Angle { cross: -2, dot: 0 };
    let straight = Angle { cross: 0, dot: -3 };
    let none = Angle { cross: 0, dot: 0 };
    let level = Angle { cross: 0, dot: 4 };
    assert!(quarter.same(&same));
    assert!(!quarter.same(&back));
    assert!(quarter.cancels(&back));
    assert!(!quarter.cancels(&same));
    assert!(straight.same(&straight));
    assert!(!straight.cancels(&straight));
    assert!(none.same(&level));
    assert!(none.cancels(&level));
    assert!(!none.same(&straight));
}

#[test]
fn segment_length_is_squared() {
    let e = Edge::from([Vert::new(0, 0), Vert::new(3, 4), Vert::new(3, 5)]);
    assert_eq!(edge_segment_length_squared(&e, 0), 25);
    assert_eq!(edge_segment_length_squared(&e, 1), 1);
}

#[test]
fn connect_joins_at_every_end() {
    let a = Vert::new(0, 0);
    let b = Vert::new(4, 1);
    let c = Vert::new(5, 7);
    let d = Vert::new(9, 9);
    // tail to head
    let mut t = Edge::from([a, b]);
    connect(&mut t, Edge::from([b, c, d]));
    assert_eq!(points(&t), vec![a, b, c, d]);
    // tail to tail: the other ring is turned round
    let mut t = Edge::from([a, b]);
    connect(&mut t, Edge::from([d, c, b]));
    assert_eq!(points(&t), vec![a, b, c, d]);
    // head to head
    let mut t = Edge::from([b, a]);
    connect(&mut t, Edge::from([b, c, d]));
    assert_eq!(points(&t), vec![d, c, b, a]);
    // head to tail
    let mut t = Edge::from([b, a]);
    connect(&mut t, Edge::from([d, c, b]));
    assert_eq!(points(&t), vec![d, c, b, a]);
    assert_eq!(t.bounds, Some(Bounds { min_x: 0, max_x: 9, min_y: 0, max_y: 9 }));
}

#[test]
fn connect_drops_a_junction_on_a_straight_line() {
    let mut t = Edge::from([Vert::new(0, 0), Vert::new(2, 0)]);
    connect(&mut t, Edge::from([Vert::new(2, 0), Vert::new(5, 0)]));
    assert_eq!(points(&t), vec![Vert::new(0, 0), Vert::new(5, 0)]);
    let mut t = Edge::from([Vert::new(0, 0), Vert::new(2, 0)]);
    connect(&mut t, Edge::from([Vert::new(-3, 0), Vert::new(0, 0)]));
    assert_eq!(points(&t), vec![Vert::new(-3, 0), Vert::new(2, 0)]);
}

#[test]
fn add_edge_bridges_two_rings() {
    let mut es = Edges::new();
    es.add_edge(Edge::from([Vert::new(0, 0), Vert::new(2, 1)]));
    es.add_edge(Edge::from([Vert::new(7, 5), Vert::new(9, 9)]));
    assert_eq!(es.edges.len(), 2);
    es.add_edge(Edge::from([Vert::new(2, 1), Vert::new(7, 5)]));
    assert_eq!(es.edges.len(), 1);
    assert_eq!(
        points(&es.edges[0]),
        vec![Vert::new(0, 0), Vert::new(2, 1), Vert::new(7, 5), Vert::new(9, 9)]
    );
    // the ring closes when its ends are bridged
    es.add_edge(Edge::from([Vert::new(9, 9), Vert::new(0, 0)]));
    assert_eq!(es.edges.len(), 0);
    assert_eq!(es.closed_edges.len(), 1);
    let ring = &es.closed_edges[0];
    assert_eq!(ring.front(), ring.back());
}

#[test]
fn add_edge_bridge_can_close_a_ring() {
    // two open rings that share both ends once the segment is in
    let a = Vert::new(0, 0);
    let b = Vert::new(4, 0);
    let c = Vert::new(4, 4);
    let d = Vert::new(0, 4);
    let mut es = Edges::new();
    es.add_edge(Edge::from([a, b]));
    es.add_edge(Edge::from([c, d]));
    es.add_edge(Edge::from([b, c]));
    assert_eq!(es.edges.len(), 1);
    es.add_edge(Edge::from([d, a]));
    assert_eq!(es.edges.len(), 0);
    assert_eq!(es.closed_edges.len(), 1);
    assert_eq!(points(&es.closed_edges[0]), vec![a, b, c, d, a]);
    assert_eq!(es.closed_edges[0]._is_hole, Some(false));
}

#[test]
fn add_edge_files_a_closed_segment() {
    let mut es = Edges::default();
    es.add_edge(Edge::from([Vert::new(3, 3), Vert::new(3, 3)]));
    assert_eq!(es.edges.len(), 0);
    assert_eq!(es.closed_edges.len(), 1);
    assert_eq!(es.closed_edges[0]._is_hole, None);
}

#[test]
fn mark_closed_moves_a_ring() {
    let a = Vert::new(0, 0);
    let mut es = Edges::new();
    es.edges.push(Edge::from([a, Vert::new(4, 0), Vert::new(0, 4), a]));
    es.mark_closed(0);
    assert_eq!(es.edges.len(), 0);
    assert_eq!(es.closed_edges.len(), 1);
    assert_eq!(es.closed_edges[0]._is_hole, Some(false));
    // a ring on one upright line has no orientation to remember
    es.edges.push(Edge::from([a, Vert::new(0, 4), a]));
    es.mark_closed(0);
    assert_eq!(es.closed_edges.len(), 2);
    assert_eq!(es.closed_edges[1]._is_hole, None);
}

#[test]
fn a_period_and_a_half_is_no_staircase() {
    // one full period and a half period before it
    let verts = [
        p(-2., -10.), // outside
        p(0., 0.5),   // half a period
        p(1., 0.5),
        p(1., 1.),    // one period
        p(2., 1.),
        p(2., 1.5),
        p(10., 4.),   // outside
    ];
    let mut edge = Edge::from(verts);
    maybe_remove_zig_zags(&mut edge);
    assert_eq!(edge.len(), 7);
}

#[test]
fn two_periods_and_a_half_go_together() {
    let mut edge = Edge::from([
        p(-2., -10.), // outside
        p(0., 0.),    // before the staircase
        p(0., 0.5),   // half a period
        p(1., 0.5),   // period
        p(1., 1.),
        p(2., 1.),    // period
        p(2., 1.5),
        p(3., 1.5),   // last point of the staircase
        p(10., 4.),   // outside
    ]);
    maybe_remove_zig_zags(&mut edge);
    assert_eq!(points(&edge), vec![p(-2., -10.), p(0., 0.), p(3., 1.5), p(10., 4.)]);
}
