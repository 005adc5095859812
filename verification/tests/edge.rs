use img2stl::edge::{
    edge_contains, edge_to_geojson, edge_to_segments, first_x_change, get_extremes,
    get_upper_and_lower_bounds, hole_contains, is_hole, winds_clockwise, y_value_at, Bounds, Edge,
    Ratio,
};
use img2stl::util::testing::{closed_edge, donut};
use img2stl::vert::Vert;

/// Ten lattice units stand for one unit of the coordinates written here.
fn v(x: f64, y: f64) -> Vert {
    let (sx, sy) = (x * 10.0, y * 10.0);
    assert_eq!(sx, sx.round());
    assert_eq!(sy, sy.round());
    Vert::new(sx as i64, sy as i64)
}

fn square(side: f64, x: f64, y: f64, hole: bool) -> Edge {
    closed_edge((side * 10.0) as i64, (x * 10.0) as i64, (y * 10.0) as i64, hole)
}

#[test]
fn test_possibly_contains() {
    let e = square(10., 0., 0., false);
    assert_eq!(e.bounds.map(|b| b.min_x), Some(0));
    assert_eq!(e.bounds.map(|b| b.max_y), Some(100));
    assert!(e.possibly_contains(&v(5., 5.)), "edge does contain");
    assert!(!e.possibly_contains(&v(50., 50.)), "edge does not contain");
}

#[test]
fn test_edge_eq() {
    let e = square(1., 0., 0., true);
    let e2 = square(1., 0., 0., true);
    let e3 = square(1., 0., 0., false);
    assert!(e == e);
    assert!(e == e2);
    assert!(e2 == e);
    assert!(e != e3);
}

#[test]
fn test_is_hole() {
    let e = square(1., 0., 0., true);
    assert!(is_hole(&e));
    let e2 = square(1., 0., 0., false);
    assert!(!is_hole(&e2));
}

#[test]
fn test_segent() {
    let a = vec![1, 2, 3];
    let befor_iter = a.iter();
    let after_iter = a.iter();
    let segments: Vec<[&i32; 2]> = befor_iter
        .zip(after_iter.skip(1))
        .map(|segment: (&i32, &i32)| [segment.0, segment.1])
        .collect();
    let expected = vec![[&1, &2], [&2, &3]];
    assert_eq!(segments, expected);
}

#[test]
fn test_edge_contains() {
    let e = Edge::from(vec![v(0., 0.), v(1., 0.), v(1., 1.), v(0., 1.), v(0., 0.)]);
    assert_eq!(edge_contains(&e, &v(0.5, 0.5)), true);
    assert_eq!(edge_contains(&e, &v(0.5, 10.)), false);
    assert_eq!(edge_contains(&e, &v(10., 0.5)), false);
}

#[test]
fn test_hole_contains() {
    let e = Edge::from(vec![v(0., 0.), v(0., 1.), v(1., 1.), v(1., 0.), v(0., 0.)]);
    assert_eq!(hole_contains(&e, &v(0.5, 0.5)), true);
    assert_eq!(hole_contains(&e, &v(0.5, 10.)), false);
    assert_eq!(hole_contains(&e, &v(10., 0.5)), false);
}

#[test]
fn edge_segments_pair_neighbours() {
    let e = Edge::from(vec![v(0., 0.), v(1., 0.), v(1., 1.)]);
    let segments = edge_to_segments(&e);
    assert_eq!(segments, vec![[v(0., 0.), v(1., 0.)], [v(1., 0.), v(1., 1.)]]);
    assert_eq!(edge_to_segments(&Edge::new()).len(), 0);
}

#[test]
fn edge_to_geojson_lists_coordinates() {
    let e = Edge::from(vec![Vert::new(3, 4), Vert::new(-5, 6)]);
    assert_eq!(edge_to_geojson(&e), vec![vec![3, 4], vec![-5, 6]]);
    assert_eq!(e.to_points(), vec![[3, 4], [-5, 6]]);
}

#[test]
fn bounding_box_grows_with_vertices() {
    let mut e = Edge::new();
    assert_eq!(e.bounds, None);
    assert!(e.possibly_contains(&Vert::new(1000, 1000)));
    e.push_back(Vert::new(2, 3));
    assert_eq!(e.bounds, Some(Bounds { min_x: 2, max_x: 2, min_y: 3, max_y: 3 }));
    e.push_front(Vert::new(-4, 7));
    assert_eq!(e.bounds, Some(Bounds { min_x: -4, max_x: 2, min_y: 3, max_y: 7 }));
    e.push_back(Vert::new(0, -1));
    assert_eq!(e.bounds, Some(Bounds { min_x: -4, max_x: 2, min_y: -1, max_y: 7 }));
    assert_eq!(e.pop_front(), Some(Vert::new(-4, 7)));
    assert_eq!(e.bounds, Some(Bounds { min_x: -4, max_x: 2, min_y: -1, max_y: 7 }));
    assert_eq!(e.len(), 2);
    assert_eq!(e.front(), Some(&Vert::new(2, 3)));
    assert_eq!(e.back(), Some(&Vert::new(0, -1)));
    assert_eq!(e.pop_back(), Some(Vert::new(0, -1)));
    assert_eq!(e.pop_back(), Some(Vert::new(2, 3)));
    assert_eq!(e.pop_back(), None);
    assert!(e.is_empty());
}

#[test]
fn get_extremes_is_tight() {
    assert_eq!(get_extremes(&[]), None);
    let verts = [Vert::new(1, 9), Vert::new(-3, 4), Vert::new(8, 5)];
    assert_eq!(get_extremes(&verts), Some(Bounds { min_x: -3, max_x: 8, min_y: 4, max_y: 9 }));
}

#[test]
fn append_moves_vertices_and_grows_box() {
    let mut a = Edge::from(vec![Vert::new(0, 0), Vert::new(1, 0)]);
    let mut b = Edge::from(vec![Vert::new(5, 5), Vert::new(6, -2)]);
    a.append(&mut b);
    assert_eq!(a.len(), 4);
    assert_eq!(b.len(), 0);
    assert_eq!(*a.index(2), Vert::new(5, 5));
    assert_eq!(a.bounds, Some(Bounds { min_x: 0, max_x: 6, min_y: -2, max_y: 5 }));
}

#[test]
fn y_value_at_is_exact() {
    // the segment from (0, 0) to (4, 2) at abscissa 3 / 2
    let y: Ratio = y_value_at(3, &Vert::new(0, 0), &Vert::new(4, 2));
    assert_eq!((y.num, y.den), (6, 8));
    // a segment that runs from right to left gives a positive denominator too
    let y: Ratio = y_value_at(3, &Vert::new(4, 2), &Vert::new(0, 0));
    assert_eq!((y.num, y.den), (6, 8));
    // a level segment, and an upright one, meet the line at their first vertex
    let y: Ratio = y_value_at(2, &Vert::new(0, 7), &Vert::new(4, 7));
    assert_eq!((y.num, y.den), (7, 1));
    let y: Ratio = y_value_at(2, &Vert::new(1, 3), &Vert::new(1, 9));
    assert_eq!((y.num, y.den), (3, 1));
    assert!(Ratio { num: 1, den: 3 }.less(&Ratio { num: 1, den: 2 }));
    assert!(!Ratio { num: 2, den: 4 }.less(&Ratio { num: 1, den: 2 }));
}

#[test]
fn upper_and_lower_bounds_pick_nearest_segments() {
    let e = square(1., 0., 0., false);
    // verts: (0,0) (10,0) (10,10) (0,10) (0,0); the point (5,5)
    let (above, below) = get_upper_and_lower_bounds(&e, &Vert::new(5, 5));
    assert_eq!(above, Some(2));
    assert_eq!(below, Some(0));
    let (above, below) = get_upper_and_lower_bounds(&e, &Vert::new(50, 5));
    assert_eq!((above, below), (None, None));
    let (above, below) = get_upper_and_lower_bounds(&e, &Vert::new(5, 50));
    assert_eq!((above, below), (None, Some(2)));
}

#[test]
fn orientation_is_kept_under_rotation() {
    let ring = vec![
        Vert::new(0, 0),
        Vert::new(6, 0),
        Vert::new(6, 2),
        Vert::new(3, 5),
        Vert::new(0, 2),
    ];
    for hole in [false, true] {
        for start in 0..ring.len() {
            let mut verts: Vec<Vert> =
                (0..ring.len()).map(|k| ring[(start + k) % ring.len()]).collect();
            if hole {
                verts.reverse();
            }
            verts.push(verts[0]);
            let e = Edge::from(verts);
            assert!(e.is_closed());
            assert_eq!(e.is_hole(), hole);
            assert_eq!(is_hole(&e), hole);
            assert_eq!(winds_clockwise(&e), hole);
        }
    }
}

#[test]
fn set_is_hole_remembers_orientation() {
    let mut e = square(1., 0., 0., true);
    assert_eq!(e._is_hole, None);
    e.set_is_hole();
    assert_eq!(e._is_hole, Some(true));
    // a later change of the ring drops what was remembered
    e.push_back(Vert::new(0, 0));
    assert_eq!(e._is_hole, None);
}

#[test]
fn first_x_change_finds_first_other_abscissa() {
    let e = Edge::from(vec![Vert::new(2, 0), Vert::new(2, 5), Vert::new(3, 5), Vert::new(2, 0)]);
    assert_eq!(first_x_change(&e), Some(2));
    let upright = Edge::from(vec![Vert::new(2, 0), Vert::new(2, 5), Vert::new(2, 0)]);
    assert_eq!(first_x_change(&upright), None);
    assert_eq!(first_x_change(&Edge::new()), None);
}

#[test]
fn clone_copies_everything() {
    let mut e = square(2., 1., 1., false);
    e.set_is_hole();
    let c = e.clone();
    assert_eq!(c, e);
}

#[test]
fn square_rings_know_their_box() {
    let outer = closed_edge(10, 5, -3, false);
    assert_eq!(outer.bounds, Some(Bounds { min_x: 5, max_x: 15, min_y: -3, max_y: 7 }));
    assert_eq!(outer._is_hole, None);
    let hole = closed_edge(10, 5, -3, true);
    assert_eq!(hole.bounds, outer.bounds);
    assert_eq!(hole.verts[1], Vert::new(5, 7));
    let rings = donut(20, 4, 1, 2);
    assert_eq!(rings[0].bounds, Some(Bounds { min_x: 5, max_x: 17, min_y: 6, max_y: 18 }));
    assert_eq!(rings[1].bounds, Some(Bounds { min_x: 1, max_x: 21, min_y: 2, max_y: 22 }));
}
