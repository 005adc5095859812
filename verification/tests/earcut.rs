use img2stl::earcut::{
    area, clip_ears, earcut, earcut_ring, filter_points, find_diagonal, find_hole_bridge, flatten,
    intersects, is_ear, is_valid_diagonal, point_in_triangle, signed_area,
};
use img2stl::vert::Vert;
use img2stl::PipelineError;

fn pts(coords: &[(i64, i64)]) -> Vec<Vert> {
    coords.iter().map(|&(x, y)| Vert::new(x, y)).collect()
}

fn check_triangles(data: &[i64], tris: &[usize]) -> i128 {
    assert_eq!(tris.len() % 3, 0);
    let mut total: i128 = 0;
    for t in tris.chunks(3) {
        let p: Vec<Vert> = t.iter().map(|&i| Vert::new(data[2 * i], data[2 * i + 1])).collect();
        let a = area(&p[0], &p[1], &p[2]);
        assert!(a > 0, "triangle {:?} does not go round to the left", t);
        total += a;
    }
    total
}

#[test]
fn earcut_triangle_and_square() {
    let data = vec![0, 0, 4, 0, 0, 4];
    assert_eq!(earcut(&data, &vec![], 2), Ok(vec![2, 0, 1]));
    let data = vec![0, 0, 10, 0, 10, 10, 0, 10];
    let tris = earcut(&data, &vec![], 2).unwrap();
    assert_eq!(tris, vec![3, 0, 1, 1, 2, 3]);
    assert_eq!(check_triangles(&data, &tris), 200);
}

#[test]
fn earcut_turns_a_clockwise_ring_round() {
    let data = vec![0, 0, 0, 10, 10, 10, 10, 0];
    let tris = earcut(&data, &vec![], 2).unwrap();
    assert_eq!(tris.len(), 6);
    assert_eq!(check_triangles(&data, &tris), 200);
}

#[test]
fn earcut_square_with_hole() {
    let data: Vec<i64> = vec![0, 0, 10, 0, 10, 10, 0, 10, 3, 3, 3, 6, 6, 6, 6, 3];
    let tris = earcut(&data, &vec![4], 2).unwrap();
    assert_eq!(tris.len(), 3 * 8);
    // the triangles cover the square less the hole
    assert_eq!(check_triangles(&data, &tris), 2 * (100 - 9));
}

#[test]
fn earcut_two_holes_and_closed_rings() {
    // every ring ends where it starts, as rings from the assembler do
    let data: Vec<i64> = vec![
        0, 0, 20, 0, 20, 10, 0, 10, 0, 0, // outer
        2, 2, 2, 8, 8, 8, 8, 2, 2, 2, // hole
        12, 2, 12, 8, 18, 8, 18, 2, 12, 2, // hole
    ];
    let tris = earcut(&data, &vec![5, 10], 2).unwrap();
    assert_eq!(check_triangles(&data, &tris), 2 * (200 - 36 - 36));
}

#[test]
fn earcut_concave_ring() {
    let data: Vec<i64> = vec![0, 0, 10, 0, 10, 10, 5, 4, 0, 10];
    let tris = earcut(&data, &vec![], 2).unwrap();
    assert_eq!(tris.len(), 9);
    assert_eq!(check_triangles(&data, &tris), 2 * (100 - 30));
}

#[test]
fn earcut_degenerate_rings_give_nothing() {
    assert_eq!(earcut(&vec![], &vec![], 2), Ok(vec![]));
    assert_eq!(earcut(&vec![0, 0, 5, 5], &vec![], 2), Ok(vec![]));
    assert_eq!(earcut(&vec![0, 0, 5, 5, 9, 9], &vec![], 2), Ok(vec![]));
}

#[test]
fn earcut_fails_without_a_bridge() {
    // the hole lies to the left of the outer ring
    let data: Vec<i64> = vec![10, 0, 20, 0, 20, 10, 10, 10, 0, 0, 0, 2, 2, 2, 2, 0];
    assert_eq!(earcut(&data, &vec![4], 2), Err(PipelineError::TriangulationFailed));
}

#[test]
fn flatten_lays_rings_out() {
    let polygon = vec![
        vec![vec![0, 0], vec![10, 0], vec![10, 10]],
        vec![vec![1, 1], vec![2, 1]],
        vec![vec![5, 5]],
    ];
    let (flat, holes, dims) = flatten(&polygon);
    assert_eq!(flat, vec![0, 0, 10, 0, 10, 10, 1, 1, 2, 1, 5, 5]);
    assert_eq!(holes, vec![3, 5]);
    assert_eq!(dims, 2);
}

#[test]
fn signed_area_tells_the_direction() {
    let left = pts(&[(0, 0), (4, 0), (4, 4), (0, 4)]);
    assert_eq!(signed_area(&left, 0, 4), 32);
    let right = pts(&[(0, 0), (0, 4), (4, 4), (4, 0)]);
    assert_eq!(signed_area(&right, 0, 4), -32);
    assert_eq!(signed_area(&left, 1, 1), 0);
}

#[test]
fn geometric_predicates() {
    let a = Vert::new(0, 0);
    let b = Vert::new(4, 0);
    let c = Vert::new(0, 4);
    assert_eq!(area(&a, &b, &c), 16);
    assert_eq!(area(&a, &c, &b), -16);
    assert!(point_in_triangle(&a, &b, &c, &Vert::new(1, 1)));
    assert!(point_in_triangle(&a, &b, &c, &Vert::new(2, 2)));
    assert!(!point_in_triangle(&a, &b, &c, &Vert::new(3, 3)));
    assert!(intersects(&a, &Vert::new(4, 4), &b, &c));
    assert!(!intersects(&a, &b, &c, &Vert::new(4, 4)));
    assert!(intersects(&a, &b, &Vert::new(2, 0), &Vert::new(6, 0)));
}

#[test]
fn ears_and_diagonals() {
    // a square with a notch: place 3 turns right
    let points = pts(&[(0, 0), (10, 0), (10, 10), (5, 4), (0, 10)]);
    let ring: Vec<usize> = vec![0, 1, 2, 3, 4];
    assert!(!is_ear(&points, &ring, 3));
    assert!(!is_ear(&points, &ring, 0));
    assert!(is_ear(&points, &ring, 2));
    assert!(is_valid_diagonal(&points, &ring, 1, 3));
    assert!(!is_valid_diagonal(&points, &ring, 2, 4));
    assert_eq!(find_diagonal(&points, &ring), Some((0, 3)));
    assert_eq!(find_diagonal(&points, &vec![0, 1, 2]), None);
}

#[test]
fn clip_and_filter() {
    let points = pts(&[(0, 0), (5, 0), (10, 0), (10, 10), (0, 10), (0, 10)]);
    let mut ring: Vec<usize> = vec![0, 1, 2, 3, 4, 5];
    filter_points(&points, &mut ring);
    assert_eq!(ring, vec![0, 2, 3, 5]);
    let mut out: Vec<usize> = vec![];
    clip_ears(&points, &mut ring, &mut out);
    assert_eq!(ring.len(), 2);
    assert_eq!(out.len(), 6);
    let mut out: Vec<usize> = vec![];
    assert!(earcut_ring(&points, vec![0, 1, 2, 3, 4, 5], &mut out));
    let data = vec![0, 0, 5, 0, 10, 0, 10, 10, 0, 10, 0, 10];
    assert_eq!(check_triangles(&data, &out), 200);
}

#[test]
fn hole_bridge_ends_at_a_visible_place() {
    let points = pts(&[(0, 0), (10, 0), (10, 10), (0, 10)]);
    let ring: Vec<usize> = vec![0, 1, 2, 3];
    // a ray to the left from (3, 3) meets the side from (0, 10) down to (0, 0)
    let m = find_hole_bridge(&points, &ring, &Vert::new(3, 3)).unwrap();
    assert_eq!(m, 0);
    assert_eq!(find_hole_bridge(&points, &ring, &Vert::new(-3, 3)), None);
    // a point on the side itself
    let m = find_hole_bridge(&points, &ring, &Vert::new(0, 5)).unwrap();
    assert!(m == 3 || m == 0);
}
