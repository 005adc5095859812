use img2stl::vert::{get_quad_edge, Vert, COORD_MAX, MAX_SIDE};
use std::cmp::Ordering;

#[test]
fn move_vert() {
    let mut v = Vert::new(0, 1);
    v.translate(1, 2);
    assert_eq!(v.x, 1);
    assert_eq!(v.y, 3);
}

#[test]
fn test_from_into() {
    let v = Vert::new(0, 0);
    let v2: Vec<i64> = v.into();
    assert_eq!(v2, vec![0, 0]);
    let w = Vert::new(3, -4);
    let w2: Vec<i64> = (&w).into();
    assert_eq!(w2, vec![3, -4]);
    let w3: [i64; 2] = (&w).into();
    assert_eq!(w3, [3, -4]);
}

#[test]
fn vector_arithmetic_is_exact() {
    let a = Vert::new(3, 4);
    let b = Vert::new(-2, 5);
    assert_eq!(a.diff(&b), Vert::new(5, -1));
    assert_eq!(a.dot_product(&b), 14);
    assert_eq!(a.cross_product(&b), 23);
    assert_eq!(a.magnitude_squared(), 25);
    assert_eq!(a.to3(7), vec![3, 4, 7]);
    let big = Vert::new(2 * COORD_MAX, -2 * COORD_MAX);
    assert_eq!(big.magnitude_squared(), 2 * (2 * COORD_MAX as i128) * (2 * COORD_MAX as i128));
}

#[test]
fn limits_fit_together() {
    assert_eq!(COORD_MAX, 1 << 29);
    assert_eq!(2 * MAX_SIDE as i64, COORD_MAX);
}

fn segs(border: (bool, bool, bool, bool), quad: (bool, bool, bool, bool)) -> Vec<Vec<(i64, i64)>> {
    // the cell at (0, 0) of an image with one row of cells: point 0 is (0, 2), point 8 is (2, 0)
    get_quad_edge(border, quad, 0, 0, 1)
        .iter()
        .map(|e| e.verts.iter().map(|v| (v.x, v.y)).collect())
        .collect()
}

const P: [(i64, i64); 9] =
    [(0, 2), (1, 2), (2, 2), (0, 1), (1, 1), (2, 1), (0, 0), (1, 0), (2, 0)];

fn seg(a: usize, b: usize) -> Vec<(i64, i64)> {
    vec![P[a], P[b]]
}

#[test]
fn quad_table_has_sixteen_cases() {
    let none = (false, false, false, false);
    let f = false;
    let t = true;
    assert_eq!(segs(none, (f, f, f, f)), Vec::<Vec<(i64, i64)>>::new());
    assert_eq!(segs(none, (f, f, f, t)), vec![seg(7, 3)]);
    assert_eq!(segs(none, (f, f, t, f)), vec![seg(5, 7)]);
    assert_eq!(segs(none, (f, f, t, t)), vec![seg(3, 5)]);
    assert_eq!(segs(none, (f, t, f, f)), vec![seg(1, 5)]);
    assert_eq!(segs(none, (f, t, f, t)), vec![seg(1, 5), seg(7, 3)]);
    assert_eq!(segs(none, (f, t, t, f)), vec![seg(1, 7)]);
    assert_eq!(segs(none, (f, t, t, t)), vec![seg(1, 3)]);
    assert_eq!(segs(none, (t, f, f, f)), vec![seg(3, 1)]);
    assert_eq!(segs(none, (t, f, f, t)), vec![seg(7, 1)]);
    assert_eq!(segs(none, (t, f, t, f)), vec![seg(3, 1), seg(5, 7)]);
    assert_eq!(segs(none, (t, f, t, t)), vec![seg(5, 1)]);
    assert_eq!(segs(none, (t, t, f, f)), vec![seg(3, 5)]);
    assert_eq!(segs(none, (t, t, f, t)), vec![seg(7, 5)]);
    assert_eq!(segs(none, (t, t, t, f)), vec![seg(3, 7)]);
    assert_eq!(segs(none, (t, t, t, t)), Vec::<Vec<(i64, i64)>>::new());
}

#[test]
fn border_closure_follows_the_image_rectangle() {
    let all = (true, true, true, true);
    let f = false;
    let t = true;
    assert_eq!(
        segs(all, (t, t, t, t)),
        vec![
            seg(1, 0),
            seg(2, 1),
            seg(5, 2),
            seg(8, 5),
            seg(7, 8),
            seg(6, 7),
            seg(3, 6),
            seg(0, 3)
        ]
    );
    assert_eq!(segs((t, f, f, f), (t, f, f, f)), vec![seg(3, 1), seg(1, 0)]);
    assert_eq!(segs((t, f, f, f), (f, t, f, f)), vec![seg(1, 5), seg(2, 1)]);
    assert_eq!(segs((f, t, f, f), (f, t, f, f)), vec![seg(1, 5), seg(5, 2)]);
    assert_eq!(segs((f, t, f, f), (f, f, t, f)), vec![seg(5, 7), seg(8, 5)]);
    assert_eq!(segs((f, f, t, f), (f, f, t, f)), vec![seg(5, 7), seg(7, 8)]);
    assert_eq!(segs((f, f, t, f), (f, f, f, t)), vec![seg(7, 3), seg(6, 7)]);
    assert_eq!(segs((f, f, f, t), (f, f, f, t)), vec![seg(7, 3), seg(3, 6)]);
    assert_eq!(segs((f, f, f, t), (t, f, f, f)), vec![seg(3, 1), seg(0, 3)]);
    assert_eq!(segs(all, (f, f, f, f)), Vec::<Vec<(i64, i64)>>::new());
}

#[test]
fn quad_edge_is_placed_by_cell() {
    // the cell at column 3, row 1 of an image with 5 rows of cells
    let edges = get_quad_edge(
        (false, false, false, false),
        (false, false, true, false),
        3,
        1,
        5,
    );
    assert_eq!(edges.len(), 1);
    let verts: Vec<Vert> = edges[0].verts.iter().copied().collect();
    assert_eq!(verts, vec![Vert::new(8, 7), Vert::new(7, 6)]);
}

#[test]
fn vertices_are_ordered_by_abscissa() {
    let a = Vert::new(1, 5);
    let b = Vert::new(2, 0);
    let c = Vert::new(1, 7);
    assert_eq!(a.partial_cmp(&a), Some(Ordering::Equal));
    assert_eq!(a.partial_cmp(&b), Some(Ordering::Less));
    assert_eq!(b.partial_cmp(&a), Some(Ordering::Greater));
    // with one abscissa and different ordinates, each is the greater
    assert_eq!(a.partial_cmp(&c), Some(Ordering::Greater));
    assert_eq!(c.partial_cmp(&a), Some(Ordering::Greater));
    assert!(a < b);
    assert!(a == Vert::new(1, 5));
    assert!(a != c);
}

#[test]
fn to_bytes_gives_two_numbers_of_four_bytes() {
    assert_eq!(Vert::new(1, 2).to_bytes(), [1, 0, 0, 0, 2, 0, 0, 0]);
    assert_eq!(Vert::new(-1, 258).to_bytes(), [255, 255, 255, 255, 2, 1, 0, 0]);
    let v = Vert::new(-COORD_MAX, COORD_MAX);
    let mut want = vec![];
    want.extend_from_slice(&(-(1i32 << 29)).to_le_bytes());
    want.extend_from_slice(&(1i32 << 29).to_le_bytes());
    assert_eq!(v.to_bytes().to_vec(), want);
}

#[test]
fn inner_segments_keep_the_foreground_on_their_left() {
    let none = (false, false, false, false);
    let corners = [P[0], P[2], P[8], P[6]];
    let mut seen = 0;
    for n in 1..15u8 {
        let quad = (n & 8 != 0, n & 4 != 0, n & 2 != 0, n & 1 != 0);
        let dark = [quad.0, quad.1, quad.2, quad.3];
        for s in segs(none, quad) {
            let (a, b) = (s[0], s[1]);
            let left: Vec<bool> = corners
                .iter()
                .map(|c| (b.0 - a.0) * (c.1 - a.1) - (b.1 - a.1) * (c.0 - a.0) > 0)
                .collect();
            assert!(left.iter().any(|l| *l));
            if quad == (false, false, true, true) {
                // the two upper corners lie to the left, and are background
                assert_eq!(left, vec![true, true, false, false]);
            } else {
                for c in 0..4 {
                    assert!(!left[c] || dark[c], "{:?} {:?}", quad, s);
                }
            }
            seen += 1;
        }
    }
    assert_eq!(seen, 16);
}
