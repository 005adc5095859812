//! Which way round the triangles of ear cutting go.

use vstd::prelude::*;
use crate::area::{lemma_bridge_place, lemma_leftmost_exists, lemma_queue_place};
use crate::earcut::{
    arc, area2, cut_at, far_half, hole_end, holes_valid, is_first_cut, is_leftmost, is_spare,
    lemma_clip_shrinks, lemma_filter_shrinks, lemma_halves_valid, lemma_merge_valid, near_half,
    next_pos, prev_pos, queue_place, ring_valid, spec_clip, spec_cut, spec_earcut,
    spec_eliminate, spec_enqueue, spec_filter, spec_find_bridge, spec_hole_from_leftmost,
    spec_is_ear, spec_merge, spec_points, spec_queue, spec_ring_of, spec_signed_area,
    triangles_valid, wrap,
};
use crate::ribbon::{ribbon_quad, ribbon_upto, spec_ribbon};
use crate::tree::Nest;
use crate::triangle::{
    flipped_upto, lemma_flipped_len, lemma_lifted_len, lemma_point_count_grows,
    lemma_poly_input_valid, lemma_tri_coords_len, lifted_upto, nest_in_range, poly_points,
    spec_flip, spec_lid, spec_lids, spec_ribbons, spec_to_3d, tri_coords,
};
use crate::earcut::{point_count, polygon_coords, spec_hole_starts};
use crate::vert::Vert;

verus! {

/// A list of triangles that name points and go round to the left is
/// still one with one such triangle more.
pub proof fn lemma_push_valid(pts: Seq<Vert>, out: Seq<usize>, a: usize, b: usize, c: usize)
    requires
        triangles_valid(pts, out),
        a < pts.len(),
        b < pts.len(),
        c < pts.len(),
        area2(pts[a as int], pts[b as int], pts[c as int]) > 0,
    ensures
        triangles_valid(pts, out.push(a).push(b).push(c)),
{
    let more = out.push(a).push(b).push(c);
    let n = out.len() as int;
    assert forall|i: int| 0 <= i < more.len() implies (#[trigger] more[i]) < pts.len() by {
        if i < n {
            assert(more[i] == out[i]);
        }
    }
    assert forall|t: int| 0 <= t < more.len() / 3 implies #[trigger] area2(
        pts[more[3 * t] as int],
        pts[more[3 * t + 1] as int],
        pts[more[3 * t + 2] as int],
    ) > 0 by {
        if t < n / 3 {
            assert(more[3 * t] == out[3 * t]);
            assert(more[3 * t + 1] == out[3 * t + 1]);
            assert(more[3 * t + 2] == out[3 * t + 2]);
            assert(area2(
                pts[out[3 * t] as int],
                pts[out[3 * t + 1] as int],
                pts[out[3 * t + 2] as int],
            ) > 0);
        } else {
            assert(3 * t == n);
        }
    }
}

/// A ring that names points still does with one place taken out.
pub proof fn lemma_remove_valid(pts: Seq<Vert>, ring: Seq<usize>, i: int)
    requires
        ring_valid(pts, ring),
        0 <= i < ring.len(),
    ensures
        ring_valid(pts, ring.remove(i)),
{
    let rest = ring.remove(i);
    assert forall|k: int| 0 <= k < rest.len() implies (#[trigger] rest[k]) < pts.len() by {
        if k < i {
            assert(rest[k] == ring[k]);
        } else {
            assert(rest[k] == ring[k + 1]);
        }
    }
}

/// Every ear that is cut off a ring goes round to the left, and what is
/// left of the ring names points.
pub proof fn lemma_clip_valid(pts: Seq<Vert>, ring: Seq<usize>, i: int, misses: int, out: Seq<usize>)
    requires
        ring_valid(pts, ring),
        triangles_valid(pts, out),
    ensures
        ring_valid(pts, spec_clip(pts, ring, i, misses, out).0),
        triangles_valid(pts, spec_clip(pts, ring, i, misses, out).1),
    decreases ring.len(), ring.len() - misses,
{
    let n = ring.len() as int;
    if n < 3 || misses >= n || misses < 0 || i < 0 || i >= n {
    } else if spec_is_ear(pts, ring, i) {
        let a = ring[prev_pos(i, n)];
        let b = ring[i];
        let c = ring[next_pos(i, n)];
        lemma_push_valid(pts, out, a, b, c);
        lemma_remove_valid(pts, ring, i);
        lemma_clip_valid(
            pts,
            ring.remove(i),
            next_pos(
                if i == n - 1 {
                    0
                } else {
                    i
                },
                n - 1,
            ),
            0,
            out.push(a).push(b).push(c),
        );
    } else {
        lemma_clip_valid(pts, ring, next_pos(i, n), misses + 1, out);
    }
}

/// What filtering leaves of a ring that names points names points.
pub proof fn lemma_filter_valid(pts: Seq<Vert>, ring: Seq<usize>, i: int, clean: int)
    requires
        ring_valid(pts, ring),
    ensures
        ring_valid(pts, spec_filter(pts, ring, i, clean)),
    decreases ring.len(), ring.len() - clean,
{
    let n = ring.len() as int;
    if n < 3 || clean >= n || clean < 0 || i < 0 || i >= n {
    } else if is_spare(pts, ring, i) {
        lemma_remove_valid(pts, ring, i);
        lemma_filter_valid(
            pts,
            ring.remove(i),
            if i == 0 {
                n - 2
            } else {
                i - 1
            },
            0,
        );
    } else {
        lemma_filter_valid(pts, ring, next_pos(i, n), clean + 1);
    }
}

/// Every triangle that ear cutting makes of a ring names points and goes
/// round to the left.
pub proof fn lemma_cut_valid(pts: Seq<Vert>, ring: Seq<usize>, out: Seq<usize>)
    requires
        ring_valid(pts, ring),
        triangles_valid(pts, out),
    ensures
        spec_cut(pts, ring, out) matches Some(more) ==> triangles_valid(pts, more),
    decreases ring.len(),
{
    let first = spec_clip(pts, ring, 0, 0, out);
    lemma_clip_valid(pts, ring, 0, 0, out);
    lemma_clip_shrinks(pts, ring, 0, 0, out);
    if first.0.len() >= 3 {
        let filtered = spec_filter(pts, first.0, 0, 0);
        let second = spec_clip(pts, filtered, 0, 0, first.1);
        lemma_filter_valid(pts, first.0, 0, 0);
        lemma_filter_shrinks(pts, first.0, 0, 0);
        lemma_clip_valid(pts, filtered, 0, 0, first.1);
        lemma_clip_shrinks(pts, filtered, 0, 0, first.1);
        let left = second.0;
        if left.len() >= 3 && exists|cut: (int, int)| is_first_cut(pts, left, cut.0, cut.1) {
            let cut = choose|cut: (int, int)| is_first_cut(pts, left, cut.0, cut.1);
            assert(cut_at(pts, left, cut.0, cut.1));
            assert(far_half(left, cut.0, cut.1).len() == left.len() - cut.1 + 1);
            assert(near_half(left, cut.0, cut.1).len() == cut.1 + 1);
            lemma_halves_valid(pts, left, cut.0, cut.1);
            lemma_cut_valid(pts, far_half(left, cut.0, cut.1), second.1);
            match spec_cut(pts, far_half(left, cut.0, cut.1), second.1) {
                Some(more) => {
                    lemma_cut_valid(pts, near_half(left, cut.0, cut.1), more);
                },
                None => {},
            }
        }
    }
}

/// The ring of the points from `start` up to `end` names points.
pub proof fn lemma_ring_of_valid(pts: Seq<Vert>, start: int, end: int, leftward: bool)
    requires
        0 <= start <= end <= pts.len(),
        pts.len() <= usize::MAX,
    ensures
        ring_valid(pts, spec_ring_of(pts, start, end, leftward)),
{
    let forward = Seq::new((end - start) as nat, |k: int| (start + k) as usize);
    let ordered = if leftward == (spec_signed_area(pts, start, end) > 0) {
        forward
    } else {
        forward.reverse()
    };
    let ring = spec_ring_of(pts, start, end, leftward);
    assert forall|i: int| 0 <= i < ordered.len() implies (#[trigger] ordered[i]) < pts.len() by {
        if leftward == (spec_signed_area(pts, start, end) > 0) {
            assert(ordered[i] == (start + i) as usize);
        } else {
            assert(ordered[i] == forward[forward.len() - 1 - i]);
        }
    }
    assert forall|i: int| 0 <= i < ring.len() implies (#[trigger] ring[i]) < pts.len() by {
        assert(ring[i] == ordered[i]);
    }
}

/// Every ring of the list has a place and names points.
pub open spec fn rings_valid(pts: Seq<Vert>, queue: Seq<Seq<usize>>) -> bool {
    forall|i: int| 0 <= i < queue.len() ==> (#[trigger] queue[i]).len() > 0 && ring_valid(pts, queue[i])
}

/// Every hole of the queue has a place and names points.
pub proof fn lemma_queue_valid(pts: Seq<Vert>, holes: Seq<usize>, k: int)
    requires
        holes_valid(holes, pts.len() as int),
        0 <= k <= holes.len(),
        pts.len() <= usize::MAX,
    ensures
        rings_valid(pts, spec_queue(pts, holes, k)),
    decreases k,
{
    if k > 0 {
        lemma_queue_valid(pts, holes, k - 1);
        let before = spec_queue(pts, holes, k - 1);
        let start = holes[k - 1] as int;
        let end = hole_end(holes, pts.len() as int, k - 1);
        lemma_ring_of_valid(pts, start, end, false);
        let ring = spec_ring_of(pts, start, end, false);
        if ring.len() > 0 {
            let n = ring.len() as int;
            lemma_leftmost_exists(pts, ring, n);
            assert(ring.take(n) =~= ring);
            let first = choose|j: int| is_leftmost(pts, ring, j);
            let hole = spec_hole_from_leftmost(pts, ring);
            assert(hole == arc(ring, first, n));
            assert forall|i: int| 0 <= i < hole.len() implies (#[trigger] hole[i]) < pts.len() by {
                assert(hole[i] == ring[wrap(first, i, n)]);
            }
            let x = pts[hole[0] as int].x as int;
            lemma_queue_place(pts, before, x, 0);
            let place = queue_place(pts, before, x, 0);
            let after = spec_enqueue(pts, before, hole);
            assert forall|i: int| 0 <= i < after.len() implies (#[trigger] after[i]).len() > 0
                && ring_valid(pts, after[i]) by {
                if i < place {
                    assert(after[i] == before[i]);
                } else if i > place {
                    assert(after[i] == before[i - 1]);
                } else {
                    assert(after[i] == hole);
                }
            }
        }
    }
}

/// A ring with holes let into it names points if the ring and the holes
/// do.
pub proof fn lemma_eliminate_valid(pts: Seq<Vert>, ring: Seq<usize>, queue: Seq<Seq<usize>>, i: int)
    requires
        ring_valid(pts, ring),
        rings_valid(pts, queue),
        0 <= i <= queue.len(),
    ensures
        spec_eliminate(pts, ring, queue, i) matches Some(merged) ==> ring_valid(pts, merged),
    decreases queue.len() - i,
{
    if i < queue.len() {
        let h = pts[queue[i][0] as int];
        lemma_bridge_place(pts, ring, h);
        match spec_find_bridge(pts, ring, h) {
            Some(m) => {
                lemma_merge_valid(pts, ring, m, queue[i]);
                lemma_eliminate_valid(pts, spec_merge(ring, m, queue[i]), queue, i + 1);
            },
            None => {},
        }
    }
}

/// Every triangle that ear cutting makes of a polygon with holes names
/// points of the polygon and has a strictly positive signed area: it
/// goes round to the left.
pub proof fn lemma_earcut_valid(data: Seq<i64>, holes: Seq<usize>)
    requires
        holes_valid(holes, data.len() as int / 2),
        data.len() / 2 <= usize::MAX,
    ensures
        spec_earcut(data, holes) matches Some(t) ==> triangles_valid(spec_points(data), t),
{
    let pts = spec_points(data);
    let outer_end = if holes.len() > 0 {
        holes[0] as int
    } else {
        pts.len() as int
    };
    let none = Seq::<usize>::empty();
    assert(triangles_valid(pts, none));
    let outer = spec_ring_of(pts, 0, outer_end, true);
    if outer.len() >= 3 {
        let queue = spec_queue(pts, holes, holes.len() as int);
        lemma_ring_of_valid(pts, 0, outer_end, true);
        lemma_queue_valid(pts, holes, holes.len() as int);
        lemma_eliminate_valid(pts, outer, queue, 0);
        match spec_eliminate(pts, outer, queue, 0) {
            Some(ring) => {
                lemma_cut_valid(pts, ring, none);
            },
            None => {},
        }
    }
}

/// Twice the signed area of the `t`-th triangle of a flat list of
/// triangles, six coordinates each.
pub open spec fn flat_area(flat: Seq<i64>, t: int) -> int {
    area2(
        Vert { x: flat[6 * t], y: flat[6 * t + 1] },
        Vert { x: flat[6 * t + 2], y: flat[6 * t + 3] },
        Vert { x: flat[6 * t + 4], y: flat[6 * t + 5] },
    )
}

/// The list holds whole triangles, six coordinates each, and every one
/// of them goes round to the left.
pub open spec fn faces_up(flat: Seq<i64>) -> bool {
    &&& flat.len() % 6 == 0
    &&& forall|t: int| 0 <= t < flat.len() / 6 ==> #[trigger] flat_area(flat, t) > 0
}

/// Where the coordinates of the `j`-th named point stand.
pub proof fn lemma_tri_coords_at(data: Seq<i64>, t: Seq<usize>, k: int, j: int)
    requires
        0 <= j < k,
    ensures
        tri_coords(data, t, k).len() == 2 * k,
        tri_coords(data, t, k)[2 * j] == data[2 * t[j]],
        tri_coords(data, t, k)[2 * j + 1] == data[2 * t[j] + 1],
    decreases k,
{
    lemma_tri_coords_len(data, t, k - 1);
    if j < k - 1 {
        lemma_tri_coords_at(data, t, k - 1, j);
    }
}

/// Triangles that go round to the left as names of points do so as
/// coordinates.
pub proof fn lemma_named_faces_up(data: Seq<i64>, t: Seq<usize>)
    requires
        triangles_valid(spec_points(data), t),
    ensures
        faces_up(tri_coords(data, t, t.len() as int)),
{
    let pts = spec_points(data);
    let count = t.len() as int;
    let flat = tri_coords(data, t, count);
    lemma_tri_coords_len(data, t, count);
    assert forall|u: int| 0 <= u < flat.len() / 6 implies #[trigger] flat_area(flat, u) > 0 by {
        lemma_tri_coords_at(data, t, count, 3 * u);
        lemma_tri_coords_at(data, t, count, 3 * u + 1);
        lemma_tri_coords_at(data, t, count, 3 * u + 2);
        let a = t[3 * u];
        let b = t[3 * u + 1];
        let c = t[3 * u + 2];
        assert(a < pts.len() && b < pts.len() && c < pts.len());
        assert(pts[a as int] == Vert { x: data[2 * a], y: data[2 * a + 1] });
        assert(pts[b as int] == Vert { x: data[2 * b], y: data[2 * b + 1] });
        assert(pts[c as int] == Vert { x: data[2 * c], y: data[2 * c + 1] });
        assert(area2(pts[t[3 * u] as int], pts[t[3 * u + 1] as int], pts[t[3 * u + 2] as int]) > 0);
        assert(flat[6 * u] == flat[2 * (3 * u)]);
        assert(flat[6 * u + 2] == flat[2 * (3 * u + 1)]);
        assert(flat[6 * u + 4] == flat[2 * (3 * u + 2)]);
    }
}

/// The polygon has its points in range, and no more of them than can be
/// counted.
pub open spec fn nest_fits(n: Nest) -> bool {
    &&& nest_in_range(n)
    &&& point_count(poly_points(n), poly_points(n).len() as int) <= usize::MAX
}

/// Every triangle of the lid of a polygon has a strictly positive signed
/// area: it goes round to the left.
pub proof fn lemma_lid_faces_up(n: Nest)
    requires
        nest_fits(n),
    ensures
        spec_lid(n) matches Some(lid) ==> faces_up(lid),
{
    reveal(spec_lid);
    let deep = poly_points(n);
    let count = deep.len() as int;
    let data = polygon_coords(deep, count);
    let holes = spec_hole_starts(deep);
    let total = point_count(deep, count);
    lemma_poly_input_valid(n, count);
    assert(data.len() as int / 2 == total);
    assert forall|i: int| 0 <= i < holes.len() implies (#[trigger] holes[i]) <= total by {
        lemma_point_count_grows(deep, i + 1, count);
    }
    assert forall|i: int, j: int| 0 <= i <= j < holes.len() implies holes[i] <= holes[j] by {
        lemma_point_count_grows(deep, i + 1, j + 1);
        lemma_point_count_grows(deep, j + 1, count);
    }
    lemma_earcut_valid(data, holes);
    match spec_earcut(data, holes) {
        Some(t) => {
            lemma_named_faces_up(data, t);
        },
        None => {},
    }
}

/// Two lists of triangles that go round to the left make one.
pub proof fn lemma_faces_up_add(a: Seq<i64>, b: Seq<i64>)
    requires
        faces_up(a),
        faces_up(b),
    ensures
        faces_up(a + b),
{
    let all = a + b;
    let k = a.len() as int / 6;
    assert(a.len() == 6 * k);
    assert forall|t: int| 0 <= t < all.len() / 6 implies #[trigger] flat_area(all, t) > 0 by {
        if t < k {
            assert(flat_area(all, t) == flat_area(a, t));
        } else {
            assert(flat_area(b, t - k) > 0);
            assert(all[6 * t] == b[6 * (t - k)]);
            assert(all[6 * t + 1] == b[6 * (t - k) + 1]);
            assert(all[6 * t + 2] == b[6 * (t - k) + 2]);
            assert(all[6 * t + 3] == b[6 * (t - k) + 3]);
            assert(all[6 * t + 4] == b[6 * (t - k) + 4]);
            assert(all[6 * t + 5] == b[6 * (t - k) + 5]);
        }
    }
}

/// Every triangle of the lids of a list of polygons goes round to the
/// left.
pub proof fn lemma_lids_face_up(polys: Seq<Nest>, k: int)
    requires
        0 <= k <= polys.len(),
        forall|i: int| 0 <= i < k ==> nest_fits(#[trigger] polys[i]),
    ensures
        spec_lids(polys, k) matches Some(flat) ==> faces_up(flat),
    decreases k,
{
    if k > 0 {
        lemma_lids_face_up(polys, k - 1);
        assert(nest_fits(polys[k - 1]));
        lemma_lid_faces_up(polys[k - 1]);
        match spec_lids(polys, k - 1) {
            Some(before) => match spec_lid(polys[k - 1]) {
                Some(lid) => {
                    lemma_faces_up_add(before, lid);
                },
                None => {},
            },
            None => {},
        }
    } else {
        assert(faces_up(Seq::<i64>::empty()));
    }
}

/// Twice the signed area, seen from above, of the `t`-th triangle of a
/// list of triangles in space, nine coordinates each.
pub open spec fn face_area(mesh: Seq<i64>, t: int) -> int {
    area2(
        Vert { x: mesh[9 * t], y: mesh[9 * t + 1] },
        Vert { x: mesh[9 * t + 3], y: mesh[9 * t + 4] },
        Vert { x: mesh[9 * t + 6], y: mesh[9 * t + 7] },
    )
}

/// The three corners of the `t`-th triangle lie at the height `z`.
pub open spec fn face_level(mesh: Seq<i64>, t: int, z: i64) -> bool {
    mesh[9 * t + 2] == z && mesh[9 * t + 5] == z && mesh[9 * t + 8] == z
}

/// The triangles of `mesh` from the `first`-th on, `count` of them, lie
/// at the height `z`; seen from above they go round to the left when
/// `up` holds and to the right when it does not.
pub open spec fn lid_wound(mesh: Seq<i64>, first: int, count: int, z: i64, up: bool) -> bool {
    forall|t: int| first <= t < first + count ==> #[trigger] face_wound(mesh, t, z, up)
}

/// The `t`-th triangle of `mesh` lies at the height `z`; seen from above
/// it goes round to the left when `up` holds and to the right when it
/// does not.
pub open spec fn face_wound(mesh: Seq<i64>, t: int, z: i64, up: bool) -> bool {
    &&& face_level(mesh, t, z)
    &&& if up {
        face_area(mesh, t) > 0
    } else {
        face_area(mesh, t) < 0
    }
}

/// After `walls` triangles, `mesh` holds a lid of `lid` triangles at
/// `height` that go round to the left, and then as many at height zero
/// that go round to the right, and nothing more.
pub open spec fn lids_wound(mesh: Seq<i64>, walls: int, lid: int, height: i64) -> bool {
    &&& walls >= 0
    &&& lid >= 0
    &&& mesh.len() == 9 * (walls + lid + lid)
    &&& lid_wound(mesh, walls, lid, height, true)
    &&& lid_wound(mesh, walls + lid, lid, 0, false)
}

/// Where the coordinates of the `j`-th lifted point stand.
pub proof fn lemma_lifted_at(tris: Seq<i64>, z: i64, k: int, j: int)
    requires
        0 <= j < k,
    ensures
        lifted_upto(tris, z, k).len() == 3 * k,
        lifted_upto(tris, z, k)[3 * j] == tris[2 * j],
        lifted_upto(tris, z, k)[3 * j + 1] == tris[2 * j + 1],
        lifted_upto(tris, z, k)[3 * j + 2] == z,
    decreases k,
{
    lemma_lifted_len(tris, z, k - 1);
    if j < k - 1 {
        lemma_lifted_at(tris, z, k - 1, j);
    }
}

/// Where the coordinates of the `j`-th turned triangle stand.
pub proof fn lemma_flipped_at(tris: Seq<i64>, new_z: i64, k: int, j: int)
    requires
        0 <= j < k,
    ensures
        flipped_upto(tris, new_z, k).len() == 9 * k,
        flipped_upto(tris, new_z, k).subrange(9 * j, 9 * j + 9) == seq![
            tris[9 * j],
            tris[9 * j + 1],
            new_z,
            tris[9 * j + 6],
            tris[9 * j + 7],
            new_z,
            tris[9 * j + 3],
            tris[9 * j + 4],
            new_z,
        ],
    decreases k,
{
    lemma_flipped_len(tris, new_z, k - 1);
    let all = flipped_upto(tris, new_z, k);
    let before = flipped_upto(tris, new_z, k - 1);
    if j < k - 1 {
        lemma_flipped_at(tris, new_z, k - 1, j);
        assert(all.subrange(9 * j, 9 * j + 9) =~= before.subrange(9 * j, 9 * j + 9));
    } else {
        assert(all.subrange(9 * j, 9 * j + 9) =~= seq![
            tris[9 * j],
            tris[9 * j + 1],
            new_z,
            tris[9 * j + 6],
            tris[9 * j + 7],
            new_z,
            tris[9 * j + 3],
            tris[9 * j + 4],
            new_z,
        ]);
    }
}

/// A triangle gone round the other way has the opposite area.
pub proof fn lemma_area_turned(a: Vert, b: Vert, c: Vert)
    ensures
        area2(a, c, b) == -area2(a, b, c),
{
    let ux = b.x - a.x;
    let uy = b.y - a.y;
    let vx = c.x - a.x;
    let vy = c.y - a.y;
    assert(vx * uy - vy * ux == -(ux * vy - uy * vx)) by (nonlinear_arith);
}

/// Flat triangles that go round to the left, lifted to a height, lie at
/// that height and go round to the left seen from above.
pub proof fn lemma_lifted_faces(flat: Seq<i64>, z: i64)
    requires
        faces_up(flat),
    ensures
        spec_to_3d(flat, z).len() == 9 * (flat.len() / 6),
        lid_wound(spec_to_3d(flat, z), 0, flat.len() as int / 6, z, true),
{
    let q = flat.len() as int / 6;
    assert(flat.len() == 6 * q);
    assert(flat.len() as int / 2 == 3 * q);
    let top = spec_to_3d(flat, z);
    assert(top == lifted_upto(flat, z, 3 * q));
    lemma_lifted_len(flat, z, 3 * q);
    assert forall|t: int| 0 <= t < q implies #[trigger] face_wound(top, t, z, true) by {
        lemma_lifted_at(flat, z, 3 * q, 3 * t);
        lemma_lifted_at(flat, z, 3 * q, 3 * t + 1);
        lemma_lifted_at(flat, z, 3 * q, 3 * t + 2);
        assert(flat_area(flat, t) > 0);
        assert(top[9 * t] == top[3 * (3 * t)]);
        assert(top[9 * t + 3] == top[3 * (3 * t + 1)]);
        assert(top[9 * t + 6] == top[3 * (3 * t + 2)]);
        assert(flat[6 * t] == flat[2 * (3 * t)]);
        assert(flat[6 * t + 2] == flat[2 * (3 * t + 1)]);
        assert(flat[6 * t + 4] == flat[2 * (3 * t + 2)]);
        assert(face_area(top, t) == flat_area(flat, t));
    }
}

/// Triangles that go round to the left seen from above, turned over, lie
/// at their new height and go round to the right.
pub proof fn lemma_flipped_faces(top: Seq<i64>, z: i64, new_z: i64)
    requires
        top.len() % 9 == 0,
        lid_wound(top, 0, top.len() as int / 9, z, true),
    ensures
        spec_flip(top, new_z).len() == top.len(),
        lid_wound(spec_flip(top, new_z), 0, top.len() as int / 9, new_z, false),
{
    let q = top.len() as int / 9;
    let bottom = spec_flip(top, new_z);
    lemma_flipped_len(top, new_z, q);
    assert forall|t: int| 0 <= t < q implies #[trigger] face_wound(bottom, t, new_z, false) by {
        lemma_flipped_at(top, new_z, q, t);
        let part = bottom.subrange(9 * t, 9 * t + 9);
        assert(bottom[9 * t] == part[0]);
        assert(bottom[9 * t + 1] == part[1]);
        assert(bottom[9 * t + 2] == part[2]);
        assert(bottom[9 * t + 3] == part[3]);
        assert(bottom[9 * t + 4] == part[4]);
        assert(bottom[9 * t + 5] == part[5]);
        assert(bottom[9 * t + 6] == part[6]);
        assert(bottom[9 * t + 7] == part[7]);
        assert(bottom[9 * t + 8] == part[8]);
        assert(face_wound(top, t, z, true));
        lemma_area_turned(
            Vert { x: top[9 * t], y: top[9 * t + 1] },
            Vert { x: top[9 * t + 3], y: top[9 * t + 4] },
            Vert { x: top[9 * t + 6], y: top[9 * t + 7] },
        );
    }
}

/// A triangle of a list is the same triangle of a longer list, further
/// on by the triangles put before it.
pub proof fn lemma_face_moved(before: Seq<i64>, part: Seq<i64>, after: Seq<i64>, t: int)
    requires
        before.len() % 9 == 0,
        0 <= 9 * t,
        9 * t + 9 <= part.len(),
    ensures
        face_area(before + part + after, before.len() / 9 + t) == face_area(part, t),
        forall|z: i64|
            face_level(before + part + after, before.len() / 9 + t, z) == face_level(part, t, z),
{
    let all = before + part + after;
    let k = before.len() as int / 9;
    assert(before.len() == 9 * k);
    assert(all[9 * (k + t)] == part[9 * t]);
    assert(all[9 * (k + t) + 1] == part[9 * t + 1]);
    assert(all[9 * (k + t) + 2] == part[9 * t + 2]);
    assert(all[9 * (k + t) + 3] == part[9 * t + 3]);
    assert(all[9 * (k + t) + 4] == part[9 * t + 4]);
    assert(all[9 * (k + t) + 5] == part[9 * t + 5]);
    assert(all[9 * (k + t) + 6] == part[9 * t + 6]);
    assert(all[9 * (k + t) + 7] == part[9 * t + 7]);
    assert(all[9 * (k + t) + 8] == part[9 * t + 8]);
}

/// In a solid made of walls, a lid lifted to `height` and the same lid
/// turned over at height zero, the triangles of the upper lid go round
/// to the left seen from above, and those of the lower lid to the right.
pub proof fn lemma_lids_wound(walls: Seq<i64>, flat: Seq<i64>, height: i64)
    requires
        walls.len() % 9 == 0,
        faces_up(flat),
    ensures
        lids_wound(
            walls + spec_to_3d(flat, height) + spec_flip(spec_to_3d(flat, height), 0),
            walls.len() as int / 9,
            flat.len() as int / 6,
            height,
        ),
{
    let top = spec_to_3d(flat, height);
    let bottom = spec_flip(top, 0);
    let mesh = walls + top + bottom;
    let w = walls.len() as int / 9;
    let q = flat.len() as int / 6;
    let none = Seq::<i64>::empty();
    lemma_lifted_faces(flat, height);
    assert(top.len() as int / 9 == q);
    lemma_flipped_faces(top, height, 0);
    assert(walls.len() == 9 * w);
    assert((walls + top).len() as int / 9 == w + q);
    assert forall|t: int| w <= t < w + q implies #[trigger] face_wound(mesh, t, height, true) by {
        lemma_face_moved(walls, top, bottom, t - w);
        assert(face_wound(top, t - w, height, true));
    }
    assert forall|t: int| w + q <= t < w + q + q implies #[trigger] face_wound(
        mesh,
        t,
        0,
        false,
    ) by {
        lemma_face_moved(walls + top, bottom, none, t - w - q);
        assert(walls + top + bottom + none =~= mesh);
        assert(face_wound(bottom, t - w - q, 0, false));
    }
}

/// The list holds whole triangles, nine coordinates each, and none of
/// them is level: no triangle has its three corners at one height.
pub open spec fn upright(walls: Seq<i64>) -> bool {
    &&& walls.len() % 9 == 0
    &&& forall|t: int, z: i64| 0 <= t < walls.len() / 9 ==> !#[trigger] face_level(walls, t, z)
}

/// Two lists of triangles that are not level make one.
pub proof fn lemma_upright_add(a: Seq<i64>, b: Seq<i64>)
    requires
        upright(a),
        upright(b),
    ensures
        upright(a + b),
{
    let all = a + b;
    let none = Seq::<i64>::empty();
    let k = a.len() as int / 9;
    assert(a.len() == 9 * k);
    assert forall|t: int, z: i64| 0 <= t < all.len() / 9 implies !#[trigger] face_level(
        all,
        t,
        z,
    ) by {
        if t < k {
            lemma_face_moved(none, a, b, t);
            assert(none + a + b =~= all);
            assert(!face_level(a, t, z));
        } else {
            lemma_face_moved(a, b, none, t - k);
            assert(a + b + none =~= all);
            assert(!face_level(b, t - k, z));
        }
    }
}

/// Each of the two triangles of a wall that has a height reaches from
/// height zero to the top.
pub proof fn lemma_quad_upright(a: Vert, b: Vert, height: i64, hole: bool)
    requires
        height != 0,
    ensures
        upright(ribbon_quad(a, b, height, hole)),
{
    let quad = ribbon_quad(a, b, height, hole);
    assert(quad.len() == 18);
    assert forall|t: int, z: i64| 0 <= t < quad.len() / 9 implies !#[trigger] face_level(
        quad,
        t,
        z,
    ) by {
        if t == 0 {
            assert(quad[2] == 0);
            assert(quad[5] == height || quad[8] == height);
        } else {
            assert(t == 1);
            assert(quad[11] == height);
            assert(quad[14] == 0 || quad[17] == 0);
        }
    }
}

/// No triangle of the walls along a ring is level, when the solid has a
/// height.
pub proof fn lemma_ribbon_upright(s: Seq<Vert>, height: i64, hole: bool, k: int)
    requires
        height != 0,
    ensures
        upright(ribbon_upto(s, height, hole, k)),
    decreases k,
{
    if k > 0 {
        lemma_ribbon_upright(s, height, hole, k - 1);
        lemma_quad_upright(s[k - 1], s[k], height, hole);
        lemma_upright_add(
            ribbon_upto(s, height, hole, k - 1),
            ribbon_quad(s[k - 1], s[k], height, hole),
        );
    }
}

/// No triangle of the walls along a list of rings is level, when the
/// solid has a height.
pub proof fn lemma_ribbons_upright(rings: Seq<Seq<Vert>>, height: i64, k: int)
    requires
        height != 0,
    ensures
        upright(spec_ribbons(rings, height, k)),
    decreases k,
{
    if k > 0 {
        let ring = rings[k - 1];
        lemma_ribbons_upright(rings, height, k - 1);
        lemma_ribbon_upright(ring, height, crate::edge::spec_is_hole(ring), ring.len() - 1);
        lemma_upright_add(spec_ribbons(rings, height, k - 1), spec_ribbon(ring, height));
    }
}

/// Seen from above, every triangle of `mesh` whose three corners lie at
/// `height` has a strictly positive signed area, and every triangle
/// whose three corners lie at height zero has a strictly negative one.
pub open spec fn level_faces_wound(mesh: Seq<i64>, height: i64) -> bool {
    forall|t: int|
        0 <= t < mesh.len() / 9 ==> (face_level(mesh, t, height) ==> #[trigger] face_area(mesh, t)
            > 0) && (face_level(mesh, t, 0) ==> face_area(mesh, t) < 0)
}

/// In a solid with a height, made of walls, a lid and the lid turned
/// over, the triangles at the top go round to the left seen from above
/// and those at height zero go round to the right.
pub proof fn lemma_level_faces(walls: Seq<i64>, flat: Seq<i64>, height: i64)
    requires
        height != 0,
        upright(walls),
        faces_up(flat),
    ensures
        level_faces_wound(
            walls + spec_to_3d(flat, height) + spec_flip(spec_to_3d(flat, height), 0),
            height,
        ),
{
    let top = spec_to_3d(flat, height);
    let bottom = spec_flip(top, 0);
    let mesh = walls + top + bottom;
    let w = walls.len() as int / 9;
    let q = flat.len() as int / 6;
    let none = Seq::<i64>::empty();
    lemma_lids_wound(walls, flat, height);
    assert(walls.len() == 9 * w);
    assert forall|t: int| 0 <= t < mesh.len() / 9 implies (face_level(mesh, t, height)
        ==> #[trigger] face_area(mesh, t) > 0) && (face_level(mesh, t, 0) ==> face_area(mesh, t)
        < 0) by {
        if t < w {
            lemma_face_moved(none, walls, top + bottom, t);
            assert(none + walls + (top + bottom) =~= mesh);
            assert(!face_level(walls, t, height));
            assert(!face_level(walls, t, 0));
        } else if t < w + q {
            assert(face_wound(mesh, t, height, true));
        } else {
            assert(face_wound(mesh, t, 0, false));
        }
    }
}

} // verus!
