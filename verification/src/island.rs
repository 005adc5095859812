//! The solid on a lone foreground pixel: one ring of four sides, two
//! triangles for each lid and eight for the walls.

use vstd::prelude::*;
use crate::area::{
    closed_area, lemma_closing_corner, lemma_remove_corner, lemma_signed_area, lemma_small_area,
};
use crate::earcut::{
    area2, blocks_ear, corner_area, next_pos, polygon_coords, prev_pos, ring_coords, spec_clip,
    spec_cut, spec_earcut, spec_eliminate, spec_hole_starts, spec_is_ear, spec_points,
    spec_queue, spec_ring_of, spec_signed_area,
};
use crate::edge::has_x_change;
use crate::raster::Rgba;
use crate::tree::{children_of, nest_insert, nest_insert_all, spec_flatten, spec_tree, Nest};
use crate::triangle::{
    lemma_mesh_triangle_count, lemma_tri_coords_len, poly_points, ring_points, segment_count,
    spec_image_to_stl, spec_lid, spec_lids, spec_mesh, tri_coords,
};
use crate::vert::Vert;
use crate::{diamond, lemma_single_pixel_ring, only_foreground, spec_edge_img, spec_threshold, PipelineError};

verus! {

/// A triangle has the same area from whichever corner it is named.
pub proof fn lemma_area_cycle(a: Vert, b: Vert, c: Vert)
    ensures
        area2(b, c, a) == area2(a, b, c),
{
    let ax = a.x as int;
    let ay = a.y as int;
    let bx = b.x as int;
    let by = b.y as int;
    let cx = c.x as int;
    let cy = c.y as int;
    assert((cx - bx) * (ay - by) - (cy - by) * (ax - bx) == (bx - ax) * (cy - ay) - (by - ay) * (cx
        - ax)) by (nonlinear_arith);
}

/// The ring has four places and goes round to the left at each of them.
pub open spec fn convex_quad(pts: Seq<Vert>, ring: Seq<usize>) -> bool {
    &&& ring.len() == 4
    &&& forall|i: int| 0 <= i < 4 ==> #[trigger] corner_area(pts, ring, i) > 0
}

/// Ear cutting makes two triangles of a ring of four places that goes
/// round to the left at each of them: the corner at the first place,
/// then what is left.
pub proof fn lemma_convex_quad_cut(pts: Seq<Vert>, ring: Seq<usize>, out: Seq<usize>)
    requires
        convex_quad(pts, ring),
    ensures
        spec_cut(pts, ring, out) == Some(
            out.push(ring[3]).push(ring[0]).push(ring[1]).push(ring[1]).push(ring[2]).push(ring[3]),
        ),
{
    let three = ring.remove(0);
    let two = three.remove(1);
    let out1 = out.push(ring[3]).push(ring[0]).push(ring[1]);
    let out2 = out1.push(ring[1]).push(ring[2]).push(ring[3]);
    assert(three =~= seq![ring[1], ring[2], ring[3]]);
    assert(two =~= seq![ring[1], ring[3]]);
    assert(spec_is_ear(pts, ring, 0)) by {
        assert(corner_area(pts, ring, 0) > 0);
        assert forall|k: int| !blocks_ear(pts, ring, 0, k) by {
            if 0 <= k < 4 {
                assert(corner_area(pts, ring, k) > 0);
            }
        }
    }
    assert(spec_is_ear(pts, three, 1)) by {
        assert(corner_area(pts, ring, 2) > 0);
        assert(corner_area(pts, three, 1) == corner_area(pts, ring, 2));
        assert forall|k: int| !blocks_ear(pts, three, 1, k) by {}
    }
    assert(prev_pos(0, 4) == 3 && next_pos(0, 4) == 1 && next_pos(0, 3) == 1);
    assert(prev_pos(1, 3) == 0 && next_pos(1, 3) == 2 && next_pos(1, 2) == 0);
    assert(spec_clip(pts, two, 0, 0, out2) == (two, out2));
    assert(spec_clip(pts, three, 1, 0, out1) == spec_clip(pts, two, 0, 0, out2));
    assert(spec_clip(pts, ring, 0, 0, out) == spec_clip(pts, three, 1, 0, out1));
}

/// A lone ring makes a forest of one tree without branches, and is the
/// one polygon of it.
pub proof fn lemma_lone_ring(ring: Seq<Vert>)
    ensures
        spec_tree(seq![ring]) == seq![Nest { ring, inner: Seq::empty() }],
        spec_flatten(spec_tree(seq![ring])) == seq![Nest { ring, inner: Seq::empty() }],
{
    let rings = seq![ring];
    let none = Seq::<Nest>::empty();
    let lone = Nest { ring, inner: none };
    assert(rings.drop_last() =~= Seq::<Seq<Vert>>::empty());
    assert(spec_tree(rings.drop_last()) =~= none);
    assert(rings.last() == ring);
    assert(crate::tree::nests_size(none) == 0);
    assert(crate::tree::nest_size(lone) >= 1);
    assert(crate::tree::inside_of(none, ring) =~= none);
    assert(crate::tree::outside_of(none, ring) =~= none);
    let depth = (crate::tree::nests_size(none) + crate::tree::nest_size(lone)) as nat;
    assert(nest_insert_all((depth - 1) as nat, none, none) == none);
    assert(nest_insert(depth, none, lone) =~= seq![lone]);
    assert(spec_tree(rings) == seq![lone]);
    let forest = seq![lone];
    assert(forest.drop_last() =~= none);
    assert(children_of(forest.drop_last()) =~= none);
    assert(children_of(forest) =~= none);
    assert(children_of(children_of(forest)) =~= none);
    assert(spec_flatten(none) =~= none);
    assert(spec_flatten(forest) =~= forest);
}

/// Where the coordinates of the `j`-th point of a ring stand.
pub proof fn lemma_ring_coords_at(ring: Seq<Vert>, k: int, j: int)
    requires
        0 <= j < k <= ring.len(),
    ensures
        ring_coords(ring_points(ring), k).len() == 2 * k,
        ring_coords(ring_points(ring), k)[2 * j] == ring[j].x,
        ring_coords(ring_points(ring), k)[2 * j + 1] == ring[j].y,
    decreases k,
{
    let deep = ring_points(ring);
    assert(deep[k - 1] == seq![ring[k - 1].x, ring[k - 1].y]);
    if k == 1 {
        assert(ring_coords(deep, 0).len() == 0);
    } else if j < k - 1 {
        lemma_ring_coords_at(ring, k - 1, j);
    } else {
        lemma_ring_coords_at(ring, k - 1, j - 1);
    }
}

/// A polygon without holes is laid out flat as the points of its ring.
pub proof fn lemma_lone_ring_points(n: Nest)
    requires
        n.inner.len() == 0,
        n.ring.len() > 0,
    ensures
        spec_points(polygon_coords(poly_points(n), 1)) == n.ring,
        spec_hole_starts(poly_points(n)) == Seq::<usize>::empty(),
        poly_points(n).len() == 1,
{
    let deep = poly_points(n);
    let count = n.ring.len() as int;
    assert(deep[0] == ring_points(n.ring));
    assert(polygon_coords(deep, 0) =~= Seq::<i64>::empty());
    let data = polygon_coords(deep, 1);
    assert(data =~= ring_coords(ring_points(n.ring), count));
    lemma_ring_coords_at(n.ring, count, 0);
    assert(spec_points(data).len() == count);
    assert forall|j: int| 0 <= j < count implies spec_points(data)[j] == n.ring[j] by {
        lemma_ring_coords_at(n.ring, count, j);
    }
    assert(spec_points(data) =~= n.ring);
    assert(spec_hole_starts(deep) =~= Seq::<usize>::empty());
}

/// The lid of a polygon without holes whose ring has four sides and
/// turns left at each of its corners is made of two triangles.
pub proof fn lemma_quad_lid(n: Nest)
    requires
        n.inner.len() == 0,
        n.ring.len() == 5,
        n.ring[4] == n.ring[0],
        area2(n.ring[0], n.ring[1], n.ring[2]) > 0,
        area2(n.ring[1], n.ring[2], n.ring[3]) > 0,
        area2(n.ring[2], n.ring[3], n.ring[0]) > 0,
        area2(n.ring[3], n.ring[0], n.ring[1]) > 0,
    ensures
        spec_lid(n) matches Some(lid) && lid.len() == 12,
{
    reveal(spec_lid);
    let deep = poly_points(n);
    let data = polygon_coords(deep, deep.len() as int);
    let holes = spec_hole_starts(deep);
    lemma_lone_ring_points(n);
    let pts = spec_points(data);
    assert(pts == n.ring);
    // the ring is given going round to the left
    lemma_signed_area(pts, 0, 5);
    assert(pts.subrange(0, 5) =~= pts);
    lemma_closing_corner(pts);
    let four = pts.drop_last();
    lemma_remove_corner(four, 1);
    let three = four.remove(1);
    lemma_remove_corner(three, 1);
    lemma_small_area(three.remove(1));
    lemma_area_cycle(pts[0], pts[2], pts[3]);
    assert(three[0] == pts[0] && three[1] == pts[2] && three[2] == pts[3]);
    assert(spec_signed_area(pts, 0, 5) > 0);
    let forward = Seq::new(5, |k: int| (0 + k) as usize);
    let outer = spec_ring_of(pts, 0, 5, true);
    assert(forward.last() == 4 && forward[0] == 0);
    assert(outer =~= seq![0usize, 1usize, 2usize, 3usize]);
    assert(spec_queue(pts, holes, 0) =~= Seq::<Seq<usize>>::empty());
    assert(spec_eliminate(pts, outer, Seq::<Seq<usize>>::empty(), 0) == Some(outer));
    assert(convex_quad(pts, outer)) by {
        assert forall|i: int| 0 <= i < 4 implies #[trigger] corner_area(pts, outer, i) > 0 by {
            if i == 0 {
                assert(corner_area(pts, outer, 0) == area2(pts[3], pts[0], pts[1]));
            } else if i == 1 {
                assert(corner_area(pts, outer, 1) == area2(pts[0], pts[1], pts[2]));
            } else if i == 2 {
                assert(corner_area(pts, outer, 2) == area2(pts[1], pts[2], pts[3]));
            } else {
                assert(corner_area(pts, outer, 3) == area2(pts[2], pts[3], pts[0]));
            }
        }
    }
    lemma_convex_quad_cut(pts, outer, Seq::<usize>::empty());
    let t = spec_earcut(data, holes)->0;
    assert(spec_earcut(data, holes) is Some);
    assert(t.len() == 6);
    lemma_tri_coords_len(data, t, 6);
}

/// A corner whose sides are given has the area that the sides span.
proof fn lemma_corner_spans(a: Vert, b: Vert, c: Vert, ux: int, uy: int, vx: int, vy: int)
    requires
        b.x - a.x == ux,
        b.y - a.y == uy,
        c.x - a.x == vx,
        c.y - a.y == vy,
    ensures
        area2(a, b, c) == ux * vy - uy * vx,
{
}

/// The diamond round a pixel turns left at each of its four corners.
pub proof fn lemma_diamond_turns_left(img_height: u32, px: u32, py: u32)
    requires
        1 <= px,
        1 <= py,
        py + 1 < img_height,
    ensures
        ({
            let ring = diamond(img_height, px, py);
            &&& ring.len() == 5
            &&& ring[4] == ring[0]
            &&& area2(ring[0], ring[1], ring[2]) > 0
            &&& area2(ring[1], ring[2], ring[3]) > 0
            &&& area2(ring[2], ring[3], ring[0]) > 0
            &&& area2(ring[3], ring[0], ring[1]) > 0
        }),
{
    let ring = diamond(img_height, px, py);
    lemma_corner_spans(ring[0], ring[1], ring[2], -1, 1, -2, 0);
    lemma_corner_spans(ring[1], ring[2], ring[3], -1, -1, 0, -2);
    lemma_corner_spans(ring[2], ring[3], ring[0], 1, -1, 2, 0);
    lemma_corner_spans(ring[3], ring[0], ring[1], 1, 1, 0, 2);
}

/// An image whose only foreground pixel is an inner one gives a solid of
/// twelve triangles: two for each lid, and two for each of the four
/// sides of the ring round the pixel.
pub proof fn lemma_lone_pixel_solid(
    pixels: Seq<Rgba>,
    width: u32,
    img_height: u32,
    threshold: u8,
    height: i64,
    px: u32,
    py: u32,
)
    requires
        1 <= px,
        px + 1 < width,
        1 <= py,
        py + 1 < img_height,
        only_foreground(spec_threshold(pixels, threshold), width, img_height, px, py),
    ensures
        spec_image_to_stl(pixels, width, img_height, threshold, height) matches Ok(mesh)
            && mesh.len() == 9 * 12,
{
    let binary = spec_threshold(pixels, threshold);
    lemma_single_pixel_ring(binary, width, img_height, px, py);
    let ring = diamond(img_height, px, py);
    let rings = seq![ring];
    assert(spec_edge_img(binary, width, img_height).1 == rings);
    let lone = Nest { ring, inner: Seq::empty() };
    lemma_lone_ring(ring);
    let polys = spec_flatten(spec_tree(rings));
    assert(polys == seq![lone]);
    assert(has_x_change(ring)) by {
        assert(ring[1].x != ring[0].x);
    }
    lemma_diamond_turns_left(img_height, px, py);
    lemma_quad_lid(lone);
    let lid = spec_lid(lone)->0;
    assert(spec_lids(polys, 0) == Some(Seq::<i64>::empty()));
    assert(spec_lids(polys, 1) == Some(Seq::<i64>::empty() + lid));
    assert(Seq::<i64>::empty() + lid =~= lid);
    assert(spec_mesh(rings, height) is Ok);
    lemma_mesh_triangle_count(rings, height);
    assert(segment_count(rings, 0) == 0);
    assert(segment_count(rings, 1) == 4);
}

} // verus!
