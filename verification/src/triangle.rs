//! The pipeline: from an image to the triangles of the extruded solid.

use vstd::prelude::*;
use crate::earcut::{
    coords_in_range, earcut, flatten, point_count, polygon_coords, ring_coords, spec_earcut,
    spec_hole_starts, spec_points, triangles_valid, uniform,
};
use crate::edge::{each_wf, first_x_change, has_x_change, ring_views, seq_closed, Edge};
use crate::edge_collection::all_closed;
use crate::raster::{Rgba, RgbaImage};
use crate::ribbon::{edge_to_ribbon, lemma_ribbon_len, spec_ribbon};
use crate::tree::{
    forest_wf, lemma_nests, lemma_node_view, nests, ring_ok, sort_edges, spec_flatten,
    spec_tree, Nest, Node,
};
use crate::vert::{Vert, COORD_MAX};
use crate::winding::{
    faces_up, lemma_faces_up_add, lemma_level_faces, lemma_lids_wound, lemma_named_faces_up,
    lemma_ribbons_upright, level_faces_wound, lids_wound,
};
use crate::{edge_img, spec_edge_img, spec_threshold, threshold_img, PipelineError};

verus! {

/// The first `k` flat points of `tris`, each lifted to the height `z`.
pub open spec fn lifted_upto(tris: Seq<i64>, z: i64, k: int) -> Seq<i64>
    decreases k,
{
    if k <= 0 {
        Seq::empty()
    } else {
        lifted_upto(tris, z, k - 1).push(tris[2 * (k - 1)]).push(tris[2 * (k - 1) + 1]).push(z)
    }
}

/// Flat points, two coordinates each, lifted to the height `z`.
pub open spec fn spec_to_3d(tris: Seq<i64>, z: i64) -> Seq<i64> {
    lifted_upto(tris, z, tris.len() as int / 2)
}

/// `k` lifted points take three coordinates each.
pub proof fn lemma_lifted_len(tris: Seq<i64>, z: i64, k: int)
    requires
        k >= 0,
    ensures
        lifted_upto(tris, z, k).len() == 3 * k,
    decreases k,
{
    if k > 0 {
        lemma_lifted_len(tris, z, k - 1);
    }
}

/// Gives each point of a flat list, two coordinates each, the height `z`
/// as a third.
pub fn to_3d(tris: &Vec<i64>, z: i64) -> (out: Vec<i64>)
    requires
        tris@.len() % 2 == 0,
    ensures
        out@ == spec_to_3d(tris@, z),
        out@.len() == 3 * (tris@.len() / 2),
{
    let n_verts: usize = tris.len() / 2;
    let mut out: Vec<i64> = Vec::new();
    let mut c_i: usize = 0;
    while c_i < n_verts
        invariant
            c_i <= n_verts,
            n_verts == tris@.len() / 2,
            tris@.len() % 2 == 0,
            tris@.len() <= usize::MAX,
            out@ == lifted_upto(tris@, z, c_i as int),
        decreases n_verts - c_i,
    {
        let i: usize = c_i * 2;
        out.push(tris[i]);
        out.push(tris[i + 1]);
        out.push(z);
        c_i = c_i + 1;
    }
    proof {
        lemma_lifted_len(tris@, z, n_verts as int);
    }
    out
}

/// The first `k` triangles of `tris`, each turned over and put at the
/// height `new_z`: its second and third corner change places.
pub open spec fn flipped_upto(tris: Seq<i64>, new_z: i64, k: int) -> Seq<i64>
    decreases k,
{
    if k <= 0 {
        Seq::empty()
    } else {
        let i = 9 * (k - 1);
        flipped_upto(tris, new_z, k - 1) + seq![
            tris[i],
            tris[i + 1],
            new_z,
            tris[i + 6],
            tris[i + 7],
            new_z,
            tris[i + 3],
            tris[i + 4],
            new_z,
        ]
    }
}

/// Triangles turned over and put at the height `new_z`.
pub open spec fn spec_flip(tris: Seq<i64>, new_z: i64) -> Seq<i64> {
    flipped_upto(tris, new_z, tris.len() as int / 9)
}

/// `k` turned triangles take nine coordinates each.
pub proof fn lemma_flipped_len(tris: Seq<i64>, new_z: i64, k: int)
    requires
        k >= 0,
    ensures
        flipped_upto(tris, new_z, k).len() == 9 * k,
    decreases k,
{
    if k > 0 {
        lemma_flipped_len(tris, new_z, k - 1);
    }
}

/// Copies triangles, nine coordinates each, turned over and moved to the
/// height `new_z`.
pub fn flip_triangles(tris: &[i64], new_z: i64) -> (out: Vec<i64>)
    requires
        tris@.len() % 9 == 0,
    ensures
        out@ == spec_flip(tris@, new_z),
        out@.len() == tris@.len(),
{
    let n_tris: usize = tris.len() / 9;
    let mut out: Vec<i64> = Vec::new();
    let mut tri_i: usize = 0;
    while tri_i < n_tris
        invariant
            tri_i <= n_tris,
            n_tris == tris@.len() / 9,
            tris@.len() % 9 == 0,
            tris@.len() <= usize::MAX,
            out@ == flipped_upto(tris@, new_z, tri_i as int),
        decreases n_tris - tri_i,
    {
        let i: usize = tri_i * 9;
        let ghost before = out@;
        out.push(tris[i]);
        out.push(tris[i + 1]);
        out.push(new_z);
        out.push(tris[i + 6]);
        out.push(tris[i + 7]);
        out.push(new_z);
        out.push(tris[i + 3]);
        out.push(tris[i + 4]);
        out.push(new_z);
        assert(out@ =~= flipped_upto(tris@, new_z, tri_i + 1));
        tri_i = tri_i + 1;
    }
    proof {
        lemma_flipped_len(tris@, new_z, n_tris as int);
    }
    out
}

/// The points of a ring, two coordinates each.
pub open spec fn ring_points(ring: Seq<Vert>) -> Seq<Seq<i64>> {
    Seq::new(ring.len(), |j: int| seq![ring[j].x, ring[j].y])
}

/// The rings of a polygon, point by point: the outer ring first, then
/// the holes directly inside it.
pub open spec fn poly_points(n: Nest) -> Seq<Seq<Seq<i64>>> {
    Seq::new(
        1 + n.inner.len(),
        |i: int|
            ring_points(
                if i == 0 {
                    n.ring
                } else {
                    n.inner[i - 1].ring
                },
            ),
    )
}

/// The coordinates of the points that the first `k` entries of `t` name.
pub open spec fn tri_coords(data: Seq<i64>, t: Seq<usize>, k: int) -> Seq<i64>
    decreases k,
{
    if k <= 0 {
        Seq::empty()
    } else {
        tri_coords(data, t, k - 1).push(data[2 * t[k - 1]]).push(data[2 * t[k - 1] + 1])
    }
}

/// `k` named points take two coordinates each.
pub proof fn lemma_tri_coords_len(data: Seq<i64>, t: Seq<usize>, k: int)
    requires
        k >= 0,
    ensures
        tri_coords(data, t, k).len() == 2 * k,
    decreases k,
{
    if k > 0 {
        lemma_tri_coords_len(data, t, k - 1);
    }
}

/// The triangles that cover a polygon, as flat coordinates, six for each
/// triangle; none when ear cutting fails.
#[verifier::opaque]
pub open spec fn spec_lid(n: Nest) -> Option<Seq<i64>> {
    let deep = poly_points(n);
    let data = polygon_coords(deep, deep.len() as int);
    match spec_earcut(data, spec_hole_starts(deep)) {
        Some(t) => Some(tri_coords(data, t, t.len() as int)),
        None => None,
    }
}

/// The triangles that cover the first `k` polygons, one polygon after the
/// other; none when ear cutting fails for one of them.
pub open spec fn spec_lids(polys: Seq<Nest>, k: int) -> Option<Seq<i64>>
    decreases k,
{
    if k <= 0 {
        Some(Seq::empty())
    } else {
        match spec_lids(polys, k - 1) {
            None => None,
            Some(before) => match spec_lid(polys[k - 1]) {
                None => None,
                Some(lid) => Some(before + lid),
            },
        }
    }
}

/// The walls along the first `k` rings, one ring after the other.
pub open spec fn spec_ribbons(rings: Seq<Seq<Vert>>, height: i64, k: int) -> Seq<i64>
    decreases k,
{
    if k <= 0 {
        Seq::empty()
    } else {
        spec_ribbons(rings, height, k - 1) + spec_ribbon(rings[k - 1], height)
    }
}

/// The number of segments of the first `k` rings.
pub open spec fn segment_count(rings: Seq<Seq<Vert>>, k: int) -> int
    decreases k,
{
    if k <= 0 {
        0
    } else {
        segment_count(rings, k - 1) + rings[k - 1].len() - 1
    }
}

/// No ring has all its vertices on one upright line.
pub open spec fn all_x_change(rings: Seq<Seq<Vert>>) -> bool {
    forall|i: int| 0 <= i < rings.len() ==> has_x_change(#[trigger] rings[i])
}

/// The solid on a set of closed rings, as triangles of nine coordinates
/// each: the walls along every ring, then the lid at `height`, then the
/// lid turned over at height zero.
///
/// It fails when a ring has all its vertices on one upright line, or
/// when one of the polygons that the rings make cannot be cut into
/// triangles.
pub open spec fn spec_mesh(rings: Seq<Seq<Vert>>, height: i64) -> Result<Seq<i64>, PipelineError> {
    if !all_x_change(rings) {
        Err(PipelineError::TriangulationFailed)
    } else {
        let polys = spec_flatten(spec_tree(rings));
        match spec_lids(polys, polys.len() as int) {
            None => Err(PipelineError::TriangulationFailed),
            Some(flat) => {
                let top = spec_to_3d(flat, height);
                Ok(spec_ribbons(rings, height, rings.len() as int) + top + spec_flip(top, 0))
            },
        }
    }
}

/// In a solid on `rings`, the triangles after the walls are the lid at
/// `height`, each going round to the left seen from above, and then the
/// same number of triangles at height zero, each going round to the
/// right.
pub open spec fn solid_wound(mesh: Seq<i64>, rings: Seq<Seq<Vert>>, height: i64) -> bool {
    let walls = 2 * segment_count(rings, rings.len() as int);
    lids_wound(mesh, walls, (mesh.len() / 9 - walls) / 2, height)
}

/// The solid on the dark parts of an image.
///
/// The image is binarized at `threshold`, the outline of its foreground
/// is traced and joined into rings, and the closed rings are extruded to
/// `height`. An image with fewer than two pixels along a side is
/// refused.
pub open spec fn spec_image_to_stl(
    pixels: Seq<Rgba>,
    width: u32,
    img_height: u32,
    threshold: u8,
    height: i64,
) -> Result<Seq<i64>, PipelineError> {
    if width < 2 || img_height < 2 {
        Err(PipelineError::DimensionError)
    } else {
        spec_mesh(spec_edge_img(spec_threshold(pixels, threshold), width, img_height).1, height)
    }
}

/// The coordinates of a ring of points in range are in range.
proof fn lemma_ring_coords_in_range(ring: Seq<Vert>, k: int)
    requires
        0 <= k <= ring.len(),
        forall|j: int| 0 <= j < ring.len() ==> (#[trigger] ring[j]).in_range(),
    ensures
        ring_coords(ring_points(ring), k).len() == 2 * k,
        coords_in_range(ring_coords(ring_points(ring), k)),
    decreases k,
{
    if k > 0 {
        lemma_ring_coords_in_range(ring, k - 1);
        let before = ring_coords(ring_points(ring), k - 1);
        let all = ring_coords(ring_points(ring), k);
        assert(ring_points(ring)[k - 1] == seq![ring[k - 1].x, ring[k - 1].y]);
        assert(ring[k - 1].in_range());
        assert forall|i: int| 0 <= i < all.len() implies -COORD_MAX <= #[trigger] all[i]
            <= COORD_MAX by {
            if i < before.len() {
                assert(all[i] == before[i]);
            }
        }
    }
}

/// Every ring of the nest, and of the nests directly inside it, has all
/// its vertices in range and at least one vertex.
pub open spec fn nest_in_range(n: Nest) -> bool {
    &&& n.ring.len() > 0
    &&& forall|j: int| 0 <= j < n.ring.len() ==> (#[trigger] n.ring[j]).in_range()
    &&& forall|i: int, j: int|
        0 <= i < n.inner.len() && 0 <= j < n.inner[i].ring.len() ==> (
        #[trigger] n.inner[i].ring[j]).in_range()
}

/// What is laid out flat for a polygon in range is fit for ear cutting.
pub proof fn lemma_poly_input_valid(n: Nest, k: int)
    requires
        nest_in_range(n),
        0 <= k <= poly_points(n).len(),
    ensures
        uniform(poly_points(n), 2),
        polygon_coords(poly_points(n), k).len() == 2 * point_count(poly_points(n), k),
        coords_in_range(polygon_coords(poly_points(n), k)),
        point_count(poly_points(n), k) >= 0,
    decreases k,
{
    let deep = poly_points(n);
    assert forall|i: int, j: int| 0 <= i < deep.len() && 0 <= j < deep[i].len() implies (
    #[trigger] deep[i][j]).len() == 2 by {}
    if k > 0 {
        lemma_poly_input_valid(n, k - 1);
        let ring = if k - 1 == 0 {
            n.ring
        } else {
            n.inner[k - 2].ring
        };
        assert(deep[k - 1] == ring_points(ring));
        assert forall|j: int| 0 <= j < ring.len() implies (#[trigger] ring[j]).in_range() by {
            if k - 1 > 0 {
                assert(n.inner[k - 2].ring[j].in_range());
            }
        }
        lemma_ring_coords_in_range(ring, ring.len() as int);
        let before = polygon_coords(deep, k - 1);
        let all = polygon_coords(deep, k);
        assert forall|i: int| 0 <= i < all.len() implies -COORD_MAX <= #[trigger] all[i]
            <= COORD_MAX by {
            if i < before.len() {
                assert(all[i] == before[i]);
            } else {
                assert(all[i] == ring_coords(ring_points(ring), ring.len() as int)[i
                    - before.len()]);
            }
        }
    }
}

/// The number of points counted grows with the number of rings.
pub proof fn lemma_point_count_grows(data: Seq<Seq<Seq<i64>>>, k: int, m: int)
    requires
        0 <= k <= m,
    ensures
        0 <= point_count(data, k) <= point_count(data, m),
    decreases m,
{
    if k < m {
        lemma_point_count_grows(data, k, m - 1);
    } else if k > 0 {
        lemma_point_count_grows(data, k - 1, k - 1);
    }
}

/// The points of a polygon, ring by ring: the node's own ring, then the
/// rings of its children.
fn polygon_points(node: &Node) -> (out: Vec<Vec<Vec<i64>>>)
    ensures
        out.deep_view() == poly_points(node@),
{
    let mut out: Vec<Vec<Vec<i64>>> = Vec::new();
    out.push(points_of_ring(&node.data));
    let n: usize = node.children.len();
    let mut i: usize = 0;
    proof {
        lemma_node_view(*node);
        assert(out.deep_view() =~= poly_points(node@).take(1));
    }
    while i < n
        invariant
            i <= n,
            n == node.children@.len(),
            node@.ring == node.data@,
            node@.inner.len() == node.children@.len(),
            forall|k: int|
                0 <= k < node.children@.len() ==> #[trigger] node@.inner[k] == node.children@[k]@,
            out.deep_view() == poly_points(node@).take(i + 1),
        decreases n - i,
    {
        let child = &node.children[i];
        let ring = points_of_ring(&child.data);
        let ghost before = out.deep_view();
        out.push(ring);
        proof {
            lemma_node_view(*child);
            assert(node@.inner[i as int] == node.children@[i as int]@);
            assert(out.deep_view() =~= before.push(ring.deep_view()));
            assert(out.deep_view() =~= poly_points(node@).take(i + 2));
        }
        i = i + 1;
    }
    assert(poly_points(node@).take(n + 1) =~= poly_points(node@));
    out
}

/// The points of a ring, two coordinates each.
fn points_of_ring(edge: &Edge) -> (out: Vec<Vec<i64>>)
    ensures
        out.deep_view() == ring_points(edge@),
{
    let n: usize = edge.verts.len();
    let mut out: Vec<Vec<i64>> = Vec::new();
    let mut j: usize = 0;
    assert(out.deep_view() =~= ring_points(edge@).take(0));
    while j < n
        invariant
            j <= n,
            n == edge@.len(),
            out.deep_view() == ring_points(edge@).take(j as int),
        decreases n - j,
    {
        let v: Vert = edge.verts[j];
        let mut point: Vec<i64> = Vec::new();
        point.push(v.x);
        point.push(v.y);
        let ghost before = out.deep_view();
        out.push(point);
        proof {
            assert(point.deep_view() =~= seq![v.x, v.y]);
            assert(out.deep_view() =~= before.push(point.deep_view()));
            assert(out.deep_view() =~= ring_points(edge@).take(j + 1));
        }
        j = j + 1;
    }
    assert(ring_points(edge@).take(n as int) =~= ring_points(edge@));
    out
}

/// A well-formed node is a polygon in range.
proof fn lemma_node_in_range(node: Node)
    requires
        node.wf(),
    ensures
        nest_in_range(node@),
{
    let n = node@;
    lemma_node_view(node);
    assert(ring_ok(node.data));
    assert forall|i: int, j: int|
        0 <= i < n.inner.len() && 0 <= j < n.inner[i].ring.len() implies (
    #[trigger] n.inner[i].ring[j]).in_range() by {
        assert(node.children@[i].wf());
        assert(n.inner[i] == node.children@[i]@);
        lemma_node_view(node.children@[i]);
        assert(ring_ok(node.children@[i].data));
    }
}

/// Cuts the polygon of a node into triangles, given as flat coordinates.
#[verifier::rlimit(40)]
fn lid_of(node: &Node) -> (r: Option<Vec<i64>>)
    requires
        node.wf(),
    ensures
        match r {
            Some(lid) => spec_lid(node@) == Some(lid@) && faces_up(lid@),
            None => spec_lid(node@) is None,
        },
{
    let polygon = polygon_points(node);
    proof {
        reveal(spec_lid);
        lemma_node_in_range(*node);
        let deep = poly_points(node@);
        lemma_poly_input_valid(node@, deep.len() as int);
        assert(polygon@[0]@.len() == node.data@.len());
        assert(polygon.deep_view()[0] == polygon@[0].deep_view());
        assert(polygon@[0].deep_view()[0] == polygon@[0]@[0].deep_view());
        assert(polygon@[0]@[0]@.len() == 2);
    }
    let (verts, holes, dims) = flatten(&polygon);
    proof {
        let deep = poly_points(node@);
        let total = point_count(deep, deep.len() as int);
        assert(verts@.len() == 2 * total);
        assert forall|i: int| 0 <= i < holes@.len() implies (#[trigger] holes@[i]) <= total by {
            lemma_point_count_grows(deep, i + 1, deep.len() as int);
        }
        assert forall|i: int, j: int| 0 <= i <= j < holes@.len() implies holes@[i]
            <= holes@[j] by {
            lemma_point_count_grows(deep, i + 1, j + 1);
            lemma_point_count_grows(deep, j + 1, deep.len() as int);
        }
    }
    let indexes = match earcut(&verts, &holes, 2) {
        Ok(t) => t,
        Err(_) => {
            return None;
        },
    };
    let mut out: Vec<i64> = Vec::new();
    let n: usize = indexes.len();
    let coords: usize = verts.len();
    let mut k: usize = 0;
    while k < n
        invariant
            k <= n,
            n == indexes@.len(),
            coords == verts@.len(),
            verts@.len() % 2 == 0,
            triangles_valid(spec_points(verts@), indexes@),
            out@ == tri_coords(verts@, indexes@, k as int),
        decreases n - k,
    {
        let i: usize = indexes[k];
        assert(i < spec_points(verts@).len());
        let start: usize = i * 2;
        out.push(verts[start]);
        out.push(verts[start + 1]);
        k = k + 1;
    }
    proof {
        lemma_named_faces_up(verts@, indexes@);
    }
    Some(out)
}

/// Cuts the polygons of a list of nodes into triangles, given as flat
/// coordinates, one polygon after the other.
fn lids_of(nodes: &Vec<Node>) -> (r: Option<Vec<i64>>)
    requires
        forest_wf(nodes@),
    ensures
        match r {
            Some(t) => spec_lids(nests(nodes@), nodes@.len() as int) == Some(t@) && faces_up(t@),
            None => spec_lids(nests(nodes@), nodes@.len() as int) is None,
        },
{
    let ghost polys = nests(nodes@);
    let mut triangles: Vec<i64> = Vec::new();
    let n: usize = nodes.len();
    let mut k: usize = 0;
    while k < n
        invariant
            k <= n,
            n == nodes@.len(),
            polys == nests(nodes@),
            forest_wf(nodes@),
            spec_lids(polys, k as int) == Some(triangles@),
            faces_up(triangles@),
        decreases n - k,
    {
        proof {
            lemma_nests(nodes@);
        }
        let node = &nodes[k];
        assert(polys[k as int] == node@);
        match lid_of(node) {
            None => {
                proof {
                    lemma_lids_fail(polys, k + 1, n as int);
                }
                return None;
            },
            Some(lid) => {
                proof {
                    lemma_faces_up_add(triangles@, lid@);
                }
                let mut lid = lid;
                triangles.append(&mut lid);
            },
        }
        k = k + 1;
    }
    Some(triangles)
}

/// The walls along a list of closed rings, one ring after the other; none
/// when a ring has all its vertices on one upright line.
fn ribbons_of(closed_edges: &Vec<Edge>, height: i64) -> (r: Option<Vec<i64>>)
    requires
        each_wf(closed_edges@),
        forall|k: int|
            0 <= k < closed_edges@.len() ==> seq_closed(#[trigger] ring_views(closed_edges@)[k]),
    ensures
        match r {
            Some(walls) => all_x_change(ring_views(closed_edges@)) && walls@ == spec_ribbons(
                ring_views(closed_edges@),
                height,
                closed_edges@.len() as int,
            ),
            None => !all_x_change(ring_views(closed_edges@)),
        },
{
    let ghost rings = ring_views(closed_edges@);
    let count: usize = closed_edges.len();
    let mut walls: Vec<i64> = Vec::new();
    let mut i: usize = 0;
    while i < count
        invariant
            i <= count,
            count == closed_edges@.len(),
            rings == ring_views(closed_edges@),
            each_wf(closed_edges@),
            forall|k: int| 0 <= k < rings.len() ==> seq_closed(#[trigger] rings[k]),
            forall|k: int| 0 <= k < i ==> has_x_change(#[trigger] rings[k]),
            walls@ == spec_ribbons(rings, height, i as int),
        decreases count - i,
    {
        let edge = &closed_edges[i];
        assert(rings[i as int] == edge@);
        if first_x_change(edge).is_none() {
            return None;
        }
        let mut ribbon = edge_to_ribbon(edge, height);
        walls.append(&mut ribbon);
        i = i + 1;
    }
    Some(walls)
}

/// Builds the solid on a set of closed rings: the walls along every ring,
/// then the lid at `height`, then the lid turned over at height zero.
#[verifier::rlimit(40)]
pub fn extrude(closed_edges: Vec<Edge>, height: i64) -> (r: Result<Vec<i64>, PipelineError>)
    requires
        each_wf(closed_edges@),
        all_closed(ring_views(closed_edges@)),
    ensures
        match r {
            Ok(out) => spec_mesh(ring_views(closed_edges@), height) == Ok::<
                Seq<i64>,
                PipelineError,
            >(out@) && solid_wound(out@, ring_views(closed_edges@), height) && (height != 0
                ==> level_faces_wound(out@, height)),
            Err(e) => spec_mesh(ring_views(closed_edges@), height) == Err::<
                Seq<i64>,
                PipelineError,
            >(e),
        },
{
    let ghost rings = ring_views(closed_edges@);
    proof {
        reveal(all_closed);
    }
    let mut all_tris = match ribbons_of(&closed_edges, height) {
        Some(walls) => walls,
        None => {
            return Err(PipelineError::TriangulationFailed);
        },
    };
    proof {
        assert forall|k: int| 0 <= k < closed_edges@.len() implies ring_ok(
            #[trigger] closed_edges@[k],
        ) by {
            assert(rings[k] == closed_edges@[k]@);
        }
    }
    let nodes = sort_edges(closed_edges);
    let triangles = match lids_of(&nodes) {
        Some(t) => t,
        None => {
            return Err(PipelineError::TriangulationFailed);
        },
    };
    let tri_3d = to_3d(&triangles, height);
    let bottom_triangles = flip_triangles(tri_3d.as_slice(), 0);
    proof {
        let count = rings.len() as int;
        assert forall|i: int| 0 <= i < rings.len() implies (#[trigger] rings[i]).len() >= 1 by {
            assert(seq_closed(rings[i]));
        }
        lemma_ribbons_len(rings, height, count);
        lemma_lids_wound(all_tris@, triangles@, height);
        if height != 0 {
            lemma_ribbons_upright(rings, height, count);
            lemma_level_faces(all_tris@, triangles@, height);
        }
        let walls = 2 * segment_count(rings, count);
        let lid = triangles@.len() as int / 6;
        assert(all_tris@.len() as int / 9 == walls);
        let mesh = all_tris@ + tri_3d@ + bottom_triangles@;
        assert(mesh.len() == 9 * (walls + lid + lid));
        assert((mesh.len() as int / 9 - walls) / 2 == lid);
    }
    let mut top = tri_3d;
    let mut bottom = bottom_triangles;
    all_tris.append(&mut top);
    all_tris.append(&mut bottom);
    Ok(all_tris)
}

/// Once ear cutting has failed for a polygon, it has failed for the list.
proof fn lemma_lids_fail(polys: Seq<Nest>, k: int, m: int)
    requires
        0 <= k <= m,
        spec_lids(polys, k) is None,
    ensures
        spec_lids(polys, m) is None,
    decreases m,
{
    if k < m {
        lemma_lids_fail(polys, k, m - 1);
    }
}

/// A lid is made of whole triangles: six coordinates each.
pub proof fn lemma_lid_len(n: Nest)
    ensures
        spec_lid(n) matches Some(lid) ==> lid.len() % 6 == 0,
{
    reveal(spec_lid);
    let deep = poly_points(n);
    let data = polygon_coords(deep, deep.len() as int);
    match spec_earcut(data, spec_hole_starts(deep)) {
        Some(t) => {
            crate::earcut::lemma_earcut_triples(data, spec_hole_starts(deep));
            lemma_tri_coords_len(data, t, t.len() as int);
        },
        None => {},
    }
}

/// Turns the dark parts of an image into a solid.
///
/// The image is binarized at `threshold`; the outline of what is at most
/// that bright is traced, and the rings it makes are extruded from height
/// zero to `height`. The result lists triangles, nine coordinates each,
/// in lattice units: the walls along every ring, the lid at `height`, and
/// the lid at height zero turned over.
pub fn image_to_stl(img: RgbaImage, threshold: u8, height: i64) -> (r: Result<
    Vec<i64>,
    PipelineError,
>)
    requires
        img.wf(),
    ensures
        match r {
            Ok(out) => spec_image_to_stl(
                img.pixels@,
                img.width,
                img.height,
                threshold,
                height,
            ) == Ok::<Seq<i64>, PipelineError>(out@) && solid_wound(
                out@,
                spec_edge_img(spec_threshold(img.pixels@, threshold), img.width, img.height).1,
                height,
            ) && (height != 0 ==> level_faces_wound(out@, height)),
            Err(e) => spec_image_to_stl(img.pixels@, img.width, img.height, threshold, height)
                == Err::<Seq<i64>, PipelineError>(e),
        },
{
    let mut img = img;
    threshold_img(&mut img, threshold);
    let edges = match edge_img(&img) {
        Ok(e) => e,
        Err(e) => {
            return Err(e);
        },
    };
    extrude(edges.closed_edges, height)
}

/// The lids of a list of polygons are made of whole triangles.
#[verifier::rlimit(40)]
pub proof fn lemma_lids_len(polys: Seq<Nest>, k: int)
    ensures
        spec_lids(polys, k) matches Some(flat) ==> flat.len() % 6 == 0,
    decreases k,
{
    if k > 0 {
        lemma_lids_len(polys, k - 1);
        lemma_lid_len(polys[k - 1]);
    }
}

/// The walls along `k` rings take eighteen coordinates for each segment.
pub proof fn lemma_ribbons_len(rings: Seq<Seq<Vert>>, height: i64, k: int)
    requires
        0 <= k <= rings.len(),
        forall|i: int| 0 <= i < rings.len() ==> (#[trigger] rings[i]).len() >= 1,
    ensures
        spec_ribbons(rings, height, k).len() == 18 * segment_count(rings, k),
        segment_count(rings, k) >= 0,
    decreases k,
{
    if k > 0 {
        lemma_ribbons_len(rings, height, k - 1);
        let ring = rings[k - 1];
        lemma_ribbon_len(ring, height, crate::edge::spec_is_hole(ring), ring.len() - 1);
    }
}

/// A lid at the top and the same lid turned over take nine coordinates
/// for every triangle, twice.
#[verifier::rlimit(40)]
pub proof fn lemma_lids_take(lid: Seq<i64>, height: i64)
    requires
        lid.len() % 6 == 0,
    ensures
        spec_to_3d(lid, height).len() == 9 * (lid.len() / 6),
        spec_flip(spec_to_3d(lid, height), 0).len() == 9 * (lid.len() / 6),
{
    let q = lid.len() as int / 6;
    assert(lid.len() == 6 * q);
    assert(lid.len() as int / 2 == 3 * q);
    let top = lifted_upto(lid, height, 3 * q);
    assert(spec_to_3d(lid, height) == top);
    lemma_lifted_len(lid, height, 3 * q);
    assert(top.len() == 9 * q);
    assert(top.len() as int / 9 == q);
    lemma_flipped_len(top, 0, q);
    assert(spec_flip(top, 0) == flipped_upto(top, 0, q));
}

/// The number of triangles of a solid is that of the lid at the top, the
/// same again for the lid at the bottom, and two for every segment of
/// every ring.
#[verifier::rlimit(40)]
pub proof fn lemma_mesh_triangle_count(rings: Seq<Seq<Vert>>, height: i64)
    requires
        spec_mesh(rings, height) is Ok,
        forall|i: int| 0 <= i < rings.len() ==> (#[trigger] rings[i]).len() >= 1,
    ensures
        ({
            let polys = spec_flatten(spec_tree(rings));
            let lid = spec_lids(polys, polys.len() as int)->0;
            let n_top = lid.len() as int / 6;
            &&& lid.len() == 6 * n_top
            &&& spec_mesh(rings, height)->Ok_0.len() == 9 * (n_top + n_top + 2 * segment_count(
                rings,
                rings.len() as int,
            ))
        }),
{
    let polys = spec_flatten(spec_tree(rings));
    let count = polys.len() as int;
    let lid = spec_lids(polys, count)->0;
    let walls = spec_ribbons(rings, height, rings.len() as int);
    let top = spec_to_3d(lid, height);
    let bottom = spec_flip(top, 0);
    assert(spec_lids(polys, count) is Some);
    assert(spec_mesh(rings, height) == Ok::<Seq<i64>, PipelineError>(walls + top + bottom));
    lemma_lids_len(polys, count);
    lemma_ribbons_len(rings, height, rings.len() as int);
    lemma_lids_take(lid, height);
    assert((walls + top + bottom).len() == walls.len() + top.len() + bottom.len());
}

/// An image without foreground gives a solid without triangles.
pub proof fn lemma_background_gives_nothing(
    pixels: Seq<Rgba>,
    width: u32,
    img_height: u32,
    threshold: u8,
    height: i64,
)
    requires
        width >= 2,
        img_height >= 2,
        pixels.len() == width * img_height,
        forall|k: int| 0 <= k < pixels.len() ==> crate::luminance(#[trigger] pixels[k]) > threshold,
    ensures
        spec_edge_img(spec_threshold(pixels, threshold), width, img_height) == (
            Seq::<Seq<Vert>>::empty(),
            Seq::<Seq<Vert>>::empty(),
        ),
        spec_image_to_stl(pixels, width, img_height, threshold, height) == Ok::<
            Seq<i64>,
            PipelineError,
        >(Seq::empty()),
{
    let binary = spec_threshold(pixels, threshold);
    assert forall|k: int| 0 <= k < binary.len() implies (#[trigger] binary[k]).r != 0 by {
        assert(crate::luminance(pixels[k]) > threshold);
    }
    crate::lemma_background_has_no_rings(binary, width, img_height);
    let rings = Seq::<Seq<Vert>>::empty();
    assert(spec_tree(rings) =~= Seq::<Nest>::empty());
    let polys = spec_flatten(spec_tree(rings));
    assert(polys =~= Seq::<Nest>::empty());
    let top = spec_to_3d(Seq::<i64>::empty(), height);
    assert(top =~= Seq::<i64>::empty());
    assert(spec_flip(top, 0) =~= Seq::<i64>::empty());
    assert(spec_ribbons(rings, height, 0) + top + spec_flip(top, 0) =~= Seq::<i64>::empty());
}

/// For every image that is turned into a solid, the number of triangles
/// is that of the lid at the top, the same again for the lid at the
/// bottom, and two for every segment of every closed ring of its outline.
pub proof fn lemma_image_triangle_count(
    pixels: Seq<Rgba>,
    width: u32,
    img_height: u32,
    threshold: u8,
    height: i64,
)
    requires
        spec_image_to_stl(pixels, width, img_height, threshold, height) is Ok,
    ensures
        ({
            let rings = spec_edge_img(spec_threshold(pixels, threshold), width, img_height).1;
            let polys = spec_flatten(spec_tree(rings));
            let lid = spec_lids(polys, polys.len() as int)->0;
            let n_top = lid.len() as int / 6;
            &&& lid.len() == 6 * n_top
            &&& spec_image_to_stl(pixels, width, img_height, threshold, height)->Ok_0.len() == 9
                * (n_top + n_top + 2 * segment_count(rings, rings.len() as int))
        }),
{
    let binary = spec_threshold(pixels, threshold);
    let rings = spec_edge_img(binary, width, img_height).1;
    crate::lemma_image_rings_close(binary, width, img_height);
    reveal(all_closed);
    assert forall|i: int| 0 <= i < rings.len() implies (#[trigger] rings[i]).len() >= 1 by {
        assert(seq_closed(rings[i]));
    }
    lemma_mesh_triangle_count(rings, height);
}

} // verus!
