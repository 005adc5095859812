//! Ear cutting: triangulates a polygon with holes on the lattice.

use vstd::prelude::*;
use crate::edge::{lemma_mul_bounds, lemma_ratio_order};
use crate::vert::{lemma_product_bound, Vert, COORD_MAX};
use crate::PipelineError;

verus! {

/// Twice the signed area of the triangle `a`, `b`, `c`: positive when the
/// three points make a left turn.
pub open spec fn area2(a: Vert, b: Vert, c: Vert) -> int {
    (b.x - a.x) * (c.y - a.y) - (b.y - a.y) * (c.x - a.x)
}

/// Twice the signed area of a triangle.
pub fn area(a: &Vert, b: &Vert, c: &Vert) -> (r: i128)
    requires
        a.in_range(),
        b.in_range(),
        c.in_range(),
    ensures
        r == area2(*a, *b, *c),
        -0x2000_0000_0000_0000 <= r <= 0x2000_0000_0000_0000,
{
    let abx: i128 = (b.x as i128) - (a.x as i128);
    let aby: i128 = (b.y as i128) - (a.y as i128);
    let acx: i128 = (c.x as i128) - (a.x as i128);
    let acy: i128 = (c.y as i128) - (a.y as i128);
    proof {
        lemma_product_bound(abx as int, acy as int);
        lemma_product_bound(aby as int, acx as int);
    }
    abx * acy - aby * acx
}

/// `p` lies in the triangle `a`, `b`, `c`, whose corners go round to the
/// left, or on its border.
pub open spec fn in_triangle(a: Vert, b: Vert, c: Vert, p: Vert) -> bool {
    &&& area2(p, c, a) >= 0
    &&& area2(p, a, b) >= 0
    &&& area2(p, b, c) >= 0
}

pub fn point_in_triangle(a: &Vert, b: &Vert, c: &Vert, p: &Vert) -> (r: bool)
    requires
        a.in_range(),
        b.in_range(),
        c.in_range(),
        p.in_range(),
    ensures
        r == in_triangle(*a, *b, *c, *p),
{
    area(p, c, a) >= 0 && area(p, a, b) >= 0 && area(p, b, c) >= 0
}

/// Every point is in range.
pub open spec fn points_in_range(pts: Seq<Vert>) -> bool {
    forall|i: int| 0 <= i < pts.len() ==> (#[trigger] pts[i]).in_range()
}

/// Every entry of `ring` names a point.
pub open spec fn ring_valid(pts: Seq<Vert>, ring: Seq<usize>) -> bool {
    forall|i: int| 0 <= i < ring.len() ==> (#[trigger] ring[i]) < pts.len()
}

/// The position after `i`, going round a ring of `n` places.
pub open spec fn next_pos(i: int, n: int) -> int {
    if i + 1 >= n {
        0
    } else {
        i + 1
    }
}

/// The position before `i`, going round a ring of `n` places.
pub open spec fn prev_pos(i: int, n: int) -> int {
    if i == 0 {
        n - 1
    } else {
        i - 1
    }
}

fn next_index(i: usize, n: usize) -> (r: usize)
    requires
        i < n,
    ensures
        r == next_pos(i as int, n as int),
        r < n,
{
    if i + 1 >= n {
        0
    } else {
        i + 1
    }
}

fn prev_index(i: usize, n: usize) -> (r: usize)
    requires
        i < n,
    ensures
        r == prev_pos(i as int, n as int),
        r < n,
{
    if i == 0 {
        n - 1
    } else {
        i - 1
    }
}

/// The point at place `i` of the ring.
pub open spec fn at(pts: Seq<Vert>, ring: Seq<usize>, i: int) -> Vert {
    pts[ring[i] as int]
}

/// Twice the signed area of the corner at place `i` of the ring.
pub open spec fn corner_area(pts: Seq<Vert>, ring: Seq<usize>, i: int) -> int {
    let n = ring.len() as int;
    area2(at(pts, ring, prev_pos(i, n)), at(pts, ring, i), at(pts, ring, next_pos(i, n)))
}

fn corner(pts: &Vec<Vert>, ring: &Vec<usize>, i: usize) -> (r: i128)
    requires
        points_in_range(pts@),
        ring_valid(pts@, ring@),
        i < ring@.len(),
    ensures
        r == corner_area(pts@, ring@, i as int),
{
    let n: usize = ring.len();
    let a: usize = ring[prev_index(i, n)];
    let b: usize = ring[i];
    let c: usize = ring[next_index(i, n)];
    area(&pts[a], &pts[b], &pts[c])
}

/// The place `k` of the ring blocks the ear at place `i`: it is none of
/// the ear's three corners, its point lies in the ear's triangle, and the
/// ring does not turn left there.
pub open spec fn blocks_ear(pts: Seq<Vert>, ring: Seq<usize>, i: int, k: int) -> bool {
    let n = ring.len() as int;
    &&& 0 <= k < n
    &&& k != i
    &&& k != prev_pos(i, n)
    &&& k != next_pos(i, n)
    &&& in_triangle(
        at(pts, ring, prev_pos(i, n)),
        at(pts, ring, i),
        at(pts, ring, next_pos(i, n)),
        at(pts, ring, k),
    )
    &&& corner_area(pts, ring, k) <= 0
}

/// The corner at place `i` of the ring is an ear: the ring turns left
/// there, and no place of the ring blocks it.
pub open spec fn spec_is_ear(pts: Seq<Vert>, ring: Seq<usize>, i: int) -> bool {
    &&& corner_area(pts, ring, i) > 0
    &&& forall|k: int| !blocks_ear(pts, ring, i, k)
}

/// Checks whether the corner at place `i` can be cut off.
pub fn is_ear(pts: &Vec<Vert>, ring: &Vec<usize>, i: usize) -> (r: bool)
    requires
        points_in_range(pts@),
        ring_valid(pts@, ring@),
        i < ring@.len(),
    ensures
        r == spec_is_ear(pts@, ring@, i as int),
{
    let n: usize = ring.len();
    let ia: usize = prev_index(i, n);
    let ic: usize = next_index(i, n);
    let a: Vert = pts[ring[ia]];
    let b: Vert = pts[ring[i]];
    let c: Vert = pts[ring[ic]];
    if area(&a, &b, &c) <= 0 {
        return false;
    }
    let mut k: usize = 0;
    while k < n
        invariant
            k <= n,
            n == ring@.len(),
            i < n,
            ia == prev_pos(i as int, n as int),
            ic == next_pos(i as int, n as int),
            a == at(pts@, ring@, ia as int),
            b == at(pts@, ring@, i as int),
            c == at(pts@, ring@, ic as int),
            points_in_range(pts@),
            ring_valid(pts@, ring@),
            forall|j: int| 0 <= j < k ==> !blocks_ear(pts@, ring@, i as int, j),
        decreases n - k,
    {
        if k != i && k != ia && k != ic {
            let p: Vert = pts[ring[k]];
            if point_in_triangle(&a, &b, &c, &p) && corner(pts, ring, k) <= 0 {
                assert(blocks_ear(pts@, ring@, i as int, k as int));
                return false;
            }
        }
        k = k + 1;
    }
    true
}

/// The triangles listed in `tris`, three entries each, name points and go
/// round to the left.
pub open spec fn triangles_valid(pts: Seq<Vert>, tris: Seq<usize>) -> bool {
    &&& tris.len() % 3 == 0
    &&& forall|i: int| 0 <= i < tris.len() ==> (#[trigger] tris[i]) < pts.len()
    &&& forall|t: int|
        0 <= t < tris.len() / 3 ==> #[trigger] area2(
            pts[tris[3 * t] as int],
            pts[tris[3 * t + 1] as int],
            pts[tris[3 * t + 2] as int],
        ) > 0
}

/// Appends the triangle `a`, `b`, `c`.
fn push_triangle(pts: &Vec<Vert>, out: &mut Vec<usize>, a: usize, b: usize, c: usize)
    requires
        triangles_valid(pts@, old(out)@),
        a < pts@.len(),
        b < pts@.len(),
        c < pts@.len(),
        area2(pts@[a as int], pts@[b as int], pts@[c as int]) > 0,
    ensures
        triangles_valid(pts@, final(out)@),
        final(out)@ == old(out)@.push(a).push(b).push(c),
{
    out.push(a);
    out.push(b);
    out.push(c);
    proof {
        let n = old(out)@.len() as int;
        assert forall|t: int| 0 <= t < out@.len() / 3 implies #[trigger] area2(
            pts@[out@[3 * t] as int],
            pts@[out@[3 * t + 1] as int],
            pts@[out@[3 * t + 2] as int],
        ) > 0 by {
            if t < n / 3 {
                assert(out@[3 * t] == old(out)@[3 * t]);
                assert(out@[3 * t + 1] == old(out)@[3 * t + 1]);
                assert(out@[3 * t + 2] == old(out)@[3 * t + 2]);
                assert(area2(
                    pts@[old(out)@[3 * t] as int],
                    pts@[old(out)@[3 * t + 1] as int],
                    pts@[old(out)@[3 * t + 2] as int],
                ) > 0);
            } else {
                assert(3 * t == n);
            }
        }
    }
}


/// Cuts ears off a ring for as long as there are any.
///
/// `i` is the place looked at next, `misses` the number of places looked
/// at in vain since the last cut, `out` the triangles cut so far. An ear
/// is cut as soon as it is met; the search then goes on at the place
/// after the ear's successor. It ends when fewer than three places are
/// left or every place has been looked at in vain. The result is what is
/// left of the ring, and the triangles.
pub open spec fn spec_clip(
    pts: Seq<Vert>,
    ring: Seq<usize>,
    i: int,
    misses: int,
    out: Seq<usize>,
) -> (Seq<usize>, Seq<usize>)
    decreases ring.len(), ring.len() - misses,
{
    let n = ring.len() as int;
    if n < 3 || misses >= n || misses < 0 || i < 0 || i >= n {
        (ring, out)
    } else if spec_is_ear(pts, ring, i) {
        spec_clip(
            pts,
            ring.remove(i),
            next_pos(
                if i == n - 1 {
                    0
                } else {
                    i
                },
                n - 1,
            ),
            0,
            out.push(ring[prev_pos(i, n)]).push(ring[i]).push(ring[next_pos(i, n)]),
        )
    } else {
        spec_clip(pts, ring, next_pos(i, n), misses + 1, out)
    }
}

/// Cuts ears off `ring` for as long as there are any, starting at its
/// first place, and appends them to `out`.
pub fn clip_ears(pts: &Vec<Vert>, ring: &mut Vec<usize>, out: &mut Vec<usize>)
    requires
        points_in_range(pts@),
        ring_valid(pts@, old(ring)@),
        triangles_valid(pts@, old(out)@),
    ensures
        (final(ring)@, final(out)@) == spec_clip(pts@, old(ring)@, 0, 0, old(out)@),
        ring_valid(pts@, final(ring)@),
        triangles_valid(pts@, final(out)@),
        final(ring)@.len() <= old(ring)@.len(),
        final(out)@.len() == old(out)@.len() + 3 * (old(ring)@.len() - final(ring)@.len()),
{
    let mut i: usize = 0;
    let mut misses: usize = 0;
    while ring.len() >= 3 && misses < ring.len()
        invariant
            points_in_range(pts@),
            ring_valid(pts@, ring@),
            triangles_valid(pts@, out@),
            ring@.len() >= 3 ==> i < ring@.len(),
            ring@.len() <= old(ring)@.len(),
            out@.len() == old(out)@.len() + 3 * (old(ring)@.len() - ring@.len()),
            spec_clip(pts@, old(ring)@, 0, 0, old(out)@) == spec_clip(
                pts@,
                ring@,
                i as int,
                misses as int,
                out@,
            ),
        decreases ring@.len(), ring@.len() - misses,
    {
        let n: usize = ring.len();
        if is_ear(pts, ring, i) {
            let a: usize = ring[prev_index(i, n)];
            let b: usize = ring[i];
            let c: usize = ring[next_index(i, n)];
            push_triangle(pts, out, a, b, c);
            let ghost before = ring@;
            ring.remove(i);
            proof {
                assert forall|k: int| 0 <= k < ring@.len() implies (#[trigger] ring@[k])
                    < pts@.len() by {
                    if k < i {
                        assert(ring@[k] == before[k]);
                    } else {
                        assert(ring@[k] == before[k + 1]);
                    }
                }
            }
            let at_next: usize = if i == n - 1 {
                0
            } else {
                i
            };
            i = next_index(at_next, n - 1);
            misses = 0;
        } else {
            i = next_index(i, n);
            misses = misses + 1;
        }
    }
}

/// The place `i` of the ring adds nothing to it: its point is also the
/// next place's, or it lies on a line with its neighbours.
pub open spec fn is_spare(pts: Seq<Vert>, ring: Seq<usize>, i: int) -> bool {
    let n = ring.len() as int;
    at(pts, ring, i) == at(pts, ring, next_pos(i, n)) || corner_area(pts, ring, i) == 0
}

/// Takes places that add nothing out of a ring.
///
/// `i` is the place looked at next and `clean` the number of places
/// looked at since the last one taken out. A spare place is taken out as
/// soon as it is met, and the search steps back to the place before it.
/// It ends when fewer than three places are left or every place has been
/// looked at and kept.
pub open spec fn spec_filter(pts: Seq<Vert>, ring: Seq<usize>, i: int, clean: int) -> Seq<usize>
    decreases ring.len(), ring.len() - clean,
{
    let n = ring.len() as int;
    if n < 3 || clean >= n || clean < 0 || i < 0 || i >= n {
        ring
    } else if is_spare(pts, ring, i) {
        spec_filter(
            pts,
            ring.remove(i),
            if i == 0 {
                n - 2
            } else {
                i - 1
            },
            0,
        )
    } else {
        spec_filter(pts, ring, next_pos(i, n), clean + 1)
    }
}

/// Takes out of `ring` the places that repeat a point or lie on a line
/// with their neighbours.
pub fn filter_points(pts: &Vec<Vert>, ring: &mut Vec<usize>)
    requires
        points_in_range(pts@),
        ring_valid(pts@, old(ring)@),
    ensures
        final(ring)@ == spec_filter(pts@, old(ring)@, 0, 0),
        ring_valid(pts@, final(ring)@),
        final(ring)@.len() <= old(ring)@.len(),
{
    let mut i: usize = 0;
    let mut clean: usize = 0;
    while ring.len() >= 3 && clean < ring.len()
        invariant
            points_in_range(pts@),
            ring_valid(pts@, ring@),
            ring@.len() >= 3 ==> i < ring@.len(),
            ring@.len() <= old(ring)@.len(),
            spec_filter(pts@, old(ring)@, 0, 0) == spec_filter(
                pts@,
                ring@,
                i as int,
                clean as int,
            ),
        decreases ring@.len(), ring@.len() - clean,
    {
        let n: usize = ring.len();
        let p: Vert = pts[ring[i]];
        let q: Vert = pts[ring[next_index(i, n)]];
        if p == q || corner(pts, ring, i) == 0 {
            let ghost before = ring@;
            ring.remove(i);
            proof {
                assert forall|k: int| 0 <= k < ring@.len() implies (#[trigger] ring@[k])
                    < pts@.len() by {
                    if k < i {
                        assert(ring@[k] == before[k]);
                    } else {
                        assert(ring@[k] == before[k + 1]);
                    }
                }
            }
            i = if i == 0 {
                n - 2
            } else {
                i - 1
            };
            clean = 0;
        } else {
            i = next_index(i, n);
            clean = clean + 1;
        }
    }
}


/// The sign of a number: 1, 0 or -1.
pub open spec fn sign(x: int) -> int {
    if x > 0 {
        1
    } else if x < 0 {
        -1
    } else {
        0
    }
}

fn sign_of(x: i128) -> (s: i8)
    ensures
        s == sign(x as int),
{
    if x > 0 {
        1
    } else if x < 0 {
        -1
    } else {
        0
    }
}

/// `q` lies in the box spanned by `p` and `r`: for three points on one
/// line, `q` lies on the segment from `p` to `r`.
pub open spec fn on_segment(p: Vert, q: Vert, r: Vert) -> bool {
    &&& q.x <= (if p.x > r.x { p.x } else { r.x })
    &&& q.x >= (if p.x < r.x { p.x } else { r.x })
    &&& q.y <= (if p.y > r.y { p.y } else { r.y })
    &&& q.y >= (if p.y < r.y { p.y } else { r.y })
}

fn is_on_segment(p: &Vert, q: &Vert, r: &Vert) -> (b: bool)
    ensures
        b == on_segment(*p, *q, *r),
{
    let max_x: i64 = if p.x > r.x { p.x } else { r.x };
    let min_x: i64 = if p.x < r.x { p.x } else { r.x };
    let max_y: i64 = if p.y > r.y { p.y } else { r.y };
    let min_y: i64 = if p.y < r.y { p.y } else { r.y };
    q.x <= max_x && q.x >= min_x && q.y <= max_y && q.y >= min_y
}

/// The segments from `a` to `b` and from `c` to `d` have a point in
/// common.
pub open spec fn segments_intersect(a: Vert, b: Vert, c: Vert, d: Vert) -> bool {
    let o1 = sign(area2(a, b, c));
    let o2 = sign(area2(a, b, d));
    let o3 = sign(area2(c, d, a));
    let o4 = sign(area2(c, d, b));
    ||| (o1 != o2 && o3 != o4)
    ||| (o1 == 0 && on_segment(a, c, b))
    ||| (o2 == 0 && on_segment(a, d, b))
    ||| (o3 == 0 && on_segment(c, a, d))
    ||| (o4 == 0 && on_segment(c, b, d))
}

pub fn intersects(a: &Vert, b: &Vert, c: &Vert, d: &Vert) -> (r: bool)
    requires
        a.in_range(),
        b.in_range(),
        c.in_range(),
        d.in_range(),
    ensures
        r == segments_intersect(*a, *b, *c, *d),
{
    let o1: i8 = sign_of(area(a, b, c));
    let o2: i8 = sign_of(area(a, b, d));
    let o3: i8 = sign_of(area(c, d, a));
    let o4: i8 = sign_of(area(c, d, b));
    if o1 != o2 && o3 != o4 {
        return true;
    }
    if o1 == 0 && is_on_segment(a, c, b) {
        return true;
    }
    if o2 == 0 && is_on_segment(a, d, b) {
        return true;
    }
    if o3 == 0 && is_on_segment(c, a, d) {
        return true;
    }
    if o4 == 0 && is_on_segment(c, b, d) {
        return true;
    }
    false
}

/// The side of the ring that leaves place `k` meets the line from place
/// `a` to place `b`, and shares no point name with either end of it.
pub open spec fn side_crosses(pts: Seq<Vert>, ring: Seq<usize>, k: int, a: int, b: int) -> bool {
    let n = ring.len() as int;
    &&& 0 <= k < n
    &&& ring[k] != ring[a]
    &&& ring[next_pos(k, n)] != ring[a]
    &&& ring[k] != ring[b]
    &&& ring[next_pos(k, n)] != ring[b]
    &&& segments_intersect(
        at(pts, ring, k),
        at(pts, ring, next_pos(k, n)),
        at(pts, ring, a),
        at(pts, ring, b),
    )
}

/// Some side of the ring meets the line from place `a` to place `b`.
pub open spec fn spec_intersects_polygon(pts: Seq<Vert>, ring: Seq<usize>, a: int, b: int) -> bool {
    exists|k: int| side_crosses(pts, ring, k, a, b)
}

fn intersects_polygon(pts: &Vec<Vert>, ring: &Vec<usize>, a: usize, b: usize) -> (r: bool)
    requires
        points_in_range(pts@),
        ring_valid(pts@, ring@),
        a < ring@.len(),
        b < ring@.len(),
    ensures
        r == spec_intersects_polygon(pts@, ring@, a as int, b as int),
{
    let n: usize = ring.len();
    let va: Vert = pts[ring[a]];
    let vb: Vert = pts[ring[b]];
    let mut k: usize = 0;
    while k < n
        invariant
            k <= n,
            n == ring@.len(),
            a < n,
            b < n,
            points_in_range(pts@),
            ring_valid(pts@, ring@),
            va == at(pts@, ring@, a as int),
            vb == at(pts@, ring@, b as int),
            forall|j: int| 0 <= j < k ==> !side_crosses(pts@, ring@, j, a as int, b as int),
        decreases n - k,
    {
        let kn: usize = next_index(k, n);
        if ring[k] != ring[a] && ring[kn] != ring[a] && ring[k] != ring[b] && ring[kn] != ring[b] {
            let p: Vert = pts[ring[k]];
            let q: Vert = pts[ring[kn]];
            if intersects(&p, &q, &va, &vb) {
                assert(side_crosses(pts@, ring@, k as int, a as int, b as int));
                return true;
            }
        }
        k = k + 1;
    }
    false
}

/// The line from place `a` to the point `vb` leaves `a` towards the
/// inside of the ring.
pub open spec fn spec_locally_inside_point(pts: Seq<Vert>, ring: Seq<usize>, a: int, vb: Vert) -> bool {
    let n = ring.len() as int;
    let before = at(pts, ring, prev_pos(a, n));
    let after = at(pts, ring, next_pos(a, n));
    let va = at(pts, ring, a);
    if area2(before, va, after) > 0 {
        area2(va, vb, after) <= 0 && area2(va, before, vb) <= 0
    } else {
        area2(va, vb, before) > 0 || area2(va, after, vb) > 0
    }
}

/// The line from place `a` to place `b` leaves `a` towards the inside of
/// the ring.
pub open spec fn spec_locally_inside(pts: Seq<Vert>, ring: Seq<usize>, a: int, b: int) -> bool {
    spec_locally_inside_point(pts, ring, a, at(pts, ring, b))
}

fn locally_inside_point(pts: &Vec<Vert>, ring: &Vec<usize>, a: usize, vb: &Vert) -> (r: bool)
    requires
        points_in_range(pts@),
        ring_valid(pts@, ring@),
        a < ring@.len(),
        vb.in_range(),
    ensures
        r == spec_locally_inside_point(pts@, ring@, a as int, *vb),
{
    let n: usize = ring.len();
    let before: Vert = pts[ring[prev_index(a, n)]];
    let after: Vert = pts[ring[next_index(a, n)]];
    let va: Vert = pts[ring[a]];
    if area(&before, &va, &after) > 0 {
        area(&va, vb, &after) <= 0 && area(&va, &before, vb) <= 0
    } else {
        area(&va, vb, &before) > 0 || area(&va, &after, vb) > 0
    }
}

fn locally_inside(pts: &Vec<Vert>, ring: &Vec<usize>, a: usize, b: usize) -> (r: bool)
    requires
        points_in_range(pts@),
        ring_valid(pts@, ring@),
        a < ring@.len(),
        b < ring@.len(),
    ensures
        r == spec_locally_inside(pts@, ring@, a as int, b as int),
{
    let vb: Vert = pts[ring[b]];
    locally_inside_point(pts, ring, a, &vb)
}

/// A ray to the right from the point `(px2 / 2, py2 / 2)` meets the
/// segment from `p` to `q`.
pub open spec fn ray_meets(p: Vert, q: Vert, px2: int, py2: int) -> bool {
    &&& (2 * p.y > py2) != (2 * q.y > py2)
    &&& if q.y > p.y {
        (px2 - 2 * p.x) * (q.y - p.y) < (q.x - p.x) * (py2 - 2 * p.y)
    } else {
        (px2 - 2 * p.x) * (q.y - p.y) > (q.x - p.x) * (py2 - 2 * p.y)
    }
}

fn ray_meets_side(p: &Vert, q: &Vert, px2: i64, py2: i64) -> (r: bool)
    requires
        p.in_range(),
        q.in_range(),
        -0x4000_0000 <= px2 <= 0x4000_0000,
        -0x4000_0000 <= py2 <= 0x4000_0000,
    ensures
        r == ray_meets(*p, *q, px2 as int, py2 as int),
{
    if (2 * p.y > py2) == (2 * q.y > py2) {
        return false;
    }
    let dy: i128 = (q.y as i128) - (p.y as i128);
    let dx: i128 = (q.x as i128) - (p.x as i128);
    let ox: i128 = (px2 as i128) - 2 * (p.x as i128);
    let oy: i128 = (py2 as i128) - 2 * (p.y as i128);
    proof {
        lemma_mul_bounds(ox as int, dy as int, 0x8000_0000, 0x4000_0000);
        lemma_mul_bounds(dx as int, oy as int, 0x4000_0000, 0x8000_0000);
    }
    if dy > 0 {
        ox * dy < dx * oy
    } else {
        ox * dy > dx * oy
    }
}

/// Whether a ray to the right from the middle of the line from place `a`
/// to place `b` meets an odd number of the first `k` sides of the ring.
pub open spec fn ray_parity(pts: Seq<Vert>, ring: Seq<usize>, a: int, b: int, k: int) -> bool
    decreases k,
{
    if k <= 0 {
        false
    } else {
        let n = ring.len() as int;
        ray_parity(pts, ring, a, b, k - 1) != ray_meets(
            at(pts, ring, k - 1),
            at(pts, ring, next_pos(k - 1, n)),
            at(pts, ring, a).x + at(pts, ring, b).x,
            at(pts, ring, a).y + at(pts, ring, b).y,
        )
    }
}

/// The middle of the line from place `a` to place `b` lies inside the
/// ring.
pub open spec fn spec_middle_inside(pts: Seq<Vert>, ring: Seq<usize>, a: int, b: int) -> bool {
    ray_parity(pts, ring, a, b, ring.len() as int)
}

fn middle_inside(pts: &Vec<Vert>, ring: &Vec<usize>, a: usize, b: usize) -> (r: bool)
    requires
        points_in_range(pts@),
        ring_valid(pts@, ring@),
        a < ring@.len(),
        b < ring@.len(),
    ensures
        r == spec_middle_inside(pts@, ring@, a as int, b as int),
{
    let n: usize = ring.len();
    let va: Vert = pts[ring[a]];
    let vb: Vert = pts[ring[b]];
    let px2: i64 = va.x + vb.x;
    let py2: i64 = va.y + vb.y;
    let mut inside: bool = false;
    let mut k: usize = 0;
    while k < n
        invariant
            k <= n,
            n == ring@.len(),
            a < n,
            b < n,
            points_in_range(pts@),
            ring_valid(pts@, ring@),
            px2 == at(pts@, ring@, a as int).x + at(pts@, ring@, b as int).x,
            py2 == at(pts@, ring@, a as int).y + at(pts@, ring@, b as int).y,
            -0x4000_0000 <= px2 <= 0x4000_0000,
            -0x4000_0000 <= py2 <= 0x4000_0000,
            inside == ray_parity(pts@, ring@, a as int, b as int, k as int),
        decreases n - k,
    {
        let p: Vert = pts[ring[k]];
        let q: Vert = pts[ring[next_index(k, n)]];
        if ray_meets_side(&p, &q, px2, py2) {
            inside = !inside;
        }
        k = k + 1;
    }
    inside
}

/// The line from place `a` to place `b` cuts the ring in two: the places
/// are not neighbours, the line meets no side of the ring and runs
/// inside it; or the two places hold one point at which the ring turns
/// right both times.
pub open spec fn spec_valid_diagonal(pts: Seq<Vert>, ring: Seq<usize>, a: int, b: int) -> bool {
    let n = ring.len() as int;
    &&& ring[next_pos(a, n)] != ring[b]
    &&& ring[prev_pos(a, n)] != ring[b]
    &&& !spec_intersects_polygon(pts, ring, a, b)
    &&& {
        ||| {
            &&& spec_locally_inside(pts, ring, a, b)
            &&& spec_locally_inside(pts, ring, b, a)
            &&& spec_middle_inside(pts, ring, a, b)
            &&& (area2(
                at(pts, ring, prev_pos(a, n)),
                at(pts, ring, a),
                at(pts, ring, prev_pos(b, n)),
            ) != 0 || area2(at(pts, ring, a), at(pts, ring, prev_pos(b, n)), at(pts, ring, b))
                != 0)
        }
        ||| {
            &&& at(pts, ring, a) == at(pts, ring, b)
            &&& corner_area(pts, ring, a) < 0
            &&& corner_area(pts, ring, b) < 0
        }
    }
}

pub fn is_valid_diagonal(pts: &Vec<Vert>, ring: &Vec<usize>, a: usize, b: usize) -> (r: bool)
    requires
        points_in_range(pts@),
        ring_valid(pts@, ring@),
        a < ring@.len(),
        b < ring@.len(),
    ensures
        r == spec_valid_diagonal(pts@, ring@, a as int, b as int),
{
    let n: usize = ring.len();
    let pa: usize = prev_index(a, n);
    let pb: usize = prev_index(b, n);
    if ring[next_index(a, n)] == ring[b] || ring[pa] == ring[b] {
        return false;
    }
    if intersects_polygon(pts, ring, a, b) {
        return false;
    }
    let va: Vert = pts[ring[a]];
    let vb: Vert = pts[ring[b]];
    let vpa: Vert = pts[ring[pa]];
    let vpb: Vert = pts[ring[pb]];
    if locally_inside(pts, ring, a, b) && locally_inside(pts, ring, b, a) && middle_inside(
        pts,
        ring,
        a,
        b,
    ) && (area(&vpa, &va, &vpb) != 0 || area(&va, &vpb, &vb) != 0) {
        return true;
    }
    va == vb && corner(pts, ring, a) < 0 && corner(pts, ring, b) < 0
}

/// The place `off` steps after place `a`, going round a ring of `n`
/// places.
pub open spec fn wrap(a: int, off: int, n: int) -> int {
    if off >= n - a {
        off - (n - a)
    } else {
        a + off
    }
}

fn wrap_index(a: usize, off: usize, n: usize) -> (r: usize)
    requires
        a < n,
        off <= n,
    ensures
        r == wrap(a as int, off as int, n as int),
        r < n,
{
    if off >= n - a {
        off - (n - a)
    } else {
        a + off
    }
}

/// The ring can be cut along the line from place `a` to the place `off`
/// steps after it: the two places name different points, and the line
/// between them is a valid diagonal.
pub open spec fn cut_at(pts: Seq<Vert>, ring: Seq<usize>, a: int, off: int) -> bool {
    let n = ring.len() as int;
    &&& 0 <= a < n
    &&& 2 <= off <= n - 2
    &&& ring[a] != ring[wrap(a, off, n)]
    &&& spec_valid_diagonal(pts, ring, a, wrap(a, off, n))
}

/// `(a, off)` comes before `(a2, off2)` in the order in which cuts are
/// tried.
pub open spec fn tried_before(a: int, off: int, a2: int, off2: int) -> bool {
    a < a2 || (a == a2 && off < off2)
}

/// `(a, off)` is the first cut that can be made.
pub open spec fn is_first_cut(pts: Seq<Vert>, ring: Seq<usize>, a: int, off: int) -> bool {
    &&& cut_at(pts, ring, a, off)
    &&& forall|a2: int, off2: int|
        tried_before(a2, off2, a, off) ==> !#[trigger] cut_at(pts, ring, a2, off2)
}

/// Looks for the first line along which the ring can be cut in two,
/// trying the places in their order and, from each, the places two or
/// more steps away on either side.
pub fn find_diagonal(pts: &Vec<Vert>, ring: &Vec<usize>) -> (r: Option<(usize, usize)>)
    requires
        points_in_range(pts@),
        ring_valid(pts@, ring@),
    ensures
        match r {
            Some((a, off)) => is_first_cut(pts@, ring@, a as int, off as int),
            None => forall|a2: int, off2: int| !#[trigger] cut_at(pts@, ring@, a2, off2),
        },
{
    let n: usize = ring.len();
    if n < 4 {
        return None;
    }
    let mut a: usize = 0;
    while a < n
        invariant
            a <= n,
            n == ring@.len(),
            n >= 4,
            points_in_range(pts@),
            ring_valid(pts@, ring@),
            forall|a2: int, off2: int| a2 < a ==> !#[trigger] cut_at(pts@, ring@, a2, off2),
        decreases n - a,
    {
        let mut off: usize = 2;
        while off <= n - 2
            invariant
                a < n,
                2 <= off <= n - 1,
                n == ring@.len(),
                n >= 4,
                points_in_range(pts@),
                ring_valid(pts@, ring@),
                forall|a2: int, off2: int|
                    tried_before(a2, off2, a as int, off as int) ==> !#[trigger] cut_at(
                        pts@,
                        ring@,
                        a2,
                        off2,
                    ),
            decreases n - off,
        {
            let b: usize = wrap_index(a, off, n);
            if ring[a] != ring[b] && is_valid_diagonal(pts, ring, a, b) {
                return Some((a, off));
            }
            off = off + 1;
        }
        a = a + 1;
    }
    None
}

/// `count` entries of the ring, going round from place `from`.
pub open spec fn arc(ring: Seq<usize>, from: int, count: int) -> Seq<usize> {
    Seq::new(count as nat, |k: int| ring[wrap(from, k, ring.len() as int)])
}

/// The half of the ring that runs from place `a` on to the place `off`
/// steps after it.
pub open spec fn near_half(ring: Seq<usize>, a: int, off: int) -> Seq<usize> {
    arc(ring, a, off + 1)
}

/// The other half: place `a`, then the ring from the place `off` steps
/// after `a` back round to the place before `a`.
pub open spec fn far_half(ring: Seq<usize>, a: int, off: int) -> Seq<usize> {
    let n = ring.len() as int;
    seq![ring[a]] + arc(ring, wrap(a, off, n), n - off)
}

/// Copies `count` entries of the ring, going round from place `from`, to
/// the end of `out`.
fn push_arc(ring: &Vec<usize>, from: usize, count: usize, out: &mut Vec<usize>)
    requires
        from < ring@.len(),
        count <= ring@.len(),
    ensures
        final(out)@ == old(out)@ + arc(ring@, from as int, count as int),
{
    let n: usize = ring.len();
    let mut k: usize = 0;
    assert(out@ =~= old(out)@ + arc(ring@, from as int, 0));
    while k < count
        invariant
            k <= count,
            count <= n,
            n == ring@.len(),
            from < n,
            out@ == old(out)@ + arc(ring@, from as int, k as int),
        decreases count - k,
    {
        let ghost before = out@;
        out.push(ring[wrap_index(from, k, n)]);
        assert(out@ =~= old(out)@ + arc(ring@, from as int, k + 1));
        k = k + 1;
    }
}

/// The two rings that a cut leaves.
fn split_ring(ring: &Vec<usize>, a: usize, off: usize) -> (r: (Vec<usize>, Vec<usize>))
    requires
        a < ring@.len(),
        2 <= off <= ring@.len() - 2,
    ensures
        r.0@ == far_half(ring@, a as int, off as int),
        r.1@ == near_half(ring@, a as int, off as int),
        r.0@.len() == ring@.len() - off + 1,
        r.1@.len() == off + 1,
{
    let n: usize = ring.len();
    let b: usize = wrap_index(a, off, n);
    let mut far: Vec<usize> = Vec::new();
    far.push(ring[a]);
    assert(far@ =~= seq![ring@[a as int]]);
    push_arc(ring, b, n - off, &mut far);
    let mut near: Vec<usize> = Vec::new();
    push_arc(ring, a, off + 1, &mut near);
    assert(near@ =~= near_half(ring@, a as int, off as int));
    (far, near)
}

/// What cutting ears off a ring leaves is no longer than the ring.
pub proof fn lemma_clip_shrinks(pts: Seq<Vert>, ring: Seq<usize>, i: int, misses: int, out: Seq<usize>)
    ensures
        spec_clip(pts, ring, i, misses, out).0.len() <= ring.len(),
    decreases ring.len(), ring.len() - misses,
{
    let n = ring.len() as int;
    if n < 3 || misses >= n || misses < 0 || i < 0 || i >= n {
    } else if spec_is_ear(pts, ring, i) {
        lemma_clip_shrinks(
            pts,
            ring.remove(i),
            next_pos(
                if i == n - 1 {
                    0
                } else {
                    i
                },
                n - 1,
            ),
            0,
            out.push(ring[prev_pos(i, n)]).push(ring[i]).push(ring[next_pos(i, n)]),
        );
    } else {
        lemma_clip_shrinks(pts, ring, next_pos(i, n), misses + 1, out);
    }
}

/// What filtering leaves of a ring is no longer than the ring.
pub proof fn lemma_filter_shrinks(pts: Seq<Vert>, ring: Seq<usize>, i: int, clean: int)
    ensures
        spec_filter(pts, ring, i, clean).len() <= ring.len(),
    decreases ring.len(), ring.len() - clean,
{
    let n = ring.len() as int;
    if n < 3 || clean >= n || clean < 0 || i < 0 || i >= n {
    } else if is_spare(pts, ring, i) {
        lemma_filter_shrinks(
            pts,
            ring.remove(i),
            if i == 0 {
                n - 2
            } else {
                i - 1
            },
            0,
        );
    } else {
        lemma_filter_shrinks(pts, ring, next_pos(i, n), clean + 1);
    }
}

/// The triangles that ear cutting makes of a ring, after those in `out`;
/// none when it fails.
///
/// Ears are cut off for as long as there are any. If three or more
/// places are left, those that add nothing are taken out and ears are cut
/// again. If three or more places are still left, the ring is cut in two
/// along the first diagonal that is valid, and each half is treated in
/// the same way, the half that runs back to the first place of the cut
/// before the other. Without a valid diagonal, ear cutting fails.
pub open spec fn spec_cut(pts: Seq<Vert>, ring: Seq<usize>, out: Seq<usize>) -> Option<Seq<usize>>
    decreases ring.len(),
{
    let first = spec_clip(pts, ring, 0, 0, out);
    if first.0.len() < 3 {
        Some(first.1)
    } else {
        let filtered = spec_filter(pts, first.0, 0, 0);
        let second = spec_clip(pts, filtered, 0, 0, first.1);
        let left = second.0;
        if left.len() < 3 {
            Some(second.1)
        } else if exists|cut: (int, int)| is_first_cut(pts, left, cut.0, cut.1) {
            let cut = choose|cut: (int, int)| is_first_cut(pts, left, cut.0, cut.1);
            proof {
                lemma_clip_shrinks(pts, ring, 0, 0, out);
                lemma_filter_shrinks(pts, first.0, 0, 0);
                lemma_clip_shrinks(pts, filtered, 0, 0, first.1);
                assert(cut_at(pts, left, cut.0, cut.1));
                assert(far_half(left, cut.0, cut.1).len() == left.len() - cut.1 + 1);
                assert(near_half(left, cut.0, cut.1).len() == cut.1 + 1);
            }
            match spec_cut(pts, far_half(left, cut.0, cut.1), second.1) {
                Some(more) => spec_cut(pts, near_half(left, cut.0, cut.1), more),
                None => None,
            }
        } else {
            None
        }
    }
}

/// At most one cut is the first.
pub proof fn lemma_first_cut_unique(pts: Seq<Vert>, ring: Seq<usize>, a: int, off: int, a2: int, off2: int)
    requires
        is_first_cut(pts, ring, a, off),
        is_first_cut(pts, ring, a2, off2),
    ensures
        a == a2,
        off == off2,
{
    if tried_before(a, off, a2, off2) {
        assert(!cut_at(pts, ring, a, off));
    }
    if tried_before(a2, off2, a, off) {
        assert(!cut_at(pts, ring, a2, off2));
    }
}

/// The halves that a cut leaves name points of the ring.
pub proof fn lemma_halves_valid(pts: Seq<Vert>, ring: Seq<usize>, a: int, off: int)
    requires
        ring_valid(pts, ring),
        0 <= a < ring.len(),
        2 <= off <= ring.len() - 2,
    ensures
        ring_valid(pts, far_half(ring, a, off)),
        ring_valid(pts, near_half(ring, a, off)),
{
    let n = ring.len() as int;
    let far = far_half(ring, a, off);
    let near = near_half(ring, a, off);
    assert forall|i: int| 0 <= i < far.len() implies (#[trigger] far[i]) < pts.len() by {
        if i == 0 {
            assert(far[i] == ring[a]);
        } else {
            assert(far[i] == ring[wrap(wrap(a, off, n), i - 1, n)]);
        }
    }
    assert forall|i: int| 0 <= i < near.len() implies (#[trigger] near[i]) < pts.len() by {
        assert(near[i] == ring[wrap(a, i, n)]);
    }
}

/// Cuts a ring into triangles and appends them to `out`. Says whether it
/// got through; when it did not, `out` holds the triangles made up to
/// then.
pub fn earcut_ring(pts: &Vec<Vert>, ring: Vec<usize>, out: &mut Vec<usize>) -> (ok: bool)
    requires
        points_in_range(pts@),
        ring_valid(pts@, ring@),
        triangles_valid(pts@, old(out)@),
    ensures
        triangles_valid(pts@, final(out)@),
        ok == spec_cut(pts@, ring@, old(out)@) is Some,
        ok ==> final(out)@ == spec_cut(pts@, ring@, old(out)@)->0,
    decreases ring@.len(),
{
    let mut left = ring;
    clip_ears(pts, &mut left, out);
    if left.len() < 3 {
        return true;
    }
    filter_points(pts, &mut left);
    clip_ears(pts, &mut left, out);
    if left.len() < 3 {
        return true;
    }
    match find_diagonal(pts, &left) {
        None => false,
        Some((a, off)) => {
            proof {
                assert forall|c: (int, int)| is_first_cut(pts@, left@, c.0, c.1) implies c == (
                    a as int,
                    off as int,
                ) by {
                    lemma_first_cut_unique(pts@, left@, c.0, c.1, a as int, off as int);
                }
                let found = (a as int, off as int);
                assert(is_first_cut(pts@, left@, found.0, found.1));
                lemma_halves_valid(pts@, left@, a as int, off as int);
            }
            let (far, near) = split_ring(&left, a, off);
            if !earcut_ring(pts, far, out) {
                return false;
            }
            earcut_ring(pts, near, out)
        },
    }
}


/// The points that a flat list of coordinates holds, two numbers each.
pub open spec fn spec_points(data: Seq<i64>) -> Seq<Vert> {
    Seq::new(data.len() / 2, |i: int| Vert { x: data[2 * i], y: data[2 * i + 1] })
}

/// Every coordinate is within `COORD_MAX` of zero.
pub open spec fn coords_in_range(data: Seq<i64>) -> bool {
    forall|i: int| 0 <= i < data.len() ==> -COORD_MAX <= #[trigger] data[i] <= COORD_MAX
}

fn points_of(data: &Vec<i64>) -> (pts: Vec<Vert>)
    requires
        data@.len() % 2 == 0,
    ensures
        pts@ == spec_points(data@),
        coords_in_range(data@) ==> points_in_range(pts@),
{
    let n: usize = data.len() / 2;
    let mut pts: Vec<Vert> = Vec::new();
    let mut i: usize = 0;
    while i < n
        invariant
            i <= n,
            n == data@.len() / 2,
            data@.len() % 2 == 0,
            data@.len() <= usize::MAX,
            pts@.len() == i,
            forall|k: int|
                0 <= k < i ==> #[trigger] pts@[k] == (Vert { x: data@[2 * k], y: data@[2 * k + 1] }),
        decreases n - i,
    {
        pts.push(Vert { x: data[2 * i], y: data[2 * i + 1] });
        i = i + 1;
    }
    assert(pts@ =~= spec_points(data@));
    pts
}

/// One term of the sum that gives twice the area of a ring: the side
/// from `before` to `here`.
pub open spec fn shoelace_term(before: Vert, here: Vert) -> int {
    (before.x - here.x) * (here.y + before.y)
}

/// The sum of the first `k` terms for the ring of the points from
/// `start` up to `end`, the first term being that of the side which
/// closes the ring.
pub open spec fn shoelace(pts: Seq<Vert>, start: int, end: int, k: int) -> int
    decreases k,
{
    if k <= 0 {
        0
    } else {
        shoelace(pts, start, end, k - 1) + shoelace_term(
            pts[if k == 1 {
                end - 1
            } else {
                start + k - 2
            }],
            pts[start + k - 1],
        )
    }
}

/// Twice the area of the ring of the points from `start` up to `end`:
/// positive when the ring goes round to the left.
pub open spec fn spec_signed_area(pts: Seq<Vert>, start: int, end: int) -> int {
    shoelace(pts, start, end, end - start)
}

pub fn signed_area(pts: &Vec<Vert>, start: usize, end: usize) -> (sum: i128)
    requires
        points_in_range(pts@),
        start <= end <= pts@.len(),
    ensures
        sum == spec_signed_area(pts@, start as int, end as int),
{
    let mut sum: i128 = 0;
    let mut i: usize = start;
    while i < end
        invariant
            start <= i <= end,
            end <= pts@.len(),
            points_in_range(pts@),
            sum == shoelace(pts@, start as int, end as int, i - start),
            -(i - start) * 0x1000_0000_0000_0000 <= sum <= (i - start) * 0x1000_0000_0000_0000,
        decreases end - i,
    {
        let j: usize = if i == start {
            end - 1
        } else {
            i - 1
        };
        let before: Vert = pts[j];
        let here: Vert = pts[i];
        let dx: i128 = (before.x as i128) - (here.x as i128);
        let sy: i128 = (here.y as i128) + (before.y as i128);
        proof {
            lemma_product_bound(dx as int, sy as int);
        }
        sum = sum + dx * sy;
        i = i + 1;
    }
    sum
}

/// The names of the points from `start` up to `end`, in the order that
/// makes the ring go round to the left when `leftward` holds and to the
/// right when it does not; the last name is left out when its point is
/// the first one again.
pub open spec fn spec_ring_of(pts: Seq<Vert>, start: int, end: int, leftward: bool) -> Seq<usize> {
    let forward = Seq::new((end - start) as nat, |k: int| (start + k) as usize);
    let ordered = if leftward == (spec_signed_area(pts, start, end) > 0) {
        forward
    } else {
        forward.reverse()
    };
    if ordered.len() > 1 && pts[ordered.last() as int] == pts[ordered[0] as int] {
        ordered.drop_last()
    } else {
        ordered
    }
}

fn ring_of(pts: &Vec<Vert>, start: usize, end: usize, leftward: bool) -> (ring: Vec<usize>)
    requires
        points_in_range(pts@),
        start <= end <= pts@.len(),
    ensures
        ring@ == spec_ring_of(pts@, start as int, end as int, leftward),
        ring_valid(pts@, ring@),
        ring@.len() <= end - start,
{
    let forward: bool = leftward == (signed_area(pts, start, end) > 0);
    let count: usize = end - start;
    let mut ring: Vec<usize> = Vec::new();
    let ghost fwd = Seq::new((end - start) as nat, |k: int| (start + k) as usize);
    let ghost ordered = if forward {
        fwd
    } else {
        fwd.reverse()
    };
    let mut k: usize = 0;
    while k < count
        invariant
            k <= count,
            count == end - start,
            end <= pts@.len(),
            fwd == Seq::new((end - start) as nat, |k: int| (start + k) as usize),
            ordered == if forward {
                fwd
            } else {
                fwd.reverse()
            },
            ring@ == ordered.take(k as int),
        decreases count - k,
    {
        let id: usize = if forward {
            start + k
        } else {
            end - 1 - k
        };
        ring.push(id);
        assert(ring@ =~= ordered.take(k + 1));
        k = k + 1;
    }
    assert(ordered.take(count as int) =~= ordered);
    assert forall|i: int| 0 <= i < ordered.len() implies (#[trigger] ordered[i]) < pts@.len() by {}
    if count > 1 {
        let last: Vert = pts[ring[count - 1]];
        let first: Vert = pts[ring[0]];
        if last == first {
            ring.pop();
            assert(ring@ =~= ordered.drop_last());
        }
    }
    ring
}

/// `a` lies to the left of `b`, or straight below it.
pub open spec fn left_of(a: Vert, b: Vert) -> bool {
    a.x < b.x || (a.x == b.x && a.y < b.y)
}

/// Place `k` holds the leftmost point of the ring, the lowest of them
/// where several are as far left, and is the first place to hold it.
pub open spec fn is_leftmost(pts: Seq<Vert>, ring: Seq<usize>, k: int) -> bool {
    &&& 0 <= k < ring.len()
    &&& forall|j: int|
        0 <= j < ring.len() ==> (j < k ==> left_of(at(pts, ring, k), #[trigger] at(pts, ring, j)))
            && (j >= k ==> !left_of(at(pts, ring, j), at(pts, ring, k)))
}

fn get_leftmost(pts: &Vec<Vert>, ring: &Vec<usize>) -> (k: usize)
    requires
        ring_valid(pts@, ring@),
        ring@.len() > 0,
    ensures
        is_leftmost(pts@, ring@, k as int),
{
    let n: usize = ring.len();
    let mut best: usize = 0;
    let mut i: usize = 1;
    while i < n
        invariant
            1 <= i <= n,
            n == ring@.len(),
            ring_valid(pts@, ring@),
            best < i,
            forall|j: int|
                0 <= j < i ==> (j < best ==> left_of(
                    at(pts@, ring@, best as int),
                    #[trigger] at(pts@, ring@, j),
                )) && (j >= best ==> !left_of(at(pts@, ring@, j), at(pts@, ring@, best as int))),
        decreases n - i,
    {
        let p: Vert = pts[ring[i]];
        let b: Vert = pts[ring[best]];
        if p.x < b.x || (p.x == b.x && p.y < b.y) {
            best = i;
        }
        i = i + 1;
    }
    best
}

/// The leftmost place of a ring is one place only.
pub proof fn lemma_leftmost_unique(pts: Seq<Vert>, ring: Seq<usize>, k: int, k2: int)
    requires
        is_leftmost(pts, ring, k),
        is_leftmost(pts, ring, k2),
    ensures
        k == k2,
{
    if k < k2 {
        assert(left_of(at(pts, ring, k2), at(pts, ring, k)));
    }
    if k2 < k {
        assert(left_of(at(pts, ring, k), at(pts, ring, k2)));
    }
}

/// A hole ring turned so that it starts at its leftmost place.
pub open spec fn spec_hole_from_leftmost(pts: Seq<Vert>, ring: Seq<usize>) -> Seq<usize> {
    let k = choose|k: int| is_leftmost(pts, ring, k);
    arc(ring, k, ring.len() as int)
}

/// Where a hole that starts at abscissa `x` goes in a queue ordered by
/// where its holes start: before the first one, at or after place `i`,
/// that starts further right.
pub open spec fn queue_place(pts: Seq<Vert>, queue: Seq<Seq<usize>>, x: int, i: int) -> int
    decreases queue.len() - i,
{
    if i >= queue.len() {
        queue.len() as int
    } else if pts[queue[i][0] as int].x > x {
        i
    } else {
        queue_place(pts, queue, x, i + 1)
    }
}

/// The queue with one more hole.
pub open spec fn spec_enqueue(pts: Seq<Vert>, queue: Seq<Seq<usize>>, hole: Seq<usize>) -> Seq<
    Seq<usize>,
> {
    queue.insert(queue_place(pts, queue, pts[hole[0] as int].x as int, 0), hole)
}

/// Every ring of the queue has a place and names points.
pub open spec fn queue_valid(pts: Seq<Vert>, queue: Seq<Vec<usize>>) -> bool {
    forall|i: int|
        0 <= i < queue.len() ==> (#[trigger] queue[i])@.len() > 0 && ring_valid(pts, queue[i]@)
}

/// The rings of a queue as plain sequences.
pub open spec fn queue_view(queue: Seq<Vec<usize>>) -> Seq<Seq<usize>> {
    Seq::new(queue.len(), |i: int| queue[i]@)
}

fn enqueue(pts: &Vec<Vert>, queue: &mut Vec<Vec<usize>>, hole: Vec<usize>)
    requires
        queue_valid(pts@, old(queue)@),
        hole@.len() > 0,
        ring_valid(pts@, hole@),
    ensures
        queue_valid(pts@, final(queue)@),
        queue_view(final(queue)@) == spec_enqueue(pts@, queue_view(old(queue)@), hole@),
{
    let x: i64 = pts[hole[0]].x;
    let n: usize = queue.len();
    let ghost qv = queue_view(queue@);
    let mut i: usize = 0;
    while i < n && pts[queue[i][0]].x <= x
        invariant
            i <= n,
            n == queue@.len(),
            qv == queue_view(queue@),
            queue_valid(pts@, queue@),
            queue_place(pts@, qv, x as int, 0) == queue_place(pts@, qv, x as int, i as int),
        decreases n - i,
    {
        assert(qv[i as int] == queue@[i as int]@);
        i = i + 1;
    }
    proof {
        if i < n {
            assert(qv[i as int] == queue@[i as int]@);
        }
    }
    let ghost before = queue@;
    queue.insert(i, hole);
    proof {
        assert(queue_view(queue@) =~= qv.insert(i as int, hole@));
        assert forall|k: int| 0 <= k < queue@.len() implies (#[trigger] queue@[k])@.len() > 0
            && ring_valid(pts@, queue@[k]@) by {
            if k < i {
                assert(queue@[k] == before[k]);
            } else if k > i {
                assert(queue@[k] == before[k - 1]);
            }
        }
    }
}


/// Denominator of the abscissa at which the side from `p` down to `q`
/// meets a level line; positive for a side that runs downwards.
pub open spec fn hit_den(p: Vert, q: Vert) -> int {
    p.y - q.y
}

/// Numerator of the abscissa at which the side from `p` to `q` meets the
/// level line at height `hy`.
pub open spec fn hit_num(p: Vert, q: Vert, hy: int) -> int {
    p.x * (p.y - q.y) + (p.y - hy) * (q.x - p.x)
}

/// The side that leaves place `k` runs downwards across the height of
/// `h` and meets a ray from `h` to the left.
pub open spec fn ray_hits(pts: Seq<Vert>, ring: Seq<usize>, k: int, h: Vert) -> bool {
    let n = ring.len() as int;
    let p = at(pts, ring, k);
    let q = at(pts, ring, next_pos(k, n));
    &&& 0 <= k < n
    &&& h.y <= p.y
    &&& h.y >= q.y
    &&& q.y != p.y
    &&& hit_num(p, q, h.y as int) <= h.x * hit_den(p, q)
}

/// The side that leaves place `j` meets the level of `h` further left
/// than the side that leaves place `k`.
pub open spec fn hits_left_of(pts: Seq<Vert>, ring: Seq<usize>, j: int, k: int, h: Vert) -> bool {
    let n = ring.len() as int;
    hit_num(at(pts, ring, j), at(pts, ring, next_pos(j, n)), h.y as int) * hit_den(
        at(pts, ring, k),
        at(pts, ring, next_pos(k, n)),
    ) < hit_num(at(pts, ring, k), at(pts, ring, next_pos(k, n)), h.y as int) * hit_den(
        at(pts, ring, j),
        at(pts, ring, next_pos(j, n)),
    )
}

/// Among the first `m` sides, the one that leaves place `k` is met first
/// by a ray from `h` to the left, and is the first of them where several
/// are met at one point.
pub open spec fn is_nearest_hit_to(pts: Seq<Vert>, ring: Seq<usize>, h: Vert, k: int, m: int) -> bool {
    &&& k < m
    &&& ray_hits(pts, ring, k, h)
    &&& forall|j: int|
        j < m && #[trigger] ray_hits(pts, ring, j, h) ==> (j < k ==> hits_left_of(
            pts,
            ring,
            j,
            k,
            h,
        )) && (j >= k ==> !hits_left_of(pts, ring, k, j, h))
}

pub open spec fn is_nearest_hit(pts: Seq<Vert>, ring: Seq<usize>, h: Vert, k: int) -> bool {
    is_nearest_hit_to(pts, ring, h, k, ring.len() as int)
}

/// At most one side is the nearest.
pub proof fn lemma_nearest_hit_unique(pts: Seq<Vert>, ring: Seq<usize>, h: Vert, k: int, k2: int)
    requires
        is_nearest_hit(pts, ring, h, k),
        is_nearest_hit(pts, ring, h, k2),
    ensures
        k == k2,
{
}

/// An abscissa as a fraction with a positive denominator.
#[derive(Clone, Copy, Debug)]
pub struct Hit {
    pub num: i128,
    pub den: i128,
}

fn hit_of(p: &Vert, q: &Vert, hy: i64) -> (x: Hit)
    requires
        p.in_range(),
        q.in_range(),
        -COORD_MAX <= hy <= COORD_MAX,
        q.y < p.y,
    ensures
        x.num == hit_num(*p, *q, hy as int),
        x.den == hit_den(*p, *q),
        0 < x.den <= 0x4000_0000,
        -0x2000_0000_0000_0000 <= x.num <= 0x2000_0000_0000_0000,
{
    let den: i128 = (p.y as i128) - (q.y as i128);
    let dy: i128 = (p.y as i128) - (hy as i128);
    let dx: i128 = (q.x as i128) - (p.x as i128);
    proof {
        lemma_mul_bounds(p.x as int, den as int, 0x2000_0000, 0x4000_0000);
        lemma_mul_bounds(dy as int, dx as int, 0x4000_0000, 0x4000_0000);
    }
    Hit { num: (p.x as i128) * den + dy * dx, den }
}

/// The side of the ring that a ray from `h` to the left meets first, by
/// the place it leaves.
fn nearest_hit(pts: &Vec<Vert>, ring: &Vec<usize>, h: &Vert) -> (r: Option<(usize, Hit)>)
    requires
        points_in_range(pts@),
        ring_valid(pts@, ring@),
        h.in_range(),
    ensures
        match r {
            Some((k, x)) => is_nearest_hit(pts@, ring@, *h, k as int) && x.num == hit_num(
                at(pts@, ring@, k as int),
                at(pts@, ring@, next_pos(k as int, ring@.len() as int)),
                h.y as int,
            ) && x.den == hit_den(
                at(pts@, ring@, k as int),
                at(pts@, ring@, next_pos(k as int, ring@.len() as int)),
            ) && 0 < x.den <= 0x4000_0000 && -0x2000_0000_0000_0000 <= x.num
                <= 0x2000_0000_0000_0000,
            None => forall|j: int| !ray_hits(pts@, ring@, j, *h),
        },
{
    let n: usize = ring.len();
    let mut best: Option<(usize, Hit)> = None;
    let mut k: usize = 0;
    while k < n
        invariant
            k <= n,
            n == ring@.len(),
            points_in_range(pts@),
            ring_valid(pts@, ring@),
            h.in_range(),
            match best {
                Some((b, x)) => is_nearest_hit_to(pts@, ring@, *h, b as int, k as int) && x.num
                    == hit_num(
                    at(pts@, ring@, b as int),
                    at(pts@, ring@, next_pos(b as int, n as int)),
                    h.y as int,
                ) && x.den == hit_den(
                    at(pts@, ring@, b as int),
                    at(pts@, ring@, next_pos(b as int, n as int)),
                ) && 0 < x.den <= 0x4000_0000 && -0x2000_0000_0000_0000 <= x.num
                    <= 0x2000_0000_0000_0000,
                None => forall|j: int| j < k ==> !ray_hits(pts@, ring@, j, *h),
            },
        decreases n - k,
    {
        let p: Vert = pts[ring[k]];
        let q: Vert = pts[ring[next_index(k, n)]];
        if h.y <= p.y && h.y >= q.y && q.y != p.y {
            let x = hit_of(&p, &q, h.y);
            proof {
                lemma_mul_bounds(h.x as int, x.den as int, 0x2000_0000, 0x4000_0000);
            }
            if x.num <= (h.x as i128) * x.den {
                let replace = match best {
                    Some((b, y)) => {
                        proof {
                            lemma_mul_bounds(
                                x.num as int,
                                y.den as int,
                                0x2000_0000_0000_0000,
                                0x4000_0000,
                            );
                            lemma_mul_bounds(
                                y.num as int,
                                x.den as int,
                                0x2000_0000_0000_0000,
                                0x4000_0000,
                            );
                        }
                        let further = y.num * x.den < x.num * y.den;
                        proof {
                            assert forall|j: int|
                                j < k + 1 && #[trigger] ray_hits(pts@, ring@, j, *h)
                                    && further implies (j < k ==> hits_left_of(
                                pts@,
                                ring@,
                                j,
                                k as int,
                                *h,
                            )) && (j >= k ==> !hits_left_of(pts@, ring@, k as int, j, *h)) by {
                                if j < k {
                                    lemma_ratio_order(
                                        hit_num(
                                            at(pts@, ring@, j),
                                            at(pts@, ring@, next_pos(j, n as int)),
                                            h.y as int,
                                        ),
                                        hit_den(
                                            at(pts@, ring@, j),
                                            at(pts@, ring@, next_pos(j, n as int)),
                                        ),
                                        y.num as int,
                                        y.den as int,
                                        x.num as int,
                                        x.den as int,
                                    );
                                }
                            }
                        }
                        further
                    },
                    None => true,
                };
                if replace {
                    best = Some((k, x));
                }
            }
        }
        k = k + 1;
    }
    best
}

/// The point of place `p` lies in the triangle between `h`, the point
/// where the ray from `h` met the ring, at abscissa `qn / qd`, and the
/// point `m`; on its border counts.
pub open spec fn in_bridge_triangle(h: Vert, m: Vert, qn: int, qd: int, p: Vert) -> bool {
    let hx = h.x * qd;
    let ax = if h.y < m.y { hx } else { qn };
    let cx = if h.y < m.y { qn } else { hx };
    let bx = m.x * qd;
    let px = p.x * qd;
    &&& (cx - px) * (h.y - p.y) >= (ax - px) * (h.y - p.y)
    &&& (ax - px) * (m.y - p.y) >= (bx - px) * (h.y - p.y)
    &&& (bx - px) * (h.y - p.y) >= (cx - px) * (m.y - p.y)
}

fn point_in_bridge_triangle(h: &Vert, m: &Vert, q: &Hit, p: &Vert) -> (r: bool)
    requires
        h.in_range(),
        m.in_range(),
        p.in_range(),
        0 < q.den <= 0x4000_0000,
        -0x2000_0000_0000_0000 <= q.num <= 0x2000_0000_0000_0000,
    ensures
        r == in_bridge_triangle(*h, *m, q.num as int, q.den as int, *p),
{
    proof {
        lemma_mul_bounds(h.x as int, q.den as int, 0x2000_0000, 0x4000_0000);
        lemma_mul_bounds(m.x as int, q.den as int, 0x2000_0000, 0x4000_0000);
        lemma_mul_bounds(p.x as int, q.den as int, 0x2000_0000, 0x4000_0000);
    }
    let hx: i128 = (h.x as i128) * q.den;
    let ax: i128 = if h.y < m.y { hx } else { q.num };
    let cx: i128 = if h.y < m.y { q.num } else { hx };
    let bx: i128 = (m.x as i128) * q.den;
    let px: i128 = (p.x as i128) * q.den;
    let hp: i128 = (h.y as i128) - (p.y as i128);
    let mp: i128 = (m.y as i128) - (p.y as i128);
    proof {
        lemma_mul_bounds((cx - px) as int, hp as int, 0x4000_0000_0000_0000, 0x4000_0000);
        lemma_mul_bounds((ax - px) as int, hp as int, 0x4000_0000_0000_0000, 0x4000_0000);
        lemma_mul_bounds((ax - px) as int, mp as int, 0x4000_0000_0000_0000, 0x4000_0000);
        lemma_mul_bounds((bx - px) as int, hp as int, 0x4000_0000_0000_0000, 0x4000_0000);
        lemma_mul_bounds((cx - px) as int, mp as int, 0x4000_0000_0000_0000, 0x4000_0000);
    }
    (cx - px) * hp >= (ax - px) * hp && (ax - px) * mp >= (bx - px) * hp && (bx - px) * hp >= (cx
        - px) * mp
}

/// The place `p` may serve as the end of a bridge to `h`: its point lies
/// no further right than `h` and no further left than `m0`, not straight
/// above or below `h`, and in the triangle that the ray cuts off.
pub open spec fn bridge_candidate(
    pts: Seq<Vert>,
    ring: Seq<usize>,
    h: Vert,
    m0: Vert,
    qn: int,
    qd: int,
    p: int,
) -> bool {
    let v = at(pts, ring, p);
    &&& h.x >= v.x
    &&& v.x >= m0.x
    &&& h.x != v.x
    &&& in_bridge_triangle(h, m0, qn, qd, v)
}

/// The wedge of the ring at place `m` holds the wedge at place `p`.
pub open spec fn sector_contains_sector(pts: Seq<Vert>, ring: Seq<usize>, m: int, p: int) -> bool {
    let n = ring.len() as int;
    &&& area2(at(pts, ring, prev_pos(m, n)), at(pts, ring, m), at(pts, ring, prev_pos(p, n))) > 0
    &&& area2(at(pts, ring, next_pos(p, n)), at(pts, ring, m), at(pts, ring, next_pos(m, n))) > 0
}

/// The place `p` makes a better end for the bridge to `h` than the place
/// `m` chosen so far: the bridge leaves the ring inwards, and it is less
/// steep than the steepness `tn / td` of the bridge to `m`; or as steep,
/// with `p` further right, or holding the same abscissa in a wedge that
/// the wedge at `m` holds. A `td` of zero says that none was chosen yet.
pub open spec fn bridge_better(
    pts: Seq<Vert>,
    ring: Seq<usize>,
    h: Vert,
    p: int,
    m: int,
    tn: int,
    td: int,
) -> bool {
    let v = at(pts, ring, p);
    let w = at(pts, ring, m);
    let pn = if h.y >= v.y { h.y - v.y } else { v.y - h.y };
    let pd = h.x - v.x;
    &&& spec_locally_inside_point(pts, ring, p, h)
    &&& (td == 0 || pn * td < tn * pd || (pn * td == tn * pd && (v.x > w.x || (v.x == w.x
        && sector_contains_sector(pts, ring, m, p)))))
}

/// The end of the bridge to `h` that is chosen among the places from the
/// `k`-th after `start` on, going round the ring once, when `m` with the
/// steepness `tn / td` has been chosen among those before.
pub open spec fn bridge_scan(
    pts: Seq<Vert>,
    ring: Seq<usize>,
    h: Vert,
    start: int,
    qn: int,
    qd: int,
    k: int,
    m: int,
    tn: int,
    td: int,
) -> int
    decreases ring.len() - k,
{
    let n = ring.len() as int;
    if k >= n {
        m
    } else {
        let p = wrap(start, k, n);
        let v = at(pts, ring, p);
        if bridge_candidate(pts, ring, h, at(pts, ring, start), qn, qd, p) && bridge_better(
            pts,
            ring,
            h,
            p,
            m,
            tn,
            td,
        ) {
            bridge_scan(
                pts,
                ring,
                h,
                start,
                qn,
                qd,
                k + 1,
                p,
                if h.y >= v.y {
                    h.y - v.y
                } else {
                    v.y - h.y
                },
                h.x - v.x,
            )
        } else {
            bridge_scan(pts, ring, h, start, qn, qd, k + 1, m, tn, td)
        }
    }
}

/// The place of the ring at which a bridge to the point `h` ends; none
/// when no side of the ring lies to the left of `h`.
///
/// A ray from `h` to the left meets a side of the ring first. The end of
/// that side that lies further left is the bridge's end if the ray meets
/// the side at `h` itself. Otherwise the places are gone through once
/// round from that end, and the best of those in the triangle between
/// `h`, the meeting point and that end is chosen.
pub open spec fn spec_find_bridge(pts: Seq<Vert>, ring: Seq<usize>, h: Vert) -> Option<int> {
    if exists|k: int| is_nearest_hit(pts, ring, h, k) {
        let n = ring.len() as int;
        let k = choose|k: int| is_nearest_hit(pts, ring, h, k);
        let p = at(pts, ring, k);
        let q = at(pts, ring, next_pos(k, n));
        let m0 = if p.x < q.x { k } else { next_pos(k, n) };
        let qn = hit_num(p, q, h.y as int);
        let qd = hit_den(p, q);
        if qn == h.x * qd {
            Some(m0)
        } else {
            Some(bridge_scan(pts, ring, h, m0, qn, qd, 0, m0, 0, 0))
        }
    } else {
        None
    }
}

pub fn find_hole_bridge(pts: &Vec<Vert>, ring: &Vec<usize>, h: &Vert) -> (r: Option<usize>)
    requires
        points_in_range(pts@),
        ring_valid(pts@, ring@),
        h.in_range(),
    ensures
        match r {
            Some(m) => spec_find_bridge(pts@, ring@, *h) == Some(m as int) && m < ring@.len(),
            None => spec_find_bridge(pts@, ring@, *h) is None,
        },
{
    let n: usize = ring.len();
    let (k, q) = match nearest_hit(pts, ring, h) {
        Some(found) => found,
        None => {
            return None;
        },
    };
    proof {
        assert forall|k2: int| is_nearest_hit(pts@, ring@, *h, k2) implies k2 == k by {
            lemma_nearest_hit_unique(pts@, ring@, *h, k2, k as int);
        }
        lemma_mul_bounds(h.x as int, q.den as int, 0x2000_0000, 0x4000_0000);
    }
    let kn: usize = next_index(k, n);
    let start: usize = if pts[ring[k]].x < pts[ring[kn]].x {
        k
    } else {
        kn
    };
    if q.num == (h.x as i128) * q.den {
        return Some(start);
    }
    let m0: Vert = pts[ring[start]];
    let mut m: usize = start;
    let mut tn: i128 = 0;
    let mut td: i128 = 0;
    let mut i: usize = 0;
    while i < n
        invariant
            i <= n,
            n == ring@.len(),
            start < n,
            m < n,
            points_in_range(pts@),
            ring_valid(pts@, ring@),
            h.in_range(),
            m0 == at(pts@, ring@, start as int),
            0 < q.den <= 0x4000_0000,
            -0x2000_0000_0000_0000 <= q.num <= 0x2000_0000_0000_0000,
            0 <= tn <= 0x4000_0000,
            0 <= td <= 0x4000_0000,
            bridge_scan(
                pts@,
                ring@,
                *h,
                start as int,
                q.num as int,
                q.den as int,
                0,
                start as int,
                0,
                0,
            ) == bridge_scan(
                pts@,
                ring@,
                *h,
                start as int,
                q.num as int,
                q.den as int,
                i as int,
                m as int,
                tn as int,
                td as int,
            ),
        decreases n - i,
    {
        let p: usize = wrap_index(start, i, n);
        let v: Vert = pts[ring[p]];
        let mut take: bool = false;
        if h.x >= v.x && v.x >= m0.x && h.x != v.x && point_in_bridge_triangle(h, &m0, &q, &v) {
            let pn: i128 = if h.y >= v.y {
                (h.y as i128) - (v.y as i128)
            } else {
                (v.y as i128) - (h.y as i128)
            };
            let pd: i128 = (h.x as i128) - (v.x as i128);
            proof {
                lemma_mul_bounds(pn as int, td as int, 0x4000_0000, 0x4000_0000);
                lemma_mul_bounds(tn as int, pd as int, 0x4000_0000, 0x4000_0000);
            }
            if locally_inside_point(pts, ring, p, h) {
                if td == 0 || pn * td < tn * pd {
                    take = true;
                } else if pn * td == tn * pd {
                    let w: Vert = pts[ring[m]];
                    if v.x > w.x {
                        take = true;
                    } else if v.x == w.x {
                        let a1 = area(
                            &pts[ring[prev_index(m, n)]],
                            &pts[ring[m]],
                            &pts[ring[prev_index(p, n)]],
                        );
                        let a2 = area(
                            &pts[ring[next_index(p, n)]],
                            &pts[ring[m]],
                            &pts[ring[next_index(m, n)]],
                        );
                        take = a1 > 0 && a2 > 0;
                    }
                }
            }
            if take {
                m = p;
                tn = pn;
                td = pd;
            }
        }
        i = i + 1;
    }
    Some(m)
}

/// The ring with a hole let into it at place `m`: the ring up to `m`, the
/// hole once round and back at its first place, `m` again, and the rest
/// of the ring.
pub open spec fn spec_merge(ring: Seq<usize>, m: int, hole: Seq<usize>) -> Seq<usize> {
    ring.subrange(0, m + 1) + hole + seq![hole[0], ring[m]] + ring.subrange(
        m + 1,
        ring.len() as int,
    )
}

fn merge_hole(ring: &Vec<usize>, m: usize, hole: &Vec<usize>) -> (out: Vec<usize>)
    requires
        m < ring@.len(),
        hole@.len() > 0,
    ensures
        out@ == spec_merge(ring@, m as int, hole@),
{
    let n: usize = ring.len();
    let mut out: Vec<usize> = Vec::new();
    let mut i: usize = 0;
    while i <= m
        invariant
            i <= m + 1,
            m < n,
            n == ring@.len(),
            out@ == ring@.subrange(0, i as int),
        decreases m + 1 - i,
    {
        out.push(ring[i]);
        assert(out@ =~= ring@.subrange(0, i + 1));
        i = i + 1;
    }
    let mut j: usize = 0;
    while j < hole.len()
        invariant
            j <= hole@.len(),
            out@ == ring@.subrange(0, m + 1) + hole@.take(j as int),
        decreases hole@.len() - j,
    {
        out.push(hole[j]);
        assert(out@ =~= ring@.subrange(0, m + 1) + hole@.take(j + 1));
        j = j + 1;
    }
    assert(hole@.take(hole@.len() as int) =~= hole@);
    out.push(hole[0]);
    out.push(ring[m]);
    let ghost head = out@;
    assert(head =~= ring@.subrange(0, m + 1) + hole@ + seq![hole@[0], ring@[m as int]]);
    let mut k: usize = m + 1;
    while k < n
        invariant
            m + 1 <= k <= n,
            n == ring@.len(),
            out@ == head + ring@.subrange(m + 1, k as int),
        decreases n - k,
    {
        out.push(ring[k]);
        assert(out@ =~= head + ring@.subrange(m + 1, k + 1));
        k = k + 1;
    }
    out
}

/// A ring with a hole let into it names points if the ring and the hole
/// do.
pub proof fn lemma_merge_valid(pts: Seq<Vert>, ring: Seq<usize>, m: int, hole: Seq<usize>)
    requires
        ring_valid(pts, ring),
        ring_valid(pts, hole),
        0 <= m < ring.len(),
        hole.len() > 0,
    ensures
        ring_valid(pts, spec_merge(ring, m, hole)),
{
    let r = spec_merge(ring, m, hole);
    let head = ring.subrange(0, m + 1);
    assert forall|i: int| 0 <= i < r.len() implies (#[trigger] r[i]) < pts.len() by {
        if i < head.len() {
            assert(r[i] == ring[i]);
        } else if i < head.len() + hole.len() {
            assert(r[i] == hole[i - head.len()]);
        } else if i == head.len() + hole.len() {
            assert(r[i] == hole[0]);
        } else if i == head.len() + hole.len() + 1 {
            assert(r[i] == ring[m]);
        } else {
            assert(r[i] == ring[i - hole.len() - 2]);
        }
    }
}

/// The ring after the holes of the queue, from the `i`-th on, have been
/// let into it one after the other; none when a hole has no side of the
/// ring to its left.
pub open spec fn spec_eliminate(pts: Seq<Vert>, ring: Seq<usize>, queue: Seq<Seq<usize>>, i: int) -> Option<
    Seq<usize>,
>
    decreases queue.len() - i,
{
    if i >= queue.len() {
        Some(ring)
    } else {
        match spec_find_bridge(pts, ring, pts[queue[i][0] as int]) {
            Some(m) => spec_eliminate(pts, spec_merge(ring, m, queue[i]), queue, i + 1),
            None => None,
        }
    }
}

fn eliminate_holes(pts: &Vec<Vert>, outer: Vec<usize>, queue: &Vec<Vec<usize>>) -> (r: Option<
    Vec<usize>,
>)
    requires
        points_in_range(pts@),
        ring_valid(pts@, outer@),
        queue_valid(pts@, queue@),
    ensures
        match r {
            Some(ring) => spec_eliminate(pts@, outer@, queue_view(queue@), 0) == Some(ring@)
                && ring_valid(pts@, ring@),
            None => spec_eliminate(pts@, outer@, queue_view(queue@), 0) is None,
        },
{
    let mut ring = outer;
    let mut i: usize = 0;
    let ghost qv = queue_view(queue@);
    while i < queue.len()
        invariant
            i <= queue@.len(),
            qv == queue_view(queue@),
            points_in_range(pts@),
            ring_valid(pts@, ring@),
            queue_valid(pts@, queue@),
            spec_eliminate(pts@, outer@, qv, 0) == spec_eliminate(pts@, ring@, qv, i as int),
        decreases queue@.len() - i,
    {
        let hole = &queue[i];
        assert(qv[i as int] == hole@);
        let h: Vert = pts[hole[0]];
        match find_hole_bridge(pts, &ring, &h) {
            None => {
                return None;
            },
            Some(m) => {
                proof {
                    lemma_merge_valid(pts@, ring@, m as int, hole@);
                }
                ring = merge_hole(&ring, m, hole);
            },
        }
        i = i + 1;
    }
    Some(ring)
}


/// The hole starts are in order and none lies past the last point.
pub open spec fn holes_valid(holes: Seq<usize>, n: int) -> bool {
    &&& forall|i: int| 0 <= i < holes.len() ==> (#[trigger] holes[i]) <= n
    &&& forall|i: int, j: int| 0 <= i <= j < holes.len() ==> holes[i] <= holes[j]
}

/// What `earcut` takes: points of two coordinates each, within
/// `COORD_MAX` of zero, and hole starts in order.
pub open spec fn input_valid(data: Seq<i64>, holes: Seq<usize>, dims: usize) -> bool {
    &&& dims == 2
    &&& data.len() % 2 == 0
    &&& coords_in_range(data)
    &&& holes_valid(holes, data.len() as int / 2)
}

/// The point after the last one of hole `k`.
pub open spec fn hole_end(holes: Seq<usize>, n: int, k: int) -> int {
    if k + 1 < holes.len() {
        holes[k + 1] as int
    } else {
        n
    }
}

/// The queue of the first `k` holes: each as a ring that goes round to
/// the right and starts at its leftmost place, ordered by where they
/// start, from the left; holes that start at one abscissa keep their
/// order. A hole without a point is left out.
pub open spec fn spec_queue(pts: Seq<Vert>, holes: Seq<usize>, k: int) -> Seq<Seq<usize>>
    decreases k,
{
    if k <= 0 {
        Seq::empty()
    } else {
        let before = spec_queue(pts, holes, k - 1);
        let ring = spec_ring_of(
            pts,
            holes[k - 1] as int,
            hole_end(holes, pts.len() as int, k - 1),
            false,
        );
        if ring.len() == 0 {
            before
        } else {
            spec_enqueue(pts, before, spec_hole_from_leftmost(pts, ring))
        }
    }
}

/// The triangles that ear cutting makes of a polygon with holes, as
/// point names, three for each triangle; none when it fails.
///
/// The points before the first hole start make the outer ring, taken to
/// go round to the left. With fewer than three places it gives no
/// triangle. Otherwise the holes are let into it, from the left, and what
/// results is cut into triangles.
pub open spec fn spec_earcut(data: Seq<i64>, holes: Seq<usize>) -> Option<Seq<usize>> {
    let pts = spec_points(data);
    let outer_end = if holes.len() > 0 {
        holes[0] as int
    } else {
        pts.len() as int
    };
    let outer = spec_ring_of(pts, 0, outer_end, true);
    if outer.len() < 3 {
        Some(Seq::empty())
    } else {
        match spec_eliminate(pts, outer, spec_queue(pts, holes, holes.len() as int), 0) {
            Some(ring) => spec_cut(pts, ring, Seq::empty()),
            None => None,
        }
    }
}

fn hole_queue(pts: &Vec<Vert>, hole_indices: &Vec<usize>) -> (queue: Vec<Vec<usize>>)
    requires
        points_in_range(pts@),
        holes_valid(hole_indices@, pts@.len() as int),
    ensures
        queue_valid(pts@, queue@),
        queue_view(queue@) == spec_queue(pts@, hole_indices@, hole_indices@.len() as int),
{
    let mut queue: Vec<Vec<usize>> = Vec::new();
    let count: usize = hole_indices.len();
    let n: usize = pts.len();
    let mut k: usize = 0;
    assert(queue_view(queue@) =~= spec_queue(pts@, hole_indices@, 0));
    while k < count
        invariant
            k <= count,
            count == hole_indices@.len(),
            n == pts@.len(),
            points_in_range(pts@),
            holes_valid(hole_indices@, pts@.len() as int),
            queue_valid(pts@, queue@),
            queue_view(queue@) == spec_queue(pts@, hole_indices@, k as int),
        decreases count - k,
    {
        let start: usize = hole_indices[k];
        let end: usize = if k + 1 < count {
            hole_indices[k + 1]
        } else {
            n
        };
        let ring = ring_of(pts, start, end, false);
        if ring.len() > 0 {
            let left: usize = get_leftmost(pts, &ring);
            proof {
                assert forall|k2: int| is_leftmost(pts@, ring@, k2) implies k2 == left by {
                    lemma_leftmost_unique(pts@, ring@, k2, left as int);
                }
            }
            let mut turned: Vec<usize> = Vec::new();
            push_arc(&ring, left, ring.len(), &mut turned);
            proof {
                assert(turned@ =~= spec_hole_from_leftmost(pts@, ring@));
                assert forall|i: int| 0 <= i < turned@.len() implies (#[trigger] turned@[i])
                    < pts@.len() by {
                    assert(turned@[i] == ring@[wrap(left as int, i, ring@.len() as int)]);
                }
            }
            enqueue(pts, &mut queue, turned);
        }
        k = k + 1;
    }
    queue
}

/// Cuts a polygon with holes into triangles.
///
/// `data` holds the points, two coordinates each; the points before the
/// first entry of `hole_indices` make the outer ring, and each entry is
/// the position of the first point of a hole. The result names, three by
/// three, the points of triangles that go round to the left.
pub fn earcut(data: &Vec<i64>, hole_indices: &Vec<usize>, dims: usize) -> (r: Result<
    Vec<usize>,
    PipelineError,
>)
    requires
        input_valid(data@, hole_indices@, dims),
    ensures
        match r {
            Ok(t) => spec_earcut(data@, hole_indices@) == Some(t@) && triangles_valid(
                spec_points(data@),
                t@,
            ),
            Err(e) => e == PipelineError::TriangulationFailed && spec_earcut(
                data@,
                hole_indices@,
            ) is None,
        },
{
    let pts = points_of(data);
    let n: usize = pts.len();
    let outer_end: usize = if hole_indices.len() > 0 {
        hole_indices[0]
    } else {
        n
    };
    let outer = ring_of(&pts, 0, outer_end, true);
    let mut triangles: Vec<usize> = Vec::new();
    if outer.len() < 3 {
        return Ok(triangles);
    }
    let queue = hole_queue(&pts, hole_indices);
    match eliminate_holes(&pts, outer, &queue) {
        None => Err(PipelineError::TriangulationFailed),
        Some(ring) => {
            if earcut_ring(&pts, ring, &mut triangles) {
                Ok(triangles)
            } else {
                Err(PipelineError::TriangulationFailed)
            }
        },
    }
}

/// The coordinates of the first `k` points of a ring, one after the
/// other.
pub open spec fn ring_coords(ring: Seq<Seq<i64>>, k: int) -> Seq<i64>
    decreases k,
{
    if k <= 0 {
        Seq::empty()
    } else {
        ring_coords(ring, k - 1) + ring[k - 1]
    }
}

/// The coordinates of the first `k` rings of a polygon, one after the
/// other.
pub open spec fn polygon_coords(data: Seq<Seq<Seq<i64>>>, k: int) -> Seq<i64>
    decreases k,
{
    if k <= 0 {
        Seq::empty()
    } else {
        polygon_coords(data, k - 1) + ring_coords(data[k - 1], data[k - 1].len() as int)
    }
}

/// The number of points in the first `k` rings of a polygon.
pub open spec fn point_count(data: Seq<Seq<Seq<i64>>>, k: int) -> int
    decreases k,
{
    if k <= 0 {
        0
    } else {
        point_count(data, k - 1) + data[k - 1].len()
    }
}

/// Every point of the polygon has `dims` coordinates.
pub open spec fn uniform(data: Seq<Seq<Seq<i64>>>, dims: int) -> bool {
    forall|i: int, j: int|
        0 <= i < data.len() && 0 <= j < data[i].len() ==> (#[trigger] data[i][j]).len() == dims
}

/// The position, counted in points, of the first point of each ring but
/// the first.
pub open spec fn spec_hole_starts(data: Seq<Seq<Seq<i64>>>) -> Seq<usize> {
    Seq::new((data.len() - 1) as nat, |k: int| point_count(data, k + 1) as usize)
}

/// A ring of `k` points with `dims` coordinates each has `dims * k`
/// coordinates.
pub proof fn lemma_ring_coords_len(ring: Seq<Seq<i64>>, k: int, dims: int)
    requires
        0 <= k <= ring.len(),
        forall|j: int| 0 <= j < ring.len() ==> (#[trigger] ring[j]).len() == dims,
    ensures
        ring_coords(ring, k).len() == dims * k,
    decreases k,
{
    if k > 0 {
        lemma_ring_coords_len(ring, k - 1, dims);
        assert(dims * k == dims * (k - 1) + dims) by (nonlinear_arith);
    } else {
        assert(dims * k == 0) by (nonlinear_arith)
            requires
                k == 0,
        ;
    }
}

/// A polygon of points with `dims` coordinates each has `dims`
/// coordinates for every point.
pub proof fn lemma_polygon_coords_len(data: Seq<Seq<Seq<i64>>>, k: int, dims: int)
    requires
        0 <= k <= data.len(),
        uniform(data, dims),
    ensures
        polygon_coords(data, k).len() == dims * point_count(data, k),
        point_count(data, k) >= 0,
    decreases k,
{
    if k > 0 {
        lemma_polygon_coords_len(data, k - 1, dims);
        lemma_ring_coords_len(data[k - 1], data[k - 1].len() as int, dims);
        assert(dims * point_count(data, k) == dims * point_count(data, k - 1) + dims * data[k
            - 1].len()) by (nonlinear_arith)
            requires
                point_count(data, k) == point_count(data, k - 1) + data[k - 1].len(),
        ;
    } else {
        assert(dims * point_count(data, k) == 0) by (nonlinear_arith)
            requires
                point_count(data, k) == 0,
        ;
    }
}

/// Lays a polygon, given ring by ring and point by point, out flat: all
/// coordinates in one list, the position of the first point of each ring
/// but the first, and the number of coordinates of a point.
pub fn flatten(data: &Vec<Vec<Vec<i64>>>) -> (r: (Vec<i64>, Vec<usize>, usize))
    requires
        data@.len() > 0,
        data@[0]@.len() > 0,
        data@[0]@[0]@.len() > 0,
        uniform(data.deep_view(), data@[0]@[0]@.len() as int),
    ensures
        r.0@ == polygon_coords(data.deep_view(), data@.len() as int),
        r.1@ == spec_hole_starts(data.deep_view()),
        r.2 == data@[0]@[0]@.len(),
        r.0@.len() == r.2 * point_count(data.deep_view(), data@.len() as int),
{
    let mut flat: Vec<i64> = Vec::new();
    let mut holes: Vec<usize> = Vec::new();
    let rings: usize = data.len();
    let dims: usize = data[0][0].len();
    let ghost deep = data.deep_view();
    let mut points: usize = 0;
    let mut i: usize = 0;
    while i < rings
        invariant
            i <= rings,
            rings == data@.len(),
            rings > 0,
            dims >= 1,
            deep == data.deep_view(),
            uniform(deep, dims as int),
            points == point_count(deep, i as int),
            flat@ == polygon_coords(deep, i as int),
            holes@.len() == if i == 0 { 0 } else { i - 1 },
            forall|k: int| 0 <= k < holes@.len() ==> #[trigger] holes@[k] == point_count(deep, k + 1),
        decreases rings - i,
    {
        let ring = &data[i];
        if i > 0 {
            holes.push(points);
        }
        let count: usize = ring.len();
        let ghost before = flat@;
        let ghost deep_ring = deep[i as int];
        let mut j: usize = 0;
        assert(flat@ =~= before + ring_coords(deep_ring, 0));
        assert(deep_ring.len() == count);
        while j < count
            invariant
                j <= count,
                i < rings,
                rings == data@.len(),
                ring == data@[i as int],
                deep == data.deep_view(),
                deep_ring == deep[i as int],
                count == ring@.len(),
                flat@ == before + ring_coords(deep_ring, j as int),
            decreases count - j,
        {
            let point = &ring[j];
            let ghost sofar = flat@;
            let len: usize = point.len();
            let mut c: usize = 0;
            while c < len
                invariant
                    c <= len,
                    len == point@.len(),
                    flat@ == sofar + point@.take(c as int),
                decreases len - c,
            {
                flat.push(point[c]);
                assert(flat@ =~= sofar + point@.take(c + 1));
                c = c + 1;
            }
            assert(point@.take(len as int) =~= point@);
            assert(deep_ring[j as int] =~= point@);
            assert(flat@ =~= before + ring_coords(deep_ring, j + 1));
            j = j + 1;
        }
        let _filled: usize = flat.len();
        proof {
            lemma_polygon_coords_len(deep, i + 1, dims as int);
            assert(flat@ == polygon_coords(deep, i + 1));
            assert(point_count(deep, i + 1) == points + count);
            assert(point_count(deep, i + 1) <= dims * point_count(deep, i + 1)) by (nonlinear_arith)
                requires
                    dims >= 1,
                    point_count(deep, i + 1) >= 0,
            ;
        }
        points = points + count;
        i = i + 1;
    }
    proof {
        lemma_polygon_coords_len(deep, rings as int, dims as int);
        assert(holes@ =~= spec_hole_starts(deep));
    }
    (flat, holes, dims)
}

/// Cutting ears adds whole triangles to the list: three entries for each
/// place that leaves the ring.
pub proof fn lemma_clip_triples(pts: Seq<Vert>, ring: Seq<usize>, i: int, misses: int, out: Seq<usize>)
    ensures
        spec_clip(pts, ring, i, misses, out).1.len() == out.len() + 3 * (ring.len() - spec_clip(
            pts,
            ring,
            i,
            misses,
            out,
        ).0.len()),
    decreases ring.len(), ring.len() - misses,
{
    let n = ring.len() as int;
    if n < 3 || misses >= n || misses < 0 || i < 0 || i >= n {
    } else if spec_is_ear(pts, ring, i) {
        lemma_clip_triples(
            pts,
            ring.remove(i),
            next_pos(
                if i == n - 1 {
                    0
                } else {
                    i
                },
                n - 1,
            ),
            0,
            out.push(ring[prev_pos(i, n)]).push(ring[i]).push(ring[next_pos(i, n)]),
        );
    } else {
        lemma_clip_triples(pts, ring, next_pos(i, n), misses + 1, out);
    }
}

/// Ear cutting adds whole triangles to the list.
pub proof fn lemma_cut_triples(pts: Seq<Vert>, ring: Seq<usize>, out: Seq<usize>)
    ensures
        spec_cut(pts, ring, out) matches Some(more) ==> more.len() >= out.len() && (more.len()
            - out.len()) % 3 == 0,
    decreases ring.len(),
{
    let first = spec_clip(pts, ring, 0, 0, out);
    lemma_clip_triples(pts, ring, 0, 0, out);
    lemma_clip_shrinks(pts, ring, 0, 0, out);
    if first.0.len() >= 3 {
        let filtered = spec_filter(pts, first.0, 0, 0);
        let second = spec_clip(pts, filtered, 0, 0, first.1);
        lemma_filter_shrinks(pts, first.0, 0, 0);
        lemma_clip_triples(pts, filtered, 0, 0, first.1);
        lemma_clip_shrinks(pts, filtered, 0, 0, first.1);
        let left = second.0;
        if left.len() >= 3 && exists|cut: (int, int)| is_first_cut(pts, left, cut.0, cut.1) {
            let cut = choose|cut: (int, int)| is_first_cut(pts, left, cut.0, cut.1);
            assert(cut_at(pts, left, cut.0, cut.1));
            assert(far_half(left, cut.0, cut.1).len() == left.len() - cut.1 + 1);
            assert(near_half(left, cut.0, cut.1).len() == cut.1 + 1);
            lemma_cut_triples(pts, far_half(left, cut.0, cut.1), second.1);
            match spec_cut(pts, far_half(left, cut.0, cut.1), second.1) {
                Some(more) => {
                    lemma_cut_triples(pts, near_half(left, cut.0, cut.1), more);
                },
                None => {},
            }
        }
    }
}

/// The result of ear cutting lists whole triangles.
pub proof fn lemma_earcut_triples(data: Seq<i64>, holes: Seq<usize>)
    ensures
        spec_earcut(data, holes) matches Some(t) ==> t.len() % 3 == 0,
{
    let pts = spec_points(data);
    let outer_end = if holes.len() > 0 {
        holes[0] as int
    } else {
        pts.len() as int
    };
    let outer = spec_ring_of(pts, 0, outer_end, true);
    if outer.len() >= 3 {
        match spec_eliminate(pts, outer, spec_queue(pts, holes, holes.len() as int), 0) {
            Some(ring) => {
                lemma_cut_triples(pts, ring, Seq::empty());
            },
            None => {},
        }
    }
}

} // verus!
