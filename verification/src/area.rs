//! The area that ear cutting keeps: the triangles it makes of a ring have,
//! taken together, the area of the ring.

use vstd::prelude::*;
use crate::earcut::{
    arc, area2, at, bridge_better, bridge_candidate, bridge_scan, cut_at, far_half, hit_den,
    hit_num, is_first_cut, is_nearest_hit, is_spare, lemma_clip_shrinks, lemma_filter_shrinks,
    near_half, next_pos, prev_pos, spec_clip, spec_cut, spec_earcut, spec_eliminate, spec_enqueue,
    spec_filter, spec_find_bridge, spec_hole_from_leftmost, spec_is_ear, spec_merge, spec_points,
    spec_queue, spec_ring_of, wrap, hole_end, queue_place, holes_valid, is_leftmost, left_of,
    shoelace, shoelace_term, spec_signed_area,
};
use crate::vert::Vert;

verus! {

/// Twice the signed area of the triangle between the origin, `p` and `q`.
pub open spec fn cross(p: Vert, q: Vert) -> int {
    p.x * q.y - p.y * q.x
}

/// The sum of `cross` over the sides of the open path `s`.
pub open spec fn path_area(s: Seq<Vert>) -> int
    decreases s.len(),
{
    if s.len() <= 1 {
        0
    } else {
        path_area(s.drop_last()) + cross(s[s.len() - 2], s[s.len() - 1])
    }
}

/// Twice the signed area of the polygon with the corners `s`, the last
/// joined to the first: positive when it goes round to the left.
pub open spec fn closed_area(s: Seq<Vert>) -> int {
    if s.len() == 0 {
        0
    } else {
        path_area(s) + cross(s.last(), s[0])
    }
}

/// The points that the places of a ring name.
pub open spec fn poly(pts: Seq<Vert>, ring: Seq<usize>) -> Seq<Vert> {
    Seq::new(ring.len(), |k: int| pts[ring[k] as int])
}

/// Twice the signed area of a ring of places.
pub open spec fn ring_area(pts: Seq<Vert>, ring: Seq<usize>) -> int {
    closed_area(poly(pts, ring))
}

/// Twice the area of the first `k` triangles of `tris`, added up.
pub open spec fn triangles_area(pts: Seq<Vert>, tris: Seq<usize>, k: int) -> int
    decreases k,
{
    if k <= 0 {
        0
    } else {
        triangles_area(pts, tris, k - 1) + area2(
            pts[tris[3 * (k - 1)] as int],
            pts[tris[3 * (k - 1) + 1] as int],
            pts[tris[3 * (k - 1) + 2] as int],
        )
    }
}

/// Twice the area of all triangles of `tris`, added up.
pub open spec fn total_area(pts: Seq<Vert>, tris: Seq<usize>) -> int {
    triangles_area(pts, tris, tris.len() as int / 3)
}

/// What joins the end of a path to the start of the next.
pub open spec fn link(a: Seq<Vert>, b: Seq<Vert>) -> int {
    if a.len() > 0 && b.len() > 0 {
        cross(a.last(), b[0])
    } else {
        0
    }
}

/// The area under two paths laid end to end.
pub proof fn lemma_path_add(a: Seq<Vert>, b: Seq<Vert>)
    ensures
        path_area(a + b) == path_area(a) + path_area(b) + link(a, b),
    decreases b.len(),
{
    if b.len() == 0 {
        assert(a + b =~= a);
    } else if b.len() == 1 {
        assert((a + b).drop_last() =~= a);
        if a.len() > 0 {
            assert((a + b)[(a + b).len() - 2] == a.last());
        }
    } else {
        lemma_path_add(a, b.drop_last());
        assert((a + b).drop_last() =~= a + b.drop_last());
        assert((a + b)[(a + b).len() - 2] == b[b.len() - 2]);
        assert((a + b)[(a + b).len() - 1] == b[b.len() - 1]);
        if a.len() > 0 {
            assert(b.drop_last()[0] == b[0]);
        }
    }
}

/// `cross` changes sign when its points change places, and a point has
/// none with itself.
pub proof fn lemma_cross_swap(p: Vert, q: Vert)
    ensures
        cross(p, q) == -cross(q, p),
        cross(p, p) == 0,
{
    assert(p.x * q.y == q.y * p.x) by (nonlinear_arith);
    assert(p.y * q.x == q.x * p.y) by (nonlinear_arith);
    assert(p.x * p.y == p.y * p.x) by (nonlinear_arith);
}

/// The area of a triangle by the points of its sides.
pub proof fn lemma_area_by_cross(a: Vert, b: Vert, c: Vert)
    ensures
        area2(a, b, c) == cross(a, b) + cross(b, c) - cross(a, c),
{
    let ax = a.x as int;
    let ay = a.y as int;
    let bx = b.x as int;
    let by = b.y as int;
    let cx = c.x as int;
    let cy = c.y as int;
    assert((bx - ax) * (cy - ay) - (by - ay) * (cx - ax) == (ax * by - ay * bx) + (bx * cy - by
        * cx) - (ax * cy - ay * cx)) by (nonlinear_arith);
}

/// Fewer than three points span no area.
pub proof fn lemma_small_area(s: Seq<Vert>)
    requires
        s.len() < 3,
    ensures
        closed_area(s) == 0,
{
    if s.len() == 1 {
        lemma_cross_swap(s[0], s[0]);
    } else if s.len() == 2 {
        lemma_cross_swap(s[0], s[1]);
        assert(s.drop_last().len() == 1);
        assert(path_area(s.drop_last()) == 0);
    }
}

/// Taking a corner out of a polygon takes the area of the triangle at
/// that corner off its area.
pub proof fn lemma_remove_corner(s: Seq<Vert>, i: int)
    requires
        s.len() >= 3,
        0 <= i < s.len(),
    ensures
        closed_area(s) == closed_area(s.remove(i)) + area2(
            s[prev_pos(i, s.len() as int)],
            s[i],
            s[next_pos(i, s.len() as int)],
        ),
{
    let n = s.len() as int;
    let a = s.subrange(0, i);
    let b = s.subrange(i + 1, n);
    let p = seq![s[i]];
    assert(s =~= a + p + b);
    assert(s.remove(i) =~= a + b);
    lemma_path_add(a, p);
    lemma_path_add(a + p, b);
    lemma_path_add(a, b);
    assert(path_area(p) == 0);
    let before = s[prev_pos(i, n)];
    let after = s[next_pos(i, n)];
    lemma_area_by_cross(before, s[i], after);
    if i == 0 {
        assert(a.len() == 0);
        assert(before == b.last());
        assert(after == b[0]);
        assert((a + b).last() == b.last());
        assert((a + b)[0] == b[0]);
        assert((a + p)[0] == s[0]);
    } else if i == n - 1 {
        assert(b.len() == 0);
        assert(before == a.last());
        assert(after == a[0]);
        assert((a + b).last() == a.last());
        assert((a + b)[0] == a[0]);
        assert((a + p).last() == s[i]);
    } else {
        assert(before == a.last());
        assert(after == b[0]);
        assert((a + b).last() == b.last());
        assert((a + b)[0] == a[0]);
        assert((a + p).last() == s[i]);
    }
}

/// The points of a ring without a place are the points without the
/// point of that place.
pub proof fn lemma_poly_remove(pts: Seq<Vert>, ring: Seq<usize>, i: int)
    requires
        0 <= i < ring.len(),
    ensures
        poly(pts, ring.remove(i)) == poly(pts, ring).remove(i),
{
    assert(poly(pts, ring.remove(i)) =~= poly(pts, ring).remove(i));
}

/// One triangle more adds its area to the sum.
pub proof fn lemma_area_push(pts: Seq<Vert>, tris: Seq<usize>, a: usize, b: usize, c: usize)
    requires
        tris.len() % 3 == 0,
    ensures
        total_area(pts, tris.push(a).push(b).push(c)) == total_area(pts, tris) + area2(
            pts[a as int],
            pts[b as int],
            pts[c as int],
        ),
{
    let more = tris.push(a).push(b).push(c);
    let k = tris.len() as int / 3;
    assert(more.len() as int / 3 == k + 1);
    lemma_area_prefix(pts, tris, more, k);
}

/// The area of the first triangles depends on these triangles only.
pub proof fn lemma_area_prefix(pts: Seq<Vert>, a: Seq<usize>, b: Seq<usize>, k: int)
    requires
        0 <= 3 * k <= a.len() <= b.len(),
        forall|i: int| 0 <= i < 3 * k ==> a[i] == b[i],
    ensures
        triangles_area(pts, a, k) == triangles_area(pts, b, k),
    decreases k,
{
    if k > 0 {
        lemma_area_prefix(pts, a, b, k - 1);
    }
}

/// Cutting ears moves area from the ring to the triangles: what is left
/// of the ring and the triangles made have, together, the area of the
/// ring and of the triangles there were.
pub proof fn lemma_clip_area(pts: Seq<Vert>, ring: Seq<usize>, i: int, misses: int, out: Seq<usize>)
    requires
        out.len() % 3 == 0,
    ensures
        spec_clip(pts, ring, i, misses, out).1.len() % 3 == 0,
        ring_area(pts, spec_clip(pts, ring, i, misses, out).0) + total_area(
            pts,
            spec_clip(pts, ring, i, misses, out).1,
        ) == ring_area(pts, ring) + total_area(pts, out),
    decreases ring.len(), ring.len() - misses,
{
    let n = ring.len() as int;
    if n < 3 || misses >= n || misses < 0 || i < 0 || i >= n {
    } else if spec_is_ear(pts, ring, i) {
        let a = ring[prev_pos(i, n)];
        let b = ring[i];
        let c = ring[next_pos(i, n)];
        let more = out.push(a).push(b).push(c);
        lemma_clip_area(
            pts,
            ring.remove(i),
            next_pos(
                if i == n - 1 {
                    0
                } else {
                    i
                },
                n - 1,
            ),
            0,
            more,
        );
        lemma_area_push(pts, out, a, b, c);
        lemma_poly_remove(pts, ring, i);
        lemma_remove_corner(poly(pts, ring), i);
    } else {
        lemma_clip_area(pts, ring, next_pos(i, n), misses + 1, out);
    }
}

/// A triangle with two corners at one point has no area.
pub proof fn lemma_flat_triangle(a: Vert, b: Vert)
    ensures
        area2(a, b, b) == 0,
{
    assert((b.x - a.x) * (b.y - a.y) - (b.y - a.y) * (b.x - a.x) == 0) by (nonlinear_arith);
}

/// Taking out places that add nothing leaves the area of a ring as it
/// was.
pub proof fn lemma_filter_area(pts: Seq<Vert>, ring: Seq<usize>, i: int, clean: int)
    ensures
        ring_area(pts, spec_filter(pts, ring, i, clean)) == ring_area(pts, ring),
    decreases ring.len(), ring.len() - clean,
{
    let n = ring.len() as int;
    if n < 3 || clean >= n || clean < 0 || i < 0 || i >= n {
    } else if is_spare(pts, ring, i) {
        lemma_filter_area(
            pts,
            ring.remove(i),
            if i == 0 {
                n - 2
            } else {
                i - 1
            },
            0,
        );
        lemma_poly_remove(pts, ring, i);
        lemma_remove_corner(poly(pts, ring), i);
        lemma_flat_triangle(at(pts, ring, prev_pos(i, n)), at(pts, ring, i));
    } else {
        lemma_filter_area(pts, ring, next_pos(i, n), clean + 1);
    }
}

/// A polygon has the same area from whichever corner it starts.
pub proof fn lemma_turn_area(s: Seq<Vert>, k: int)
    requires
        0 <= k <= s.len(),
    ensures
        closed_area(s.subrange(k, s.len() as int) + s.subrange(0, k)) == closed_area(s),
{
    let n = s.len() as int;
    let a = s.subrange(0, k);
    let b = s.subrange(k, n);
    assert(s =~= a + b);
    lemma_path_add(a, b);
    lemma_path_add(b, a);
    if a.len() == 0 {
        assert(b + a =~= s);
    } else if b.len() == 0 {
        assert(b + a =~= s);
    } else {
        assert((a + b).last() == b.last());
        assert((a + b)[0] == a[0]);
        assert((b + a).last() == a.last());
        assert((b + a)[0] == b[0]);
    }
}

/// A path falls into the part up to a point and the part from it on.
pub proof fn lemma_path_split(s: Seq<Vert>, k: int)
    requires
        0 <= k < s.len(),
    ensures
        path_area(s) == path_area(s.subrange(0, k + 1)) + path_area(s.subrange(k, s.len() as int)),
{
    let n = s.len() as int;
    let a = s.subrange(0, k + 1);
    let rest = s.subrange(k + 1, n);
    let b = s.subrange(k, n);
    assert(s =~= a + rest);
    assert(b =~= seq![s[k]] + rest);
    lemma_path_add(a, rest);
    lemma_path_add(seq![s[k]], rest);
    assert(path_area(seq![s[k]]) == 0);
    assert(a.last() == s[k]);
}

/// The points of the ring from place `a` on, once round.
pub open spec fn turned(pts: Seq<Vert>, ring: Seq<usize>, a: int) -> Seq<Vert> {
    poly(pts, arc(ring, a, ring.len() as int))
}

/// Cutting a ring in two along a line between two of its places leaves
/// two rings that have, together, its area.
pub proof fn lemma_split_area(pts: Seq<Vert>, ring: Seq<usize>, a: int, off: int)
    requires
        0 <= a < ring.len(),
        2 <= off <= ring.len() - 2,
    ensures
        ring_area(pts, far_half(ring, a, off)) + ring_area(pts, near_half(ring, a, off))
            == ring_area(pts, ring),
{
    let n = ring.len() as int;
    let p = poly(pts, ring);
    // the ring from place a on
    let r = turned(pts, ring, a);
    assert(r =~= p.subrange(a, n) + p.subrange(0, a)) by {
        assert forall|k: int| 0 <= k < n implies r[k] == (p.subrange(a, n) + p.subrange(0, a))[k] by {
            assert(r[k] == pts[ring[wrap(a, k, n)] as int]);
        }
    }
    lemma_turn_area(p, a);
    let near = poly(pts, near_half(ring, a, off));
    let far = poly(pts, far_half(ring, a, off));
    assert(near =~= r.subrange(0, off + 1)) by {
        assert forall|k: int| 0 <= k < off + 1 implies near[k] == r.subrange(0, off + 1)[k] by {
            assert(near[k] == pts[ring[wrap(a, k, n)] as int]);
        }
    }
    let b = wrap(a, off, n);
    assert(far =~= seq![r[0]] + r.subrange(off, n)) by {
        assert(far.len() == n - off + 1);
        assert forall|k: int| 0 <= k < far.len() implies far[k] == (seq![r[0]] + r.subrange(
            off,
            n,
        ))[k] by {
            if k == 0 {
                assert(far[k] == pts[ring[a] as int]);
                assert(r[0] == pts[ring[wrap(a, 0, n)] as int]);
            } else {
                assert(far[k] == pts[ring[wrap(b, k - 1, n)] as int]);
                assert(wrap(b, k - 1, n) == wrap(a, off + k - 1, n));
                assert(r[off + k - 1] == pts[ring[wrap(a, off + k - 1, n)] as int]);
            }
        }
    }
    lemma_path_split(r, off);
    lemma_path_add(seq![r[0]], r.subrange(off, n));
    assert(path_area(seq![r[0]]) == 0);
    lemma_cross_swap(r[0], r[off]);
    assert(r.subrange(0, off + 1).last() == r[off]);
    assert(r.subrange(off, n)[0] == r[off]);
    assert(r.subrange(off, n).last() == r.last());
    assert((seq![r[0]] + r.subrange(off, n)).last() == r.last());
    assert((seq![r[0]] + r.subrange(off, n))[0] == r[0]);
}

/// The triangles that ear cutting makes of a ring have, added up, the
/// area of the ring.
pub proof fn lemma_cut_area(pts: Seq<Vert>, ring: Seq<usize>, out: Seq<usize>)
    requires
        out.len() % 3 == 0,
    ensures
        spec_cut(pts, ring, out) matches Some(more) ==> more.len() % 3 == 0 && total_area(
            pts,
            more,
        ) == total_area(pts, out) + ring_area(pts, ring),
    decreases ring.len(),
{
    let first = spec_clip(pts, ring, 0, 0, out);
    lemma_clip_area(pts, ring, 0, 0, out);
    lemma_clip_shrinks(pts, ring, 0, 0, out);
    if first.0.len() < 3 {
        lemma_small_area(poly(pts, first.0));
    } else {
        let filtered = spec_filter(pts, first.0, 0, 0);
        lemma_filter_area(pts, first.0, 0, 0);
        lemma_filter_shrinks(pts, first.0, 0, 0);
        let second = spec_clip(pts, filtered, 0, 0, first.1);
        lemma_clip_area(pts, filtered, 0, 0, first.1);
        lemma_clip_shrinks(pts, filtered, 0, 0, first.1);
        let left = second.0;
        if left.len() < 3 {
            lemma_small_area(poly(pts, left));
        } else if exists|cut: (int, int)| is_first_cut(pts, left, cut.0, cut.1) {
            let cut = choose|cut: (int, int)| is_first_cut(pts, left, cut.0, cut.1);
            assert(cut_at(pts, left, cut.0, cut.1));
            assert(far_half(left, cut.0, cut.1).len() == left.len() - cut.1 + 1);
            assert(near_half(left, cut.0, cut.1).len() == cut.1 + 1);
            lemma_split_area(pts, left, cut.0, cut.1);
            lemma_cut_area(pts, far_half(left, cut.0, cut.1), second.1);
            match spec_cut(pts, far_half(left, cut.0, cut.1), second.1) {
                Some(more) => {
                    lemma_cut_area(pts, near_half(left, cut.0, cut.1), more);
                },
                None => {},
            }
        }
    }
}

/// A ring with a hole let into it has the area of the ring and of the
/// hole: the bridge is gone along once each way.
pub proof fn lemma_merge_area(pts: Seq<Vert>, ring: Seq<usize>, m: int, hole: Seq<usize>)
    requires
        0 <= m < ring.len(),
        hole.len() > 0,
    ensures
        ring_area(pts, spec_merge(ring, m, hole)) == ring_area(pts, ring) + ring_area(pts, hole),
{
    let n = ring.len() as int;
    let p = poly(pts, ring);
    let h = poly(pts, hole);
    let a = p.subrange(0, m + 1);
    let b = p.subrange(m + 1, n);
    let t = seq![h[0], p[m]];
    let merged = poly(pts, spec_merge(ring, m, hole));
    assert(merged =~= a + h + t + b) by {
        let parts = a + h + t + b;
        assert(merged.len() == parts.len());
        assert forall|k: int| 0 <= k < merged.len() implies merged[k] == parts[k] by {
            let r = spec_merge(ring, m, hole);
            if k < m + 1 {
                assert(r[k] == ring[k]);
            } else if k < m + 1 + hole.len() {
                assert(r[k] == hole[k - (m + 1)]);
            } else if k == m + 1 + hole.len() {
                assert(r[k] == hole[0]);
            } else if k == m + 2 + hole.len() {
                assert(r[k] == ring[m]);
            } else {
                assert(r[k] == ring[k - hole.len() - 2]);
            }
        }
    }
    assert(p =~= a + b);
    lemma_path_add(a, b);
    lemma_path_add(a, h);
    lemma_path_add(a + h, t);
    lemma_path_add(a + h + t, b);
    assert(t.drop_last() =~= seq![h[0]]);
    assert(path_area(seq![h[0]]) == 0);
    assert(path_area(t) == cross(h[0], p[m]));
    lemma_cross_swap(p[m], h[0]);
    assert(a.last() == p[m]);
    assert((a + h).last() == h.last());
    assert((a + h + t).last() == p[m]);
    assert((a + h + t + b)[0] == a[0]);
    assert((a + b)[0] == a[0]);
    if b.len() > 0 {
        assert((a + h + t + b).last() == b.last());
        assert((a + b).last() == b.last());
    } else {
        assert(a + h + t + b =~= a + h + t);
        assert((a + b).last() == p[m]);
    }
}

/// The end of a bridge that is chosen going round the ring is a place of
/// the ring.
pub proof fn lemma_bridge_scan_place(
    pts: Seq<Vert>,
    ring: Seq<usize>,
    h: Vert,
    start: int,
    qn: int,
    qd: int,
    k: int,
    m: int,
    tn: int,
    td: int,
)
    requires
        0 <= start < ring.len(),
        0 <= m < ring.len(),
        0 <= k,
    ensures
        0 <= bridge_scan(pts, ring, h, start, qn, qd, k, m, tn, td) < ring.len(),
    decreases ring.len() - k,
{
    let n = ring.len() as int;
    if k < n {
        let p = wrap(start, k, n);
        let v = at(pts, ring, p);
        if bridge_candidate(pts, ring, h, at(pts, ring, start), qn, qd, p) && bridge_better(
            pts,
            ring,
            h,
            p,
            m,
            tn,
            td,
        ) {
            lemma_bridge_scan_place(
                pts,
                ring,
                h,
                start,
                qn,
                qd,
                k + 1,
                p,
                if h.y >= v.y {
                    h.y - v.y
                } else {
                    v.y - h.y
                },
                h.x - v.x,
            );
        } else {
            lemma_bridge_scan_place(pts, ring, h, start, qn, qd, k + 1, m, tn, td);
        }
    }
}

/// The end of a bridge is a place of the ring.
pub proof fn lemma_bridge_place(pts: Seq<Vert>, ring: Seq<usize>, h: Vert)
    ensures
        spec_find_bridge(pts, ring, h) matches Some(m) ==> 0 <= m < ring.len(),
{
    if exists|k: int| is_nearest_hit(pts, ring, h, k) {
        let n = ring.len() as int;
        let k = choose|k: int| is_nearest_hit(pts, ring, h, k);
        let p = at(pts, ring, k);
        let q = at(pts, ring, next_pos(k, n));
        let m0 = if p.x < q.x { k } else { next_pos(k, n) };
        lemma_bridge_scan_place(
            pts,
            ring,
            h,
            m0,
            hit_num(p, q, h.y as int),
            hit_den(p, q),
            0,
            m0,
            0,
            0,
        );
    }
}

/// The area of the holes of a queue, from the `i`-th on, added up.
pub open spec fn queue_area(pts: Seq<Vert>, queue: Seq<Seq<usize>>, i: int) -> int
    decreases queue.len() - i,
{
    if i >= queue.len() || i < 0 {
        0
    } else {
        ring_area(pts, queue[i]) + queue_area(pts, queue, i + 1)
    }
}

/// A ring with holes let into it has the area of the ring and of the
/// holes.
pub proof fn lemma_eliminate_area(pts: Seq<Vert>, ring: Seq<usize>, queue: Seq<Seq<usize>>, i: int)
    requires
        0 <= i <= queue.len(),
        forall|k: int| 0 <= k < queue.len() ==> (#[trigger] queue[k]).len() > 0,
    ensures
        spec_eliminate(pts, ring, queue, i) matches Some(merged) ==> ring_area(pts, merged)
            == ring_area(pts, ring) + queue_area(pts, queue, i),
    decreases queue.len() - i,
{
    if i < queue.len() {
        let h = pts[queue[i][0] as int];
        lemma_bridge_place(pts, ring, h);
        match spec_find_bridge(pts, ring, h) {
            Some(m) => {
                lemma_merge_area(pts, ring, m, queue[i]);
                lemma_eliminate_area(pts, spec_merge(ring, m, queue[i]), queue, i + 1);
            },
            None => {},
        }
    }
}

/// Every hole of the queue has a place.
pub proof fn lemma_queue_filled(pts: Seq<Vert>, holes: Seq<usize>, k: int)
    ensures
        forall|i: int|
            0 <= i < spec_queue(pts, holes, k).len() ==> (#[trigger] spec_queue(
                pts,
                holes,
                k,
            )[i]).len() > 0,
    decreases k,
{
    if k > 0 {
        lemma_queue_filled(pts, holes, k - 1);
        let before = spec_queue(pts, holes, k - 1);
        let ring = spec_ring_of(
            pts,
            holes[k - 1] as int,
            hole_end(holes, pts.len() as int, k - 1),
            false,
        );
        if ring.len() > 0 {
            let hole = spec_hole_from_leftmost(pts, ring);
            let place = queue_place(pts, before, pts[hole[0] as int].x as int, 0);
            lemma_queue_place(pts, before, pts[hole[0] as int].x as int, 0);
            let after = spec_enqueue(pts, before, hole);
            assert forall|i: int| 0 <= i < after.len() implies (#[trigger] after[i]).len() > 0 by {
                if i < place {
                    assert(after[i] == before[i]);
                } else if i > place {
                    assert(after[i] == before[i - 1]);
                }
            }
        }
    }
}

/// A hole goes into the queue at a place of the queue, or at its end.
pub proof fn lemma_queue_place(pts: Seq<Vert>, queue: Seq<Seq<usize>>, x: int, i: int)
    requires
        0 <= i <= queue.len(),
    ensures
        i <= queue_place(pts, queue, x, i) <= queue.len(),
    decreases queue.len() - i,
{
    if i < queue.len() && !(pts[queue[i][0] as int].x > x) {
        lemma_queue_place(pts, queue, x, i + 1);
    }
}

/// The triangles that ear cutting makes of a polygon have, added up, the
/// area of its outer ring and of its holes, each ring taken the way it
/// is gone round: the outer ring to the left, which counts as positive,
/// the holes to the right, which counts as negative.
pub proof fn lemma_earcut_area(data: Seq<i64>, holes: Seq<usize>)
    ensures
        ({
            let pts = spec_points(data);
            let outer_end = if holes.len() > 0 {
                holes[0] as int
            } else {
                pts.len() as int
            };
            let outer = spec_ring_of(pts, 0, outer_end, true);
            spec_earcut(data, holes) matches Some(tris) ==> tris.len() % 3 == 0 && total_area(
                pts,
                tris,
            ) == if outer.len() < 3 {
                0
            } else {
                ring_area(pts, outer) + queue_area(
                    pts,
                    spec_queue(pts, holes, holes.len() as int),
                    0,
                )
            }
        }),
{
    let pts = spec_points(data);
    let outer_end = if holes.len() > 0 {
        holes[0] as int
    } else {
        pts.len() as int
    };
    let outer = spec_ring_of(pts, 0, outer_end, true);
    let none = Seq::<usize>::empty();
    if outer.len() >= 3 {
        let queue = spec_queue(pts, holes, holes.len() as int);
        lemma_queue_filled(pts, holes, holes.len() as int);
        lemma_eliminate_area(pts, outer, queue, 0);
        match spec_eliminate(pts, outer, queue, 0) {
            Some(ring) => {
                lemma_cut_area(pts, ring, none);
            },
            None => {},
        }
    }
}

/// The absolute value of a number.
pub open spec fn abs(x: int) -> int {
    if x < 0 {
        -x
    } else {
        x
    }
}

/// The product of the coordinates of a point.
pub open spec fn corner_product(p: Vert) -> int {
    p.x * p.y
}

/// A term of the sum for the area of a ring is `cross` of the ends of a
/// side, and what a point adds at one side it takes off at the next.
proof fn lemma_shoelace_term(before: Vert, here: Vert)
    ensures
        shoelace_term(before, here) == cross(before, here) + corner_product(before)
            - corner_product(here),
{
    let bx = before.x as int;
    let by = before.y as int;
    let hx = here.x as int;
    let hy = here.y as int;
    assert((bx - hx) * (hy + by) == (bx * hy - by * hx) + bx * by - hx * hy) by (nonlinear_arith);
}

/// The first terms of the sum for the area of a ring, by the path along
/// its first points.
proof fn lemma_shoelace_path(pts: Seq<Vert>, start: int, end: int, k: int)
    requires
        0 <= start < end <= pts.len(),
        1 <= k <= end - start,
    ensures
        shoelace(pts, start, end, k) == cross(pts[end - 1], pts[start]) + path_area(
            pts.subrange(start, start + k),
        ) + corner_product(pts[end - 1]) - corner_product(pts[start + k - 1]),
    decreases k,
{
    let now = pts.subrange(start, start + k);
    if k == 1 {
        lemma_shoelace_term(pts[end - 1], pts[start]);
        assert(shoelace(pts, start, end, 0) == 0);
    } else {
        lemma_shoelace_path(pts, start, end, k - 1);
        lemma_shoelace_term(pts[start + k - 2], pts[start + k - 1]);
        assert(now.drop_last() =~= pts.subrange(start, start + k - 1));
        assert(now[now.len() - 2] == pts[start + k - 2]);
        assert(now[now.len() - 1] == pts[start + k - 1]);
    }
}

/// The sum by which the direction of a ring is told is twice its signed
/// area.
pub proof fn lemma_signed_area(pts: Seq<Vert>, start: int, end: int)
    requires
        0 <= start <= end <= pts.len(),
    ensures
        spec_signed_area(pts, start, end) == closed_area(pts.subrange(start, end)),
{
    if start < end {
        lemma_shoelace_path(pts, start, end, end - start);
        let s = pts.subrange(start, end);
        assert(s.last() == pts[end - 1]);
        assert(s[0] == pts[start]);
    } else {
        assert(shoelace(pts, start, end, 0) == 0);
    }
}

/// A path gone along the other way has the opposite area.
pub proof fn lemma_reverse_path(s: Seq<Vert>)
    ensures
        path_area(s.reverse()) == -path_area(s),
    decreases s.len(),
{
    if s.len() <= 1 {
        assert(s.reverse().len() == s.len());
    } else {
        let n = s.len() as int;
        let rest = s.drop_last();
        lemma_reverse_path(rest);
        assert(s.reverse() =~= seq![s[n - 1]] + rest.reverse());
        lemma_path_add(seq![s[n - 1]], rest.reverse());
        assert(path_area(seq![s[n - 1]]) == 0);
        assert(rest.reverse()[0] == s[n - 2]);
        lemma_cross_swap(s[n - 1], s[n - 2]);
    }
}

/// A polygon gone round the other way has the opposite area.
pub proof fn lemma_reverse_area(s: Seq<Vert>)
    ensures
        closed_area(s.reverse()) == -closed_area(s),
{
    lemma_reverse_path(s);
    if s.len() > 0 {
        let r = s.reverse();
        assert(r.last() == s[0]);
        assert(r[0] == s.last());
        lemma_cross_swap(s[0], s.last());
    }
}

/// A polygon whose last corner is its first again has the area it has
/// without that corner.
pub proof fn lemma_closing_corner(s: Seq<Vert>)
    requires
        s.len() > 1,
        s.last() == s[0],
    ensures
        closed_area(s.drop_last()) == closed_area(s),
{
    let n = s.len() as int;
    lemma_cross_swap(s[0], s[0]);
    assert(s.drop_last().last() == s[n - 2]);
    assert(s.drop_last()[0] == s[0]);
}

/// Twice the signed area of the ring of the points from `start` up to
/// `end`, as they are given.
pub open spec fn given_area(pts: Seq<Vert>, start: int, end: int) -> int {
    closed_area(pts.subrange(start, end))
}

/// A ring is taken with the area it is given with, counted as positive
/// when it is to go round to the left and as negative when it is to go
/// round to the right.
pub proof fn lemma_ring_of_area(pts: Seq<Vert>, start: int, end: int, leftward: bool)
    requires
        0 <= start <= end <= pts.len(),
        pts.len() <= usize::MAX,
    ensures
        ring_area(pts, spec_ring_of(pts, start, end, leftward)) == if leftward {
            abs(given_area(pts, start, end))
        } else {
            -abs(given_area(pts, start, end))
        },
{
    let given = pts.subrange(start, end);
    let forward = Seq::new((end - start) as nat, |k: int| (start + k) as usize);
    lemma_signed_area(pts, start, end);
    let ordered = if leftward == (spec_signed_area(pts, start, end) > 0) {
        forward
    } else {
        forward.reverse()
    };
    assert(poly(pts, forward) =~= given);
    assert(poly(pts, forward.reverse()) =~= given.reverse());
    lemma_reverse_area(given);
    let ring = spec_ring_of(pts, start, end, leftward);
    if ordered.len() > 1 && pts[ordered.last() as int] == pts[ordered[0] as int] {
        assert(poly(pts, ordered.drop_last()) =~= poly(pts, ordered).drop_last());
        lemma_closing_corner(poly(pts, ordered));
    }
}

/// Where a ring has a place, one of its places holds its leftmost point.
pub proof fn lemma_leftmost_exists(pts: Seq<Vert>, ring: Seq<usize>, n: int)
    requires
        1 <= n <= ring.len(),
    ensures
        exists|k: int| is_leftmost(pts, ring.take(n), k),
    decreases n,
{
    let now = ring.take(n);
    if n == 1 {
        assert(is_leftmost(pts, now, 0));
    } else {
        lemma_leftmost_exists(pts, ring, n - 1);
        let before = ring.take(n - 1);
        let k0 = choose|k: int| is_leftmost(pts, before, k);
        assert forall|j: int| 0 <= j < n - 1 implies at(pts, now, j) == at(pts, before, j) by {}
        if left_of(at(pts, now, n - 1), at(pts, now, k0)) {
            assert forall|j: int| 0 <= j < now.len() implies (j < n - 1 ==> left_of(
                at(pts, now, n - 1),
                #[trigger] at(pts, now, j),
            )) && (j >= n - 1 ==> !left_of(at(pts, now, j), at(pts, now, n - 1))) by {
                if j < n - 1 {
                    assert(at(pts, now, j) == at(pts, before, j));
                    if j < k0 {
                        assert(left_of(at(pts, before, k0), at(pts, before, j)));
                    } else {
                        assert(!left_of(at(pts, before, j), at(pts, before, k0)));
                    }
                }
            }
            assert(is_leftmost(pts, now, n - 1));
        } else {
            assert forall|j: int| 0 <= j < now.len() implies (j < k0 ==> left_of(
                at(pts, now, k0),
                #[trigger] at(pts, now, j),
            )) && (j >= k0 ==> !left_of(at(pts, now, j), at(pts, now, k0))) by {
                if j < n - 1 {
                    assert(at(pts, now, j) == at(pts, before, j));
                    if j < k0 {
                        assert(left_of(at(pts, before, k0), at(pts, before, j)));
                    } else {
                        assert(!left_of(at(pts, before, j), at(pts, before, k0)));
                    }
                }
            }
            assert(is_leftmost(pts, now, k0));
        }
    }
}

/// A hole turned to start at its leftmost place has the area it had.
pub proof fn lemma_hole_from_leftmost_area(pts: Seq<Vert>, ring: Seq<usize>)
    requires
        ring.len() > 0,
    ensures
        ring_area(pts, spec_hole_from_leftmost(pts, ring)) == ring_area(pts, ring),
{
    let n = ring.len() as int;
    lemma_leftmost_exists(pts, ring, n);
    assert(ring.take(n) =~= ring);
    let k = choose|k: int| is_leftmost(pts, ring, k);
    let p = poly(pts, ring);
    let r = turned(pts, ring, k);
    assert(r =~= p.subrange(k, n) + p.subrange(0, k)) by {
        assert forall|i: int| 0 <= i < n implies r[i] == (p.subrange(k, n) + p.subrange(0, k))[i] by {
            assert(r[i] == pts[ring[wrap(k, i, n)] as int]);
        }
    }
    lemma_turn_area(p, k);
}

/// A hole more in the queue adds its area to that of the holes of the
/// queue.
pub proof fn lemma_queue_area_insert(
    pts: Seq<Vert>,
    queue: Seq<Seq<usize>>,
    place: int,
    hole: Seq<usize>,
    i: int,
)
    requires
        0 <= place <= queue.len(),
        0 <= i <= queue.len() + 1,
    ensures
        queue_area(pts, queue.insert(place, hole), i) == if i <= place {
            queue_area(pts, queue, i) + ring_area(pts, hole)
        } else {
            queue_area(pts, queue, i - 1)
        },
    decreases queue.len() + 1 - i,
{
    let more = queue.insert(place, hole);
    if i < more.len() {
        lemma_queue_area_insert(pts, queue, place, hole, i + 1);
        if i < place {
            assert(more[i] == queue[i]);
        } else if i == place {
            assert(more[i] == hole);
        } else {
            assert(more[i] == queue[i - 1]);
        }
    }
}

/// The area of the first `k` holes as they are given, each counted as
/// negative.
pub open spec fn holes_area(pts: Seq<Vert>, holes: Seq<usize>, k: int) -> int
    decreases k,
{
    if k <= 0 {
        0
    } else {
        holes_area(pts, holes, k - 1) - abs(
            given_area(pts, holes[k - 1] as int, hole_end(holes, pts.len() as int, k - 1)),
        )
    }
}

/// The holes of the queue have the area of the holes as they are given,
/// each counted as negative.
pub proof fn lemma_queue_area(pts: Seq<Vert>, holes: Seq<usize>, k: int)
    requires
        holes_valid(holes, pts.len() as int),
        pts.len() <= usize::MAX,
        0 <= k <= holes.len(),
    ensures
        queue_area(pts, spec_queue(pts, holes, k), 0) == holes_area(pts, holes, k),
    decreases k,
{
    if k > 0 {
        lemma_queue_area(pts, holes, k - 1);
        let before = spec_queue(pts, holes, k - 1);
        let start = holes[k - 1] as int;
        let end = hole_end(holes, pts.len() as int, k - 1);
        assert(start <= end <= pts.len()) by {
            if k < holes.len() {
                assert(holes[k - 1] <= holes[k]);
            }
        }
        let ring = spec_ring_of(pts, start, end, false);
        lemma_ring_of_area(pts, start, end, false);
        if ring.len() == 0 {
            lemma_small_area(poly(pts, ring));
        } else {
            let hole = spec_hole_from_leftmost(pts, ring);
            lemma_hole_from_leftmost_area(pts, ring);
            let x = pts[hole[0] as int].x as int;
            lemma_queue_place(pts, before, x, 0);
            lemma_queue_area_insert(pts, before, queue_place(pts, before, x, 0), hole, 0);
        }
    }
}

/// The triangles that ear cutting makes of a polygon with holes have,
/// added up, the area of the outer ring less the areas of the holes.
///
/// This holds where ear cutting gets through and the outer ring has
/// three places or more; with fewer there is no triangle.
pub proof fn lemma_earcut_keeps_area(data: Seq<i64>, holes: Seq<usize>)
    requires
        holes_valid(holes, spec_points(data).len() as int),
        data.len() <= usize::MAX,
    ensures
        ({
            let pts = spec_points(data);
            let outer_end = if holes.len() > 0 {
                holes[0] as int
            } else {
                pts.len() as int
            };
            spec_earcut(data, holes) matches Some(tris) ==> total_area(pts, tris) == if spec_ring_of(
                pts,
                0,
                outer_end,
                true,
            ).len() < 3 {
                0
            } else {
                abs(given_area(pts, 0, outer_end)) + holes_area(pts, holes, holes.len() as int)
            }
        }),
{
    let pts = spec_points(data);
    let outer_end = if holes.len() > 0 {
        holes[0] as int
    } else {
        pts.len() as int
    };
    lemma_earcut_area(data, holes);
    lemma_ring_of_area(pts, 0, outer_end, true);
    lemma_queue_area(pts, holes, holes.len() as int);
}

} // verus!
