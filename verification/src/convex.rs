//! The orientation of convex rings: read off any scan line that passes
//! through no vertex, it is the same.

use vstd::prelude::*;
use crate::earcut::area2;
use crate::edge::{
    crosses, is_first_x_change, is_lowest_crossing, is_lowest_crossing_to,
    lemma_first_x_change_unique, lemma_ratio_order, scan_line, spec_is_hole, y_den, y_less, y_num,
};
use crate::vert::Vert;

verus! {

/// Vertex `j` of `s` lies strictly to the left of the side that leaves
/// vertex `i`.
pub open spec fn left_of_side(s: Seq<Vert>, i: int, j: int) -> bool {
    area2(s[i], s[i + 1], s[j]) > 0
}

/// Vertices `i` and `j` of `s` are different points.
pub open spec fn apart(s: Seq<Vert>, i: int, j: int) -> bool {
    s[i] != s[j]
}

/// The closed ring `s` is convex and goes round to the left: every vertex
/// lies strictly to the left of every side of which it is not an end, and
/// no vertex but the first comes twice.
pub open spec fn strictly_convex_left(s: Seq<Vert>) -> bool {
    &&& s.len() >= 4
    &&& s[0] == s.last()
    &&& forall|i: int, j: int| 0 <= i < j < s.len() - 1 ==> #[trigger] apart(s, i, j)
    &&& forall|i: int, j: int|
        0 <= i < s.len() - 1 && 0 <= j < s.len() - 1 && s[j] != s[i] && s[j] != s[i + 1]
            ==> #[trigger] left_of_side(s, i, j)
}

/// No vertex of `s` lies on the upright line at abscissa `x2 / 2`.
pub open spec fn no_vertex_on(s: Seq<Vert>, x2: int) -> bool {
    forall|j: int| 0 <= j < s.len() ==> 2 * (#[trigger] s[j]).x != x2
}

/// Segment `j` of `s` passes the line at `x2 / 2` from left to right.
pub open spec fn rises(s: Seq<Vert>, j: int, x2: int) -> bool {
    0 <= j < s.len() - 1 && 2 * s[j].x < x2 && x2 < 2 * s[j + 1].x
}

/// A ring that is left of a line at one vertex, and never passes it from
/// left to right, stays left of it.
proof fn lemma_stays_left(s: Seq<Vert>, x2: int, from: int, to: int)
    requires
        0 <= from <= to < s.len(),
        no_vertex_on(s, x2),
        2 * s[from].x < x2,
        forall|j: int| from <= j < to ==> !rises(s, j, x2),
    ensures
        2 * s[to].x < x2,
    decreases to - from,
{
    if from < to {
        lemma_stays_left(s, x2, from, to - 1);
        assert(!rises(s, to - 1, x2));
        assert(2 * s[to].x != x2);
    }
}

/// A closed ring that passes a line from right to left passes it from
/// left to right as well.
pub proof fn lemma_rise_exists(s: Seq<Vert>, x2: int, k: int)
    requires
        s.len() >= 2,
        s[0] == s.last(),
        0 <= k < s.len() - 1,
        no_vertex_on(s, x2),
        2 * s[k].x > x2,
        2 * s[k + 1].x < x2,
    ensures
        exists|j: int| rises(s, j, x2),
{
    if !exists|j: int| rises(s, j, x2) {
        assert forall|j: int| k + 1 <= j < s.len() - 1 implies !rises(s, j, x2) by {}
        lemma_stays_left(s, x2, k + 1, s.len() - 1);
        assert forall|j: int| 0 <= j < k implies !rises(s, j, x2) by {}
        lemma_stays_left(s, x2, 0, k);
    }
}

/// Numerator and denominator of a height stand for the same height as
/// the same fraction not reduced for level segments.
proof fn lemma_height_form(l: Vert, r: Vert, x2: int)
    requires
        l.x != r.x,
    ensures
        y_den(l, r) > 0,
        l.x < r.x ==> y_num(l, r, x2) * (2 * (r.x - l.x)) == (2 * (r.x - l.x) * l.y + (r.y - l.y)
            * (x2 - 2 * l.x)) * y_den(l, r),
        l.x > r.x ==> y_num(l, r, x2) * (2 * (l.x - r.x)) == (2 * (l.x - r.x) * l.y - (r.y - l.y)
            * (x2 - 2 * l.x)) * y_den(l, r),
{
    let d = r.x - l.x;
    let dy = r.y - l.y;
    let off = x2 - 2 * l.x;
    if l.y == r.y {
        assert(dy * off == 0) by (nonlinear_arith)
            requires
                dy == 0,
        ;
        assert(l.y * (2 * d) == (2 * d * l.y + 0) * 1) by (nonlinear_arith);
        assert(l.y * (2 * (-d)) == (2 * (-d) * l.y - 0) * 1) by (nonlinear_arith);
    } else if d > 0 {
    } else {
        assert(-(2 * d * l.y + dy * off) == 2 * (-d) * l.y - dy * off) by (nonlinear_arith);
    }
}

/// A point of a segment whose ends lie left of a line that runs from
/// right to left, and not both on it, lies below the line.
///
/// The segment from `u` to `v` passes the upright line at `x2 / 2` from
/// left to right, the one from `a` to `b` from right to left; then the
/// first passes it lower than the second.
#[verifier::rlimit(40)]
pub proof fn lemma_below_line(a: Vert, b: Vert, u: Vert, v: Vert, x2: int)
    requires
        2 * a.x > x2,
        x2 > 2 * b.x,
        2 * u.x < x2,
        x2 < 2 * v.x,
        area2(a, b, u) >= 0,
        area2(a, b, v) >= 0,
        area2(a, b, u) + area2(a, b, v) > 0,
    ensures
        y_num(u, v, x2) * y_den(a, b) < y_num(a, b, x2) * y_den(u, v),
{
    let ux = u.x as int;
    let uy = u.y as int;
    let vx = v.x as int;
    let vy = v.y as int;
    let ax = a.x as int;
    let ay = a.y as int;
    let bx = b.x as int;
    let by = b.y as int;
    let dj = vx - ux;
    let e = ax - bx;
    let c = by - ay;
    let nj = 2 * dj * uy + (vy - uy) * (x2 - 2 * ux);
    let nk = 2 * e * ay - c * (x2 - 2 * ax);
    let lu = area2(a, b, u);
    let lv = area2(a, b, v);
    let w1 = 2 * vx - x2;
    let w2 = x2 - 2 * ux;
    // e times the height of the line through a and b, at u and at v
    let p = e * ay + c * ax;
    let hu = p - c * ux;
    let hv = p - c * vx;
    let tu = e * uy;
    let tv = e * vy;
    assert(lu == hu - tu) by (nonlinear_arith)
        requires
            lu == (bx - ax) * (uy - ay) - (by - ay) * (ux - ax),
            hu == e * ay + c * ax - c * ux,
            tu == e * uy,
            e == ax - bx,
            c == by - ay,
    ;
    assert(lv == hv - tv) by (nonlinear_arith)
        requires
            lv == (bx - ax) * (vy - ay) - (by - ay) * (vx - ax),
            hv == e * ay + c * ax - c * vx,
            tv == e * vy,
            e == ax - bx,
            c == by - ay,
    ;
    // the height of the segment from u to v on the line is a weighted
    // mean of the heights of its ends
    assert(nj == w1 * uy + w2 * vy) by (nonlinear_arith)
        requires
            nj == 2 * dj * uy + (vy - uy) * (x2 - 2 * ux),
            w1 == 2 * vx - x2,
            w2 == x2 - 2 * ux,
            dj == vx - ux,
    ;
    assert(e * nj == w1 * tu + w2 * tv) by (nonlinear_arith)
        requires
            nj == w1 * uy + w2 * vy,
            tu == e * uy,
            tv == e * vy,
    ;
    assert(w1 * tu + w2 * tv < w1 * hu + w2 * hv) by (nonlinear_arith)
        requires
            w1 > 0,
            w2 > 0,
            hu - tu >= 0,
            hv - tv >= 0,
            (hu - tu) + (hv - tv) > 0,
    ;
    // and the line is straight
    assert(w1 * ux + w2 * vx == x2 * dj) by (nonlinear_arith)
        requires
            w1 == 2 * vx - x2,
            w2 == x2 - 2 * ux,
            dj == vx - ux,
    ;
    let cu = c * ux;
    let cv = c * vx;
    let m1 = w1 * ux;
    let m2 = w2 * vx;
    assert(w1 * hu == w1 * p - w1 * cu) by (nonlinear_arith)
        requires
            hu == p - cu,
    ;
    assert(w2 * hv == w2 * p - w2 * cv) by (nonlinear_arith)
        requires
            hv == p - cv,
    ;
    assert(w1 * cu == c * m1) by (nonlinear_arith)
        requires
            cu == c * ux,
            m1 == w1 * ux,
    ;
    assert(w2 * cv == c * m2) by (nonlinear_arith)
        requires
            cv == c * vx,
            m2 == w2 * vx,
    ;
    assert(c * m1 + c * m2 == c * (m1 + m2)) by (nonlinear_arith);
    assert(w1 * p + w2 * p == (w1 + w2) * p) by (nonlinear_arith);
    assert(m1 + m2 == x2 * dj);
    assert(w1 + w2 == 2 * dj);
    let xd = x2 * dj;
    let pd = p * dj;
    assert((2 * dj) * p == 2 * pd) by (nonlinear_arith)
        requires
            pd == p * dj,
    ;
    assert(w1 * hu + w2 * hv == 2 * pd - c * xd);
    let ea = e * ay;
    let ca = c * ax;
    assert(nk == 2 * ea - c * x2 + 2 * ca) by (nonlinear_arith)
        requires
            nk == 2 * e * ay - c * (x2 - 2 * ax),
            ea == e * ay,
            ca == c * ax,
    ;
    assert(dj * nk == 2 * (dj * ea) - dj * (c * x2) + 2 * (dj * ca)) by (nonlinear_arith)
        requires
            nk == 2 * ea - c * x2 + 2 * ca,
    ;
    assert(pd == dj * ea + dj * ca) by (nonlinear_arith)
        requires
            pd == p * dj,
            p == ea + ca,
    ;
    assert(c * xd == dj * (c * x2)) by (nonlinear_arith)
        requires
            xd == x2 * dj,
    ;
    assert(w1 * hu + w2 * hv == dj * nk);
    assert(e * nj < dj * nk);
    assert(nj * (2 * e) < nk * (2 * dj)) by (nonlinear_arith)
        requires
            e * nj < dj * nk,
    ;
    lemma_height_form(u, v, x2);
    lemma_height_form(a, b, x2);
    assert(nk == 2 * (a.x - b.x) * a.y - (b.y - a.y) * (x2 - 2 * a.x));
    assert(nj == 2 * (v.x - u.x) * u.y + (v.y - u.y) * (x2 - 2 * u.x));
    // the heights as they are held, against the same heights not reduced
    lemma_ratio_order(y_num(u, v, x2), y_den(u, v), nj, 2 * dj, nk, 2 * e);
    lemma_ratio_order(y_num(u, v, x2), y_den(u, v), nk, 2 * e, y_num(a, b, x2), y_den(a, b));
}

/// A vertex lies on the line through itself and another vertex.
proof fn lemma_area_of_end(a: Vert, b: Vert)
    ensures
        area2(a, b, a) == 0,
        area2(a, b, b) == 0,
        forall|w: Vert| area2(b, a, w) == -#[trigger] area2(a, b, w),
{
    assert(area2(a, b, a) == 0) by (nonlinear_arith)
        requires
            area2(a, b, a) == (b.x - a.x) * (a.y - a.y) - (b.y - a.y) * (a.x - a.x),
    ;
    assert(area2(a, b, b) == 0) by (nonlinear_arith)
        requires
            area2(a, b, b) == (b.x - a.x) * (b.y - a.y) - (b.y - a.y) * (b.x - a.x),
    ;
    assert forall|w: Vert| area2(b, a, w) == -#[trigger] area2(a, b, w) by {
        assert(area2(b, a, w) == -area2(a, b, w)) by (nonlinear_arith)
            requires
                area2(b, a, w) == (a.x - b.x) * (w.y - b.y) - (a.y - b.y) * (w.x - b.x),
                area2(a, b, w) == (b.x - a.x) * (w.y - a.y) - (b.y - a.y) * (w.x - a.x),
        ;
    }
}

/// The ends of a segment that passes a line from left to right lie to the
/// left of a side of a convex ring that passes it from right to left, or
/// on it, and not both on it.
proof fn lemma_rise_left_of_fall(s: Seq<Vert>, x2: int, k: int, j: int)
    requires
        strictly_convex_left(s),
        0 <= k < s.len() - 1,
        2 * s[k].x > x2,
        x2 > 2 * s[k + 1].x,
        rises(s, j, x2),
    ensures
        area2(s[k], s[k + 1], s[j]) >= 0,
        area2(s[k], s[k + 1], s[j + 1]) >= 0,
        area2(s[k], s[k + 1], s[j]) + area2(s[k], s[k + 1], s[j + 1]) > 0,
{
    let n = s.len() as int;
    let a = s[k];
    let b = s[k + 1];
    let u = s[j];
    let v = s[j + 1];
    // the far end of the rising segment, by a place before the closing one
    let jv = if j + 1 == n - 1 { 0 } else { j + 1 };
    assert(s[jv] == v);
    lemma_area_of_end(a, b);
    if u != a && u != b {
        assert(left_of_side(s, k, j));
    }
    if v != a && v != b {
        assert(left_of_side(s, k, jv));
    }
    if area2(a, b, u) + area2(a, b, v) == 0 {
        // the rising segment would run back along the falling one
        assert(u == b && v == a);
        assert(apart(s, 0, 1) && apart(s, 0, 2) && apart(s, 1, 2));
        // a vertex that is an end of neither
        let w = if s[0] != a && s[0] != b {
            0int
        } else if s[1] != a && s[1] != b {
            1int
        } else {
            2int
        };
        assert(s[w] != a && s[w] != b);
        assert(left_of_side(s, k, w));
        assert(left_of_side(s, j, w));
        assert(area2(b, a, s[w]) == -area2(a, b, s[w]));
        assert(false);
    }
}

/// A convex ring that goes round to the left is found to be an outer
/// ring on every scan line that passes through none of its vertices: the
/// lowest segment on the line runs from left to right.
#[verifier::rlimit(40)]
pub proof fn lemma_convex_lowest_rises(s: Seq<Vert>, x2: int, k: int)
    requires
        strictly_convex_left(s),
        no_vertex_on(s, x2),
        is_lowest_crossing(s, x2, k),
    ensures
        s[k + 1].x > s[k].x,
{
    if s[k + 1].x <= s[k].x {
        assert(2 * s[k].x > x2 && x2 > 2 * s[k + 1].x);
        lemma_rise_exists(s, x2, k);
        let j = choose|j: int| rises(s, j, x2);
        lemma_rise_left_of_fall(s, x2, k, j);
        lemma_below_line(s[k], s[k + 1], s[j], s[j + 1], x2);
        assert(y_less(s, j, k, x2));
        assert(crosses(s, j, x2));
        assert(false);
    }
}

/// A convex ring that goes round to the left, with a scan line that
/// passes through none of its vertices, is not taken for a hole.
pub proof fn lemma_convex_ring_is_outer(s: Seq<Vert>)
    requires
        strictly_convex_left(s),
        no_vertex_on(s, scan_line(s)),
    ensures
        !spec_is_hole(s),
{
    let x2 = scan_line(s);
    assert forall|i: int| is_lowest_crossing(s, x2, i) implies s[i + 1].x > s[i].x by {
        lemma_convex_lowest_rises(s, x2, i);
    }
}

/// The closed ring `s` started at its vertex `k`.
pub open spec fn rotate(s: Seq<Vert>, k: int) -> Seq<Vert> {
    s.subrange(k, s.len() - 1) + s.subrange(0, k) + seq![s[k]]
}

/// The place in `s` of vertex `i` of the ring started at vertex `k`, for
/// the vertices before the closing one.
pub open spec fn unrotated(s: Seq<Vert>, k: int, i: int) -> int {
    if k + i < s.len() - 1 {
        k + i
    } else {
        k + i - (s.len() - 1)
    }
}

/// A ring started at another vertex has the same vertices and the same
/// sides.
proof fn lemma_rotate_places(s: Seq<Vert>, k: int)
    requires
        s.len() >= 2,
        s[0] == s.last(),
        0 <= k < s.len() - 1,
    ensures
        rotate(s, k).len() == s.len(),
        rotate(s, k)[0] == rotate(s, k).last(),
        forall|i: int|
            0 <= i < s.len() - 1 ==> 0 <= #[trigger] unrotated(s, k, i) < s.len() - 1 && rotate(
                s,
                k,
            )[i] == s[unrotated(s, k, i)] && rotate(s, k)[i + 1] == s[unrotated(s, k, i) + 1],
{
    let n = s.len() as int;
    let r = rotate(s, k);
    assert forall|i: int| 0 <= i < n - 1 implies 0 <= #[trigger] unrotated(s, k, i) < n - 1 && r[i]
        == s[unrotated(s, k, i)] && r[i + 1] == s[unrotated(s, k, i) + 1] by {
        if i < n - 1 - k {
            assert(r[i] == s[k + i]);
        } else {
            assert(r[i] == s[i - (n - 1 - k)]);
        }
        if i + 1 < n - 1 - k {
            assert(r[i + 1] == s[k + i + 1]);
        } else if i + 1 < n - 1 {
            assert(r[i + 1] == s[i + 1 - (n - 1 - k)]);
        } else {
            assert(r[i + 1] == s[k]);
        }
    }
}

/// A convex ring that goes round to the left is one from whichever
/// vertex it starts.
pub proof fn lemma_rotate_convex(s: Seq<Vert>, k: int)
    requires
        strictly_convex_left(s),
        0 <= k < s.len() - 1,
    ensures
        strictly_convex_left(rotate(s, k)),
{
    let n = s.len() as int;
    let r = rotate(s, k);
    lemma_rotate_places(s, k);
    assert forall|i: int, j: int| 0 <= i < j < r.len() - 1 implies #[trigger] apart(r, i, j) by {
        let si = unrotated(s, k, i);
        let sj = unrotated(s, k, j);
        assert(r[i] == s[si] && r[j] == s[sj]);
        if si < sj {
            assert(apart(s, si, sj));
        } else {
            assert(apart(s, sj, si));
        }
    }
    assert forall|i: int, j: int|
        0 <= i < r.len() - 1 && 0 <= j < r.len() - 1 && r[j] != r[i] && r[j] != r[i + 1] implies #[trigger] left_of_side(
        r,
        i,
        j,
    ) by {
        let si = unrotated(s, k, i);
        let sj = unrotated(s, k, j);
        assert(r[i] == s[si] && r[i + 1] == s[si + 1] && r[j] == s[sj]);
        assert(left_of_side(s, si, sj));
    }
}

/// Whether a convex ring that goes round to the left is taken for a hole
/// does not depend on the vertex at which it starts, as long as the scan
/// line passes through none of its vertices: it never is.
pub proof fn lemma_convex_rotation(s: Seq<Vert>, k: int)
    requires
        strictly_convex_left(s),
        0 <= k < s.len() - 1,
        no_vertex_on(s, scan_line(s)),
        no_vertex_on(rotate(s, k), scan_line(rotate(s, k))),
    ensures
        spec_is_hole(rotate(s, k)) == spec_is_hole(s),
        !spec_is_hole(s),
{
    lemma_rotate_convex(s, k);
    lemma_convex_ring_is_outer(s);
    lemma_convex_ring_is_outer(rotate(s, k));
}

/// Vertex `j` of `s` lies strictly to the right of the side that leaves
/// vertex `i`.
pub open spec fn right_of_side(s: Seq<Vert>, i: int, j: int) -> bool {
    area2(s[i], s[i + 1], s[j]) < 0
}

/// The closed ring `s` is convex and goes round to the right: every
/// vertex lies strictly to the right of every side of which it is not an
/// end, and no vertex but the first comes twice.
pub open spec fn strictly_convex_right(s: Seq<Vert>) -> bool {
    &&& s.len() >= 4
    &&& s[0] == s.last()
    &&& forall|i: int, j: int| 0 <= i < j < s.len() - 1 ==> #[trigger] apart(s, i, j)
    &&& forall|i: int, j: int|
        0 <= i < s.len() - 1 && 0 <= j < s.len() - 1 && s[j] != s[i] && s[j] != s[i + 1]
            ==> #[trigger] right_of_side(s, i, j)
}

/// Segment `j` of `s` passes the line at `x2 / 2` from right to left.
pub open spec fn falls(s: Seq<Vert>, j: int, x2: int) -> bool {
    0 <= j < s.len() - 1 && 2 * s[j].x > x2 && x2 > 2 * s[j + 1].x
}

/// A ring that is right of a line at one vertex, and never passes it from
/// right to left, stays right of it.
proof fn lemma_stays_right(s: Seq<Vert>, x2: int, from: int, to: int)
    requires
        0 <= from <= to < s.len(),
        no_vertex_on(s, x2),
        2 * s[from].x > x2,
        forall|j: int| from <= j < to ==> !falls(s, j, x2),
    ensures
        2 * s[to].x > x2,
    decreases to - from,
{
    if from < to {
        lemma_stays_right(s, x2, from, to - 1);
        assert(!falls(s, to - 1, x2));
        assert(2 * s[to].x != x2);
    }
}

/// A closed ring that passes a line from left to right passes it from
/// right to left as well.
pub proof fn lemma_fall_exists(s: Seq<Vert>, x2: int, k: int)
    requires
        s.len() >= 2,
        s[0] == s.last(),
        0 <= k < s.len() - 1,
        no_vertex_on(s, x2),
        2 * s[k].x < x2,
        2 * s[k + 1].x > x2,
    ensures
        exists|j: int| falls(s, j, x2),
{
    if !exists|j: int| falls(s, j, x2) {
        assert forall|j: int| k + 1 <= j < s.len() - 1 implies !falls(s, j, x2) by {}
        lemma_stays_right(s, x2, k + 1, s.len() - 1);
        assert forall|j: int| 0 <= j < k implies !falls(s, j, x2) by {}
        lemma_stays_right(s, x2, 0, k);
    }
}

/// A segment passes a line at the same height whichever way it runs.
pub proof fn lemma_height_symmetric(l: Vert, r: Vert, x2: int)
    requires
        l.x != r.x,
    ensures
        y_den(l, r) > 0,
        y_den(r, l) > 0,
        y_num(l, r, x2) * y_den(r, l) == y_num(r, l, x2) * y_den(l, r),
{
    if l.y == r.y {
    } else {
        let d = r.x - l.x;
        let dy = r.y - l.y;
        let f = 2 * d * l.y + dy * (x2 - 2 * l.x);
        let g = 2 * (-d) * r.y + (-dy) * (x2 - 2 * r.x);
        assert(g == -f) by (nonlinear_arith)
            requires
                f == 2 * d * l.y + dy * (x2 - 2 * l.x),
                g == 2 * (-d) * r.y + (-dy) * (x2 - 2 * r.x),
                d == r.x - l.x,
                dy == r.y - l.y,
        ;
        assert(2 * (l.x - r.x) * r.y + (l.y - r.y) * (x2 - 2 * r.x) == g) by (nonlinear_arith)
            requires
                g == 2 * (-d) * r.y + (-dy) * (x2 - 2 * r.x),
                d == r.x - l.x,
                dy == r.y - l.y,
        ;
        if d > 0 {
            assert(y_num(l, r, x2) == f && y_den(l, r) == 2 * d);
            assert(y_num(r, l, x2) == -g && y_den(r, l) == 2 * d);
        } else {
            assert(y_num(l, r, x2) == -f && y_den(l, r) == 2 * (-d));
            assert(y_num(r, l, x2) == g && y_den(r, l) == 2 * (-d));
        }
    }
}

/// The ends of a segment that passes a line from right to left lie to the
/// right of a side of a convex ring that passes it from left to right, or
/// on it, and not both on it.
proof fn lemma_fall_right_of_rise(s: Seq<Vert>, x2: int, k: int, j: int)
    requires
        strictly_convex_right(s),
        0 <= k < s.len() - 1,
        2 * s[k].x < x2,
        x2 < 2 * s[k + 1].x,
        falls(s, j, x2),
    ensures
        area2(s[k], s[k + 1], s[j]) <= 0,
        area2(s[k], s[k + 1], s[j + 1]) <= 0,
        area2(s[k], s[k + 1], s[j]) + area2(s[k], s[k + 1], s[j + 1]) < 0,
{
    let n = s.len() as int;
    let a = s[k];
    let b = s[k + 1];
    let u = s[j];
    let v = s[j + 1];
    let jv = if j + 1 == n - 1 { 0 } else { j + 1 };
    assert(s[jv] == v);
    lemma_area_of_end(a, b);
    if u != a && u != b {
        assert(right_of_side(s, k, j));
    }
    if v != a && v != b {
        assert(right_of_side(s, k, jv));
    }
    if area2(a, b, u) + area2(a, b, v) == 0 {
        assert(u == b && v == a);
        assert(apart(s, 0, 1) && apart(s, 0, 2) && apart(s, 1, 2));
        let w = if s[0] != a && s[0] != b {
            0int
        } else if s[1] != a && s[1] != b {
            1int
        } else {
            2int
        };
        assert(s[w] != a && s[w] != b);
        assert(right_of_side(s, k, w));
        assert(right_of_side(s, j, w));
        assert(area2(b, a, s[w]) == -area2(a, b, s[w]));
        assert(false);
    }
}

/// On every scan line that passes through none of its vertices, the
/// lowest segment of a convex ring that goes round to the right runs from
/// right to left.
pub proof fn lemma_convex_lowest_falls(s: Seq<Vert>, x2: int, k: int)
    requires
        strictly_convex_right(s),
        no_vertex_on(s, x2),
        is_lowest_crossing(s, x2, k),
    ensures
        s[k + 1].x < s[k].x,
{
    if s[k + 1].x >= s[k].x {
        assert(2 * s[k].x < x2 && x2 < 2 * s[k + 1].x);
        lemma_fall_exists(s, x2, k);
        let j = choose|j: int| falls(s, j, x2);
        lemma_fall_right_of_rise(s, x2, k, j);
        let a = s[k];
        let b = s[k + 1];
        let u = s[j];
        let v = s[j + 1];
        lemma_area_of_end(a, b);
        assert(area2(b, a, u) == -area2(a, b, u));
        assert(area2(b, a, v) == -area2(a, b, v));
        // the two segments turned round
        lemma_below_line(b, a, v, u, x2);
        lemma_height_symmetric(u, v, x2);
        lemma_height_symmetric(a, b, x2);
        lemma_ratio_order(
            y_num(u, v, x2),
            y_den(u, v),
            y_num(v, u, x2),
            y_den(v, u),
            y_num(b, a, x2),
            y_den(b, a),
        );
        lemma_ratio_order(
            y_num(u, v, x2),
            y_den(u, v),
            y_num(b, a, x2),
            y_den(b, a),
            y_num(a, b, x2),
            y_den(a, b),
        );
        assert(y_less(s, j, k, x2));
        assert(crosses(s, j, x2));
        assert(false);
    }
}

/// The denominator of a height is positive.
proof fn lemma_den_positive(l: Vert, r: Vert)
    ensures
        y_den(l, r) > 0,
{
}

/// Where a segment among the first `n` crosses a line, one of them is the
/// lowest.
pub proof fn lemma_lowest_to_exists(s: Seq<Vert>, x2: int, n: int)
    requires
        0 <= n <= s.len() - 1,
        exists|c: int| c < n && crosses(s, c, x2),
    ensures
        exists|i: int| is_lowest_crossing_to(s, x2, i, n),
    decreases n,
{
    let last = n - 1;
    if exists|c: int| c < last && crosses(s, c, x2) {
        lemma_lowest_to_exists(s, x2, last);
        let i0 = choose|i: int| is_lowest_crossing_to(s, x2, i, last);
        if crosses(s, last, x2) && y_less(s, last, i0, x2) {
            assert forall|j: int| j < n && #[trigger] crosses(s, j, x2) implies (j < last
                ==> y_less(s, last, j, x2)) && (j >= last ==> !y_less(s, j, last, x2)) by {
                if j < last {
                    lemma_den_positive(s[last], s[last + 1]);
                    lemma_den_positive(s[i0], s[i0 + 1]);
                    lemma_den_positive(s[j], s[j + 1]);
                    lemma_ratio_order(
                        y_num(s[last], s[last + 1], x2),
                        y_den(s[last], s[last + 1]),
                        y_num(s[i0], s[i0 + 1], x2),
                        y_den(s[i0], s[i0 + 1]),
                        y_num(s[j], s[j + 1], x2),
                        y_den(s[j], s[j + 1]),
                    );
                }
            }
            assert(is_lowest_crossing_to(s, x2, last, n));
        } else {
            assert(is_lowest_crossing_to(s, x2, i0, n));
        }
    } else {
        let c = choose|c: int| c < n && crosses(s, c, x2);
        assert(c == last);
        assert(is_lowest_crossing_to(s, x2, last, n));
    }
}

/// A convex ring that goes round to the right, with a scan line that
/// passes through none of its vertices, is taken for a hole.
pub proof fn lemma_convex_ring_is_hole(s: Seq<Vert>)
    requires
        strictly_convex_right(s),
        no_vertex_on(s, scan_line(s)),
    ensures
        spec_is_hole(s),
{
    let x2 = scan_line(s);
    // the ring has vertices with different abscissae, and the scan line
    // lies between the first two such
    assert(apart(s, 0, 1) && apart(s, 0, 2) && apart(s, 1, 2));
    assert(right_of_side(s, 0, 2));
    if s[0].x == s[1].x && s[1].x == s[2].x {
        assert(area2(s[0], s[1], s[2]) == 0) by (nonlinear_arith)
            requires
                area2(s[0], s[1], s[2]) == (s[1].x - s[0].x) * (s[2].y - s[0].y) - (s[1].y
                    - s[0].y) * (s[2].x - s[0].x),
                s[1].x - s[0].x == 0,
                s[2].x - s[0].x == 0,
        ;
    }
    let c: int = if s[1].x != s[0].x { 1 } else { 2 };
    assert(is_first_x_change(s, c));
    assert forall|c2: int| is_first_x_change(s, c2) implies c2 == c by {
        lemma_first_x_change_unique(s, c2, c);
    }
    assert(x2 == s[0].x + s[c].x);
    assert(crosses(s, c - 1, x2));
    let sides = s.len() - 1;
    lemma_lowest_to_exists(s, x2, sides);
    let i = choose|i: int| is_lowest_crossing_to(s, x2, i, sides);
    assert(is_lowest_crossing(s, x2, i));
    lemma_convex_lowest_falls(s, x2, i);
}

/// Whether a convex ring is taken for a hole does not depend on the
/// vertex at which it starts, as long as the scan line passes through
/// none of its vertices: a ring that goes round to the right always is.
pub proof fn lemma_convex_hole_rotation(s: Seq<Vert>, k: int)
    requires
        strictly_convex_right(s),
        0 <= k < s.len() - 1,
        no_vertex_on(s, scan_line(s)),
        no_vertex_on(rotate(s, k), scan_line(rotate(s, k))),
    ensures
        spec_is_hole(rotate(s, k)) == spec_is_hole(s),
        spec_is_hole(s),
{
    let r = rotate(s, k);
    lemma_rotate_places(s, k);
    assert forall|i: int, j: int| 0 <= i < j < r.len() - 1 implies #[trigger] apart(r, i, j) by {
        let si = unrotated(s, k, i);
        let sj = unrotated(s, k, j);
        assert(r[i] == s[si] && r[j] == s[sj]);
        if si < sj {
            assert(apart(s, si, sj));
        } else {
            assert(apart(s, sj, si));
        }
    }
    assert forall|i: int, j: int|
        0 <= i < r.len() - 1 && 0 <= j < r.len() - 1 && r[j] != r[i] && r[j] != r[i + 1] implies #[trigger] right_of_side(
        r,
        i,
        j,
    ) by {
        let si = unrotated(s, k, i);
        let sj = unrotated(s, k, j);
        assert(r[i] == s[si] && r[i + 1] == s[si + 1] && r[j] == s[sj]);
        assert(right_of_side(s, si, sj));
    }
    lemma_convex_ring_is_hole(s);
    lemma_convex_ring_is_hole(r);
}

} // verus!
