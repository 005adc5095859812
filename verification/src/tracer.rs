//! On which side of a boundary segment the foreground lies.

use vstd::prelude::*;
use crate::earcut::area2;
use crate::vert::{quad_segments, spec_xy_vert, QuadCase};

verus! {

/// The reference point at the corner of a cell that a case speaks of in
/// its `c`-th place: top left, top right, bottom right, bottom left.
pub open spec fn corner_point(c: int) -> u8 {
    if c == 0 {
        0
    } else if c == 1 {
        2
    } else if c == 2 {
        8
    } else {
        6
    }
}

/// Whether the `c`-th corner of the cell is foreground.
pub open spec fn corner_dark(quad: QuadCase, c: int) -> bool {
    if c == 0 {
        quad.0
    } else if c == 1 {
        quad.1
    } else if c == 2 {
        quad.2
    } else {
        quad.3
    }
}

/// Twice the signed area of the triangle from the start of a segment
/// over its end to the reference point `p` of the same cell: positive
/// when `p` lies to the left of the segment as it is gone along.
pub open spec fn side_of(seg: (u8, u8), p: u8) -> int {
    let ux = seg.1 % 3 - seg.0 % 3;
    let uy = seg.0 / 3 - seg.1 / 3;
    let vx = p % 3 - seg.0 % 3;
    let vy = seg.0 / 3 - p / 3;
    ux * vy - uy * vx
}

/// Wherever the cell lies, a reference point is on the side of a segment
/// that `side_of` tells.
pub proof fn lemma_side_of(seg: (u8, u8), p: u8, x: u32, y: u32, height: u32)
    ensures
        area2(
            spec_xy_vert(seg.0, x, y, height),
            spec_xy_vert(seg.1, x, y, height),
            spec_xy_vert(p, x, y, height),
        ) == side_of(seg, p),
{
    let a = spec_xy_vert(seg.0, x, y, height);
    let b = spec_xy_vert(seg.1, x, y, height);
    let c = spec_xy_vert(p, x, y, height);
    let ux = seg.1 % 3 - seg.0 % 3;
    let uy = seg.0 / 3 - seg.1 / 3;
    let vx = p % 3 - seg.0 % 3;
    let vy = seg.0 / 3 - p / 3;
    assert(b.x - a.x == ux);
    assert(b.y - a.y == uy);
    assert(c.x - a.x == vx);
    assert(c.y - a.y == vy);
    assert((b.x - a.x) * (c.y - a.y) - (b.y - a.y) * (c.x - a.x) == ux * vy - uy * vx)
        by (nonlinear_arith)
        requires
            b.x - a.x == ux,
            b.y - a.y == uy,
            c.x - a.x == vx,
            c.y - a.y == vy,
    ;
}

/// The foreground lies to the left of the segment: a corner of the cell
/// lies to its left, and every corner that does is foreground.
pub open spec fn foreground_on_left(quad: QuadCase, seg: (u8, u8)) -> bool {
    &&& exists|c: int| 0 <= c < 4 && #[trigger] side_of(seg, corner_point(c)) > 0
    &&& forall|c: int|
        0 <= c < 4 && #[trigger] side_of(seg, corner_point(c)) > 0 ==> corner_dark(quad, c)
}

/// A segment with a corner of the cell to its left, and none there but
/// foreground corners, has the foreground on its left.
proof fn lemma_sides_tell(quad: QuadCase, seg: (u8, u8))
    requires
        side_of(seg, 0u8) > 0 || side_of(seg, 2u8) > 0 || side_of(seg, 8u8) > 0 || side_of(
            seg,
            6u8,
        ) > 0,
        side_of(seg, 0u8) > 0 ==> quad.0,
        side_of(seg, 2u8) > 0 ==> quad.1,
        side_of(seg, 8u8) > 0 ==> quad.2,
        side_of(seg, 6u8) > 0 ==> quad.3,
    ensures
        foreground_on_left(quad, seg),
{
    assert(corner_point(0) == 0u8 && corner_point(1) == 2u8 && corner_point(2) == 8u8
        && corner_point(3) == 6u8);
    let c: int = if side_of(seg, 0u8) > 0 {
        0
    } else if side_of(seg, 2u8) > 0 {
        1
    } else if side_of(seg, 8u8) > 0 {
        2
    } else {
        3
    };
    assert(side_of(seg, corner_point(c)) > 0);
}

/// The side of a segment on which a reference point lies, by the steps
/// from the start of the segment to its end and to the point.
proof fn lemma_side_value(seg: (u8, u8), p: u8, ux: int, uy: int, vx: int, vy: int)
    requires
        ux == seg.1 % 3 - seg.0 % 3,
        uy == seg.0 / 3 - seg.1 / 3,
        vx == p % 3 - seg.0 % 3,
        vy == seg.0 / 3 - p / 3,
    ensures
        side_of(seg, p) == ux * vy - uy * vx,
{
}

/// Every boundary segment inside a cell has the foreground on its left,
/// but the one of the case in which the two lower corners alone are
/// foreground: that one has it on its right.
pub proof fn lemma_foreground_on_left(quad: QuadCase, k: int)
    requires
        0 <= k < quad_segments(quad).len(),
        quad != (false, false, true, true),
    ensures
        foreground_on_left(quad, quad_segments(quad)[k]),
{
    if quad == (false, false, false, true) {
        lemma_side_value((7u8, 3u8), 0u8, -1, 1, -1, 2);
        lemma_side_value((7u8, 3u8), 2u8, -1, 1, 1, 2);
        lemma_side_value((7u8, 3u8), 8u8, -1, 1, 1, 0);
        lemma_side_value((7u8, 3u8), 6u8, -1, 1, -1, 0);
        lemma_sides_tell(quad, (7u8, 3u8));
    } else if quad == (false, false, true, false) {
        lemma_side_value((5u8, 7u8), 0u8, -1, -1, -2, 1);
        lemma_side_value((5u8, 7u8), 2u8, -1, -1, 0, 1);
        lemma_side_value((5u8, 7u8), 8u8, -1, -1, 0, -1);
        lemma_side_value((5u8, 7u8), 6u8, -1, -1, -2, -1);
        lemma_sides_tell(quad, (5u8, 7u8));
    } else if quad == (false, true, false, false) {
        lemma_side_value((1u8, 5u8), 0u8, 1, -1, -1, 0);
        lemma_side_value((1u8, 5u8), 2u8, 1, -1, 1, 0);
        lemma_side_value((1u8, 5u8), 8u8, 1, -1, 1, -2);
        lemma_side_value((1u8, 5u8), 6u8, 1, -1, -1, -2);
        lemma_sides_tell(quad, (1u8, 5u8));
    } else if quad == (false, true, false, true) {
        lemma_side_value((1u8, 5u8), 0u8, 1, -1, -1, 0);
        lemma_side_value((1u8, 5u8), 2u8, 1, -1, 1, 0);
        lemma_side_value((1u8, 5u8), 8u8, 1, -1, 1, -2);
        lemma_side_value((1u8, 5u8), 6u8, 1, -1, -1, -2);
        lemma_sides_tell(quad, (1u8, 5u8));
        lemma_side_value((7u8, 3u8), 0u8, -1, 1, -1, 2);
        lemma_side_value((7u8, 3u8), 2u8, -1, 1, 1, 2);
        lemma_side_value((7u8, 3u8), 8u8, -1, 1, 1, 0);
        lemma_side_value((7u8, 3u8), 6u8, -1, 1, -1, 0);
        lemma_sides_tell(quad, (7u8, 3u8));
    } else if quad == (false, true, true, false) {
        lemma_side_value((1u8, 7u8), 0u8, 0, -2, -1, 0);
        lemma_side_value((1u8, 7u8), 2u8, 0, -2, 1, 0);
        lemma_side_value((1u8, 7u8), 8u8, 0, -2, 1, -2);
        lemma_side_value((1u8, 7u8), 6u8, 0, -2, -1, -2);
        lemma_sides_tell(quad, (1u8, 7u8));
    } else if quad == (false, true, true, true) {
        lemma_side_value((1u8, 3u8), 0u8, -1, -1, -1, 0);
        lemma_side_value((1u8, 3u8), 2u8, -1, -1, 1, 0);
        lemma_side_value((1u8, 3u8), 8u8, -1, -1, 1, -2);
        lemma_side_value((1u8, 3u8), 6u8, -1, -1, -1, -2);
        lemma_sides_tell(quad, (1u8, 3u8));
    } else if quad == (true, false, false, false) {
        lemma_side_value((3u8, 1u8), 0u8, 1, 1, 0, 1);
        lemma_side_value((3u8, 1u8), 2u8, 1, 1, 2, 1);
        lemma_side_value((3u8, 1u8), 8u8, 1, 1, 2, -1);
        lemma_side_value((3u8, 1u8), 6u8, 1, 1, 0, -1);
        lemma_sides_tell(quad, (3u8, 1u8));
    } else if quad == (true, false, false, true) {
        lemma_side_value((7u8, 1u8), 0u8, 0, 2, -1, 2);
        lemma_side_value((7u8, 1u8), 2u8, 0, 2, 1, 2);
        lemma_side_value((7u8, 1u8), 8u8, 0, 2, 1, 0);
        lemma_side_value((7u8, 1u8), 6u8, 0, 2, -1, 0);
        lemma_sides_tell(quad, (7u8, 1u8));
    } else if quad == (true, false, true, false) {
        lemma_side_value((3u8, 1u8), 0u8, 1, 1, 0, 1);
        lemma_side_value((3u8, 1u8), 2u8, 1, 1, 2, 1);
        lemma_side_value((3u8, 1u8), 8u8, 1, 1, 2, -1);
        lemma_side_value((3u8, 1u8), 6u8, 1, 1, 0, -1);
        lemma_sides_tell(quad, (3u8, 1u8));
        lemma_side_value((5u8, 7u8), 0u8, -1, -1, -2, 1);
        lemma_side_value((5u8, 7u8), 2u8, -1, -1, 0, 1);
        lemma_side_value((5u8, 7u8), 8u8, -1, -1, 0, -1);
        lemma_side_value((5u8, 7u8), 6u8, -1, -1, -2, -1);
        lemma_sides_tell(quad, (5u8, 7u8));
    } else if quad == (true, false, true, true) {
        lemma_side_value((5u8, 1u8), 0u8, -1, 1, -2, 1);
        lemma_side_value((5u8, 1u8), 2u8, -1, 1, 0, 1);
        lemma_side_value((5u8, 1u8), 8u8, -1, 1, 0, -1);
        lemma_side_value((5u8, 1u8), 6u8, -1, 1, -2, -1);
        lemma_sides_tell(quad, (5u8, 1u8));
    } else if quad == (true, true, false, false) {
        lemma_side_value((3u8, 5u8), 0u8, 2, 0, 0, 1);
        lemma_side_value((3u8, 5u8), 2u8, 2, 0, 2, 1);
        lemma_side_value((3u8, 5u8), 8u8, 2, 0, 2, -1);
        lemma_side_value((3u8, 5u8), 6u8, 2, 0, 0, -1);
        lemma_sides_tell(quad, (3u8, 5u8));
    } else if quad == (true, true, false, true) {
        lemma_side_value((7u8, 5u8), 0u8, 1, 1, -1, 2);
        lemma_side_value((7u8, 5u8), 2u8, 1, 1, 1, 2);
        lemma_side_value((7u8, 5u8), 8u8, 1, 1, 1, 0);
        lemma_side_value((7u8, 5u8), 6u8, 1, 1, -1, 0);
        lemma_sides_tell(quad, (7u8, 5u8));
    } else if quad == (true, true, true, false) {
        lemma_side_value((3u8, 7u8), 0u8, 1, -1, 0, 1);
        lemma_side_value((3u8, 7u8), 2u8, 1, -1, 2, 1);
        lemma_side_value((3u8, 7u8), 8u8, 1, -1, 2, -1);
        lemma_side_value((3u8, 7u8), 6u8, 1, -1, 0, -1);
        lemma_sides_tell(quad, (3u8, 7u8));
    } else {
        assert(quad_segments(quad).len() == 0);
    }
}

/// Where the two lower corners alone are foreground, the segment has
/// the foreground on its right: the two upper corners lie to its left.
pub proof fn lemma_lower_half_on_right()
    ensures
        quad_segments((false, false, true, true)) == seq![(3u8, 5u8)],
        side_of((3u8, 5u8), corner_point(0)) > 0,
        side_of((3u8, 5u8), corner_point(1)) > 0,
        side_of((3u8, 5u8), corner_point(2)) < 0,
        side_of((3u8, 5u8), corner_point(3)) < 0,
{
    lemma_side_value((3u8, 5u8), 0u8, 2, 0, 0, 1);
    lemma_side_value((3u8, 5u8), 2u8, 2, 0, 2, 1);
    lemma_side_value((3u8, 5u8), 8u8, 2, 0, 2, -1);
    lemma_side_value((3u8, 5u8), 6u8, 2, 0, 0, -1);
}

} // verus!
