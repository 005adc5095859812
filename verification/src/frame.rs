//! The outline of an image that is foreground all over: one ring along
//! the border of the image.

use vstd::prelude::*;
use crate::edge::{
    crosses, is_first_x_change, is_lowest_crossing, lemma_first_x_change_unique,
    lemma_lowest_crossing_unique, scan_line, spec_is_hole, y_den, y_less, y_num,
};
use crate::edge_collection::{
    attached, connect_at_back, first_match, ring_matches, same_angle, spec_add_edge,
    spec_connect, spec_join, spec_tip_redundant, turn_cross, turn_dot, turns_same,
};
use crate::raster::Rgba;
use crate::vert::{cell_segments, spec_xy_e, spec_xy_vert, Vert, MAX_SIDE};
use crate::{
    cell_rings, column_segments, is_foreground, spec_assemble, spec_border_case, spec_cell_case,
    spec_edge_img, traced_segments,
};

verus! {

/// The lattice point `(x, y)`.
pub open spec fn pt(x: int, y: int) -> Vert {
    Vert { x: x as i64, y: y as i64 }
}

/// Every pixel of the image is foreground.
pub open spec fn all_foreground(pixels: Seq<Rgba>, width: u32, height: u32) -> bool {
    forall|x: u32, y: u32| x < width && y < height ==> #[trigger] is_foreground(pixels, width, x, y)
}

/// The rings that the assembler holds after it has taken in the segments
/// `segs`, starting from the rings `state`.
pub open spec fn assemble_from(state: (Seq<Seq<Vert>>, Seq<Seq<Vert>>), segs: Seq<Seq<Vert>>) -> (
    Seq<Seq<Vert>>,
    Seq<Seq<Vert>>,
)
    decreases segs.len(),
{
    if segs.len() == 0 {
        state
    } else {
        let before = assemble_from(state, segs.drop_last());
        spec_add_edge(before.0, before.1, segs.last())
    }
}

/// Taking in two lists of segments one after the other is taking in the
/// lists joined.
pub proof fn lemma_assemble_add(a: Seq<Seq<Vert>>, b: Seq<Seq<Vert>>)
    ensures
        spec_assemble(a + b) == assemble_from(spec_assemble(a), b),
    decreases b.len(),
{
    if b.len() == 0 {
        assert(a + b =~= a);
    } else {
        lemma_assemble_add(a, b.drop_last());
        assert((a + b).drop_last() =~= a + b.drop_last());
        assert((a + b).last() == b.last());
    }
}

/// A join of fewer than six vertices has no staircase to flatten.
pub proof fn lemma_connect_is_join(t: Seq<Vert>, o: Seq<Vert>, joined: Seq<Vert>)
    requires
        joined == spec_join(t, o),
        joined.len() < 6,
    ensures
        spec_connect(t, o) == joined,
{
    reveal(spec_connect);
}

/// A join whose last two corners turn the same way has no staircase at
/// its tail.
pub proof fn lemma_connect_no_staircase(t: Seq<Vert>, o: Seq<Vert>, joined: Seq<Vert>)
    requires
        joined == spec_join(t, o),
        joined.len() >= 6,
        turns_same(joined, joined.len() - 2, joined.len() - 4),
    ensures
        spec_connect(t, o) == joined,
{
    reveal(spec_connect);
}

/// One segment taken in.
pub proof fn lemma_assemble_one(state: (Seq<Seq<Vert>>, Seq<Seq<Vert>>), s1: Seq<Vert>)
    ensures
        assemble_from(state, seq![s1]) == spec_add_edge(state.0, state.1, s1),
{
    assert(seq![s1].drop_last() =~= Seq::<Seq<Vert>>::empty());
    assert(assemble_from(state, Seq::<Seq<Vert>>::empty()) == state);
    assert(seq![s1].last() == s1);
}

/// Segments taken in one after the other.
pub proof fn lemma_assemble_push(
    state: (Seq<Seq<Vert>>, Seq<Seq<Vert>>),
    segs: Seq<Seq<Vert>>,
    s: Seq<Vert>,
)
    ensures
        assemble_from(state, segs.push(s)) == spec_add_edge(
            assemble_from(state, segs).0,
            assemble_from(state, segs).1,
            s,
        ),
{
    assert(segs.push(s).drop_last() =~= segs);
}

/// The ring `r` has no staircase that would be flattened: it is short, or
/// its last two corners turn the same way.
pub open spec fn plain_tail(r: Seq<Vert>) -> bool {
    r.len() < 6 || turns_same(r, r.len() - 2, r.len() - 4)
}

/// A segment that fits no open ring becomes an open ring itself.
pub proof fn lemma_step_new(open: Seq<Seq<Vert>>, closed: Seq<Seq<Vert>>, x: Seq<Vert>)
    requires
        x.len() == 2,
        x[0] != x[1],
        open.len() <= 1,
        forall|k: int| 0 <= k < open.len() ==> !ring_matches(#[trigger] open[k], x),
    ensures
        spec_add_edge(open, closed, x) == (open.push(x), closed),
{
    if open.len() == 1 {
        assert(!ring_matches(open[0], x));
        assert(first_match(open, x, 1) == 1);
        assert(first_match(open, x, 0) == 1);
    } else {
        assert(first_match(open, x, 0) == 0);
    }
}

/// The ring that a segment makes when it is put before the first vertex
/// of the open ring `t`.
pub open spec fn put_before(t: Seq<Vert>, x: Seq<Vert>) -> Seq<Vert> {
    seq![x[0]] + (if spec_tip_redundant(x[0], t[0], t[1]) {
        t.drop_first()
    } else {
        t
    })
}

/// A segment that ends where the open ring at place `a` starts, and fits
/// nothing else, is put before that ring.
pub proof fn lemma_step_front(open: Seq<Seq<Vert>>, closed: Seq<Seq<Vert>>, a: int, x: Seq<Vert>)
    requires
        x.len() == 2,
        x[0] != x[1],
        1 <= open.len() <= 2,
        0 <= a < open.len(),
        open[a].len() >= 2,
        open[a][0] != open[a].last(),
        x[1] == open[a][0],
        x[0] != open[a].last(),
        forall|k: int| 0 <= k < open.len() && k != a ==> !ring_matches(#[trigger] open[k], x),
        plain_tail(put_before(open[a], x)),
    ensures
        spec_add_edge(open, closed, x) == (open.update(a, put_before(open[a], x)), closed),
{
    let t = open[a];
    let r = put_before(t, x);
    assert(ring_matches(t, x));
    if a == 0 {
        assert(first_match(open, x, 0) == 0);
        if open.len() == 2 {
            assert(!ring_matches(open[1], x));
            assert(first_match(open, x, 2) == 2);
            assert(first_match(open, x, 1) == 2);
        } else {
            assert(first_match(open, x, 1) == 1);
        }
    } else {
        assert(!ring_matches(open[0], x));
        assert(first_match(open, x, 1) == 1);
        assert(first_match(open, x, 0) == 1);
        assert(first_match(open, x, 2) == 2);
    }
    assert(!connect_at_back(t, x));
    assert(x.drop_last() =~= seq![x[0]]);
    assert(seq![x[0]].reverse() =~= seq![x[0]]);
    assert(attached(t, x) =~= seq![x[0]]);
    assert(spec_join(t, x) =~= r);
    if r.len() < 6 {
        lemma_connect_is_join(t, x, r);
    } else {
        lemma_connect_no_staircase(t, x, r);
    }
    assert(r[0] == x[0]);
    assert(r.last() == t.last());
}

/// The ring that a segment and the open ring `b` make when they are put
/// after the last vertex of the open ring `a`.
pub open spec fn put_between(a: Seq<Vert>, x: Seq<Vert>, b: Seq<Vert>) -> Seq<Vert> {
    let first = (if spec_tip_redundant(a[a.len() - 2], a.last(), x[1]) {
        a.drop_last()
    } else {
        a
    }).push(x[1]);
    (if spec_tip_redundant(first[first.len() - 2], first.last(), b[1]) {
        first.drop_last()
    } else {
        first
    }) + b.drop_first()
}

/// The ring that a segment makes when it is put after the last vertex of
/// the open ring `a`.
pub open spec fn put_after(a: Seq<Vert>, x: Seq<Vert>) -> Seq<Vert> {
    (if spec_tip_redundant(a[a.len() - 2], a.last(), x[1]) {
        a.drop_last()
    } else {
        a
    }).push(x[1])
}

/// A segment that starts where the first of two open rings ends, and
/// ends where the second starts, joins the two.
pub proof fn lemma_step_bridge(open: Seq<Seq<Vert>>, closed: Seq<Seq<Vert>>, x: Seq<Vert>)
    requires
        x.len() == 2,
        x[0] != x[1],
        open.len() == 2,
        open[0].len() >= 2,
        open[1].len() >= 2,
        x[0] == open[0].last(),
        x[1] == open[1][0],
        open[0][0] != x[0],
        open[0][0] != x[1],
        open[0][0] != open[1].last(),
        open[1].last() != x[0],
        open[1].last() != x[1],
        put_after(open[0], x).len() < 6,
        put_between(open[0], x, open[1]).len() < 6,
    ensures
        spec_add_edge(open, closed, x) == (seq![put_between(open[0], x, open[1])], closed),
{
    let a = open[0];
    let b = open[1];
    assert(ring_matches(a, x));
    assert(ring_matches(b, x));
    assert(first_match(open, x, 0) == 0);
    assert(first_match(open, x, 1) == 1);
    // the segment goes on after the first ring
    assert(x.drop_first() =~= seq![x[1]]);
    assert(attached(a, x) =~= seq![x[1]]);
    let r1 = put_after(a, x);
    assert(spec_join(a, x) =~= r1);
    lemma_connect_is_join(a, x, r1);
    assert(r1.last() == x[1]);
    assert(r1[0] == a[0]);
    // the second ring goes on after that
    assert(connect_at_back(r1, b));
    assert(attached(r1, b) =~= b.drop_first());
    let r2 = put_between(a, x, b);
    assert(spec_join(r1, b) =~= r2);
    lemma_connect_is_join(r1, b, r2);
    assert(r2[0] == a[0]);
    assert(r2.last() == b.last());
    assert(open.remove(1).update(0, r2) =~= seq![r2]);
}

/// A segment that starts where the only open ring ends and ends where it
/// starts closes the ring.
pub proof fn lemma_step_close(open: Seq<Seq<Vert>>, closed: Seq<Seq<Vert>>, x: Seq<Vert>)
    requires
        x.len() == 2,
        x[0] != x[1],
        open.len() == 1,
        open[0].len() >= 2,
        x[0] == open[0].last(),
        x[1] == open[0][0],
        plain_tail(put_after(open[0], x)),
    ensures
        spec_add_edge(open, closed, x) == (
            Seq::<Seq<Vert>>::empty(),
            closed.push(put_after(open[0], x)),
        ),
{
    let t = open[0];
    assert(ring_matches(t, x));
    assert(first_match(open, x, 0) == 0);
    assert(first_match(open, x, 1) == 1);
    assert(x.drop_first() =~= seq![x[1]]);
    assert(attached(t, x) =~= seq![x[1]]);
    let r = put_after(t, x);
    assert(spec_join(t, x) =~= r);
    if r.len() < 6 {
        lemma_connect_is_join(t, x, r);
    } else {
        lemma_connect_no_staircase(t, x, r);
    }
    assert(r[0] == t[0]);
    assert(r.last() == x[1]);
    assert(open.remove(0) =~= Seq::<Seq<Vert>>::empty());
}

/// Three vertices at one height lie on a line.
pub proof fn lemma_level_redundant(l: Vert, m: Vert, r: Vert)
    requires
        l.y == m.y,
        m.y == r.y,
        l.x != m.x,
        m.x != r.x,
    ensures
        spec_tip_redundant(l, m, r),
{
    assert((m.y - l.y) * (r.x - m.x) == 0) by (nonlinear_arith)
        requires
            m.y - l.y == 0,
    ;
    assert((r.y - m.y) * (m.x - l.x) == 0) by (nonlinear_arith)
        requires
            r.y - m.y == 0,
    ;
}

/// Three vertices with one abscissa lie on a line.
pub proof fn lemma_upright_redundant(l: Vert, m: Vert, r: Vert)
    requires
        l.x == m.x,
        m.x == r.x,
    ensures
        spec_tip_redundant(l, m, r),
{
}

/// A vertex at which an upright side meets a side that is not upright
/// does not lie on a line with its neighbours.
pub proof fn lemma_corner_not_redundant(l: Vert, m: Vert, r: Vert)
    requires
        (l.x == m.x && m.x != r.x) || (l.x != m.x && m.x == r.x),
    ensures
        !spec_tip_redundant(l, m, r),
{
}

/// The segment from `a` to `b`.
pub open spec fn seg(a: Vert, b: Vert) -> Seq<Vert> {
    seq![a, b]
}

/// Reference point `i` of the cell at `(x, y)` when the top row of pixels
/// lies at height `m`.
pub open spec fn ref_pt(i: int, x: int, y: int, m: int) -> Vert {
    pt(2 * x + i % 3, m - 2 * y - i / 3)
}

/// The segments of a cell, all of whose corners are foreground, along the
/// sides of it that lie on the border of the image.
pub open spec fn frame_cell(w: int, h: int, x: int, y: int) -> Seq<Seq<Vert>> {
    let m = 2 * (h - 1);
    (if y == 0 {
        seq![
            seg(ref_pt(1, x, y, m), ref_pt(0, x, y, m)),
            seg(ref_pt(2, x, y, m), ref_pt(1, x, y, m)),
        ]
    } else {
        Seq::<Seq<Vert>>::empty()
    }) + (if x == w - 2 {
        seq![
            seg(ref_pt(5, x, y, m), ref_pt(2, x, y, m)),
            seg(ref_pt(8, x, y, m), ref_pt(5, x, y, m)),
        ]
    } else {
        Seq::<Seq<Vert>>::empty()
    }) + (if y == h - 2 {
        seq![
            seg(ref_pt(7, x, y, m), ref_pt(8, x, y, m)),
            seg(ref_pt(6, x, y, m), ref_pt(7, x, y, m)),
        ]
    } else {
        Seq::<Seq<Vert>>::empty()
    }) + (if x == 0 {
        seq![
            seg(ref_pt(3, x, y, m), ref_pt(6, x, y, m)),
            seg(ref_pt(0, x, y, m), ref_pt(3, x, y, m)),
        ]
    } else {
        Seq::<Seq<Vert>>::empty()
    })
}

/// In an image that is foreground all over, a cell has segments along the
/// border of the image only.
pub proof fn lemma_frame_cell(pixels: Seq<Rgba>, width: u32, height: u32, x: u32, y: u32)
    requires
        all_foreground(pixels, width, height),
        x + 1 < width,
        y + 1 < height,
    ensures
        cell_rings(pixels, width, height, x, y) == frame_cell(
            width as int,
            height as int,
            x as int,
            y as int,
        ),
{
    let x1 = (x + 1) as u32;
    let y1 = (y + 1) as u32;
    assert(is_foreground(pixels, width, x, y));
    assert(is_foreground(pixels, width, x1, y));
    assert(is_foreground(pixels, width, x1, y1));
    assert(is_foreground(pixels, width, x, y1));
    let quad = spec_cell_case(pixels, width, x, y);
    assert(quad == (true, true, true, true));
    let border = spec_border_case(width, height, x, y);
    let rows = (height - 1) as u32;
    let m = 2 * (height - 1);
    let segs = cell_segments(border, quad);
    let cell = cell_rings(pixels, width, height, x, y);
    let want = frame_cell(width as int, height as int, x as int, y as int);
    assert forall|i: u8| i <= 8 implies #[trigger] spec_xy_vert(i, x, y, rows) == ref_pt(
        i as int,
        x as int,
        y as int,
        m,
    ) by {}
    let top: Seq<(u8, u8)> = if border.0 {
        seq![(1u8, 0u8), (2u8, 1u8)]
    } else {
        seq![]
    };
    let right: Seq<(u8, u8)> = if border.1 {
        seq![(5u8, 2u8), (8u8, 5u8)]
    } else {
        seq![]
    };
    let bottom: Seq<(u8, u8)> = if border.2 {
        seq![(7u8, 8u8), (6u8, 7u8)]
    } else {
        seq![]
    };
    let left: Seq<(u8, u8)> = if border.3 {
        seq![(3u8, 6u8), (0u8, 3u8)]
    } else {
        seq![]
    };
    assert(segs =~= top + right + bottom + left);
    assert(cell.len() == want.len());
    assert forall|k: int| 0 <= k < cell.len() implies cell[k] == want[k] by {
        let s = segs[k];
        assert(cell[k] == spec_xy_e(s.0, s.1, x, y, rows));
        assert(s.0 <= 8 && s.1 <= 8);
        assert(spec_xy_e(s.0, s.1, x, y, rows) =~= seg(
            ref_pt(s.0 as int, x as int, y as int, m),
            ref_pt(s.1 as int, x as int, y as int, m),
        ));
    }
    assert(cell =~= want);
}

/// The rings that the assembler holds when, tracing an image of `w` by
/// `h` pixels that is foreground all over, it has taken in the columns of
/// cells before column `x` and the first `y` cells of that column.
///
/// One open ring grows along the border: down the left side, then along
/// the top and the bottom at once, then down the right side, where it
/// closes at the bottom. In an image two pixels wide it grows down both
/// sides at once.
pub open spec fn frame_state(w: int, h: int, x: int, y: int) -> (Seq<Seq<Vert>>, Seq<Seq<Vert>>) {
    let n = 2 * (w - 1);
    let m = 2 * (h - 1);
    let none = Seq::<Seq<Vert>>::empty();
    if w == 2 {
        if y == 0 {
            (none, none)
        } else if y <= h - 2 {
            (seq![seq![pt(2, m - 2 * y), pt(2, m), pt(0, m), pt(0, m - 2 * y)]], none)
        } else {
            (none, seq![frame_ring(w, h)])
        }
    } else if x == 0 {
        if y == 0 {
            (none, none)
        } else if y <= h - 2 {
            (seq![seq![pt(2, m), pt(0, m), pt(0, m - 2 * y)]], none)
        } else {
            (seq![seq![pt(2, m), pt(0, m), pt(0, 0), pt(2, 0)]], none)
        }
    } else if x < w - 2 {
        if y == 0 {
            (seq![seq![pt(2 * x, m), pt(0, m), pt(0, 0), pt(2 * x, 0)]], none)
        } else if y <= h - 2 {
            (seq![seq![pt(2 * x + 2, m), pt(0, m), pt(0, 0), pt(2 * x, 0)]], none)
        } else {
            (seq![seq![pt(2 * x + 2, m), pt(0, m), pt(0, 0), pt(2 * x + 2, 0)]], none)
        }
    } else {
        if y == 0 {
            (seq![seq![pt(n - 2, m), pt(0, m), pt(0, 0), pt(n - 2, 0)]], none)
        } else if y <= h - 2 {
            (seq![seq![pt(n, m - 2 * y), pt(n, m), pt(0, m), pt(0, 0), pt(n - 2, 0)]], none)
        } else {
            (none, seq![frame_ring(w, h)])
        }
    }
}

/// The border of an image of `w` by `h` pixels as a closed ring that
/// goes round to the left. It starts and ends half a pixel before the
/// lower right corner; in an image two pixels wide, half a pixel above
/// the lower left corner.
pub open spec fn frame_ring(w: int, h: int) -> Seq<Vert> {
    let n = 2 * (w - 1);
    let m = 2 * (h - 1);
    if w == 2 {
        seq![pt(0, 1), pt(0, 0), pt(2, 0), pt(2, m), pt(0, m), pt(0, 1)]
    } else {
        seq![pt(n - 1, 0), pt(n, 0), pt(n, m), pt(0, m), pt(0, 0), pt(n - 1, 0)]
    }
}

/// The sizes of images that can be traced.
pub open spec fn frame_size(w: int, h: int) -> bool {
    2 <= w <= MAX_SIDE && 2 <= h <= MAX_SIDE
}

/// The sizes of images with cells that touch no border or one border
/// only.
pub open spec fn wide_size(w: int, h: int) -> bool {
    3 <= w <= MAX_SIDE && 3 <= h <= MAX_SIDE
}

/// The cell in the upper left corner.
proof fn lemma_frame_top_left(w: int, h: int)
    requires
        wide_size(w, h),
    ensures
        assemble_from(frame_state(w, h, 0, 0), frame_cell(w, h, 0, 0)) == frame_state(w, h, 0, 1),
{
    let m = 2 * (h - 1);
    let none = Seq::<Seq<Vert>>::empty();
    let s1 = seg(pt(1, m), pt(0, m));
    let s2 = seg(pt(2, m), pt(1, m));
    let s3 = seg(pt(0, m - 1), pt(0, m - 2));
    let s4 = seg(pt(0, m), pt(0, m - 1));
    let cell = frame_cell(w, h, 0, 0);
    assert(cell =~= seq![s1, s2, s3, s4]);
    let st0 = (none, none);
    assert(seq![s1, s2, s3, s4] =~= seq![s1].push(s2).push(s3).push(s4));
    lemma_assemble_one(st0, s1);
    lemma_assemble_push(st0, seq![s1], s2);
    lemma_assemble_push(st0, seq![s1].push(s2), s3);
    lemma_assemble_push(st0, seq![s1].push(s2).push(s3), s4);

    lemma_step_new(none, none, s1);
    assert(none.push(s1) =~= seq![s1]);

    lemma_level_redundant(pt(2, m), pt(1, m), pt(0, m));
    let a = seq![pt(2, m), pt(0, m)];
    assert(put_before(s1, s2) =~= a);
    lemma_step_front(seq![s1], none, 0, s2);
    assert(seq![s1].update(0, a) =~= seq![a]);

    lemma_step_new(seq![a], none, s3);
    assert(seq![a].push(s3) =~= seq![a, s3]);

    lemma_corner_not_redundant(pt(2, m), pt(0, m), pt(0, m - 1));
    lemma_upright_redundant(pt(0, m), pt(0, m - 1), pt(0, m - 2));
    assert(put_after(a, s4) =~= seq![pt(2, m), pt(0, m), pt(0, m - 1)]);
    assert(s3.drop_first() =~= seq![pt(0, m - 2)]);
    assert(put_between(a, s4, s3) =~= seq![pt(2, m), pt(0, m), pt(0, m - 2)]);
    lemma_step_bridge(seq![a, s3], none, s4);
}

/// A cell on the left side, between the corners.
proof fn lemma_frame_left(w: int, h: int, y: int)
    requires
        wide_size(w, h),
        1 <= y <= h - 3,
    ensures
        assemble_from(frame_state(w, h, 0, y), frame_cell(w, h, 0, y)) == frame_state(
            w,
            h,
            0,
            y + 1,
        ),
{
    let m = 2 * (h - 1);
    let none = Seq::<Seq<Vert>>::empty();
    let b = m - 2 * y;
    let s1 = seg(pt(0, b - 1), pt(0, b - 2));
    let s2 = seg(pt(0, b), pt(0, b - 1));
    let cell = frame_cell(w, h, 0, y);
    assert(cell =~= seq![s1, s2]);
    let r = seq![pt(2, m), pt(0, m), pt(0, b)];
    let st0 = (seq![r], none);
    assert(seq![s1, s2] =~= seq![s1].push(s2));
    lemma_assemble_one(st0, s1);
    lemma_assemble_push(st0, seq![s1], s2);

    lemma_step_new(seq![r], none, s1);
    assert(seq![r].push(s1) =~= seq![r, s1]);

    lemma_upright_redundant(pt(0, m), pt(0, b), pt(0, b - 1));
    lemma_upright_redundant(pt(0, m), pt(0, b - 1), pt(0, b - 2));
    assert(r.drop_last() =~= seq![pt(2, m), pt(0, m)]);
    assert(put_after(r, s2) =~= seq![pt(2, m), pt(0, m), pt(0, b - 1)]);
    assert(s1.drop_first() =~= seq![pt(0, b - 2)]);
    assert(put_between(r, s2, s1) =~= seq![pt(2, m), pt(0, m), pt(0, b - 2)]);
    lemma_step_bridge(seq![r, s1], none, s2);
}

/// The cell in the lower left corner.
proof fn lemma_frame_bottom_left(w: int, h: int)
    requires
        wide_size(w, h),
    ensures
        assemble_from(frame_state(w, h, 0, h - 2), frame_cell(w, h, 0, h - 2)) == frame_state(
            w,
            h,
            0,
            h - 1,
        ),
{
    let m = 2 * (h - 1);
    let none = Seq::<Seq<Vert>>::empty();
    let s1 = seg(pt(1, 0), pt(2, 0));
    let s2 = seg(pt(0, 0), pt(1, 0));
    let s3 = seg(pt(0, 1), pt(0, 0));
    let s4 = seg(pt(0, 2), pt(0, 1));
    let cell = frame_cell(w, h, 0, h - 2);
    assert(cell =~= seq![s1, s2, s3, s4]);
    let r = seq![pt(2, m), pt(0, m), pt(0, 2)];
    let st0 = (seq![r], none);
    assert(seq![s1, s2, s3, s4] =~= seq![s1].push(s2).push(s3).push(s4));
    lemma_assemble_one(st0, s1);
    lemma_assemble_push(st0, seq![s1], s2);
    lemma_assemble_push(st0, seq![s1].push(s2), s3);
    lemma_assemble_push(st0, seq![s1].push(s2).push(s3), s4);

    lemma_step_new(seq![r], none, s1);
    assert(seq![r].push(s1) =~= seq![r, s1]);

    lemma_level_redundant(pt(0, 0), pt(1, 0), pt(2, 0));
    let d = seq![pt(0, 0), pt(2, 0)];
    assert(put_before(s1, s2) =~= d);
    lemma_step_front(seq![r, s1], none, 1, s2);
    assert(seq![r, s1].update(1, d) =~= seq![r, d]);

    lemma_corner_not_redundant(pt(0, 1), pt(0, 0), pt(2, 0));
    let d2 = seq![pt(0, 1), pt(0, 0), pt(2, 0)];
    assert(put_before(d, s3) =~= d2);
    lemma_step_front(seq![r, d], none, 1, s3);
    assert(seq![r, d].update(1, d2) =~= seq![r, d2]);

    lemma_upright_redundant(pt(0, m), pt(0, 2), pt(0, 1));
    lemma_upright_redundant(pt(0, m), pt(0, 1), pt(0, 0));
    assert(r.drop_last() =~= seq![pt(2, m), pt(0, m)]);
    assert(put_after(r, s4) =~= seq![pt(2, m), pt(0, m), pt(0, 1)]);
    assert(d2.drop_first() =~= seq![pt(0, 0), pt(2, 0)]);
    assert(put_between(r, s4, d2) =~= seq![pt(2, m), pt(0, m), pt(0, 0), pt(2, 0)]);
    lemma_step_bridge(seq![r, d2], none, s4);
}

/// A cell in the top row, between the corners.
proof fn lemma_frame_top(w: int, h: int, x: int)
    requires
        wide_size(w, h),
        1 <= x <= w - 3,
    ensures
        assemble_from(frame_state(w, h, x, 0), frame_cell(w, h, x, 0)) == frame_state(w, h, x, 1),
{
    let m = 2 * (h - 1);
    let none = Seq::<Seq<Vert>>::empty();
    let a = 2 * x;
    let s1 = seg(pt(a + 1, m), pt(a, m));
    let s2 = seg(pt(a + 2, m), pt(a + 1, m));
    let cell = frame_cell(w, h, x, 0);
    assert(cell =~= seq![s1, s2]);
    let r = seq![pt(a, m), pt(0, m), pt(0, 0), pt(a, 0)];
    let st0 = (seq![r], none);
    assert(seq![s1, s2] =~= seq![s1].push(s2));
    lemma_assemble_one(st0, s1);
    lemma_assemble_push(st0, seq![s1], s2);

    lemma_level_redundant(pt(a + 1, m), pt(a, m), pt(0, m));
    let r1 = seq![pt(a + 1, m), pt(0, m), pt(0, 0), pt(a, 0)];
    assert(r.drop_first() =~= seq![pt(0, m), pt(0, 0), pt(a, 0)]);
    assert(put_before(r, s1) =~= r1);
    lemma_step_front(seq![r], none, 0, s1);
    assert(seq![r].update(0, r1) =~= seq![r1]);

    lemma_level_redundant(pt(a + 2, m), pt(a + 1, m), pt(0, m));
    let r2 = seq![pt(a + 2, m), pt(0, m), pt(0, 0), pt(a, 0)];
    assert(r1.drop_first() =~= seq![pt(0, m), pt(0, 0), pt(a, 0)]);
    assert(put_before(r1, s2) =~= r2);
    lemma_step_front(seq![r1], none, 0, s2);
    assert(seq![r1].update(0, r2) =~= seq![r2]);
}

/// A cell in the bottom row, between the corners.
proof fn lemma_frame_bottom(w: int, h: int, x: int)
    requires
        wide_size(w, h),
        1 <= x <= w - 3,
    ensures
        assemble_from(frame_state(w, h, x, h - 2), frame_cell(w, h, x, h - 2)) == frame_state(
            w,
            h,
            x,
            h - 1,
        ),
{
    let m = 2 * (h - 1);
    let none = Seq::<Seq<Vert>>::empty();
    let a = 2 * x;
    let s1 = seg(pt(a + 1, 0), pt(a + 2, 0));
    let s2 = seg(pt(a, 0), pt(a + 1, 0));
    let cell = frame_cell(w, h, x, h - 2);
    assert(cell =~= seq![s1, s2]);
    let r = seq![pt(a + 2, m), pt(0, m), pt(0, 0), pt(a, 0)];
    let st0 = (seq![r], none);
    assert(seq![s1, s2] =~= seq![s1].push(s2));
    lemma_assemble_one(st0, s1);
    lemma_assemble_push(st0, seq![s1], s2);

    lemma_step_new(seq![r], none, s1);
    assert(seq![r].push(s1) =~= seq![r, s1]);

    lemma_level_redundant(pt(0, 0), pt(a, 0), pt(a + 1, 0));
    lemma_level_redundant(pt(0, 0), pt(a + 1, 0), pt(a + 2, 0));
    assert(r.drop_last() =~= seq![pt(a + 2, m), pt(0, m), pt(0, 0)]);
    assert(put_after(r, s2) =~= seq![pt(a + 2, m), pt(0, m), pt(0, 0), pt(a + 1, 0)]);
    assert(s1.drop_first() =~= seq![pt(a + 2, 0)]);
    assert(put_between(r, s2, s1) =~= seq![pt(a + 2, m), pt(0, m), pt(0, 0), pt(a + 2, 0)]);
    lemma_step_bridge(seq![r, s1], none, s2);
}

/// The cell in the upper right corner.
proof fn lemma_frame_top_right(w: int, h: int)
    requires
        wide_size(w, h),
    ensures
        assemble_from(frame_state(w, h, w - 2, 0), frame_cell(w, h, w - 2, 0)) == frame_state(
            w,
            h,
            w - 2,
            1,
        ),
{
    let n = 2 * (w - 1);
    let m = 2 * (h - 1);
    let none = Seq::<Seq<Vert>>::empty();
    let s1 = seg(pt(n - 1, m), pt(n - 2, m));
    let s2 = seg(pt(n, m), pt(n - 1, m));
    let s3 = seg(pt(n, m - 1), pt(n, m));
    let s4 = seg(pt(n, m - 2), pt(n, m - 1));
    let cell = frame_cell(w, h, w - 2, 0);
    assert(cell =~= seq![s1, s2, s3, s4]);
    let tail = seq![pt(0, m), pt(0, 0), pt(n - 2, 0)];
    let r = seq![pt(n - 2, m), pt(0, m), pt(0, 0), pt(n - 2, 0)];
    let st0 = (seq![r], none);
    assert(seq![s1, s2, s3, s4] =~= seq![s1].push(s2).push(s3).push(s4));
    lemma_assemble_one(st0, s1);
    lemma_assemble_push(st0, seq![s1], s2);
    lemma_assemble_push(st0, seq![s1].push(s2), s3);
    lemma_assemble_push(st0, seq![s1].push(s2).push(s3), s4);

    lemma_level_redundant(pt(n - 1, m), pt(n - 2, m), pt(0, m));
    let r1 = seq![pt(n - 1, m), pt(0, m), pt(0, 0), pt(n - 2, 0)];
    assert(r.drop_first() =~= tail);
    assert(put_before(r, s1) =~= r1);
    lemma_step_front(seq![r], none, 0, s1);
    assert(seq![r].update(0, r1) =~= seq![r1]);

    lemma_level_redundant(pt(n, m), pt(n - 1, m), pt(0, m));
    let r2 = seq![pt(n, m), pt(0, m), pt(0, 0), pt(n - 2, 0)];
    assert(r1.drop_first() =~= tail);
    assert(put_before(r1, s2) =~= r2);
    lemma_step_front(seq![r1], none, 0, s2);
    assert(seq![r1].update(0, r2) =~= seq![r2]);

    lemma_corner_not_redundant(pt(n, m - 1), pt(n, m), pt(0, m));
    let r3 = seq![pt(n, m - 1), pt(n, m), pt(0, m), pt(0, 0), pt(n - 2, 0)];
    assert(put_before(r2, s3) =~= r3);
    lemma_step_front(seq![r2], none, 0, s3);
    assert(seq![r2].update(0, r3) =~= seq![r3]);

    lemma_upright_redundant(pt(n, m - 2), pt(n, m - 1), pt(n, m));
    let r4 = seq![pt(n, m - 2), pt(n, m), pt(0, m), pt(0, 0), pt(n - 2, 0)];
    assert(r3.drop_first() =~= seq![pt(n, m), pt(0, m), pt(0, 0), pt(n - 2, 0)]);
    assert(put_before(r3, s4) =~= r4);
    lemma_step_front(seq![r3], none, 0, s4);
    assert(seq![r3].update(0, r4) =~= seq![r4]);
}

/// A cell on the right side, between the corners.
proof fn lemma_frame_right(w: int, h: int, y: int)
    requires
        wide_size(w, h),
        1 <= y <= h - 3,
    ensures
        assemble_from(frame_state(w, h, w - 2, y), frame_cell(w, h, w - 2, y)) == frame_state(
            w,
            h,
            w - 2,
            y + 1,
        ),
{
    let n = 2 * (w - 1);
    let m = 2 * (h - 1);
    let none = Seq::<Seq<Vert>>::empty();
    let b = m - 2 * y;
    let s1 = seg(pt(n, b - 1), pt(n, b));
    let s2 = seg(pt(n, b - 2), pt(n, b - 1));
    let cell = frame_cell(w, h, w - 2, y);
    assert(cell =~= seq![s1, s2]);
    let tail = seq![pt(n, m), pt(0, m), pt(0, 0), pt(n - 2, 0)];
    let r = seq![pt(n, b), pt(n, m), pt(0, m), pt(0, 0), pt(n - 2, 0)];
    let st0 = (seq![r], none);
    assert(seq![s1, s2] =~= seq![s1].push(s2));
    lemma_assemble_one(st0, s1);
    lemma_assemble_push(st0, seq![s1], s2);

    lemma_upright_redundant(pt(n, b - 1), pt(n, b), pt(n, m));
    let r1 = seq![pt(n, b - 1), pt(n, m), pt(0, m), pt(0, 0), pt(n - 2, 0)];
    assert(r.drop_first() =~= tail);
    assert(put_before(r, s1) =~= r1);
    lemma_step_front(seq![r], none, 0, s1);
    assert(seq![r].update(0, r1) =~= seq![r1]);

    lemma_upright_redundant(pt(n, b - 2), pt(n, b - 1), pt(n, m));
    let r2 = seq![pt(n, b - 2), pt(n, m), pt(0, m), pt(0, 0), pt(n - 2, 0)];
    assert(r1.drop_first() =~= tail);
    assert(put_before(r1, s2) =~= r2);
    lemma_step_front(seq![r1], none, 0, s2);
    assert(seq![r1].update(0, r2) =~= seq![r2]);
}

/// Two corners of a rectangle with level and upright sides, at both of
/// which the ring turns left by a quarter, turn the same way.
proof fn lemma_quarter_turns(c1: int, c2: int)
    requires
        c1 > 0,
        c2 > 0,
    ensures
        same_angle(c1, 0, c2, 0),
{
    assert(c1 * c2 > 0) by (nonlinear_arith)
        requires
            c1 > 0,
            c2 > 0,
    ;
    assert(c1 * 0 == 0 && c2 * 0 == 0 && 0 * 0 == 0) by (nonlinear_arith);
}

/// The last two corners of a ring that comes down the right side, goes
/// round the top and the left side and back along the bottom, turn the
/// same way.
proof fn lemma_frame_tail(w: int, h: int, first: Vert, last: Vert)
    requires
        frame_size(w, h),
        last.y == 0,
        last.x > 0,
    ensures
        plain_tail(
            seq![
                first,
                pt(2 * (w - 1), 0),
                pt(2 * (w - 1), 2 * (h - 1)),
                pt(0, 2 * (h - 1)),
                pt(0, 0),
                last,
            ],
        ),
{
    let n = 2 * (w - 1);
    let m = 2 * (h - 1);
    let j = seq![first, pt(n, 0), pt(n, m), pt(0, m), pt(0, 0), last];
    let c = last.x as int;
    assert(turn_cross(j, 4) == c * m) by {
        assert((j[5].x - j[4].x) * (j[3].y - j[4].y) == c * m) by (nonlinear_arith)
            requires
                j[5].x - j[4].x == c,
                j[3].y - j[4].y == m,
        ;
        assert((j[5].y - j[4].y) * (j[3].x - j[4].x) == 0) by (nonlinear_arith)
            requires
                j[5].y - j[4].y == 0,
        ;
    }
    assert(turn_dot(j, 4) == 0) by {
        assert((j[5].x - j[4].x) * (j[3].x - j[4].x) == 0) by (nonlinear_arith)
            requires
                j[3].x - j[4].x == 0,
        ;
        assert((j[5].y - j[4].y) * (j[3].y - j[4].y) == 0) by (nonlinear_arith)
            requires
                j[5].y - j[4].y == 0,
        ;
    }
    assert(turn_cross(j, 2) == n * m) by {
        assert((j[3].x - j[2].x) * (j[1].y - j[2].y) == n * m) by (nonlinear_arith)
            requires
                j[3].x - j[2].x == -n,
                j[1].y - j[2].y == -m,
        ;
        assert((j[3].y - j[2].y) * (j[1].x - j[2].x) == 0) by (nonlinear_arith)
            requires
                j[3].y - j[2].y == 0,
        ;
    }
    assert(turn_dot(j, 2) == 0) by {
        assert((j[3].x - j[2].x) * (j[1].x - j[2].x) == 0) by (nonlinear_arith)
            requires
                j[1].x - j[2].x == 0,
        ;
        assert((j[3].y - j[2].y) * (j[1].y - j[2].y) == 0) by (nonlinear_arith)
            requires
                j[3].y - j[2].y == 0,
        ;
    }
    assert(c * m > 0) by (nonlinear_arith)
        requires
            c > 0,
            m > 0,
    ;
    assert(n * m > 0) by (nonlinear_arith)
        requires
            n > 0,
            m > 0,
    ;
    lemma_quarter_turns(c * m, n * m);
}

/// The cell in the lower right corner, where the ring closes.
proof fn lemma_frame_bottom_right(w: int, h: int)
    requires
        wide_size(w, h),
    ensures
        assemble_from(frame_state(w, h, w - 2, h - 2), frame_cell(w, h, w - 2, h - 2))
            == frame_state(w, h, w - 2, h - 1),
{
    let n = 2 * (w - 1);
    let m = 2 * (h - 1);
    let none = Seq::<Seq<Vert>>::empty();
    let s1 = seg(pt(n, 1), pt(n, 2));
    let s2 = seg(pt(n, 0), pt(n, 1));
    let s3 = seg(pt(n - 1, 0), pt(n, 0));
    let s4 = seg(pt(n - 2, 0), pt(n - 1, 0));
    let cell = frame_cell(w, h, w - 2, h - 2);
    assert(cell =~= seq![s1, s2, s3, s4]);
    let tail = seq![pt(n, m), pt(0, m), pt(0, 0), pt(n - 2, 0)];
    let r = seq![pt(n, 2), pt(n, m), pt(0, m), pt(0, 0), pt(n - 2, 0)];
    let st0 = (seq![r], none);
    assert(seq![s1, s2, s3, s4] =~= seq![s1].push(s2).push(s3).push(s4));
    lemma_assemble_one(st0, s1);
    lemma_assemble_push(st0, seq![s1], s2);
    lemma_assemble_push(st0, seq![s1].push(s2), s3);
    lemma_assemble_push(st0, seq![s1].push(s2).push(s3), s4);

    lemma_upright_redundant(pt(n, 1), pt(n, 2), pt(n, m));
    let r1 = seq![pt(n, 1), pt(n, m), pt(0, m), pt(0, 0), pt(n - 2, 0)];
    assert(r.drop_first() =~= tail);
    assert(put_before(r, s1) =~= r1);
    lemma_step_front(seq![r], none, 0, s1);
    assert(seq![r].update(0, r1) =~= seq![r1]);

    lemma_upright_redundant(pt(n, 0), pt(n, 1), pt(n, m));
    let r2 = seq![pt(n, 0), pt(n, m), pt(0, m), pt(0, 0), pt(n - 2, 0)];
    assert(r1.drop_first() =~= tail);
    assert(put_before(r1, s2) =~= r2);
    lemma_step_front(seq![r1], none, 0, s2);
    assert(seq![r1].update(0, r2) =~= seq![r2]);

    lemma_corner_not_redundant(pt(n - 1, 0), pt(n, 0), pt(n, m));
    let r3 = seq![pt(n - 1, 0), pt(n, 0), pt(n, m), pt(0, m), pt(0, 0), pt(n - 2, 0)];
    assert(put_before(r2, s3) =~= r3);
    lemma_frame_tail(w, h, pt(n - 1, 0), pt(n - 2, 0));
    lemma_step_front(seq![r2], none, 0, s3);
    assert(seq![r2].update(0, r3) =~= seq![r3]);

    lemma_level_redundant(pt(0, 0), pt(n - 2, 0), pt(n - 1, 0));
    let ring = frame_ring(w, h);
    assert(r3.drop_last() =~= seq![pt(n - 1, 0), pt(n, 0), pt(n, m), pt(0, m), pt(0, 0)]);
    assert(put_after(r3, s4) =~= ring);
    lemma_frame_tail(w, h, pt(n - 1, 0), pt(n - 1, 0));
    lemma_step_close(seq![r3], none, s4);
    assert(none.push(ring) =~= seq![ring]);
}

/// The last two corners of a ring that comes up the left side from the
/// bottom, goes along the bottom and up the right side and back along
/// the top, turn the same way.
proof fn lemma_narrow_tail(h: int, first: Vert, last: Vert)
    requires
        frame_size(2, h),
        last.x == 0,
        last.y < 2 * (h - 1),
    ensures
        plain_tail(seq![first, pt(0, 0), pt(2, 0), pt(2, 2 * (h - 1)), pt(0, 2 * (h - 1)), last]),
{
    let m = 2 * (h - 1);
    let j = seq![first, pt(0, 0), pt(2, 0), pt(2, m), pt(0, m), last];
    let c = m - last.y;
    assert(turn_cross(j, 4) == 2 * c) by {
        assert((j[5].x - j[4].x) * (j[3].y - j[4].y) == 0) by (nonlinear_arith)
            requires
                j[5].x - j[4].x == 0,
        ;
        assert((j[5].y - j[4].y) * (j[3].x - j[4].x) == -(2 * c)) by (nonlinear_arith)
            requires
                j[5].y - j[4].y == -c,
                j[3].x - j[4].x == 2,
        ;
    }
    assert(turn_dot(j, 4) == 0) by {
        assert((j[5].x - j[4].x) * (j[3].x - j[4].x) == 0) by (nonlinear_arith)
            requires
                j[5].x - j[4].x == 0,
        ;
        assert((j[5].y - j[4].y) * (j[3].y - j[4].y) == 0) by (nonlinear_arith)
            requires
                j[3].y - j[4].y == 0,
        ;
    }
    assert(turn_cross(j, 2) == 2 * m) by {
        assert((j[3].x - j[2].x) * (j[1].y - j[2].y) == 0) by (nonlinear_arith)
            requires
                j[3].x - j[2].x == 0,
        ;
        assert((j[3].y - j[2].y) * (j[1].x - j[2].x) == -(2 * m)) by (nonlinear_arith)
            requires
                j[3].y - j[2].y == m,
                j[1].x - j[2].x == -2,
        ;
    }
    assert(turn_dot(j, 2) == 0) by {
        assert((j[3].x - j[2].x) * (j[1].x - j[2].x) == 0) by (nonlinear_arith)
            requires
                j[3].x - j[2].x == 0,
        ;
        assert((j[3].y - j[2].y) * (j[1].y - j[2].y) == 0) by (nonlinear_arith)
            requires
                j[1].y - j[2].y == 0,
        ;
    }
    lemma_quarter_turns(2 * c, 2 * m);
}

/// The only cell of an image of two by two pixels.
proof fn lemma_frame_single()
    ensures
        assemble_from(frame_state(2, 2, 0, 0), frame_cell(2, 2, 0, 0)) == frame_state(2, 2, 0, 1),
{
    let none = Seq::<Seq<Vert>>::empty();
    let s1 = seg(pt(1, 2), pt(0, 2));
    let s2 = seg(pt(2, 2), pt(1, 2));
    let s3 = seg(pt(2, 1), pt(2, 2));
    let s4 = seg(pt(2, 0), pt(2, 1));
    let s5 = seg(pt(1, 0), pt(2, 0));
    let s6 = seg(pt(0, 0), pt(1, 0));
    let s7 = seg(pt(0, 1), pt(0, 0));
    let s8 = seg(pt(0, 2), pt(0, 1));
    let cell = frame_cell(2, 2, 0, 0);
    assert(cell =~= seq![s1, s2, s3, s4, s5, s6, s7, s8]);
    let st0 = (none, none);
    let l1 = seq![s1];
    let l2 = l1.push(s2);
    let l3 = l2.push(s3);
    let l4 = l3.push(s4);
    let l5 = l4.push(s5);
    let l6 = l5.push(s6);
    let l7 = l6.push(s7);
    assert(seq![s1, s2, s3, s4, s5, s6, s7, s8] =~= l7.push(s8));
    lemma_assemble_one(st0, s1);
    lemma_assemble_push(st0, l1, s2);
    lemma_assemble_push(st0, l2, s3);
    lemma_assemble_push(st0, l3, s4);
    lemma_assemble_push(st0, l4, s5);
    lemma_assemble_push(st0, l5, s6);
    lemma_assemble_push(st0, l6, s7);
    lemma_assemble_push(st0, l7, s8);

    lemma_step_new(none, none, s1);
    assert(none.push(s1) =~= seq![s1]);

    lemma_level_redundant(pt(2, 2), pt(1, 2), pt(0, 2));
    let r2 = seq![pt(2, 2), pt(0, 2)];
    assert(put_before(s1, s2) =~= r2);
    lemma_step_front(seq![s1], none, 0, s2);
    assert(seq![s1].update(0, r2) =~= seq![r2]);

    lemma_corner_not_redundant(pt(2, 1), pt(2, 2), pt(0, 2));
    let r3 = seq![pt(2, 1), pt(2, 2), pt(0, 2)];
    assert(put_before(r2, s3) =~= r3);
    lemma_step_front(seq![r2], none, 0, s3);
    assert(seq![r2].update(0, r3) =~= seq![r3]);

    lemma_upright_redundant(pt(2, 0), pt(2, 1), pt(2, 2));
    let r4 = seq![pt(2, 0), pt(2, 2), pt(0, 2)];
    assert(r3.drop_first() =~= seq![pt(2, 2), pt(0, 2)]);
    assert(put_before(r3, s4) =~= r4);
    lemma_step_front(seq![r3], none, 0, s4);
    assert(seq![r3].update(0, r4) =~= seq![r4]);

    lemma_corner_not_redundant(pt(1, 0), pt(2, 0), pt(2, 2));
    let r5 = seq![pt(1, 0), pt(2, 0), pt(2, 2), pt(0, 2)];
    assert(put_before(r4, s5) =~= r5);
    lemma_step_front(seq![r4], none, 0, s5);
    assert(seq![r4].update(0, r5) =~= seq![r5]);

    lemma_level_redundant(pt(0, 0), pt(1, 0), pt(2, 0));
    let r6 = seq![pt(0, 0), pt(2, 0), pt(2, 2), pt(0, 2)];
    assert(r5.drop_first() =~= seq![pt(2, 0), pt(2, 2), pt(0, 2)]);
    assert(put_before(r5, s6) =~= r6);
    lemma_step_front(seq![r5], none, 0, s6);
    assert(seq![r5].update(0, r6) =~= seq![r6]);

    lemma_corner_not_redundant(pt(0, 1), pt(0, 0), pt(2, 0));
    let r7 = seq![pt(0, 1), pt(0, 0), pt(2, 0), pt(2, 2), pt(0, 2)];
    assert(put_before(r6, s7) =~= r7);
    lemma_step_front(seq![r6], none, 0, s7);
    assert(seq![r6].update(0, r7) =~= seq![r7]);

    lemma_corner_not_redundant(pt(2, 2), pt(0, 2), pt(0, 1));
    let ring = frame_ring(2, 2);
    assert(put_after(r7, s8) =~= ring);
    lemma_narrow_tail(2, pt(0, 1), pt(0, 1));
    lemma_step_close(seq![r7], none, s8);
    assert(none.push(ring) =~= seq![ring]);
}

/// The top cell of an image two pixels wide and three or more high.
proof fn lemma_narrow_top(h: int)
    requires
        frame_size(2, h),
        h >= 3,
    ensures
        assemble_from(frame_state(2, h, 0, 0), frame_cell(2, h, 0, 0)) == frame_state(2, h, 0, 1),
{
    let m = 2 * (h - 1);
    let none = Seq::<Seq<Vert>>::empty();
    let s1 = seg(pt(1, m), pt(0, m));
    let s2 = seg(pt(2, m), pt(1, m));
    let s3 = seg(pt(2, m - 1), pt(2, m));
    let s4 = seg(pt(2, m - 2), pt(2, m - 1));
    let s5 = seg(pt(0, m - 1), pt(0, m - 2));
    let s6 = seg(pt(0, m), pt(0, m - 1));
    let cell = frame_cell(2, h, 0, 0);
    assert(cell =~= seq![s1, s2, s3, s4, s5, s6]);
    let st0 = (none, none);
    let l1 = seq![s1];
    let l2 = l1.push(s2);
    let l3 = l2.push(s3);
    let l4 = l3.push(s4);
    let l5 = l4.push(s5);
    assert(seq![s1, s2, s3, s4, s5, s6] =~= l5.push(s6));
    lemma_assemble_one(st0, s1);
    lemma_assemble_push(st0, l1, s2);
    lemma_assemble_push(st0, l2, s3);
    lemma_assemble_push(st0, l3, s4);
    lemma_assemble_push(st0, l4, s5);
    lemma_assemble_push(st0, l5, s6);

    lemma_step_new(none, none, s1);
    assert(none.push(s1) =~= seq![s1]);

    lemma_level_redundant(pt(2, m), pt(1, m), pt(0, m));
    let r2 = seq![pt(2, m), pt(0, m)];
    assert(put_before(s1, s2) =~= r2);
    lemma_step_front(seq![s1], none, 0, s2);
    assert(seq![s1].update(0, r2) =~= seq![r2]);

    lemma_corner_not_redundant(pt(2, m - 1), pt(2, m), pt(0, m));
    let r3 = seq![pt(2, m - 1), pt(2, m), pt(0, m)];
    assert(put_before(r2, s3) =~= r3);
    lemma_step_front(seq![r2], none, 0, s3);
    assert(seq![r2].update(0, r3) =~= seq![r3]);

    lemma_upright_redundant(pt(2, m - 2), pt(2, m - 1), pt(2, m));
    let r4 = seq![pt(2, m - 2), pt(2, m), pt(0, m)];
    assert(r3.drop_first() =~= seq![pt(2, m), pt(0, m)]);
    assert(put_before(r3, s4) =~= r4);
    lemma_step_front(seq![r3], none, 0, s4);
    assert(seq![r3].update(0, r4) =~= seq![r4]);

    lemma_step_new(seq![r4], none, s5);
    assert(seq![r4].push(s5) =~= seq![r4, s5]);

    lemma_corner_not_redundant(pt(2, m), pt(0, m), pt(0, m - 1));
    lemma_upright_redundant(pt(0, m), pt(0, m - 1), pt(0, m - 2));
    assert(put_after(r4, s6) =~= seq![pt(2, m - 2), pt(2, m), pt(0, m), pt(0, m - 1)]);
    assert(s5.drop_first() =~= seq![pt(0, m - 2)]);
    assert(put_between(r4, s6, s5) =~= seq![pt(2, m - 2), pt(2, m), pt(0, m), pt(0, m - 2)]);
    lemma_step_bridge(seq![r4, s5], none, s6);
}

/// A cell between the top and the bottom of an image two pixels wide.
proof fn lemma_narrow_middle(h: int, y: int)
    requires
        frame_size(2, h),
        1 <= y <= h - 3,
    ensures
        assemble_from(frame_state(2, h, 0, y), frame_cell(2, h, 0, y)) == frame_state(
            2,
            h,
            0,
            y + 1,
        ),
{
    let m = 2 * (h - 1);
    let none = Seq::<Seq<Vert>>::empty();
    let b = m - 2 * y;
    let s1 = seg(pt(2, b - 1), pt(2, b));
    let s2 = seg(pt(2, b - 2), pt(2, b - 1));
    let s3 = seg(pt(0, b - 1), pt(0, b - 2));
    let s4 = seg(pt(0, b), pt(0, b - 1));
    let cell = frame_cell(2, h, 0, y);
    assert(cell =~= seq![s1, s2, s3, s4]);
    let r = seq![pt(2, b), pt(2, m), pt(0, m), pt(0, b)];
    let st0 = (seq![r], none);
    assert(seq![s1, s2, s3, s4] =~= seq![s1].push(s2).push(s3).push(s4));
    lemma_assemble_one(st0, s1);
    lemma_assemble_push(st0, seq![s1], s2);
    lemma_assemble_push(st0, seq![s1].push(s2), s3);
    lemma_assemble_push(st0, seq![s1].push(s2).push(s3), s4);

    lemma_upright_redundant(pt(2, b - 1), pt(2, b), pt(2, m));
    let r1 = seq![pt(2, b - 1), pt(2, m), pt(0, m), pt(0, b)];
    assert(r.drop_first() =~= seq![pt(2, m), pt(0, m), pt(0, b)]);
    assert(put_before(r, s1) =~= r1);
    lemma_step_front(seq![r], none, 0, s1);
    assert(seq![r].update(0, r1) =~= seq![r1]);

    lemma_upright_redundant(pt(2, b - 2), pt(2, b - 1), pt(2, m));
    let r2 = seq![pt(2, b - 2), pt(2, m), pt(0, m), pt(0, b)];
    assert(r1.drop_first() =~= seq![pt(2, m), pt(0, m), pt(0, b)]);
    assert(put_before(r1, s2) =~= r2);
    lemma_step_front(seq![r1], none, 0, s2);
    assert(seq![r1].update(0, r2) =~= seq![r2]);

    lemma_step_new(seq![r2], none, s3);
    assert(seq![r2].push(s3) =~= seq![r2, s3]);

    lemma_upright_redundant(pt(0, m), pt(0, b), pt(0, b - 1));
    lemma_upright_redundant(pt(0, m), pt(0, b - 1), pt(0, b - 2));
    assert(r2.drop_last() =~= seq![pt(2, b - 2), pt(2, m), pt(0, m)]);
    assert(put_after(r2, s4) =~= seq![pt(2, b - 2), pt(2, m), pt(0, m), pt(0, b - 1)]);
    assert(s3.drop_first() =~= seq![pt(0, b - 2)]);
    assert(put_between(r2, s4, s3) =~= seq![pt(2, b - 2), pt(2, m), pt(0, m), pt(0, b - 2)]);
    lemma_step_bridge(seq![r2, s3], none, s4);
}

/// The bottom cell of an image two pixels wide and three or more high.
proof fn lemma_narrow_bottom(h: int)
    requires
        frame_size(2, h),
        h >= 3,
    ensures
        assemble_from(frame_state(2, h, 0, h - 2), frame_cell(2, h, 0, h - 2)) == frame_state(
            2,
            h,
            0,
            h - 1,
        ),
{
    let m = 2 * (h - 1);
    let none = Seq::<Seq<Vert>>::empty();
    let s1 = seg(pt(2, 1), pt(2, 2));
    let s2 = seg(pt(2, 0), pt(2, 1));
    let s3 = seg(pt(1, 0), pt(2, 0));
    let s4 = seg(pt(0, 0), pt(1, 0));
    let s5 = seg(pt(0, 1), pt(0, 0));
    let s6 = seg(pt(0, 2), pt(0, 1));
    let cell = frame_cell(2, h, 0, h - 2);
    assert(cell =~= seq![s1, s2, s3, s4, s5, s6]);
    let r = seq![pt(2, 2), pt(2, m), pt(0, m), pt(0, 2)];
    let st0 = (seq![r], none);
    let l1 = seq![s1];
    let l2 = l1.push(s2);
    let l3 = l2.push(s3);
    let l4 = l3.push(s4);
    let l5 = l4.push(s5);
    assert(seq![s1, s2, s3, s4, s5, s6] =~= l5.push(s6));
    lemma_assemble_one(st0, s1);
    lemma_assemble_push(st0, l1, s2);
    lemma_assemble_push(st0, l2, s3);
    lemma_assemble_push(st0, l3, s4);
    lemma_assemble_push(st0, l4, s5);
    lemma_assemble_push(st0, l5, s6);
    let tail = seq![pt(2, m), pt(0, m), pt(0, 2)];

    lemma_upright_redundant(pt(2, 1), pt(2, 2), pt(2, m));
    let r1 = seq![pt(2, 1), pt(2, m), pt(0, m), pt(0, 2)];
    assert(r.drop_first() =~= tail);
    assert(put_before(r, s1) =~= r1);
    lemma_step_front(seq![r], none, 0, s1);
    assert(seq![r].update(0, r1) =~= seq![r1]);

    lemma_upright_redundant(pt(2, 0), pt(2, 1), pt(2, m));
    let r2 = seq![pt(2, 0), pt(2, m), pt(0, m), pt(0, 2)];
    assert(r1.drop_first() =~= tail);
    assert(put_before(r1, s2) =~= r2);
    lemma_step_front(seq![r1], none, 0, s2);
    assert(seq![r1].update(0, r2) =~= seq![r2]);

    lemma_corner_not_redundant(pt(1, 0), pt(2, 0), pt(2, m));
    let r3 = seq![pt(1, 0), pt(2, 0), pt(2, m), pt(0, m), pt(0, 2)];
    assert(put_before(r2, s3) =~= r3);
    lemma_step_front(seq![r2], none, 0, s3);
    assert(seq![r2].update(0, r3) =~= seq![r3]);

    lemma_level_redundant(pt(0, 0), pt(1, 0), pt(2, 0));
    let r4 = seq![pt(0, 0), pt(2, 0), pt(2, m), pt(0, m), pt(0, 2)];
    assert(r3.drop_first() =~= seq![pt(2, 0), pt(2, m), pt(0, m), pt(0, 2)]);
    assert(put_before(r3, s4) =~= r4);
    lemma_step_front(seq![r3], none, 0, s4);
    assert(seq![r3].update(0, r4) =~= seq![r4]);

    lemma_corner_not_redundant(pt(0, 1), pt(0, 0), pt(2, 0));
    let r5 = seq![pt(0, 1), pt(0, 0), pt(2, 0), pt(2, m), pt(0, m), pt(0, 2)];
    assert(put_before(r4, s5) =~= r5);
    lemma_narrow_tail(h, pt(0, 1), pt(0, 2));
    lemma_step_front(seq![r4], none, 0, s5);
    assert(seq![r4].update(0, r5) =~= seq![r5]);

    lemma_upright_redundant(pt(0, m), pt(0, 2), pt(0, 1));
    let ring = frame_ring(2, h);
    assert(r5.drop_last() =~= seq![pt(0, 1), pt(0, 0), pt(2, 0), pt(2, m), pt(0, m)]);
    assert(put_after(r5, s6) =~= ring);
    lemma_narrow_tail(h, pt(0, 1), pt(0, 1));
    lemma_step_close(seq![r5], none, s6);
    assert(none.push(ring) =~= seq![ring]);
}

/// The first cell of an image two pixels high and three or more wide.
proof fn lemma_flat_left(w: int)
    requires
        frame_size(w, 2),
        w >= 3,
    ensures
        assemble_from(frame_state(w, 2, 0, 0), frame_cell(w, 2, 0, 0)) == frame_state(w, 2, 0, 1),
{
    let none = Seq::<Seq<Vert>>::empty();
    let s1 = seg(pt(1, 2), pt(0, 2));
    let s2 = seg(pt(2, 2), pt(1, 2));
    let s3 = seg(pt(1, 0), pt(2, 0));
    let s4 = seg(pt(0, 0), pt(1, 0));
    let s5 = seg(pt(0, 1), pt(0, 0));
    let s6 = seg(pt(0, 2), pt(0, 1));
    let cell = frame_cell(w, 2, 0, 0);
    assert(cell =~= seq![s1, s2, s3, s4, s5, s6]);
    let st0 = (none, none);
    let l1 = seq![s1];
    let l2 = l1.push(s2);
    let l3 = l2.push(s3);
    let l4 = l3.push(s4);
    let l5 = l4.push(s5);
    assert(seq![s1, s2, s3, s4, s5, s6] =~= l5.push(s6));
    lemma_assemble_one(st0, s1);
    lemma_assemble_push(st0, l1, s2);
    lemma_assemble_push(st0, l2, s3);
    lemma_assemble_push(st0, l3, s4);
    lemma_assemble_push(st0, l4, s5);
    lemma_assemble_push(st0, l5, s6);

    lemma_step_new(none, none, s1);
    assert(none.push(s1) =~= seq![s1]);

    lemma_level_redundant(pt(2, 2), pt(1, 2), pt(0, 2));
    let a = seq![pt(2, 2), pt(0, 2)];
    assert(put_before(s1, s2) =~= a);
    lemma_step_front(seq![s1], none, 0, s2);
    assert(seq![s1].update(0, a) =~= seq![a]);

    lemma_step_new(seq![a], none, s3);
    assert(seq![a].push(s3) =~= seq![a, s3]);

    lemma_level_redundant(pt(0, 0), pt(1, 0), pt(2, 0));
    let d = seq![pt(0, 0), pt(2, 0)];
    assert(put_before(s3, s4) =~= d);
    lemma_step_front(seq![a, s3], none, 1, s4);
    assert(seq![a, s3].update(1, d) =~= seq![a, d]);

    lemma_corner_not_redundant(pt(0, 1), pt(0, 0), pt(2, 0));
    let d2 = seq![pt(0, 1), pt(0, 0), pt(2, 0)];
    assert(put_before(d, s5) =~= d2);
    lemma_step_front(seq![a, d], none, 1, s5);
    assert(seq![a, d].update(1, d2) =~= seq![a, d2]);

    lemma_corner_not_redundant(pt(2, 2), pt(0, 2), pt(0, 1));
    lemma_upright_redundant(pt(0, 2), pt(0, 1), pt(0, 0));
    assert(put_after(a, s6) =~= seq![pt(2, 2), pt(0, 2), pt(0, 1)]);
    assert(d2.drop_first() =~= seq![pt(0, 0), pt(2, 0)]);
    assert(put_between(a, s6, d2) =~= seq![pt(2, 2), pt(0, 2), pt(0, 0), pt(2, 0)]);
    lemma_step_bridge(seq![a, d2], none, s6);
}

/// A cell between the first and the last of an image two pixels high.
proof fn lemma_flat_middle(w: int, x: int)
    requires
        frame_size(w, 2),
        1 <= x <= w - 3,
    ensures
        assemble_from(frame_state(w, 2, x, 0), frame_cell(w, 2, x, 0)) == frame_state(w, 2, x, 1),
{
    let none = Seq::<Seq<Vert>>::empty();
    let a = 2 * x;
    let s1 = seg(pt(a + 1, 2), pt(a, 2));
    let s2 = seg(pt(a + 2, 2), pt(a + 1, 2));
    let s3 = seg(pt(a + 1, 0), pt(a + 2, 0));
    let s4 = seg(pt(a, 0), pt(a + 1, 0));
    let cell = frame_cell(w, 2, x, 0);
    assert(cell =~= seq![s1, s2, s3, s4]);
    let r = seq![pt(a, 2), pt(0, 2), pt(0, 0), pt(a, 0)];
    let st0 = (seq![r], none);
    assert(seq![s1, s2, s3, s4] =~= seq![s1].push(s2).push(s3).push(s4));
    lemma_assemble_one(st0, s1);
    lemma_assemble_push(st0, seq![s1], s2);
    lemma_assemble_push(st0, seq![s1].push(s2), s3);
    lemma_assemble_push(st0, seq![s1].push(s2).push(s3), s4);
    let tail = seq![pt(0, 2), pt(0, 0), pt(a, 0)];

    lemma_level_redundant(pt(a + 1, 2), pt(a, 2), pt(0, 2));
    let r1 = seq![pt(a + 1, 2), pt(0, 2), pt(0, 0), pt(a, 0)];
    assert(r.drop_first() =~= tail);
    assert(put_before(r, s1) =~= r1);
    lemma_step_front(seq![r], none, 0, s1);
    assert(seq![r].update(0, r1) =~= seq![r1]);

    lemma_level_redundant(pt(a + 2, 2), pt(a + 1, 2), pt(0, 2));
    let r2 = seq![pt(a + 2, 2), pt(0, 2), pt(0, 0), pt(a, 0)];
    assert(r1.drop_first() =~= tail);
    assert(put_before(r1, s2) =~= r2);
    lemma_step_front(seq![r1], none, 0, s2);
    assert(seq![r1].update(0, r2) =~= seq![r2]);

    lemma_step_new(seq![r2], none, s3);
    assert(seq![r2].push(s3) =~= seq![r2, s3]);

    lemma_level_redundant(pt(0, 0), pt(a, 0), pt(a + 1, 0));
    lemma_level_redundant(pt(0, 0), pt(a + 1, 0), pt(a + 2, 0));
    assert(r2.drop_last() =~= seq![pt(a + 2, 2), pt(0, 2), pt(0, 0)]);
    assert(put_after(r2, s4) =~= seq![pt(a + 2, 2), pt(0, 2), pt(0, 0), pt(a + 1, 0)]);
    assert(s3.drop_first() =~= seq![pt(a + 2, 0)]);
    assert(put_between(r2, s4, s3) =~= seq![pt(a + 2, 2), pt(0, 2), pt(0, 0), pt(a + 2, 0)]);
    lemma_step_bridge(seq![r2, s3], none, s4);
}

/// The last cell of an image two pixels high and three or more wide.
proof fn lemma_flat_right(w: int)
    requires
        frame_size(w, 2),
        w >= 3,
    ensures
        assemble_from(frame_state(w, 2, w - 2, 0), frame_cell(w, 2, w - 2, 0)) == frame_state(
            w,
            2,
            w - 2,
            1,
        ),
{
    let n = 2 * (w - 1);
    let none = Seq::<Seq<Vert>>::empty();
    let s1 = seg(pt(n - 1, 2), pt(n - 2, 2));
    let s2 = seg(pt(n, 2), pt(n - 1, 2));
    let s3 = seg(pt(n, 1), pt(n, 2));
    let s4 = seg(pt(n, 0), pt(n, 1));
    let s5 = seg(pt(n - 1, 0), pt(n, 0));
    let s6 = seg(pt(n - 2, 0), pt(n - 1, 0));
    let cell = frame_cell(w, 2, w - 2, 0);
    assert(cell =~= seq![s1, s2, s3, s4, s5, s6]);
    let r = seq![pt(n - 2, 2), pt(0, 2), pt(0, 0), pt(n - 2, 0)];
    let st0 = (seq![r], none);
    let l1 = seq![s1];
    let l2 = l1.push(s2);
    let l3 = l2.push(s3);
    let l4 = l3.push(s4);
    let l5 = l4.push(s5);
    assert(seq![s1, s2, s3, s4, s5, s6] =~= l5.push(s6));
    lemma_assemble_one(st0, s1);
    lemma_assemble_push(st0, l1, s2);
    lemma_assemble_push(st0, l2, s3);
    lemma_assemble_push(st0, l3, s4);
    lemma_assemble_push(st0, l4, s5);
    lemma_assemble_push(st0, l5, s6);
    let tail = seq![pt(0, 2), pt(0, 0), pt(n - 2, 0)];

    lemma_level_redundant(pt(n - 1, 2), pt(n - 2, 2), pt(0, 2));
    let r1 = seq![pt(n - 1, 2), pt(0, 2), pt(0, 0), pt(n - 2, 0)];
    assert(r.drop_first() =~= tail);
    assert(put_before(r, s1) =~= r1);
    lemma_step_front(seq![r], none, 0, s1);
    assert(seq![r].update(0, r1) =~= seq![r1]);

    lemma_level_redundant(pt(n, 2), pt(n - 1, 2), pt(0, 2));
    let r2 = seq![pt(n, 2), pt(0, 2), pt(0, 0), pt(n - 2, 0)];
    assert(r1.drop_first() =~= tail);
    assert(put_before(r1, s2) =~= r2);
    lemma_step_front(seq![r1], none, 0, s2);
    assert(seq![r1].update(0, r2) =~= seq![r2]);

    lemma_corner_not_redundant(pt(n, 1), pt(n, 2), pt(0, 2));
    let r3 = seq![pt(n, 1), pt(n, 2), pt(0, 2), pt(0, 0), pt(n - 2, 0)];
    assert(put_before(r2, s3) =~= r3);
    lemma_step_front(seq![r2], none, 0, s3);
    assert(seq![r2].update(0, r3) =~= seq![r3]);

    lemma_upright_redundant(pt(n, 0), pt(n, 1), pt(n, 2));
    let r4 = seq![pt(n, 0), pt(n, 2), pt(0, 2), pt(0, 0), pt(n - 2, 0)];
    assert(r3.drop_first() =~= seq![pt(n, 2), pt(0, 2), pt(0, 0), pt(n - 2, 0)]);
    assert(put_before(r3, s4) =~= r4);
    lemma_step_front(seq![r3], none, 0, s4);
    assert(seq![r3].update(0, r4) =~= seq![r4]);

    lemma_corner_not_redundant(pt(n - 1, 0), pt(n, 0), pt(n, 2));
    let r5 = seq![pt(n - 1, 0), pt(n, 0), pt(n, 2), pt(0, 2), pt(0, 0), pt(n - 2, 0)];
    assert(put_before(r4, s5) =~= r5);
    lemma_frame_tail(w, 2, pt(n - 1, 0), pt(n - 2, 0));
    lemma_step_front(seq![r4], none, 0, s5);
    assert(seq![r4].update(0, r5) =~= seq![r5]);

    lemma_level_redundant(pt(0, 0), pt(n - 2, 0), pt(n - 1, 0));
    let ring = frame_ring(w, 2);
    assert(r5.drop_last() =~= seq![pt(n - 1, 0), pt(n, 0), pt(n, 2), pt(0, 2), pt(0, 0)]);
    assert(put_after(r5, s6) =~= ring);
    lemma_frame_tail(w, 2, pt(n - 1, 0), pt(n - 1, 0));
    lemma_step_close(seq![r5], none, s6);
    assert(none.push(ring) =~= seq![ring]);
}

/// What a cell of an image that is foreground all over adds to the rings
/// of the assembler.
pub proof fn lemma_frame_step(w: int, h: int, x: int, y: int)
    requires
        frame_size(w, h),
        0 <= x <= w - 2,
        0 <= y <= h - 2,
    ensures
        assemble_from(frame_state(w, h, x, y), frame_cell(w, h, x, y)) == frame_state(
            w,
            h,
            x,
            y + 1,
        ),
{
    if w == 2 {
        if h == 2 {
            lemma_frame_single();
        } else if y == 0 {
            lemma_narrow_top(h);
        } else if y == h - 2 {
            lemma_narrow_bottom(h);
        } else {
            lemma_narrow_middle(h, y);
        }
    } else if h == 2 {
        if x == 0 {
            lemma_flat_left(w);
        } else if x < w - 2 {
            lemma_flat_middle(w, x);
        } else {
            lemma_flat_right(w);
        }
    } else if x == 0 {
        if y == 0 {
            lemma_frame_top_left(w, h);
        } else if y == h - 2 {
            lemma_frame_bottom_left(w, h);
        } else {
            lemma_frame_left(w, h, y);
        }
    } else if x < w - 2 {
        if y == 0 {
            lemma_frame_top(w, h, x);
        } else if y == h - 2 {
            lemma_frame_bottom(w, h, x);
        } else {
            assert(frame_cell(w, h, x, y) =~= Seq::<Seq<Vert>>::empty());
        }
    } else {
        if y == 0 {
            lemma_frame_top_right(w, h);
        } else if y == h - 2 {
            lemma_frame_bottom_right(w, h);
        } else {
            lemma_frame_right(w, h, y);
        }
    }
}

/// Taking in two lists of segments one after the other, from any rings,
/// is taking in the lists joined.
pub proof fn lemma_assemble_from_add(
    state: (Seq<Seq<Vert>>, Seq<Seq<Vert>>),
    a: Seq<Seq<Vert>>,
    b: Seq<Seq<Vert>>,
)
    ensures
        assemble_from(state, a + b) == assemble_from(assemble_from(state, a), b),
    decreases b.len(),
{
    if b.len() == 0 {
        assert(a + b =~= a);
    } else {
        lemma_assemble_from_add(state, a, b.drop_last());
        assert((a + b).drop_last() =~= a + b.drop_last());
        assert((a + b).last() == b.last());
    }
}

/// The rings after the first `ny` cells of a column of an image that is
/// foreground all over.
pub proof fn lemma_frame_column(pixels: Seq<Rgba>, width: u32, height: u32, x: u32, ny: nat)
    requires
        all_foreground(pixels, width, height),
        frame_size(width as int, height as int),
        x + 1 < width,
        ny <= height - 1,
    ensures
        assemble_from(
            frame_state(width as int, height as int, x as int, 0),
            column_segments(pixels, width, height, x, ny),
        ) == frame_state(width as int, height as int, x as int, ny as int),
    decreases ny,
{
    let w = width as int;
    let h = height as int;
    let start = frame_state(w, h, x as int, 0);
    if ny > 0 {
        let y = (ny - 1) as u32;
        lemma_frame_column(pixels, width, height, x, (ny - 1) as nat);
        lemma_frame_cell(pixels, width, height, x, y);
        lemma_frame_step(w, h, x as int, y as int);
        lemma_assemble_from_add(
            start,
            column_segments(pixels, width, height, x, (ny - 1) as nat),
            cell_rings(pixels, width, height, x, y),
        );
    } else {
        assert(assemble_from(start, Seq::<Seq<Vert>>::empty()) == start);
    }
}

/// The rings after the first `nx` columns of cells of an image that is
/// foreground all over.
pub proof fn lemma_frame_trace(pixels: Seq<Rgba>, width: u32, height: u32, nx: nat)
    requires
        all_foreground(pixels, width, height),
        frame_size(width as int, height as int),
        nx <= width - 1,
    ensures
        spec_assemble(traced_segments(pixels, width, height, nx)) == if nx <= width - 2 {
            frame_state(width as int, height as int, nx as int, 0)
        } else {
            frame_state(width as int, height as int, width - 2, height - 1)
        },
    decreases nx,
{
    let w = width as int;
    let h = height as int;
    if nx > 0 {
        let x = (nx - 1) as u32;
        lemma_frame_trace(pixels, width, height, (nx - 1) as nat);
        lemma_frame_column(pixels, width, height, x, (height - 1) as nat);
        lemma_assemble_add(
            traced_segments(pixels, width, height, (nx - 1) as nat),
            column_segments(pixels, width, height, x, (height - 1) as nat),
        );
        if nx <= width - 2 {
            assert(frame_state(w, h, x as int, h - 1) == frame_state(w, h, nx as int, 0));
        }
    }
}

/// The border of an image, as a ring, goes round to the left as an outer
/// ring does.
pub proof fn lemma_frame_ring_is_outer(w: int, h: int)
    requires
        frame_size(w, h),
    ensures
        !spec_is_hole(frame_ring(w, h)),
{
    let n = 2 * (w - 1);
    let m = 2 * (h - 1);
    let s = frame_ring(w, h);
    // the place of the first vertex with another abscissa, and of the
    // level side at the bottom
    let c: int = if w == 2 { 2 } else { 1 };
    let low = c - 1;
    if w == 2 {
        assert(s[0] == pt(0, 1) && s[1] == pt(0, 0) && s[2] == pt(2, 0) && s[3] == pt(2, m) && s[4]
            == pt(0, m) && s[5] == pt(0, 1));
    } else {
        assert(s[0] == pt(n - 1, 0) && s[1] == pt(n, 0) && s[2] == pt(n, m) && s[3] == pt(0, m)
            && s[4] == pt(0, 0) && s[5] == pt(n - 1, 0));
    }
    assert(is_first_x_change(s, c));
    assert forall|k: int| is_first_x_change(s, k) implies k == c by {
        lemma_first_x_change_unique(s, k, c);
    }
    let x2 = scan_line(s);
    assert(x2 == s[0].x + s[c].x);
    assert(crosses(s, low, x2));
    assert(crosses(s, low + 2, x2));
    assert forall|j: int| #[trigger] crosses(s, j, x2) implies j == low || j == low + 2 by {
        if 0 <= j < 5 {
            assert(j == 0 || j == 1 || j == 2 || j == 3 || j == 4);
        }
    }
    assert(y_num(s[low], s[low + 1], x2) == 0 && y_den(s[low], s[low + 1]) == 1);
    assert(y_num(s[low + 2], s[low + 3], x2) == m && y_den(s[low + 2], s[low + 3]) == 1);
    assert(!y_less(s, low + 2, low, x2)) by {
        assert(m * 1 == m && 0 * 1 == 0) by (nonlinear_arith);
    }
    assert(!y_less(s, low, low, x2));
    assert(is_lowest_crossing(s, x2, low));
    assert forall|i: int| is_lowest_crossing(s, x2, i) implies i == low by {
        lemma_lowest_crossing_unique(s, x2, i, low);
    }
}

/// An image that is foreground all over gives exactly one closed ring,
/// which runs along the border of the image and goes round as an outer
/// ring does. No ring stays open, and there is no hole.
pub proof fn lemma_all_foreground_ring(pixels: Seq<Rgba>, width: u32, height: u32)
    requires
        all_foreground(pixels, width, height),
        frame_size(width as int, height as int),
    ensures
        spec_edge_img(pixels, width, height) == (
            Seq::<Seq<Vert>>::empty(),
            seq![frame_ring(width as int, height as int)],
        ),
        !spec_is_hole(frame_ring(width as int, height as int)),
{
    lemma_frame_trace(pixels, width, height, (width - 1) as nat);
    lemma_frame_ring_is_outer(width as int, height as int);
}

/// The ring along the border closes on the bottom side, at a vertex that
/// lies on a line with the vertices before and after it: the vertex at
/// which a ring closes is kept whatever its neighbours.
pub proof fn lemma_frame_ring_closes_on_a_side(w: int, h: int)
    requires
        frame_size(w, h),
        w >= 3,
    ensures
        spec_tip_redundant(frame_ring(w, h)[4], frame_ring(w, h)[0], frame_ring(w, h)[1]),
{
    let n = 2 * (w - 1);
    lemma_level_redundant(pt(0, 0), pt(n - 1, 0), pt(n, 0));
}

} // verus!
