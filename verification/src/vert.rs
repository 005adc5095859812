//! Lattice points and the marching-squares cell table.

use vstd::prelude::*;
use crate::edge::{grown_by_all, ring_views, Edge};

verus! {

/// Largest absolute value a coordinate may take for the exact predicates
/// of this crate to stay inside 128-bit arithmetic.
pub const COORD_MAX: i64 = 536_870_912;

/// A point of the half-pixel lattice.
#[derive(Clone, Copy, Debug, PartialEq, Eq, Structural)]
pub struct Vert {
    pub x: i64,
    pub y: i64,
}

/// The four corners of a cell, in the order top-left, top-right,
/// bottom-right, bottom-left; `true` marks foreground.
pub type QuadCase = (bool, bool, bool, bool);

/// Which sides of a cell lie on the image border, in the order top, right,
/// bottom, left.
pub type BorderCase = (bool, bool, bool, bool);

impl Vert {
    /// Both coordinates are within `COORD_MAX` of the origin.
    pub open spec fn in_range(self) -> bool {
        &&& -COORD_MAX <= self.x <= COORD_MAX
        &&& -COORD_MAX <= self.y <= COORD_MAX
    }

    pub fn new(x: i64, y: i64) -> (v: Vert)
        ensures
            v.x == x,
            v.y == y,
    {
        Vert { x, y }
    }

    /// Moves the point by `(x, y)`.
    pub fn translate(&mut self, x: i64, y: i64)
        requires
            i64::MIN <= old(self).x + x <= i64::MAX,
            i64::MIN <= old(self).y + y <= i64::MAX,
        ensures
            final(self).x == old(self).x + x,
            final(self).y == old(self).y + y,
    {
        self.x = self.x + x;
        self.y = self.y + y;
    }

    /// The vector from `v` to `self`.
    pub fn diff(&self, v: &Vert) -> (d: Vert)
        requires
            i64::MIN <= self.x - v.x <= i64::MAX,
            i64::MIN <= self.y - v.y <= i64::MAX,
        ensures
            d.x == self.x - v.x,
            d.y == self.y - v.y,
    {
        Vert { x: self.x - v.x, y: self.y - v.y }
    }

    pub open spec fn spec_dot(self, other: Vert) -> int {
        self.x * other.x + self.y * other.y
    }

    /// The z component of the cross product of `self` and `other`.
    pub open spec fn spec_cross(self, other: Vert) -> int {
        self.x * other.y - self.y * other.x
    }

    pub open spec fn spec_magnitude_squared(self) -> int {
        self.x * self.x + self.y * self.y
    }

    /// Both coordinates are within `2 * COORD_MAX` of the origin, as holds
    /// of the difference of two points in range.
    pub open spec fn is_small_vector(self) -> bool {
        &&& -2 * COORD_MAX <= self.x <= 2 * COORD_MAX
        &&& -2 * COORD_MAX <= self.y <= 2 * COORD_MAX
    }

    pub fn dot_product(&self, other: &Vert) -> (d: i128)
        requires
            self.is_small_vector(),
            other.is_small_vector(),
        ensures
            d == self.spec_dot(*other),
    {
        proof {
            lemma_product_bound(self.x as int, other.x as int);
            lemma_product_bound(self.y as int, other.y as int);
        }
        (self.x as i128) * (other.x as i128) + (self.y as i128) * (other.y as i128)
    }

    pub fn cross_product(&self, other: &Vert) -> (c: i128)
        requires
            self.is_small_vector(),
            other.is_small_vector(),
        ensures
            c == self.spec_cross(*other),
    {
        proof {
            lemma_product_bound(self.x as int, other.y as int);
            lemma_product_bound(self.y as int, other.x as int);
        }
        (self.x as i128) * (other.y as i128) - (self.y as i128) * (other.x as i128)
    }

    /// The square of the vector's length.
    pub fn magnitude_squared(&self) -> (m: i128)
        requires
            self.is_small_vector(),
        ensures
            m == self.spec_magnitude_squared(),
    {
        proof {
            lemma_product_bound(self.x as int, self.x as int);
            lemma_product_bound(self.y as int, self.y as int);
        }
        (self.x as i128) * (self.x as i128) + (self.y as i128) * (self.y as i128)
    }

    /// The two coordinates as signed numbers of four bytes each, lowest
    /// byte first: first the abscissa, then the ordinate.
    pub fn to_bytes(&self) -> (o: [u8; 8])
        requires
            self.in_range(),
        ensures
            o@ == low_bytes(self.x) + low_bytes(self.y),
    {
        let xb = four_bytes(self.x);
        let yb = four_bytes(self.y);
        let o: [u8; 8] = [xb[0], xb[1], xb[2], xb[3], yb[0], yb[1], yb[2], yb[3]];
        assert(o@ =~= low_bytes(self.x) + low_bytes(self.y));
        o
    }

    /// The point lifted to three dimensions at height `z`.
    pub fn to3(&self, z: i64) -> (out: Vec<i64>)
        ensures
            out@ == seq![self.x, self.y, z],
    {
        let mut out: Vec<i64> = Vec::new();
        out.push(self.x);
        out.push(self.y);
        out.push(z);
        assert(out@ =~= seq![self.x, self.y, z]);
        out
    }
}

/// A number, within `COORD_MAX` of zero, in two's complement on four
/// bytes, lowest byte first.
pub open spec fn low_bytes(c: i64) -> Seq<u8> {
    let u: int = if c >= 0 {
        c as int
    } else {
        c + 0x1_0000_0000
    };
    seq![
        (u % 256) as u8,
        ((u / 256) % 256) as u8,
        ((u / 65536) % 256) as u8,
        (u / 16777216) as u8,
    ]
}

fn four_bytes(c: i64) -> (o: [u8; 4])
    requires
        -COORD_MAX <= c <= COORD_MAX,
    ensures
        o@ == low_bytes(c),
{
    let u: u64 = if c >= 0 {
        c as u64
    } else {
        (c + 0x1_0000_0000) as u64
    };
    let o: [u8; 4] = [
        (u % 256) as u8,
        ((u / 256) % 256) as u8,
        ((u / 65536) % 256) as u8,
        (u / 16777216) as u8,
    ];
    assert(o@ =~= low_bytes(c));
    o
}

impl From<Vert> for Vec<i64> {
    /// The two coordinates of the point.
    fn from(item: Vert) -> (out: Vec<i64>)
        ensures
            out@ == seq![item.x, item.y],
    {
        let mut out: Vec<i64> = Vec::new();
        out.push(item.x);
        out.push(item.y);
        assert(out@ =~= seq![item.x, item.y]);
        out
    }
}

impl vstd::std_specs::convert::FromSpecImpl<Vert> for Vec<i64> {
    open spec fn obeys_from_spec() -> bool {
        false
    }

    open spec fn from_spec(item: Vert) -> Vec<i64> {
        arbitrary()
    }
}

impl From<&Vert> for Vec<i64> {
    /// The two coordinates of the point.
    fn from(item: &Vert) -> (out: Vec<i64>)
        ensures
            out@ == seq![item.x, item.y],
    {
        let mut out: Vec<i64> = Vec::new();
        out.push(item.x);
        out.push(item.y);
        assert(out@ =~= seq![item.x, item.y]);
        out
    }
}

impl vstd::std_specs::convert::FromSpecImpl<&Vert> for Vec<i64> {
    open spec fn obeys_from_spec() -> bool {
        false
    }

    open spec fn from_spec(item: &Vert) -> Vec<i64> {
        arbitrary()
    }
}

impl From<&Vert> for [i64; 2] {
    /// The two coordinates of the point.
    fn from(item: &Vert) -> (out: [i64; 2])
        ensures
            out@ == seq![item.x, item.y],
    {
        let out: [i64; 2] = [item.x, item.y];
        assert(out@ =~= seq![item.x, item.y]);
        out
    }
}

impl vstd::std_specs::convert::FromSpecImpl<&Vert> for [i64; 2] {
    open spec fn obeys_from_spec() -> bool {
        false
    }

    open spec fn from_spec(item: &Vert) -> [i64; 2] {
        arbitrary()
    }
}

/// The product of two numbers no larger than `2 * COORD_MAX` in absolute
/// value is no larger than `4 * COORD_MAX * COORD_MAX`.
pub proof fn lemma_product_bound(a: int, b: int)
    requires
        -2 * COORD_MAX <= a <= 2 * COORD_MAX,
        -2 * COORD_MAX <= b <= 2 * COORD_MAX,
    ensures
        -1_152_921_504_606_846_976 <= a * b <= 1_152_921_504_606_846_976,
{
    assert(-1_152_921_504_606_846_976 <= a * b <= 1_152_921_504_606_846_976) by (nonlinear_arith)
        requires
            -1_073_741_824 <= a <= 1_073_741_824,
            -1_073_741_824 <= b <= 1_073_741_824,
    ;
}


/// Largest number of pixels along a side of an image whose outline stays
/// within `COORD_MAX`.
pub const MAX_SIDE: u32 = 0x1000_0000;

/// One of the nine reference points of the cell whose top-left pixel is
/// `(x, y)`, in an image with `height` rows of cells:
///
/// ```text
/// 0 1 2
/// 3 4 5
/// 6 7 8
/// ```
///
/// Point 0 is the centre of the top-left pixel and neighbouring points are
/// half a pixel, one lattice unit, apart. Ordinates grow upwards, so the
/// top row of pixels lies at `2 * height`.
pub open spec fn spec_xy_vert(i: u8, x: u32, y: u32, height: u32) -> Vert {
    Vert { x: (2 * x + i % 3) as i64, y: (2 * height - 2 * y - i / 3) as i64 }
}

fn get_xy_vert(i: u8, x: u32, y: u32, height: u32) -> (v: Vert)
    requires
        i <= 8,
    ensures
        v == spec_xy_vert(i, x, y, height),
        x < MAX_SIDE && y < height <= MAX_SIDE ==> v.in_range(),
{
    let dx: i64 = (i % 3) as i64;
    let dy: i64 = (i / 3) as i64;
    Vert { x: 2 * (x as i64) + dx, y: 2 * (height as i64) - 2 * (y as i64) - dy }
}

/// The segment from reference point `a` to reference point `b`.
pub open spec fn spec_xy_e(a: u8, b: u8, x: u32, y: u32, height: u32) -> Seq<Vert> {
    seq![spec_xy_vert(a, x, y, height), spec_xy_vert(b, x, y, height)]
}

fn get_xy_e(a: u8, b: u8, x: u32, y: u32, height: u32) -> (e: Edge)
    requires
        a <= 8,
        b <= 8,
    ensures
        e@ == spec_xy_e(a, b, x, y, height),
        e._is_hole is None,
        e.bounds == grown_by_all(None, e@),
        x < MAX_SIDE && y < height <= MAX_SIDE ==> e.wf(),
{
    let e = Edge::from([get_xy_vert(a, x, y, height), get_xy_vert(b, x, y, height)]);
    assert(e@ =~= spec_xy_e(a, b, x, y, height));
    e
}

/// The boundary segments inside a cell, by the foreground of its corners.
/// Each runs between two midpoints of the cell's sides.
pub open spec fn quad_segments(quad: QuadCase) -> Seq<(u8, u8)> {
    match quad {
        (false, false, false, false) => seq![],
        (false, false, false, true) => seq![(7u8, 3u8)],
        (false, false, true, false) => seq![(5u8, 7u8)],
        (false, false, true, true) => seq![(3u8, 5u8)],
        (false, true, false, false) => seq![(1u8, 5u8)],
        (false, true, false, true) => seq![(1u8, 5u8), (7u8, 3u8)],
        (false, true, true, false) => seq![(1u8, 7u8)],
        (false, true, true, true) => seq![(1u8, 3u8)],
        (true, false, false, false) => seq![(3u8, 1u8)],
        (true, false, false, true) => seq![(7u8, 1u8)],
        (true, false, true, false) => seq![(3u8, 1u8), (5u8, 7u8)],
        (true, false, true, true) => seq![(5u8, 1u8)],
        (true, true, false, false) => seq![(3u8, 5u8)],
        (true, true, false, true) => seq![(7u8, 5u8)],
        (true, true, true, false) => seq![(3u8, 7u8)],
        (true, true, true, true) => seq![],
    }
}

/// `segs` with `seg` appended where `wanted` holds.
pub open spec fn push_if(segs: Seq<(u8, u8)>, wanted: bool, seg: (u8, u8)) -> Seq<(u8, u8)> {
    if wanted {
        segs.push(seg)
    } else {
        segs
    }
}

/// `segs` followed by the segments that close the outline along the image
/// border: one for each foreground corner on a side that lies on the
/// border, going round by the top, right, bottom and left side.
pub open spec fn with_border_segments(
    segs: Seq<(u8, u8)>,
    border_case: BorderCase,
    quad: QuadCase,
) -> Seq<(u8, u8)> {
    let top = push_if(
        push_if(segs, border_case.0 && quad.0, (1u8, 0u8)),
        border_case.0 && quad.1,
        (2u8, 1u8),
    );
    let right = push_if(
        push_if(top, border_case.1 && quad.1, (5u8, 2u8)),
        border_case.1 && quad.2,
        (8u8, 5u8),
    );
    let bottom = push_if(
        push_if(right, border_case.2 && quad.2, (7u8, 8u8)),
        border_case.2 && quad.3,
        (6u8, 7u8),
    );
    push_if(
        push_if(bottom, border_case.3 && quad.3, (3u8, 6u8)),
        border_case.3 && quad.0,
        (0u8, 3u8),
    )
}

/// All segments of a cell: those inside it, then those along the border.
pub open spec fn cell_segments(border_case: BorderCase, quad: QuadCase) -> Seq<(u8, u8)> {
    with_border_segments(quad_segments(quad), border_case, quad)
}

/// The segments of a cell as vertex sequences.
pub open spec fn spec_quad_edge(
    border_case: BorderCase,
    quad: QuadCase,
    x: u32,
    y: u32,
    height: u32,
) -> Seq<Seq<Vert>> {
    let segs = cell_segments(border_case, quad);
    Seq::new(segs.len(), |k: int| spec_xy_e(segs[k].0, segs[k].1, x, y, height))
}

/// Appends the segment from reference point `a` to reference point `b`.
fn push_segment(
    out: &mut Vec<Edge>,
    Ghost(segs): Ghost<Seq<(u8, u8)>>,
    a: u8,
    b: u8,
    x: u32,
    y: u32,
    height: u32,
)
    requires
        a <= 8,
        b <= 8,
        segments_made(old(out)@, segs, x, y, height),
    ensures
        segments_made(final(out)@, segs.push((a, b)), x, y, height),
{
    out.push(get_xy_e(a, b, x, y, height));
    proof {
        let s2 = segs.push((a, b));
        assert forall|k: int| 0 <= k < out@.len() implies segment_made(
            #[trigger] out@[k],
            s2[k],
            x,
            y,
            height,
        ) by {
            if k < old(out)@.len() {
                assert(out@[k] == old(out)@[k]);
                assert(s2[k] == segs[k]);
            }
        }
    }
}

/// The ring `e` is the segment `seg` of the cell at `(x, y)`.
pub open spec fn segment_made(e: Edge, seg: (u8, u8), x: u32, y: u32, height: u32) -> bool {
    &&& e@ == spec_xy_e(seg.0, seg.1, x, y, height)
    &&& e._is_hole is None
    &&& e.bounds == grown_by_all(None, e@)
    &&& x < MAX_SIDE && y < height <= MAX_SIDE ==> e.wf()
}

/// The rings `out` are the segments `segs` of the cell at `(x, y)`.
pub open spec fn segments_made(out: Seq<Edge>, segs: Seq<(u8, u8)>, x: u32, y: u32, height: u32) -> bool {
    &&& out.len() == segs.len()
    &&& forall|k: int|
        0 <= k < out.len() ==> segment_made(#[trigger] out[k], segs[k], x, y, height)
}

/// Appends the segment from `a` to `b` where `wanted` holds.
fn push_segment_if(
    out: &mut Vec<Edge>,
    Ghost(segs): Ghost<Seq<(u8, u8)>>,
    wanted: bool,
    a: u8,
    b: u8,
    x: u32,
    y: u32,
    height: u32,
)
    requires
        a <= 8,
        b <= 8,
        segments_made(old(out)@, segs, x, y, height),
    ensures
        segments_made(final(out)@, push_if(segs, wanted, (a, b)), x, y, height),
{
    if wanted {
        push_segment(out, Ghost(segs), a, b, x, y, height);
    }
}

/// The segments inside a cell.
#[verifier::rlimit(40)]
fn inner_segments(quad: QuadCase, x: u32, y: u32, height: u32) -> (out: Vec<Edge>)
    ensures
        segments_made(out@, quad_segments(quad), x, y, height),
{
    let mut out: Vec<Edge> = Vec::new();
    let ghost none: Seq<(u8, u8)> = seq![];
    match quad {
        (false, false, false, false) => {},
        (false, false, false, true) => {
            push_segment(&mut out, Ghost(none), 7, 3, x, y, height);
        },
        (false, false, true, false) => {
            push_segment(&mut out, Ghost(none), 5, 7, x, y, height);
        },
        (false, false, true, true) => {
            push_segment(&mut out, Ghost(none), 3, 5, x, y, height);
        },
        (false, true, false, false) => {
            push_segment(&mut out, Ghost(none), 1, 5, x, y, height);
        },
        (false, true, false, true) => {
            push_segment(&mut out, Ghost(none), 1, 5, x, y, height);
            push_segment(&mut out, Ghost(none.push((1u8, 5u8))), 7, 3, x, y, height);
        },
        (false, true, true, false) => {
            push_segment(&mut out, Ghost(none), 1, 7, x, y, height);
        },
        (false, true, true, true) => {
            push_segment(&mut out, Ghost(none), 1, 3, x, y, height);
        },
        (true, false, false, false) => {
            push_segment(&mut out, Ghost(none), 3, 1, x, y, height);
        },
        (true, false, false, true) => {
            push_segment(&mut out, Ghost(none), 7, 1, x, y, height);
        },
        (true, false, true, false) => {
            push_segment(&mut out, Ghost(none), 3, 1, x, y, height);
            push_segment(&mut out, Ghost(none.push((3u8, 1u8))), 5, 7, x, y, height);
        },
        (true, false, true, true) => {
            push_segment(&mut out, Ghost(none), 5, 1, x, y, height);
        },
        (true, true, false, false) => {
            push_segment(&mut out, Ghost(none), 3, 5, x, y, height);
        },
        (true, true, false, true) => {
            push_segment(&mut out, Ghost(none), 7, 5, x, y, height);
        },
        (true, true, true, false) => {
            push_segment(&mut out, Ghost(none), 3, 7, x, y, height);
        },
        (true, true, true, true) => {},
    }
    proof {
        assert(out@.len() == quad_segments(quad).len());
        assert forall|k: int| 0 <= k < out@.len() implies segment_made(
            #[trigger] out@[k],
            quad_segments(quad)[k],
            x,
            y,
            height,
        ) by {
            if out@.len() == 1 {
                assert(quad_segments(quad) =~= none.push(quad_segments(quad)[0]));
            } else {
                assert(quad_segments(quad) =~= none.push(quad_segments(quad)[0]).push(
                    quad_segments(quad)[1],
                ));
            }
        }
    }
    out
}

/// The boundary segments of the cell whose top-left pixel is `(x, y)`.
///
/// `quad` tells which corners are foreground and `border_case` which
/// sides lie on the image border; `height` is the number of cell rows.
/// Segments inside the cell come first, then those along the border, and
/// each is a ring of two vertices.
#[verifier::rlimit(40)]
pub fn get_quad_edge(
    border_case: BorderCase,
    quad: QuadCase,
    x: u32,
    y: u32,
    height: u32,
) -> (out: Vec<Edge>)
    ensures
        segments_made(out@, cell_segments(border_case, quad), x, y, height),
        ring_views(out@) == spec_quad_edge(border_case, quad, x, y, height),
{
    let mut out = inner_segments(quad, x, y, height);
    let ghost s0 = quad_segments(quad);
    let ghost s1 = push_if(s0, border_case.0 && quad.0, (1u8, 0u8));
    let ghost s2 = push_if(s1, border_case.0 && quad.1, (2u8, 1u8));
    let ghost s3 = push_if(s2, border_case.1 && quad.1, (5u8, 2u8));
    let ghost s4 = push_if(s3, border_case.1 && quad.2, (8u8, 5u8));
    let ghost s5 = push_if(s4, border_case.2 && quad.2, (7u8, 8u8));
    let ghost s6 = push_if(s5, border_case.2 && quad.3, (6u8, 7u8));
    let ghost s7 = push_if(s6, border_case.3 && quad.3, (3u8, 6u8));
    push_segment_if(&mut out, Ghost(s0), border_case.0 && quad.0, 1, 0, x, y, height);
    push_segment_if(&mut out, Ghost(s1), border_case.0 && quad.1, 2, 1, x, y, height);
    push_segment_if(&mut out, Ghost(s2), border_case.1 && quad.1, 5, 2, x, y, height);
    push_segment_if(&mut out, Ghost(s3), border_case.1 && quad.2, 8, 5, x, y, height);
    push_segment_if(&mut out, Ghost(s4), border_case.2 && quad.2, 7, 8, x, y, height);
    push_segment_if(&mut out, Ghost(s5), border_case.2 && quad.3, 6, 7, x, y, height);
    push_segment_if(&mut out, Ghost(s6), border_case.3 && quad.3, 3, 6, x, y, height);
    push_segment_if(&mut out, Ghost(s7), border_case.3 && quad.0, 0, 3, x, y, height);
    proof {
        assert(ring_views(out@) =~= spec_quad_edge(border_case, quad, x, y, height));
    }
    out
}

} // verus!
