//! The ring assembler: joins boundary segments into rings, drops vertices
//! that lie on a straight line through a junction and flattens staircases.

use vstd::prelude::*;
use crate::edge::{
    bounds_cover, each_wf, first_x_change, grown_by_all, has_x_change, lemma_mul_bounds,
    ring_views, seq_closed, Edge,
};
use crate::vert::{lemma_product_bound, Vert};

verus! {

/// Fewest staircase periods that are flattened.
pub const MIN_ZIG_ZAG_COUNT: usize = 2;

/// `l`, `m` and `r` lie on one line, so that `m` adds nothing between
/// them: all three share an abscissa, or the slopes on both sides of `m`
/// are equal.
pub open spec fn spec_tip_redundant(l: Vert, m: Vert, r: Vert) -> bool {
    if l.x == m.x {
        m.x == r.x
    } else if m.x == r.x {
        false
    } else {
        (m.y - l.y) * (r.x - m.x) == (r.y - m.y) * (m.x - l.x)
    }
}

/// Checks whether the middle one of three vertices is redundant when two
/// rings are joined at it.
pub fn tip_redundant(left: &Vert, middle: &Vert, right: &Vert) -> (b: bool)
    requires
        left.in_range(),
        middle.in_range(),
        right.in_range(),
    ensures
        b == spec_tip_redundant(*left, *middle, *right),
{
    if left.x == middle.x {
        return middle.x == right.x;
    }
    if middle.x == right.x {
        return false;
    }
    let l_dy: i128 = (middle.y as i128) - (left.y as i128);
    let l_dx: i128 = (middle.x as i128) - (left.x as i128);
    let r_dy: i128 = (right.y as i128) - (middle.y as i128);
    let r_dx: i128 = (right.x as i128) - (middle.x as i128);
    proof {
        lemma_product_bound(l_dy as int, r_dx as int);
        lemma_product_bound(r_dy as int, l_dx as int);
    }
    l_dy * r_dx == r_dy * l_dx
}

/// A signed angle, held as the cross and dot product of the two vectors
/// that span it: its sine and cosine, both scaled by the same positive
/// factor. Two zero products stand for the angle zero.
#[derive(Clone, Copy, Debug, PartialEq, Eq, Structural)]
pub struct Angle {
    pub cross: i128,
    pub dot: i128,
}

/// The angles given by `(c1, d1)` and `(c2, d2)` are equal.
pub open spec fn same_angle(c1: int, d1: int, c2: int, d2: int) -> bool {
    let e1 = if c1 == 0 && d1 == 0 { 1 } else { d1 };
    let e2 = if c2 == 0 && d2 == 0 { 1 } else { d2 };
    c1 * e2 == c2 * e1 && e1 * e2 + c1 * c2 > 0
}

/// The angles given by `(c1, d1)` and `(c2, d2)` add up to zero. Two
/// straight angles do not: each is half a turn the same way round.
pub open spec fn opposite_angle(c1: int, d1: int, c2: int, d2: int) -> bool {
    let e1 = if c1 == 0 && d1 == 0 { 1 } else { d1 };
    let e2 = if c2 == 0 && d2 == 0 { 1 } else { d2 };
    c1 * e2 + c2 * e1 == 0 && e1 * e2 - c1 * c2 > 0 && !(c1 == 0 && e1 < 0)
}

impl Angle {
    /// Both products fit the bound that the difference of two points in
    /// range gives them.
    pub open spec fn small(self) -> bool {
        &&& -0x2000_0000_0000_0000 <= self.cross <= 0x2000_0000_0000_0000
        &&& -0x2000_0000_0000_0000 <= self.dot <= 0x2000_0000_0000_0000
    }

    pub open spec fn spec_same(self, other: Angle) -> bool {
        same_angle(self.cross as int, self.dot as int, other.cross as int, other.dot as int)
    }

    pub open spec fn spec_cancels(self, other: Angle) -> bool {
        opposite_angle(self.cross as int, self.dot as int, other.cross as int, other.dot as int)
    }

    /// The two angles are equal.
    pub fn same(&self, other: &Angle) -> (b: bool)
        requires
            self.small(),
            other.small(),
        ensures
            b == self.spec_same(*other),
    {
        let e1: i128 = if self.cross == 0 && self.dot == 0 { 1 } else { self.dot };
        let e2: i128 = if other.cross == 0 && other.dot == 0 { 1 } else { other.dot };
        proof {
            lemma_mul_bounds(
                self.cross as int,
                e2 as int,
                0x2000_0000_0000_0000,
                0x2000_0000_0000_0000,
            );
            lemma_mul_bounds(
                other.cross as int,
                e1 as int,
                0x2000_0000_0000_0000,
                0x2000_0000_0000_0000,
            );
            lemma_mul_bounds(e1 as int, e2 as int, 0x2000_0000_0000_0000, 0x2000_0000_0000_0000);
            lemma_mul_bounds(
                self.cross as int,
                other.cross as int,
                0x2000_0000_0000_0000,
                0x2000_0000_0000_0000,
            );
        }
        self.cross * e2 == other.cross * e1 && e1 * e2 + self.cross * other.cross > 0
    }

    /// The two angles add up to zero.
    pub fn cancels(&self, other: &Angle) -> (b: bool)
        requires
            self.small(),
            other.small(),
        ensures
            b == self.spec_cancels(*other),
    {
        let e1: i128 = if self.cross == 0 && self.dot == 0 { 1 } else { self.dot };
        let e2: i128 = if other.cross == 0 && other.dot == 0 { 1 } else { other.dot };
        proof {
            lemma_mul_bounds(
                self.cross as int,
                e2 as int,
                0x2000_0000_0000_0000,
                0x2000_0000_0000_0000,
            );
            lemma_mul_bounds(
                other.cross as int,
                e1 as int,
                0x2000_0000_0000_0000,
                0x2000_0000_0000_0000,
            );
            lemma_mul_bounds(e1 as int, e2 as int, 0x2000_0000_0000_0000, 0x2000_0000_0000_0000);
            lemma_mul_bounds(
                self.cross as int,
                other.cross as int,
                0x2000_0000_0000_0000,
                0x2000_0000_0000_0000,
            );
        }
        self.cross * e2 + other.cross * e1 == 0 && e1 * e2 - self.cross * other.cross > 0 && !(
        self.cross == 0 && e1 < 0)
    }
}

/// Cross product of the vectors from vertex `i` of `s` to the next vertex
/// and to the one before.
pub open spec fn turn_cross(s: Seq<Vert>, i: int) -> int {
    (s[i + 1].x - s[i].x) * (s[i - 1].y - s[i].y) - (s[i + 1].y - s[i].y) * (s[i - 1].x - s[i].x)
}

/// Dot product of the vectors from vertex `i` of `s` to the next vertex and
/// to the one before.
pub open spec fn turn_dot(s: Seq<Vert>, i: int) -> int {
    (s[i + 1].x - s[i].x) * (s[i - 1].x - s[i].x) + (s[i + 1].y - s[i].y) * (s[i - 1].y - s[i].y)
}

/// The angles at vertices `i` and `j` of `s` are equal.
pub open spec fn turns_same(s: Seq<Vert>, i: int, j: int) -> bool {
    same_angle(turn_cross(s, i), turn_dot(s, i), turn_cross(s, j), turn_dot(s, j))
}

/// The angles at vertices `i` and `j` of `s` add up to zero.
pub open spec fn turns_cancel(s: Seq<Vert>, i: int, j: int) -> bool {
    opposite_angle(turn_cross(s, i), turn_dot(s, i), turn_cross(s, j), turn_dot(s, j))
}

/// Square of the length of the segment from vertex `i` of `s` to the next.
pub open spec fn seg_len2(s: Seq<Vert>, i: int) -> int {
    (s[i].x - s[i + 1].x) * (s[i].x - s[i + 1].x) + (s[i].y - s[i + 1].y) * (s[i].y - s[i + 1].y)
}

/// The angle at an inner vertex of a ring, from the segment that leaves it
/// to the segment that arrives: positive for a left turn.
pub fn edge_angle(edge: &Edge, index: usize) -> (a: Angle)
    requires
        edge.vertices_in_range(),
        0 < index < edge@.len() - 1,
    ensures
        a.cross == turn_cross(edge@, index as int),
        a.dot == turn_dot(edge@, index as int),
        a.small(),
{
    let _len: usize = edge.verts.len();
    let middle: Vert = edge.verts[index];
    let next: Vert = edge.verts[index + 1];
    let prev: Vert = edge.verts[index - 1];
    assert(edge@[index as int].in_range() && edge@[index + 1].in_range() && edge@[index
        - 1].in_range());
    let a = next.diff(&middle);
    let b = prev.diff(&middle);
    proof {
        lemma_product_bound(a.x as int, b.y as int);
        lemma_product_bound(a.y as int, b.x as int);
        lemma_product_bound(a.x as int, b.x as int);
        lemma_product_bound(a.y as int, b.y as int);
    }
    Angle { cross: a.cross_product(&b), dot: a.dot_product(&b) }
}

/// Square of the length of the segment that starts at vertex `index`.
pub fn edge_segment_length_squared(edge: &Edge, index: usize) -> (m: i128)
    requires
        edge.vertices_in_range(),
        index < edge@.len() - 1,
    ensures
        m == seg_len2(edge@, index as int),
{
    let _len: usize = edge.verts.len();
    let from: Vert = edge.verts[index];
    let to: Vert = edge.verts[index + 1];
    assert(edge@[index as int].in_range() && edge@[index + 1].in_range());
    let segment = from.diff(&to);
    segment.magnitude_squared()
}

/// Vertices `index - 1` and `index` of `s` make one staircase period: their
/// angles add up to zero and the segments that start at them have the
/// squared lengths `zig2` and `zag2`.
pub open spec fn period_matches(s: Seq<Vert>, index: int, zag2: int, zig2: int) -> bool {
    &&& turns_cancel(s, index, index - 1)
    &&& seg_len2(s, index - 1) == zig2
    &&& seg_len2(s, index) == zag2
}

/// How many staircase periods follow one another, walking back two
/// vertices at a time from vertex `index` while there is a vertex on
/// either side of the period.
pub open spec fn count_periods(s: Seq<Vert>, index: int, zag2: int, zig2: int) -> nat
    decreases index,
{
    if index >= 2 && period_matches(s, index, zag2, zig2) {
        1 + count_periods(s, index - 2, zag2, zig2)
    } else {
        0
    }
}

/// A run of `n` periods that ends at vertex `index` starts no earlier than
/// the first vertex.
pub proof fn lemma_count_periods_bound(s: Seq<Vert>, index: int, zag2: int, zig2: int)
    requires
        index >= 0,
    ensures
        index - 2 * count_periods(s, index, zag2, zig2) >= 0,
    decreases index,
{
    if index >= 2 && period_matches(s, index, zag2, zig2) {
        lemma_count_periods_bound(s, index - 2, zag2, zig2);
    }
}

/// The ring `s` with the staircase at its tail flattened, if there is one.
///
/// The last vertex and the one before it never belong to the staircase.
/// Walking back from the third vertex from the end, periods of two
/// vertices are counted while their angles cancel and their two segment
/// lengths repeat; one more vertex, half a period, is taken when it
/// repeats the angle and the segment length with which the walk began.
/// With two or more full periods counted, the vertices taken go and the
/// vertex before the staircase is joined straight to the last two.
pub open spec fn spec_remove_zig_zags(s: Seq<Vert>) -> Seq<Vert> {
    let len = s.len() as int;
    if len < 2 * MIN_ZIG_ZAG_COUNT + 2 {
        s
    } else if turns_same(s, len - 2, len - 4) {
        s
    } else if !turns_cancel(s, len - 3, len - 4) {
        s
    } else {
        let zag2 = seg_len2(s, len - 3);
        let zig2 = seg_len2(s, len - 4);
        let count = count_periods(s, len - 3, zag2, zig2) as int;
        let index = len - 3 - 2 * count;
        let straggling: int = if index >= 2 && turns_same(s, index, len - 3) && seg_len2(s, index)
            == zag2 {
            1
        } else {
            0
        };
        if count >= MIN_ZIG_ZAG_COUNT {
            s.subrange(0, len - 2 - 2 * count - straggling).push(s[len - 2]).push(s[len - 1])
        } else {
            s
        }
    }
}

/// Flattening keeps both ends of a ring and leaves at least two vertices
/// of a ring that had as many.
pub proof fn lemma_remove_zig_zags_ends(s: Seq<Vert>)
    requires
        s.len() >= 2,
    ensures
        spec_remove_zig_zags(s).len() >= 2,
        spec_remove_zig_zags(s).len() <= s.len(),
        spec_remove_zig_zags(s)[0] == s[0],
        spec_remove_zig_zags(s).last() == s.last(),
        forall|i: int|
            0 <= i < spec_remove_zig_zags(s).len() ==> s.contains(
                #[trigger] spec_remove_zig_zags(s)[i],
            ),
{
    let len = s.len() as int;
    let r = spec_remove_zig_zags(s);
    if len >= 2 * MIN_ZIG_ZAG_COUNT + 2 {
        let zag2 = seg_len2(s, len - 3);
        let zig2 = seg_len2(s, len - 4);
        lemma_count_periods_bound(s, len - 3, zag2, zig2);
    }
    assert forall|i: int| 0 <= i < r.len() implies s.contains(#[trigger] r[i]) by {
        if r == s {
        } else {
            let split = r.len() - 2;
            if i < split {
                assert(r[i] == s[i]);
            } else if i == split {
                assert(r[i] == s[len - 2]);
            } else {
                assert(r[i] == s[len - 1]);
            }
        }
    }
}

/// Flattens the staircase at the tail of a ring, if there is one. The
/// bounding box stays as it was; a remembered orientation is dropped.
pub fn maybe_remove_zig_zags(edge: &mut Edge)
    requires
        old(edge).vertices_in_range(),
    ensures
        final(edge)@ == spec_remove_zig_zags(old(edge)@),
        final(edge).bounds == old(edge).bounds,
        final(edge)._is_hole is None,
        old(edge).wf() ==> final(edge).wf(),
{
    let ghost s = edge@;
    edge._is_hole = None;
    let min_length: usize = MIN_ZIG_ZAG_COUNT * 2 + 2;
    let len: usize = edge.len();
    if len < min_length {
        return ;
    }
    let mut index: usize = len - 3;
    let non_zig_zag_angle = edge_angle(edge, index + 1);
    let initial_zag_angle = edge_angle(edge, index);
    let initial_zig_angle = edge_angle(edge, index - 1);

    if non_zig_zag_angle.same(&initial_zig_angle) {
        return ;
    }
    if !initial_zag_angle.cancels(&initial_zig_angle) {
        return ;
    }
    let initial_zag_length = edge_segment_length_squared(edge, index);
    let initial_zig_length = edge_segment_length_squared(edge, index - 1);

    let mut count: usize = 0;
    while index >= 2
        invariant
            s == edge@,
            len == s.len(),
            len >= 6,
            edge.vertices_in_range(),
            index <= len - 3,
            index + 2 * count == len - 3,
            initial_zag_length == seg_len2(s, len - 3),
            initial_zig_length == seg_len2(s, len - 4),
            count_periods(s, len - 3, initial_zag_length as int, initial_zig_length as int)
                == count + count_periods(
                s,
                index as int,
                initial_zag_length as int,
                initial_zig_length as int,
            ),
        ensures
            index + 2 * count == len - 3,
            count_periods(s, len - 3, initial_zag_length as int, initial_zig_length as int)
                == count,
        decreases index,
    {
        let zag_angle = edge_angle(edge, index);
        let zig_angle = edge_angle(edge, index - 1);
        if !zag_angle.cancels(&zig_angle) {
            break ;
        }
        let zag_length = edge_segment_length_squared(edge, index);
        let zig_length = edge_segment_length_squared(edge, index - 1);
        if zig_length != initial_zig_length || zag_length != initial_zag_length {
            break ;
        }
        count = count + 1;
        index = index - 2;
    }

    let mut straggling_zag: usize = 0;
    if index >= 2 {
        let zag_angle = edge_angle(edge, index);
        let zag_length = edge_segment_length_squared(edge, index);
        if zag_angle.same(&initial_zag_angle) && zag_length == initial_zag_length {
            straggling_zag = 1;
        }
    }
    if count >= MIN_ZIG_ZAG_COUNT {
        let split_at_n: usize = len - 2 - (2 * count) - straggling_zag;
        let before_last: Vert = edge.verts[len - 2];
        let last: Vert = edge.verts[len - 1];
        edge.verts.truncate(split_at_n);
        edge.verts.push_back(before_last);
        edge.verts.push_back(last);
        proof {
            lemma_remove_zig_zags_ends(s);
            if old(edge).wf() {
                assert forall|i: int| 0 <= i < edge@.len() implies (#[trigger] edge@[i]).in_range()
                    && bounds_cover(edge.bounds, edge@[i]) by {
                    let v = edge@[i];
                    assert(s.contains(v));
                    let j = choose|j: int| 0 <= j < s.len() && s[j] == v;
                    assert(s[j].in_range());
                }
            }
        }
    }
}


/// The ring `o` can be attached after the last vertex of `t`.
pub open spec fn connect_at_back(t: Seq<Vert>, o: Seq<Vert>) -> bool {
    t.last() == o[0] || t.last() == o.last()
}

/// An end of `t` is an end of `o`.
pub open spec fn lines_up(t: Seq<Vert>, o: Seq<Vert>) -> bool {
    t.last() == o[0] || t.last() == o.last() || t[0] == o[0] || t[0] == o.last()
}

/// The vertices that `o` adds to `t`, in the order in which they are
/// attached, nearest the junction first. The end of `o` that touches `t`
/// is left out, as `t` has it already.
///
/// A ring that fits after the last vertex of `t` goes there, and one that
/// fits at both ends goes there the way round that joins tail to head.
pub open spec fn attached(t: Seq<Vert>, o: Seq<Vert>) -> Seq<Vert> {
    let forward = o.drop_first();
    let backward = o.drop_last().reverse();
    if t.last() == o[0] && t[0] == o.last() {
        forward
    } else if t.last() == o.last() && t[0] == o[0] {
        backward
    } else if t.last() == o[0] {
        forward
    } else if t.last() == o.last() {
        backward
    } else if t[0] == o[0] {
        forward
    } else {
        backward
    }
}

/// `t` and `o` joined at the end they share, without the shared vertex
/// where it lies on a straight line between its new neighbours.
pub open spec fn spec_join(t: Seq<Vert>, o: Seq<Vert>) -> Seq<Vert> {
    let q = attached(t, o);
    if connect_at_back(t, o) {
        (if spec_tip_redundant(t[t.len() - 2], t.last(), q[0]) {
            t.drop_last()
        } else {
            t
        }) + q
    } else {
        q.reverse() + (if spec_tip_redundant(q[0], t[0], t[1]) {
            t.drop_first()
        } else {
            t
        })
    }
}

/// `t` and `o` joined, and the staircase at the tail flattened.
#[verifier::opaque]
pub open spec fn spec_connect(t: Seq<Vert>, o: Seq<Vert>) -> Seq<Vert> {
    spec_remove_zig_zags(spec_join(t, o))
}

/// The far end of `o`: the one that does not touch `t`.
pub open spec fn free_end(t: Seq<Vert>, o: Seq<Vert>) -> Vert {
    attached(t, o).last()
}

/// A join has at least two vertices; its ends are the end of `t` that was
/// not touched and the far end of `o`; and it is made of vertices of `t`
/// and `o`.
pub proof fn lemma_join_ends(t: Seq<Vert>, o: Seq<Vert>)
    requires
        t.len() >= 2,
        o.len() >= 2,
        lines_up(t, o),
    ensures
        spec_join(t, o).len() >= 2,
        attached(t, o).len() == o.len() - 1,
        free_end(t, o) == o[0] || free_end(t, o) == o.last(),
        connect_at_back(t, o) ==> spec_join(t, o)[0] == t[0] && spec_join(t, o).last() == free_end(
            t,
            o,
        ),
        !connect_at_back(t, o) ==> spec_join(t, o)[0] == free_end(t, o) && spec_join(t, o).last()
            == t.last(),
        forall|i: int|
            0 <= i < spec_join(t, o).len() ==> t.contains(#[trigger] spec_join(t, o)[i])
                || o.contains(spec_join(t, o)[i]),
{
    let q = attached(t, o);
    let j = spec_join(t, o);
    assert(q.len() == o.len() - 1);
    assert forall|i: int| 0 <= i < q.len() implies o.contains(#[trigger] q[i]) by {
        if q == o.drop_first() {
            assert(q[i] == o[i + 1]);
        } else {
            assert(q[i] == o[o.len() - 2 - i]);
        }
    }
    assert forall|i: int| 0 <= i < j.len() implies t.contains(#[trigger] j[i]) || o.contains(
        j[i],
    ) by {
        if connect_at_back(t, o) {
            let base = if spec_tip_redundant(t[t.len() - 2], t.last(), q[0]) {
                t.drop_last()
            } else {
                t
            };
            if i < base.len() {
                assert(j[i] == t[i]);
            } else {
                assert(j[i] == q[i - base.len()]);
            }
        } else {
            let base = if spec_tip_redundant(q[0], t[0], t[1]) {
                t.drop_first()
            } else {
                t
            };
            if i < q.len() {
                assert(j[i] == q[q.len() - 1 - i]);
            } else {
                assert(t.contains(base[i - q.len()])) by {
                    if base == t {
                    } else {
                        assert(base[i - q.len()] == t[i - q.len() + 1]);
                    }
                }
            }
        }
    }
}

/// What holds of a join holds of it with the staircase flattened.
pub proof fn lemma_connect_ends(t: Seq<Vert>, o: Seq<Vert>)
    requires
        t.len() >= 2,
        o.len() >= 2,
        lines_up(t, o),
    ensures
        spec_connect(t, o).len() >= 2,
        connect_at_back(t, o) ==> spec_connect(t, o)[0] == t[0] && spec_connect(t, o).last()
            == free_end(t, o),
        !connect_at_back(t, o) ==> spec_connect(t, o)[0] == free_end(t, o) && spec_connect(
            t,
            o,
        ).last() == t.last(),
        free_end(t, o) == o[0] || free_end(t, o) == o.last(),
        forall|i: int|
            0 <= i < spec_connect(t, o).len() ==> t.contains(#[trigger] spec_connect(t, o)[i])
                || o.contains(spec_connect(t, o)[i]),
{
    reveal(spec_connect);
    lemma_join_ends(t, o);
    let j = spec_join(t, o);
    lemma_remove_zig_zags_ends(j);
    let c = spec_connect(t, o);
    assert forall|i: int| 0 <= i < c.len() implies t.contains(#[trigger] c[i]) || o.contains(
        c[i],
    ) by {
        assert(j.contains(c[i]));
        let k = choose|k: int| 0 <= k < j.len() && j[k] == c[i];
        assert(t.contains(j[k]) || o.contains(j[k]));
    }
}

/// Connects `other` to `target` at an end they share.
///
/// The shared vertex is kept once, or not at all where it lies on a
/// straight line between its new neighbours; then the staircase at the
/// tail of the result is flattened. The bounding box grows by the
/// vertices attached.
pub fn connect(target: &mut Edge, other: Edge)
    requires
        old(target).wf(),
        other.wf(),
        old(target)@.len() >= 2,
        other@.len() >= 2,
        lines_up(old(target)@, other@),
    ensures
        final(target)@ == spec_connect(old(target)@, other@),
        final(target).bounds == grown_by_all(
            old(target).bounds,
            attached(old(target)@, other@),
        ),
        final(target)._is_hole is None,
        final(target).wf(),
{
    let ghost t = target@;
    let ghost o = other@;
    let ghost q = attached(t, o);
    let ghost b0 = target.bounds;
    let tlen: usize = target.len();
    let olen: usize = other.len();
    let target_front: Vert = target.verts[0];
    let target_back: Vert = target.verts[tlen - 1];
    let other_front: Vert = other.verts[0];
    let other_back: Vert = other.verts[olen - 1];
    let (at_back, reversed): (bool, bool) = if target_back == other_front && target_front
        == other_back {
        (true, false)
    } else if target_back == other_back && target_front == other_front {
        (true, true)
    } else if target_back == other_front {
        (true, false)
    } else if target_back == other_back {
        (true, true)
    } else if target_front == other_front {
        (false, false)
    } else {
        (false, true)
    };
    let first_attached: Vert = if reversed {
        other.verts[olen - 2]
    } else {
        other.verts[1]
    };
    proof {
        assert(at_back == connect_at_back(t, o));
        assert(q == if reversed {
            o.drop_last().reverse()
        } else {
            o.drop_first()
        });
        assert(q.len() == olen - 1);
        assert(q[0] == first_attached);
        assert(t[0].in_range() && t[1].in_range() && t[tlen - 1].in_range() && t[tlen
            - 2].in_range());
        assert(o[1].in_range() && o[olen - 2].in_range());
    }
    if at_back {
        let before: Vert = target.verts[tlen - 2];
        if tip_redundant(&before, &target_back, &first_attached) {
            target.pop_back();
        }
    } else {
        let after: Vert = target.verts[1];
        if tip_redundant(&first_attached, &target_front, &after) {
            target.pop_front();
        }
    }
    target._is_hole = None;
    let ghost base = target@;
    let mut i: usize = 0;
    while i < olen - 1
        invariant
            i <= olen - 1,
            olen == o.len(),
            olen >= 2,
            o == other@,
            other.wf(),
            q.len() == olen - 1,
            q == if reversed {
                o.drop_last().reverse()
            } else {
                o.drop_first()
            },
            target.wf(),
            target._is_hole is None,
            target.bounds == grown_by_all(b0, q.take(i as int)),
            at_back ==> target@ == base + q.take(i as int),
            !at_back ==> target@ == q.take(i as int).reverse() + base,
        decreases olen - 1 - i,
    {
        let v: Vert = if reversed {
            other.verts[olen - 2 - i]
        } else {
            other.verts[i + 1]
        };
        proof {
            assert(v == q[i as int]);
            assert(o[i + 1].in_range() && o[olen - 2 - i].in_range());
            assert(q.take(i + 1).drop_last() =~= q.take(i as int));
            assert(q.take(i + 1).last() == v);
        }
        if at_back {
            target.push_back(v);
            assert(target@ =~= base + q.take(i + 1));
        } else {
            target.push_front(v);
            assert(target@ =~= q.take(i + 1).reverse() + base);
        }
        i = i + 1;
    }
    proof {
        reveal(spec_connect);
        assert(q.take(olen - 1) =~= q);
        assert(target@ == spec_join(t, o));
    }
    maybe_remove_zig_zags(target);
}


/// An end of `a` is an end of `b`.
pub open spec fn ring_matches(a: Seq<Vert>, b: Seq<Vert>) -> bool {
    b[0] == a[0] || b[0] == a.last() || b.last() == a[0] || b.last() == a.last()
}

/// Position of the first ring at or after `from` with an end that is an
/// end of `x`; the number of rings when there is none.
pub open spec fn first_match(open: Seq<Seq<Vert>>, x: Seq<Vert>, from: int) -> int
    decreases open.len() - from,
{
    if from >= open.len() {
        open.len() as int
    } else if ring_matches(open[from], x) {
        from
    } else {
        first_match(open, x, from + 1)
    }
}

/// The open and the closed rings after the ring `x` has been taken in.
///
/// A ring whose ends meet is filed as closed. Any other ring is matched,
/// end against end, with the open rings in their order. With no match it
/// becomes a new open ring. With one match it is connected to that ring.
/// With more, it is connected to the first ring that matches, and the
/// second such ring is taken out of the list and connected to the result.
/// A result whose ends meet moves to the closed rings.
pub open spec fn spec_add_edge(open: Seq<Seq<Vert>>, closed: Seq<Seq<Vert>>, x: Seq<Vert>) -> (
    Seq<Seq<Vert>>,
    Seq<Seq<Vert>>,
) {
    if x[0] == x.last() {
        (open, closed.push(x))
    } else {
        let a = first_match(open, x, 0);
        if a == open.len() {
            (open.push(x), closed)
        } else {
            let b = first_match(open, x, a + 1);
            if b == open.len() {
                let r = spec_connect(open[a], x);
                if r[0] == r.last() {
                    (open.remove(a), closed.push(r))
                } else {
                    (open.update(a, r), closed)
                }
            } else {
                let r = spec_connect(spec_connect(open[a], x), open[b]);
                if r[0] == r.last() {
                    (open.remove(b).remove(a), closed.push(r))
                } else {
                    (open.remove(b).update(a, r), closed)
                }
            }
        }
    }
}

/// Every open ring has two vertices or more and distinct ends, and no two
/// open rings share an end.
#[verifier::opaque]
pub open spec fn rings_apart(open: Seq<Seq<Vert>>) -> bool {
    &&& forall|i: int|
        0 <= i < open.len() ==> (#[trigger] open[i]).len() >= 2 && open[i][0] != open[i].last()
    &&& forall|i: int, j: int|
        0 <= i < open.len() && 0 <= j < open.len() && i != j ==> !ring_matches(
            #[trigger] open[i],
            #[trigger] open[j],
        )
}

/// Every ring of `closed` ends where it starts.
#[verifier::opaque]
pub open spec fn all_closed(closed: Seq<Seq<Vert>>) -> bool {
    forall|i: int| 0 <= i < closed.len() ==> seq_closed(#[trigger] closed[i])
}

/// Rings that are apart have two vertices or more each.
pub proof fn lemma_apart_lengths(open: Seq<Seq<Vert>>)
    requires
        rings_apart(open),
    ensures
        forall|k: int| 0 <= k < open.len() ==> (#[trigger] open[k]).len() >= 2,
{
    reveal(rings_apart);
}

/// `first_match` finds the first ring that matches, and says so when there
/// is none.
pub proof fn lemma_first_match(open: Seq<Seq<Vert>>, x: Seq<Vert>, from: int)
    requires
        0 <= from <= open.len(),
    ensures
        from <= first_match(open, x, from) <= open.len(),
        first_match(open, x, from) < open.len() ==> ring_matches(
            open[first_match(open, x, from)],
            x,
        ),
        forall|k: int|
            from <= k < first_match(open, x, from) ==> !ring_matches(#[trigger] open[k], x),
    decreases open.len() - from,
{
    if from < open.len() && !ring_matches(open[from], x) {
        lemma_first_match(open, x, from + 1);
    }
}

/// Rings that are apart stay so when one of them is taken out.
pub proof fn lemma_remove_keeps_apart(open: Seq<Seq<Vert>>, k: int)
    requires
        rings_apart(open),
        0 <= k < open.len(),
    ensures
        rings_apart(open.remove(k)),
{
    reveal(rings_apart);
    let r = open.remove(k);
    assert forall|i: int| 0 <= i < r.len() implies (#[trigger] r[i]).len() >= 2 && r[i][0]
        != r[i].last() by {
        let i0 = if i < k { i } else { i + 1 };
        assert(r[i] == open[i0]);
    }
    assert forall|i: int, j: int| 0 <= i < r.len() && 0 <= j < r.len() && i != j implies !ring_matches(
        #[trigger] r[i],
        #[trigger] r[j],
    ) by {
        let i0 = if i < k { i } else { i + 1 };
        let j0 = if j < k { j } else { j + 1 };
        assert(r[i] == open[i0]);
        assert(r[j] == open[j0]);
    }
}

/// Rings that are apart stay so when one of them is replaced by an open
/// ring that shares no end with the others.
pub proof fn lemma_update_keeps_apart(open: Seq<Seq<Vert>>, a: int, r: Seq<Vert>)
    requires
        rings_apart(open),
        0 <= a < open.len(),
        r.len() >= 2,
        r[0] != r.last(),
        forall|k: int| 0 <= k < open.len() && k != a ==> !ring_matches(#[trigger] open[k], r),
    ensures
        rings_apart(open.update(a, r)),
{
    reveal(rings_apart);
    let u = open.update(a, r);
    assert forall|i: int, j: int| 0 <= i < u.len() && 0 <= j < u.len() && i != j implies !ring_matches(
        #[trigger] u[i],
        #[trigger] u[j],
    ) by {
        if i == a {
            assert(u[j] == open[j]);
            assert(!ring_matches(open[j], r));
        } else if j == a {
            assert(u[i] == open[i]);
            assert(!ring_matches(open[i], r));
        } else {
            assert(u[i] == open[i]);
            assert(u[j] == open[j]);
        }
    }
}

/// Where `x` fits two open rings, it fits one with each end: once joined
/// to the first, the result still fits the second, and what the two
/// connections give shares no end with a third ring.
pub proof fn lemma_bridge(open: Seq<Seq<Vert>>, x: Seq<Vert>, a: int, b: int)
    requires
        rings_apart(open),
        x.len() >= 2,
        x[0] != x.last(),
        0 <= a < open.len(),
        0 <= b < open.len(),
        a != b,
        ring_matches(open[a], x),
        ring_matches(open[b], x),
    ensures
        lines_up(spec_connect(open[a], x), open[b]),
        spec_connect(spec_connect(open[a], x), open[b]).len() >= 2,
        forall|k: int|
            0 <= k < open.len() && k != a && k != b ==> !ring_matches(
                #[trigger] open[k],
                spec_connect(spec_connect(open[a], x), open[b]),
            ),
{
    reveal(rings_apart);
    let t = open[a];
    let o = open[b];
    assert(!ring_matches(open[a], open[b]));
    lemma_connect_ends(t, x);
    let r1 = spec_connect(t, x);
    assert(lines_up(r1, o));
    lemma_connect_ends(r1, o);
    let r2 = spec_connect(r1, o);
    assert forall|k: int| 0 <= k < open.len() && k != a && k != b implies !ring_matches(
        #[trigger] open[k],
        r2,
    ) by {
        assert(!ring_matches(open[k], open[a]));
        assert(!ring_matches(open[k], open[b]));
        assert(!ring_matches(open[a], open[k]));
        assert(!ring_matches(open[b], open[k]));
    }
}

/// Where `x` fits one open ring only, what the connection gives shares no
/// end with another ring.
pub proof fn lemma_extend(open: Seq<Seq<Vert>>, x: Seq<Vert>, a: int)
    requires
        rings_apart(open),
        x.len() >= 2,
        0 <= a < open.len(),
        ring_matches(open[a], x),
        forall|k: int| 0 <= k < open.len() && k != a ==> !ring_matches(#[trigger] open[k], x),
    ensures
        spec_connect(open[a], x).len() >= 2,
        forall|k: int|
            0 <= k < open.len() && k != a ==> !ring_matches(
                #[trigger] open[k],
                spec_connect(open[a], x),
            ),
{
    reveal(rings_apart);
    let t = open[a];
    lemma_connect_ends(t, x);
    let r = spec_connect(t, x);
    assert forall|k: int| 0 <= k < open.len() && k != a implies !ring_matches(
        #[trigger] open[k],
        r,
    ) by {
        assert(!ring_matches(open[k], open[a]));
        assert(!ring_matches(open[a], open[k]));
        assert(!ring_matches(open[k], x));
    }
}

/// The assembler keeps its rings in order: whatever ring it takes in, the
/// open rings stay apart, each with distinct ends, and every closed ring
/// ends where it starts.
#[verifier::rlimit(40)]
pub proof fn lemma_add_edge_keeps_order(
    open: Seq<Seq<Vert>>,
    closed: Seq<Seq<Vert>>,
    x: Seq<Vert>,
)
    requires
        rings_apart(open),
        all_closed(closed),
        x.len() >= 1,
    ensures
        rings_apart(spec_add_edge(open, closed, x).0),
        all_closed(spec_add_edge(open, closed, x).1),
{
    reveal(rings_apart);
    reveal(all_closed);
    let res = spec_add_edge(open, closed, x);
    if x[0] == x.last() {
        assert forall|i: int| 0 <= i < res.1.len() implies seq_closed(#[trigger] res.1[i]) by {
            if i < closed.len() {
                assert(res.1[i] == closed[i]);
            }
        }
    } else {
        lemma_first_match(open, x, 0);
        let a = first_match(open, x, 0);
        if a == open.len() {
            let p = open.push(x);
            assert forall|i: int, j: int|
                0 <= i < p.len() && 0 <= j < p.len() && i != j implies !ring_matches(
                #[trigger] p[i],
                #[trigger] p[j],
            ) by {
                if i < open.len() {
                    assert(p[i] == open[i]);
                    assert(!ring_matches(open[i], x));
                }
                if j < open.len() {
                    assert(p[j] == open[j]);
                    assert(!ring_matches(open[j], x));
                }
            }
            assert forall|i: int| 0 <= i < p.len() implies (#[trigger] p[i]).len() >= 2 && p[i][0]
                != p[i].last() by {
                if i < open.len() {
                    assert(p[i] == open[i]);
                }
            }
        } else {
            lemma_first_match(open, x, a + 1);
            let b = first_match(open, x, a + 1);
            let r = if b == open.len() {
                spec_connect(open[a], x)
            } else {
                spec_connect(spec_connect(open[a], x), open[b])
            };
            let rest = if b == open.len() {
                open
            } else {
                open.remove(b)
            };
            if b == open.len() {
                assert forall|k: int| 0 <= k < open.len() && k != a implies !ring_matches(
                    #[trigger] open[k],
                    x,
                ) by {}
                lemma_extend(open, x, a);
            } else {
                lemma_bridge(open, x, a, b);
                lemma_remove_keeps_apart(open, b);
                assert(rest[a] == open[a]);
            }
            assert forall|k: int| 0 <= k < rest.len() && k != a implies !ring_matches(
                #[trigger] rest[k],
                r,
            ) by {
                if b == open.len() {
                } else {
                    let k0 = if k < b { k } else { k + 1 };
                    assert(rest[k] == open[k0]);
                }
            }
            if r[0] == r.last() {
                lemma_remove_keeps_apart(rest, a);
                assert forall|i: int| 0 <= i < res.1.len() implies seq_closed(
                    #[trigger] res.1[i],
                ) by {
                    if i < closed.len() {
                        assert(res.1[i] == closed[i]);
                    }
                }
            } else {
                lemma_update_keeps_apart(rest, a, r);
            }
        }
    }
}

/// Every ring of the list remembers which way round it goes, unless all
/// its vertices lie on one upright line: then it remembers nothing.
pub open spec fn orientations_found(rings: Seq<Edge>) -> bool {
    forall|i: int|
        0 <= i < rings.len() ==> ((#[trigger] rings[i])._is_hole is Some) == has_x_change(
            rings[i]@,
        )
}

/// A list of rings that remember their orientation still is one with
/// one such ring more at its end.
pub proof fn lemma_orientations_kept(before: Seq<Edge>, after: Seq<Edge>)
    requires
        orientations_found(before),
        before.len() <= after.len() <= before.len() + 1,
        after.take(before.len() as int) == before,
        after.len() > before.len() ==> (after.last()._is_hole is Some) == has_x_change(
            after.last()@,
        ),
    ensures
        orientations_found(after),
{
    assert forall|i: int| 0 <= i < after.len() implies ((#[trigger] after[i])._is_hole is Some)
        == has_x_change(after[i]@) by {
        if i < before.len() {
            assert(after[i] == after.take(before.len() as int)[i]);
        }
    }
}

/// The state of the assembler: rings still open and rings that closed.
#[derive(Debug)]
pub struct Edges {
    pub edges: Vec<Edge>,
    pub closed_edges: Vec<Edge>,
}

impl Default for Edges {
    fn default() -> (e: Edges)
        ensures
            e.edges@.len() == 0,
            e.closed_edges@.len() == 0,
            e.wf(),
    {
        Edges::new()
    }
}

impl Edges {
    pub open spec fn open_rings(&self) -> Seq<Seq<Vert>> {
        ring_views(self.edges@)
    }

    pub open spec fn closed_rings(&self) -> Seq<Seq<Vert>> {
        ring_views(self.closed_edges@)
    }

    /// Every ring is well formed. An open ring has two vertices or more
    /// and distinct ends, and no two open rings share an end. A closed
    /// ring ends where it starts.
    pub open spec fn wf(&self) -> bool {
        &&& each_wf(self.edges@)
        &&& each_wf(self.closed_edges@)
        &&& rings_apart(self.open_rings())
        &&& all_closed(self.closed_rings())
    }

    pub fn new() -> (e: Edges)
        ensures
            e.edges@.len() == 0,
            e.closed_edges@.len() == 0,
            e.wf(),
    {
        proof {
            reveal(rings_apart);
            reveal(all_closed);
        }
        Edges { edges: Vec::new(), closed_edges: Vec::new() }
    }

    /// Moves the ring at `edge_i`, whose ends have met, from the open
    /// rings to the closed ones. Its orientation is found and remembered
    /// on the way, unless all its vertices lie on one upright line.
    pub fn mark_closed(&mut self, edge_i: usize)
        requires
            edge_i < old(self).edges@.len(),
            each_wf(old(self).edges@),
            each_wf(old(self).closed_edges@),
            seq_closed(old(self).edges@[edge_i as int]@),
        ensures
            each_wf(final(self).edges@),
            each_wf(final(self).closed_edges@),
            final(self).open_rings() == old(self).open_rings().remove(edge_i as int),
            final(self).closed_rings() == old(self).closed_rings().push(
                old(self).edges@[edge_i as int]@,
            ),
            final(self).closed_edges@.drop_last() == old(self).closed_edges@,
            final(self).closed_edges@.last()._is_hole is Some == has_x_change(
                old(self).edges@[edge_i as int]@,
            ),
    {
        let e = self.edges.remove(edge_i);
        file_closed(&mut self.closed_edges, e);
        proof {
            assert(self.open_rings() =~= old(self).open_rings().remove(edge_i as int));
            assert forall|i: int| 0 <= i < self.edges@.len() implies (
            #[trigger] self.edges@[i]).wf() by {
                let i0 = if i < edge_i { i } else { i + 1 };
                assert(self.edges@[i] == old(self).edges@[i0]);
            }
        }
    }

    /// Positions of the first and the second open ring with an end that
    /// is an end of `x`.
    fn find_matches(&self, x: &Edge) -> (r: (Option<usize>, Option<usize>))
        requires
            x@.len() >= 1,
            forall|k: int| 0 <= k < self.edges@.len() ==> (#[trigger] self.edges@[k])@.len() >= 2,
        ensures
            match r.0 {
                None => first_match(self.open_rings(), x@, 0) == self.edges@.len() && r.1 is None,
                Some(a) => a < self.edges@.len() && first_match(self.open_rings(), x@, 0) == a
                    && match r.1 {
                    None => first_match(self.open_rings(), x@, a + 1) == self.edges@.len(),
                    Some(b) => a < b < self.edges@.len() && first_match(
                        self.open_rings(),
                        x@,
                        a + 1,
                    ) == b,
                },
            },
    {
        let ghost open = self.open_rings();
        let ghost xs = x@;
        let xlen: usize = x.len();
        let other_front: Vert = x.verts[0];
        let other_back: Vert = x.verts[xlen - 1];
        let n: usize = self.edges.len();
        let mut i: usize = 0;
        let mut first: Option<usize> = None;
        let mut second: Option<usize> = None;
        while i < n
            invariant_except_break
                second is None,
                match first {
                    None => first_match(open, xs, 0) == first_match(open, xs, i as int),
                    Some(a) => a < i && first_match(open, xs, 0) == a && first_match(
                        open,
                        xs,
                        a + 1,
                    ) == first_match(open, xs, i as int),
                },
            invariant
                i <= n,
                n == self.edges@.len(),
                open == ring_views(self.edges@),
                xs == x@,
                xs.len() >= 1,
                other_front == xs[0],
                other_back == xs.last(),
                forall|k: int| 0 <= k < n ==> (#[trigger] self.edges@[k])@.len() >= 2,
            ensures
                match first {
                    None => first_match(open, xs, 0) == n && second is None,
                    Some(a) => a < n && first_match(open, xs, 0) == a && match second {
                        None => first_match(open, xs, a + 1) == n,
                        Some(b) => a < b < n && first_match(open, xs, a + 1) == b,
                    },
                },
            decreases n - i,
        {
            let ring = &self.edges[i];
            let rlen: usize = ring.len();
            let target_front: Vert = ring.verts[0];
            let target_back: Vert = ring.verts[rlen - 1];
            assert(open[i as int] == self.edges@[i as int]@);
            if other_front == target_front || other_front == target_back || other_back
                == target_front || other_back == target_back {
                if first.is_none() {
                    first = Some(i);
                } else {
                    second = Some(i);
                    break ;
                }
            }
            i = i + 1;
        }
        (first, second)
    }

    /// Takes a segment, or any ring with at least one vertex, into the
    /// collection.
    ///
    /// A ring that comes closed is filed as it is. A ring that the
    /// segment closes is filed with its orientation remembered, unless
    /// all its vertices lie on one upright line. The closed rings that
    /// were there stay as they were.
    #[verifier::rlimit(40)]
    pub fn add_edge(&mut self, x: Edge)
        requires
            old(self).wf(),
            x.wf(),
            x@.len() > 0,
        ensures
            final(self).wf(),
            (final(self).open_rings(), final(self).closed_rings()) == spec_add_edge(
                old(self).open_rings(),
                old(self).closed_rings(),
                x@,
            ),
            old(self).closed_edges@.len() <= final(self).closed_edges@.len() <= old(
                self,
            ).closed_edges@.len() + 1,
            final(self).closed_edges@.take(old(self).closed_edges@.len() as int) == old(
                self,
            ).closed_edges@,
            x@.first() == x@.last() ==> final(self).closed_edges@ == old(self).closed_edges@.push(
                x,
            ),
            x@.first() != x@.last() && final(self).closed_edges@.len() > old(
                self,
            ).closed_edges@.len() ==> final(self).closed_edges@.last()._is_hole is Some
                == has_x_change(final(self).closed_edges@.last()@),
    {
        let ghost open = self.open_rings();
        let ghost closed = self.closed_rings();
        let ghost xs = x@;
        proof {
            lemma_add_edge_keeps_order(open, closed, xs);
            lemma_apart_lengths(open);
            assert forall|k: int| 0 <= k < self.edges@.len() implies (
            #[trigger] self.edges@[k])@.len() >= 2 by {
                assert(open[k] == self.edges@[k]@);
            }
        }
        let xlen: usize = x.len();
        let other_front: Vert = x.verts[0];
        let other_back: Vert = x.verts[xlen - 1];
        if other_back == other_front {
            push_ring(&mut self.closed_edges, x);
            proof {
                assert(self.closed_edges@.take(old(self).closed_edges@.len() as int) =~= old(
                    self,
                ).closed_edges@);
            }
            return ;
        }
        proof {
            assert(self.closed_edges@.take(old(self).closed_edges@.len() as int) =~= old(
                self,
            ).closed_edges@);
        }
        let (first, second) = self.find_matches(&x);
        match first {
            None => {
                push_ring(&mut self.edges, x);
            },
            Some(a) => {
                proof {
                    lemma_first_match(open, xs, 0);
                    lemma_first_match(open, xs, a + 1);
                    assert(open[a as int] == self.edges@[a as int]@);
                }
                let mut target = take_ring(&mut self.edges, a);
                let ghost t0 = target@;
                proof {
                    lemma_connect_ends(t0, xs);
                }
                connect(&mut target, x);
                match second {
                    None => {},
                    Some(b) => {
                        proof {
                            assert(open[b as int] == old(self).edges@[b as int]@);
                            lemma_bridge(open, xs, a as int, b as int);
                            assert(open.remove(a as int)[b - 1] == open[b as int]);
                        }
                        let other = take_ring(&mut self.edges, b - 1);
                        connect(&mut target, other);
                        proof {
                            assert(open.remove(a as int).remove(b - 1) =~= open.remove(
                                b as int,
                            ).remove(a as int));
                        }
                    },
                }
                let ghost rest = if second is Some {
                    open.remove(second->0 as int)
                } else {
                    open
                };
                assert(ring_views(self.edges@) == rest.remove(a as int));
                let tlen: usize = target.len();
                let front: Vert = target.verts[0];
                let back: Vert = target.verts[tlen - 1];
                if front == back {
                    file_closed(&mut self.closed_edges, target);
                    proof {
                        assert(self.closed_edges@.take(old(self).closed_edges@.len() as int)
                            =~= old(self).closed_edges@);
                    }
                } else {
                    put_ring(&mut self.edges, a, target);
                    proof {
                        assert(rest.remove(a as int).insert(a as int, target@) =~= rest.update(
                            a as int,
                            target@,
                        ));
                    }
                }
            },
        }
    }
}

/// Files a ring whose ends have met with the closed rings, remembering
/// its orientation unless all its vertices lie on one upright line.
fn file_closed(closed_edges: &mut Vec<Edge>, ring: Edge)
    requires
        ring.wf(),
        seq_closed(ring@),
        each_wf(old(closed_edges)@),
    ensures
        each_wf(final(closed_edges)@),
        final(closed_edges)@.len() == old(closed_edges)@.len() + 1,
        final(closed_edges)@.drop_last() == old(closed_edges)@,
        final(closed_edges)@.last()@ == ring@,
        final(closed_edges)@.last()._is_hole is Some == has_x_change(ring@),
        ring_views(final(closed_edges)@) == ring_views(old(closed_edges)@).push(ring@),
{
    let mut e = ring;
    e._is_hole = None;
    if first_x_change(&e).is_some() {
        e.set_is_hole();
    }
    push_ring(closed_edges, e);
    proof {
        assert(closed_edges@.drop_last() =~= old(closed_edges)@);
    }
}

/// Appends a ring to a list.
fn push_ring(rings: &mut Vec<Edge>, ring: Edge)
    requires
        ring.wf(),
        each_wf(old(rings)@),
    ensures
        each_wf(final(rings)@),
        final(rings)@ == old(rings)@.push(ring),
        ring_views(final(rings)@) == ring_views(old(rings)@).push(ring@),
{
    rings.push(ring);
    proof {
        assert(ring_views(rings@) =~= ring_views(old(rings)@).push(ring@));
        assert forall|i: int| 0 <= i < rings@.len() implies (#[trigger] rings@[i]).wf() by {
            if i < old(rings)@.len() {
                assert(rings@[i] == old(rings)@[i]);
            }
        }
    }
}

/// Takes the ring at position `k` out of a list.
fn take_ring(rings: &mut Vec<Edge>, k: usize) -> (ring: Edge)
    requires
        k < old(rings)@.len(),
        each_wf(old(rings)@),
    ensures
        each_wf(final(rings)@),
        ring == old(rings)@[k as int],
        ring.wf(),
        final(rings)@ == old(rings)@.remove(k as int),
        ring_views(final(rings)@) == ring_views(old(rings)@).remove(k as int),
{
    let ring = rings.remove(k);
    proof {
        assert(ring_views(rings@) =~= ring_views(old(rings)@).remove(k as int));
        assert forall|i: int| 0 <= i < rings@.len() implies (#[trigger] rings@[i]).wf() by {
            let i0 = if i < k { i } else { i + 1 };
            assert(rings@[i] == old(rings)@[i0]);
        }
    }
    ring
}

/// Puts a ring into a list at position `k`.
fn put_ring(rings: &mut Vec<Edge>, k: usize, ring: Edge)
    requires
        k <= old(rings)@.len(),
        ring.wf(),
        each_wf(old(rings)@),
    ensures
        each_wf(final(rings)@),
        final(rings)@ == old(rings)@.insert(k as int, ring),
        ring_views(final(rings)@) == ring_views(old(rings)@).insert(k as int, ring@),
{
    rings.insert(k, ring);
    proof {
        assert(ring_views(rings@) =~= ring_views(old(rings)@).insert(k as int, ring@));
        assert forall|i: int| 0 <= i < rings@.len() implies (#[trigger] rings@[i]).wf() by {
            if i < k {
                assert(rings@[i] == old(rings)@[i]);
            } else if i > k {
                assert(rings@[i] == old(rings)@[i - 1]);
            }
        }
    }
}

} // verus!
