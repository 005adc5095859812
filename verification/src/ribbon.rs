//! The walls of the solid: two triangles for every segment of a ring.

use vstd::prelude::*;
use crate::edge::{has_x_change, seq_closed, spec_is_hole, Edge};
use crate::vert::Vert;

verus! {

/// The two triangles that stand on the segment from `a` to `b` and reach
/// from height zero to `height`, as eighteen coordinates. Their corners
/// are ordered so that they face away from the solid: one way round for
/// an outer ring, the other for a hole.
pub open spec fn ribbon_quad(a: Vert, b: Vert, height: i64, hole: bool) -> Seq<i64> {
    if !hole {
        seq![
            a.x, a.y, 0i64,
            a.x, a.y, height,
            b.x, b.y, 0i64,
            a.x, a.y, height,
            b.x, b.y, height,
            b.x, b.y, 0i64,
        ]
    } else {
        seq![
            a.x, a.y, 0i64,
            b.x, b.y, 0i64,
            a.x, a.y, height,
            a.x, a.y, height,
            b.x, b.y, 0i64,
            b.x, b.y, height,
        ]
    }
}

/// The walls on the first `k` segments of the ring `s`.
pub open spec fn ribbon_upto(s: Seq<Vert>, height: i64, hole: bool, k: int) -> Seq<i64>
    decreases k,
{
    if k <= 0 {
        Seq::empty()
    } else {
        ribbon_upto(s, height, hole, k - 1) + ribbon_quad(s[k - 1], s[k], height, hole)
    }
}

/// The walls on all segments of the closed ring `s`.
pub open spec fn spec_ribbon(s: Seq<Vert>, height: i64) -> Seq<i64> {
    ribbon_upto(s, height, spec_is_hole(s), s.len() - 1)
}

/// The walls on `k` segments take eighteen coordinates each.
pub proof fn lemma_ribbon_len(s: Seq<Vert>, height: i64, hole: bool, k: int)
    requires
        k >= 0,
    ensures
        ribbon_upto(s, height, hole, k).len() == 18 * k,
    decreases k,
{
    if k > 0 {
        lemma_ribbon_len(s, height, hole, k - 1);
    }
}

fn push_vertex(out: &mut Vec<i64>, v: &Vert, z: i64)
    ensures
        final(out)@ == old(out)@.push(v.x).push(v.y).push(z),
{
    out.push(v.x);
    out.push(v.y);
    out.push(z);
}

/// Builds the vertical wall of triangles along a closed ring, from height
/// zero to `height`.
pub fn edge_to_ribbon(edge: &Edge, height: i64) -> (out: Vec<i64>)
    requires
        edge.wf(),
        seq_closed(edge@),
        has_x_change(edge@),
    ensures
        out@ == spec_ribbon(edge@, height),
        out@.len() == 18 * (edge@.len() - 1),
{
    let is_hole = edge.is_hole();
    let n: usize = edge.verts.len();
    let mut out: Vec<i64> = Vec::new();
    let mut i: usize = 0;
    while i < n - 1
        invariant
            i <= n - 1,
            n == edge@.len(),
            n >= 1,
            out@ == ribbon_upto(edge@, height, is_hole, i as int),
        decreases n - 1 - i,
    {
        let vn: Vert = edge.verts[i];
        let vnp1: Vert = edge.verts[i + 1];
        let ghost before = out@;
        if !is_hole {
            push_vertex(&mut out, &vn, 0);
            push_vertex(&mut out, &vn, height);
            push_vertex(&mut out, &vnp1, 0);
            push_vertex(&mut out, &vn, height);
            push_vertex(&mut out, &vnp1, height);
            push_vertex(&mut out, &vnp1, 0);
        } else {
            push_vertex(&mut out, &vn, 0);
            push_vertex(&mut out, &vnp1, 0);
            push_vertex(&mut out, &vn, height);
            push_vertex(&mut out, &vn, height);
            push_vertex(&mut out, &vnp1, 0);
            push_vertex(&mut out, &vnp1, height);
        }
        assert(out@ =~= before + ribbon_quad(vn, vnp1, height, is_hole));
        i = i + 1;
    }
    proof {
        lemma_ribbon_len(edge@, height, is_hole, n - 1);
    }
    out
}

} // verus!
