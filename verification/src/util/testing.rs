//! Squares and square rings.

use vstd::prelude::*;
use crate::edge::{grown_by_all, Edge};
use crate::vert::{Vert, COORD_MAX};

verus! {

/// The corners of the square of the given side whose lower left corner is
/// `(x, y)`, going round to the left and ending where they start.
pub open spec fn square_corners(side: i64, x: i64, y: i64) -> Seq<Vert> {
    seq![
        Vert { x, y },
        Vert { x: (side + x) as i64, y },
        Vert { x: (side + x) as i64, y: (side + y) as i64 },
        Vert { x, y: (side + y) as i64 },
        Vert { x, y },
    ]
}

/// The square lies within `COORD_MAX` of the origin.
pub open spec fn square_in_range(side: i64, x: i64, y: i64) -> bool {
    &&& -COORD_MAX <= x <= COORD_MAX
    &&& -COORD_MAX <= y <= COORD_MAX
    &&& -COORD_MAX <= side + x <= COORD_MAX
    &&& -COORD_MAX <= side + y <= COORD_MAX
}

/// A closed square ring of the given side with its lower left corner at
/// `(x, y)`: going round to the left as an outer ring does, or to the
/// right when `hole` is set.
pub fn closed_edge(side: i64, x: i64, y: i64, hole: bool) -> (e: Edge)
    requires
        square_in_range(side, x, y),
    ensures
        e@ == if hole {
            square_corners(side, x, y).reverse()
        } else {
            square_corners(side, x, y)
        },
        e.wf(),
        e._is_hole is None,
        e.bounds == grown_by_all(None, e@),
{
    let a = Vert::new(x, y);
    let b = Vert::new(side + x, y);
    let c = Vert::new(side + x, side + y);
    let d = Vert::new(x, side + y);
    let verts: [Vert; 5] = if hole {
        [a, d, c, b, a]
    } else {
        [a, b, c, d, a]
    };
    let e = Edge::from(verts);
    proof {
        if hole {
            assert(e@ =~= square_corners(side, x, y).reverse());
        } else {
            assert(e@ =~= square_corners(side, x, y));
        }
    }
    e
}

/// A square ring of the given thickness: the hole first, then the outer
/// square.
pub fn donut(side: i64, thickness: i64, x: i64, y: i64) -> (out: Vec<Edge>)
    requires
        square_in_range(side, x, y),
        -COORD_MAX <= thickness <= COORD_MAX,
        square_in_range((side - thickness * 2) as i64, (x + thickness) as i64, (y + thickness) as i64),
    ensures
        out@.len() == 2,
        out@[0]@ == square_corners(
            (side - thickness * 2) as i64,
            (x + thickness) as i64,
            (y + thickness) as i64,
        ).reverse(),
        out@[1]@ == square_corners(side, x, y),
        out@[0].wf(),
        out@[1].wf(),
        forall|k: int|
            0 <= k < 2 ==> (#[trigger] out@[k])._is_hole is None && out@[k].bounds == grown_by_all(
                None,
                out@[k]@,
            ),
{
    let mut out: Vec<Edge> = Vec::new();
    out.push(closed_edge(side - thickness * 2, x + thickness, y + thickness, true));
    out.push(closed_edge(side, x, y, false));
    out
}

} // verus!
