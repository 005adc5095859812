//! Rings: ordered vertex sequences with a bounding box and, once closed, a
//! remembered orientation.

use std::collections::VecDeque;
use vstd::prelude::*;
use crate::vert::Vert;

verus! {

/// An axis-aligned box.
#[derive(Clone, Copy, Debug, PartialEq, Eq, Structural)]
pub struct Bounds {
    pub min_x: i64,
    pub max_x: i64,
    pub min_y: i64,
    pub max_y: i64,
}

impl Bounds {
    /// `v` lies inside the box or on its border.
    pub open spec fn covers(self, v: Vert) -> bool {
        &&& self.min_x <= v.x <= self.max_x
        &&& self.min_y <= v.y <= self.max_y
    }

    /// The smallest box that holds this box and `v`.
    pub open spec fn grown(self, v: Vert) -> Bounds {
        Bounds {
            min_x: if v.x < self.min_x { v.x } else { self.min_x },
            max_x: if v.x > self.max_x { v.x } else { self.max_x },
            min_y: if v.y < self.min_y { v.y } else { self.min_y },
            max_y: if v.y > self.max_y { v.y } else { self.max_y },
        }
    }
}

/// The box `b` grown to hold `v`; the box of `v` alone when there is none.
pub open spec fn grown_by(b: Option<Bounds>, v: Vert) -> Option<Bounds> {
    match b {
        Some(b) => Some(b.grown(v)),
        None => Some(Bounds { min_x: v.x, max_x: v.x, min_y: v.y, max_y: v.y }),
    }
}

/// The box `b` grown to hold every vertex of `s`.
pub open spec fn grown_by_all(b: Option<Bounds>, s: Seq<Vert>) -> Option<Bounds>
    decreases s.len(),
{
    if s.len() == 0 {
        b
    } else {
        grown_by(grown_by_all(b, s.drop_last()), s.last())
    }
}

/// `b` holds `v`.
pub open spec fn bounds_cover(b: Option<Bounds>, v: Vert) -> bool {
    b matches Some(bb) && bb.covers(v)
}

/// Growing a box keeps what it held and adds the vertices it was grown by.
pub proof fn lemma_grown_by_all_covers(b: Option<Bounds>, s: Seq<Vert>)
    ensures
        forall|v: Vert| bounds_cover(b, v) ==> bounds_cover(grown_by_all(b, s), v),
        forall|i: int| 0 <= i < s.len() ==> bounds_cover(grown_by_all(b, s), #[trigger] s[i]),
        s.len() > 0 ==> grown_by_all(b, s) is Some,
        b is Some ==> grown_by_all(b, s) is Some,
    decreases s.len(),
{
    if s.len() > 0 {
        lemma_grown_by_all_covers(b, s.drop_last());
        let inner = grown_by_all(b, s.drop_last());
        assert forall|i: int| 0 <= i < s.len() implies bounds_cover(
            grown_by_all(b, s),
            #[trigger] s[i],
        ) by {
            if i < s.len() - 1 {
                assert(s.drop_last()[i] == s[i]);
            }
        }
    }
}

/// A ring is closed when it starts and ends at the same vertex.
pub open spec fn seq_closed(s: Seq<Vert>) -> bool {
    s.len() > 0 && s[0] == s[s.len() - 1]
}

/// A polyline, open or closed.
#[derive(Debug, PartialEq)]
pub struct Edge {
    pub verts: VecDeque<Vert>,
    /// The orientation found when the ring was closed, if it was.
    pub _is_hole: Option<bool>,
    /// A box that holds every vertex the ring has had since it was made.
    pub bounds: Option<Bounds>,
}

impl View for Edge {
    type V = Seq<Vert>;

    open spec fn view(&self) -> Seq<Vert> {
        self.verts@
    }
}

impl Clone for Edge {
    fn clone(&self) -> (e: Edge)
        ensures
            e@ == self@,
            e._is_hole == self._is_hole,
            e.bounds == self.bounds,
            self.wf() ==> e.wf(),
    {
        let verts = self.verts.clone();
        assert(verts@ =~= self.verts@);
        Edge { verts, _is_hole: self._is_hole, bounds: self.bounds }
    }
}

/// The tight bounding box of a slice of vertices, none when it is empty.
pub fn get_extremes(verts: &[Vert]) -> (b: Option<Bounds>)
    ensures
        b == grown_by_all(None, verts@),
{
    let mut b: Option<Bounds> = None;
    let mut i: usize = 0;
    while i < verts.len()
        invariant
            i <= verts@.len(),
            b == grown_by_all(None, verts@.take(i as int)),
        decreases verts@.len() - i,
    {
        let v: Vert = verts[i];
        b = match b {
            Some(b) => Some(
                Bounds {
                    min_x: if v.x < b.min_x { v.x } else { b.min_x },
                    max_x: if v.x > b.max_x { v.x } else { b.max_x },
                    min_y: if v.y < b.min_y { v.y } else { b.min_y },
                    max_y: if v.y > b.max_y { v.y } else { b.max_y },
                },
            ),
            None => Some(Bounds { min_x: v.x, max_x: v.x, min_y: v.y, max_y: v.y }),
        };
        proof {
            assert(verts@.take(i + 1).drop_last() =~= verts@.take(i as int));
            assert(verts@.take(i + 1).last() == v);
        }
        i = i + 1;
    }
    proof {
        assert(verts@.take(verts@.len() as int) =~= verts@);
    }
    b
}

/// Builds a ring from a slice of vertices, in order.
fn edge_from_slice(verts: &[Vert]) -> (e: Edge)
    ensures
        e@ == verts@,
        e._is_hole is None,
        e.bounds == grown_by_all(None, verts@),
        (forall|i: int| 0 <= i < verts@.len() ==> (#[trigger] verts@[i]).in_range()) ==> e.wf(),
{
    let bounds = get_extremes(verts);
    let mut deque: VecDeque<Vert> = VecDeque::new();
    let mut i: usize = 0;
    while i < verts.len()
        invariant
            i <= verts@.len(),
            deque@ == verts@.take(i as int),
        decreases verts@.len() - i,
    {
        deque.push_back(verts[i]);
        proof {
            assert(verts@.take(i + 1) =~= verts@.take(i as int).push(verts@[i as int]));
        }
        i = i + 1;
    }
    proof {
        assert(verts@.take(verts@.len() as int) =~= verts@);
        lemma_grown_by_all_covers(None, verts@);
    }
    Edge { verts: deque, _is_hole: None, bounds }
}

impl From<Vec<Vert>> for Edge {
    fn from(verts: Vec<Vert>) -> (e: Edge)
        ensures
            e@ == verts@,
            e._is_hole is None,
            e.bounds == grown_by_all(None, verts@),
            (forall|i: int| 0 <= i < verts@.len() ==> (#[trigger] verts@[i]).in_range())
                ==> e.wf(),
    {
        edge_from_slice(verts.as_slice())
    }
}

impl vstd::std_specs::convert::FromSpecImpl<Vec<Vert>> for Edge {
    open spec fn obeys_from_spec() -> bool {
        false
    }

    open spec fn from_spec(verts: Vec<Vert>) -> Edge {
        arbitrary()
    }
}

impl<const N: usize> From<[Vert; N]> for Edge {
    fn from(verts: [Vert; N]) -> (e: Edge)
        ensures
            e@ == verts@,
            e._is_hole is None,
            e.bounds == grown_by_all(None, verts@),
            (forall|i: int| 0 <= i < verts@.len() ==> (#[trigger] verts@[i]).in_range())
                ==> e.wf(),
    {
        edge_from_slice(verts.as_slice())
    }
}

impl<const N: usize> vstd::std_specs::convert::FromSpecImpl<[Vert; N]> for Edge {
    open spec fn obeys_from_spec() -> bool {
        false
    }

    open spec fn from_spec(verts: [Vert; N]) -> Edge {
        arbitrary()
    }
}

impl Edge {
    /// Every vertex is in range.
    pub open spec fn vertices_in_range(&self) -> bool {
        forall|i: int| 0 <= i < self@.len() ==> (#[trigger] self@[i]).in_range()
    }

    /// Every vertex is in range and inside the bounding box, and a
    /// remembered orientation is the ring's own.
    pub open spec fn wf(&self) -> bool {
        &&& forall|i: int|
            0 <= i < self@.len() ==> (#[trigger] self@[i]).in_range() && bounds_cover(
                self.bounds,
                self@[i],
            )
        &&& self._is_hole matches Some(h) ==> has_x_change(self@) && h == spec_is_hole(self@)
    }

    /// An empty ring.
    pub fn new() -> (e: Edge)
        ensures
            e@ == Seq::<Vert>::empty(),
            e._is_hole is None,
            e.bounds is None,
            e.wf(),
    {
        Edge { verts: VecDeque::new(), _is_hole: None, bounds: None }
    }

    /// Grows the bounding box to hold `v`.
    pub fn maybe_set_extremes(&mut self, v: &Vert)
        ensures
            final(self).bounds == grown_by(old(self).bounds, *v),
            final(self).verts == old(self).verts,
            final(self)._is_hole == old(self)._is_hole,
    {
        let b = match self.bounds {
            Some(b) => Bounds {
                min_x: if v.x < b.min_x { v.x } else { b.min_x },
                max_x: if v.x > b.max_x { v.x } else { b.max_x },
                min_y: if v.y < b.min_y { v.y } else { b.min_y },
                max_y: if v.y > b.max_y { v.y } else { b.max_y },
            },
            None => Bounds { min_x: v.x, max_x: v.x, min_y: v.y, max_y: v.y },
        };
        self.bounds = Some(b);
    }

    pub fn len(&self) -> (n: usize)
        ensures
            n == self@.len(),
    {
        self.verts.len()
    }

    pub fn is_empty(&self) -> (b: bool)
        ensures
            b == (self@.len() == 0),
    {
        self.verts.len() == 0
    }

    /// The vertex at position `i`.
    pub fn index(&self, i: usize) -> (v: &Vert)
        requires
            i < self@.len(),
        ensures
            *v == self@[i as int],
    {
        &self.verts[i]
    }

    pub fn front(&self) -> (v: Option<&Vert>)
        ensures
            self@.len() == 0 ==> v is None,
            self@.len() > 0 ==> v == Some(&self@[0]),
    {
        if self.verts.len() == 0 {
            None
        } else {
            Some(&self.verts[0])
        }
    }

    pub fn back(&self) -> (v: Option<&Vert>)
        ensures
            self@.len() == 0 ==> v is None,
            self@.len() > 0 ==> v == Some(&self@[self@.len() - 1]),
    {
        let n: usize = self.verts.len();
        if n == 0 {
            None
        } else {
            Some(&self.verts[n - 1])
        }
    }

    /// Puts `v` before the first vertex. A remembered orientation is dropped.
    pub fn push_front(&mut self, v: Vert)
        ensures
            final(self)@ == seq![v] + old(self)@,
            final(self).bounds == grown_by(old(self).bounds, v),
            final(self)._is_hole is None,
            old(self).wf() && v.in_range() ==> final(self).wf(),
    {
        self.maybe_set_extremes(&v);
        self._is_hole = None;
        self.verts.push_front(v);
        proof {
            assert forall|i: int| 0 <= i < self@.len() && old(self).wf() && v.in_range() implies (
            #[trigger] self@[i]).in_range() && bounds_cover(self.bounds, self@[i]) by {
                if i > 0 {
                    assert(self@[i] == old(self)@[i - 1]);
                }
            }
        }
    }

    /// Puts `v` after the last vertex. A remembered orientation is dropped.
    pub fn push_back(&mut self, v: Vert)
        ensures
            final(self)@ == old(self)@.push(v),
            final(self).bounds == grown_by(old(self).bounds, v),
            final(self)._is_hole is None,
            old(self).wf() && v.in_range() ==> final(self).wf(),
    {
        self.maybe_set_extremes(&v);
        self._is_hole = None;
        self.verts.push_back(v);
        proof {
            assert forall|i: int| 0 <= i < self@.len() && old(self).wf() && v.in_range() implies (
            #[trigger] self@[i]).in_range() && bounds_cover(self.bounds, self@[i]) by {
                if i < old(self)@.len() {
                    assert(self@[i] == old(self)@[i]);
                }
            }
        }
    }

    /// Takes the first vertex off. The bounding box stays as it was; a
    /// remembered orientation is dropped.
    pub fn pop_front(&mut self) -> (v: Option<Vert>)
        ensures
            old(self)@.len() == 0 ==> v is None && final(self)@ == old(self)@,
            old(self)@.len() > 0 ==> v == Some(old(self)@[0]) && final(self)@ == old(
                self,
            )@.subrange(1, old(self)@.len() as int),
            final(self).bounds == old(self).bounds,
            final(self)._is_hole is None,
            old(self).wf() ==> final(self).wf(),
    {
        self._is_hole = None;
        self.verts.pop_front()
    }

    /// Takes the last vertex off. The bounding box stays as it was; a
    /// remembered orientation is dropped.
    pub fn pop_back(&mut self) -> (v: Option<Vert>)
        ensures
            old(self)@.len() == 0 ==> v is None && final(self)@ == old(self)@,
            old(self)@.len() > 0 ==> v == Some(old(self)@[old(self)@.len() - 1]) && final(self)@
                == old(self)@.subrange(0, old(self)@.len() - 1),
            final(self).bounds == old(self).bounds,
            final(self)._is_hole is None,
            old(self).wf() ==> final(self).wf(),
    {
        self._is_hole = None;
        self.verts.pop_back()
    }

    /// Moves every vertex of `e` to the end of this ring, leaving `e` empty.
    pub fn append(&mut self, e: &mut Edge)
        ensures
            final(self)@ == old(self)@ + old(e)@,
            final(e)@ == Seq::<Vert>::empty(),
            final(self).bounds == grown_by_all(old(self).bounds, old(e)@),
            final(self)._is_hole is None,
            final(e).bounds == old(e).bounds,
            final(e)._is_hole == old(e)._is_hole,
            old(self).wf() && old(e).wf() ==> final(self).wf(),
    {
        let n: usize = e.verts.len();
        let mut i: usize = 0;
        while i < n
            invariant
                i <= n,
                n == e@.len(),
                e.verts == old(e).verts,
                e.bounds == old(e).bounds,
                e._is_hole == old(e)._is_hole,
                self.verts == old(self).verts,
                self.bounds == grown_by_all(old(self).bounds, e@.take(i as int)),
            decreases n - i,
        {
            let v: Vert = e.verts[i];
            self.maybe_set_extremes(&v);
            proof {
                assert(e@.take(i + 1).drop_last() =~= e@.take(i as int));
                assert(e@.take(i + 1).last() == v);
            }
            i = i + 1;
        }
        proof {
            assert(e@.take(n as int) =~= e@);
            lemma_grown_by_all_covers(old(self).bounds, old(e)@);
        }
        self._is_hole = None;
        self.verts.append(&mut e.verts);
        proof {
            if old(self).wf() && old(e).wf() {
                assert forall|k: int| 0 <= k < self@.len() implies (#[trigger] self@[k]).in_range()
                    && bounds_cover(self.bounds, self@[k]) by {
                    if k < old(self)@.len() {
                        assert(self@[k] == old(self)@[k]);
                    } else {
                        assert(self@[k] == old(e)@[k - old(self)@.len()]);
                    }
                }
            }
        }
    }

    /// The ring starts and ends at the same vertex.
    pub fn is_closed(&self) -> (b: bool)
        requires
            self@.len() > 0,
        ensures
            b == seq_closed(self@),
    {
        let n: usize = self.verts.len();
        let a: Vert = self.verts[0];
        let z: Vert = self.verts[n - 1];
        a == z
    }

    /// Finds and remembers the orientation of a closed ring.
    pub fn set_is_hole(&mut self)
        requires
            old(self).wf(),
            seq_closed(old(self)@),
            has_x_change(old(self)@),
        ensures
            final(self)._is_hole == Some(spec_is_hole(old(self)@)),
            final(self).verts == old(self).verts,
            final(self).bounds == old(self).bounds,
            final(self).wf(),
    {
        let h = is_hole(self);
        self._is_hole = Some(h);
    }

    /// Whether the closed ring winds clockwise.
    pub fn is_hole(&self) -> (h: bool)
        requires
            self.wf(),
            seq_closed(self@),
            has_x_change(self@),
        ensures
            h == spec_is_hole(self@),
    {
        is_hole(self)
    }

    /// `v` is inside the bounding box, or there is no box yet.
    pub open spec fn spec_possibly_contains(&self, v: Vert) -> bool {
        match self.bounds {
            Some(b) => b.covers(v),
            None => true,
        }
    }

    /// A cheap test that never rejects a point the ring could enclose.
    pub fn possibly_contains(&self, v: &Vert) -> (b: bool)
        ensures
            b == self.spec_possibly_contains(*v),
    {
        match self.bounds {
            Some(b) => v.x <= b.max_x && v.x >= b.min_x && v.y <= b.max_y && v.y >= b.min_y,
            None => true,
        }
    }
}


/// The vertex sequences of a list of rings.
pub open spec fn ring_views(rings: Seq<Edge>) -> Seq<Seq<Vert>> {
    Seq::new(rings.len(), |i: int| rings[i]@)
}

/// Every ring of the list is well formed.
pub open spec fn each_wf(rings: Seq<Edge>) -> bool {
    forall|i: int| 0 <= i < rings.len() ==> (#[trigger] rings[i]).wf()
}

/// The ring as a list of points, two coordinates each.
pub fn edge_to_geojson(edge: &Edge) -> (out: Vec<Vec<i64>>)
    ensures
        out@.len() == edge@.len(),
        forall|i: int| 0 <= i < out@.len() ==> (#[trigger] out@[i])@ == seq![edge@[i].x, edge@[i].y],
{
    let n: usize = edge.verts.len();
    let mut out: Vec<Vec<i64>> = Vec::new();
    let mut i: usize = 0;
    while i < n
        invariant
            i <= n,
            n == edge@.len(),
            out@.len() == i,
            forall|k: int| 0 <= k < i ==> (#[trigger] out@[k])@ == seq![edge@[k].x, edge@[k].y],
        decreases n - i,
    {
        let v: Vert = edge.verts[i];
        let mut point: Vec<i64> = Vec::new();
        point.push(v.x);
        point.push(v.y);
        assert(point@ =~= seq![v.x, v.y]);
        out.push(point);
        i = i + 1;
    }
    out
}

/// The segments of the ring: each vertex with the one after it.
pub fn edge_to_segments(edge: &Edge) -> (out: Vec<[Vert; 2]>)
    ensures
        out@.len() == if edge@.len() == 0 { 0 } else { edge@.len() - 1 },
        forall|i: int|
            0 <= i < out@.len() ==> (#[trigger] out@[i])@ == seq![edge@[i], edge@[i + 1]],
{
    let n: usize = edge.verts.len();
    let mut out: Vec<[Vert; 2]> = Vec::new();
    if n == 0 {
        return out;
    }
    let mut i: usize = 0;
    while i < n - 1
        invariant
            i <= n - 1,
            n == edge@.len(),
            n >= 1,
            out@.len() == i,
            forall|k: int| 0 <= k < i ==> (#[trigger] out@[k])@ == seq![edge@[k], edge@[k + 1]],
        decreases n - 1 - i,
    {
        let segment: [Vert; 2] = [edge.verts[i], edge.verts[i + 1]];
        assert(segment@ =~= seq![edge@[i as int], edge@[i + 1]]);
        out.push(segment);
        i = i + 1;
    }
    out
}

impl Edge {
    /// The vertices of the ring, in order, as pairs of coordinates.
    pub fn to_points(&self) -> (out: Vec<[i64; 2]>)
        ensures
            out@.len() == self@.len(),
            forall|i: int|
                0 <= i < out@.len() ==> (#[trigger] out@[i])@ == seq![self@[i].x, self@[i].y],
    {
        let n: usize = self.verts.len();
        let mut out: Vec<[i64; 2]> = Vec::new();
        let mut i: usize = 0;
        while i < n
            invariant
                i <= n,
                n == self@.len(),
                out@.len() == i,
                forall|k: int|
                    0 <= k < i ==> (#[trigger] out@[k])@ == seq![self@[k].x, self@[k].y],
            decreases n - i,
        {
            let v: Vert = self.verts[i];
            let point: [i64; 2] = [v.x, v.y];
            assert(point@ =~= seq![v.x, v.y]);
            out.push(point);
            i = i + 1;
        }
        out
    }
}

/// A fraction whose denominator is positive.
#[derive(Clone, Copy, Debug)]
pub struct Ratio {
    pub num: i128,
    pub den: i128,
}

impl Ratio {
    /// The fraction is small enough for two of its kind to be compared by
    /// cross-multiplication in 128 bits.
    pub open spec fn small(self) -> bool {
        &&& 0 < self.den <= 0x8000_0000
        &&& -0x4000_0000_0000_0000 <= self.num <= 0x4000_0000_0000_0000
    }

    pub open spec fn spec_less(self, other: Ratio) -> bool {
        self.num * other.den < other.num * self.den
    }

    /// `self < other`, exactly.
    pub fn less(&self, other: &Ratio) -> (b: bool)
        requires
            self.small(),
            other.small(),
        ensures
            b == self.spec_less(*other),
    {
        proof {
            lemma_mul_bounds(self.num as int, other.den as int, 0x4000_0000_0000_0000, 0x8000_0000);
            lemma_mul_bounds(other.num as int, self.den as int, 0x4000_0000_0000_0000, 0x8000_0000);
        }
        self.num * other.den < other.num * self.den
    }
}

/// `|a| <= ba` and `|b| <= bb` give `|a * b| <= ba * bb`.
pub proof fn lemma_mul_bounds(a: int, b: int, ba: int, bb: int)
    requires
        -ba <= a <= ba,
        -bb <= b <= bb,
    ensures
        -(ba * bb) <= a * b <= ba * bb,
{
    assert(-(ba * bb) <= a * b <= ba * bb) by (nonlinear_arith)
        requires
            -ba <= a <= ba,
            -bb <= b <= bb,
    ;
}

/// Fractions with positive denominators are ordered transitively.
pub proof fn lemma_ratio_order(an: int, ad: int, bn: int, bd: int, cn: int, cd: int)
    requires
        ad > 0,
        bd > 0,
        cd > 0,
    ensures
        an * bd < bn * ad && bn * cd <= cn * bd ==> an * cd < cn * ad,
        an * bd <= bn * ad && bn * cd < cn * bd ==> an * cd < cn * ad,
        an * bd <= bn * ad && bn * cd <= cn * bd ==> an * cd <= cn * ad,
{
    if an * bd <= bn * ad && bn * cd <= cn * bd {
        assert((an * bd) * cd <= (bn * ad) * cd) by (nonlinear_arith)
            requires
                an * bd <= bn * ad,
                cd > 0,
        ;
        assert((bn * cd) * ad <= (cn * bd) * ad) by (nonlinear_arith)
            requires
                bn * cd <= cn * bd,
                ad > 0,
        ;
        assert((an * bd) * cd == (an * cd) * bd) by (nonlinear_arith);
        assert((bn * ad) * cd == (bn * cd) * ad) by (nonlinear_arith);
        assert((cn * bd) * ad == (cn * ad) * bd) by (nonlinear_arith);
        assert((an * cd) * bd <= (cn * ad) * bd);
        assert(an * cd <= cn * ad) by (nonlinear_arith)
            requires
                (an * cd) * bd <= (cn * ad) * bd,
                bd > 0,
        ;
        if an * bd < bn * ad {
            assert((an * bd) * cd < (bn * ad) * cd) by (nonlinear_arith)
                requires
                    an * bd < bn * ad,
                    cd > 0,
            ;
            assert((an * cd) * bd < (cn * ad) * bd);
            assert(an * cd < cn * ad) by (nonlinear_arith)
                requires
                    (an * cd) * bd < (cn * ad) * bd,
                    bd > 0,
            ;
        }
        if bn * cd < cn * bd {
            assert((bn * cd) * ad < (cn * bd) * ad) by (nonlinear_arith)
                requires
                    bn * cd < cn * bd,
                    ad > 0,
            ;
            assert((an * cd) * bd < (cn * ad) * bd);
            assert(an * cd < cn * ad) by (nonlinear_arith)
                requires
                    (an * cd) * bd < (cn * ad) * bd,
                    bd > 0,
            ;
        }
    }
}

/// Numerator of the height at which the segment from `l` to `r` meets the
/// vertical line at abscissa `x2 / 2`. A level or upright segment meets it
/// at the height of `l`.
pub open spec fn y_num(l: Vert, r: Vert, x2: int) -> int {
    if l.y == r.y || l.x == r.x {
        l.y as int
    } else if r.x > l.x {
        2 * (r.x - l.x) * l.y + (r.y - l.y) * (x2 - 2 * l.x)
    } else {
        -(2 * (r.x - l.x) * l.y + (r.y - l.y) * (x2 - 2 * l.x))
    }
}

/// Denominator that goes with `y_num`; always positive.
pub open spec fn y_den(l: Vert, r: Vert) -> int {
    if l.y == r.y || l.x == r.x {
        1
    } else if r.x > l.x {
        2 * (r.x - l.x)
    } else {
        2 * (l.x - r.x)
    }
}

/// The height at which the segment from `l` to `r` meets the vertical line
/// at abscissa `x2 / 2`, as an exact fraction.
pub fn y_value_at(x2: i64, l: &Vert, r: &Vert) -> (y: Ratio)
    requires
        l.in_range(),
        r.in_range(),
        -0x4000_0000 <= x2 <= 0x4000_0000,
    ensures
        y.num == y_num(*l, *r, x2 as int),
        y.den == y_den(*l, *r),
        y.small(),
{
    if l.y == r.y || l.x == r.x {
        return Ratio { num: l.y as i128, den: 1 };
    }
    let dx: i128 = (r.x as i128) - (l.x as i128);
    let dy: i128 = (r.y as i128) - (l.y as i128);
    let off: i128 = (x2 as i128) - 2 * (l.x as i128);
    proof {
        lemma_mul_bounds(2 * dx as int, l.y as int, 0x8000_0000, 0x2000_0000);
        lemma_mul_bounds(dy as int, off as int, 0x4000_0000, 0x8000_0000);
    }
    let n: i128 = 2 * dx * (l.y as i128) + dy * off;
    if dx > 0 {
        Ratio { num: n, den: 2 * dx }
    } else {
        Ratio { num: -n, den: -(2 * dx) }
    }
}

/// Segment `i` of `s` reaches the abscissa `x` from both sides, ends included.
pub open spec fn brackets(s: Seq<Vert>, i: int, x: int) -> bool {
    &&& 0 <= i < s.len() - 1
    &&& (s[i].x <= x && s[i + 1].x >= x) || (s[i].x >= x && s[i + 1].x <= x)
}

/// Segment `i` of `s` passes over `t`, strictly above it.
pub open spec fn seg_above(s: Seq<Vert>, i: int, t: Vert) -> bool {
    &&& brackets(s, i, t.x as int)
    &&& y_num(s[i], s[i + 1], 2 * t.x) > t.y * y_den(s[i], s[i + 1])
}

/// Segment `i` of `s` passes under `t` or through it.
pub open spec fn seg_not_above(s: Seq<Vert>, i: int, t: Vert) -> bool {
    &&& brackets(s, i, t.x as int)
    &&& y_num(s[i], s[i + 1], 2 * t.x) <= t.y * y_den(s[i], s[i + 1])
}

/// Segment `i` of `s` is lower than segment `j` on the line at `x2 / 2`.
pub open spec fn y_less(s: Seq<Vert>, i: int, j: int, x2: int) -> bool {
    y_num(s[i], s[i + 1], x2) * y_den(s[j], s[j + 1]) < y_num(s[j], s[j + 1], x2) * y_den(
        s[i],
        s[i + 1],
    )
}

/// Among the first `n` segments, `i` is the lowest of those above `t`, and
/// the first of them where several are equally low.
pub open spec fn is_least_upper_to(s: Seq<Vert>, t: Vert, i: int, n: int) -> bool {
    &&& i < n
    &&& seg_above(s, i, t)
    &&& forall|j: int|
        j < n && #[trigger] seg_above(s, j, t) ==> (j < i ==> y_less(s, i, j, 2 * t.x)) && (j >= i
            ==> !y_less(s, j, i, 2 * t.x))
}

/// Among the first `n` segments, `i` is the highest of those not above `t`,
/// and the first of them where several are equally high.
pub open spec fn is_greatest_lower_to(s: Seq<Vert>, t: Vert, i: int, n: int) -> bool {
    &&& i < n
    &&& seg_not_above(s, i, t)
    &&& forall|j: int|
        j < n && #[trigger] seg_not_above(s, j, t) ==> (j < i ==> y_less(s, j, i, 2 * t.x)) && (j
            >= i ==> !y_less(s, i, j, 2 * t.x))
}

pub open spec fn is_least_upper(s: Seq<Vert>, t: Vert, i: int) -> bool {
    is_least_upper_to(s, t, i, s.len() - 1)
}

pub open spec fn is_greatest_lower(s: Seq<Vert>, t: Vert, i: int) -> bool {
    is_greatest_lower_to(s, t, i, s.len() - 1)
}

/// At most one segment is the least upper one.
pub proof fn lemma_least_upper_unique(s: Seq<Vert>, t: Vert, i: int, j: int)
    requires
        is_least_upper(s, t, i),
        is_least_upper(s, t, j),
    ensures
        i == j,
{
}

/// At most one segment is the greatest lower one.
pub proof fn lemma_greatest_lower_unique(s: Seq<Vert>, t: Vert, i: int, j: int)
    requires
        is_greatest_lower(s, t, i),
        is_greatest_lower(s, t, j),
    ensures
        i == j,
{
}

/// Finds the segment of the ring that passes most closely over `target` and
/// the one that passes most closely under it, each by the position of its
/// first vertex.
pub fn get_upper_and_lower_bounds(edge: &Edge, target: &Vert) -> (r: (
    Option<usize>,
    Option<usize>,
))
    requires
        edge.vertices_in_range(),
        target.in_range(),
    ensures
        match r.0 {
            Some(i) => is_least_upper(edge@, *target, i as int),
            None => forall|j: int| !seg_above(edge@, j, *target),
        },
        match r.1 {
            Some(i) => is_greatest_lower(edge@, *target, i as int),
            None => forall|j: int| !seg_not_above(edge@, j, *target),
        },
{
    let n: usize = edge.verts.len();
    let mut above: Option<(usize, Ratio)> = None;
    let mut below: Option<(usize, Ratio)> = None;
    if n < 2 {
        return (None, None);
    }
    let ghost s = edge@;
    let ghost t = *target;
    let x2: i64 = 2 * target.x;
    let ty = Ratio { num: target.y as i128, den: 1 };
    let mut k: usize = 0;
    while k < n - 1
        invariant
            n == s.len(),
            n >= 2,
            k <= n - 1,
            s == edge@,
            t == *target,
            edge.vertices_in_range(),
            target.in_range(),
            x2 == 2 * target.x,
            ty.num == target.y,
            ty.den == 1,
            match above {
                Some((i, y)) => is_least_upper_to(s, t, i as int, k as int) && y.small() && y.num
                    == y_num(s[i as int], s[i + 1], x2 as int) && y.den == y_den(
                    s[i as int],
                    s[i + 1],
                ),
                None => forall|j: int| j < k ==> !seg_above(s, j, t),
            },
            match below {
                Some((i, y)) => is_greatest_lower_to(s, t, i as int, k as int) && y.small()
                    && y.num == y_num(s[i as int], s[i + 1], x2 as int) && y.den == y_den(
                    s[i as int],
                    s[i + 1],
                ),
                None => forall|j: int| j < k ==> !seg_not_above(s, j, t),
            },
        decreases n - 1 - k,
    {
        let before: Vert = edge.verts[k];
        let after: Vert = edge.verts[k + 1];
        if (before.x <= target.x && after.x >= target.x) || (before.x >= target.x && after.x
            <= target.x) {
            let current = y_value_at(x2, &before, &after);
            if ty.less(&current) {
                let replace = match above {
                    Some((i, lowest)) => {
                        let b = current.less(&lowest);
                        proof {
                            assert forall|j: int|
                                j < k + 1 && #[trigger] seg_above(s, j, t) && b implies (j < k
                                ==> y_less(s, k as int, j, 2 * t.x)) && (j >= k ==> !y_less(
                                s,
                                j,
                                k as int,
                                2 * t.x,
                            )) by {
                                if j < k {
                                    lemma_ratio_order(
                                        current.num as int,
                                        current.den as int,
                                        lowest.num as int,
                                        lowest.den as int,
                                        y_num(s[j], s[j + 1], x2 as int),
                                        y_den(s[j], s[j + 1]),
                                    );
                                }
                            }
                        }
                        b
                    },
                    None => true,
                };
                if replace {
                    above = Some((k, current));
                }
            } else {
                let replace = match below {
                    Some((i, highest)) => {
                        let b = highest.less(&current);
                        proof {
                            assert forall|j: int|
                                j < k + 1 && #[trigger] seg_not_above(s, j, t) && b implies (j < k
                                ==> y_less(s, j, k as int, 2 * t.x)) && (j >= k ==> !y_less(
                                s,
                                k as int,
                                j,
                                2 * t.x,
                            )) by {
                                if j < k {
                                    lemma_ratio_order(
                                        y_num(s[j], s[j + 1], x2 as int),
                                        y_den(s[j], s[j + 1]),
                                        highest.num as int,
                                        highest.den as int,
                                        current.num as int,
                                        current.den as int,
                                    );
                                }
                            }
                        }
                        b
                    },
                    None => true,
                };
                if replace {
                    below = Some((k, current));
                }
            }
        }
        k = k + 1;
    }
    let a = match above {
        Some((i, _)) => Some(i),
        None => None,
    };
    let b = match below {
        Some((i, _)) => Some(i),
        None => None,
    };
    (a, b)
}

/// `t` is enclosed by the counter-clockwise ring `s`: the segment most
/// closely over it runs right to left and the one most closely under it
/// runs left to right.
pub open spec fn spec_edge_contains(s: Seq<Vert>, t: Vert) -> bool {
    &&& exists|i: int| is_least_upper(s, t, i) && s[i].x > s[i + 1].x
    &&& exists|j: int| is_greatest_lower(s, t, j) && s[j + 1].x > s[j].x
}

/// `t` is enclosed by the clockwise ring `s`: the segment most closely over
/// it runs left to right and the one most closely under it runs right to
/// left.
pub open spec fn spec_hole_contains(s: Seq<Vert>, t: Vert) -> bool {
    &&& exists|i: int| is_least_upper(s, t, i) && s[i].x < s[i + 1].x
    &&& exists|j: int| is_greatest_lower(s, t, j) && s[j + 1].x < s[j].x
}

/// Point-in-ring test for an outer ring.
pub fn edge_contains(edge: &Edge, target: &Vert) -> (b: bool)
    requires
        edge.vertices_in_range(),
        target.in_range(),
    ensures
        b == spec_edge_contains(edge@, *target),
{
    let (above, below) = get_upper_and_lower_bounds(edge, target);
    let _len: usize = edge.verts.len();
    let ghost s = edge@;
    let ghost t = *target;
    match above {
        Some(i) => {
            proof {
                assert forall|i2: int| is_least_upper(s, t, i2) implies i2 == i by {
                    lemma_least_upper_unique(s, t, i2, i as int);
                }
            }
            if edge.verts[i].x > edge.verts[i + 1].x {
                match below {
                    Some(j) => {
                        proof {
                            assert forall|j2: int| is_greatest_lower(s, t, j2) implies j2 == j by {
                                lemma_greatest_lower_unique(s, t, j2, j as int);
                            }
                        }
                        edge.verts[j + 1].x > edge.verts[j].x
                    },
                    None => false,
                }
            } else {
                false
            }
        },
        None => false,
    }
}

/// Point-in-ring test for a hole ring.
pub fn hole_contains(edge: &Edge, target: &Vert) -> (b: bool)
    requires
        edge.vertices_in_range(),
        target.in_range(),
    ensures
        b == spec_hole_contains(edge@, *target),
{
    let (above, below) = get_upper_and_lower_bounds(edge, target);
    let _len: usize = edge.verts.len();
    let ghost s = edge@;
    let ghost t = *target;
    match above {
        Some(i) => {
            proof {
                assert forall|i2: int| is_least_upper(s, t, i2) implies i2 == i by {
                    lemma_least_upper_unique(s, t, i2, i as int);
                }
            }
            if edge.verts[i].x < edge.verts[i + 1].x {
                match below {
                    Some(j) => {
                        proof {
                            assert forall|j2: int| is_greatest_lower(s, t, j2) implies j2 == j by {
                                lemma_greatest_lower_unique(s, t, j2, j as int);
                            }
                        }
                        edge.verts[j + 1].x < edge.verts[j].x
                    },
                    None => false,
                }
            } else {
                false
            }
        },
        None => false,
    }
}


/// Some vertex of `s` has another abscissa than the first one.
pub open spec fn has_x_change(s: Seq<Vert>) -> bool {
    exists|i: int| 0 <= i < s.len() && (#[trigger] s[i]).x != s[0].x
}

/// Vertex `i` is the first of `s` whose abscissa differs from that of the
/// first vertex.
pub open spec fn is_first_x_change(s: Seq<Vert>, i: int) -> bool {
    &&& 0 <= i < s.len()
    &&& s[i].x != s[0].x
    &&& forall|j: int| 0 <= j < i ==> (#[trigger] s[j]).x == s[0].x
}

/// Twice the abscissa of the line on which the orientation of `s` is read:
/// halfway between the first vertex and the first one that is not straight
/// above or below it.
pub open spec fn scan_line(s: Seq<Vert>) -> int {
    let i = choose|i: int| is_first_x_change(s, i);
    s[0].x + s[i].x
}

/// Segment `i` of `s` passes from one side of the line at `x2 / 2` to the
/// other, touching it with neither end.
pub open spec fn crosses(s: Seq<Vert>, i: int, x2: int) -> bool {
    &&& 0 <= i < s.len() - 1
    &&& (2 * s[i].x < x2 && 2 * s[i + 1].x > x2) || (2 * s[i].x > x2 && 2 * s[i + 1].x < x2)
}

/// Among the first `n` segments, `i` is the lowest of those that cross the
/// line at `x2 / 2`, and the first of them where several are equally low.
pub open spec fn is_lowest_crossing_to(s: Seq<Vert>, x2: int, i: int, n: int) -> bool {
    &&& i < n
    &&& crosses(s, i, x2)
    &&& forall|j: int|
        j < n && #[trigger] crosses(s, j, x2) ==> (j < i ==> y_less(s, i, j, x2)) && (j >= i
            ==> !y_less(s, j, i, x2))
}

pub open spec fn is_lowest_crossing(s: Seq<Vert>, x2: int, i: int) -> bool {
    is_lowest_crossing_to(s, x2, i, s.len() - 1)
}

/// The ring `s` winds clockwise, as the border of a hole does: on its scan
/// line, its lowest segment runs right to left.
pub open spec fn spec_is_hole(s: Seq<Vert>) -> bool {
    exists|i: int| is_lowest_crossing(s, scan_line(s), i) && s[i + 1].x <= s[i].x
}

/// At most one vertex is the first with another abscissa.
pub proof fn lemma_first_x_change_unique(s: Seq<Vert>, i: int, j: int)
    requires
        is_first_x_change(s, i),
        is_first_x_change(s, j),
    ensures
        i == j,
{
    if i < j {
        assert(s[i].x == s[0].x);
    }
    if j < i {
        assert(s[j].x == s[0].x);
    }
}

/// At most one segment is the lowest crossing one.
pub proof fn lemma_lowest_crossing_unique(s: Seq<Vert>, x2: int, i: int, j: int)
    requires
        is_lowest_crossing(s, x2, i),
        is_lowest_crossing(s, x2, j),
    ensures
        i == j,
{
}

/// The position of the first vertex whose abscissa differs from that of the
/// first vertex, if there is one.
pub fn first_x_change(edge: &Edge) -> (r: Option<usize>)
    ensures
        match r {
            Some(i) => is_first_x_change(edge@, i as int),
            None => !has_x_change(edge@),
        },
{
    let n: usize = edge.verts.len();
    if n == 0 {
        return None;
    }
    let first_x: i64 = edge.verts[0].x;
    let mut i: usize = 0;
    while i < n
        invariant
            i <= n,
            n == edge@.len(),
            n > 0,
            first_x == edge@[0].x,
            forall|j: int| 0 <= j < i ==> (#[trigger] edge@[j]).x == first_x,
        decreases n - i,
    {
        if edge.verts[i].x != first_x {
            return Some(i);
        }
        i = i + 1;
    }
    None
}

/// Whether a ring winds clockwise. The answer found when the ring was
/// closed is used when there is one.
pub fn is_hole(edge: &Edge) -> (h: bool)
    requires
        edge.wf(),
        has_x_change(edge@),
    ensures
        h == spec_is_hole(edge@),
{
    if let Some(result) = edge._is_hole {
        return result;
    }
    winds_clockwise(edge)
}

/// Reads the orientation of a ring off its scan line.
pub fn winds_clockwise(edge: &Edge) -> (h: bool)
    requires
        edge.vertices_in_range(),
        has_x_change(edge@),
    ensures
        h == spec_is_hole(edge@),
{
    let ghost s = edge@;
    let n: usize = edge.verts.len();
    let c: usize = match first_x_change(edge) {
        Some(c) => c,
        None => {
            proof {
                assert(false);
            }
            0
        },
    };
    proof {
        assert forall|c2: int| is_first_x_change(s, c2) implies c2 == c by {
            lemma_first_x_change_unique(s, c2, c as int);
        }
        assert(c >= 1);
        assert(s[c - 1].x == s[0].x);
        assert(s[0].in_range());
        assert(s[c as int].in_range());
    }
    let x2: i64 = edge.verts[0].x + edge.verts[c].x;
    assert(x2 == scan_line(s));
    assert(crosses(s, c - 1, x2 as int));
    let mut lowest: Option<(usize, Ratio)> = None;
    let mut k: usize = 0;
    while k < n - 1
        invariant
            n == s.len(),
            n >= 2,
            k <= n - 1,
            s == edge@,
            edge.vertices_in_range(),
            -0x4000_0000 <= x2 <= 0x4000_0000,
            x2 == scan_line(s),
            crosses(s, c - 1, x2 as int),
            match lowest {
                Some((i, y)) => is_lowest_crossing_to(s, x2 as int, i as int, k as int)
                    && y.small() && y.num == y_num(s[i as int], s[i + 1], x2 as int) && y.den
                    == y_den(s[i as int], s[i + 1]),
                None => forall|j: int| j < k ==> !crosses(s, j, x2 as int),
            },
        decreases n - 1 - k,
    {
        let before: Vert = edge.verts[k];
        let after: Vert = edge.verts[k + 1];
        assert(s[k as int].in_range() && s[k + 1].in_range());
        if (2 * before.x < x2 && 2 * after.x > x2) || (2 * before.x > x2 && 2 * after.x < x2) {
            let current = y_value_at(x2, &before, &after);
            let replace = match lowest {
                Some((i, low)) => {
                    let b = current.less(&low);
                    proof {
                        assert forall|j: int|
                            j < k + 1 && #[trigger] crosses(s, j, x2 as int) && b implies (j < k
                            ==> y_less(s, k as int, j, x2 as int)) && (j >= k ==> !y_less(
                            s,
                            j,
                            k as int,
                            x2 as int,
                        )) by {
                            if j < k {
                                lemma_ratio_order(
                                    current.num as int,
                                    current.den as int,
                                    low.num as int,
                                    low.den as int,
                                    y_num(s[j], s[j + 1], x2 as int),
                                    y_den(s[j], s[j + 1]),
                                );
                            }
                        }
                    }
                    b
                },
                None => true,
            };
            if replace {
                lowest = Some((k, current));
            }
        }
        k = k + 1;
    }
    match lowest {
        Some((i, _)) => {
            proof {
                assert(is_lowest_crossing(s, x2 as int, i as int));
                assert forall|i2: int| is_lowest_crossing(s, x2 as int, i2) implies i2 == i by {
                    lemma_lowest_crossing_unique(s, x2 as int, i2, i as int);
                }
                assert(s[i + 1].x <= s[i as int].x ==> spec_is_hole(s));
                assert(spec_is_hole(s) ==> s[i + 1].x <= s[i as int].x);
            }
            edge.verts[i + 1].x <= edge.verts[i].x
        },
        None => {
            proof {
                assert(false);
            }
            false
        },
    }
}


/// Where a segment passes a line that its ends bracket, it is no higher
/// than its higher end and no lower than its lower end.
pub proof fn lemma_y_between_ends(l: Vert, r: Vert, x: int)
    requires
        (l.x <= x && r.x >= x) || (l.x >= x && r.x <= x),
    ensures
        y_den(l, r) > 0,
        y_num(l, r, 2 * x) <= l.y * y_den(l, r) || y_num(l, r, 2 * x) <= r.y * y_den(l, r),
        y_num(l, r, 2 * x) >= l.y * y_den(l, r) || y_num(l, r, 2 * x) >= r.y * y_den(l, r),
{
    if l.y == r.y || l.x == r.x {
        assert(y_num(l, r, 2 * x) == l.y);
        assert(y_den(l, r) == 1);
        assert(l.y * 1 == l.y);
    } else {
        let d = r.x - l.x;
        let dy = r.y - l.y;
        let off = x - l.x;
        let n = 2 * (r.x - l.x) * l.y + (r.y - l.y) * (2 * x - 2 * l.x);
        assert(n - l.y * (2 * d) == 2 * (dy * off)) by (nonlinear_arith)
            requires
                n == 2 * (r.x - l.x) * l.y + (r.y - l.y) * (2 * x - 2 * l.x),
                d == r.x - l.x,
                dy == r.y - l.y,
                off == x - l.x,
        ;
        assert(n - r.y * (2 * d) == 2 * (dy * (off - d))) by (nonlinear_arith)
            requires
                n == 2 * (r.x - l.x) * l.y + (r.y - l.y) * (2 * x - 2 * l.x),
                d == r.x - l.x,
                dy == r.y - l.y,
                off == x - l.x,
        ;
        if d > 0 {
            assert(0 <= off <= d);
            assert((dy >= 0 ==> dy * off >= 0 && dy * (off - d) <= 0) && (dy <= 0 ==> dy * off <= 0
                && dy * (off - d) >= 0)) by (nonlinear_arith)
                requires
                    0 <= off <= d,
            ;
            assert(y_num(l, r, 2 * x) == n);
            assert(y_den(l, r) == 2 * d);
            assert(n >= l.y * (2 * d) || n >= r.y * (2 * d));
        } else {
            assert(d <= off <= 0);
            assert((dy >= 0 ==> dy * off <= 0 && dy * (off - d) >= 0) && (dy <= 0 ==> dy * off >= 0
                && dy * (off - d) <= 0)) by (nonlinear_arith)
                requires
                    d <= off <= 0,
            ;
            assert(y_num(l, r, 2 * x) == -n);
            assert(y_den(l, r) == -(2 * d));
            assert(l.y * (-(2 * d)) == -(l.y * (2 * d))) by (nonlinear_arith);
            assert(r.y * (-(2 * d)) == -(r.y * (2 * d))) by (nonlinear_arith);
            assert(-n >= -(l.y * (2 * d)) || -n >= -(r.y * (2 * d)));
        }
    }
}

/// A point outside the bounding box of a ring is enclosed by the ring in
/// neither sense: the test on the box never rejects a point that the
/// full test would accept.
pub proof fn lemma_contains_within_bounds(e: Edge, t: Vert)
    requires
        e.wf(),
        !e.spec_possibly_contains(t),
    ensures
        !spec_edge_contains(e@, t),
        !spec_hole_contains(e@, t),
{
    let s = e@;
    let b = e.bounds->0;
    assert forall|i: int, j: int| is_least_upper(s, t, i) && is_greatest_lower(s, t, j) implies false by {
        assert(bounds_cover(e.bounds, s[i]) && bounds_cover(e.bounds, s[i + 1]));
        assert(bounds_cover(e.bounds, s[j]) && bounds_cover(e.bounds, s[j + 1]));
        lemma_y_between_ends(s[i], s[i + 1], t.x as int);
        lemma_y_between_ends(s[j], s[j + 1], t.x as int);
        let di = y_den(s[i], s[i + 1]);
        let dj = y_den(s[j], s[j + 1]);
        let ni = y_num(s[i], s[i + 1], 2 * t.x);
        let nj = y_num(s[j], s[j + 1], 2 * t.x);
        assert(ni > t.y * di);
        assert(nj <= t.y * dj);
        assert(t.y < b.max_y) by (nonlinear_arith)
            requires
                di > 0,
                ni > t.y * di,
                ni <= s[i].y * di || ni <= s[i + 1].y * di,
                s[i].y <= b.max_y,
                s[i + 1].y <= b.max_y,
        ;
        assert(t.y >= b.min_y) by (nonlinear_arith)
            requires
                dj > 0,
                nj <= t.y * dj,
                nj >= s[j].y * dj || nj >= s[j + 1].y * dj,
                s[j].y >= b.min_y,
                s[j + 1].y >= b.min_y,
        ;
    }
}

} // verus!
