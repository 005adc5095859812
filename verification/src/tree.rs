//! The containment tree: closed rings nested by which encloses which.

use vstd::prelude::*;
use crate::edge::{
    edge_contains, has_x_change, hole_contains, lemma_contains_within_bounds, ring_views,
    seq_closed, spec_edge_contains, spec_hole_contains, spec_is_hole, Edge,
};
use crate::vert::Vert;

verus! {

/// A ring and the rings directly inside it, as plain values.
pub ghost struct Nest {
    pub ring: Seq<Vert>,
    pub inner: Seq<Nest>,
}

/// A closed ring and the nodes of the rings directly inside it.
#[derive(Debug, PartialEq)]
pub struct Node {
    pub data: Edge,
    pub children: Vec<Node>,
}

/// A forest of rings none of which lies inside another ring.
#[derive(Debug)]
pub struct Tree {
    pub children: Vec<Node>,
}

/// The first vertex of `child` is enclosed by the ring `parent`, by the
/// test that goes with the way `parent` winds.
pub open spec fn spec_is_child_of(child: Seq<Vert>, parent: Seq<Vert>) -> bool {
    if spec_is_hole(parent) {
        spec_hole_contains(parent, child[0])
    } else {
        spec_edge_contains(parent, child[0])
    }
}

/// A ring that can stand in the tree: well formed, closed, and not all on
/// one upright line.
pub open spec fn ring_ok(e: Edge) -> bool {
    &&& e.wf()
    &&& seq_closed(e@)
    &&& has_x_change(e@)
}

/// The nodes of `s` as plain values.
pub open spec fn nests(s: Seq<Node>) -> Seq<Nest>
    decreases s,
{
    Seq::new(
        s.len(),
        |i: int|
            if 0 <= i < s.len() {
                s[i]@
            } else {
                arbitrary()
            },
    )
}

impl View for Node {
    type V = Nest;

    open spec fn view(&self) -> Nest
        decreases self,
    {
        Nest { ring: self.data@, inner: nests(self.children@) }
    }
}

impl Node {
    /// The ring can stand in the tree, and so can every ring below it;
    /// each child's first vertex is enclosed by its parent's ring.
    pub open spec fn wf(&self) -> bool
        decreases self,
    {
        &&& ring_ok(self.data)
        &&& forall|i: int|
            0 <= i < self.children@.len() ==> (#[trigger] self.children@[i]).wf()
                && spec_is_child_of(self.children@[i].data@, self.data@)
    }

    /// A node without children.
    pub fn new(data: Edge) -> (n: Node)
        ensures
            n.data == data,
            n.children@.len() == 0,
            ring_ok(data) ==> n.wf(),
    {
        Node { data, children: Vec::new() }
    }

    /// Whether this node's ring lies inside the ring of `other`, judged
    /// by its first vertex.
    pub fn is_child_of(&self, other: &Node) -> (b: bool)
        requires
            ring_ok(self.data),
            ring_ok(other.data),
        ensures
            b == spec_is_child_of(self.data@, other.data@),
    {
        let first: Vert = self.data.verts[0];
        assert(self.data@[0].in_range());
        if !other.data.possibly_contains(&first) {
            proof {
                lemma_contains_within_bounds(other.data, first);
            }
            return false;
        }
        if other.data.is_hole() {
            hole_contains(&other.data, &first)
        } else {
            edge_contains(&other.data, &first)
        }
    }

    /// Puts `new_node` among this node's children.
    pub fn insert(&mut self, new_node: Node)
        requires
            forest_wf(old(self).children@),
            new_node.wf(),
        ensures
            final(self).data == old(self).data,
            forest_wf(final(self).children@),
            nests(final(self).children@) == spec_insert(nests(old(self).children@), new_node@),
    {
        insert(&mut self.children, new_node);
    }

    /// The polygon of the node: its own ring, then the rings of its
    /// children, each as a list of points.
    pub fn to_geojson_polygon_arr(self) -> (out: Vec<Vec<[i64; 2]>>)
        ensures
            out@.len() == 1 + self.children@.len(),
            forall|j: int|
                0 <= j < self.data@.len() ==> (#[trigger] out@[0]@[j])@ == seq![
                    self.data@[j].x,
                    self.data@[j].y,
                ],
            out@[0]@.len() == self.data@.len(),
            forall|i: int|
                0 <= i < self.children@.len() ==> (#[trigger] out@[i + 1])@.len()
                    == self.children@[i].data@.len(),
            forall|i: int, j: int|
                0 <= i < self.children@.len() && 0 <= j < self.children@[i].data@.len() ==> (
                #[trigger] out@[i + 1]@[j])@ == seq![
                    self.children@[i].data@[j].x,
                    self.children@[i].data@[j].y,
                ],
    {
        let mut out: Vec<Vec<[i64; 2]>> = Vec::new();
        out.push(self.data.to_points());
        let n: usize = self.children.len();
        let mut i: usize = 0;
        while i < n
            invariant
                i <= n,
                n == self.children@.len(),
                out@.len() == 1 + i,
                out@[0]@.len() == self.data@.len(),
                forall|j: int|
                    0 <= j < self.data@.len() ==> (#[trigger] out@[0]@[j])@ == seq![
                        self.data@[j].x,
                        self.data@[j].y,
                    ],
                forall|k: int|
                    0 <= k < i ==> (#[trigger] out@[k + 1])@.len() == self.children@[k].data@.len(),
                forall|k: int, j: int|
                    0 <= k < i && 0 <= j < self.children@[k].data@.len() ==> (
                    #[trigger] out@[k + 1]@[j])@ == seq![
                        self.children@[k].data@[j].x,
                        self.children@[k].data@[j].y,
                    ],
            decreases n - i,
        {
            out.push(self.children[i].data.to_points());
            i = i + 1;
        }
        out
    }

    /// Whether the ring of `other` lies inside this node's ring.
    pub fn is_parent_of(&self, other: &Node) -> (b: bool)
        requires
            ring_ok(self.data),
            ring_ok(other.data),
        ensures
            b == spec_is_child_of(other.data@, self.data@),
    {
        other.is_child_of(self)
    }
}

/// What a node is as plain values: its ring, and its children as plain
/// values.
pub proof fn lemma_node_view(node: Node)
    ensures
        node@.ring == node.data@,
        node@.inner.len() == node.children@.len(),
        forall|i: int| 0 <= i < node.children@.len() ==> #[trigger] node@.inner[i] == node.children@[i]@,
{
    assert(node@.inner == nests(node.children@));
}

/// The plain values of a list of nodes, one for each node.
pub proof fn lemma_nests(s: Seq<Node>)
    ensures
        nests(s).len() == s.len(),
        forall|i: int| 0 <= i < s.len() ==> #[trigger] nests(s)[i] == s[i]@,
{
}

/// Every node of `s` is well formed.
pub open spec fn forest_wf(s: Seq<Node>) -> bool {
    forall|i: int| 0 <= i < s.len() ==> (#[trigger] s[i]).wf()
}

/// The number of rings in a nest.
pub open spec fn nest_size(n: Nest) -> nat
    decreases n,
{
    1 + nests_size(n.inner)
}

/// The number of rings in a list of nests.
pub open spec fn nests_size(s: Seq<Nest>) -> nat
    decreases s,
{
    if s.len() == 0 {
        0
    } else {
        nests_size(s.drop_last()) + nest_size(s.last())
    }
}

/// The nests of `nodes` whose ring lies inside `ring`, in their order.
pub open spec fn inside_of(nodes: Seq<Nest>, ring: Seq<Vert>) -> Seq<Nest>
    decreases nodes.len(),
{
    if nodes.len() == 0 {
        Seq::empty()
    } else if spec_is_child_of(nodes.last().ring, ring) {
        inside_of(nodes.drop_last(), ring).push(nodes.last())
    } else {
        inside_of(nodes.drop_last(), ring)
    }
}

/// The nests of `nodes` whose ring does not lie inside `ring`, in their
/// order.
pub open spec fn outside_of(nodes: Seq<Nest>, ring: Seq<Vert>) -> Seq<Nest>
    decreases nodes.len(),
{
    if nodes.len() == 0 {
        Seq::empty()
    } else if spec_is_child_of(nodes.last().ring, ring) {
        outside_of(nodes.drop_last(), ring)
    } else {
        outside_of(nodes.drop_last(), ring).push(nodes.last())
    }
}

/// The siblings `nodes` after the nest `new` has joined them, nesting no
/// deeper than `depth` levels.
///
/// The siblings that lie inside the ring of `new` leave the list and are
/// inserted, one after the other, among the children of `new`; then `new`
/// is put last. With `depth` at least the number of rings involved, the
/// bound is never met.
pub open spec fn nest_insert(depth: nat, nodes: Seq<Nest>, new: Nest) -> Seq<Nest>
    decreases depth, 0nat,
{
    if depth == 0 {
        nodes.push(new)
    } else {
        outside_of(nodes, new.ring).push(
            Nest {
                ring: new.ring,
                inner: nest_insert_all((depth - 1) as nat, new.inner, inside_of(nodes, new.ring)),
            },
        )
    }
}

/// The siblings `into` after the nests `kids` have joined them one after
/// the other, nesting no deeper than `depth` levels.
pub open spec fn nest_insert_all(depth: nat, into: Seq<Nest>, kids: Seq<Nest>) -> Seq<Nest>
    decreases depth, 1 + kids.len(),
{
    if kids.len() == 0 {
        into
    } else {
        nest_insert(depth, nest_insert_all(depth, into, kids.drop_last()), kids.last())
    }
}

/// The siblings `nodes` after the nest `new` has joined them.
pub open spec fn spec_insert(nodes: Seq<Nest>, new: Nest) -> Seq<Nest> {
    nest_insert(nests_size(nodes) + nest_size(new), nodes, new)
}

/// Adding a nest to a list adds its rings to the count.
pub proof fn lemma_size_push(s: Seq<Nest>, n: Nest)
    ensures
        nests_size(s.push(n)) == nests_size(s) + nest_size(n),
{
    assert(s.push(n).drop_last() =~= s);
}

/// The nests inside a ring and those outside it are all the nests.
pub proof fn lemma_size_split(nodes: Seq<Nest>, ring: Seq<Vert>)
    ensures
        nests_size(inside_of(nodes, ring)) + nests_size(outside_of(nodes, ring)) == nests_size(
            nodes,
        ),
    decreases nodes.len(),
{
    if nodes.len() > 0 {
        lemma_size_split(nodes.drop_last(), ring);
        lemma_size_push(inside_of(nodes.drop_last(), ring), nodes.last());
        lemma_size_push(outside_of(nodes.drop_last(), ring), nodes.last());
    }
}

/// Inserting a nest neither loses nor adds a ring.
pub proof fn lemma_insert_size(depth: nat, nodes: Seq<Nest>, new: Nest)
    ensures
        nests_size(nest_insert(depth, nodes, new)) == nests_size(nodes) + nest_size(new),
    decreases depth, 0nat,
{
    if depth == 0 {
        lemma_size_push(nodes, new);
    } else {
        let kids = inside_of(nodes, new.ring);
        let inner = nest_insert_all((depth - 1) as nat, new.inner, kids);
        lemma_insert_all_size((depth - 1) as nat, new.inner, kids);
        lemma_size_split(nodes, new.ring);
        lemma_size_push(outside_of(nodes, new.ring), Nest { ring: new.ring, inner });
    }
}

/// Inserting nests one after the other neither loses nor adds a ring.
pub proof fn lemma_insert_all_size(depth: nat, into: Seq<Nest>, kids: Seq<Nest>)
    ensures
        nests_size(nest_insert_all(depth, into, kids)) == nests_size(into) + nests_size(kids),
    decreases depth, 1 + kids.len(),
{
    if kids.len() > 0 {
        lemma_insert_all_size(depth, into, kids.drop_last());
        lemma_insert_size(depth, nest_insert_all(depth, into, kids.drop_last()), kids.last());
    }
}

/// A bound on the depth that is at least the number of rings involved
/// does not show in the result.
pub proof fn lemma_insert_depth(d1: nat, d2: nat, nodes: Seq<Nest>, new: Nest)
    requires
        d1 >= nests_size(nodes) + nest_size(new),
        d2 >= nests_size(nodes) + nest_size(new),
    ensures
        nest_insert(d1, nodes, new) == nest_insert(d2, nodes, new),
    decreases d1, 0nat,
{
    let kids = inside_of(nodes, new.ring);
    lemma_size_split(nodes, new.ring);
    lemma_insert_all_depth((d1 - 1) as nat, (d2 - 1) as nat, new.inner, kids);
}

/// The same for nests inserted one after the other.
pub proof fn lemma_insert_all_depth(d1: nat, d2: nat, into: Seq<Nest>, kids: Seq<Nest>)
    requires
        d1 >= nests_size(into) + nests_size(kids),
        d2 >= nests_size(into) + nests_size(kids),
    ensures
        nest_insert_all(d1, into, kids) == nest_insert_all(d2, into, kids),
    decreases d1, 1 + kids.len(),
{
    if kids.len() > 0 {
        lemma_insert_all_depth(d1, d2, into, kids.drop_last());
        let r = nest_insert_all(d1, into, kids.drop_last());
        lemma_insert_all_size(d1, into, kids.drop_last());
        lemma_insert_depth(d1, d2, r, kids.last());
    }
}


/// Some nest of `nodes` has the ring `ring`.
pub open spec fn has_ring(nodes: Seq<Nest>, ring: Seq<Vert>) -> bool {
    exists|j: int| 0 <= j < nodes.len() && (#[trigger] nodes[j]).ring == ring
}

/// The part of a list outside a ring is made of nests of the list.
pub proof fn lemma_outside_rings(nodes: Seq<Nest>, ring: Seq<Vert>)
    ensures
        forall|i: int|
            0 <= i < outside_of(nodes, ring).len() ==> has_ring(
                nodes,
                (#[trigger] outside_of(nodes, ring)[i]).ring,
            ),
    decreases nodes.len(),
{
    if nodes.len() > 0 {
        let before = nodes.drop_last();
        lemma_outside_rings(before, ring);
        let out = outside_of(nodes, ring);
        assert forall|i: int| 0 <= i < out.len() implies has_ring(nodes, (#[trigger] out[i]).ring) by {
            if i < outside_of(before, ring).len() {
                assert(out[i] == outside_of(before, ring)[i]);
                assert(has_ring(before, out[i].ring));
                let j = choose|j: int| 0 <= j < before.len() && (#[trigger] before[j]).ring == out[i].ring;
                assert(nodes[j] == before[j]);
            } else {
                assert(out[i] == nodes[nodes.len() - 1]);
            }
        }
    }
}

/// After an insertion, every sibling's ring is the new ring or the ring of
/// a sibling from before.
pub proof fn lemma_insert_rings(depth: nat, nodes: Seq<Nest>, new: Nest)
    ensures
        forall|i: int|
            0 <= i < nest_insert(depth, nodes, new).len() ==> has_ring(
                nodes,
                (#[trigger] nest_insert(depth, nodes, new)[i]).ring,
            ) || nest_insert(depth, nodes, new)[i].ring == new.ring,
{
    let r = nest_insert(depth, nodes, new);
    if depth == 0 {
        assert forall|i: int| 0 <= i < r.len() implies has_ring(nodes, (#[trigger] r[i]).ring)
            || r[i].ring == new.ring by {
            if i < nodes.len() {
                assert(r[i] == nodes[i]);
            }
        }
    } else {
        lemma_outside_rings(nodes, new.ring);
        let out = outside_of(nodes, new.ring);
        assert forall|i: int| 0 <= i < r.len() implies has_ring(nodes, (#[trigger] r[i]).ring)
            || r[i].ring == new.ring by {
            if i < out.len() {
                assert(r[i] == out[i]);
            }
        }
    }
}

/// The first nests of a list hold no more rings than the list.
pub proof fn lemma_size_take(s: Seq<Nest>, k: int)
    requires
        0 <= k <= s.len(),
    ensures
        nests_size(s.take(k)) <= nests_size(s),
    decreases s.len(),
{
    if k < s.len() {
        lemma_size_take(s.drop_last(), k);
        assert(s.drop_last().take(k) =~= s.take(k));
    } else {
        assert(s.take(k) =~= s);
    }
}

/// Empties a list into a new list, last item first.
fn take_reversed<T>(items: &mut Vec<T>) -> (rev: Vec<T>)
    ensures
        final(items)@.len() == 0,
        rev@ == old(items)@.reverse(),
{
    let mut rev: Vec<T> = Vec::new();
    let ghost all = items@;
    while items.len() > 0
        invariant
            items@.len() <= all.len(),
            items@ == all.take(items@.len() as int),
            rev@.len() == all.len() - items@.len(),
            forall|k: int| 0 <= k < rev@.len() ==> rev@[k] == all[all.len() - 1 - k],
        decreases items@.len(),
    {
        let ghost m = items@.len();
        let n = items.pop().unwrap();
        rev.push(n);
        assert(items@ =~= all.take(m - 1));
    }
    assert(rev@ =~= all.reverse());
    rev
}

/// Puts `new_node` among the siblings `nodes`.
///
/// Siblings whose first vertex the new ring encloses become its children,
/// each inserted in turn among the children it has; then the new node is
/// put last among the siblings that remain.
#[verifier::rlimit(40)]
pub fn insert(nodes: &mut Vec<Node>, new_node: Node)
    requires
        forest_wf(old(nodes)@),
        new_node.wf(),
    ensures
        forest_wf(final(nodes)@),
        nests(final(nodes)@) == spec_insert(nests(old(nodes)@), new_node@),
    decreases nests_size(nests(old(nodes)@)) + nest_size(new_node@),
{
    let ghost old_nodes = nodes@;
    let ghost old_nests = nests(nodes@);
    let ghost new_view = new_node@;
    let ghost ring = new_node.data@;
    let ghost depth = nests_size(old_nests) + nest_size(new_view);
    let mut node = new_node;
    let mut rev = take_reversed(nodes);
    let mut kids: Vec<Node> = Vec::new();
    let total: usize = rev.len();
    let mut i: usize = 0;
    assert(nests(nodes@) =~= outside_of(old_nests.take(0), ring));
    assert(nests(kids@) =~= inside_of(old_nests.take(0), ring));
    while i < total
        invariant
            i <= total,
            total == old_nodes.len(),
            old_nests == nests(old_nodes),
            forest_wf(old_nodes),
            node.wf(),
            node@ == new_view,
            ring == node.data@,
            rev@ == old_nodes.reverse().take(total - i),
            nests(nodes@) == outside_of(old_nests.take(i as int), ring),
            nests(kids@) == inside_of(old_nests.take(i as int), ring),
            forest_wf(nodes@),
            forest_wf(kids@),
            forall|k: int|
                0 <= k < kids@.len() ==> spec_is_child_of((#[trigger] kids@[k]).data@, ring),
        decreases total - i,
    {
        let n = rev.pop().unwrap();
        proof {
            assert(n == old_nodes[i as int]);
            assert(rev@ =~= old_nodes.reverse().take(total - i - 1));
            assert(old_nests.take(i + 1).drop_last() =~= old_nests.take(i as int));
            assert(old_nests.take(i + 1).last() == n@);
            assert(n.wf());
        }
        let ghost kids_before = kids@;
        let ghost nodes_before = nodes@;
        if n.is_child_of(&node) {
            kids.push(n);
            assert(nests(kids@) =~= nests(kids_before).push(n@));
            assert forall|k: int| 0 <= k < kids@.len() implies (#[trigger] kids@[k]).wf()
                && spec_is_child_of(kids@[k].data@, ring) by {
                if k < kids_before.len() {
                    assert(kids@[k] == kids_before[k]);
                }
            }
        } else {
            nodes.push(n);
            assert(nests(nodes@) =~= nests(nodes_before).push(n@));
            assert forall|k: int| 0 <= k < nodes@.len() implies (#[trigger] nodes@[k]).wf() by {
                if k < nodes_before.len() {
                    assert(nodes@[k] == nodes_before[k]);
                }
            }
        }
        i = i + 1;
    }
    let ghost kid_nodes = kids@;
    let ghost kid_nests = nests(kids@);
    proof {
        assert(old_nests.take(total as int) =~= old_nests);
        lemma_size_split(old_nests, ring);
    }
    let mut kids_rev = take_reversed(&mut kids);
    let nk: usize = kids_rev.len();
    let mut j: usize = 0;
    while j < nk
        invariant
            j <= nk,
            nk == kid_nodes.len(),
            kid_nests == nests(kid_nodes),
            forest_wf(kid_nodes),
            forall|k: int|
                0 <= k < kid_nodes.len() ==> spec_is_child_of(
                    (#[trigger] kid_nodes[k]).data@,
                    ring,
                ),
            kids_rev@ == kid_nodes.reverse().take(nk - j),
            node.wf(),
            node.data@ == ring,
            node.data@ == new_view.ring,
            depth == nests_size(old_nests) + nest_size(new_view),
            old_nests == nests(old(nodes)@),
            new_view == new_node@,
            nest_size(new_view) == 1 + nests_size(new_view.inner),
            nests_size(kid_nests) <= nests_size(old_nests),
            nests(node.children@) == nest_insert_all(
                (depth - 1) as nat,
                new_view.inner,
                kid_nests.take(j as int),
            ),
        decreases nk - j,
    {
        let kid = kids_rev.pop().unwrap();
        let ghost before = nests(node.children@);
        proof {
            assert(kid == kid_nodes[j as int]);
            assert(kids_rev@ =~= kid_nodes.reverse().take(nk - j - 1));
            assert(kid_nests.take(j + 1).drop_last() =~= kid_nests.take(j as int));
            assert(kid_nests.take(j + 1).last() == kid@);
            assert(kid.wf());
            lemma_insert_all_size((depth - 1) as nat, new_view.inner, kid_nests.take(j as int));
            lemma_size_take(kid_nests, j + 1);
            assert(nests_size(kid_nests.take(j + 1)) == nests_size(kid_nests.take(j as int))
                + nest_size(kid@));
            lemma_insert_depth(
                nests_size(before) + nest_size(kid@),
                (depth - 1) as nat,
                before,
                kid@,
            );
            lemma_insert_rings(nests_size(before) + nest_size(kid@), before, kid@);
        }
        let ghost children_before = node.children@;
        insert(&mut node.children, kid);
        proof {
            assert forall|k: int| 0 <= k < node.children@.len() implies spec_is_child_of(
                (#[trigger] node.children@[k]).data@,
                ring,
            ) by {
                let r = nests(node.children@)[k].ring;
                assert(r == node.children@[k].data@);
                if r == kid@.ring {
                } else {
                    assert(has_ring(before, r));
                    let m = choose|m: int| 0 <= m < before.len() && (#[trigger] before[m]).ring == r;
                    assert(before[m] == children_before[m]@);
                    assert(spec_is_child_of(children_before[m].data@, ring));
                }
            }
        }
        j = j + 1;
    }
    proof {
        assert(kid_nests.take(nk as int) =~= kid_nests);
        assert(nests(nodes@.push(node)) =~= nests(nodes@).push(node@));
    }
    let ghost rest = nodes@;
    nodes.push(node);
    proof {
        assert forall|k: int| 0 <= k < nodes@.len() implies (#[trigger] nodes@[k]).wf() by {
            if k < rest.len() {
                assert(nodes@[k] == rest[k]);
            }
        }
    }
}

impl Tree {
    /// Every ring is enclosed by its parent's ring.
    pub open spec fn wf(&self) -> bool {
        forest_wf(self.children@)
    }

    /// An empty forest.
    pub fn new() -> (t: Tree)
        ensures
            t.children@.len() == 0,
            t.wf(),
    {
        Tree { children: Vec::new() }
    }

    /// Puts a closed ring into the forest.
    pub fn insert(&mut self, data: Edge)
        requires
            old(self).wf(),
            ring_ok(data),
        ensures
            final(self).wf(),
            nests(final(self).children@) == spec_insert(
                nests(old(self).children@),
                Nest { ring: data@, inner: Seq::empty() },
            ),
    {
        let new_node = Node::new(data);
        assert(new_node@.inner =~= Seq::empty());
        insert(&mut self.children, new_node);
    }
}


/// The forest that a list of rings grows into when the rings are put in
/// one after the other.
pub open spec fn spec_tree(rings: Seq<Seq<Vert>>) -> Seq<Nest>
    decreases rings.len(),
{
    if rings.len() == 0 {
        Seq::empty()
    } else {
        spec_insert(
            spec_tree(rings.drop_last()),
            Nest { ring: rings.last(), inner: Seq::empty() },
        )
    }
}

/// Every ring of the list can stand in the tree.
pub open spec fn rings_ok(edges: Seq<Edge>) -> bool {
    forall|i: int| 0 <= i < edges.len() ==> ring_ok(#[trigger] edges[i])
}

/// Nests closed rings by which encloses which.
///
/// The rings are put into the forest in their order. A ring that comes
/// later takes the rings it encloses as children, and never becomes the
/// child of a ring that is there already.
pub fn tree_from_edges(edges: Vec<Edge>) -> (t: Tree)
    requires
        rings_ok(edges@),
    ensures
        t.wf(),
        nests(t.children@) == spec_tree(ring_views(edges@)),
{
    let mut t = Tree::new();
    let ghost all = edges@;
    let ghost rings = ring_views(edges@);
    let mut edges = edges;
    let mut rev = take_reversed(&mut edges);
    let n: usize = rev.len();
    let mut i: usize = 0;
    assert(nests(t.children@) =~= spec_tree(rings.take(0)));
    while i < n
        invariant
            i <= n,
            n == all.len(),
            rings == ring_views(all),
            rings_ok(all),
            rev@ == all.reverse().take(n - i),
            t.wf(),
            nests(t.children@) == spec_tree(rings.take(i as int)),
        decreases n - i,
    {
        let e = rev.pop().unwrap();
        proof {
            assert(e == all[i as int]);
            assert(rev@ =~= all.reverse().take(n - i - 1));
            assert(rings.take(i + 1).drop_last() =~= rings.take(i as int));
            assert(rings.take(i + 1).last() == e@);
        }
        t.insert(e);
        i = i + 1;
    }
    assert(rings.take(n as int) =~= rings);
    t
}

/// The children of the nests of `outers`, list after list.
pub open spec fn children_of(outers: Seq<Nest>) -> Seq<Nest>
    decreases outers.len(),
{
    if outers.len() == 0 {
        Seq::empty()
    } else {
        children_of(outers.drop_last()) + outers.last().inner
    }
}

/// The rings in two lists are those in the lists joined.
pub proof fn lemma_size_add(a: Seq<Nest>, b: Seq<Nest>)
    ensures
        nests_size(a + b) == nests_size(a) + nests_size(b),
    decreases b.len(),
{
    if b.len() == 0 {
        assert(a + b =~= a);
    } else {
        lemma_size_add(a, b.drop_last());
        assert((a + b).drop_last() =~= a + b.drop_last());
        assert((a + b).last() == b.last());
    }
}

/// The children of some nests hold fewer rings than the nests do, by one
/// for each nest.
pub proof fn lemma_size_children_of(outers: Seq<Nest>)
    ensures
        nests_size(children_of(outers)) + outers.len() == nests_size(outers),
    decreases outers.len(),
{
    if outers.len() > 0 {
        lemma_size_children_of(outers.drop_last());
        lemma_size_add(children_of(outers.drop_last()), outers.last().inner);
        assert(nest_size(outers.last()) == 1 + nests_size(outers.last().inner));
    }
}

/// The polygons of a forest, level by level: the rings of `outers` in
/// their order, each with the holes directly inside it; then the rings
/// directly inside those holes, in the order of the holes and, within a
/// hole, in their order; then what lies two levels further down in the
/// same way, and so on.
pub open spec fn spec_flatten(outers: Seq<Nest>) -> Seq<Nest>
    decreases nests_size(outers),
    via spec_flatten_decreases
{
    if outers.len() == 0 {
        Seq::empty()
    } else {
        outers + spec_flatten(children_of(children_of(outers)))
    }
}

/// Two levels further down there are fewer rings.
#[via_fn]
proof fn spec_flatten_decreases(outers: Seq<Nest>) {
    lemma_size_children_of(outers);
    lemma_size_children_of(children_of(outers));
}

impl Clone for Node {
    /// A copy of the node with everything below it.
    fn clone(&self) -> (n: Node)
        ensures
            n@ == self@,
            self.wf() ==> n.wf(),
        decreases self,
    {
        let data = self.data.clone();
        let mut children: Vec<Node> = Vec::new();
        let count: usize = self.children.len();
        let mut i: usize = 0;
        while i < count
            invariant
                i <= count,
                count == self.children@.len(),
                children@.len() == i,
                forall|k: int|
                    0 <= k < i ==> (#[trigger] children@[k])@ == self.children@[k]@ && (
                    self.children@[k].wf() ==> children@[k].wf()),
            decreases count - i,
        {
            let c = self.children[i].clone();
            children.push(c);
            i = i + 1;
        }
        let n = Node { data, children };
        proof {
            assert(nests(n.children@) =~= nests(self.children@));
            if self.wf() {
                assert forall|k: int| 0 <= k < n.children@.len() implies (
                #[trigger] n.children@[k]).wf() && spec_is_child_of(
                    n.children@[k].data@,
                    n.data@,
                ) by {
                    assert(self.children@[k].wf());
                    assert(n.children@[k]@ == self.children@[k]@);
                }
            }
        }
        n
    }
}

/// Appends copies of the children of each node of `outers` to `holes`.
fn push_children_of(holes: &mut Vec<Node>, outers: &Vec<Node>)
    ensures
        nests(final(holes)@) == nests(old(holes)@) + children_of(nests(outers@)),
        forest_wf(old(holes)@) && forest_wf(outers@) ==> forest_wf(final(holes)@),
{
    let n: usize = outers.len();
    let mut i: usize = 0;
    assert(nests(holes@) =~= nests(old(holes)@) + children_of(nests(outers@).take(0)));
    while i < n
        invariant
            i <= n,
            n == outers@.len(),
            nests(holes@) == nests(old(holes)@) + children_of(nests(outers@).take(i as int)),
            forest_wf(old(holes)@) && forest_wf(outers@) ==> forest_wf(holes@),
        decreases n - i,
    {
        let child = &outers[i];
        let ghost before = holes@;
        let m: usize = child.children.len();
        let mut j: usize = 0;
        assert(nests(holes@) =~= nests(before) + nests(child.children@).take(0));
        while j < m
            invariant
                j <= m,
                m == child.children@.len(),
                child == outers@[i as int],
                nests(holes@) == nests(before) + nests(child.children@).take(j as int),
                forest_wf(before) && child.wf() ==> forest_wf(holes@),
            decreases m - j,
        {
            let cc = child.children[j].clone();
            let ghost prev = holes@;
            holes.push(cc);
            proof {
                assert(nests(holes@) =~= nests(prev).push(cc@));
                assert(nests(child.children@).take(j + 1) =~= nests(child.children@).take(
                    j as int,
                ).push(cc@));
                if forest_wf(before) && child.wf() {
                    assert(child.children@[j as int].wf());
                    assert forall|k: int| 0 <= k < holes@.len() implies (
                    #[trigger] holes@[k]).wf() by {
                        if k < prev.len() {
                            assert(holes@[k] == prev[k]);
                        }
                    }
                }
            }
            j = j + 1;
        }
        proof {
            let done = nests(outers@).take(i as int);
            let next = nests(outers@).take(i + 1);
            assert(next.drop_last() =~= done);
            assert(next.last() == child@);
            assert(nests(child.children@).take(m as int) =~= child@.inner);
            assert(nests(holes@) =~= nests(old(holes)@) + children_of(next));
        }
        i = i + 1;
    }
    assert(nests(outers@).take(n as int) =~= nests(outers@));
}

/// Lists the polygons of a forest level by level: every ring at an even
/// depth, as a node whose children are the holes directly inside it.
pub fn flatten_nodes(t: Tree) -> (out: Vec<Node>)
    ensures
        nests(out@) == spec_flatten(nests(t.children@)),
        t.wf() ==> forest_wf(out@),
{
    let ghost forest = nests(t.children@);
    let mut out: Vec<Node> = Vec::new();
    let mut level: Vec<Node> = t.children;
    proof {
        assert(nests(out@) + spec_flatten(nests(level@)) =~= spec_flatten(forest));
    }
    while level.len() > 0
        invariant
            nests(out@) + spec_flatten(nests(level@)) == spec_flatten(forest),
            t.wf() ==> forest_wf(out@) && forest_wf(level@),
        decreases nests_size(nests(level@)),
    {
        let ghost outers = level@;
        let ghost out_before = out@;
        let mut holes: Vec<Node> = Vec::new();
        push_children_of(&mut holes, &level);
        let mut next: Vec<Node> = Vec::new();
        push_children_of(&mut next, &holes);
        out.append(&mut level);
        level = next;
        proof {
            let lower = children_of(children_of(nests(outers)));
            assert(nests(holes@) =~= children_of(nests(outers)));
            assert(nests(level@) =~= lower);
            lemma_size_children_of(nests(outers));
            lemma_size_children_of(children_of(nests(outers)));
            assert(nests(outers).len() == outers.len());
            assert(nests(out@) =~= nests(out_before) + nests(outers));
            assert(spec_flatten(nests(outers)) == nests(outers) + spec_flatten(lower));
            assert(nests(out@) + spec_flatten(lower) =~= nests(out_before) + spec_flatten(
                nests(outers),
            ));
            if t.wf() {
                assert forall|k: int| 0 <= k < out@.len() implies (#[trigger] out@[k]).wf() by {
                    if k < out_before.len() {
                        assert(out@[k] == out_before[k]);
                    } else {
                        assert(out@[k] == outers[k - out_before.len()]);
                    }
                }
            }
        }
    }
    proof {
        assert(nests(level@) =~= Seq::empty());
        assert(nests(out@) + spec_flatten(nests(level@)) =~= nests(out@));
    }
    out
}

/// Nests closed rings and lists the polygons they make.
pub fn sort_edges(edges: Vec<Edge>) -> (out: Vec<Node>)
    requires
        rings_ok(edges@),
    ensures
        nests(out@) == spec_flatten(spec_tree(ring_views(edges@))),
        forest_wf(out@),
{
    let t = tree_from_edges(edges);
    flatten_nodes(t)
}

} // verus!
