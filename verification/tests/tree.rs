use img2stl::edge::{edge_contains, hole_contains, Edge};
use img2stl::tree::{flatten_nodes, insert, sort_edges, tree_from_edges, Node, Tree};
use img2stl::util::testing::{closed_edge, donut};
use img2stl::vert::Vert;

const SIDE: i64 = 100;
const X0: i64 = 0;
const Y0: i64 = 0;

#[test]
fn test_insert() {
    let outer = Node::new(closed_edge(SIDE, X0, Y0, false));
    let inner = Node::new(closed_edge(SIDE / 2, X0 + SIDE / 4, Y0 + SIDE / 4, true));
    assert_eq!(inner.is_child_of(&outer), true, "inner is child of outer");
    assert_eq!(outer.is_parent_of(&inner), true, "outer is parent of inner");

    let mut nodes = vec![];
    insert(&mut nodes, outer);
    assert_eq!(nodes.len(), 1);
    insert(&mut nodes, inner);
    assert_eq!(nodes.len(), 2);
    // a ring that comes later takes in what it encloses, and is never taken in
    let mut nodes = vec![];
    insert(&mut nodes, Node::new(closed_edge(SIDE / 2, X0 + SIDE / 4, Y0 + SIDE / 4, true)));
    insert(&mut nodes, Node::new(closed_edge(SIDE, X0, Y0, false)));
    assert_eq!(nodes.len(), 1);
    assert_eq!(nodes[0].children.len(), 1);
}

#[test]
fn test_sort_edges() {
    let d = donut(100, 1, 0, 0);
    let nodes = sort_edges(d.clone());
    assert_eq!(nodes.len(), 1);
    assert_eq!(nodes[0].data, d[1]);
    assert_eq!(nodes[0].children[0].data, d[0]);
}

#[test]
fn test_sort_edges_donut_within_donut() {
    let mut d = donut(100, 1, 0, 0);
    d.append(&mut donut(50, 1, 10, 10));
    let nodes = sort_edges(d.clone());
    assert_eq!(nodes.len(), 2, "should be two donuts");
    assert_eq!(nodes[0].data, d[1]);
    assert_eq!(nodes[0].children[0].data, d[0]);
    assert_eq!(nodes[1].data, d[3]);
    assert_eq!(nodes[1].children[0].data, d[2]);
}

fn check_nesting(node: &Node) {
    for child in node.children.iter() {
        let first = child.data.verts[0];
        if node.data.is_hole() {
            assert!(hole_contains(&node.data, &first));
        } else {
            assert!(edge_contains(&node.data, &first));
        }
        check_nesting(child);
    }
}

fn rings_inside_out() -> Vec<Edge> {
    // an island in a lake on an island, innermost first
    vec![
        closed_edge(20, 40, 40, false),
        closed_edge(60, 20, 20, true),
        closed_edge(100, 0, 0, false),
    ]
}

#[test]
fn every_parent_encloses_its_children() {
    let tree = tree_from_edges(rings_inside_out());
    assert_eq!(tree.children.len(), 1);
    assert_eq!(tree.children[0].children.len(), 1);
    assert_eq!(tree.children[0].children[0].children.len(), 1);
    for root in tree.children.iter() {
        check_nesting(root);
    }
}

#[test]
fn flatten_lists_rings_at_even_depth() {
    let rings = rings_inside_out();
    let tree = tree_from_edges(rings.clone());
    let polygons = flatten_nodes(tree);
    assert_eq!(polygons.len(), 2);
    assert_eq!(polygons[0].data, rings[2]);
    assert_eq!(polygons[0].children.len(), 1);
    assert_eq!(polygons[0].children[0].data, rings[1]);
    assert_eq!(polygons[1].data, rings[0]);
    assert_eq!(polygons[1].children.len(), 0);
}

#[test]
fn flatten_goes_level_by_level() {
    // a shore with two lakes; an island in the first, and in the second an
    // island with a pond that holds an islet
    let shore = closed_edge(100, 0, 0, false);
    let lake_one = closed_edge(20, 10, 10, true);
    let island_one = closed_edge(10, 15, 15, false);
    let lake_two = closed_edge(60, 35, 35, true);
    let island_two = closed_edge(40, 45, 45, false);
    let pond = closed_edge(20, 55, 55, true);
    let islet = closed_edge(10, 60, 60, false);
    let mut tree = Tree::new();
    // a ring takes in what came before it and lies inside it
    tree.insert(island_one.clone());
    tree.insert(lake_one.clone());
    tree.insert(islet.clone());
    tree.insert(pond.clone());
    tree.insert(island_two.clone());
    tree.insert(lake_two.clone());
    tree.insert(shore.clone());
    assert_eq!(tree.children.len(), 1);
    assert_eq!(tree.children[0].children.len(), 2);
    assert_eq!(tree.children[0].children[0].data, lake_one);
    assert_eq!(tree.children[0].children[1].data, lake_two);
    let polygons = flatten_nodes(tree);
    let outers: Vec<Edge> = polygons.iter().map(|p| p.data.clone()).collect();
    assert_eq!(outers, vec![shore, island_one, island_two, islet]);
    assert_eq!(polygons[0].children.len(), 2);
    assert_eq!(polygons[1].children.len(), 0);
    assert_eq!(polygons[2].children.len(), 1);
    assert_eq!(polygons[2].children[0].data, pond);
    assert_eq!(polygons[3].children.len(), 0);
}

#[test]
fn flatten_of_nothing_is_nothing() {
    assert_eq!(flatten_nodes(Tree::new()).len(), 0);
    assert_eq!(sort_edges(vec![]).len(), 0);
}

#[test]
fn siblings_stay_side_by_side() {
    let mut tree = Tree::new();
    tree.insert(closed_edge(10, 0, 0, false));
    tree.insert(closed_edge(10, 20, 0, false));
    tree.insert(closed_edge(10, 40, 0, false));
    assert_eq!(tree.children.len(), 3);
    // a ring round the first two takes them in and goes last
    tree.insert(closed_edge(40, -5, -5, false));
    assert_eq!(tree.children.len(), 2);
    assert_eq!(tree.children[0].data, closed_edge(10, 40, 0, false));
    assert_eq!(tree.children[1].children.len(), 2);
}

#[test]
fn reclaimed_siblings_nest_among_themselves() {
    // the hole comes after the island in it, and both before the shore
    let mut nodes: Vec<Node> = vec![];
    insert(&mut nodes, Node::new(closed_edge(60, 20, 20, true)));
    insert(&mut nodes, Node::new(closed_edge(20, 40, 40, false)));
    assert_eq!(nodes.len(), 2);
    insert(&mut nodes, Node::new(closed_edge(100, 0, 0, false)));
    assert_eq!(nodes.len(), 1);
    let shore = &nodes[0];
    assert_eq!(shore.children.len(), 2);
    check_nesting(shore);
}

#[test]
fn polygon_arr_lists_outer_ring_then_holes() {
    let mut node = Node::new(closed_edge(10, 0, 0, false));
    node.insert(Node::new(closed_edge(2, 4, 4, true)));
    let copy = node.clone();
    assert_eq!(copy, node);
    let arr = node.to_geojson_polygon_arr();
    assert_eq!(arr.len(), 2);
    assert_eq!(arr[0], vec![[0, 0], [10, 0], [10, 10], [0, 10], [0, 0]]);
    assert_eq!(arr[1], vec![[4, 4], [4, 6], [6, 6], [6, 4], [4, 4]]);
    assert_eq!(copy.data.verts[1], Vert::new(10, 0));
}
