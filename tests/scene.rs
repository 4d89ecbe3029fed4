use scene_graph::assembly::{build_scene, SceneNodes};
use scene_graph::scene::{Drawable, SceneError, SceneGraph};
use scene_graph::traverse::{DrawCall, Step};

fn geometry(vao: u32, index_count: i32) -> Drawable {
    Drawable { vao, index_count }
}

fn chain() -> (SceneGraph, usize, usize, usize) {
    let mut g = SceneGraph::new();
    let root = g.add_node(None);
    let child = g.add_node(Some(geometry(7, 12)));
    let grandchild = g.add_node(Some(geometry(8, 6)));
    assert_eq!(g.add_child(root, child), Ok(()));
    assert_eq!(g.add_child(child, grandchild), Ok(()));
    (g, root, child, grandchild)
}

#[test]
fn add_node_returns_consecutive_indices() {
    let mut g = SceneGraph::new();
    assert_eq!(g.len(), 0);
    assert_eq!(g.add_node(None), 0);
    assert_eq!(g.add_node(Some(geometry(1, 3))), 1);
    assert_eq!(g.len(), 2);
    assert_eq!(g.drawable(0), None);
    assert_eq!(g.drawable(1), Some(geometry(1, 3)));
    assert_eq!(g.parent(1), None);
    assert!(g.children(0).is_empty());
}

#[test]
fn add_child_links_both_ways_in_insertion_order() {
    let mut g = SceneGraph::new();
    let p = g.add_node(None);
    let a = g.add_node(None);
    let b = g.add_node(None);
    assert_eq!(g.add_child(p, b), Ok(()));
    assert_eq!(g.add_child(p, a), Ok(()));
    assert_eq!(g.children(p), &vec![b, a]);
    assert_eq!(g.parent(a), Some(p));
    assert_eq!(g.parent(b), Some(p));
}

#[test]
fn add_child_rejects_unknown_nodes() {
    let mut g = SceneGraph::new();
    let p = g.add_node(None);
    assert_eq!(g.add_child(p, 5), Err(SceneError::NoSuchNode));
    assert_eq!(g.add_child(5, p), Err(SceneError::NoSuchNode));
}

#[test]
fn add_child_rejects_second_parent() {
    let (mut g, root, _child, grandchild) = chain();
    assert_eq!(g.add_child(root, grandchild), Err(SceneError::AlreadyHasParent));
    assert_eq!(g.children(root).len(), 1);
}

#[test]
fn add_child_rejects_cycles() {
    let (mut g, root, child, grandchild) = chain();
    let lone = g.add_node(None);
    assert_eq!(g.add_child(lone, lone), Err(SceneError::WouldCreateCycle));
    assert_eq!(g.add_child(grandchild, root), Err(SceneError::WouldCreateCycle));
    assert_eq!(g.add_child(child, root), Err(SceneError::WouldCreateCycle));
    assert_eq!(g.parent(root), None);
}

#[test]
fn ancestry_follows_parent_links() {
    let (mut g, root, child, grandchild) = chain();
    let lone = g.add_node(None);
    assert!(g.is_ancestor_of(root, grandchild));
    assert!(g.is_ancestor_of(child, grandchild));
    assert!(!g.is_ancestor_of(grandchild, grandchild));
    assert!(!g.is_ancestor_of(grandchild, root));
    assert!(!g.is_ancestor_of(lone, child));
    assert_eq!(g.add_child(lone, root), Ok(()));
    assert!(g.is_ancestor_of(lone, grandchild));
}

#[test]
fn set_drawable_changes_only_geometry() {
    let (mut g, root, child, _grandchild) = chain();
    g.set_drawable(child, None);
    assert_eq!(g.drawable(child), None);
    assert_eq!(g.parent(child), Some(root));
    g.set_drawable(root, Some(geometry(3, 9)));
    assert_eq!(g.drawable(root), Some(geometry(3, 9)));
}

#[test]
fn propagation_visits_parents_before_children() {
    let (g, root, child, grandchild) = chain();
    let steps = g.propagation_steps(root);
    assert_eq!(
        steps,
        vec![
            Step { node: root, parent: None },
            Step { node: child, parent: Some(root) },
            Step { node: grandchild, parent: Some(child) },
        ]
    );
}

#[test]
fn propagation_from_an_inner_node_starts_from_the_ancestor() {
    let (g, _root, child, grandchild) = chain();
    let steps = g.propagation_steps(child);
    assert_eq!(
        steps,
        vec![Step { node: child, parent: None }, Step { node: grandchild, parent: Some(child) }]
    );
}

#[test]
fn propagation_of_the_built_scene_is_preorder() {
    let (g, n) = build_scene(geometry(1, 10), geometry(2, 20), geometry(3, 30), geometry(4, 40), geometry(5, 50));
    assert_eq!(n, SceneNodes { root: 0, terrain: 1, body: 2, main_rotor: 3, tail_rotor: 4, door: 5 });
    let order: Vec<usize> = g.propagation_steps(n.root).iter().map(|s| s.node).collect();
    assert_eq!(order, vec![0, 1, 2, 3, 4, 5]);
    assert_eq!(g.children(n.body), &vec![3, 4, 5]);
    assert_eq!(g.parent(n.terrain), Some(n.root));
}

#[test]
fn render_skips_non_positive_counts_but_walks_their_children() {
    let mut g = SceneGraph::new();
    let root = g.add_node(None);
    let empty = g.add_node(Some(geometry(9, 0)));
    let negative = g.add_node(Some(geometry(10, -1)));
    let leaf_a = g.add_node(Some(geometry(11, 3)));
    let leaf_b = g.add_node(Some(geometry(12, 6)));
    assert_eq!(g.add_child(root, empty), Ok(()));
    assert_eq!(g.add_child(empty, negative), Ok(()));
    assert_eq!(g.add_child(negative, leaf_a), Ok(()));
    assert_eq!(g.add_child(root, leaf_b), Ok(()));
    let calls = g.draw_calls(root);
    assert_eq!(
        calls,
        vec![
            DrawCall { node: leaf_a, vao: 11, index_count: 3 },
            DrawCall { node: leaf_b, vao: 12, index_count: 6 },
        ]
    );
}

#[test]
fn render_of_the_built_scene_draws_all_but_the_root() {
    let (g, n) = build_scene(geometry(1, 10), geometry(2, 20), geometry(3, 30), geometry(4, 40), geometry(5, 50));
    let drawn: Vec<(usize, u32, i32)> = g.draw_calls(n.root).iter().map(|c| (c.node, c.vao, c.index_count)).collect();
    assert_eq!(drawn, vec![(1, 1, 10), (2, 2, 20), (3, 3, 30), (4, 4, 40), (5, 5, 50)]);
}

#[test]
fn repeated_passes_give_the_same_plans() {
    let (g, n) = build_scene(geometry(1, 10), geometry(2, 20), geometry(3, 30), geometry(4, 40), geometry(5, 50));
    assert_eq!(g.propagation_steps(n.root), g.propagation_steps(n.root));
    assert_eq!(g.draw_calls(n.root), g.draw_calls(n.root));
}

#[test]
fn propagation_stays_within_the_subtree_and_visits_each_node_once() {
    let mut g = SceneGraph::new();
    let a = g.add_node(None);
    let b = g.add_node(None);
    let c = g.add_node(None);
    let d = g.add_node(None);
    let other = g.add_node(None);
    let other_child = g.add_node(None);
    assert_eq!(g.add_child(b, d), Ok(()));
    assert_eq!(g.add_child(b, c), Ok(()));
    assert_eq!(g.add_child(a, b), Ok(()));
    assert_eq!(g.add_child(other, other_child), Ok(()));
    let order: Vec<usize> = g.propagation_steps(a).iter().map(|s| s.node).collect();
    assert_eq!(order, vec![a, b, d, c]);
    let order: Vec<usize> = g.propagation_steps(other).iter().map(|s| s.node).collect();
    assert_eq!(order, vec![other, other_child]);
}
