use nalgebra_glm as glm;
use scene_graph::scene::SceneGraph;
use scene_graph::traverse::Step;

struct Local {
    position: glm::Vec3,
    rotation: glm::Vec3,
    reference_point: glm::Vec3,
}

fn local_matrix(l: &Local) -> glm::Mat4 {
    let translation = glm::transpose(&glm::translation(&l.position));
    let rx = glm::rotation(l.rotation[0], &glm::vec3(l.reference_point[0], 0.0, 0.0));
    let ry = glm::rotation(l.rotation[1], &glm::vec3(0.0, l.reference_point[1], 0.0));
    let rz = glm::rotation(l.rotation[2], &glm::vec3(0.0, 0.0, l.reference_point[2]));
    rx * ry * rz * translation
}

fn run(steps: &[Step], locals: &[Local], ancestor: &glm::Mat4) -> Vec<glm::Mat4> {
    let mut world = vec![glm::identity(); locals.len()];
    for s in steps {
        let above = match s.parent {
            Some(p) => world[p],
            None => *ancestor,
        };
        world[s.node] = local_matrix(&locals[s.node]) * above;
    }
    world
}

fn at(x: f32, y: f32, z: f32) -> Local {
    Local { position: glm::vec3(x, y, z), rotation: glm::vec3(0.0, 0.0, 0.0), reference_point: glm::vec3(0.0, 0.0, 0.0) }
}

#[test]
fn grandchild_world_position_adds_offsets() {
    let mut g = SceneGraph::new();
    let root = g.add_node(None);
    let child = g.add_node(None);
    let grandchild = g.add_node(None);
    assert_eq!(g.add_child(root, child), Ok(()));
    assert_eq!(g.add_child(child, grandchild), Ok(()));
    let locals = vec![at(0.0, 0.0, 0.0), at(2.0, 0.0, 0.0), at(0.0, 3.0, 0.0)];
    let world = run(&g.propagation_steps(root), &locals, &glm::identity());
    let w = world[grandchild];
    assert_eq!((w[(3, 0)], w[(3, 1)], w[(3, 2)]), (2.0, 3.0, 0.0));
}

#[test]
fn node_without_local_transform_takes_the_ancestor() {
    let mut g = SceneGraph::new();
    let root = g.add_node(None);
    let locals = vec![at(0.0, 0.0, 0.0)];
    let ancestor = glm::transpose(&glm::translation(&glm::vec3(1.0, -2.0, 4.0)));
    let world = run(&g.propagation_steps(root), &locals, &ancestor);
    assert_eq!(world[root], ancestor);
}

#[test]
fn pass_from_an_inner_node_matches_the_full_pass() {
    let mut g = SceneGraph::new();
    let root = g.add_node(None);
    let child = g.add_node(None);
    let grandchild = g.add_node(None);
    assert_eq!(g.add_child(root, child), Ok(()));
    assert_eq!(g.add_child(child, grandchild), Ok(()));
    let locals = vec![at(1.0, 0.0, 0.0), at(2.0, 0.0, 0.0), at(0.0, 3.0, 0.0)];
    let full = run(&g.propagation_steps(root), &locals, &glm::identity());
    let inner = run(&g.propagation_steps(grandchild), &locals, &full[child]);
    assert_eq!(inner[grandchild], full[grandchild]);
}
