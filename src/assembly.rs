use vstd::prelude::*;
use crate::scene::{Drawable, NodeView, SceneGraph};

verus! {

/// The indices of the nodes of the lunar scene.
#[derive(Clone, Copy, Debug, PartialEq, Eq, Structural)]
pub struct SceneNodes {
    pub root: usize,
    pub terrain: usize,
    pub body: usize,
    pub main_rotor: usize,
    pub tail_rotor: usize,
    pub door: usize,
}

/// Node `x` of `v` has these children and this parent and geometry.
pub open spec fn node_is(v: Seq<NodeView>, x: usize, children: Seq<usize>, parent: Option<usize>, drawable: Option<Drawable>) -> bool {
    v[x as int] == (NodeView { children, parent, drawable })
}

/// Builds the scene: a root that draws nothing, the terrain under it, the
/// helicopter body under the terrain, and under the body its main rotor,
/// tail rotor and door, in that order.
pub fn build_scene(
    terrain: Drawable,
    body: Drawable,
    main_rotor: Drawable,
    tail_rotor: Drawable,
    door: Drawable,
) -> (r: (SceneGraph, SceneNodes))
    ensures
        r.0.wf(),
        r.0.view().len() == 6,
        r.1 == (SceneNodes { root: 0, terrain: 1, body: 2, main_rotor: 3, tail_rotor: 4, door: 5 }),
        node_is(r.0.view(), 0, seq![1usize], None, None),
        node_is(r.0.view(), 1, seq![2usize], Some(0usize), Some(terrain)),
        node_is(r.0.view(), 2, seq![3usize, 4usize, 5usize], Some(1usize), Some(body)),
        node_is(r.0.view(), 3, Seq::empty(), Some(2usize), Some(main_rotor)),
        node_is(r.0.view(), 4, Seq::empty(), Some(2usize), Some(tail_rotor)),
        node_is(r.0.view(), 5, Seq::empty(), Some(2usize), Some(door)),
{
    let mut g = SceneGraph::new();
    let root = g.add_node(None);
    let t = g.add_node(Some(terrain));
    let b = g.add_node(Some(body));
    let m = g.add_node(Some(main_rotor));
    let tr = g.add_node(Some(tail_rotor));
    let d = g.add_node(Some(door));
    assert(g.ancestors(0) == Seq::<usize>::empty() && g.ancestors(1) == Seq::<usize>::empty()
        && g.ancestors(2) == Seq::<usize>::empty());
    assert(g.view()[3].parent is None && g.view()[4].parent is None && g.view()[5].parent is None
        && g.view()[2].parent is None && g.view()[1].parent is None);
    let r1 = g.add_child(b, m);
    assert(r1 is Ok);
    assert(g.ancestors(0) == Seq::<usize>::empty() && g.ancestors(1) == Seq::<usize>::empty()
        && g.ancestors(2) == Seq::<usize>::empty());
    let r2 = g.add_child(b, tr);
    assert(r2 is Ok);
    assert(g.ancestors(0) == Seq::<usize>::empty() && g.ancestors(1) == Seq::<usize>::empty()
        && g.ancestors(2) == Seq::<usize>::empty());
    let r3 = g.add_child(b, d);
    assert(r3 is Ok);
    assert(g.ancestors(0) == Seq::<usize>::empty() && g.ancestors(1) == Seq::<usize>::empty()
        && g.ancestors(2) == Seq::<usize>::empty());
    let r4 = g.add_child(t, b);
    assert(r4 is Ok);
    assert(g.ancestors(0) == Seq::<usize>::empty() && g.ancestors(1) == Seq::<usize>::empty());
    let r5 = g.add_child(root, t);
    assert(r5 is Ok);
    let nodes = SceneNodes { root, terrain: t, body: b, main_rotor: m, tail_rotor: tr, door: d };
    assert(g.view()[2].children =~= seq![3usize, 4usize, 5usize]);
    assert(g.view()[1].children =~= seq![2usize]);
    assert(g.view()[0].children =~= seq![1usize]);
    (g, nodes)
}

} // verus!
