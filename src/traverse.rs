use vstd::prelude::*;
use crate::scene::{Drawable, NodeView, SceneGraph};

verus! {

/// One step of a propagation pass: the world transform of `node` is its
/// local transform followed by the world transform of `parent`, or by the
/// ancestor transform the pass started from when `parent` is `None`.
#[derive(Clone, Copy, Debug, PartialEq, Eq, Structural)]
pub struct Step {
    pub node: usize,
    pub parent: Option<usize>,
}

/// One draw of a render pass: the geometry of `node`, drawn with the node's
/// world transform as model matrix.
#[derive(Clone, Copy, Debug, PartialEq, Eq, Structural)]
pub struct DrawCall {
    pub node: usize,
    pub vao: u32,
    pub index_count: i32,
}

/// A node is drawn when it has geometry with a positive index count.
pub open spec fn is_drawn(d: Option<Drawable>) -> bool {
    d matches Some(g) && g.index_count > 0
}

/// The draw that a drawn node gives.
pub open spec fn draw_of(x: usize, d: Option<Drawable>) -> DrawCall {
    DrawCall { node: x, vao: d.unwrap().vao, index_count: d.unwrap().index_count }
}

/// The propagation steps for the subtree of `x`, in pre-order, parent before
/// children and children in insertion order; `from` is where the world
/// transform of `x` itself comes from. `depth` bounds how deep the walk goes.
pub open spec fn steps_from(v: Seq<NodeView>, x: usize, from: Option<usize>, depth: nat) -> Seq<Step>
    decreases depth, 0int, 0int,
{
    if depth == 0 || x >= v.len() {
        Seq::empty()
    } else {
        seq![Step { node: x, parent: from }].add(
            steps_of_children(v, v[x as int].children, x, (depth - 1) as nat),
        )
    }
}

/// The propagation steps for the subtrees of the children `cs` of `p`, one
/// after the other.
pub open spec fn steps_of_children(v: Seq<NodeView>, cs: Seq<usize>, p: usize, depth: nat) -> Seq<Step>
    decreases depth, 1int, cs.len(),
{
    if cs.len() == 0 {
        Seq::empty()
    } else {
        steps_from(v, cs[0], Some(p), depth).add(steps_of_children(v, cs.drop_first(), p, depth))
    }
}

/// The draws of the subtree of `x` in pre-order: `x` itself when it is drawn,
/// then the subtrees of all its children, whether `x` is drawn or not.
pub open spec fn draws_from(v: Seq<NodeView>, x: usize, depth: nat) -> Seq<DrawCall>
    decreases depth, 0int, 0int,
{
    if depth == 0 || x >= v.len() {
        Seq::empty()
    } else {
        let own = if is_drawn(v[x as int].drawable) {
            seq![draw_of(x, v[x as int].drawable)]
        } else {
            Seq::empty()
        };
        own.add(draws_of_children(v, v[x as int].children, (depth - 1) as nat))
    }
}

/// The draws of the subtrees of the children `cs`, one after the other.
pub open spec fn draws_of_children(v: Seq<NodeView>, cs: Seq<usize>, depth: nat) -> Seq<DrawCall>
    decreases depth, 1int, cs.len(),
{
    if cs.len() == 0 {
        Seq::empty()
    } else {
        draws_from(v, cs[0], depth).add(draws_of_children(v, cs.drop_first(), depth))
    }
}

proof fn lemma_steps_of_children_push(v: Seq<NodeView>, cs: Seq<usize>, c: usize, p: usize, depth: nat)
    ensures
        steps_of_children(v, cs.push(c), p, depth) == steps_of_children(v, cs, p, depth).add(
            steps_from(v, c, Some(p), depth),
        ),
    decreases cs.len(),
{
    if cs.len() == 0 {
        assert(cs.push(c).drop_first() =~= Seq::<usize>::empty());
        assert(cs.push(c)[0] == c);
        assert(steps_of_children(v, cs.push(c).drop_first(), p, depth) == Seq::<Step>::empty());
        assert(steps_of_children(v, cs.push(c), p, depth) =~= steps_from(v, c, Some(p), depth));
    } else {
        assert(cs.push(c).drop_first() =~= cs.drop_first().push(c));
        lemma_steps_of_children_push(v, cs.drop_first(), c, p, depth);
        assert(steps_of_children(v, cs.push(c), p, depth) =~= steps_of_children(v, cs, p, depth).add(
            steps_from(v, c, Some(p), depth),
        ));
    }
}

proof fn lemma_draws_of_children_push(v: Seq<NodeView>, cs: Seq<usize>, c: usize, depth: nat)
    ensures
        draws_of_children(v, cs.push(c), depth) == draws_of_children(v, cs, depth).add(
            draws_from(v, c, depth),
        ),
    decreases cs.len(),
{
    if cs.len() == 0 {
        assert(cs.push(c).drop_first() =~= Seq::<usize>::empty());
        assert(cs.push(c)[0] == c);
        assert(draws_of_children(v, cs.push(c).drop_first(), depth) == Seq::<DrawCall>::empty());
        assert(draws_of_children(v, cs.push(c), depth) =~= draws_from(v, c, depth));
    } else {
        assert(cs.push(c).drop_first() =~= cs.drop_first().push(c));
        lemma_draws_of_children_push(v, cs.drop_first(), c, depth);
        assert(draws_of_children(v, cs.push(c), depth) =~= draws_of_children(v, cs, depth).add(
            draws_from(v, c, depth),
        ));
    }
}

/// A step whose node is drawn.
pub open spec fn step_is_drawn(v: Seq<NodeView>) -> spec_fn(Step) -> bool {
    |s: Step| is_drawn(v[s.node as int].drawable)
}

/// The draw that a step's node gives.
pub open spec fn step_draw(v: Seq<NodeView>) -> spec_fn(Step) -> DrawCall {
    |s: Step| draw_of(s.node, v[s.node as int].drawable)
}

proof fn lemma_map_values_add<A, B>(a: Seq<A>, b: Seq<A>, f: spec_fn(A) -> B)
    ensures
        a.add(b).map_values(f) == a.map_values(f).add(b.map_values(f)),
{
    assert(a.add(b).map_values(f) =~= a.map_values(f).add(b.map_values(f)));
}

/// Rendering walks the same nodes in the same order as propagation and
/// draws exactly those with geometry of positive index count: a node that
/// is not drawn still has its whole subtree walked.
pub proof fn lemma_draws_follow_steps(v: Seq<NodeView>, x: usize, from: Option<usize>, depth: nat)
    ensures
        draws_from(v, x, depth) == steps_from(v, x, from, depth).filter(step_is_drawn(v)).map_values(
            step_draw(v),
        ),
        forall|i: int| 0 <= i < draws_from(v, x, depth).len() ==> #[trigger] draws_from(v, x, depth)[i].index_count > 0,
    decreases depth, 0int, 0int,
{
    let st = steps_from(v, x, from, depth);
    let d = draws_from(v, x, depth);
    if depth == 0 || x >= v.len() {
        assert(st.filter(step_is_drawn(v)) =~= Seq::<Step>::empty());
        assert(st.filter(step_is_drawn(v)).map_values(step_draw(v)) =~= Seq::<DrawCall>::empty());
    } else {
        let cs = v[x as int].children;
        let head = seq![Step { node: x, parent: from }];
        let rest = steps_of_children(v, cs, x, (depth - 1) as nat);
        lemma_children_draws_follow_steps(v, cs, x, (depth - 1) as nat);
        Seq::filter_distributes_over_add(head, rest, step_is_drawn(v));
        lemma_map_values_add(head.filter(step_is_drawn(v)), rest.filter(step_is_drawn(v)), step_draw(v));
        reveal_with_fuel(Seq::filter, 2);
        assert(head.drop_last() =~= Seq::<Step>::empty());
        if is_drawn(v[x as int].drawable) {
            assert(head.filter(step_is_drawn(v)).map_values(step_draw(v)) =~= seq![draw_of(x, v[x as int].drawable)]);
        } else {
            assert(head.filter(step_is_drawn(v)).map_values(step_draw(v)) =~= Seq::<DrawCall>::empty());
        }
        assert(st == head.add(rest));
        let own = if is_drawn(v[x as int].drawable) {
            seq![draw_of(x, v[x as int].drawable)]
        } else {
            Seq::empty()
        };
        let dc = draws_of_children(v, cs, (depth - 1) as nat);
        assert(d == own.add(dc));
        assert forall|i: int| 0 <= i < d.len() implies #[trigger] d[i].index_count > 0 by {
            if i >= own.len() {
                assert(d[i] == dc[i - own.len()]);
            }
        }
    }
}

proof fn lemma_children_draws_follow_steps(v: Seq<NodeView>, cs: Seq<usize>, p: usize, depth: nat)
    ensures
        draws_of_children(v, cs, depth) == steps_of_children(v, cs, p, depth).filter(step_is_drawn(v)).map_values(
            step_draw(v),
        ),
        forall|i: int| 0 <= i < draws_of_children(v, cs, depth).len() ==> #[trigger] draws_of_children(v, cs, depth)[i].index_count > 0,
    decreases depth, 1int, cs.len(),
{
    if cs.len() == 0 {
        assert(steps_of_children(v, cs, p, depth).filter(step_is_drawn(v)) =~= Seq::<Step>::empty());
        assert(steps_of_children(v, cs, p, depth).filter(step_is_drawn(v)).map_values(step_draw(v))
            =~= Seq::<DrawCall>::empty());
    } else {
        let a = steps_from(v, cs[0], Some(p), depth);
        let b = steps_of_children(v, cs.drop_first(), p, depth);
        lemma_draws_follow_steps(v, cs[0], Some(p), depth);
        lemma_children_draws_follow_steps(v, cs.drop_first(), p, depth);
        Seq::filter_distributes_over_add(a, b, step_is_drawn(v));
        lemma_map_values_add(a.filter(step_is_drawn(v)), b.filter(step_is_drawn(v)), step_draw(v));
        let da = draws_from(v, cs[0], depth);
        let db = draws_of_children(v, cs.drop_first(), depth);
        let d = draws_of_children(v, cs, depth);
        assert(d == da.add(db));
        assert forall|i: int| 0 <= i < d.len() implies #[trigger] d[i].index_count > 0 by {
            if i < da.len() {
                assert(d[i] == da[i]);
            } else {
                assert(d[i] == db[i - da.len()]);
            }
        }
    }
}

/// A pass reads the graph and nothing else: two passes over the same graph,
/// one after the other, hand the backend the same steps and the same draws.
pub proof fn lemma_passes_repeat(first: &SceneGraph, second: &SceneGraph, root: usize)
    requires
        first.view() == second.view(),
    ensures
        steps_from(first.view(), root, None, first.view().len()) == steps_from(
            second.view(),
            root,
            None,
            second.view().len(),
        ),
        draws_from(first.view(), root, first.view().len()) == draws_from(second.view(), root, second.view().len()),
{
}

/// Some step of `steps` is about node `y`.
pub open spec fn visits(steps: Seq<Step>, y: usize) -> bool {
    exists|i: int| 0 <= i < steps.len() && steps[i].node == y
}

/// Every step but those taken from `from` has as its parent the node of an
/// earlier step, and that node is the step's parent in the graph.
pub open spec fn parents_come_first(v: Seq<NodeView>, steps: Seq<Step>, from: Option<usize>) -> bool {
    forall|i: int| #![trigger steps[i]] 0 <= i < steps.len() ==> steps[i].parent == from || exists|j: int|
        0 <= j < i && steps[i].parent == Some(steps[j].node) && v[steps[i].node as int].parent
            == Some(steps[j].node)
}

impl SceneGraph {
    proof fn lemma_steps_parents_first(&self, x: usize, from: Option<usize>, depth: nat)
        requires
            self.wf(),
            x < self.view().len(),
        ensures
            steps_from(self.view(), x, from, depth).len() > 0 ==> steps_from(self.view(), x, from, depth)[0]
                == (Step { node: x, parent: from }),
            forall|i: int| #![trigger steps_from(self.view(), x, from, depth)[i]]
                0 < i < steps_from(self.view(), x, from, depth).len() ==> exists|j: int|
                0 <= j < i && steps_from(self.view(), x, from, depth)[i].parent == Some(
                    steps_from(self.view(), x, from, depth)[j].node,
                ) && self.view()[steps_from(self.view(), x, from, depth)[i].node as int].parent == Some(
                    steps_from(self.view(), x, from, depth)[j].node,
                ),
        decreases depth, 0int, 0int,
    {
        let v = self.view();
        let st = steps_from(v, x, from, depth);
        if depth > 0 {
            let cs = v[x as int].children;
            self.lemma_links(x as int);
            let rest = steps_of_children(v, cs, x, (depth - 1) as nat);
            self.lemma_children_parents_first(cs, x, (depth - 1) as nat);
            assert(st == seq![Step { node: x, parent: from }].add(rest));
            assert forall|i: int| #![trigger st[i]] 0 < i < st.len() implies exists|j: int|
                0 <= j < i && st[i].parent == Some(st[j].node) && v[st[i].node as int].parent == Some(st[j].node) by {
                assert(st[i] == rest[i - 1]);
                if rest[i - 1].parent == Some(x) && v[rest[i - 1].node as int].parent == Some(x) {
                    assert(st[0].node == x);
                } else {
                    let j = choose|j: int| 0 <= j < i - 1 && rest[i - 1].parent == Some(rest[j].node)
                        && v[rest[i - 1].node as int].parent == Some(rest[j].node);
                    assert(st[j + 1] == rest[j]);
                }
            }
        }
    }

    proof fn lemma_children_parents_first(&self, cs: Seq<usize>, p: usize, depth: nat)
        requires
            self.wf(),
            forall|k: int| 0 <= k < cs.len() ==> {
                &&& (#[trigger] cs[k] as int) < self.view().len()
                &&& self.view()[cs[k] as int].parent == Some(p)
            },
        ensures
            forall|i: int| #![trigger steps_of_children(self.view(), cs, p, depth)[i]]
                0 <= i < steps_of_children(self.view(), cs, p, depth).len() ==> (
                steps_of_children(self.view(), cs, p, depth)[i].parent == Some(p) && self.view()[steps_of_children(
                    self.view(),
                    cs,
                    p,
                    depth,
                )[i].node as int].parent == Some(p)) || exists|j: int|
                0 <= j < i && steps_of_children(self.view(), cs, p, depth)[i].parent == Some(
                    steps_of_children(self.view(), cs, p, depth)[j].node,
                ) && self.view()[steps_of_children(self.view(), cs, p, depth)[i].node as int].parent
                    == Some(steps_of_children(self.view(), cs, p, depth)[j].node),
        decreases depth, 1int, cs.len(),
    {
        let v = self.view();
        if cs.len() > 0 {
            let a = steps_from(v, cs[0], Some(p), depth);
            let b = steps_of_children(v, cs.drop_first(), p, depth);
            let st = steps_of_children(v, cs, p, depth);
            assert(cs[0] == cs[0 as int]);
            self.lemma_steps_parents_first(cs[0], Some(p), depth);
            assert forall|k: int| 0 <= k < cs.drop_first().len() implies {
                &&& (#[trigger] cs.drop_first()[k] as int) < self.view().len()
                &&& self.view()[cs.drop_first()[k] as int].parent == Some(p)
            } by {
                assert(cs.drop_first()[k] == cs[k + 1]);
            }
            self.lemma_children_parents_first(cs.drop_first(), p, depth);
            assert(st == a.add(b));
            assert forall|i: int| #![trigger st[i]] 0 <= i < st.len() implies (st[i].parent == Some(p)
                && v[st[i].node as int].parent == Some(p)) || exists|j: int|
                0 <= j < i && st[i].parent == Some(st[j].node) && v[st[i].node as int].parent == Some(st[j].node) by {
                if i < a.len() {
                    assert(st[i] == a[i]);
                    if i > 0 {
                        let j = choose|j: int| 0 <= j < i && a[i].parent == Some(a[j].node)
                            && v[a[i].node as int].parent == Some(a[j].node);
                        assert(st[j] == a[j]);
                    }
                } else {
                    assert(st[i] == b[i - a.len()]);
                    if !(b[i - a.len()].parent == Some(p) && v[b[i - a.len()].node as int].parent == Some(p)) {
                        let j = choose|j: int| 0 <= j < i - a.len() && b[i - a.len()].parent == Some(b[j].node)
                            && v[b[i - a.len()].node as int].parent == Some(b[j].node);
                        assert(st[j + a.len()] == b[j]);
                    }
                }
            }
        }
    }

    /// A propagation pass starts at its root, from the ancestor transform,
    /// and computes every other node after its parent, from the parent's
    /// world transform.
    pub proof fn lemma_parents_first(&self, root: usize)
        requires
            self.wf(),
            root < self.view().len(),
        ensures
            steps_from(self.view(), root, None, self.view().len())[0] == (Step { node: root, parent: None }),
            parents_come_first(self.view(), steps_from(self.view(), root, None, self.view().len()), None),
            forall|i: int| #![trigger steps_from(self.view(), root, None, self.view().len())[i]]
                0 < i < steps_from(self.view(), root, None, self.view().len()).len() ==>
                steps_from(self.view(), root, None, self.view().len())[i].parent is Some,
    {
        let v = self.view();
        let st = steps_from(v, root, None, v.len());
        self.lemma_steps_parents_first(root, None, v.len());
        assert forall|i: int| #![trigger st[i]] 0 < i < st.len() implies st[i].parent is Some by {
            let j = choose|j: int| 0 <= j < i && st[i].parent == Some(st[j].node)
                && v[st[i].node as int].parent == Some(st[j].node);
        }
    }

    /// `y` is `x` or lies below it.
    pub open spec fn in_subtree(&self, x: int, y: int) -> bool {
        y == x || self.is_ancestor(x, y)
    }

    /// Two children of one parent have no node below them in common.
    proof fn lemma_siblings_disjoint(&self, c1: usize, c2: usize, p: usize, y: int)
        requires
            self.wf(),
            c1 < self.view().len(),
            c2 < self.view().len(),
            c1 != c2,
            self.view()[c1 as int].parent == Some(p),
            self.view()[c2 as int].parent == Some(p),
            self.in_subtree(c1 as int, y),
            0 <= y < self.view().len(),
        ensures
            !self.in_subtree(c2 as int, y),
    {
        self.lemma_ancestors_follow_parent(c1 as int);
        self.lemma_ancestors_follow_parent(c2 as int);
        self.lemma_links(c1 as int);
        self.lemma_ancestors_follow_parent(p as int);
        // neither sibling lies above the other
        assert forall|a: usize, b: usize|
            #![trigger self.is_ancestor(a as int, b as int)]
            (a == c1 && b == c2 || a == c2 && b == c1) implies !self.is_ancestor(a as int, b as int) by {
            if self.is_ancestor(a as int, b as int) {
                assert(self.ancestors(b as int) == seq![p].add(self.ancestors(p as int)));
                let k = choose|k: int| 0 <= k < self.ancestors(b as int).len() && self.ancestors(b as int)[k] == a;
                if k == 0 {
                    assert(a == p);
                    assert(self.ancestors(a as int)[0] == p);
                } else {
                    assert(self.ancestors(p as int)[k - 1] == a);
                    self.lemma_chain_closed(a, p as int);
                    assert(self.ancestors(a as int)[0] == p);
                    assert(self.ancestors(p as int).contains(p));
                }
            }
        }
        if self.in_subtree(c2 as int, y) {
            if y != c1 as int && y != c2 as int {
                self.lemma_ancestors_chain(y, c1, c2);
            }
        }
    }

    proof fn lemma_steps_sound(&self, x: usize, from: Option<usize>, depth: nat)
        requires
            self.wf(),
            x < self.view().len(),
        ensures
            forall|i: int| #![trigger steps_from(self.view(), x, from, depth)[i]]
                0 <= i < steps_from(self.view(), x, from, depth).len() ==> {
                &&& (steps_from(self.view(), x, from, depth)[i].node as int) < self.view().len()
                &&& self.in_subtree(x as int, steps_from(self.view(), x, from, depth)[i].node as int)
            },
            forall|i: int, j: int|
                0 <= i < steps_from(self.view(), x, from, depth).len() && 0 <= j < steps_from(self.view(), x, from, depth).len()
                    && i != j ==> #[trigger] steps_from(self.view(), x, from, depth)[i].node
                    != #[trigger] steps_from(self.view(), x, from, depth)[j].node,
        decreases depth, 0int, 0int,
    {
        let v = self.view();
        let st = steps_from(v, x, from, depth);
        if depth > 0 {
            let cs = v[x as int].children;
            self.lemma_links(x as int);
            let rest = steps_of_children(v, cs, x, (depth - 1) as nat);
            self.lemma_children_steps_sound(cs, x, (depth - 1) as nat);
            assert(st == seq![Step { node: x, parent: from }].add(rest));
            assert forall|i: int| #![trigger st[i]] 0 <= i < st.len() implies {
                &&& (st[i].node as int) < v.len()
                &&& self.in_subtree(x as int, st[i].node as int)
            } by {
                if i > 0 {
                    assert(st[i] == rest[i - 1]);
                }
            }
            self.lemma_ancestors_follow_parent(x as int);
            assert forall|i: int, j: int| 0 <= i < st.len() && 0 <= j < st.len() && i != j implies
                #[trigger] st[i].node != #[trigger] st[j].node by {
                if i > 0 {
                    assert(st[i] == rest[i - 1]);
                }
                if j > 0 {
                    assert(st[j] == rest[j - 1]);
                }
                if i > 0 && j > 0 {
                    assert(rest[i - 1].node != rest[j - 1].node);
                }
            }
        }
    }

    proof fn lemma_children_steps_sound(&self, cs: Seq<usize>, p: usize, depth: nat)
        requires
            self.wf(),
            cs.no_duplicates(),
            forall|k: int| 0 <= k < cs.len() ==> {
                &&& (#[trigger] cs[k] as int) < self.view().len()
                &&& self.view()[cs[k] as int].parent == Some(p)
            },
        ensures
            forall|i: int| #![trigger steps_of_children(self.view(), cs, p, depth)[i]]
                0 <= i < steps_of_children(self.view(), cs, p, depth).len() ==> {
                &&& (steps_of_children(self.view(), cs, p, depth)[i].node as int) < self.view().len()
                &&& self.is_ancestor(p as int, steps_of_children(self.view(), cs, p, depth)[i].node as int)
                &&& forall|c: usize| #![trigger self.in_subtree(c as int, steps_of_children(self.view(), cs, p, depth)[i].node as int)]
                    c < self.view().len() && self.view()[c as int].parent == Some(p) && !cs.contains(c)
                    ==> !self.in_subtree(c as int, steps_of_children(self.view(), cs, p, depth)[i].node as int)
            },
            forall|i: int, j: int|
                0 <= i < steps_of_children(self.view(), cs, p, depth).len() && 0 <= j < steps_of_children(self.view(), cs, p, depth).len()
                    && i != j ==> #[trigger] steps_of_children(self.view(), cs, p, depth)[i].node
                    != #[trigger] steps_of_children(self.view(), cs, p, depth)[j].node,
        decreases depth, 1int, cs.len(),
    {
        let v = self.view();
        if cs.len() > 0 {
            let c0 = cs[0];
            let tail = cs.drop_first();
            let a = steps_from(v, c0, Some(p), depth);
            let b = steps_of_children(v, tail, p, depth);
            let st = steps_of_children(v, cs, p, depth);
            assert(cs[0] == cs[0 as int]);
            self.lemma_steps_sound(c0, Some(p), depth);
            assert(tail.no_duplicates());
            assert forall|k: int| 0 <= k < tail.len() implies {
                &&& (#[trigger] tail[k] as int) < self.view().len()
                &&& self.view()[tail[k] as int].parent == Some(p)
            } by {
                assert(tail[k] == cs[k + 1]);
            }
            assert(!tail.contains(c0)) by {
                if tail.contains(c0) {
                    let k = choose|k: int| 0 <= k < tail.len() && tail[k] == c0;
                    assert(cs[k + 1] == cs[0]);
                }
            }
            self.lemma_children_steps_sound(tail, p, depth);
            self.lemma_ancestors_follow_parent(c0 as int);
            assert(st == a.add(b));
            assert forall|i: int| #![trigger st[i]] 0 <= i < st.len() implies {
                &&& (st[i].node as int) < v.len()
                &&& self.is_ancestor(p as int, st[i].node as int)
                &&& forall|c: usize| #![trigger self.in_subtree(c as int, st[i].node as int)]
                    c < v.len() && v[c as int].parent == Some(p) && !cs.contains(c)
                    ==> !self.in_subtree(c as int, st[i].node as int)
            } by {
                if i < a.len() {
                    assert(st[i] == a[i]);
                    let y = a[i].node;
                    // below c0, hence below p
                    if y != c0 {
                        self.lemma_chain_closed(c0, y as int);
                        assert(self.ancestors(c0 as int)[0] == p);
                    } else {
                        assert(self.ancestors(c0 as int)[0] == p);
                    }
                    assert forall|c: usize| #![trigger self.in_subtree(c as int, y as int)]
                        c < v.len() && v[c as int].parent == Some(p) && !cs.contains(c)
                        implies !self.in_subtree(c as int, y as int) by {
                        assert(cs[0] == c0);
                        self.lemma_siblings_disjoint(c0, c, p, y as int);
                    }
                } else {
                    assert(st[i] == b[i - a.len()]);
                    let y = b[i - a.len()].node;
                    assert forall|c: usize| #![trigger self.in_subtree(c as int, y as int)]
                        c < v.len() && v[c as int].parent == Some(p) && !cs.contains(c)
                        implies !self.in_subtree(c as int, y as int) by {
                        assert(!tail.contains(c)) by {
                            if tail.contains(c) {
                                let k = choose|k: int| 0 <= k < tail.len() && tail[k] == c;
                                assert(cs[k + 1] == c);
                            }
                        }
                    }
                }
            }
            assert forall|i: int, j: int| 0 <= i < st.len() && 0 <= j < st.len() && i != j implies
                #[trigger] st[i].node != #[trigger] st[j].node by {
                if i < a.len() && j < a.len() {
                    assert(st[i] == a[i] && st[j] == a[j]);
                } else if i >= a.len() && j >= a.len() {
                    assert(st[i] == b[i - a.len()] && st[j] == b[j - a.len()]);
                } else if i < a.len() {
                    assert(st[i] == a[i] && st[j] == b[j - a.len()]);
                    assert(self.in_subtree(c0 as int, a[i].node as int));
                    assert(!self.in_subtree(c0 as int, b[j - a.len()].node as int));
                } else {
                    assert(st[j] == a[j] && st[i] == b[i - a.len()]);
                    assert(self.in_subtree(c0 as int, a[j].node as int));
                    assert(!self.in_subtree(c0 as int, b[i - a.len()].node as int));
                }
            }
        }
    }

    proof fn lemma_child_block_within(&self, cs: Seq<usize>, q: usize, depth: nat, c: usize)
        requires
            cs.contains(c),
        ensures
            forall|z: usize| #[trigger] visits(steps_from(self.view(), c, Some(q), depth), z)
                ==> visits(steps_of_children(self.view(), cs, q, depth), z),
        decreases cs.len(),
    {
        let v = self.view();
        let a = steps_from(v, cs[0], Some(q), depth);
        let b = steps_of_children(v, cs.drop_first(), q, depth);
        let st = steps_of_children(v, cs, q, depth);
        assert(st == a.add(b));
        if cs[0] == c {
            assert forall|z: usize| #[trigger] visits(steps_from(v, c, Some(q), depth), z) implies visits(st, z) by {
                let i = choose|i: int| 0 <= i < a.len() && a[i].node == z;
                assert(st[i] == a[i]);
            }
        } else {
            let k = choose|k: int| 0 <= k < cs.len() && cs[k] == c;
            assert(cs.drop_first()[k - 1] == c);
            self.lemma_child_block_within(cs.drop_first(), q, depth, c);
            assert forall|z: usize| #[trigger] visits(steps_from(v, c, Some(q), depth), z) implies visits(st, z) by {
                assert(visits(b, z));
                let i = choose|i: int| 0 <= i < b.len() && b[i].node == z;
                assert(st[i + a.len()] == b[i]);
            }
        }
    }

    /// The part of the pass from `x` that deals with the subtree of `p`.
    spec fn inner_pass(&self, x: usize, from: Option<usize>, depth: nat, p: usize) -> Seq<Step> {
        steps_from(
            self.view(),
            p,
            if p == x { from } else { self.view()[p as int].parent },
            (depth - (self.ancestors(p as int).len() - self.ancestors(x as int).len())) as nat,
        )
    }

    /// The pass from `x` with `depth` to spare holds the whole pass from a
    /// node `p` below it, with the depth that is left at `p`.
    proof fn lemma_block_within(&self, x: usize, from: Option<usize>, depth: nat, p: usize)
        requires
            self.wf(),
            x < self.view().len(),
            p < self.view().len(),
            self.in_subtree(x as int, p as int),
            self.ancestors(p as int).len() - self.ancestors(x as int).len() < depth,
        ensures
            forall|z: usize| #[trigger] visits(self.inner_pass(x, from, depth, p), z) ==> visits(
                steps_from(self.view(), x, from, depth),
                z,
            ),
        decreases self.ancestors(p as int).len(),
    {
        let v = self.view();
        if p != x {
            self.lemma_ancestors_follow_parent(p as int);
            self.lemma_links(p as int);
            let q = v[p as int].parent.unwrap();
            assert(self.ancestors(p as int)[0] == q);
            assert(self.in_subtree(x as int, q as int)) by {
                if x != q {
                    let k = choose|k: int| 0 <= k < self.ancestors(p as int).len() && self.ancestors(p as int)[k] == x;
                    assert(self.ancestors(q as int)[k - 1] == x);
                }
            }
            if q != x {
                self.lemma_ancestor_is_shallower(x, q as int);
            }
            self.lemma_block_within(x, from, depth, q);
            let e = (depth - (self.ancestors(p as int).len() - self.ancestors(x as int).len())) as nat;
            let fq = if q == x { from } else { v[q as int].parent };
            let outer = steps_from(v, q, fq, e + 1);
            assert(outer == self.inner_pass(x, from, depth, q));
            assert(self.inner_pass(x, from, depth, p) == steps_from(v, p, Some(q), e));
            let cs = v[q as int].children;
            self.lemma_child_block_within(cs, q, e, p);
            assert(outer == seq![Step { node: q, parent: fq }].add(steps_of_children(v, cs, q, e)));
            assert forall|z: usize| #[trigger] visits(steps_from(v, p, Some(q), e), z) implies visits(
                steps_from(v, x, from, depth),
                z,
            ) by {
                let inner = steps_of_children(v, cs, q, e);
                assert(visits(inner, z));
                let i = choose|i: int| 0 <= i < inner.len() && inner[i].node == z;
                assert(outer[i + 1] == inner[i]);
                assert(visits(outer, z));
            }
        }
    }

    /// A propagation pass from `root` computes every node of its subtree,
    /// and each of them once: no node is left with a stale world transform
    /// and none is computed twice. Rendering follows the same order.
    pub proof fn lemma_each_node_once(&self, root: usize)
        requires
            self.wf(),
            root < self.view().len(),
        ensures
            forall|y: usize| y < self.view().len() ==> (#[trigger] visits(
                steps_from(self.view(), root, None, self.view().len()),
                y,
            ) <==> self.in_subtree(root as int, y as int)),
            forall|i: int, j: int|
                0 <= i < steps_from(self.view(), root, None, self.view().len()).len() && 0 <= j < steps_from(
                    self.view(),
                    root,
                    None,
                    self.view().len(),
                ).len() && i != j ==> #[trigger] steps_from(self.view(), root, None, self.view().len())[i].node
                    != #[trigger] steps_from(self.view(), root, None, self.view().len())[j].node,
    {
        let v = self.view();
        let n = v.len();
        let st = steps_from(v, root, None, n);
        self.lemma_steps_sound(root, None, n);
        assert forall|y: usize| y < n implies (#[trigger] visits(st, y) <==> self.in_subtree(root as int, y as int)) by {
            if visits(st, y) {
                let i = choose|i: int| 0 <= i < st.len() && st[i].node == y;
            }
            if self.in_subtree(root as int, y as int) {
                self.lemma_ancestors_fewer_than_nodes(y as int);
                if y != root {
                    self.lemma_ancestor_is_shallower(root, y as int);
                }
                self.lemma_block_within(root, None, n, y);
                let e = (n - (self.ancestors(y as int).len() - self.ancestors(root as int).len())) as nat;
                let fy = if y == root { None } else { v[y as int].parent };
                let own = steps_from(v, y, fy, e);
                assert(own == self.inner_pass(root, None, n, y));
                assert(own[0].node == y);
                assert(visits(own, y));
            }
        }
    }

    /// Composing down the tree step by step is what one pass does: a pass
    /// started at a node `c` below `root` takes, after its first step, only
    /// steps that the pass from `root` takes too, and the pass from `root`
    /// computes `c` from its parent's world transform, which is the ancestor
    /// transform that the first step of the pass from `c` stands for.
    pub proof fn lemma_inner_pass_agrees(&self, root: usize, c: usize)
        requires
            self.wf(),
            root < self.view().len(),
            c < self.view().len(),
            c != root,
            self.in_subtree(root as int, c as int),
        ensures
            steps_from(self.view(), c, None, self.view().len())[0] == (Step { node: c, parent: None }),
            steps_from(self.view(), root, None, self.view().len()).contains(
                Step { node: c, parent: self.view()[c as int].parent },
            ),
            forall|i: int| #![trigger steps_from(self.view(), c, None, self.view().len())[i]]
                0 < i < steps_from(self.view(), c, None, self.view().len()).len()
                ==> steps_from(self.view(), root, None, self.view().len()).contains(
                steps_from(self.view(), c, None, self.view().len())[i],
            ),
    {
        let v = self.view();
        let n = v.len();
        let full = steps_from(v, root, None, n);
        let inner = steps_from(v, c, None, n);
        self.lemma_parents_first(c);
        self.lemma_full_pass_step(root, c);
        assert forall|i: int| #![trigger inner[i]] 0 < i < inner.len() implies full.contains(inner[i]) by {
            self.lemma_inner_step(c, i);
            let y = inner[i].node;
            self.lemma_subtree_trans(root, c, y);
            self.lemma_full_pass_step(root, y);
        }
    }

    proof fn lemma_full_pass_step(&self, root: usize, y: usize)
        requires
            self.wf(),
            root < self.view().len(),
            y < self.view().len(),
            y != root,
            self.in_subtree(root as int, y as int),
        ensures
            steps_from(self.view(), root, None, self.view().len()).contains(
                Step { node: y, parent: self.view()[y as int].parent },
            ),
    {
        let v = self.view();
        let full = steps_from(v, root, None, v.len());
        self.lemma_parents_first(root);
        self.lemma_each_node_once(root);
        assert(visits(full, y));
        let j = choose|j: int| 0 <= j < full.len() && full[j].node == y;
        assert(j != 0);
        assert(full[j] == full[j]);
        let k = choose|k: int| 0 <= k < j && full[j].parent == Some(full[k].node)
            && v[full[j].node as int].parent == Some(full[k].node);
        assert(full[j] == Step { node: y, parent: v[y as int].parent });
    }

    proof fn lemma_inner_step(&self, c: usize, i: int)
        requires
            self.wf(),
            c < self.view().len(),
            0 < i < steps_from(self.view(), c, None, self.view().len()).len(),
        ensures
            ({
                let s = steps_from(self.view(), c, None, self.view().len())[i];
                &&& s == (Step { node: s.node, parent: self.view()[s.node as int].parent })
                &&& (s.node as int) < self.view().len()
                &&& self.in_subtree(c as int, s.node as int)
            }),
    {
        let v = self.view();
        let inner = steps_from(v, c, None, v.len());
        self.lemma_parents_first(c);
        self.lemma_steps_sound(c, None, v.len());
        assert(inner[i] == inner[i]);
        let k = choose|k: int| 0 <= k < i && inner[i].parent == Some(inner[k].node)
            && v[inner[i].node as int].parent == Some(inner[k].node);
    }

    proof fn lemma_subtree_trans(&self, root: usize, c: usize, y: usize)
        requires
            self.wf(),
            root < self.view().len(),
            c < self.view().len(),
            y < self.view().len(),
            c != root,
            self.in_subtree(root as int, c as int),
            self.in_subtree(c as int, y as int),
        ensures
            self.in_subtree(root as int, y as int),
            y != root,
    {
        if y != c {
            self.lemma_chain_closed(c, y as int);
        }
        if y == root {
            self.lemma_ancestors_follow_parent(root as int);
            self.lemma_chain_closed(root, c as int);
            if y != c {
                self.lemma_chain_closed(c, root as int);
            }
        }
    }

    fn push_steps(&self, x: usize, from: Option<usize>, depth: usize, out: &mut Vec<Step>)
        requires
            self.wf(),
            x < self.view().len(),
        ensures
            final(out)@ == old(out)@.add(steps_from(self.view(), x, from, depth as nat)),
        decreases depth,
    {
        let ghost v = self.view();
        if depth == 0 {
            assert(final(out)@ =~= old(out)@.add(steps_from(v, x, from, depth as nat)));
            return;
        }
        out.push(Step { node: x, parent: from });
        let children = self.children(x);
        proof {
            self.lemma_links(x as int);
        }
        let ghost start = out@;
        let mut i: usize = 0;
        while i < children.len()
            invariant
                self.wf(),
                x < v.len(),
                v == self.view(),
                children@ == v[x as int].children,
                forall|k: int| 0 <= k < children@.len() ==> (#[trigger] children@[k] as int) < v.len(),
                0 < depth,
                i <= children.len(),
                out@ == start.add(steps_of_children(v, children@.take(i as int), x, (depth - 1) as nat)),
            decreases children.len() - i,
        {
            proof {
                lemma_steps_of_children_push(v, children@.take(i as int), children@[i as int], x, (depth - 1) as nat);
                assert(children@.take(i as int).push(children@[i as int]) =~= children@.take(i + 1));
            }
            self.push_steps(children[i], Some(x), depth - 1, out);
            proof {
                assert(out@ =~= start.add(steps_of_children(v, children@.take(i + 1), x, (depth - 1) as nat)));
            }
            i = i + 1;
        }
        proof {
            assert(children@.take(i as int) =~= children@);
            assert(out@ =~= old(out)@.add(steps_from(v, x, from, depth as nat)));
        }
    }

    /// The steps of a propagation pass over the subtree of `root`, starting
    /// from the ancestor transform: each node once its parent is done, in
    /// pre-order.
    pub fn propagation_steps(&self, root: usize) -> (steps: Vec<Step>)
        requires
            self.wf(),
            root < self.view().len(),
        ensures
            steps@ == steps_from(self.view(), root, None, self.view().len()),
    {
        let mut steps: Vec<Step> = Vec::new();
        self.push_steps(root, None, self.len(), &mut steps);
        assert(steps@ =~= steps_from(self.view(), root, None, self.view().len()));
        steps
    }

    fn push_draws(&self, x: usize, depth: usize, out: &mut Vec<DrawCall>)
        requires
            self.wf(),
            x < self.view().len(),
        ensures
            final(out)@ == old(out)@.add(draws_from(self.view(), x, depth as nat)),
        decreases depth,
    {
        let ghost v = self.view();
        if depth == 0 {
            assert(final(out)@ =~= old(out)@.add(draws_from(v, x, depth as nat)));
            return;
        }
        match self.drawable(x) {
            Some(d) => {
                if d.index_count > 0 {
                    out.push(DrawCall { node: x, vao: d.vao, index_count: d.index_count });
                }
            },
            None => {},
        }
        let children = self.children(x);
        proof {
            self.lemma_links(x as int);
        }
        let ghost start = out@;
        proof {
            let own = if is_drawn(v[x as int].drawable) {
                seq![draw_of(x, v[x as int].drawable)]
            } else {
                Seq::empty()
            };
            assert(start =~= old(out)@.add(own));
        }
        let mut i: usize = 0;
        while i < children.len()
            invariant
                self.wf(),
                x < v.len(),
                v == self.view(),
                children@ == v[x as int].children,
                forall|k: int| 0 <= k < children@.len() ==> (#[trigger] children@[k] as int) < v.len(),
                0 < depth,
                i <= children.len(),
                out@ == start.add(draws_of_children(v, children@.take(i as int), (depth - 1) as nat)),
            decreases children.len() - i,
        {
            proof {
                lemma_draws_of_children_push(v, children@.take(i as int), children@[i as int], (depth - 1) as nat);
                assert(children@.take(i as int).push(children@[i as int]) =~= children@.take(i + 1));
            }
            self.push_draws(children[i], depth - 1, out);
            proof {
                assert(out@ =~= start.add(draws_of_children(v, children@.take(i + 1), (depth - 1) as nat)));
            }
            i = i + 1;
        }
        proof {
            assert(children@.take(i as int) =~= children@);
            assert(out@ =~= old(out)@.add(draws_from(v, x, depth as nat)));
        }
    }

    /// The draws of a render pass over the subtree of `root`, in pre-order.
    pub fn draw_calls(&self, root: usize) -> (calls: Vec<DrawCall>)
        requires
            self.wf(),
            root < self.view().len(),
        ensures
            calls@ == draws_from(self.view(), root, self.view().len()),
    {
        let mut calls: Vec<DrawCall> = Vec::new();
        self.push_draws(root, self.len(), &mut calls);
        assert(calls@ =~= draws_from(self.view(), root, self.view().len()));
        calls
    }
}

} // verus!
