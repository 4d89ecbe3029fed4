use vstd::prelude::*;

verus! {

/// The geometry a drawable node refers to: a vertex array handle and the
/// number of indices to draw from it.
#[derive(Clone, Copy, Debug, PartialEq, Eq, Structural)]
pub struct Drawable {
    pub vao: u32,
    pub index_count: i32,
}

/// One node of the tree, addressed by its index in the arena.
pub struct SceneNode {
    pub children: Vec<usize>,
    pub parent: Option<usize>,
    pub drawable: Option<Drawable>,
}

/// What a node is, seen from contracts.
pub struct NodeView {
    pub children: Seq<usize>,
    pub parent: Option<usize>,
    pub drawable: Option<Drawable>,
}

impl View for SceneNode {
    type V = NodeView;

    open spec fn view(&self) -> NodeView {
        NodeView { children: self.children@, parent: self.parent, drawable: self.drawable }
    }
}

/// Why `add_child` refused to link two nodes.
#[derive(Clone, Copy, Debug, PartialEq, Eq, Structural)]
pub enum SceneError {
    /// One of the indices names no node.
    NoSuchNode,
    /// The child already hangs under a parent.
    AlreadyHasParent,
    /// The child is the parent itself or one of its ancestors.
    WouldCreateCycle,
}

/// A forest of scene nodes. Links are only ever added, and each addition is
/// checked so that every node has at most one parent and no node is its own
/// ancestor.
pub struct SceneGraph {
    nodes: Vec<SceneNode>,
    /// For each node, its chain of ancestors: parent first, topmost last.
    chains: Ghost<Seq<Seq<usize>>>,
}

/// The chain of ancestors that the parent links give a node, as recorded in
/// `chains`: empty for a node without parent, else the parent followed by the
/// parent's own chain.
pub open spec fn chain_follows_parent(v: Seq<NodeView>, chains: Seq<Seq<usize>>, x: int) -> bool {
    match v[x].parent {
        None => chains[x] == Seq::<usize>::empty(),
        Some(p) => chains[x] == seq![p].add(chains[p as int]),
    }
}

/// The links of node `x` agree with those of its children and its parent,
/// and its recorded chain of ancestors follows the parent links without
/// reaching `x` again.
pub open spec fn node_ok(v: Seq<NodeView>, chains: Seq<Seq<usize>>, x: int) -> bool {
    &&& forall|k: int| 0 <= k < v[x].children.len() ==> {
        &&& (#[trigger] v[x].children[k] as int) < v.len()
        &&& v[v[x].children[k] as int].parent == Some(x as usize)
    }
    &&& v[x].children.no_duplicates()
    &&& (v[x].parent matches Some(p) ==> (p as int) < v.len() && v[p as int].children.contains(x as usize))
    &&& chain_follows_parent(v, chains, x)
    &&& !chains[x].contains(x as usize)
    &&& forall|k: int| 0 <= k < chains[x].len() ==> (#[trigger] chains[x][k] as int) < v.len()
}

impl SceneGraph {
    pub closed spec fn view(&self) -> Seq<NodeView> {
        self.nodes@.map_values(|n: SceneNode| n@)
    }

    /// The ancestors of node `x`, nearest first.
    pub closed spec fn ancestors(&self, x: int) -> Seq<usize> {
        self.chains@[x]
    }

    /// `a` lies above `b` in the tree.
    pub open spec fn is_ancestor(&self, a: int, b: int) -> bool {
        self.ancestors(b).contains(a as usize)
    }

    pub closed spec fn wf(&self) -> bool {
        let v = self.view();
        &&& self.chains@.len() == v.len()
        &&& forall|x: int| 0 <= x < v.len() ==> #[trigger] node_ok(v, self.chains@, x)
    }

    /// An empty graph.
    pub fn new() -> (g: SceneGraph)
        ensures
            g.wf(),
            g.view().len() == 0,
    {
        SceneGraph { nodes: Vec::new(), chains: Ghost(Seq::empty()) }
    }

    /// Adds a node without parent or children and returns its index. A node
    /// with `drawable == None` only carries a transform.
    pub fn add_node(&mut self, drawable: Option<Drawable>) -> (i: usize)
        requires
            old(self).wf(),
            old(self).view().len() < usize::MAX,
        ensures
            final(self).wf(),
            i == old(self).view().len(),
            final(self).view() == old(self).view().push(
                NodeView { children: Seq::empty(), parent: None, drawable },
            ),
            forall|x: int| 0 <= x < i ==> final(self).ancestors(x) == old(self).ancestors(x),
            final(self).ancestors(i as int) == Seq::<usize>::empty(),
    {
        let i = self.nodes.len();
        self.nodes.push(SceneNode { children: Vec::new(), parent: None, drawable });
        self.chains = Ghost(self.chains@.push(Seq::empty()));
        proof {
            let v = self.view();
            assert(v =~= old(self).view().push(
                NodeView { children: Seq::empty(), parent: None, drawable },
            ));
            let ov = old(self).view();
            assert forall|x: int| 0 <= x < v.len() implies node_ok(v, self.chains@, x) by {
                if x < i {
                    assert(node_ok(ov, old(self).chains@, x));
                    assert(v[x] == ov[x]);
                    assert(self.chains@[x] == old(self).chains@[x]);
                    assert forall|k: int| 0 <= k < v[x].children.len() implies
                        v[v[x].children[k] as int] == ov[ov[x].children[k] as int] by {}
                    if let Some(p) = v[x].parent {
                        assert(v[p as int] == ov[p as int]);
                    }
                }
            }
        }
        i
    }

    /// Whether `a` lies above `b`: walks up the parent links from `b`.
    pub fn is_ancestor_of(&self, a: usize, b: usize) -> (r: bool)
        requires
            self.wf(),
            b < self.view().len(),
        ensures
            r == self.is_ancestor(a as int, b as int),
    {
        let mut cur = b;
        loop
            invariant
                self.wf(),
                cur < self.view().len(),
                self.is_ancestor(a as int, b as int) == self.ancestors(cur as int).contains(a),
            decreases self.ancestors(cur as int).len(),
        {
            proof {
                assert(node_ok(self.view(), self.chains@, cur as int));
            }
            match self.nodes[cur].parent {
                None => {
                    return false;
                },
                Some(p) => {
                    proof {
                        assert(self.ancestors(cur as int) == seq![p].add(self.ancestors(p as int)));
                        assert(self.ancestors(cur as int)[0] == p);
                        assert forall|y: usize| self.ancestors(p as int).contains(y) implies
                            self.ancestors(cur as int).contains(y) by {
                            let k = choose|k: int| 0 <= k < self.ancestors(p as int).len()
                                && self.ancestors(p as int)[k] == y;
                            assert(self.ancestors(cur as int)[k + 1] == y);
                        }
                        assert forall|y: usize| self.ancestors(cur as int).contains(y) && y != p implies
                            self.ancestors(p as int).contains(y) by {
                            let k = choose|k: int| 0 <= k < self.ancestors(cur as int).len()
                                && self.ancestors(cur as int)[k] == y;
                            assert(self.ancestors(p as int)[k - 1] == y);
                        }
                    }
                    if p == a {
                        return true;
                    }
                    cur = p;
                },
            }
        }
    }

    /// The ancestors of a node are its parent and the parent's ancestors, or
    /// none for a node without parent; they are nodes, and the node is not
    /// among them.
    pub proof fn lemma_ancestors_follow_parent(&self, x: int)
        requires
            self.wf(),
            0 <= x < self.view().len(),
        ensures
            self.ancestors(x) == match self.view()[x].parent {
                None => Seq::<usize>::empty(),
                Some(p) => seq![p].add(self.ancestors(p as int)),
            },
            !self.is_ancestor(x, x),
            forall|k: int| 0 <= k < self.ancestors(x).len() ==> (#[trigger] self.ancestors(x)[k] as int) < self.view().len(),
    {
        assert(node_ok(self.view(), self.chains@, x));
    }

    /// No node appears twice among the ancestors of a node.
    pub proof fn lemma_ancestors_distinct(&self, x: int)
        requires
            self.wf(),
            0 <= x < self.view().len(),
        ensures
            self.ancestors(x).no_duplicates(),
        decreases self.ancestors(x).len(),
    {
        self.lemma_ancestors_follow_parent(x);
        if let Some(p) = self.view()[x].parent {
            self.lemma_links(x);
            self.lemma_ancestors_follow_parent(p as int);
            self.lemma_ancestors_distinct(p as int);
            let a = self.ancestors(x);
            assert forall|i: int, j: int| 0 <= i < j < a.len() implies a[i] != a[j] by {
                if i == 0 {
                    assert(a[j] == self.ancestors(p as int)[j - 1]);
                } else {
                    assert(a[i] == self.ancestors(p as int)[i - 1]);
                    assert(a[j] == self.ancestors(p as int)[j - 1]);
                }
            }
        }
    }

    /// A node has fewer ancestors than the graph has nodes.
    pub proof fn lemma_ancestors_fewer_than_nodes(&self, x: int)
        requires
            self.wf(),
            0 <= x < self.view().len(),
        ensures
            self.ancestors(x).len() < self.view().len(),
    {
        let n = self.view().len() as int;
        let a = self.ancestors(x);
        self.lemma_ancestors_distinct(x);
        self.lemma_ancestors_follow_parent(x);
        let s = a.map_values(|u: usize| u as int);
        assert(s.no_duplicates()) by {
            assert forall|i: int, j: int| 0 <= i < s.len() && 0 <= j < s.len() && i != j implies s[i] != s[j] by {
                assert(a[i] != a[j]);
            }
        }
        s.unique_seq_to_set();
        let range = vstd::set_lib::set_int_range(0, n).remove(x);
        vstd::set_lib::lemma_int_range(0, n);
        assert(vstd::set_lib::set_int_range(0, n).contains(x));
        assert(range.len() == n - 1);
        assert forall|i: int| s.to_set().contains(i) implies range.contains(i) by {
            let k = choose|k: int| 0 <= k < s.len() && s[k] == i;
            assert(a[k] as int == i);
            if i == x {
                assert(a.contains(x as usize));
            }
        }
        vstd::set_lib::lemma_len_subset(s.to_set(), range);
    }

    /// A node lies deeper than each of its ancestors.
    pub proof fn lemma_ancestor_is_shallower(&self, a: usize, x: int)
        requires
            self.wf(),
            0 <= x < self.view().len(),
            self.is_ancestor(a as int, x),
        ensures
            a < self.view().len(),
            self.ancestors(a as int).len() < self.ancestors(x).len(),
        decreases self.ancestors(x).len(),
    {
        self.lemma_ancestors_follow_parent(x);
        let p = self.view()[x].parent.unwrap();
        self.lemma_links(x);
        let k = choose|k: int| 0 <= k < self.ancestors(x).len() && self.ancestors(x)[k] == a;
        if a != p {
            assert(self.ancestors(p as int)[k - 1] == a);
            self.lemma_ancestor_is_shallower(a, p as int);
        }
    }

    /// The ancestors of a node form a chain: of two of them, one lies above
    /// the other.
    pub proof fn lemma_ancestors_chain(&self, x: int, a: usize, b: usize)
        requires
            self.wf(),
            0 <= x < self.view().len(),
            self.ancestors(x).contains(a),
            self.ancestors(x).contains(b),
            a != b,
        ensures
            self.is_ancestor(a as int, b as int) || self.is_ancestor(b as int, a as int),
        decreases self.ancestors(x).len(),
    {
        self.lemma_ancestors_follow_parent(x);
        let p = self.view()[x].parent.unwrap();
        self.lemma_links(x);
        self.lemma_ancestors_follow_parent(p as int);
        let anc = self.ancestors(x);
        let ka = choose|k: int| 0 <= k < anc.len() && anc[k] == a;
        let kb = choose|k: int| 0 <= k < anc.len() && anc[k] == b;
        if ka == 0 {
            assert(self.ancestors(p as int)[kb - 1] == b);
        } else if kb == 0 {
            assert(self.ancestors(p as int)[ka - 1] == a);
        } else {
            assert(self.ancestors(p as int)[ka - 1] == a);
            assert(self.ancestors(p as int)[kb - 1] == b);
            self.lemma_ancestors_chain(p as int, a, b);
        }
    }

    /// An ancestor's own ancestors are ancestors too.
    pub proof fn lemma_chain_closed(&self, y: usize, x: int)
        requires
            self.wf(),
            0 <= x < self.view().len(),
            self.ancestors(x).contains(y),
        ensures
            forall|z: usize| self.ancestors(y as int).contains(z) ==> self.ancestors(x).contains(z),
        decreases self.ancestors(x).len(),
    {
        assert(node_ok(self.view(), self.chains@, x));
        let q = self.view()[x].parent.unwrap();
        assert(self.ancestors(x) == seq![q].add(self.ancestors(q as int)));
        assert forall|z: usize| self.ancestors(q as int).contains(z) implies self.ancestors(x).contains(z) by {
            let k = choose|k: int| 0 <= k < self.ancestors(q as int).len() && self.ancestors(q as int)[k] == z;
            assert(self.ancestors(x)[k + 1] == z);
        }
        if y != q {
            let k = choose|k: int| 0 <= k < self.ancestors(x).len() && self.ancestors(x)[k] == y;
            assert(k != 0);
            assert(self.ancestors(q as int)[k - 1] == y);
            self.lemma_chain_closed(y, q as int);
        }
    }

    /// Hangs `child` under `parent`, after the other children of `parent`.
    /// Refused when an index names no node, when `child` already has a parent,
    /// or when `child` is `parent` or one of its ancestors.
    pub fn add_child(&mut self, parent: usize, child: usize) -> (r: Result<(), SceneError>)
        requires
            old(self).wf(),
        ensures
            final(self).wf(),
            r == Err::<(), SceneError>(SceneError::NoSuchNode) <==> (parent >= old(self).view().len()
                || child >= old(self).view().len()),
            r == Err::<(), SceneError>(SceneError::AlreadyHasParent) <==> (parent < old(self).view().len()
                && child < old(self).view().len() && old(self).view()[child as int].parent is Some),
            r == Err::<(), SceneError>(SceneError::WouldCreateCycle) <==> (parent < old(self).view().len()
                && child < old(self).view().len() && old(self).view()[child as int].parent is None
                && (child == parent || old(self).is_ancestor(child as int, parent as int))),
            r is Ok <==> (parent < old(self).view().len() && child < old(self).view().len()
                && old(self).view()[child as int].parent is None && child != parent
                && !old(self).is_ancestor(child as int, parent as int)),
            r is Err ==> *final(self) == *old(self),
            r is Ok ==> {
                let ov = old(self).view();
                &&& final(self).view() == ov.update(
                    parent as int,
                    NodeView { children: ov[parent as int].children.push(child), ..ov[parent as int] },
                ).update(child as int, NodeView { parent: Some(parent), ..ov[child as int] })
                &&& forall|x: int| 0 <= x < ov.len() ==> #[trigger] final(self).ancestors(x) == if x == child
                    || old(self).is_ancestor(child as int, x) {
                    old(self).ancestors(x).push(parent).add(old(self).ancestors(parent as int))
                } else {
                    old(self).ancestors(x)
                }
            },
    {
        if parent >= self.nodes.len() || child >= self.nodes.len() {
            return Err(SceneError::NoSuchNode);
        }
        if self.nodes[child].parent.is_some() {
            return Err(SceneError::AlreadyHasParent);
        }
        if child == parent || self.is_ancestor_of(child, parent) {
            return Err(SceneError::WouldCreateCycle);
        }
        let ghost old_g = *self;
        let ghost ov = self.view();
        let ghost oc = self.chains@;
        let ghost pc = oc[parent as int];
        let ghost in_sub = |x: int| x == child || oc[x].contains(child);
        proof {
            assert(node_ok(ov, oc, child as int));
            assert(node_ok(ov, oc, parent as int));
            assert(!ov[parent as int].children.contains(child)) by {
                if ov[parent as int].children.contains(child) {
                    let k = choose|k: int| 0 <= k < ov[parent as int].children.len()
                        && ov[parent as int].children[k] == child;
                    assert(ov[child as int].parent == Some(parent));
                }
            }
        }
        self.nodes[parent].children.push(child);
        self.nodes[child].parent = Some(parent);
        self.chains = Ghost(
            Seq::new(oc.len(), |x: int| if in_sub(x) { oc[x].push(parent).add(pc) } else { oc[x] }),
        );
        proof {
            let v = self.view();
            let nc = self.chains@;
            assert(v =~= ov.update(
                parent as int,
                NodeView { children: ov[parent as int].children.push(child), ..ov[parent as int] },
            ).update(child as int, NodeView { parent: Some(parent), ..ov[child as int] }));
            assert(!in_sub(parent as int));
            assert(nc[parent as int] == pc);
            assert forall|x: int| 0 <= x < v.len() implies node_ok(v, nc, x) by {
                assert(node_ok(ov, oc, x));
                assert forall|k: int| 0 <= k < v[x].children.len() implies {
                    &&& (#[trigger] v[x].children[k] as int) < v.len()
                    &&& v[v[x].children[k] as int].parent == Some(x as usize)
                } by {
                    if !(x == parent && k == ov[x].children.len()) {
                        let c = ov[x].children[k];
                        assert(v[x].children[k] == c);
                        assert(ov[c as int].parent == Some(x as usize));
                    }
                }
                if let Some(q) = v[x].parent {
                    if x != child {
                        assert(ov[q as int].children.contains(x as usize));
                        let k = choose|k: int| 0 <= k < ov[q as int].children.len()
                            && ov[q as int].children[k] == x as usize;
                        assert(v[q as int].children[k] == x as usize);
                    } else {
                        assert(v[parent as int].children[ov[parent as int].children.len() as int] == child);
                    }
                }
                // the chain of x follows its parent
                if x == child {
                    assert(nc[x] == oc[x].push(parent).add(pc));
                    assert(oc[x] == Seq::<usize>::empty());
                    assert(nc[x] =~= seq![parent].add(nc[parent as int]));
                } else if let Some(q) = v[x].parent {
                    assert(oc[x] == seq![q].add(oc[q as int]));
                    if in_sub(x) {
                        assert(in_sub(q as int)) by {
                            let k = choose|k: int| 0 <= k < oc[x].len() && oc[x][k] == child;
                            if k > 0 {
                                assert(oc[q as int][k - 1] == child);
                            }
                        }
                        assert(nc[x] =~= seq![q].add(nc[q as int]));
                    } else {
                        assert(!in_sub(q as int)) by {
                            if in_sub(q as int) {
                                if q == child {
                                    assert(oc[x][0] == child);
                                } else {
                                    let k = choose|k: int| 0 <= k < oc[q as int].len() && oc[q as int][k] == child;
                                    assert(oc[x][k + 1] == child);
                                }
                            }
                        }
                    }
                }
                // no node is its own ancestor
                if in_sub(x) {
                    assert(!nc[x].contains(x as usize)) by {
                        if nc[x].contains(x as usize) {
                            let k = choose|k: int| 0 <= k < nc[x].len() && nc[x][k] == x as usize;
                            if k < oc[x].len() {
                                assert(oc[x][k] == x as usize);
                            } else if k == oc[x].len() {
                                assert(x == parent);
                            } else {
                                assert(pc[k - oc[x].len() - 1] == x as usize);
                                assert(pc.contains(x as usize));
                                old_g.lemma_chain_closed(x as usize, parent as int);
                                if x != child {
                                    assert(oc[x].contains(child));
                                    assert(pc.contains(child));
                                }
                            }
                        }
                    }
                    assert forall|k: int| 0 <= k < nc[x].len() implies (#[trigger] nc[x][k] as int) < v.len() by {
                        if k < oc[x].len() {
                        } else if k > oc[x].len() {
                            assert(nc[x][k] == pc[k - oc[x].len() - 1]);
                        }
                    }
                }
            }
            assert forall|x: int| 0 <= x < ov.len() implies #[trigger] self.ancestors(x) == if x == child
                || old_g.is_ancestor(child as int, x) {
                old_g.ancestors(x).push(parent).add(old_g.ancestors(parent as int))
            } else {
                old_g.ancestors(x)
            } by {}
        }
        Ok(())
    }

    /// The children of `x`, in the order they were added.
    pub fn children(&self, x: usize) -> (cs: &Vec<usize>)
        requires
            x < self.view().len(),
        ensures
            cs@ == self.view()[x as int].children,
    {
        &self.nodes[x].children
    }

    /// The parent of `x`, if it has one.
    pub fn parent(&self, x: usize) -> (p: Option<usize>)
        requires
            x < self.view().len(),
        ensures
            p == self.view()[x as int].parent,
    {
        self.nodes[x].parent
    }

    /// The geometry of `x`, if it is drawable.
    pub fn drawable(&self, x: usize) -> (d: Option<Drawable>)
        requires
            x < self.view().len(),
        ensures
            d == self.view()[x as int].drawable,
    {
        self.nodes[x].drawable
    }

    /// Gives `x` geometry to draw, or takes it away.
    pub fn set_drawable(&mut self, x: usize, drawable: Option<Drawable>)
        requires
            old(self).wf(),
            x < old(self).view().len(),
        ensures
            final(self).wf(),
            final(self).view() == old(self).view().update(
                x as int,
                NodeView { drawable, ..old(self).view()[x as int] },
            ),
            forall|y: int| #[trigger] final(self).ancestors(y) == old(self).ancestors(y),
    {
        let ghost ov = self.view();
        self.nodes[x].drawable = drawable;
        proof {
            let v = self.view();
            assert(v =~= ov.update(x as int, NodeView { drawable, ..ov[x as int] }));
            assert forall|y: int| 0 <= y < v.len() implies node_ok(v, self.chains@, y) by {
                assert(node_ok(ov, self.chains@, y));
                assert forall|k: int| 0 <= k < v[y].children.len() implies
                    v[v[y].children[k] as int].parent == ov[ov[y].children[k] as int].parent by {}
                if let Some(q) = v[y].parent {
                    assert(v[q as int].children == ov[q as int].children);
                }
            }
        }
    }

    /// The links of a node in a well-formed graph: its children are nodes
    /// whose parent it is, listed once each, and its parent lists it.
    pub proof fn lemma_links(&self, x: int)
        requires
            self.wf(),
            0 <= x < self.view().len(),
        ensures
            forall|k: int| 0 <= k < self.view()[x].children.len() ==> {
                &&& (#[trigger] self.view()[x].children[k] as int) < self.view().len()
                &&& self.view()[self.view()[x].children[k] as int].parent == Some(x as usize)
            },
            self.view()[x].children.no_duplicates(),
            self.view()[x].parent matches Some(p) ==> (p as int) < self.view().len()
                && self.view()[p as int].children.contains(x as usize),
    {
        assert(node_ok(self.view(), self.chains@, x));
    }

    /// Number of nodes.
    pub fn len(&self) -> (n: usize)
        ensures
            n == self.view().len(),
    {
        self.nodes.len()
    }
}

} // verus!
