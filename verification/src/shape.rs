use vstd::prelude::*;

use crate::errors::AttachError;

verus! {

/// The parent and child relations of the nodes of an arena, as plain values.
///
/// Node `i` has the parent `parents[i]` and the children `children[i]`, in
/// the order in which they were attached. `depth[i]` counts the edges from
/// node `i` up to the root of its tree; it is what shows that there is no
/// cycle.
#[verifier::ext_equal]
pub struct Shape {
    pub parents: Seq<Option<usize>>,
    pub children: Seq<Seq<usize>>,
    pub depth: Seq<nat>,
}

impl Shape {
    /// The number of nodes.
    pub open spec fn len(self) -> nat {
        self.parents.len()
    }

    /// Whether `id` names a node.
    pub open spec fn has(self, id: int) -> bool {
        0 <= id < self.len()
    }

    /// Node `i` and its parent agree: a root has depth zero, any other node
    /// lies one below its parent and is listed among the parent's children.
    pub open spec fn link_ok(self, i: int) -> bool {
        match self.parents[i] {
            None => self.depth[i] == 0,
            Some(p) => {
                &&& p < self.len()
                &&& self.depth[i] == self.depth[p as int] + 1
                &&& self.children[p as int].contains(i as usize)
            },
        }
    }

    /// The `k`-th child of `p` is a node whose parent is `p`.
    pub open spec fn child_ok(self, p: int, k: int) -> bool {
        &&& self.children[p][k] < self.len()
        &&& self.parents[self.children[p][k] as int] == Some(p as usize)
    }

    /// The relations are mutually consistent and free of cycles.
    pub open spec fn wf(self) -> bool {
        &&& self.children.len() == self.len()
        &&& self.depth.len() == self.len()
        &&& self.len() <= usize::MAX
        &&& forall|i: int| 0 <= i < self.len() ==> #[trigger] self.link_ok(i)
        &&& forall|p: int, k: int|
            0 <= p < self.len() && 0 <= k < self.children[p].len() ==> #[trigger] self.child_ok(p, k)
        &&& forall|p: int| 0 <= p < self.len() ==> (#[trigger] self.children[p]).no_duplicates()
    }

    /// The path from `id` up to the root of its tree, `id` first.
    pub open spec fn ancestors(self, id: int) -> Seq<usize>
        decreases self.depth[id],
        when self.wf() && self.has(id)
        via Self::ancestors_decreases
    {
        match self.parents[id] {
            None => seq![id as usize],
            Some(p) => seq![id as usize] + self.ancestors(p as int),
        }
    }

    #[via_fn]
    proof fn ancestors_decreases(self, id: int) {
        assert(self.link_ok(id));
    }

    /// The root of the tree that holds `id`.
    pub open spec fn root(self, id: int) -> usize {
        self.ancestors(id).last()
    }

    /// The subtree below `id` in depth-first pre-order: `id`, then the
    /// subtrees of its children in the order of attachment.
    pub open spec fn preorder(self, id: int) -> Seq<usize>
        decreases self.len() - self.depth[id], 0int,
        when self.wf() && self.has(id)
        via Self::preorder_decreases
    {
        seq![id as usize] + self.forest(id, 0)
    }

    /// The subtrees of the children of `id` from the `k`-th on, one after
    /// the other.
    pub open spec fn forest(self, id: int, k: int) -> Seq<usize>
        decreases self.len() - self.depth[id] - 1, self.children[id].len() - k,
        when self.wf() && self.has(id) && 0 <= k
        via Self::forest_decreases
    {
        if k < self.children[id].len() {
            self.preorder(self.children[id][k] as int) + self.forest(id, k + 1)
        } else {
            Seq::empty()
        }
    }

    #[via_fn]
    proof fn preorder_decreases(self, id: int) {
        self.lemma_depth_bound(id);
    }

    #[via_fn]
    proof fn forest_decreases(self, id: int, k: int) {
        self.lemma_depth_bound(id);
        if k < self.children[id].len() {
            assert(self.child_ok(id, k));
            assert(self.link_ok(self.children[id][k] as int));
        }
    }

    /// The path of a root is the root alone; any other path is the node
    /// followed by the path of its parent.
    pub proof fn lemma_ancestors_step(self, id: int)
        requires
            self.wf(),
            self.has(id),
        ensures
            self.ancestors(id) == (match self.parents[id] {
                None => seq![id as usize],
                Some(p) => seq![id as usize] + self.ancestors(p as int),
            }),
            self.parents[id] is Some ==> self.has(self.parents[id].unwrap() as int) && self.depth[id]
                == self.depth[self.parents[id].unwrap() as int] + 1,
    {
        assert(self.link_ok(id));
    }

    /// The subtrees of the children from the `k`-th on are the subtree of the
    /// `k`-th child followed by those of the later children.
    pub proof fn lemma_forest_step(self, id: int, k: int)
        requires
            self.wf(),
            self.has(id),
            0 <= k < self.children[id].len(),
        ensures
            self.has(self.children[id][k] as int),
            self.parents[self.children[id][k] as int] == Some(id as usize),
            self.depth[self.children[id][k] as int] == self.depth[id] + 1,
            self.forest(id, k) == self.preorder(self.children[id][k] as int) + self.forest(id, k + 1),
    {
        self.lemma_depth_bound(id);
        assert(self.child_ok(id, k));
        assert(self.link_ok(self.children[id][k] as int));
    }

    /// A subtree is its root followed by the subtrees of the root's children.
    pub proof fn lemma_preorder_step(self, id: int)
        requires
            self.wf(),
            self.has(id),
        ensures
            self.preorder(id) == seq![id as usize] + self.forest(id, 0),
            self.forest(id, self.children[id].len() as int) == Seq::<usize>::empty(),
    {
        self.lemma_depth_bound(id);
    }

    /// The path from a node to its root has one node for each depth from the
    /// node's own down to zero.
    pub proof fn lemma_ancestors(self, id: int)
        requires
            self.wf(),
            self.has(id),
        ensures
            self.ancestors(id).len() == self.depth[id] + 1,
            self.ancestors(id)[0] == id,
            self.parents[self.root(id) as int] is None,
            forall|k: int|
                0 <= k < self.ancestors(id).len() ==> {
                    &&& (#[trigger] self.ancestors(id)[k]) < self.len()
                    &&& self.depth[self.ancestors(id)[k] as int] == self.depth[id] - k
                },
            forall|k: int|
                0 <= k < self.ancestors(id).len() - 1 ==> self.parents[(#[trigger] self.ancestors(id)[k]) as int]
                    == Some(self.ancestors(id)[k + 1]),
        decreases self.depth[id],
    {
        assert(self.link_ok(id));
        match self.parents[id] {
            None => {},
            Some(p) => {
                self.lemma_ancestors(p as int);
                let up = self.ancestors(p as int);
                let path = self.ancestors(id);
                assert(path == seq![id as usize] + up);
                assert forall|k: int| 0 <= k < path.len() implies {
                    &&& (#[trigger] path[k]) < self.len()
                    &&& self.depth[path[k] as int] == self.depth[id] - k
                } by {
                    if k > 0 {
                        assert(path[k] == up[k - 1]);
                    }
                }
                assert forall|k: int| 0 <= k < path.len() - 1 implies self.parents[(#[trigger] path[k]) as int]
                    == Some(path[k + 1]) by {
                    assert(path[k + 1] == up[k]);
                    if k > 0 {
                        assert(path[k] == up[k - 1]);
                    }
                }
                assert(path.last() == up.last());
            },
        }
    }

    /// The path from a node to its root names no node twice.
    pub proof fn lemma_ancestors_distinct(self, id: int)
        requires
            self.wf(),
            self.has(id),
        ensures
            self.ancestors(id).no_duplicates(),
            self.ancestors(id).reverse().no_duplicates(),
    {
        self.lemma_ancestors(id);
        let path = self.ancestors(id);
        assert forall|j: int, k: int| 0 <= j < path.len() && 0 <= k < path.len() && j != k implies path[j]
            != path[k] by {
            assert(self.depth[path[j] as int] == self.depth[id] - j);
            assert(self.depth[path[k] as int] == self.depth[id] - k);
        }
        let back = path.reverse();
        assert forall|j: int, k: int| 0 <= j < back.len() && 0 <= k < back.len() && j != k implies back[j]
            != back[k] by {
            assert(back[j] == path[path.len() - 1 - j]);
            assert(back[k] == path[path.len() - 1 - k]);
        }
    }

    /// No node lies deeper than there are nodes.
    pub proof fn lemma_depth_bound(self, id: int)
        requires
            self.wf(),
            self.has(id),
        ensures
            self.depth[id] < self.len(),
    {
        self.lemma_ancestors(id);
        self.lemma_ancestors_distinct(id);
        lemma_distinct_below(self.ancestors(id), self.len());
    }

    /// A node and its parent have the same root.
    pub proof fn lemma_root_of_child(self, id: int)
        requires
            self.wf(),
            self.has(id),
            self.parents[id] is Some,
        ensures
            self.has(self.parents[id].unwrap() as int),
            self.root(id) == self.root(self.parents[id].unwrap() as int),
    {
        assert(self.link_ok(id));
        let p = self.parents[id].unwrap();
        self.lemma_ancestors(p as int);
        assert(self.ancestors(id) == seq![id as usize] + self.ancestors(p as int));
    }

    /// The parent of the `i`-th entry of `s` stands at an earlier place of `s`.
    pub open spec fn comes_after_parent(self, s: Seq<usize>, i: int) -> bool {
        exists|j: int| 0 <= j < i && self.parents[s[i] as int] == Some(#[trigger] s[j])
    }

    /// In a subtree in pre-order the root comes first, and every other node
    /// comes after its parent.
    pub proof fn lemma_preorder_parents(self, id: int)
        requires
            self.wf(),
            self.has(id),
        ensures
            self.preorder(id).len() >= 1,
            self.preorder(id)[0] == id,
            forall|i: int| 0 <= i < self.preorder(id).len() ==> (#[trigger] self.preorder(id)[i]) < self.len(),
            forall|i: int|
                1 <= i < self.preorder(id).len() ==> #[trigger] self.comes_after_parent(self.preorder(id), i),
        decreases self.len() - self.depth[id], 0int,
    {
        self.lemma_depth_bound(id);
        self.lemma_preorder_step(id);
        self.lemma_forest_parents(id, 0);
        let f = self.forest(id, 0);
        let s = self.preorder(id);
        assert forall|i: int| 0 <= i < s.len() implies (#[trigger] s[i]) < self.len() by {
            if i > 0 {
                assert(s[i] == f[i - 1]);
            }
        }
        assert forall|i: int| 1 <= i < s.len() implies #[trigger] self.comes_after_parent(s, i) by {
            assert(s[i] == f[i - 1]);
            if self.parents[f[i - 1] as int] == Some(id as usize) {
                assert(s[0] == id);
            } else {
                assert(self.comes_after_parent(f, i - 1));
                let j = choose|j: int| 0 <= j < i - 1 && self.parents[f[i - 1] as int] == Some(#[trigger] f[j]);
                assert(s[j + 1] == f[j]);
            }
        }
    }

    /// In the subtrees of the children of `id`, every node comes after its
    /// parent or is a child of `id`.
    pub proof fn lemma_forest_parents(self, id: int, k: int)
        requires
            self.wf(),
            self.has(id),
            0 <= k <= self.children[id].len(),
        ensures
            forall|i: int| 0 <= i < self.forest(id, k).len() ==> (#[trigger] self.forest(id, k)[i]) < self.len(),
            forall|i: int|
                0 <= i < self.forest(id, k).len() ==> self.parents[self.forest(id, k)[i] as int] == Some(
                    id as usize,
                ) || #[trigger] self.comes_after_parent(self.forest(id, k), i),
        decreases self.len() - self.depth[id] - 1, self.children[id].len() - k,
    {
        self.lemma_depth_bound(id);
        self.lemma_preorder_step(id);
        if k < self.children[id].len() {
            self.lemma_forest_step(id, k);
            let c = self.children[id][k] as int;
            self.lemma_preorder_parents(c);
            self.lemma_forest_parents(id, k + 1);
            let pre = self.preorder(c);
            let rest = self.forest(id, k + 1);
            let f = self.forest(id, k);
            assert(f == pre + rest);
            assert forall|i: int| 0 <= i < f.len() implies (#[trigger] f[i]) < self.len() by {
                if i < pre.len() {
                    assert(f[i] == pre[i]);
                } else {
                    assert(f[i] == rest[i - pre.len()]);
                }
            }
            assert forall|i: int| 0 <= i < f.len() implies self.parents[f[i] as int] == Some(id as usize)
                || #[trigger] self.comes_after_parent(f, i) by {
                if i == 0 {
                    assert(f[0] == pre[0]);
                } else if i < pre.len() {
                    assert(f[i] == pre[i]);
                    assert(self.comes_after_parent(pre, i));
                    let j = choose|j: int| 0 <= j < i && self.parents[pre[i] as int] == Some(#[trigger] pre[j]);
                    assert(f[j] == pre[j]);
                } else {
                    let m = i - pre.len();
                    assert(f[i] == rest[m]);
                    if self.parents[rest[m] as int] != Some(id as usize) {
                        assert(self.comes_after_parent(rest, m));
                        let j = choose|j: int|
                            0 <= j < m && self.parents[rest[m] as int] == Some(#[trigger] rest[j]);
                        assert(f[pre.len() + j] == rest[j]);
                    }
                }
            }
        } else {
            assert(k == self.children[id].len());
        }
    }

    /// `x` lies at or below `id`: the path from `x` to its root passes `id`.
    pub open spec fn is_below(self, id: int, x: int) -> bool {
        &&& self.has(x)
        &&& self.depth[x] >= self.depth[id]
        &&& self.ancestors(x)[self.depth[x] - self.depth[id]] == id
    }

    /// `x` lies at or below one of the children of `id` from the `k`-th on.
    pub open spec fn is_below_child(self, id: int, k: int, x: int) -> bool {
        &&& self.has(x)
        &&& self.depth[x] > self.depth[id]
        &&& exists|j: int|
            k <= j < self.children[id].len() && #[trigger] self.children[id][j] == self.ancestors(
                x,
            )[self.depth[x] - self.depth[id] - 1]
    }

    /// A subtree in pre-order names no node twice, and every node it names
    /// lies at or below its root.
    pub proof fn lemma_preorder_distinct(self, id: int)
        requires
            self.wf(),
            self.has(id),
        ensures
            self.preorder(id).no_duplicates(),
            forall|i: int| 0 <= i < self.preorder(id).len() ==> self.is_below(id, (#[trigger] self.preorder(id)[i]) as int),
        decreases self.len() - self.depth[id], 0int,
    {
        self.lemma_depth_bound(id);
        self.lemma_preorder_step(id);
        self.lemma_forest_distinct(id, 0);
        self.lemma_ancestors(id);
        let f = self.forest(id, 0);
        let s = self.preorder(id);
        assert forall|i: int| 0 <= i < s.len() implies self.is_below(id, (#[trigger] s[i]) as int) by {
            if i > 0 {
                let x = f[i - 1] as int;
                assert(s[i] == f[i - 1]);
                assert(self.is_below_child(id, 0, x));
                let j = choose|j: int|
                    0 <= j < self.children[id].len() && #[trigger] self.children[id][j] == self.ancestors(
                        x,
                    )[self.depth[x] - self.depth[id] - 1];
                assert(self.child_ok(id, j));
                self.lemma_ancestors(x);
                let m = self.depth[x] - self.depth[id] - 1;
                assert(self.parents[self.ancestors(x)[m] as int] == Some(self.ancestors(x)[m + 1]));
            }
        }
        assert forall|i: int, j: int| 0 <= i < s.len() && 0 <= j < s.len() && i != j implies s[i] != s[j] by {
            if i > 0 {
                assert(s[i] == f[i - 1]);
                assert(self.is_below_child(id, 0, f[i - 1] as int));
            }
            if j > 0 {
                assert(s[j] == f[j - 1]);
                assert(self.is_below_child(id, 0, f[j - 1] as int));
            }
        }
    }

    /// The subtrees of the children of `id` name no node twice, and every
    /// node they name lies at or below one of those children.
    pub proof fn lemma_forest_distinct(self, id: int, k: int)
        requires
            self.wf(),
            self.has(id),
            0 <= k <= self.children[id].len(),
        ensures
            self.forest(id, k).no_duplicates(),
            forall|i: int|
                0 <= i < self.forest(id, k).len() ==> self.is_below_child(id, k, (#[trigger] self.forest(id, k)[i]) as int),
        decreases self.len() - self.depth[id] - 1, self.children[id].len() - k,
    {
        self.lemma_depth_bound(id);
        self.lemma_preorder_step(id);
        if k < self.children[id].len() {
            self.lemma_forest_step(id, k);
            let c = self.children[id][k] as int;
            self.lemma_preorder_distinct(c);
            self.lemma_forest_distinct(id, k + 1);
            let pre = self.preorder(c);
            let rest = self.forest(id, k + 1);
            let f = self.forest(id, k);
            assert(f == pre + rest);
            assert forall|i: int| 0 <= i < f.len() implies self.is_below_child(id, k, (#[trigger] f[i]) as int) by {
                if i < pre.len() {
                    assert(f[i] == pre[i]);
                    assert(self.is_below(c, pre[i] as int));
                    assert(self.children[id][k] == c);
                } else {
                    let m = i - pre.len();
                    assert(f[i] == rest[m]);
                    assert(self.is_below_child(id, k + 1, rest[m] as int));
                    let x = rest[m] as int;
                    let j = choose|j: int|
                        k + 1 <= j < self.children[id].len() && #[trigger] self.children[id][j] == self.ancestors(
                            x,
                        )[self.depth[x] - self.depth[id] - 1];
                    assert(k <= j);
                }
            }
            assert forall|i: int, j: int| 0 <= i < f.len() && 0 <= j < f.len() && i != j implies f[i] != f[j] by {
                if i < pre.len() && j < pre.len() {
                    assert(f[i] == pre[i] && f[j] == pre[j]);
                } else if i >= pre.len() && j >= pre.len() {
                    assert(f[i] == rest[i - pre.len()] && f[j] == rest[j - pre.len()]);
                } else {
                    let a = if i < pre.len() { i } else { j };
                    let b = if i < pre.len() { j } else { i };
                    assert(f[a] == pre[a]);
                    assert(f[b] == rest[b - pre.len()]);
                    let x = pre[a] as int;
                    let y = rest[b - pre.len()] as int;
                    assert(self.is_below(c, x));
                    assert(self.is_below_child(id, k + 1, y));
                    if x == y {
                        let n = choose|n: int|
                            k + 1 <= n < self.children[id].len() && #[trigger] self.children[id][n]
                                == self.ancestors(y)[self.depth[y] - self.depth[id] - 1];
                        assert(self.children[id][n] == self.children[id][k]);
                        assert(self.children[id].no_duplicates());
                    }
                }
            }
        }
    }

    /// The subtrees of the children of `id` from the `k`-th on hold the
    /// subtree of each of those children.
    pub proof fn lemma_forest_holds_subtree(self, id: int, k: int, j: int, x: usize)
        requires
            self.wf(),
            self.has(id),
            0 <= k <= j < self.children[id].len(),
            self.preorder(self.children[id][j] as int).contains(x),
        ensures
            self.forest(id, k).contains(x),
        decreases j - k,
    {
        self.lemma_forest_step(id, k);
        let pre = self.preorder(self.children[id][k] as int);
        let rest = self.forest(id, k + 1);
        if k == j {
            let i = choose|i: int| 0 <= i < pre.len() && pre[i] == x;
            assert((pre + rest)[i] == x);
        } else {
            self.lemma_forest_holds_subtree(id, k + 1, j, x);
            let i = choose|i: int| 0 <= i < rest.len() && rest[i] == x;
            assert((pre + rest)[pre.len() + i] == x);
        }
    }

    /// A subtree in pre-order names every node that lies at or below its
    /// root.
    pub proof fn lemma_preorder_complete(self, id: int, x: int)
        requires
            self.wf(),
            self.has(id),
            self.is_below(id, x),
        ensures
            self.preorder(id).contains(x as usize),
        decreases self.len() - self.depth[id],
    {
        self.lemma_depth_bound(id);
        self.lemma_preorder_step(id);
        self.lemma_ancestors(x);
        let s = self.preorder(id);
        if self.depth[x] == self.depth[id] {
            assert(s[0] == id);
        } else {
            let m = self.depth[x] - self.depth[id] - 1;
            let c = self.ancestors(x)[m] as int;
            assert(self.parents[self.ancestors(x)[m] as int] == Some(self.ancestors(x)[m + 1]));
            assert(self.link_ok(c));
            let j = choose|j: int| 0 <= j < self.children[id].len() && self.children[id][j] == c as usize;
            assert(self.is_below(c, x));
            self.lemma_depth_bound(c);
            self.lemma_preorder_complete(c, x);
            self.lemma_forest_holds_subtree(id, 0, j, x as usize);
            let f = self.forest(id, 0);
            let i = choose|i: int| 0 <= i < f.len() && f[i] == x as usize;
            assert(s[i + 1] == x as usize);
        }
    }

    /// Whether `child` may be put under `parent`, and if not, why.
    pub open spec fn attach_check(self, parent: usize, child: usize) -> Result<(), AttachError> {
        if !self.has(parent as int) || !self.has(child as int) {
            Err(AttachError::NoSuchNode)
        } else if self.parents[child as int] is Some {
            Err(AttachError::AlreadyAttached)
        } else if self.ancestors(parent as int).contains(child) {
            Err(AttachError::Cycle)
        } else {
            Ok(())
        }
    }

    /// The relations after `child` was put under `parent` as its last child.
    /// The tree below `child` comes to lie below `parent`.
    pub open spec fn attached(self, parent: usize, child: usize) -> Shape {
        Shape {
            parents: self.parents.update(child as int, Some(parent)),
            children: self.children.update(parent as int, self.children[parent as int].push(child)),
            depth: Seq::new(
                self.len(),
                |i: int|
                    if self.root(i) == child {
                        self.depth[i] + self.depth[parent as int] + 1
                    } else {
                        self.depth[i]
                    },
            ),
        }
    }

    /// Attaching where `attach_check` allows it keeps the relations
    /// consistent and free of cycles.
    pub proof fn lemma_attached_wf(self, parent: usize, child: usize)
        requires
            self.wf(),
            self.attach_check(parent, child) is Ok,
        ensures
            self.attached(parent, child).wf(),
    {
        let after = self.attached(parent, child);
        self.lemma_ancestors(parent as int);
        assert(self.ancestors(parent as int).contains(self.root(parent as int)));
        assert(self.root(parent as int) != child);
        assert(self.ancestors(child as int) == seq![child]);
        assert(self.link_ok(child as int));
        assert forall|i: int| 0 <= i < after.len() implies #[trigger] after.link_ok(i) by {
            assert(self.link_ok(i));
            if i == child {
                assert(after.children[parent as int].last() == child);
            } else {
                match self.parents[i] {
                    None => {
                        assert(self.ancestors(i) == seq![i as usize]);
                    },
                    Some(q) => {
                        self.lemma_root_of_child(i);
                        if q == parent {
                            let k = choose|k: int|
                                0 <= k < self.children[q as int].len() && self.children[q as int][k] == i;
                            assert(after.children[q as int][k] == i);
                        }
                    },
                }
            }
        }
        assert forall|p: int, k: int|
            0 <= p < after.len() && 0 <= k < after.children[p].len() implies #[trigger] after.child_ok(p, k) by {
            if p == parent && k == self.children[p].len() {
            } else {
                assert(self.child_ok(p, k));
            }
        }
        assert forall|p: int| 0 <= p < after.len() implies (#[trigger] after.children[p]).no_duplicates() by {
            assert(self.children[p].no_duplicates());
            if p == parent {
                let old_kids = self.children[p];
                let kids = after.children[p];
                assert forall|j: int, k: int| 0 <= j < kids.len() && 0 <= k < kids.len() && j != k implies kids[j]
                    != kids[k] by {
                    if j == old_kids.len() {
                        assert(self.child_ok(p, k));
                    } else if k == old_kids.len() {
                        assert(self.child_ok(p, j));
                    }
                }
            }
        }
    }

    /// A node that lies on the path from `id` to its root and has no parent
    /// is that root.
    pub proof fn lemma_parentless_ancestor_is_root(self, id: int, a: usize)
        requires
            self.wf(),
            self.has(id),
            self.ancestors(id).contains(a),
            self.parents[a as int] is None,
        ensures
            self.root(id) == a,
    {
        self.lemma_ancestors(id);
        let path = self.ancestors(id);
        let k = choose|k: int| 0 <= k < path.len() && path[k] == a;
        if k < path.len() - 1 {
            assert(self.parents[path[k] as int] == Some(path[k + 1]));
        }
    }
}

/// A sequence of distinct numbers below `n` has at most `n` entries.
pub proof fn lemma_distinct_below(s: Seq<usize>, n: nat)
    requires
        forall|k: int| 0 <= k < s.len() ==> (#[trigger] s[k]) < n,
        forall|j: int, k: int| 0 <= j < k < s.len() ==> s[j] != s[k],
    ensures
        s.len() <= n,
    decreases n,
{
    if n == 0 {
        if s.len() > 0 {
            assert(s[0] < n);
        }
    } else {
        let top = (n - 1) as usize;
        if exists|k: int| 0 <= k < s.len() && s[k] == top {
            let k = choose|k: int| 0 <= k < s.len() && s[k] == top;
            let rest = s.subrange(0, k) + s.subrange(k + 1, s.len() as int);
            assert forall|i: int| 0 <= i < rest.len() implies (#[trigger] rest[i]) < (n - 1) as nat by {
                if i < k {
                    assert(rest[i] == s[i]);
                } else {
                    assert(rest[i] == s[i + 1]);
                }
            }
            assert forall|i: int, j: int| 0 <= i < j < rest.len() implies rest[i] != rest[j] by {
                let si = if i < k { i } else { i + 1 };
                let sj = if j < k { j } else { j + 1 };
                assert(rest[i] == s[si]);
                assert(rest[j] == s[sj]);
            }
            lemma_distinct_below(rest, (n - 1) as nat);
        } else {
            assert forall|i: int| 0 <= i < s.len() implies (#[trigger] s[i]) < (n - 1) as nat by {
                assert(s[i] < n);
                assert(s[i] != top);
            }
            lemma_distinct_below(s, (n - 1) as nat);
        }
    }
}

} // verus!
