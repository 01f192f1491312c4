use vstd::prelude::*;

use crate::errors::AttachError;
use crate::shape::Shape;

verus! {

/// A payload with its place in a tree: the parent, if there is one, and the
/// children in the order in which they were attached. Nodes name each other
/// by their index in the arena.
pub struct Node<T> {
    pub data: T,
    pub(crate) parent: Option<usize>,
    pub(crate) children: Vec<usize>,
}

/// The nodes of one or several trees. A node is named by the index it was
/// given when it was created, and keeps it.
pub struct Arena<T> {
    pub(crate) nodes: Vec<Node<T>>,
    pub(crate) depth: Ghost<Seq<nat>>,
}

/// Every entry of `ids` names one of `n` nodes.
pub open spec fn ids_valid(ids: Seq<usize>, n: nat) -> bool {
    forall|k: int| 0 <= k < ids.len() ==> (#[trigger] ids[k]) < n
}

impl<T> View for Arena<T> {
    type V = Seq<T>;

    /// The payloads, by node index.
    open(crate) spec fn view(&self) -> Seq<T> {
        Seq::new(self.nodes@.len(), |i: int| self.nodes@[i].data)
    }
}

impl<T> Arena<T> {
    /// The parent and child relations, by node index.
    pub open(crate) spec fn shape(&self) -> Shape {
        Shape {
            parents: Seq::new(self.nodes@.len(), |i: int| self.nodes@[i].parent),
            children: Seq::new(self.nodes@.len(), |i: int| self.nodes@[i].children@),
            depth: self.depth@,
        }
    }

    /// The relations are mutually consistent and free of cycles.
    pub open spec fn wf(&self) -> bool {
        &&& self.shape().wf()
        &&& self.shape().len() == self@.len()
    }

    /// An arena without nodes.
    pub fn new() -> (r: Self)
        ensures
            r.wf(),
            r@.len() == 0,
    {
        Arena { nodes: Vec::new(), depth: Ghost(Seq::empty()) }
    }

    /// The number of nodes.
    pub fn len(&self) -> (r: usize)
        ensures
            r == self@.len(),
    {
        self.nodes.len()
    }

    /// Adds a node that has no parent and no children, and returns its index.
    pub fn create_node(&mut self, data: T) -> (id: usize)
        requires
            old(self).wf(),
        ensures
            final(self).wf(),
            id == old(self)@.len(),
            final(self)@ == old(self)@.push(data),
            final(self).shape().parents == old(self).shape().parents.push(None),
            final(self).shape().children == old(self).shape().children.push(Seq::empty()),
    {
        let id = self.nodes.len();
        self.nodes.push(Node { data, parent: None, children: Vec::new() });
        let count = self.nodes.len();
        proof {
            assert(count == id + 1);
            self.depth@ = self.depth@.push(0);
            let before = old(self).shape();
            let after = self.shape();
            assert(self@ =~= old(self)@.push(data));
            assert(after.parents =~= before.parents.push(None));
            assert(after.children =~= before.children.push(Seq::empty()));
            assert forall|i: int| 0 <= i < after.len() implies #[trigger] after.link_ok(i) by {
                if i < before.len() {
                    assert(before.link_ok(i));
                }
            }
            assert forall|p: int, k: int|
                0 <= p < after.len() && 0 <= k < after.children[p].len() implies #[trigger] after.child_ok(
                p,
                k,
            ) by {
                assert(before.child_ok(p, k));
            }
            assert forall|p: int| 0 <= p < after.len() implies (#[trigger] after.children[p]).no_duplicates() by {
                if p < before.len() {
                    assert(before.children[p].no_duplicates());
                }
            }
        }
        id
    }

    /// The payload of node `id`.
    pub fn get(&self, id: usize) -> (r: &T)
        requires
            id < self@.len(),
        ensures
            *r == self@[id as int],
    {
        &self.nodes[id].data
    }

    /// The payload of node `id`, to be changed in place. The relations stay
    /// as they are.
    pub fn get_mut(&mut self, id: usize) -> (r: &mut T)
        requires
            id < old(self)@.len(),
        ensures
            *r == old(self)@[id as int],
            final(self)@ =~= old(self)@.update(id as int, *final(r)),
            final(self).shape() =~= old(self).shape(),
    {
        &mut self.nodes[id].data
    }

    /// The parent of node `id`.
    pub fn parent(&self, id: usize) -> (r: Option<usize>)
        requires
            id < self@.len(),
        ensures
            r == self.shape().parents[id as int],
    {
        self.nodes[id].parent
    }

    /// The children of node `id`, in the order of attachment.
    pub fn children(&self, id: usize) -> (r: &Vec<usize>)
        requires
            id < self@.len(),
        ensures
            r@ == self.shape().children[id as int],
    {
        &self.nodes[id].children
    }

    /// Makes `child` the last child of `parent`.
    ///
    /// Refused, with nothing changed, where an index names no node, where
    /// `child` already has a parent, and where `child` is `parent` or one of
    /// its ancestors.
    pub fn attach(&mut self, parent: usize, child: usize) -> (r: Result<(), AttachError>)
        requires
            old(self).wf(),
        ensures
            final(self).wf(),
            final(self)@ == old(self)@,
            r == old(self).shape().attach_check(parent, child),
            parent < old(self)@.len() && child < old(self)@.len() && old(self).shape().parents[child as int] is Some
                ==> r == Err::<(), AttachError>(AttachError::AlreadyAttached),
            r is Err ==> final(self).shape() == old(self).shape(),
            r is Ok ==> final(self).shape() == old(self).shape().attached(parent, child),
    {
        if parent >= self.nodes.len() || child >= self.nodes.len() {
            return Err(AttachError::NoSuchNode);
        }
        if self.nodes[child].parent.is_some() {
            return Err(AttachError::AlreadyAttached);
        }
        let ghost before = self.shape();
        let mut top = parent;
        let mut next = self.nodes[top].parent;
        while next.is_some()
            invariant
                self.wf(),
                before == self.shape(),
                top < self.nodes@.len(),
                next == before.parents[top as int],
                before.has(parent as int),
                before.root(top as int) == before.root(parent as int),
            decreases before.depth[top as int],
        {
            proof {
                before.lemma_root_of_child(top as int);
                assert(before.link_ok(top as int));
            }
            top = next.unwrap();
            next = self.nodes[top].parent;
        }
        proof {
            before.lemma_ancestors(parent as int);
            assert(before.ancestors(top as int) == seq![top]);
            assert(before.ancestors(parent as int).contains(before.root(parent as int)));
            if before.ancestors(parent as int).contains(child) {
                before.lemma_parentless_ancestor_is_root(parent as int, child);
            }
        }
        if top == child {
            return Err(AttachError::Cycle);
        }
        self.nodes[child].parent = Some(parent);
        self.nodes[parent].children.push(child);
        proof {
            self.depth@ = before.attached(parent, child).depth;
            before.lemma_attached_wf(parent, child);
            assert(self.shape() =~= before.attached(parent, child));
            assert(self@ =~= old(self)@);
        }
        Ok(())
    }

    /// The path from node `id` up to the root of its tree, `id` first.
    pub fn ancestors(&self, id: usize) -> (r: Vec<usize>)
        requires
            self.wf(),
            id < self@.len(),
        ensures
            r@ == self.shape().ancestors(id as int),
    {
        let ghost shape = self.shape();
        let mut out: Vec<usize> = Vec::new();
        let mut cur = id;
        let mut next = self.nodes[cur].parent;
        out.push(cur);
        proof {
            let rest = match next {
                Some(p) => shape.ancestors(p as int),
                None => Seq::empty(),
            };
            shape.lemma_ancestors_step(id as int);
            assert(shape.ancestors(id as int) =~= out@ + rest);
        }
        while next.is_some()
            invariant
                self.wf(),
                shape == self.shape(),
                shape.has(id as int),
                cur < self.nodes@.len(),
                next == shape.parents[cur as int],
                shape.ancestors(id as int) == out@ + (match next {
                    Some(p) => shape.ancestors(p as int),
                    None => Seq::empty(),
                }),
            decreases shape.depth[cur as int],
        {
            proof {
                shape.lemma_ancestors_step(cur as int);
            }
            let ghost tail = shape.ancestors(next.unwrap() as int);
            cur = next.unwrap();
            next = self.nodes[cur].parent;
            out.push(cur);
            proof {
                let rest = match next {
                    Some(p) => shape.ancestors(p as int),
                    None => Seq::empty(),
                };
                shape.lemma_ancestors_step(cur as int);
                assert(tail =~= seq![cur] + rest);
                assert(out@ + rest =~= out@.drop_last() + tail);
            }
        }
        assert(out@ + Seq::<usize>::empty() =~= out@);
        out
    }

    /// The subtree below node `id` in depth-first pre-order: `id`, then the
    /// subtrees of its children in the order of attachment.
    pub fn descendants(&self, id: usize) -> (r: Vec<usize>)
        requires
            self.wf(),
            id < self@.len(),
        ensures
            r@ == self.shape().preorder(id as int),
    {
        let mut out: Vec<usize> = Vec::new();
        self.collect(id, &mut out);
        assert(Seq::<usize>::empty() + self.shape().preorder(id as int) =~= self.shape().preorder(id as int));
        out
    }

    fn collect(&self, id: usize, out: &mut Vec<usize>)
        requires
            self.wf(),
            id < self@.len(),
        ensures
            final(out)@ == old(out)@ + self.shape().preorder(id as int),
        decreases self.shape().len() - self.shape().depth[id as int],
    {
        let ghost shape = self.shape();
        proof {
            shape.lemma_depth_bound(id as int);
            shape.lemma_preorder_step(id as int);
        }
        out.push(id);
        let count = self.nodes[id].children.len();
        let mut k: usize = 0;
        while k < count
            invariant
                self.wf(),
                shape == self.shape(),
                id < self.nodes@.len(),
                count == shape.children[id as int].len(),
                k <= count,
                shape.depth[id as int] < shape.len(),
                out@ + shape.forest(id as int, k as int) == old(out)@ + shape.preorder(id as int),
            decreases count - k,
        {
            let child = self.nodes[id].children[k];
            proof {
                shape.lemma_forest_step(id as int, k as int);
                shape.lemma_depth_bound(child as int);
            }
            let ghost grown = out@;
            self.collect(child, out);
            proof {
                assert(out@ + shape.forest(id as int, k + 1) =~= grown + shape.forest(id as int, k as int));
            }
            k += 1;
        }
        assert(out@ + Seq::<usize>::empty() =~= out@);
    }

    /// Applies `f` to the payload of each node on the path from `id` up to
    /// the root, `id` first, and collects what it returns.
    pub fn map_ancestors<U, F: Fn(&T) -> U>(&self, id: usize, f: F) -> (r: Vec<U>)
        requires
            self.wf(),
            id < self@.len(),
            forall|k: int|
                0 <= k < self.shape().ancestors(id as int).len() ==> call_requires(
                    f,
                    (&self@[(#[trigger] self.shape().ancestors(id as int)[k]) as int],),
                ),
        ensures
            r@.len() == self.shape().ancestors(id as int).len(),
            forall|k: int|
                0 <= k < r@.len() ==> call_ensures(
                    f,
                    (&self@[self.shape().ancestors(id as int)[k] as int],),
                    #[trigger] r@[k],
                ),
    {
        let order = self.ancestors(id);
        proof {
            self.shape().lemma_ancestors(id as int);
        }
        self.map_nodes(&order, f)
    }

    /// Applies `f` to the payload of each node of the subtree below `id`, in
    /// depth-first pre-order, and collects what it returns. The order of the
    /// visit is fixed before `f` is first applied.
    pub fn map_descendants<U, F: Fn(&T) -> U>(&self, id: usize, f: F) -> (r: Vec<U>)
        requires
            self.wf(),
            id < self@.len(),
            forall|k: int|
                0 <= k < self.shape().preorder(id as int).len() ==> call_requires(
                    f,
                    (&self@[(#[trigger] self.shape().preorder(id as int)[k]) as int],),
                ),
        ensures
            r@.len() == self.shape().preorder(id as int).len(),
            forall|k: int|
                0 <= k < r@.len() ==> call_ensures(
                    f,
                    (&self@[self.shape().preorder(id as int)[k] as int],),
                    #[trigger] r@[k],
                ),
    {
        let order = self.descendants(id);
        proof {
            self.shape().lemma_preorder_parents(id as int);
        }
        self.map_nodes(&order, f)
    }

    fn map_nodes<U, F: Fn(&T) -> U>(&self, order: &Vec<usize>, f: F) -> (r: Vec<U>)
        requires
            forall|k: int| 0 <= k < order@.len() ==> (#[trigger] order@[k]) < self@.len(),
            forall|k: int| 0 <= k < order@.len() ==> call_requires(f, (&self@[(#[trigger] order@[k]) as int],)),
        ensures
            r@.len() == order@.len(),
            forall|k: int| 0 <= k < r@.len() ==> call_ensures(f, (&self@[order@[k] as int],), #[trigger] r@[k]),
    {
        let mut out: Vec<U> = Vec::new();
        let mut k: usize = 0;
        while k < order.len()
            invariant
                k <= order@.len(),
                out@.len() == k,
                forall|j: int| 0 <= j < order@.len() ==> (#[trigger] order@[j]) < self@.len(),
                forall|j: int| 0 <= j < order@.len() ==> call_requires(f, (&self@[(#[trigger] order@[j]) as int],)),
                forall|j: int| 0 <= j < k ==> call_ensures(f, (&self@[order@[j] as int],), #[trigger] out@[j]),
            decreases order@.len() - k,
        {
            let id = order[k];
            let item = f(self.get(id));
            out.push(item);
            k += 1;
        }
        out
    }
}

} // verus!
