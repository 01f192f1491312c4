use vstd::prelude::*;

use crate::arena::{ids_valid, Arena};
use crate::chain::RcKinematicChain;
use crate::errors::JointError;
use crate::fk::{
    assign_outcome, assign_result, first_named, has_link_named, joint_angles_spec, joint_limits_spec,
    joint_names_spec, link_names_spec, movable_ids, transform_views, views, world, world_all,
};
use crate::fk_proofs::{
    lemma_movable_ids, lemma_movable_ids_distinct, lemma_stored_values_are_read_back, lemma_world_same_locals,
    lemma_world_step,
};
use crate::link_access::{
    assign_joint_angles, joint_angles_of, joint_limits_of, joint_names_of, link_names_of, movable_of,
};
use crate::joints::Range;
use crate::links::Link;
use crate::math::{Isometry, Motion, Scalar};
use crate::node_iter::{NodeIter, NodeIterMut};
use crate::shape::Shape;

verus! {

/// A kinematic tree: the links below one root, which it owns, in depth-first
/// pre-order.
pub struct RcLinkTree {
    pub(crate) name: String,
    pub(crate) root_link: usize,
    pub(crate) arena: Arena<Link>,
    pub(crate) expanded_robot_link_vec: Vec<usize>,
}

impl RcLinkTree {
    /// All links of the arena that the tree owns, by node index.
    pub open(crate) spec fn links(&self) -> Seq<Link> {
        self.arena@
    }

    /// The parent and child relations of the arena.
    pub open(crate) spec fn shape(&self) -> Shape {
        self.arena.shape()
    }

    /// The index of the root link.
    pub open(crate) spec fn root(&self) -> usize {
        self.root_link
    }

    /// The nodes of the tree in the order in which they are visited.
    pub open(crate) spec fn order(&self) -> Seq<usize> {
        self.expanded_robot_link_vec@
    }

    /// The name of the tree.
    pub open(crate) spec fn name_view(&self) -> Seq<char> {
        self.name@
    }

    /// The arena is consistent, the root is one of its nodes, and the order
    /// is the pre-order of the subtree below the root.
    pub open spec fn wf(&self) -> bool {
        &&& self.shape().wf()
        &&& self.shape().len() == self.links().len()
        &&& self.root() < self.links().len()
        &&& self.order() == self.shape().preorder(self.root() as int)
    }

    /// The number of movable joints in the tree.
    pub open spec fn dof_spec(&self) -> nat {
        movable_ids(self.links(), self.order()).len()
    }

    /// Every node of the order is a node of the arena.
    pub proof fn lemma_order_valid(&self)
        requires
            self.wf(),
        ensures
            ids_valid(self.order(), self.links().len()),
            self.order().len() >= 1,
            self.order()[0] == self.root(),
            self.order().no_duplicates(),
    {
        self.shape().lemma_preorder_parents(self.root() as int);
        self.shape().lemma_preorder_distinct(self.root() as int);
    }

    /// Whether node `id` belongs to the tree: it is the root or lies below
    /// it.
    pub open spec fn owns(&self, id: usize) -> bool {
        self.shape().is_below(self.root() as int, id as int)
    }

    /// The order of the traversal names each link of the tree once and no
    /// other node.
    pub proof fn lemma_order_is_the_tree(&self)
        requires
            self.wf(),
        ensures
            self.order().no_duplicates(),
            forall|id: usize| self.order().contains(id) <==> self.owns(id),
    {
        let shape = self.shape();
        let root = self.root() as int;
        shape.lemma_preorder_distinct(root);
        assert forall|id: usize| self.order().contains(id) <==> self.owns(id) by {
            if self.order().contains(id) {
                let k = choose|k: int| 0 <= k < self.order().len() && self.order()[k] == id;
                assert(shape.is_below(root, self.order()[k] as int));
            }
            if self.owns(id) {
                shape.lemma_preorder_complete(root, id as int);
            }
        }
    }

    /// The degrees of freedom are the number of links of the tree whose
    /// joint is not fixed.
    pub proof fn lemma_dof_counts_movable_links(&self)
        requires
            self.wf(),
        ensures
            self.dof_spec() == Set::new(
                |id: usize| self.owns(id) && self.links()[id as int].joint.is_movable(),
            ).len(),
    {
        self.lemma_order_valid();
        self.lemma_order_is_the_tree();
        let movable = movable_ids(self.links(), self.order());
        lemma_movable_ids(self.links(), self.order());
        lemma_movable_ids_distinct(self.links(), self.order());
        movable.unique_seq_to_set();
        let counted = Set::new(|id: usize| self.owns(id) && self.links()[id as int].joint.is_movable());
        assert forall|id: usize| movable.to_set().contains(id) <==> counted.contains(id) by {
            if movable.to_set().contains(id) {
                assert(movable.contains(id));
                let k = choose|k: int| 0 <= k < movable.len() && movable[k] == id;
                assert(self.order().contains(movable[k]));
                assert(self.links()[movable[k] as int].joint.is_movable());
            }
            if counted.contains(id) {
                assert(self.order().contains(id));
                assert(movable.contains(id));
            }
        }
        assert(movable.to_set() =~= counted);
    }

    /// The world transforms of the links of the tree, in the order of the
    /// traversal: what `calc_link_transforms` returns.
    pub open spec fn link_transforms_spec(&self) -> Seq<Seq<Motion>> {
        world_all(self.shape(), self.links(), self.root(), self.order())
    }

    /// Idempotence. `calc_link_transforms` leaves a tree that differs from
    /// the one it found in the caches alone, and of such a tree it returns
    /// the same transforms: a second call, with no joint value changed in
    /// between, returns what the first returned.
    pub proof fn lemma_calc_link_transforms_idempotent(before: &RcLinkTree, after: &RcLinkTree)
        requires
            before.wf(),
            after.shape() == before.shape(),
            after.root() == before.root(),
            after.order() == before.order(),
            after.links().len() == before.links().len(),
            forall|i: int|
                0 <= i < before.links().len() ==> (#[trigger] after.links()[i]).same_but_cache(&before.links()[i]),
        ensures
            after.wf(),
            after.link_transforms_spec() == before.link_transforms_spec(),
    {
        before.lemma_order_valid();
        let shape = before.shape();
        let order = before.order();
        assert forall|k: int| 0 <= k < order.len() implies world(
            shape,
            after.links(),
            before.root(),
            order[k] as int,
        ) == world(shape, before.links(), before.root(), order[k] as int) by {
            assert forall|i: int| 0 <= i < after.links().len() implies (#[trigger] after.links()[i]).local_spec()
                == before.links()[i].local_spec() by {
                assert(after.links()[i].same_but_cache(&before.links()[i]));
            }
            lemma_world_same_locals(shape, after.links(), before.links(), before.root(), order[k] as int);
        }
        assert(after.link_transforms_spec() =~= before.link_transforms_spec());
    }

    /// Takes the arena and makes the tree of the links below `root_link`.
    pub fn new(name: &str, arena: Arena<Link>, root_link: usize) -> (r: Self)
        requires
            arena.wf(),
            root_link < arena@.len(),
        ensures
            r.wf(),
            r.name_view() == name@,
            r.links() == arena@,
            r.shape() == arena.shape(),
            r.root() == root_link,
    {
        let expanded = arena.descendants(root_link);
        RcLinkTree { name: name.to_owned(), root_link, arena, expanded_robot_link_vec: expanded }
    }

    pub fn name(&self) -> (r: &str)
        ensures
            r@ == self.name_view(),
    {
        self.name.as_str()
    }

    pub fn root_link(&self) -> (r: usize)
        ensures
            r == self.root(),
    {
        self.root_link
    }

    /// The arena that holds the links, to be read.
    pub fn arena(&self) -> (r: &Arena<Link>)
        ensures
            r@ == self.links(),
            r.shape() == self.shape(),
    {
        &self.arena
    }

    /// The link of node `id`.
    pub fn link(&self, id: usize) -> (r: &Link)
        requires
            id < self.links().len(),
        ensures
            *r == self.links()[id as int],
    {
        self.arena.get(id)
    }

    /// The link of node `id`, to be changed in place.
    pub fn link_mut(&mut self, id: usize) -> (r: &mut Link)
        requires
            id < old(self).links().len(),
        ensures
            *r == old(self).links()[id as int],
            final(self).links() == old(self).links().update(id as int, *final(r)),
            final(self).shape() == old(self).shape(),
            final(self).root() == old(self).root(),
            final(self).order() == old(self).order(),
            final(self).name_view() == old(self).name_view(),
    {
        self.arena.get_mut(id)
    }

    /// The nodes of the tree, in the order of the traversal.
    pub fn iter(&self) -> (r: &Vec<usize>)
        ensures
            r@ == self.order(),
    {
        &self.expanded_robot_link_vec
    }

    /// A cursor over the nodes of the tree, in the order of the traversal,
    /// that hands each link out to be changed.
    pub fn iter_mut(&mut self) -> (r: NodeIterMut<'_, Link>)
        requires
            old(self).wf(),
        ensures
            r.wf(),
            r.remaining() == old(self).order(),
            r.payloads() == old(self).links(),
            r.arena.shape() == old(self).shape(),
            final(self).links() == final(r.arena)@,
            final(self).shape() == final(r.arena).shape(),
            final(self).root() == old(self).root(),
            final(self).order() == old(self).order(),
            final(self).name_view() == old(self).name_view(),
    {
        self.iter_link_mut()
    }

    /// A cursor over the links of the tree, in the order of the traversal.
    pub fn iter_link(&self) -> (r: NodeIter<'_, Link>)
        requires
            self.wf(),
        ensures
            r.wf(),
            r.remaining() == Seq::new(self.order().len(), |k: int| self.links()[self.order()[k] as int]),
    {
        proof {
            self.lemma_order_valid();
        }
        let r = NodeIter { arena: &self.arena, order: &self.expanded_robot_link_vec, pos: 0 };
        assert(r.remaining() =~= Seq::new(self.order().len(), |k: int| self.links()[self.order()[k] as int]));
        r
    }

    /// A cursor over the links of the tree, in the order of the traversal,
    /// that hands each link out to be changed. The tree is as the cursor
    /// leaves its arena.
    pub fn iter_link_mut(&mut self) -> (r: NodeIterMut<'_, Link>)
        requires
            old(self).wf(),
        ensures
            r.wf(),
            r.remaining() == old(self).order(),
            r.payloads() == old(self).links(),
            r.arena.shape() == old(self).shape(),
            final(self).links() == final(r.arena)@,
            final(self).shape() == final(r.arena).shape(),
            final(self).root() == old(self).root(),
            final(self).order() == old(self).order(),
            final(self).name_view() == old(self).name_view(),
    {
        proof {
            self.lemma_order_valid();
        }
        let r = NodeIterMut { arena: &mut self.arena, order: &self.expanded_robot_link_vec, pos: 0 };
        assert(r.remaining() =~= old(self).order());
        r
    }

    /// The links of the tree whose joint is movable, in the order of the
    /// traversal.
    pub fn iter_for_joints_link(&self) -> (r: Vec<&Link>)
        requires
            self.wf(),
        ensures
            r@.len() == self.dof_spec(),
            forall|k: int|
                0 <= k < r@.len() ==> *(#[trigger] r@[k]) == self.links()[movable_ids(self.links(), self.order())[k] as int],
    {
        let movable = self.iter_for_joints();
        proof {
            self.lemma_order_valid();
            lemma_movable_ids(self.links(), self.order());
        }
        let mut out: Vec<&Link> = Vec::new();
        let mut k: usize = 0;
        while k < movable.len()
            invariant
                k <= movable@.len(),
                movable@ == movable_ids(self.links(), self.order()),
                ids_valid(movable@, self.links().len()),
                out@.len() == k,
                forall|j: int| 0 <= j < k ==> *(#[trigger] out@[j]) == self.links()[movable@[j] as int],
            decreases movable@.len() - k,
        {
            out.push(self.arena.get(movable[k]));
            k += 1;
        }
        out
    }

    /// The nodes of the tree whose joint is movable, in the order of the
    /// traversal.
    pub fn iter_for_joints(&self) -> (r: Vec<usize>)
        requires
            self.wf(),
        ensures
            r@ == movable_ids(self.links(), self.order()),
    {
        proof {
            self.lemma_order_valid();
        }
        movable_of(&self.arena, &self.expanded_robot_link_vec)
    }

    /// The number of movable joints.
    pub fn dof(&self) -> (r: usize)
        requires
            self.wf(),
        ensures
            r == self.dof_spec(),
    {
        self.iter_for_joints().len()
    }

    /// The values of the movable joints, in the order of the traversal.
    pub fn get_joint_angles(&self) -> (r: Vec<Scalar>)
        requires
            self.wf(),
        ensures
            r@ == joint_angles_spec(self.links(), self.order()),
            r@.len() == self.dof_spec(),
    {
        proof {
            self.lemma_order_valid();
        }
        joint_angles_of(&self.arena, &self.expanded_robot_link_vec)
    }

    /// Stores one value in each movable joint, in the order of the traversal.
    ///
    /// Where the number of values is not `dof()`, nothing is stored and the
    /// answer is `SizeMisMatch`. Otherwise the values are stored one by one;
    /// the first that its joint refuses ends the call with `OutOfLimit`, and
    /// the values before it stay stored.
    pub fn set_joint_angles(&mut self, angles: &[Scalar]) -> (r: Result<(), JointError>)
        requires
            old(self).wf(),
        ensures
            final(self).wf(),
            final(self).shape() == old(self).shape(),
            final(self).root() == old(self).root(),
            final(self).order() == old(self).order(),
            final(self).name_view() == old(self).name_view(),
            final(self).links().len() == old(self).links().len(),
            final(self).links() == assign_result(old(self).links(), old(self).order(), angles@),
            r == assign_outcome(old(self).links(), old(self).order(), angles@),
            angles@.len() != old(self).dof_spec() ==> r == Err::<(), JointError>(JointError::SizeMisMatch)
                && final(self).links() == old(self).links(),
            r is Ok ==> joint_angles_spec(final(self).links(), final(self).order()) == angles@,
    {
        proof {
            self.lemma_order_valid();
            if assign_outcome(self.links(), self.order(), angles@) is Ok {
                lemma_stored_values_are_read_back(self.links(), self.order(), angles@);
            }
        }
        assign_joint_angles(&mut self.arena, &self.expanded_robot_link_vec, angles)
    }

    /// The limits of the movable joints, in the order of the traversal.
    pub fn get_joint_limits(&self) -> (r: Vec<Option<Range>>)
        requires
            self.wf(),
        ensures
            r@ == joint_limits_spec(self.links(), self.order()),
    {
        proof {
            self.lemma_order_valid();
        }
        joint_limits_of(&self.arena, &self.expanded_robot_link_vec)
    }

    /// The names of the movable joints, in the order of the traversal.
    pub fn get_joint_names(&self) -> (r: Vec<String>)
        requires
            self.wf(),
        ensures
            views(r@) == joint_names_spec(self.links(), self.order()),
    {
        proof {
            self.lemma_order_valid();
        }
        joint_names_of(&self.arena, &self.expanded_robot_link_vec)
    }

    /// The names of the links, in the order of the traversal.
    pub fn get_link_names(&self) -> (r: Vec<String>)
        requires
            self.wf(),
        ensures
            views(r@) == link_names_spec(self.links(), self.order()),
    {
        proof {
            self.lemma_order_valid();
        }
        link_names_of(&self.arena, &self.expanded_robot_link_vec)
    }
    /// Computes the world transform of every link of the tree, writes it to
    /// the link's cache, and returns the transforms in the order of the
    /// traversal.
    ///
    /// The world transform of the root is its local transform; that of any
    /// other link is the world transform of its parent, which the same pass
    /// has written before, composed with its local transform. What the caches
    /// held before has no part in the result.
    pub fn calc_link_transforms(&mut self) -> (r: Vec<Isometry>)
        requires
            old(self).wf(),
        ensures
            final(self).wf(),
            final(self).shape() == old(self).shape(),
            final(self).root() == old(self).root(),
            final(self).order() == old(self).order(),
            final(self).name_view() == old(self).name_view(),
            final(self).links().len() == old(self).links().len(),
            forall|i: int|
                0 <= i < old(self).links().len() ==> (#[trigger] final(self).links()[i]).same_but_cache(
                    &old(self).links()[i],
                ),
            forall|i: int|
                0 <= i < old(self).links().len() && !old(self).order().contains(i as usize) ==> (
                #[trigger] final(self).links()[i]) == old(self).links()[i],
            forall|k: int|
                0 <= k < old(self).order().len() ==> final(self).links()[(#[trigger] old(self).order()[k]) as int].has_cached(
                    world(old(self).shape(), old(self).links(), old(self).root(), old(self).order()[k] as int),
                ),
            transform_views(r@) == old(self).link_transforms_spec(),
    {
        let ghost shape = self.shape();
        let ghost orig = self.links();
        let ghost order = self.order();
        let ghost root = self.root();
        proof {
            shape.lemma_preorder_parents(root as int);
        }
        let count = self.expanded_robot_link_vec.len();
        let mut out: Vec<Isometry> = Vec::new();
        let mut k: usize = 0;
        while k < count
            invariant
                k <= count,
                count == order.len(),
                shape.wf(),
                shape.len() == orig.len(),
                root < orig.len(),
                order == shape.preorder(root as int),
                ids_valid(order, orig.len()),
                order[0] == root,
                forall|i: int| 1 <= i < order.len() ==> #[trigger] shape.comes_after_parent(order, i),
                self.shape() == shape,
                self.root() == root,
                self.order() == order,
                self.name_view() == old(self).name_view(),
                self.links().len() == orig.len(),
                forall|i: int| 0 <= i < orig.len() ==> (#[trigger] self.links()[i]).same_but_cache(&orig[i]),
                forall|i: int|
                    0 <= i < orig.len() && !order.take(k as int).contains(i as usize) ==> (#[trigger] self.links()[i])
                        == orig[i],
                forall|j: int|
                    0 <= j < k ==> self.links()[(#[trigger] order[j]) as int].has_cached(
                        world(shape, orig, root, order[j] as int),
                    ),
                transform_views(out@) == world_all(shape, orig, root, order).take(k as int),
            decreases count - k,
        {
            let id = self.expanded_robot_link_vec[k];
            let ghost before = self.links();
            proof {
                lemma_world_step(shape, orig, root, id as int);
                assert(before[id as int].same_but_cache(&orig[id as int]));
            }
            let local = self.arena.get(id).calc_transform();
            let pose = if id == self.root_link {
                local
            } else {
                match self.arena.parent(id) {
                    None => local,
                    Some(p) => {
                        proof {
                            assert(shape.comes_after_parent(order, k as int));
                            let j = choose|j: int|
                                0 <= j < k && shape.parents[order[k as int] as int] == Some(#[trigger] order[j]);
                            assert(before[order[j] as int].has_cached(world(shape, orig, root, order[j] as int)));
                        }
                        let above = self.arena.get(p).world_transform_cache.as_ref().unwrap();
                        above.compose(&local)
                    },
                }
            };
            assert(pose@ == world(shape, orig, root, id as int));
            let kept = pose.clone();
            let ghost collected = out@;
            self.arena.get_mut(id).world_transform_cache = Some(pose);
            out.push(kept);
            proof {
                assert(transform_views(out@) =~= transform_views(collected).push(kept@));
                let ghost now = self.links();
                assert forall|i: int| 0 <= i < orig.len() implies (#[trigger] now[i]).same_but_cache(&orig[i]) by {
                    assert(before[i].same_but_cache(&orig[i]));
                }
                assert forall|i: int|
                    0 <= i < orig.len() && !order.take(k + 1).contains(i as usize) implies (#[trigger] now[i])
                    == orig[i] by {
                    assert(order.take(k + 1)[k as int] == id);
                    if order.take(k as int).contains(i as usize) {
                        let j = choose|j: int| 0 <= j < k && order.take(k as int)[j] == i as usize;
                        assert(order.take(k + 1)[j] == i as usize);
                    }
                    assert(before[i] == orig[i]);
                }
                assert forall|j: int| 0 <= j < k + 1 implies now[(#[trigger] order[j]) as int].has_cached(
                    world(shape, orig, root, order[j] as int),
                ) by {
                    if order[j] != id {
                        assert(before[order[j] as int].has_cached(world(shape, orig, root, order[j] as int)));
                    }
                }
                assert(transform_views(out@) =~= world_all(shape, orig, root, order).take(k + 1));
            }
            k += 1;
        }
        proof {
            assert(world_all(shape, orig, root, order).take(k as int) =~= world_all(shape, orig, root, order));
            assert(order.take(k as int) =~= order);
        }
        out
    }
    /// The chain from the root of the arena's tree down to the first link,
    /// in the order of the traversal, that has the name `name`. The chain
    /// takes that name; its base transform is the identity and it has no end
    /// link name. `None` where no link of the tree has the name.
    pub fn chain_from_end_link_name(&self, name: &str) -> (r: Option<RcKinematicChain>)
        requires
            self.wf(),
        ensures
            r is Some <==> has_link_named(self.links(), self.order(), name@),
            match r {
                Some(chain) => {
                    let end = self.order()[first_named(self.links(), self.order(), name@, 0)];
                    &&& self.links()[end as int].name@ == name@
                    &&& chain.name@ == name@
                    &&& chain.links@ == self.shape().ancestors(end as int).reverse()
                    &&& chain.transform@ == Seq::<Motion>::empty()
                    &&& chain.end_link_name is None
                    &&& chain.valid_for(self)
                    &&& chain.is_path_of(self)
                },
                None => true,
            },
    {
        proof {
            self.lemma_order_valid();
        }
        let wanted = name.to_owned();
        let mut k: usize = 0;
        while k < self.expanded_robot_link_vec.len()
            invariant
                k <= self.order().len(),
                self.wf(),
                ids_valid(self.order(), self.links().len()),
                wanted@ == name@,
                first_named(self.links(), self.order(), name@, 0) == first_named(
                    self.links(),
                    self.order(),
                    name@,
                    k as int,
                ),
                forall|j: int| 0 <= j < k ==> (#[trigger] self.links()[self.order()[j] as int]).name@ != name@,
            decreases self.order().len() - k,
        {
            let id = self.expanded_robot_link_vec[k];
            if self.arena.get(id).name == wanted {
                return Some(RcKinematicChain::new(name, self, id));
            }
            k += 1;
        }
        None
    }
}

} // verus!
