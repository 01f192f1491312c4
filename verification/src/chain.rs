use vstd::prelude::*;

use crate::arena::ids_valid;
use crate::errors::JointError;
use crate::fk::{
    assign_outcome, assign_result, cumulative, end_transform_of, has_link_named, joint_angles_spec,
    joint_limits_spec, joint_names_spec, link_names_spec, movable_ids, product, stop_count, transform_views,
    views,
};
use crate::fk_proofs::{lemma_product_step, lemma_stored_values_are_read_back};
use crate::link_access::{
    assign_joint_angles, joint_angles_of, joint_limits_of, joint_names_of, link_names_of, movable_of,
};
use crate::joints::Range;
use crate::link_tree::RcLinkTree;
use crate::links::Link;
use crate::math::{Isometry, Motion, Scalar};

verus! {

/// A kinematic chain: the links on the path from the root of a tree down
/// to one of its links, root first. The chain names the links by their node
/// index; the links stay with the tree.
#[derive(Debug)]
pub struct RcKinematicChain {
    pub name: String,
    /// The links of the path, root first.
    pub links: Vec<usize>,
    /// The transform of the frame in which the first link is placed.
    pub transform: Isometry,
    /// The name of the link at which `calc_end_transform` stops.
    pub end_link_name: Option<String>,
}

impl RcKinematicChain {
    /// The end link name as plain characters.
    pub open spec fn end_view(&self) -> Option<Seq<char>> {
        match self.end_link_name {
            Some(name) => Some(name@),
            None => None,
        }
    }

    /// Every link of the chain is a node of `tree`.
    pub open spec fn valid_for(&self, tree: &RcLinkTree) -> bool {
        ids_valid(self.links@, tree.links().len())
    }

    /// Consecutive links of the chain are parent and child in `tree`, and
    /// the first has no parent.
    pub open spec fn is_path_of(&self, tree: &RcLinkTree) -> bool {
        &&& self.links@.len() >= 1
        &&& tree.shape().parents[self.links@[0] as int] is None
        &&& forall|k: int|
            1 <= k < self.links@.len() ==> tree.shape().parents[(#[trigger] self.links@[k]) as int] == Some(
                self.links@[k - 1],
            )
    }

    /// The number of links that `calc_end_transform` folds.
    pub open spec fn folded(&self, links: Seq<Link>) -> int {
        stop_count(links, self.links@, self.end_view(), 0)
    }

    /// The transform of the end of the chain: the base transform composed
    /// with the local transforms of the links, root first, up to and with
    /// the first link that has the end link name; of all links where no end
    /// link name is set.
    pub open spec fn end_transform_spec(&self, links: Seq<Link>) -> Seq<Motion> {
        end_transform_of(links, self.links@, self.transform@, self.end_view())
    }

    /// The number of movable joints in the chain.
    pub open spec fn dof_spec(&self, links: Seq<Link>) -> nat {
        movable_ids(links, self.links@).len()
    }

    /// The chain down to `end` from the topmost node above it, the one on
    /// its path that has no parent, with the identity as base transform and
    /// no end link name.
    pub fn new(name: &str, tree: &RcLinkTree, end: usize) -> (r: Self)
        requires
            tree.wf(),
            end < tree.links().len(),
        ensures
            r.name@ == name@,
            r.links@ == tree.shape().ancestors(end as int).reverse(),
            r.transform@ == Seq::<Motion>::empty(),
            r.end_link_name is None,
            r.valid_for(tree),
            r.is_path_of(tree),
            r.links@.last() == end,
            r.links@.no_duplicates(),
    {
        let up = tree.arena.ancestors(end);
        let ghost path = tree.shape().ancestors(end as int);
        proof {
            tree.shape().lemma_ancestors(end as int);
            tree.shape().lemma_ancestors_distinct(end as int);
        }
        let mut links: Vec<usize> = Vec::new();
        let mut k: usize = up.len();
        while k > 0
            invariant
                k <= up@.len(),
                up@ == path,
                links@.len() == up@.len() - k,
                forall|j: int| 0 <= j < links@.len() ==> links@[j] == path[path.len() - 1 - j],
            decreases k,
        {
            k -= 1;
            links.push(up[k]);
        }
        assert(links@ =~= path.reverse());
        RcKinematicChain { name: name.to_owned(), links, transform: Isometry::identity(), end_link_name: None }
    }

    /// Makes `calc_end_transform` stop at the link named `name`.
    ///
    /// Refused, with nothing changed, where no link of the chain has that
    /// name. The links of the chain stay as they are.
    pub fn set_end_link_name(&mut self, tree: &RcLinkTree, name: &str) -> (r: Result<(), String>)
        requires
            old(self).valid_for(tree),
        ensures
            final(self).name == old(self).name,
            final(self).links == old(self).links,
            final(self).transform == old(self).transform,
            match r {
                Ok(_) => has_link_named(tree.links(), old(self).links@, name@) && final(self).end_view() == Some(
                    name@,
                ),
                Err(message) => !has_link_named(tree.links(), old(self).links@, name@) && final(self).end_link_name
                    == old(self).end_link_name && message@ == name@ + " not found"@,
            },
    {
        let wanted = name.to_owned();
        let mut k: usize = 0;
        while k < self.links.len()
            invariant
                k <= self.links@.len(),
                self.valid_for(tree),
                *self == *old(self),
                wanted@ == name@,
                forall|j: int| 0 <= j < k ==> (#[trigger] tree.links()[self.links@[j] as int]).name@ != name@,
            decreases self.links@.len() - k,
        {
            if tree.arena.get(self.links[k]).name == wanted {
                self.end_link_name = Some(wanted);
                return Ok(());
            }
            k += 1;
        }
        Err(wanted.concat(" not found"))
    }

    pub fn get_end_link_name(&self) -> (r: &Option<String>)
        ensures
            *r == self.end_link_name,
    {
        &self.end_link_name
    }

    /// The transform of the end of the chain.
    pub fn calc_end_transform(&self, tree: &RcLinkTree) -> (r: Isometry)
        requires
            self.valid_for(tree),
        ensures
            r@ == self.end_transform_spec(tree.links()),
    {
        let ghost links = tree.links();
        let mut end = self.transform.clone();
        let mut k: usize = 0;
        assert(product(links, self.links@.take(0)) =~= Seq::<Motion>::empty());
        assert(self.transform@ + Seq::<Motion>::empty() =~= self.transform@);
        while k < self.links.len()
            invariant
                k <= self.links@.len(),
                self.valid_for(tree),
                links == tree.links(),
                end@ == self.transform@ + product(links, self.links@.take(k as int)),
                self.folded(links) == stop_count(links, self.links@, self.end_view(), k as int),
            decreases self.links@.len() - k,
        {
            let link = tree.arena.get(self.links[k]);
            let local = link.calc_transform();
            end.append(&local);
            proof {
                lemma_product_step(links, self.links@, k as int);
                assert(end@ =~= self.transform@ + product(links, self.links@.take(k + 1)));
            }
            match &self.end_link_name {
                Some(end_name) => {
                    if *end_name == link.name {
                        return end;
                    }
                },
                None => {},
            }
            k += 1;
        }
        assert(self.links@.take(k as int) =~= self.links@);
        end
    }

    /// The transform of every link of the chain, root first: the base
    /// transform composed with the local transforms of the links down to
    /// that link. The end link name has no part in it.
    pub fn calc_link_transforms(&self, tree: &RcLinkTree) -> (r: Vec<Isometry>)
        requires
            self.valid_for(tree),
        ensures
            transform_views(r@) == cumulative(tree.links(), self.links@, self.transform@),
    {
        let ghost links = tree.links();
        let mut out: Vec<Isometry> = Vec::new();
        let mut base = self.transform.clone();
        let mut k: usize = 0;
        assert(product(links, self.links@.take(0)) =~= Seq::<Motion>::empty());
        assert(self.transform@ + Seq::<Motion>::empty() =~= self.transform@);
        while k < self.links.len()
            invariant
                k <= self.links@.len(),
                self.valid_for(tree),
                links == tree.links(),
                base@ == self.transform@ + product(links, self.links@.take(k as int)),
                transform_views(out@) == cumulative(links, self.links@, self.transform@).take(k as int),
            decreases self.links@.len() - k,
        {
            let local = tree.arena.get(self.links[k]).calc_transform();
            base.append(&local);
            let kept = base.clone();
            let ghost collected = out@;
            out.push(kept);
            proof {
                lemma_product_step(links, self.links@, k as int);
                assert(base@ =~= self.transform@ + product(links, self.links@.take(k + 1)));
                assert(transform_views(out@) =~= transform_views(collected).push(kept@));
                assert(transform_views(out@) =~= cumulative(links, self.links@, self.transform@).take(k + 1));
            }
            k += 1;
        }
        assert(cumulative(links, self.links@, self.transform@).take(k as int) =~= cumulative(
            links,
            self.links@,
            self.transform@,
        ));
        out
    }

    /// The names of the links of the chain, root first.
    pub fn get_link_names(&self, tree: &RcLinkTree) -> (r: Vec<String>)
        requires
            self.valid_for(tree),
        ensures
            views(r@) == link_names_spec(tree.links(), self.links@),
    {
        link_names_of(&tree.arena, &self.links)
    }

    /// The number of movable joints in the chain.
    pub fn dof(&self, tree: &RcLinkTree) -> (r: usize)
        requires
            self.valid_for(tree),
        ensures
            r == self.dof_spec(tree.links()),
    {
        movable_of(&tree.arena, &self.links).len()
    }

    /// Stores one value in each movable joint of the chain, root first.
    ///
    /// Where the number of values is not the number of movable joints,
    /// nothing is stored and the answer is `SizeMisMatch`. Otherwise the
    /// values are stored one by one; the first that its joint refuses ends
    /// the call with `OutOfLimit`, and the values before it stay stored.
    pub fn set_joint_angles(&self, tree: &mut RcLinkTree, angles: &[Scalar]) -> (r: Result<(), JointError>)
        requires
            self.valid_for(old(tree)),
        ensures
            final(tree).shape() == old(tree).shape(),
            final(tree).root() == old(tree).root(),
            final(tree).order() == old(tree).order(),
            final(tree).name_view() == old(tree).name_view(),
            final(tree).links().len() == old(tree).links().len(),
            old(tree).wf() ==> final(tree).wf(),
            self.valid_for(final(tree)),
            final(tree).links() == assign_result(old(tree).links(), self.links@, angles@),
            r == assign_outcome(old(tree).links(), self.links@, angles@),
            angles@.len() != self.dof_spec(old(tree).links()) ==> r == Err::<(), JointError>(
                JointError::SizeMisMatch,
            ) && final(tree).links() == old(tree).links(),
            r is Ok && self.links@.no_duplicates() ==> joint_angles_spec(final(tree).links(), self.links@)
                == angles@,
    {
        proof {
            if self.links@.no_duplicates() && assign_outcome(tree.links(), self.links@, angles@) is Ok {
                lemma_stored_values_are_read_back(tree.links(), self.links@, angles@);
            }
        }
        assign_joint_angles(&mut tree.arena, &self.links, angles)
    }

    /// The values of the movable joints of the chain, root first.
    pub fn get_joint_angles(&self, tree: &RcLinkTree) -> (r: Vec<Scalar>)
        requires
            self.valid_for(tree),
        ensures
            r@ == joint_angles_spec(tree.links(), self.links@),
            r@.len() == self.dof_spec(tree.links()),
    {
        joint_angles_of(&tree.arena, &self.links)
    }

    /// The limits of the movable joints of the chain, root first.
    pub fn get_joint_limits(&self, tree: &RcLinkTree) -> (r: Vec<Option<Range>>)
        requires
            self.valid_for(tree),
        ensures
            r@ == joint_limits_spec(tree.links(), self.links@),
    {
        joint_limits_of(&tree.arena, &self.links)
    }

    /// The names of the movable joints of the chain, root first.
    pub fn get_joint_names(&self, tree: &RcLinkTree) -> (r: Vec<String>)
        requires
            self.valid_for(tree),
        ensures
            views(r@) == joint_names_spec(tree.links(), self.links@),
    {
        joint_names_of(&tree.arena, &self.links)
    }
}

} // verus!
