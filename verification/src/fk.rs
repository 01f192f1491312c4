use vstd::prelude::*;

use crate::errors::JointError;
use crate::joints::{Joint, Range};
use crate::links::Link;
use crate::math::{Isometry, Motion, Scalar};
use crate::shape::Shape;

verus! {

/// Those of `ids` whose link has a movable joint, in the same order.
pub open spec fn movable_ids(links: Seq<Link>, ids: Seq<usize>) -> Seq<usize>
    decreases ids.len(),
{
    if ids.len() == 0 {
        Seq::empty()
    } else if links[ids.last() as int].joint.is_movable() {
        movable_ids(links, ids.drop_last()).push(ids.last())
    } else {
        movable_ids(links, ids.drop_last())
    }
}

/// The values of the movable joints among `ids`, in the same order.
pub open spec fn joint_angles_spec(links: Seq<Link>, ids: Seq<usize>) -> Seq<Scalar> {
    let movable = movable_ids(links, ids);
    Seq::new(movable.len(), |k: int| links[movable[k] as int].joint.angle)
}

/// The limits of the movable joints among `ids`, in the same order.
pub open spec fn joint_limits_spec(links: Seq<Link>, ids: Seq<usize>) -> Seq<Option<Range>> {
    let movable = movable_ids(links, ids);
    Seq::new(movable.len(), |k: int| links[movable[k] as int].joint.limits)
}

/// The names of the movable joints among `ids`, in the same order.
pub open spec fn joint_names_spec(links: Seq<Link>, ids: Seq<usize>) -> Seq<Seq<char>> {
    let movable = movable_ids(links, ids);
    Seq::new(movable.len(), |k: int| links[movable[k] as int].joint.name@)
}

/// The names of the links `ids`, in the same order.
pub open spec fn link_names_spec(links: Seq<Link>, ids: Seq<usize>) -> Seq<Seq<char>> {
    Seq::new(ids.len(), |k: int| links[ids[k] as int].name@)
}

/// The view of each string.
pub open spec fn views(names: Seq<String>) -> Seq<Seq<char>> {
    Seq::new(names.len(), |k: int| names[k]@)
}

/// Whether one of the links `ids` has the name `name`.
pub open spec fn has_link_named(links: Seq<Link>, ids: Seq<usize>, name: Seq<char>) -> bool {
    exists|k: int| 0 <= k < ids.len() && (#[trigger] links[ids[k] as int]).name@ == name
}

/// The first place from `k` on at which a link of `ids` has the name `name`;
/// the length of `ids` where there is none.
pub open spec fn first_named(links: Seq<Link>, ids: Seq<usize>, name: Seq<char>, k: int) -> int
    decreases ids.len() - k,
{
    if k >= ids.len() {
        ids.len() as int
    } else if links[ids[k] as int].name@ == name {
        k
    } else {
        first_named(links, ids, name, k + 1)
    }
}

/// The local transforms of the links `ids`, composed from the first to the
/// last.
pub open spec fn product(links: Seq<Link>, ids: Seq<usize>) -> Seq<Motion>
    decreases ids.len(),
{
    if ids.len() == 0 {
        Seq::empty()
    } else {
        product(links, ids.drop_last()) + links[ids.last() as int].local_spec()
    }
}

/// The transforms of the links `ids` accumulated onto `base`, one for each
/// link: the `k`-th is `base` composed with the local transforms of the
/// first `k + 1` links.
pub open spec fn cumulative(links: Seq<Link>, ids: Seq<usize>, base: Seq<Motion>) -> Seq<Seq<Motion>> {
    Seq::new(ids.len(), |k: int| base + product(links, ids.take(k + 1)))
}

/// How many of the links `ids` a fold takes that has already passed the
/// first `k`: up to and with the first link from `k` on that has the name
/// `end`, or all where there is no such link.
pub open spec fn stop_count(links: Seq<Link>, ids: Seq<usize>, end: Option<Seq<char>>, k: int) -> int
    decreases ids.len() - k,
{
    if k >= ids.len() {
        ids.len() as int
    } else if end == Some(links[ids[k] as int].name@) {
        k + 1
    } else {
        stop_count(links, ids, end, k + 1)
    }
}

/// The transform of the end of a chain over the links `ids` with the base
/// transform `base`: the base composed with the local transforms of the
/// links, first to last, up to and with the first link that has the name
/// `end`; of all links where `end` is `None` or names none of them.
pub open spec fn end_transform_of(links: Seq<Link>, ids: Seq<usize>, base: Seq<Motion>, end: Option<Seq<char>>) -> Seq<
    Motion,
> {
    base + product(links, ids.take(stop_count(links, ids, end, 0)))
}

/// The transform from the frame in which `root` is placed to the frame of
/// `id`: the local transforms along the path from `root` down to `id`,
/// composed in that order. The root has nothing above it to compose with.
pub open spec fn world(shape: Shape, links: Seq<Link>, root: usize, id: int) -> Seq<Motion>
    decreases shape.depth[id],
    when shape.wf() && shape.has(id)
    via world_decreases
{
    if id == root {
        links[id].local_spec()
    } else {
        match shape.parents[id] {
            None => links[id].local_spec(),
            Some(p) => world(shape, links, root, p as int) + links[id].local_spec(),
        }
    }
}

#[via_fn]
proof fn world_decreases(shape: Shape, links: Seq<Link>, root: usize, id: int) {
    assert(shape.link_ok(id));
}

/// The world transforms of the nodes `order`, in the same order.
pub open spec fn world_all(shape: Shape, links: Seq<Link>, root: usize, order: Seq<usize>) -> Seq<Seq<Motion>> {
    Seq::new(order.len(), |k: int| world(shape, links, root, order[k] as int))
}

/// The view of each transform.
pub open spec fn transform_views(transforms: Seq<Isometry>) -> Seq<Seq<Motion>> {
    Seq::new(transforms.len(), |k: int| transforms[k]@)
}

/// `link` with the joint value replaced by `v`.
pub open spec fn with_angle(link: Link, v: Scalar) -> Link {
    Link { joint: Joint { angle: v, ..link.joint }, ..link }
}

/// The links after the first `k` of `values` were stored, each in the joint
/// of the link that `movable` names at the same position.
pub open spec fn assigned(links: Seq<Link>, movable: Seq<usize>, values: Seq<Scalar>, k: int) -> Seq<Link>
    decreases k,
{
    if k <= 0 {
        links
    } else {
        let before = assigned(links, movable, values, k - 1);
        let id = movable[k - 1] as int;
        before.update(id, with_angle(before[id], values[k - 1]))
    }
}

/// The first position from `k` on at which the joint's limits refuse the
/// value; the length of `movable` where none does.
pub open spec fn first_refused(links: Seq<Link>, movable: Seq<usize>, values: Seq<Scalar>, k: int) -> int
    decreases movable.len() - k,
{
    if k >= movable.len() {
        movable.len() as int
    } else if !links[movable[k] as int].joint.admits(values[k]) {
        k
    } else {
        first_refused(links, movable, values, k + 1)
    }
}

/// What storing `values` in the movable joints among `ids` answers.
pub open spec fn assign_outcome(links: Seq<Link>, ids: Seq<usize>, values: Seq<Scalar>) -> Result<
    (),
    JointError,
> {
    let movable = movable_ids(links, ids);
    if values.len() != movable.len() {
        Err(JointError::SizeMisMatch)
    } else if first_refused(links, movable, values, 0) < movable.len() {
        Err(JointError::OutOfLimit)
    } else {
        Ok(())
    }
}

/// The links after `values` were stored in the movable joints among `ids`:
/// nothing is stored where the count differs; otherwise the values are stored
/// in order up to the first that its joint refuses.
pub open spec fn assign_result(links: Seq<Link>, ids: Seq<usize>, values: Seq<Scalar>) -> Seq<Link> {
    let movable = movable_ids(links, ids);
    if values.len() != movable.len() {
        links
    } else {
        assigned(links, movable, values, first_refused(links, movable, values, 0))
    }
}

} // verus!
