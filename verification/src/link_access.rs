use vstd::prelude::*;

use crate::arena::{ids_valid, Arena};
use crate::errors::JointError;
use crate::fk::{
    assign_outcome, assign_result, assigned, first_refused, joint_angles_spec, joint_limits_spec,
    joint_names_spec, link_names_spec, movable_ids, views, with_angle,
};
use crate::fk_proofs::{lemma_assigned_same_body, lemma_movable_ids};
use crate::joints::Range;
use crate::links::Link;
use crate::math::Scalar;

verus! {

/// The ids of the links among `ids` whose joint is movable, in order.
pub(crate) fn movable_of(arena: &Arena<Link>, ids: &Vec<usize>) -> (r: Vec<usize>)
    requires
        ids_valid(ids@, arena@.len()),
    ensures
        r@ == movable_ids(arena@, ids@),
{
    let mut out: Vec<usize> = Vec::new();
    let mut k: usize = 0;
    while k < ids.len()
        invariant
            k <= ids@.len(),
            ids_valid(ids@, arena@.len()),
            out@ == movable_ids(arena@, ids@.take(k as int)),
        decreases ids@.len() - k,
    {
        let id = ids[k];
        proof {
            assert(ids@.take(k + 1).drop_last() =~= ids@.take(k as int));
        }
        if arena.get(id).has_joint_angle() {
            out.push(id);
        }
        k += 1;
    }
    assert(ids@.take(k as int) =~= ids@);
    out
}

/// The values of the movable joints among `ids`, in order.
pub(crate) fn joint_angles_of(arena: &Arena<Link>, ids: &Vec<usize>) -> (r: Vec<Scalar>)
    requires
        ids_valid(ids@, arena@.len()),
    ensures
        r@ == joint_angles_spec(arena@, ids@),
{
    let movable = movable_of(arena, ids);
    proof {
        lemma_movable_ids(arena@, ids@);
    }
    let mut out: Vec<Scalar> = Vec::new();
    let mut k: usize = 0;
    while k < movable.len()
        invariant
            k <= movable@.len(),
            ids_valid(movable@, arena@.len()),
            out@ == joint_angles_spec(arena@, ids@).take(k as int),
            movable@ == movable_ids(arena@, ids@),
        decreases movable@.len() - k,
    {
        out.push(arena.get(movable[k]).joint.angle);
        assert(out@ =~= joint_angles_spec(arena@, ids@).take(k + 1));
        k += 1;
    }
    assert(out@ =~= joint_angles_spec(arena@, ids@));
    out
}

/// The limits of the movable joints among `ids`, in order.
pub(crate) fn joint_limits_of(arena: &Arena<Link>, ids: &Vec<usize>) -> (r: Vec<Option<Range>>)
    requires
        ids_valid(ids@, arena@.len()),
    ensures
        r@ == joint_limits_spec(arena@, ids@),
{
    let movable = movable_of(arena, ids);
    proof {
        lemma_movable_ids(arena@, ids@);
    }
    let mut out: Vec<Option<Range>> = Vec::new();
    let mut k: usize = 0;
    while k < movable.len()
        invariant
            k <= movable@.len(),
            ids_valid(movable@, arena@.len()),
            out@ == joint_limits_spec(arena@, ids@).take(k as int),
            movable@ == movable_ids(arena@, ids@),
        decreases movable@.len() - k,
    {
        out.push(arena.get(movable[k]).joint.limits);
        assert(out@ =~= joint_limits_spec(arena@, ids@).take(k + 1));
        k += 1;
    }
    assert(out@ =~= joint_limits_spec(arena@, ids@));
    out
}

/// The names of the movable joints among `ids`, in order.
pub(crate) fn joint_names_of(arena: &Arena<Link>, ids: &Vec<usize>) -> (r: Vec<String>)
    requires
        ids_valid(ids@, arena@.len()),
    ensures
        views(r@) == joint_names_spec(arena@, ids@),
{
    let movable = movable_of(arena, ids);
    proof {
        lemma_movable_ids(arena@, ids@);
    }
    let mut out: Vec<String> = Vec::new();
    let mut k: usize = 0;
    while k < movable.len()
        invariant
            k <= movable@.len(),
            ids_valid(movable@, arena@.len()),
            views(out@) == joint_names_spec(arena@, ids@).take(k as int),
            movable@ == movable_ids(arena@, ids@),
        decreases movable@.len() - k,
    {
        let ghost before = out@;
        let name = arena.get(movable[k]).joint.name.clone();
        out.push(name);
        assert(views(out@) =~= views(before).push(name@));
        assert(views(out@) =~= joint_names_spec(arena@, ids@).take(k + 1));
        k += 1;
    }
    assert(views(out@) =~= joint_names_spec(arena@, ids@));
    out
}

/// The names of the links `ids`, in order.
pub(crate) fn link_names_of(arena: &Arena<Link>, ids: &Vec<usize>) -> (r: Vec<String>)
    requires
        ids_valid(ids@, arena@.len()),
    ensures
        views(r@) == link_names_spec(arena@, ids@),
{
    let mut out: Vec<String> = Vec::new();
    let mut k: usize = 0;
    while k < ids.len()
        invariant
            k <= ids@.len(),
            ids_valid(ids@, arena@.len()),
            views(out@) == link_names_spec(arena@, ids@).take(k as int),
        decreases ids@.len() - k,
    {
        let ghost before = out@;
        let name = arena.get(ids[k]).name.clone();
        out.push(name);
        assert(views(out@) =~= views(before).push(name@));
        assert(views(out@) =~= link_names_spec(arena@, ids@).take(k + 1));
        k += 1;
    }
    assert(views(out@) =~= link_names_spec(arena@, ids@));
    out
}

/// Stores `values` in the movable joints among `ids`, in order.
pub(crate) fn assign_joint_angles(arena: &mut Arena<Link>, ids: &Vec<usize>, values: &[Scalar]) -> (r: Result<
    (),
    JointError,
>)
    requires
        ids_valid(ids@, old(arena)@.len()),
    ensures
        final(arena).shape() == old(arena).shape(),
        final(arena)@.len() == old(arena)@.len(),
        final(arena)@ == assign_result(old(arena)@, ids@, values@),
        r == assign_outcome(old(arena)@, ids@, values@),
{
    let movable = movable_of(arena, ids);
    if movable.len() != values.len() {
        return Err(JointError::SizeMisMatch);
    }
    proof {
        lemma_movable_ids(arena@, ids@);
    }
    let ghost links = arena@;
    let mut k: usize = 0;
    while k < movable.len()
        invariant
            k <= movable@.len(),
            movable@.len() == values@.len(),
            movable@ == movable_ids(links, ids@),
            ids_valid(movable@, links.len()),
            links == old(arena)@,
            arena.shape() == old(arena).shape(),
            arena@.len() == links.len(),
            arena@ == assigned(links, movable@, values@, k as int),
            first_refused(links, movable@, values@, 0) == first_refused(links, movable@, values@, k as int),
            forall|j: int| 0 <= j < movable@.len() ==> links[(#[trigger] movable@[j]) as int].joint.is_movable(),
        decreases movable@.len() - k,
    {
        let id = movable[k];
        proof {
            lemma_assigned_same_body(links, movable@, values@, k as int);
            assert(arena@[id as int].same_body(&links[id as int]));
        }
        let ghost before = arena@;
        let link = arena.get_mut(id);
        match link.set_joint_angle(values[k]) {
            Err(e) => {
                assert(arena@ =~= before);
                return Err(e);
            },
            Ok(_) => {},
        }
        assert(arena@ =~= before.update(id as int, with_angle(before[id as int], values@[k as int])));
        k += 1;
    }
    Ok(())
}

} // verus!
