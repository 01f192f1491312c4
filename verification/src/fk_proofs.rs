use vstd::prelude::*;

use crate::arena::ids_valid;
use crate::fk::{
    assign_outcome, assign_result, assigned, cumulative, end_transform_of, first_refused, joint_angles_spec,
    movable_ids, product, stop_count, world,
};
use crate::links::Link;
use crate::math::{Motion, Scalar};
use crate::shape::Shape;

verus! {

/// Every movable id is one of `ids`, and its joint is movable.
pub proof fn lemma_movable_ids(links: Seq<Link>, ids: Seq<usize>)
    requires
        ids_valid(ids, links.len()),
    ensures
        ids_valid(movable_ids(links, ids), links.len()),
        movable_ids(links, ids).len() <= ids.len(),
        forall|k: int|
            0 <= k < movable_ids(links, ids).len() ==> links[(#[trigger] movable_ids(links, ids)[k]) as int].joint.is_movable(),
    decreases ids.len(),
{
    if ids.len() > 0 {
        assert forall|k: int| 0 <= k < ids.drop_last().len() implies (#[trigger] ids.drop_last()[k])
            < links.len() by {
            assert(ids.drop_last()[k] == ids[k]);
        }
        lemma_movable_ids(links, ids.drop_last());
    }
}

/// What is movable depends on the kinds of the joints alone.
pub proof fn lemma_movable_ids_same_kinds(a: Seq<Link>, b: Seq<Link>, ids: Seq<usize>)
    requires
        a.len() == b.len(),
        ids_valid(ids, a.len()),
        forall|i: int| 0 <= i < a.len() ==> (#[trigger] a[i]).joint.joint_type == b[i].joint.joint_type,
    ensures
        movable_ids(a, ids) == movable_ids(b, ids),
    decreases ids.len(),
{
    if ids.len() > 0 {
        assert(ids_valid(ids.drop_last(), a.len())) by {
            assert forall|k: int| 0 <= k < ids.drop_last().len() implies (#[trigger] ids.drop_last()[k])
                < a.len() by {
                assert(ids.drop_last()[k] == ids[k]);
            }
        }
        lemma_movable_ids_same_kinds(a, b, ids.drop_last());
    }
}

/// Where `ids` names no link twice, neither do the movable ones among them,
/// and each of them is one of `ids`.
pub proof fn lemma_movable_ids_distinct(links: Seq<Link>, ids: Seq<usize>)
    requires
        ids.no_duplicates(),
    ensures
        movable_ids(links, ids).no_duplicates(),
        forall|k: int| 0 <= k < movable_ids(links, ids).len() ==> ids.contains(#[trigger] movable_ids(links, ids)[k]),
        forall|id: usize|
            ids.contains(id) && links[id as int].joint.is_movable() ==> movable_ids(links, ids).contains(id),
    decreases ids.len(),
{
    if ids.len() > 0 {
        let front = ids.drop_last();
        lemma_movable_ids_distinct(links, front);
        let m = movable_ids(links, front);
        let all = movable_ids(links, ids);
        assert forall|k: int| 0 <= k < all.len() implies ids.contains(#[trigger] all[k]) by {
            if k < m.len() {
                assert(all[k] == m[k]);
                let j = choose|j: int| 0 <= j < front.len() && front[j] == m[k];
                assert(ids[j] == m[k]);
            } else {
                assert(ids[ids.len() - 1] == all[k]);
            }
        }
        assert forall|i: int, j: int| 0 <= i < all.len() && 0 <= j < all.len() && i != j implies all[i]
            != all[j] by {
            if i >= m.len() || j >= m.len() {
                let low = if i < j { i } else { j };
                assert(all[low] == m[low]);
                let n = choose|n: int| 0 <= n < front.len() && front[n] == m[low];
                assert(ids[n] == m[low]);
            }
        }
        assert forall|id: usize| ids.contains(id) && links[id as int].joint.is_movable() implies all.contains(
            id,
        ) by {
            let n = choose|n: int| 0 <= n < ids.len() && ids[n] == id;
            if n < front.len() {
                assert(front[n] == id);
                assert(front.contains(id));
                assert(m.contains(id));
                let k = choose|k: int| 0 <= k < m.len() && m[k] == id;
                assert(all[k] == id);
            } else {
                assert(all[all.len() - 1] == id);
            }
        }
    }
}

/// The product over one more link appends that link's local transform.
pub proof fn lemma_product_step(links: Seq<Link>, ids: Seq<usize>, k: int)
    requires
        0 <= k < ids.len(),
    ensures
        product(links, ids.take(k + 1)) == product(links, ids.take(k)) + links[ids[k] as int].local_spec(),
{
    assert(ids.take(k + 1).drop_last() =~= ids.take(k));
}

/// The product over a sequence of links followed by another is the product
/// of the two products.
pub proof fn lemma_product_concat(links: Seq<Link>, a: Seq<usize>, b: Seq<usize>)
    ensures
        product(links, a + b) == product(links, a) + product(links, b),
    decreases b.len(),
{
    if b.len() == 0 {
        assert(a + b =~= a);
        assert(product(links, a) + product(links, b) =~= product(links, a));
    } else {
        assert((a + b).drop_last() =~= a + b.drop_last());
        assert((a + b).last() == b.last());
        lemma_product_concat(links, a, b.drop_last());
        assert(product(links, a + b) =~= product(links, a) + product(links, b));
    }
}

/// A fold stops within the links and not before the place it starts from.
pub proof fn lemma_stop_count_bounds(links: Seq<Link>, ids: Seq<usize>, end: Option<Seq<char>>, k: int)
    requires
        0 <= k <= ids.len(),
    ensures
        k <= stop_count(links, ids, end, k) <= ids.len(),
        end is None ==> stop_count(links, ids, end, k) == ids.len(),
    decreases ids.len() - k,
{
    if k < ids.len() && end != Some(links[ids[k] as int].name@) {
        lemma_stop_count_bounds(links, ids, end, k + 1);
    }
}

/// A fold that meets no link with the end name before the `k`-th, which has
/// it, takes `k + 1` links.
pub proof fn lemma_stop_count_at(links: Seq<Link>, ids: Seq<usize>, name: Seq<char>, k: int, from: int)
    requires
        0 <= from <= k < ids.len(),
        links[ids[k] as int].name@ == name,
        forall|j: int| from <= j < k ==> (#[trigger] links[ids[j] as int]).name@ != name,
    ensures
        stop_count(links, ids, Some(name), from) == k + 1,
    decreases k - from,
{
    if from < k {
        assert(links[ids[from] as int].name@ != name);
        lemma_stop_count_at(links, ids, name, k, from + 1);
    }
}

/// Truncation. Let the `k`-th link of a chain be the first that has the name
/// `name`. With `name` as end link name the end transform is the fold of the
/// first `k + 1` links and of no other. With no end link name it is the fold
/// of all links, which is the truncated one composed with the fold of the
/// links after the `k`-th. The two differ exactly where those later links
/// contribute a motion.
pub proof fn lemma_truncation(links: Seq<Link>, ids: Seq<usize>, base: Seq<Motion>, name: Seq<char>, k: int)
    requires
        0 <= k < ids.len(),
        links[ids[k] as int].name@ == name,
        forall|j: int| 0 <= j < k ==> (#[trigger] links[ids[j] as int]).name@ != name,
    ensures
        end_transform_of(links, ids, base, Some(name)) == base + product(links, ids.take(k + 1)),
        end_transform_of(links, ids, base, None) == base + product(links, ids),
        end_transform_of(links, ids, base, None) == end_transform_of(links, ids, base, Some(name)) + product(
            links,
            ids.skip(k + 1),
        ),
        end_transform_of(links, ids, base, None) != end_transform_of(links, ids, base, Some(name)) <==> product(
            links,
            ids.skip(k + 1),
        ).len() > 0,
{
    lemma_stop_count_at(links, ids, name, k, 0);
    lemma_stop_count_bounds(links, ids, None, 0);
    assert(ids.take(ids.len() as int) =~= ids);
    assert(ids =~= ids.take(k + 1) + ids.skip(k + 1));
    lemma_product_concat(links, ids.take(k + 1), ids.skip(k + 1));
    let head = base + product(links, ids.take(k + 1));
    let rest = product(links, ids.skip(k + 1));
    assert(base + (product(links, ids.take(k + 1)) + rest) =~= head + rest);
    if rest.len() == 0 {
        assert(head + rest =~= head);
    } else {
        assert((head + rest).len() != head.len());
    }
}

/// The world transform of a node other than the root is that of its parent
/// composed with its own local transform.
pub proof fn lemma_world_step(shape: Shape, links: Seq<Link>, root: usize, id: int)
    requires
        shape.wf(),
        shape.has(id),
    ensures
        world(shape, links, root, id) == (if id == root {
            links[id].local_spec()
        } else {
            match shape.parents[id] {
                None => links[id].local_spec(),
                Some(p) => world(shape, links, root, p as int) + links[id].local_spec(),
            }
        }),
{
    assert(shape.link_ok(id));
}

/// The world transform reads of each link its local transform and nothing
/// else.
pub proof fn lemma_world_same_locals(shape: Shape, a: Seq<Link>, b: Seq<Link>, root: usize, id: int)
    requires
        shape.wf(),
        shape.has(id),
        a.len() == shape.len(),
        b.len() == shape.len(),
        forall|i: int| 0 <= i < a.len() ==> (#[trigger] a[i]).local_spec() == b[i].local_spec(),
    ensures
        world(shape, a, root, id) == world(shape, b, root, id),
    decreases shape.depth[id],
{
    lemma_world_step(shape, a, root, id);
    lemma_world_step(shape, b, root, id);
    assert(shape.link_ok(id));
    if id != root {
        match shape.parents[id] {
            None => {},
            Some(p) => {
                lemma_world_same_locals(shape, a, b, root, p as int);
            },
        }
    }
}

/// Where the root of a tree has no parent, the world transform of a link is
/// the fold of the links on the path from the root down to it: what a chain
/// to that link, with the identity as base and no end link name, has as its
/// end transform.
pub proof fn lemma_world_is_path_product(shape: Shape, links: Seq<Link>, root: usize, id: int)
    requires
        shape.wf(),
        shape.has(id),
        shape.root(id) == root,
    ensures
        world(shape, links, root, id) == product(links, shape.ancestors(id).reverse()),
        world(shape, links, root, id) == end_transform_of(
            links,
            shape.ancestors(id).reverse(),
            Seq::empty(),
            None,
        ),
    decreases shape.depth[id],
{
    lemma_world_step(shape, links, root, id);
    shape.lemma_ancestors_step(id);
    shape.lemma_ancestors(id);
    let path = shape.ancestors(id).reverse();
    match shape.parents[id] {
        None => {
            assert(path =~= seq![id as usize]);
            assert(path.drop_last() =~= Seq::<usize>::empty());
            assert(product(links, Seq::<usize>::empty()) =~= Seq::<Motion>::empty());
            assert(path.last() == id as usize);
            assert(product(links, path) =~= links[id].local_spec());
        },
        Some(p) => {
            shape.lemma_root_of_child(id);
            shape.lemma_ancestors(p as int);
            assert(shape.depth[id] > 0);
            assert(shape.ancestors(id)[shape.depth[id] as int] == root);
            assert(shape.depth[shape.ancestors(id)[shape.depth[id] as int] as int] == 0);
            assert(id != root);
            lemma_world_is_path_product(shape, links, root, p as int);
            let above = shape.ancestors(p as int).reverse();
            assert(path =~= above.push(id as usize));
            assert(path.drop_last() =~= above);
        },
    }
    lemma_stop_count_bounds(links, path, None, 0);
    assert(path.take(path.len() as int) =~= path);
    assert(Seq::<Motion>::empty() + product(links, path) =~= product(links, path));
}

/// With no end link name, the end transform of a chain is the transform of
/// its last link.
pub proof fn lemma_end_transform_is_last_link_transform(links: Seq<Link>, ids: Seq<usize>, base: Seq<Motion>)
    requires
        ids.len() > 0,
    ensures
        end_transform_of(links, ids, base, None) == cumulative(links, ids, base).last(),
{
    lemma_stop_count_bounds(links, ids, None, 0);
}

/// The first refusal lies between the place the search starts from and the
/// end.
pub proof fn lemma_first_refused_bounds(links: Seq<Link>, movable: Seq<usize>, values: Seq<Scalar>, k: int)
    requires
        0 <= k <= movable.len(),
    ensures
        k <= first_refused(links, movable, values, k) <= movable.len(),
    decreases movable.len() - k,
{
    if k < movable.len() && links[movable[k] as int].joint.admits(values[k]) {
        lemma_first_refused_bounds(links, movable, values, k + 1);
    }
}

/// Storing joint values changes neither the number of links nor anything of
/// a link but the value of its joint.
pub proof fn lemma_assigned_same_body(links: Seq<Link>, movable: Seq<usize>, values: Seq<Scalar>, k: int)
    requires
        ids_valid(movable, links.len()),
        k <= movable.len(),
        k <= values.len(),
    ensures
        assigned(links, movable, values, k).len() == links.len(),
        forall|i: int|
            0 <= i < links.len() ==> {
                &&& (#[trigger] assigned(links, movable, values, k)[i]).same_body(&links[i])
                &&& assigned(links, movable, values, k)[i].world_transform_cache == links[i].world_transform_cache
            },
    decreases k,
{
    if k > 0 {
        lemma_assigned_same_body(links, movable, values, k - 1);
    }
}

/// Where `movable` names no link twice, the first `k` values stand in their
/// joints once they are stored, and the later joints hold what they held.
pub proof fn lemma_assigned_values(links: Seq<Link>, movable: Seq<usize>, values: Seq<Scalar>, k: int)
    requires
        ids_valid(movable, links.len()),
        movable.no_duplicates(),
        0 <= k <= movable.len(),
        values.len() == movable.len(),
    ensures
        forall|j: int|
            0 <= j < movable.len() ==> assigned(links, movable, values, k)[(#[trigger] movable[j]) as int].joint.angle
                == (if j < k {
                values[j]
            } else {
                links[movable[j] as int].joint.angle
            }),
    decreases k,
{
    if k > 0 {
        lemma_assigned_values(links, movable, values, k - 1);
        lemma_assigned_same_body(links, movable, values, k - 1);
    }
}

/// Values that were all stored are the values that are read back, where
/// `ids` names no link twice.
pub proof fn lemma_stored_values_are_read_back(links: Seq<Link>, ids: Seq<usize>, values: Seq<Scalar>)
    requires
        ids_valid(ids, links.len()),
        ids.no_duplicates(),
        assign_outcome(links, ids, values) is Ok,
    ensures
        joint_angles_spec(assign_result(links, ids, values), ids) == values,
{
    let movable = movable_ids(links, ids);
    let after = assign_result(links, ids, values);
    lemma_movable_ids(links, ids);
    lemma_movable_ids_distinct(links, ids);
    lemma_first_refused_bounds(links, movable, values, 0);
    lemma_assigned_same_body(links, movable, values, movable.len() as int);
    lemma_assigned_values(links, movable, values, movable.len() as int);
    lemma_movable_ids_same_kinds(after, links, ids);
    assert(joint_angles_spec(after, ids) =~= values);
}

} // verus!
