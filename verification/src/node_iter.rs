use vstd::prelude::*;

use crate::arena::{ids_valid, Arena};

verus! {

/// A cursor over the payloads of some nodes of an arena, in a given order.
pub struct NodeIter<'a, T> {
    pub arena: &'a Arena<T>,
    pub order: &'a Vec<usize>,
    pub pos: usize,
}

impl<'a, T> NodeIter<'a, T> {
    /// The cursor stands within its order, and the order names nodes of the
    /// arena.
    pub open spec fn wf(&self) -> bool {
        &&& ids_valid(self.order@, self.arena@.len())
        &&& self.pos <= self.order@.len()
    }

    /// The payloads that are still to come, the next one first.
    pub open spec fn remaining(&self) -> Seq<T> {
        Seq::new((self.order@.len() - self.pos) as nat, |k: int| self.arena@[self.order@[self.pos + k] as int])
    }

    /// The next payload, if there is one left.
    pub fn next(&mut self) -> (r: Option<&'a T>)
        requires
            old(self).wf(),
        ensures
            final(self).wf(),
            old(self).remaining().len() == 0 ==> r is None && final(self).remaining() == old(self).remaining(),
            old(self).remaining().len() > 0 ==> r == Some(&old(self).remaining()[0]) && final(self).remaining()
                == old(self).remaining().skip(1),
    {
        if self.pos < self.order.len() {
            let id = self.order[self.pos];
            self.pos += 1;
            assert(self.remaining() =~= old(self).remaining().skip(1));
            Some(self.arena.get(id))
        } else {
            None
        }
    }
}

/// A cursor over the payloads of some nodes of an arena, in a given order,
/// that hands each payload out to be changed.
pub struct NodeIterMut<'a, T> {
    pub arena: &'a mut Arena<T>,
    pub order: &'a Vec<usize>,
    pub pos: usize,
}

impl<'a, T> NodeIterMut<'a, T> {
    /// The cursor stands within its order, and the order names nodes of the
    /// arena.
    pub open spec fn wf(&self) -> bool {
        &&& ids_valid(self.order@, self.arena@.len())
        &&& self.pos <= self.order@.len()
    }

    /// The nodes that are still to come, the next one first.
    pub open spec fn remaining(&self) -> Seq<usize> {
        self.order@.skip(self.pos as int)
    }

    /// The payloads of all nodes of the arena, by node index.
    pub open spec fn payloads(&self) -> Seq<T> {
        self.arena@
    }

    /// The next payload, if there is one left, to be changed in place.
    pub fn next(&mut self) -> (r: Option<&mut T>)
        requires
            old(self).wf(),
        ensures
            final(self).wf(),
            *final(final(self).arena) == *final(old(self).arena),
            final(self).arena.shape() == old(self).arena.shape(),
            match r {
                None => old(self).remaining().len() == 0 && final(self).remaining() == old(self).remaining()
                    && final(self).payloads() == old(self).payloads(),
                Some(item) => old(self).remaining().len() > 0 && *item == old(self).payloads()[old(
                    self,
                ).remaining()[0] as int] && final(self).remaining() == old(self).remaining().skip(1)
                    && final(self).payloads() == old(self).payloads().update(
                    old(self).remaining()[0] as int,
                    *final(item),
                ),
            },
    {
        if self.pos < self.order.len() {
            let id = self.order[self.pos];
            self.pos += 1;
            assert(self.remaining() =~= old(self).remaining().skip(1));
            Some(self.arena.get_mut(id))
        } else {
            None
        }
    }
}

} // verus!
