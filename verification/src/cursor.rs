//! Cursors: single-pass walks over a list, forward or backward.
//!
//! A cursor borrows its list, so the list cannot change while the cursor is
//! in use.

use vstd::prelude::*;
use crate::links::{link_at, slot_after, slot_before};
use crate::list::List;

verus! {

/// A cursor that walks a list from its head to its tail.
pub struct Elem<'a, T> {
    pub(crate) list: &'a List<T>,
    pub(crate) slot: Option<usize>,
    pub(crate) given: Ghost<nat>,
}

impl<'a, T> Elem<'a, T> {
    /// `slot` is where the chain stands after `given` elements.
    #[verifier::type_invariant]
    pub(crate) closed spec fn in_step(self) -> bool {
        &&& self.given@ <= self.list.order@.len()
        &&& self.slot == slot_after(self.list.order@, self.given@ - 1)
    }

    /// The elements that the cursor has yet to give, in the order in which it
    /// gives them.
    pub open(crate) spec fn remaining(&self) -> Seq<T> {
        self.list@.skip(self.given@ as int)
    }

    /// Gives the element under the cursor and moves one step towards the
    /// tail, or gives `None` once the walk is over.
    pub fn next(&mut self) -> (item: Option<&'a T>)
        ensures
            old(self).remaining().len() > 0 ==> {
                &&& item == Some(&old(self).remaining()[0])
                &&& final(self).remaining() == old(self).remaining().drop_first()
            },
            old(self).remaining().len() == 0 ==> {
                &&& item.is_none()
                &&& final(self).remaining() == old(self).remaining()
            },
    {
        proof {
            use_type_invariant(&*self);
            use_type_invariant(self.list);
        }
        match self.slot {
            Some(slot) => {
                let list: &'a List<T> = self.list;
                assert(link_at(list.nodes@, list.order@, self.given@ as int));
                let node = &list.nodes[slot];
                *self = Elem { list, slot: node.next, given: Ghost((self.given@ + 1) as nat) };
                Some(&node.value)
            },
            None => None,
        }
    }
}

/// A cursor that walks a list from its tail to its head.
pub struct RevElem<'a, T> {
    pub(crate) list: &'a List<T>,
    pub(crate) slot: Option<usize>,
    pub(crate) left: Ghost<nat>,
}

impl<'a, T> RevElem<'a, T> {
    /// `slot` is where the chain stands with `left` elements still ahead.
    #[verifier::type_invariant]
    pub(crate) closed spec fn in_step(self) -> bool {
        &&& self.left@ <= self.list.order@.len()
        &&& self.slot == slot_before(self.list.order@, self.left@ as int)
    }

    /// The elements that the cursor has yet to give, in the order in which it
    /// gives them.
    pub open(crate) spec fn remaining(&self) -> Seq<T> {
        self.list@.take(self.left@ as int).reverse()
    }

    /// Gives the element under the cursor and moves one step towards the
    /// head, or gives `None` once the walk is over.
    pub fn next(&mut self) -> (item: Option<&'a T>)
        ensures
            old(self).remaining().len() > 0 ==> {
                &&& item == Some(&old(self).remaining()[0])
                &&& final(self).remaining() == old(self).remaining().drop_first()
            },
            old(self).remaining().len() == 0 ==> {
                &&& item.is_none()
                &&& final(self).remaining() == old(self).remaining()
            },
    {
        proof {
            use_type_invariant(&*self);
            use_type_invariant(self.list);
        }
        match self.slot {
            Some(slot) => {
                let list: &'a List<T> = self.list;
                assert(link_at(list.nodes@, list.order@, self.left@ - 1));
                let node = &list.nodes[slot];
                *self = RevElem { list, slot: node.prev, left: Ghost((self.left@ - 1) as nat) };
                Some(&node.value)
            },
            None => None,
        }
    }
}

impl<T> List<T> {
    /// The cursor that `iter` returns.
    pub open(crate) spec fn spec_iter(&self) -> Elem<'_, T> {
        Elem { list: self, slot: self.head, given: Ghost(0) }
    }

    /// A cursor at the head, which gives every element from the first to the
    /// last.
    #[verifier::when_used_as_spec(spec_iter)]
    pub fn iter(&self) -> (cursor: Elem<'_, T>)
        ensures
            cursor == self.spec_iter(),
            cursor.remaining() == self@,
    {
        proof {
            use_type_invariant(self);
        }
        Elem { list: self, slot: self.head, given: Ghost(0) }
    }

    /// The cursor that `rev_iter` returns.
    pub open(crate) spec fn spec_rev_iter(&self) -> RevElem<'_, T> {
        RevElem { list: self, slot: self.tail, left: Ghost(self@.len()) }
    }

    /// A cursor at the tail, which gives every element from the last to the
    /// first.
    #[verifier::when_used_as_spec(spec_rev_iter)]
    pub fn rev_iter(&self) -> (cursor: RevElem<'_, T>)
        ensures
            cursor == self.spec_rev_iter(),
            cursor.remaining() == self@.reverse(),
    {
        proof {
            use_type_invariant(self);
        }
        RevElem { list: self, slot: self.tail, left: Ghost(self@.len()) }
    }
}

} // verus!
