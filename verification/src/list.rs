//! The list: its representation, its view, and the operations on it.
//!
//! Operations that change the list move its parts out, relink them, and put
//! the list back together in one step, so that the invariant holds of every
//! list that anyone can observe.

use vstd::prelude::*;
use crate::error::ListError;
use crate::links::{
    contents, lemma_flip, lemma_join, lemma_link_before, lemma_link_last, lemma_links_inside,
    link_at, linked, shifted, shifted_order, Node,
};

verus! {

/// A doubly-linked list of `T`.
///
/// Its view is the sequence of its elements from head to tail. The nodes are
/// kept in an arena and linked by slot; `head` and `tail` are the slots of the
/// two ends, and `order` is the ghost sequence of slots from head to tail.
/// The length is the size of the arena, so `len` takes constant time.
pub struct List<T> {
    pub(crate) nodes: Vec<Node<T>>,
    pub(crate) head: Option<usize>,
    pub(crate) tail: Option<usize>,
    pub(crate) order: Ghost<Seq<usize>>,
}

impl<T> View for List<T> {
    type V = Seq<T>;

    open(crate) spec fn view(&self) -> Seq<T> {
        contents(self.nodes@, self.order@)
    }
}

/// The sequence after `insert`: `value` stands before the element at
/// `position`, or at the end when `position` names no element.
pub open spec fn inserted<T>(items: Seq<T>, value: T, position: int) -> Seq<T> {
    if 0 <= position < items.len() {
        items.insert(position, value)
    } else {
        items.push(value)
    }
}

impl<T> List<T> {
    #[verifier::type_invariant]
    pub(crate) open spec fn well_linked(self) -> bool {
        linked(self.nodes@, self.head, self.tail, self.order@)
    }

    /// An empty list.
    pub fn new() -> (list: List<T>)
        ensures
            list@ == Seq::<T>::empty(),
    {
        List { nodes: Vec::new(), head: None, tail: None, order: Ghost(Seq::empty()) }
    }

    /// The number of elements.
    pub fn len(&self) -> (n: usize)
        ensures
            n == self@.len(),
    {
        proof {
            use_type_invariant(self);
        }
        self.nodes.len()
    }

    /// Moves the list out and leaves an empty one behind, so that the parts
    /// can be worked on one by one and put back together at the end.
    fn take(&mut self) -> (taken: List<T>)
        ensures
            taken == *old(self),
            final(self)@ == Seq::<T>::empty(),
    {
        let mut taken = List::new();
        core::mem::swap(self, &mut taken);
        taken
    }

    /// The arena slot of the element at `index`, found by walking from the head.
    fn slot_at(&self, index: usize) -> (slot: usize)
        requires
            index < self@.len(),
        ensures
            slot == self.order@[index as int],
            slot < self.nodes.len(),
    {
        proof {
            use_type_invariant(self);
        }
        let mut slot: usize = self.head.unwrap();
        let mut walked: usize = 0;
        while walked < index
            invariant
                walked <= index < self.order@.len(),
                slot == self.order@[walked as int],
                linked(self.nodes@, self.head, self.tail, self.order@),
            decreases index - walked,
        {
            assert(link_at(self.nodes@, self.order@, walked as int));
            slot = self.nodes[slot].next.unwrap();
            walked += 1;
        }
        assert(link_at(self.nodes@, self.order@, index as int));
        slot
    }

    /// Links a new node with `data` in front of the node in slot `at`, which
    /// is the one at index `position`.
    fn link_before(&mut self, data: T, at: usize, Ghost(position): Ghost<int>)
        requires
            0 <= position < old(self)@.len(),
            at == old(self).order@[position],
        ensures
            final(self)@ == old(self)@.insert(position, data),
    {
        let taken = self.take();
        proof {
            use_type_invariant(&taken);
        }
        let List { mut nodes, mut head, tail, order } = taken;
        proof {
            assert(link_at(nodes@, order@, position));
            if position > 0 {
                assert(link_at(nodes@, order@, position - 1));
            }
        }
        let slot: usize = nodes.len();
        let before = nodes[at].prev;
        nodes.push(Node { value: data, prev: before, next: Some(at) });
        nodes[at].prev = Some(slot);
        match before {
            Some(b) => {
                nodes[b].next = Some(slot);
            },
            None => {
                head = Some(slot);
            },
        }
        proof {
            assert(nodes@.len() == nodes.len());
            lemma_link_before(
                old(self).nodes@,
                old(self).head,
                tail,
                order@,
                nodes@,
                head,
                position,
            );
        }
        *self = List { nodes, head, tail, order: Ghost(order@.insert(position, slot)) };
    }

    /// Adds `data` as the new last element.
    pub fn append(&mut self, data: T)
        ensures
            final(self)@ == old(self)@.push(data),
    {
        let taken = self.take();
        proof {
            use_type_invariant(&taken);
        }
        let List { mut nodes, mut head, tail, order } = taken;
        let slot: usize = nodes.len();
        nodes.push(Node { value: data, prev: tail, next: None });
        match tail {
            Some(t) => {
                assert(link_at(old(self).nodes@, order@, order@.len() - 1));
                nodes[t].next = Some(slot);
            },
            None => {
                head = Some(slot);
            },
        }
        proof {
            assert(nodes@.len() == nodes.len());
            lemma_link_last(old(self).nodes@, old(self).head, tail, order@, nodes@, head);
        }
        *self = List { nodes, head, tail: Some(slot), order: Ghost(order@.push(slot)) };
    }

    /// Adds `data` as the new first element.
    pub fn prepend(&mut self, data: T)
        ensures
            final(self)@ == seq![data] + old(self)@,
    {
        proof {
            use_type_invariant(&*self);
        }
        match self.head {
            Some(h) => {
                self.link_before(data, h, Ghost(0));
            },
            None => {
                self.append(data);
            },
        }
    }

    /// Puts `data` before the element at index `position`. A position that
    /// names no element, negative or not below the length, puts it at the end.
    pub fn insert(&mut self, data: T, position: i32)
        ensures
            final(self)@ == inserted(old(self)@, data, position as int),
    {
        proof {
            use_type_invariant(&*self);
        }
        if position < 0 || position as usize >= self.nodes.len() {
            self.append(data);
        } else {
            let at = self.slot_at(position as usize);
            self.link_before(data, at, Ghost(position as int));
        }
    }

    /// What `nth` returns: the element at index `n` counted from the head, or
    /// `OutOfBounds` when the list has no such index.
    pub open spec fn spec_nth(&self, n: u32) -> Result<&T, ListError> {
        if n < self@.len() {
            Ok(&self@[n as int])
        } else {
            Err(ListError::OutOfBounds)
        }
    }

    /// The element at index `n`, counted from the head.
    #[verifier::when_used_as_spec(spec_nth)]
    pub fn nth(&self, n: u32) -> (found: Result<&T, ListError>)
        ensures
            found == self.spec_nth(n),
    {
        proof {
            use_type_invariant(self);
        }
        if n as usize >= self.nodes.len() {
            return Err(ListError::OutOfBounds);
        }
        let slot = self.slot_at(n as usize);
        Ok(&self.nodes[slot].value)
    }

    /// What `first` returns: the element at the head, or `EmptyContainer`
    /// when there is none.
    pub open spec fn spec_first(&self) -> Result<&T, ListError> {
        if self@.len() > 0 {
            Ok(&self@[0])
        } else {
            Err(ListError::EmptyContainer)
        }
    }

    /// The first element.
    #[verifier::when_used_as_spec(spec_first)]
    pub fn first(&self) -> (found: Result<&T, ListError>)
        ensures
            found == self.spec_first(),
    {
        proof {
            use_type_invariant(self);
        }
        match self.head {
            Some(h) => {
                assert(link_at(self.nodes@, self.order@, 0));
                Ok(&self.nodes[h].value)
            },
            None => Err(ListError::EmptyContainer),
        }
    }

    /// What `last` returns: the element at the tail, or `EmptyContainer` when
    /// there is none.
    pub open spec fn spec_last(&self) -> Result<&T, ListError> {
        if self@.len() > 0 {
            Ok(&self@[self@.len() - 1])
        } else {
            Err(ListError::EmptyContainer)
        }
    }

    /// The last element.
    #[verifier::when_used_as_spec(spec_last)]
    pub fn last(&self) -> (found: Result<&T, ListError>)
        ensures
            found == self.spec_last(),
    {
        proof {
            use_type_invariant(self);
        }
        match self.tail {
            Some(t) => {
                assert(link_at(self.nodes@, self.order@, self.order@.len() - 1));
                Ok(&self.nodes[t].value)
            },
            None => Err(ListError::EmptyContainer),
        }
    }

    /// Reverses the order of the elements in place.
    pub fn reverse(&mut self)
        ensures
            final(self)@ == old(self)@.reverse(),
    {
        let taken = self.take();
        proof {
            use_type_invariant(&taken);
        }
        let List { mut nodes, head, tail, order } = taken;
        let mut slot: usize = 0;
        while slot < nodes.len()
            invariant
                slot <= nodes.len() == old(self).nodes.len(),
                forall|k: int|
                    0 <= k < slot ==> {
                        &&& (#[trigger] nodes[k]).value == old(self).nodes[k].value
                        &&& nodes[k].prev == old(self).nodes[k].next
                        &&& nodes[k].next == old(self).nodes[k].prev
                    },
                forall|k: int| slot <= k < nodes.len() ==> #[trigger] nodes[k] == old(self).nodes[k],
            decreases nodes.len() - slot,
        {
            let carried = nodes[slot].prev;
            let other = nodes[slot].next;
            nodes[slot].prev = other;
            nodes[slot].next = carried;
            slot += 1;
        }
        proof {
            lemma_flip(old(self).nodes@, head, tail, order@, nodes@);
        }
        *self = List { nodes, head: tail, tail: head, order: Ghost(order@.reverse()) };
    }

    /// Removes and drops every element.
    pub fn clear(&mut self)
        ensures
            final(self)@ == Seq::<T>::empty(),
    {
        let List { mut nodes, .. } = self.take();
        nodes.clear();
        *self = List { nodes, head: None, tail: None, order: Ghost(Seq::empty()) };
    }

    /// Moves every element of `list` to the end of this list, in order. The
    /// nodes of `list` are taken over, not copied; the time is linear in the
    /// length of `list`.
    pub fn concat(&mut self, list: List<T>)
        ensures
            final(self)@ == old(self)@ + list@,
    {
        let taken = self.take();
        proof {
            use_type_invariant(&taken);
            use_type_invariant(&list);
        }
        let List { mut nodes, mut head, mut tail, order } = taken;
        let List { nodes: mut arriving, head: arriving_head, tail: arriving_tail, .. } = list;
        let shift: usize = nodes.len();
        nodes.append(&mut arriving);
        let mut slot: usize = shift;
        while slot < nodes.len()
            invariant
                shift == old(self).nodes.len(),
                shift <= slot <= nodes.len() == shift + list.nodes.len(),
                linked(list.nodes@, list.head, list.tail, list.order@),
                forall|k: int| 0 <= k < shift ==> #[trigger] nodes[k] == old(self).nodes[k],
                forall|k: int|
                    shift <= k < slot ==> {
                        &&& (#[trigger] nodes[k]).value == list.nodes[k - shift].value
                        &&& nodes[k].prev == shifted(list.nodes[k - shift].prev, shift as int)
                        &&& nodes[k].next == shifted(list.nodes[k - shift].next, shift as int)
                    },
                forall|k: int|
                    slot <= k < nodes.len() ==> #[trigger] nodes[k] == list.nodes[k - shift],
            decreases nodes.len() - slot,
        {
            proof {
                lemma_links_inside(
                    list.nodes@,
                    list.head,
                    list.tail,
                    list.order@,
                    (slot - shift) as usize,
                );
            }
            if let Some(p) = nodes[slot].prev {
                nodes[slot].prev = Some(p + shift);
            }
            if let Some(n) = nodes[slot].next {
                nodes[slot].next = Some(n + shift);
            }
            slot += 1;
        }
        proof {
            if order@.len() > 0 {
                assert(link_at(old(self).nodes@, order@, order@.len() - 1));
            }
        }
        if let Some(h) = arriving_head {
            assert(link_at(list.nodes@, list.order@, 0));
            assert(link_at(list.nodes@, list.order@, list.order@.len() - 1));
            let joint: usize = h + shift;
            match tail {
                Some(t) => {
                    nodes[t].next = Some(joint);
                    nodes[joint].prev = Some(t);
                },
                None => {
                    head = Some(joint);
                },
            }
            tail = Some(arriving_tail.unwrap() + shift);
        }
        proof {
            lemma_join(
                old(self).nodes@,
                old(self).head,
                old(self).tail,
                order@,
                list.nodes@,
                list.head,
                list.tail,
                list.order@,
                nodes@,
                head,
                tail,
            );
        }
        *self = List {
            nodes,
            head,
            tail,
            order: Ghost(order@ + shifted_order(list.order@, shift as int)),
        };
    }
}

/// `list[index]` is the element at `index`, counted from the head. The index
/// has to be below the length.
impl<T> core::ops::Index<usize> for List<T> {
    type Output = T;

    fn index(&self, index: usize) -> (item: &T)
        ensures
            *item == self@[index as int],
    {
        let slot = self.slot_at(index);
        &self.nodes[slot].value
    }
}

impl<T> vstd::std_specs::core::IndexSpecImpl<usize> for List<T> {
    open spec fn index_req(&self, index: &usize) -> bool {
        *index < self@.len()
    }
}

} // verus!
