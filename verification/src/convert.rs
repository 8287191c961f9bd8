//! Building lists from other collections, and copying them.

use vstd::prelude::*;
use vstd::std_specs::iter::IteratorSpec;
use crate::list::List;

verus! {

impl<T> List<T> {
    /// A list of the elements of `values`, in the same order.
    pub fn from_vec(values: Vec<T>) -> (list: List<T>)
        ensures
            list@ == values@,
    {
        let mut list = List::new();
        for value in items: values
            invariant
                list@ == items.seq().take(items.index()),
        {
            list.append(value);
        }
        list
    }

    /// A list of copies of the elements of `values`, in the same order.
    pub fn from_slice(values: &[T]) -> (list: List<T>) where T: Clone
        ensures
            list@.len() == values@.len(),
            forall|i: int| 0 <= i < values@.len() ==> cloned::<T>(values@[i], #[trigger] list@[i]),
    {
        let mut list = List::new();
        let mut at: usize = 0;
        while at < values.len()
            invariant
                at <= values@.len(),
                list@.len() == at,
                forall|i: int| 0 <= i < at ==> cloned::<T>(values@[i], #[trigger] list@[i]),
            decreases values@.len() - at,
        {
            list.append(values[at].clone());
            at += 1;
        }
        list
    }

    /// Adds every element that `it` gives to the end of the list, in the order
    /// in which they come. The iterator has to be one that comes to an end and
    /// keeps to the iterator laws of vstd.
    pub fn extend<It: Iterator<Item = T>>(&mut self, it: It)
        requires
            it.obeys_prophetic_iter_laws(),
            it.decrease() is Some,
        ensures
            final(self)@ == old(self)@ + it.remaining(),
    {
        let ghost coming = it.remaining();
        let mut rest = it;
        loop
            invariant_except_break
                rest.obeys_prophetic_iter_laws(),
                rest.decrease() is Some,
                self@ + rest.remaining() == old(self)@ + coming,
            ensures
                self@ == old(self)@ + coming,
            decreases rest.decrease()->0,
        {
            match rest.next() {
                Some(value) => {
                    self.append(value);
                },
                None => {
                    break ;
                },
            }
        }
    }

    /// A list of the elements that `it` gives, in the order in which they
    /// come. The iterator has to meet what `extend` asks of it.
    pub fn from_iter<It: Iterator<Item = T>>(it: It) -> (list: List<T>)
        requires
            it.obeys_prophetic_iter_laws(),
            it.decrease() is Some,
        ensures
            list@ == it.remaining(),
    {
        let mut list = List::new();
        list.extend(it);
        list
    }
}

impl<T: Clone> Clone for List<T> {
    /// A list of copies of the elements, in the same order, that shares
    /// nothing with this one.
    fn clone(&self) -> (copy: Self)
        ensures
            copy@.len() == self@.len(),
            forall|i: int| 0 <= i < self@.len() ==> cloned::<T>(self@[i], #[trigger] copy@[i]),
    {
        let mut copy = List::new();
        let mut cursor = self.iter();
        loop
            invariant_except_break
                copy@.len() <= self@.len(),
                cursor.remaining() == self@.skip(copy@.len() as int),
                forall|i: int| 0 <= i < copy@.len() ==> cloned::<T>(self@[i], #[trigger] copy@[i]),
            ensures
                copy@.len() == self@.len(),
                forall|i: int| 0 <= i < self@.len() ==> cloned::<T>(self@[i], #[trigger] copy@[i]),
            decreases cursor.remaining().len(),
        {
            match cursor.next() {
                Some(item) => {
                    copy.append(item.clone());
                },
                None => {
                    break ;
                },
            }
        }
        copy
    }
}

} // verus!
