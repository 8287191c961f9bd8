//! What holds of the operations taken together.
//!
//! Each statement speaks of lists through their views and through the spec
//! functions that the operations' contracts use. Where an operation changes
//! a list, the list before and the list after are two parameters, tied by
//! what the operation ensures.

use vstd::prelude::*;
use crate::error::ListError;
use crate::list::List;

verus! {

/// A list that holds the sequence `items` gives it back: a forward cursor has
/// exactly `items` to give, in order, and a backward cursor has `items` in
/// reverse.
pub proof fn lemma_cursors_give_the_sequence<T>(list: &List<T>, items: Seq<T>)
    requires
        list@ == items,
    ensures
        list.iter().remaining() == items,
        list.rev_iter().remaining() == items.reverse(),
{
}

/// The length of a list is the number of elements that a cursor over it
/// gives, in either direction.
pub proof fn lemma_length_counts_cursor<T>(list: &List<T>)
    ensures
        list.iter().remaining().len() == list@.len(),
        list.rev_iter().remaining().len() == list@.len(),
{
    lemma_cursors_give_the_sequence(list, list@);
}

/// After `append`, the element at the last index is the appended value.
pub proof fn lemma_append_then_nth<T>(before: &List<T>, after: &List<T>, value: T)
    requires
        after@ == before@.push(value),
        before@.len() <= u32::MAX,
    ensures
        after.nth(before@.len() as u32) == Ok::<&T, ListError>(&value),
{
}

/// After `prepend`, the element at index 0 is the prepended value.
pub proof fn lemma_prepend_then_nth<T>(before: &List<T>, after: &List<T>, value: T)
    requires
        after@ == seq![value] + before@,
    ensures
        after.nth(0) == Ok::<&T, ListError>(&value),
{
}

/// Reversing a list twice puts every element back where it was.
pub proof fn lemma_reverse_twice<T>(start: &List<T>, once: &List<T>, twice: &List<T>)
    requires
        once@ == start@.reverse(),
        twice@ == once@.reverse(),
    ensures
        twice@ == start@,
{
}

/// Where cloning an element gives an equal element, cloning a list gives a
/// list with the same sequence of elements.
pub proof fn lemma_clone_keeps_sequence<T: Clone>(source: &List<T>, copy: &List<T>)
    requires
        copy@.len() == source@.len(),
        forall|i: int| 0 <= i < source@.len() ==> cloned::<T>(source@[i], #[trigger] copy@[i]),
        forall|a: T, b: T| #[trigger] cloned::<T>(a, b) ==> a == b,
    ensures
        copy@ == source@,
{
}

/// A cleared list has length 0, and neither a first nor a last element.
pub proof fn lemma_cleared_is_empty<T>(list: &List<T>)
    requires
        list@ == Seq::<T>::empty(),
    ensures
        list@.len() == 0,
        list.first() == Err::<&T, ListError>(ListError::EmptyContainer),
        list.last() == Err::<&T, ListError>(ListError::EmptyContainer),
        list.iter().remaining().len() == 0,
{
    lemma_length_counts_cursor(list);
}

} // verus!
