//! The nodes of a list and the invariant that ties them into one chain.
//!
//! Nodes live in an arena, a `Vec`, and name their neighbours by arena slot.
//! A ghost sequence, the order, lists the slots from the head of the chain to
//! its tail; the invariant says that the links stored in the nodes are exactly
//! the neighbours in that sequence.

use vstd::prelude::*;
use vstd::seq_lib::seq_to_set_is_finite;
use vstd::set_lib::{lemma_subset_equality, range_set_properties};

verus! {

/// One element and the arena slots of the nodes around it.
pub(crate) struct Node<T> {
    pub(crate) value: T,
    pub(crate) prev: Option<usize>,
    pub(crate) next: Option<usize>,
}

/// The slot that follows position `i` of `order`, if there is one.
pub(crate) open spec fn slot_after(order: Seq<usize>, i: int) -> Option<usize> {
    if 0 <= i + 1 < order.len() {
        Some(order[i + 1])
    } else {
        None
    }
}

/// The slot that precedes position `i` of `order`, if there is one.
pub(crate) open spec fn slot_before(order: Seq<usize>, i: int) -> Option<usize> {
    if 0 < i <= order.len() {
        Some(order[i - 1])
    } else {
        None
    }
}

/// The node that `order` visits at position `i` lies in the arena and its
/// links name the neighbours of position `i`.
pub(crate) open spec fn link_at<T>(nodes: Seq<Node<T>>, order: Seq<usize>, i: int) -> bool {
    &&& order[i] < nodes.len()
    &&& nodes[order[i] as int].next == slot_after(order, i)
    &&& nodes[order[i] as int].prev == slot_before(order, i)
}

/// The nodes form one chain that visits the slots in `order`: every slot of
/// the arena occurs once, `head` and `tail` are the ends, and each node's
/// links name its neighbours in `order`.
pub(crate) open spec fn linked<T>(
    nodes: Seq<Node<T>>,
    head: Option<usize>,
    tail: Option<usize>,
    order: Seq<usize>,
) -> bool {
    &&& order.len() == nodes.len()
    &&& order.no_duplicates()
    &&& head == slot_after(order, -1)
    &&& tail == slot_before(order, order.len() as int)
    &&& forall|i: int| 0 <= i < order.len() ==> #[trigger] link_at(nodes, order, i)
}

/// The elements of the chain, from head to tail.
pub(crate) open spec fn contents<T>(nodes: Seq<Node<T>>, order: Seq<usize>) -> Seq<T> {
    Seq::new(order.len(), |i: int| nodes[order[i] as int].value)
}

/// Linking a fresh node behind the tail keeps the chain and puts the node's
/// value at the end of the contents.
///
/// `after` is the arena once the node has been pushed to its end and the old
/// tail, if there was one, points at it.
pub(crate) proof fn lemma_link_last<T>(
    before: Seq<Node<T>>,
    head: Option<usize>,
    tail: Option<usize>,
    order: Seq<usize>,
    after: Seq<Node<T>>,
    after_head: Option<usize>,
)
    requires
        linked(before, head, tail, order),
        after.len() == before.len() + 1 <= usize::MAX,
        after.last().prev == tail,
        after.last().next.is_none(),
        after_head == (if order.len() == 0 {
            Some(before.len() as usize)
        } else {
            head
        }),
        forall|k: int| 0 <= k < before.len() ==> (#[trigger] after[k]).value == before[k].value,
        forall|k: int| 0 <= k < before.len() ==> (#[trigger] after[k]).prev == before[k].prev,
        forall|k: int|
            0 <= k < before.len() ==> (#[trigger] after[k]).next == (if Some(k as usize) == tail {
                Some(before.len() as usize)
            } else {
                before[k].next
            }),
    ensures
        linked(
            after,
            after_head,
            Some(before.len() as usize),
            order.push(before.len() as usize),
        ),
        contents(after, order.push(before.len() as usize)) == contents(before, order).push(
            after.last().value,
        ),
{
    let slot = before.len() as usize;
    let grown = order.push(slot);
    assert forall|i: int| 0 <= i < order.len() implies order[i] < slot by {
        assert(link_at(before, order, i));
    }
    assert forall|i: int| 0 <= i < grown.len() implies #[trigger] link_at(after, grown, i) by {
        if i < order.len() {
            assert(link_at(before, order, i));
        }
    }
}

/// Linking a fresh node in front of position `p` keeps the chain and puts the
/// node's value at index `p` of the contents.
///
/// `after` is the arena once the node has been pushed to its end and its two
/// neighbours point at it.
pub(crate) proof fn lemma_link_before<T>(
    before: Seq<Node<T>>,
    head: Option<usize>,
    tail: Option<usize>,
    order: Seq<usize>,
    after: Seq<Node<T>>,
    after_head: Option<usize>,
    p: int,
)
    requires
        linked(before, head, tail, order),
        0 <= p < order.len(),
        after.len() == before.len() + 1 <= usize::MAX,
        after.last().prev == slot_before(order, p),
        after.last().next == Some(order[p]),
        after_head == (if p == 0 {
            Some(before.len() as usize)
        } else {
            head
        }),
        forall|k: int| 0 <= k < before.len() ==> (#[trigger] after[k]).value == before[k].value,
        forall|k: int|
            0 <= k < before.len() ==> (#[trigger] after[k]).prev == (if k == order[p] {
                Some(before.len() as usize)
            } else {
                before[k].prev
            }),
        forall|k: int|
            0 <= k < before.len() ==> (#[trigger] after[k]).next == (if p > 0 && k == order[p - 1] {
                Some(before.len() as usize)
            } else {
                before[k].next
            }),
    ensures
        linked(after, after_head, tail, order.insert(p, before.len() as usize)),
        contents(after, order.insert(p, before.len() as usize)) == contents(before, order).insert(
            p,
            after.last().value,
        ),
{
    let slot = before.len() as usize;
    let grown = order.insert(p, slot);
    assert forall|i: int| 0 <= i < order.len() implies order[i] < slot by {
        assert(link_at(before, order, i));
    }
    assert forall|i: int| 0 <= i < grown.len() implies #[trigger] link_at(after, grown, i) by {
        if i < p {
            assert(link_at(before, order, i));
        } else if i > p {
            assert(link_at(before, order, i - 1));
        }
    }
}

/// `after` holds the nodes of `before` with the two links of each exchanged.
pub(crate) open spec fn flipped<T>(before: Seq<Node<T>>, after: Seq<Node<T>>) -> bool {
    &&& after.len() == before.len()
    &&& forall|k: int|
        0 <= k < before.len() ==> {
            &&& (#[trigger] after[k]).value == before[k].value
            &&& after[k].prev == before[k].next
            &&& after[k].next == before[k].prev
        }
}

/// Exchanging the links of every node, and the two ends, reverses the chain.
pub(crate) proof fn lemma_flip<T>(
    before: Seq<Node<T>>,
    head: Option<usize>,
    tail: Option<usize>,
    order: Seq<usize>,
    after: Seq<Node<T>>,
)
    requires
        linked(before, head, tail, order),
        flipped(before, after),
    ensures
        linked(after, tail, head, order.reverse()),
        contents(after, order.reverse()) == contents(before, order).reverse(),
{
    let turned = order.reverse();
    let n = order.len() as int;
    assert forall|i: int| 0 <= i < n implies #[trigger] link_at(after, turned, i) by {
        assert(link_at(before, order, n - 1 - i));
    }
    assert forall|i: int| 0 <= i < n implies contents(after, turned)[i] == contents(
        before,
        order,
    ).reverse()[i] by {
        assert(link_at(before, order, n - 1 - i));
    }
}

/// The chain visits every slot of the arena.
pub(crate) proof fn lemma_every_slot_visited<T>(
    nodes: Seq<Node<T>>,
    head: Option<usize>,
    tail: Option<usize>,
    order: Seq<usize>,
    slot: usize,
)
    requires
        linked(nodes, head, tail, order),
        slot < nodes.len() <= usize::MAX,
    ensures
        exists|i: int| 0 <= i < order.len() && order[i] == slot,
{
    let visited = order.to_set();
    let all = Set::<usize>::range(0, nodes.len() as usize);
    order.unique_seq_to_set();
    seq_to_set_is_finite(order);
    range_set_properties::<usize>(0, nodes.len() as usize);
    assert forall|s: usize| visited.contains(s) implies all.contains(s) by {
        let i = choose|i: int| 0 <= i < order.len() && order[i] == s;
        assert(link_at(nodes, order, i));
    }
    lemma_subset_equality(visited, all);
    assert(all.contains(slot));
}

/// The links of every node point into the arena.
pub(crate) proof fn lemma_links_inside<T>(
    nodes: Seq<Node<T>>,
    head: Option<usize>,
    tail: Option<usize>,
    order: Seq<usize>,
    slot: usize,
)
    requires
        linked(nodes, head, tail, order),
        slot < nodes.len() <= usize::MAX,
    ensures
        nodes[slot as int].prev matches Some(p) ==> p < nodes.len(),
        nodes[slot as int].next matches Some(n) ==> n < nodes.len(),
{
    lemma_every_slot_visited(nodes, head, tail, order, slot);
    let i = choose|i: int| 0 <= i < order.len() && order[i] == slot;
    assert(link_at(nodes, order, i));
    if i > 0 {
        assert(link_at(nodes, order, i - 1));
    }
    if i + 1 < order.len() {
        assert(link_at(nodes, order, i + 1));
    }
}

/// A link moved along with its arena by `by` slots.
pub(crate) open spec fn shifted(link: Option<usize>, by: int) -> Option<usize> {
    match link {
        Some(slot) => Some((slot + by) as usize),
        None => None,
    }
}

/// The order of a chain whose arena was moved by `by` slots.
pub(crate) open spec fn shifted_order(order: Seq<usize>, by: int) -> Seq<usize> {
    Seq::new(order.len(), |i: int| (order[i] + by) as usize)
}

/// Putting the arena of a second chain behind that of a first one, with its
/// links moved along, and tying the first tail to the second head, gives one
/// chain whose contents are those of the first followed by those of the
/// second.
pub(crate) proof fn lemma_join<T>(
    first: Seq<Node<T>>,
    first_head: Option<usize>,
    first_tail: Option<usize>,
    first_order: Seq<usize>,
    second: Seq<Node<T>>,
    second_head: Option<usize>,
    second_tail: Option<usize>,
    second_order: Seq<usize>,
    after: Seq<Node<T>>,
    after_head: Option<usize>,
    after_tail: Option<usize>,
)
    requires
        linked(first, first_head, first_tail, first_order),
        linked(second, second_head, second_tail, second_order),
        after.len() == first.len() + second.len() <= usize::MAX,
        after_head == (if first.len() > 0 {
            first_head
        } else {
            shifted(second_head, first.len() as int)
        }),
        after_tail == (if second.len() > 0 {
            shifted(second_tail, first.len() as int)
        } else {
            first_tail
        }),
        forall|k: int|
            0 <= k < first.len() ==> {
                &&& (#[trigger] after[k]).value == first[k].value
                &&& after[k].prev == first[k].prev
                &&& after[k].next == (if Some(k as usize) == first_tail {
                    shifted(second_head, first.len() as int)
                } else {
                    first[k].next
                })
            },
        forall|k: int|
            first.len() <= k < after.len() ==> {
                &&& (#[trigger] after[k]).value == second[k - first.len()].value
                &&& after[k].next == shifted(second[k - first.len()].next, first.len() as int)
                &&& after[k].prev == (if Some((k - first.len()) as usize) == second_head
                    && first.len() > 0 {
                    first_tail
                } else {
                    shifted(second[k - first.len()].prev, first.len() as int)
                })
            },
    ensures
        linked(
            after,
            after_head,
            after_tail,
            first_order + shifted_order(second_order, first.len() as int),
        ),
        contents(after, first_order + shifted_order(second_order, first.len() as int)) == contents(
            first,
            first_order,
        ) + contents(second, second_order),
{
    let n = first.len() as int;
    let m = second.len() as int;
    let joined = first_order + shifted_order(second_order, n);
    assert forall|i: int| 0 <= i < n implies first_order[i] < n by {
        assert(link_at(first, first_order, i));
    }
    assert forall|i: int| 0 <= i < m implies second_order[i] < m by {
        assert(link_at(second, second_order, i));
    }
    assert forall|i: int| 0 <= i < n + m implies #[trigger] link_at(after, joined, i) by {
        if i < n {
            assert(link_at(first, first_order, i));
        } else {
            assert(link_at(second, second_order, i - n));
        }
    }
}

} // verus!
