use linked_list::{List, ListError};

fn forward(list: &List<i32>) -> Vec<i32> {
    let mut seen = Vec::new();
    let mut cursor = list.iter();
    while let Some(value) = cursor.next() {
        seen.push(*value);
    }
    seen
}

fn backward(list: &List<i32>) -> Vec<i32> {
    let mut seen = Vec::new();
    let mut cursor = list.rev_iter();
    while let Some(value) = cursor.next() {
        seen.push(*value);
    }
    seen
}

#[test]
fn new_list_is_empty() {
    let list: List<i32> = List::new();
    assert_eq!(list.len(), 0);
    assert_eq!(forward(&list), Vec::<i32>::new());
    assert_eq!(backward(&list), Vec::<i32>::new());
}

#[test]
fn append_and_prepend_scenario() {
    let mut list = List::new();
    list.append(1);
    list.append(2);
    list.prepend(0);
    assert_eq!(forward(&list), vec![0, 1, 2]);
    assert_eq!(list.nth(1), Ok(&1));
    assert_eq!(backward(&list), vec![2, 1, 0]);
}

#[test]
fn insert_in_range_scenario() {
    let mut list = List::from_vec(vec![0, 1, 2]);
    list.insert(99, 1);
    assert_eq!(forward(&list), vec![0, 99, 1, 2]);
    assert_eq!(backward(&list), vec![2, 1, 99, 0]);
}

#[test]
fn insert_out_of_range_appends() {
    let mut list = List::from_vec(vec![0, 1, 2]);
    list.insert(5, 100);
    assert_eq!(forward(&list), vec![0, 1, 2, 5]);
    assert_eq!(backward(&list), vec![5, 2, 1, 0]);
}

#[test]
fn insert_at_length_appends() {
    let mut list = List::from_vec(vec![0, 1, 2]);
    list.insert(7, 3);
    assert_eq!(forward(&list), vec![0, 1, 2, 7]);
}

#[test]
fn insert_negative_appends() {
    let mut list = List::from_vec(vec![0, 1, 2]);
    list.insert(7, -1);
    assert_eq!(forward(&list), vec![0, 1, 2, 7]);
    list.insert(8, i32::MIN);
    assert_eq!(forward(&list), vec![0, 1, 2, 7, 8]);
}

#[test]
fn insert_at_zero_is_new_head() {
    let mut list = List::from_vec(vec![1, 2]);
    list.insert(0, 0);
    assert_eq!(forward(&list), vec![0, 1, 2]);
    assert_eq!(list.first(), Ok(&0));
    assert_eq!(backward(&list), vec![2, 1, 0]);
}

#[test]
fn insert_before_last() {
    let mut list = List::from_vec(vec![1, 2, 3]);
    list.insert(9, 2);
    assert_eq!(forward(&list), vec![1, 2, 9, 3]);
    assert_eq!(list.last(), Ok(&3));
    assert_eq!(backward(&list), vec![3, 9, 2, 1]);
}

#[test]
fn insert_into_empty() {
    let mut list = List::new();
    list.insert(4, 0);
    assert_eq!(forward(&list), vec![4]);
    assert_eq!(backward(&list), vec![4]);
}

#[test]
fn concat_scenario() {
    let mut first = List::from_vec(vec![1, 2]);
    let second = List::from_vec(vec![3, 4]);
    first.concat(second);
    assert_eq!(forward(&first), vec![1, 2, 3, 4]);
    assert_eq!(backward(&first), vec![4, 3, 2, 1]);
    assert_eq!(first.len(), 4);
}

#[test]
fn concat_onto_empty() {
    let mut first: List<i32> = List::new();
    first.concat(List::from_vec(vec![3, 4]));
    assert_eq!(forward(&first), vec![3, 4]);
    assert_eq!(backward(&first), vec![4, 3]);
    assert_eq!(first.first(), Ok(&3));
    assert_eq!(first.last(), Ok(&4));
}

#[test]
fn concat_of_empty() {
    let mut first = List::from_vec(vec![1, 2]);
    first.concat(List::new());
    assert_eq!(forward(&first), vec![1, 2]);
    assert_eq!(backward(&first), vec![2, 1]);
}

#[test]
fn concat_of_shuffled_arenas() {
    let mut first = List::new();
    first.prepend(2);
    first.prepend(1);
    first.insert(10, 1);
    let mut second = List::new();
    second.prepend(4);
    second.append(5);
    second.prepend(3);
    second.reverse();
    first.concat(second);
    assert_eq!(forward(&first), vec![1, 10, 2, 5, 4, 3]);
    assert_eq!(backward(&first), vec![3, 4, 5, 2, 10, 1]);
    first.append(6);
    first.prepend(0);
    assert_eq!(forward(&first), vec![0, 1, 10, 2, 5, 4, 3, 6]);
}

#[test]
fn from_vec_iterates_in_order() {
    let items = vec![5, 3, 8, 1];
    let list = List::from_vec(items.clone());
    assert_eq!(forward(&list), items);
    assert_eq!(backward(&list), vec![1, 8, 3, 5]);
}

#[test]
fn from_slice_copies_in_order() {
    let items = [7, 7, 2];
    let list = List::from_slice(&items);
    assert_eq!(forward(&list), vec![7, 7, 2]);
    assert_eq!(list.len(), 3);
}

#[test]
fn from_iter_collects_in_order() {
    let list = List::from_iter(vec![4, 5, 6].into_iter());
    assert_eq!(forward(&list), vec![4, 5, 6]);
}

#[test]
fn extend_adds_at_the_end() {
    let mut list = List::from_vec(vec![1]);
    list.extend(vec![2, 3].into_iter());
    assert_eq!(forward(&list), vec![1, 2, 3]);
    list.extend(Vec::new().into_iter());
    assert_eq!(forward(&list), vec![1, 2, 3]);
    list.extend(4..6);
    assert_eq!(forward(&list), vec![1, 2, 3, 4, 5]);
}

#[test]
fn len_counts_what_a_cursor_gives() {
    let list = List::from_vec(vec![0; 128]);
    let mut cursor = list.iter();
    let mut count = 0;
    while cursor.next().is_some() {
        count += 1;
    }
    assert_eq!(count, 128);
    assert_eq!(list.len(), 128);
    let mut cursor = list.rev_iter();
    let mut count = 0;
    while cursor.next().is_some() {
        count += 1;
    }
    assert_eq!(count, 128);
}

#[test]
fn append_then_nth_last() {
    let mut list = List::from_vec(vec![1, 2, 3]);
    list.append(42);
    assert_eq!(list.nth((list.len() - 1) as u32), Ok(&42));
}

#[test]
fn prepend_then_nth_zero() {
    let mut list = List::from_vec(vec![1, 2, 3]);
    list.prepend(42);
    assert_eq!(list.nth(0), Ok(&42));
}

#[test]
fn nth_out_of_bounds() {
    let list = List::from_vec(vec![1, 2, 3]);
    assert_eq!(list.nth(2), Ok(&3));
    assert_eq!(list.nth(3), Err(ListError::OutOfBounds));
    assert_eq!(list.nth(u32::MAX), Err(ListError::OutOfBounds));
    let empty: List<i32> = List::new();
    assert_eq!(empty.nth(0), Err(ListError::OutOfBounds));
}

#[test]
fn first_and_last() {
    let list = List::from_vec(vec![1, 2, 3]);
    assert_eq!(list.first(), Ok(&1));
    assert_eq!(list.last(), Ok(&3));
    let one = List::from_vec(vec![9]);
    assert_eq!(one.first(), Ok(&9));
    assert_eq!(one.last(), Ok(&9));
}

#[test]
fn first_and_last_of_empty() {
    let list: List<i32> = List::new();
    assert_eq!(list.first(), Err(ListError::EmptyContainer));
    assert_eq!(list.last(), Err(ListError::EmptyContainer));
}

#[test]
fn index_reads_by_position() {
    let mut list = List::from_vec(vec![10, 20, 30]);
    list.prepend(0);
    assert_eq!(list[0], 0);
    assert_eq!(list[1], 10);
    assert_eq!(list[3], 30);
}

#[test]
fn reverse_swaps_ends() {
    let mut list = List::from_vec(vec![1, 2, 3]);
    list.reverse();
    assert_eq!(forward(&list), vec![3, 2, 1]);
    assert_eq!(backward(&list), vec![1, 2, 3]);
    assert_eq!(list.first(), Ok(&3));
    assert_eq!(list.last(), Ok(&1));
    assert_eq!(list.nth(1), Ok(&2));
}

#[test]
fn reverse_twice_restores() {
    let mut list = List::from_vec(vec![4, 1, 3, 2]);
    list.reverse();
    list.reverse();
    assert_eq!(forward(&list), vec![4, 1, 3, 2]);
    assert_eq!(backward(&list), vec![2, 3, 1, 4]);
}

#[test]
fn reverse_of_empty_and_single() {
    let mut empty: List<i32> = List::new();
    empty.reverse();
    assert_eq!(empty.len(), 0);
    assert_eq!(empty.first(), Err(ListError::EmptyContainer));
    let mut one = List::from_vec(vec![5]);
    one.reverse();
    assert_eq!(forward(&one), vec![5]);
}

#[test]
fn mutation_after_reverse() {
    let mut list = List::from_vec(vec![1, 2, 3]);
    list.reverse();
    list.append(0);
    list.prepend(4);
    list.insert(9, 2);
    assert_eq!(forward(&list), vec![4, 3, 9, 2, 1, 0]);
    assert_eq!(backward(&list), vec![0, 1, 2, 9, 3, 4]);
}

#[test]
fn clone_is_equal_and_independent() {
    let source = List::from_vec(vec![1, 2, 3]);
    let mut copy = source.clone();
    assert_eq!(forward(&copy), forward(&source));
    copy.append(4);
    copy.reverse();
    assert_eq!(source.len(), 3);
    assert_eq!(forward(&source), vec![1, 2, 3]);
    assert_eq!(forward(&copy), vec![4, 3, 2, 1]);
}

#[test]
fn clone_of_strings_is_deep() {
    let source = List::from_vec(vec![String::from("a"), String::from("b")]);
    let mut copy = source.clone();
    copy.prepend(String::from("z"));
    assert_eq!(source.len(), 2);
    assert_eq!(source.first(), Ok(&String::from("a")));
    assert_eq!(copy.first(), Ok(&String::from("z")));
    assert_eq!(copy.last(), Ok(&String::from("b")));
}

#[test]
fn clear_empties() {
    let mut list = List::from_vec(vec![1, 2, 3]);
    list.clear();
    assert_eq!(list.len(), 0);
    assert_eq!(list.first(), Err(ListError::EmptyContainer));
    assert_eq!(list.last(), Err(ListError::EmptyContainer));
    assert_eq!(list.nth(0), Err(ListError::OutOfBounds));
    assert_eq!(forward(&list), Vec::<i32>::new());
}

#[test]
fn reuse_after_clear() {
    let mut list = List::from_vec(vec![1, 2, 3]);
    list.clear();
    list.append(7);
    list.prepend(6);
    assert_eq!(forward(&list), vec![6, 7]);
    assert_eq!(backward(&list), vec![7, 6]);
}

#[test]
fn cursor_stays_exhausted() {
    let list = List::from_vec(vec![1]);
    let mut cursor = list.iter();
    assert_eq!(cursor.next(), Some(&1));
    assert_eq!(cursor.next(), None);
    assert_eq!(cursor.next(), None);
    let mut back = list.rev_iter();
    assert_eq!(back.next(), Some(&1));
    assert_eq!(back.next(), None);
    assert_eq!(back.next(), None);
}

#[test]
fn cursors_are_independent() {
    let list = List::from_vec(vec![1, 2, 3]);
    let mut a = list.iter();
    let mut b = list.iter();
    assert_eq!(a.next(), Some(&1));
    assert_eq!(a.next(), Some(&2));
    assert_eq!(b.next(), Some(&1));
    assert_eq!(a.next(), Some(&3));
    assert_eq!(b.next(), Some(&2));
}

#[test]
fn error_variants_differ() {
    assert_ne!(ListError::OutOfBounds, ListError::EmptyContainer);
    assert_eq!(format!("{:?}", ListError::OutOfBounds), "OutOfBounds");
    assert_eq!(format!("{:?}", ListError::EmptyContainer), "EmptyContainer");
}
