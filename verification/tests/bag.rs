use set_partitions::bag::{sort_tail, UnslottedItems};

fn drain(bag: &mut UnslottedItems) -> Vec<usize> {
    let mut out = Vec::new();
    while let Some(x) = bag.pop_least_above(0) {
        out.push(x);
    }
    out
}

#[test]
fn new_bag_is_empty() {
    let bag = UnslottedItems::new(4);
    assert!(bag.is_empty());
    assert_eq!(bag.max(), None);
    assert_eq!(bag.as_slice(), &[] as &[usize]);
}

#[test]
fn insert_keeps_ascending_order() {
    let mut bag = UnslottedItems::new(4);
    bag.insert(5);
    bag.insert(2);
    bag.insert(9);
    bag.insert(3);
    assert_eq!(bag.as_slice(), &[2, 3, 5, 9]);
    assert_eq!(bag.max(), Some(9));
    assert!(!bag.is_empty());
}

#[test]
fn insert_all_is_repeated_insert() {
    let mut a = UnslottedItems::new(0);
    a.insert_all(&[7, 1, 4]);
    let mut b = UnslottedItems::new(0);
    b.insert(7);
    b.insert(1);
    b.insert(4);
    assert_eq!(a.as_slice(), b.as_slice());
    assert_eq!(a.as_slice(), &[1, 4, 7]);
}

#[test]
fn pop_least_above_takes_the_least_greater_element() {
    let mut bag = UnslottedItems::new(0);
    bag.insert_all(&[2, 4, 6, 8]);
    assert_eq!(bag.pop_least_above(4), Some(4));
    assert_eq!(bag.pop_least_above(4), Some(6));
    assert_eq!(bag.as_slice(), &[2, 8]);
    assert_eq!(bag.pop_least_above(5), Some(8));
    assert_eq!(bag.as_slice(), &[2]);
}

#[test]
fn pop_least_above_rejects_when_nothing_is_greater() {
    let mut bag = UnslottedItems::new(0);
    assert_eq!(bag.pop_least_above(0), None);
    bag.insert_all(&[1, 2, 3]);
    assert_eq!(bag.pop_least_above(3), None);
    assert_eq!(bag.pop_least_above(7), None);
    assert_eq!(bag.as_slice(), &[1, 2, 3]);
}

#[test]
fn pop_least_above_in_ascending_order_empties_the_bag() {
    let mut bag = UnslottedItems::new(0);
    bag.insert_all(&[3, 1, 2]);
    assert_eq!(drain(&mut bag), vec![1, 2, 3]);
    assert!(bag.is_empty());
}

#[test]
fn clear_empties_the_bag() {
    let mut bag = UnslottedItems::new(0);
    bag.insert_all(&[3, 1, 2]);
    bag.clear();
    assert!(bag.is_empty());
    assert_eq!(bag.max(), None);
}

#[test]
fn sort_tail_sorts_behind_a_sorted_prefix() {
    let mut items = [1usize, 4, 9, 3, 0, 7];
    sort_tail(&mut items, 3);
    assert_eq!(items, [0, 1, 3, 4, 7, 9]);
}

#[test]
fn sort_tail_leaves_equal_entries_in() {
    let mut items = [2usize, 2, 5, 2];
    sort_tail(&mut items, 3);
    assert_eq!(items, [2, 2, 2, 5]);
}

#[test]
fn sort_tail_with_whole_prefix_changes_nothing() {
    let mut items = [3usize, 1, 2];
    sort_tail(&mut items, 3);
    assert_eq!(items, [3, 1, 2]);
    sort_tail(&mut items, 10);
    assert_eq!(items, [3, 1, 2]);
}
