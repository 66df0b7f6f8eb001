use online_algorithms::list_update::linked_list::{LinkedList, ListType};
use std::collections::HashMap;

#[test]
fn test_simple_access() {
    let mut list = LinkedList::new(ListType::Simple);
    let access_data = [(1, 0), (2, 1), (3, 2), (3, 3)];
    for (value, expected) in access_data {
        assert_eq!(list.access(value), expected);
    }
    let pop_data: [Option<u32>; 4] = [Some(1), Some(2), Some(3), None];
    for expected in pop_data {
        assert_eq!(list.pop(), expected);
    }
}

#[test]
fn test_mtf_access() {
    let mut list = LinkedList::new(ListType::MoveToFront);
    let access_data = [(1, 0), (2, 1), (3, 2), (1, 1), (3, 3), (3, 1)];
    for (value, expected) in access_data {
        assert_eq!(list.access(value), expected);
    }
    let pop_data: [Option<u32>; 4] = [Some(3), Some(1), Some(2), None];
    for expected in pop_data {
        assert_eq!(list.pop(), expected);
    }
}

#[test]
fn test_transpose_access() {
    let mut list = LinkedList::new(ListType::Transpose);
    let access_data = [(1, 0), (2, 1), (3, 2), (1, 1), (3, 3), (3, 2)];
    for (value, expected) in access_data {
        assert_eq!(list.access(value), expected);
    }
    let pop_data: [Option<u32>; 4] = [Some(3), Some(1), Some(2), None];
    for expected in pop_data {
        assert_eq!(list.pop(), expected);
    }
}

#[test]
fn test_count_access() {
    let mut list = LinkedList::new(ListType::Count(HashMap::new()));
    let access_data = [(1, 0), (2, 1), (3, 2), (1, 1), (3, 3), (3, 2)];
    for (value, expected) in access_data {
        assert_eq!(list.access(value), expected);
    }
    let pop_data: [Option<u32>; 4] = [Some(3), Some(1), Some(2), None];
    for expected in pop_data {
        assert_eq!(list.pop(), expected);
    }
}

#[test]
fn pop_on_empty_list_returns_none() {
    let mut list = LinkedList::new(ListType::Simple);
    assert_eq!(list.pop(), None);
    assert_eq!(list.pop(), None);
}

#[test]
fn simple_access_keeps_the_order() {
    let mut list = LinkedList::new(ListType::Simple);
    for value in [10, 20, 30, 40] {
        list.access(value);
    }
    assert_eq!(list.access(40), 4);
    assert_eq!(list.access(20), 2);
    assert_eq!(list.access(10), 1);
    assert_eq!(list.access(50), 4);
    for expected in [Some(10), Some(20), Some(30), Some(40), Some(50), None] {
        assert_eq!(list.pop(), expected);
    }
}

#[test]
fn absent_value_costs_the_length_of_the_list() {
    for list_type in [
        ListType::Simple,
        ListType::MoveToFront,
        ListType::Transpose,
        ListType::Count(HashMap::new()),
    ] {
        let mut list = LinkedList::new(list_type);
        for (value, expected) in [(7, 0), (8, 1), (9, 2), (6, 3), (5, 4)] {
            assert_eq!(list.access(value), expected);
        }
        for expected in [Some(7), Some(8), Some(9), Some(6), Some(5), None] {
            assert_eq!(list.pop(), expected);
        }
    }
}

#[test]
fn move_to_front_keeps_only_the_items_before_the_accessed_one() {
    let mut list = LinkedList::new(ListType::MoveToFront);
    for value in [1, 2, 3, 4] {
        list.access(value);
    }
    assert_eq!(list.access(2), 2);
    for expected in [Some(2), Some(1), None] {
        assert_eq!(list.pop(), expected);
    }
}

#[test]
fn move_to_front_of_the_last_item_keeps_every_item() {
    let mut list = LinkedList::new(ListType::MoveToFront);
    for value in [1, 2, 3, 4] {
        list.access(value);
    }
    assert_eq!(list.access(4), 4);
    assert_eq!(list.access(4), 1);
    for expected in [Some(4), Some(1), Some(2), Some(3), None] {
        assert_eq!(list.pop(), expected);
    }
}

#[test]
fn transpose_moves_one_place_per_access() {
    let mut list = LinkedList::new(ListType::Transpose);
    for value in [1, 2, 3, 4] {
        list.access(value);
    }
    assert_eq!(list.access(4), 4);
    assert_eq!(list.access(4), 3);
    assert_eq!(list.access(4), 2);
    assert_eq!(list.access(4), 1);
    assert_eq!(list.access(4), 1);
    for expected in [Some(4), Some(1), Some(2), Some(3), None] {
        assert_eq!(list.pop(), expected);
    }
}

#[test]
fn transpose_of_a_middle_item_keeps_the_tail() {
    let mut list = LinkedList::new(ListType::Transpose);
    for value in [1, 2, 3, 4] {
        list.access(value);
    }
    assert_eq!(list.access(2), 2);
    for expected in [Some(2), Some(1), Some(3), Some(4), None] {
        assert_eq!(list.pop(), expected);
    }
}

#[test]
fn count_list_rises_past_items_with_fewer_accesses_only() {
    let mut list = LinkedList::new(ListType::Count(HashMap::new()));
    for (value, expected) in [(1, 0), (2, 1), (3, 2)] {
        assert_eq!(list.access(value), expected);
    }
    // 3 now has two accesses and passes 2 and 1.
    assert_eq!(list.access(3), 3);
    // 2 now has two accesses: it passes 1 but not 3, which has as many.
    assert_eq!(list.access(2), 3);
    assert_eq!(list.access(2), 2);
    // 2 has three accesses now and stands first.
    assert_eq!(list.access(2), 1);
    for expected in [Some(2), Some(3), Some(1), None] {
        assert_eq!(list.pop(), expected);
    }
}

#[test]
fn count_list_leaves_equal_counts_in_order() {
    let mut list = LinkedList::new(ListType::Count(HashMap::new()));
    for value in [5, 6, 7, 8] {
        list.access(value);
    }
    assert_eq!(list.access(5), 1);
    assert_eq!(list.access(8), 4);
    // 8 and 5 both have two accesses; 8 stops behind 5.
    for expected in [Some(5), Some(8), Some(6), Some(7), None] {
        assert_eq!(list.pop(), expected);
    }
}

#[test]
fn count_list_starts_a_popped_value_again_at_one() {
    let mut list = LinkedList::new(ListType::Count(HashMap::new()));
    assert_eq!(list.access(1), 0);
    assert_eq!(list.access(1), 1);
    assert_eq!(list.access(1), 1);
    assert_eq!(list.access(2), 1);
    assert_eq!(list.pop(), Some(1));
    // 1 comes back with a single access and stays behind 2.
    assert_eq!(list.access(1), 1);
    assert_eq!(list.access(1), 2);
    for expected in [Some(1), Some(2), None] {
        assert_eq!(list.pop(), expected);
    }
}
