use priority_queue::PriorityQueue;
use std::cell::Cell;

fn drain<T, F: Fn(&T, &T) -> bool>(queue: &mut PriorityQueue<T, F>) -> Vec<T> {
    let mut out = Vec::new();
    while let Some(x) = queue.take_front() {
        out.push(x);
    }
    out
}

fn permutations(items: &mut Vec<u32>, from: usize, out: &mut Vec<Vec<u32>>) {
    if from == items.len() {
        out.push(items.clone());
        return;
    }
    for i in from..items.len() {
        items.swap(from, i);
        permutations(items, from + 1, out);
        items.swap(from, i);
    }
}

/// A small linear congruential generator, so that the long runs below are
/// the same on every machine.
fn next(state: &mut u64) -> u64 {
    *state = state.wrapping_mul(6364136223846793005).wrapping_add(1442695040888963407);
    *state >> 33
}

#[test]
fn empty_input_gives_an_empty_queue() {
    let mut queue = PriorityQueue::new(Vec::<i32>::new());
    assert_eq!(queue.take_front(), None);
}

#[test]
fn taking_from_an_empty_queue_can_be_repeated() {
    let mut queue = PriorityQueue::new(vec![7]);
    assert_eq!(queue.take_front(), Some(7));
    for _ in 0..5 {
        assert_eq!(queue.take_front(), None);
    }
    queue.insert(3);
    queue.insert(2);
    assert_eq!(queue.take_front(), Some(2));
    assert_eq!(queue.take_front(), Some(3));
    assert_eq!(queue.take_front(), None);
    assert_eq!(queue.take_front(), None);
}

#[test]
fn insert_into_an_empty_queue() {
    let mut queue = PriorityQueue::new(Vec::new());
    queue.insert(4);
    assert_eq!(queue.take_front(), Some(4));
    assert_eq!(queue.take_front(), None);
}

#[test]
fn a_last_position_with_a_left_child_only() {
    let mut queue = PriorityQueue::new(vec![2, 1]);
    assert_eq!(drain(&mut queue), vec![1, 2]);
    let mut queue = PriorityQueue::new(vec![4, 3, 2, 1]);
    assert_eq!(drain(&mut queue), vec![1, 2, 3, 4]);
    let mut queue = PriorityQueue::new(vec![10, 60, 20, 50, 30, 40]);
    assert_eq!(queue.take_front(), Some(10));
    // Five are left, then four: the last parent has one child, then two.
    assert_eq!(queue.take_front(), Some(20));
    assert_eq!(drain(&mut queue), vec![30, 40, 50, 60]);
}

#[test]
fn equal_elements_all_come_out() {
    let mut queue = PriorityQueue::new(vec![2, 1, 2, 1, 1, 3, 2]);
    assert_eq!(drain(&mut queue), vec![1, 1, 1, 2, 2, 2, 3]);
}

#[test]
fn every_permutation_of_five_drains_sorted() {
    let mut all = Vec::new();
    permutations(&mut vec![1, 2, 3, 4, 5], 0, &mut all);
    assert_eq!(all.len(), 120);
    for data in all {
        let mut queue = PriorityQueue::new(data.clone());
        assert_eq!(drain(&mut queue), vec![1, 2, 3, 4, 5], "built from {:?}", data);
        let mut queue = PriorityQueue::with_ordering(data.clone(), |a, b| a > b);
        assert_eq!(drain(&mut queue), vec![5, 4, 3, 2, 1], "built from {:?}", data);
    }
}

#[test]
fn every_permutation_of_five_inserted_drains_sorted() {
    let mut all = Vec::new();
    permutations(&mut vec![1, 2, 3, 4, 5], 0, &mut all);
    for data in all {
        let mut queue = PriorityQueue::new(Vec::new());
        for x in data.iter() {
            queue.insert(*x);
        }
        assert_eq!(drain(&mut queue), vec![1, 2, 3, 4, 5], "inserted {:?}", data);
    }
}

#[test]
fn long_run_drains_sorted_and_keeps_every_element() {
    let mut state = 42u64;
    let data: Vec<u64> = (0..1000).map(|_| next(&mut state) % 500).collect();
    let mut expected = data.clone();
    expected.sort();
    let mut queue = PriorityQueue::new(data);
    assert_eq!(drain(&mut queue), expected);
    assert_eq!(queue.take_front(), None);
}

#[test]
fn the_front_is_least_after_every_operation() {
    let mut state = 7u64;
    let mut model: Vec<u64> = Vec::new();
    let mut queue = PriorityQueue::new(Vec::new());
    for _ in 0..2000 {
        if next(&mut state) % 3 == 0 {
            let expected = if model.is_empty() { None } else { Some(model.remove(0)) };
            assert_eq!(queue.take_front(), expected);
        } else {
            let x = next(&mut state) % 100;
            queue.insert(x);
            let at = model.iter().position(|y| *y > x).unwrap_or(model.len());
            model.insert(at, x);
        }
    }
    assert_eq!(drain(&mut queue), model);
}

#[test]
fn insert_adds_one_and_take_front_removes_one() {
    let mut queue = PriorityQueue::new(vec![5, 3, 8]);
    queue.insert(1);
    queue.insert(9);
    assert_eq!(queue.take_front(), Some(1));
    // 3 + 2 - 1 elements are left.
    assert_eq!(drain(&mut queue).len(), 4);
    assert_eq!(queue.take_front(), None);
    assert_eq!(drain(&mut queue).len(), 0);
}

#[test]
fn a_new_least_element_rises_to_the_root() {
    let mut queue = PriorityQueue::new(vec![5, 6, 7, 8, 9]);
    queue.insert(1);
    assert_eq!(queue.take_front(), Some(1));
    queue.insert(10);
    assert_eq!(drain(&mut queue), vec![5, 6, 7, 8, 9, 10]);
}

#[test]
fn natural_order_of_floats() {
    let mut queue = PriorityQueue::new(vec![2.5, -1.0, 7.25, 0.0]);
    assert_eq!(drain(&mut queue), vec![-1.0, 0.0, 2.5, 7.25]);
}

#[test]
fn a_value_that_does_not_compare_is_not_less() {
    // Nothing is less than NaN and NaN is less than nothing: it stays at the
    // root it was given, and the others then leave in order.
    let mut queue = PriorityQueue::new(vec![f64::NAN, 1.0, 0.5]);
    assert!(matches!(queue.take_front(), Some(x) if x.is_nan()));
    assert_eq!(queue.take_front(), Some(0.5));
    assert_eq!(queue.take_front(), Some(1.0));
    assert_eq!(queue.take_front(), None);
}

#[test]
fn natural_order_of_strings() {
    let words = vec!["pear".to_string(), "apple".to_string(), "fig".to_string()];
    let mut queue = PriorityQueue::new(words);
    assert_eq!(queue.take_front(), Some("apple".to_string()));
    assert_eq!(queue.take_front(), Some("fig".to_string()));
    assert_eq!(queue.take_front(), Some("pear".to_string()));
    assert_eq!(queue.take_front(), None);
}

#[test]
fn ordered_by_a_key_only() {
    let data = vec![(3, 'x'), (1, 'y'), (2, 'z')];
    let mut queue = PriorityQueue::with_ordering(data, |a: &(u8, char), b: &(u8, char)| a.0 < b.0);
    assert_eq!(drain(&mut queue), vec![(1, 'y'), (2, 'z'), (3, 'x')]);
}

#[test]
fn equivalent_elements_leave_in_the_order_the_array_gives() {
    // Nothing is less than anything else, so building moves nothing; each
    // extraction puts the last element at the root, where it stays.
    let data = vec![(1, 'a'), (1, 'b'), (1, 'c')];
    let mut queue = PriorityQueue::with_ordering(data, |a: &(u8, char), b: &(u8, char)| a.0 < b.0);
    assert_eq!(queue.take_front(), Some((1, 'a')));
    assert_eq!(queue.take_front(), Some((1, 'c')));
    assert_eq!(queue.take_front(), Some((1, 'b')));
    assert_eq!(queue.take_front(), None);
}

#[test]
fn of_two_equivalent_children_the_right_one_moves_up() {
    // Both children are less than the root and neither is less than the
    // other: the right child takes the root's place.
    let data = vec![(2, 'r'), (1, 'a'), (1, 'b')];
    let mut queue = PriorityQueue::with_ordering(data, |a: &(u8, char), b: &(u8, char)| a.0 < b.0);
    assert_eq!(queue.take_front(), Some((1, 'b')));
    assert_eq!(queue.take_front(), Some((1, 'a')));
    assert_eq!(queue.take_front(), Some((2, 'r')));
}

#[test]
fn the_predicate_is_asked_only_where_there_is_a_child() {
    let calls = Cell::new(0usize);
    let counted = |a: &i32, b: &i32| {
        calls.set(calls.get() + 1);
        a < b
    };
    let mut queue = PriorityQueue::with_ordering(vec![1], &counted);
    assert_eq!(calls.get(), 0);
    assert_eq!(queue.take_front(), Some(1));
    assert_eq!(calls.get(), 0);

    // One parent with a left child only: one question.
    let mut queue = PriorityQueue::with_ordering(vec![1, 2], &counted);
    assert_eq!(calls.get(), 1);
    assert_eq!(queue.take_front(), Some(1));
    assert_eq!(calls.get(), 1);

    // Root 3 over 2 and 1: the left child is less, so the right one is not
    // asked about; then the two children are compared.
    calls.set(0);
    let mut queue = PriorityQueue::with_ordering(vec![3, 2, 1], &counted);
    assert_eq!(calls.get(), 2);
    assert_eq!(queue.take_front(), Some(1));
}

#[test]
fn insert_at_the_root_asks_nothing() {
    let calls = Cell::new(0usize);
    let counted = |a: &i32, b: &i32| {
        calls.set(calls.get() + 1);
        a < b
    };
    let mut queue = PriorityQueue::with_ordering(Vec::new(), &counted);
    queue.insert(5);
    assert_eq!(calls.get(), 0);
    // The second element is compared with the root once and stays.
    queue.insert(6);
    assert_eq!(calls.get(), 1);
    // The third rises to the root: one comparison, then it has no parent.
    queue.insert(1);
    assert_eq!(calls.get(), 2);
    assert_eq!(queue.take_front(), Some(1));
}

#[test]
fn a_predicate_that_is_no_ordering_loses_no_element() {
    let mut queue = PriorityQueue::with_ordering(vec![3, 1, 2, 5, 4], |_a: &i32, _b: &i32| true);
    queue.insert(6);
    let mut out = drain(&mut queue);
    assert_eq!(out.len(), 6);
    out.sort();
    assert_eq!(out, vec![1, 2, 3, 4, 5, 6]);
    assert_eq!(queue.take_front(), None);
}
