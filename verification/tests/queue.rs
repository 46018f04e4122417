use priority_queue::PriorityQueue;

#[derive(Debug)]
enum NonPartialOrd {
    One,
    Two,
    Three,
}

#[test]
fn new() {
    let mut queue = PriorityQueue::new(vec![3, 2, 6, 5, 1, 4]);
    assert_eq!(queue.take_front(), Some(1));
    assert_eq!(queue.take_front(), Some(2));
    assert_eq!(queue.take_front(), Some(3));
    assert_eq!(queue.take_front(), Some(4));
    assert_eq!(queue.take_front(), Some(5));
    assert_eq!(queue.take_front(), Some(6));
    assert_eq!(queue.take_front(), None);
}

#[test]
fn insert() {
    let mut queue = PriorityQueue::new(vec![1, 5, 9]);
    queue.insert(8);
    assert_eq!(queue.take_front(), Some(1));
    assert_eq!(queue.take_front(), Some(5));
    assert_eq!(queue.take_front(), Some(8));
    assert_eq!(queue.take_front(), Some(9));
    assert_eq!(queue.take_front(), None);
}

#[test]
fn custom_comparator_ascending() {
    let mut queue = PriorityQueue::with_ordering(vec![3, 2, 6, 5, 1, 4], |a, b| a < b);
    assert_eq!(queue.take_front(), Some(1));
    assert_eq!(queue.take_front(), Some(2));
    assert_eq!(queue.take_front(), Some(3));
    assert_eq!(queue.take_front(), Some(4));
    assert_eq!(queue.take_front(), Some(5));
    assert_eq!(queue.take_front(), Some(6));
    assert_eq!(queue.take_front(), None);
}

#[test]
fn custom_comparator_descending() {
    let mut queue = PriorityQueue::with_ordering(vec![3, 2, 6, 5, 1, 4], |a, b| a > b);
    assert_eq!(queue.take_front(), Some(6));
    assert_eq!(queue.take_front(), Some(5));
    assert_eq!(queue.take_front(), Some(4));
    assert_eq!(queue.take_front(), Some(3));
    assert_eq!(queue.take_front(), Some(2));
    assert_eq!(queue.take_front(), Some(1));
    assert_eq!(queue.take_front(), None);
}

#[test]
fn non_partial_ord() {
    // Order by: a < b
    let mut queue = PriorityQueue::with_ordering(
        vec![NonPartialOrd::Two, NonPartialOrd::One, NonPartialOrd::Three],
        |a, b| match (a, b) {
            (NonPartialOrd::One, NonPartialOrd::Two)
            | (NonPartialOrd::One, NonPartialOrd::Three)
            | (NonPartialOrd::Two, NonPartialOrd::Three) => true,
            (_, _) => false,
        },
    );

    match queue.take_front() {
        Some(NonPartialOrd::One) => { /* good! */ }
        x @ _ => panic!("{x:?} != Some(One)"),
    }
    match queue.take_front() {
        Some(NonPartialOrd::Two) => { /* good! */ }
        x @ _ => panic!("{x:?} != Some(Two)"),
    }
    match queue.take_front() {
        Some(NonPartialOrd::Three) => { /* good! */ }
        x @ _ => panic!("{x:?} != Some(Three)"),
    }
    match queue.take_front() {
        None => { /* good! */ }
        x @ _ => panic!("{x:?} != None"),
    }
}
