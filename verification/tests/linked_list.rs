use algorithms::linked_list::LinkedList;

#[test]
fn test_ll_push() {
    let mut list = LinkedList::new();
    list.push(1);
    list.push(2);
    list.push(3);

    assert_eq!(list.pop(), Some(3));
    assert_eq!(list.pop(), Some(2));

    list.push(5);
    list.push(6);

    assert_eq!(list.pop(), Some(6));
    assert_eq!(list.pop(), Some(5));
    assert_eq!(list.pop(), Some(1));
    assert_eq!(list.pop(), None);
}

#[test]
fn test_peek() {
    let mut list = LinkedList::new();
    assert_eq!(list.peek(), None);
    assert_eq!(list.peek_mut(), None);
    list.push(1);
    list.push(2);
    list.push(3);
    assert_eq!(list.peek(), Some(&3));
    assert_eq!(list.peek_mut(), Some(&mut 3));

    list.peek_mut().map(|val| *val = 42);

    assert_eq!(list.peek(), Some(&42));
    assert_eq!(list.pop(), Some(42));
}

#[test]
fn test_into_iter() {
    let mut list = LinkedList::new();
    list.push(2);
    list.push(3);
    list.push(1);

    let mut iter = list.into_iter();

    assert_eq!(iter.next(), Some(1));
    assert_eq!(iter.next(), Some(3));
    assert_eq!(iter.next(), Some(2));
    assert_eq!(iter.next(), None);
}

#[test]
fn test_iter() {
    let mut list = LinkedList::new();
    list.push(2);
    list.push(3);
    list.push(1);

    let mut iter = list.iter();
    assert_eq!(iter.next(), Some(&1));
    assert_eq!(iter.next(), Some(&3));
    assert_eq!(iter.next(), Some(&2));
    assert_eq!(iter.next(), None);
}

#[test]
fn test_iter_mut() {
    let mut list = LinkedList::new();
    list.push(2);
    list.push(3);
    list.push(1);

    let mut iter = list.iter_mut();
    assert_eq!(iter.next(), Some(&mut 1));
    assert_eq!(iter.next(), Some(&mut 3));
    assert_eq!(iter.next(), Some(&mut 2));
    assert_eq!(iter.next(), None);
}

#[test]
fn test_node_finder() {
    let mut list = LinkedList::new();
    list.push(2);
    list.push(3);
    list.push(1);

    assert_eq!(list.find(1), Some(0));
    assert_eq!(list.find(3), Some(1));
    assert_eq!(list.find(2), Some(2));
    assert_eq!(list.find(5), None);
}

#[test]
fn lifo_order_of_many_values() {
    let mut list = LinkedList::new();
    for v in 0..1000u32 {
        list.push(v);
    }
    for v in (0..1000u32).rev() {
        assert_eq!(list.pop(), Some(v));
    }
    assert_eq!(list.pop(), None);
}

#[test]
fn length_is_conserved_by_pushes_and_pops() {
    let mut list = LinkedList::new();
    for v in 0..10 {
        list.push(v);
    }
    for _ in 0..4 {
        list.pop();
    }
    let mut iter = list.into_iter();
    let mut count = 0;
    while iter.next().is_some() {
        count += 1;
    }
    assert_eq!(count, 6);
}

#[test]
fn pop_on_empty_list_stays_absent() {
    let mut list: LinkedList<i32> = LinkedList::new();
    assert_eq!(list.pop(), None);
    assert_eq!(list.pop(), None);
    list.push(7);
    assert_eq!(list.pop(), Some(7));
    assert_eq!(list.pop(), None);
    assert_eq!(list.pop(), None);
}

#[test]
fn exhausted_iterators_stay_exhausted() {
    let mut list = LinkedList::new();
    list.push(1);

    let mut iter = list.iter();
    assert_eq!(iter.next(), Some(&1));
    assert_eq!(iter.next(), None);
    assert_eq!(iter.next(), None);

    let mut iter = list.iter_mut();
    assert_eq!(iter.next(), Some(&mut 1));
    assert_eq!(iter.next(), None);
    assert_eq!(iter.next(), None);

    let mut iter = list.into_iter();
    assert_eq!(iter.next(), Some(1));
    assert_eq!(iter.next(), None);
    assert_eq!(iter.next(), None);
}

#[test]
fn peek_agrees_with_following_pop() {
    let mut list = LinkedList::new();
    list.push(10);
    list.push(20);
    let seen = list.peek().copied();
    assert_eq!(seen, Some(20));
    assert_eq!(list.pop(), seen);
    let seen = list.peek().copied();
    assert_eq!(list.pop(), seen);
    assert_eq!(list.peek(), None);
}

#[test]
fn find_returns_first_of_equal_values() {
    let mut list = LinkedList::new();
    list.push(4);
    list.push(9);
    list.push(4);
    list.push(7);
    assert_eq!(list.find(4), Some(1));
    assert_eq!(list.find(9), Some(2));
    assert_eq!(list.find(7), Some(0));
    assert_eq!(list.find(0), None);
}

#[test]
fn find_on_empty_list_is_absent() {
    let mut list: LinkedList<i32> = LinkedList::new();
    assert_eq!(list.find(1), None);
}

#[test]
fn find_leaves_the_list_as_it_was() {
    let mut list = LinkedList::new();
    list.push(2);
    list.push(3);
    assert_eq!(list.find(2), Some(1));
    assert_eq!(list.pop(), Some(3));
    assert_eq!(list.pop(), Some(2));
    assert_eq!(list.pop(), None);
}

#[test]
fn all_traversals_visit_in_the_same_order() {
    let mut list = LinkedList::new();
    list.push(2);
    list.push(3);
    list.push(1);

    let mut by_ref = Vec::new();
    let mut iter = list.iter();
    while let Some(v) = iter.next() {
        by_ref.push(*v);
    }
    let mut by_mut = Vec::new();
    let mut iter = list.iter_mut();
    while let Some(v) = iter.next() {
        by_mut.push(*v);
    }
    let mut by_value = Vec::new();
    let mut iter = list.into_iter();
    while let Some(v) = iter.next() {
        by_value.push(v);
    }
    assert_eq!(by_ref, vec![1, 3, 2]);
    assert_eq!(by_mut, vec![1, 3, 2]);
    assert_eq!(by_value, vec![1, 3, 2]);
}

#[test]
fn shared_traversals_coexist() {
    let mut list = LinkedList::new();
    list.push(1);
    list.push(2);
    let mut first = list.iter();
    let mut second = list.iter();
    assert_eq!(first.next(), Some(&2));
    assert_eq!(second.next(), Some(&2));
    assert_eq!(first.next(), Some(&1));
    assert_eq!(second.next(), Some(&1));
}

#[test]
fn mutation_through_iter_mut_is_seen_afterwards() {
    let mut list = LinkedList::new();
    list.push(2);
    list.push(3);
    list.push(1);
    {
        let mut iter = list.iter_mut();
        while let Some(v) = iter.next() {
            *v *= 10;
        }
    }
    assert_eq!(list.peek(), Some(&10));
    assert_eq!(list.pop(), Some(10));
    assert_eq!(list.pop(), Some(30));
    assert_eq!(list.pop(), Some(20));
    assert_eq!(list.pop(), None);
}

#[test]
fn mutation_through_peek_mut_is_seen_by_pop() {
    let mut list = LinkedList::new();
    list.push(1);
    list.push(2);
    if let Some(v) = list.peek_mut() {
        *v = 99;
    }
    assert_eq!(list.pop(), Some(99));
    assert_eq!(list.pop(), Some(1));
}

#[test]
fn teardown_of_a_long_list_does_not_exhaust_the_stack() {
    let mut list = LinkedList::new();
    for v in 0..200_000u32 {
        list.push(v);
    }
    drop(list);
}

#[test]
fn teardown_of_a_partly_consumed_traversal() {
    let mut list = LinkedList::new();
    for v in 0..150_000u32 {
        list.push(v);
    }
    let mut iter = list.into_iter();
    assert_eq!(iter.next(), Some(149_999));
    drop(iter);
}

#[test]
fn list_of_owned_strings() {
    let mut list = LinkedList::new();
    list.push(String::from("a"));
    list.push(String::from("b"));
    assert_eq!(list.find(String::from("a")), Some(1));
    assert_eq!(list.pop(), Some(String::from("b")));
}
