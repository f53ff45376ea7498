use algorithms::linked_lists::{remove_node, Node, TestData};
use algorithms::math::gen_random_vector;
use std::collections::LinkedList;

#[test]
fn test_node() {
    let node = Node::new(12);
    assert!(node.val == 12);

    let node = Node::new("loop");
    assert!(node.val == "loop");
}

#[test]
fn test_mock_gen() {
    let mock_list = TestData::gen_mock_dataset(0, 10, 5);

    println!("{:?}", mock_list);
}

#[test]
fn test_ll_generator() {
    let test1 = vec![1, 2, 3, 4, 5];

    let mut std_ll_1 = LinkedList::new();
    for el in &test1 {
        std_ll_1.push_back(Node::new(*el))
    }

    let data1 = TestData::gen_linked_list(test1);

    let mut iter1 = data1.data.iter();
    let mut ll_iter_1 = std_ll_1.iter();

    while let Some(el) = iter1.next() {
        assert_eq!(el.val, ll_iter_1.next().unwrap().val);
    }
}

#[test]
fn test_node_removal() {
    let test_ll = TestData::gen_linked_list(vec![1, 2, 3, 4, 5]);

    remove_node(test_ll.data, Node::new(2));
}

#[test]
fn test_rand_gen() {
    let vec1 = gen_random_vector(0, 10, 5);
    println!("vec1: {:?}", vec1);

    assert!(vec1.len() == 5);

    for el in vec1 {
        assert!(el < 10);
    }
}

#[test]
fn random_numbers_stay_in_their_range() {
    let drawn = gen_random_vector(-3, 4, 2000);
    assert_eq!(drawn.len(), 2000);
    assert!(drawn.iter().all(|el| -3 <= *el && *el < 4));
    assert!(drawn.iter().any(|el| *el != drawn[0]));
    assert_eq!(gen_random_vector(5, 6, 3), vec![5, 5, 5]);
    assert_eq!(gen_random_vector(i32::MIN, i32::MAX, 0), Vec::<i32>::new());
    let wide = gen_random_vector(i32::MIN, i32::MAX, 100);
    assert!(wide.iter().all(|el| *el < i32::MAX));
}

#[test]
fn mock_dataset_has_the_count_and_the_range() {
    let list = TestData::gen_mock_dataset(10, 20, 50);
    assert_eq!(list.data.len(), 50);
    assert!(list.data.iter().all(|node| 10 <= node.val && node.val < 20));
}

#[test]
fn generated_list_keeps_the_order() {
    let list = TestData::gen_linked_list(vec!["a", "b", "c"]);
    let values: Vec<&str> = list.data.iter().map(|node| node.val).collect();
    assert_eq!(values, vec!["a", "b", "c"]);
    assert!(TestData::gen_linked_list(Vec::<u8>::new()).data.is_empty());
}

#[test]
fn nodes_compare_by_value() {
    assert!(Node::new(3) == Node::new(3));
    assert!(Node::new(3) != Node::new(4));
}

#[test]
fn remove_node_counts_and_hands_the_list_back() {
    let (list, misses, before_last_hit) = remove_node(vec![1, 2, 3, 2, 5], 2);
    assert_eq!(list, vec![1, 2, 3, 2, 5]);
    assert_eq!(misses, 3);
    assert_eq!(before_last_hit, Some(2));

    let (list, misses, before_last_hit) = remove_node(vec![1, 2, 3], 9);
    assert_eq!(list, vec![1, 2, 3]);
    assert_eq!(misses, 3);
    assert_eq!(before_last_hit, None);

    let (list, misses, before_last_hit) = remove_node(Vec::<i32>::new(), 9);
    assert!(list.is_empty());
    assert_eq!(misses, 0);
    assert_eq!(before_last_hit, None);

    let (_, misses, before_last_hit) = remove_node(vec![7, 7], 7);
    assert_eq!(misses, 0);
    assert_eq!(before_last_hit, Some(0));
}
