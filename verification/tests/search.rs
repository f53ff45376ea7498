use algorithms::search::binary_search;

#[test]
fn test_binary_search() {
    let test1 = vec![1, 3, 5, 7, 9, 12, 22, 500, 7000];
    let right_pointer = (test1.len() - 1) as u32;

    assert_eq!(binary_search(test1.clone(), 0, right_pointer, 5), Some(2));
    assert_eq!(binary_search(test1.clone(), 0, right_pointer, 1), Some(0));
    assert_eq!(
        binary_search(test1.clone(), 0, right_pointer, 7000),
        Some(8)
    );
    assert_eq!(binary_search(test1.clone(), 0, right_pointer, 17), None);
    assert_eq!(binary_search(test1.clone(), 0, right_pointer, 23), None);
}

#[test]
fn binary_search_in_a_part_of_the_vector() {
    let sorted = vec![1, 3, 5, 7, 9];
    assert_eq!(binary_search(sorted.clone(), 1, 3, 7), Some(3));
    assert_eq!(binary_search(sorted.clone(), 1, 3, 9), None);
    assert_eq!(binary_search(sorted.clone(), 1, 3, 1), None);
    assert_eq!(binary_search(sorted.clone(), 2, 2, 5), Some(2));
    assert_eq!(binary_search(sorted.clone(), 3, 2, 5), None);
    assert_eq!(binary_search(sorted.clone(), 0, 4, 10), None);
    assert_eq!(binary_search(sorted, 0, 4, 1), Some(0));
}

#[test]
fn binary_search_with_an_empty_range() {
    assert_eq!(binary_search(vec![], 1, 0, 5), None);
}
