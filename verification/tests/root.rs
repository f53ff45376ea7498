use algorithms::{get_unique, has_dupes, max_return, remove_dupes, rotate_array};

#[test]
fn lib_test_dupes() {
    let test1 = vec![1, 2, 3, 4, 5];
    let test2 = vec![1, 1, 2, 2, 3, 3, 3, 4, 4, 5, 5];
    let test3 = vec![0, 0, 1, 2, 3, 4, 4, 6, 6];
    let test4 = vec![0];
    let test5 = vec![1, 1, 1, 1, 1, 1, 1, 1, 2];

    assert_eq!(vec![1, 2, 3, 4, 5], remove_dupes(test1));
    assert_eq!(vec![1, 2, 3, 4, 5], remove_dupes(test2));
    assert_eq!(vec![0, 1, 2, 3, 4, 6], remove_dupes(test3));
    assert_eq!(vec![0], remove_dupes(test4));
    assert_eq!(vec![1, 2], remove_dupes(test5));
}

#[test]
fn lib_test_profits() {
    let test1 = vec![7, 1, 5, 3, 6, 4];
    let test2 = vec![1, 2, 3, 4, 5];
    let test3 = vec![7, 6, 4, 3, 1];
    let test4 = vec![1, 7, 3, 4, 6, 9];

    assert_eq!(max_return(test1), 7);
    assert_eq!(max_return(test2), 4);
    assert_eq!(max_return(test3), 0);
    assert_eq!(max_return(test4), 12);
}

#[test]
fn lib_test_rotation() {
    let test1 = (vec![1, 2, 3, 4, 5], 3);
    let test2 = (vec![1, 2, 3, 4, 5], 2);
    let test3 = (vec![1, 2, 3, 4, 5], 4);
    let test4 = (vec![1], 2);

    assert_eq!(rotate_array(test1.0, test1.1), vec![3, 4, 5, 1, 2]);
    assert_eq!(rotate_array(test2.0, test2.1), vec![4, 5, 1, 2, 3]);
    assert_eq!(rotate_array(test3.0, test3.1), vec![2, 3, 4, 5, 1]);
    assert_eq!(rotate_array(test4.0, test4.1), vec![1]);
}

#[test]
fn lib_test_dupe_bool() {
    let test1 = vec![1, 1, 2, 3, 4, 5];
    let test2 = vec![0, 1, 2, 3, 4, 5];
    let test3 = vec![1, 2];
    let test4 = vec!["loop", "zoop", "goop", "loop"];
    let test5 = vec!["lol", "jimmy", "johnny"];

    assert!(!has_dupes(test1));
    assert!(has_dupes(test2));
    assert!(has_dupes(test3));
    assert!(!has_dupes(test4));
    assert!(has_dupes(test5));
}

#[test]
fn lib_test_unique() {
    let test1 = vec![1, 1, 1, 4, 4, 5];
    let test2 = vec![1, 1, 1, 1, 4];
    let test3 = vec![1, 1, 2, 2, 5, 6];
    let test4 = vec![1];
    let test5 = vec!["foo", "bar", "baz", "foo", "ding"];

    assert_eq!(vec![5], get_unique(test1));
    assert_eq!(vec![4], get_unique(test2));
    assert!(get_unique(test3.clone()).contains(&5) && get_unique(test3.clone()).contains(&6));
    assert!(!get_unique(test3.clone()).contains(&1) && !get_unique(test3.clone()).contains(&2));
    assert_eq!(vec![1], get_unique(test4));
    assert!(!get_unique(test5.clone()).contains(&"foo"));
    assert!(
        get_unique(test5.clone()).contains(&"bar")
            && get_unique(test5.clone()).contains(&"baz")
    );
}
