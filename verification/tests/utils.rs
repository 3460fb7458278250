use git_hierarchy::utils::{
    concatenate, extract_name, iterator_difference, iterator_symmetric_difference,
    iterator_symmetric_difference_indirect,
};

#[derive(Clone)]
struct Wrapper(i32);

#[test]
fn test_concatenate() {
    assert_eq!("Hello World", concatenate("Hello ", "World"));
}

#[test]
fn test_extract_name() {
    assert_eq!("name", extract_name("name"));
    assert_eq!("name", extract_name("heads/name"));
    assert_eq!("name", extract_name("refs/heads/name"));
    assert_eq!("feature/branch", extract_name("ref: refs/heads/feature/branch"));
    assert_eq!("master", extract_name("ref: master"));
}

#[test]
fn test_iterator_symmetric_difference() {
    let real = [1, 2, 10, 16];
    let selected = [0, 2, 5, 6];

    let (mut unselected, missing) = iterator_symmetric_difference(real.to_vec(), selected.to_vec());

    unselected.sort();
    assert_eq!(&unselected, &[1, 10, 16]);
    assert_eq!(&missing, &[0, 5, 6]);
}

#[test]
fn test_iterator_symmetric_difference_indirect() {
    let set1 = vec![1, 2, 10, 16];
    let set2 = vec![Wrapper(0), Wrapper(2), Wrapper(5), Wrapper(6)];

    let (mut unselected, missing) = iterator_symmetric_difference_indirect(set1, set2, |w: &Wrapper| w.0);

    unselected.sort();
    assert_eq!(unselected, vec![1, 10, 16]);

    let missing_vals: Vec<i32> = missing.into_iter().map(|w| w.0).collect();
    assert_eq!(missing_vals, vec![0, 5, 6]);
}

#[test]
fn test_iterator_difference() {
    let real = [1, 2, 10, 16];
    let selected = [0, 2, 5, 6];

    let mut minus = iterator_difference(selected.to_vec(), real.to_vec()).into_iter();

    assert_eq!(minus.next(), Some(0));
    assert_eq!(minus.next(), Some(5));
    assert_eq!(minus.next(), Some(6));
    assert_eq!(minus.next(), None);
}

#[test]
fn extract_name_strips_each_prefix_once() {
    assert_eq!("heads/x", extract_name("refs/heads/heads/x"));
    assert_eq!("refs/x", extract_name("refs/refs/x"));
    assert_eq!("", extract_name("refs/heads/"));
    assert_eq!("ref:x", extract_name("ref:x"));
}

#[test]
fn symmetric_difference_takes_each_value_once() {
    // the second 2 finds no value left to take
    let (mut left, missing) = iterator_symmetric_difference(vec![2, 2, 3], vec![2, 2, 4]);
    left.sort();
    assert_eq!(left, vec![3]);
    assert_eq!(missing, vec![2, 4]);
}

#[test]
fn symmetric_difference_of_equal_sets_is_empty() {
    let (left, missing) = iterator_symmetric_difference(vec![5, 1, 9], vec![9, 5, 1]);
    assert!(left.is_empty());
    assert!(missing.is_empty());
}

#[test]
fn difference_keeps_order_and_duplicates() {
    assert_eq!(iterator_difference(vec![3, 1, 3, 2], vec![2]), vec![3, 1, 3]);
    assert_eq!(iterator_difference(Vec::<u64>::new(), vec![1]), Vec::<u64>::new());
}
