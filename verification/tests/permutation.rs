use git_hierarchy::permutation::reorder_by_permutation;

#[test]
fn permutation_test_simple() {
    let string = "Hello World";

    let mut characters: Vec<char> = string.chars().collect();
    let mut permutation: Vec<usize> = (0..string.len()).collect();

    permutation.swap(0, 6);
    reorder_by_permutation(&mut characters, &permutation);

    let s: String = characters.into_iter().collect();
    assert_eq!(s, "Wello Horld");
}

#[test]
fn test_identity_permutation() {
    let mut data = vec!["a", "b", "c", "d"];
    let perm = vec![0, 1, 2, 3];
    reorder_by_permutation(&mut data, &perm);
    assert_eq!(data, vec!["a", "b", "c", "d"]);
}

#[test]
fn test_rotation_cycle() {
    // [10, 20, 30] -> permutation [1, 2, 0] means element at 0 moves to 1, 1 to 2, 2 to 0
    let mut data = vec![10, 20, 30];
    let perm = vec![1, 2, 0];
    reorder_by_permutation(&mut data, &perm);
    assert_eq!(data, vec![30, 10, 20]);
}

#[test]
fn test_multiple_disjoint_cycles() {
    let mut data = vec![10, 20, 30, 40];
    let perm = vec![1, 0, 3, 2];
    reorder_by_permutation(&mut data, &perm);
    assert_eq!(data, vec![20, 10, 40, 30]);
}

#[test]
fn test_empty_and_single() {
    let mut empty: Vec<i32> = vec![];
    reorder_by_permutation(&mut empty, &[]);
    assert!(empty.is_empty());

    let mut single = vec![42];
    reorder_by_permutation(&mut single, &[0]);
    assert_eq!(single, vec![42]);
}

#[test]
fn long_cycle_moves_every_element_to_its_target() {
    let mut data = vec!['a', 'b', 'c', 'd', 'e'];
    let perm = vec![3, 0, 4, 1, 2];
    reorder_by_permutation(&mut data, &perm);
    // data[perm[i]] is the old data[i]
    assert_eq!(data, vec!['b', 'd', 'e', 'a', 'c']);
}

#[test]
fn reordering_by_a_permutation_and_its_inverse_restores_the_order() {
    let initial = vec![5, 6, 7, 8, 9, 10];
    let perm = vec![2, 5, 0, 4, 1, 3];
    let mut inverse = vec![0; perm.len()];
    for (i, &p) in perm.iter().enumerate() {
        inverse[p] = i;
    }
    let mut data = initial.clone();
    reorder_by_permutation(&mut data, &perm);
    reorder_by_permutation(&mut data, &inverse);
    assert_eq!(data, initial);
}
