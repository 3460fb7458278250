use git_hierarchy::collected::{try_collect, Collected};

#[test]
fn collected_test_simple() {
    let input = vec!["1", "2", "3"];
    let res = try_collect(input.iter().map(|s| s.parse::<i32>()).collect());
    assert_eq!(res, Collected::Complete(vec![1, 2, 3]));

    let input = vec!["1", "2", "oops", "4"];
    let res = try_collect(input.iter().map(|s| s.parse::<i32>()).collect());
    assert_eq!(res, Collected::Fail(vec![1, 2]));
}

#[test]
fn test_empty_input() {
    let input: Vec<&str> = vec![];
    let res = try_collect(input.iter().map(|s| s.parse::<i32>()).collect());
    assert_eq!(res, Collected::Complete(vec![]));
}

#[test]
fn collection_stops_at_the_first_error() {
    let items: Vec<Result<u8, &str>> = vec![Err("first"), Ok(1), Err("second")];
    assert_eq!(try_collect(items), Collected::Fail(vec![]));
}
