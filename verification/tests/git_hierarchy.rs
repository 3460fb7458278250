use git_hierarchy::git_hierarchy::{
    base_name, highest_summand_number, load, parse_summand_ref, segment_names, start_name, sum_names,
    summand_number, summand_ref_name, summand_ref_names, summands_to_remove, GitHierarchy, LoadError, NameError,
    Segment, Sum,
};
use git_hierarchy::graph::discover::Discovery;

#[test]
fn test_formatting_and_helper_names() {
    assert_eq!(base_name("feature"), "refs/base/feature");
    assert_eq!(start_name("feature"), "refs/start/feature");
}

#[test]
fn test_node_expander_name_variant() {
    let gh_name = GitHierarchy::Name("custom-name".to_string());
    assert_eq!(gh_name.node_identity(), "custom-name");
}

#[test]
fn names_are_checked_against_options_and_git() {
    assert_eq!(Segment::name_is_valid("feature").unwrap(), true);
    assert_eq!(Segment::name_is_valid("-option_inject").unwrap(), false);
    assert_eq!(Segment::name_is_valid("../bad_segment").unwrap(), false);
    assert_eq!(Segment::name_is_valid("bad..segment").unwrap(), false);
    assert_eq!(Segment::name_is_valid("HEAD").unwrap(), false);
    assert!(Segment::name_is_valid("nul\0byte").is_err());
    match Segment::check_name_is_valid("-invalid-summand") {
        Err(e) => assert_eq!(e.message(), "invalid reference name: -invalid-summand"),
        Ok(()) => panic!("expected an invalid name"),
    }
    assert!(Segment::check_name_is_valid("master").is_ok());
    assert!(matches!(Segment::check_name_is_valid("a b"), Err(NameError::Invalid(_))));
}

#[test]
fn summand_references_are_numbered() {
    assert_eq!(summand_ref_name("my-sum", 1), "refs/sums/my-sum/1");
    assert_eq!(summand_ref_name("s", 120), "refs/sums/s/120");
    assert_eq!(summand_ref_names("s", 2, 2), vec!["refs/sums/s/3", "refs/sums/s/4"]);
    assert_eq!(parse_summand_ref("refs/sums/my-sum/12"), Some(("my-sum", "12")));
    assert_eq!(parse_summand_ref("refs/sums/bad_sum_no_slash"), None);
    assert_eq!(summand_number("my-sum", "refs/sums/my-sum/12"), Some(12));
    assert_eq!(summand_number("other", "refs/sums/my-sum/12"), None);
    assert_eq!(summand_number("my-sum", "refs/sums/my-sum/x"), None);
}

#[test]
fn sums_and_segments_are_read_from_reference_names() {
    let refs: Vec<String> = vec![
        "refs/sums/a/1".into(),
        "refs/sums/b/1".into(),
        "refs/sums/a/2".into(),
        "refs/sums/bad_sum_no_slash".into(),
        "refs/sums//3".into(),
    ];
    assert_eq!(sum_names(&refs), vec!["a", "b"]);
    assert_eq!(highest_summand_number(&refs), 3);
    let bases: Vec<String> = vec!["refs/base/x".into(), "refs/base/".into(), "refs/heads/y".into()];
    assert_eq!(segment_names(&bases), vec!["x"]);
}

#[test]
fn sums_number_new_summands_after_the_highest() {
    let sum = Sum::new("refs/heads/my-sum", vec!["refs/sums/my-sum/1".into(), "refs/sums/my-sum/4".into()]);
    assert_eq!(sum.name(), "my-sum");
    assert_eq!(sum.numbered_summands(), vec![(0, 1), (1, 4)]);
    assert_eq!(sum.next_summand_names(1), vec!["refs/sums/my-sum/5"]);
    let resolved = vec![(0, "refs/heads/b1".to_string()), (1, "refs/heads/b2".to_string())];
    let unwanted = vec!["refs/heads/b2".to_string(), "refs/heads/zz".to_string()];
    assert_eq!(summands_to_remove(&resolved, &unwanted), vec![1]);
}

#[test]
fn loading_classifies_the_node() {
    let seg = load("refs/heads/feature", Some("refs/heads/main"), Some("refs/start/feature"), vec![]).unwrap();
    match &seg {
        GitHierarchy::Segment(s) => {
            assert_eq!(s.name(), "feature");
            assert_eq!(s.git_revisions(), "refs/start/feature..refs/heads/feature");
        }
        _ => panic!("Expected GitHierarchy::Segment"),
    }
    assert_eq!(seg.node_identity(), "feature");
    assert!(matches!(
        load("refs/heads/feature", Some("refs/heads/main"), None, vec![]),
        Err(LoadError::StartNotFound)
    ));
    let sum = load("refs/heads/my-sum", None, None, vec!["refs/sums/my-sum/1".into()]).unwrap();
    assert_eq!(sum.node_identity(), "my-sum");
    let plain = load("refs/heads/main", None, None, vec![]).unwrap();
    assert_eq!(plain.node_identity(), "refs/heads/main");
}

#[test]
fn discovery_orders_bases_before_what_grows_on_them() {
    let mut d = Discovery::new("top");
    let mut neighbors = |name: &str| -> Vec<String> {
        match name {
            "top" => vec!["left".into(), "right".into()],
            "left" => vec!["base".into()],
            "right" => vec!["base".into()],
            _ => vec![],
        }
    };
    while let Some(name) = d.pending() {
        let n = neighbors(name);
        d.supply(&n);
    }
    assert_eq!(d.names(), &vec!["top", "left", "right", "base"]);
    let order: Vec<String> = d.order().unwrap().into_iter().map(|i| d.names()[i].clone()).collect();
    let pos = |n: &str| order.iter().position(|x| x == n).unwrap();
    assert!(pos("base") < pos("left"));
    assert!(pos("base") < pos("right"));
    assert!(pos("left") < pos("top"));
    assert!(pos("right") < pos("top"));
}

#[test]
fn discovery_reports_a_cycle() {
    let mut d = Discovery::new("a");
    d.supply(&vec!["b".to_string()]);
    d.supply(&vec!["a".to_string()]);
    assert!(d.pending().is_none());
    assert!(d.order().is_none());
}

#[test]
fn test_load_plain_reference() {
    let loaded = load("refs/heads/main", None, None, vec![]).unwrap();
    if let GitHierarchy::Reference(r) = loaded {
        assert_eq!(r, "refs/heads/main");
    } else {
        panic!("Expected GitHierarchy::Reference");
    }
}

#[test]
fn test_segment_creation_and_load() {
    let loaded = load("refs/heads/feature", Some("refs/heads/main"), Some("refs/start/feature"), vec![]).unwrap();
    if let GitHierarchy::Segment(loaded_seg) = loaded {
        assert_eq!(loaded_seg.name(), "feature");
        assert_eq!(loaded_seg.git_revisions(), "refs/start/feature..refs/heads/feature");
        assert_eq!(GitHierarchy::Segment(loaded_seg).node_identity(), "feature");
    } else {
        panic!("Expected GitHierarchy::Segment");
    }
    let seg_list = segment_names(&vec!["refs/base/feature".to_string()]);
    assert!(seg_list.contains(&"feature".to_string()));
}

#[test]
fn test_sum_creation_and_load() {
    let summands = vec!["refs/sums/my-sum/1".to_string(), "refs/sums/my-sum/2".to_string()];
    let loaded = load("refs/heads/my-sum", None, None, summands.clone()).unwrap();
    if let GitHierarchy::Sum(loaded_sum) = loaded {
        assert_eq!(loaded_sum.name(), "my-sum");
        assert_eq!(GitHierarchy::Sum(loaded_sum).node_identity(), "my-sum");
    } else {
        panic!("Expected GitHierarchy::Sum");
    }
    let sum_list = sum_names(&summands);
    assert!(sum_list.contains(&"my-sum".to_string()));
}

#[test]
fn test_reject_invalid_branch_names() {
    assert!(Segment::check_name_is_valid("../bad_segment").is_err());
    assert!(Segment::check_name_is_valid("bad..segment").is_err());
    assert!(Segment::check_name_is_valid("-option_inject").is_err());
    assert!(Segment::check_name_is_valid("../bad_sum").is_err());
    assert!(Segment::check_name_is_valid("-option_sum").is_err());
}

#[test]
fn test_malformed_reference_parsing() {
    let refs = vec!["refs/sums/bad_sum_no_slash".to_string()];
    let s_list = sum_names(&refs);
    let seg_list = segment_names(&refs);
    assert!(s_list.is_empty());
    assert!(seg_list.is_empty());
}

#[test]
fn discovery_adds_each_new_neighbor_once() {
    let mut d = Discovery::new("a");
    d.supply(&vec!["b".to_string(), "b".to_string(), "a".to_string(), "c".to_string()]);
    assert_eq!(d.names(), &vec!["a", "b", "c"]);
    assert_eq!(d.neighbors(), &vec![vec![1, 1, 0, 2]]);
    assert_eq!(d.pending(), Some("b"));
}
