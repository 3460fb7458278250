use git_hierarchy::poset::{
    clone_name, extract_remote_name, get_merge_commit_message, gitk_arguments, merge_command_line,
    nodes_to_visit, rebound_base, remap_names, remerge_plan, NodeOutlook, Remapping, Remerge,
};

#[test]
fn test_extract_remote_name() {
    assert_eq!(extract_remote_name("refs/remotes/origin/main"), Some(("origin", "main")));
    assert_eq!(
        extract_remote_name("refs/remotes/upstream/feature/branch"),
        Some(("upstream", "feature/branch"))
    );
    assert_eq!(extract_remote_name("refs/heads/main"), None);
    assert_eq!(extract_remote_name("invalid_ref"), None);
    assert_eq!(extract_remote_name("refs/remotes/no_slash"), None);
}

#[test]
fn merge_message_lists_summands_three_to_a_line() {
    let msg = get_merge_commit_message("all", "a", &vec!["b", "c", "d", "e", "f"]);
    assert_eq!(msg, "Sum: all\n\na + b\n + c + d + e\n + f");
    assert_eq!(get_merge_commit_message("s", "x", &vec![]), "Sum: s\n\nx");
}

#[test]
fn octopus_command_line_ends_with_the_summands() {
    let cmd = merge_command_line("msg", &vec!["one", "two", "three"]);
    assert_eq!(
        cmd,
        vec![
            "merge", "-m", "msg", "--rerere-autoupdate", "--strategy", "octopus", "--strategy",
            "recursive", "--strategy-option", "patience", "--strategy-option", "ignore-space-change",
            "--", "one", "two", "three",
        ]
    );
}

#[test]
fn remerge_only_when_summands_and_parents_disagree() {
    assert_eq!(remerge_plan(0, 0, 5), Remerge::UpToDate);
    assert_eq!(remerge_plan(1, 0, 3), Remerge::Octopus);
    assert_eq!(remerge_plan(0, 1, 2), Remerge::Merge);
}

#[test]
fn excluded_nodes_are_not_visited() {
    let names = vec!["refs/heads/a".to_string(), "b".to_string(), "c".to_string()];
    let excluded = vec!["b".to_string()];
    assert_eq!(nodes_to_visit(&names, &excluded), vec![0, 2]);
    assert_eq!(nodes_to_visit(&names, &vec![]), vec![0, 1, 2]);
}

#[test]
fn gitk_shows_stale_tops_and_hides_plain_references() {
    let nodes = vec![
        NodeOutlook::Reference { name: "refs/heads/main".to_string() },
        NodeOutlook::Segment { uptodate: false, base: "refs/heads/main".to_string() },
        NodeOutlook::Segment { uptodate: true, base: "refs/heads/other".to_string() },
        NodeOutlook::Sum { uptodate: false, name: "top".to_string() },
        NodeOutlook::Segment { uptodate: false, base: "refs/heads/main".to_string() },
        NodeOutlook::Reference { name: "refs/heads/main".to_string() },
        NodeOutlook::Unloaded,
    ];
    assert_eq!(
        gitk_arguments("top", &nodes),
        vec!["top", "refs/heads/main", "^refs/heads/main"]
    );
}

#[test]
fn clone_names_take_or_swap_a_suffix() {
    assert_eq!(clone_name("feature", &vec!["-v2".to_string()]), "feature-v2");
    assert_eq!(clone_name("feature-v1", &vec!["-v1".to_string(), "-v2".to_string()]), "feature-v2");
    assert_eq!(clone_name("feature", &vec!["-v1".to_string(), "-v2".to_string()]), "feature-v2");
}

#[test]
fn remapping_reports_a_second_replacement() {
    let mut remap = Remapping::new();
    assert!(remap.register("refs/heads/a", "refs/heads/a2").is_ok());
    assert_eq!(remap.register("refs/heads/a", "refs/heads/a3"), Err("refs/heads/a".to_string()));
    // the second replacement is kept, and reported
    assert_eq!(remap.get("refs/heads/a"), Some("refs/heads/a3"));
    assert_eq!(remap.get("refs/heads/b"), None);
    let names = vec!["refs/heads/b".to_string(), "refs/heads/a".to_string()];
    assert_eq!(remap_names(&remap, &names), vec!["refs/heads/b", "refs/heads/a3"]);
}

#[test]
fn a_replaced_segment_keeps_its_base() {
    let mut remap = Remapping::new();
    remap.register("refs/heads/base", "refs/heads/base2").unwrap();
    assert_eq!(rebound_base(&remap, "refs/heads/seg", "refs/heads/base"), Some("refs/heads/base2"));
    remap.register("refs/heads/seg", "refs/heads/seg2").unwrap();
    assert_eq!(rebound_base(&remap, "refs/heads/seg", "refs/heads/base"), None);
}
