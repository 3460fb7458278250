use git_hierarchy::execute::ExecError;
use git_hierarchy::rebase::{
    check_segment, check_sum_parents, commits_to_replay, is_cherry_pick_applied, linear_ancestor_step,
    marker_content, match_commits_to_references, reflog_position, picked_commit_plan, processed_commit_record, resume_point,
    segment_rebase_plan, segment_to_continue, summands_check, AncestorSearch, PickedCommit, RebaseError,
    RepoState, SearchStep, SegmentRebase, WalkStep,
};

#[test]
fn test_rebase_error_display_and_conversions() {
    let err1 = RebaseError::WrongHierarchy("branch-a".to_string());
    assert_eq!(err1.message(), "hierarchy broken at branch-a");

    let err2 = RebaseError::WrongState(RepoState::Rebase);
    assert_eq!(err2.message(), "repository in wrong state during rebase: Rebase");

    let err2 = RebaseError::WrongMarkerFile("bad file".to_string());
    assert_eq!(err2.message(), "marker file wrong: \"bad file\"".to_string());

    let err3 = RebaseError::Default;
    assert_eq!(err3.message(), "rebase error");

    let git_err = git2::Error::from_str("some git error");
    let converted_git: RebaseError = git_err.into();
    assert!(matches!(converted_git, RebaseError::Git2(_)));
    assert_eq!(converted_git.message(), "some git error");

    let io_err = std::io::Error::new(std::io::ErrorKind::Other, "io error");
    let converted_io: RebaseError = io_err.into();
    assert!(matches!(converted_io, RebaseError::Io(_)));
    assert_eq!(converted_io.message(), "io error");

    let exec_err = ExecError::NoWorkDir;
    let converted_exec: RebaseError = exec_err.into();
    assert!(matches!(converted_exec, RebaseError::Execute(_)));
    assert_eq!(converted_exec.message(), "Repository has no working directory");

    let anyhow_err = anyhow::Error::msg("custom anyhow error");
    let converted_anyhow: RebaseError = anyhow_err.into();
    assert!(matches!(converted_anyhow, RebaseError::Anyhow(_)));
    assert_eq!(converted_anyhow.message(), "custom anyhow error");
}

#[test]
fn test_segment_to_continue_corrupt_marker() {
    assert!(segment_to_continue(None).unwrap().is_none());

    assert!(segment_to_continue(Some("")).is_err());

    assert!(segment_to_continue(Some("feature\nnot_a_number\nsome_oid\n")).is_err());
}

#[test]
fn marker_file_round_trip() {
    let mut content = marker_content("feature");
    assert_eq!(content, "feature\n");
    assert_eq!(segment_to_continue(Some(&content)).unwrap(), Some(("feature".to_string(), None)));

    let id = "0123456789abcdef0123456789abcdef01234567";
    content.push_str(&processed_commit_record(id, true));
    assert_eq!(content, format!("feature\n1\n{}\n", id));
    assert_eq!(
        segment_to_continue(Some(&content)).unwrap(),
        Some(("feature".to_string(), Some((id.to_string(), 1))))
    );

    // a later record wins
    content.push_str(&processed_commit_record("abc", false));
    assert_eq!(
        segment_to_continue(Some(&content)).unwrap(),
        Some(("feature".to_string(), Some(("abc".to_string(), 0))))
    );
}

#[test]
fn marker_file_errors_are_named() {
    let msg = |m: &str| match segment_to_continue(Some(m)) {
        Err(RebaseError::WrongMarkerFile(s)) => s,
        _ => panic!("expected a marker file error"),
    };
    assert_eq!(msg(""), "marker file empty");
    assert_eq!(msg("  \n"), "empty segment name in the marker file");
    assert_eq!(msg("-flag\n"), "empty segment name in the marker file");
    assert_eq!(msg("bad..name\n"), "empty segment name in the marker file");
    assert_eq!(msg("feature\nabc\n"), "no skip in the marker file");
    assert_eq!(msg("feature\nx\nabc\n"), "non-numeric skip in the marker file");
    // the name is trimmed, CRLF line ends are read, a `+` sign is accepted
    assert_eq!(
        segment_to_continue(Some(" feature \r\n+2\r\nabc\r\n")).unwrap(),
        Some(("feature".to_string(), Some(("abc".to_string(), 2))))
    );
}

#[test]
fn resume_point_follows_cherry_pick_head_or_the_record() {
    let id = "0123456789abcdef0123456789abcdef01234567";
    assert_eq!(resume_point(true, Some(&format!("{}\n", id)), None).unwrap(), (id.to_string(), 1));
    assert!(matches!(resume_point(true, None, None), Err(RebaseError::Default)));
    assert!(matches!(resume_point(true, Some("xyz"), None), Err(RebaseError::Default)));
    assert_eq!(resume_point(false, None, Some(("abc".to_string(), 3))).unwrap(), ("abc".to_string(), 3));
    match resume_point(false, None, Some(("nothex".to_string(), 0))) {
        Err(RebaseError::WrongMarkerFile(m)) => assert_eq!(m, "invalid OID in marker file"),
        _ => panic!("expected a marker file error"),
    }
    match resume_point(false, None, None) {
        Err(RebaseError::WrongMarkerFile(m)) => assert_eq!(m, "no commit info to continue from"),
        _ => panic!("expected a marker file error"),
    }
}

#[test]
fn replay_resumes_at_the_commit() {
    let walk: Vec<String> = vec!["a".into(), "b".into(), "c".into(), "d".into()];
    assert_eq!(commits_to_replay(&walk, "b", 0), Some(vec!["b".to_string(), "c".into(), "d".into()]));
    assert_eq!(commits_to_replay(&walk, "b", 1), Some(vec!["c".to_string(), "d".into()]));
    assert_eq!(commits_to_replay(&walk, "d", 5), Some(vec![]));
    assert_eq!(commits_to_replay(&walk, "z", 0), None);
}

#[test]
fn segment_rebase_plans() {
    assert_eq!(segment_rebase_plan(true, true, RepoState::Merge).unwrap(), SegmentRebase::Nothing);
    assert_eq!(segment_rebase_plan(false, true, RepoState::Merge).unwrap(), SegmentRebase::ResetToBase);
    assert!(matches!(
        segment_rebase_plan(false, false, RepoState::Merge),
        Err(RebaseError::WrongState(RepoState::Merge))
    ));
    assert_eq!(segment_rebase_plan(false, false, RepoState::Clean).unwrap(), SegmentRebase::CherryPick);
}

#[test]
fn cherry_pick_outcomes() {
    assert_eq!(picked_commit_plan(true, false, false), PickedCommit::Stop);
    assert_eq!(picked_commit_plan(false, true, false), PickedCommit::Stop);
    assert_eq!(picked_commit_plan(false, false, true), PickedCommit::KeepHead);
    assert_eq!(picked_commit_plan(false, false, false), PickedCommit::Commit);
    assert!(is_cherry_pick_applied(RepoState::CherryPick, false, false));
    assert!(!is_cherry_pick_applied(RepoState::Clean, false, false));
    assert!(is_cherry_pick_applied(RepoState::Clean, false, true));
}

#[test]
fn checks_name_the_broken_node() {
    assert!(check_segment("seg", true).is_ok());
    assert!(matches!(check_segment("seg", false), Err(RebaseError::WrongHierarchy(n)) if n == "seg"));
    assert!(check_sum_parents("sum", 2).is_ok());
    assert!(matches!(check_sum_parents("sum", 1), Err(RebaseError::WrongHierarchy(n)) if n == "sum"));
}

#[test]
fn greedy_matching_uses_swap_remove() {
    // A0 relates to B0 and B2, A1 to B2 only
    let related = vec![vec![true, false, true], vec![false, false, true]];
    // A0 takes B0; B2 moves into B0's place; A1 takes it
    assert_eq!(match_commits_to_references(&related, 3), (vec![], vec![1]));
    let related = vec![vec![false, false], vec![true, true]];
    assert_eq!(match_commits_to_references(&related, 2), (vec![0], vec![1]));
}

#[test]
fn a_sum_whose_summands_only_grew_is_in_order() {
    assert!(summands_check("s", 0, 0, &vec![]).is_ok());
    assert!(summands_check("s", 1, 1, &vec![vec![true]]).is_ok());
    assert!(matches!(summands_check("s", 1, 1, &vec![vec![false]]), Err(RebaseError::WrongHierarchy(n)) if n == "s"));
    assert!(summands_check("s", 1, 0, &vec![vec![]]).is_err());
}

#[test]
fn linear_ancestor_walk() {
    let mut s = AncestorSearch::AtDescendant;
    let steps = [
        WalkStep::Failed,
        WalkStep::Commit { is_ancestor: false, is_merge: false },
        WalkStep::Commit { is_ancestor: true, is_merge: true },
    ];
    let mut answer = None;
    for step in steps {
        match linear_ancestor_step(s, step) {
            SearchStep::Continue(next) => s = next,
            SearchStep::Answer(a) => {
                answer = Some(a);
                break;
            }
        }
    }
    // a failure at the first entry is passed over; the ancestor answers
    assert_eq!(answer, Some(true));
    assert_eq!(linear_ancestor_step(AncestorSearch::AtDescendant, WalkStep::End), SearchStep::Answer(false));
    assert_eq!(
        linear_ancestor_step(AncestorSearch::AtDescendant, WalkStep::Commit { is_ancestor: false, is_merge: true }),
        SearchStep::Answer(false)
    );
    assert_eq!(
        linear_ancestor_step(AncestorSearch::Walking, WalkStep::Commit { is_ancestor: false, is_merge: true }),
        SearchStep::Answer(false)
    );
    assert_eq!(linear_ancestor_step(AncestorSearch::Walking, WalkStep::End), SearchStep::Answer(false));
    assert_eq!(linear_ancestor_step(AncestorSearch::Walking, WalkStep::Failed), SearchStep::Answer(false));
}

/// The commits reachable from `d`, each before its parents, first parents
/// first (as a topological revision walk gives them).
fn topological_walk(parents: &[Vec<usize>], d: usize) -> Vec<usize> {
    let mut reachable = vec![false; parents.len()];
    let mut stack = vec![d];
    while let Some(x) = stack.pop() {
        if !reachable[x] {
            reachable[x] = true;
            stack.extend(parents[x].iter().copied());
        }
    }
    let mut walk: Vec<usize> = Vec::new();
    let mut queue = vec![d];
    while let Some(pos) = queue.iter().position(|&x| {
        (0..parents.len()).all(|c| !reachable[c] || !parents[c].contains(&x) || walk.contains(&c))
    }) {
        let x = queue.remove(pos);
        walk.push(x);
        for &p in &parents[x] {
            if !queue.contains(&p) && !walk.contains(&p) {
                queue.push(p);
            }
        }
    }
    walk
}

/// Whether `a` is a linear ancestor of `d`, walking as the tools do.
fn is_linear_ancestor(parents: &[Vec<usize>], a: usize, d: usize) -> bool {
    if a == d {
        return true;
    }
    let mut search = AncestorSearch::AtDescendant;
    let mut walk = topological_walk(parents, d).into_iter();
    loop {
        let step = match walk.next() {
            None => WalkStep::End,
            Some(x) => WalkStep::Commit { is_ancestor: x == a, is_merge: x != a && parents[x].len() > 1 },
        };
        match linear_ancestor_step(search, step) {
            SearchStep::Continue(next) => search = next,
            SearchStep::Answer(answer) => return answer,
        }
    }
}

#[test]
fn test_is_linear_ancestor() {
    // commit 1 <- commit 2 <- commit 3; branch commit on commit 1; merge of 3 and the branch
    let (c1, c2, c3, branch_commit, merge_commit) = (0, 1, 2, 3, 4);
    let parents: Vec<Vec<usize>> = vec![vec![], vec![c1], vec![c2], vec![c1], vec![c3, branch_commit]];

    assert!(is_linear_ancestor(&parents, c1, c3));
    assert!(is_linear_ancestor(&parents, c2, c3));
    assert!(is_linear_ancestor(&parents, c1, c1));

    // Reverse is false
    assert!(!is_linear_ancestor(&parents, c3, c1));

    // Linear ancestor through merge commit should return false
    assert!(!is_linear_ancestor(&parents, c1, merge_commit));
}

#[test]
fn process_errors_name_the_failure() {
    let e = ExecError::ProcessError(std::io::Error::new(std::io::ErrorKind::Other, "no git here"));
    assert_eq!(e.message(), "Process execution failed: no git here");
    assert_eq!(ExecError::NoWorkDir.message(), "Repository has no working directory");
}

#[test]
fn reflog_search_finds_the_latest_move_first() {
    let ids = vec!["c3".to_string(), "c2".to_string(), "c3".to_string()];
    assert_eq!(reflog_position(&ids, "c3"), Some(0));
    assert_eq!(reflog_position(&ids, "c2"), Some(1));
    assert_eq!(reflog_position(&ids, "c1"), None);
    assert_eq!(reflog_position(&vec![], "c1"), None);
}
