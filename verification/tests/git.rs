use sakuin::git::{
    categorize_delta, detect_changes, detect_head_change, failure_message, head_diff,
    is_git_internal_path, is_git_sentinel, DeltaStatus, FileDelta, GitChanges, GitFailure, GitStep,
    HeadDiff, HeadReading,
};

fn delta(status: DeltaStatus, old: Option<&str>, new: Option<&str>) -> FileDelta {
    FileDelta {
        status,
        old_path: old.map(String::from),
        new_path: new.map(String::from),
    }
}

#[test]
fn test_is_git_internal_path() {
    assert!(is_git_internal_path("/repo/.git/index"));
    assert!(is_git_internal_path("/repo/.git/HEAD"));
    assert!(is_git_internal_path("/repo/.git/refs/heads/main"));
    assert!(!is_git_internal_path("/repo/src/main.rs"));
    assert!(!is_git_internal_path("/repo/.gitignore"));
}

#[test]
fn test_is_git_sentinel() {
    let root = "/repo";
    assert!(is_git_sentinel("/repo/.git/index", root));
    assert!(is_git_sentinel("/repo/.git/HEAD", root));
    assert!(!is_git_sentinel("/repo/.git/refs/heads/main", root));
    assert!(!is_git_sentinel("/repo/src/main.rs", root));
}

#[test]
fn test_detect_changes_non_repo() {
    let opened = git2::Repository::open("/no/such/project/anywhere");
    let failure = GitFailure {
        step: GitStep::OpenRepository,
        detail: opened.err().unwrap().message().to_string(),
    };
    assert!(detect_changes("/no/such/project/anywhere", &Err(failure), &Ok(vec![])).is_err());
}

#[test]
fn sentinel_spelling_does_not_matter() {
    assert!(is_git_sentinel("/repo//.git/./index", "/repo/"));
    assert!(!is_git_sentinel("/other/.git/index", "/repo"));
    assert!(!is_git_sentinel("/repo/.git", "/repo"));
    assert!(is_git_internal_path(".git"));
    assert!(!is_git_internal_path("/repo/x.git/y"));
}

#[test]
fn sentinels_belong_to_git() {
    for root in ["/repo", "/repo/", ".", "", "a/b"] {
        for name in ["index", "HEAD"] {
            let path = sakuin::paths::join(&sakuin::paths::join(root, ".git"), name);
            assert!(is_git_sentinel(&path, root) && is_git_internal_path(&path), "{path}");
        }
    }
}

#[test]
fn every_status_is_sorted() {
    let cases = [
        (DeltaStatus::Added, 1, 0),
        (DeltaStatus::Modified, 1, 0),
        (DeltaStatus::Copied, 1, 0),
        (DeltaStatus::Typechange, 1, 0),
        (DeltaStatus::Untracked, 1, 0),
        (DeltaStatus::Deleted, 0, 1),
        (DeltaStatus::Renamed, 1, 1),
        (DeltaStatus::Unmodified, 0, 0),
        (DeltaStatus::Ignored, 0, 0),
        (DeltaStatus::Unreadable, 0, 0),
        (DeltaStatus::Conflicted, 0, 0),
    ];
    for (status, modified, deleted) in cases {
        let mut changes = GitChanges::default();
        categorize_delta(&delta(status, Some("old.rs"), Some("new.rs")), "/repo", &mut changes);
        assert_eq!(changes.modified.len(), modified, "{status:?}");
        assert_eq!(changes.deleted.len(), deleted, "{status:?}");
        if modified == 1 {
            assert_eq!(changes.modified[0], "/repo/new.rs");
        }
        if deleted == 1 {
            assert_eq!(changes.deleted[0], "/repo/old.rs");
        }
    }
    let mut changes = GitChanges::default();
    categorize_delta(&delta(DeltaStatus::Renamed, None, None), "/repo", &mut changes);
    assert!(changes.is_empty());
}

#[test]
fn changes_are_sorted_without_repetition() {
    let workdir = vec![
        delta(DeltaStatus::Modified, None, Some("src/z.rs")),
        delta(DeltaStatus::Untracked, None, Some("a.rs")),
        delta(DeltaStatus::Deleted, Some("gone.rs"), None),
        delta(DeltaStatus::Renamed, Some("src/z.rs"), Some("src/y.rs")),
    ];
    let index = vec![
        delta(DeltaStatus::Modified, None, Some("src/z.rs")),
        delta(DeltaStatus::Deleted, Some("gone.rs"), None),
    ];
    let changes = detect_changes("/repo", &Ok(workdir), &Ok(index)).unwrap();
    assert_eq!(
        changes.modified,
        vec!["/repo/a.rs", "/repo/src/y.rs", "/repo/src/z.rs"]
    );
    assert_eq!(changes.deleted, vec!["/repo/gone.rs", "/repo/src/z.rs"]);
}

#[test]
fn order_is_by_component() {
    let deltas = vec![
        delta(DeltaStatus::Added, None, Some("a-b/x")),
        delta(DeltaStatus::Added, None, Some("a/y")),
        delta(DeltaStatus::Added, None, Some("a/x")),
        delta(DeltaStatus::Added, None, Some("a")),
    ];
    let changes = detect_head_change("/r", Some("abc"), &HeadReading::Trees(Ok(deltas))).unwrap();
    let mut paths: Vec<std::path::PathBuf> = vec![
        "/r/a-b/x".into(),
        "/r/a/y".into(),
        "/r/a/x".into(),
        "/r/a".into(),
    ];
    paths.sort();
    let expected: Vec<String> = paths.iter().map(|p| p.to_string_lossy().to_string()).collect();
    assert_eq!(changes.modified, expected);
    assert_eq!(expected[1], "/r/a/x");
}

#[test]
fn first_failure_decides() {
    let a = GitFailure { step: GitStep::DiffWorkdir, detail: "x".into() };
    let b = GitFailure { step: GitStep::DiffIndex, detail: "y".into() };
    let e = detect_changes("/r", &Err(a.clone()), &Err(b.clone())).err().unwrap();
    assert_eq!(e, "Failed to compute diff: x");
    let e = detect_changes("/r", &Ok(vec![]), &Err(b)).err().unwrap();
    assert_eq!(e, "Failed to compute index diff: y");
}

#[test]
fn each_step_has_its_message() {
    let cases = [
        (GitStep::OpenRepository, "Failed to open git repo: d"),
        (GitStep::DiffWorkdir, "Failed to compute diff: d"),
        (GitStep::WalkWorkdirDiff, "Failed to iterate diff: d"),
        (GitStep::DiffIndex, "Failed to compute index diff: d"),
        (GitStep::WalkIndexDiff, "Failed to iterate index diff: d"),
        (GitStep::ParseOldHead, "Failed to parse old HEAD 'abc': d"),
        (GitStep::OldHeadTree, "Failed to get tree for 'abc': d"),
        (GitStep::ReadHead, "Failed to get HEAD: d"),
        (GitStep::HeadTree, "Failed to get HEAD tree: d"),
        (GitStep::DiffTrees, "Failed to diff trees: d"),
        (GitStep::WalkTreeDiff, "Failed to iterate tree diff: d"),
    ];
    for (step, text) in cases {
        let f = GitFailure { step, detail: "d".into() };
        assert_eq!(failure_message(&f, "abc"), text);
    }
    let f = GitFailure { step: GitStep::ParseOldHead, detail: "d".into() };
    let e = detect_head_change("/r", Some("abc"), &HeadReading::Trees(Err(f))).err().unwrap();
    assert_eq!(e, "Failed to parse old HEAD 'abc': d");
}

#[test]
fn unknown_head_compares_the_working_tree() {
    assert!(matches!(head_diff(None), HeadDiff::WorkingTree));
    match head_diff(Some("abc")) {
        HeadDiff::Trees { old_head } => assert_eq!(old_head, "abc"),
        HeadDiff::WorkingTree => unreachable!(),
    }
}

#[test]
fn changes_since_an_unknown_head_are_those_of_the_working_tree() {
    let workdir = vec![
        delta(DeltaStatus::Modified, None, Some("src/z.rs")),
        delta(DeltaStatus::Deleted, Some("gone.rs"), None),
    ];
    let index = vec![delta(DeltaStatus::Added, None, Some("a.rs"))];
    let tree = detect_changes("/repo", &Ok(workdir.clone()), &Ok(index.clone())).unwrap();
    let reading = HeadReading::WorkingTree { workdir: Ok(workdir), index: Ok(index) };
    let since = detect_head_change("/repo", None, &reading).unwrap();
    assert_eq!(since.modified, vec!["/repo/a.rs", "/repo/src/z.rs"]);
    assert_eq!(since.deleted, vec!["/repo/gone.rs"]);
    assert_eq!((since.modified, since.deleted), (tree.modified, tree.deleted));

    let f = GitFailure { step: GitStep::OpenRepository, detail: "d".into() };
    let reading = HeadReading::WorkingTree { workdir: Err(f.clone()), index: Ok(vec![]) };
    let a = detect_head_change("/repo", None, &reading).err().unwrap();
    let b = detect_changes("/repo", &Err(f), &Ok(vec![])).err().unwrap();
    assert_eq!(a, b);
    assert_eq!(a, "Failed to open git repo: d");
}
