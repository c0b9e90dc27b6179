use sakuin::git::GitChanges;
use sakuin::watcher::{
    classify_event, git_update_due, handle_file_events, handle_git_operation, is_editor_temp,
    touched_paths, EventBatch, EventKind, GitReading, WatchAction, WatchEvent, WatchInput,
    WatchLoop, DEBOUNCE_GIT, DEBOUNCE_NORMAL, GATHER_WAIT, IDLE_WAIT,
};

fn event(kind: EventKind, paths: &[&str]) -> WatchEvent {
    WatchEvent {
        kind,
        paths: paths.iter().map(|p| p.to_string()).collect(),
    }
}

#[test]
fn editor_files_are_known() {
    for p in ["/p/4913", "5036", "a/5159", "a.rs~", "~", "/p/.a.rs.swp", ".swo", ".x.swn"] {
        assert!(is_editor_temp(p), "{p}");
    }
    for p in ["/p/491", "a~b", "a.swp", "/p/.swp/x", ".swx", "/", ""] {
        assert!(!is_editor_temp(p), "{p}");
    }
}

#[test]
fn events_are_sorted_by_kind_and_path() {
    let mut batch = EventBatch::new();
    classify_event(
        &event(EventKind::Create, &["/p/a.rs", "/p/.git/refs/x", "/p/a.rs~", "/p/b.rs"]),
        "/p",
        &mut batch,
    );
    classify_event(&event(EventKind::Modify, &["/p/a.rs"]), "/p", &mut batch);
    classify_event(&event(EventKind::Remove, &["/p/c.rs"]), "/p", &mut batch);
    classify_event(&event(EventKind::Access, &["/p/d.rs"]), "/p", &mut batch);
    classify_event(&event(EventKind::Any, &["/p/d.rs"]), "/p", &mut batch);
    classify_event(&event(EventKind::Other, &["/p/d.rs"]), "/p", &mut batch);
    assert_eq!(batch.reindex, vec!["/p/a.rs", "/p/b.rs", "/p/a.rs"]);
    assert_eq!(batch.remove, vec!["/p/c.rs"]);
    assert!(!batch.git_sentinel_changed);
    classify_event(&event(EventKind::Access, &["/p/.git/HEAD"]), "/p", &mut batch);
    assert!(batch.git_sentinel_changed);
    assert_eq!(batch.reindex.len() + batch.remove.len(), 4);
}

#[test]
fn touched_paths_leave_the_index_out() {
    let mut batch = EventBatch::new();
    let paths = ["/p/z.rs", "/p/.sakuin/index/x", "/p/a.rs", "/p/z.rs", "/p/.sakuin2"];
    classify_event(&event(EventKind::Modify, &paths), "/p", &mut batch);
    classify_event(&event(EventKind::Remove, &["/p/a.rs", "/p/b.rs", "/p/.sakuin"]), "/p", &mut batch);
    assert_eq!(
        touched_paths(&batch, "/p/.sakuin"),
        vec!["/p/.sakuin2", "/p/a.rs", "/p/b.rs", "/p/z.rs"]
    );
}

#[test]
fn what_is_a_file_is_indexed_and_the_rest_removed() {
    assert!(handle_file_events(&vec![], &vec![]).is_none());
    let paths: Vec<String> = vec!["a".into(), "b".into(), "c".into()];
    let u = handle_file_events(&paths, &vec![true, false, true]).unwrap();
    assert_eq!(u.to_reindex, vec!["a", "c"]);
    assert_eq!(u.to_remove, vec!["b"]);
}

#[test]
fn git_is_read_when_head_moved() {
    let a = Some("a".to_string());
    let b = Some("b".to_string());
    assert!(git_update_due(true, &a, &b));
    assert!(git_update_due(true, &a, &None));
    assert!(git_update_due(true, &None, &a));
    assert!(!git_update_due(true, &a, &a.clone()));
    assert!(!git_update_due(true, &None, &None));
    assert!(!git_update_due(false, &a, &b));
}

#[test]
fn git_changes_become_an_update() {
    let changes = || GitChanges {
        modified: vec!["/p/a".into()],
        deleted: vec!["/p/b".into()],
    };
    for reading in [GitReading::Head(changes()), GitReading::Fallback(Ok(changes()))] {
        let u = handle_git_operation(reading).unwrap();
        assert_eq!(u.to_reindex, vec!["/p/a"]);
        assert_eq!(u.to_remove, vec!["/p/b"]);
    }
    assert!(handle_git_operation(GitReading::Head(GitChanges::default())).is_none());
    assert!(handle_git_operation(GitReading::Fallback(Err("no".into()))).is_none());
}

#[test]
fn events_are_gathered_until_it_is_quiet() {
    let mut w = WatchLoop::new("/p");
    assert!(matches!(w.step(WatchInput::Timeout), WatchAction::Idle));
    assert!(matches!(w.step(WatchInput::Failed), WatchAction::Idle));
    match w.step(WatchInput::Event(event(EventKind::Create, &["/p/a"]))) {
        WatchAction::Gather { millis } => assert_eq!(millis, DEBOUNCE_NORMAL),
        other => panic!("{other:?}"),
    }
    assert!(matches!(w.step(WatchInput::Failed), WatchAction::GatherOn));
    let more = WatchInput::Event(event(EventKind::Remove, &["/p/b", "/p/.git/index"]));
    assert!(matches!(w.step(more), WatchAction::GatherOn));
    match w.step(WatchInput::Timeout) {
        WatchAction::Flush(batch) => {
            assert_eq!(batch.reindex, vec!["/p/a"]);
            assert_eq!(batch.remove, vec!["/p/b"]);
            assert!(batch.git_sentinel_changed);
        }
        other => panic!("{other:?}"),
    }
    assert!(matches!(w.step(WatchInput::Timeout), WatchAction::Idle));
}

#[test]
fn a_git_operation_is_gathered_longer() {
    let mut w = WatchLoop::new("/p");
    match w.step(WatchInput::Event(event(EventKind::Modify, &["/p/.git/HEAD"]))) {
        WatchAction::Gather { millis } => assert_eq!(millis, DEBOUNCE_GIT),
        other => panic!("{other:?}"),
    }
    assert!(matches!(w.step(WatchInput::DeadlinePassed), WatchAction::Flush(_)));
    assert!(matches!(w.step(WatchInput::Disconnected), WatchAction::Stop));
    assert_eq!((DEBOUNCE_NORMAL, DEBOUNCE_GIT, IDLE_WAIT, GATHER_WAIT), (200, 500, 1000, 50));
}

#[test]
fn a_lost_source_flushes_before_it_stops() {
    let mut w = WatchLoop::new("/p");
    w.step(WatchInput::Event(event(EventKind::Modify, &["/p/a"])));
    match w.step(WatchInput::Disconnected) {
        WatchAction::Flush(batch) => assert_eq!(batch.reindex, vec!["/p/a"]),
        other => panic!("{other:?}"),
    }
    assert!(matches!(w.step(WatchInput::Disconnected), WatchAction::Stop));
}
