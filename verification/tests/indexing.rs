use sakuin::bridge::{indexing_take_event, push_indexing_event, IndexingEvent, IndexingSlot};
use sakuin::index::{
    all_indexed_mtimes, build_schema, compute_stats, index_path, is_stale, prepare_doc, rel_path,
    version_marker, writer_lock, FieldKind, FileContents, IndexedTimes, StoredDoc, FIELD_PATH_EXACT,
    SCHEMA_VERSION,
};
use sakuin::indexing::{
    batch_update_files, begin_indexing, begin_update, build_index, change_count, completion_event,
    file_indexed, finish_indexing, needs_commit, plan_update, progress, report_checking,
    request_cancel, start_file, update_counts, update_index, DiskFile, IndexOp, IndexingState,
    JobCounters, UpdatePlan, PROGRESS_DONE, PROGRESS_ERROR, PROGRESS_RUNNING,
};
use sakuin::state::{init, Engine};
use sakuin::types::SakuinConfig;

fn engine() -> Engine {
    let mut engine = Engine { state: None };
    init(&mut engine, "/p", "/p/.sakuin", SakuinConfig::default(), None, Ok(())).unwrap();
    engine
}

fn disk(files: &[(&str, u64)]) -> Vec<DiskFile> {
    files
        .iter()
        .map(|(p, m)| DiskFile {
            path: format!("/p/{p}"),
            mtime: *m,
        })
        .collect()
}

fn stored(path: &str, modified: u64) -> StoredDoc {
    StoredDoc {
        path: Some(path.to_string()),
        modified: Some(modified),
    }
}

/// The index after a plan was carried out.
fn carry_out(plan: &UpdatePlan, disk: &[DiskFile], docs: Vec<StoredDoc>) -> Vec<StoredDoc> {
    let mut docs: Vec<StoredDoc> = docs
        .into_iter()
        .filter(|d| {
            let p = d.path.as_ref().unwrap();
            !plan.removals.contains(p) && !plan.stale.contains(p)
        })
        .collect();
    for f in &plan.files {
        let mtime = disk.iter().find(|d| d.path == f.path).unwrap().mtime;
        docs.push(stored(&rel_path("/p", &f.path), mtime));
    }
    docs
}

#[test]
fn update_plan_names_what_changed() {
    let docs = vec![stored("same.rs", 1), stored("changed.rs", 1), stored("gone.rs", 1)];
    let found = disk(&[("changed.rs", 2), ("same.rs", 1), ("new.rs", 5)]);
    let plan = plan_update("/p", &found, &all_indexed_mtimes(&docs));
    assert_eq!(plan.removals, vec!["gone.rs"]);
    assert_eq!(plan.stale, vec!["changed.rs"]);
    let files: Vec<(&str, bool)> = plan.files.iter().map(|f| (f.path.as_str(), f.is_update)).collect();
    assert_eq!(files, vec![("/p/changed.rs", true), ("/p/new.rs", false)]);
}

#[test]
fn update_makes_the_index_hold_what_is_on_disk() {
    let docs = vec![stored("same.rs", 1), stored("changed.rs", 1), stored("gone.rs", 1)];
    let found = disk(&[("changed.rs", 2), ("same.rs", 1), ("new.rs", 5)]);
    let plan = plan_update("/p", &found, &all_indexed_mtimes(&docs));
    let after = carry_out(&plan, &found, docs);
    let mut held: Vec<(String, u64)> = after
        .iter()
        .map(|d| (d.path.clone().unwrap(), d.modified.unwrap()))
        .collect();
    held.sort();
    assert_eq!(
        held,
        vec![("changed.rs".into(), 2), ("new.rs".into(), 5), ("same.rs".into(), 1)]
    );
    let again = plan_update("/p", &found, &all_indexed_mtimes(&after));
    assert!(again.removals.is_empty() && again.stale.is_empty() && again.files.is_empty());
}

#[test]
fn index_without_documents_takes_everything() {
    let found = disk(&[("a.rs", 1), ("b/c.rs", 2)]);
    let plan = plan_update("/p", &found, &IndexedTimes::new());
    assert_eq!(plan.files.len(), 2);
    assert!(plan.files.iter().all(|f| !f.is_update));
    assert!(plan.removals.is_empty() && plan.stale.is_empty());
}

#[test]
fn engine_plans_updates_and_builds() {
    let mut state = IndexingState::new();
    let mut slot = IndexingSlot::new();
    begin_update(&mut state, &mut slot);
    assert_eq!(progress(&state).status, PROGRESS_RUNNING);
    let e = indexing_take_event(&mut slot).unwrap();
    assert_eq!((e.status, e.message.as_deref()), ("progress", Some("scanning files…")));
    report_checking(&mut slot);
    let e = indexing_take_event(&mut slot).unwrap();
    assert_eq!(e.message.as_deref(), Some("checking index…"));
    let found = disk(&[("a.rs", 1)]);
    let plan = update_index(&engine(), &mut state, &mut slot, &found, &IndexedTimes::new()).unwrap();
    assert_eq!(plan.files.len(), 1);
    let e = indexing_take_event(&mut slot).unwrap();
    assert_eq!((e.total, e.done), (1, 0));
    let none = Engine { state: None };
    let err = update_index(&none, &mut state, &mut slot, &found, &IndexedTimes::new());
    assert_eq!(err.err().unwrap(), "sakuin not initialized");
    let files: Vec<String> = vec!["/p/a".into(), "/p/b".into()];
    let planned = build_index(&engine(), &mut state, &mut slot, &files).unwrap();
    assert!(planned.clear_first);
    assert_eq!(planned.files.len(), 2);
    assert_eq!(planned.files[1].path, "/p/b");
    assert!(!planned.files[0].is_update);
    assert_eq!(progress(&state).total, 2);
    let err = build_index(&none, &mut state, &mut slot, &files).err().unwrap();
    assert_eq!(err, "sakuin not initialized");
    let err = batch_update_files(&none, &vec![], &vec![], &vec![]).err().unwrap();
    assert_eq!(err, "sakuin not initialized");
}

#[test]
fn a_job_counts_and_reports() {
    let mut state = IndexingState::new();
    let mut slot = IndexingSlot::new();
    begin_indexing(&mut state);
    state.progress.total = 250;
    let mut counters = JobCounters::new();
    let mut reports = Vec::new();
    for i in 0..250u64 {
        assert!(start_file(&mut state, &mut slot, &mut counters));
        if let Some(e) = indexing_take_event(&mut slot) {
            reports.push((e.total, e.done));
        }
        if i % 5 != 0 {
            file_indexed(&mut counters, i % 2 == 0);
        }
    }
    assert_eq!(reports, vec![(250, 100), (250, 200)]);
    assert_eq!(counters.started, 250);
    assert_eq!(counters.added + counters.updated, 200);
    assert_eq!(counters.updated, 100);
    assert_eq!(progress(&state).done, 250);
    request_cancel(&mut state);
    assert!(!start_file(&mut state, &mut slot, &mut counters));
    assert_eq!(counters.started, 250);
    finish_indexing(&mut state);
    assert_eq!(progress(&state).status, PROGRESS_DONE);
    begin_indexing(&mut state);
    assert!(start_file(&mut state, &mut slot, &mut counters));
}

#[test]
fn a_job_closes_with_an_event() {
    let mut state = IndexingState::new();
    state.progress.total = 9;
    state.progress.done = 4;
    let e = completion_event(&mut state, Ok(3));
    assert_eq!((e.status, e.total, e.done), ("done", 9, 3));
    assert!(e.error.is_none());
    let e = completion_event(&mut state, Err("why".into()));
    assert_eq!((e.status, e.total, e.done), ("error", 9, 4));
    assert_eq!(e.error.as_deref(), Some("why"));
    assert_eq!(progress(&state).status, PROGRESS_ERROR);
    let plan = UpdatePlan { removals: vec!["x".into()], stale: vec![], files: vec![] };
    let counters = JobCounters { started: 5, added: 2, updated: 3 };
    let counts = update_counts(&counters, &plan);
    assert_eq!(counts, (2, 3, 1));
    assert_eq!(change_count(counts), 6);
}

#[test]
fn batches_delete_before_they_put() {
    let remove: Vec<String> = vec!["/p/old.rs".into(), "/elsewhere".into()];
    let reindex: Vec<String> = vec!["/p/a.rs".into(), "/p/b.png".into(), "/p/old.rs".into()];
    let ops = batch_update_files(&engine(), &remove, &reindex, &vec![true, false, true]).unwrap();
    let shown: Vec<String> = ops
        .iter()
        .map(|op| match op {
            IndexOp::Delete(p) => format!("-{p}"),
            IndexOp::Put(p) => format!("+{p}"),
        })
        .collect();
    assert_eq!(
        shown,
        vec!["-old.rs", "-/elsewhere", "-a.rs", "+/p/a.rs", "-old.rs", "+/p/old.rs"]
    );
    assert!(needs_commit(1, 0) && needs_commit(0, 1));
    assert!(!needs_commit(0, 0));
}

#[test]
fn a_newer_event_replaces_an_older_one() {
    let event = |done: u64| IndexingEvent {
        status: "progress",
        total: 2,
        done,
        error: None,
        message: None,
    };
    let mut slot = IndexingSlot::new();
    assert!(indexing_take_event(&mut slot).is_none());
    push_indexing_event(&mut slot, event(1));
    push_indexing_event(&mut slot, event(2));
    assert_eq!(indexing_take_event(&mut slot).unwrap().done, 2);
    assert!(indexing_take_event(&mut slot).is_none());
}

#[test]
fn stored_documents_give_their_times() {
    let docs = vec![
        stored("a", 1),
        StoredDoc { path: None, modified: Some(9) },
        StoredDoc { path: Some("b".into()), modified: None },
        stored("c", 3),
        stored("a", 2),
    ];
    let times = all_indexed_mtimes(&docs);
    assert_eq!(times.len(), 2);
    assert_eq!(times.get("a"), Some(2));
    assert_eq!(times.get("c"), Some(3));
    assert_eq!(times.get("b"), None);
    assert_eq!((times.path(0).as_str(), times.path(1).as_str()), ("a", "c"));
}

#[test]
fn documents_are_made_of_files() {
    let read = FileContents { body: "text".into(), modified: 7, size: 4 };
    let d = prepare_doc("/p", "/p/src/a.b.rs", Ok(read.clone())).unwrap();
    assert_eq!(d.relative, "src/a.b.rs");
    assert_eq!(d.filename, "a.b.rs");
    assert_eq!(d.extension, "rs");
    assert_eq!((d.body.as_str(), d.modified, d.size), ("text", 7, 4));
    let d = prepare_doc("/p", "/q/Makefile", Ok(read)).unwrap();
    assert_eq!((d.relative.as_str(), d.extension.as_str()), ("/q/Makefile", ""));
    let e = prepare_doc("/p", "/p/x", Err("unreadable".into())).err().unwrap();
    assert_eq!(e, "unreadable");
}

#[test]
fn an_index_of_another_version_is_stale() {
    assert!(!is_stale(true, "v3"));
    assert!(!is_stale(true, " v3\n"));
    assert!(is_stale(true, "v2"));
    assert!(is_stale(true, ""));
    assert!(!is_stale(false, ""));
    assert_eq!(SCHEMA_VERSION, "v3");
    assert_eq!(index_path("/p/.sakuin"), "/p/.sakuin/index");
    assert_eq!(version_marker("/p/.sakuin"), "/p/.sakuin/schema.ver");
    assert_eq!(writer_lock("/p/.sakuin"), "/p/.sakuin/index/.tantivy-writer.lock");
}

#[test]
fn the_schema_has_seven_fields() {
    let fields = build_schema();
    let names: Vec<&str> = fields.iter().map(|f| f.name).collect();
    assert_eq!(
        names,
        vec!["path", "path_exact", "filename", "extension", "body", "modified", "size"]
    );
    let exact = fields.iter().find(|f| f.name == FIELD_PATH_EXACT).unwrap();
    assert_eq!(exact.kind, FieldKind::ExactText);
    assert_eq!(fields[4].kind, FieldKind::BodyText);
    assert_eq!(fields[6].kind, FieldKind::Number);
}

#[test]
fn sizes_that_are_known_are_added_up() {
    let s = compute_stats(3, 2, &vec![Some(5), None, Some(7)], "/p");
    assert_eq!((s.num_docs, s.num_segments, s.index_size_bytes), (3, 2, 12));
    assert_eq!(s.project_root, "/p");
}

#[test]
fn an_update_reports_new_changed_and_gone_files() {
    let mut state = IndexingState::new();
    let mut slot = IndexingSlot::new();
    begin_update(&mut state, &mut slot);
    let mut indexed = IndexedTimes::new();
    for (path, mtime) in [("same.rs", 1), ("changed.rs", 1), ("gone.rs", 1), ("old.rs", 1)] {
        indexed.insert(path, mtime);
    }
    let found = disk(&[("same.rs", 1), ("changed.rs", 2), ("a.rs", 5), ("b.rs", 6), ("c.rs", 7)]);
    let plan = update_index(&engine(), &mut state, &mut slot, &found, &indexed).unwrap();
    let mut counters = JobCounters::new();
    for _ in &plan.files {
        assert!(start_file(&mut state, &mut slot, &mut counters));
    }
    for file in plan.files.iter().rev() {
        file_indexed(&mut counters, file.is_update);
    }
    assert_eq!(update_counts(&counters, &plan), (3, 1, 2));
}
