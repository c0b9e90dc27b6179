use sakuin::bridge::{search_take_result, IndexingEvent, ResultQueue, SearchResultMessage};
use sakuin::ffi::{
    cstr_to_str, ffi_try, search_limit, set_last_error, str_to_c, take_last_error, CIndexStats,
    CIndexingEvent, CIndexingStatus, CSearchMessage, CSearchMessageType, CallOutcome, LastError,
};
use sakuin::indexing::IndexingState;
use sakuin::logging::{
    enabled, format_timestamp, level_of, log_line, parse_level, requested_level, set_level, tag,
    Level, LevelFilter, LocalTime, LogState,
};
use sakuin::project_config::ProjectConfig;
use sakuin::search_worker::{search_cancel, search_submit, SearchOutcome, SearchWorker};
use sakuin::state::{
    can_start_watcher, init, log_target, shutdown, start_watcher, starting_config, stats,
    stop_watcher, Engine,
};
use sakuin::types::{IndexStats, SakuinConfig, Score, SearchResult};

fn engine() -> Engine {
    let mut engine = Engine { state: None };
    init(&mut engine, "/p", "/p/.sakuin", SakuinConfig::default(), None, Ok(())).unwrap();
    engine
}

fn result(path: &str) -> SearchResult {
    SearchResult {
        path: path.to_string(),
        line: 1,
        col: 2,
        snippet: "s\0n".to_string(),
        score: Score { needle_len: 1, snippet_len: 3, match_count: 1 },
    }
}

fn drain(queue: &mut ResultQueue) -> Vec<String> {
    let mut out = Vec::new();
    while let Some(m) = search_take_result(queue) {
        out.push(match m {
            SearchResultMessage::Batch { generation, results, total_so_far } => {
                format!("batch {generation} {} {total_so_far}", results.len())
            }
            SearchResultMessage::Done { generation, total } => format!("done {generation} {total}"),
            SearchResultMessage::Error { generation, error } => {
                format!("error {generation} {error}")
            }
        });
    }
    out
}

#[test]
fn only_the_latest_search_runs_and_each_one_ends() {
    let engine = engine();
    let mut worker = SearchWorker::new();
    let mut queue = ResultQueue::new();
    for generation in 1..=3 {
        search_submit(&engine, &mut worker, "q", generation, 10).unwrap();
    }
    let request = worker.take_request(&mut queue).unwrap();
    assert_eq!((request.generation, request.limit), (3, 10));
    assert_eq!(request.query, "q");
    assert!(!worker.is_cancelled());
    worker.push_batch(vec![result("a"), result("b")], &mut queue);
    worker.push_batch(vec![result("c")], &mut queue);
    worker.finish(SearchOutcome::Completed, &mut queue);
    assert_eq!(
        drain(&mut queue),
        vec!["done 1 0", "done 2 0", "batch 3 2 2", "batch 3 1 3", "done 3 3"]
    );
    assert!(worker.take_request(&mut queue).is_none());
}

#[test]
fn a_search_ends_by_its_outcome() {
    let engine = engine();
    let mut worker = SearchWorker::new();
    let mut queue = ResultQueue::new();
    for (generation, outcome) in [
        (1, SearchOutcome::Failed("Search failed: x".into())),
        (2, SearchOutcome::Panicked),
        (3, SearchOutcome::Completed),
    ] {
        search_submit(&engine, &mut worker, "q", generation, 1).unwrap();
        worker.take_request(&mut queue).unwrap();
        worker.finish(outcome, &mut queue);
    }
    assert_eq!(
        drain(&mut queue),
        vec!["error 1 Search failed: x", "error 2 Panic during search", "done 3 0"]
    );
}

#[test]
fn a_new_search_cancels_the_running_one() {
    let engine = engine();
    let mut worker = SearchWorker::new();
    let mut queue = ResultQueue::new();
    search_submit(&engine, &mut worker, "a", 1, 1).unwrap();
    worker.take_request(&mut queue).unwrap();
    search_submit(&engine, &mut worker, "b", 2, 1).unwrap();
    assert!(worker.is_cancelled());
    worker.finish(SearchOutcome::Failed("late".into()), &mut queue);
    assert_eq!(worker.take_request(&mut queue).unwrap().generation, 2);
    search_cancel(&mut worker);
    worker.finish(SearchOutcome::Panicked, &mut queue);
    assert_eq!(drain(&mut queue), vec!["done 1 0", "done 2 0"]);
}

#[test]
fn batches_of_a_search_come_before_its_end() {
    let engine = engine();
    let mut worker = SearchWorker::new();
    let mut queue = ResultQueue::new();
    search_submit(&engine, &mut worker, "a", 7, 9).unwrap();
    worker.take_request(&mut queue).unwrap();
    assert!(worker.can_push(1));
    worker.push_batch(vec![result("a")], &mut queue);
    search_submit(&engine, &mut worker, "b", 8, 9).unwrap();
    search_submit(&engine, &mut worker, "c", 5, 9).unwrap();
    worker.push_batch(vec![result("b"), result("c")], &mut queue);
    worker.finish(SearchOutcome::Completed, &mut queue);
    assert!(!worker.can_push(1));
    worker.take_request(&mut queue).unwrap();
    worker.push_batch(vec![result("d")], &mut queue);
    worker.finish(SearchOutcome::Completed, &mut queue);
    assert_eq!(
        drain(&mut queue),
        vec!["batch 7 1 1", "batch 7 2 3", "done 7 3", "done 8 0", "batch 5 1 1", "done 5 1"]
    );
}

#[test]
fn submitting_needs_an_engine_and_a_thread() {
    let mut worker = SearchWorker::new();
    let none = Engine { state: None };
    let e = search_submit(&none, &mut worker, "q", 1, 1).err().unwrap();
    assert_eq!(e, "sakuin not initialized");
    let engine = engine();
    search_submit(&engine, &mut worker, "q", 1, 1).unwrap();
    sakuin::search_worker::shutdown(&mut worker);
    assert!(worker.is_closed() && worker.is_cancelled());
    let e = search_submit(&engine, &mut worker, "q", 2, 1).err().unwrap();
    assert_eq!(e, "search worker not running");
    let mut queue = ResultQueue::new();
    assert_eq!(worker.take_request(&mut queue).unwrap().generation, 1);
    worker.finish(SearchOutcome::Completed, &mut queue);
    assert_eq!(drain(&mut queue), vec!["done 1 0"]);
}

#[test]
fn the_watcher_runs_once() {
    let mut engine = Engine { state: None };
    assert_eq!(start_watcher(&mut engine, Ok(())).err().unwrap(), "sakuin not initialized");
    assert_eq!(can_start_watcher(&engine).err().unwrap(), "sakuin not initialized");
    assert!(!stop_watcher(&mut engine));
    init(&mut engine, "/p", "/i", SakuinConfig::default(), None, Ok(())).unwrap();
    assert_eq!(start_watcher(&mut engine, Err("no inotify".into())).err().unwrap(), "no inotify");
    start_watcher(&mut engine, Ok(())).unwrap();
    assert_eq!(start_watcher(&mut engine, Ok(())).err().unwrap(), "Watcher already running");
    assert!(stop_watcher(&mut engine));
    assert!(!stop_watcher(&mut engine));
    assert!(can_start_watcher(&engine).is_ok());
}

#[test]
fn the_engine_is_set_up_and_shut_down() {
    let mut engine = Engine { state: None };
    let mut indexing = IndexingState::new();
    let config = SakuinConfig::default();
    let e = init(&mut engine, "/p", "/i", config.clone(), None, Err("locked".into()));
    assert_eq!(e.err().unwrap(), "locked");
    assert!(engine.state.is_none());
    let project = ProjectConfig { max_file_size: Some(5), ..Default::default() };
    init(&mut engine, "/p", "/i", config, Some(project), Ok(())).unwrap();
    let state = engine.state.as_ref().unwrap();
    assert_eq!((state.project_root.as_str(), state.index_dir.as_str()), ("/p", "/i"));
    assert_eq!(state.config.max_file_size, 5);
    assert_eq!(stats(&engine, 1, 2, &vec![Some(3)]).unwrap().index_size_bytes, 3);
    start_watcher(&mut engine, Ok(())).unwrap();
    let steps = shutdown(&mut engine, &mut indexing);
    assert!(steps.commit && steps.stop_watcher && indexing.cancel);
    let steps = shutdown(&mut engine, &mut indexing);
    assert!(!steps.commit && !steps.stop_watcher);
    assert_eq!(stats(&engine, 1, 2, &vec![]).err().unwrap(), "sakuin not initialized");
}

#[test]
fn the_configuration_is_given_or_default() {
    assert_eq!(starting_config(None).unwrap().max_file_size, 1_048_576);
    let given = SakuinConfig { max_file_size: 1, ..Default::default() };
    assert_eq!(starting_config(Some(Ok(given))).unwrap().max_file_size, 1);
    let e = starting_config(Some(Err("key must be a string".into()))).err().unwrap();
    assert_eq!(e, "Failed to parse config JSON: key must be a string");
    let mut c = SakuinConfig::default();
    assert!(log_target(&c).is_none());
    c.log_file = Some("/tmp/l".into());
    c.log_level = "Debug".into();
    assert_eq!(log_target(&c).unwrap(), ("/tmp/l".to_string(), LevelFilter::Debug));
    c.log_level = "loud".into();
    assert_eq!(log_target(&c).unwrap().1, LevelFilter::Info);
}

#[test]
fn levels_have_names() {
    for (name, level) in [
        ("error", LevelFilter::Error),
        ("WARN", LevelFilter::Warn),
        ("Info", LevelFilter::Info),
        ("debug", LevelFilter::Debug),
        ("tRACE", LevelFilter::Trace),
        ("off", LevelFilter::Off),
    ] {
        assert_eq!(parse_level(name), Some(level));
        assert_eq!(requested_level(name).unwrap(), level);
    }
    assert_eq!(parse_level("verbose"), None);
    assert_eq!(parse_level(""), None);
    assert_eq!(level_of("verbose"), LevelFilter::Info);
    assert_eq!(requested_level("é").err().unwrap(), "Unknown log level: 'é'");
}

#[test]
fn the_log_is_installed_once() {
    let mut log = LogState::new();
    set_level(&mut log, LevelFilter::Warn);
    let e = sakuin::logging::init(&mut log, "/l", LevelFilter::Debug, Err("taken".into()));
    assert_eq!(e.err().unwrap(), "Failed to set logger: taken");
    assert_eq!(log.max_level, LevelFilter::Warn);
    assert_eq!(log.path.as_deref(), Some("/l"));
    sakuin::logging::init(&mut log, "/m", LevelFilter::Debug, Err("taken".into())).unwrap();
    assert_eq!(log.max_level, LevelFilter::Debug);
    assert_eq!(log.path.as_deref(), Some("/m"));
}

#[test]
fn log_lines_have_a_fixed_form() {
    let time = LocalTime { year: 126, month: 3, day: 25, hour: 11, minute: 58, second: 27 };
    let stamp = format_timestamp(Some(time), 0, 123);
    assert_eq!(stamp, "2026-04-25 11:58:27.123");
    assert_eq!(format_timestamp(None, 1_700_000_000, 7), "1700000000.007");
    assert_eq!(format_timestamp(None, -1, 0), "-1.000");
    let early = LocalTime { year: -1890, month: 0, day: 1, hour: 0, minute: 0, second: 0 };
    assert_eq!(format_timestamp(Some(early), 0, 0), "0010-01-01 00:00:00.000");
    assert_eq!(
        log_line(&stamp, Level::Info, "sakuin::git", "message").unwrap(),
        "2026-04-25 11:58:27.123 INFO  [sakuin::git] message\n"
    );
    assert!(log_line(&stamp, Level::Info, "tantivy", "message").is_none());
    assert!(enabled("sakuin") && !enabled("saku"));
    let tags: Vec<&str> = [Level::Error, Level::Warn, Level::Info, Level::Debug, Level::Trace]
        .into_iter()
        .map(tag)
        .collect();
    assert_eq!(tags, vec!["ERROR", "WARN ", "INFO ", "DEBUG", "TRACE"]);
}

#[test]
fn calls_end_with_a_status() {
    let mut slot = LastError::new();
    assert_eq!(ffi_try(&mut slot, CallOutcome::Succeeded), 0);
    assert!(take_last_error(&mut slot).is_none());
    assert_eq!(ffi_try(&mut slot, CallOutcome::Failed("a".into())), -1);
    assert_eq!(ffi_try(&mut slot, CallOutcome::Panicked), -1);
    assert_eq!(
        take_last_error(&mut slot).as_deref(),
        Some("Rust panic caught at FFI boundary")
    );
    set_last_error(&mut slot, "b".into());
    assert_eq!(take_last_error(&mut slot).as_deref(), Some("b"));
    assert!(take_last_error(&mut slot).is_none());
}

#[test]
fn strings_cross_without_zeros() {
    assert_eq!(str_to_c("a\0b\0"), "ab");
    assert_eq!(str_to_c("ä"), "ä");
    assert_eq!(cstr_to_str(Some("ä".as_bytes())).unwrap(), "ä");
    assert_eq!(cstr_to_str(None).err().unwrap(), "null pointer passed to cstr_to_str");
    let bad: &[u8] = &[b'a', 0xff];
    let e = cstr_to_str(Some(bad)).err().unwrap();
    let std = std::str::from_utf8(bad).err().unwrap();
    assert_eq!(e, format!("Invalid UTF-8 in C string: {std}"));
    assert_eq!(search_limit(0), usize::MAX);
    assert_eq!(search_limit(10_000), 10_000);
}

#[test]
fn messages_are_handed_over() {
    let m = CSearchMessage::from_internal(SearchResultMessage::Batch {
        generation: 4,
        results: vec![result("p\0")],
        total_so_far: 9,
    });
    assert_eq!(m.msg_type, CSearchMessageType::Batch);
    assert_eq!((m.generation, m.total, m.results_len), (4, 9, 1));
    assert_eq!((m.results[0].path.as_str(), m.results[0].snippet.as_str()), ("p", "sn"));
    assert_eq!((m.results[0].line, m.results[0].col), (1, 2));
    assert!(m.error.is_none());
    let m = CSearchMessage::from_internal(SearchResultMessage::Done { generation: 4, total: 9 });
    assert_eq!(m.msg_type, CSearchMessageType::Done);
    assert_eq!((m.total, m.results_len), (9, 0));
    let m = CSearchMessage::from_internal(SearchResultMessage::Error {
        generation: 4,
        error: "x\0".into(),
    });
    assert_eq!(m.msg_type, CSearchMessageType::Error);
    assert_eq!((m.total, m.error.as_deref()), (0, Some("x")));
}

#[test]
fn events_and_numbers_are_handed_over() {
    for (status, expected) in [
        ("done", CIndexingStatus::Done),
        ("error", CIndexingStatus::Error),
        ("progress", CIndexingStatus::Progress),
        ("other", CIndexingStatus::Progress),
    ] {
        let e = CIndexingEvent::from_internal(IndexingEvent {
            status,
            total: 3,
            done: 2,
            error: None,
            message: Some("m\0m".into()),
        });
        assert_eq!(e.status, expected);
        assert_eq!((e.total, e.done), (3, 2));
        assert!(e.error.is_none());
        assert_eq!(e.message.as_deref(), Some("mm"));
    }
    let s = CIndexStats::from_internal(IndexStats {
        num_docs: 1,
        num_segments: (1usize << 32) + 5,
        index_size_bytes: 3,
        project_root: "/p".into(),
    });
    assert_eq!((s.num_docs, s.num_segments, s.index_size_bytes), (1, 5, 3));
    assert_eq!(s.project_root, "/p");
}
