//! The engine's life: it is set up for a project, can watch it, and is shut down.

use vstd::prelude::*;

use crate::index::{compute_stats, size_sum};
use crate::indexing::{request_cancel, IndexingState};
use crate::logging::{level_or_info, level_of, LevelFilter};
use crate::project_config::{apply, ProjectConfig};
use crate::search::{
    all_batches, batch_views, needle_of, search_streaming, streamed, total_len, Document,
    SearchParams,
};
use crate::text::append_str;
use crate::types::{default_config, IndexStats, SakuinConfig, SearchResult};

verus! {

/// What the engine knows once it is set up.
pub struct SakuinState {
    pub project_root: String,
    pub index_dir: String,
    pub config: SakuinConfig,
    /// Whether the project is watched.
    pub watching: bool,
}

/// The engine, set up or not.
pub struct Engine {
    pub state: Option<SakuinState>,
}

/// The message for an engine that is not set up.
pub fn not_initialized() -> (r: String)
    ensures
        r@ == "sakuin not initialized"@,
{
    "sakuin not initialized".to_owned()
}

/// The configuration to start with: what the caller gave, or the default where nothing was
/// given. One that does not parse is an error.
pub fn starting_config(parsed: Option<Result<SakuinConfig, String>>) -> (r: Result<
    SakuinConfig,
    String,
>)
    ensures
        match parsed {
            None => r matches Ok(c) && c@ == default_config(),
            Some(Ok(c)) => r == Ok::<SakuinConfig, String>(c),
            Some(Err(e)) => r matches Err(m) && m@ == "Failed to parse config JSON: "@ + e@,
        },
{
    match parsed {
        None => Ok(SakuinConfig::default()),
        Some(Ok(c)) => Ok(c),
        Some(Err(e)) => {
            let mut m = "Failed to parse config JSON: ".to_owned();
            append_str(&mut m, e.as_str());
            Err(m)
        },
    }
}

/// Where and how much is to be logged, if anything is. A level that is not known counts as
/// `info`.
pub fn log_target(config: &SakuinConfig) -> (r: Option<(String, LevelFilter)>)
    ensures
        match config@.log_file {
            Some(f) => r matches Some(t) && t.0@ == f && t.1 == level_or_info(config@.log_level),
            None => r is None,
        },
{
    match &config.log_file {
        Some(f) => Some((f.clone(), level_of(config.log_level.as_str()))),
        None => None,
    }
}

/// Set the engine up for a project. `project` is what the project's own file sets; it
/// prevails over `config`. `opened` tells whether the index could be opened. An engine that
/// was set up before is replaced; after an error it stays as it was.
pub fn init(
    engine: &mut Engine,
    project_root: &str,
    index_dir: &str,
    config: SakuinConfig,
    project: Option<ProjectConfig>,
    opened: Result<(), String>,
) -> (r: Result<(), String>)
    ensures
        match opened {
            Ok(_) => {
                &&& r is Ok
                &&& final(engine).state matches Some(s)
                &&& s.project_root@ == project_root@
                &&& s.index_dir@ == index_dir@
                &&& s.config@ == (match project {
                    Some(p) => p.laid_over(config@),
                    None => config@,
                })
                &&& !s.watching
            },
            Err(e) => r == Err::<(), String>(e) && *final(engine) == *old(engine),
        },
{
    match opened {
        Ok(_) => {},
        Err(e) => {
            return Err(e);
        },
    }
    let mut config = config;
    apply(project, &mut config);
    engine.state =
    Some(
        SakuinState {
            project_root: project_root.to_owned(),
            index_dir: index_dir.to_owned(),
            config,
            watching: false,
        },
    );
    Ok(())
}

/// What is left to do when the engine is shut down.
#[derive(Debug, Clone, Copy, PartialEq, Eq, Structural)]
pub struct ShutdownSteps {
    /// Stop the watcher.
    pub stop_watcher: bool,
    /// Commit what was written to the index.
    pub commit: bool,
}

/// Shut the engine down: a running index job is asked to stop, and the engine is no longer
/// set up.
pub fn shutdown(engine: &mut Engine, indexing: &mut IndexingState) -> (r: ShutdownSteps)
    ensures
        final(engine).state is None,
        final(indexing).cancel,
        final(indexing).progress == old(indexing).progress,
        r.commit == (old(engine).state is Some),
        r.stop_watcher == (old(engine).state matches Some(s) && s.watching),
{
    request_cancel(indexing);
    match engine.state.take() {
        Some(s) => ShutdownSteps { stop_watcher: s.watching, commit: true },
        None => ShutdownSteps { stop_watcher: false, commit: false },
    }
}

/// Search the candidates without a limit.
pub fn do_search_streaming(engine: &Engine, query: &str, documents: &Vec<Document>) -> (r: Result<
    Vec<Vec<SearchResult>>,
    String,
>)
    requires
        forall|i: int|
            0 <= i < documents@.len() ==> (#[trigger] documents@[i]).lines().len() <= u32::MAX,
        total_len(all_batches(documents@, needle_of(query@))) <= usize::MAX,
    ensures
        match r {
            Ok(b) => engine.state is Some && batch_views(b@) == streamed(
                query@,
                documents@,
                usize::MAX as nat,
            ),
            Err(e) => engine.state is None && e@ == "sakuin not initialized"@,
        },
{
    match engine.state {
        Some(_) => Ok(
            search_streaming(&SearchParams { query_str: query, documents }, usize::MAX),
        ),
        None => Err(not_initialized()),
    }
}

/// The numbers of the index.
pub fn stats(
    engine: &Engine,
    num_docs: u64,
    num_segments: usize,
    file_sizes: &Vec<Option<u64>>,
) -> (r: Result<IndexStats, String>)
    requires
        size_sum(file_sizes@) <= u64::MAX,
    ensures
        match r {
            Ok(s) => engine.state matches Some(state) && s.num_docs == num_docs && s.num_segments
                == num_segments && s.index_size_bytes == size_sum(file_sizes@) && s.project_root@
                == state.project_root@,
            Err(e) => engine.state is None && e@ == "sakuin not initialized"@,
        },
{
    match &engine.state {
        Some(s) => Ok(
            compute_stats(num_docs, num_segments, file_sizes, s.project_root.as_str()),
        ),
        None => Err(not_initialized()),
    }
}

/// Why the watcher cannot be started now, if it cannot.
pub open spec fn watcher_refusal(engine: Engine) -> Option<Seq<char>> {
    match engine.state {
        None => Some("sakuin not initialized"@),
        Some(s) => if s.watching {
            Some("Watcher already running"@)
        } else {
            None
        },
    }
}

/// Whether the watcher can be started now.
pub fn can_start_watcher(engine: &Engine) -> (r: Result<(), String>)
    ensures
        match r {
            Ok(_) => watcher_refusal(*engine) is None,
            Err(e) => watcher_refusal(*engine) == Some(e@),
        },
{
    match &engine.state {
        None => Err(not_initialized()),
        Some(s) => if s.watching {
            Err("Watcher already running".to_owned())
        } else {
            Ok(())
        },
    }
}

/// Note that the watcher was started, where it can be. `started` tells whether the start
/// succeeded.
pub fn start_watcher(engine: &mut Engine, started: Result<(), String>) -> (r: Result<(), String>)
    ensures
        match watcher_refusal(*old(engine)) {
            Some(m) => r matches Err(e) && e@ == m && *final(engine) == *old(engine),
            None => match started {
                Err(e) => r == Err::<(), String>(e) && *final(engine) == *old(engine),
                Ok(_) => r is Ok && final(engine).state == Some(
                    SakuinState { watching: true, ..old(engine).state->0 },
                ),
            },
        },
{
    match can_start_watcher(engine) {
        Ok(_) => {},
        Err(e) => {
            return Err(e);
        },
    }
    match started {
        Ok(_) => {},
        Err(e) => {
            return Err(e);
        },
    }
    match engine.state.take() {
        Some(s) => {
            let mut s = s;
            s.watching = true;
            engine.state = Some(s);
        },
        None => {},
    }
    Ok(())
}

/// Note that the watcher stops. The answer tells whether one was running.
pub fn stop_watcher(engine: &mut Engine) -> (r: bool)
    ensures
        r == (old(engine).state matches Some(s) && s.watching),
        match old(engine).state {
            Some(s) => final(engine).state == Some(SakuinState { watching: false, ..s }),
            None => final(engine).state is None,
        },
{
    match engine.state.take() {
        Some(s) => {
            let mut s = s;
            let was = s.watching;
            s.watching = false;
            engine.state = Some(s);
            was
        },
        None => false,
    }
}

/// A watcher that was started cannot be started again before it is stopped; after it is
/// stopped it can.
pub proof fn watcher_runs_once(before: SakuinState)
    ensures
        watcher_refusal(
            Engine { state: Some(SakuinState { watching: true, ..before }) },
        ) == Some("Watcher already running"@),
        watcher_refusal(
            Engine { state: Some(SakuinState { watching: false, ..before }) },
        ) is None,
        watcher_refusal(Engine { state: None }) == Some("sakuin not initialized"@),
{
}

} // verus!
