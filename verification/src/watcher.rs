//! Watching the project: which file events ask for an update of the index, how events are
//! gathered, and what a git operation asks for.

use vstd::prelude::*;

use crate::git::{
    inside_git, is_git_internal_path, is_git_sentinel, is_sentinel, sentinels_are_internal,
    GitChanges,
};
use crate::order::{is_first_of, names_one_of, sort_unique, sorted_unique};
use crate::paths::{components_of, file_name, name_of, path_starts_with, starts_with};
use crate::text::{
    ends_with_text, has_end, has_start, marked, marked_texts_are_picked, same_text,
    starts_with_text, texts,
};

verus! {

/// How long events are gathered, in milliseconds.
pub const DEBOUNCE_NORMAL: u64 = 200;

/// How long events are gathered when a git operation was seen; it makes many at once.
pub const DEBOUNCE_GIT: u64 = 500;

/// How long the watcher waits for an event before it looks whether it is to stop.
pub const IDLE_WAIT: u64 = 1000;

/// How long the watcher waits for a further event while it gathers.
pub const GATHER_WAIT: u64 = 50;

/// What happened to a path.
#[derive(Debug, Clone, Copy, PartialEq, Eq, Structural)]
pub enum EventKind {
    Any,
    Access,
    Create,
    Modify,
    Remove,
    Other,
}

/// A file event.
#[derive(Debug, Clone)]
pub struct WatchEvent {
    pub kind: EventKind,
    pub paths: Vec<String>,
}

/// A path is one that editors use for a moment while they save.
pub open spec fn names_editor_temp(path: Seq<char>) -> bool {
    name_of(path) matches Some(name) && {
        ||| name == "4913"@
        ||| name == "5036"@
        ||| name == "5159"@
        ||| ends_with_text(name, "~"@)
        ||| starts_with_text(name, "."@) && (ends_with_text(name, ".swp"@) || ends_with_text(
            name,
            ".swo"@,
        ) || ends_with_text(name, ".swn"@))
    }
}

/// Whether a path is one that editors use for a moment.
pub fn is_editor_temp(path: &str) -> (r: bool)
    ensures
        r == names_editor_temp(path@),
{
    let name = match file_name(path) {
        Some(n) => n,
        None => {
            return false;
        },
    };
    let s = name.as_str();
    if same_text(s, "4913") || same_text(s, "5036") || same_text(s, "5159") {
        return true;
    }
    if has_end(s, "~") {
        return true;
    }
    has_start(s, ".") && (has_end(s, ".swp") || has_end(s, ".swo") || has_end(s, ".swn"))
}

/// A path is one whose events concern the index.
pub open spec fn is_watched(root: Seq<char>, path: Seq<char>) -> bool {
    !is_sentinel(path, root) && !inside_git(path) && !names_editor_temp(path)
}

/// The watched ones among some paths, in order.
pub open spec fn watched(root: Seq<char>, paths: Seq<Seq<char>>) -> Seq<Seq<char>>
    decreases paths.len(),
{
    if paths.len() == 0 {
        Seq::empty()
    } else if is_watched(root, paths.last()) {
        watched(root, paths.drop_last()).push(paths.last())
    } else {
        watched(root, paths.drop_last())
    }
}

/// Some path announces a git operation.
pub open spec fn has_sentinel(root: Seq<char>, paths: Seq<Seq<char>>) -> bool {
    exists|k: int| 0 <= k < paths.len() && is_sentinel(#[trigger] paths[k], root)
}

/// The events that were gathered.
#[derive(Debug)]
pub struct EventBatch {
    /// Paths that were created or modified.
    pub reindex: Vec<String>,
    /// Paths that were removed.
    pub remove: Vec<String>,
    /// Whether a git operation was announced.
    pub git_sentinel_changed: bool,
}

/// Gathered events with their paths taken as texts.
#[verifier::ext_equal]
pub struct BatchView {
    pub reindex: Seq<Seq<char>>,
    pub remove: Seq<Seq<char>>,
    pub git_sentinel_changed: bool,
}

impl View for EventBatch {
    type V = BatchView;

    open spec fn view(&self) -> BatchView {
        BatchView {
            reindex: texts(self.reindex@),
            remove: texts(self.remove@),
            git_sentinel_changed: self.git_sentinel_changed,
        }
    }
}

impl BatchView {
    /// Nothing was gathered.
    pub open spec fn empty() -> BatchView {
        BatchView { reindex: Seq::empty(), remove: Seq::empty(), git_sentinel_changed: false }
    }

    /// The batch with the paths of one more event.
    pub open spec fn with(
        self,
        kind: EventKind,
        root: Seq<char>,
        paths: Seq<Seq<char>>,
    ) -> BatchView {
        BatchView {
            reindex: if kind == EventKind::Create || kind == EventKind::Modify {
                self.reindex + watched(root, paths)
            } else {
                self.reindex
            },
            remove: if kind == EventKind::Remove {
                self.remove + watched(root, paths)
            } else {
                self.remove
            },
            git_sentinel_changed: self.git_sentinel_changed || has_sentinel(root, paths),
        }
    }
}

impl EventBatch {
    /// Nothing was gathered.
    pub fn new() -> (r: EventBatch)
        ensures
            r@ == BatchView::empty(),
    {
        let r = EventBatch {
            reindex: Vec::new(),
            remove: Vec::new(),
            git_sentinel_changed: false,
        };
        assert(r@ =~= BatchView::empty());
        r
    }
}

/// Sort the paths of an event into the batch.
pub fn classify_event(event: &WatchEvent, project_root: &str, batch: &mut EventBatch)
    ensures
        final(batch)@ == old(batch)@.with(event.kind, project_root@, texts(event.paths@)),
{
    let ghost root = project_root@;
    let ghost all = texts(event.paths@);
    let ghost start = batch@;
    let mut i: usize = 0;
    assert(batch@ =~= start.with(event.kind, root, all.take(0)));
    while i < event.paths.len()
        invariant
            i <= event.paths@.len() == all.len(),
            all == texts(event.paths@),
            root == project_root@,
            batch@ == start.with(event.kind, root, all.take(i as int)),
        decreases event.paths@.len() - i,
    {
        let ghost before = batch@;
        let ghost part = all.take(i as int);
        let ghost more = all.take(i + 1);
        let path = &event.paths[i];
        proof {
            assert(more.drop_last() =~= part);
            assert(more.last() == path@);
            if has_sentinel(root, part) {
                let k = choose|k: int| 0 <= k < part.len() && is_sentinel(#[trigger] part[k], root);
                assert(is_sentinel(more[k], root));
            }
            if has_sentinel(root, more) && !is_sentinel(path@, root) {
                let k = choose|k: int| 0 <= k < more.len() && is_sentinel(#[trigger] more[k], root);
                assert(is_sentinel(part[k], root));
            }
            if is_sentinel(path@, root) {
                assert(is_sentinel(more[i as int], root));
            }
        }
        if is_git_sentinel(path.as_str(), project_root) {
            batch.git_sentinel_changed = true;
        } else if !is_git_internal_path(path.as_str()) && !is_editor_temp(path.as_str()) {
            match event.kind {
                EventKind::Create | EventKind::Modify => {
                    batch.reindex.push(path.clone());
                    assert(batch@.reindex =~= before.reindex.push(path@));
                },
                EventKind::Remove => {
                    batch.remove.push(path.clone());
                    assert(batch@.remove =~= before.remove.push(path@));
                },
                _ => {},
            }
        }
        assert(batch@ =~= start.with(event.kind, root, more));
        i += 1;
    }
    assert(all.take(i as int) =~= all);
}

/// The paths that do not lie in the index directory, in order.
pub open spec fn outside(index_dir: Seq<char>, paths: Seq<Seq<char>>) -> Seq<Seq<char>>
    decreases paths.len(),
{
    if paths.len() == 0 {
        Seq::empty()
    } else if path_starts_with(paths.last(), index_dir) {
        outside(index_dir, paths.drop_last())
    } else {
        outside(index_dir, paths.drop_last()).push(paths.last())
    }
}

/// Append the paths that do not lie in the index directory.
fn push_outside(index_dir: &str, paths: &Vec<String>, out: &mut Vec<String>)
    ensures
        texts(final(out)@) == texts(old(out)@) + outside(index_dir@, texts(paths@)),
{
    let ghost start = texts(out@);
    let ghost all = texts(paths@);
    let mut i: usize = 0;
    assert(start + outside(index_dir@, all.take(0)) =~= start);
    while i < paths.len()
        invariant
            i <= paths@.len() == all.len(),
            all == texts(paths@),
            texts(out@) == start + outside(index_dir@, all.take(i as int)),
        decreases paths@.len() - i,
    {
        let ghost before = out@;
        assert(all.take(i + 1).drop_last() =~= all.take(i as int));
        assert(all.take(i + 1).last() == paths@[i as int]@);
        if !starts_with(paths[i].as_str(), index_dir) {
            out.push(paths[i].clone());
            assert(texts(out@) =~= texts(before).push(all[i as int]));
            assert(texts(out@) =~= start + outside(index_dir@, all.take(i + 1)));
        }
        i += 1;
    }
    assert(all.take(i as int) =~= all);
}

/// The paths that gathered events ask to look at: each path once, without those in the
/// index directory.
pub fn touched_paths(batch: &EventBatch, index_dir: &str) -> (r: Vec<String>)
    ensures
        sorted_unique(
            outside(index_dir@, batch@.reindex) + outside(index_dir@, batch@.remove),
            texts(r@),
        ),
{
    let mut all: Vec<String> = Vec::new();
    assert(texts(all@) =~= Seq::<Seq<char>>::empty());
    push_outside(index_dir, &batch.reindex, &mut all);
    push_outside(index_dir, &batch.remove, &mut all);
    assert(texts(all@) =~= outside(index_dir@, batch@.reindex) + outside(index_dir@, batch@.remove));
    sort_unique(&all)
}

/// An update of the index: paths to remove and files to index.
#[derive(Debug)]
pub struct BatchUpdate {
    pub to_remove: Vec<String>,
    pub to_reindex: Vec<String>,
}

/// The marks turned round.
pub open spec fn inverted(marks: Seq<bool>) -> Seq<bool> {
    Seq::new(marks.len(), |i: int| !marks[i])
}

/// The update for touched paths, where `is_file` tells which of them are files now: those
/// are indexed, the others removed, whatever the events said. No update where there are none.
pub fn handle_file_events(paths: &Vec<String>, is_file: &Vec<bool>) -> (r: Option<BatchUpdate>)
    requires
        paths@.len() == is_file@.len(),
    ensures
        match r {
            Some(u) => paths@.len() > 0 && texts(u.to_reindex@) == marked(texts(paths@), is_file@)
                && texts(u.to_remove@) == marked(texts(paths@), inverted(is_file@)),
            None => paths@.len() == 0,
        },
{
    if paths.len() == 0 {
        return None;
    }
    let ghost all = texts(paths@);
    let ghost inv = inverted(is_file@);
    let mut to_remove: Vec<String> = Vec::new();
    let mut to_reindex: Vec<String> = Vec::new();
    let mut i: usize = 0;
    assert(texts(to_reindex@) =~= marked(all.take(0), is_file@.take(0)));
    assert(texts(to_remove@) =~= marked(all.take(0), inv.take(0)));
    while i < paths.len()
        invariant
            i <= paths@.len() == is_file@.len(),
            all == texts(paths@),
            inv == inverted(is_file@),
            texts(to_reindex@) == marked(all.take(i as int), is_file@.take(i as int)),
            texts(to_remove@) == marked(all.take(i as int), inv.take(i as int)),
        decreases paths@.len() - i,
    {
        let ghost a = to_reindex@;
        let ghost b = to_remove@;
        proof {
            assert(all.take(i + 1).drop_last() =~= all.take(i as int));
            assert(is_file@.take(i + 1).drop_last() =~= is_file@.take(i as int));
            assert(inv.take(i + 1).drop_last() =~= inv.take(i as int));
        }
        if is_file[i] {
            to_reindex.push(paths[i].clone());
            assert(texts(to_reindex@) =~= texts(a).push(all[i as int]));
        } else {
            to_remove.push(paths[i].clone());
            assert(texts(to_remove@) =~= texts(b).push(all[i as int]));
        }
        i += 1;
    }
    assert(all.take(i as int) =~= all);
    assert(is_file@.take(i as int) =~= is_file@);
    assert(inv.take(i as int) =~= inv);
    Some(BatchUpdate { to_remove, to_reindex })
}

/// HEAD names the same commit, or none, on both sides.
pub open spec fn heads_equal(a: Option<String>, b: Option<String>) -> bool {
    match (a, b) {
        (Some(x), Some(y)) => x@ == y@,
        (None, None) => true,
        _ => false,
    }
}

/// Whether two commit names that may be missing are the same.
fn same_head(a: &Option<String>, b: &Option<String>) -> (r: bool)
    ensures
        r == heads_equal(*a, *b),
{
    match (a, b) {
        (Some(x), Some(y)) => same_text(x.as_str(), y.as_str()),
        (None, None) => true,
        _ => false,
    }
}

/// Whether gathered events ask to read git: an operation was announced and HEAD moved.
pub fn git_update_due(
    git_sentinel_changed: bool,
    current_head: &Option<String>,
    last_head: &Option<String>,
) -> (r: bool)
    ensures
        r == (git_sentinel_changed && !heads_equal(*current_head, *last_head)),
{
    git_sentinel_changed && !same_head(current_head, last_head)
}

/// What reading git gave: the changes of HEAD, or, where they could not be had, those of the
/// working tree.
pub enum GitReading {
    /// The changes of HEAD were read.
    Head(GitChanges),
    /// They could not be read, and this came of the working tree.
    Fallback(Result<GitChanges, String>),
}

/// The update that a git operation asks for: none where nothing changed or git could not be
/// read.
pub fn handle_git_operation(reading: GitReading) -> (r: Option<BatchUpdate>)
    ensures
        match reading {
            GitReading::Head(c) | GitReading::Fallback(Ok(c)) => match r {
                Some(u) => u.to_remove == c.deleted && u.to_reindex == c.modified && (
                c.deleted@.len() > 0 || c.modified@.len() > 0),
                None => c.deleted@.len() == 0 && c.modified@.len() == 0,
            },
            GitReading::Fallback(Err(_)) => r is None,
        },
{
    let changes = match reading {
        GitReading::Head(c) => c,
        GitReading::Fallback(Ok(c)) => c,
        GitReading::Fallback(Err(_)) => {
            return None;
        },
    };
    if changes.is_empty() {
        return None;
    }
    Some(BatchUpdate { to_remove: changes.deleted, to_reindex: changes.modified })
}

/// What the watcher is told.
#[derive(Debug, Clone)]
pub enum WatchInput {
    /// An event came.
    Event(WatchEvent),
    /// The source of events reported an error.
    Failed,
    /// No event came in time.
    Timeout,
    /// No event will come any more.
    Disconnected,
    /// The time for gathering is over.
    DeadlinePassed,
}

/// What the watcher does next.
#[derive(Debug)]
pub enum WatchAction {
    /// Look whether it is to stop, then wait `IDLE_WAIT` for an event.
    Idle,
    /// Gather events from now on for this many milliseconds.
    Gather { millis: u64 },
    /// Wait `GATHER_WAIT` for a further event.
    GatherOn,
    /// Update the index by what was gathered.
    Flush(EventBatch),
    /// End.
    Stop,
}

/// The watcher's state: idle, or gathering a batch.
pub struct WatchLoop {
    project_root: String,
    batch: Option<EventBatch>,
}

/// The state of the watcher with its texts.
pub struct LoopView {
    pub root: Seq<char>,
    pub gathered: Option<BatchView>,
}

impl View for WatchLoop {
    type V = LoopView;

    closed spec fn view(&self) -> LoopView {
        LoopView {
            root: self.project_root@,
            gathered: match self.batch {
                Some(b) => Some(b@),
                None => None,
            },
        }
    }
}

/// How long events are gathered behind a first batch.
pub open spec fn debounce(batch: BatchView) -> u64 {
    if batch.git_sentinel_changed {
        DEBOUNCE_GIT
    } else {
        DEBOUNCE_NORMAL
    }
}

impl LoopView {
    /// The state and the action that an input leads to.
    pub open spec fn step_is(self, input: WatchInput, next: LoopView, action: WatchAction) -> bool {
        match (self.gathered, input) {
            (None, WatchInput::Event(e)) => {
                let b = BatchView::empty().with(e.kind, self.root, texts(e.paths@));
                &&& next == LoopView { gathered: Some(b), ..self }
                &&& action == WatchAction::Gather { millis: debounce(b) }
            },
            (None, WatchInput::Disconnected) => next == self && action is Stop,
            (None, _) => next == self && action is Idle,
            (Some(b), WatchInput::Event(e)) => {
                &&& next == LoopView {
                    gathered: Some(b.with(e.kind, self.root, texts(e.paths@))),
                    ..self
                }
                &&& action is GatherOn
            },
            (Some(_), WatchInput::Failed) => next == self && action is GatherOn,
            (Some(b), _) => {
                &&& next == LoopView { gathered: None, ..self }
                &&& action matches WatchAction::Flush(f) && f@ == b
            },
        }
    }
}

impl WatchLoop {
    /// The watcher of a project, idle.
    pub fn new(project_root: &str) -> (r: WatchLoop)
        ensures
            r@ == (LoopView { root: project_root@, gathered: None }),
    {
        WatchLoop { project_root: project_root.to_owned(), batch: None }
    }

    /// Deal with one input.
    pub fn step(&mut self, input: WatchInput) -> (r: WatchAction)
        ensures
            old(self)@.step_is(input, final(self)@, r),
    {
        match self.batch.take() {
            None => match input {
                WatchInput::Event(e) => {
                    let mut b = EventBatch::new();
                    classify_event(&e, self.project_root.as_str(), &mut b);
                    let millis: u64 = if b.git_sentinel_changed {
                        DEBOUNCE_GIT
                    } else {
                        DEBOUNCE_NORMAL
                    };
                    self.batch = Some(b);
                    WatchAction::Gather { millis }
                },
                WatchInput::Disconnected => WatchAction::Stop,
                _ => WatchAction::Idle,
            },
            Some(b) => match input {
                WatchInput::Event(e) => {
                    let mut b = b;
                    classify_event(&e, self.project_root.as_str(), &mut b);
                    self.batch = Some(b);
                    WatchAction::GatherOn
                },
                WatchInput::Failed => {
                    self.batch = Some(b);
                    WatchAction::GatherOn
                },
                _ => WatchAction::Flush(b),
            },
        }
    }
}

proof fn lemma_watched(root: Seq<char>, paths: Seq<Seq<char>>)
    ensures
        forall|i: int|
            0 <= i < watched(root, paths).len() ==> is_watched(
                root,
                #[trigger] watched(root, paths)[i],
            ),
    decreases paths.len(),
{
    if paths.len() > 0 {
        let d = paths.drop_last();
        lemma_watched(root, d);
        let w = watched(root, d);
        assert forall|i: int| 0 <= i < watched(root, paths).len() implies is_watched(
            root,
            #[trigger] watched(root, paths)[i],
        ) by {
            if i < w.len() {
                assert(watched(root, paths)[i] == w[i]);
            }
        }
    }
}

/// Every path that was gathered is one whose events concern the index.
pub open spec fn all_watched(batch: BatchView, root: Seq<char>) -> bool {
    &&& forall|i: int| 0 <= i < batch.reindex.len() ==> is_watched(root, #[trigger] batch.reindex[i])
    &&& forall|i: int| 0 <= i < batch.remove.len() ==> is_watched(root, #[trigger] batch.remove[i])
}

/// Whatever events come, git's own files and the editors' temporary files are never
/// gathered.
pub proof fn gathers_only_watched(
    batch: BatchView,
    kind: EventKind,
    root: Seq<char>,
    paths: Seq<Seq<char>>,
)
    requires
        all_watched(batch, root),
    ensures
        all_watched(BatchView::empty(), root),
        all_watched(batch.with(kind, root, paths), root),
{
    lemma_watched(root, paths);
    let next = batch.with(kind, root, paths);
    let w = watched(root, paths);
    assert forall|i: int| 0 <= i < next.reindex.len() implies is_watched(
        root,
        #[trigger] next.reindex[i],
    ) by {
        if i >= batch.reindex.len() {
            assert(next.reindex[i] == w[i - batch.reindex.len()]);
        }
    }
    assert forall|i: int| 0 <= i < next.remove.len() implies is_watched(
        root,
        #[trigger] next.remove[i],
    ) by {
        if i >= batch.remove.len() {
            assert(next.remove[i] == w[i - batch.remove.len()]);
        }
    }
}

proof fn lemma_outside(index_dir: Seq<char>, paths: Seq<Seq<char>>, p: Seq<char>)
    ensures
        outside(index_dir, paths).contains(p) <==> paths.contains(p) && !path_starts_with(
            p,
            index_dir,
        ),
    decreases paths.len(),
{
    if paths.len() > 0 {
        let d = paths.drop_last();
        let o = outside(index_dir, d);
        let all = outside(index_dir, paths);
        lemma_outside(index_dir, d, p);
        if d.contains(p) {
            let i = choose|i: int| 0 <= i < d.len() && d[i] == p;
            assert(paths[i] == p);
        }
        if paths.contains(p) {
            let i = choose|i: int| 0 <= i < paths.len() && paths[i] == p;
            if i < d.len() {
                assert(d[i] == p);
            }
        }
        assert(paths[paths.len() - 1] == paths.last());
        if !path_starts_with(paths.last(), index_dir) {
            assert(all[o.len() as int] == paths.last());
            if o.contains(p) {
                let i = choose|i: int| 0 <= i < o.len() && o[i] == p;
                assert(all[i] == p);
            }
            if all.contains(p) {
                let i = choose|i: int| 0 <= i < all.len() && all[i] == p;
                if i < o.len() {
                    assert(o[i] == p);
                }
            }
        }
    }
}

/// The index never asks for an update of itself: no touched path lies in the index
/// directory. Every gathered path outside it is among the touched ones.
pub proof fn touches_everything_outside(
    batch: BatchView,
    index_dir: Seq<char>,
    touched: Seq<Seq<char>>,
)
    requires
        sorted_unique(outside(index_dir, batch.reindex) + outside(index_dir, batch.remove), touched),
    ensures
        forall|i: int|
            0 <= i < touched.len() ==> !path_starts_with(#[trigger] touched[i], index_dir),
        forall|p: Seq<char>|
            (#[trigger] batch.reindex.contains(p)) && !path_starts_with(p, index_dir)
                ==> names_one_of(touched, p),
        forall|p: Seq<char>|
            (#[trigger] batch.remove.contains(p)) && !path_starts_with(p, index_dir)
                ==> names_one_of(touched, p),
{
    let a = outside(index_dir, batch.reindex);
    let b = outside(index_dir, batch.remove);
    let all = a + b;
    assert forall|i: int| 0 <= i < touched.len() implies !path_starts_with(
        #[trigger] touched[i],
        index_dir,
    ) by {
        let p = touched[i];
        assert(is_first_of(all, p));
        let k = choose|k: int|
            0 <= k < all.len() && #[trigger] all[k] == p && forall|m: int|
                0 <= m < k ==> !crate::paths::same_path(#[trigger] all[m], p);
        if k < a.len() {
            assert(a[k] == p);
            lemma_outside(index_dir, batch.reindex, p);
        } else {
            assert(b[k - a.len()] == p);
            lemma_outside(index_dir, batch.remove, p);
        }
    }
    assert forall|p: Seq<char>|
        (#[trigger] batch.reindex.contains(p)) && !path_starts_with(
            p,
            index_dir,
        ) implies names_one_of(touched, p) by {
        lemma_outside(index_dir, batch.reindex, p);
        let k = choose|k: int| 0 <= k < a.len() && a[k] == p;
        assert(all[k] == p);
        assert(names_one_of(touched, all[k]));
    }
    assert forall|p: Seq<char>|
        (#[trigger] batch.remove.contains(p)) && !path_starts_with(
            p,
            index_dir,
        ) implies names_one_of(touched, p) by {
        lemma_outside(index_dir, batch.remove, p);
        let k = choose|k: int| 0 <= k < b.len() && b[k] == p;
        assert(all[a.len() + k] == p);
        assert(names_one_of(touched, all[a.len() + k]));
    }
}

/// A path that belongs to git is not watched, whether it announces an operation or not.
pub proof fn git_files_are_not_watched(root: Seq<char>, path: Seq<char>)
    requires
        is_sentinel(path, root) || inside_git(path),
    ensures
        inside_git(path),
        !is_watched(root, path),
{
    if is_sentinel(path, root) {
        sentinels_are_internal(path, root);
    }
}

/// Each touched path goes into exactly one of the two lists of an update.
pub proof fn update_splits_paths(paths: Seq<Seq<char>>, is_file: Seq<bool>, i: int)
    requires
        paths.len() == is_file.len(),
        0 <= i < paths.len(),
    ensures
        is_file[i] ==> marked(paths, is_file).contains(paths[i]),
        !is_file[i] ==> marked(paths, inverted(is_file)).contains(paths[i]),
        marked(paths, is_file).len() + marked(paths, inverted(is_file)).len() == paths.len(),
    decreases paths.len(),
{
    let n = paths.len() - 1;
    let d = paths.drop_last();
    let e = is_file.drop_last();
    assert(inverted(is_file).drop_last() =~= inverted(e));
    assert(inverted(is_file).last() == !is_file.last());
    let a = marked(d, e);
    let b = marked(d, inverted(e));
    if n > 0 {
        update_splits_paths(
            d,
            e,
            if i < n {
                i
            } else {
                0
            },
        );
    }
    if is_file.last() {
        assert(a.push(paths.last())[a.len() as int] == paths.last());
    } else {
        assert(b.push(paths.last())[b.len() as int] == paths.last());
    }
    if i < n {
        assert(d[i] == paths[i]);
        if is_file[i] {
            let k = choose|k: int| 0 <= k < a.len() && a[k] == paths[i];
            assert(marked(paths, is_file)[k] == paths[i]);
        } else {
            let k = choose|k: int| 0 <= k < b.len() && b[k] == paths[i];
            assert(marked(paths, inverted(is_file))[k] == paths[i]);
        }
    }
}

/// A path that editors do not use for a moment only and that does not belong to git, told by
/// its components and the characters of its name: none of the numbers that editors try, no
/// tilde at the end, no hidden swap file.
pub open spec fn concerns_index(path: Seq<char>) -> bool {
    &&& !components_of(path).contains(seq!['.', 'g', 'i', 't'])
    &&& name_of(path) matches Some(name) ==> {
        let n = name.len() as int;
        &&& name != seq!['4', '9', '1', '3']
        &&& name != seq!['5', '0', '3', '6']
        &&& name != seq!['5', '1', '5', '9']
        &&& n > 0 ==> name[n - 1] != '~'
        &&& !(n >= 4 && name[0] == '.' && name[n - 4] == '.' && name[n - 3] == 's' && name[n - 2]
            == 'w' && (name[n - 1] == 'p' || name[n - 1] == 'o' || name[n - 1] == 'n'))
    }
}

proof fn lemma_ends_with_four(name: Seq<char>, end: Seq<char>)
    requires
        end.len() == 4,
    ensures
        ends_with_text(name, end) <==> name.len() >= 4 && name[name.len() - 4] == end[0] && name[
        name.len() - 3] == end[1] && name[name.len() - 2] == end[2] && name[name.len() - 1]
            == end[3],
{
    if name.len() >= 4 {
        let t = name.skip(name.len() - 4);
        assert(t[0] == name[name.len() - 4] && t[1] == name[name.len() - 3] && t[2] == name[
        name.len() - 2] && t[3] == name[name.len() - 1]);
        if t[0] == end[0] && t[1] == end[1] && t[2] == end[2] && t[3] == end[3] {
            assert(t =~= end);
        }
    }
}

/// Events are watched for exactly the paths that are neither git's nor an editor's temporary
/// files, whatever else their names are.
pub proof fn watched_paths_are_told_by_their_names(root: Seq<char>, path: Seq<char>)
    ensures
        is_watched(root, path) <==> concerns_index(path),
{
    reveal_strlit(".git");
    reveal_strlit("4913");
    reveal_strlit("5036");
    reveal_strlit("5159");
    reveal_strlit("~");
    reveal_strlit(".");
    reveal_strlit(".swp");
    reveal_strlit(".swo");
    reveal_strlit(".swn");
    assert(".git"@ =~= seq!['.', 'g', 'i', 't']);
    assert("4913"@ =~= seq!['4', '9', '1', '3']);
    assert("5036"@ =~= seq!['5', '0', '3', '6']);
    assert("5159"@ =~= seq!['5', '1', '5', '9']);
    if is_sentinel(path, root) {
        sentinels_are_internal(path, root);
    }
    if let Some(name) = name_of(path) {
        let n = name.len() as int;
        lemma_ends_with_four(name, ".swp"@);
        lemma_ends_with_four(name, ".swo"@);
        lemma_ends_with_four(name, ".swn"@);
        if n > 0 {
            assert(name.take(1)[0] == name[0]);
            if name[0] == '.' {
                assert(name.take(1) =~= "."@);
            }
            assert(name.skip(n - 1)[0] == name[n - 1]);
            if name[n - 1] == '~' {
                assert(name.skip(n - 1) =~= "~"@);
            }
        }
    }
}

proof fn lemma_watched_filter(root: Seq<char>, paths: Seq<Seq<char>>)
    ensures
        watched(root, paths) == paths.filter(|p: Seq<char>| concerns_index(p)),
    decreases paths.len(),
{
    reveal(Seq::filter);
    if paths.len() > 0 {
        lemma_watched_filter(root, paths.drop_last());
        watched_paths_are_told_by_their_names(root, paths.last());
    }
}

/// An event adds to the batch exactly its paths that concern the index, in their order and
/// behind what was there: those of a creation or a modification to be indexed again, those of
/// a removal to be removed, of any other event none. A path that announces a git operation
/// sets the mark, which then stays.
pub proof fn events_are_gathered_in_full(
    batch: BatchView,
    kind: EventKind,
    root: Seq<char>,
    paths: Seq<Seq<char>>,
)
    ensures
        kind == EventKind::Create || kind == EventKind::Modify ==> batch.with(
            kind,
            root,
            paths,
        ).reindex == batch.reindex + paths.filter(|p: Seq<char>| concerns_index(p)),
        !(kind == EventKind::Create || kind == EventKind::Modify) ==> batch.with(
            kind,
            root,
            paths,
        ).reindex == batch.reindex,
        kind == EventKind::Remove ==> batch.with(kind, root, paths).remove == batch.remove
            + paths.filter(|p: Seq<char>| concerns_index(p)),
        kind != EventKind::Remove ==> batch.with(kind, root, paths).remove == batch.remove,
        batch.with(kind, root, paths).git_sentinel_changed <==> batch.git_sentinel_changed || exists|
            i: int,
        |
            0 <= i < paths.len() && is_sentinel(#[trigger] paths[i], root),
        BatchView::empty().reindex.len() == 0,
        BatchView::empty().remove.len() == 0,
        !BatchView::empty().git_sentinel_changed,
{
    lemma_watched_filter(root, paths);
}

/// No save and no removal is missed: a path of an event that concerns the index is in the
/// batch after the event.
pub proof fn no_change_is_missed(
    batch: BatchView,
    kind: EventKind,
    root: Seq<char>,
    paths: Seq<Seq<char>>,
    i: int,
)
    requires
        0 <= i < paths.len(),
        concerns_index(paths[i]),
    ensures
        kind == EventKind::Create || kind == EventKind::Modify ==> batch.with(
            kind,
            root,
            paths,
        ).reindex.contains(paths[i]),
        kind == EventKind::Remove ==> batch.with(kind, root, paths).remove.contains(paths[i]),
{
    let w = watched(root, paths);
    lemma_watched_holds(root, paths, i);
    let k = choose|k: int| 0 <= k < w.len() && w[k] == paths[i];
    let next = batch.with(kind, root, paths);
    if kind == EventKind::Create || kind == EventKind::Modify {
        assert(next.reindex[batch.reindex.len() + k] == paths[i]);
    }
    if kind == EventKind::Remove {
        assert(next.remove[batch.remove.len() + k] == paths[i]);
    }
}

proof fn lemma_watched_holds(root: Seq<char>, paths: Seq<Seq<char>>, i: int)
    requires
        0 <= i < paths.len(),
        concerns_index(paths[i]),
    ensures
        watched(root, paths).contains(paths[i]),
    decreases paths.len(),
{
    watched_paths_are_told_by_their_names(root, paths[i]);
    let w = watched(root, paths);
    if i == paths.len() - 1 {
        assert(w[w.len() - 1] == paths[i]);
    } else {
        let d = paths.drop_last();
        lemma_watched_holds(root, d, i);
        let k = choose|k: int| 0 <= k < watched(root, d).len() && watched(root, d)[k] == d[i];
        assert(w[k] == paths[i]);
    }
}

/// What is gathered is looked at unless it lies in the index directory.
pub proof fn only_the_index_directory_is_left_out(index_dir: Seq<char>, paths: Seq<Seq<char>>)
    ensures
        outside(index_dir, paths) == paths.filter(
            |p: Seq<char>|
                !(components_of(p).len() >= components_of(index_dir).len() && components_of(p).take(
                    components_of(index_dir).len() as int,
                ) == components_of(index_dir)),
        ),
    decreases paths.len(),
{
    reveal(Seq::filter);
    if paths.len() > 0 {
        only_the_index_directory_is_left_out(index_dir, paths.drop_last());
    }
}

/// Of the paths that were looked at, each that is a file now is indexed and each other one is
/// removed, in their order.
pub proof fn looked_at_paths_are_parted(paths: Seq<Seq<char>>, is_file: Seq<bool>)
    requires
        paths.len() == is_file.len(),
    ensures
        marked(paths, is_file) == paths.zip_with(is_file).filter(
            |p: (Seq<char>, bool)| p.1,
        ).map_values(|p: (Seq<char>, bool)| p.0),
        marked(paths, inverted(is_file)) == paths.zip_with(is_file).filter(
            |p: (Seq<char>, bool)| !p.1,
        ).map_values(|p: (Seq<char>, bool)| p.0),
    decreases paths.len(),
{
    marked_texts_are_picked(paths, is_file);
    reveal(Seq::filter);
    let z = paths.zip_with(is_file);
    let keep = |p: (Seq<char>, bool)| !p.1;
    let text = |p: (Seq<char>, bool)| p.0;
    if paths.len() > 0 {
        looked_at_paths_are_parted(paths.drop_last(), is_file.drop_last());
        assert(z.drop_last() =~= paths.drop_last().zip_with(is_file.drop_last()));
        assert(z.last() == (paths.last(), is_file.last()));
        assert(inverted(is_file).drop_last() =~= inverted(is_file.drop_last()));
        let f = z.drop_last().filter(keep);
        assert(f.push(z.last()).map_values(text) =~= f.map_values(text).push(paths.last()));
    } else {
        assert(z.filter(keep).map_values(text) =~= Seq::<Seq<char>>::empty());
    }
}

/// Git is read when an operation was announced and HEAD names another commit than before, or
/// one where there was none, or none where there was one.
pub proof fn heads_are_compared_by_name(a: Option<String>, b: Option<String>)
    ensures
        a is None && b is None ==> heads_equal(a, b),
        a is None != b is None ==> !heads_equal(a, b),
        a is Some && b is Some ==> (heads_equal(a, b) <==> a->0@ == b->0@),
{
}

/// An idle watcher starts to gather with the first event, for half a second where that event
/// announces a git operation and a fifth of a second where it does not; it ends when no event
/// can come, and else stays idle.
pub proof fn first_event_starts_gathering(
    idle: LoopView,
    input: WatchInput,
    next: LoopView,
    action: WatchAction,
)
    requires
        idle.gathered is None,
        idle.step_is(input, next, action),
    ensures
        next.root == idle.root,
        input matches WatchInput::Event(e) ==> {
            &&& next.gathered == Some(BatchView::empty().with(e.kind, idle.root, texts(e.paths@)))
            &&& action == WatchAction::Gather {
                millis: if next.gathered->0.git_sentinel_changed {
                    500u64
                } else {
                    200u64
                },
            }
        },
        !(input is Event) ==> next.gathered is None,
        input is Disconnected ==> action is Stop,
        input is Failed || input is Timeout || input is DeadlinePassed ==> action is Idle,
{
}

/// A gathering watcher adds every further event to its batch, and hands out the whole batch
/// once when no event comes in time, when the time is over or when no event can come. An error
/// of the source loses nothing.
pub proof fn gathered_events_are_flushed_once(
    busy: LoopView,
    input: WatchInput,
    next: LoopView,
    action: WatchAction,
)
    requires
        busy.gathered is Some,
        busy.step_is(input, next, action),
    ensures
        next.root == busy.root,
        input matches WatchInput::Event(e) ==> action is GatherOn && next.gathered == Some(
            busy.gathered->0.with(e.kind, busy.root, texts(e.paths@)),
        ),
        input is Failed ==> action is GatherOn && next.gathered == busy.gathered,
        input is Timeout || input is Disconnected || input is DeadlinePassed ==> next.gathered is None
            && (action matches WatchAction::Flush(f) && f@ == busy.gathered->0),
        IDLE_WAIT == 1000,
        GATHER_WAIT == 50,
{
}

/// A batch is read as it is: its paths in their order, and the mark.
pub proof fn batches_are_read_as_they_are(b: &EventBatch)
    ensures
        b@.reindex == b.reindex@.map_values(|p: String| p@),
        b@.remove == b.remove@.map_values(|p: String| p@),
        b@.git_sentinel_changed == b.git_sentinel_changed,
{
    assert(texts(b.reindex@) =~= b.reindex@.map_values(|p: String| p@));
    assert(texts(b.remove@) =~= b.remove@.map_values(|p: String| p@));
}

} // verus!
