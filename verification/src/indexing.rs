//! Building and updating the index: what is to be added, replaced and removed, and how far
//! a job has come.

use vstd::hash_set::StringHashSet;
use vstd::prelude::*;

use crate::bridge::{push_indexing_event, IndexingEvent, IndexingEventView, IndexingSlot};
use crate::index::{indexed_path, rel_path, IndexedTimes};
use crate::paths::{strip_prefix, stripped};
use crate::state::{not_initialized, Engine};
use crate::text::texts;

verus! {

/// A job is running.
pub const PROGRESS_RUNNING: u64 = 1;

/// The last job came to its end.
pub const PROGRESS_DONE: u64 = 2;

/// The last job failed.
pub const PROGRESS_ERROR: u64 = 3;

/// A job reports its progress each time it has started this many files.
pub const REPORT_EVERY: u64 = 100;

/// How far a job has come.
#[derive(Debug, Clone, Copy, PartialEq, Eq, Structural)]
pub struct Progress {
    pub total: u64,
    pub done: u64,
    pub status: u64,
}

/// The state of index jobs.
pub struct IndexingState {
    pub progress: Progress,
    /// Whether the running job is to stop and keep what it has.
    pub cancel: bool,
}

impl IndexingState {
    /// No job has run.
    pub fn new() -> (r: IndexingState)
        ensures
            r.progress == (Progress { total: 0, done: 0, status: 0 }),
            !r.cancel,
    {
        IndexingState { progress: Progress { total: 0, done: 0, status: 0 }, cancel: false }
    }
}

/// How far the job has come.
pub fn progress(state: &IndexingState) -> (r: Progress)
    ensures
        r == state.progress,
{
    state.progress
}

/// Ask the running job to stop and keep what it has.
pub fn request_cancel(state: &mut IndexingState)
    ensures
        final(state).cancel,
        final(state).progress == old(state).progress,
{
    state.cancel = true;
}

/// Start a job: an earlier request to stop no longer counts.
pub fn begin_indexing(state: &mut IndexingState)
    ensures
        !final(state).cancel,
        final(state).progress == (Progress { total: 0, done: 0, status: PROGRESS_RUNNING }),
{
    state.cancel = false;
    state.progress = Progress { total: 0, done: 0, status: PROGRESS_RUNNING };
}

/// The event that reports progress.
pub open spec fn progress_event(
    total: u64,
    done: u64,
    message: Option<Seq<char>>,
) -> IndexingEventView {
    IndexingEventView { status: "progress"@, total, done, error: None, message }
}

/// Report progress.
pub fn emit_progress(slot: &mut IndexingSlot, total: u64, done: u64, message: Option<&str>)
    ensures
        final(slot).event matches Some(e) && e@ == progress_event(
            total,
            done,
            match message {
                Some(m) => Some(m@),
                None => None,
            },
        ),
{
    let text = match message {
        Some(m) => Some(m.to_owned()),
        None => None,
    };
    push_indexing_event(
        slot,
        IndexingEvent { status: "progress", total, done, error: None, message: text },
    );
}

/// Note how many files the job has to deal with, and report it.
pub fn announce_total(state: &mut IndexingState, slot: &mut IndexingSlot, total: u64)
    ensures
        final(state).progress == (Progress { total, ..old(state).progress }),
        final(state).cancel == old(state).cancel,
        final(slot).event matches Some(e) && e@ == progress_event(total, 0, None),
{
    state.progress.total = total;
    emit_progress(slot, total, 0, None);
}

/// What a job has counted.
#[derive(Debug, Clone, Copy, PartialEq, Eq, Structural)]
pub struct JobCounters {
    /// Files that were started.
    pub started: u64,
    /// Files that were indexed and had not been before.
    pub added: u64,
    /// Files that were indexed again.
    pub updated: u64,
}

impl JobCounters {
    /// Nothing was counted.
    pub fn new() -> (r: JobCounters)
        ensures
            r == (JobCounters { started: 0, added: 0, updated: 0 }),
    {
        JobCounters { started: 0, added: 0, updated: 0 }
    }

    /// No more files were indexed than started.
    pub open spec fn wf(self) -> bool {
        self.added + self.updated <= self.started
    }

    /// One more file was started.
    pub open spec fn after_start(self) -> JobCounters {
        JobCounters { started: (self.started + 1) as u64, ..self }
    }

    /// One more file was indexed.
    pub open spec fn after_indexed(self, is_update: bool) -> JobCounters {
        if is_update {
            JobCounters { updated: (self.updated + 1) as u64, ..self }
        } else {
            JobCounters { added: (self.added + 1) as u64, ..self }
        }
    }
}

/// Whether the next file of a job is dealt with: it is unless the job was asked to stop.
/// Then it counts as started, and every `REPORT_EVERY`-th file reports the progress.
pub fn start_file(
    state: &mut IndexingState,
    slot: &mut IndexingSlot,
    counters: &mut JobCounters,
) -> (r: bool)
    requires
        old(counters).started < u64::MAX,
    ensures
        r == !old(state).cancel,
        final(state).cancel == old(state).cancel,
        r ==> {
            let count = (old(counters).started + 1) as u64;
            &&& *final(counters) == old(counters).after_start()
            &&& final(state).progress == (Progress { done: count, ..old(state).progress })
            &&& count % REPORT_EVERY == 0 ==> (final(slot).event matches Some(e) && e@
                == progress_event(old(state).progress.total, count, None))
            &&& count % REPORT_EVERY != 0 ==> *final(slot) == *old(slot)
        },
        !r ==> *final(counters) == *old(counters) && final(state).progress == old(state).progress
            && *final(slot) == *old(slot),
        old(counters).wf() ==> final(counters).wf(),
{
    if state.cancel {
        return false;
    }
    counters.started += 1;
    let count: u64 = counters.started;
    state.progress.done = count;
    if count % REPORT_EVERY == 0 {
        emit_progress(slot, state.progress.total, count, None);
    }
    true
}

/// Count a file that was started and is now indexed.
pub fn file_indexed(counters: &mut JobCounters, is_update: bool)
    requires
        old(counters).added + old(counters).updated < old(counters).started,
    ensures
        *final(counters) == old(counters).after_indexed(is_update),
        final(counters).wf(),
{
    if is_update {
        counters.updated += 1;
    } else {
        counters.added += 1;
    }
}

/// The job came to its end.
pub fn finish_indexing(state: &mut IndexingState)
    ensures
        final(state).progress == (Progress { status: PROGRESS_DONE, ..old(state).progress }),
        final(state).cancel == old(state).cancel,
{
    state.progress.status = PROGRESS_DONE;
}

/// The event that closes a job, by its outcome: how many files it dealt with, or why it
/// failed.
pub fn completion_event(
    state: &mut IndexingState,
    outcome: Result<u64, String>,
) -> (r: IndexingEvent)
    ensures
        r@.total == old(state).progress.total,
        r@.message is None,
        final(state).cancel == old(state).cancel,
        match outcome {
            Ok(done) => r@.status == "done"@ && r@.done == done && r@.error is None
                && final(state).progress == old(state).progress,
            Err(e) => r@.status == "error"@ && r@.done == old(state).progress.done && r@.error
                == Some(e@) && final(state).progress == (Progress {
                status: PROGRESS_ERROR,
                ..old(state).progress
            }),
        },
{
    match outcome {
        Ok(done) => IndexingEvent {
            status: "done",
            total: state.progress.total,
            done,
            error: None,
            message: None,
        },
        Err(e) => {
            state.progress.status = PROGRESS_ERROR;
            IndexingEvent {
                status: "error",
                total: state.progress.total,
                done: state.progress.done,
                error: Some(e),
                message: None,
            }
        },
    }
}

/// A file found on disk.
#[derive(Debug, Clone)]
pub struct DiskFile {
    pub path: String,
    /// When it was modified, in seconds; zero where that is not known.
    pub mtime: u64,
}

/// A file to index.
#[derive(Debug, Clone)]
pub struct PlannedFile {
    pub path: String,
    /// Whether the index holds an older version of it.
    pub is_update: bool,
}

/// What an update does: first the removals, then the stale versions are deleted, then the
/// files are indexed.
#[derive(Debug)]
pub struct UpdatePlan {
    /// Paths of the index that are no longer on disk.
    pub removals: Vec<String>,
    /// Paths of the index whose older version is replaced.
    pub stale: Vec<String>,
    /// Files to index.
    pub files: Vec<PlannedFile>,
}

/// The file number `k` on disk lies below the root and is known there as `p`.
pub open spec fn is_at(root: Seq<char>, disk: Seq<DiskFile>, k: int, p: Seq<char>) -> bool {
    0 <= k < disk.len() && stripped(disk[k].path@, root) == Some(p)
}

/// A path relative to the root is on disk.
pub open spec fn on_disk(root: Seq<char>, disk: Seq<DiskFile>, p: Seq<char>) -> bool {
    exists|k: int| is_at(root, disk, k, p)
}

/// The paths of the index that are not on disk, in order.
pub open spec fn gone(root: Seq<char>, disk: Seq<DiskFile>, keys: Seq<Seq<char>>) -> Seq<Seq<char>>
    decreases keys.len(),
{
    if keys.len() == 0 {
        Seq::empty()
    } else if on_disk(root, disk, keys.last()) {
        gone(root, disk, keys.drop_last())
    } else {
        gone(root, disk, keys.drop_last()).push(keys.last())
    }
}

/// The index does not hold the file.
pub open spec fn is_new(root: Seq<char>, file: DiskFile, index: Map<Seq<char>, u64>) -> bool {
    !index.contains_key(indexed_path(root, file.path@))
}

/// The index holds the file with another modification time.
pub open spec fn is_changed(root: Seq<char>, file: DiskFile, index: Map<Seq<char>, u64>) -> bool {
    let p = indexed_path(root, file.path@);
    index.contains_key(p) && index[p] != file.mtime
}

/// The files to index: the new ones and the changed ones, in order.
pub open spec fn planned(
    root: Seq<char>,
    disk: Seq<DiskFile>,
    index: Map<Seq<char>, u64>,
) -> Seq<(Seq<char>, bool)>
    decreases disk.len(),
{
    if disk.len() == 0 {
        Seq::empty()
    } else {
        let before = planned(root, disk.drop_last(), index);
        if is_new(root, disk.last(), index) {
            before.push((disk.last().path@, false))
        } else if is_changed(root, disk.last(), index) {
            before.push((disk.last().path@, true))
        } else {
            before
        }
    }
}

/// The paths of the files to index whose older version the index holds, in order.
pub open spec fn outdated(
    root: Seq<char>,
    disk: Seq<DiskFile>,
    index: Map<Seq<char>, u64>,
) -> Seq<Seq<char>>
    decreases disk.len(),
{
    if disk.len() == 0 {
        Seq::empty()
    } else if is_changed(root, disk.last(), index) {
        outdated(root, disk.drop_last(), index).push(indexed_path(root, disk.last().path@))
    } else {
        outdated(root, disk.drop_last(), index)
    }
}

/// Planned files with their paths taken as texts.
pub open spec fn planned_views(v: Seq<PlannedFile>) -> Seq<(Seq<char>, bool)> {
    Seq::new(v.len(), |i: int| (v[i].path@, v[i].is_update))
}

/// The paths of the files that lie below the root.
fn disk_set(project_root: &str, disk: &Vec<DiskFile>) -> (r: StringHashSet)
    ensures
        forall|p: Seq<char>| r@.contains(p) <==> #[trigger] on_disk(project_root@, disk@, p),
{
    let mut set = StringHashSet::new();
    let ghost root = project_root@;
    let mut i: usize = 0;
    while i < disk.len()
        invariant
            i <= disk@.len(),
            root == project_root@,
            forall|p: Seq<char>|
                set@.contains(p) <==> #[trigger] on_disk(root, disk@.take(i as int), p),
        decreases disk@.len() - i,
    {
        let ghost before = set@;
        let rel = strip_prefix(disk[i].path.as_str(), project_root);
        match rel {
            Some(rel) => {
                set.insert(rel);
            },
            None => {},
        }
        proof {
            let a = disk@.take(i as int);
            let b = disk@.take(i + 1);
            assert forall|p: Seq<char>| set@.contains(p) <==> #[trigger] on_disk(root, b, p) by {
                if on_disk(root, a, p) {
                    let k = choose|k: int| is_at(root, a, k, p);
                    assert(is_at(root, b, k, p));
                }
                if on_disk(root, b, p) {
                    let k = choose|k: int| is_at(root, b, k, p);
                    if k < i {
                        assert(is_at(root, a, k, p));
                    }
                }
                if set@.contains(p) && !before.contains(p) {
                    assert(is_at(root, b, i as int, p));
                }
                assert(before.contains(p) <==> on_disk(root, a, p));
            }
        }
        i += 1;
    }
    assert(disk@.take(i as int) =~= disk@);
    set
}

/// What an update does to make the index hold what is on disk.
pub fn plan_update(
    project_root: &str,
    disk: &Vec<DiskFile>,
    indexed: &IndexedTimes,
) -> (r: UpdatePlan)
    requires
        indexed.wf(),
    ensures
        texts(r.removals@) == gone(project_root@, disk@, indexed.keys()),
        texts(r.stale@) == outdated(project_root@, disk@, indexed@),
        planned_views(r.files@) == planned(project_root@, disk@, indexed@),
{
    let ghost root = project_root@;
    let ghost keys = indexed.keys();
    let set = disk_set(project_root, disk);
    let mut removals: Vec<String> = Vec::new();
    let mut i: usize = 0;
    assert(texts(removals@) =~= gone(root, disk@, keys.take(0)));
    while i < indexed.len()
        invariant
            i <= keys.len(),
            keys == indexed.keys(),
            root == project_root@,
            forall|p: Seq<char>| set@.contains(p) <==> #[trigger] on_disk(root, disk@, p),
            texts(removals@) == gone(root, disk@, keys.take(i as int)),
        decreases keys.len() - i,
    {
        let ghost before = removals@;
        assert(keys.take(i + 1).drop_last() =~= keys.take(i as int));
        assert(on_disk(root, disk@, keys[i as int]) == set@.contains(keys[i as int]));
        if !set.contains(indexed.path(i).as_str()) {
            removals.push(indexed.path(i).clone());
            assert(texts(removals@) =~= texts(before).push(keys[i as int]));
        }
        i += 1;
    }
    assert(keys.take(i as int) =~= keys);
    let mut stale: Vec<String> = Vec::new();
    let mut files: Vec<PlannedFile> = Vec::new();
    let mut k: usize = 0;
    assert(texts(stale@) =~= outdated(root, disk@.take(0), indexed@));
    assert(planned_views(files@) =~= planned(root, disk@.take(0), indexed@));
    while k < disk.len()
        invariant
            k <= disk@.len(),
            root == project_root@,
            texts(stale@) == outdated(root, disk@.take(k as int), indexed@),
            planned_views(files@) == planned(root, disk@.take(k as int), indexed@),
        decreases disk@.len() - k,
    {
        let ghost s = stale@;
        let ghost f = files@;
        assert(disk@.take(k + 1).drop_last() =~= disk@.take(k as int));
        let path = disk[k].path.clone();
        let rel = rel_path(project_root, path.as_str());
        match indexed.get(rel.as_str()) {
            None => {
                files.push(PlannedFile { path, is_update: false });
                assert(planned_views(files@) =~= planned_views(f).push(
                    (disk@[k as int].path@, false),
                ));
            },
            Some(stored) => {
                if stored != disk[k].mtime {
                    files.push(PlannedFile { path, is_update: true });
                    stale.push(rel);
                    assert(planned_views(files@) =~= planned_views(f).push(
                        (disk@[k as int].path@, true),
                    ));
                    assert(texts(stale@) =~= texts(s).push(
                        indexed_path(root, disk@[k as int].path@),
                    ));
                }
            },
        }
        k += 1;
    }
    assert(disk@.take(k as int) =~= disk@);
    UpdatePlan { removals, stale, files }
}

/// What a full build does.
#[derive(Debug)]
pub struct BuildPlan {
    /// Clear the index before any file is indexed.
    pub clear_first: bool,
    /// Files to index.
    pub files: Vec<PlannedFile>,
}

impl BuildPlan {
    /// The plan clears the index, and then indexes every file as new, in order.
    pub open spec fn is_for(&self, disk: Seq<Seq<char>>) -> bool {
        &&& self.clear_first
        &&& planned_views(self.files@) == Seq::new(disk.len(), |i: int| (disk[i], false))
    }
}

/// The plan of a full build.
pub fn plan_build(disk: &Vec<String>) -> (r: BuildPlan)
    ensures
        r.is_for(texts(disk@)),
{
    let mut files: Vec<PlannedFile> = Vec::new();
    let mut i: usize = 0;
    while i < disk.len()
        invariant
            i <= disk@.len(),
            files@.len() == i,
            forall|k: int|
                0 <= k < i ==> (#[trigger] files@[k]).path@ == disk@[k]@ && !files@[k].is_update,
        decreases disk@.len() - i,
    {
        files.push(PlannedFile { path: disk[i].clone(), is_update: false });
        i += 1;
    }
    let ghost all = texts(disk@);
    assert(planned_views(files@) =~= Seq::new(all.len(), |k: int| (all[k], false)));
    BuildPlan { clear_first: true, files }
}

/// Whether a plan was made for an update of `index`.
pub open spec fn is_plan_for(
    removals: Seq<Seq<char>>,
    stale: Seq<Seq<char>>,
    files: Seq<(Seq<char>, bool)>,
    root: Seq<char>,
    disk: Seq<DiskFile>,
    index: &IndexedTimes,
) -> bool {
    &&& removals == gone(root, disk, index.keys())
    &&& stale == outdated(root, disk, index@)
    &&& files == planned(root, disk, index@)
}

/// The file number `k` on disk is new or changed.
pub open spec fn to_index(
    root: Seq<char>,
    disk: Seq<DiskFile>,
    index: Map<Seq<char>, u64>,
    k: int,
) -> bool {
    is_new(root, disk[k], index) || is_changed(root, disk[k], index)
}

/// Each file on disk lies below the root, and no two are known there by the same path.
pub open spec fn is_tree(root: Seq<char>, disk: Seq<DiskFile>) -> bool {
    &&& forall|k: int| 0 <= k < disk.len() ==> stripped(#[trigger] disk[k].path@, root) is Some
    &&& forall|j: int, k: int|
        0 <= j < k < disk.len() ==> stripped(#[trigger] disk[j].path@, root) != stripped(
            #[trigger] disk[k].path@,
            root,
        )
}

/// A path of the index survives the deletions of a plan.
pub open spec fn survives(
    removals: Seq<Seq<char>>,
    stale: Seq<Seq<char>>,
    index: Map<Seq<char>, u64>,
    p: Seq<char>,
) -> bool {
    index.contains_key(p) && !removals.contains(p) && !stale.contains(p)
}

/// A plan indexes the file known as `p`.
pub open spec fn puts(root: Seq<char>, files: Seq<(Seq<char>, bool)>, p: Seq<char>) -> bool {
    exists|i: int| 0 <= i < files.len() && indexed_path(root, (#[trigger] files[i]).0) == p
}

proof fn lemma_gone(root: Seq<char>, disk: Seq<DiskFile>, keys: Seq<Seq<char>>, p: Seq<char>)
    ensures
        gone(root, disk, keys).contains(p) <==> keys.contains(p) && !on_disk(root, disk, p),
    decreases keys.len(),
{
    if keys.len() > 0 {
        let d = keys.drop_last();
        lemma_gone(root, disk, d, p);
        let g = gone(root, disk, d);
        if d.contains(p) {
            let i = choose|i: int| 0 <= i < d.len() && d[i] == p;
            assert(keys[i] == p);
        }
        if keys.contains(p) {
            let i = choose|i: int| 0 <= i < keys.len() && keys[i] == p;
            if i < d.len() {
                assert(d[i] == p);
            } else {
                assert(p == keys.last());
            }
        }
        assert(keys[keys.len() - 1] == keys.last());
        if !on_disk(root, disk, keys.last()) {
            let h = g.push(keys.last());
            assert(h[g.len() as int] == keys.last());
            if g.contains(p) {
                let i = choose|i: int| 0 <= i < g.len() && g[i] == p;
                assert(h[i] == p);
            }
            if h.contains(p) {
                let i = choose|i: int| 0 <= i < h.len() && h[i] == p;
                if i < g.len() {
                    assert(g[i] == p);
                }
            }
        }
    }
}

proof fn lemma_outdated(
    root: Seq<char>,
    disk: Seq<DiskFile>,
    index: Map<Seq<char>, u64>,
    p: Seq<char>,
)
    ensures
        outdated(root, disk, index).contains(p) <==> exists|k: int|
            0 <= k < disk.len() && #[trigger] is_changed(root, disk[k], index) && indexed_path(
                root,
                disk[k].path@,
            ) == p,
    decreases disk.len(),
{
    let all = outdated(root, disk, index);
    if disk.len() > 0 {
        let d = disk.drop_last();
        let n = disk.len() - 1;
        let o = outdated(root, d, index);
        lemma_outdated(root, d, index, p);
        if all.contains(p) {
            let i = choose|i: int| 0 <= i < all.len() && all[i] == p;
            if i < o.len() {
                assert(o[i] == p);
                let k = choose|k: int|
                    0 <= k < d.len() && #[trigger] is_changed(root, d[k], index) && indexed_path(
                        root,
                        d[k].path@,
                    ) == p;
                assert(is_changed(root, disk[k], index));
            } else {
                assert(is_changed(root, disk[n], index));
            }
        }
        if exists|k: int|
            0 <= k < disk.len() && #[trigger] is_changed(root, disk[k], index) && indexed_path(
                root,
                disk[k].path@,
            ) == p {
            let k = choose|k: int|
                0 <= k < disk.len() && #[trigger] is_changed(root, disk[k], index) && indexed_path(
                    root,
                    disk[k].path@,
                ) == p;
            if k < n {
                assert(is_changed(root, d[k], index));
                let i = choose|i: int| 0 <= i < o.len() && o[i] == p;
                assert(all[i] == p);
            } else {
                assert(all[o.len() as int] == p);
            }
        }
    }
}

proof fn lemma_planned(
    root: Seq<char>,
    disk: Seq<DiskFile>,
    index: Map<Seq<char>, u64>,
    p: Seq<char>,
)
    ensures
        puts(root, planned(root, disk, index), p) <==> exists|k: int|
            0 <= k < disk.len() && #[trigger] to_index(root, disk, index, k) && indexed_path(
                root,
                disk[k].path@,
            ) == p,
    decreases disk.len(),
{
    let all = planned(root, disk, index);
    if disk.len() > 0 {
        let d = disk.drop_last();
        let n = disk.len() - 1;
        let o = planned(root, d, index);
        lemma_planned(root, d, index, p);
        if puts(root, all, p) {
            let i = choose|i: int|
                0 <= i < all.len() && indexed_path(root, (#[trigger] all[i]).0) == p;
            if i < o.len() {
                assert(indexed_path(root, o[i].0) == p);
                let k = choose|k: int|
                    0 <= k < d.len() && #[trigger] to_index(root, d, index, k) && indexed_path(
                        root,
                        d[k].path@,
                    ) == p;
                assert(to_index(root, disk, index, k));
            } else {
                assert(to_index(root, disk, index, n));
            }
        }
        if exists|k: int|
            0 <= k < disk.len() && #[trigger] to_index(root, disk, index, k) && indexed_path(
                root,
                disk[k].path@,
            ) == p {
            let k = choose|k: int|
                0 <= k < disk.len() && #[trigger] to_index(root, disk, index, k) && indexed_path(
                    root,
                    disk[k].path@,
                ) == p;
            if k < n {
                assert(to_index(root, d, index, k));
                let i = choose|i: int|
                    0 <= i < o.len() && indexed_path(root, (#[trigger] o[i]).0) == p;
                assert(all[i] == o[i]);
            } else {
                assert(indexed_path(root, all[o.len() as int].0) == p);
            }
        }
    }
}

/// An update makes the index hold exactly what is on disk. Of a path that is not on disk
/// nothing is left. A file on disk is either indexed now, after any older version was
/// deleted, or it was in the index with the modification time that it still has.
pub proof fn update_mirrors_disk(
    plan: &UpdatePlan,
    root: Seq<char>,
    disk: Seq<DiskFile>,
    index: &IndexedTimes,
    p: Seq<char>,
)
    requires
        index.wf(),
        is_tree(root, disk),
        is_plan_for(
            texts(plan.removals@),
            texts(plan.stale@),
            planned_views(plan.files@),
            root,
            disk,
            index,
        ),
    ensures
        ({
            let kept = survives(texts(plan.removals@), texts(plan.stale@), index@, p);
            let put = puts(root, planned_views(plan.files@), p);
            &&& kept || put <==> on_disk(root, disk, p)
            &&& !(kept && put)
            &&& kept ==> forall|k: int| #[trigger] is_at(root, disk, k, p) ==> index@[p]
                == disk[k].mtime
        }),
{
    let removals = texts(plan.removals@);
    let stale = texts(plan.stale@);
    let files = planned_views(plan.files@);
    let keys = index.keys();
    assert(index@.contains_key(p) <==> keys.contains(p));
    lemma_gone(root, disk, keys, p);
    lemma_outdated(root, disk, index@, p);
    lemma_planned(root, disk, index@, p);
    if on_disk(root, disk, p) {
        let k = choose|k: int| is_at(root, disk, k, p);
        assert(indexed_path(root, disk[k].path@) == p);
        if to_index(root, disk, index@, k) {
            if is_changed(root, disk[k], index@) {
                assert(stale.contains(p));
            }
        } else {
            assert(!stale.contains(p)) by {
                if stale.contains(p) {
                    let j = choose|j: int|
                        0 <= j < disk.len() && #[trigger] is_changed(root, disk[j], index@)
                            && indexed_path(root, disk[j].path@) == p;
                    assert(stripped(disk[j].path@, root) == Some(p));
                    lemma_same_file(root, disk, j, k);
                }
            }
        }
        assert forall|j: int| #[trigger] is_at(root, disk, j, p) implies j == k by {
            lemma_same_file(root, disk, j, k);
        }
        if puts(root, files, p) {
            let j = choose|j: int|
                0 <= j < disk.len() && #[trigger] to_index(root, disk, index@, j) && indexed_path(
                    root,
                    disk[j].path@,
                ) == p;
            assert(stripped(disk[j].path@, root) is Some);
            assert(is_at(root, disk, j, p));
        }
    } else {
        if puts(root, files, p) {
            let k = choose|k: int|
                0 <= k < disk.len() && #[trigger] to_index(root, disk, index@, k) && indexed_path(
                    root,
                    disk[k].path@,
                ) == p;
            assert(stripped(disk[k].path@, root) is Some);
            assert(is_at(root, disk, k, p));
        }
    }
}

proof fn lemma_same_file(root: Seq<char>, disk: Seq<DiskFile>, j: int, k: int)
    requires
        is_tree(root, disk),
        0 <= j < disk.len(),
        0 <= k < disk.len(),
        stripped(disk[j].path@, root) == stripped(disk[k].path@, root),
    ensures
        j == k,
{
    if j < k {
        assert(stripped(disk[j].path@, root) != stripped(disk[k].path@, root));
    } else if k < j {
        assert(stripped(disk[k].path@, root) != stripped(disk[j].path@, root));
    }
}

/// Only new and changed files are indexed: a file that the index holds with the modification
/// time that it has is neither removed nor indexed again.
pub proof fn unchanged_files_stay(
    plan: &UpdatePlan,
    root: Seq<char>,
    disk: Seq<DiskFile>,
    index: &IndexedTimes,
    k: int,
    p: Seq<char>,
)
    requires
        index.wf(),
        is_tree(root, disk),
        is_plan_for(
            texts(plan.removals@),
            texts(plan.stale@),
            planned_views(plan.files@),
            root,
            disk,
            index,
        ),
        is_at(root, disk, k, p),
        index@.contains_key(p),
        index@[p] == disk[k].mtime,
    ensures
        survives(texts(plan.removals@), texts(plan.stale@), index@, p),
        !puts(root, planned_views(plan.files@), p),
{
    update_mirrors_disk(plan, root, disk, index, p);
    lemma_planned(root, disk, index@, p);
    if puts(root, planned_views(plan.files@), p) {
        let j = choose|j: int|
            0 <= j < disk.len() && #[trigger] to_index(root, disk, index@, j) && indexed_path(
                root,
                disk[j].path@,
            ) == p;
        assert(stripped(disk[j].path@, root) is Some);
        lemma_same_file(root, disk, j, k);
    }
}

/// An index that holds exactly what is on disk needs no update: the plan is empty.
pub proof fn up_to_date_plan_is_empty(
    plan: &UpdatePlan,
    root: Seq<char>,
    disk: Seq<DiskFile>,
    index: &IndexedTimes,
)
    requires
        index.wf(),
        is_tree(root, disk),
        is_plan_for(
            texts(plan.removals@),
            texts(plan.stale@),
            planned_views(plan.files@),
            root,
            disk,
            index,
        ),
        forall|p: Seq<char>| index@.contains_key(p) <==> #[trigger] on_disk(root, disk, p),
        forall|k: int, p: Seq<char>| #[trigger]
            is_at(root, disk, k, p) ==> index@[p] == disk[k].mtime,
    ensures
        plan.removals@.len() == 0,
        plan.stale@.len() == 0,
        plan.files@.len() == 0,
{
    let removals = texts(plan.removals@);
    if removals.len() > 0 {
        let p = removals[0];
        assert(removals.contains(p));
        lemma_gone(root, disk, index.keys(), p);
        assert(index.keys().contains(p));
        assert(index@.contains_key(p) <==> on_disk(root, disk, p));
    }
    let files = planned_views(plan.files@);
    if files.len() > 0 {
        let p = indexed_path(root, files[0].0);
        assert(puts(root, files, p));
        lemma_planned(root, disk, index@, p);
        let k = choose|k: int|
            0 <= k < disk.len() && #[trigger] to_index(root, disk, index@, k) && indexed_path(
                root,
                disk[k].path@,
            ) == p;
        assert(stripped(disk[k].path@, root) is Some);
        assert(is_at(root, disk, k, p));
        assert(on_disk(root, disk, p));
    }
    let stale = texts(plan.stale@);
    if stale.len() > 0 {
        let p = stale[0];
        assert(stale.contains(p));
        lemma_outdated(root, disk, index@, p);
        let k = choose|k: int|
            0 <= k < disk.len() && #[trigger] is_changed(root, disk[k], index@) && indexed_path(
                root,
                disk[k].path@,
            ) == p;
        assert(stripped(disk[k].path@, root) is Some);
        assert(is_at(root, disk, k, p));
    }
}

/// What a batch does to the index.
#[derive(Debug, Clone)]
pub enum IndexOp {
    /// Delete every document with this path.
    Delete(String),
    /// Add a document for this file.
    Put(String),
}

/// An operation with its path taken as a text.
pub enum OpView {
    Delete(Seq<char>),
    Put(Seq<char>),
}

impl View for IndexOp {
    type V = OpView;

    open spec fn view(&self) -> OpView {
        match self {
            IndexOp::Delete(p) => OpView::Delete(p@),
            IndexOp::Put(p) => OpView::Put(p@),
        }
    }
}

/// Operations with their paths taken as texts.
pub open spec fn op_views(v: Seq<IndexOp>) -> Seq<OpView> {
    Seq::new(v.len(), |i: int| v[i]@)
}

/// The removals of a batch. They are not filtered: a file that is ignored by now still
/// leaves the index.
pub open spec fn removal_ops(root: Seq<char>, to_remove: Seq<Seq<char>>) -> Seq<OpView> {
    Seq::new(to_remove.len(), |i: int| OpView::Delete(indexed_path(root, to_remove[i])))
}

/// The files that a batch indexes: for each one that may be indexed its older version is
/// deleted first.
pub open spec fn reindex_ops(
    root: Seq<char>,
    to_reindex: Seq<Seq<char>>,
    indexable: Seq<bool>,
) -> Seq<OpView>
    decreases to_reindex.len(),
{
    if to_reindex.len() == 0 || indexable.len() != to_reindex.len() {
        Seq::empty()
    } else {
        let before = reindex_ops(root, to_reindex.drop_last(), indexable.drop_last());
        if indexable.last() {
            before.push(OpView::Delete(indexed_path(root, to_reindex.last()))).push(
                OpView::Put(to_reindex.last()),
            )
        } else {
            before
        }
    }
}

/// What a batch of changed files does to the index. `indexable` tells for each file to
/// index whether it may be.
pub fn plan_batch(
    project_root: &str,
    to_remove: &Vec<String>,
    to_reindex: &Vec<String>,
    indexable: &Vec<bool>,
) -> (r: Vec<IndexOp>)
    requires
        indexable@.len() == to_reindex@.len(),
    ensures
        op_views(r@) == removal_ops(project_root@, texts(to_remove@)) + reindex_ops(
            project_root@,
            texts(to_reindex@),
            indexable@,
        ),
{
    let ghost root = project_root@;
    let ghost rem = texts(to_remove@);
    let ghost re = texts(to_reindex@);
    let mut out: Vec<IndexOp> = Vec::new();
    let mut i: usize = 0;
    while i < to_remove.len()
        invariant
            i <= to_remove@.len(),
            root == project_root@,
            rem == texts(to_remove@),
            out@.len() == i,
            forall|k: int| 0 <= k < i ==> (#[trigger] out@[k])@ == removal_ops(root, rem)[k],
        decreases to_remove@.len() - i,
    {
        out.push(IndexOp::Delete(rel_path(project_root, to_remove[i].as_str())));
        i += 1;
    }
    let ghost first = removal_ops(root, rem);
    assert(op_views(out@) =~= first + reindex_ops(root, re.take(0), indexable@.take(0)));
    let mut k: usize = 0;
    while k < to_reindex.len()
        invariant
            k <= to_reindex@.len() == indexable@.len(),
            root == project_root@,
            re == texts(to_reindex@),
            op_views(out@) == first + reindex_ops(root, re.take(k as int), indexable@.take(k as int)),
        decreases to_reindex@.len() - k,
    {
        let ghost before = out@;
        proof {
            assert(re.take(k + 1).drop_last() =~= re.take(k as int));
            assert(indexable@.take(k + 1).drop_last() =~= indexable@.take(k as int));
        }
        if indexable[k] {
            out.push(IndexOp::Delete(rel_path(project_root, to_reindex[k].as_str())));
            out.push(IndexOp::Put(to_reindex[k].clone()));
            assert(op_views(out@) =~= op_views(before).push(
                OpView::Delete(indexed_path(root, re[k as int])),
            ).push(OpView::Put(re[k as int])));
            assert(op_views(out@) =~= first + reindex_ops(
                root,
                re.take(k + 1),
                indexable@.take(k + 1),
            ));
        }
        k += 1;
    }
    assert(re.take(k as int) =~= re);
    assert(indexable@.take(k as int) =~= indexable@);
    out
}

/// Whether a batch is committed: it removed something or indexed a file.
pub fn needs_commit(removals: usize, indexed: usize) -> (r: bool)
    ensures
        r == (removals > 0 || indexed > 0),
{
    removals > 0 || indexed > 0
}

/// How many documents with the path `p` the index holds after some operations, if it held
/// `n` before.
pub open spec fn count_after(root: Seq<char>, ops: Seq<OpView>, p: Seq<char>, n: nat) -> nat
    decreases ops.len(),
{
    if ops.len() == 0 {
        n
    } else {
        let before = count_after(root, ops.drop_last(), p, n);
        match ops.last() {
            OpView::Delete(q) => if q == p {
                0
            } else {
                before
            },
            OpView::Put(q) => if indexed_path(root, q) == p {
                before + 1
            } else {
                before
            },
        }
    }
}

/// A batch indexes the file known as `p`.
pub open spec fn batch_puts(
    root: Seq<char>,
    to_reindex: Seq<Seq<char>>,
    indexable: Seq<bool>,
    p: Seq<char>,
) -> bool {
    exists|k: int|
        0 <= k < to_reindex.len() && indexable[k] && indexed_path(root, #[trigger] to_reindex[k])
            == p
}

/// A batch removes the file known as `p`.
pub open spec fn batch_removes(root: Seq<char>, to_remove: Seq<Seq<char>>, p: Seq<char>) -> bool {
    exists|k: int| 0 <= k < to_remove.len() && indexed_path(root, #[trigger] to_remove[k]) == p
}

proof fn lemma_count_removals(root: Seq<char>, to_remove: Seq<Seq<char>>, p: Seq<char>, n: nat)
    ensures
        count_after(root, removal_ops(root, to_remove), p, n) == (if batch_removes(
            root,
            to_remove,
            p,
        ) {
            0
        } else {
            n
        }),
    decreases to_remove.len(),
{
    if to_remove.len() > 0 {
        let d = to_remove.drop_last();
        let m = to_remove.len() - 1;
        lemma_count_removals(root, d, p, n);
        assert(removal_ops(root, to_remove).drop_last() =~= removal_ops(root, d));
        if batch_removes(root, d, p) {
            let k = choose|k: int|
                0 <= k < d.len() && indexed_path(root, #[trigger] d[k]) == p;
            assert(indexed_path(root, to_remove[k]) == p);
        }
        if batch_removes(root, to_remove, p) {
            let k = choose|k: int|
                0 <= k < to_remove.len() && indexed_path(root, #[trigger] to_remove[k]) == p;
            if k < m {
                assert(indexed_path(root, d[k]) == p);
            }
        }
        if indexed_path(root, to_remove[m]) == p {
            assert(batch_removes(root, to_remove, p));
        }
    }
}

proof fn lemma_count_reindex(
    root: Seq<char>,
    first: Seq<OpView>,
    to_reindex: Seq<Seq<char>>,
    indexable: Seq<bool>,
    p: Seq<char>,
    n: nat,
)
    requires
        indexable.len() == to_reindex.len(),
    ensures
        count_after(root, first + reindex_ops(root, to_reindex, indexable), p, n) == (
        if batch_puts(root, to_reindex, indexable, p) {
            1
        } else {
            count_after(root, first, p, n)
        }),
    decreases to_reindex.len(),
{
    let ops = reindex_ops(root, to_reindex, indexable);
    if to_reindex.len() == 0 {
        assert(first + ops =~= first);
    } else {
        let d = to_reindex.drop_last();
        let e = indexable.drop_last();
        let m = to_reindex.len() - 1;
        lemma_count_reindex(root, first, d, e, p, n);
        let before = reindex_ops(root, d, e);
        if indexable.last() {
            let del = OpView::Delete(indexed_path(root, to_reindex.last()));
            let put = OpView::Put(to_reindex.last());
            assert((first + ops).drop_last() =~= (first + before).push(del));
            assert((first + before).push(del).drop_last() =~= first + before);
            assert((first + ops).last() == put);
            assert((first + before).push(del).last() == del);
            let q = indexed_path(root, to_reindex.last());
            assert(count_after(root, (first + before).push(del), p, n) == (if q == p {
                0
            } else {
                count_after(root, first + before, p, n)
            }));
            assert(count_after(root, first + ops, p, n) == (if q == p {
                count_after(root, (first + before).push(del), p, n) + 1
            } else {
                count_after(root, (first + before).push(del), p, n)
            }));
        } else {
            assert(first + ops == first + before);
        }
        if batch_puts(root, d, e, p) {
            let k = choose|k: int|
                0 <= k < d.len() && e[k] && indexed_path(root, #[trigger] d[k]) == p;
            assert(indexable[k] && indexed_path(root, to_reindex[k]) == p);
        }
        if batch_puts(root, to_reindex, indexable, p) {
            let k = choose|k: int|
                0 <= k < to_reindex.len() && indexable[k] && indexed_path(
                    root,
                    #[trigger] to_reindex[k],
                ) == p;
            if k < m {
                assert(e[k] && indexed_path(root, d[k]) == p);
            }
        }
        if indexable[m] && indexed_path(root, to_reindex[m]) == p {
            assert(batch_puts(root, to_reindex, indexable, p));
        }
    }
}

/// A batch leaves one document of each file that it indexes, none of a file that it only
/// removes, and does not touch any other. A file in both lists is indexed.
pub proof fn batch_leaves_one_document(
    root: Seq<char>,
    to_remove: Seq<Seq<char>>,
    to_reindex: Seq<Seq<char>>,
    indexable: Seq<bool>,
    p: Seq<char>,
    n: nat,
)
    requires
        indexable.len() == to_reindex.len(),
    ensures
        count_after(
            root,
            removal_ops(root, to_remove) + reindex_ops(root, to_reindex, indexable),
            p,
            n,
        ) == (if batch_puts(root, to_reindex, indexable, p) {
            1nat
        } else if batch_removes(root, to_remove, p) {
            0
        } else {
            n
        }),
{
    lemma_count_removals(root, to_remove, p, n);
    lemma_count_reindex(root, removal_ops(root, to_remove), to_reindex, indexable, p, n);
}

/// The message while the project is walked.
pub const SCANNING: &'static str = "scanning files…";

/// The message while the index is read.
pub const CHECKING: &'static str = "checking index…";

/// Start an update, and report that the project is walked.
pub fn begin_update(state: &mut IndexingState, slot: &mut IndexingSlot)
    ensures
        !final(state).cancel,
        final(state).progress == (Progress { total: 0, done: 0, status: PROGRESS_RUNNING }),
        final(slot).event matches Some(e) && e@ == progress_event(0, 0, Some(SCANNING@)),
{
    begin_indexing(state);
    emit_progress(slot, 0, 0, Some(SCANNING));
}

/// Report that the index is read.
pub fn report_checking(slot: &mut IndexingSlot)
    ensures
        final(slot).event matches Some(e) && e@ == progress_event(0, 0, Some(CHECKING@)),
{
    emit_progress(slot, 0, 0, Some(CHECKING));
}

/// Start a full build of the index from the files found on disk, and report how many there
/// are.
pub fn build_index(
    engine: &Engine,
    state: &mut IndexingState,
    slot: &mut IndexingSlot,
    disk: &Vec<String>,
) -> (r: Result<BuildPlan, String>)
    ensures
        !final(state).cancel,
        match r {
            Ok(plan) => {
                &&& engine.state is Some
                &&& plan.is_for(texts(disk@))
                &&& final(state).progress == (Progress {
                    total: disk@.len() as u64,
                    done: 0,
                    status: PROGRESS_RUNNING,
                })
                &&& final(slot).event matches Some(e)
                &&& e@ == progress_event(disk@.len() as u64, 0, None)
            },
            Err(e) => {
                &&& engine.state is None
                &&& e@ == "sakuin not initialized"@
                &&& final(state).progress == (Progress {
                    total: 0,
                    done: 0,
                    status: PROGRESS_RUNNING,
                })
                &&& *final(slot) == *old(slot)
            },
        },
{
    begin_indexing(state);
    match engine.state {
        Some(_) => {
            announce_total(state, slot, disk.len() as u64);
            Ok(plan_build(disk))
        },
        None => Err(not_initialized()),
    }
}

/// Plan an update that was begun, from the files found on disk and what the index holds,
/// and report how many files are to be indexed.
pub fn update_index(
    engine: &Engine,
    state: &mut IndexingState,
    slot: &mut IndexingSlot,
    disk: &Vec<DiskFile>,
    indexed: &IndexedTimes,
) -> (r: Result<UpdatePlan, String>)
    requires
        indexed.wf(),
    ensures
        final(state).cancel == old(state).cancel,
        match r {
            Ok(plan) => {
                &&& engine.state matches Some(s)
                &&& is_plan_for(
                    texts(plan.removals@),
                    texts(plan.stale@),
                    planned_views(plan.files@),
                    s.project_root@,
                    disk@,
                    indexed,
                )
                &&& final(state).progress == (Progress {
                    total: plan.files@.len() as u64,
                    ..old(state).progress
                })
                &&& final(slot).event matches Some(e)
                &&& e@ == progress_event(plan.files@.len() as u64, 0, None)
            },
            Err(e) => {
                &&& engine.state is None
                &&& e@ == "sakuin not initialized"@
                &&& final(state).progress == old(state).progress
                &&& *final(slot) == *old(slot)
            },
        },
{
    match &engine.state {
        Some(s) => {
            let plan = plan_update(s.project_root.as_str(), disk, indexed);
            announce_total(state, slot, plan.files.len() as u64);
            Ok(plan)
        },
        None => Err(not_initialized()),
    }
}

/// What an update did: files added, files replaced and paths removed.
pub fn update_counts(counters: &JobCounters, plan: &UpdatePlan) -> (r: (u64, u64, u64))
    ensures
        r.0 == counters.added,
        r.1 == counters.updated,
        r.2 == plan.removals@.len(),
{
    (counters.added, counters.updated, plan.removals.len() as u64)
}

/// Something that happens to the planned files of a job.
pub enum JobStep {
    /// A file is started.
    Start,
    /// The planned file of this number is indexed.
    Indexed(int),
}

/// What a job over some planned files has counted after some steps, in whatever order the
/// files were dealt with.
pub open spec fn counted_job(files: Seq<(Seq<char>, bool)>, steps: Seq<JobStep>) -> JobCounters
    decreases steps.len(),
{
    if steps.len() == 0 {
        JobCounters { started: 0, added: 0, updated: 0 }
    } else {
        let before = counted_job(files, steps.drop_last());
        match steps.last() {
            JobStep::Start => before.after_start(),
            JobStep::Indexed(k) => before.after_indexed(files[k].1),
        }
    }
}

/// The planned file number `k` was indexed.
pub open spec fn was_indexed(steps: Seq<JobStep>, k: int) -> bool {
    exists|i: int| 0 <= i < steps.len() && #[trigger] steps[i] == JobStep::Indexed(k)
}

/// Only planned files are indexed, and each at most once.
pub open spec fn each_once(files: Seq<(Seq<char>, bool)>, steps: Seq<JobStep>) -> bool {
    &&& forall|i: int|
        0 <= i < steps.len() ==> (#[trigger] steps[i] matches JobStep::Indexed(k) ==> 0 <= k
            < files.len())
    &&& forall|i: int, j: int|
        0 <= i < j < steps.len() && steps[i] is Indexed ==> #[trigger] steps[i] != #[trigger] steps[j]
}

/// The planned files that were indexed and replace an older version, or that do not.
pub open spec fn indexed_files(
    files: Seq<(Seq<char>, bool)>,
    steps: Seq<JobStep>,
    is_update: bool,
) -> Set<int> {
    Set::new(|k: int| was_indexed(steps, k) && files[k].1 == is_update)
}

/// The planned files that replace an older version, or that do not.
pub open spec fn planned_files(files: Seq<(Seq<char>, bool)>, is_update: bool) -> Set<int> {
    Set::new(|k: int| 0 <= k < files.len() && files[k].1 == is_update)
}

/// The files on disk that the index does not hold.
pub open spec fn new_files(
    root: Seq<char>,
    disk: Seq<DiskFile>,
    index: Map<Seq<char>, u64>,
) -> Set<int> {
    Set::new(|k: int| 0 <= k < disk.len() && is_new(root, disk[k], index))
}

/// The files on disk that the index holds with another modification time.
pub open spec fn changed_files(
    root: Seq<char>,
    disk: Seq<DiskFile>,
    index: Map<Seq<char>, u64>,
) -> Set<int> {
    Set::new(|k: int| 0 <= k < disk.len() && is_changed(root, disk[k], index))
}

proof fn lemma_indexed_push(
    files: Seq<(Seq<char>, bool)>,
    steps: Seq<JobStep>,
    is_update: bool,
)
    requires
        steps.len() > 0,
    ensures
        indexed_files(files, steps, is_update) == (match steps.last() {
            JobStep::Indexed(k) => if files[k].1 == is_update {
                indexed_files(files, steps.drop_last(), is_update).insert(k)
            } else {
                indexed_files(files, steps.drop_last(), is_update)
            },
            JobStep::Start => indexed_files(files, steps.drop_last(), is_update),
        }),
{
    let d = steps.drop_last();
    let n = steps.len() - 1;
    assert forall|k: int| #[trigger] was_indexed(steps, k) <==> was_indexed(d, k) || steps.last()
        == JobStep::Indexed(k) by {
        if was_indexed(d, k) {
            let i = choose|i: int| 0 <= i < d.len() && #[trigger] d[i] == JobStep::Indexed(k);
            assert(steps[i] == JobStep::Indexed(k));
        }
        if was_indexed(steps, k) {
            let i = choose|i: int|
                0 <= i < steps.len() && #[trigger] steps[i] == JobStep::Indexed(k);
            if i < n {
                assert(d[i] == JobStep::Indexed(k));
            }
        }
        assert(steps[n] == steps.last());
    }
    let all = indexed_files(files, steps, is_update);
    let before = indexed_files(files, d, is_update);
    match steps.last() {
        JobStep::Indexed(k) => {
            if files[k].1 == is_update {
                assert(all =~= before.insert(k));
            } else {
                assert(all =~= before);
            }
        },
        JobStep::Start => {
            assert(all =~= before);
        },
    }
}

/// Whatever the order in which a job deals with its files: the files that it counts as added
/// are the planned ones without an older version that were indexed, and those that it counts
/// as updated the ones with an older version.
pub proof fn counters_tell_what_was_indexed(
    files: Seq<(Seq<char>, bool)>,
    steps: Seq<JobStep>,
)
    requires
        each_once(files, steps),
        steps.len() <= u64::MAX,
    ensures
        counted_job(files, steps).added == indexed_files(files, steps, false).len(),
        counted_job(files, steps).updated == indexed_files(files, steps, true).len(),
{
    lemma_counters(files, steps);
}

proof fn lemma_counters(files: Seq<(Seq<char>, bool)>, steps: Seq<JobStep>)
    requires
        each_once(files, steps),
        steps.len() <= u64::MAX,
    ensures
        forall|u: bool| #[trigger] indexed_files(files, steps, u).finite(),
        counted_job(files, steps).added == indexed_files(files, steps, false).len(),
        counted_job(files, steps).updated == indexed_files(files, steps, true).len(),
        counted_job(files, steps).added + counted_job(files, steps).updated <= steps.len(),
        counted_job(files, steps).started <= steps.len(),
    decreases steps.len(),
{
    if steps.len() == 0 {
        assert(forall|k: int| !was_indexed(steps, k));
        assert forall|u: bool| #[trigger] indexed_files(files, steps, u) == Set::<int>::empty() by {
            assert(indexed_files(files, steps, u) =~= Set::<int>::empty());
        }
    } else {
        let d = steps.drop_last();
        let n = steps.len() - 1;
        assert(each_once(files, d)) by {
            assert forall|i: int| 0 <= i < d.len() implies (#[trigger] d[i] matches JobStep::Indexed(
                k,
            ) ==> 0 <= k < files.len()) by {
                assert(steps[i] == d[i]);
            }
            assert forall|i: int, j: int|
                0 <= i < j < d.len() && d[i] is Indexed implies #[trigger] d[i] != #[trigger] d[j] by {
                assert(steps[i] == d[i] && steps[j] == d[j]);
            }
        }
        lemma_counters(files, d);
        assert forall|u: bool| #[trigger] indexed_files(files, steps, u).finite() by {
            lemma_indexed_push(files, steps, u);
            assert(indexed_files(files, d, u).finite());
        }
        lemma_indexed_push(files, steps, false);
        lemma_indexed_push(files, steps, true);
        if let JobStep::Indexed(k) = steps.last() {
            if was_indexed(d, k) {
                let i = choose|i: int| 0 <= i < d.len() && #[trigger] d[i] == JobStep::Indexed(k);
                assert(steps[i] == d[i] && steps[n] == steps.last());
            }
        }
    }
}

proof fn lemma_planned_push(files: Seq<(Seq<char>, bool)>, f: (Seq<char>, bool), is_update: bool)
    ensures
        planned_files(files.push(f), is_update) == (if f.1 == is_update {
            planned_files(files, is_update).insert(files.len() as int)
        } else {
            planned_files(files, is_update)
        }),
{
    let all = planned_files(files.push(f), is_update);
    let before = planned_files(files, is_update);
    if f.1 == is_update {
        assert(all =~= before.insert(files.len() as int));
    } else {
        assert(all =~= before);
    }
}

/// A plan has as many files without an older version as there are new ones on disk, and as
/// many with one as there are changed ones.
proof fn lemma_planned_counts(
    root: Seq<char>,
    disk: Seq<DiskFile>,
    index: Map<Seq<char>, u64>,
)
    ensures
        planned_files(planned(root, disk, index), false).finite(),
        planned_files(planned(root, disk, index), true).finite(),
        new_files(root, disk, index).finite(),
        changed_files(root, disk, index).finite(),
        planned_files(planned(root, disk, index), false).len() == new_files(
            root,
            disk,
            index,
        ).len(),
        planned_files(planned(root, disk, index), true).len() == changed_files(
            root,
            disk,
            index,
        ).len(),
    decreases disk.len(),
{
    let files = planned(root, disk, index);
    let fresh = new_files(root, disk, index);
    let changed = changed_files(root, disk, index);
    if disk.len() == 0 {
        assert(planned_files(files, false) =~= Set::<int>::empty());
        assert(planned_files(files, true) =~= Set::<int>::empty());
        assert(fresh =~= Set::<int>::empty());
        assert(changed =~= Set::<int>::empty());
    } else {
        let d = disk.drop_last();
        let n = disk.len() - 1;
        let before = planned(root, d, index);
        lemma_planned_counts(root, d, index);
        lemma_planned_push(before, (disk.last().path@, false), false);
        lemma_planned_push(before, (disk.last().path@, false), true);
        lemma_planned_push(before, (disk.last().path@, true), false);
        lemma_planned_push(before, (disk.last().path@, true), true);
        if is_new(root, disk.last(), index) {
            assert(fresh =~= new_files(root, d, index).insert(n));
        } else {
            assert(fresh =~= new_files(root, d, index));
        }
        if is_changed(root, disk.last(), index) {
            assert(changed =~= changed_files(root, d, index).insert(n));
        } else {
            assert(changed =~= changed_files(root, d, index));
        }
    }
}

/// What an update reports when it could index every file of its plan: how many files on disk
/// were new, how many had changed, and how many paths of the index were no longer on disk.
pub proof fn update_reports_the_changes(
    plan: &UpdatePlan,
    root: Seq<char>,
    disk: Seq<DiskFile>,
    index: &IndexedTimes,
    steps: Seq<JobStep>,
    counts: (u64, u64, u64),
)
    requires
        is_plan_for(
            texts(plan.removals@),
            texts(plan.stale@),
            planned_views(plan.files@),
            root,
            disk,
            index,
        ),
        each_once(planned_views(plan.files@), steps),
        steps.len() <= u64::MAX,
        forall|k: int| 0 <= k < plan.files@.len() ==> #[trigger] was_indexed(steps, k),
        counts.0 == counted_job(planned_views(plan.files@), steps).added,
        counts.1 == counted_job(planned_views(plan.files@), steps).updated,
        counts.2 == plan.removals@.len(),
    ensures
        counts.0 == new_files(root, disk, index@).len(),
        counts.1 == changed_files(root, disk, index@).len(),
        counts.2 == gone(root, disk, index.keys()).len(),
{
    let files = planned_views(plan.files@);
    counters_tell_what_was_indexed(files, steps);
    lemma_planned_counts(root, disk, index@);
    assert forall|k: int| #[trigger] was_indexed(steps, k) implies 0 <= k < files.len() by {
        let i = choose|i: int| 0 <= i < steps.len() && #[trigger] steps[i] == JobStep::Indexed(k);
        assert(steps[i] matches JobStep::Indexed(x) ==> 0 <= x < files.len());
    }
    assert(indexed_files(files, steps, false) =~= planned_files(files, false));
    assert(indexed_files(files, steps, true) =~= planned_files(files, true));
    assert(texts(plan.removals@).len() == plan.removals@.len());
}

/// How many changes an update made in all.
pub fn change_count(counts: (u64, u64, u64)) -> (r: u64)
    requires
        counts.0 + counts.1 + counts.2 <= u64::MAX,
    ensures
        r == counts.0 + counts.1 + counts.2,
{
    counts.0 + counts.1 + counts.2
}

/// What a batch of changed files does to the index of the project.
pub fn batch_update_files(
    engine: &Engine,
    to_remove: &Vec<String>,
    to_reindex: &Vec<String>,
    indexable: &Vec<bool>,
) -> (r: Result<Vec<IndexOp>, String>)
    requires
        indexable@.len() == to_reindex@.len(),
    ensures
        match r {
            Ok(ops) => engine.state matches Some(s) && op_views(ops@) == removal_ops(
                s.project_root@,
                texts(to_remove@),
            ) + reindex_ops(s.project_root@, texts(to_reindex@), indexable@),
            Err(e) => engine.state is None && e@ == "sakuin not initialized"@,
        },
{
    match &engine.state {
        Some(s) => Ok(plan_batch(s.project_root.as_str(), to_remove, to_reindex, indexable)),
        None => Err(not_initialized()),
    }
}

/// A report of progress says how many files there are, how many were started and what is
/// being done, and is no error.
pub proof fn progress_is_reported(total: u64, done: u64, message: Option<Seq<char>>)
    ensures
        progress_event(total, done, message).status == "progress"@,
        progress_event(total, done, message).total == total,
        progress_event(total, done, message).done == done,
        progress_event(total, done, message).message == message,
        progress_event(total, done, message).error is None,
        REPORT_EVERY == 100,
        PROGRESS_RUNNING == 1,
        PROGRESS_DONE == 2,
        PROGRESS_ERROR == 3,
        SCANNING@ == "scanning files…"@,
        CHECKING@ == "checking index…"@,
{
}

/// Paths of the index go exactly where no file on disk is known by them, in their order.
pub proof fn gone_paths_are_those_without_a_file(
    root: Seq<char>,
    disk: Seq<DiskFile>,
    keys: Seq<Seq<char>>,
)
    ensures
        gone(root, disk, keys) == keys.filter(
            |p: Seq<char>|
                forall|k: int|
                    0 <= k < disk.len() ==> stripped((#[trigger] disk[k]).path@, root) != Some(p),
        ),
    decreases keys.len(),
{
    reveal(Seq::filter);
    if keys.len() > 0 {
        gone_paths_are_those_without_a_file(root, disk, keys.drop_last());
        let p = keys.last();
        if on_disk(root, disk, p) {
            let k = choose|k: int| is_at(root, disk, k, p);
            assert(stripped(disk[k].path@, root) == Some(p));
        } else {
            assert forall|k: int| 0 <= k < disk.len() implies stripped(
                (#[trigger] disk[k]).path@,
                root,
            ) != Some(p) by {
                assert(!is_at(root, disk, k, p));
            }
        }
    }
}

/// A file is indexed exactly where the index does not hold its path with the modification
/// time that it has; files are indexed in their order, and as updates where the index holds
/// their path. The older version of each update is deleted.
pub proof fn files_without_their_time_are_indexed(
    root: Seq<char>,
    disk: Seq<DiskFile>,
    index: Map<Seq<char>, u64>,
)
    ensures
        planned(root, disk, index) == disk.filter(
            |f: DiskFile|
                !(index.contains_key(indexed_path(root, f.path@)) && index[indexed_path(
                    root,
                    f.path@,
                )] == f.mtime),
        ).map_values(
            |f: DiskFile| (f.path@, index.contains_key(indexed_path(root, f.path@))),
        ),
        outdated(root, disk, index) == disk.filter(
            |f: DiskFile|
                index.contains_key(indexed_path(root, f.path@)) && index[indexed_path(
                    root,
                    f.path@,
                )] != f.mtime,
        ).map_values(|f: DiskFile| indexed_path(root, f.path@)),
    decreases disk.len(),
{
    reveal(Seq::filter);
    let due = |f: DiskFile|
        !(index.contains_key(indexed_path(root, f.path@)) && index[indexed_path(root, f.path@)]
            == f.mtime);
    let entry = |f: DiskFile| (f.path@, index.contains_key(indexed_path(root, f.path@)));
    let old = |f: DiskFile|
        index.contains_key(indexed_path(root, f.path@)) && index[indexed_path(root, f.path@)]
            != f.mtime;
    let path = |f: DiskFile| indexed_path(root, f.path@);
    if disk.len() > 0 {
        let d = disk.drop_last();
        let f = disk.last();
        files_without_their_time_are_indexed(root, d, index);
        let a = d.filter(due);
        let b = d.filter(old);
        assert(a.push(f).map_values(entry) =~= a.map_values(entry).push(entry(f)));
        assert(b.push(f).map_values(path) =~= b.map_values(path).push(path(f)));
    } else {
        assert(disk.filter(due).map_values(entry) =~= Seq::<(Seq<char>, bool)>::empty());
        assert(disk.filter(old).map_values(path) =~= Seq::<Seq<char>>::empty());
    }
}

/// The operations of a batch: one deletion for each path to remove, whatever it is, then for
/// each file that may be indexed its older version is deleted and the file is put.
pub proof fn batch_deletes_before_it_puts(
    root: Seq<char>,
    to_remove: Seq<Seq<char>>,
    to_reindex: Seq<Seq<char>>,
    indexable: Seq<bool>,
    i: int,
)
    requires
        to_reindex.len() == indexable.len(),
    ensures
        removal_ops(root, to_remove).len() == to_remove.len(),
        0 <= i < to_remove.len() ==> removal_ops(root, to_remove)[i] == OpView::Delete(
            indexed_path(root, to_remove[i]),
        ),
        reindex_ops(root, to_reindex, indexable) == to_reindex.zip_with(indexable).filter(
            |p: (Seq<char>, bool)| p.1,
        ).map_values(
            |p: (Seq<char>, bool)|
                seq![OpView::Delete(indexed_path(root, p.0)), OpView::Put(p.0)],
        ).flatten(),
    decreases to_reindex.len(),
{
    reveal(Seq::filter);
    let z = to_reindex.zip_with(indexable);
    let keep = |p: (Seq<char>, bool)| p.1;
    let pair = |p: (Seq<char>, bool)|
        seq![OpView::Delete(indexed_path(root, p.0)), OpView::Put(p.0)];
    if to_reindex.len() > 0 {
        let d = to_reindex.drop_last();
        let e = indexable.drop_last();
        batch_deletes_before_it_puts(root, to_remove, d, e, i);
        assert(z.drop_last() =~= d.zip_with(e));
        assert(z.last() == (to_reindex.last(), indexable.last()));
        let f = z.drop_last().filter(keep);
        let m = f.map_values(pair);
        assert(f.push(z.last()).map_values(pair) =~= m.push(pair(z.last())));
        lemma_flatten_push(m, pair(z.last()));
        if indexable.last() {
            assert(reindex_ops(root, to_reindex, indexable) =~= m.flatten() + pair(z.last()));
        }
    } else {
        assert(z.filter(keep).map_values(pair).flatten() =~= Seq::<OpView>::empty());
    }
}

proof fn lemma_flatten_push(m: Seq<Seq<OpView>>, x: Seq<OpView>)
    ensures
        m.push(x).flatten() == m.flatten() + x,
    decreases m.len(),
{
    let p = m.push(x);
    if m.len() == 0 {
        assert(p.drop_first() =~= Seq::<Seq<OpView>>::empty());
        assert(p.drop_first().flatten() =~= Seq::<OpView>::empty());
        assert(p.first() == x);
        assert(m.flatten() =~= Seq::<OpView>::empty());
        assert(p.flatten() =~= x);
        assert(m.flatten() + x =~= x);
    } else {
        assert(p.drop_first() =~= m.drop_first().push(x));
        lemma_flatten_push(m.drop_first(), x);
        assert(p.first() == m.first());
        assert(p.flatten() =~= m.flatten() + x);
    }
}

/// Planned files and operations are read one by one.
pub proof fn plans_are_read_one_by_one(files: Seq<PlannedFile>, ops: Seq<IndexOp>, i: int)
    ensures
        planned_views(files).len() == files.len(),
        0 <= i < files.len() ==> planned_views(files)[i] == (files[i].path@, files[i].is_update),
        op_views(ops).len() == ops.len(),
        0 <= i < ops.len() ==> (ops[i] matches IndexOp::Delete(p) ==> op_views(ops)[i]
            == OpView::Delete(p@)),
        0 <= i < ops.len() ==> (ops[i] matches IndexOp::Put(p) ==> op_views(ops)[i] == OpView::Put(
            p@,
        )),
{
}

} // verus!
