//! Reading git: which paths belong to git itself, which of its files announce an operation,
//! and which files of the working tree an operation changed.

use vstd::prelude::*;

use crate::order::{
    is_first_of, names_one_of, sort_unique, sorted_unique, sorted_unique_is_one,
};
use crate::paths::{
    components, components_of, is_plain_relative, is_same_path, join, join_strips_back, joined,
    same_path, seg_end, spans, spans_from,
};
use crate::text::{append_str, same_text, texts};

verus! {

/// Some component of the path is `.git`.
pub open spec fn inside_git(path: Seq<char>) -> bool {
    components_of(path).contains(".git"@)
}

/// Whether a path lies in a `.git` directory.
pub fn is_git_internal_path(path: &str) -> (r: bool)
    ensures
        r == inside_git(path@),
{
    let c = components(path);
    let ghost all = components_of(path@);
    assert(texts(c@).len() == c@.len());
    let mut i: usize = 0;
    while i < c.len()
        invariant
            i <= c@.len() == all.len(),
            texts(c@) == all,
            all == components_of(path@),
            forall|k: int| 0 <= k < i ==> all[k] != ".git"@,
        decreases c@.len() - i,
    {
        assert(texts(c@)[i as int] == c@[i as int]@);
        if same_text(c[i].as_str(), ".git") {
            assert(all[i as int] == ".git"@);
            return true;
        }
        i += 1;
    }
    false
}

/// The path names git's index file or its HEAD file. Nearly every command that touches the
/// working tree writes the first; switching branches writes the second.
pub open spec fn is_sentinel(path: Seq<char>, root: Seq<char>) -> bool {
    let dir = joined(root, ".git"@);
    same_path(path, joined(dir, "index"@)) || same_path(path, joined(dir, "HEAD"@))
}

/// Whether a change of `path` announces a git operation in the project at `project_root`.
pub fn is_git_sentinel(path: &str, project_root: &str) -> (r: bool)
    ensures
        r == is_sentinel(path@, project_root@),
{
    let dir = join(project_root, ".git");
    let index = join(dir.as_str(), "index");
    let head = join(dir.as_str(), "HEAD");
    is_same_path(path, index.as_str()) || is_same_path(path, head.as_str())
}

proof fn lemma_one_component(name: Seq<char>)
    requires
        name.len() > 0,
        forall|k: int| 0 <= k < name.len() ==> name[k] != '/',
        !(name.len() == 1 && name[0] == '.'),
    ensures
        components_of(name) == seq![name],
        is_plain_relative(name),
{
    lemma_one_segment(name, 0);
    assert(spans_from(name, name.len() as int + 1).len() == 0);
    assert(spans_from(name, 0) =~= seq![(0int, name.len() as int)]);
    assert(spans(name) =~= seq![(0int, name.len() as int)]);
    assert(name.subrange(0, name.len() as int) =~= name);
    assert(components_of(name) =~= seq![name]);
    if name == seq!['.'] {
        assert(name[0] == '.');
    }
}

proof fn lemma_one_segment(name: Seq<char>, i: int)
    requires
        0 <= i <= name.len(),
        forall|k: int| 0 <= k < name.len() ==> name[k] != '/',
    ensures
        seg_end(name, i) == name.len(),
    decreases name.len() - i,
{
    if i < name.len() {
        lemma_one_segment(name, i + 1);
    }
}

/// The files that announce an operation belong to git: a path of either kind is never
/// indexed.
pub proof fn sentinels_are_internal(path: Seq<char>, root: Seq<char>)
    requires
        is_sentinel(path, root),
    ensures
        inside_git(path),
{
    reveal_strlit(".git");
    reveal_strlit("index");
    reveal_strlit("HEAD");
    let dir = joined(root, ".git"@);
    lemma_one_component(".git"@);
    lemma_one_component("index"@);
    lemma_one_component("HEAD"@);
    join_strips_back(root, ".git"@);
    join_strips_back(dir, "index"@);
    join_strips_back(dir, "HEAD"@);
    let n = components_of(root).len() as int;
    assert(components_of(path)[n] == ".git"@);
}

/// What git says happened to a file between two states of a tree.
#[derive(Debug, Clone, Copy, PartialEq, Eq, Structural)]
pub enum DeltaStatus {
    Unmodified,
    Added,
    Deleted,
    Modified,
    Renamed,
    Copied,
    Ignored,
    Untracked,
    Typechange,
    Unreadable,
    Conflicted,
}

/// One entry of a diff: the status and the path on the old and on the new side, where git
/// names one.
#[derive(Debug, Clone)]
pub struct FileDelta {
    pub status: DeltaStatus,
    pub old_path: Option<String>,
    pub new_path: Option<String>,
}

/// A path of a diff as a path below the project root; nothing where git names none.
pub open spec fn below_root(root: Seq<char>, path: Option<String>) -> Seq<Seq<char>> {
    match path {
        Some(p) => seq![joined(root, p@)],
        None => Seq::empty(),
    }
}

/// The files that an entry of a diff asks to index again.
pub open spec fn modified_by(root: Seq<char>, delta: FileDelta) -> Seq<Seq<char>> {
    match delta.status {
        DeltaStatus::Added
        | DeltaStatus::Modified
        | DeltaStatus::Copied
        | DeltaStatus::Typechange
        | DeltaStatus::Renamed
        | DeltaStatus::Untracked => below_root(root, delta.new_path),
        _ => Seq::empty(),
    }
}

/// The files that an entry of a diff asks to remove.
pub open spec fn deleted_by(root: Seq<char>, delta: FileDelta) -> Seq<Seq<char>> {
    match delta.status {
        DeltaStatus::Deleted | DeltaStatus::Renamed => below_root(root, delta.old_path),
        _ => Seq::empty(),
    }
}

/// The files that a diff asks to index again, in its order.
pub open spec fn all_modified(root: Seq<char>, deltas: Seq<FileDelta>) -> Seq<Seq<char>>
    decreases deltas.len(),
{
    if deltas.len() == 0 {
        Seq::empty()
    } else {
        all_modified(root, deltas.drop_last()) + modified_by(root, deltas.last())
    }
}

/// The files that a diff asks to remove, in its order.
pub open spec fn all_deleted(root: Seq<char>, deltas: Seq<FileDelta>) -> Seq<Seq<char>>
    decreases deltas.len(),
{
    if deltas.len() == 0 {
        Seq::empty()
    } else {
        all_deleted(root, deltas.drop_last()) + deleted_by(root, deltas.last())
    }
}

/// The changes of the working tree that a git operation made.
#[derive(Debug)]
pub struct GitChanges {
    /// Files that were added or modified and are to be indexed again.
    pub modified: Vec<String>,
    /// Files that were deleted and are to be removed from the index.
    pub deleted: Vec<String>,
}

impl Default for GitChanges {
    fn default() -> (r: GitChanges)
        ensures
            r.modified@.len() == 0,
            r.deleted@.len() == 0,
    {
        GitChanges { modified: Vec::new(), deleted: Vec::new() }
    }
}

impl GitChanges {
    /// The changes are those of the diff: each file once, in the order of paths. A file can
    /// stand in both lists.
    pub open spec fn are_of(&self, root: Seq<char>, deltas: Seq<FileDelta>) -> bool {
        &&& sorted_unique(all_modified(root, deltas), texts(self.modified@))
        &&& sorted_unique(all_deleted(root, deltas), texts(self.deleted@))
    }

    /// Whether nothing changed.
    pub fn is_empty(&self) -> (r: bool)
        ensures
            r == (self.modified@.len() == 0 && self.deleted@.len() == 0),
    {
        self.modified.len() == 0 && self.deleted.len() == 0
    }
}

/// Append a path of a diff, if there is one.
fn push_below(root: &str, path: &Option<String>, list: &mut Vec<String>)
    ensures
        texts(final(list)@) == texts(old(list)@) + below_root(root@, *path),
{
    let ghost before = list@;
    match path {
        Some(p) => {
            list.push(join(root, p.as_str()));
        },
        None => {},
    }
    assert(texts(list@) =~= texts(before) + below_root(root@, *path));
}

/// Sort one entry of a diff into the changes.
pub fn categorize_delta(delta: &FileDelta, project_root: &str, changes: &mut GitChanges)
    ensures
        texts(final(changes).modified@) == texts(old(changes).modified@) + modified_by(
            project_root@,
            *delta,
        ),
        texts(final(changes).deleted@) == texts(old(changes).deleted@) + deleted_by(
            project_root@,
            *delta,
        ),
{
    let ghost m = texts(changes.modified@);
    let ghost d = texts(changes.deleted@);
    assert(m + Seq::<Seq<char>>::empty() =~= m);
    assert(d + Seq::<Seq<char>>::empty() =~= d);
    match delta.status {
        DeltaStatus::Added
        | DeltaStatus::Modified
        | DeltaStatus::Copied
        | DeltaStatus::Typechange
        | DeltaStatus::Untracked => {
            push_below(project_root, &delta.new_path, &mut changes.modified);
        },
        DeltaStatus::Deleted => {
            push_below(project_root, &delta.old_path, &mut changes.deleted);
        },
        DeltaStatus::Renamed => {
            push_below(project_root, &delta.old_path, &mut changes.deleted);
            push_below(project_root, &delta.new_path, &mut changes.modified);
        },
        _ => {},
    }
}

/// Sort the entries of a diff into the changes.
fn categorize_all(deltas: &Vec<FileDelta>, project_root: &str, changes: &mut GitChanges)
    ensures
        texts(final(changes).modified@) == texts(old(changes).modified@) + all_modified(
            project_root@,
            deltas@,
        ),
        texts(final(changes).deleted@) == texts(old(changes).deleted@) + all_deleted(
            project_root@,
            deltas@,
        ),
{
    let ghost m = texts(changes.modified@);
    let ghost d = texts(changes.deleted@);
    let ghost root = project_root@;
    let mut i: usize = 0;
    assert(m + all_modified(root, deltas@.take(0)) =~= m);
    assert(d + all_deleted(root, deltas@.take(0)) =~= d);
    while i < deltas.len()
        invariant
            i <= deltas@.len(),
            root == project_root@,
            texts(changes.modified@) == m + all_modified(root, deltas@.take(i as int)),
            texts(changes.deleted@) == d + all_deleted(root, deltas@.take(i as int)),
        decreases deltas@.len() - i,
    {
        categorize_delta(&deltas[i], project_root, changes);
        proof {
            let t = deltas@.take(i + 1);
            assert(t.drop_last() =~= deltas@.take(i as int));
            assert(t.last() == deltas@[i as int]);
            assert(m + all_modified(root, t) =~= m + all_modified(root, t.drop_last())
                + modified_by(root, t.last()));
            assert(d + all_deleted(root, t) =~= d + all_deleted(root, t.drop_last()) + deleted_by(
                root,
                t.last(),
            ));
        }
        i += 1;
    }
    assert(deltas@.take(i as int) =~= deltas@);
}

/// The step at which reading the repository failed.
#[derive(Debug, Clone, Copy, PartialEq, Eq, Structural)]
pub enum GitStep {
    OpenRepository,
    DiffWorkdir,
    WalkWorkdirDiff,
    DiffIndex,
    WalkIndexDiff,
    ParseOldHead,
    OldHeadTree,
    ReadHead,
    HeadTree,
    DiffTrees,
    WalkTreeDiff,
}

/// A failure to read the repository: the step, and what git says about it.
#[derive(Debug, Clone)]
pub struct GitFailure {
    pub step: GitStep,
    pub detail: String,
}

/// What stands before the commit name in the message for a step, and what stands between
/// the name and the detail. Steps that name no commit have an empty second part.
pub open spec fn message_parts(step: GitStep) -> (&'static str, &'static str) {
    match step {
        GitStep::OpenRepository => ("Failed to open git repo: ", ""),
        GitStep::DiffWorkdir => ("Failed to compute diff: ", ""),
        GitStep::WalkWorkdirDiff => ("Failed to iterate diff: ", ""),
        GitStep::DiffIndex => ("Failed to compute index diff: ", ""),
        GitStep::WalkIndexDiff => ("Failed to iterate index diff: ", ""),
        GitStep::ParseOldHead => ("Failed to parse old HEAD '", "': "),
        GitStep::OldHeadTree => ("Failed to get tree for '", "': "),
        GitStep::ReadHead => ("Failed to get HEAD: ", ""),
        GitStep::HeadTree => ("Failed to get HEAD tree: ", ""),
        GitStep::DiffTrees => ("Failed to diff trees: ", ""),
        GitStep::WalkTreeDiff => ("Failed to iterate tree diff: ", ""),
    }
}

/// Whether the message for a step names the old commit.
pub open spec fn names_commit(step: GitStep) -> bool {
    step == GitStep::ParseOldHead || step == GitStep::OldHeadTree
}

/// The message for a failure.
pub open spec fn failure_text(failure: GitFailure, old_head: Seq<char>) -> Seq<char> {
    let (before, between) = message_parts(failure.step);
    if names_commit(failure.step) {
        before@ + old_head + between@ + failure.detail@
    } else {
        before@ + failure.detail@
    }
}

/// The message for a failure. `old_head` is the commit that the diff started from, if it
/// started from one.
pub fn failure_message(failure: &GitFailure, old_head: &str) -> (r: String)
    ensures
        r@ == failure_text(*failure, old_head@),
{
    let (before, between) = match failure.step {
        GitStep::OpenRepository => ("Failed to open git repo: ", ""),
        GitStep::DiffWorkdir => ("Failed to compute diff: ", ""),
        GitStep::WalkWorkdirDiff => ("Failed to iterate diff: ", ""),
        GitStep::DiffIndex => ("Failed to compute index diff: ", ""),
        GitStep::WalkIndexDiff => ("Failed to iterate index diff: ", ""),
        GitStep::ParseOldHead => ("Failed to parse old HEAD '", "': "),
        GitStep::OldHeadTree => ("Failed to get tree for '", "': "),
        GitStep::ReadHead => ("Failed to get HEAD: ", ""),
        GitStep::HeadTree => ("Failed to get HEAD tree: ", ""),
        GitStep::DiffTrees => ("Failed to diff trees: ", ""),
        GitStep::WalkTreeDiff => ("Failed to iterate tree diff: ", ""),
    };
    let mut s = String::new();
    append_str(&mut s, before);
    match failure.step {
        GitStep::ParseOldHead | GitStep::OldHeadTree => {
            append_str(&mut s, old_head);
            append_str(&mut s, between);
        },
        _ => {},
    }
    append_str(&mut s, failure.detail.as_str());
    assert(s@ =~= failure_text(*failure, old_head@));
    s
}

/// Sort the lists of the changes and drop repetitions.
fn sorted_changes(changes: &GitChanges) -> (r: GitChanges)
    ensures
        sorted_unique(texts(changes.modified@), texts(r.modified@)),
        sorted_unique(texts(changes.deleted@), texts(r.deleted@)),
{
    GitChanges {
        modified: sort_unique(&changes.modified),
        deleted: sort_unique(&changes.deleted),
    }
}

/// What the diffs of HEAD to the working directory and of HEAD to the index lead to: the
/// changes of both, or the message of the first that failed.
pub open spec fn working_tree_result(
    root: Seq<char>,
    workdir: Result<Vec<FileDelta>, GitFailure>,
    index: Result<Vec<FileDelta>, GitFailure>,
    r: Result<GitChanges, String>,
) -> bool {
    match (workdir, index) {
        (Ok(w), Ok(i)) => r matches Ok(c) && c.are_of(root, w@ + i@),
        (Ok(_), Err(e)) => r matches Err(m) && m@ == failure_text(e, Seq::empty()),
        (Err(e), _) => r matches Err(m) && m@ == failure_text(e, Seq::empty()),
    }
}

/// The changes of the working tree against HEAD, from the diff of HEAD to the working
/// directory and the diff of HEAD to the index. The first diff that failed decides the error.
pub fn detect_changes(
    project_root: &str,
    workdir: &Result<Vec<FileDelta>, GitFailure>,
    index: &Result<Vec<FileDelta>, GitFailure>,
) -> (r: Result<GitChanges, String>)
    ensures
        working_tree_result(project_root@, *workdir, *index, r),
{
    let w = match workdir {
        Ok(w) => w,
        Err(e) => {
            let m = failure_message(e, "");
            proof {
                reveal_strlit("");
                assert(""@ =~= Seq::<char>::empty());
            }
            return Err(m);
        },
    };
    let i = match index {
        Ok(i) => i,
        Err(e) => {
            let m = failure_message(e, "");
            proof {
                reveal_strlit("");
                assert(""@ =~= Seq::<char>::empty());
            }
            return Err(m);
        },
    };
    let mut changes = GitChanges::default();
    assert(texts(changes.modified@) =~= Seq::<Seq<char>>::empty());
    assert(texts(changes.deleted@) =~= Seq::<Seq<char>>::empty());
    categorize_all(w, project_root, &mut changes);
    categorize_all(i, project_root, &mut changes);
    proof {
        lemma_diffs_in_a_row(project_root@, w@, i@);
        assert(texts(changes.modified@) =~= all_modified(project_root@, w@ + i@));
        assert(texts(changes.deleted@) =~= all_deleted(project_root@, w@ + i@));
    }
    Ok(sorted_changes(&changes))
}

proof fn lemma_diffs_in_a_row(root: Seq<char>, a: Seq<FileDelta>, b: Seq<FileDelta>)
    ensures
        all_modified(root, a + b) == all_modified(root, a) + all_modified(root, b),
        all_deleted(root, a + b) == all_deleted(root, a) + all_deleted(root, b),
    decreases b.len(),
{
    if b.len() == 0 {
        assert(a + b =~= a);
        assert(all_modified(root, a) + all_modified(root, b) =~= all_modified(root, a));
        assert(all_deleted(root, a) + all_deleted(root, b) =~= all_deleted(root, a));
    } else {
        lemma_diffs_in_a_row(root, a, b.drop_last());
        assert((a + b).drop_last() =~= a + b.drop_last());
        assert((a + b).last() == b.last());
        assert(all_modified(root, a + b) =~= all_modified(root, a) + all_modified(root, b));
        assert(all_deleted(root, a + b) =~= all_deleted(root, a) + all_deleted(root, b));
    }
}

/// Which diff shows what a change of HEAD did.
#[derive(Debug, Clone)]
pub enum HeadDiff {
    /// The old commit is not known: the whole working tree is compared.
    WorkingTree,
    /// The tree of the old commit is compared with that of the new one.
    Trees { old_head: String },
}

/// Which diff to ask for when HEAD was `old_head` before.
pub fn head_diff(old_head: Option<&str>) -> (r: HeadDiff)
    ensures
        match old_head {
            Some(h) => r matches HeadDiff::Trees { old_head: o } && o@ == h@,
            None => r is WorkingTree,
        },
{
    match old_head {
        Some(h) => HeadDiff::Trees { old_head: h.to_owned() },
        None => HeadDiff::WorkingTree,
    }
}

/// The diffs that were read for a change of HEAD.
#[derive(Debug)]
pub enum HeadReading {
    /// The diffs of HEAD to the working directory and of HEAD to the index.
    WorkingTree {
        workdir: Result<Vec<FileDelta>, GitFailure>,
        index: Result<Vec<FileDelta>, GitFailure>,
    },
    /// The diff of the tree of the old commit to that of HEAD.
    Trees(Result<Vec<FileDelta>, GitFailure>),
}

/// What a change of HEAD leads to. Where the old commit is not known, that is what the
/// diffs of the working tree lead to; else the changes between the two trees, or the message
/// of the failure.
pub open spec fn head_result(
    root: Seq<char>,
    old_head: Option<Seq<char>>,
    reading: HeadReading,
    r: Result<GitChanges, String>,
) -> bool {
    match (old_head, reading) {
        (Some(_), HeadReading::Trees(Ok(t))) => r matches Ok(c) && c.are_of(root, t@),
        (Some(h), HeadReading::Trees(Err(e))) => r matches Err(m) && m@ == failure_text(e, h),
        (None, HeadReading::WorkingTree { workdir, index }) => working_tree_result(
            root,
            workdir,
            index,
            r,
        ),
        _ => false,
    }
}

/// The text of a string slice that may be missing.
pub open spec fn slice_text(s: Option<&str>) -> Option<Seq<char>> {
    match s {
        Some(t) => Some(t@),
        None => None,
    }
}

/// The changes since HEAD was `old_head`, from the diffs that `head_diff` asks for.
pub fn detect_head_change(
    project_root: &str,
    old_head: Option<&str>,
    reading: &HeadReading,
) -> (r: Result<GitChanges, String>)
    requires
        reading is Trees <==> old_head is Some,
    ensures
        head_result(project_root@, slice_text(old_head), *reading, r),
{
    match reading {
        HeadReading::WorkingTree { workdir, index } => detect_changes(project_root, workdir, index),
        HeadReading::Trees(Ok(t)) => {
            let mut changes = GitChanges::default();
            assert(texts(changes.modified@) =~= Seq::<Seq<char>>::empty());
            assert(texts(changes.deleted@) =~= Seq::<Seq<char>>::empty());
            categorize_all(t, project_root, &mut changes);
            assert(texts(changes.modified@) =~= all_modified(project_root@, t@));
            assert(texts(changes.deleted@) =~= all_deleted(project_root@, t@));
            Ok(sorted_changes(&changes))
        },
        HeadReading::Trees(Err(e)) => Err(
            failure_message(
                e,
                match old_head {
                    Some(h) => h,
                    None => "",
                },
            ),
        ),
    }
}

/// Two results hold the same lists, or the same message.
pub open spec fn same_changes(
    a: Result<GitChanges, String>,
    b: Result<GitChanges, String>,
) -> bool {
    match (a, b) {
        (Ok(x), Ok(y)) => texts(x.modified@) == texts(y.modified@) && texts(x.deleted@) == texts(
            y.deleted@,
        ),
        (Err(x), Err(y)) => x@ == y@,
        _ => false,
    }
}

/// Where the old commit is not known, the changes since it are the changes of the working
/// tree: the same two lists, or the same failure.
pub proof fn unknown_head_compares_working_tree(
    root: Seq<char>,
    workdir: Result<Vec<FileDelta>, GitFailure>,
    index: Result<Vec<FileDelta>, GitFailure>,
    since_head: Result<GitChanges, String>,
    of_tree: Result<GitChanges, String>,
)
    requires
        head_result(root, None, HeadReading::WorkingTree { workdir, index }, since_head),
        working_tree_result(root, workdir, index, of_tree),
    ensures
        same_changes(since_head, of_tree),
{
    match (since_head, of_tree) {
        (Ok(x), Ok(y)) => {
            let deltas = workdir->Ok_0@ + index->Ok_0@;
            sorted_unique_is_one(
                all_modified(root, deltas),
                texts(x.modified@),
                texts(y.modified@),
            );
            sorted_unique_is_one(all_deleted(root, deltas), texts(x.deleted@), texts(y.deleted@));
        },
        _ => {},
    }
}

/// A path is one that some entry of the diff asks to index again.
pub open spec fn some_delta_modifies(
    root: Seq<char>,
    deltas: Seq<FileDelta>,
    p: Seq<char>,
) -> bool {
    exists|k: int| 0 <= k < deltas.len() && #[trigger] modified_by(root, deltas[k]).contains(p)
}

/// A path is one that some entry of the diff asks to remove.
pub open spec fn some_delta_deletes(root: Seq<char>, deltas: Seq<FileDelta>, p: Seq<char>) -> bool {
    exists|k: int| 0 <= k < deltas.len() && #[trigger] deleted_by(root, deltas[k]).contains(p)
}

proof fn lemma_members(root: Seq<char>, deltas: Seq<FileDelta>, p: Seq<char>)
    ensures
        all_modified(root, deltas).contains(p) <==> some_delta_modifies(root, deltas, p),
        all_deleted(root, deltas).contains(p) <==> some_delta_deletes(root, deltas, p),
    decreases deltas.len(),
{
    if deltas.len() > 0 {
        let d = deltas.drop_last();
        let n = deltas.len() - 1;
        lemma_members(root, d, p);
        let ma = all_modified(root, d);
        let mb = modified_by(root, deltas.last());
        let da = all_deleted(root, d);
        let db = deleted_by(root, deltas.last());
        lemma_contains_concat(ma, mb, p);
        lemma_contains_concat(da, db, p);
        if some_delta_modifies(root, deltas, p) {
            let k = choose|k: int|
                0 <= k < deltas.len() && #[trigger] modified_by(root, deltas[k]).contains(p);
            if k < n {
                assert(modified_by(root, d[k]).contains(p));
            }
        }
        if some_delta_modifies(root, d, p) {
            let k = choose|k: int|
                0 <= k < d.len() && #[trigger] modified_by(root, d[k]).contains(p);
            assert(modified_by(root, deltas[k]).contains(p));
        }
        if mb.contains(p) {
            assert(modified_by(root, deltas[n]).contains(p));
        }
        if some_delta_deletes(root, deltas, p) {
            let k = choose|k: int|
                0 <= k < deltas.len() && #[trigger] deleted_by(root, deltas[k]).contains(p);
            if k < n {
                assert(deleted_by(root, d[k]).contains(p));
            }
        }
        if some_delta_deletes(root, d, p) {
            let k = choose|k: int|
                0 <= k < d.len() && #[trigger] deleted_by(root, d[k]).contains(p);
            assert(deleted_by(root, deltas[k]).contains(p));
        }
        if db.contains(p) {
            assert(deleted_by(root, deltas[n]).contains(p));
        }
    }
}

proof fn lemma_contains_concat(a: Seq<Seq<char>>, b: Seq<Seq<char>>, p: Seq<char>)
    ensures
        (a + b).contains(p) <==> a.contains(p) || b.contains(p),
{
    if a.contains(p) {
        let i = choose|i: int| 0 <= i < a.len() && a[i] == p;
        assert((a + b)[i] == p);
    }
    if b.contains(p) {
        let i = choose|i: int| 0 <= i < b.len() && b[i] == p;
        assert((a + b)[a.len() + i] == p);
    }
    if (a + b).contains(p) {
        let i = choose|i: int| 0 <= i < (a + b).len() && (a + b)[i] == p;
        if i < a.len() {
            assert(a[i] == p);
        } else {
            assert(b[i - a.len()] == p);
        }
    }
}

/// The changes are the precise set: every file that an entry of the diff touches is listed,
/// and nothing else is.
pub proof fn changes_are_precise(changes: &GitChanges, root: Seq<char>, deltas: Seq<FileDelta>)
    requires
        changes.are_of(root, deltas),
    ensures
        forall|p: Seq<char>|
            #[trigger] some_delta_modifies(root, deltas, p) ==> names_one_of(
                texts(changes.modified@),
                p,
            ),
        forall|p: Seq<char>|
            #[trigger] some_delta_deletes(root, deltas, p) ==> names_one_of(
                texts(changes.deleted@),
                p,
            ),
        forall|i: int|
            0 <= i < changes.modified@.len() ==> some_delta_modifies(
                root,
                deltas,
                (#[trigger] changes.modified@[i])@,
            ),
        forall|i: int|
            0 <= i < changes.deleted@.len() ==> some_delta_deletes(
                root,
                deltas,
                (#[trigger] changes.deleted@[i])@,
            ),
{
    let m = all_modified(root, deltas);
    let d = all_deleted(root, deltas);
    assert forall|p: Seq<char>| #[trigger] some_delta_modifies(root, deltas, p) implies names_one_of(
        texts(changes.modified@),
        p,
    ) by {
        lemma_members(root, deltas, p);
        let k = choose|k: int| 0 <= k < m.len() && m[k] == p;
        assert(names_one_of(texts(changes.modified@), m[k]));
    }
    assert forall|p: Seq<char>| #[trigger] some_delta_deletes(root, deltas, p) implies names_one_of(
        texts(changes.deleted@),
        p,
    ) by {
        lemma_members(root, deltas, p);
        let k = choose|k: int| 0 <= k < d.len() && d[k] == p;
        assert(names_one_of(texts(changes.deleted@), d[k]));
    }
    assert forall|i: int| 0 <= i < changes.modified@.len() implies some_delta_modifies(
        root,
        deltas,
        (#[trigger] changes.modified@[i])@,
    ) by {
        let p = texts(changes.modified@)[i];
        assert(is_first_of(m, p));
        lemma_members(root, deltas, p);
    }
    assert forall|i: int| 0 <= i < changes.deleted@.len() implies some_delta_deletes(
        root,
        deltas,
        (#[trigger] changes.deleted@[i])@,
    ) by {
        let p = texts(changes.deleted@)[i];
        assert(is_first_of(d, p));
        lemma_members(root, deltas, p);
    }
}

/// Two paths are the same file: they have the same components.
pub open spec fn lists_file(list: Seq<String>, p: Seq<char>) -> bool {
    exists|i: int|
        0 <= i < list.len() && components_of((#[trigger] list[i])@) == components_of(p)
}

/// Every file that an entry of a diff touches is listed, whatever stands on its other side:
/// what was added, modified, copied, renamed, changed in type or is untracked is indexed
/// again under its new path; what was deleted or renamed is removed under its old path.
pub proof fn touched_files_are_listed(
    changes: &GitChanges,
    root: Seq<char>,
    deltas: Seq<FileDelta>,
    k: int,
)
    requires
        changes.are_of(root, deltas),
        0 <= k < deltas.len(),
    ensures
        (deltas[k].status == DeltaStatus::Added || deltas[k].status == DeltaStatus::Modified
            || deltas[k].status == DeltaStatus::Copied || deltas[k].status
            == DeltaStatus::Typechange || deltas[k].status == DeltaStatus::Renamed
            || deltas[k].status == DeltaStatus::Untracked) && (deltas[k].new_path matches Some(_))
            ==> lists_file(changes.modified@, joined(root, deltas[k].new_path->0@)),
        (deltas[k].status == DeltaStatus::Deleted || deltas[k].status == DeltaStatus::Renamed)
            && (deltas[k].old_path matches Some(_)) ==> lists_file(
            changes.deleted@,
            joined(root, deltas[k].old_path->0@),
        ),
{
    changes_are_precise(changes, root, deltas);
    let d = deltas[k];
    if let Some(p) = d.new_path {
        let q = joined(root, p@);
        if modified_by(root, d) == seq![q] {
            assert(modified_by(root, deltas[k])[0] == q);
            assert(modified_by(root, deltas[k]).contains(q));
            assert(some_delta_modifies(root, deltas, q));
            lemma_listed(changes.modified@, q);
        }
    }
    if let Some(p) = d.old_path {
        let q = joined(root, p@);
        if deleted_by(root, d) == seq![q] {
            assert(deleted_by(root, deltas[k])[0] == q);
            assert(deleted_by(root, deltas[k]).contains(q));
            assert(some_delta_deletes(root, deltas, q));
            lemma_listed(changes.deleted@, q);
        }
    }
}

proof fn lemma_listed(list: Seq<String>, p: Seq<char>)
    requires
        names_one_of(texts(list), p),
    ensures
        lists_file(list, p),
{
    let i = choose|i: int| 0 <= i < texts(list).len() && same_path(#[trigger] texts(list)[i], p);
    assert(components_of(list[i]@) == components_of(p));
}

/// Nothing else is listed: each file to index again is the new path of an entry with such a
/// status, and each file to remove the old path of one.
pub proof fn listed_files_were_touched(
    changes: &GitChanges,
    root: Seq<char>,
    deltas: Seq<FileDelta>,
    i: int,
)
    requires
        changes.are_of(root, deltas),
    ensures
        0 <= i < changes.modified@.len() ==> exists|k: int|
            {
                &&& 0 <= k < deltas.len()
                &&& (#[trigger] deltas[k]).status != DeltaStatus::Deleted && deltas[k].status
                    != DeltaStatus::Unmodified && deltas[k].status != DeltaStatus::Ignored
                    && deltas[k].status != DeltaStatus::Unreadable && deltas[k].status
                    != DeltaStatus::Conflicted
                &&& deltas[k].new_path matches Some(p) && changes.modified@[i]@ == joined(root, p@)
            },
        0 <= i < changes.deleted@.len() ==> exists|k: int|
            {
                &&& 0 <= k < deltas.len()
                &&& (#[trigger] deltas[k]).status == DeltaStatus::Deleted || deltas[k].status
                    == DeltaStatus::Renamed
                &&& deltas[k].old_path matches Some(p) && changes.deleted@[i]@ == joined(root, p@)
            },
{
    changes_are_precise(changes, root, deltas);
    if 0 <= i < changes.modified@.len() {
        let p = changes.modified@[i]@;
        assert(some_delta_modifies(root, deltas, p));
        let k = choose|k: int|
            0 <= k < deltas.len() && #[trigger] modified_by(root, deltas[k]).contains(p);
        let m = modified_by(root, deltas[k]);
        let x = choose|x: int| 0 <= x < m.len() && m[x] == p;
        assert(deltas[k].new_path is Some);
    }
    if 0 <= i < changes.deleted@.len() {
        let p = changes.deleted@[i]@;
        assert(some_delta_deletes(root, deltas, p));
        let k = choose|k: int|
            0 <= k < deltas.len() && #[trigger] deleted_by(root, deltas[k]).contains(p);
        let m = deleted_by(root, deltas[k]);
        let x = choose|x: int| 0 <= x < m.len() && m[x] == p;
        assert(deltas[k].old_path is Some);
    }
}

/// One entry adds to each list at most its own path, behind what was there.
pub proof fn one_entry_adds_its_paths(root: Seq<char>, delta: FileDelta)
    ensures
        modified_by(root, delta).len() <= 1,
        deleted_by(root, delta).len() <= 1,
        (delta.status == DeltaStatus::Added || delta.status == DeltaStatus::Modified
            || delta.status == DeltaStatus::Copied || delta.status == DeltaStatus::Typechange
            || delta.status == DeltaStatus::Renamed || delta.status == DeltaStatus::Untracked) && (
        delta.new_path matches Some(_)) <==> modified_by(root, delta).len() == 1,
        (delta.status == DeltaStatus::Deleted || delta.status == DeltaStatus::Renamed) && (
        delta.old_path matches Some(_)) <==> deleted_by(root, delta).len() == 1,
        modified_by(root, delta).len() == 1 ==> modified_by(root, delta)[0] == joined(
            root,
            delta.new_path->0@,
        ),
        deleted_by(root, delta).len() == 1 ==> deleted_by(root, delta)[0] == joined(
            root,
            delta.old_path->0@,
        ),
{
}

/// The changes of the working tree hold those of both diffs, and nothing else; where a diff
/// could not be read there are none, and the message ends with what git said.
pub proof fn both_diffs_count(
    root: Seq<char>,
    workdir: Result<Vec<FileDelta>, GitFailure>,
    index: Result<Vec<FileDelta>, GitFailure>,
    r: Result<GitChanges, String>,
    k: int,
)
    requires
        working_tree_result(root, workdir, index, r),
    ensures
        r is Ok <==> workdir is Ok && index is Ok,
        r matches Ok(c) ==> {
            &&& 0 <= k < workdir->Ok_0@.len() ==> (modified_by(
                root,
                workdir->Ok_0@[k],
            ).len() == 1 ==> lists_file(c.modified@, modified_by(root, workdir->Ok_0@[k])[0])) && (
            deleted_by(root, workdir->Ok_0@[k]).len() == 1 ==> lists_file(
                c.deleted@,
                deleted_by(root, workdir->Ok_0@[k])[0],
            ))
            &&& 0 <= k < index->Ok_0@.len() ==> (modified_by(root, index->Ok_0@[k]).len() == 1
                ==> lists_file(c.modified@, modified_by(root, index->Ok_0@[k])[0])) && (
            deleted_by(root, index->Ok_0@[k]).len() == 1 ==> lists_file(
                c.deleted@,
                deleted_by(root, index->Ok_0@[k])[0],
            ))
        },
        r matches Err(m) ==> crate::text::ends_with_text(
            m@,
            if workdir is Err {
                workdir->Err_0.detail@
            } else {
                index->Err_0.detail@
            },
        ),
{
    match r {
        Ok(c) => {
            let w = workdir->Ok_0@;
            let x = index->Ok_0@;
            let all = w + x;
            if 0 <= k < w.len() {
                assert(all[k] == w[k]);
                touched_files_are_listed(&c, root, all, k);
                one_entry_adds_its_paths(root, w[k]);
            }
            if 0 <= k < x.len() {
                assert(all[w.len() + k] == x[k]);
                touched_files_are_listed(&c, root, all, w.len() + k);
                one_entry_adds_its_paths(root, x[k]);
            }
        },
        Err(m) => {
            let e = if workdir is Err {
                workdir->Err_0
            } else {
                index->Err_0
            };
            failure_names_its_step(e, Seq::empty());
        },
    }
}

/// What a change of HEAD leads to is what its own diff holds.
pub proof fn head_changes_are_those_of_the_trees(
    root: Seq<char>,
    old_head: Seq<char>,
    trees: Result<Vec<FileDelta>, GitFailure>,
    r: Result<GitChanges, String>,
    k: int,
)
    requires
        head_result(root, Some(old_head), HeadReading::Trees(trees), r),
    ensures
        r is Ok <==> trees is Ok,
        r matches Ok(c) ==> (0 <= k < trees->Ok_0@.len() ==> {
            &&& modified_by(root, trees->Ok_0@[k]).len() == 1 ==> lists_file(
                c.modified@,
                modified_by(root, trees->Ok_0@[k])[0],
            )
            &&& deleted_by(root, trees->Ok_0@[k]).len() == 1 ==> lists_file(
                c.deleted@,
                deleted_by(root, trees->Ok_0@[k])[0],
            )
        }),
{
    if let Ok(c) = r {
        let t = trees->Ok_0@;
        if 0 <= k < t.len() {
            touched_files_are_listed(&c, root, t, k);
            one_entry_adds_its_paths(root, t[k]);
        }
    }
}

/// The message for a failure names the step, the old commit where the step is about it, and
/// ends with what git said.
pub proof fn failure_names_its_step(failure: GitFailure, old_head: Seq<char>)
    ensures
        failure_text(failure, old_head) == (match failure.step {
            GitStep::OpenRepository => "Failed to open git repo: "@ + failure.detail@,
            GitStep::DiffWorkdir => "Failed to compute diff: "@ + failure.detail@,
            GitStep::WalkWorkdirDiff => "Failed to iterate diff: "@ + failure.detail@,
            GitStep::DiffIndex => "Failed to compute index diff: "@ + failure.detail@,
            GitStep::WalkIndexDiff => "Failed to iterate index diff: "@ + failure.detail@,
            GitStep::ParseOldHead => "Failed to parse old HEAD '"@ + old_head + "': "@
                + failure.detail@,
            GitStep::OldHeadTree => "Failed to get tree for '"@ + old_head + "': "@ + failure.detail@,
            GitStep::ReadHead => "Failed to get HEAD: "@ + failure.detail@,
            GitStep::HeadTree => "Failed to get HEAD tree: "@ + failure.detail@,
            GitStep::DiffTrees => "Failed to diff trees: "@ + failure.detail@,
            GitStep::WalkTreeDiff => "Failed to iterate tree diff: "@ + failure.detail@,
        }),
        crate::text::ends_with_text(failure_text(failure, old_head), failure.detail@),
{
    let t = failure_text(failure, old_head);
    let d = failure.detail@;
    assert(t.skip(t.len() - d.len()) =~= d);
}

/// A path belongs to git if one of its components is `.git`, and announces an operation if it
/// is the file `index` or `HEAD` right below the project's `.git` directory.
pub proof fn git_files_are_told_by_their_place(path: Seq<char>, root: Seq<char>)
    ensures
        inside_git(path) <==> exists|k: int|
            0 <= k < components_of(path).len() && #[trigger] components_of(path)[k] == seq![
                '.',
                'g',
                'i',
                't',
            ],
        is_sentinel(path, root) <==> components_of(path) == components_of(root) + seq![
            seq!['.', 'g', 'i', 't'],
            seq!['i', 'n', 'd', 'e', 'x'],
        ] || components_of(path) == components_of(root) + seq![
            seq!['.', 'g', 'i', 't'],
            seq!['H', 'E', 'A', 'D'],
        ],
{
    reveal_strlit(".git");
    reveal_strlit("index");
    reveal_strlit("HEAD");
    let git = seq!['.', 'g', 'i', 't'];
    assert(".git"@ =~= git);
    assert("index"@ =~= seq!['i', 'n', 'd', 'e', 'x']);
    assert("HEAD"@ =~= seq!['H', 'E', 'A', 'D']);
    lemma_one_component(".git"@);
    lemma_one_component("index"@);
    lemma_one_component("HEAD"@);
    let dir = joined(root, ".git"@);
    join_strips_back(root, ".git"@);
    join_strips_back(dir, "index"@);
    join_strips_back(dir, "HEAD"@);
    assert(components_of(joined(dir, "index"@)) =~= components_of(root) + seq![git, "index"@]);
    assert(components_of(joined(dir, "HEAD"@)) =~= components_of(root) + seq![git, "HEAD"@]);
    if inside_git(path) {
        let k = choose|k: int|
            0 <= k < components_of(path).len() && components_of(path)[k] == ".git"@;
        assert(components_of(path)[k] == git);
    }
}

/// A commit name that may be missing is read as it is.
pub proof fn commit_names_are_read_as_they_are(head: &str)
    ensures
        slice_text(Some(head)) == Some(head@),
        slice_text(None) is None,
{
}

} // verus!
