//! Which files of a project tree are indexed when it is walked.

use ignore::overrides::Override;
use vstd::prelude::*;

use crate::binary_detect::{content_verdict, extension_verdict, is_likely_binary};
use crate::path_filter::{
    add_override, build_override, extension_allowed, has_extension_of, new_override_builder,
    override_builder_globs, override_builder_root, override_builds, override_globs, override_root,
    FileFacts, FilterView,
};
use crate::text::{append_str, texts};
use crate::types::{ConfigView, SakuinConfig};

verus! {

/// Which ignore files a walk obeys. Hidden files are always skipped.
#[derive(Debug, Clone, Copy, PartialEq, Eq, Structural)]
pub struct WalkOptions {
    pub hidden: bool,
    pub git_ignore: bool,
    pub git_global: bool,
    pub git_exclude: bool,
    pub ignore: bool,
}

/// How the project is walked.
pub fn walk_options(config: &SakuinConfig) -> (r: WalkOptions)
    ensures
        r == (WalkOptions {
            hidden: true,
            git_ignore: config@.respect_gitignore,
            git_global: config@.respect_gitignore,
            git_exclude: config@.respect_gitignore,
            ignore: config@.respect_gitignore,
        }),
{
    let use_git = config.respect_gitignore;
    WalkOptions {
        hidden: true,
        git_ignore: use_git,
        git_global: use_git,
        git_exclude: use_git,
        ignore: use_git,
    }
}

/// The globs for the files to index, as they are, followed by those for the files not to
/// index, each behind an exclamation mark.
pub open spec fn walk_globs(config: ConfigView) -> Seq<Seq<char>> {
    let includes = match config.include_patterns {
        Some(p) => p,
        None => Seq::empty(),
    };
    includes + Seq::new(
        config.ignore_patterns.len(),
        |i: int| seq!['!'] + config.ignore_patterns[i],
    )
}

/// The matcher that a walk of the project is restricted by; none where no glob is
/// configured or the globs cannot be built into a matcher.
pub fn walk_overrides(project_root: &str, config: &SakuinConfig) -> (r: Option<Override>)
    ensures
        match r {
            Some(o) => walk_globs(config@).len() > 0 && override_builds(walk_globs(config@))
                && override_root(o) == project_root@ && override_globs(o) == walk_globs(config@),
            None => walk_globs(config@).len() == 0 || !override_builds(walk_globs(config@)),
        },
{
    let ghost all = walk_globs(config@);
    let mut b = new_override_builder(project_root);
    let mut count: usize = 0;
    let ghost n: int = 0;
    assert(all.take(0) =~= Seq::<Seq<char>>::empty());
    match &config.include_patterns {
        Some(list) => {
            let mut i: usize = 0;
            while i < list.len()
                invariant
                    i <= list@.len() <= all.len(),
                    config.include_patterns == Some(*list),
                    all == walk_globs(config@),
                    override_builder_root(b) == project_root@,
                    override_builder_globs(b) == all.take(i as int),
                decreases list@.len() - i,
            {
                add_override(&mut b, list[i].as_str());
                proof {
                    assert(all[i as int] == texts(list@)[i as int]);
                    assert(all.take(i + 1) =~= all.take(i as int).push(all[i as int]));
                }
                i += 1;
            }
            count = list.len();
            proof {
                n = list@.len() as int;
            }
        },
        None => {},
    }
    let mut k: usize = 0;
    while k < config.ignore_patterns.len()
        invariant
            k <= config.ignore_patterns@.len(),
            all == walk_globs(config@),
            n == count,
            all.len() == n + config.ignore_patterns@.len(),
            forall|j: int|
                0 <= j < config.ignore_patterns@.len() ==> #[trigger] all[n + j] == seq!['!']
                    + config.ignore_patterns@[j]@,
            override_builder_root(b) == project_root@,
            override_builder_globs(b) == all.take(n + k),
        decreases config.ignore_patterns@.len() - k,
    {
        let mut glob = String::new();
        glob.push('!');
        append_str(&mut glob, config.ignore_patterns[k].as_str());
        assert(glob@ =~= seq!['!'] + config.ignore_patterns@[k as int]@);
        add_override(&mut b, glob.as_str());
        assert(all.take(n + k + 1) =~= all.take(n + k).push(all[n + k]));
        k += 1;
    }
    assert(all.take(n + k) =~= all);
    if count == 0 && config.ignore_patterns.len() == 0 {
        return None;
    }
    match build_override(&b) {
        Ok(o) => Some(o),
        Err(_) => None,
    }
}

/// A file or directory that a walk comes across.
pub struct WalkEntry {
    pub path: String,
    /// Whether it is known to be a regular file.
    pub is_file: bool,
    /// Its size, if it is known.
    pub size: Option<u64>,
    /// Its first bytes, if it can be read.
    pub head: Option<Vec<u8>>,
}

/// An entry is a file to index: not too large, with a configured extension, and not binary.
/// A file whose size is not known is not too large.
pub open spec fn entry_passes(config: ConfigView, entry: &WalkEntry) -> bool {
    &&& entry.is_file
    &&& entry.size matches Some(n) ==> n <= config.max_file_size
    &&& config.include_extensions matches Some(exts) ==> has_extension_of(entry.path@, exts)
    &&& !(match extension_verdict(entry.path@) {
        Some(v) => v,
        None => content_verdict(
            match entry.head {
                Some(b) => Some(b@),
                None => None,
            },
        ),
    })
}

/// Whether an entry is a file to index.
pub fn keeps_entry(config: &SakuinConfig, entry: &WalkEntry) -> (r: bool)
    ensures
        r == entry_passes(config@, entry),
{
    if !entry.is_file {
        return false;
    }
    match entry.size {
        Some(n) => {
            if n > config.max_file_size {
                return false;
            }
        },
        None => {},
    }
    match &config.include_extensions {
        Some(exts) => {
            if !extension_allowed(entry.path.as_str(), exts) {
                return false;
            }
        },
        None => {},
    }
    match &entry.head {
        Some(b) => !is_likely_binary(entry.path.as_str(), Some(b.as_slice())),
        None => !is_likely_binary(entry.path.as_str(), None),
    }
}

/// The paths of the files to index among the entries, in order.
pub open spec fn kept_paths(config: ConfigView, entries: Seq<WalkEntry>) -> Seq<Seq<char>>
    decreases entries.len(),
{
    if entries.len() == 0 {
        Seq::empty()
    } else if entry_passes(config, &entries.last()) {
        kept_paths(config, entries.drop_last()).push(entries.last().path@)
    } else {
        kept_paths(config, entries.drop_last())
    }
}

/// The files to index among the entries of a walk.
pub fn walk_project(config: &SakuinConfig, entries: &Vec<WalkEntry>) -> (r: Vec<String>)
    ensures
        texts(r@) == kept_paths(config@, entries@),
{
    let mut out: Vec<String> = Vec::new();
    let mut i: usize = 0;
    assert(texts(out@) =~= kept_paths(config@, entries@.take(0)));
    while i < entries.len()
        invariant
            i <= entries@.len(),
            texts(out@) == kept_paths(config@, entries@.take(i as int)),
        decreases entries@.len() - i,
    {
        let ghost before = out@;
        assert(entries@.take(i + 1).drop_last() =~= entries@.take(i as int));
        if keeps_entry(config, &entries[i]) {
            out.push(entries[i].path.clone());
            assert(texts(out@) =~= texts(before).push(entries@[i as int].path@));
        }
        i += 1;
    }
    assert(entries@.take(i as int) =~= entries@);
    out
}

/// The walk of a project and the filter for single files ask the same of a file's type,
/// size, extension and contents, where the size is known: they agree on every file that is
/// not kept out by its name or by an ignore file.
pub proof fn walk_and_filter_agree_on_files(
    root: Seq<char>,
    config: ConfigView,
    rel: Seq<char>,
    entry: &WalkEntry,
    facts: &FileFacts,
)
    requires
        entry.size is Some,
        facts.metadata == Some((entry.is_file, entry.size->0)),
        facts.head == entry.head,
        !facts.ignored(root, rel),
    ensures
        entry_passes(config, entry) == FilterView::of(root, config).file_passes(
            entry.path@,
            rel,
            facts,
        ),
{
}

/// The globs of a walk: first those for the files to index, as they are, then those for the
/// files not to index, each behind an exclamation mark.
pub proof fn walk_globs_are_selections_then_exclusions(config: ConfigView, i: int)
    ensures
        ({
            let includes = match config.include_patterns {
                Some(p) => p,
                None => Seq::empty(),
            };
            let n = includes.len();
            &&& walk_globs(config).len() == n + config.ignore_patterns.len()
            &&& 0 <= i < n ==> walk_globs(config)[i] == includes[i]
            &&& 0 <= i < config.ignore_patterns.len() ==> {
                let glob = walk_globs(config)[n + i];
                &&& glob.len() == config.ignore_patterns[i].len() + 1
                &&& glob[0] == '!'
                &&& glob.skip(1) == config.ignore_patterns[i]
            }
        }),
{
    let includes = match config.include_patterns {
        Some(p) => p,
        None => Seq::empty(),
    };
    if 0 <= i < config.ignore_patterns.len() {
        let glob = walk_globs(config)[includes.len() + i];
        assert(glob == seq!['!'] + config.ignore_patterns[i]);
        assert(glob.skip(1) =~= config.ignore_patterns[i]);
    }
}

/// The walk keeps an entry if it is a regular file, is not known to be too large, has a wanted
/// extension, and is not taken for binary.
pub proof fn entries_are_kept_by_the_configuration(config: ConfigView, entry: &WalkEntry)
    ensures
        entry_passes(config, entry) <==> {
            &&& entry.is_file
            &&& !(entry.size is Some && entry.size->0 > config.max_file_size)
            &&& config.include_extensions is Some ==> has_extension_of(
                entry.path@,
                config.include_extensions->0,
            )
            &&& extension_verdict(entry.path@) != Some(true)
            &&& extension_verdict(entry.path@) is None ==> entry.head is Some && !content_verdict(
                Some(entry.head->0@),
            )
        },
{
}

/// The files of a walk are the paths of the entries that are kept, in the order in which they
/// were come across, none twice and none left out.
pub proof fn walk_keeps_the_passing_entries(config: ConfigView, entries: Seq<WalkEntry>)
    ensures
        kept_paths(config, entries) == entries.filter(
            |e: WalkEntry| entry_passes(config, &e),
        ).map_values(|e: WalkEntry| e.path@),
    decreases entries.len(),
{
    reveal(Seq::filter);
    let keep = |e: WalkEntry| entry_passes(config, &e);
    let path = |e: WalkEntry| e.path@;
    if entries.len() > 0 {
        walk_keeps_the_passing_entries(config, entries.drop_last());
        let f = entries.drop_last().filter(keep);
        assert(f.push(entries.last()).map_values(path) =~= f.map_values(path).push(
            entries.last().path@,
        ));
    } else {
        assert(entries.filter(keep).map_values(path) =~= Seq::<Seq<char>>::empty());
    }
}

} // verus!
