//! Which paths are indexed.

use ignore::gitignore::{Gitignore, GitignoreBuilder};
use ignore::overrides::{Override, OverrideBuilder};
use vstd::prelude::*;

use crate::binary_detect::{content_verdict, extension_verdict, is_likely_binary};
use crate::paths::{
    as_ints, component_spans, components, components_of, extension, extension_of, is_absolute,
    is_plain_relative, is_same_path, join, join_strips_back, joined, lemma_spans, lemma_spans_from,
    lemma_spans_up_to, path_starts_with, same_path, spans, spans_from, strip_prefix, stripped,
};
use crate::text::{
    chars_of, has_start, lowercase, make_lowercase, same_text, starts_with_text, string_of, texts,
};
use crate::types::{optional_texts, ConfigView, SakuinConfig};

verus! {

/// The builder of a gitignore matcher.
#[verifier::external_type_specification]
#[verifier::external_body]
pub struct ExGitignoreBuilder(GitignoreBuilder);

/// A gitignore matcher.
#[verifier::external_type_specification]
#[verifier::external_body]
pub struct ExGitignore(Gitignore);

/// The builder of an override matcher.
#[verifier::external_type_specification]
#[verifier::external_body]
pub struct ExOverrideBuilder(OverrideBuilder);

/// An override matcher.
#[verifier::external_type_specification]
#[verifier::external_body]
pub struct ExOverride(Override);

/// The error of the two builders.
#[verifier::external_type_specification]
#[verifier::external_body]
pub struct ExIgnoreError(ignore::Error);

/// The directory that a gitignore builder was made for.
pub uninterp spec fn ignore_builder_root(b: GitignoreBuilder) -> Seq<char>;

/// The lines that were handed to a gitignore builder, in order.
pub uninterp spec fn ignore_builder_lines(b: GitignoreBuilder) -> Seq<Seq<char>>;

/// The directory that a gitignore matcher was built for.
pub uninterp spec fn ignore_root(g: Gitignore) -> Seq<char>;

/// The lines that a gitignore matcher was built from.
pub uninterp spec fn ignore_lines(g: Gitignore) -> Seq<Seq<char>>;

/// The directory that an override builder was made for.
pub uninterp spec fn override_builder_root(b: OverrideBuilder) -> Seq<char>;

/// The globs that were handed to an override builder, in order.
pub uninterp spec fn override_builder_globs(b: OverrideBuilder) -> Seq<Seq<char>>;

/// The directory that an override matcher was built for.
pub uninterp spec fn override_root(o: Override) -> Seq<char>;

/// The globs that an override matcher was built from.
pub uninterp spec fn override_globs(o: Override) -> Seq<Seq<char>>;

/// Whether `GitignoreBuilder::build` succeeds on these lines.
pub uninterp spec fn gitignore_builds(lines: Seq<Seq<char>>) -> bool;

/// Whether `OverrideBuilder::build` succeeds on these globs.
pub uninterp spec fn override_builds(globs: Seq<Seq<char>>) -> bool;

/// Whether `Gitignore::matched_path_or_any_parents` answers for a file that it is ignored,
/// by the directory, the lines and the path.
pub uninterp spec fn gitignore_ignores(
    root: Seq<char>,
    lines: Seq<Seq<char>>,
    path: Seq<char>,
) -> bool;

/// What `Gitignore::matched` answers for a path, by the directory, the lines, the path and
/// whether it is a directory: that it is ignored, that it is not, or nothing.
pub uninterp spec fn gitignore_answer(
    root: Seq<char>,
    lines: Seq<Seq<char>>,
    path: Seq<char>,
    is_dir: bool,
) -> Option<bool>;

/// Whether `Override::matched` answers for a file that a glob selects it, by the directory,
/// the globs and the path.
pub uninterp spec fn override_selects(
    root: Seq<char>,
    globs: Seq<Seq<char>>,
    path: Seq<char>,
) -> bool;

/// `GitignoreBuilder::new`: a builder for the directory, without lines.
#[verifier::external_body]
fn new_ignore_builder(root: &str) -> (r: GitignoreBuilder)
    ensures
        ignore_builder_root(r) == root@,
        ignore_builder_lines(r) == Seq::<Seq<char>>::empty(),
{
    GitignoreBuilder::new(root)
}

/// `GitignoreBuilder::add_line`: one more line. A line that is no glob is left aside; the
/// error is of no use here.
#[verifier::external_body]
fn add_ignore_line(b: &mut GitignoreBuilder, line: &str)
    ensures
        ignore_builder_root(*final(b)) == ignore_builder_root(*old(b)),
        ignore_builder_lines(*final(b)) == ignore_builder_lines(*old(b)).push(line@),
{
    let _ = b.add_line(None, line);
}

/// `GitignoreBuilder::build`: whether it succeeds depends on the lines; the matcher is for
/// the builder's directory and lines.
#[verifier::external_body]
fn build_ignore(b: &GitignoreBuilder) -> (r: Result<Gitignore, ignore::Error>)
    ensures
        r is Ok == gitignore_builds(ignore_builder_lines(*b)),
        r matches Ok(g) ==> ignore_root(g) == ignore_builder_root(*b) && ignore_lines(g)
            == ignore_builder_lines(*b),
{
    b.build()
}

/// `Gitignore::empty`: a matcher without lines.
#[verifier::external_body]
fn empty_ignore() -> (r: Gitignore)
    ensures
        ignore_lines(r) == Seq::<Seq<char>>::empty(),
{
    Gitignore::empty()
}

/// `Gitignore::matched_path_or_any_parents` for a file, asked whether it is ignored. A
/// matcher without lines ignores nothing. It panics where a path is left with a leading
/// slash when the matcher's directory was taken off; that is left out.
#[verifier::external_body]
fn ignore_match(g: &Gitignore, path: &str) -> (r: bool)
    requires
        ignore_lines(*g).len() == 0 || !is_absolute(matcher_sees(ignore_root(*g), path@)),
    ensures
        r == gitignore_ignores(ignore_root(*g), ignore_lines(*g), path@),
        ignore_lines(*g).len() == 0 ==> !r,
{
    g.matched_path_or_any_parents(path, false).is_ignore()
}

/// `Gitignore::matched`: true where the last line that holds of the path ignores it, false
/// where that line takes it back, nothing where no line holds. A matcher without lines has
/// no answer.
#[verifier::external_body]
fn ignore_answer(g: &Gitignore, path: &str, is_dir: bool) -> (r: Option<bool>)
    ensures
        r == gitignore_answer(ignore_root(*g), ignore_lines(*g), path@, is_dir),
        ignore_lines(*g).len() == 0 ==> r is None,
{
    match g.matched(path, is_dir) {
        ignore::Match::None => None,
        ignore::Match::Ignore(_) => Some(true),
        ignore::Match::Whitelist(_) => Some(false),
    }
}

/// `OverrideBuilder::new`: a builder for the directory, without globs.
#[verifier::external_body]
pub(crate) fn new_override_builder(root: &str) -> (r: OverrideBuilder)
    ensures
        override_builder_root(r) == root@,
        override_builder_globs(r) == Seq::<Seq<char>>::empty(),
{
    OverrideBuilder::new(root)
}

/// `OverrideBuilder::add`: one more glob. One that does not parse is left aside; the error
/// is of no use here.
#[verifier::external_body]
pub(crate) fn add_override(b: &mut OverrideBuilder, glob: &str)
    ensures
        override_builder_root(*final(b)) == override_builder_root(*old(b)),
        override_builder_globs(*final(b)) == override_builder_globs(*old(b)).push(glob@),
{
    let _ = b.add(glob);
}

/// `OverrideBuilder::build`: whether it succeeds depends on the globs; the matcher is for
/// the builder's directory and globs.
#[verifier::external_body]
pub(crate) fn build_override(b: &OverrideBuilder) -> (r: Result<Override, ignore::Error>)
    ensures
        r is Ok == override_builds(override_builder_globs(*b)),
        r matches Ok(o) ==> override_root(o) == override_builder_root(*b) && override_globs(o)
            == override_builder_globs(*b),
{
    b.build()
}

/// `Override::empty`: a matcher without globs.
#[verifier::external_body]
fn empty_override() -> (r: Override)
    ensures
        override_globs(r) == Seq::<Seq<char>>::empty(),
{
    Override::empty()
}

/// `Override::matched` for a file, asked whether a glob selects it. A matcher without globs
/// selects nothing.
#[verifier::external_body]
fn override_match(o: &Override, path: &str) -> (r: bool)
    ensures
        r == override_selects(override_root(*o), override_globs(*o), path@),
        override_globs(*o).len() == 0 ==> !r,
{
    o.matched(path, false).is_whitelist()
}

/// A path without a leading `./`.
pub open spec fn without_dot(p: Seq<char>) -> Seq<char> {
    if starts_with_text(p, "./"@) {
        p.skip(2)
    } else {
        p
    }
}

/// What a matcher for the directory `root` looks at for `path`: the path without a leading
/// `./`, and without the directory and one slash where the directory is not `.`, the path
/// holds a slash and starts with the directory's name.
pub open spec fn matcher_sees(root: Seq<char>, path: Seq<char>) -> Seq<char> {
    let p = without_dot(path);
    let r = without_dot(root);
    if !same_path(r, "."@) && p.contains('/') && starts_with_text(p, r) {
        let rest = p.skip(r.len() as int);
        if starts_with_text(rest, "/"@) {
            rest.skip(1)
        } else {
            rest
        }
    } else {
        p
    }
}

/// The string behind the first `n` characters.
fn behind_chars(s: &str, n: usize) -> (r: String)
    requires
        n <= s@.len(),
    ensures
        r@ == s@.skip(n as int),
{
    let v = chars_of(s);
    assert(s@.skip(n as int) =~= s@.subrange(n as int, s@.len() as int));
    string_of(v.as_slice(), n, v.len())
}

/// The path without a leading `./`.
fn drop_dot(p: &str) -> (r: String)
    ensures
        r@ == without_dot(p@),
{
    if has_start(p, "./") {
        proof {
            reveal_strlit("./");
        }
        behind_chars(p, 2)
    } else {
        p.to_owned()
    }
}

/// What a matcher for the directory `root` looks at for `path`.
fn matcher_path(root: &str, path: &str) -> (r: String)
    ensures
        r@ == matcher_sees(root@, path@),
{
    let p = drop_dot(path);
    let r = drop_dot(root);
    let v = chars_of(p.as_str());
    let mut slash = false;
    let mut i: usize = 0;
    while i < v.len()
        invariant
            i <= v@.len(),
            slash <==> exists|k: int| 0 <= k < i && v@[k] == '/',
        decreases v@.len() - i,
    {
        if v[i] == '/' {
            slash = true;
        }
        i += 1;
    }
    assert(slash == p@.contains('/'));
    if !is_same_path(r.as_str(), ".") && slash && has_start(p.as_str(), r.as_str()) {
        let len: usize = chars_of(r.as_str()).len();
        let rest = behind_chars(p.as_str(), len);
        if has_start(rest.as_str(), "/") {
            proof {
                reveal_strlit("/");
            }
            behind_chars(rest.as_str(), 1)
        } else {
            rest
        }
    } else {
        p
    }
}

/// A component is the name of a hidden file or directory.
pub open spec fn is_hidden_name(c: Seq<char>) -> bool {
    starts_with_text(c, "."@) && c != "."@ && c != ".."@
}

/// A path has a hidden component.
pub open spec fn is_hidden(path: Seq<char>) -> bool {
    exists|k: int|
        0 <= k < components_of(path).len() && is_hidden_name(#[trigger] components_of(path)[k])
}

/// Whether a path has a hidden component.
pub fn has_hidden_component(path: &str) -> (r: bool)
    ensures
        r == is_hidden(path@),
{
    let c = components(path);
    let ghost all = components_of(path@);
    assert(texts(c@).len() == c@.len());
    let mut i: usize = 0;
    while i < c.len()
        invariant
            i <= c@.len() == all.len(),
            texts(c@) == all,
            all == components_of(path@),
            forall|k: int| 0 <= k < i ==> !is_hidden_name(#[trigger] all[k]),
        decreases c@.len() - i,
    {
        assert(texts(c@)[i as int] == c@[i as int]@);
        let s = c[i].as_str();
        if has_start(s, ".") && !same_text(s, ".") && !same_text(s, "..") {
            assert(is_hidden_name(all[i as int]));
            return true;
        }
        i += 1;
    }
    false
}

/// The lowercase extension of a path; empty where it has none.
pub open spec fn folded_extension(path: Seq<char>) -> Seq<char> {
    match extension_of(path) {
        Some(ext) => lowercase(ext),
        None => Seq::empty(),
    }
}

/// The extension of a path is one of `exts`, whatever the case.
pub open spec fn has_extension_of(path: Seq<char>, exts: Seq<Seq<char>>) -> bool {
    exists|k: int| 0 <= k < exts.len() && lowercase(#[trigger] exts[k]) == folded_extension(path)
}

/// Whether the extension of a path is one of `exts`.
pub fn extension_allowed(path: &str, exts: &Vec<String>) -> (r: bool)
    ensures
        r == has_extension_of(path@, texts(exts@)),
{
    let ext = match extension(path) {
        Some(e) => make_lowercase(e.as_str()),
        None => {
            let e = String::new();
            assert(e@ =~= Seq::<char>::empty());
            e
        },
    };
    assert(ext@ == folded_extension(path@));
    let ghost all = texts(exts@);
    let mut i: usize = 0;
    while i < exts.len()
        invariant
            i <= exts@.len() == all.len(),
            all == texts(exts@),
            ext@ == folded_extension(path@),
            forall|k: int| 0 <= k < i ==> lowercase(#[trigger] all[k]) != folded_extension(path@),
        decreases exts@.len() - i,
    {
        let e = make_lowercase(exts[i].as_str());
        assert(all[i as int] == exts@[i as int]@);
        if same_text(e.as_str(), ext.as_str()) {
            return true;
        }
        i += 1;
    }
    false
}

/// The lines of an ignore file in the directory `dir` keep out the path `rel`, which is
/// relative to that directory. Lines that cannot be built into a matcher keep nothing out.
pub open spec fn lines_ignore(dir: Seq<char>, lines: Seq<Seq<char>>, rel: Seq<char>) -> bool {
    lines.len() > 0 && gitignore_builds(lines) && gitignore_ignores(dir, lines, rel)
}

/// A matcher for the lines can be asked about the path: taking the directory off leaves no
/// leading slash.
pub open spec fn lines_matchable(dir: Seq<char>, lines: Seq<Seq<char>>, rel: Seq<char>) -> bool {
    lines.len() == 0 || !is_absolute(matcher_sees(dir, rel))
}

/// Whether what a matcher for the directory `dir` looks at has no leading slash.
pub fn can_ask(dir: &str, rel: &str) -> (r: bool)
    ensures
        r == !is_absolute(matcher_sees(dir@, rel@)),
{
    let seen = matcher_path(dir, rel);
    let v = chars_of(seen.as_str());
    !(v.len() > 0 && v[0] == '/')
}

/// The matcher for some lines, if they can be built into one.
fn matcher_of(dir: &str, lines: &Vec<String>) -> (r: Option<Gitignore>)
    ensures
        r is Some == gitignore_builds(texts(lines@)),
        r matches Some(g) ==> ignore_root(g) == dir@ && ignore_lines(g) == texts(lines@),
{
    let mut b = new_ignore_builder(dir);
    let ghost all = texts(lines@);
    let mut i: usize = 0;
    assert(all.take(0) =~= Seq::<Seq<char>>::empty());
    while i < lines.len()
        invariant
            i <= lines@.len() == all.len(),
            all == texts(lines@),
            ignore_builder_root(b) == dir@,
            ignore_builder_lines(b) == all.take(i as int),
        decreases lines@.len() - i,
    {
        add_ignore_line(&mut b, lines[i].as_str());
        assert(all.take(i + 1) =~= all.take(i as int).push(all[i as int]));
        i += 1;
    }
    assert(all.take(i as int) =~= all);
    match build_ignore(&b) {
        Ok(g) => Some(g),
        Err(_) => None,
    }
}

/// Whether the lines of an ignore file in the directory `project_root` keep out a path
/// relative to that directory.
pub fn fallback_ignores(project_root: &str, lines: &Vec<String>, rel: &str) -> (r: bool)
    requires
        lines_matchable(project_root@, texts(lines@), rel@),
    ensures
        r == lines_ignore(project_root@, texts(lines@), rel@),
{
    if lines.len() == 0 {
        return false;
    }
    match matcher_of(project_root, lines) {
        Some(g) => ignore_match(&g, rel),
        None => false,
    }
}

/// What git's rules say about a path.
#[derive(Debug, Clone)]
pub enum GitRules {
    /// The project is a repository, and git was asked: whether it ignores the path.
    Repository(bool),
    /// The project is no repository: the lines of the `.gitignore` file at its root.
    Lines(Vec<String>),
    /// The project is no repository and has no such file.
    Absent,
}

impl GitRules {
    /// The rules keep out a path relative to the project.
    pub open spec fn ignores(&self, root: Seq<char>, rel: Seq<char>) -> bool {
        match *self {
            GitRules::Repository(ignored) => ignored,
            GitRules::Lines(lines) => lines_ignore(root, texts(lines@), rel),
            GitRules::Absent => false,
        }
    }

    /// The rules can be asked about the path.
    pub open spec fn matchable(&self, root: Seq<char>, rel: Seq<char>) -> bool {
        *self matches GitRules::Lines(lines) ==> lines_matchable(root, texts(lines@), rel)
    }

    /// Whether the rules can be asked about a path.
    fn can_match(&self, root: &str, rel: &str) -> (r: bool)
        ensures
            r == self.matchable(root@, rel@),
    {
        match self {
            GitRules::Lines(lines) => lines.len() == 0 || can_ask(root, rel),
            _ => true,
        }
    }

    /// Whether the rules keep out a path relative to the project.
    fn keep_out(&self, root: &str, rel: &str) -> (r: bool)
        requires
            self.matchable(root@, rel@),
        ensures
            r == self.ignores(root@, rel@),
    {
        match self {
            GitRules::Repository(ignored) => *ignored,
            GitRules::Lines(lines) => fallback_ignores(root, lines, rel),
            GitRules::Absent => false,
        }
    }
}

/// What the lines of an ignore file in the directory `dir` say about a path: true that it is
/// ignored, false that it is not. Lines that cannot be built into a matcher say nothing.
pub open spec fn lines_answer(
    dir: Seq<char>,
    lines: Seq<Seq<char>>,
    path: Seq<char>,
    is_dir: bool,
) -> Option<bool> {
    if lines.len() > 0 && gitignore_builds(lines) {
        gitignore_answer(dir, lines, path, is_dir)
    } else {
        None
    }
}

/// An `.ignore` file of the project.
#[derive(Debug, Clone)]
pub struct IgnoreFile {
    /// Its directory, relative to the project; empty for the root.
    pub dir: String,
    pub lines: Vec<String>,
}

impl IgnoreFile {
    /// The directory of the file as a path.
    pub open spec fn place(&self, root: Seq<char>) -> Seq<char> {
        if self.dir@.len() == 0 {
            root
        } else {
            joined(root, self.dir@)
        }
    }

    /// How far below the root the file stands.
    pub open spec fn depth(&self) -> nat {
        components_of(self.dir@).len()
    }

    /// What the file says about a path relative to the project: nothing of one that is not
    /// below its directory.
    pub open spec fn answer(&self, root: Seq<char>, path: Seq<char>, is_dir: bool) -> Option<bool> {
        match stripped(path, self.dir@) {
            Some(inner) => if inner.len() == 0 {
                None
            } else {
                lines_answer(
                    self.place(root),
                    texts(self.lines@),
                    joined(self.place(root), inner),
                    is_dir,
                )
            },
            None => None,
        }
    }

    /// What the file says about a path relative to the project.
    pub fn ask(&self, root: &str, path: &str, is_dir: bool) -> (r: Option<bool>)
        ensures
            r == self.answer(root@, path@, is_dir),
    {
        let inner = match strip_prefix(path, self.dir.as_str()) {
            Some(inner) => inner,
            None => {
                return None;
            },
        };
        let at_root = chars_of(self.dir.as_str()).len() == 0;
        let place = if at_root {
            root.to_owned()
        } else {
            join(root, self.dir.as_str())
        };
        if chars_of(inner.as_str()).len() == 0 || self.lines.len() == 0 {
            return None;
        }
        match matcher_of(place.as_str(), &self.lines) {
            Some(g) => ignore_answer(&g, join(place.as_str(), inner.as_str()).as_str(), is_dir),
            None => None,
        }
    }
}

/// Of the files that say something about a path, the one that is nearest to it says that it
/// is ignored.
pub open spec fn nearest_ignores(
    files: Seq<IgnoreFile>,
    root: Seq<char>,
    path: Seq<char>,
    is_dir: bool,
) -> bool {
    exists|k: int|
        {
            &&& 0 <= k < files.len()
            &&& (#[trigger] files[k]).answer(root, path, is_dir) == Some(true)
            &&& forall|j: int|
                0 <= j < files.len() && (#[trigger] files[j]).answer(root, path, is_dir) is Some
                    ==> files[j].depth() <= files[k].depth()
        }
}

/// Whether the nearest file that says something about a path says that it is ignored.
fn nearest_file_ignores(
    files: &Vec<IgnoreFile>,
    root: &str,
    path: &str,
    is_dir: bool,
) -> (r: bool)
    ensures
        r == nearest_ignores(files@, root@, path@, is_dir),
{
    let mut found = false;
    let mut deepest: usize = 0;
    let mut ignored = false;
    let mut i: usize = 0;
    while i < files.len()
        invariant
            i <= files@.len(),
            found <==> exists|k: int|
                0 <= k < i && (#[trigger] files@[k]).answer(root@, path@, is_dir) is Some,
            found ==> exists|k: int|
                0 <= k < i && (#[trigger] files@[k]).answer(root@, path@, is_dir) is Some
                    && files@[k].depth() == deepest,
            forall|k: int|
                0 <= k < i && (#[trigger] files@[k]).answer(root@, path@, is_dir) is Some
                    ==> files@[k].depth() <= deepest,
            ignored <==> exists|k: int|
                0 <= k < i && (#[trigger] files@[k]).answer(root@, path@, is_dir) == Some(true)
                    && files@[k].depth() == deepest,
        decreases files@.len() - i,
    {
        let file = &files[i];
        match file.ask(root, path, is_dir) {
            Some(says) => {
                let parts = components(file.dir.as_str());
                let depth: usize = parts.len();
                assert(texts(parts@).len() == depth);
                assert(files@[i as int].answer(root@, path@, is_dir) == Some(says));
                assert(files@[i as int].depth() == depth);
                if !found || depth > deepest {
                    deepest = depth;
                    ignored = says;
                } else if depth == deepest && says {
                    ignored = true;
                }
                found = true;
            },
            None => {
                assert(files@[i as int].answer(root@, path@, is_dir) is None);
            },
        }
        i += 1;
    }
    ignored
}

/// A component is the name of a file or directory.
pub open spec fn is_name(c: Seq<char>) -> bool {
    c != "/"@ && c != "."@ && c != ".."@
}

/// A path up to its component number `n`.
pub open spec fn up_to(path: Seq<char>, n: int) -> Seq<char> {
    path.take(spans(path)[n].1)
}

/// The component number `n` of a path, a directory unless it is the last, is ignored by the
/// nearest file that says something about it.
pub open spec fn ignored_at(
    files: Seq<IgnoreFile>,
    root: Seq<char>,
    rel: Seq<char>,
    n: int,
) -> bool {
    let parts = components_of(rel);
    is_name(parts[n]) && nearest_ignores(files, root, up_to(rel, n), n + 1 < parts.len())
}

/// The `.ignore` files keep out a path relative to the project: they ignore it or a directory
/// above it.
pub open spec fn files_ignore(files: Seq<IgnoreFile>, root: Seq<char>, rel: Seq<char>) -> bool {
    exists|n: int| 0 <= n < components_of(rel).len() && #[trigger] ignored_at(files, root, rel, n)
}

/// Whether the `.ignore` files keep out a path relative to the project.
pub fn files_keep_out(files: &Vec<IgnoreFile>, root: &str, rel: &str) -> (r: bool)
    ensures
        r == files_ignore(files@, root@, rel@),
{
    let v = chars_of(rel);
    let s = component_spans(v.as_slice());
    let parts = components(rel);
    proof {
        lemma_spans(rel@);
    }
    assert(texts(parts@).len() == parts@.len());
    assert(as_ints(s@).len() == s@.len());
    let mut n: usize = 0;
    while n < parts.len()
        invariant
            n <= parts@.len() == s@.len(),
            v@ == rel@,
            as_ints(s@) == spans(rel@),
            texts(parts@) == components_of(rel@),
            forall|k: int|
                0 <= k < spans(rel@).len() ==> 0 <= (#[trigger] spans(rel@)[k]).0
                    < spans(rel@)[k].1 <= rel@.len(),
            forall|k: int| 0 <= k < n ==> !#[trigger] ignored_at(files@, root@, rel@, k),
        decreases parts@.len() - n,
    {
        assert(as_ints(s@)[n as int] == spans(rel@)[n as int]);
        assert(texts(parts@)[n as int] == parts@[n as int]@);
        assert(texts(parts@).len() == parts@.len());
        let c = parts[n].as_str();
        if !same_text(c, "/") && !same_text(c, ".") && !same_text(c, "..") {
            let path = string_of(v.as_slice(), 0, s[n].1);
            assert(path@ =~= up_to(rel@, n as int));
            if nearest_file_ignores(files, root, path.as_str(), n + 1 < parts.len()) {
                assert(ignored_at(files@, root@, rel@, n as int));
                return true;
            }
        }
        n += 1;
    }
    false
}

/// What the project's ignore files and the file system say about a path.
pub struct FileFacts {
    pub git: GitRules,
    /// The `.ignore` files of the project, or those above the path.
    pub ignore_files: Vec<IgnoreFile>,
    /// Whether the path is a regular file and not a link, and its size; nothing where it
    /// cannot be read.
    pub metadata: Option<(bool, u64)>,
    /// The first bytes of the file, if it can be read.
    pub head: Option<Vec<u8>>,
}

impl FileFacts {
    /// The first bytes as a sequence.
    pub open spec fn head_bytes(&self) -> Option<Seq<u8>> {
        match self.head {
            Some(b) => Some(b@),
            None => None,
        }
    }

    /// Git's rules or the `.ignore` files keep out a path relative to the project.
    pub open spec fn ignored(&self, root: Seq<char>, rel: Seq<char>) -> bool {
        self.git.ignores(root, rel) || files_ignore(self.ignore_files@, root, rel)
    }

    /// Whether the ignore files keep out a path relative to the project.
    fn keep_out(&self, root: &str, rel: &str) -> (r: bool)
        requires
            self.git.matchable(root@, rel@),
        ensures
            r == self.ignored(root@, rel@),
    {
        self.git.keep_out(root, rel) || files_keep_out(&self.ignore_files, root, rel)
    }
}

/// The rules of a filter.
pub struct FilterView {
    pub root: Seq<char>,
    /// Whether globs for the files to index were configured.
    pub has_whitelist: bool,
    /// The globs for the files to index that are in force.
    pub includes: Seq<Seq<char>>,
    /// The globs for the files not to index that are in force.
    pub ignores: Seq<Seq<char>>,
    pub respect_gitignore: bool,
    pub max_file_size: u64,
    pub include_extensions: Option<Seq<Seq<char>>>,
}

/// A path relative to the project: below the root without the root, elsewhere itself if it
/// is relative, else nothing.
pub open spec fn relative_to(root: Seq<char>, path: Seq<char>) -> Option<Seq<char>> {
    match stripped(path, root) {
        Some(rel) => Some(rel),
        None => if is_absolute(path) {
            None
        } else {
            Some(path)
        },
    }
}

impl FilterView {
    /// The rules that a configuration gives. Globs that cannot be built into a matcher are
    /// not in force.
    pub open spec fn of(root: Seq<char>, config: ConfigView) -> FilterView {
        let includes = match config.include_patterns {
            Some(p) => p,
            None => Seq::empty(),
        };
        FilterView {
            root,
            has_whitelist: includes.len() > 0,
            includes: if override_builds(includes) {
                includes
            } else {
                Seq::empty()
            },
            ignores: if gitignore_builds(config.ignore_patterns) {
                config.ignore_patterns
            } else {
                Seq::empty()
            },
            respect_gitignore: config.respect_gitignore,
            max_file_size: config.max_file_size,
            include_extensions: config.include_extensions,
        }
    }

    /// Globs for the files to index were configured, and none of those in force selects a
    /// relative path.
    pub open spec fn leaves_out(self, rel: Seq<char>) -> bool {
        self.has_whitelist && !(self.includes.len() > 0 && override_selects(
            self.root,
            self.includes,
            rel,
        ))
    }

    /// The globs for the files not to index hold of a relative path.
    pub open spec fn ignores_path(self, rel: Seq<char>) -> bool {
        self.ignores.len() > 0 && gitignore_ignores(self.root, self.ignores, rel)
    }

    /// The path alone does not keep a file out.
    pub open spec fn name_passes(self, rel: Seq<char>) -> bool {
        &&& !is_hidden(rel)
        &&& !self.leaves_out(rel)
        &&& !self.ignores_path(rel)
    }

    /// The matcher for the files not to index can be asked about the relative path, or need
    /// not be asked.
    pub open spec fn name_matchable(self, rel: Seq<char>) -> bool {
        ||| is_hidden(rel)
        ||| self.leaves_out(rel)
        ||| lines_matchable(self.root, self.ignores, rel)
    }

    /// Git's rules can be asked about the relative path, or do not matter.
    pub open spec fn facts_matchable(self, rel: Seq<char>, facts: &FileFacts) -> bool {
        !self.respect_gitignore || facts.git.matchable(self.root, rel)
    }

    /// Every matcher that has to be asked about the path can be asked.
    pub open spec fn matchable(self, path: Seq<char>, facts: &FileFacts) -> bool {
        relative_to(self.root, path) matches Some(rel) ==> {
            &&& self.name_matchable(rel)
            &&& self.name_passes(rel) ==> self.facts_matchable(rel, facts)
        }
    }

    /// The file is indexed.
    pub open spec fn accepts(self, path: Seq<char>, facts: &FileFacts) -> bool {
        relative_to(self.root, path) matches Some(rel) && self.name_passes(rel)
            && self.file_passes(path, rel, facts)
    }

    /// What the ignore files, the extension, the size and the contents say does not keep a
    /// file out.
    pub open spec fn file_passes(
        self,
        path: Seq<char>,
        rel: Seq<char>,
        facts: &FileFacts,
    ) -> bool {
        &&& !(self.respect_gitignore && facts.ignored(self.root, rel))
        &&& self.include_extensions matches Some(exts) ==> has_extension_of(path, exts)
        &&& facts.metadata matches Some(md) && md.0 && md.1 <= self.max_file_size
        &&& !(match extension_verdict(path) {
            Some(v) => v,
            None => content_verdict(facts.head_bytes()),
        })
    }
}

/// Decides which paths are indexed.
pub struct PathFilter {
    project_root: String,
    include_overrides: Override,
    has_whitelist: bool,
    ignore_patterns: Gitignore,
    has_ignores: bool,
    respect_gitignore: bool,
    max_file_size: u64,
    include_extensions: Option<Vec<String>>,
}

impl View for PathFilter {
    type V = FilterView;

    closed spec fn view(&self) -> FilterView {
        FilterView {
            root: self.project_root@,
            has_whitelist: self.has_whitelist,
            includes: override_globs(self.include_overrides),
            ignores: ignore_lines(self.ignore_patterns),
            respect_gitignore: self.respect_gitignore,
            max_file_size: self.max_file_size,
            include_extensions: optional_texts(self.include_extensions),
        }
    }
}

/// Copy a list of strings.
fn copy_strings(v: &Vec<String>) -> (r: Vec<String>)
    ensures
        texts(r@) == texts(v@),
{
    let mut out: Vec<String> = Vec::new();
    let mut i: usize = 0;
    while i < v.len()
        invariant
            i <= v@.len(),
            out@.len() == i,
            forall|k: int| 0 <= k < i ==> (#[trigger] out@[k])@ == v@[k]@,
        decreases v@.len() - i,
    {
        out.push(v[i].clone());
        i += 1;
    }
    assert(texts(out@) =~= texts(v@));
    out
}

impl PathFilter {
    /// The matchers were built for the filter's root.
    pub closed spec fn wf(&self) -> bool {
        &&& self@.includes.len() > 0 ==> override_root(self.include_overrides) == self@.root
        &&& self@.ignores.len() > 0 ==> ignore_root(self.ignore_patterns) == self@.root
        &&& self.has_ignores == (self@.ignores.len() > 0)
    }

    /// The filter of a project.
    pub fn new(project_root: &str, config: &SakuinConfig) -> (r: PathFilter)
        ensures
            r@ == FilterView::of(project_root@, config@),
            r.wf(),
    {
        let mut ib = new_override_builder(project_root);
        let mut has_whitelist = false;
        match &config.include_patterns {
            Some(list) => {
                let ghost all = texts(list@);
                let mut i: usize = 0;
                assert(all.take(0) =~= Seq::<Seq<char>>::empty());
                while i < list.len()
                    invariant
                        i <= list@.len() == all.len(),
                        all == texts(list@),
                        override_builder_root(ib) == project_root@,
                        override_builder_globs(ib) == all.take(i as int),
                    decreases list@.len() - i,
                {
                    add_override(&mut ib, list[i].as_str());
                    assert(all.take(i + 1) =~= all.take(i as int).push(all[i as int]));
                    i += 1;
                }
                assert(all.take(i as int) =~= all);
                has_whitelist = list.len() > 0;
            },
            None => {},
        }
        let include_overrides = match build_override(&ib) {
            Ok(o) => o,
            Err(_) => empty_override(),
        };
        let mut has_ignores = false;
        let ignore_patterns = match matcher_of(project_root, &config.ignore_patterns) {
            Some(g) => {
                has_ignores = config.ignore_patterns.len() > 0;
                g
            },
            None => empty_ignore(),
        };
        let include_extensions = match &config.include_extensions {
            Some(list) => Some(copy_strings(list)),
            None => None,
        };
        PathFilter {
            project_root: project_root.to_owned(),
            include_overrides,
            has_whitelist,
            ignore_patterns,
            has_ignores,
            respect_gitignore: config.respect_gitignore,
            max_file_size: config.max_file_size,
            include_extensions,
        }
    }

    /// The path relative to the project, if it can be indexed at all.
    pub fn relative(&self, path: &str) -> (r: Option<String>)
        ensures
            match r {
                Some(rel) => relative_to(self@.root, path@) == Some(rel@),
                None => relative_to(self@.root, path@) is None,
            },
    {
        match strip_prefix(path, self.project_root.as_str()) {
            Some(rel) => Some(rel),
            None => {
                let v = chars_of(path);
                if v.len() > 0 && v[0] == '/' {
                    None
                } else {
                    Some(path.to_owned())
                }
            },
        }
    }

    /// Whether the path relative to the project can be matched against the globs.
    pub fn can_match_name(&self, rel: &str) -> (r: bool)
        requires
            self.wf(),
        ensures
            r == self@.name_matchable(rel@),
    {
        has_hidden_component(rel) || self.is_left_out(rel) || !self.has_ignores || can_ask(
            self.project_root.as_str(),
            rel,
        )
    }

    /// Whether git's rules can be asked about the path relative to the project.
    pub fn can_match_facts(&self, rel: &str, facts: &FileFacts) -> (r: bool)
        ensures
            r == self@.facts_matchable(rel@, facts),
    {
        !self.respect_gitignore || facts.git.can_match(self.project_root.as_str(), rel)
    }

    /// Whether every matcher that has to be asked about the path can be asked.
    pub fn can_match(&self, path: &str, facts: &FileFacts) -> (r: bool)
        requires
            self.wf(),
        ensures
            r == self@.matchable(path@, facts),
    {
        match self.relative(path) {
            Some(rel) => self.can_match_name(rel.as_str()) && (!self.name_allowed(rel.as_str())
                || self.can_match_facts(rel.as_str(), facts)),
            None => true,
        }
    }

    /// Whether globs for the files to index were configured and none selects the path.
    fn is_left_out(&self, rel: &str) -> (r: bool)
        requires
            self.wf(),
        ensures
            r == self@.leaves_out(rel@),
    {
        self.has_whitelist && !override_match(&self.include_overrides, rel)
    }

    /// Whether the path relative to the project does not keep a file out.
    pub fn name_allowed(&self, rel: &str) -> (r: bool)
        requires
            self.wf(),
            self@.name_matchable(rel@),
        ensures
            r == self@.name_passes(rel@),
    {
        if has_hidden_component(rel) {
            return false;
        }
        if self.is_left_out(rel) {
            return false;
        }
        !ignore_match(&self.ignore_patterns, rel)
    }

    /// Whether what is known about a file does not keep it out.
    pub fn file_allowed(&self, path: &str, rel: &str, facts: &FileFacts) -> (r: bool)
        requires
            self@.facts_matchable(rel@, facts),
        ensures
            r == self@.file_passes(path@, rel@, facts),
    {
        if self.respect_gitignore && facts.keep_out(self.project_root.as_str(), rel) {
            return false;
        }
        match &self.include_extensions {
            Some(exts) => {
                if !extension_allowed(path, exts) {
                    return false;
                }
            },
            None => {},
        }
        match facts.metadata {
            Some((is_file, len)) => {
                if !is_file || len > self.max_file_size {
                    return false;
                }
            },
            None => {
                return false;
            },
        }
        match &facts.head {
            Some(b) => !is_likely_binary(path, Some(b.as_slice())),
            None => !is_likely_binary(path, None),
        }
    }

    /// Whether a file is indexed.
    pub fn is_indexable(&self, path: &str, facts: &FileFacts) -> (r: bool)
        requires
            self.wf(),
            self@.matchable(path@, facts),
        ensures
            r == self@.accepts(path@, facts),
    {
        match self.relative(path) {
            Some(rel) => self.name_allowed(rel.as_str()) && self.file_allowed(
                path,
                rel.as_str(),
                facts,
            ),
            None => false,
        }
    }

    /// Whether a file is indexed; nothing where a matcher cannot be asked about its path.
    pub fn try_is_indexable(&self, path: &str, facts: &FileFacts) -> (r: Option<bool>)
        requires
            self.wf(),
        ensures
            r == (if self@.matchable(path@, facts) {
                Some(self@.accepts(path@, facts))
            } else {
                None
            }),
    {
        if self.can_match(path, facts) {
            Some(self.is_indexable(path, facts))
        } else {
            None
        }
    }
}

/// What is never indexed: paths outside the project, hidden files, files that none of the
/// configured globs selects, files that a glob for those not to index holds of, files that
/// git's rules or the `.ignore` files keep out unless that is switched off, files that are too
/// large, files whose extension is not among the configured ones, and what cannot be read or
/// is not a file.
pub proof fn filter_keeps_out(filter: FilterView, path: Seq<char>, facts: &FileFacts)
    ensures
        relative_to(filter.root, path) is None ==> !filter.accepts(path, facts),
        relative_to(filter.root, path) matches Some(rel) && (is_hidden(rel) || filter.leaves_out(
            rel,
        ) || filter.ignores_path(rel)) ==> !filter.accepts(path, facts),
        filter.respect_gitignore && (relative_to(filter.root, path) matches Some(rel)
            && (facts.git.ignores(filter.root, rel) || files_ignore(
            facts.ignore_files@,
            filter.root,
            rel,
        ))) ==> !filter.accepts(path, facts),
        facts.metadata matches Some(md) && md.1 > filter.max_file_size ==> !filter.accepts(
            path,
            facts,
        ),
        filter.include_extensions matches Some(exts) && !has_extension_of(path, exts)
            ==> !filter.accepts(path, facts),
        !(facts.metadata matches Some(md) && md.0) ==> !filter.accepts(path, facts),
{
}

/// An `.ignore` file takes back what files further up ignore: where it says of a path that it
/// is not ignored and no other file as near says anything, the path is not ignored.
pub proof fn nearer_file_takes_back(
    files: Seq<IgnoreFile>,
    root: Seq<char>,
    path: Seq<char>,
    is_dir: bool,
    k: int,
)
    requires
        0 <= k < files.len(),
        files[k].answer(root, path, is_dir) == Some(false),
        forall|j: int|
            0 <= j < files.len() && j != k && (#[trigger] files[j]).answer(root, path, is_dir) is Some
                ==> files[j].depth() < files[k].depth(),
    ensures
        !nearest_ignores(files, root, path, is_dir),
{
}

/// An `.ignore` file ignores what files further up take back: where it says of a path that it
/// is ignored and no other file as near says anything, the path is ignored.
pub proof fn nearer_file_ignores(
    files: Seq<IgnoreFile>,
    root: Seq<char>,
    path: Seq<char>,
    is_dir: bool,
    k: int,
)
    requires
        0 <= k < files.len(),
        files[k].answer(root, path, is_dir) == Some(true),
        forall|j: int|
            0 <= j < files.len() && j != k && (#[trigger] files[j]).answer(root, path, is_dir) is Some
                ==> files[j].depth() < files[k].depth(),
    ensures
        nearest_ignores(files, root, path, is_dir),
{
}

/// Nothing below an ignored directory is taken back: whatever is said of the path itself, it
/// is kept out.
pub proof fn ignored_directory_keeps_out(
    files: Seq<IgnoreFile>,
    root: Seq<char>,
    rel: Seq<char>,
    n: int,
)
    requires
        0 <= n < components_of(rel).len() - 1,
        is_name(components_of(rel)[n]),
        nearest_ignores(files, root, up_to(rel, n), true),
    ensures
        files_ignore(files, root, rel),
{
    assert(ignored_at(files, root, rel, n));
}

/// Where the ignore files are switched off they do not matter: what they say about a file
/// does not change whether it is indexed.
pub proof fn gitignore_can_be_switched_off(
    filter: FilterView,
    path: Seq<char>,
    a: &FileFacts,
    b: &FileFacts,
)
    requires
        !filter.respect_gitignore,
        a.metadata == b.metadata,
        a.head == b.head,
    ensures
        filter.accepts(path, a) == filter.accepts(path, b),
{
}

/// A project without globs for the files to index and without globs for those not to index
/// keeps no path out by its name but hidden ones.
pub proof fn no_globs_reject_nothing(filter: FilterView, rel: Seq<char>)
    requires
        !filter.has_whitelist,
        filter.ignores.len() == 0,
    ensures
        filter.name_passes(rel) == !is_hidden(rel),
{
}

/// A path is hidden if one of its components starts with a dot and is more than `.` or `..`.
pub proof fn hidden_means_a_leading_dot(path: Seq<char>)
    ensures
        is_hidden(path) <==> exists|k: int|
            0 <= k < components_of(path).len() && (#[trigger] components_of(path)[k]).len() > 0
                && components_of(path)[k][0] == '.' && components_of(path)[k] != seq!['.']
                && components_of(path)[k] != seq!['.', '.'],
{
    reveal_strlit(".");
    reveal_strlit("..");
    assert("."@ =~= seq!['.']);
    assert(".."@ =~= seq!['.', '.']);
    let all = components_of(path);
    assert forall|k: int| 0 <= k < all.len() implies is_hidden_name(#[trigger] all[k]) == (all[k].len()
        > 0 && all[k][0] == '.' && all[k] != seq!['.'] && all[k] != seq!['.', '.']) by {
        let c = all[k];
        if c.len() > 0 {
            assert(c.take(1)[0] == c[0]);
            if c[0] == '.' {
                assert(c.take(1) =~= "."@);
            }
        }
    }
    if is_hidden(path) {
        let k = choose|k: int| 0 <= k < all.len() && is_hidden_name(#[trigger] all[k]);
        assert(all[k].len() > 0 && all[k][0] == '.');
    }
    if exists|k: int|
        0 <= k < all.len() && (#[trigger] all[k]).len() > 0 && all[k][0] == '.' && all[k] != seq!['.']
            && all[k] != seq!['.', '.'] {
        let k = choose|k: int|
            0 <= k < all.len() && (#[trigger] all[k]).len() > 0 && all[k][0] == '.' && all[k]
                != seq!['.'] && all[k] != seq!['.', '.'];
        assert(is_hidden_name(all[k]));
    }
}

/// An extension is allowed if it is one of the list, whatever the case. A file without one
/// has the empty extension.
pub proof fn extensions_are_compared_folded(path: Seq<char>, exts: Seq<Seq<char>>)
    ensures
        extension_of(path) matches Some(e) ==> (has_extension_of(path, exts) <==> exts.map_values(
            |x: Seq<char>| lowercase(x),
        ).contains(lowercase(e))),
        extension_of(path) is None ==> (has_extension_of(path, exts) <==> exts.map_values(
            |x: Seq<char>| lowercase(x),
        ).contains(Seq::empty())),
{
    let m = exts.map_values(|x: Seq<char>| lowercase(x));
    let e = folded_extension(path);
    if has_extension_of(path, exts) {
        let k = choose|k: int| 0 <= k < exts.len() && lowercase(#[trigger] exts[k]) == e;
        assert(m[k] == e);
    }
    if m.contains(e) {
        let k = choose|k: int| 0 <= k < m.len() && m[k] == e;
        assert(lowercase(exts[k]) == e);
    }
}

/// A path relative to the project: a file below the root is known by what stands behind the
/// root, a relative path by itself, and an absolute path elsewhere not at all.
pub proof fn files_are_known_relative_to_the_root(root: Seq<char>, path: Seq<char>)
    ensures
        is_plain_relative(path) ==> relative_to(root, joined(root, path)) == Some(path),
        !path_starts_with(path, root) && path.len() > 0 && path[0] == '/' ==> relative_to(
            root,
            path,
        ) is None,
        !path_starts_with(path, root) && (path.len() == 0 || path[0] != '/') ==> relative_to(
            root,
            path,
        ) == Some(path),
{
    if is_plain_relative(path) {
        join_strips_back(root, path);
    }
}

/// What the filter of a configuration accepts, stated from the configuration itself: a path
/// of the project that has no hidden part, is selected by the globs where some are given, is
/// not named by those for the files not to index, is not kept out by the ignore files where
/// they are respected, has a wanted extension, and is a regular text file that is not too
/// large.
pub proof fn filter_follows_the_configuration(
    root: Seq<char>,
    config: ConfigView,
    path: Seq<char>,
    facts: &FileFacts,
)
    ensures
        FilterView::of(root, config).accepts(path, facts) <==> {
            &&& relative_to(root, path) matches Some(rel)
            &&& !is_hidden(rel)
            &&& config.include_patterns matches Some(globs) ==> globs.len() == 0 || (
            override_builds(globs) && override_selects(root, globs, rel))
            &&& !(config.ignore_patterns.len() > 0 && gitignore_builds(config.ignore_patterns)
                && gitignore_ignores(root, config.ignore_patterns, rel))
            &&& config.respect_gitignore ==> !facts.git.ignores(root, rel) && !files_ignore(
                facts.ignore_files@,
                root,
                rel,
            )
            &&& config.include_extensions matches Some(exts) ==> has_extension_of(path, exts)
            &&& facts.metadata matches Some(md) && md.0 && md.1 <= config.max_file_size
            &&& extension_verdict(path) != Some(true)
            &&& extension_verdict(path) is None ==> !content_verdict(
                match facts.head {
                    Some(b) => Some(b@),
                    None => None,
                },
            )
        },
{
}

/// A configuration that respects ignore files keeps out whatever they name, whatever its
/// other fields are; one that does not is not concerned by them.
pub proof fn ignored_files_stay_out(
    root: Seq<char>,
    config: ConfigView,
    path: Seq<char>,
    rel: Seq<char>,
    facts: &FileFacts,
    others: &FileFacts,
)
    requires
        relative_to(root, path) == Some(rel),
    ensures
        config.respect_gitignore && facts.git.ignores(root, rel) ==> !FilterView::of(
            root,
            config,
        ).accepts(path, facts),
        config.respect_gitignore && files_ignore(facts.ignore_files@, root, rel)
            ==> !FilterView::of(root, config).accepts(path, facts),
        !config.respect_gitignore && facts.metadata == others.metadata && facts.head == others.head
            ==> FilterView::of(root, config).accepts(path, facts) == FilterView::of(
            root,
            config,
        ).accepts(path, others),
{
}

/// Git's rules keep a path out where the repository said so, or where the project is none and
/// the lines of its `.gitignore` file hold of it.
pub proof fn git_rules_are_what_git_said(rules: GitRules, root: Seq<char>, rel: Seq<char>)
    ensures
        rules matches GitRules::Repository(b) ==> rules.ignores(root, rel) == b,
        rules matches GitRules::Lines(l) ==> (rules.ignores(root, rel) <==> l@.len() > 0
            && gitignore_builds(texts(l@)) && gitignore_ignores(root, texts(l@), rel)),
        rules is Absent ==> !rules.ignores(root, rel),
{
}

/// An `.ignore` file says of each path below its directory what its lines say, and nothing of
/// any other, nor of the directory itself. Lines that cannot be built into a matcher say
/// nothing.
pub proof fn ignore_file_speaks_for_its_directory(
    file: IgnoreFile,
    root: Seq<char>,
    inner: Seq<char>,
    is_dir: bool,
)
    requires
        is_plain_relative(inner),
    ensures
        file.lines@.len() > 0 && gitignore_builds(texts(file.lines@)) && file.dir@.len() == 0
            ==> file.answer(root, inner, is_dir) == gitignore_answer(
            root,
            texts(file.lines@),
            joined(root, inner),
            is_dir,
        ),
        file.lines@.len() > 0 && gitignore_builds(texts(file.lines@)) && file.dir@.len() > 0
            ==> file.answer(root, joined(file.dir@, inner), is_dir) == gitignore_answer(
            joined(root, file.dir@),
            texts(file.lines@),
            joined(joined(root, file.dir@), inner),
            is_dir,
        ),
        file.lines@.len() == 0 || !gitignore_builds(texts(file.lines@)) ==> forall|path: Seq<char>|
            #[trigger] file.answer(root, path, is_dir) is None,
        forall|path: Seq<char>|
            !path_starts_with(path, file.dir@) || components_of(path) == components_of(file.dir@)
                ==> #[trigger] file.answer(root, path, is_dir) is None,
        file.depth() == components_of(file.dir@).len(),
{
    join_strips_back(file.dir@, inner);
    if file.dir@.len() == 0 {
        assert(file.dir@ =~= Seq::<char>::empty());
        assert(joined(file.dir@, inner) =~= inner);
    }
    assert(texts(file.lines@).len() == file.lines@.len());
}

/// The path up to a component has the components up to it.
pub proof fn path_up_to_a_component(rel: Seq<char>, n: int)
    requires
        0 <= n < components_of(rel).len(),
        rel.len() > 0 && rel[0] != '/',
    ensures
        components_of(up_to(rel, n)) == components_of(rel).take(n + 1),
{
    let e = spans(rel)[n].1;
    let p = up_to(rel, n);
    lemma_spans(rel);
    lemma_spans_up_to(rel, 0, n);
    assert(p[0] == rel[0]);
    assert(spans(p) == spans(rel).take(n + 1));
    assert forall|k: int| 0 <= k <= n implies components_of(p)[k] == components_of(rel)[k] by {
        let s = spans(rel)[k];
        assert(spans(p)[k] == s);
        assert(s.1 <= e) by {
            if k < n {
                assert(spans(rel)[k].1 <= spans(rel)[n].0);
            }
        }
        assert(p.subrange(s.0, s.1) =~= rel.subrange(s.0, s.1));
    }
    assert(components_of(p) =~= components_of(rel).take(n + 1));
}

/// A file is kept out by the `.ignore` files exactly where, for it or a directory above it,
/// the deepest file that says anything says that it is ignored. One file alone decides by
/// what it says.
pub proof fn one_ignore_file_decides(file: IgnoreFile, root: Seq<char>, rel: Seq<char>)
    requires
        rel.len() > 0 && rel[0] != '/',
    ensures
        files_ignore(seq![file], root, rel) <==> exists|n: int|
            {
                &&& 0 <= n < components_of(rel).len()
                &&& components_of(rel)[n] != seq!['.'] && components_of(rel)[n] != seq!['.', '.']
                &&& file.answer(root, #[trigger] up_to(rel, n), n + 1 < components_of(rel).len())
                    == Some(true)
            },
        !files_ignore(Seq::empty(), root, rel),
{
    reveal_strlit("/");
    reveal_strlit(".");
    reveal_strlit("..");
    assert("."@ =~= seq!['.']);
    assert(".."@ =~= seq!['.', '.']);
    let files = seq![file];
    let all = components_of(rel);
    lemma_spans_from(rel, 0);
    assert forall|n: int| 0 <= n < all.len() implies #[trigger] all[n] != "/"@ by {
        let s = spans(rel)[n];
        assert(spans_from(rel, 0)[n] == s);
        assert(all[n][0] == rel[s.0]);
        assert(rel[s.0] != '/');
        assert("/"@[0] == '/');
    }
    assert(files[0] == file);
    if files_ignore(files, root, rel) {
        let n = choose|n: int| 0 <= n < all.len() && #[trigger] ignored_at(files, root, rel, n);
        assert(file.answer(root, up_to(rel, n), n + 1 < all.len()) == Some(true));
    }
    if exists|n: int|
        {
            &&& 0 <= n < all.len()
            &&& all[n] != seq!['.'] && all[n] != seq!['.', '.']
            &&& file.answer(root, #[trigger] up_to(rel, n), n + 1 < all.len()) == Some(true)
        } {
        let n = choose|n: int|
            {
                &&& 0 <= n < all.len()
                &&& all[n] != seq!['.'] && all[n] != seq!['.', '.']
                &&& file.answer(root, #[trigger] up_to(rel, n), n + 1 < all.len()) == Some(true)
            };
        assert(all[n] != "/"@);
        assert(nearest_ignores(files, root, up_to(rel, n), n + 1 < all.len()));
        assert(ignored_at(files, root, rel, n));
    }
}

/// A file below an absolute root can always be asked about: for a relative path that does not
/// start with a `.` of its own the matcher sees the path itself, so that no filter and no
/// ignore file of the project is at a loss.
pub proof fn ordinary_paths_can_be_asked_about(
    root: Seq<char>,
    rel: Seq<char>,
    lines: Seq<Seq<char>>,
    config: ConfigView,
    facts: &FileFacts,
)
    requires
        root.len() > 0,
        root[0] == '/',
        rel.len() > 0,
        rel[0] != '/',
        rel[0] != '.',
    ensures
        matcher_sees(root, rel) == rel,
        !is_absolute(matcher_sees(root, rel)),
        lines_matchable(root, lines, rel),
        FilterView::of(root, config).name_matchable(rel),
        FilterView::of(root, config).facts_matchable(rel, facts),
        relative_to(root, rel) == Some(rel) ==> FilterView::of(root, config).matchable(rel, facts),
        is_plain_relative(rel) ==> FilterView::of(root, config).matchable(
            joined(root, rel),
            facts,
        ),
{
    if is_plain_relative(rel) {
        join_strips_back(root, rel);
    }
    reveal_strlit("./");
    if rel.len() >= 2 {
        assert(rel.take(2)[0] == rel[0]);
    }
    if root.len() >= 2 {
        assert(root.take(2)[0] == root[0]);
    }
    assert("./"@[0] == '.');
    if root.len() <= rel.len() {
        assert(rel.take(root.len() as int)[0] == rel[0]);
    }
}

} // verus!
