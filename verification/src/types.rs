//! Values that the parts of the engine exchange.

use vstd::prelude::*;

use crate::text::texts;

verus! {

/// What a result is ranked by. The rank is the share of the snippet that the query covers
/// (at most one) plus a term that grows with the number of matching lines in the file.
#[derive(Debug, Clone, Copy, PartialEq, Eq, Structural)]
pub struct Score {
    /// Bytes of the query.
    pub needle_len: usize,
    /// Bytes of the snippet.
    pub snippet_len: usize,
    /// Matching lines in the file; zero for a result that stands for the file's name.
    pub match_count: usize,
}

/// One hit of a search. `line` and `col` count from one; a hit on the file's name has
/// line and column zero and an empty snippet.
#[derive(Debug, Clone)]
pub struct SearchResult {
    pub path: String,
    pub line: u32,
    pub col: u32,
    pub snippet: String,
    pub score: Score,
}

/// A result with its strings taken as texts.
pub struct ResultView {
    pub path: Seq<char>,
    pub line: u32,
    pub col: u32,
    pub snippet: Seq<char>,
    pub score: Score,
}

impl View for SearchResult {
    type V = ResultView;

    open spec fn view(&self) -> ResultView {
        ResultView {
            path: self.path@,
            line: self.line,
            col: self.col,
            snippet: self.snippet@,
            score: self.score,
        }
    }
}

/// How large the index is.
#[derive(Debug, Clone)]
pub struct IndexStats {
    pub num_docs: u64,
    pub num_segments: usize,
    pub index_size_bytes: u64,
    pub project_root: String,
}

/// What is indexed, and how much is logged.
#[derive(Debug, Clone)]
pub struct SakuinConfig {
    /// Larger files are not indexed.
    pub max_file_size: u64,
    /// Globs of files and directories that are not indexed.
    pub ignore_patterns: Vec<String>,
    /// If set and not empty, only files that match one of these globs are indexed.
    pub include_patterns: Option<Vec<String>>,
    /// If set, only files with one of these extensions are indexed.
    pub include_extensions: Option<Vec<String>>,
    /// Whether files that git's rules or an `.ignore` file name are left out.
    pub respect_gitignore: bool,
    /// The name of a log level.
    pub log_level: String,
    /// Where to log; if not set, nothing is written.
    pub log_file: Option<String>,
}

/// A configuration with its strings taken as texts.
#[verifier::ext_equal]
pub struct ConfigView {
    pub max_file_size: u64,
    pub ignore_patterns: Seq<Seq<char>>,
    pub include_patterns: Option<Seq<Seq<char>>>,
    pub include_extensions: Option<Seq<Seq<char>>>,
    pub respect_gitignore: bool,
    pub log_level: Seq<char>,
    pub log_file: Option<Seq<char>>,
}

/// The texts of a list that may be missing.
pub open spec fn optional_texts(v: Option<Vec<String>>) -> Option<Seq<Seq<char>>> {
    match v {
        Some(list) => Some(texts(list@)),
        None => None,
    }
}

/// The text of a string that may be missing.
pub open spec fn optional_text(v: Option<String>) -> Option<Seq<char>> {
    match v {
        Some(s) => Some(s@),
        None => None,
    }
}

impl View for SakuinConfig {
    type V = ConfigView;

    open spec fn view(&self) -> ConfigView {
        ConfigView {
            max_file_size: self.max_file_size,
            ignore_patterns: texts(self.ignore_patterns@),
            include_patterns: optional_texts(self.include_patterns),
            include_extensions: optional_texts(self.include_extensions),
            respect_gitignore: self.respect_gitignore,
            log_level: self.log_level@,
            log_file: optional_text(self.log_file),
        }
    }
}

/// The configuration of a project that sets nothing.
pub open spec fn default_config() -> ConfigView {
    ConfigView {
        max_file_size: 1_048_576,
        ignore_patterns: seq![
            "node_modules"@,
            "target"@,
            "dist"@,
            "*.min.js"@,
            "*.map"@,
            "package-lock.json"@,
            "yarn.lock"@,
        ],
        include_patterns: None,
        include_extensions: None,
        respect_gitignore: true,
        log_level: "info"@,
        log_file: None,
    }
}

/// The log level of a configuration that names none.
pub fn default_log_level() -> (r: String)
    ensures
        r@ == "info"@,
{
    "info".to_owned()
}

impl Default for SakuinConfig {
    fn default() -> (r: SakuinConfig)
        ensures
            r@ == default_config(),
    {
        let mut ignore: Vec<String> = Vec::new();
        ignore.push("node_modules".to_owned());
        ignore.push("target".to_owned());
        ignore.push("dist".to_owned());
        ignore.push("*.min.js".to_owned());
        ignore.push("*.map".to_owned());
        ignore.push("package-lock.json".to_owned());
        ignore.push("yarn.lock".to_owned());
        let r = SakuinConfig {
            max_file_size: 1_048_576,
            ignore_patterns: ignore,
            include_patterns: None,
            include_extensions: None,
            respect_gitignore: true,
            log_level: default_log_level(),
            log_file: None,
        };
        assert(r@.ignore_patterns =~= default_config().ignore_patterns);
        r
    }
}

/// A configuration that sets nothing: files up to one mebibyte, without dependencies, build
/// outputs, minified scripts, source maps and lock files, whatever their extension, with
/// ignore files respected and nothing logged.
pub proof fn default_configuration_is_this(p: Seq<char>)
    ensures
        default_config().max_file_size == 1024 * 1024,
        default_config().ignore_patterns.contains(p) <==> {
            ||| p == "node_modules"@
            ||| p == "target"@
            ||| p == "dist"@
            ||| p == "*.min.js"@
            ||| p == "*.map"@
            ||| p == "package-lock.json"@
            ||| p == "yarn.lock"@
        },
        default_config().include_patterns is None,
        default_config().include_extensions is None,
        default_config().respect_gitignore,
        default_config().log_level == "info"@,
        default_config().log_file is None,
{
    let l = default_config().ignore_patterns;
    assert(l[0] == "node_modules"@);
    assert(l[1] == "target"@);
    assert(l[2] == "dist"@);
    assert(l[3] == "*.min.js"@);
    assert(l[4] == "*.map"@);
    assert(l[5] == "package-lock.json"@);
    assert(l[6] == "yarn.lock"@);
}

/// What is missing stays missing when it is taken as text, what is there stays what it is.
pub proof fn optional_values_keep_what_they_hold(s: String, v: Vec<String>)
    ensures
        optional_text(Some(s)) == Some(s@),
        optional_text(None) is None,
        optional_texts(Some(v)) == Some(v@.map_values(|x: String| x@)),
        optional_texts(None) is None,
{
    assert(texts(v@) =~= v@.map_values(|x: String| x@));
}

/// A configuration is read field by field, each as it is set.
pub proof fn configurations_are_read_as_they_are(c: &SakuinConfig)
    ensures
        c@.max_file_size == c.max_file_size,
        c@.ignore_patterns == c.ignore_patterns@.map_values(|x: String| x@),
        c.include_patterns is Some == c@.include_patterns is Some,
        c.include_patterns is Some ==> c@.include_patterns->0 == c.include_patterns->0@.map_values(
            |x: String| x@,
        ),
        c.include_extensions is Some == c@.include_extensions is Some,
        c.include_extensions is Some ==> c@.include_extensions->0
            == c.include_extensions->0@.map_values(|x: String| x@),
        c@.respect_gitignore == c.respect_gitignore,
        c@.log_level == c.log_level@,
        c.log_file is Some == c@.log_file is Some,
        c.log_file is Some ==> c@.log_file->0 == c.log_file->0@,
{
    assert(texts(c.ignore_patterns@) =~= c.ignore_patterns@.map_values(|x: String| x@));
    if c.include_patterns is Some {
        let v = c.include_patterns->0;
        assert(texts(v@) =~= v@.map_values(|x: String| x@));
    }
    if c.include_extensions is Some {
        let v = c.include_extensions->0;
        assert(texts(v@) =~= v@.map_values(|x: String| x@));
    }
}

} // verus!
