use sakuin::path_filter::{
    can_ask, extension_allowed, fallback_ignores, files_keep_out, has_hidden_component, FileFacts,
    GitRules, IgnoreFile, PathFilter,
};
use sakuin::types::SakuinConfig;

const ROOT: &str = "/project";

fn facts(contents: &[u8]) -> FileFacts {
    FileFacts {
        git: GitRules::Absent,
        ignore_files: vec![],
        metadata: Some((true, contents.len() as u64)),
        head: Some(contents[..contents.len().min(8192)].to_vec()),
    }
}

fn lines(text: &str) -> Vec<String> {
    text.lines().map(String::from).collect()
}

/// A repository with some ignore rules.
fn repository(rules: &str) -> git2::Repository {
    let repo = git2::Repository::from_odb(git2::Odb::new().unwrap()).unwrap();
    repo.add_ignore_rule(rules).unwrap();
    repo
}

/// What is known about a file of a project with a `.gitignore` file and no repository.
fn without_git(gitignore: &str, contents: &[u8]) -> FileFacts {
    FileFacts {
        git: GitRules::Lines(lines(gitignore)),
        ..facts(contents)
    }
}

/// What is known about a file of a project with an `.ignore` file in the directory `dir`.
fn with_ignore_file(dir: &str, text: &str) -> FileFacts {
    FileFacts {
        ignore_files: vec![IgnoreFile { dir: dir.to_string(), lines: lines(text) }],
        ..facts(b"x")
    }
}

fn indexable(filter: &PathFilter, rel: &str, f: &FileFacts) -> bool {
    let path = format!("{ROOT}/{rel}");
    assert!(filter.can_match(&path, f));
    assert_eq!(filter.try_is_indexable(&path, f), Some(filter.is_indexable(&path, f)));
    filter.is_indexable(&path, f)
}

fn no_patterns() -> SakuinConfig {
    SakuinConfig {
        ignore_patterns: vec![],
        ..Default::default()
    }
}

#[test]
fn rejects_gitignored_path_in_git_repo() {
    let repo = repository("/**/target/\n");
    let filter = PathFilter::new(ROOT, &no_patterns());
    let known = |rel: &str, contents: &[u8]| FileFacts {
        git: GitRules::Repository(repo.is_path_ignored(rel).unwrap()),
        ..facts(contents)
    };
    assert!(indexable(&filter, "src/main.rs", &known("src/main.rs", b"fn main() {}")));
    let rel = "application/target/site/report.html";
    assert!(!indexable(&filter, rel, &known(rel, b"<html/>")));
}

#[test]
fn rejects_gitignored_path_without_git() {
    let gitignore = "target/\n";
    let filter = PathFilter::new(ROOT, &no_patterns());
    assert!(indexable(&filter, "src/main.rs", &without_git(gitignore, b"x")));
    assert!(!indexable(&filter, "target/out.html", &without_git(gitignore, b"<html/>")));
}

#[test]
fn rejects_ignore_pattern_match() {
    let filter = PathFilter::new(ROOT, &SakuinConfig::default());
    assert!(indexable(&filter, "src/main.rs", &facts(b"x")));
    assert!(!indexable(&filter, "node_modules/foo/index.js", &facts(b"x")));
}

#[test]
fn rejects_hidden_paths() {
    let filter = PathFilter::new(ROOT, &SakuinConfig::default());
    assert!(indexable(&filter, "src/main.rs", &facts(b"x")));
    assert!(!indexable(&filter, ".env", &facts(b"SECRET=1")));
    assert!(!indexable(&filter, ".git/HEAD", &facts(b"ref: refs/heads/main")));
}

#[test]
fn rejects_oversized_files() {
    let filter = PathFilter::new(
        ROOT,
        &SakuinConfig {
            max_file_size: 100,
            ignore_patterns: vec![],
            respect_gitignore: false,
            ..Default::default()
        },
    );
    assert!(indexable(&filter, "small.rs", &facts(b"x")));
    assert!(!indexable(&filter, "big.rs", &facts(&[b'x'; 200])));
    assert!(indexable(&filter, "just.rs", &facts(&[b'x'; 100])));
}

#[test]
fn respects_include_extensions() {
    let filter = PathFilter::new(
        ROOT,
        &SakuinConfig {
            include_extensions: Some(vec!["rs".into()]),
            ignore_patterns: vec![],
            respect_gitignore: false,
            ..Default::default()
        },
    );
    assert!(indexable(&filter, "src/main.rs", &facts(b"x")));
    assert!(!indexable(&filter, "src/notes.txt", &facts(b"x")));
}

#[test]
fn disables_gitignore_when_respect_is_false() {
    let filter = PathFilter::new(
        ROOT,
        &SakuinConfig {
            respect_gitignore: false,
            ignore_patterns: vec![],
            ..Default::default()
        },
    );
    assert!(indexable(&filter, "target/keep.rs", &without_git("target/\n", b"x")));
    assert!(indexable(&filter, "gen/a.rs", &with_ignore_file("", "gen/\n")));
    let ignored = FileFacts { git: GitRules::Repository(true), ..facts(b"x") };
    assert!(indexable(&filter, "target/keep.rs", &ignored));
}

#[test]
fn rejects_what_an_ignore_file_names() {
    let filter = PathFilter::new(ROOT, &no_patterns());
    let root = with_ignore_file("", "gen/\n");
    assert!(!indexable(&filter, "gen/a.rs", &root));
    assert!(!indexable(&filter, "src/gen/a.rs", &root));
    assert!(indexable(&filter, "src/a.rs", &root));
    let mut both = with_ignore_file("", "gen/\n");
    both.git = GitRules::Lines(lines("target/\n"));
    assert!(!indexable(&filter, "gen/a.rs", &both));
    assert!(!indexable(&filter, "target/a.rs", &both));
    assert!(indexable(&filter, "src/a.rs", &both));
}

#[test]
fn ignore_files_hold_below_their_directory() {
    let filter = PathFilter::new(ROOT, &no_patterns());
    let sub = with_ignore_file("sub", "/out\n*.log\n");
    assert!(!indexable(&filter, "sub/out/a.rs", &sub));
    assert!(!indexable(&filter, "sub/x/a.log", &sub));
    assert!(indexable(&filter, "sub/x/out/a.rs", &sub));
    assert!(indexable(&filter, "out/a.rs", &sub));
    assert!(indexable(&filter, "a.log", &sub));
    assert!(indexable(&filter, "subway/a.log", &sub));
}

#[test]
fn the_nearest_ignore_file_decides() {
    let filter = PathFilter::new(ROOT, &no_patterns());
    let file = |dir: &str, text: &str| IgnoreFile { dir: dir.to_string(), lines: lines(text) };
    let known = |files: Vec<IgnoreFile>| FileFacts { ignore_files: files, ..facts(b"x") };
    for files in [
        vec![file("", "*.log\n"), file("sub", "!keep.log\n")],
        vec![file("sub", "!keep.log\n"), file("", "*.log\n")],
    ] {
        let f = known(files);
        assert!(indexable(&filter, "sub/keep.log", &f));
        assert!(indexable(&filter, "sub/deep/keep.log", &f));
        assert!(!indexable(&filter, "sub/other.log", &f));
        assert!(!indexable(&filter, "keep.log", &f));
    }
    let again = known(vec![
        file("", "*.log\n"),
        file("sub", "!keep.log\n"),
        file("sub/deep", "keep.log\n"),
    ]);
    assert!(!indexable(&filter, "sub/deep/keep.log", &again));
    assert!(indexable(&filter, "sub/keep.log", &again));
}

#[test]
fn nothing_below_an_ignored_directory_is_taken_back() {
    let filter = PathFilter::new(ROOT, &no_patterns());
    let f = FileFacts {
        ignore_files: vec![
            IgnoreFile { dir: String::new(), lines: lines("gen/\n") },
            IgnoreFile { dir: "gen".to_string(), lines: lines("!a.rs\n") },
        ],
        ..facts(b"x")
    };
    assert!(!indexable(&filter, "gen/a.rs", &f));
    assert!(!files_keep_out(&f.ignore_files, ROOT, "src/a.rs"));
    assert!(files_keep_out(&f.ignore_files, ROOT, "gen/a.rs"));
    assert_eq!(f.ignore_files[1].ask(ROOT, "gen/a.rs", false), Some(false));
    assert_eq!(f.ignore_files[1].ask(ROOT, "gen", true), None);
    assert_eq!(f.ignore_files[0].ask(ROOT, "gen", true), Some(true));
    assert_eq!(f.ignore_files[0].ask(ROOT, "gen", false), None);
}

#[test]
fn ignore_files_of_a_relative_project_are_anchored() {
    let files = vec![IgnoreFile { dir: String::new(), lines: lines("/x.rs\n") }];
    assert!(files_keep_out(&files, "src", "x.rs"));
    assert!(!files_keep_out(&files, "src", "src/x.rs"));
    assert!(files_keep_out(&files, ".", "x.rs"));
    assert!(files_keep_out(&files, "", "x.rs"));
    assert!(files_keep_out(&files, "/project/", "x.rs"));
}

#[test]
fn lines_of_ignore_files_are_matched() {
    assert!(can_ask(ROOT, "src/a.rs") && can_ask(ROOT, "/project/src/a.rs"));
    assert!(!can_ask(ROOT, "/other/a.rs"));
    assert!(!fallback_ignores(ROOT, &vec![], "a.rs"));
    assert!(fallback_ignores(ROOT, &lines("# all\n*.rs\n"), "src/a.rs"));
    assert!(!fallback_ignores(ROOT, &lines("*.rs\n!a.rs\n"), "src/a.rs"));
    assert!(fallback_ignores(ROOT, &lines("/a\n"), "a/b/c"));
    assert!(!fallback_ignores(ROOT, &lines("/a\n"), "b/a"));
}

#[test]
fn default_patterns_reach_any_depth() {
    let filter = PathFilter::new(ROOT, &SakuinConfig::default());
    for rel in [
        "a/target/x.rs",
        "dist/app.js",
        "web/app.min.js",
        "web/app.js.map",
        "yarn.lock",
        "sub/package-lock.json",
    ] {
        assert!(!indexable(&filter, rel, &facts(b"x")), "{rel}");
    }
    assert!(indexable(&filter, "targets/x.rs", &facts(b"x")));
}

#[test]
fn whitelist_rejects_what_no_glob_selects() {
    let with = |globs: &[&str]| {
        PathFilter::new(
            ROOT,
            &SakuinConfig {
                ignore_patterns: vec![],
                include_patterns: Some(globs.iter().map(|g| g.to_string()).collect()),
                ..Default::default()
            },
        )
    };
    let src = with(&["src/**"]);
    assert!(indexable(&src, "src/main.rs", &facts(b"x")));
    assert!(!indexable(&src, "docs/a.rs", &facts(b"x")));
    assert!(!indexable(&src, "build/out.rs", &facts(b"x")));
    let mixed = with(&["*.rs", "!docs/**"]);
    assert!(indexable(&mixed, "src/main.rs", &facts(b"x")));
    assert!(!indexable(&mixed, "docs/a.rs", &facts(b"x")));
    assert!(!indexable(&mixed, "src/a.md", &facts(b"x")));
    let exclusions = with(&["!docs/**"]);
    assert!(!indexable(&exclusions, "src/main.rs", &facts(b"x")));
    assert!(!indexable(&exclusions, "docs/a.rs", &facts(b"x")));
    assert!(indexable(&with(&[]), "docs/a.rs", &facts(b"x")));
}

#[test]
fn whitelist_that_does_not_build_rejects_everything() {
    let filter = PathFilter::new(
        ROOT,
        &SakuinConfig {
            ignore_patterns: vec![],
            include_patterns: Some(vec!["a[".into()]),
            ..Default::default()
        },
    );
    assert!(!indexable(&filter, "src/main.rs", &facts(b"x")));
    let open = PathFilter::new(
        ROOT,
        &SakuinConfig {
            ignore_patterns: vec![],
            include_patterns: Some(vec!["src/**".into()]),
            ..Default::default()
        },
    );
    assert!(indexable(&open, "src/main.rs", &facts(b"x")));
}

#[test]
fn paths_outside_the_project_are_rejected() {
    let filter = PathFilter::new(ROOT, &SakuinConfig::default());
    assert!(!filter.is_indexable("/other/main.rs", &facts(b"x")));
    assert!(filter.relative("/other/main.rs").is_none());
    assert_eq!(filter.relative("/project/a/b.rs").unwrap(), "a/b.rs");
    assert_eq!(filter.relative("a/b.rs").unwrap(), "a/b.rs");
    assert!(filter.is_indexable("a/b.rs", &facts(b"x")));
}

#[test]
fn unreadable_and_binary_files_are_rejected() {
    let filter = PathFilter::new(ROOT, &SakuinConfig::default());
    let mut f = facts(b"x");
    f.metadata = None;
    assert!(!indexable(&filter, "a.rs", &f));
    f.metadata = Some((false, 1));
    assert!(!indexable(&filter, "a.rs", &f));
    assert!(!indexable(&filter, "a.png", &facts(b"x")));
    assert!(!indexable(&filter, "noext", &facts(&[0, 1, 2])));
    assert!(indexable(&filter, "noext", &facts(b"text")));
    let mut g = facts(b"text");
    g.head = None;
    assert!(!indexable(&filter, "noext", &g));
}

#[test]
fn matcher_refuses_paths_with_a_leading_slash_left() {
    let filter = PathFilter::new("src", &SakuinConfig::default());
    assert!(!filter.can_match("src/src//x.rs", &facts(b"x")));
    assert_eq!(filter.try_is_indexable("src/src//x.rs", &facts(b"x")), None);
    assert!(filter.can_match("src/x.rs", &facts(b"x")));
    let dotted = PathFilter::new(ROOT, &SakuinConfig::default());
    assert!(!dotted.can_match(".//x.rs", &facts(b"x")));
    let none = PathFilter::new(ROOT, &no_patterns());
    assert!(none.can_match(".//x.rs", &facts(b"x")));
    assert!(!none.can_match(".//x.rs", &without_git("target/\n", b"x")));
    assert!(none.can_match(".//x.rs", &with_ignore_file("", "gen/\n")));
}

#[test]
fn names_that_are_rejected_anyway_need_no_matcher() {
    let filter = PathFilter::new(ROOT, &SakuinConfig::default());
    assert!(filter.can_match_name(".//.x.rs"));
    assert_eq!(filter.try_is_indexable(".//.x.rs", &facts(b"x")), Some(false));
    let narrow = PathFilter::new(
        ROOT,
        &SakuinConfig {
            include_patterns: Some(vec!["*.md".into()]),
            ..Default::default()
        },
    );
    assert_eq!(narrow.try_is_indexable(".//x.rs", &facts(b"x")), Some(false));
}

#[test]
fn extensions_are_compared_without_case() {
    let exts = vec!["RS".to_string(), "É".to_string()];
    assert!(extension_allowed("a/b.rs", &exts));
    assert!(extension_allowed("a/b.Rs", &exts));
    assert!(extension_allowed("a/b.é", &exts));
    assert!(!extension_allowed("a/b", &exts));
    assert!(extension_allowed("a/b", &vec![String::new()]));
    assert!(!extension_allowed("a/b.rs", &vec![]));
}

#[test]
fn dots_are_not_hidden_names() {
    assert!(!has_hidden_component("./a/../b"));
    assert!(has_hidden_component("a/.b/c"));
    assert!(has_hidden_component("..."));
    assert!(!has_hidden_component("a.b"));
}
