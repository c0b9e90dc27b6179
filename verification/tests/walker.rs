use sakuin::path_filter::{FileFacts, GitRules, PathFilter};
use sakuin::types::SakuinConfig;
use sakuin::walker::{keeps_entry, walk_options, walk_overrides, walk_project, WalkEntry};

const ROOT: &str = "/project";

fn fixture() -> Vec<&'static str> {
    vec!["src/main.rs", "src/util.rs", "docs/readme.md", "build/out.rs"]
}

fn entry(rel: &str) -> WalkEntry {
    WalkEntry {
        path: format!("{ROOT}/{rel}"),
        is_file: true,
        size: Some(1),
        head: Some(b"x".to_vec()),
    }
}

/// Whether a walk comes to a file: neither it nor a directory above it is ignored.
fn reached(cfg: &SakuinConfig, rel: &str) -> bool {
    let Some(overrides) = walk_overrides(ROOT, cfg) else {
        return true;
    };
    let parts: Vec<&str> = rel.split('/').collect();
    for n in 1..=parts.len() {
        let is_dir = n < parts.len();
        let path = format!("{ROOT}/{}", parts[..n].join("/"));
        if overrides.matched(&path, is_dir).is_ignore() {
            return false;
        }
    }
    true
}

fn names(cfg: &SakuinConfig) -> Vec<String> {
    let entries: Vec<WalkEntry> = fixture()
        .into_iter()
        .filter(|rel| reached(cfg, rel))
        .map(entry)
        .collect();
    let mut v: Vec<String> = walk_project(cfg, &entries)
        .iter()
        .map(|p| p.strip_prefix("/project/").unwrap().to_string())
        .collect();
    v.sort();
    v
}

#[test]
fn no_whitelist_indexes_everything() {
    let cfg = SakuinConfig {
        respect_gitignore: false,
        ignore_patterns: vec![],
        ..Default::default()
    };
    assert_eq!(
        names(&cfg),
        [
            "build/out.rs",
            "docs/readme.md",
            "src/main.rs",
            "src/util.rs"
        ]
    );
}

#[test]
fn include_patterns_whitelist_prunes_non_matching() {
    let cfg = SakuinConfig {
        respect_gitignore: false,
        ignore_patterns: vec![],
        include_patterns: Some(vec!["src/**".into()]),
        ..Default::default()
    };
    assert_eq!(names(&cfg), ["src/main.rs", "src/util.rs"]);
}

#[test]
fn ignore_still_applies_on_top_of_whitelist() {
    let cfg = SakuinConfig {
        respect_gitignore: false,
        ignore_patterns: vec!["build".into()],
        include_patterns: Some(vec!["*".into()]),
        ..Default::default()
    };
    assert_eq!(
        names(&cfg),
        ["docs/readme.md", "src/main.rs", "src/util.rs"]
    );
}

#[test]
fn globs_are_handed_over_with_their_meaning_turned() {
    let cfg = SakuinConfig::default();
    let overrides = walk_overrides(ROOT, &cfg).unwrap();
    assert_eq!(overrides.num_ignores(), 7);
    assert_eq!(overrides.num_whitelists(), 0);
    assert!(overrides.matched("/project/target", true).is_ignore());
    assert!(overrides.matched("/project/src", true).is_none());
    let none = SakuinConfig {
        ignore_patterns: vec![],
        include_patterns: Some(vec![]),
        ..Default::default()
    };
    assert!(walk_overrides(ROOT, &none).is_none());
}

#[test]
fn git_options_follow_the_configuration() {
    let on = walk_options(&SakuinConfig::default());
    assert!(on.hidden && on.git_ignore && on.git_global && on.git_exclude && on.ignore);
    let off = walk_options(&SakuinConfig {
        respect_gitignore: false,
        ..Default::default()
    });
    assert!(off.hidden);
    assert!(!off.git_ignore && !off.git_global && !off.git_exclude && !off.ignore);
}

#[test]
fn walk_and_filter_ask_the_same() {
    let cfg = SakuinConfig {
        max_file_size: 10,
        include_extensions: Some(vec!["rs".into(), "".into()]),
        ..Default::default()
    };
    let filter = PathFilter::new(ROOT, &cfg);
    for rel in ["a.rs", "a.md", "noext", "a.png"] {
        for size in [1, 11] {
            for head in [Some(b"x".to_vec()), Some(vec![0]), None] {
                for is_file in [true, false] {
                    let e = WalkEntry {
                        path: format!("{ROOT}/{rel}"),
                        is_file,
                        size: Some(size),
                        head: head.clone(),
                    };
                    let facts = FileFacts {
                        git: GitRules::Repository(false),
                        ignore_files: vec![],
                        metadata: Some((is_file, size)),
                        head: head.clone(),
                    };
                    assert_eq!(keeps_entry(&cfg, &e), filter.file_allowed(&e.path, rel, &facts));
                }
            }
        }
    }
}

#[test]
fn entries_are_sifted() {
    let cfg = SakuinConfig {
        max_file_size: 10,
        include_extensions: Some(vec!["rs".into(), "".into()]),
        ..Default::default()
    };
    assert!(keeps_entry(&cfg, &entry("a.rs")));
    assert!(!keeps_entry(&cfg, &entry("a.md")));
    let mut e = entry("a.rs");
    e.is_file = false;
    assert!(!keeps_entry(&cfg, &e));
    let mut e = entry("a.rs");
    e.size = Some(11);
    assert!(!keeps_entry(&cfg, &e));
    e.size = None;
    assert!(keeps_entry(&cfg, &e));
    let mut e = entry("noext");
    assert!(keeps_entry(&cfg, &e));
    e.head = Some(vec![0; 10]);
    assert!(!keeps_entry(&cfg, &e));
    e.head = None;
    assert!(!keeps_entry(&cfg, &e));
}
