use sakuin::project_config::{apply, project_config_path, ProjectConfig, PROJECT_CONFIG_FILE};
use sakuin::types::{default_log_level, SakuinConfig};

fn base() -> SakuinConfig {
    SakuinConfig::default()
}

fn strings(v: Option<&toml::Value>) -> Option<Vec<String>> {
    v.map(|v| {
        v.as_array()
            .unwrap()
            .iter()
            .map(|s| s.as_str().unwrap().to_string())
            .collect()
    })
}

fn parse(text: &str) -> ProjectConfig {
    let table: toml::Table = toml::from_str(text).unwrap();
    ProjectConfig {
        max_file_size: table.get("max_file_size").map(|v| v.as_integer().unwrap() as u64),
        ignore_patterns: strings(table.get("ignore_patterns")),
        include_patterns: strings(table.get("include_patterns")),
        include_extensions: strings(table.get("include_extensions")),
        respect_gitignore: table.get("respect_gitignore").map(|v| v.as_bool().unwrap()),
    }
}

#[test]
fn absent_fields_leave_base_untouched() {
    let mut cfg = base();
    let original = cfg.ignore_patterns.clone();
    let project = parse("max_file_size = 42");
    project.overlay(&mut cfg);
    assert_eq!(cfg.max_file_size, 42);
    assert_eq!(cfg.ignore_patterns, original);
}

#[test]
fn arrays_replace_rather_than_merge() {
    let mut cfg = base();
    let project = parse(r#"ignore_patterns = ["build", "vendor"]"#);
    project.overlay(&mut cfg);
    assert_eq!(cfg.ignore_patterns, vec!["build", "vendor"]);
}

#[test]
fn include_extensions_can_be_set() {
    let mut cfg = base();
    assert!(cfg.include_extensions.is_none());
    let project = parse(r#"include_extensions = ["go", "lua"]"#);
    project.overlay(&mut cfg);
    assert_eq!(
        cfg.include_extensions,
        Some(vec!["go".into(), "lua".into()])
    );
}

#[test]
fn include_patterns_can_be_set() {
    let mut cfg = base();
    assert!(cfg.include_patterns.is_none());
    let project = parse(r#"include_patterns = ["*", "src/**"]"#);
    project.overlay(&mut cfg);
    assert_eq!(
        cfg.include_patterns,
        Some(vec!["*".into(), "src/**".into()])
    );
}

#[test]
fn apply_is_noop_when_file_missing() {
    let mut cfg = base();
    let before = cfg.ignore_patterns.clone();
    apply(None, &mut cfg);
    assert_eq!(cfg.ignore_patterns, before);
}

#[test]
fn apply_overlays_existing_file() {
    let project = parse("respect_gitignore = false\nignore_patterns = [\"foo\"]\n");
    let mut cfg = base();
    apply(Some(project), &mut cfg);
    assert!(!cfg.respect_gitignore);
    assert_eq!(cfg.ignore_patterns, vec!["foo"]);
}

#[test]
fn empty_lists_are_set_values() {
    let mut cfg = base();
    cfg.log_file = Some("/tmp/log".into());
    let project = ProjectConfig {
        ignore_patterns: Some(vec![]),
        include_extensions: Some(vec![]),
        ..Default::default()
    };
    apply(Some(project), &mut cfg);
    assert!(cfg.ignore_patterns.is_empty());
    assert_eq!(cfg.include_extensions, Some(vec![]));
    assert!(cfg.include_patterns.is_none());
    assert_eq!(cfg.max_file_size, 1_048_576);
    assert_eq!(cfg.log_file.as_deref(), Some("/tmp/log"));
}

#[test]
fn defaults() {
    let cfg = SakuinConfig::default();
    assert_eq!(cfg.max_file_size, 1_048_576);
    assert_eq!(
        cfg.ignore_patterns,
        vec![
            "node_modules",
            "target",
            "dist",
            "*.min.js",
            "*.map",
            "package-lock.json",
            "yarn.lock"
        ]
    );
    assert!(cfg.respect_gitignore);
    assert_eq!(cfg.log_level, "info");
    assert_eq!(default_log_level(), "info");
    assert!(cfg.log_file.is_none());
    let mut same = SakuinConfig::default();
    ProjectConfig::default().overlay(&mut same);
    assert_eq!(same.ignore_patterns, cfg.ignore_patterns);
}

#[test]
fn the_file_lies_in_the_root() {
    assert_eq!(PROJECT_CONFIG_FILE, "sakuin.toml");
    assert_eq!(project_config_path("/p"), "/p/sakuin.toml");
    assert_eq!(project_config_path("/p/"), "/p/sakuin.toml");
}
