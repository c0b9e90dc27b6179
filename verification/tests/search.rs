use sakuin::index::{
    build_schema, prepare_doc, FieldKind, FileContents, PreparedDoc, FIELD_BODY, FIELD_EXTENSION,
    FIELD_FILENAME, FIELD_MODIFIED, FIELD_PATH, FIELD_PATH_EXACT, FIELD_SIZE,
};
use sakuin::search::{
    alphanumeric_chunks, candidate_query, contains_ascii_ci, find_matching_lines, needle,
    needle_patterns, regex_escape, results_for_file, scan_document, search_streaming,
    select_candidates, CandidateQuery, Document, LineScan, SearchParams, SearchRun,
    CANCEL_CHECK_LINES,
};
use sakuin::state::{do_search_streaming, init, Engine};
use sakuin::types::{SakuinConfig, Score, SearchResult};
use tantivy::collector::TopDocs;
use tantivy::query::{AllQuery, BooleanQuery, Occur, Query, RegexQuery};
use tantivy::schema::{
    IndexRecordOption, Schema, TextFieldIndexing, TextOptions, Value, FAST, STORED, STRING,
};
use tantivy::tokenizer::{LowerCaser, RemoveLongFilter, SimpleTokenizer, TextAnalyzer};
use tantivy::{Index, TantivyDocument};

const ROOT: &str = "/project";

fn schema() -> Schema {
    let mut builder = Schema::builder();
    for field in build_schema() {
        let text = |tokenizer: &str| {
            TextFieldIndexing::default()
                .set_tokenizer(tokenizer)
                .set_index_option(IndexRecordOption::WithFreqsAndPositions)
        };
        match field.kind {
            FieldKind::CodeText => {
                let options = TextOptions::default()
                    .set_indexing_options(text("code"))
                    .set_stored();
                builder.add_text_field(field.name, options);
            }
            FieldKind::ExactText => {
                builder.add_text_field(field.name, STRING | STORED);
            }
            FieldKind::BodyText => {
                let options = TextOptions::default().set_indexing_options(text("default"));
                builder.add_text_field(field.name, options);
            }
            FieldKind::Number => {
                builder.add_u64_field(field.name, STORED | FAST);
            }
        }
    }
    builder.build()
}

fn document(schema: &Schema, doc: &PreparedDoc) -> TantivyDocument {
    let field = |name: &str| schema.get_field(name).unwrap();
    let mut d = TantivyDocument::default();
    d.add_text(field(FIELD_PATH), &doc.relative);
    d.add_text(field(FIELD_PATH_EXACT), &doc.relative);
    d.add_text(field(FIELD_FILENAME), &doc.filename);
    d.add_text(field(FIELD_EXTENSION), &doc.extension);
    d.add_text(field(FIELD_BODY), &doc.body);
    d.add_u64(field(FIELD_MODIFIED), doc.modified);
    d.add_u64(field(FIELD_SIZE), doc.size);
    d
}

/// An index in memory over some files.
struct Project {
    index: Index,
    files: Vec<(String, String)>,
}

fn setup_test_index(files: &[(&str, &str)]) -> Project {
    let index = Index::create_in_ram(schema());
    let analyzer = TextAnalyzer::builder(SimpleTokenizer::default())
        .filter(RemoveLongFilter::limit(100))
        .filter(LowerCaser)
        .build();
    index.tokenizers().register("code", analyzer);
    let mut writer = index.writer_with_num_threads(1, 20_000_000).unwrap();
    for (rel, contents) in files {
        let read = FileContents {
            body: contents.to_string(),
            modified: 1,
            size: contents.len() as u64,
        };
        let doc = prepare_doc(ROOT, &format!("{ROOT}/{rel}"), Ok(read)).unwrap();
        writer.add_document(document(&index.schema(), &doc)).unwrap();
    }
    writer.commit().unwrap();
    Project {
        index,
        files: files
            .iter()
            .map(|(p, c)| (p.to_string(), c.to_string()))
            .collect(),
    }
}

impl Project {
    /// The documents that the index proposes for a needle.
    fn candidates(&self, needle: &str) -> Vec<String> {
        let schema = self.index.schema();
        let fields = [FIELD_BODY, FIELD_PATH, FIELD_FILENAME].map(|f| schema.get_field(f).unwrap());
        let query: Box<dyn Query> = match candidate_query(needle) {
            CandidateQuery::AllDocuments => Box::new(AllQuery),
            CandidateQuery::AllOf(patterns) => {
                let mut all: Vec<(Occur, Box<dyn Query>)> = Vec::new();
                for p in patterns {
                    let mut any: Vec<(Occur, Box<dyn Query>)> = Vec::new();
                    for f in fields {
                        any.push((
                            Occur::Should,
                            Box::new(RegexQuery::from_pattern(&p, f).unwrap()),
                        ));
                    }
                    all.push((Occur::Must, Box::new(BooleanQuery::new(any))));
                }
                Box::new(BooleanQuery::new(all))
            }
        };
        let reader = self.index.reader().unwrap();
        let searcher = reader.searcher();
        let count = searcher.num_docs() as usize;
        let top = searcher
            .search(&query, &TopDocs::with_limit(count.max(1)).order_by_score())
            .unwrap();
        let path = schema.get_field(FIELD_PATH).unwrap();
        top.into_iter()
            .map(|(_, address)| {
                let doc: TantivyDocument = searcher.doc(address).unwrap();
                doc.get_first(path).and_then(|v| v.as_str()).unwrap().to_string()
            })
            .collect()
    }

    fn documents(&self, query: &str) -> Vec<Document> {
        let Some(n) = needle(query) else {
            return Vec::new();
        };
        self.candidates(&n)
            .into_iter()
            .map(|path| {
                let contents = self
                    .files
                    .iter()
                    .find(|(p, _)| *p == path)
                    .map(|(_, c)| c.as_bytes().to_vec());
                Document {
                    exists: contents.is_some(),
                    contents,
                    path,
                }
            })
            .collect()
    }

    fn search(&self, query: &str, limit: usize) -> Vec<SearchResult> {
        let documents = self.documents(query);
        let params = SearchParams {
            query_str: query,
            documents: &documents,
        };
        search_streaming(&params, limit).into_iter().flatten().collect()
    }
}

fn do_search(project: &Project, query: &str) -> Vec<SearchResult> {
    project.search(query, usize::MAX)
}

/// The rank of a result.
fn rank(s: &Score) -> f32 {
    if s.match_count == 0 {
        return 0.0;
    }
    let share = (s.needle_len as f32 / s.snippet_len.max(1) as f32).min(1.0);
    share + (s.match_count as f32).log2().max(0.0) / 10.0
}

#[test]
fn test_literal_match_exact() {
    let project = setup_test_index(&[("config.rs", "let env = ProductionConfig::new();\n")]);

    let results = do_search(&project, "ProductionConfig");
    assert!(!results.is_empty());
    assert_eq!(results[0].path, "config.rs");
}

#[test]
fn test_literal_match_substring() {
    let project = setup_test_index(&[("config.rs", "let env = ProductionConfig::new();\n")]);

    let results = do_search(&project, "Prod");
    assert!(
        !results.is_empty(),
        "Expected 'Prod' to match 'ProductionConfig'"
    );
}

#[test]
fn test_literal_match_case_insensitive() {
    let project = setup_test_index(&[("lower.rs", "let production = true;\n")]);

    let results = do_search(&project, "PROD");
    assert!(
        !results.is_empty(),
        "Expected 'PROD' to match 'production' case-insensitively"
    );
}

#[test]
fn test_literal_no_match() {
    let project = setup_test_index(&[("nope.rs", "let staging = true;\n")]);

    let results = do_search(&project, "prod");
    assert!(results.is_empty());
}

#[test]
fn test_threadpool_does_not_match_separate_words() {
    let project = setup_test_index(&[(
        "separate.rs",
        "let thread = spawn();\nlet pool = create();\n",
    )]);

    let results = do_search(&project, "threadPool");
    assert!(
        results.is_empty(),
        "Expected 'threadPool' to NOT match separate 'thread' and 'pool'"
    );
}

#[test]
fn test_threadpool_matches_contiguous() {
    let project = setup_test_index(&[("pool.rs", "let tp = threadPool::new(4);\n")]);

    let results = do_search(&project, "threadPool");
    assert!(!results.is_empty());
}

#[test]
fn test_snake_case_query() {
    let project = setup_test_index(&[("pool.rs", "let thread_pool = ThreadPool::new(4);\n")]);

    let results = do_search(&project, "thread_pool");
    assert!(!results.is_empty());
}

#[test]
fn test_screaming_snake_case_query() {
    let project = setup_test_index(&[("consts.rs", "const MAX_FILE_SIZE: usize = 1024;\n")]);

    let results = do_search(&project, "MAX_FILE_SIZE");
    assert!(!results.is_empty());
}

#[test]
fn test_phrase_matches_exact_adjacent_words() {
    let project = setup_test_index(&[(
        "docs.rs",
        "// asynchronous programming is fun\nlet asynchronous = 1;\nlet programming = 2;\n",
    )]);

    let results = do_search(&project, "asynchronous programming");
    assert_eq!(results.len(), 1, "Expected exactly 1 result for the phrase");
    assert!(results[0].snippet.contains("asynchronous programming"));
}

#[test]
fn test_phrase_does_not_match_words_on_separate_lines() {
    let project = setup_test_index(&[(
        "separate.rs",
        "let asynchronous = 1;\nlet programming = 2;\n",
    )]);

    let results = do_search(&project, "asynchronous programming");
    assert!(
        results.is_empty(),
        "Phrase should not match words on separate lines"
    );
}

#[test]
fn search_test_empty_query() {
    let project = setup_test_index(&[("a.rs", "hello\n")]);
    let results = do_search(&project, "");
    assert!(results.is_empty());
}

#[test]
fn test_whitespace_query() {
    let project = setup_test_index(&[("a.rs", "hello\n")]);
    let results = do_search(&project, "   ");
    assert!(results.is_empty());
}

#[test]
fn test_path_substring_match() {
    let project = setup_test_index(&[("src/production/config.rs", "// empty\n")]);

    let results = do_search(&project, "production");
    assert!(
        !results.is_empty(),
        "Expected 'production' to match the file path"
    );
}

#[test]
fn test_angle_bracket_query() {
    let project =
        setup_test_index(&[("math.rs", "fn normalize(v: Vec3<f32>) -> Vec3<f32> {}\n")]);

    let results = do_search(&project, "Vec3");
    assert!(!results.is_empty());
}

#[test]
fn test_double_colon_query() {
    let project =
        setup_test_index(&[("main.cpp", "#include <vector>\nstd::vector<int> v;\n")]);

    let results = do_search(&project, "std::vector");
    assert!(!results.is_empty());
}

#[test]
fn test_trailing_double_colon_query() {
    let project =
        setup_test_index(&[("lib.rs", "use std::ffi::CString;\nlet ffi = something();\n")]);

    let results = do_search(&project, "ffi::");
    assert!(
        !results.is_empty(),
        "Expected 'ffi::' to match line containing 'ffi::CString'"
    );
    assert_eq!(results.len(), 1, "Expected exactly 1 result for 'ffi::'");
    assert!(results[0].snippet.contains("ffi::CString"));
}

#[test]
fn test_trailing_punctuation_does_not_match_bare_word() {
    let project = setup_test_index(&[("bare.rs", "let foo = 42;\n")]);

    let results = do_search(&project, "foo::");
    assert!(
        results.is_empty(),
        "Expected 'foo::' to NOT match bare 'foo'"
    );
}

#[test]
fn test_exact_match_scores_highest() {
    let project = setup_test_index(&[(
        "mixed.rs",
        "use std::ffi::CString;\nffi::CString\nlet x = some_very_long_thing(ffi::CString, other);\n",
    )]);

    let results = do_search(&project, "ffi::CString");
    assert_eq!(results.len(), 3);
    let best = results
        .iter()
        .max_by(|a, b| rank(&a.score).total_cmp(&rank(&b.score)))
        .unwrap();
    assert_eq!(best.snippet, "ffi::CString");
}

#[test]
fn test_deleted_file_not_in_results() {
    let mut project = setup_test_index(&[
        ("src/config.rs", "let production = true;\n"),
        ("src/utils.rs", "fn helper() {}\n"),
    ]);

    project.files.retain(|(p, _)| p != "src/config.rs");

    let results = do_search(&project, "config");
    assert!(
        results.is_empty(),
        "Expected no results for a deleted file, got: {:?}",
        results.iter().map(|r| &r.path).collect::<Vec<_>>()
    );
}

#[test]
fn test_rare_substring_survives_bm25_candidate_cap() {
    let mut files = vec![("needle.rs".to_string(), "return \"Resumable\";\n".to_string())];
    for i in 0..50 {
        files.push((
            format!("noise_{i}.rs"),
            "return Result::Ok(());\n".repeat(200),
        ));
    }
    let refs: Vec<(&str, &str)> = files
        .iter()
        .map(|(p, c): &(String, String)| (p.as_str(), c.as_str()))
        .collect();
    let project = setup_test_index(&refs);

    let results = project.search("return \"Resu", 30);

    assert!(
        results.iter().any(|r| r.path == "needle.rs" && r.line != 0),
        "needle.rs missing from {:?}",
        results.iter().map(|r| &r.path).collect::<Vec<_>>()
    );
}

#[test]
fn test_pure_punctuation_query() {
    let project = setup_test_index(&[
        ("main.rs", "use std::collections::HashMap;\nlet x = 42;\n"),
        ("lib.rs", "fn helper() {}\n"),
    ]);

    let results = do_search(&project, "::");
    assert!(
        !results.is_empty(),
        "Expected '::' to match lines containing '::'"
    );
    assert_eq!(results[0].path, "main.rs");
    assert!(results[0].snippet.contains("::"));
    assert!(results.iter().all(|r| r.path == "main.rs"));
}

/// A project with the identifiers of several styles.
fn create_code_project() -> Project {
    setup_test_index(&[
        (
            "src/pool.rs",
            "use std::sync::Arc;\n\npub struct ThreadPool {\n    thread_pool_size: usize,\n    max_queue_length: usize,\n}\n\nimpl ThreadPool {\n    pub fn new(thread_pool_size: usize) -> Self {\n        Self { thread_pool_size, max_queue_length: 1024 }\n    }\n}\n",
        ),
        (
            "src/parser.rs",
            "pub fn parse_token(input: &str) -> Option<(Token, &str)> {\n    if input.starts_with('(') {\n        Some((Token::LParen, &input[1..]))\n    } else if input.starts_with(')') {\n        Some((Token::RParen, &input[1..]))\n    } else {\n        None\n    }\n}\n\npub enum Token {\n    LParen,\n    RParen,\n    Ident(String),\n}\n",
        ),
        (
            "src/handler.rs",
            "pub struct HttpRequestHandler {\n    baseUrl: String,\n    maxRetries: u32,\n}\n\nimpl HttpRequestHandler {\n    pub fn handleRequest(&self) -> Result<(), Error> {\n        todo!()\n    }\n\n    pub fn getBaseUrl(&self) -> &str {\n        &self.baseUrl\n    }\n}\n",
        ),
        (
            "src/math.rs",
            "pub struct Vec3<T> {\n    pub x: T,\n    pub y: T,\n    pub z: T,\n}\n\nimpl<T: std::ops::Add<Output = T>> Vec3<T> {\n    pub fn add(self, other: Vec3<T>) -> Vec3<T> {\n        Vec3 { x: self.x + other.x, y: self.y + other.y, z: self.z + other.z }\n    }\n}\n\npub type Vec3f = Vec3<f32>;\npub type HashMap<K, V> = std::collections::HashMap<K, V>;\n",
        ),
        (
            "src/config.rs",
            "pub const MAX_FILE_SIZE: usize = 1024 * 1024;\npub const DEFAULT_TIMEOUT_MS: u64 = 5000;\n",
        ),
        (
            "src/legacy.cpp",
            "#include <vector>\n#include <string>\n\nstd::vector<int> values;\nstd::string name;\n",
        ),
    ])
}

fn sync_search(project: &Project, query: &str) -> Vec<SearchResult> {
    let mut engine = Engine { state: None };
    init(&mut engine, ROOT, "/project/.sakuin", SakuinConfig::default(), None, Ok(())).unwrap();
    do_search_streaming(&engine, query, &project.documents(query))
        .unwrap()
        .into_iter()
        .flatten()
        .collect()
}

fn found_in(results: &[SearchResult], name: &str) -> bool {
    results.iter().any(|r| r.path.contains(name))
}

#[test]
fn integration_test_test_empty_query() {
    let results = sync_search(&create_code_project(), "");
    assert!(results.is_empty(), "Empty query should return no results");
}

#[test]
fn test_search_snake_case_identifier() {
    let results = sync_search(&create_code_project(), "thread_pool_size");
    assert!(
        !results.is_empty(),
        "Expected results for 'thread_pool_size'"
    );
    assert!(found_in(&results, "pool.rs"));
}

#[test]
fn test_search_snake_case_partial() {
    let results = sync_search(&create_code_project(), "thread_pool");
    assert!(!results.is_empty(), "Expected results for 'thread_pool'");
    assert!(found_in(&results, "pool.rs"));
}

#[test]
fn test_search_screaming_snake_case() {
    let results = sync_search(&create_code_project(), "MAX_FILE_SIZE");
    assert!(!results.is_empty(), "Expected results for 'MAX_FILE_SIZE'");
    assert!(found_in(&results, "config.rs"));
}

#[test]
fn test_search_screaming_snake_partial() {
    let results = sync_search(&create_code_project(), "DEFAULT_TIMEOUT");
    assert!(
        !results.is_empty(),
        "Expected results for 'DEFAULT_TIMEOUT'"
    );
}

#[test]
fn test_search_generic_type_plain() {
    let results = sync_search(&create_code_project(), "Vec3");
    assert!(!results.is_empty(), "Expected results for 'Vec3'");
    assert!(found_in(&results, "math.rs"));
}

#[test]
fn test_search_generic_type_with_angle_brackets() {
    let results = sync_search(&create_code_project(), "Vec3<");
    assert!(!results.is_empty(), "Expected results for 'Vec3<'");
}

#[test]
fn test_search_generic_type_with_param() {
    let results = sync_search(&create_code_project(), "Vec3<f32>");
    assert!(!results.is_empty(), "Expected results for 'Vec3<f32>'");
}

#[test]
fn test_search_empty_angle_brackets() {
    let results = sync_search(&create_code_project(), "Vec3<>");
    assert!(results.is_empty());
}

#[test]
fn test_search_double_colon() {
    let results = sync_search(&create_code_project(), "std::vector");
    assert!(!results.is_empty(), "Expected results for 'std::vector'");
    assert!(found_in(&results, "legacy.cpp"));
}

#[test]
fn test_search_double_colon_partial() {
    let results = sync_search(&create_code_project(), "std::string");
    assert!(!results.is_empty(), "Expected results for 'std::string'");
}

#[test]
fn test_search_rust_path_separator() {
    let results = sync_search(&create_code_project(), "std::sync::Arc");
    assert!(!results.is_empty(), "Expected results for 'std::sync::Arc'");
    assert!(found_in(&results, "pool.rs"));
}

#[test]
fn test_search_parentheses_not_advanced() {
    let results = sync_search(&create_code_project(), "parse_token");
    assert!(!results.is_empty(), "Expected results for 'parse_token'");
    assert!(found_in(&results, "parser.rs"));
}

#[test]
fn test_search_pascal_case() {
    let results = sync_search(&create_code_project(), "ThreadPool");
    assert!(!results.is_empty(), "Expected results for 'ThreadPool'");
    assert!(found_in(&results, "pool.rs"));
}

#[test]
fn test_search_camel_case() {
    let results = sync_search(&create_code_project(), "handleRequest");
    assert!(!results.is_empty(), "Expected results for 'handleRequest'");
    assert!(found_in(&results, "handler.rs"));
}

#[test]
fn test_search_camel_case_partial() {
    let results = sync_search(&create_code_project(), "baseUrl");
    assert!(!results.is_empty(), "Expected results for 'baseUrl'");
}

#[test]
fn test_search_multi_term_with_underscore() {
    let results = sync_search(&create_code_project(), "fn new(thread_pool_size");
    assert!(
        !results.is_empty(),
        "Expected results for 'fn new(thread_pool_size'"
    );
    assert!(found_in(&results, "pool.rs"));
}

#[test]
fn test_search_multi_term_mixed_styles() {
    let results = sync_search(&create_code_project(), "fn handleRequest");
    assert!(
        !results.is_empty(),
        "Expected results for 'fn handleRequest'"
    );
    assert!(found_in(&results, "handler.rs"));
}

#[test]
fn test_search_case_insensitive_snake() {
    let results = sync_search(&create_code_project(), "max_file_size");
    assert!(
        !results.is_empty(),
        "Expected results for 'max_file_size' matching MAX_FILE_SIZE"
    );
}

#[test]
fn test_search_case_insensitive_camel() {
    let results = sync_search(&create_code_project(), "httprequesthandler");
    assert!(
        !results.is_empty(),
        "Expected results for 'httprequesthandler' matching HttpRequestHandler"
    );
}

#[test]
fn test_search_no_match() {
    let results = sync_search(&create_code_project(), "zzz_nonexistent_identifier_zzz");
    assert!(
        results.is_empty(),
        "Expected no results for a nonexistent identifier"
    );
}

#[test]
fn test_search_whitespace_only() {
    let results = sync_search(&create_code_project(), "   ");
    assert!(
        results.is_empty(),
        "Whitespace-only query should return no results"
    );
}

#[test]
fn engine_that_is_not_set_up_does_not_search() {
    let engine = Engine { state: None };
    let e = do_search_streaming(&engine, "x", &vec![]).err().unwrap();
    assert_eq!(e, "sakuin not initialized");
}

#[test]
fn needle_is_trimmed_and_folded() {
    assert_eq!(needle("  Foo::BÄR\t").unwrap(), "foo::bÄr");
    assert!(needle("\u{2003}\n").is_none());
    assert!(needle("").is_none());
}

#[test]
fn words_of_a_needle() {
    assert_eq!(alphanumeric_chunks("std::vec_2<é>"), vec!["std", "vec", "2", "é"]);
    assert!(alphanumeric_chunks("::<>").is_empty());
    for c in ['_', '-', 'ª', '٣', '漢', 'Ⅷ', '²', '\u{301}'] {
        let chunks = alphanumeric_chunks(&c.to_string());
        assert_eq!(!chunks.is_empty(), c.is_alphanumeric(), "{c:?}");
    }
}

#[test]
fn special_characters_are_escaped() {
    assert_eq!(
        regex_escape("a\\.+*?()|[]{}^$<>b"),
        "a\\\\\\.\\+\\*\\?\\(\\)\\|\\[\\]\\{\\}\\^\\$\\<\\>b"
    );
    assert_eq!(regex_escape("plain é"), "plain é");
    assert_eq!(needle_patterns("foo::bar"), vec![".*foo.*", ".*bar.*"]);
}

#[test]
fn candidates_follow_the_words() {
    assert!(matches!(candidate_query("::"), CandidateQuery::AllDocuments));
    match candidate_query("foo bar") {
        CandidateQuery::AllOf(p) => assert_eq!(p, vec![".*foo.*", ".*bar.*"]),
        CandidateQuery::AllDocuments => unreachable!(),
    }
    let patterns = vec![".*a.*".to_string(), "(".to_string(), ".*b.*".to_string()];
    let marks: Vec<bool> = patterns
        .iter()
        .map(|p| RegexQuery::from_pattern(p, tantivy::schema::Field::from_field_id(0)).is_ok())
        .collect();
    assert_eq!(marks, vec![true, false, true]);
    match select_candidates(&patterns, &marks) {
        CandidateQuery::AllOf(p) => assert_eq!(p, vec![".*a.*", ".*b.*"]),
        CandidateQuery::AllDocuments => unreachable!(),
    }
}

#[test]
fn patterns_that_the_index_refuses_are_left_out() {
    for n in [1, 100, 10_000] {
        let word = "a".repeat(n);
        let pattern = format!(".*{word}.*");
        let field = tantivy::schema::Field::from_field_id(0);
        let taken = RegexQuery::from_pattern(&pattern, field).is_ok();
        match candidate_query(&word) {
            CandidateQuery::AllOf(p) => assert_eq!(p.len(), usize::from(taken), "{n}"),
            CandidateQuery::AllDocuments => unreachable!(),
        }
    }
}

#[test]
fn words_of_a_matching_needle_are_in_the_words_of_the_line() {
    let line = alphanumeric_chunks("let threadpool2 = std::sync::arc<x>;");
    for word in alphanumeric_chunks("pool2 = std::sy") {
        assert!(line.iter().any(|w| w.contains(&word)), "{word}");
    }
}

#[test]
fn lines_give_number_column_and_trimmed_text() {
    let found = find_matching_lines("x\n  Ä foo Foo \r\nFOO".as_bytes(), "foo");
    assert_eq!(
        found,
        vec![(2, 6, "Ä foo Foo".to_string()), (3, 1, "FOO".to_string())]
    );
    assert!(find_matching_lines(b"", "foo").is_empty());
}

#[test]
fn scan_stops_at_invalid_text() {
    let found = find_matching_lines(b"foo\nfoo \xff\nfoo\n", "foo");
    assert_eq!(found, vec![(1, 1, "foo".to_string())]);
}

#[test]
fn scan_pauses_before_every_check() {
    let text = "hit\n".repeat(1100);
    let needle: Vec<char> = "hit".chars().collect();
    let mut scan = LineScan::new();
    scan.scan_block(text.as_bytes(), &needle);
    assert!(!scan.finished());
    let early = scan.into_matches();
    assert_eq!(early.len(), CANCEL_CHECK_LINES as usize - 1);
    let mut scan = LineScan::new();
    let mut blocks = 0;
    while !scan.finished() {
        scan.scan_block(text.as_bytes(), &needle);
        blocks += 1;
    }
    assert_eq!(blocks, 3);
    let all = scan.into_matches();
    assert_eq!(all.len(), 1100);
    assert_eq!(all[..early.len()], early[..]);
}

#[test]
fn names_match_without_case() {
    assert!(contains_ascii_ci("src/ThreadPool.rs", "threadpool"));
    assert!(contains_ascii_ci("x", ""));
    assert!(!contains_ascii_ci("x", "xy"));
    assert!(!contains_ascii_ci("Ä", "ä"));
}

#[test]
fn name_results_have_no_line() {
    let r = results_for_file("src/Prod.rs", "prod", vec![], true);
    assert_eq!(r.len(), 1);
    assert_eq!((r[0].line, r[0].col), (0, 0));
    assert_eq!(r[0].snippet, "");
    assert_eq!(rank(&r[0].score), 0.0);
    assert!(results_for_file("src/Prod.rs", "prod", vec![], false).is_empty());
    assert!(results_for_file("src/x.rs", "prod", vec![], true).is_empty());
}

#[test]
fn scores_hold_what_ranks_a_result() {
    let doc = Document {
        path: "a.rs".into(),
        contents: Some(b"ab\nxxab\n".to_vec()),
        exists: true,
    };
    let r = scan_document(&doc, "ab");
    assert_eq!(r.len(), 2);
    assert_eq!(r[1].score, Score { needle_len: 2, snippet_len: 4, match_count: 2 });
    assert_eq!(rank(&r[0].score), 1.1);
    assert_eq!(rank(&r[1].score), 0.6);
}

#[test]
fn limit_holds_back_the_batch_that_exceeds_it() {
    let doc = |path: &str, n: usize| Document {
        path: path.to_string(),
        contents: Some("hit\n".repeat(n).into_bytes()),
        exists: true,
    };
    let documents = vec![doc("a", 2), doc("b", 3), doc("c", 1)];
    let run = |limit: usize| -> Vec<usize> {
        search_streaming(&SearchParams { query_str: "hit", documents: &documents }, limit)
            .iter()
            .map(|b| b.len())
            .collect()
    };
    assert_eq!(run(7), vec![2, 3, 1]);
    assert_eq!(run(6), vec![2, 3, 1]);
    assert_eq!(run(5), vec![2, 3]);
    assert_eq!(run(4), vec![2]);
    assert_eq!(run(2), vec![2]);
    assert_eq!(run(1), Vec::<usize>::new());
    assert_eq!(run(0), Vec::<usize>::new());
}

#[test]
fn a_single_result_reaches_a_limit_of_one() {
    let documents = vec![Document {
        path: "a.rs".to_string(),
        contents: Some(b"foo\n".to_vec()),
        exists: true,
    }];
    let batches = search_streaming(&SearchParams { query_str: "foo", documents: &documents }, 1);
    assert_eq!(batches.len(), 1);
    assert_eq!(batches[0].len(), 1);
    let r = &batches[0][0];
    assert_eq!((r.path.as_str(), r.line, r.col, r.snippet.as_str()), ("a.rs", 1, 1, "foo"));
}

#[test]
fn a_cancelled_run_hands_out_nothing() {
    let mut run = SearchRun::new(10);
    assert!(run.wants_document());
    run.record(3);
    assert!(run.deliver(3));
    run.cancel();
    assert!(!run.wants_document());
    run.record(1);
    assert!(!run.deliver(1));
}

#[test]
fn a_run_is_full_at_its_limit() {
    let mut run = SearchRun::new(2);
    run.record(2);
    assert!(!run.wants_document());
    assert!(run.deliver(2));
    assert!(run.can_record(1));
    run.record(1);
    assert!(!run.deliver(1));
    assert!(run.can_record(usize::MAX - 3));
    assert!(!run.can_record(usize::MAX - 2));
}

#[test]
fn spelling_of_the_query_and_order_of_files_do_not_matter() {
    let doc = |path: &str, text: &str| Document {
        path: path.to_string(),
        contents: Some(text.as_bytes().to_vec()),
        exists: true,
    };
    let run = |query: &str, documents: &Vec<Document>| {
        let mut found: Vec<(String, u32, u32, String)> =
            search_streaming(&SearchParams { query_str: query, documents }, usize::MAX)
                .into_iter()
                .flatten()
                .map(|r| (r.path, r.line, r.col, r.snippet))
                .collect();
        found.sort();
        found
    };
    let one = vec![doc("a", "Foo\nfoo bar\n"), doc("b", "x\n  FOO\n"), doc("c", "none\n")];
    let other = vec![doc("c", "none\n"), doc("b", "x\n  FOO\n"), doc("a", "Foo\nfoo bar\n")];
    let expected = run("foo", &one);
    assert_eq!(expected.len(), 3);
    assert_eq!(expected[2], ("b".to_string(), 2, 3, "FOO".to_string()));
    assert_eq!(run("  fOO\t", &one), expected);
    assert_eq!(run("FOO", &other), expected);
}
