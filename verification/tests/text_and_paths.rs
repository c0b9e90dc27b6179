use std::path::{Path, PathBuf};

use sakuin::binary_detect::{
    binary_by_content, binary_by_extension, is_likely_binary, PROBE_BYTES,
};
use sakuin::order::sort_unique;
use sakuin::paths::{
    components, extension, file_name, is_same_path, join, starts_with, strip_prefix,
};
use sakuin::text::{
    append_padded, decimal_digits, has_end, has_start, make_lowercase, same_text,
    to_ascii_lowercase, trim, white_space, word_char,
};

#[test]
fn character_classes_are_those_of_unicode() {
    for c in (0..=0x10ffffu32).filter_map(char::from_u32) {
        assert_eq!(white_space(c), c.is_whitespace(), "{c:?}");
        assert_eq!(word_char(c), c.is_alphanumeric(), "{c:?}");
    }
}

#[test]
fn lowercase_is_that_of_std() {
    for s in ["", "ABC x", "ÀÉ", "İ", "ΣΑΣ", "rs", "ẞ"] {
        assert_eq!(make_lowercase(s), s.to_lowercase());
        assert_eq!(to_ascii_lowercase(s), s.to_ascii_lowercase());
    }
}

#[test]
fn trimming_is_that_of_std() {
    for s in ["", "  ", " a ", "a b", "\u{3000}x\u{a0}\n", "x"] {
        assert_eq!(trim(s), s.trim());
    }
}

#[test]
fn ends_and_starts() {
    assert!(has_start("sakuin::git", "sakuin"));
    assert!(!has_start("saku", "sakuin"));
    assert!(has_end("x.swp", ".swp"));
    assert!(!has_end("swp", ".swp"));
    assert!(has_end("x", "") && has_start("", ""));
    assert!(same_text("é", "é") && !same_text("é", "e"));
}

#[test]
fn numbers_are_padded_with_zeros() {
    let cases: [(i64, usize); 9] = [
        (0, 0),
        (7, 2),
        (2026, 4),
        (123, 2),
        (-5, 4),
        (-5, 0),
        (-12345, 4),
        (i64::MIN, 30),
        (i64::MAX, 3),
    ];
    for (n, width) in cases {
        let mut s = String::new();
        append_padded(&mut s, n, width);
        assert_eq!(s, format!("{n:0width$}"));
    }
    let digits: String = decimal_digits(u64::MAX).into_iter().collect();
    assert_eq!(digits, u64::MAX.to_string());
}

const PATHS: [&str; 26] = [
    "", "/", "//", ".", "..", "./", "/.", "a", "a/", "/a", "a/b", "a//b", "a/./b", "./a", "a/..",
    "../a", "/a/b/c", "/a/b/", "a.rs", ".rs", "a.b.rs", "a/.x.y", "..rs", "a.", "./a//.", ".//a",
];

#[test]
fn paths_are_read_like_std_paths() {
    for p in PATHS {
        let std = Path::new(p);
        let expected: Vec<String> = std
            .components()
            .map(|c| c.as_os_str().to_string_lossy().to_string())
            .collect();
        assert_eq!(components(p), expected, "{p:?}");
        let name = std.file_name().map(|n| n.to_string_lossy().to_string());
        assert_eq!(file_name(p), name, "{p:?}");
        let ext = std.extension().map(|n| n.to_string_lossy().to_string());
        assert_eq!(extension(p), ext, "{p:?}");
        for q in PATHS {
            let other = Path::new(q);
            assert_eq!(join(p, q), std.join(other).to_string_lossy(), "{p:?} {q:?}");
            assert_eq!(starts_with(p, q), std.starts_with(other), "{p:?} {q:?}");
            assert_eq!(is_same_path(p, q), std == other, "{p:?} {q:?}");
            let rest = std
                .strip_prefix(other)
                .ok()
                .map(|r| r.to_string_lossy().to_string());
            assert_eq!(strip_prefix(p, q), rest, "{p:?} {q:?}");
        }
    }
}

#[test]
fn joined_paths_strip_back() {
    for root in ["/p", "/p/", "", "/", "a//b", "."] {
        for rel in ["x", "x/y.rs", "..", "x//y"] {
            assert_eq!(strip_prefix(&join(root, rel), root).unwrap(), rel, "{root} {rel}");
        }
    }
}

#[test]
fn sorting_is_that_of_std_paths() {
    let mut list: Vec<String> = Vec::new();
    for p in PATHS {
        for q in ["z", "é", "", "A", "~"] {
            list.push(join(p, q));
        }
    }
    list.push("a/b".into());
    let mut std: Vec<PathBuf> = list.iter().map(PathBuf::from).collect();
    std.sort();
    std.dedup();
    let sorted = sort_unique(&list);
    let as_paths: Vec<PathBuf> = sorted.iter().map(PathBuf::from).collect();
    assert_eq!(as_paths, std);
    let texts: Vec<String> = std.iter().map(|p| p.to_string_lossy().to_string()).collect();
    assert_eq!(sorted, texts);
    assert!(sort_unique(&vec![]).is_empty());
}

#[test]
fn extensions_decide_before_contents() {
    assert_eq!(binary_by_extension("a.PNG"), Some(true));
    assert_eq!(binary_by_extension("a.svg"), Some(true));
    assert_eq!(binary_by_extension("a.pyo"), Some(true));
    assert_eq!(binary_by_extension("a.rs"), Some(false));
    assert_eq!(binary_by_extension("a.mod"), Some(false));
    assert_eq!(binary_by_extension("a.unknown"), None);
    assert_eq!(binary_by_extension("Makefile"), None);
    assert!(is_likely_binary("a.png", Some(b"text")));
    assert!(!is_likely_binary("a.rs", Some(&[0, 0])));
    assert!(!is_likely_binary("a.rs", None));
}

#[test]
fn zero_bytes_make_a_file_binary() {
    assert!(binary_by_content(None));
    assert!(!binary_by_content(Some(b"")));
    let mut b = vec![b'x'; 1000];
    b[..3].fill(0);
    assert!(!binary_by_content(Some(&b)));
    b[3] = 0;
    assert!(binary_by_content(Some(&b)));
    assert!(binary_by_content(Some(&[0u8, 1, 2, 3, 0, 255, 128])));
    assert_eq!(PROBE_BYTES, 8192);
}
