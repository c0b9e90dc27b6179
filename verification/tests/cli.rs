use sakuin::cli::{
    index_dir, render_result, still_shown, ColorWhen, HeadingWhen, Style,
};
use sakuin::types::{Score, SearchResult};

fn result(path: &str, line: u32, col: u32, snippet: &str) -> SearchResult {
    SearchResult {
        path: path.to_string(),
        line,
        col,
        snippet: snippet.to_string(),
        score: Score { needle_len: 0, snippet_len: 0, match_count: 0 },
    }
}

const PLAIN: Style = Style { color: false, heading: false };
const COLOUR: Style = Style { color: true, heading: false };
const GROUPED: Style = Style { color: false, heading: true };

#[test]
fn index_lies_below_the_root() {
    assert_eq!(index_dir("/p", None), "/p/.sakuin");
    assert_eq!(index_dir("/p", Some("/x")), "/x");
}

#[test]
fn style_follows_options_and_terminal() {
    for tty in [false, true] {
        for no_color in [false, true] {
            let auto = Style::resolve(ColorWhen::Auto, HeadingWhen::Auto, tty, no_color);
            assert_eq!(auto, Style { color: tty && !no_color, heading: tty });
            let on = Style::resolve(ColorWhen::Always, HeadingWhen::Always, tty, no_color);
            assert_eq!(on, Style { color: true, heading: true });
            let off = Style::resolve(ColorWhen::Never, HeadingWhen::Never, tty, no_color);
            assert_eq!(off, PLAIN);
        }
    }
}

#[test]
fn colours_wrap_texts() {
    assert_eq!(COLOUR.path("a"), "\x1b[35ma\x1b[0m");
    assert_eq!(COLOUR.line(12), "\x1b[32m12\x1b[0m");
    assert_eq!(COLOUR.col(0), "\x1b[32m0\x1b[0m");
    assert_eq!(PLAIN.path("a"), "a");
    assert_eq!(PLAIN.line(4294967295), "4294967295");
    assert_eq!(COLOUR.wrap("1", "x"), "\x1b[1mx\x1b[0m");
}

#[test]
fn matches_are_highlighted() {
    assert_eq!(
        COLOUR.highlight("Foo foofoo ä", "fOO"),
        "\x1b[1;31mFoo\x1b[0m \x1b[1;31mfoo\x1b[0m\x1b[1;31mfoo\x1b[0m ä"
    );
    assert_eq!(COLOUR.highlight("aaa", "aa"), "\x1b[1;31maa\x1b[0ma");
    assert_eq!(COLOUR.highlight("abc", "x"), "abc");
    assert_eq!(COLOUR.highlight("abc", ""), "abc");
    assert_eq!(COLOUR.highlight("Äb", "äb"), "Äb");
    assert_eq!(PLAIN.highlight("abc", "b"), "abc");
}

#[test]
fn blanks_around_the_query_are_not_looked_for() {
    let mut current = None;
    let r = result("a.rs", 1, 5, "let pool = 1;");
    assert_eq!(
        render_result(&COLOUR, &mut current, "  Pool ", &r),
        render_result(&COLOUR, &mut current, "Pool", &r)
    );
    assert!(render_result(&COLOUR, &mut current, "  Pool ", &r)
        .contains("let \x1b[1;31mpool\x1b[0m = 1;"));
    let both = Style { color: true, heading: true };
    assert!(render_result(&both, &mut current, "pool\t", &r).contains("\x1b[1;31mpool\x1b[0m"));
}

#[test]
fn removing_the_colours_gives_the_snippet_back() {
    for (snippet, needle) in [("use Std::std", "std"), ("aaaa", "a"), ("x", "x"), ("", "q")] {
        let shown = COLOUR.highlight(snippet, needle);
        let bare = shown.replace("\x1b[1;31m", "").replace("\x1b[0m", "");
        assert_eq!(bare, snippet);
    }
}

#[test]
fn results_stand_on_one_line() {
    let mut current = None;
    let r = result("src/pool.rs", 4, 5, "  thread_pool_size: usize,\n");
    assert_eq!(
        render_result(&PLAIN, &mut current, "thread_pool_size", &r),
        "src/pool.rs:4:5  thread_pool_size: usize,\n"
    );
    assert!(current.is_none());
    let named = result("src/pool.rs", 0, 0, "");
    assert_eq!(render_result(&PLAIN, &mut current, "pool", &named), "src/pool.rs:0:0  \n");
}

#[test]
fn results_are_grouped_by_file() {
    let mut current = None;
    let mut out = String::new();
    for r in [
        result("a.rs", 1, 2, "x"),
        result("a.rs", 3, 4, "y"),
        result("b.rs", 0, 0, ""),
        result("c.rs", 5, 6, "z"),
    ] {
        out.push_str(&render_result(&GROUPED, &mut current, "q", &r));
    }
    assert_eq!(out, "a.rs\n1:2:x\n3:4:y\n\nb.rs\n\nc.rs\n5:6:z\n");
    assert_eq!(current.as_deref(), Some("c.rs"));
}

#[test]
fn output_stops_at_the_limit() {
    assert_eq!(still_shown(0, 100, 7), 7);
    assert_eq!(still_shown(20, 0, 7), 7);
    assert_eq!(still_shown(20, 15, 7), 5);
    assert_eq!(still_shown(20, 20, 7), 0);
    assert_eq!(still_shown(20, 30, 7), 0);
    assert_eq!(still_shown(usize::MAX, usize::MAX - 1, usize::MAX), 1);
}
