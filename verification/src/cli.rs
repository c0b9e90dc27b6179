//! How the command line shows results: colours, headings and highlighted matches.

use vstd::prelude::*;

use crate::text::{
    append_str, ascii_lower, chars_of, contains_text, decimal, decimal_digits, find_from,
    lower_chars, matches_at, same_text, string_of, trim, trimmed,
};
use crate::types::{optional_text, ResultView, SearchResult};

verus! {

/// The directory of the index of a project, unless another one is given.
pub fn index_dir(root: &str, override_: Option<&str>) -> (r: String)
    ensures
        r@ == (match override_ {
            Some(dir) => dir@,
            None => root@ + "/.sakuin"@,
        }),
{
    match override_ {
        Some(dir) => dir.to_owned(),
        None => {
            let mut s = root.to_owned();
            append_str(&mut s, "/.sakuin");
            s
        },
    }
}

/// When to use colours.
#[derive(Debug, Clone, Copy, PartialEq, Eq, Structural)]
pub enum ColorWhen {
    Auto,
    Always,
    Never,
}

/// When to group results by file.
#[derive(Debug, Clone, Copy, PartialEq, Eq, Structural)]
pub enum HeadingWhen {
    Auto,
    Always,
    Never,
}

/// How results are shown.
#[derive(Debug, Clone, Copy, PartialEq, Eq, Structural)]
pub struct Style {
    pub color: bool,
    pub heading: bool,
}

/// A text between the codes that switch a colour on and off.
pub open spec fn coloured(codes: Seq<char>, body: Seq<char>) -> Seq<char> {
    seq!['\x1b', '['] + codes + seq!['m'] + body + seq!['\x1b', '[', '0', 'm']
}

/// The first position from `i` on at which `needle` stands in `hay`, or -1.
pub open spec fn next_match(hay: Seq<char>, needle: Seq<char>, i: int) -> int
    decreases hay.len() + 1 - i,
{
    if i < 0 || i + needle.len() > hay.len() {
        -1
    } else if matches_at(hay, needle, i) {
        i
    } else {
        next_match(hay, needle, i + 1)
    }
}

/// A part of a snippet, and whether it is a match.
pub struct Part {
    pub text: Seq<char>,
    pub is_match: bool,
}

/// The parts of a snippet from position `i` on: matches of the needle, whatever the case of
/// ASCII letters, taken from left to right without overlap, and what stands between them.
pub open spec fn parts(snippet: Seq<char>, needle: Seq<char>, i: int) -> Seq<Part>
    decreases snippet.len() - i,
{
    let at = next_match(ascii_lower(snippet), ascii_lower(needle), i);
    if needle.len() == 0 || i < 0 || at < i || at + needle.len() > snippet.len() {
        seq![Part { text: snippet.skip(i), is_match: false }]
    } else {
        seq![
            Part { text: snippet.subrange(i, at), is_match: false },
            Part { text: snippet.subrange(at, at + needle.len()), is_match: true },
        ] + parts(snippet, needle, at + needle.len())
    }
}

/// The parts in a row.
pub open spec fn plain(p: Seq<Part>) -> Seq<char>
    decreases p.len(),
{
    if p.len() == 0 {
        Seq::empty()
    } else {
        p[0].text + plain(p.drop_first())
    }
}

/// The parts in a row, with the matches in colour.
pub open spec fn painted(p: Seq<Part>) -> Seq<char>
    decreases p.len(),
{
    if p.len() == 0 {
        Seq::empty()
    } else if p[0].is_match {
        coloured("1;31"@, p[0].text) + painted(p.drop_first())
    } else {
        p[0].text + painted(p.drop_first())
    }
}

/// A snippet with its matches in colour.
pub open spec fn highlighted(style: Style, snippet: Seq<char>, needle: Seq<char>) -> Seq<char> {
    if !style.color || needle.len() == 0 {
        snippet
    } else {
        painted(parts(snippet, needle, 0))
    }
}

proof fn lemma_next_match(hay: Seq<char>, needle: Seq<char>, i: int)
    requires
        0 <= i,
    ensures
        next_match(hay, needle, i) == -1 ==> forall|j: int| i <= j ==> !matches_at(hay, needle, j),
        next_match(hay, needle, i) != -1 ==> {
            &&& i <= next_match(hay, needle, i)
            &&& matches_at(hay, needle, next_match(hay, needle, i))
            &&& forall|j: int| i <= j < next_match(hay, needle, i) ==> !matches_at(hay, needle, j)
        },
    decreases hay.len() + 1 - i,
{
    if i + needle.len() <= hay.len() && !matches_at(hay, needle, i) {
        lemma_next_match(hay, needle, i + 1);
        assert forall|j: int|
            i <= j && (next_match(hay, needle, i) == -1 || j < next_match(
                hay,
                needle,
                i,
            )) implies !matches_at(hay, needle, j) by {
            if j > i {
                assert(i + 1 <= j);
            }
        }
    }
}

/// Put a text between colour codes.
fn append_coloured(s: &mut String, codes: &str, body: &str)
    ensures
        final(s)@ == old(s)@ + coloured(codes@, body@),
{
    let ghost before = s@;
    s.push('\x1b');
    s.push('[');
    append_str(s, codes);
    s.push('m');
    append_str(s, body);
    s.push('\x1b');
    s.push('[');
    s.push('0');
    s.push('m');
    assert(s@ =~= before + coloured(codes@, body@));
}

/// A text in colour where the style has colours.
pub open spec fn wrapped(style: Style, codes: Seq<char>, body: Seq<char>) -> Seq<char> {
    if style.color {
        coloured(codes, body)
    } else {
        body
    }
}

/// A number in decimal, in the colour of positions.
pub open spec fn position_text(style: Style, n: u32) -> Seq<char> {
    wrapped(style, "32"@, decimal(n as nat))
}

impl Style {
    /// The style for what was asked for. On `Auto` a terminal gets headings, and colours
    /// unless `no_color` says otherwise.
    pub fn resolve(
        color: ColorWhen,
        heading: HeadingWhen,
        is_tty: bool,
        no_color: bool,
    ) -> (r: Style)
        ensures
            r.color == (color == ColorWhen::Always || (color == ColorWhen::Auto && is_tty
                && !no_color)),
            r.heading == (heading == HeadingWhen::Always || (heading == HeadingWhen::Auto
                && is_tty)),
    {
        let color = match color {
            ColorWhen::Always => true,
            ColorWhen::Never => false,
            ColorWhen::Auto => is_tty && !no_color,
        };
        let heading = match heading {
            HeadingWhen::Always => true,
            HeadingWhen::Never => false,
            HeadingWhen::Auto => is_tty,
        };
        Style { color, heading }
    }

    /// A text in colour where the style has colours.
    pub fn wrap(&self, codes: &str, body: &str) -> (r: String)
        ensures
            r@ == wrapped(*self, codes@, body@),
    {
        if self.color {
            let mut s = String::new();
            append_coloured(&mut s, codes, body);
            assert(s@ =~= coloured(codes@, body@));
            s
        } else {
            body.to_owned()
        }
    }

    /// A path.
    pub fn path(&self, s: &str) -> (r: String)
        ensures
            r@ == wrapped(*self, "35"@, s@),
    {
        self.wrap("35", s)
    }

    /// A line number.
    pub fn line(&self, n: u32) -> (r: String)
        ensures
            r@ == position_text(*self, n),
    {
        let d = decimal_digits(n as u64);
        let s = string_of(d.as_slice(), 0, d.len());
        assert(s@ =~= decimal(n as nat));
        self.wrap("32", s.as_str())
    }

    /// A column number.
    pub fn col(&self, n: u32) -> (r: String)
        ensures
            r@ == position_text(*self, n),
    {
        self.line(n)
    }

    /// A snippet with its matches in colour. What is coloured is what the search matches:
    /// ASCII letters of either case are the same.
    pub fn highlight(&self, snippet: &str, needle: &str) -> (r: String)
        ensures
            r@ == highlighted(*self, snippet@, needle@),
    {
        let n = chars_of(needle);
        if !self.color || n.len() == 0 {
            return snippet.to_owned();
        }
        let v = chars_of(snippet);
        let needle_lc = lower_chars(n.as_slice());
        let hay_lc = lower_chars(v.as_slice());
        let len: usize = n.len();
        let mut out = String::new();
        let mut cursor: usize = 0;
        let ghost all = painted(parts(snippet@, needle@, 0));
        assert(out@ + all =~= all);
        let whole: usize = v.len();
        loop
            invariant_except_break
                out@ + painted(parts(snippet@, needle@, cursor as int)) == all,
            invariant
                v@ == snippet@,
                n@ == needle@,
                len == n@.len() > 0,
                whole == v@.len(),
                needle_lc@ == ascii_lower(needle@),
                hay_lc@ == ascii_lower(snippet@),
                cursor <= v@.len(),
            ensures
                out@ == all,
            decreases v@.len() - cursor,
        {
            let ghost rest = parts(snippet@, needle@, cursor as int);
            proof {
                lemma_next_match(hay_lc@, needle_lc@, cursor as int);
            }
            match find_from(hay_lc.as_slice(), needle_lc.as_slice(), cursor) {
                Some(start) => {
                    let end: usize = start + len;
                    let ghost before = out@;
                    proof {
                        let at = next_match(hay_lc@, needle_lc@, cursor as int);
                        assert(at == start) by {
                            if at == -1 {
                                assert(!matches_at(hay_lc@, needle_lc@, start as int));
                            } else if at < start {
                                assert(!matches_at(hay_lc@, needle_lc@, at));
                            } else if at > start {
                                assert(!matches_at(hay_lc@, needle_lc@, start as int));
                            }
                        }
                        let tail = parts(snippet@, needle@, end as int);
                        assert(rest[0] == Part {
                            text: snippet@.subrange(cursor as int, start as int),
                            is_match: false,
                        });
                        assert(rest.drop_first()[0] == Part {
                            text: snippet@.subrange(start as int, end as int),
                            is_match: true,
                        });
                        assert(rest.drop_first().drop_first() =~= tail);
                        assert(painted(rest) == rest[0].text + painted(rest.drop_first()));
                        assert(painted(rest.drop_first()) == coloured(
                            "1;31"@,
                            rest.drop_first()[0].text,
                        ) + painted(tail));
                    }
                    let between = string_of(v.as_slice(), cursor, start);
                    let found = string_of(v.as_slice(), start, end);
                    append_str(&mut out, between.as_str());
                    append_coloured(&mut out, "1;31", found.as_str());
                    let ghost next = painted(parts(snippet@, needle@, end as int));
                    assert(out@ + next =~= before + painted(rest));
                    cursor = end;
                },
                None => {
                    let tail = string_of(v.as_slice(), cursor, v.len());
                    let ghost before = out@;
                    proof {
                        let at = next_match(hay_lc@, needle_lc@, cursor as int);
                        assert(at == -1);
                        assert(rest =~= seq![
                            Part { text: snippet@.skip(cursor as int), is_match: false },
                        ]);
                        assert(painted(rest.drop_first()) =~= Seq::<char>::empty());
                        assert(painted(rest) =~= snippet@.skip(cursor as int));
                        assert(snippet@.skip(cursor as int) =~= snippet@.subrange(
                            cursor as int,
                            snippet@.len() as int,
                        ));
                    }
                    append_str(&mut out, tail.as_str());
                    assert(out@ =~= before + painted(rest));
                    break;
                },
            }
        }
        out
    }
}

/// Highlighting changes nothing of the text: the parts in a row are the snippet.
pub proof fn highlight_keeps_text(snippet: Seq<char>, needle: Seq<char>, i: int)
    requires
        0 <= i <= snippet.len(),
    ensures
        plain(parts(snippet, needle, i)) == snippet.skip(i),
    decreases snippet.len() - i,
{
    let p = parts(snippet, needle, i);
    let at = next_match(ascii_lower(snippet), ascii_lower(needle), i);
    if needle.len() == 0 || at < i || at + needle.len() > snippet.len() {
        assert(p.drop_first() =~= Seq::<Part>::empty());
        assert(plain(p.drop_first()) =~= Seq::<char>::empty());
        assert(plain(p) =~= snippet.skip(i));
    } else {
        let end = at + needle.len();
        highlight_keeps_text(snippet, needle, end);
        let tail = parts(snippet, needle, end);
        assert(p.drop_first().drop_first() =~= tail);
        assert(plain(p.drop_first()) == p.drop_first()[0].text + plain(tail));
        assert(plain(p) =~= snippet.skip(i));
    }
}

/// Every coloured part is a match of the needle, whatever the case of ASCII letters.
pub proof fn coloured_parts_match(snippet: Seq<char>, needle: Seq<char>, i: int, k: int)
    requires
        0 <= i <= snippet.len(),
        0 <= k < parts(snippet, needle, i).len(),
        parts(snippet, needle, i)[k].is_match,
    ensures
        ascii_lower(parts(snippet, needle, i)[k].text) == ascii_lower(needle),
    decreases snippet.len() - i,
{
    let p = parts(snippet, needle, i);
    let hay = ascii_lower(snippet);
    let low = ascii_lower(needle);
    let at = next_match(hay, low, i);
    if !(needle.len() == 0 || at < i || at + needle.len() > snippet.len()) {
        let end = at + needle.len();
        lemma_next_match(hay, low, i);
        if k >= 2 {
            assert(p[k] == parts(snippet, needle, end)[k - 2]);
            coloured_parts_match(snippet, needle, end, k - 2);
        } else {
            assert(k == 1);
            assert(p[1].text == snippet.subrange(at, end));
            assert(ascii_lower(snippet.subrange(at, end)) =~= hay.subrange(at, at + low.len()));
        }
    }
}

/// Nothing is left out: what stands between the coloured parts holds no match.
pub proof fn every_match_is_coloured(snippet: Seq<char>, needle: Seq<char>, i: int, k: int)
    requires
        0 <= i <= snippet.len(),
        needle.len() > 0,
        0 <= k < parts(snippet, needle, i).len(),
        !parts(snippet, needle, i)[k].is_match,
    ensures
        !contains_text(ascii_lower(parts(snippet, needle, i)[k].text), ascii_lower(needle)),
    decreases snippet.len() - i,
{
    let p = parts(snippet, needle, i);
    let hay = ascii_lower(snippet);
    let low = ascii_lower(needle);
    let at = next_match(hay, low, i);
    lemma_next_match(hay, low, i);
    let t = ascii_lower(p[k].text);
    if at == -1 {
        if contains_text(t, low) {
            let j = choose|j: int| matches_at(t, low, j);
            assert(t.subrange(j, j + low.len()) =~= hay.subrange(i + j, i + j + low.len()));
            assert(matches_at(hay, low, i + j));
        }
    } else {
        let end = at + needle.len();
        if k >= 2 {
            assert(p[k] == parts(snippet, needle, end)[k - 2]);
            every_match_is_coloured(snippet, needle, end, k - 2);
        } else {
            assert(k == 0);
            if contains_text(t, low) {
                let j = choose|j: int| matches_at(t, low, j);
                assert(t.subrange(j, j + low.len()) =~= hay.subrange(i + j, i + j + low.len()));
                assert(matches_at(hay, low, i + j));
            }
        }
    }
}

/// What is shown for one result when results are grouped by file: the path where it is a
/// new one, behind an empty line unless it is the first, and the line, unless the result
/// stands for the file's name. What the search looked for is highlighted: the query without
/// the blanks around it.
pub open spec fn grouped_text(
    style: Style,
    current: Option<Seq<char>>,
    query: Seq<char>,
    r: ResultView,
) -> Seq<char> {
    let head = if current == Some(r.path) {
        Seq::empty()
    } else {
        (if current is Some {
            seq!['\n']
        } else {
            Seq::empty()
        }) + wrapped(style, "35"@, r.path) + seq!['\n']
    };
    if r.line == 0 {
        head
    } else {
        head + position_text(style, r.line) + seq![':'] + position_text(style, r.col) + seq![':']
            + highlighted(style, trimmed(r.snippet), trimmed(query)) + seq!['\n']
    }
}

/// What is shown for one result on a line of its own. What the search looked for is
/// highlighted.
pub open spec fn single_text(style: Style, query: Seq<char>, r: ResultView) -> Seq<char> {
    wrapped(style, "35"@, r.path) + seq![':'] + position_text(style, r.line) + seq![':']
        + position_text(style, r.col) + seq![' ', ' '] + highlighted(
        style,
        trimmed(r.snippet),
        trimmed(query),
    ) + seq!['\n']
}

/// What is shown for one result.
pub open spec fn result_text(
    style: Style,
    current: Option<Seq<char>>,
    query: Seq<char>,
    r: ResultView,
) -> Seq<char> {
    if style.heading {
        grouped_text(style, current, query, r)
    } else {
        single_text(style, query, r)
    }
}

/// Whether `current` is the path `p`.
fn is_current(current: &Option<String>, p: &str) -> (r: bool)
    ensures
        r == (optional_text(*current) == Some(p@)),
{
    match current {
        Some(c) => same_text(c.as_str(), p),
        None => false,
    }
}

/// Show one result. `current` is the path of the group that was shown last.
pub fn render_result(
    style: &Style,
    current: &mut Option<String>,
    query: &str,
    result: &SearchResult,
) -> (r: String)
    ensures
        r@ == result_text(*style, optional_text(*old(current)), query@, result@),
        optional_text(*final(current)) == (if style.heading {
            Some(result.path@)
        } else {
            optional_text(*old(current))
        }),
{
    let mut out = String::new();
    let ghost before = optional_text(*current);
    let snippet = trim(result.snippet.as_str());
    let needle = trim(query);
    if style.heading {
        if !is_current(current, result.path.as_str()) {
            match current {
                Some(_) => {
                    out.push('\n');
                },
                None => {},
            }
            append_str(&mut out, style.path(result.path.as_str()).as_str());
            out.push('\n');
            *current = Some(result.path.clone());
        }
        if result.line == 0 {
            assert(out@ =~= result_text(*style, before, query@, result@));
            return out;
        }
        append_str(&mut out, style.line(result.line).as_str());
        out.push(':');
        append_str(&mut out, style.col(result.col).as_str());
        out.push(':');
    } else {
        append_str(&mut out, style.path(result.path.as_str()).as_str());
        out.push(':');
        append_str(&mut out, style.line(result.line).as_str());
        out.push(':');
        append_str(&mut out, style.col(result.col).as_str());
        out.push(' ');
        out.push(' ');
    }
    append_str(&mut out, style.highlight(snippet.as_str(), needle.as_str()).as_str());
    out.push('\n');
    assert(out@ =~= result_text(*style, before, query@, result@));
    out
}

/// How many results of the command line's output are still shown: all where `limit` is zero,
/// else as many as the limit leaves.
pub fn still_shown(limit: usize, shown: usize, batch: usize) -> (r: usize)
    ensures
        r == (if limit == 0 || shown + batch <= limit {
            batch as int
        } else if shown < limit {
            limit - shown
        } else {
            0
        }),
        r <= batch,
        limit > 0 && shown <= limit ==> shown + r <= limit,
{
    if limit == 0 {
        batch
    } else if shown >= limit {
        0
    } else if batch <= limit - shown {
        batch
    } else {
        limit - shown
    }
}

/// A text in colour stands between the escape code of the colour and the one that ends it;
/// a style without colours leaves it as it is.
pub proof fn colours_go_round_the_text(style: Style, codes: Seq<char>, body: Seq<char>)
    ensures
        style.color ==> wrapped(style, codes, body) == "\x1b["@ + codes + "m"@ + body + "\x1b[0m"@,
        !style.color ==> wrapped(style, codes, body) == body,
        coloured(codes, body) == "\x1b["@ + codes + "m"@ + body + "\x1b[0m"@,
{
    reveal_strlit("\x1b[");
    reveal_strlit("m");
    reveal_strlit("\x1b[0m");
    assert("\x1b["@ =~= seq!['\x1b', '[']);
    assert("m"@ =~= seq!['m']);
    assert("\x1b[0m"@ =~= seq!['\x1b', '[', '0', 'm']);
}

/// The parts of a snippet are shown one after the other, the matches in bold red and the rest
/// as it is.
pub proof fn matches_are_painted_red(p: Seq<Part>)
    ensures
        painted(p) == p.map_values(
            |x: Part|
                if x.is_match {
                    coloured("1;31"@, x.text)
                } else {
                    x.text
                },
        ).flatten(),
        plain(p) == p.map_values(|x: Part| x.text).flatten(),
    decreases p.len(),
{
    let f = |x: Part|
        if x.is_match {
            coloured("1;31"@, x.text)
        } else {
            x.text
        };
    let g = |x: Part| x.text;
    if p.len() > 0 {
        matches_are_painted_red(p.drop_first());
        assert(p.map_values(f).drop_first() =~= p.drop_first().map_values(f));
        assert(p.map_values(g).drop_first() =~= p.drop_first().map_values(g));
        assert(p.map_values(f).first() == f(p[0]));
        assert(p.map_values(g).first() == p[0].text);
    }
}

/// Where the needle stands once in a snippet, that place alone is painted; where it does not
/// stand, and in a style without colours, nothing is.
pub proof fn the_match_is_painted(style: Style, a: Seq<char>, m: Seq<char>, z: Seq<char>, needle: Seq<char>)
    requires
        needle.len() > 0,
        ascii_lower(m) == ascii_lower(needle),
        forall|j: int|
            matches_at(ascii_lower(a + m + z), ascii_lower(needle), j) ==> j == a.len(),
    ensures
        style.color ==> highlighted(style, a + m + z, needle) == a + coloured("1;31"@, m) + z,
        !style.color ==> highlighted(style, a + m + z, needle) == a + m + z,
{
    let s = a + m + z;
    let hay = ascii_lower(s);
    let low = ascii_lower(needle);
    let n = needle.len() as int;
    let at = a.len() as int;
    assert(ascii_lower(m).len() == m.len());
    assert(hay.subrange(at, at + n) =~= ascii_lower(m));
    assert(matches_at(hay, low, at));
    lemma_next_match(hay, low, 0);
    lemma_next_match(hay, low, at + n);
    assert(next_match(hay, low, 0) == at);
    assert(next_match(hay, low, at + n) == -1);
    let p = parts(s, needle, 0);
    let tail = parts(s, needle, at + n);
    assert(tail =~= seq![Part { text: s.skip(at + n), is_match: false }]);
    assert(p =~= seq![
        Part { text: s.subrange(0, at), is_match: false },
        Part { text: s.subrange(at, at + n), is_match: true },
        Part { text: s.skip(at + n), is_match: false },
    ]);
    assert(s.subrange(0, at) =~= a);
    assert(s.subrange(at, at + n) =~= m);
    assert(s.skip(at + n) =~= z);
    let q = p.drop_first();
    let r = q.drop_first();
    assert(r.drop_first() =~= Seq::<Part>::empty());
    assert(painted(r.drop_first()) =~= Seq::<char>::empty());
    assert(painted(r) =~= z);
    assert(q[0].is_match && q[0].text == m);
    assert(painted(q) == coloured("1;31"@, m) + painted(r));
    assert(painted(p) =~= a + coloured("1;31"@, m) + z);
}

/// A result on a line of its own: path, line, column, two blanks and the snippet. Without
/// colours these are the bare texts.
pub proof fn results_are_shown_on_one_line(query: Seq<char>, r: ResultView, heading: bool)
    ensures
        ({
            let style = Style { color: false, heading };
            single_text(style, query, r) == r.path + ":"@ + decimal(r.line as nat) + ":"@ + decimal(
                r.col as nat,
            ) + "  "@ + trimmed(r.snippet) + "\n"@
        }),
        ({
            let style = Style { color: true, heading };
            single_text(style, query, r) == coloured("35"@, r.path) + ":"@ + coloured(
                "32"@,
                decimal(r.line as nat),
            ) + ":"@ + coloured("32"@, decimal(r.col as nat)) + "  "@ + highlighted(
                style,
                trimmed(r.snippet),
                trimmed(query),
            ) + "\n"@
        }),
{
    reveal_strlit(":");
    reveal_strlit("  ");
    reveal_strlit("\n");
    assert(":"@ =~= seq![':']);
    assert("  "@ =~= seq![' ', ' ']);
    assert("\n"@ =~= seq!['\n']);
}

/// Results grouped by file: the path stands on a line of its own where it is a new one, with
/// an empty line before it unless it is the first; then line, column and snippet, unless the
/// result stands for the file's name.
pub proof fn results_are_shown_below_their_path(
    current: Option<Seq<char>>,
    query: Seq<char>,
    r: ResultView,
)
    ensures
        ({
            let style = Style { color: false, heading: true };
            let line = decimal(r.line as nat) + ":"@ + decimal(r.col as nat) + ":"@ + trimmed(
                r.snippet,
            ) + "\n"@;
            let shown = result_text(style, current, query, r);
            &&& current == Some(r.path) && r.line != 0 ==> shown == line
            &&& current == Some(r.path) && r.line == 0 ==> shown.len() == 0
            &&& current is None && r.line == 0 ==> shown == r.path + "\n"@
            &&& current is None && r.line != 0 ==> shown == r.path + "\n"@ + line
            &&& current is Some && current != Some(r.path) && r.line == 0 ==> shown == "\n"@ + r.path
                + "\n"@
            &&& current is Some && current != Some(r.path) && r.line != 0 ==> shown == "\n"@ + r.path
                + "\n"@ + line
        }),
        ({
            let style = Style { color: true, heading: true };
            let line = coloured("32"@, decimal(r.line as nat)) + ":"@ + coloured(
                "32"@,
                decimal(r.col as nat),
            ) + ":"@ + highlighted(style, trimmed(r.snippet), trimmed(query)) + "\n"@;
            let shown = result_text(style, current, query, r);
            &&& current == Some(r.path) && r.line != 0 ==> shown == line
            &&& current == Some(r.path) && r.line == 0 ==> shown.len() == 0
            &&& current is None && r.line == 0 ==> shown == coloured("35"@, r.path) + "\n"@
            &&& current is None && r.line != 0 ==> shown == coloured("35"@, r.path) + "\n"@ + line
            &&& current is Some && current != Some(r.path) && r.line == 0 ==> shown == "\n"@
                + coloured("35"@, r.path) + "\n"@
            &&& current is Some && current != Some(r.path) && r.line != 0 ==> shown == "\n"@
                + coloured("35"@, r.path) + "\n"@ + line
        }),
        forall|style: Style|
            !style.heading ==> #[trigger] result_text(style, current, query, r) == single_text(
                style,
                query,
                r,
            ),
{
    reveal_strlit(":");
    reveal_strlit("\n");
    assert(":"@ =~= seq![':']);
    assert("\n"@ =~= seq!['\n']);
    let plain_style = Style { color: false, heading: true };
    let red = Style { color: true, heading: true };
    let a = decimal(r.line as nat) + ":"@ + decimal(r.col as nat) + ":"@ + trimmed(r.snippet)
        + "\n"@;
    let b = coloured("32"@, decimal(r.line as nat)) + ":"@ + coloured("32"@, decimal(r.col as nat))
        + ":"@ + highlighted(red, trimmed(r.snippet), trimmed(query)) + "\n"@;
    let x = result_text(plain_style, current, query, r);
    let y = result_text(red, current, query, r);
    let c = coloured("35"@, r.path);
    if current == Some(r.path) {
        if r.line != 0 {
            assert(x =~= a);
            assert(y =~= b);
        }
    } else if current is None {
        if r.line == 0 {
            assert(x =~= r.path + "\n"@);
            assert(y =~= c + "\n"@);
        } else {
            assert(x =~= r.path + "\n"@ + a);
            assert(y =~= c + "\n"@ + b);
        }
    } else {
        if r.line == 0 {
            assert(x =~= "\n"@ + r.path + "\n"@);
            assert(y =~= "\n"@ + c + "\n"@);
        } else {
            assert(x =~= "\n"@ + r.path + "\n"@ + a);
            assert(y =~= "\n"@ + c + "\n"@ + b);
        }
    }
}

} // verus!
