//! Literal search: from a query to the candidate query, and from the text of a candidate
//! file to the lines that match. The index only proposes candidates; the line scan decides.

use vstd::multiset::Multiset;
use vstd::prelude::*;
use vstd::utf8::{decode_utf8, encode_utf8, valid_utf8};

use crate::text::{
    append_chars, ascii_lower, ascii_lower_char, byte_len, byte_len_push, byte_len_take,
    bytes_before, chars_of, contains_text, encode_concat, find, first_match, is_white_space,
    is_word_char, lower_chars, marked, matches_at, string_of, text_is_cut_out,
    text_stands_where_it_is_put, texts, to_ascii_lowercase, trim, trim_end, trim_range, trim_start,
    trimmed, trimmed_is_span, trimming_undoes_padding, word_char,
};
use crate::types::{ResultView, Score, SearchResult};

verus! {

/// The error of `std::str::from_utf8`.
#[verifier::external_type_specification]
#[verifier::external_body]
pub struct ExUtf8Error(std::str::Utf8Error);

/// `std::str::from_utf8` accepts exactly the valid UTF-8 sequences, and the string it
/// returns consists of the bytes it was given.
pub assume_specification<'a>[ std::str::from_utf8 ](v: &'a [u8]) -> (r: Result<
    &'a str,
    std::str::Utf8Error,
>)
    ensures
        r is Ok <==> valid_utf8(v@),
        r matches Ok(s) ==> encode_utf8(s@) == v@,
;

/// Whether tantivy takes a pattern for a regular expression over terms.
pub uninterp spec fn regex_compiles(pattern: Seq<char>) -> bool;

/// `tantivy::query::RegexQuery::from_pattern` succeeds or fails by the pattern alone; the
/// field is only stored.
#[verifier::external_body]
fn pattern_compiles(pattern: &str) -> (r: bool)
    ensures
        r == regex_compiles(pattern@),
{
    let field = tantivy::schema::Field::from_field_id(0);
    tantivy::query::RegexQuery::from_pattern(pattern, field).is_ok()
}

/// What a query is searched for: the trimmed query with its ASCII letters folded.
pub open spec fn needle_of(query: Seq<char>) -> Seq<char> {
    ascii_lower(trimmed(query))
}

/// The text to search for, or nothing where the query holds only white space.
pub fn needle(query: &str) -> (r: Option<String>)
    ensures
        match r {
            Some(n) => n@ == needle_of(query@) && n@.len() > 0,
            None => trimmed(query@).len() == 0,
        },
{
    let t = trim(query);
    if t.as_str().is_empty() {
        None
    } else {
        Some(to_ascii_lowercase(t.as_str()))
    }
}

/// The end of the run of word characters that starts at `i`.
pub open spec fn run_end(s: Seq<char>, i: int) -> int
    decreases s.len() - i,
{
    if 0 <= i < s.len() && is_word_char(s[i]) {
        run_end(s, i + 1)
    } else {
        i
    }
}

/// The maximal runs of word characters from position `i` on.
pub open spec fn chunks_from(s: Seq<char>, i: int) -> Seq<Seq<char>>
    decreases s.len() - i,
{
    if i < 0 || i >= s.len() {
        Seq::empty()
    } else if is_word_char(s[i]) {
        proof {
            lemma_run_end(s, i + 1);
        }
        let e = run_end(s, i + 1);
        seq![s.subrange(i, e)] + chunks_from(s, e)
    } else {
        chunks_from(s, i + 1)
    }
}

/// The maximal runs of word characters of a text, in order.
pub open spec fn chunks(s: Seq<char>) -> Seq<Seq<char>> {
    chunks_from(s, 0)
}

/// Where a run of word characters ends: at the text's end or before the first other character.
pub proof fn lemma_run_end(s: Seq<char>, i: int)
    requires
        0 <= i <= s.len(),
    ensures
        i <= run_end(s, i) <= s.len(),
        forall|k: int| i <= k < run_end(s, i) ==> is_word_char(#[trigger] s[k]),
        run_end(s, i) < s.len() ==> !is_word_char(s[run_end(s, i)]),
    decreases s.len() - i,
{
    if i < s.len() && is_word_char(s[i]) {
        lemma_run_end(s, i + 1);
    }
}

/// Split a string into its maximal runs of word characters.
pub fn alphanumeric_chunks(s: &str) -> (r: Vec<String>)
    ensures
        texts(r@) == chunks(s@),
{
    let v = chars_of(s);
    let mut out: Vec<String> = Vec::new();
    let mut i: usize = 0;
    assert(texts(out@) + chunks_from(v@, 0) =~= chunks(v@));
    while i < v.len()
        invariant
            i <= v@.len(),
            texts(out@) + chunks_from(v@, i as int) == chunks(v@),
        decreases v@.len() - i,
    {
        if word_char(v[i]) {
            let mut e: usize = i + 1;
            proof {
                lemma_run_end(v@, i + 1);
            }
            while e < v.len() && word_char(v[e])
                invariant
                    i < e <= v@.len(),
                    run_end(v@, e as int) == run_end(v@, i + 1),
                decreases v@.len() - e,
            {
                e += 1;
            }
            let ghost before = out@;
            out.push(string_of(v.as_slice(), i, e));
            proof {
                assert(texts(out@) =~= texts(before).push(v@.subrange(i as int, e as int)));
                assert(texts(out@) + chunks_from(v@, e as int) =~= texts(before) + chunks_from(
                    v@,
                    i as int,
                ));
            }
            i = e;
        } else {
            i += 1;
        }
    }
    assert(texts(out@) + chunks_from(v@, i as int) =~= texts(out@));
    out
}

/// The characters that mean something to the regular expressions of the index.
pub open spec fn is_regex_special(c: char) -> bool {
    ||| c == '\\'
    ||| c == '.'
    ||| c == '+'
    ||| c == '*'
    ||| c == '?'
    ||| c == '('
    ||| c == ')'
    ||| c == '|'
    ||| c == '['
    ||| c == ']'
    ||| c == '{'
    ||| c == '}'
    ||| c == '^'
    ||| c == '$'
    ||| c == '<'
    ||| c == '>'
}

/// The text with a backslash before each special character.
pub open spec fn escaped(s: Seq<char>) -> Seq<char>
    decreases s.len(),
{
    if s.len() == 0 {
        Seq::empty()
    } else if is_regex_special(s.last()) {
        escaped(s.drop_last()).push('\\').push(s.last())
    } else {
        escaped(s.drop_last()).push(s.last())
    }
}

/// Escape the characters that are special in the regular expressions of the index.
pub fn regex_escape(literal: &str) -> (r: String)
    ensures
        r@ == escaped(literal@),
{
    let v = chars_of(literal);
    let mut out = String::new();
    let mut i: usize = 0;
    while i < v.len()
        invariant
            i <= v@.len(),
            out@ == escaped(v@.take(i as int)),
        decreases v@.len() - i,
    {
        let c: char = v[i];
        assert(v@.take(i + 1).drop_last() =~= v@.take(i as int));
        if c == '\\' || c == '.' || c == '+' || c == '*' || c == '?' || c == '(' || c == ')' || c
            == '|' || c == '[' || c == ']' || c == '{' || c == '}' || c == '^' || c == '$' || c
            == '<' || c == '>' {
            out.push('\\');
        }
        out.push(c);
        i += 1;
    }
    assert(v@.take(v@.len() as int) =~= v@);
    out
}

/// What a reader of an escaped text takes it for: a backslash stands for the character
/// after it.
pub open spec fn unescaped(s: Seq<char>) -> Seq<char>
    decreases s.len(),
{
    if s.len() == 0 {
        Seq::empty()
    } else if s[0] == '\\' && s.len() > 1 {
        seq![s[1]] + unescaped(s.skip(2))
    } else {
        seq![s[0]] + unescaped(s.skip(1))
    }
}

/// Escaping loses nothing: reading an escaped text gives the literal back.
pub proof fn escape_reads_back(s: Seq<char>)
    ensures
        unescaped(escaped(s)) == s,
    decreases s.len(),
{
    if s.len() > 0 {
        let c = s[0];
        let rest = s.drop_first();
        lemma_escape_front(s);
        escape_reads_back(rest);
        let e = escaped(s);
        if is_regex_special(c) {
            assert(e.skip(2) =~= escaped(rest));
            assert(e[0] == '\\' && e[1] == c);
        } else {
            assert(e.skip(1) =~= escaped(rest));
            assert(e[0] == c);
        }
        assert(seq![c] + rest =~= s);
    }
}

/// Escaping works character by character from the front as well.
proof fn lemma_escape_front(s: Seq<char>)
    requires
        s.len() > 0,
    ensures
        escaped(s) == (if is_regex_special(s[0]) {
            seq!['\\', s[0]]
        } else {
            seq![s[0]]
        }) + escaped(s.drop_first()),
    decreases s.len(),
{
    if s.len() == 1 {
        assert(s.drop_last() =~= Seq::empty());
        assert(s.drop_first() =~= Seq::empty());
        assert(escaped(s) =~= (if is_regex_special(s[0]) {
            seq!['\\', s[0]]
        } else {
            seq![s[0]]
        }) + escaped(s.drop_first()));
    } else {
        lemma_escape_front(s.drop_last());
        assert(s.drop_last().drop_first() =~= s.drop_first().drop_last());
        assert(s.drop_first().last() == s.last());
        assert(escaped(s) =~= (if is_regex_special(s[0]) {
            seq!['\\', s[0]]
        } else {
            seq![s[0]]
        }) + escaped(s.drop_first()));
    }
}

/// A text of word characters needs no escaping.
pub proof fn word_text_is_not_escaped(s: Seq<char>)
    requires
        forall|i: int| 0 <= i < s.len() ==> is_word_char(#[trigger] s[i]),
    ensures
        escaped(s) == s,
    decreases s.len(),
{
    if s.len() > 0 {
        let d = s.drop_last();
        assert forall|i: int| 0 <= i < d.len() implies is_word_char(#[trigger] d[i]) by {
            assert(d[i] == s[i]);
        }
        word_text_is_not_escaped(d);
        assert(is_word_char(s.last()));
        assert(d.push(s.last()) =~= s);
    }
}

/// The pattern that finds the terms with `chunk` inside.
pub open spec fn pattern_of(chunk: Seq<char>) -> Seq<char> {
    seq!['.', '*'] + escaped(chunk) + seq!['.', '*']
}

/// How the index is asked for candidates.
#[derive(Debug, Clone)]
pub enum CandidateQuery {
    /// Every document: the query holds no word.
    AllDocuments,
    /// The documents in which each pattern matches a term of the body, of the path or of
    /// the file name.
    AllOf(Vec<String>),
}

/// A candidate query with its patterns taken as texts.
pub enum CandidateView {
    AllDocuments,
    AllOf(Seq<Seq<char>>),
}

impl View for CandidateQuery {
    type V = CandidateView;

    open spec fn view(&self) -> CandidateView {
        match self {
            CandidateQuery::AllDocuments => CandidateView::AllDocuments,
            CandidateQuery::AllOf(v) => CandidateView::AllOf(texts(v@)),
        }
    }
}

/// The candidate query of a needle, given which of its patterns the index takes.
pub open spec fn candidates_of(needle: Seq<char>, marks: Seq<bool>) -> CandidateView {
    let c = chunks(needle);
    if c.len() == 0 {
        CandidateView::AllDocuments
    } else {
        CandidateView::AllOf(marked(Seq::new(c.len(), |i: int| pattern_of(c[i])), marks))
    }
}

/// Which patterns of a needle the index takes.
pub open spec fn pattern_marks(needle: Seq<char>) -> Seq<bool> {
    let c = chunks(needle);
    Seq::new(c.len(), |i: int| regex_compiles(pattern_of(c[i])))
}

/// The patterns of a needle, one for each of its words.
pub fn needle_patterns(needle: &str) -> (r: Vec<String>)
    ensures
        texts(r@) == Seq::new(chunks(needle@).len(), |i: int| pattern_of(chunks(needle@)[i])),
{
    let words = alphanumeric_chunks(needle);
    let ghost c = chunks(needle@);
    let mut out: Vec<String> = Vec::new();
    let mut i: usize = 0;
    while i < words.len()
        invariant
            i <= words@.len(),
            texts(words@) == c,
            out@.len() == i,
            forall|k: int| 0 <= k < i ==> (#[trigger] out@[k])@ == pattern_of(c[k]),
        decreases words@.len() - i,
    {
        assert(texts(words@)[i as int] == words@[i as int]@);
        let mut p = String::new();
        p.push('.');
        p.push('*');
        let e = regex_escape(words[i].as_str());
        let ev = chars_of(e.as_str());
        append_chars(&mut p, ev.as_slice());
        p.push('.');
        p.push('*');
        assert(p@ =~= pattern_of(c[i as int]));
        out.push(p);
        i += 1;
    }
    assert(texts(words@).len() == words@.len());
    assert(texts(out@) =~= Seq::new(c.len(), |k: int| pattern_of(c[k])));
    out
}

/// The candidate query of a needle whose patterns are `patterns`, where `marks` tells which
/// of them the index takes. A word whose pattern the index refuses does not restrict the
/// candidates.
pub fn select_candidates(patterns: &Vec<String>, marks: &Vec<bool>) -> (r: CandidateQuery)
    requires
        patterns@.len() == marks@.len(),
    ensures
        r@ == (if patterns@.len() == 0 {
            CandidateView::AllDocuments
        } else {
            CandidateView::AllOf(marked(texts(patterns@), marks@))
        }),
{
    if patterns.len() == 0 {
        return CandidateQuery::AllDocuments;
    }
    let mut out: Vec<String> = Vec::new();
    let mut i: usize = 0;
    let ghost all = texts(patterns@);
    assert(texts(out@) =~= marked(all.take(0), marks@.take(0)));
    while i < patterns.len()
        invariant
            i <= patterns@.len() == marks@.len(),
            all == texts(patterns@),
            texts(out@) == marked(all.take(i as int), marks@.take(i as int)),
        decreases patterns@.len() - i,
    {
        let ghost before = out@;
        proof {
            assert(all.take(i + 1).drop_last() =~= all.take(i as int));
            assert(marks@.take(i + 1).drop_last() =~= marks@.take(i as int));
        }
        if marks[i] {
            out.push(patterns[i].clone());
            assert(texts(out@) =~= texts(before).push(all[i as int]));
        }
        i += 1;
    }
    assert(all.take(i as int) =~= all);
    assert(marks@.take(i as int) =~= marks@);
    CandidateQuery::AllOf(out)
}

/// How the index is asked for the documents that may hold `needle`.
pub fn candidate_query(needle: &str) -> (r: CandidateQuery)
    ensures
        r@ == candidates_of(needle@, pattern_marks(needle@)),
{
    let patterns = needle_patterns(needle);
    let mut marks: Vec<bool> = Vec::new();
    let mut i: usize = 0;
    while i < patterns.len()
        invariant
            i <= patterns@.len(),
            marks@.len() == i,
            forall|k: int| 0 <= k < i ==> marks@[k] == regex_compiles(texts(patterns@)[k]),
        decreases patterns@.len() - i,
    {
        marks.push(pattern_compiles(patterns[i].as_str()));
        i += 1;
    }
    assert(texts(patterns@).len() == patterns@.len());
    assert(marks@ =~= pattern_marks(needle@));
    select_candidates(&patterns, &marks)
}

/// A stretch of word characters lies inside one of the chunks.
proof fn lemma_stretch_in_chunk(s: Seq<char>, i: int, x: int, y: int) -> (j: int)
    requires
        0 <= i <= x < y <= s.len(),
        forall|k: int| x <= k < y ==> is_word_char(#[trigger] s[k]),
    ensures
        0 <= j < chunks_from(s, i).len(),
        contains_text(chunks_from(s, i)[j], s.subrange(x, y)),
    decreases s.len() - i,
{
    if is_word_char(s[i]) {
        lemma_run_end(s, i + 1);
        let e = run_end(s, i + 1);
        if x < e {
            if e < y {
                assert(!is_word_char(s[e]));
            }
            let chunk = s.subrange(i, e);
            assert(chunk.subrange(x - i, x - i + s.subrange(x, y).len()) =~= s.subrange(x, y));
            assert(matches_at(chunk, s.subrange(x, y), x - i));
            assert(chunks_from(s, i)[0] == chunk);
            0
        } else {
            let j = lemma_stretch_in_chunk(s, e, x, y);
            assert(chunks_from(s, i)[j + 1] == chunks_from(s, e)[j]);
            j + 1
        }
    } else {
        lemma_stretch_in_chunk(s, i + 1, x, y)
    }
}

/// Each chunk is a stretch of word characters.
proof fn lemma_chunk_is_stretch(s: Seq<char>, i: int, j: int) -> (r: (int, int))
    requires
        0 <= i <= s.len(),
        0 <= j < chunks_from(s, i).len(),
    ensures
        i <= r.0 < r.1 <= s.len(),
        chunks_from(s, i)[j] == s.subrange(r.0, r.1),
        forall|k: int| r.0 <= k < r.1 ==> is_word_char(#[trigger] s[k]),
    decreases s.len() - i,
{
    if is_word_char(s[i]) {
        lemma_run_end(s, i + 1);
        let e = run_end(s, i + 1);
        if j == 0 {
            (i, e)
        } else {
            assert(chunks_from(s, i)[j] == chunks_from(s, e)[j - 1]);
            lemma_chunk_is_stretch(s, e, j - 1)
        }
    } else {
        lemma_chunk_is_stretch(s, i + 1, j)
    }
}

/// `part` stands inside one of the texts of `list`.
pub open spec fn inside_some(list: Seq<Seq<char>>, part: Seq<char>) -> bool {
    exists|j: int| 0 <= j < list.len() && contains_text(#[trigger] list[j], part)
}

/// The candidate query misses no file: where a text holds the needle, each word of the
/// needle stands inside one of the text's own words.
pub proof fn words_of_needle_are_in_text(text: Seq<char>, needle: Seq<char>)
    requires
        contains_text(text, needle),
    ensures
        forall|k: int|
            0 <= k < chunks(needle).len() ==> inside_some(
                chunks(text),
                #[trigger] chunks(needle)[k],
            ),
{
    let at = choose|i: int| matches_at(text, needle, i);
    assert forall|k: int| 0 <= k < chunks(needle).len() implies inside_some(
        chunks(text),
        #[trigger] chunks(needle)[k],
    ) by {
        let (a, b) = lemma_chunk_is_stretch(needle, 0, k);
        let window = text.subrange(at, at + needle.len());
        assert forall|m: int| at + a <= m < at + b implies is_word_char(#[trigger] text[m]) by {
            assert(window[m - at] == text[m]);
            assert(is_word_char(needle[m - at]));
        }
        let j = lemma_stretch_in_chunk(text, 0, at + a, at + b);
        assert(text.subrange(at + a, at + b) =~= needle.subrange(a, b)) by {
            assert forall|m: int| a <= m < b implies text[at + m] == needle[m] by {
                assert(window[m] == text[at + m]);
            }
        }
        assert(contains_text(chunks(text)[j], chunks(needle)[k]));
    }
}

/// Where the line that holds position `i` ends: behind its line feed, or at the end of the
/// file.
pub open spec fn line_end(b: Seq<u8>, i: int) -> int
    decreases b.len() - i,
{
    if i >= b.len() {
        b.len() as int
    } else if b[i] == 10 {
        i + 1
    } else {
        line_end(b, i + 1)
    }
}

/// Where a line ends.
pub proof fn lemma_line_end(b: Seq<u8>, i: int)
    requires
        0 <= i < b.len(),
    ensures
        i < line_end(b, i) <= b.len(),
        forall|k: int| i <= k < line_end(b, i) - 1 ==> b[k] != 10,
        line_end(b, i) < b.len() ==> b[line_end(b, i) - 1] == 10,
    decreases b.len() - i,
{
    if b[i] != 10 {
        if i + 1 < b.len() {
            lemma_line_end(b, i + 1);
        } else {
            assert(line_end(b, i + 1) == b.len());
        }
    }
}

/// The lines of a file up to the first one that is not UTF-8, each with its line feed.
pub open spec fn text_lines(b: Seq<u8>) -> Seq<Seq<char>>
    decreases b.len(),
{
    if b.len() == 0 {
        Seq::empty()
    } else {
        proof {
            lemma_line_end(b, 0);
        }
        let e = line_end(b, 0);
        if valid_utf8(b.take(e)) {
            seq![decode_utf8(b.take(e))] + text_lines(b.skip(e))
        } else {
            Seq::empty()
        }
    }
}

/// A file has no more lines than bytes.
pub proof fn lines_fit_bytes(b: Seq<u8>)
    ensures
        text_lines(b).len() <= b.len(),
    decreases b.len(),
{
    if b.len() > 0 {
        lemma_line_end(b, 0);
        lines_fit_bytes(b.skip(line_end(b, 0)));
    }
}

/// A line holds the needle, whatever the case of its ASCII letters.
pub open spec fn line_matches(line: Seq<char>, needle: Seq<char>) -> bool {
    contains_text(ascii_lower(line), needle)
}

/// What is reported of a matching line: its number, the byte column of the first match
/// counted from one, and the trimmed line.
pub open spec fn line_hit(line: Seq<char>, needle: Seq<char>, number: int) -> (
    u32,
    u32,
    Seq<char>,
) {
    let at = choose|i: int| first_match(ascii_lower(line), needle, i);
    (number as u32, (byte_len(line.take(at)) + 1) as u32, trimmed(line))
}

/// What is reported of the lines that match, in order.
pub open spec fn hits(lines: Seq<Seq<char>>, needle: Seq<char>) -> Seq<(u32, u32, Seq<char>)>
    decreases lines.len(),
{
    if lines.len() == 0 {
        Seq::empty()
    } else if line_matches(lines.last(), needle) {
        hits(lines.drop_last(), needle).push(
            line_hit(lines.last(), needle, lines.len() as int),
        )
    } else {
        hits(lines.drop_last(), needle)
    }
}

/// Matches with their snippets taken as texts.
pub open spec fn match_views(m: Seq<(u32, u32, String)>) -> Seq<(u32, u32, Seq<char>)> {
    Seq::new(m.len(), |i: int| (m[i].0, m[i].1, m[i].2@))
}

/// Folding keeps the width of each character.
proof fn lemma_lower_width(s: Seq<char>)
    ensures
        byte_len(ascii_lower(s)) == byte_len(s),
    decreases s.len(),
{
    if s.len() > 0 {
        let d = s.drop_last();
        lemma_lower_width(d);
        assert(s =~= d.push(s.last()));
        assert(ascii_lower(s) =~= ascii_lower(d).push(ascii_lower_char(s.last())));
        byte_len_push(d, s.last());
        byte_len_push(ascii_lower(d), ascii_lower_char(s.last()));
    }
}

/// Scan one line: what is reported of it, if it matches.
fn scan_line(line: &str, needle: &[char], number: u32) -> (r: Option<(u32, u32, String)>)
    ensures
        match r {
            Some(m) => line_matches(line@, needle@) && (m.0, m.1, m.2@) == line_hit(
                line@,
                needle@,
                number as int,
            ),
            None => !line_matches(line@, needle@),
        },
{
    let whole: usize = line.as_bytes().len();
    let v = chars_of(line);
    let lowered = lower_chars(v.as_slice());
    match find(lowered.as_slice(), needle) {
        Some(at) => {
            let col: usize = bytes_before(v.as_slice(), at);
            let (from, to) = trim_range(v.as_slice());
            proof {
                let chosen = choose|i: int| first_match(ascii_lower(line@), needle@, i);
                assert(first_match(ascii_lower(line@), needle@, at as int));
                assert(first_match(ascii_lower(line@), needle@, chosen));
                assert(chosen == at);
                if needle@.len() > 0 {
                    byte_len_take(line@, at + 1);
                    assert(line@.take(at + 1) =~= line@.take(at as int).push(line@[at as int]));
                    byte_len_push(line@.take(at as int), line@[at as int]);
                } else {
                    assert(matches_at(ascii_lower(line@), needle@, 0)) by {
                        assert(ascii_lower(line@).subrange(0, 0) =~= needle@);
                    }
                    assert(line@.take(0) =~= Seq::<char>::empty());
                }
            }
            #[verifier::truncate]
            let col_one: u32 = (col + 1) as u32;
            Some((number, col_one, string_of(v.as_slice(), from, to)))
        },
        None => None,
    }
}

/// The scan looks at the cancel flag before each line whose number is a multiple of this.
pub const CANCEL_CHECK_LINES: u32 = 512;

/// A scan of one file that can stop at its cancel checks.
pub struct LineScan {
    matches: Vec<(u32, u32, String)>,
    pos: usize,
    line_idx: u32,
    done: bool,
}

impl LineScan {
    /// The scan has dealt with the first `lines_read` lines of `contents`.
    pub closed spec fn wf(&self, contents: Seq<u8>, needle: Seq<char>) -> bool {
        let lines = text_lines(contents);
        &&& self.pos <= contents.len()
        &&& self.line_idx <= lines.len()
        &&& text_lines(contents.skip(self.pos as int)) == lines.skip(self.line_idx as int)
        &&& match_views(self.matches@) == hits(lines.take(self.line_idx as int), needle)
        &&& self.done ==> self.line_idx == lines.len()
    }

    /// How many lines were dealt with.
    pub closed spec fn lines_read(&self) -> nat {
        self.line_idx as nat
    }

    /// No line is left.
    pub closed spec fn is_done(&self) -> bool {
        self.done
    }

    /// What was reported so far.
    pub closed spec fn found(&self) -> Seq<(u32, u32, Seq<char>)> {
        match_views(self.matches@)
    }

    /// What a scan of `contents` has found is what its first `lines_read` lines give.
    pub proof fn found_so_far(&self, contents: Seq<u8>, needle: Seq<char>)
        requires
            self.wf(contents, needle),
        ensures
            self.lines_read() <= text_lines(contents).len(),
            self.found() == hits(text_lines(contents).take(self.lines_read() as int), needle),
            self.is_done() ==> self.found() == hits(text_lines(contents), needle),
    {
        let lines = text_lines(contents);
        assert(lines.take(lines.len() as int) =~= lines);
    }

    /// A scan that has read nothing yet.
    pub fn new() -> (r: LineScan)
        ensures
            r.lines_read() == 0,
            !r.is_done(),
            forall|contents: Seq<u8>, needle: Seq<char>| r.wf(contents, needle),
    {
        let r = LineScan { matches: Vec::new(), pos: 0, line_idx: 0, done: false };
        assert forall|contents: Seq<u8>, needle: Seq<char>| r.wf(contents, needle) by {
            assert(contents.skip(0) =~= contents);
            let lines = text_lines(contents);
            assert(lines.skip(0) =~= lines);
            assert(match_views(r.matches@) =~= hits(lines.take(0), needle));
        }
        r
    }

    /// Whether all lines were dealt with.
    pub fn finished(&self) -> (r: bool)
        ensures
            r == self.is_done(),
    {
        self.done
    }

    /// The matches found so far.
    pub fn into_matches(self) -> (r: Vec<(u32, u32, String)>)
        ensures
            match_views(r@) == self.found(),
    {
        self.matches
    }

    /// Deal with one more line, if there is one.
    fn next_line(&mut self, contents: &[u8], needle: &[char])
        requires
            old(self).wf(contents@, needle@),
            !old(self).is_done(),
            text_lines(contents@).len() <= u32::MAX,
        ensures
            final(self).wf(contents@, needle@),
            final(self).is_done() ==> final(self).lines_read() == old(self).lines_read(),
            !final(self).is_done() ==> final(self).lines_read() == old(self).lines_read() + 1,
            old(self).lines_read() < text_lines(contents@).len() ==> !final(self).is_done(),
    {
        let ghost lines = text_lines(contents@);
        let ghost k = self.line_idx as int;
        let ghost rest = contents@.skip(self.pos as int);
        if self.pos >= contents.len() {
            proof {
                assert(text_lines(rest).len() == 0);
                assert(lines.skip(k).len() == lines.len() - k);
            }
            self.done = true;
            return;
        }
        let mut end: usize = self.pos;
        while end < contents.len() && contents[end] != 10
            invariant
                self.pos <= end <= contents@.len(),
                rest == contents@.skip(self.pos as int),
                line_end(rest, end - self.pos) == line_end(rest, 0),
            decreases contents@.len() - end,
        {
            assert(rest[end - self.pos] == contents@[end as int]);
            end += 1;
        }
        if end < contents.len() {
            assert(rest[end - self.pos] == contents@[end as int]);
            end += 1;
        }
        let ghost e = line_end(rest, 0);
        assert(e == end - self.pos);
        let raw = vstd::slice::slice_subrange(contents, self.pos, end);
        assert(raw@ =~= rest.take(e));
        match std::str::from_utf8(raw) {
            Ok(line) => {
                proof {
                    vstd::utf8::encode_utf8_decode_utf8(line@);
                    assert(text_lines(rest) == seq![line@] + text_lines(rest.skip(e)));
                    assert(lines.skip(k)[0] == line@);
                    assert(lines[k] == line@);
                    assert(lines.skip(k).len() == lines.len() - k);
                    assert(contents@.skip(end as int) =~= rest.skip(e));
                    assert((seq![line@] + text_lines(rest.skip(e))).skip(1) =~= text_lines(
                        rest.skip(e),
                    ));
                    assert(lines.skip(k + 1) =~= lines.skip(k).skip(1));
                    assert(lines.take(k + 1).drop_last() =~= lines.take(k));
                }
                self.line_idx += 1;
                self.pos = end;
                match scan_line(line, needle, self.line_idx) {
                    Some(m) => {
                        let ghost before = self.matches@;
                        self.matches.push(m);
                        assert(match_views(self.matches@) =~= match_views(before).push(
                            (m.0, m.1, m.2@),
                        ));
                    },
                    None => {},
                }
            },
            Err(_) => {
                proof {
                    assert(text_lines(rest).len() == 0);
                    assert(lines.skip(k).len() == lines.len() - k);
                }
                self.done = true;
            },
        }
    }

    /// Deal with lines up to the next cancel check or the end of the file.
    pub fn scan_block(&mut self, contents: &[u8], needle: &[char])
        requires
            old(self).wf(contents@, needle@),
            text_lines(contents@).len() <= u32::MAX,
        ensures
            final(self).wf(contents@, needle@),
            !final(self).is_done() ==> {
                &&& old(self).lines_read() < final(self).lines_read()
                &&& (final(self).lines_read() + 1) % (CANCEL_CHECK_LINES as nat) == 0
                &&& forall|n: nat|
                    old(self).lines_read() < n < final(self).lines_read() ==> #[trigger] (n + 1) % (
                    CANCEL_CHECK_LINES as nat) != 0
            },
    {
        let ghost start = self.lines_read();
        while !self.done
            invariant
                self.wf(contents@, needle@),
                text_lines(contents@).len() <= u32::MAX,
                start <= self.lines_read(),
                start == old(self).lines_read(),
                forall|n: nat|
                    start < n <= self.lines_read() ==> #[trigger] (n + 1) % (
                    CANCEL_CHECK_LINES as nat) != 0,
            decreases
                text_lines(contents@).len() - self.lines_read(),
                if self.done {
                    0int
                } else {
                    1int
                },
        {
            self.next_line(contents, needle);
            if !self.done && self.line_idx % CANCEL_CHECK_LINES == CANCEL_CHECK_LINES - 1 {
                return;
            }
        }
    }
}

/// The lines of a file that hold `needle`.
pub fn find_matching_lines(contents: &[u8], needle: &str) -> (r: Vec<(u32, u32, String)>)
    requires
        text_lines(contents@).len() <= u32::MAX,
    ensures
        match_views(r@) == hits(text_lines(contents@), needle@),
{
    let n = chars_of(needle);
    let mut scan = LineScan::new();
    while !scan.finished()
        invariant
            n@ == needle@,
            scan.wf(contents@, n@),
            text_lines(contents@).len() <= u32::MAX,
        decreases
            text_lines(contents@).len() - scan.lines_read(),
            if scan.is_done() {
                0int
            } else {
                1int
            },
    {
        scan.scan_block(contents, n.as_slice());
        proof {
            scan.found_so_far(contents@, n@);
        }
    }
    proof {
        scan.found_so_far(contents@, n@);
    }
    scan.into_matches()
}

/// Whether `needle`, already folded, stands in `haystack`, whatever the case of the
/// haystack's ASCII letters.
pub fn contains_ascii_ci(haystack: &str, needle: &str) -> (r: bool)
    ensures
        r == contains_text(ascii_lower(haystack@), needle@),
{
    let h = chars_of(haystack);
    let n = chars_of(needle);
    let lowered = lower_chars(h.as_slice());
    match find(lowered.as_slice(), n.as_slice()) {
        Some(_) => true,
        None => false,
    }
}

/// A candidate that the index proposed, as it is found on disk.
pub struct Document {
    /// The path relative to the project root.
    pub path: String,
    /// The bytes of the file, if it could be opened.
    pub contents: Option<Vec<u8>>,
    /// Whether the path exists.
    pub exists: bool,
}

impl Document {
    /// The lines that can be scanned.
    pub open spec fn lines(&self) -> Seq<Seq<char>> {
        match self.contents {
            Some(b) => text_lines(b@),
            None => Seq::empty(),
        }
    }
}

/// The result that stands for a file whose name matches.
pub open spec fn name_result(path: Seq<char>) -> ResultView {
    ResultView {
        path,
        line: 0,
        col: 0,
        snippet: Seq::empty(),
        score: Score { needle_len: 0, snippet_len: 0, match_count: 0 },
    }
}

/// The result for one matching line out of `count`.
pub open spec fn line_result(
    path: Seq<char>,
    needle: Seq<char>,
    m: (u32, u32, Seq<char>),
    count: nat,
) -> ResultView {
    ResultView {
        path,
        line: m.0,
        col: m.1,
        snippet: m.2,
        score: Score {
            needle_len: byte_len(needle) as usize,
            snippet_len: byte_len(m.2) as usize,
            match_count: count as usize,
        },
    }
}

/// The results for a file: one for each matching line; where no line matches, one for the
/// file's name if that matches and the file is still there.
pub open spec fn file_results(
    path: Seq<char>,
    needle: Seq<char>,
    found: Seq<(u32, u32, Seq<char>)>,
    exists_on_disk: bool,
) -> Seq<ResultView> {
    if found.len() > 0 {
        Seq::new(found.len(), |i: int| line_result(path, needle, found[i], found.len()))
    } else if exists_on_disk && contains_text(ascii_lower(path), needle) {
        seq![name_result(path)]
    } else {
        Seq::empty()
    }
}

/// The results for a document.
pub open spec fn document_results(doc: &Document, needle: Seq<char>) -> Seq<ResultView> {
    file_results(doc.path@, needle, hits(doc.lines(), needle), doc.exists)
}

/// Results with their strings taken as texts.
pub open spec fn result_views(r: Seq<SearchResult>) -> Seq<ResultView> {
    Seq::new(r.len(), |i: int| r[i]@)
}

/// Turn the matching lines of a file into results.
pub fn results_for_file(
    path: &str,
    needle: &str,
    matches: Vec<(u32, u32, String)>,
    exists_on_disk: bool,
) -> (r: Vec<SearchResult>)
    ensures
        result_views(r@) == file_results(path@, needle@, match_views(matches@), exists_on_disk),
{
    let ghost found = match_views(matches@);
    let mut out: Vec<SearchResult> = Vec::new();
    if matches.len() == 0 {
        if exists_on_disk && contains_ascii_ci(path, needle) {
            out.push(
                SearchResult {
                    path: path.to_owned(),
                    line: 0,
                    col: 0,
                    snippet: String::new(),
                    score: Score { needle_len: 0, snippet_len: 0, match_count: 0 },
                },
            );
        }
        assert(result_views(out@) =~= file_results(path@, needle@, found, exists_on_disk));
        return out;
    }
    let count: usize = matches.len();
    let mut i: usize = 0;
    while i < matches.len()
        invariant
            i <= matches@.len() == count,
            found == match_views(matches@),
            out@.len() == i,
            forall|k: int|
                0 <= k < i ==> (#[trigger] out@[k])@ == line_result(
                    path@,
                    needle@,
                    found[k],
                    found.len(),
                ),
        decreases matches@.len() - i,
    {
        let snippet = matches[i].2.clone();
        let snippet_len: usize = snippet.as_str().len();
        out.push(
            SearchResult {
                path: path.to_owned(),
                line: matches[i].0,
                col: matches[i].1,
                snippet,
                score: Score { needle_len: needle.len(), snippet_len, match_count: count },
            },
        );
        assert(out@[i as int]@ == line_result(path@, needle@, found[i as int], found.len()));
        i += 1;
    }
    assert(result_views(out@) =~= file_results(path@, needle@, found, exists_on_disk));
    out
}

/// The results for one candidate.
pub fn scan_document(doc: &Document, needle: &str) -> (r: Vec<SearchResult>)
    requires
        doc.lines().len() <= u32::MAX,
    ensures
        result_views(r@) == document_results(doc, needle@),
{
    let matches = match &doc.contents {
        Some(b) => find_matching_lines(b.as_slice(), needle),
        None => Vec::new(),
    };
    assert(match_views(matches@) =~= hits(doc.lines(), needle@));
    results_for_file(doc.path.as_str(), needle, matches, doc.exists)
}

/// The bookkeeping of a running search: how much was found and handed out.
pub struct SearchRun {
    limit: usize,
    found: usize,
    emitted: usize,
    cancelled: bool,
}

/// The state of a running search.
pub struct RunView {
    pub limit: nat,
    pub found: nat,
    pub emitted: nat,
    pub cancelled: bool,
}

impl View for SearchRun {
    type V = RunView;

    closed spec fn view(&self) -> RunView {
        RunView {
            limit: self.limit as nat,
            found: self.found as nat,
            emitted: self.emitted as nat,
            cancelled: self.cancelled,
        }
    }
}

impl RunView {
    /// The limit was never exceeded: what was handed out was found before, and is no more
    /// than the limit.
    pub open spec fn within_limit(self) -> bool {
        &&& self.emitted <= self.found
        &&& self.emitted <= self.limit
    }

    /// One more result may be looked for.
    pub open spec fn open(self) -> bool {
        !self.cancelled && self.found < self.limit
    }

    /// What was found so far may be handed out.
    pub open spec fn fits(self) -> bool {
        !self.cancelled && self.found <= self.limit
    }
}

impl SearchRun {
    /// Start a search that hands out at most `limit` results.
    pub fn new(limit: usize) -> (r: SearchRun)
        ensures
            r@ == (RunView { limit: limit as nat, found: 0, emitted: 0, cancelled: false }),
            r@.within_limit(),
    {
        SearchRun { limit, found: 0, emitted: 0, cancelled: false }
    }

    /// Cancel the search: nothing more is scanned or handed out.
    pub fn cancel(&mut self)
        ensures
            final(self)@ == (RunView { cancelled: true, ..old(self)@ }),
    {
        self.cancelled = true;
    }

    /// Whether one more candidate is to be scanned.
    pub fn wants_document(&self) -> (r: bool)
        ensures
            r == self@.open(),
    {
        !self.cancelled && self.found < self.limit
    }

    /// Whether `count` more results can be counted.
    pub fn can_record(&self, count: usize) -> (r: bool)
        ensures
            r == (self@.found + count <= usize::MAX),
    {
        count <= usize::MAX - self.found
    }

    /// Count the results of a scanned candidate, before they are queued.
    pub fn record(&mut self, count: usize)
        requires
            old(self)@.found + count <= usize::MAX,
        ensures
            final(self)@ == (RunView { found: old(self)@.found + count as nat, ..old(self)@ }),
            old(self)@.within_limit() ==> final(self)@.within_limit(),
    {
        self.found += count;
    }

    /// Whether a queued batch of `count` results is handed out: it is unless more results
    /// were found than the limit allows. Once one is refused all later ones are refused.
    pub fn deliver(&mut self, count: usize) -> (r: bool)
        requires
            old(self)@.emitted + count <= old(self)@.found,
        ensures
            r == old(self)@.fits(),
            final(self)@ == (if r {
                RunView { emitted: old(self)@.emitted + count as nat, ..old(self)@ }
            } else {
                old(self)@
            }),
            old(self)@.within_limit() ==> final(self)@.within_limit(),
    {
        if !self.cancelled && self.found <= self.limit {
            self.emitted += count;
            true
        } else {
            false
        }
    }
}

/// What a search is made on: the query and the candidates, in the order in which they are
/// scanned.
pub struct SearchParams<'a> {
    pub query_str: &'a str,
    pub documents: &'a Vec<Document>,
}

/// The results of all documents, one batch for each.
pub open spec fn all_batches(docs: Seq<Document>, needle: Seq<char>) -> Seq<Seq<ResultView>> {
    Seq::new(docs.len(), |i: int| document_results(&docs[i], needle))
}

/// How many results the batches hold.
pub open spec fn total_len(batches: Seq<Seq<ResultView>>) -> nat
    decreases batches.len(),
{
    if batches.len() == 0 {
        0
    } else {
        batches[0].len() + total_len(batches.drop_first())
    }
}

/// The batches that are handed out when `found` results were counted before: scanning ends
/// when the count reaches the limit, and a batch that makes it exceed the limit is held back.
pub open spec fn delivered(batches: Seq<Seq<ResultView>>, limit: nat, found: nat) -> Seq<
    Seq<ResultView>,
>
    decreases batches.len(),
{
    if batches.len() == 0 || found >= limit {
        Seq::empty()
    } else {
        let now = found + batches[0].len();
        let rest = delivered(batches.drop_first(), limit, now);
        if batches[0].len() > 0 && now <= limit {
            seq![batches[0]] + rest
        } else {
            rest
        }
    }
}

/// Batches with their results taken as views.
pub open spec fn batch_views(b: Seq<Vec<SearchResult>>) -> Seq<Seq<ResultView>> {
    Seq::new(b.len(), |i: int| result_views(b[i]@))
}

proof fn lemma_total_tail(batches: Seq<Seq<ResultView>>, i: int)
    requires
        0 <= i < batches.len(),
    ensures
        total_len(batches.skip(i)) == batches[i].len() + total_len(batches.skip(i + 1)),
        batches.skip(i)[0] == batches[i],
        batches.skip(i).drop_first() == batches.skip(i + 1),
{
    assert(batches.skip(i).drop_first() =~= batches.skip(i + 1));
}

/// The batches that a search hands out when it scans some documents in their order.
pub open spec fn streamed(query: Seq<char>, docs: Seq<Document>, limit: nat) -> Seq<
    Seq<ResultView>,
> {
    if trimmed(query).len() == 0 {
        Seq::empty()
    } else {
        delivered(all_batches(docs, needle_of(query)), limit, 0)
    }
}

/// Scan the candidates one after the other and hand out the batches of results.
pub fn search_streaming(params: &SearchParams, limit: usize) -> (r: Vec<Vec<SearchResult>>)
    requires
        forall|i: int|
            0 <= i < params.documents@.len() ==> (#[trigger] params.documents@[i]).lines().len()
                <= u32::MAX,
        total_len(all_batches(params.documents@, needle_of(params.query_str@))) <= usize::MAX,
    ensures
        batch_views(r@) == streamed(params.query_str@, params.documents@, limit as nat),
{
    let mut out: Vec<Vec<SearchResult>> = Vec::new();
    let n = match needle(params.query_str) {
        Some(n) => n,
        None => {
            assert(batch_views(out@) =~= Seq::<Seq<ResultView>>::empty());
            return out;
        },
    };
    let ghost batches = all_batches(params.documents@, n@);
    let mut run = SearchRun::new(limit);
    let mut i: usize = 0;
    assert(batches.skip(0) =~= batches);
    assert(batch_views(out@) + delivered(batches, limit as nat, 0) =~= delivered(
        batches,
        limit as nat,
        0,
    ));
    while i < params.documents.len() && run.wants_document()
        invariant
            i <= params.documents@.len() == batches.len(),
            batches == all_batches(params.documents@, n@),
            forall|k: int|
                0 <= k < params.documents@.len() ==> (#[trigger] params.documents@[k]).lines().len()
                    <= u32::MAX,
            run@.limit == limit,
            !run@.cancelled,
            run@.emitted <= run@.found,
            run@.found + total_len(batches.skip(i as int)) <= usize::MAX,
            batch_views(out@) + delivered(batches.skip(i as int), limit as nat, run@.found)
                == delivered(batches, limit as nat, 0),
        decreases params.documents@.len() - i,
    {
        let ghost before = out@;
        let results = scan_document(&params.documents[i], n.as_str());
        proof {
            lemma_total_tail(batches, i as int);
            assert(result_views(results@) == batches[i as int]);
            assert(result_views(results@).len() == results@.len());
        }
        run.record(results.len());
        if results.len() > 0 && run.deliver(results.len()) {
            out.push(results);
            proof {
                assert(batch_views(out@) =~= batch_views(before).push(batches[i as int]));
                let rest = delivered(batches.skip(i + 1), limit as nat, run@.found);
                assert(batch_views(before) + (seq![batches[i as int]] + rest) =~= batch_views(out@)
                    + rest);
            }
        }
        i += 1;
    }
    assert(batch_views(out@) + delivered(batches.skip(i as int), limit as nat, run@.found)
        =~= batch_views(out@));
    out
}

/// A search never hands out more results than its limit.
pub proof fn limit_is_kept(batches: Seq<Seq<ResultView>>, limit: nat)
    ensures
        total_len(delivered(batches, limit, 0)) <= limit,
{
    lemma_limit_is_kept(batches, limit, 0);
}

proof fn lemma_limit_is_kept(batches: Seq<Seq<ResultView>>, limit: nat, found: nat)
    requires
        found <= limit,
    ensures
        found + total_len(delivered(batches, limit, found)) <= limit,
    decreases batches.len(),
{
    if batches.len() > 0 && found < limit {
        let now = found + batches[0].len();
        let rest = delivered(batches.drop_first(), limit, now);
        if now <= limit {
            lemma_limit_is_kept(batches.drop_first(), limit, now);
            assert((seq![batches[0]] + rest).drop_first() =~= rest);
        }
    }
}

/// The batches that hold a result.
pub open spec fn non_empty(batches: Seq<Seq<ResultView>>) -> Seq<Seq<ResultView>>
    decreases batches.len(),
{
    if batches.len() == 0 {
        Seq::empty()
    } else if batches[0].len() > 0 {
        seq![batches[0]] + non_empty(batches.drop_first())
    } else {
        non_empty(batches.drop_first())
    }
}

/// A search that finds no more results than its limit hands out every one of them.
pub proof fn nothing_lost_within_limit(batches: Seq<Seq<ResultView>>, limit: nat, found: nat)
    requires
        found + total_len(batches) <= limit,
    ensures
        delivered(batches, limit, found) == non_empty(batches),
    decreases batches.len(),
{
    if batches.len() > 0 {
        if found >= limit {
            lemma_nothing_found(batches);
        } else {
            nothing_lost_within_limit(batches.drop_first(), limit, found + batches[0].len());
        }
    }
}

/// Batches without a result are all empty.
proof fn lemma_nothing_found(batches: Seq<Seq<ResultView>>)
    requires
        total_len(batches) == 0,
    ensures
        non_empty(batches) == Seq::<Seq<ResultView>>::empty(),
    decreases batches.len(),
{
    if batches.len() > 0 {
        lemma_nothing_found(batches.drop_first());
    }
}

/// Each reported match stands for a line of the file that holds the needle, and gives that
/// line's number, column and trimmed text; line numbers increase.
pub proof fn hits_are_sound(lines: Seq<Seq<char>>, needle: Seq<char>)
    requires
        lines.len() <= u32::MAX,
    ensures
        forall|i: int|
            0 <= i < hits(lines, needle).len() ==> {
                let h = #[trigger] hits(lines, needle)[i];
                &&& 1 <= h.0 <= lines.len()
                &&& line_matches(lines[h.0 - 1], needle)
                &&& h == line_hit(lines[h.0 - 1], needle, h.0 as int)
            },
        forall|i: int, j: int|
            0 <= i < j < hits(lines, needle).len() ==> hits(lines, needle)[i].0 < hits(
                lines,
                needle,
            )[j].0,
    decreases lines.len(),
{
    if lines.len() > 0 {
        let d = lines.drop_last();
        hits_are_sound(d, needle);
        assert forall|i: int| 0 <= i < hits(lines, needle).len() implies {
            let h = #[trigger] hits(lines, needle)[i];
            &&& 1 <= h.0 <= lines.len()
            &&& line_matches(lines[h.0 - 1], needle)
            &&& h == line_hit(lines[h.0 - 1], needle, h.0 as int)
        } by {
            let h = hits(lines, needle)[i];
            if i < hits(d, needle).len() {
                assert(h == hits(d, needle)[i]);
                assert(d[h.0 - 1] == lines[h.0 - 1]);
            }
        }
        assert forall|i: int, j: int| 0 <= i < j < hits(lines, needle).len() implies hits(
            lines,
            needle,
        )[i].0 < hits(lines, needle)[j].0 by {
            assert(hits(lines, needle)[i] == hits(d, needle)[i]);
            if j < hits(d, needle).len() {
                assert(hits(lines, needle)[j] == hits(d, needle)[j]);
            }
        }
    }
}

/// Every line that holds the needle is reported.
pub proof fn hits_are_complete(lines: Seq<Seq<char>>, needle: Seq<char>, k: int)
    requires
        0 <= k < lines.len(),
        line_matches(lines[k], needle),
    ensures
        hits(lines, needle).contains(line_hit(lines[k], needle, k + 1)),
    decreases lines.len(),
{
    let d = lines.drop_last();
    let all = hits(lines, needle);
    if k == lines.len() - 1 {
        assert(all[all.len() - 1] == line_hit(lines[k], needle, k + 1));
    } else {
        assert(d[k] == lines[k]);
        hits_are_complete(d, needle, k);
        let i = choose|i: int|
            0 <= i < hits(d, needle).len() && hits(d, needle)[i] == line_hit(lines[k], needle, k + 1);
        assert(all[i] == hits(d, needle)[i]);
    }
}

/// A scan that is cancelled keeps what it has found: the matches of the first lines are the
/// first matches of the whole file.
pub proof fn cancelled_scan_is_prefix(lines: Seq<Seq<char>>, needle: Seq<char>, n: int)
    requires
        0 <= n <= lines.len(),
    ensures
        hits(lines.take(n), needle).len() <= hits(lines, needle).len(),
        hits(lines.take(n), needle) == hits(lines, needle).take(
            hits(lines.take(n), needle).len() as int,
        ),
    decreases lines.len() - n,
{
    if n == lines.len() {
        assert(lines.take(n) =~= lines);
        assert(hits(lines, needle).take(hits(lines, needle).len() as int) =~= hits(lines, needle));
    } else {
        cancelled_scan_is_prefix(lines, needle, n + 1);
        let t = lines.take(n + 1);
        assert(t.drop_last() =~= lines.take(n));
        let a = hits(lines.take(n), needle);
        let b = hits(t, needle);
        let all = hits(lines, needle);
        assert(b.take(a.len() as int) =~= a);
        assert(all.take(b.len() as int).take(a.len() as int) =~= all.take(a.len() as int));
    }
}

/// Folding does not make or remove white space.
proof fn lemma_lower_white(c: char)
    ensures
        is_white_space(ascii_lower_char(c)) == is_white_space(c),
{
}

/// Folding and trimming can be done in either order.
proof fn lemma_trim_lower(s: Seq<char>)
    ensures
        trimmed(ascii_lower(s)) == ascii_lower(trimmed(s)),
{
    lemma_trim_start_lower(s);
    lemma_trim_end_lower(trim_start(s));
}

proof fn lemma_trim_start_lower(s: Seq<char>)
    ensures
        trim_start(ascii_lower(s)) == ascii_lower(trim_start(s)),
    decreases s.len(),
{
    if s.len() > 0 {
        lemma_lower_white(s[0]);
        if is_white_space(s[0]) {
            assert(ascii_lower(s).drop_first() =~= ascii_lower(s.drop_first()));
            lemma_trim_start_lower(s.drop_first());
        }
    }
}

proof fn lemma_trim_end_lower(s: Seq<char>)
    ensures
        trim_end(ascii_lower(s)) == ascii_lower(trim_end(s)),
    decreases s.len(),
{
    if s.len() > 0 {
        lemma_lower_white(s.last());
        if is_white_space(s.last()) {
            assert(ascii_lower(s).drop_last() =~= ascii_lower(s.drop_last()));
            lemma_trim_end_lower(s.drop_last());
        }
    }
}

/// The case of a query's ASCII letters does not matter.
pub proof fn query_case_is_ignored(a: Seq<char>, b: Seq<char>)
    requires
        ascii_lower(a) == ascii_lower(b),
    ensures
        needle_of(a) == needle_of(b),
{
    lemma_trim_lower(a);
    lemma_trim_lower(b);
}

/// All results of some batches, in no order.
pub open spec fn found_in(batches: Seq<Seq<ResultView>>) -> Multiset<ResultView>
    decreases batches.len(),
{
    if batches.len() == 0 {
        Multiset::empty()
    } else {
        batches[0].to_multiset().add(found_in(batches.drop_first()))
    }
}

proof fn lemma_found_len(batches: Seq<Seq<ResultView>>)
    ensures
        found_in(batches).len() == total_len(batches),
    decreases batches.len(),
{
    if batches.len() > 0 {
        lemma_found_len(batches.drop_first());
        vstd::seq_lib::to_multiset_len(batches[0]);
    }
}

proof fn lemma_found_non_empty(batches: Seq<Seq<ResultView>>)
    ensures
        found_in(non_empty(batches)) == found_in(batches),
    decreases batches.len(),
{
    if batches.len() > 0 {
        let rest = non_empty(batches.drop_first());
        lemma_found_non_empty(batches.drop_first());
        if batches[0].len() > 0 {
            assert((seq![batches[0]] + rest).drop_first() =~= rest);
        } else {
            vstd::seq_lib::to_multiset_len(batches[0]);
            assert(batches[0].to_multiset() =~= Multiset::<ResultView>::empty());
            assert(found_in(batches) =~= found_in(batches.drop_first()));
        }
    }
}

proof fn lemma_found_remove(batches: Seq<Seq<ResultView>>, i: int)
    requires
        0 <= i < batches.len(),
    ensures
        found_in(batches) == batches[i].to_multiset().add(found_in(batches.remove(i))),
    decreases batches.len(),
{
    let rest = batches.drop_first();
    if i == 0 {
        assert(batches.remove(0) =~= rest);
    } else {
        lemma_found_remove(rest, i - 1);
        assert(batches.remove(i).drop_first() =~= rest.remove(i - 1));
        assert(found_in(batches) =~= batches[i].to_multiset().add(found_in(batches.remove(i))));
    }
}

/// The order in which documents are scanned does not change what is found in all.
proof fn lemma_found_in_any_order(a: Seq<Document>, b: Seq<Document>, needle: Seq<char>)
    requires
        a.to_multiset() == b.to_multiset(),
    ensures
        found_in(all_batches(a, needle)) == found_in(all_batches(b, needle)),
    decreases a.len(),
{
    vstd::seq_lib::to_multiset_len(a);
    vstd::seq_lib::to_multiset_len(b);
    if a.len() > 0 {
        let d = a[0];
        vstd::seq_lib::to_multiset_contains(a, d);
        vstd::seq_lib::to_multiset_contains(b, d);
        assert(a.contains(d));
        let i = choose|i: int| 0 <= i < b.len() && b[i] == d;
        vstd::seq_lib::to_multiset_remove(a, 0);
        vstd::seq_lib::to_multiset_remove(b, i);
        lemma_found_in_any_order(a.remove(0), b.remove(i), needle);
        lemma_found_remove(all_batches(a, needle), 0);
        lemma_found_remove(all_batches(b, needle), i);
        assert(all_batches(a, needle).remove(0) =~= all_batches(a.remove(0), needle));
        assert(all_batches(b, needle).remove(i) =~= all_batches(b.remove(i), needle));
    } else {
        assert(all_batches(a, needle) =~= all_batches(b, needle));
    }
}

/// The case of a query's ASCII letters and the white space around it do not matter: the index
/// is asked for the same candidates, and the same batches are handed out of them.
pub proof fn query_spelling_is_ignored(
    a: Seq<char>,
    b: Seq<char>,
    docs: Seq<Document>,
    limit: nat,
)
    requires
        ascii_lower(trimmed(a)) == ascii_lower(trimmed(b)),
    ensures
        candidates_of(needle_of(a), pattern_marks(needle_of(a))) == candidates_of(
            needle_of(b),
            pattern_marks(needle_of(b)),
        ),
        streamed(a, docs, limit) == streamed(b, docs, limit),
{
    assert(ascii_lower(trimmed(a)).len() == trimmed(a).len());
    assert(ascii_lower(trimmed(b)).len() == trimmed(b).len());
}

/// Two searches for the same text, whatever its case and the white space around it, find the
/// same results in the same documents, in whatever order these are scanned, if the limit
/// lets them find all.
pub proof fn same_query_finds_the_same(
    a: Seq<char>,
    b: Seq<char>,
    docs_a: Seq<Document>,
    docs_b: Seq<Document>,
    limit: nat,
)
    requires
        ascii_lower(trimmed(a)) == ascii_lower(trimmed(b)),
        docs_a.to_multiset() == docs_b.to_multiset(),
        total_len(all_batches(docs_a, needle_of(a))) <= limit,
    ensures
        found_in(streamed(a, docs_a, limit)) == found_in(streamed(b, docs_b, limit)),
{
    query_spelling_is_ignored(a, b, docs_b, limit);
    if trimmed(a).len() > 0 {
        let n = needle_of(a);
        let x = all_batches(docs_a, n);
        let y = all_batches(docs_b, n);
        lemma_found_in_any_order(docs_a, docs_b, n);
        lemma_found_len(x);
        lemma_found_len(y);
        nothing_lost_within_limit(x, limit, 0);
        nothing_lost_within_limit(y, limit, 0);
        lemma_found_non_empty(x);
        lemma_found_non_empty(y);
    } else {
        assert(ascii_lower(trimmed(b)).len() == trimmed(b).len());
        assert(ascii_lower(trimmed(a)).len() == trimmed(a).len());
    }
}

/// The case of a line's ASCII letters does not matter.
pub proof fn line_case_is_ignored(a: Seq<char>, b: Seq<char>, needle: Seq<char>)
    requires
        ascii_lower(a) == ascii_lower(b),
    ensures
        line_matches(a, needle) == line_matches(b, needle),
{
}

/// The snippet of a matching line holds the query, whatever the case of its ASCII letters,
/// and so has at least as many bytes: the query never covers more than the snippet.
pub proof fn snippet_holds_query(line: Seq<char>, query: Seq<char>)
    requires
        trimmed(query).len() > 0,
        line_matches(line, needle_of(query)),
    ensures
        contains_text(ascii_lower(trimmed(line)), needle_of(query)),
        byte_len(needle_of(query)) <= byte_len(trimmed(line)),
{
    let n = needle_of(query);
    let low = ascii_lower(line);
    let at = choose|i: int| matches_at(low, n, i);
    let (from, to) = choose|from: int, to: int|
        {
            &&& 0 <= from <= to <= line.len()
            &&& #[trigger] line.subrange(from, to) == trimmed(line)
            &&& forall|k: int| 0 <= k < from ==> is_white_space(#[trigger] line[k])
            &&& forall|k: int| to <= k < line.len() ==> is_white_space(#[trigger] line[k])
            &&& from < to ==> !is_white_space(line[from]) && !is_white_space(line[to - 1])
        };
    trimmed_is_span(line);
    let t = trimmed(query);
    assert(!is_white_space(t[0]) && !is_white_space(t.last())) by {
        trimmed_is_span(query);
        let (f, e) = choose|from: int, to: int|
            {
                &&& 0 <= from <= to <= query.len()
                &&& #[trigger] query.subrange(from, to) == trimmed(query)
                &&& forall|k: int| 0 <= k < from ==> is_white_space(#[trigger] query[k])
                &&& forall|k: int| to <= k < query.len() ==> is_white_space(#[trigger] query[k])
                &&& from < to ==> !is_white_space(query[from]) && !is_white_space(query[to - 1])
            };
        assert(t[0] == query[f]);
        assert(t.last() == query[e - 1]);
    }
    let window = low.subrange(at, at + n.len());
    let last = n.len() - 1;
    assert(window[0] == low[at] && window[last] == low[at + last]);
    lemma_lower_white(t[0]);
    lemma_lower_white(t[last]);
    lemma_lower_white(line[at]);
    lemma_lower_white(line[at + last]);
    if at < from {
        assert(is_white_space(line[at]));
    }
    if at + last >= to {
        assert(is_white_space(line[at + last]));
    }
    let snippet = ascii_lower(trimmed(line));
    assert(snippet =~= low.subrange(from, to));
    assert(snippet.subrange(at - from, at - from + n.len()) =~= n);
    assert(matches_at(snippet, n, at - from));
    lemma_part_width(snippet, n, at - from);
    lemma_lower_width(trimmed(line));
}

/// A part of a text takes no more bytes than the text.
proof fn lemma_part_width(s: Seq<char>, part: Seq<char>, at: int)
    requires
        matches_at(s, part, at),
    ensures
        byte_len(part) <= byte_len(s),
{
    let n = part.len() as int;
    assert(s =~= s.take(at) + (part + s.skip(at + n)));
    encode_concat(s.take(at), part + s.skip(at + n));
    encode_concat(part, s.skip(at + n));
}

/// A file that is gone gives no results, even where its name matches.
pub proof fn missing_file_gives_nothing(doc: &Document, needle: Seq<char>)
    requires
        doc.contents is None,
        !doc.exists,
    ensures
        document_results(doc, needle).len() == 0,
{
}

/// A file has no more results than lines, or the one for its name.
pub proof fn results_fit_lines(doc: &Document, needle: Seq<char>)
    ensures
        document_results(doc, needle).len() <= doc.lines().len() || document_results(
            doc,
            needle,
        ).len() == 1,
{
    lemma_hits_fit_lines(doc.lines(), needle);
}

proof fn lemma_hits_fit_lines(lines: Seq<Seq<char>>, needle: Seq<char>)
    ensures
        hits(lines, needle).len() <= lines.len(),
    decreases lines.len(),
{
    if lines.len() > 0 {
        lemma_hits_fit_lines(lines.drop_last(), needle);
    }
}

/// The bytes from `from` to `to` are a line of the file: it starts the file or stands behind
/// a line feed, holds no line feed but at its end, and ends with one or with the file.
pub open spec fn is_line(b: Seq<u8>, from: int, to: int) -> bool {
    &&& 0 <= from < to <= b.len()
    &&& from == 0 || b[from - 1] == 10
    &&& forall|k: int| from <= k < to - 1 ==> b[k] != 10
    &&& to == b.len() || b[to - 1] == 10
}

/// The number of the line that starts at byte `from`: one more than there are line feeds
/// before it.
pub open spec fn line_number(b: Seq<u8>, from: int) -> nat {
    1 + b.take(from).to_multiset().count(10u8)
}

proof fn lemma_feeds_add(a: Seq<u8>, b: Seq<u8>)
    ensures
        (a + b).to_multiset().count(10u8) == a.to_multiset().count(10u8) + b.to_multiset().count(
            10u8,
        ),
{
    vstd::seq_lib::lemma_multiset_commutative(a, b);
}

/// A line with a line feed holds one.
proof fn lemma_feeds_of_line(line: Seq<u8>)
    requires
        line.len() > 0,
        line.last() == 10,
        forall|k: int| 0 <= k < line.len() - 1 ==> line[k] != 10,
    ensures
        line.to_multiset().count(10u8) == 1,
{
    let d = line.drop_last();
    vstd::seq_lib::to_multiset_contains(d, 10u8);
    vstd::seq_lib::to_multiset_build(d, 10u8);
    assert(d.push(10u8) =~= line);
}

proof fn lemma_no_feeds(b: Seq<u8>)
    ensures
        b.take(0).to_multiset().count(10u8) == 0,
{
    let none = b.take(0);
    vstd::seq_lib::to_multiset_contains(none, 10u8);
    assert(!none.contains(10u8));
}

/// The number of a line of the file without its first line.
proof fn lemma_number_behind(b: Seq<u8>, from: int)
    requires
        0 < b.len(),
        line_end(b, 0) < b.len(),
        0 <= from <= b.len() - line_end(b, 0),
    ensures
        line_number(b, line_end(b, 0) + from) == 1 + line_number(b.skip(line_end(b, 0)), from),
{
    lemma_line_end(b, 0);
    let e = line_end(b, 0);
    let rest = b.skip(e);
    assert(b.take(e + from) =~= b.take(e) + rest.take(from));
    lemma_feeds_add(b.take(e), rest.take(from));
    lemma_feeds_of_line(b.take(e));
}

/// Each line that is read is a line of the file, and its place among them is the number of
/// line feeds before it.
pub proof fn read_lines_are_lines(b: Seq<u8>, k: int) -> (r: (int, int))
    requires
        0 <= k < text_lines(b).len(),
    ensures
        is_line(b, r.0, r.1),
        line_number(b, r.0) == k + 1,
        encode_utf8(text_lines(b)[k]) == b.subrange(r.0, r.1),
    decreases k,
{
    lemma_line_end(b, 0);
    let e = line_end(b, 0);
    if k == 0 {
        vstd::utf8::decode_utf8_encode_utf8(b.take(e));
        assert(b.take(e) =~= b.subrange(0, e));
        lemma_no_feeds(b);
        (0, e)
    } else {
        let rest = b.skip(e);
        assert(text_lines(b)[k] == text_lines(rest)[k - 1]);
        let (f, t) = read_lines_are_lines(rest, k - 1);
        lemma_number_behind(b, f);
        assert(b.subrange(e + f, e + t) =~= rest.subrange(f, t));
        assert forall|j: int| e + f <= j < e + t - 1 implies b[j] != 10 by {
            assert(rest[j - e] == b[j]);
        }
        if f > 0 {
            assert(rest[f - 1] == b[e + f - 1]);
        }
        assert(rest[t - 1] == b[e + t - 1]);
        (e + f, e + t)
    }
}

/// A line feed ends a character: the text up to it and the text behind it are text.
proof fn lemma_split_behind_feed(b: Seq<u8>, e: int)
    requires
        valid_utf8(b),
        0 < e <= b.len(),
        b[e - 1] == 10,
    ensures
        valid_utf8(b.take(e)),
        valid_utf8(b.skip(e)),
{
    vstd::utf8::is_char_boundary_iff_not_is_continuation_byte(b, e - 1);
    vstd::utf8::valid_utf8_split(b, e - 1);
    let head = b.subrange(0, e - 1);
    let tail = b.subrange(e - 1, b.len() as int);
    assert(tail[0] == 10);
    assert(vstd::utf8::pop_first_scalar(tail) =~= b.skip(e));
    let feed = seq![10u8];
    assert(valid_utf8(feed)) by {
        reveal_with_fuel(valid_utf8, 2);
        assert(vstd::utf8::pop_first_scalar(feed) =~= Seq::<u8>::empty());
    }
    vstd::utf8::valid_utf8_concat(head, feed);
    assert(head + feed =~= b.take(e));
}

/// Every line is read: where the file is UTF-8 up to the end of a line, that line is among
/// the lines at the place that the line feeds before it give it.
pub proof fn every_line_is_read(b: Seq<u8>, from: int, to: int)
    requires
        is_line(b, from, to),
        valid_utf8(b.take(to)),
    ensures
        line_number(b, from) <= text_lines(b).len(),
        encode_utf8(text_lines(b)[line_number(b, from) - 1]) == b.subrange(from, to),
    decreases b.len(),
{
    lemma_line_end(b, 0);
    let e = line_end(b, 0);
    if from == 0 {
        lemma_no_feeds(b);
        if e < to {
            assert(b[e - 1] == 10);
        }
        if to < e {
            assert(b[to - 1] != 10);
        }
        assert(e == to);
        vstd::utf8::decode_utf8_encode_utf8(b.take(e));
        assert(b.take(e) =~= b.subrange(0, e));
    } else {
        if from < e {
            assert(b[from - 1] != 10);
        }
        let rest = b.skip(e);
        let head = b.take(to);
        assert(head[e - 1] == b[e - 1]);
        lemma_split_behind_feed(head, e);
        assert(head.take(e) =~= b.take(e));
        assert(head.skip(e) =~= rest.take(to - e));
        assert forall|j: int| from - e <= j < to - e - 1 implies rest[j] != 10 by {
            assert(rest[j] == b[j + e]);
        }
        if from > e {
            assert(rest[from - e - 1] == b[from - 1]);
        }
        assert(rest[to - e - 1] == b[to - 1]);
        every_line_is_read(rest, from - e, to - e);
        lemma_number_behind(b, from - e);
        assert(rest.subrange(from - e, to - e) =~= b.subrange(from, to));
        let k = line_number(b, from) - 1;
        assert(text_lines(b)[k] == text_lines(rest)[k - 1]);
    }
}

/// The needle first stands in the line behind `n` characters, whatever the case of the line's
/// ASCII letters.
pub open spec fn stands_first(line: Seq<char>, needle: Seq<char>, n: int) -> bool {
    &&& 0 <= n <= line.len() - needle.len()
    &&& ascii_lower(line.subrange(n, n + needle.len())) == needle
    &&& forall|m: int|
        0 <= m < n ==> ascii_lower(#[trigger] line.subrange(m, m + needle.len())) != needle
}

proof fn lemma_folded_match(line: Seq<char>, needle: Seq<char>, n: int)
    requires
        0 <= n <= line.len() - needle.len(),
    ensures
        matches_at(ascii_lower(line), needle, n) <==> ascii_lower(
            line.subrange(n, n + needle.len()),
        ) == needle,
{
    assert(ascii_lower(line).subrange(n, n + needle.len()) =~= ascii_lower(
        line.subrange(n, n + needle.len()),
    ));
}

/// What a search reports of a file is true of it: each match names a line by the line feeds
/// before it, the column of the first place in that line where the needle stands, counted in
/// bytes from one, and the line without the white space around it.
pub proof fn reported_matches_are_in_the_file(b: Seq<u8>, needle: Seq<char>, i: int) -> (r: (
    int,
    int,
    int,
))
    requires
        text_lines(b).len() <= u32::MAX,
        0 <= i < hits(text_lines(b), needle).len(),
    ensures
        is_line(b, r.0, r.1),
        valid_utf8(b.subrange(r.0, r.1)),
        ({
            let h = hits(text_lines(b), needle)[i];
            let line = decode_utf8(b.subrange(r.0, r.1));
            &&& h.0 == line_number(b, r.0)
            &&& stands_first(line, needle, r.2)
            &&& h.1 == (encode_utf8(line.take(r.2)).len() + 1) as u32
            &&& h.2 == trimmed(line)
        }),
{
    let lines = text_lines(b);
    hits_are_sound(lines, needle);
    let h = hits(lines, needle)[i];
    let k = h.0 - 1;
    let line = lines[k];
    let (from, to) = read_lines_are_lines(b, k);
    vstd::utf8::encode_utf8_decode_utf8(line);
    vstd::utf8::encode_utf8_valid_utf8(line);
    let at = lemma_first_place(line, needle);
    (from, to, at)
}

/// Where the needle first stands in a line that holds it.
proof fn lemma_first_place(line: Seq<char>, needle: Seq<char>) -> (at: int)
    requires
        line_matches(line, needle),
    ensures
        stands_first(line, needle, at),
        at == choose|i: int| first_match(ascii_lower(line), needle, i),
{
    let low = ascii_lower(line);
    let some = choose|i: int| matches_at(low, needle, i);
    text_is_cut_out(low, needle, some);
    let at = choose|i: int| first_match(low, needle, i);
    lemma_folded_match(line, needle, at);
    assert forall|m: int| 0 <= m < at implies ascii_lower(
        #[trigger] line.subrange(m, m + needle.len()),
    ) != needle by {
        lemma_folded_match(line, needle, m);
        assert(!matches_at(low, needle, m));
    }
    at
}

/// A search misses nothing: every line of a file, as far as it is UTF-8, in which the needle
/// stands is reported, with the number that the line feeds before it give it, the column of
/// the first place and the line without the white space around it.
pub proof fn every_match_is_reported(
    b: Seq<u8>,
    needle: Seq<char>,
    from: int,
    to: int,
    at: int,
)
    requires
        text_lines(b).len() <= u32::MAX,
        is_line(b, from, to),
        valid_utf8(b.take(to)),
        valid_utf8(b.subrange(from, to)),
        stands_first(decode_utf8(b.subrange(from, to)), needle, at),
    ensures
        ({
            let line = decode_utf8(b.subrange(from, to));
            hits(text_lines(b), needle).contains(
                (
                    line_number(b, from) as u32,
                    (encode_utf8(line.take(at)).len() + 1) as u32,
                    trimmed(line),
                ),
            )
        }),
{
    let lines = text_lines(b);
    let k = line_number(b, from) - 1;
    let line = decode_utf8(b.subrange(from, to));
    every_line_is_read(b, from, to);
    vstd::utf8::encode_utf8_decode_utf8(lines[k]);
    assert(lines[k] == line);
    lemma_folded_match(line, needle, at);
    assert(matches_at(ascii_lower(line), needle, at));
    assert(line_matches(line, needle));
    let first = lemma_first_place(line, needle);
    if first < at {
        assert(ascii_lower(line.subrange(first, first + needle.len())) != needle);
    }
    if at < first {
        assert(ascii_lower(line.subrange(at, at + needle.len())) != needle);
    }
    hits_are_complete(lines, needle, k);
}

/// Nothing is reported twice, and lines are reported in their order.
pub proof fn matches_come_in_order(b: Seq<u8>, needle: Seq<char>, i: int, j: int)
    requires
        text_lines(b).len() <= u32::MAX,
        0 <= i < j < hits(text_lines(b), needle).len(),
    ensures
        hits(text_lines(b), needle)[i].0 < hits(text_lines(b), needle)[j].0,
{
    hits_are_sound(text_lines(b), needle);
}

/// A query is searched for without the white space around it and with its ASCII capitals
/// folded, and otherwise as it is.
pub proof fn needle_is_the_folded_query(before: Seq<char>, s: Seq<char>, after: Seq<char>)
    requires
        forall|k: int| 0 <= k < before.len() ==> is_white_space(#[trigger] before[k]),
        forall|k: int| 0 <= k < after.len() ==> is_white_space(#[trigger] after[k]),
        s.len() > 0,
        !is_white_space(s[0]),
        !is_white_space(s.last()),
    ensures
        needle_of(before + s + after).len() == s.len(),
        forall|i: int|
            0 <= i < s.len() ==> #[trigger] needle_of(before + s + after)[i] == ascii_lower(s)[i],
{
    trimming_undoes_padding(before, s, after);
}

/// The words of a text are its stretches of word characters that cannot be made longer.
pub proof fn words_are_longest_stretches(s: Seq<char>, k: int) -> (r: (int, int))
    requires
        0 <= k < chunks(s).len(),
    ensures
        0 <= r.0 < r.1 <= s.len(),
        chunks(s)[k] == s.subrange(r.0, r.1),
        forall|j: int| r.0 <= j < r.1 ==> is_word_char(#[trigger] s[j]),
        r.0 == 0 || !is_word_char(s[r.0 - 1]),
        r.1 == s.len() || !is_word_char(s[r.1]),
{
    lemma_longest_stretch(s, 0, k)
}

proof fn lemma_longest_stretch(s: Seq<char>, i: int, k: int) -> (r: (int, int))
    requires
        0 <= i <= s.len(),
        i == 0 || !is_word_char(s[i - 1]) || i == s.len() || !is_word_char(s[i]),
        0 <= k < chunks_from(s, i).len(),
    ensures
        i <= r.0 < r.1 <= s.len(),
        chunks_from(s, i)[k] == s.subrange(r.0, r.1),
        forall|j: int| r.0 <= j < r.1 ==> is_word_char(#[trigger] s[j]),
        r.0 == 0 || !is_word_char(s[r.0 - 1]),
        r.1 == s.len() || !is_word_char(s[r.1]),
    decreases s.len() - i,
{
    if is_word_char(s[i]) {
        lemma_run_end(s, i + 1);
        let e = run_end(s, i + 1);
        if k == 0 {
            (i, e)
        } else {
            assert(chunks_from(s, i)[k] == chunks_from(s, e)[k - 1]);
            lemma_longest_stretch(s, e, k - 1)
        }
    } else {
        lemma_longest_stretch(s, i + 1, k)
    }
}

/// Every word character of a text stands in one of its words.
pub proof fn every_word_character_is_in_a_word(s: Seq<char>, p: int)
    requires
        0 <= p < s.len(),
        is_word_char(s[p]),
    ensures
        exists|k: int| 0 <= k < chunks(s).len() && (#[trigger] chunks(s)[k]).contains(s[p]),
{
    let k = lemma_stretch_in_chunk(s, 0, p, p + 1);
    let c = chunks(s)[k];
    let one = s.subrange(p, p + 1);
    let at = choose|i: int| matches_at(c, one, i);
    assert(c.subrange(at, at + 1)[0] == c[at]);
    assert(one[0] == s[p]);
}

/// A term holds a literal: with anything before it where `front` allows it, and anything
/// after it where `back` does.
pub open spec fn holds_literal(term: Seq<char>, literal: Seq<char>, front: bool, back: bool) -> bool {
    exists|a: Seq<char>, z: Seq<char>|
        {
            &&& term == #[trigger] (a + literal + z)
            &&& front || a.len() == 0
            &&& back || z.len() == 0
        }
}

/// A pattern starts with `.*`.
pub open spec fn is_open_front(pattern: Seq<char>) -> bool {
    pattern.len() >= 2 && pattern[0] == '.' && pattern[1] == '*'
}

/// A pattern ends with a `.*` of its own.
pub open spec fn is_open_back(pattern: Seq<char>) -> bool {
    let n = pattern.len() as int;
    &&& n >= 4 || (n >= 2 && !is_open_front(pattern))
    &&& pattern[n - 2] == '.' && pattern[n - 1] == '*'
    &&& n == 2 || pattern[n - 3] != '\\'
}

/// A term of the index matches a pattern. A leading `.*` lets anything stand before, a
/// trailing one anything after; the rest is a literal, in which a backslash stands for the
/// character after it.
pub open spec fn pattern_matches(pattern: Seq<char>, term: Seq<char>) -> bool {
    let from: int = if is_open_front(pattern) {
        2
    } else {
        0
    };
    let to: int = if is_open_back(pattern) {
        pattern.len() - 2
    } else {
        pattern.len() as int
    };
    holds_literal(
        term,
        unescaped(pattern.subrange(from, to)),
        is_open_front(pattern),
        is_open_back(pattern),
    )
}

/// The pattern of a word matches exactly the terms in which the word stands.
pub proof fn pattern_finds_the_word_anywhere(word: Seq<char>, term: Seq<char>)
    requires
        word.len() > 0,
        forall|i: int| 0 <= i < word.len() ==> is_word_char(#[trigger] word[i]),
    ensures
        pattern_matches(pattern_of(word), term) <==> exists|a: Seq<char>, z: Seq<char>|
            term == #[trigger] (a + word + z),
{
    let p = pattern_of(word);
    word_text_is_not_escaped(word);
    escape_reads_back(word);
    assert(p.subrange(2, p.len() - 2) =~= word);
    assert(p[p.len() - 3] == word[word.len() - 1]);
    assert(is_word_char(word[word.len() - 1]));
    assert(is_open_front(p) && is_open_back(p));
    assert(pattern_matches(p, term) == holds_literal(term, word, true, true));
    if exists|a: Seq<char>, z: Seq<char>| term == #[trigger] (a + word + z) {
        let (a, z) = choose|a: Seq<char>, z: Seq<char>| term == #[trigger] (a + word + z);
        assert(term == a + word + z);
        assert(holds_literal(term, word, true, true));
    }
}

/// A literal is escaped so that reading it back gives it: each character that means something
/// in a pattern gets a backslash, and no other does.
pub proof fn escaped_text_is_literal(s: Seq<char>, c: char)
    ensures
        unescaped(escaped(s)) == s,
        escaped(s.push(c)) == (if c == '\\' || c == '.' || c == '+' || c == '*' || c == '?' || c == '('
            || c == ')' || c == '|' || c == '[' || c == ']' || c == '{' || c == '}' || c == '^' || c
            == '$' || c == '<' || c == '>' {
            escaped(s) + seq!['\\', c]
        } else {
            escaped(s) + seq![c]
        }),
        escaped(Seq::empty()).len() == 0,
{
    escape_reads_back(s);
    assert(s.push(c).drop_last() =~= s);
    if is_regex_special(c) {
        assert(escaped(s.push(c)) =~= escaped(s) + seq!['\\', c]);
    } else {
        assert(escaped(s.push(c)) =~= escaped(s) + seq![c]);
    }
}

/// A word of a text: a longest stretch of word characters.
pub open spec fn is_word_of(text: Seq<char>, word: Seq<char>) -> bool {
    exists|x: int, y: int|
        {
            &&& 0 <= x < y <= text.len()
            &&& word == #[trigger] text.subrange(x, y)
            &&& forall|j: int| x <= j < y ==> is_word_char(#[trigger] text[j])
            &&& x == 0 || !is_word_char(text[x - 1])
            &&& y == text.len() || !is_word_char(text[y])
        }
}

/// The candidate query misses no file: where a text holds the needle, each pattern of the
/// candidate query matches a word of the text.
pub proof fn candidates_hold_every_match(
    text: Seq<char>,
    needle: Seq<char>,
    marks: Seq<bool>,
    patterns: Seq<Seq<char>>,
    k: int,
) -> (word: Seq<char>)
    requires
        exists|a: Seq<char>, z: Seq<char>| text == #[trigger] (a + needle + z),
        marks.len() == chunks(needle).len(),
        candidates_of(needle, marks) == CandidateView::AllOf(patterns),
        0 <= k < patterns.len(),
    ensures
        is_word_of(text, word),
        pattern_matches(patterns[k], word),
{
    let (a, z) = choose|a: Seq<char>, z: Seq<char>| text == #[trigger] (a + needle + z);
    text_stands_where_it_is_put(a, needle, z);
    words_of_needle_are_in_text(text, needle);
    let c = chunks(needle);
    let all = Seq::new(c.len(), |i: int| pattern_of(c[i]));
    let i = lemma_marked_source(all, marks, k);
    let w = c[i];
    assert(inside_some(chunks(text), w));
    let j = choose|j: int| 0 <= j < chunks(text).len() && contains_text(#[trigger] chunks(text)[j], w);
    let term = chunks(text)[j];
    let (x, y) = words_are_longest_stretches(text, j);
    assert(text.subrange(x, y) == term);
    assert(is_word_of(text, term));
    let (u, v) = lemma_chunk_is_stretch(needle, 0, i);
    assert forall|m: int| 0 <= m < w.len() implies is_word_char(#[trigger] w[m]) by {
        assert(w[m] == needle[u + m]);
    }
    let at = choose|at: int| matches_at(term, w, at);
    text_is_cut_out(term, w, at);
    assert(term == term.take(at) + w + term.skip(at + w.len()));
    pattern_finds_the_word_anywhere(w, term);
    assert(pattern_matches(patterns[k], term));
    term
}

/// Where a marked text comes from.
proof fn lemma_marked_source(list: Seq<Seq<char>>, marks: Seq<bool>, k: int) -> (i: int)
    requires
        list.len() == marks.len(),
        0 <= k < marked(list, marks).len(),
    ensures
        0 <= i < list.len(),
        marks[i],
        marked(list, marks)[k] == list[i],
    decreases list.len(),
{
    let before = marked(list.drop_last(), marks.drop_last());
    if marks.last() && k == before.len() {
        list.len() - 1
    } else {
        lemma_marked_source(list.drop_last(), marks.drop_last(), k)
    }
}

/// A query without a word asks for every document; any other for those in which the pattern
/// of each of its words that the index takes matches.
pub proof fn candidate_query_asks_for_each_word(needle: Seq<char>, i: int)
    ensures
        candidates_of(needle, pattern_marks(needle)) == CandidateView::AllDocuments <==> forall|
            p: int,
        |
            0 <= p < needle.len() ==> !is_word_char(#[trigger] needle[p]),
        0 <= i < chunks(needle).len() && regex_compiles(pattern_of(chunks(needle)[i])) ==> (
        candidates_of(needle, pattern_marks(needle)) matches CandidateView::AllOf(patterns)
            && patterns.contains(pattern_of(chunks(needle)[i]))),
{
    let c = chunks(needle);
    if c.len() > 0 {
        let (x, y) = words_are_longest_stretches(needle, 0);
        assert(is_word_char(needle[x]));
    } else {
        assert forall|p: int| 0 <= p < needle.len() implies !is_word_char(#[trigger] needle[p]) by {
            if is_word_char(needle[p]) {
                every_word_character_is_in_a_word(needle, p);
            }
        }
    }
    if 0 <= i < c.len() && regex_compiles(pattern_of(c[i])) {
        let all = Seq::new(c.len(), |k: int| pattern_of(c[k]));
        lemma_marked_kept(all, pattern_marks(needle), i);
    }
}

/// A text whose mark is set is among the marked ones.
proof fn lemma_marked_kept(list: Seq<Seq<char>>, marks: Seq<bool>, i: int)
    requires
        list.len() == marks.len(),
        0 <= i < list.len(),
        marks[i],
    ensures
        marked(list, marks).contains(list[i]),
    decreases list.len(),
{
    let m = marked(list, marks);
    if i == list.len() - 1 {
        assert(m[m.len() - 1] == list[i]);
    } else {
        lemma_marked_kept(list.drop_last(), marks.drop_last(), i);
        let d = marked(list.drop_last(), marks.drop_last());
        let k = choose|k: int| 0 <= k < d.len() && d[k] == list[i];
        assert(m[k] == list[i]);
    }
}

/// The results for a file: one for each matching line, in their order, with the path, the
/// line's number, column and text, and the lengths that it is ranked by. A file without a
/// matching line gives one result without a place, if it is there and its path holds the
/// needle; else none.
pub proof fn results_tell_the_matches(doc: &Document, needle: Seq<char>, i: int)
    ensures
        ({
            let found = hits(doc.lines(), needle);
            let r = document_results(doc, needle);
            &&& found.len() > 0 ==> r.len() == found.len()
            &&& found.len() > 0 && 0 <= i < found.len() ==> {
                &&& r[i].path == doc.path@
                &&& (r[i].line, r[i].col, r[i].snippet) == found[i]
                &&& r[i].score.needle_len == encode_utf8(needle).len() as usize
                &&& r[i].score.snippet_len == encode_utf8(found[i].2).len() as usize
                &&& r[i].score.match_count == found.len() as usize
            }
            &&& found.len() == 0 ==> (r.len() == 1 <==> doc.exists && exists|n: int|
                #[trigger] stands_first(doc.path@, needle, n)) && r.len() <= 1
            &&& found.len() == 0 && r.len() == 1 ==> {
                &&& r[0].path == doc.path@
                &&& r[0].line == 0 && r[0].col == 0 && r[0].snippet.len() == 0
                &&& r[0].score.needle_len == 0 && r[0].score.snippet_len == 0
                    && r[0].score.match_count == 0
            }
        }),
{
    let p = doc.path@;
    if contains_text(ascii_lower(p), needle) {
        let at = lemma_first_place(p, needle);
        assert(stands_first(p, needle, at));
    }
    if exists|n: int| #[trigger] stands_first(p, needle, n) {
        let n = choose|n: int| #[trigger] stands_first(p, needle, n);
        lemma_folded_match(p, needle, n);
        assert(matches_at(ascii_lower(p), needle, n));
    }
}

/// The lines of a document are those of its contents; one that cannot be opened has none.
pub proof fn lines_are_those_of_the_contents(doc: &Document)
    ensures
        doc.contents matches Some(b) ==> doc.lines() == text_lines(b@),
        doc.contents is None ==> doc.lines().len() == 0,
{
}

proof fn lemma_flat_len(batches: Seq<Seq<ResultView>>)
    ensures
        total_len(batches) == batches.flatten().len(),
    decreases batches.len(),
{
    if batches.len() > 0 {
        lemma_flat_len(batches.drop_first());
    }
}

proof fn lemma_flat_take(batches: Seq<Seq<ResultView>>, n: int)
    requires
        0 < n <= batches.len(),
    ensures
        batches.take(n).flatten() == batches[0] + batches.drop_first().take(n - 1).flatten(),
{
    let t = batches.take(n);
    assert(t.drop_first() =~= batches.drop_first().take(n - 1));
    assert(t.first() == batches[0]);
}

/// What a search hands out: the results of the documents one after the other, whole
/// documents only, as many as the limit lets through. It stops where the limit is reached or
/// where the next document would exceed it.
pub proof fn search_hands_out_whole_documents(batches: Seq<Seq<ResultView>>, limit: nat) -> (n: int)
    ensures
        0 <= n <= batches.len(),
        delivered(batches, limit, 0).flatten() == batches.take(n).flatten(),
        batches.take(n).flatten().len() <= limit,
        n < batches.len() ==> batches.take(n).flatten().len() >= limit || batches.take(
            n + 1,
        ).flatten().len() > limit,
        forall|i: int|
            0 <= i < delivered(batches, limit, 0).len() ==> (#[trigger] delivered(
                batches,
                limit,
                0,
            )[i]).len() > 0,
{
    lemma_handed_out(batches, limit, 0)
}

proof fn lemma_handed_out(batches: Seq<Seq<ResultView>>, limit: nat, found: nat) -> (n: int)
    requires
        found <= limit,
    ensures
        0 <= n <= batches.len(),
        delivered(batches, limit, found).flatten() == batches.take(n).flatten(),
        found + batches.take(n).flatten().len() <= limit,
        n < batches.len() ==> found + batches.take(n).flatten().len() >= limit || found
            + batches.take(n + 1).flatten().len() > limit,
        forall|i: int|
            0 <= i < delivered(batches, limit, found).len() ==> (#[trigger] delivered(
                batches,
                limit,
                found,
            )[i]).len() > 0,
    decreases batches.len(),
{
    let out = delivered(batches, limit, found);
    assert(batches.take(0).flatten() =~= Seq::<ResultView>::empty());
    if batches.len() == 0 || found >= limit {
        0
    } else {
        let now = found + batches[0].len();
        let tail = batches.drop_first();
        let rest = delivered(tail, limit, now);
        if now > limit {
            lemma_flat_take(batches, 1);
            assert(tail.take(0).flatten() =~= Seq::<ResultView>::empty());
            assert(rest =~= Seq::empty());
            assert(out =~= Seq::empty());
            0
        } else {
            let m = lemma_handed_out(tail, limit, now);
            lemma_flat_take(batches, m + 1);
            if m + 1 < batches.len() {
                lemma_flat_take(batches, m + 2);
            }
            if batches[0].len() > 0 {
                assert(out.drop_first() =~= rest);
                assert(out.first() == batches[0]);
                assert forall|i: int| 0 <= i < out.len() implies (#[trigger] out[i]).len() > 0 by {
                    if i > 0 {
                        assert(out[i] == rest[i - 1]);
                    }
                }
            } else {
                assert(batches[0] + tail.take(m).flatten() =~= tail.take(m).flatten());
            }
            m + 1
        }
    }
}

/// Where the limit lets all results through, a search hands out every result of every
/// document, in the order of the documents. A query of white space alone gives nothing.
pub proof fn search_hands_out_everything(query: Seq<char>, docs: Seq<Document>, limit: nat)
    requires
        docs.map_values(|d: Document| document_results(&d, needle_of(query))).flatten().len()
            <= limit,
    ensures
        trimmed(query).len() > 0 ==> streamed(query, docs, limit).flatten() == docs.map_values(
            |d: Document| document_results(&d, needle_of(query)),
        ).flatten(),
        trimmed(query).len() == 0 ==> streamed(query, docs, limit).len() == 0,
{
    let n = needle_of(query);
    let batches = all_batches(docs, n);
    assert(batches =~= docs.map_values(|d: Document| document_results(&d, n)));
    let m = search_hands_out_whole_documents(batches, limit);
    lemma_flat_len(batches);
    nothing_lost_within_limit(batches, limit, 0);
    lemma_flat_non_empty(batches);
}

proof fn lemma_flat_non_empty(batches: Seq<Seq<ResultView>>)
    ensures
        non_empty(batches).flatten() == batches.flatten(),
    decreases batches.len(),
{
    if batches.len() > 0 {
        let rest = non_empty(batches.drop_first());
        lemma_flat_non_empty(batches.drop_first());
        if batches[0].len() > 0 {
            assert((seq![batches[0]] + rest).drop_first() =~= rest);
        } else {
            assert(batches.flatten() =~= batches.drop_first().flatten());
        }
    }
}

/// A running search scans while it was not cancelled and fewer results were found than the
/// limit, and hands out while no more were found.
pub proof fn run_stops_at_the_limit(run: RunView)
    ensures
        run.open() <==> !run.cancelled && run.found < run.limit,
        run.fits() <==> !run.cancelled && run.found <= run.limit,
        run.within_limit() <==> run.emitted <= run.limit && run.emitted <= run.found,
{
}

/// Matches are read one by one, and a scan looks whether it was cancelled at every 512th line.
pub proof fn matches_are_read_one_by_one(m: Seq<(u32, u32, String)>, i: int)
    requires
        0 <= i < m.len(),
    ensures
        match_views(m).len() == m.len(),
        match_views(m)[i] == (m[i].0, m[i].1, m[i].2@),
        CANCEL_CHECK_LINES == 512,
{
}

/// A candidate query is read as it is: every document, or the patterns in their order.
pub proof fn candidate_queries_are_read_as_they_are(patterns: Vec<String>)
    ensures
        CandidateQuery::AllDocuments@ == CandidateView::AllDocuments,
        CandidateQuery::AllOf(patterns)@ == CandidateView::AllOf(
            patterns@.map_values(|p: String| p@),
        ),
{
    assert(texts(patterns@) =~= patterns@.map_values(|p: String| p@));
}

/// Batches and results are read element by element.
pub proof fn results_are_read_one_by_one(b: Seq<Vec<SearchResult>>, i: int, j: int)
    requires
        0 <= i < b.len(),
        0 <= j < b[i]@.len(),
    ensures
        batch_views(b).len() == b.len(),
        batch_views(b)[i].len() == b[i]@.len(),
        batch_views(b)[i][j].path == b[i]@[j].path@,
        batch_views(b)[i][j].line == b[i]@[j].line,
        batch_views(b)[i][j].col == b[i]@[j].col,
        batch_views(b)[i][j].snippet == b[i]@[j].snippet@,
        batch_views(b)[i][j].score == b[i]@[j].score,
{
}

} // verus!
