//! Text primitives: ASCII case folding, trimming, substring search, UTF-8 widths and
//! decimal rendering. A string is modelled by its sequence of characters.

use vstd::prelude::*;
use vstd::utf8::{encode_scalar, encode_utf8, is_ascii_chars};

verus! {

/// Whether `unicode_alphanumeric` holds of a character is what `char::is_alphanumeric`
/// answers for it: the Unicode Alphabetic and Number tables of the standard library.
pub uninterp spec fn unicode_alphanumeric(c: char) -> bool;

/// `char::is_alphanumeric`: the answer depends on the character alone.
pub assume_specification[ char::is_alphanumeric ](c: char) -> (r: bool)
    ensures
        r == unicode_alphanumeric(c),
;

/// The text that `str::to_lowercase` makes of a text: the Unicode lowercase mapping.
pub uninterp spec fn unicode_lowercase(s: Seq<char>) -> Seq<char>;

/// `str::to_lowercase`: the result depends on the text alone.
pub assume_specification[ str::to_lowercase ](s: &str) -> (r: String)
    ensures
        r@ == unicode_lowercase(s@),
;

/// `String::push` appends one character to the end of the string.
pub assume_specification[ String::push ](s: &mut String, c: char)
    ensures
        final(s)@ == old(s)@.push(c),
;

/// An ASCII capital letter becomes its small letter; any other character stays.
pub open spec fn ascii_lower_char(c: char) -> char {
    if 'A' <= c <= 'Z' {
        ((c as u8) + 32) as u8 as char
    } else {
        c
    }
}

/// ASCII case folding of a whole text. Characters outside ASCII keep their case.
pub open spec fn ascii_lower(s: Seq<char>) -> Seq<char> {
    Seq::new(s.len(), |i: int| ascii_lower_char(s[i]))
}

/// The Unicode White_Space characters.
pub open spec fn is_white_space(c: char) -> bool {
    let u = c as u32;
    ||| 0x9 <= u <= 0xd
    ||| u == 0x20
    ||| u == 0x85
    ||| u == 0xa0
    ||| u == 0x1680
    ||| 0x2000 <= u <= 0x200a
    ||| u == 0x2028
    ||| u == 0x2029
    ||| u == 0x202f
    ||| u == 0x205f
    ||| u == 0x3000
}

/// A character that can stand in a word: in ASCII a letter or a digit, elsewhere what
/// Unicode calls alphanumeric.
pub open spec fn is_word_char(c: char) -> bool {
    if c <= '\u{7f}' {
        ('a' <= c <= 'z') || ('A' <= c <= 'Z') || ('0' <= c <= '9')
    } else {
        unicode_alphanumeric(c)
    }
}

/// The text without its leading white space.
pub open spec fn trim_start(s: Seq<char>) -> Seq<char>
    decreases s.len(),
{
    if s.len() > 0 && is_white_space(s[0]) {
        trim_start(s.drop_first())
    } else {
        s
    }
}

/// The text without its trailing white space.
pub open spec fn trim_end(s: Seq<char>) -> Seq<char>
    decreases s.len(),
{
    if s.len() > 0 && is_white_space(s.last()) {
        trim_end(s.drop_last())
    } else {
        s
    }
}

/// The text without the white space at its two ends.
pub open spec fn trimmed(s: Seq<char>) -> Seq<char> {
    trim_end(trim_start(s))
}

/// `needle` stands in `hay` from position `i` on.
pub open spec fn matches_at(hay: Seq<char>, needle: Seq<char>, i: int) -> bool {
    &&& 0 <= i
    &&& i + needle.len() <= hay.len()
    &&& hay.subrange(i, i + needle.len()) == needle
}

/// `needle` stands somewhere in `hay`.
pub open spec fn contains_text(hay: Seq<char>, needle: Seq<char>) -> bool {
    exists|i: int| matches_at(hay, needle, i)
}

/// `i` is the first position at which `needle` stands in `hay`.
pub open spec fn first_match(hay: Seq<char>, needle: Seq<char>, i: int) -> bool {
    &&& matches_at(hay, needle, i)
    &&& forall|j: int| 0 <= j < i ==> !matches_at(hay, needle, j)
}

/// The lowercase text used for names that the engine compares without case: ASCII text
/// is folded letter by letter, any other text by the Unicode mapping.
pub open spec fn lowercase(s: Seq<char>) -> Seq<char> {
    if is_ascii_chars(s) {
        ascii_lower(s)
    } else {
        unicode_lowercase(s)
    }
}

/// How many bytes the UTF-8 form of a text takes.
pub open spec fn byte_len(s: Seq<char>) -> nat {
    encode_utf8(s).len()
}

/// The characters of a string.
pub fn chars_of(s: &str) -> (v: Vec<char>)
    ensures
        v@ == s@,
{
    let mut v: Vec<char> = Vec::new();
    for c in it: s.chars()
        invariant
            v@ == s@.take(it.index()),
            it.seq() == s@,
    {
        proof {
            assert(s@.take(it.index() + 1) =~= s@.take(it.index()).push(c));
        }
        v.push(c);
    }
    assert(s@.take(s@.len() as int) =~= s@);
    v
}

/// The string made of the characters from `from` up to `to`.
pub fn string_of(v: &[char], from: usize, to: usize) -> (s: String)
    requires
        from <= to <= v@.len(),
    ensures
        s@ == v@.subrange(from as int, to as int),
{
    let mut s = String::new();
    let mut i: usize = from;
    while i < to
        invariant
            from <= i <= to <= v@.len(),
            s@ == v@.subrange(from as int, i as int),
        decreases to - i,
    {
        s.push(v[i]);
        i += 1;
        assert(v@.subrange(from as int, i as int) =~= v@.subrange(from as int, i - 1).push(
            v@[i - 1],
        ));
    }
    s
}

/// Fold one character.
pub fn lower_char(c: char) -> (r: char)
    ensures
        r == ascii_lower_char(c),
{
    if c >= 'A' && c <= 'Z' {
        ((c as u8) + 32) as char
    } else {
        c
    }
}

/// ASCII case folding of a list of characters.
pub fn lower_chars(v: &[char]) -> (r: Vec<char>)
    ensures
        r@ == ascii_lower(v@),
{
    let mut r: Vec<char> = Vec::new();
    let mut i: usize = 0;
    while i < v.len()
        invariant
            i <= v@.len(),
            r@.len() == i,
            forall|k: int| 0 <= k < i ==> r@[k] == ascii_lower_char(v@[k]),
        decreases v@.len() - i,
    {
        r.push(lower_char(v[i]));
        i += 1;
    }
    assert(r@ =~= ascii_lower(v@));
    r
}

/// ASCII case folding of a string.
pub fn to_ascii_lowercase(s: &str) -> (r: String)
    ensures
        r@ == ascii_lower(s@),
{
    let v = chars_of(s);
    let l = lower_chars(v.as_slice());
    let r = string_of(l.as_slice(), 0, l.len());
    assert(r@ =~= ascii_lower(s@));
    r
}

/// Whether a character is white space.
pub fn white_space(c: char) -> (r: bool)
    ensures
        r == is_white_space(c),
{
    let u: u32 = c as u32;
    (u >= 0x9 && u <= 0xd) || u == 0x20 || u == 0x85 || u == 0xa0 || u == 0x1680 || (u >= 0x2000
        && u <= 0x200a) || u == 0x2028 || u == 0x2029 || u == 0x202f || u == 0x205f || u == 0x3000
}

/// Whether a character can stand in a word.
pub fn word_char(c: char) -> (r: bool)
    ensures
        r == is_word_char(c),
{
    if c <= '\u{7f}' {
        (c >= 'a' && c <= 'z') || (c >= 'A' && c <= 'Z') || (c >= '0' && c <= '9')
    } else {
        c.is_alphanumeric()
    }
}

/// Trimming keeps a contiguous part of the text: what stands before and after it is
/// white space, and it neither starts nor ends with white space.
pub proof fn trimmed_is_span(s: Seq<char>)
    ensures
        exists|from: int, to: int|
            {
                &&& 0 <= from <= to <= s.len()
                &&& #[trigger] s.subrange(from, to) == trimmed(s)
                &&& forall|k: int| 0 <= k < from ==> is_white_space(#[trigger] s[k])
                &&& forall|k: int| to <= k < s.len() ==> is_white_space(#[trigger] s[k])
                &&& from < to ==> !is_white_space(s[from]) && !is_white_space(s[to - 1])
            },
{
    let from = lemma_trim_start(s);
    let t = trim_start(s);
    let len = lemma_trim_end(t);
    let to = from + len;
    assert(s.subrange(from, to) =~= t.subrange(0, len));
    assert forall|k: int| to <= k < s.len() implies is_white_space(#[trigger] s[k]) by {
        assert(t[k - from] == s[k]);
    }
    if from < to {
        assert(t[0] == s[from]);
        assert(t[len - 1] == s[to - 1]);
    }
}

/// How many characters `trim_start` drops.
proof fn lemma_trim_start(s: Seq<char>) -> (from: int)
    ensures
        0 <= from <= s.len(),
        trim_start(s) == s.subrange(from, s.len() as int),
        forall|k: int| 0 <= k < from ==> is_white_space(#[trigger] s[k]),
        from < s.len() ==> !is_white_space(s[from]),
    decreases s.len(),
{
    if s.len() > 0 && is_white_space(s[0]) {
        let d = s.drop_first();
        let from = lemma_trim_start(d);
        assert(d.subrange(from, d.len() as int) =~= s.subrange(from + 1, s.len() as int));
        assert forall|k: int| 0 <= k < from + 1 implies is_white_space(#[trigger] s[k]) by {
            if k > 0 {
                assert(d[k - 1] == s[k]);
            }
        }
        from + 1
    } else {
        assert(s.subrange(0, s.len() as int) =~= s);
        0
    }
}

/// How many characters `trim_end` keeps.
proof fn lemma_trim_end(s: Seq<char>) -> (to: int)
    ensures
        0 <= to <= s.len(),
        trim_end(s) == s.subrange(0, to),
        forall|k: int| to <= k < s.len() ==> is_white_space(#[trigger] s[k]),
        to > 0 ==> !is_white_space(s[to - 1]),
    decreases s.len(),
{
    if s.len() > 0 && is_white_space(s.last()) {
        let d = s.drop_last();
        let to = lemma_trim_end(d);
        assert(d.subrange(0, to) =~= s.subrange(0, to));
        assert forall|k: int| to <= k < s.len() implies is_white_space(#[trigger] s[k]) by {
            if k < d.len() {
                assert(d[k] == s[k]);
            }
        }
        to
    } else {
        assert(s.subrange(0, s.len() as int) =~= s);
        s.len() as int
    }
}

/// A part of a text with white space around it and none at its own ends is what trimming
/// leaves of the text.
proof fn lemma_span_is_trimmed(s: Seq<char>, from: int, to: int)
    requires
        0 <= from <= to <= s.len(),
        forall|k: int| 0 <= k < from ==> is_white_space(#[trigger] s[k]),
        forall|k: int| to <= k < s.len() ==> is_white_space(#[trigger] s[k]),
        from < to ==> !is_white_space(s[from]) && !is_white_space(s[to - 1]),
        from == to ==> to == s.len(),
    ensures
        trimmed(s) == s.subrange(from, to),
{
    let f2 = lemma_trim_start(s);
    assert(f2 == from) by {
        if f2 < from {
            assert(is_white_space(s[f2]));
        }
        if f2 > from {
            assert(is_white_space(s[from]));
        }
    }
    let t = trim_start(s);
    let len = lemma_trim_end(t);
    assert(len == to - from) by {
        if len < to - from {
            assert(t[to - 1 - from] == s[to - 1]);
            assert(is_white_space(t[to - 1 - from]));
        }
        if len > to - from {
            assert(t[len - 1] == s[from + len - 1]);
            assert(is_white_space(s[from + len - 1]));
        }
    }
    assert(t.subrange(0, len) =~= s.subrange(from, to));
}

/// The part of a list of characters that trimming leaves.
pub fn trim_range(v: &[char]) -> (r: (usize, usize))
    ensures
        r.0 <= r.1 <= v@.len(),
        v@.subrange(r.0 as int, r.1 as int) == trimmed(v@),
{
    let mut from: usize = 0;
    while from < v.len() && white_space(v[from])
        invariant
            from <= v@.len(),
            forall|k: int| 0 <= k < from ==> is_white_space(#[trigger] v@[k]),
        decreases v@.len() - from,
    {
        from += 1;
    }
    let mut to: usize = v.len();
    while to > from && white_space(v[to - 1])
        invariant
            from <= to <= v@.len(),
            from < v@.len() ==> !is_white_space(v@[from as int]),
            forall|k: int| to <= k < v@.len() ==> is_white_space(#[trigger] v@[k]),
        decreases to,
    {
        to -= 1;
    }
    proof {
        lemma_span_is_trimmed(v@, from as int, to as int);
    }
    (from, to)
}

/// The string without the white space at its two ends.
pub fn trim(s: &str) -> (r: String)
    ensures
        r@ == trimmed(s@),
{
    let v = chars_of(s);
    let (from, to) = trim_range(v.as_slice());
    string_of(v.as_slice(), from, to)
}

/// Whether `needle` stands in `hay` from position `i` on.
pub fn match_at(hay: &[char], needle: &[char], i: usize) -> (r: bool)
    requires
        i + needle@.len() <= hay@.len(),
    ensures
        r == matches_at(hay@, needle@, i as int),
{
    let len: usize = hay.len();
    let mut k: usize = 0;
    while k < needle.len()
        invariant
            i + needle@.len() <= hay@.len() == len,
            k <= needle@.len(),
            forall|j: int| 0 <= j < k ==> hay@[i + j] == needle@[j],
        decreases needle@.len() - k,
    {
        if hay[i + k] != needle[k] {
            proof {
                let sub = hay@.subrange(i as int, i + needle@.len());
                assert(sub[k as int] == hay@[i + k]);
            }
            return false;
        }
        k += 1;
    }
    assert(hay@.subrange(i as int, i + needle@.len()) =~= needle@);
    true
}

/// The first position from `start` on at which `needle` stands in `hay`.
pub fn find_from(hay: &[char], needle: &[char], start: usize) -> (r: Option<usize>)
    requires
        start <= hay@.len(),
    ensures
        match r {
            Some(i) => start <= i && matches_at(hay@, needle@, i as int) && forall|j: int|
                start <= j < i ==> !matches_at(hay@, needle@, j),
            None => forall|j: int| start <= j ==> !matches_at(hay@, needle@, j),
        },
{
    if needle.len() > hay.len() - start {
        return None;
    }
    let last: usize = hay.len() - needle.len();
    let mut i: usize = start;
    while i <= last
        invariant
            start <= i <= last + 1,
            last + needle@.len() == hay@.len(),
            forall|j: int| start <= j < i ==> !matches_at(hay@, needle@, j),
        decreases last + 1 - i,
    {
        if match_at(hay, needle, i) {
            return Some(i);
        }
        if i == last {
            return None;
        }
        i += 1;
    }
    None
}

/// The first position at which `needle` stands in `hay`.
pub fn find(hay: &[char], needle: &[char]) -> (r: Option<usize>)
    ensures
        match r {
            Some(i) => first_match(hay@, needle@, i as int),
            None => !contains_text(hay@, needle@),
        },
{
    find_from(hay, needle, 0)
}

/// Whether two strings hold the same characters.
pub fn same_text(a: &str, b: &str) -> (r: bool)
    ensures
        r == (a@ == b@),
{
    let x = a.as_bytes();
    let y = b.as_bytes();
    proof {
        vstd::utf8::encode_utf8_decode_utf8(a@);
        vstd::utf8::encode_utf8_decode_utf8(b@);
    }
    if x.len() != y.len() {
        return false;
    }
    let mut i: usize = 0;
    while i < x.len()
        invariant
            i <= x@.len(),
            x@.len() == y@.len(),
            x@ == encode_utf8(a@),
            y@ == encode_utf8(b@),
            forall|k: int| 0 <= k < i ==> x@[k] == y@[k],
        decreases x@.len() - i,
    {
        if x[i] != y[i] {
            return false;
        }
        i += 1;
    }
    assert(x@ =~= y@);
    true
}

/// The lowercase form of a name.
pub fn make_lowercase(s: &str) -> (r: String)
    ensures
        r@ == lowercase(s@),
{
    if s.is_ascii() {
        to_ascii_lowercase(s)
    } else {
        s.to_lowercase()
    }
}

/// Whether the text `s` is one of the texts of `list`.
pub open spec fn is_one_of(list: Seq<&'static str>, s: Seq<char>) -> bool {
    exists|i: int| 0 <= i < list.len() && (#[trigger] list[i])@ == s
}

/// The texts of a list of strings.
pub open spec fn texts(v: Seq<String>) -> Seq<Seq<char>> {
    Seq::new(v.len(), |i: int| v[i]@)
}

/// The texts whose mark is set, in order.
pub open spec fn marked(list: Seq<Seq<char>>, marks: Seq<bool>) -> Seq<Seq<char>>
    decreases list.len(),
{
    if list.len() == 0 || marks.len() != list.len() {
        Seq::empty()
    } else if marks.last() {
        marked(list.drop_last(), marks.drop_last()).push(list.last())
    } else {
        marked(list.drop_last(), marks.drop_last())
    }
}

/// The UTF-8 form of two texts in a row is the two UTF-8 forms in a row.
pub proof fn encode_concat(a: Seq<char>, b: Seq<char>)
    ensures
        encode_utf8(a + b) == encode_utf8(a) + encode_utf8(b),
    decreases a.len(),
{
    if a.len() == 0 {
        assert(a + b =~= b);
        assert(encode_utf8(a) + encode_utf8(b) =~= encode_utf8(b));
    } else {
        encode_concat(a.drop_first(), b);
        assert((a + b).drop_first() =~= a.drop_first() + b);
        assert((a + b)[0] == a[0]);
        assert(encode_utf8(a + b) =~= encode_utf8(a) + encode_utf8(b));
    }
}

/// The bytes of a text that ends with `c`.
pub proof fn byte_len_push(s: Seq<char>, c: char)
    ensures
        byte_len(s.push(c)) == byte_len(s) + encode_scalar(c as u32).len(),
{
    let one = seq![c];
    assert(s.push(c) =~= s + one);
    encode_concat(s, one);
    assert(one.drop_first() =~= Seq::<char>::empty());
    assert(encode_utf8(one.drop_first()).len() == 0);
    assert(encode_utf8(one) =~= encode_scalar(c as u32));
}

/// A beginning of a text takes no more bytes than the text, and at least as many bytes as
/// it has characters.
pub proof fn byte_len_take(s: Seq<char>, n: int)
    requires
        0 <= n <= s.len(),
    ensures
        n <= byte_len(s.take(n)) <= byte_len(s),
    decreases n,
{
    assert(s =~= s.take(n) + s.skip(n));
    encode_concat(s.take(n), s.skip(n));
    if n > 0 {
        byte_len_take(s, n - 1);
        assert(s.take(n) =~= s.take(n - 1).push(s[n - 1]));
        byte_len_push(s.take(n - 1), s[n - 1]);
    }
}

/// How many bytes the UTF-8 form of a character takes.
pub fn char_width(c: char) -> (r: usize)
    ensures
        r == encode_scalar(c as u32).len(),
        1 <= r <= 4,
{
    let u: u32 = c as u32;
    if u < 0x80 {
        1
    } else if u < 0x800 {
        2
    } else if u < 0x10000 {
        3
    } else {
        4
    }
}

/// How many bytes the first `to` characters take.
pub fn bytes_before(v: &[char], to: usize) -> (r: usize)
    requires
        to <= v@.len(),
        byte_len(v@) <= usize::MAX,
    ensures
        r == byte_len(v@.take(to as int)),
{
    let mut n: usize = 0;
    let mut i: usize = 0;
    assert(v@.take(0) =~= Seq::<char>::empty());
    while i < to
        invariant
            i <= to <= v@.len(),
            byte_len(v@) <= usize::MAX,
            n == byte_len(v@.take(i as int)),
        decreases to - i,
    {
        proof {
            assert(v@.take(i + 1) =~= v@.take(i as int).push(v@[i as int]));
            byte_len_push(v@.take(i as int), v@[i as int]);
            byte_len_take(v@, i + 1);
        }
        n += char_width(v[i]);
        i += 1;
    }
    n
}

/// The digit of a number below ten.
pub open spec fn digit_char(d: int) -> char {
    (('0' as u8) + d) as u8 as char
}

/// A natural number in decimal.
pub open spec fn decimal(n: nat) -> Seq<char>
    decreases n,
{
    if n < 10 {
        seq![digit_char(n as int)]
    } else {
        decimal(n / 10).push(digit_char((n % 10) as int))
    }
}

/// `count` zeros.
pub open spec fn zeros(count: int) -> Seq<char> {
    Seq::new(
        if count > 0 {
            count as nat
        } else {
            0
        },
        |i: int| '0',
    )
}

/// An integer in decimal, filled up with zeros between its sign and its digits to at least
/// `width` characters.
pub open spec fn padded(n: int, width: int) -> Seq<char> {
    if n < 0 {
        seq!['-'] + zeros(width - 1 - decimal((-n) as nat).len()) + decimal((-n) as nat)
    } else {
        zeros(width - decimal(n as nat).len()) + decimal(n as nat)
    }
}

/// The digits of a number.
pub fn decimal_digits(n: u64) -> (r: Vec<char>)
    ensures
        r@ == decimal(n as nat),
    decreases n,
{
    if n < 10 {
        let mut r: Vec<char> = Vec::new();
        r.push((48 + n as u8) as char);
        assert(r@ =~= decimal(n as nat));
        r
    } else {
        let mut r = decimal_digits(n / 10);
        r.push((48 + (n % 10) as u8) as char);
        r
    }
}

/// Append the characters of a list to a string.
pub fn append_chars(s: &mut String, v: &[char])
    ensures
        final(s)@ == old(s)@ + v@,
{
    let mut i: usize = 0;
    let ghost before = s@;
    assert(before + v@.take(0) =~= before);
    while i < v.len()
        invariant
            i <= v@.len(),
            s@ == before + v@.take(i as int),
        decreases v@.len() - i,
    {
        s.push(v[i]);
        i += 1;
        assert(before + v@.take(i as int) =~= (before + v@.take(i - 1)).push(v@[i - 1]));
    }
    assert(v@.take(v@.len() as int) =~= v@);
}

/// Append a string to another.
pub fn append_str(s: &mut String, t: &str)
    ensures
        final(s)@ == old(s)@ + t@,
{
    let v = chars_of(t);
    append_chars(s, v.as_slice());
}

/// A text ends with another.
pub open spec fn ends_with_text(s: Seq<char>, end: Seq<char>) -> bool {
    end.len() <= s.len() && s.skip(s.len() - end.len()) == end
}

/// A text starts with another.
pub open spec fn starts_with_text(s: Seq<char>, start: Seq<char>) -> bool {
    start.len() <= s.len() && s.take(start.len() as int) == start
}

/// Whether a string ends with another.
pub fn has_end(s: &str, end: &str) -> (r: bool)
    ensures
        r == ends_with_text(s@, end@),
{
    let v = chars_of(s);
    let e = chars_of(end);
    if e.len() > v.len() {
        return false;
    }
    let at: usize = v.len() - e.len();
    assert(s@.skip(at as int) =~= s@.subrange(at as int, at + e@.len()));
    match_at(v.as_slice(), e.as_slice(), at)
}

/// Whether a string starts with another.
pub fn has_start(s: &str, start: &str) -> (r: bool)
    ensures
        r == starts_with_text(s@, start@),
{
    let v = chars_of(s);
    let b = chars_of(start);
    if b.len() > v.len() {
        return false;
    }
    assert(s@.take(b@.len() as int) =~= s@.subrange(0, b@.len() as int));
    match_at(v.as_slice(), b.as_slice(), 0)
}

/// Append an integer in decimal, filled up with zeros to `width` characters.
pub fn append_padded(s: &mut String, n: i64, width: usize)
    ensures
        final(s)@ == old(s)@ + padded(n as int, width as int),
{
    let ghost before = s@;
    let mut room: usize = width;
    let magnitude: u64;
    if n < 0 {
        s.push('-');
        if room > 0 {
            room -= 1;
        }
        magnitude = (-(n + 1)) as u64 + 1;
    } else {
        magnitude = n as u64;
    }
    let digits = decimal_digits(magnitude);
    let ghost signed = s@;
    let count: usize = if room > digits.len() {
        room - digits.len()
    } else {
        0
    };
    let mut i: usize = 0;
    assert(signed + zeros(0) =~= signed);
    while i < count
        invariant
            i <= count,
            s@ == signed + zeros(i as int),
        decreases count - i,
    {
        s.push('0');
        i += 1;
        assert(signed + zeros(i as int) =~= (signed + zeros(i - 1)).push('0'));
    }
    append_chars(s, digits.as_slice());
    assert(s@ =~= before + padded(n as int, width as int));
}

/// Folding turns the 26 capital letters of ASCII into the small ones and leaves every other
/// character as it is, at its place.
pub proof fn folding_touches_capitals_only(s: Seq<char>, i: int)
    requires
        0 <= i < s.len(),
    ensures
        ascii_lower(s).len() == s.len(),
        'A' <= s[i] <= 'Z' ==> ascii_lower(s)[i] as u32 == s[i] as u32 + 32,
        !('A' <= s[i] <= 'Z') ==> ascii_lower(s)[i] == s[i],
{
}

/// Of two characters that folding makes equal, one is the other, or they are the two cases
/// of one ASCII letter.
pub proof fn folding_joins_cases_only(c: char, d: char)
    requires
        ascii_lower_char(c) == ascii_lower_char(d),
    ensures
        c == d || ('A' <= c <= 'Z' && d as u32 == c as u32 + 32) || ('A' <= d <= 'Z' && c as u32
            == d as u32 + 32),
{
}

/// In ASCII the blank, the tab and the four line-breaking controls are white space and
/// nothing that is printed is; elsewhere only the spaces and separators of Unicode are.
pub proof fn white_space_is_blank(c: char)
    ensures
        c <= '\u{7f}' ==> (is_white_space(c) <==> (c == ' ' || c == '\t' || c == '\n' || c
            == '\u{b}' || c == '\u{c}' || c == '\r')),
        c > '\u{7f}' ==> (is_white_space(c) <==> (c == '\u{85}' || c == '\u{a0}' || c
            == '\u{1680}' || ('\u{2000}' <= c <= '\u{200a}') || c == '\u{2028}' || c == '\u{2029}'
            || c == '\u{202f}' || c == '\u{205f}' || c == '\u{3000}')),
{
}

/// Trimming takes exactly the white space off the two ends: put round a text that neither
/// starts nor ends with white space, it is all that goes.
pub proof fn trimming_undoes_padding(before: Seq<char>, s: Seq<char>, after: Seq<char>)
    requires
        forall|k: int| 0 <= k < before.len() ==> is_white_space(#[trigger] before[k]),
        forall|k: int| 0 <= k < after.len() ==> is_white_space(#[trigger] after[k]),
        s.len() > 0,
        !is_white_space(s[0]),
        !is_white_space(s.last()),
    ensures
        trimmed(before + s + after) == s,
{
    let all = before + s + after;
    let from = before.len() as int;
    let to = from + s.len();
    assert forall|k: int| 0 <= k < from implies is_white_space(#[trigger] all[k]) by {
        assert(all[k] == before[k]);
    }
    assert forall|k: int| to <= k < all.len() implies is_white_space(#[trigger] all[k]) by {
        assert(all[k] == after[k - to]);
    }
    assert(all[from] == s[0]);
    assert(all[to - 1] == s.last());
    lemma_span_is_trimmed(all, from, to);
    assert(all.subrange(from, to) =~= s);
}

/// A text of white space alone is trimmed to nothing.
pub proof fn blanks_are_trimmed_to_nothing(s: Seq<char>)
    requires
        forall|k: int| 0 <= k < s.len() ==> is_white_space(#[trigger] s[k]),
    ensures
        trimmed(s).len() == 0,
{
    lemma_span_is_trimmed(s, s.len() as int, s.len() as int);
}

/// The characters of words: in ASCII the letters and digits and nothing else, elsewhere what
/// `char::is_alphanumeric` says.
pub proof fn words_are_letters_and_digits(c: char)
    ensures
        c <= '\u{7f}' ==> (is_word_char(c) <==> ('0' <= c <= '9') || ('A' <= c <= 'Z') || ('a' <= c
            <= 'z')),
        c > '\u{7f}' ==> is_word_char(c) == unicode_alphanumeric(c),
{
}

/// A text stands wherever it was put: between any two others, from where the first ends.
pub proof fn text_stands_where_it_is_put(before: Seq<char>, s: Seq<char>, after: Seq<char>)
    ensures
        matches_at(before + s + after, s, before.len() as int),
        contains_text(before + s + after, s),
        starts_with_text(s + after, s),
        ends_with_text(before + s, s),
{
    let all = before + s + after;
    assert(all.subrange(before.len() as int, (before.len() + s.len()) as int) =~= s);
    assert(matches_at(all, s, before.len() as int));
    assert((s + after).take(s.len() as int) =~= s);
    assert((before + s).skip((before + s).len() - s.len()) =~= s);
}

/// Where a text stands it can be cut out: what is before it, the text and what is after it
/// make up the whole. The first place is before every other.
pub proof fn text_is_cut_out(hay: Seq<char>, needle: Seq<char>, i: int)
    requires
        matches_at(hay, needle, i),
    ensures
        0 <= i <= hay.len() - needle.len(),
        hay == hay.take(i) + needle + hay.skip(i + needle.len()),
        first_match(hay, needle, i) ==> forall|a: Seq<char>, b: Seq<char>|
            #![trigger a + needle + b]
            hay == a + needle + b ==> i <= a.len(),
        exists|j: int| first_match(hay, needle, j),
{
    assert forall|k: int| i <= k < i + needle.len() implies hay[k] == needle[k - i] by {
        assert(hay.subrange(i, i + needle.len())[k - i] == hay[k]);
    }
    assert(hay =~= hay.take(i) + needle + hay.skip(i + needle.len()));
    if first_match(hay, needle, i) {
        assert forall|a: Seq<char>, b: Seq<char>|
            #![trigger a + needle + b]
            hay == a + needle + b implies i <= a.len() by {
            text_stands_where_it_is_put(a, needle, b);
            if a.len() < i {
                assert(!matches_at(hay, needle, a.len() as int));
            }
        }
    }
    lemma_first_exists(hay, needle, i);
}

proof fn lemma_first_exists(hay: Seq<char>, needle: Seq<char>, i: int)
    requires
        matches_at(hay, needle, i),
    ensures
        exists|j: int| first_match(hay, needle, j),
    decreases i,
{
    if exists|k: int| 0 <= k < i && matches_at(hay, needle, k) {
        let k = choose|k: int| 0 <= k < i && matches_at(hay, needle, k);
        lemma_first_exists(hay, needle, k);
    } else {
        assert(first_match(hay, needle, i));
    }
}

/// A text that starts or ends with another is that text with something after or before it.
pub proof fn ends_of_a_text_are_cut_off(s: Seq<char>, part: Seq<char>)
    ensures
        starts_with_text(s, part) ==> s == part + s.skip(part.len() as int),
        ends_with_text(s, part) ==> s == s.take(s.len() - part.len()) + part,
        starts_with_text(s, part) || ends_with_text(s, part) ==> part.len() <= s.len(),
{
    if starts_with_text(s, part) {
        assert(s =~= s.take(part.len() as int) + s.skip(part.len() as int));
    }
    if ends_with_text(s, part) {
        assert(s =~= s.take(s.len() - part.len()) + s.skip(s.len() - part.len()));
    }
}

/// Names of ASCII are compared with their capital letters folded, any other by Unicode's own
/// mapping.
pub proof fn names_are_folded(s: Seq<char>)
    ensures
        is_ascii_chars(s) ==> {
            &&& lowercase(s).len() == s.len()
            &&& forall|i: int|
                0 <= i < s.len() && 'A' <= s[i] <= 'Z' ==> (#[trigger] lowercase(s)[i]) as u32
                    == s[i] as u32 + 32
            &&& forall|i: int|
                0 <= i < s.len() && !('A' <= s[i] <= 'Z') ==> (#[trigger] lowercase(s)[i]) == s[i]
        },
        !is_ascii_chars(s) ==> lowercase(s) == unicode_lowercase(s),
{
}

/// The width of a text is that of its UTF-8 form, and adds up over its parts: one byte for
/// an ASCII character, up to four for others.
pub proof fn width_adds_up(a: Seq<char>, c: char, b: Seq<char>)
    ensures
        byte_len(a) == encode_utf8(a).len(),
        byte_len(a + b) == byte_len(a) + byte_len(b),
        byte_len(seq![c]) == (if c <= '\u{7f}' {
            1int
        } else if c <= '\u{7ff}' {
            2
        } else if c <= '\u{ffff}' {
            3
        } else {
            4
        }),
{
    encode_concat(a, b);
    let none = Seq::<char>::empty();
    byte_len_push(none, c);
    assert(none.push(c) =~= seq![c]);
    assert(encode_utf8(none).len() == 0);
}

/// The strings of a list as texts: as many, each in its place.
pub proof fn texts_are_the_strings(v: Seq<String>, i: int)
    requires
        0 <= i < v.len(),
    ensures
        texts(v).len() == v.len(),
        texts(v)[i] == v[i]@,
{
}

/// A list holds a text if it stands at some place of it.
pub proof fn listed_means_at_some_place(list: Seq<&'static str>, s: Seq<char>)
    ensures
        is_one_of(list, s) <==> list.map_values(|x: &'static str| x@).contains(s),
{
    let m = list.map_values(|x: &'static str| x@);
    if is_one_of(list, s) {
        let i = choose|i: int| 0 <= i < list.len() && (#[trigger] list[i])@ == s;
        assert(m[i] == s);
    }
    if m.contains(s) {
        let i = choose|i: int| 0 <= i < m.len() && m[i] == s;
        assert(list[i]@ == s);
    }
}

/// The marked texts of a list are those at the places whose mark is set, in their order.
pub proof fn marked_texts_are_picked(list: Seq<Seq<char>>, marks: Seq<bool>)
    requires
        list.len() == marks.len(),
    ensures
        marked(list, marks) == list.zip_with(marks).filter(
            |p: (Seq<char>, bool)| p.1,
        ).map_values(|p: (Seq<char>, bool)| p.0),
    decreases list.len(),
{
    reveal(Seq::filter);
    let z = list.zip_with(marks);
    let keep = |p: (Seq<char>, bool)| p.1;
    let text = |p: (Seq<char>, bool)| p.0;
    if list.len() > 0 {
        marked_texts_are_picked(list.drop_last(), marks.drop_last());
        assert(z.drop_last() =~= list.drop_last().zip_with(marks.drop_last()));
        assert(z.last() == (list.last(), marks.last()));
        let f = z.drop_last().filter(keep);
        assert(f.push(z.last()).map_values(text) =~= f.map_values(text).push(list.last()));
    } else {
        assert(z.filter(keep).map_values(text) =~= Seq::<Seq<char>>::empty());
    }
}

/// The number that some decimal digits stand for.
pub open spec fn number_read(digits: Seq<char>) -> nat {
    digits.fold_left(
        0nat,
        |n: nat, c: char|
            if '0' <= c <= '9' {
                (n * 10 + (c as u32 - '0' as u32)) as nat
            } else {
                n
            },
    )
}

/// A number in decimal consists of digits, has no needless zero in front, and reads back as
/// the number.
pub proof fn decimal_reads_back(n: nat)
    ensures
        number_read(decimal(n)) == n,
        decimal(n).len() > 0,
        forall|i: int| 0 <= i < decimal(n).len() ==> '0' <= #[trigger] decimal(n)[i] <= '9',
        n > 0 ==> decimal(n)[0] != '0',
    decreases n,
{
    let d = decimal(n);
    if n < 10 {
        assert(d.drop_last() =~= Seq::<char>::empty());
        reveal_with_fuel(Seq::fold_left, 2);
    } else {
        decimal_reads_back(n / 10);
        assert(d.drop_last() =~= decimal(n / 10));
        assert(n == (n / 10) * 10 + n % 10);
    }
}

/// A padded number is its decimal form behind zeros, wide enough, and no wider than it must
/// be; the sign of a negative number comes first.
pub proof fn padding_is_zeros(n: int, width: int)
    ensures
        n >= 0 ==> exists|z: Seq<char>|
            {
                &&& padded(n, width) == #[trigger] (z + decimal(n as nat))
                &&& forall|i: int| 0 <= i < z.len() ==> z[i] == '0'
                &&& z.len() + decimal(n as nat).len() >= width
                &&& z.len() > 0 ==> z.len() + decimal(n as nat).len() == width
            },
        n < 0 ==> exists|z: Seq<char>|
            {
                &&& padded(n, width) == #[trigger] (seq!['-'] + z + decimal((-n) as nat))
                &&& forall|i: int| 0 <= i < z.len() ==> z[i] == '0'
                &&& 1 + z.len() + decimal((-n) as nat).len() >= width
                &&& z.len() > 0 ==> 1 + z.len() + decimal((-n) as nat).len() == width
            },
{
    if n >= 0 {
        let z = zeros(width - decimal(n as nat).len());
        assert(padded(n, width) == z + decimal(n as nat));
    } else {
        let z = zeros(width - 1 - decimal((-n) as nat).len());
        assert(padded(n, width) == seq!['-'] + z + decimal((-n) as nat));
    }
}

} // verus!
