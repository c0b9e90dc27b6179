//! Character-aligned trigrams. They pair with the line scan of `search`, which decides what
//! matches.

use vstd::prelude::*;
use vstd::utf8::encode_utf8;

use crate::text::{
    ascii_lower, byte_len, byte_len_push, byte_len_take, char_width, chars_of, contains_text,
    encode_concat, lower_char, matches_at, texts,
};

verus! {

/// The name under which the tokenizer is registered.
pub const TRIGRAM_TOKENIZER_NAME: &'static str = "trigram";

/// One token: its text, the bytes of the source between which it stands, and its number.
#[derive(Debug, Clone)]
pub struct Token {
    pub offset_from: usize,
    pub offset_to: usize,
    pub position: usize,
    pub text: String,
}

/// A token with its text taken as a sequence of characters.
pub struct TokenView {
    pub offset_from: nat,
    pub offset_to: nat,
    pub position: nat,
    pub text: Seq<char>,
}

impl View for Token {
    type V = TokenView;

    open spec fn view(&self) -> TokenView {
        TokenView {
            offset_from: self.offset_from as nat,
            offset_to: self.offset_to as nat,
            position: self.position as nat,
            text: self.text@,
        }
    }
}

/// The token before the first one.
pub open spec fn no_token() -> TokenView {
    TokenView { offset_from: 0, offset_to: 0, position: usize::MAX as nat, text: Seq::empty() }
}

impl Default for Token {
    fn default() -> (r: Token)
        ensures
            r@ == no_token(),
    {
        let r = Token {
            offset_from: 0,
            offset_to: 0,
            position: usize::MAX,
            text: String::new(),
        };
        assert(r.text@ =~= Seq::<char>::empty());
        r
    }
}

/// The trigram at character `i`, with its ASCII letters folded.
pub open spec fn trigram(s: Seq<char>, i: int) -> Seq<char> {
    ascii_lower(s.subrange(i, i + 3))
}

/// The trigrams of a text, in order. A text of fewer than three characters has none.
pub open spec fn trigrams(s: Seq<char>) -> Seq<Seq<char>> {
    Seq::new(
        if s.len() >= 3 {
            (s.len() - 2) as nat
        } else {
            0
        },
        |i: int| trigram(s, i),
    )
}

/// Token number `i` of a text.
pub open spec fn token_at(s: Seq<char>, i: int) -> TokenView {
    TokenView {
        offset_from: byte_len(s.take(i)),
        offset_to: byte_len(s.take(i + 3)),
        position: i as nat,
        text: trigram(s, i),
    }
}

/// The folded characters from `i` to `i + 3`.
fn trigram_string(v: &[char], i: usize) -> (r: String)
    requires
        i + 3 <= v@.len(),
    ensures
        r@ == trigram(v@, i as int),
{
    let mut r = String::new();
    r.push(lower_char(v[i]));
    r.push(lower_char(v[i + 1]));
    r.push(lower_char(v[i + 2]));
    assert(r@ =~= trigram(v@, i as int));
    r
}

/// Where each character starts, in bytes, and where the text ends.
fn char_offsets(text: &str, v: &[char]) -> (r: Vec<usize>)
    requires
        v@ == text@,
    ensures
        r@.len() == v@.len() + 1,
        forall|k: int| 0 <= k <= v@.len() ==> r@[k] == byte_len(v@.take(k)),
{
    let whole: usize = text.as_bytes().len();
    let mut out: Vec<usize> = Vec::new();
    let mut at: usize = 0;
    let mut i: usize = 0;
    assert(v@.take(0) =~= Seq::<char>::empty());
    out.push(0);
    while i < v.len()
        invariant
            i <= v@.len(),
            whole == byte_len(v@),
            at == byte_len(v@.take(i as int)),
            out@.len() == i + 1,
            forall|k: int| 0 <= k <= i ==> out@[k] == byte_len(v@.take(k)),
        decreases v@.len() - i,
    {
        proof {
            assert(v@.take(i + 1) =~= v@.take(i as int).push(v@[i as int]));
            byte_len_push(v@.take(i as int), v@[i as int]);
            byte_len_take(v@, i + 1);
        }
        at += char_width(v[i]);
        out.push(at);
        i += 1;
    }
    out
}

/// Makes token streams of texts.
pub struct TrigramTokenizer {}

impl Default for TrigramTokenizer {
    fn default() -> (r: TrigramTokenizer)
        ensures
            r == (TrigramTokenizer {  }),
    {
        TrigramTokenizer {  }
    }
}

/// The tokens of a text, one after the other.
pub struct TrigramTokenStream {
    chars: Vec<char>,
    offsets: Vec<usize>,
    index: usize,
    token: Token,
}

/// The state of a token stream: the text, how many tokens were taken, and the last one.
pub struct StreamView {
    pub text: Seq<char>,
    pub index: nat,
    pub token: TokenView,
}

impl View for TrigramTokenStream {
    type V = StreamView;

    closed spec fn view(&self) -> StreamView {
        StreamView { text: self.chars@, index: self.index as nat, token: self.token@ }
    }
}

impl TrigramTokenizer {
    /// The tokens of `text`.
    pub fn token_stream(&mut self, text: &str) -> (r: TrigramTokenStream)
        ensures
            r@ == (StreamView { text: text@, index: 0, token: no_token() }),
            r.wf(),
    {
        let chars = chars_of(text);
        let offsets = char_offsets(text, chars.as_slice());
        TrigramTokenStream { chars, offsets, index: 0, token: Token::default() }
    }
}

impl TrigramTokenStream {
    /// The offsets belong to the text, and no more tokens were taken than there are.
    pub closed spec fn wf(&self) -> bool {
        &&& self.index <= self.chars@.len()
        &&& self.offsets@.len() == self.chars@.len() + 1
        &&& forall|k: int|
            0 <= k <= self.chars@.len() ==> self.offsets@[k] == byte_len(self.chars@.take(k))
    }

    /// Go to the next token, if there is one.
    pub fn advance(&mut self) -> (r: bool)
        requires
            old(self).wf(),
        ensures
            final(self).wf(),
            r == (old(self)@.index + 3 <= old(self)@.text.len()),
            final(self)@ == (if r {
                StreamView {
                    text: old(self)@.text,
                    index: old(self)@.index + 1,
                    token: token_at(old(self)@.text, old(self)@.index as int),
                }
            } else {
                old(self)@
            }),
    {
        if self.chars.len() - self.index < 3 {
            return false;
        }
        self.token = Token {
            offset_from: self.offsets[self.index],
            offset_to: self.offsets[self.index + 3],
            position: self.index,
            text: trigram_string(self.chars.as_slice(), self.index),
        };
        self.index += 1;
        true
    }

    /// The current token.
    pub fn token(&self) -> (r: &Token)
        ensures
            r@ == self@.token,
    {
        &self.token
    }

    /// The current token, to be changed by a filter.
    pub fn token_mut(&mut self) -> (r: &mut Token)
        requires
            old(self).wf(),
        ensures
            r@ == old(self)@.token,
            final(self)@ == (StreamView { token: final(r)@, ..old(self)@ }),
            final(self).wf(),
    {
        &mut self.token
    }
}

/// The trigrams of a query. A query of fewer than three characters has none; the index must
/// then be asked in another way.
pub fn query_trigrams(text: &str) -> (r: Vec<String>)
    ensures
        texts(r@) == trigrams(text@),
{
    let v = chars_of(text);
    let mut out: Vec<String> = Vec::new();
    if v.len() < 3 {
        assert(texts(out@) =~= trigrams(text@));
        return out;
    }
    let count: usize = v.len() - 2;
    let mut i: usize = 0;
    while i < count
        invariant
            i <= count,
            count + 2 == v@.len(),
            out@.len() == i,
            forall|k: int| 0 <= k < i ==> (#[trigger] out@[k])@ == trigram(v@, k),
        decreases count - i,
    {
        out.push(trigram_string(v.as_slice(), i));
        i += 1;
    }
    assert(texts(out@) =~= trigrams(text@));
    out
}

/// The index and the query agree: a token stream yields exactly the trigrams that
/// `query_trigrams` gives for the same text, in the same order.
pub proof fn stream_yields_query_trigrams(s: Seq<char>, i: int)
    requires
        0 <= i,
    ensures
        i + 3 <= s.len() <==> i < trigrams(s).len(),
        i + 3 <= s.len() ==> token_at(s, i).text == trigrams(s)[i],
{
}

/// Trigrams do not depend on the case of ASCII letters.
pub proof fn trigrams_ignore_case(s: Seq<char>)
    ensures
        trigrams(ascii_lower(s)) == trigrams(s),
{
    let l = ascii_lower(s);
    assert forall|i: int| 0 <= i < trigrams(s).len() implies trigrams(l)[i] == trigrams(s)[i] by {
        assert(trigram(l, i) =~= trigram(s, i));
    }
    assert(trigrams(l) =~= trigrams(s));
}

/// Where a text holds a folded needle, it has all the needle's trigrams: asking the index
/// for them misses no text.
pub proof fn trigrams_of_needle_are_in_text(text: Seq<char>, needle: Seq<char>)
    requires
        contains_text(ascii_lower(text), needle),
    ensures
        forall|k: int|
            0 <= k < trigrams(needle).len() ==> trigrams(text).contains(
                #[trigger] trigrams(needle)[k],
            ),
{
    let low = ascii_lower(text);
    let at = choose|i: int| matches_at(low, needle, i);
    let window = low.subrange(at, at + needle.len());
    assert forall|k: int| 0 <= k < trigrams(needle).len() implies trigrams(text).contains(
        #[trigger] trigrams(needle)[k],
    ) by {
        assert(needle.subrange(k, k + 3) =~= low.subrange(at + k, at + k + 3)) by {
            assert forall|m: int| k <= m < k + 3 implies needle[m] == low[at + m] by {
                assert(window[m] == low[at + m]);
            }
        }
        assert(trigram(needle, k) == trigram(low, at + k));
        trigrams_ignore_case(text);
        assert(trigrams(text)[at + k] == trigrams(low)[at + k]);
    }
}

/// A text of `n` characters has `n - 2` trigrams, none where it is shorter than three
/// characters. Number `i` consists of the characters `i`, `i + 1` and `i + 2`, folded.
pub proof fn trigrams_are_three_characters(s: Seq<char>, i: int)
    ensures
        s.len() < 3 ==> trigrams(s).len() == 0,
        s.len() >= 3 ==> trigrams(s).len() == s.len() - 2,
        0 <= i <= s.len() - 3 ==> trigrams(s)[i] == seq![
            ascii_lower(s)[i],
            ascii_lower(s)[i + 1],
            ascii_lower(s)[i + 2],
        ],
{
    if 0 <= i <= s.len() - 3 {
        assert(trigrams(s)[i] =~= seq![
            ascii_lower(s)[i],
            ascii_lower(s)[i + 1],
            ascii_lower(s)[i + 2],
        ]);
    }
}

/// A token tells where it stands: its number, and the bytes of the source between which its
/// three characters are.
pub proof fn tokens_tell_their_place(s: Seq<char>, i: int)
    requires
        0 <= i <= s.len() - 3,
    ensures
        token_at(s, i).position == i,
        token_at(s, i).offset_from == encode_utf8(s.take(i)).len(),
        token_at(s, i).offset_to == encode_utf8(s.take(i + 3)).len(),
        encode_utf8(s).subrange(
            token_at(s, i).offset_from as int,
            token_at(s, i).offset_to as int,
        ) == encode_utf8(s.subrange(i, i + 3)),
        token_at(s, i).text == ascii_lower(s.subrange(i, i + 3)),
        no_token().text.len() == 0,
        no_token().position == usize::MAX,
        no_token().offset_from == 0,
        no_token().offset_to == 0,
        TRIGRAM_TOKENIZER_NAME@ == "trigram"@,
{
    let a = s.take(i);
    let m = s.subrange(i, i + 3);
    let z = s.skip(i + 3);
    assert(s =~= a + (m + z));
    assert(s.take(i + 3) =~= a + m);
    encode_concat(a, m + z);
    encode_concat(m, z);
    encode_concat(a, m);
    assert(encode_utf8(s).subrange(
        encode_utf8(a).len() as int,
        encode_utf8(s.take(i + 3)).len() as int,
    ) =~= encode_utf8(m));
}

/// A token is read field by field.
pub proof fn tokens_are_read_as_they_are(t: &Token)
    ensures
        t@.offset_from == t.offset_from,
        t@.offset_to == t.offset_to,
        t@.position == t.position,
        t@.text == t.text@,
{
}

} // verus!
