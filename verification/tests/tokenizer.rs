use sakuin::tokenizer::{query_trigrams, Token, TrigramTokenizer, TRIGRAM_TOKENIZER_NAME};

fn tokenize(text: &str) -> Vec<String> {
    let mut tokenizer = TrigramTokenizer::default();
    let mut stream = tokenizer.token_stream(text);
    let mut tokens = Vec::new();
    while stream.advance() {
        tokens.push(stream.token().text.clone());
    }
    tokens
}

#[test]
fn test_basic() {
    assert_eq!(tokenize("abcd"), vec!["abc", "bcd"]);
}

#[test]
fn test_lowercase() {
    assert_eq!(tokenize("ABCD"), vec!["abc", "bcd"]);
    assert_eq!(tokenize("AbCd"), vec!["abc", "bcd"]);
}

#[test]
fn test_too_short() {
    assert_eq!(tokenize(""), Vec::<String>::new());
    assert_eq!(tokenize("a"), Vec::<String>::new());
    assert_eq!(tokenize("ab"), Vec::<String>::new());
}

#[test]
fn test_exactly_three() {
    assert_eq!(tokenize("abc"), vec!["abc"]);
}

#[test]
fn test_punctuation_and_spaces_preserved() {
    assert_eq!(tokenize("a b"), vec!["a b"]);
    assert_eq!(tokenize("a::"), vec!["a::"]);
}

#[test]
fn test_multibyte_chars() {
    let toks = tokenize("héllo");
    assert_eq!(toks, vec!["hél", "éll", "llo"]);
}

#[test]
fn test_query_trigrams_matches_tokenizer() {
    for input in &["foo", "FooBar", "std::vector", "a b c", "héllo"] {
        assert_eq!(
            query_trigrams(input),
            tokenize(input),
            "mismatch for {input:?}"
        );
    }
}

#[test]
fn test_query_trigrams_short() {
    assert!(query_trigrams("").is_empty());
    assert!(query_trigrams("a").is_empty());
    assert!(query_trigrams("ab").is_empty());
    assert_eq!(query_trigrams("abc"), vec!["abc"]);
}

#[test]
fn test_offsets() {
    let mut tokenizer = TrigramTokenizer::default();
    let mut stream = tokenizer.token_stream("abcd");
    let mut offsets = Vec::new();
    while stream.advance() {
        let t = stream.token();
        offsets.push((t.offset_from, t.offset_to));
    }
    assert_eq!(offsets, vec![(0, 3), (1, 4)]);
}

#[test]
fn offsets_count_bytes() {
    let mut tokenizer = TrigramTokenizer::default();
    let text = "hé€𝄞o";
    let mut stream = tokenizer.token_stream(text);
    let mut found = Vec::new();
    while stream.advance() {
        let t = stream.token();
        assert_eq!(&text[t.offset_from..t.offset_to], t.text);
        found.push((t.offset_from, t.offset_to, t.position));
    }
    assert_eq!(found, vec![(0, 6, 0), (1, 10, 1), (3, 11, 2)]);
}

#[test]
fn token_starts_blank_and_can_be_changed() {
    let blank = Token::default();
    assert_eq!(blank.position, usize::MAX);
    assert_eq!((blank.offset_from, blank.offset_to), (0, 0));
    assert_eq!(blank.text, "");
    let mut tokenizer = TrigramTokenizer::default();
    let mut stream = tokenizer.token_stream("abcd");
    assert!(stream.advance());
    stream.token_mut().text.push('!');
    assert_eq!(stream.token().text, "abc!");
    assert!(stream.advance());
    assert_eq!(stream.token().text, "bcd");
    assert!(!stream.advance());
    assert_eq!(stream.token().text, "bcd");
    assert_eq!(TRIGRAM_TOKENIZER_NAME, "trigram");
}

#[test]
fn trigrams_of_a_match_are_trigrams_of_the_line() {
    let line = query_trigrams("Let ThreadPool = 4;");
    for t in query_trigrams("threadpool") {
        assert!(line.contains(&t), "{t}");
    }
    assert_eq!(query_trigrams("THREADPOOL"), query_trigrams("threadpool"));
}
