use kokoros::symbols::{get_vocab, SILENCE_TOKEN};

#[test]
fn vocab_has_every_canonical_symbol() {
    let vocab = get_vocab();
    assert_eq!(vocab.len(), 178);
    assert_eq!(vocab.lookup('$'), Some(0));
    assert_eq!(vocab.lookup(';'), Some(1));
    assert_eq!(vocab.lookup('A'), Some(17));
    assert_eq!(vocab.lookup('a'), Some(43));
    assert_eq!(vocab.lookup('ə'), Some(83));
}

#[test]
fn repeated_symbols_take_their_last_position() {
    let vocab = get_vocab();
    assert_eq!(vocab.lookup('"'), Some(15));
    assert_eq!(vocab.lookup('\''), Some(176));
}

#[test]
fn tokenize_maps_each_known_character() {
    let vocab = get_vocab();
    assert_eq!(vocab.tokenize("ab"), vec![43, 44]);
    assert_eq!(vocab.tokenize("$ə"), vec![0, 83]);
}

#[test]
fn tokenize_drops_unknown_characters() {
    let vocab = get_vocab();
    assert_eq!(vocab.tokenize("a\u{303}b7"), vec![43, 44]);
    assert_eq!(vocab.tokenize(""), Vec::<i64>::new());
    assert_eq!(vocab.tokenize("ɑ̃"), vec![vocab.lookup('ɑ').unwrap() as i64]);
}

#[test]
fn tokenize_is_deterministic() {
    let vocab = get_vocab();
    let text = " fʁɑ̃sˈɛ";
    assert_eq!(vocab.tokenize(text), vocab.tokenize(text));
}

#[test]
fn chunk_tokens_prepends_silence() {
    let vocab = get_vocab();
    assert_eq!(SILENCE_TOKEN, 30);
    assert_eq!(vocab.chunk_tokens("ab", 2), vec![30, 30, 43, 44]);
    assert_eq!(vocab.chunk_tokens("ab", 0), vec![43, 44]);
    assert_eq!(vocab.chunk_tokens("", 1), vec![30]);
}
