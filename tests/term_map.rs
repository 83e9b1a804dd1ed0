use joie::term_map::TermMap;

#[test]
fn interning_starts_at_one() {
    let mut m = TermMap::new();
    assert_eq!(m.intern("fox"), Some(1));
    assert_eq!(m.intern("sand"), Some(2));
    assert_eq!(m.intern("fox"), Some(1));
    assert_eq!(m.intern("foxes"), Some(1));
}

#[test]
fn tokenize_sentence_offsets() {
    let mut m = TermMap::new();
    let s = m.tokenize_sentence::<()>("Hello, wide world").unwrap();
    let spans: Vec<(usize, usize)> = s.tokens.iter().map(|t| (t.start, t.end)).collect();
    assert_eq!(spans, vec![(0, 5), (7, 11), (12, 17)]);
    assert_eq!(s.terms, vec![1, 2, 3]);
    assert_eq!(s.terms_by_value.get(&2), Some(&vec![1]));
}

#[test]
fn repeated_words_share_positions() {
    let mut m = TermMap::new();
    let s = m.tokenize_sentence::<()>("go Go GO stop").unwrap();
    assert_eq!(s.terms, vec![1, 1, 1, 2]);
    assert_eq!(s.terms_by_value.get(&1), Some(&vec![0, 1, 2]));
}

#[test]
fn tokenize_all_splits_lines() {
    let mut m = TermMap::new();
    let v = m.tokenize_all::<()>("one\ntwo three\r\n\nfour").unwrap();
    assert_eq!(v.len(), 4);
    assert_eq!(v[1].text, "two three");
    assert_eq!(v[2].terms.len(), 0);
}

#[test]
fn frozen_lookup_lowercases_and_stems() {
    let mut m = TermMap::new();
    m.intern("running");
    let f = m.freeze();
    assert_eq!(f.term("RUNNING"), Some(1));
    assert_eq!(f.term("runs"), Some(1));
    assert_eq!(f.term("walk"), None);
    assert_eq!(f.tokenize_phrase("Runs, walk!"), vec![1, 0]);
}

#[test]
fn bare_carriage_return_kept_inside_line() {
    let mut m = TermMap::new();
    let v = m.tokenize_all::<()>("a\rb\nc\r\n").unwrap();
    assert_eq!(v.len(), 2);
    assert_eq!(v[0].text, "a\rb");
    assert_eq!(v[1].text, "c");
}

#[test]
fn sentences_carry_their_metadata() {
    let mut m = TermMap::new();
    let s = m.tokenize_sentence::<()>("some words").unwrap();
    assert_eq!(s.metadata, ());
    assert_eq!(s.terms_by_value.len(), 2);
}

#[test]
fn sentence_from_given_words_and_keys() {
    let mut m = TermMap::new();
    let words = vec![(0usize, "Foo".to_string()), (4usize, "bars".to_string())];
    let keys = vec!["foo".to_string(), "bar".to_string()];
    let s = m.sentence_from_words::<()>("Foo bars", &words, &keys).unwrap();
    let spans: Vec<(usize, usize)> = s.tokens.iter().map(|t| (t.start, t.end)).collect();
    assert_eq!(spans, vec![(0, 3), (4, 8)]);
    assert_eq!(s.terms, vec![1, 2]);
    assert_eq!(s.text, "Foo bars");
    let f = m.freeze();
    assert_eq!(f.term_of_key("bar"), Some(2));
    assert_eq!(f.term_of_key("bars"), None);
    assert_eq!(f.key_ids(&vec!["bar".to_string(), "zzz".to_string(), "foo".to_string()]), vec![2, 0, 1]);
}
