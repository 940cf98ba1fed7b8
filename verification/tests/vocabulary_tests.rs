use speeko::vocabulary::{sorted_distinct_words, str_eq};
use speeko::{is_in_vocabulary, parse_vocabulary, VocabMap};

#[test]
fn test_vocab_map() {
    let words = vec!["stop".to_string(), "start".to_string(), "yes".to_string()];
    let vocab = VocabMap::from_words(&words);
    assert_eq!(vocab.num_classes(), 3);
    assert_eq!(vocab.idx_to_word, vec!["start", "stop", "yes"]);
    assert_eq!(*vocab.word_to_idx.get("start").unwrap(), 0);
    assert_eq!(*vocab.word_to_idx.get("stop").unwrap(), 1);
    assert_eq!(*vocab.word_to_idx.get("yes").unwrap(), 2);
}

#[test]
fn test_is_in_vocabulary() {
    let vocab = vec!["start".to_string(), "stop".to_string()];
    assert!(is_in_vocabulary(&vocab, "start"));
    assert!(!is_in_vocabulary(&vocab, "go"));
}

#[test]
fn test_load_vocabulary() {
    let content = "# Command words\nstart\nstop\n\nopen\nCLOSE\nstart\n";
    let words = parse_vocabulary(content);
    assert_eq!(words, vec!["start", "stop", "open", "close"]);
}

#[test]
fn vocabulary_trims_and_lowercases_lines() {
    let words = parse_vocabulary("  Jump \r\n\t# note\nJUMP\nrun");
    assert_eq!(words, vec!["jump", "run"]);
}

#[test]
fn vocabulary_of_empty_text_is_empty() {
    assert!(parse_vocabulary("").is_empty());
    assert!(parse_vocabulary("\n\n   \n#only a comment").is_empty());
}

#[test]
fn vocab_map_drops_repeats() {
    let words = vec![
        "b".to_string(),
        "a".to_string(),
        "b".to_string(),
        "c".to_string(),
        "a".to_string(),
    ];
    let vocab = VocabMap::from_words(&words);
    assert_eq!(vocab.num_classes(), 3);
    assert_eq!(vocab.idx_to_word, vec!["a", "b", "c"]);
    assert_eq!(*vocab.word_to_idx.get("c").unwrap(), 2);
    assert!(vocab.word_to_idx.get("d").is_none());
}

#[test]
fn vocab_map_same_words_same_map() {
    let a = VocabMap::from_words(&["yes".to_string(), "no".to_string()]);
    let b = VocabMap::from_words(&["no".to_string(), "yes".to_string(), "no".to_string()]);
    assert_eq!(a.idx_to_word, b.idx_to_word);
    assert_eq!(a.word_to_idx.get("yes"), b.word_to_idx.get("yes"));
    assert_eq!(a.word_to_idx.get("no"), b.word_to_idx.get("no"));
}

#[test]
fn vocab_map_empty() {
    let vocab = VocabMap::from_words(&[]);
    assert_eq!(vocab.num_classes(), 0);
    assert!(vocab.idx_to_word.is_empty());
}

#[test]
fn sorted_distinct_words_orders_by_bytes() {
    let words = vec!["beta".to_string(), "Alpha".to_string(), "alpha".to_string(), "beta".to_string()];
    assert_eq!(sorted_distinct_words(&words), vec!["Alpha", "alpha", "beta"]);
}

#[test]
fn str_eq_compares_characters() {
    assert!(str_eq("start", "start"));
    assert!(!str_eq("start", "stop"));
    assert!(!str_eq("start", "star"));
    assert!(str_eq("", ""));
}
