use rustysearch::tokenizer::Tokenizer;

#[test]
fn test_split_into_words() {
    let text = "The quick brown fox jumps over the lazy dog.";
    let stopwords = vec!["the".to_string(), "over".to_string()];
    let tokenizer = Tokenizer::new(text, stopwords, None);
    let words = tokenizer.split_into_words();
    assert_eq!(
        words,
        vec![
            "quick".to_string(),
            "brown".to_string(),
            "fox".to_string(),
            "jumps".to_string(),
            "lazy".to_string(),
            "dog".to_string(),
        ]
    );
}

#[test]
fn test_split_into_sentences() {
    let text = "The quick brown fox jumps over the lazy dog. The end.";
    let stopwords = vec!["the".to_string(), "over".to_string()];
    let tokenizer = Tokenizer::new(text, stopwords, None);
    let sentences = tokenizer.split_into_sentences();
    assert_eq!(
        sentences,
        vec![
            "quick brown fox jumps lazy dog".to_string(),
            "end".to_string(),
        ]
    );
}

#[test]
fn test_split_into_paragraphs() {
    let text = "The quick brown fox jumps over the lazy dog.\n\nThe end.";
    let stopwords = vec!["the".to_string(), "over".to_string()];
    let tokenizer = Tokenizer::new(text, stopwords, None);
    let paragraphs = tokenizer.split_into_paragraphs();
    assert_eq!(
        paragraphs,
        vec![
            "quick brown fox jumps lazy dog".to_string(),
            "end".to_string(),
        ]
    );
}

#[test]
fn possessives_and_commas_are_removed() {
    let tokenizer = Tokenizer::new("The dog's bone, 1.5 kg", vec![], None);
    assert_eq!(tokenizer.split_into_words(), vec!["the", "dog", "bone", "15", "kg"]);
}

#[test]
fn custom_punctuation_is_filtered() {
    let tokenizer = Tokenizer::new("a # b", vec![], Some(vec!["a".to_string()]));
    assert_eq!(tokenizer.split_into_words(), vec!["#", "b"]);
}

#[test]
fn blank_paragraphs_are_dropped() {
    let tokenizer = Tokenizer::new("One two.\n   \nThree.\r\nFour", vec![], None);
    assert_eq!(tokenizer.split_into_paragraphs(), vec!["one two", "three", "four"]);
}

#[test]
fn accept_word_rules() {
    let tokenizer = Tokenizer::new("", vec!["stop".to_string()], None);
    assert!(!tokenizer.accept_word("", 0));
    assert!(!tokenizer.accept_word("-", 1));
    assert!(tokenizer.accept_word("-", 2));
    assert!(!tokenizer.accept_word("stop", 4));
    assert!(tokenizer.accept_word("go", 2));
}

#[test]
fn words_from_given_pieces() {
    let tokenizer = Tokenizer::new("", vec!["the".to_string()], None);
    let pieces = vec![" The ".to_string(), "Cat's".to_string(), ",".to_string(), "-".to_string(), "Dog".to_string()];
    assert_eq!(tokenizer.words_from_pieces(&pieces), vec!["cat", "dog"]);
}
