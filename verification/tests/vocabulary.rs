use wordle_solve::vocabulary::{read_words, VocabularyError};

fn lines(texts: &[&str]) -> Vec<String> {
    texts.iter().map(|text| text.to_string()).collect()
}

#[test]
fn read_words_builds_the_vocabulary_in_order() {
    let (words, _) = read_words(lines(&["crane", "trace", "slate", "least"])).unwrap();
    let texts: Vec<&str> = words.iter().map(|word| word.text().as_str()).collect();
    assert_eq!(texts, vec!["crane", "trace", "slate", "least"]);
    assert_eq!(words[0].char_count(&'c'), 1);
    assert_eq!(words[3].len(), 5);
}

#[test]
fn fingerprint_is_the_digest_of_the_joined_lines_in_hexadecimal() {
    let (_, hash) = read_words(lines(&["crane", "trace", "slate", "least"])).unwrap();
    assert_eq!(hash, "43f0640772d6322acbaa95e499e857b25b7ff3c04beb7b232a2d9c6c4d4c73f9");
    let (_, joined) = read_words(lines(&["cranetrace", "slateleast"])).unwrap();
    assert_eq!(joined, hash);
    let (_, short) = read_words(lines(&["a", "b"])).unwrap();
    assert_eq!(short, "fb8e20fc2e4c3f248c60c39bd652f3c1347298bb977b8b4d5903b85055620603");
    assert_eq!(short.len(), 64);
}

#[test]
fn fingerprint_of_the_empty_list() {
    let (words, hash) = read_words(Vec::new()).unwrap();
    assert!(words.is_empty());
    assert_eq!(hash, "e3b0c44298fc1c149afbf4c8996fb92427ae41e4649b934ca495991b7852b855");
}

#[test]
fn fingerprint_tells_word_lists_apart() {
    let (_, one) = read_words(lines(&["crane", "trace"])).unwrap();
    let (_, other) = read_words(lines(&["trace", "crane"])).unwrap();
    assert_ne!(one, other);
}

#[test]
fn lines_are_measured_in_letters() {
    let (words, hash) = read_words(lines(&["\u{e9}t\u{e9}", "abc"])).unwrap();
    assert_eq!(words.len(), 2);
    assert_eq!(words[0].len(), 3);
    assert_eq!(hash, "79122e8903eea89ef4454d302cdd77afc8acf6f5c172c077d108a3f9f3d1677b");
}

#[test]
fn read_words_reports_the_first_line_of_another_length() {
    let read = read_words(lines(&["crane", "trace", "to", "slate", "a"]));
    assert_eq!(
        read.err(),
        Some(VocabularyError::LengthMismatch { line: 2, found: 2, expected: 5 })
    );
    let read = read_words(lines(&["", "x"]));
    assert_eq!(
        read.err(),
        Some(VocabularyError::LengthMismatch { line: 1, found: 1, expected: 0 })
    );
    let read = read_words(lines(&["abc", "\u{e9}t"]));
    assert_eq!(
        read.err(),
        Some(VocabularyError::LengthMismatch { line: 1, found: 2, expected: 3 })
    );
}
