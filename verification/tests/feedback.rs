use wordle_solve::constraint::Constraint;
use wordle_solve::feedback::wordle_guess;
use wordle_solve::word::Word;

const ALPHABET: &str = "abcdefghijklmnopqrstuvwxyz";

fn word(text: &str) -> Word {
    Word::new(text.to_string())
}

fn excluded(constraint: &Constraint, i: usize) -> Vec<char> {
    ALPHABET.chars().filter(|c| constraint.excludes_at(i, *c)).collect()
}

fn lower(constraint: &Constraint) -> Vec<(char, usize)> {
    ALPHABET.chars().filter_map(|c| constraint.min_occurrence_of(c).map(|n| (c, n))).collect()
}

fn upper(constraint: &Constraint) -> Vec<(char, usize)> {
    ALPHABET.chars().filter_map(|c| constraint.max_occurrence_of(c).map(|n| (c, n))).collect()
}

#[test]
fn feedback_of_a_guess_with_a_letter_too_many() {
    let constraint = wordle_guess(&word("speed"), &word("abide"));
    assert_eq!(constraint.len(), 5);
    for i in 0..5 {
        assert_eq!(constraint.exact_at(i), None);
    }
    assert_eq!(excluded(&constraint, 0), vec!['s']);
    assert_eq!(excluded(&constraint, 1), vec!['p']);
    assert_eq!(excluded(&constraint, 2), vec!['e']);
    assert_eq!(excluded(&constraint, 3), vec!['e']);
    assert_eq!(excluded(&constraint, 4), vec!['d']);
    assert_eq!(lower(&constraint), vec![('d', 1), ('e', 1)]);
    assert_eq!(upper(&constraint), vec![('e', 1), ('p', 0), ('s', 0)]);
}

#[test]
fn feedback_with_a_green_letter_and_a_count_revealed() {
    let constraint = wordle_guess(&word("geese"), &word("elite"));
    assert_eq!(constraint.exact_at(4), Some('e'));
    assert_eq!(constraint.exact_at(1), None);
    assert_eq!(excluded(&constraint, 0), vec!['g']);
    assert_eq!(excluded(&constraint, 1), vec!['e']);
    assert_eq!(excluded(&constraint, 2), vec!['e']);
    assert_eq!(excluded(&constraint, 3), vec!['s']);
    assert_eq!(excluded(&constraint, 4), Vec::<char>::new());
    assert_eq!(lower(&constraint), vec![('e', 2)]);
    assert_eq!(upper(&constraint), vec![('e', 2), ('g', 0), ('s', 0)]);
}

#[test]
fn feedback_of_the_answer_itself_is_all_green() {
    let constraint = wordle_guess(&word("llama"), &word("llama"));
    assert_eq!(constraint.exact_at(0), Some('l'));
    assert_eq!(constraint.exact_at(1), Some('l'));
    assert_eq!(constraint.exact_at(2), Some('a'));
    assert_eq!(constraint.exact_at(3), Some('m'));
    assert_eq!(constraint.exact_at(4), Some('a'));
    for i in 0..5 {
        assert_eq!(excluded(&constraint, i), Vec::<char>::new());
    }
    assert_eq!(lower(&constraint), vec![('a', 2), ('l', 2), ('m', 1)]);
    assert_eq!(upper(&constraint), Vec::<(char, usize)>::new());
}

#[test]
fn feedback_allows_the_answer_and_rejects_the_wrong_guess() {
    let guess = word("crane");
    let answer = word("trace");
    let constraint = wordle_guess(&guess, &answer);
    assert!(constraint.allows(&answer));
    assert!(!constraint.allows(&guess));
}

#[test]
fn feedback_of_words_of_different_lengths_covers_the_shared_positions() {
    let constraint = wordle_guess(&word("abcd"), &word("ab"));
    assert_eq!(constraint.len(), 4);
    assert_eq!(constraint.exact_at(0), Some('a'));
    assert_eq!(constraint.exact_at(1), Some('b'));
    assert_eq!(constraint.exact_at(2), None);
    assert_eq!(excluded(&constraint, 2), Vec::<char>::new());
    assert_eq!(lower(&constraint), vec![('a', 1), ('b', 1)]);
    assert_eq!(upper(&constraint), vec![('c', 0), ('d', 0)]);
}
