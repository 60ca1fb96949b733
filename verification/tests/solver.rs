use std::collections::HashMap;
use wordle_solve::constraint::Constraint;
use wordle_solve::solver::{
    count_allowed, filter_words, score_guess_count_eliminations, select_guess, tally,
    value_guess, SolveError, WordleSolver, GUESS_LIMIT,
};
use wordle_solve::word::Word;

fn words(texts: &[&str]) -> Vec<Word> {
    texts.iter().map(|text| Word::new(text.to_string())).collect()
}

fn row(text: &str, size: usize) -> Constraint {
    Constraint::from_string(&text.to_string(), size)
}

const SMALL: [&str; 4] = ["crane", "trace", "slate", "least"];
const THREES: [&str; 6] = ["abc", "abd", "xyz", "abz", "ayc", "bca"];
const FIFTEEN: [&str; 15] = [
    "crane", "trace", "slate", "least", "stale", "steal", "tales", "teals", "react", "caret",
    "cater", "crate", "arise", "raise", "irate",
];

#[test]
fn filter_by_the_empty_constraint_returns_the_vocabulary() {
    let vocabulary = words(&SMALL);
    assert_eq!(filter_words(&Constraint::new(5), &vocabulary), vec![0, 1, 2, 3]);
    assert_eq!(filter_words(&Constraint::new(5), &words(&FIFTEEN)).len(), 15);
    assert_eq!(filter_words(&Constraint::new(5), &Vec::new()), Vec::<usize>::new());
}

#[test]
fn filter_after_a_row_of_feedback() {
    let vocabulary = words(&SMALL);
    assert_eq!(filter_words(&Constraint::new(5), &vocabulary).len(), 4);
    let constraint = row("-c -r -a -n ~e", 5);
    let found = filter_words(&constraint, &vocabulary);
    assert!(!found.contains(&0));
    assert!(!found.contains(&1));
    for place in &found {
        let word = &vocabulary[*place];
        assert_ne!(word.letter(0), 'c');
        assert_ne!(word.letter(1), 'r');
        assert_ne!(word.letter(2), 'a');
        assert_ne!(word.letter(3), 'n');
        assert_ne!(word.letter(4), 'e');
        assert!(word.char_count(&'e') >= 1);
    }
    // All four words have an `a` in the middle, where the row excludes it.
    assert_eq!(found, Vec::<usize>::new());
}

#[test]
fn filter_keeps_the_order_of_the_vocabulary() {
    let vocabulary = words(&THREES);
    assert_eq!(filter_words(&row("a b -c", 3), &vocabulary), vec![1, 3]);
    assert_eq!(filter_words(&row("a ~c -z", 3), &vocabulary), vec![0, 4]);
    assert_eq!(filter_words(&row("a -q -q", 3), &vocabulary), vec![0, 1, 3, 4]);
    assert_eq!(filter_words(&row("a -b -c", 3), &vocabulary), Vec::<usize>::new());
}

#[test]
fn filter_by_the_feedback_of_the_answer_against_itself_returns_the_answer() {
    let vocabulary = words(&FIFTEEN);
    for place in 0..vocabulary.len() {
        let mut constraint = Constraint::new(5);
        constraint.update(&wordle_solve::feedback::wordle_guess(
            &vocabulary[place],
            &vocabulary[place],
        ));
        assert_eq!(filter_words(&constraint, &vocabulary), vec![place]);
    }
}

#[test]
fn feedback_against_a_candidate_keeps_it_in_the_candidate_set() {
    let vocabulary = words(&FIFTEEN);
    for start in ["", "-q -q -q -q -q", "~t", "-s ~r", "c"] {
        let candidates = filter_words(&row(start, 5), &vocabulary);
        assert!(!candidates.is_empty());
        for answer in candidates {
            let mut constraint = row(start, 5);
            for guess in 0..vocabulary.len() {
                constraint.update(&wordle_solve::feedback::wordle_guess(
                    &vocabulary[guess],
                    &vocabulary[answer],
                ));
                assert!(filter_words(&constraint, &vocabulary).contains(&answer));
            }
            assert_eq!(filter_words(&constraint, &vocabulary), vec![answer]);
        }
    }
}

#[test]
fn count_allowed_counts_within_the_pool() {
    let vocabulary = words(&THREES);
    let constraint = row("a -q -q", 3);
    assert_eq!(count_allowed(&constraint, &vocabulary, &vec![0, 1, 2, 3, 4, 5]), 4);
    assert_eq!(count_allowed(&constraint, &vocabulary, &vec![2, 5]), 0);
    assert_eq!(count_allowed(&constraint, &vocabulary, &vec![0, 2, 4]), 2);
    assert_eq!(count_allowed(&constraint, &vocabulary, &Vec::new()), 0);
}

#[test]
fn elimination_scores_of_words_that_split_perfectly() {
    let vocabulary = words(&SMALL);
    let pool = vec![0, 1, 2, 3];
    let constraint = Constraint::new(5);
    for guess in &vocabulary {
        assert_eq!(score_guess_count_eliminations(guess, &vocabulary, &pool, &constraint), 12);
    }
}

#[test]
fn elimination_scores_differ_with_the_split() {
    let vocabulary = words(&THREES);
    let pool = vec![0, 1, 2, 3, 4, 5];
    let constraint = Constraint::new(3);
    let scores: Vec<u128> = vocabulary
        .iter()
        .map(|guess| score_guess_count_eliminations(guess, &vocabulary, &pool, &constraint))
        .collect();
    assert_eq!(scores, vec![28, 28, 24, 28, 28, 28]);
    let probe = Word::new("zzz".to_string());
    assert_eq!(score_guess_count_eliminations(&probe, &vocabulary, &pool, &constraint), 16);
    let probe = Word::new("cab".to_string());
    assert_eq!(score_guess_count_eliminations(&probe, &vocabulary, &pool, &constraint), 26);
}

#[test]
fn elimination_score_under_a_running_constraint() {
    let vocabulary = words(&THREES);
    let constraint = row("a -q -q", 3);
    let pool = filter_words(&constraint, &vocabulary);
    for guess in &vocabulary {
        assert_eq!(score_guess_count_eliminations(guess, &vocabulary, &pool, &constraint), 10);
    }
    let probe = Word::new("zzz".to_string());
    assert_eq!(score_guess_count_eliminations(&probe, &vocabulary, &pool, &constraint), 6);
    assert_eq!(score_guess_count_eliminations(&probe, &vocabulary, &Vec::new(), &constraint), 0);
}

#[test]
fn a_possible_answer_is_worth_one_more() {
    let vocabulary = words(&THREES);
    let constraint = row("a -q -q", 3);
    let pool = filter_words(&constraint, &vocabulary);
    let values: Vec<u128> = vocabulary
        .iter()
        .map(|guess| value_guess(guess, &vocabulary, &pool, &constraint))
        .collect();
    assert_eq!(values, vec![11, 11, 10, 11, 11, 10]);
}

#[test]
fn the_highest_value_is_selected() {
    let vocabulary = words(&["aaa", "zzz", "mmm"]);
    assert_eq!(select_guess(&vocabulary, &vec![7, 5, 6]), 0);
    assert_eq!(select_guess(&vocabulary, &vec![5, 5, 6]), 2);
    assert_eq!(select_guess(&words(&["only"]), &vec![0]), 0);
}

#[test]
fn equal_values_are_decided_by_the_later_text_then_the_later_place() {
    let vocabulary = words(&["abc", "abd", "zzz"]);
    assert_eq!(select_guess(&vocabulary, &vec![5, 5, 3]), 1);
    assert_eq!(select_guess(&words(&["abd", "abc", "zzz"]), &vec![5, 5, 3]), 0);
    assert_eq!(select_guess(&words(&["same", "same", "same"]), &vec![1, 1, 1]), 2);
    assert_eq!(select_guess(&words(&["same", "same", "same"]), &vec![1, 2, 2]), 2);
    assert_eq!(select_guess(&words(&["ab", "abc", "a"]), &vec![4, 4, 4]), 1);
}

#[test]
fn quick_guess_settles_the_small_cases() {
    let solver = WordleSolver::new(words(&THREES), None);
    assert_eq!(solver.quick_guess(&Vec::new()), Some(Err(SolveError::NoCandidates)));
    assert_eq!(solver.quick_guess(&vec![3]), Some(Ok(3)));
    assert_eq!(solver.quick_guess(&vec![1, 4]), Some(Ok(1)));
    assert_eq!(solver.quick_guess(&vec![1, 3, 4]), None);
    assert_eq!(solver.quick_guess(&vec![0, 1, 2, 3, 4, 5]), None);
    let primed = WordleSolver::new(words(&THREES), Some(2));
    assert_eq!(primed.quick_guess(&vec![0, 1, 2, 3, 4, 5]), Some(Ok(2)));
    assert_eq!(primed.quick_guess(&vec![1, 3, 4]), None);
    assert_eq!(primed.quick_guess(&vec![1, 4]), Some(Ok(1)));
    assert_eq!(primed.quick_guess(&Vec::new()), Some(Err(SolveError::NoCandidates)));
}

#[test]
fn new_solver_drops_an_opening_guess_outside_the_vocabulary() {
    assert_eq!(WordleSolver::new(words(&SMALL), Some(3)).first_guess(), Some(3));
    assert_eq!(WordleSolver::new(words(&SMALL), Some(4)).first_guess(), None);
    assert_eq!(WordleSolver::new(words(&SMALL), None).first_guess(), None);
    assert_eq!(WordleSolver::new(Vec::new(), Some(0)).first_guess(), None);
    assert_eq!(WordleSolver::new(words(&SMALL), None).words().len(), 4);
}

#[test]
fn learn_first_guess_only_from_the_whole_vocabulary() {
    let mut solver = WordleSolver::new(words(&SMALL), None);
    solver.learn_first_guess(3, 2);
    assert_eq!(solver.first_guess(), None);
    solver.learn_first_guess(4, 4);
    assert_eq!(solver.first_guess(), None);
    solver.learn_first_guess(4, 2);
    assert_eq!(solver.first_guess(), Some(2));
    solver.learn_first_guess(4, 7);
    assert_eq!(solver.first_guess(), Some(2));
}

#[test]
fn best_guess_fails_without_candidates() {
    let mut solver = WordleSolver::new(words(&THREES), None);
    assert_eq!(solver.best_guess(&row("a -b -c", 3)), Err(SolveError::NoCandidates));
    assert_eq!(solver.first_guess(), None);
    let mut empty = WordleSolver::new(Vec::new(), None);
    assert_eq!(empty.best_guess(&Constraint::new(0)), Err(SolveError::NoCandidates));
}

#[test]
fn best_guess_returns_the_only_candidate() {
    let mut solver = WordleSolver::new(words(&SMALL), None);
    let mut constraint = Constraint::new(5);
    constraint.require_at(0, 's');
    assert_eq!(filter_words(&constraint, solver.words()), vec![2]);
    assert_eq!(solver.best_guess(&constraint), Ok(2));
    assert_eq!(solver.first_guess(), None);
    let mut primed = WordleSolver::new(words(&SMALL), Some(0));
    assert_eq!(primed.best_guess(&constraint), Ok(2));
}

#[test]
fn best_guess_returns_the_first_of_two_candidates() {
    let mut solver = WordleSolver::new(words(&THREES), None);
    assert_eq!(solver.best_guess(&row("a b -c", 3)), Ok(1));
    assert_eq!(solver.best_guess(&row("a ~c -z", 3)), Ok(0));
    assert_eq!(solver.first_guess(), None);
}

#[test]
fn best_guess_ranks_the_vocabulary_and_learns_the_opening_guess() {
    let mut solver = WordleSolver::new(words(&THREES), None);
    assert_eq!(solver.best_guess(&Constraint::new(3)), Ok(5));
    assert_eq!(solver.first_guess(), Some(5));
    let mut small = WordleSolver::new(words(&SMALL), None);
    assert_eq!(small.best_guess(&Constraint::new(5)), Ok(1));
    assert_eq!(small.first_guess(), Some(1));
    let mut fifteen = WordleSolver::new(words(&FIFTEEN), None);
    assert_eq!(fifteen.best_guess(&Constraint::new(5)), Ok(1));
}

#[test]
fn best_guess_plays_a_known_opening_guess() {
    let mut solver = WordleSolver::new(words(&THREES), Some(2));
    assert_eq!(solver.best_guess(&Constraint::new(3)), Ok(2));
    assert_eq!(solver.best_guess(&row("-q -q -q", 3)), Ok(2));
    assert_eq!(solver.first_guess(), Some(2));
}

#[test]
fn best_guess_ranks_without_learning_when_words_are_ruled_out() {
    let mut solver = WordleSolver::new(words(&THREES), Some(2));
    assert_eq!(solver.best_guess(&row("a -q -q", 3)), Ok(4));
    assert_eq!(solver.first_guess(), Some(2));
    let mut fresh = WordleSolver::new(words(&THREES), None);
    assert_eq!(fresh.best_guess(&row("a -q -q", 3)), Ok(4));
    assert_eq!(fresh.first_guess(), None);
}

#[test]
fn games_against_the_words_of_a_small_vocabulary() {
    let mut solver = WordleSolver::new(words(&THREES), None);
    let expected: Vec<Vec<usize>> =
        vec![vec![5, 0], vec![5, 1], vec![5, 2], vec![5, 1, 3], vec![5, 4], vec![5]];
    for (place, text) in THREES.iter().enumerate() {
        assert_eq!(solver.test(&Word::new(text.to_string())), Ok(expected[place].clone()));
    }
    assert_eq!(solver.first_guess(), Some(5));
}

#[test]
fn every_game_ends_with_the_answer_within_the_limit() {
    let mut solver = WordleSolver::new(words(&FIFTEEN), None);
    let expected: Vec<Vec<usize>> = vec![
        vec![1, 0],
        vec![1],
        vec![1, 2],
        vec![1, 3],
        vec![1, 2, 4],
        vec![1, 5],
        vec![1, 6],
        vec![1, 7],
        vec![1, 8],
        vec![1, 9],
        vec![1, 9, 10],
        vec![1, 11],
        vec![1, 12],
        vec![1, 13],
        vec![1, 14],
    ];
    for (place, text) in FIFTEEN.iter().enumerate() {
        let guesses = solver.test(&Word::new(text.to_string())).unwrap();
        assert!(guesses.len() <= GUESS_LIMIT);
        assert_eq!(*guesses.last().unwrap(), place);
        assert_eq!(guesses, expected[place]);
    }
}

#[test]
fn games_of_tiny_vocabularies() {
    let mut two = WordleSolver::new(words(&["abc", "abd"]), None);
    assert_eq!(two.test(&Word::new("abc".to_string())), Ok(vec![0]));
    assert_eq!(two.test(&Word::new("abd".to_string())), Ok(vec![0, 1]));
    assert_eq!(two.first_guess(), None);
    let mut one = WordleSolver::new(words(&["abc"]), None);
    assert_eq!(one.test(&Word::new("abc".to_string())), Ok(vec![0]));
}

#[test]
fn a_game_against_a_word_outside_the_vocabulary_runs_out_of_candidates() {
    let mut solver = WordleSolver::new(words(&THREES), None);
    assert_eq!(solver.test(&Word::new("abq".to_string())), Err(SolveError::NoCandidates));
    assert_eq!(solver.test(&Word::new("qqq".to_string())), Err(SolveError::NoCandidates));
    let mut one = WordleSolver::new(words(&["abc"]), None);
    assert_eq!(one.test(&Word::new("zzz".to_string())), Err(SolveError::NoCandidates));
    let mut empty = WordleSolver::new(Vec::new(), None);
    assert_eq!(empty.test(&Word::new("abc".to_string())), Err(SolveError::NoCandidates));
}

#[test]
fn a_game_stops_at_the_limit() {
    let mut solver = WordleSolver::new(words(&["ab", "abc"]), None);
    assert_eq!(GUESS_LIMIT, 99);
    assert_eq!(solver.test(&Word::new("abc".to_string())), Ok(vec![0; 99]));
    let mut three = WordleSolver::new(words(&["ab", "abc", "abd"]), None);
    let guesses = three.test(&Word::new("abc".to_string())).unwrap();
    assert_eq!(guesses.len(), 99);
    assert_eq!(guesses[0], 2);
    assert!(guesses[1..].iter().all(|guess| *guess == 0));
}

#[test]
fn the_fault_of_no_candidates_in_words() {
    assert_eq!(SolveError::NoCandidates.message(), "Error: No words match those constraints.");
}

#[test]
fn a_known_opening_guess_opens_every_game() {
    let mut solver = WordleSolver::new(words(&THREES), Some(2));
    assert_eq!(solver.test(&Word::new("xyz".to_string())), Ok(vec![2]));
    let guesses = solver.test(&Word::new("abc".to_string())).unwrap();
    assert_eq!(guesses[0], 2);
    assert_eq!(*guesses.last().unwrap(), 0);
}

#[test]
fn full_test_plays_against_every_word() {
    let mut solver = WordleSolver::new(words(&THREES), None);
    let games = solver.full_test();
    assert_eq!(
        games,
        vec![vec![5, 0], vec![5, 1], vec![5, 2], vec![5, 1, 3], vec![5, 4], vec![5]]
    );
    assert_eq!(solver.first_guess(), Some(5));
    let mut empty = WordleSolver::new(Vec::new(), None);
    assert_eq!(empty.full_test(), Vec::<Vec<usize>>::new());
}

#[test]
fn tally_counts_the_games_by_their_length() {
    let games = vec![vec![5, 0], vec![5, 1], vec![5, 2], vec![5, 1, 3], vec![5, 4], vec![5]];
    let mut expected = HashMap::new();
    expected.insert(1, 1);
    expected.insert(2, 4);
    expected.insert(3, 1);
    assert_eq!(tally(&games), expected);
    assert_eq!(tally(&Vec::new()), HashMap::new());
    let mut single = HashMap::new();
    single.insert(0, 2);
    assert_eq!(tally(&vec![Vec::new(), Vec::new()]), single);
}
