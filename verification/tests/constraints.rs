use wordle_solve::constraint::Constraint;
use wordle_solve::feedback::wordle_guess;
use wordle_solve::word::Word;

fn word(text: &str) -> Word {
    Word::new(text.to_string())
}

fn row(text: &str, size: usize) -> Constraint {
    Constraint::from_string(&text.to_string(), size)
}

/// Everything that can be observed of `constraint` about the letters of
/// `alphabet`, as one value.
fn snapshot(constraint: &Constraint, alphabet: &str) -> Vec<(Option<char>, Vec<char>)> {
    let mut positions = Vec::new();
    for i in 0..constraint.len() {
        let excluded: Vec<char> =
            alphabet.chars().filter(|c| constraint.excludes_at(i, *c)).collect();
        positions.push((constraint.exact_at(i), excluded));
    }
    positions
}

fn bounds(constraint: &Constraint, alphabet: &str) -> Vec<(char, Option<usize>, Option<usize>)> {
    alphabet
        .chars()
        .map(|c| (c, constraint.min_occurrence_of(c), constraint.max_occurrence_of(c)))
        .collect()
}

const ALPHABET: &str = "abcdefghijklmnopqrstuvwxyz";

#[test]
fn new_constraint_knows_nothing() {
    let constraint = Constraint::new(5);
    assert_eq!(constraint.len(), 5);
    for i in 0..5 {
        assert_eq!(constraint.exact_at(i), None);
        for c in ALPHABET.chars() {
            assert!(!constraint.excludes_at(i, c));
        }
    }
    for c in ALPHABET.chars() {
        assert_eq!(constraint.min_occurrence_of(c), None);
        assert_eq!(constraint.max_occurrence_of(c), None);
    }
    assert_eq!(Constraint::new(0).len(), 0);
}

#[test]
fn empty_constraint_allows_any_word() {
    let constraint = Constraint::new(5);
    assert!(constraint.allows(&word("crane")));
    assert!(constraint.allows(&word("zzzzz")));
    assert!(constraint.allows(&word("")));
    assert!(constraint.allows(&word("longerword")));
}

#[test]
fn increment_min_occurrence_counts_up_from_one() {
    let mut constraint = Constraint::new(3);
    constraint.increment_min_occurrence(&'e');
    assert_eq!(constraint.min_occurrence_of('e'), Some(1));
    constraint.increment_min_occurrence(&'e');
    constraint.increment_min_occurrence(&'t');
    assert_eq!(constraint.min_occurrence_of('e'), Some(2));
    assert_eq!(constraint.min_occurrence_of('t'), Some(1));
    assert_eq!(constraint.max_occurrence_of('e'), None);
}

#[test]
fn setters_record_what_they_are_given() {
    let mut constraint = Constraint::new(2);
    constraint.require_at(0, 'a');
    constraint.exclude_at(1, 'b');
    constraint.exclude_at(1, 'c');
    constraint.set_min_occurrence('a', 1);
    constraint.set_max_occurrence('b', 0);
    assert_eq!(constraint.exact_at(0), Some('a'));
    assert_eq!(constraint.exact_at(1), None);
    assert!(constraint.excludes_at(1, 'b'));
    assert!(constraint.excludes_at(1, 'c'));
    assert!(!constraint.excludes_at(0, 'b'));
    assert_eq!(constraint.min_occurrence_of('a'), Some(1));
    assert_eq!(constraint.max_occurrence_of('b'), Some(0));
}

#[test]
fn allows_checks_all_four_rules() {
    let mut at_least = Constraint::new(5);
    at_least.set_min_occurrence('e', 2);
    assert!(at_least.allows(&word("geese")));
    assert!(at_least.allows(&word("elite")));
    assert!(!at_least.allows(&word("crane")));

    let mut at_most = Constraint::new(5);
    at_most.set_max_occurrence('a', 0);
    assert!(at_most.allows(&word("tulip")));
    assert!(!at_most.allows(&word("crane")));

    let mut exact = Constraint::new(5);
    exact.require_at(2, 'a');
    assert!(exact.allows(&word("crane")));
    assert!(exact.allows(&word("slate")));
    assert!(exact.allows(&word("trace")));
    assert!(!exact.allows(&word("tulip")));

    let mut excluded = Constraint::new(5);
    excluded.exclude_at(4, 'e');
    assert!(!excluded.allows(&word("crane")));
    assert!(excluded.allows(&word("least")));
}

#[test]
fn upper_bound_of_one_rejects_a_letter_twice() {
    let mut constraint = Constraint::new(5);
    constraint.set_max_occurrence('e', 1);
    assert!(!constraint.allows(&word("geese")));
    assert!(!constraint.allows(&word("elite")));
    assert!(!constraint.allows(&word("eerie")));
    assert!(constraint.allows(&word("crane")));
    assert!(constraint.allows(&word("least")));
    assert!(constraint.allows(&word("tulip")));
    assert!(constraint.allows(&word("fjord")));
}

#[test]
fn update_takes_larger_minimum_and_smaller_maximum() {
    let mut running = Constraint::new(3);
    running.set_min_occurrence('a', 2);
    running.set_min_occurrence('b', 1);
    running.set_max_occurrence('c', 1);
    running.set_max_occurrence('d', 3);
    let mut incoming = Constraint::new(3);
    incoming.set_min_occurrence('a', 1);
    incoming.set_min_occurrence('b', 2);
    incoming.set_min_occurrence('e', 1);
    incoming.set_max_occurrence('c', 2);
    incoming.set_max_occurrence('d', 0);
    incoming.set_max_occurrence('f', 4);
    running.update(&incoming);
    assert_eq!(running.min_occurrence_of('a'), Some(2));
    assert_eq!(running.min_occurrence_of('b'), Some(2));
    assert_eq!(running.min_occurrence_of('e'), Some(1));
    assert_eq!(running.max_occurrence_of('c'), Some(1));
    assert_eq!(running.max_occurrence_of('d'), Some(0));
    assert_eq!(running.max_occurrence_of('f'), Some(4));
    assert_eq!(running.min_occurrence_of('c'), None);
    assert_eq!(running.max_occurrence_of('a'), None);
}

#[test]
fn update_merges_positions() {
    let mut running = Constraint::new(3);
    running.require_at(0, 'a');
    running.exclude_at(1, 'x');
    running.exclude_at(2, 'y');
    let mut incoming = Constraint::new(3);
    incoming.require_at(0, 'b');
    incoming.exclude_at(1, 'z');
    incoming.require_at(2, 'c');
    incoming.exclude_at(2, 'q');
    running.update(&incoming);
    assert_eq!(
        snapshot(&running, ALPHABET),
        vec![(Some('b'), vec![]), (None, vec!['x', 'z']), (Some('c'), vec!['y'])]
    );
}

#[test]
fn update_never_loosens_a_bound() {
    let mut running = row("~e -a ~e", 3);
    let before = bounds(&running, ALPHABET);
    running.update(&row("e -e a", 3));
    running.update(&wordle_guess(&word("eel"), &word("lee")));
    let after = bounds(&running, ALPHABET);
    for ((_, min_before, max_before), (_, min_after, max_after)) in before.iter().zip(after.iter())
    {
        if let Some(bound) = min_before {
            assert!(min_after.unwrap() >= *bound);
        }
        if let Some(bound) = max_before {
            assert!(max_after.unwrap() <= *bound);
        }
    }
    assert_eq!(running.min_occurrence_of('e'), Some(2));
    assert_eq!(running.max_occurrence_of('a'), Some(0));
}

#[test]
fn merging_a_row_twice_is_merging_it_once() {
    let rows = ["-c -r -a -n ~e", "s~e-e d", "a b c d e", "~a~b -c"];
    for text in rows {
        let mut once = row("t -q ~r", 5);
        once.update(&row(text, 5));
        let mut twice = row("t -q ~r", 5);
        twice.update(&row(text, 5));
        twice.update(&row(text, 5));
        assert_eq!(snapshot(&once, ALPHABET), snapshot(&twice, ALPHABET));
        assert_eq!(bounds(&once, ALPHABET), bounds(&twice, ALPHABET));
    }
}

#[test]
fn merging_is_associative_for_rows_of_excluded_letters() {
    let first = "-a ~b -c";
    let second = "~d -a ~d";
    let third = "-c -c ~a";
    let mut left = row(first, 3);
    left.update(&row(second, 3));
    left.update(&row(third, 3));
    let mut inner = row(second, 3);
    inner.update(&row(third, 3));
    let mut right = row(first, 3);
    right.update(&inner);
    assert_eq!(snapshot(&left, ALPHABET), snapshot(&right, ALPHABET));
    assert_eq!(bounds(&left, ALPHABET), bounds(&right, ALPHABET));
}

#[test]
fn merging_is_not_associative_across_a_known_letter() {
    let mut left = Constraint::new(1);
    left.update(&row("a", 1));
    left.update(&row("~b", 1));
    let mut inner = row("a", 1);
    inner.update(&row("~b", 1));
    let mut right = Constraint::new(1);
    right.update(&inner);
    assert_eq!(snapshot(&left, ALPHABET), vec![(Some('a'), vec!['b'])]);
    assert_eq!(snapshot(&right, ALPHABET), vec![(Some('a'), vec![])]);
    assert_eq!(bounds(&left, ALPHABET), bounds(&right, ALPHABET));
}

#[test]
fn merging_feedback_about_one_answer_is_associative_in_effect() {
    let words = ["crane", "trace", "slate", "least", "stale", "react", "caret", "crate"];
    for answer in words {
        for one in words {
            for other in words {
                let second = wordle_guess(&word(one), &word(answer));
                let third = wordle_guess(&word(other), &word(answer));
                let mut left = row("-q ~e", 5);
                left.update(&second);
                left.update(&third);
                let mut inner = wordle_guess(&word(one), &word(answer));
                inner.update(&third);
                let mut right = row("-q ~e", 5);
                right.update(&inner);
                for text in words {
                    assert_eq!(left.allows(&word(text)), right.allows(&word(text)));
                }
                assert_eq!(bounds(&left, ALPHABET), bounds(&right, ALPHABET));
            }
        }
    }
}

#[test]
fn update_keeps_its_own_length() {
    let mut short = Constraint::new(2);
    short.update(&row("a b c", 3));
    assert_eq!(short.len(), 2);
    assert_eq!(short.exact_at(1), Some('b'));
    let mut long = Constraint::new(3);
    long.update(&row("a", 1));
    assert_eq!(long.len(), 3);
    assert_eq!(
        snapshot(&long, ALPHABET),
        vec![(Some('a'), vec![]), (None, vec![]), (None, vec![])]
    );
}

#[test]
fn own_feedback_never_eliminates_the_answer() {
    let words = ["crane", "trace", "slate", "least", "geese", "elite", "llama"];
    for answer in words {
        let mut running = Constraint::new(5);
        for guess in words {
            running.update(&wordle_guess(&word(guess), &word(answer)));
            assert!(running.allows(&word(answer)));
        }
    }
}
