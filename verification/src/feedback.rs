//! The evaluation of a guess against a known answer.

use crate::constraint::Constraint;
use crate::letters::{count_of, lists};
use crate::model::{feedback, free_position, position_feedback};
use crate::word::{counts_letters, Word};
use vstd::prelude::*;

verus! {

/// The constraint that guessing `guess` reveals when the hidden word is
/// `answer`.
pub fn wordle_guess(guess: &Word, answer: &Word) -> (constraint: Constraint)
    ensures
        constraint@ == feedback(guess@, answer@),
{
    let mut constraint = Constraint::new(guess.len());
    let shared = if guess.len() < answer.len() {
        guess.len()
    } else {
        answer.len()
    };
    let mut i: usize = 0;
    while i < shared
        invariant
            i <= shared,
            shared <= guess@.len(),
            shared <= answer@.len(),
            constraint@.positions.len() == guess@.len(),
            constraint@.min_occurrence == Map::<char, nat>::empty(),
            constraint@.max_occurrence == Map::<char, nat>::empty(),
            forall|j: int|
                0 <= j < i ==> constraint@.positions[j] == position_feedback(guess@[j], answer@[j]),
            forall|j: int| i <= j < guess@.len() ==> constraint@.positions[j] == free_position(),
        decreases shared - i,
    {
        let g = guess.letter(i);
        let a = answer.letter(i);
        if g == a {
            constraint.require_at(i, g);
        } else {
            constraint.exclude_at(i, g);
            assert(Set::<char>::empty().insert(g) =~= free_position().excluded.insert(g));
        }
        i += 1;
    }
    let ghost positions = constraint@.positions;
    assert(positions =~= feedback(guess@, answer@).positions);
    let table = guess.letter_counts();
    let n = table.len();
    let ghost entries = table.entries();
    let mut k: usize = 0;
    while k < n
        invariant
            k <= n,
            n == entries.len(),
            entries == table.entries(),
            lists(entries, table@),
            counts_letters(table@, guess@),
            constraint@.positions == positions,
            forall|c: char|
                constraint@.min_occurrence.contains_key(c) <==> (count_of(answer@, c) > 0
                    && exists|j: int| 0 <= j < k && #[trigger] entries[j].0 == c),
            forall|c: char|
                constraint@.max_occurrence.contains_key(c) <==> (count_of(guess@, c) > count_of(
                    answer@,
                    c,
                ) && exists|j: int| 0 <= j < k && #[trigger] entries[j].0 == c),
            forall|c: char| #[trigger]
                constraint@.min_occurrence.contains_key(c) ==> constraint@.min_occurrence[c]
                    == feedback(guess@, answer@).min_occurrence[c],
            forall|c: char| #[trigger]
                constraint@.max_occurrence.contains_key(c) ==> constraint@.max_occurrence[c]
                    == count_of(answer@, c),
        decreases n - k,
    {
        let (c, guess_count) = table.get_entry(k);
        let ghost before = constraint@;
        proof {
            assert(entries[k as int].0 == c);
            assert(table@.contains_key(entries[k as int].0));
            assert(guess_count == count_of(guess@, c));
        }
        let answer_count = answer.char_count(&c);
        let min_count = if guess_count < answer_count {
            guess_count
        } else {
            answer_count
        };
        if min_count > 0 {
            constraint.set_min_occurrence(c, min_count);
        }
        if guess_count > answer_count {
            constraint.set_max_occurrence(c, answer_count);
        }
        proof {
            assert forall|x: char|
                constraint@.min_occurrence.contains_key(x) <==> (count_of(answer@, x) > 0
                    && exists|j: int| 0 <= j < k + 1 && #[trigger] entries[j].0 == x) by {
                if exists|j: int| 0 <= j < k + 1 && #[trigger] entries[j].0 == x {
                    let j = choose|j: int| 0 <= j < k + 1 && #[trigger] entries[j].0 == x;
                    if j < k && count_of(answer@, x) > 0 {
                        assert(before.min_occurrence.contains_key(x));
                    }
                }
                if x == c {
                    assert(entries[k as int].0 == x);
                }
            }
            assert forall|x: char|
                constraint@.max_occurrence.contains_key(x) <==> (count_of(guess@, x) > count_of(
                    answer@,
                    x,
                ) && exists|j: int| 0 <= j < k + 1 && #[trigger] entries[j].0 == x) by {
                if exists|j: int| 0 <= j < k + 1 && #[trigger] entries[j].0 == x {
                    let j = choose|j: int| 0 <= j < k + 1 && #[trigger] entries[j].0 == x;
                    if j < k && count_of(guess@, x) > count_of(answer@, x) {
                        assert(before.max_occurrence.contains_key(x));
                    }
                }
                if x == c {
                    assert(entries[k as int].0 == x);
                }
            }
        }
        k += 1;
    }
    proof {
        let goal = feedback(guess@, answer@);
        assert forall|c: char| count_of(guess@, c) > 0 implies exists|j: int|
            0 <= j < k && #[trigger] entries[j].0 == c by {
            assert(table@.contains_key(c));
        }
        assert forall|c: char| (exists|j: int| 0 <= j < k && #[trigger] entries[j].0 == c)
            implies count_of(guess@, c) > 0 by {
            let j = choose|j: int| 0 <= j < k && #[trigger] entries[j].0 == c;
            assert(table@.contains_key(entries[j].0));
        }
        assert(constraint@.min_occurrence =~= goal.min_occurrence);
        assert(constraint@.max_occurrence =~= goal.max_occurrence);
    }
    constraint
}

} // verus!
