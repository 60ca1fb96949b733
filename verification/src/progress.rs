//! Why a game against a word of the vocabulary ends with that word: every
//! round that misses the answer rules out at least one candidate.

use crate::laws::{feedback_keeps_answer, unconstrained_permits_all};
use crate::letters::count_of;
use crate::model::{
    candidates, feedback, lemma_candidates, merged, permits, position_permits, unconstrained,
    ConstraintView,
};
use crate::ranking::{
    game, guess_value, guess_values, lemma_next_guess_is_place, lemma_outranks_total,
    lemma_top_exists, lemma_total_remaining_bounded, next_first_guess, next_guess, outranks, pick,
    remaining_after, total_remaining, word_length,
};
use vstd::prelude::*;

verus! {

/// Whether every word of `texts` has `length` letters.
pub open spec fn uniform(texts: Seq<Seq<char>>, length: nat) -> bool {
    forall|i: int| 0 <= i < texts.len() ==> (#[trigger] texts[i]).len() == length
}

/// A wrong guess is ruled out by its own feedback.
pub proof fn lemma_feedback_rejects_wrong_guess(
    constraint: ConstraintView,
    guess: Seq<char>,
    answer: Seq<char>,
)
    requires
        guess.len() == answer.len(),
        guess != answer,
        constraint.positions.len() >= guess.len(),
    ensures
        !permits(merged(constraint, feedback(guess, answer)), guess),
{
    if forall|i: int| 0 <= i < guess.len() ==> guess[i] == answer[i] {
        assert(guess =~= answer);
    }
    let i = choose|i: int| 0 <= i < guess.len() && guess[i] != answer[i];
    let after = merged(constraint, feedback(guess, answer));
    assert(after.positions[i].excluded.contains(guess[i]));
    assert(!position_permits(after.positions[i], guess[i]));
}

/// Feedback against a word that the constraint permits only narrows: what
/// is permitted afterwards was permitted before.
pub proof fn lemma_feedback_narrows(
    constraint: ConstraintView,
    guess: Seq<char>,
    answer: Seq<char>,
    text: Seq<char>,
)
    requires
        permits(constraint, answer),
        permits(merged(constraint, feedback(guess, answer)), text),
    ensures
        permits(constraint, text),
{
    let after = merged(constraint, feedback(guess, answer));
    assert forall|c: char| #[trigger] constraint.min_occurrence.contains_key(c) implies count_of(
        text,
        c,
    ) >= constraint.min_occurrence[c] by {
        assert(after.min_occurrence.contains_key(c));
    }
    assert forall|c: char| #[trigger] constraint.max_occurrence.contains_key(c) implies count_of(
        text,
        c,
    ) <= constraint.max_occurrence[c] by {
        assert(after.max_occurrence.contains_key(c));
    }
    assert forall|i: int|
        0 <= i < constraint.positions.len() && i < text.len() implies position_permits(
        #[trigger] constraint.positions[i],
        text[i],
    ) by {
        assert(position_permits(after.positions[i], text[i]));
        if i < answer.len() {
            assert(position_permits(constraint.positions[i], answer[i]));
        }
    }
}

/// What a constraint permits after feedback was merged into it, the
/// feedback alone permits too.
pub proof fn lemma_feedback_part(
    constraint: ConstraintView,
    guess: Seq<char>,
    answer: Seq<char>,
    text: Seq<char>,
)
    requires
        permits(merged(constraint, feedback(guess, answer)), text),
        constraint.positions.len() >= guess.len(),
    ensures
        permits(feedback(guess, answer), text),
{
    let row = feedback(guess, answer);
    let after = merged(constraint, row);
    assert forall|c: char| #[trigger] row.min_occurrence.contains_key(c) implies count_of(text, c)
        >= row.min_occurrence[c] by {
        assert(after.min_occurrence.contains_key(c));
    }
    assert forall|c: char| #[trigger] row.max_occurrence.contains_key(c) implies count_of(text, c)
        <= row.max_occurrence[c] by {
        assert(after.max_occurrence.contains_key(c));
    }
    assert forall|i: int| 0 <= i < row.positions.len() && i < text.len() implies position_permits(
        #[trigger] row.positions[i],
        text[i],
    ) by {
        assert(position_permits(after.positions[i], text[i]));
    }
}

/// The feedback of a guess is the same against every word that it permits:
/// a word that the feedback against `answer` permits would have given the
/// same feedback.
pub proof fn lemma_same_feedback(guess: Seq<char>, answer: Seq<char>, other: Seq<char>)
    requires
        guess.len() == answer.len(),
        other.len() == answer.len(),
        permits(feedback(guess, answer), other),
    ensures
        feedback(guess, other) == feedback(guess, answer),
{
    let row = feedback(guess, answer);
    let same = feedback(guess, other);
    assert forall|i: int| 0 <= i < guess.len() implies same.positions[i] == row.positions[i] by {
        assert(position_permits(row.positions[i], other[i]));
    }
    assert(same.positions =~= row.positions);
    assert forall|c: char| count_of(guess, c) > 0 implies (count_of(other, c) > 0 <==> count_of(
        answer,
        c,
    ) > 0) && (count_of(guess, c) > count_of(other, c) <==> count_of(guess, c) > count_of(
        answer,
        c,
    )) && (count_of(guess, c) > count_of(answer, c) ==> count_of(other, c) == count_of(
        answer,
        c,
    )) by {
        if count_of(answer, c) > 0 {
            assert(row.min_occurrence.contains_key(c));
        }
        if count_of(guess, c) > count_of(answer, c) {
            assert(row.max_occurrence.contains_key(c));
        }
    }
    assert(same.min_occurrence =~= row.min_occurrence);
    assert(same.max_occurrence =~= row.max_occurrence);
}

/// What two constraints both permit, their merge permits.
pub proof fn lemma_merge_permits_common(
    first: ConstraintView,
    second: ConstraintView,
    text: Seq<char>,
)
    requires
        permits(first, text),
        permits(second, text),
    ensures
        permits(merged(first, second), text),
{
    let both = merged(first, second);
    assert forall|i: int| 0 <= i < both.positions.len() && i < text.len() implies position_permits(
        #[trigger] both.positions[i],
        text[i],
    ) by {
        assert(position_permits(first.positions[i], text[i]));
        if i < second.positions.len() {
            assert(position_permits(second.positions[i], text[i]));
        }
    }
}

/// Where every word is permitted, every word is a candidate.
pub proof fn lemma_all_candidates(constraint: ConstraintView, texts: Seq<Seq<char>>)
    requires
        forall|i: int| 0 <= i < texts.len() ==> permits(constraint, #[trigger] texts[i]),
    ensures
        candidates(constraint, texts).len() == texts.len(),
    decreases texts.len(),
{
    if texts.len() > 0 {
        let front = texts.drop_last();
        assert forall|i: int| 0 <= i < front.len() implies permits(
            constraint,
            #[trigger] front[i],
        ) by {
            assert(front[i] == texts[i]);
        }
        lemma_all_candidates(constraint, front);
        assert(texts.last() == texts[texts.len() - 1]);
    }
}

/// A narrower constraint has no more candidates, and fewer where it rules
/// out one.
pub proof fn lemma_fewer_candidates(
    wide: ConstraintView,
    narrow: ConstraintView,
    texts: Seq<Seq<char>>,
)
    requires
        forall|i: int|
            0 <= i < texts.len() && permits(narrow, #[trigger] texts[i]) ==> permits(
                wide,
                texts[i],
            ),
    ensures
        candidates(narrow, texts).len() <= candidates(wide, texts).len(),
        (exists|i: int|
            0 <= i < texts.len() && permits(wide, #[trigger] texts[i]) && !permits(
                narrow,
                texts[i],
            )) ==> candidates(narrow, texts).len() < candidates(wide, texts).len(),
    decreases texts.len(),
{
    if texts.len() > 0 {
        let front = texts.drop_last();
        assert forall|i: int|
            0 <= i < front.len() && permits(narrow, #[trigger] front[i]) implies permits(
            wide,
            front[i],
        ) by {
            assert(front[i] == texts[i]);
        }
        lemma_fewer_candidates(wide, narrow, front);
        assert(texts.last() == texts[texts.len() - 1]);
        if exists|i: int|
            0 <= i < texts.len() && permits(wide, #[trigger] texts[i]) && !permits(
                narrow,
                texts[i],
            ) {
            let i = choose|i: int|
                0 <= i < texts.len() && permits(wide, #[trigger] texts[i]) && !permits(
                    narrow,
                    texts[i],
                );
            if i < front.len() {
                assert(front[i] == texts[i]);
            }
        }
    }
}

/// Where each word of the pool, taken as the answer, leaves the whole pool
/// remaining, the sum of what remains is the pool times itself.
pub proof fn lemma_total_remaining_full(
    running: ConstraintView,
    guess: Seq<char>,
    pool: Seq<Seq<char>>,
    n: int,
)
    requires
        0 <= n <= pool.len(),
        forall|k: int|
            0 <= k < pool.len() ==> remaining_after(running, guess, #[trigger] pool[k], pool)
                == pool.len(),
    ensures
        total_remaining(running, guess, pool, n) == n * pool.len(),
    decreases n,
{
    if n > 0 {
        lemma_total_remaining_full(running, guess, pool, n - 1);
        assert(remaining_after(running, guess, pool[n - 1], pool) == pool.len());
        assert((n - 1) * pool.len() + pool.len() == n * pool.len()) by (nonlinear_arith);
    } else {
        assert(n * pool.len() == 0) by (nonlinear_arith)
            requires
                n == 0,
        ;
    }
}

/// A guess that rules out no candidate is worth nothing, unless it is a
/// candidate itself: against every word of the pool it would give the
/// feedback that it gave against the answer, which leaves the whole pool.
proof fn lemma_idle_guess_is_worthless(
    texts: Seq<Seq<char>>,
    constraint: ConstraintView,
    guess: Seq<char>,
    answer: Seq<char>,
)
    requires
        uniform(texts, answer.len()),
        guess.len() == answer.len(),
        constraint.positions.len() == answer.len(),
        !permits(constraint, guess),
        forall|i: int|
            0 <= i < texts.len() && permits(constraint, #[trigger] texts[i]) ==> permits(
                merged(constraint, feedback(guess, answer)),
                texts[i],
            ),
    ensures
        guess_value(constraint, guess, pick(texts, candidates(constraint, texts))) == 0,
{
    let found = candidates(constraint, texts);
    let pool = pick(texts, found);
    let row = feedback(guess, answer);
    lemma_candidates(constraint, texts);
    assert forall|k: int| 0 <= k < pool.len() implies permits(constraint, #[trigger] pool[k])
        && permits(row, pool[k]) && pool[k].len() == answer.len() by {
        let place = found[k];
        assert(permits(constraint, texts[place]));
        lemma_feedback_part(constraint, guess, answer, texts[place]);
    }
    assert forall|k: int| 0 <= k < pool.len() implies remaining_after(
        constraint,
        guess,
        #[trigger] pool[k],
        pool,
    ) == pool.len() by {
        lemma_same_feedback(guess, answer, pool[k]);
        assert forall|j: int| 0 <= j < pool.len() implies permits(
            merged(row, constraint),
            #[trigger] pool[j],
        ) by {
            lemma_merge_permits_common(row, constraint, pool[j]);
        }
        lemma_all_candidates(merged(row, constraint), pool);
    }
    lemma_total_remaining_full(constraint, guess, pool, pool.len() as int);
}

/// A round that misses the answer makes progress: the feedback rules out
/// at least one candidate, and the answer stays one.
pub proof fn lemma_round_makes_progress(
    texts: Seq<Seq<char>>,
    first_guess: Option<int>,
    constraint: ConstraintView,
    answer: Seq<char>,
)
    requires
        uniform(texts, answer.len()),
        constraint.positions.len() == answer.len(),
        texts.contains(answer),
        permits(constraint, answer),
        first_guess is Some ==> 0 <= first_guess->0 < texts.len(),
        next_guess(texts, first_guess, constraint) is Some,
        texts[next_guess(texts, first_guess, constraint)->0] != answer,
    ensures
        candidates(
            merged(
                constraint,
                feedback(texts[next_guess(texts, first_guess, constraint)->0], answer),
            ),
            texts,
        ).len() < candidates(constraint, texts).len(),
{
    let place = next_guess(texts, first_guess, constraint)->0;
    let guess = texts[place];
    let after = merged(constraint, feedback(guess, answer));
    let found = candidates(constraint, texts);
    lemma_next_guess_is_place(texts, first_guess, constraint);
    lemma_candidates(constraint, texts);
    assert forall|i: int|
        0 <= i < texts.len() && permits(after, #[trigger] texts[i]) implies permits(
        constraint,
        texts[i],
    ) by {
        lemma_feedback_narrows(constraint, guess, answer, texts[i]);
    }
    lemma_fewer_candidates(constraint, after, texts);
    if permits(constraint, guess) {
        lemma_feedback_rejects_wrong_guess(constraint, guess, answer);
        assert(permits(constraint, texts[place]) && !permits(after, texts[place]));
    } else {
        if found.len() == texts.len() {
            assert(found.contains(place)) by {
                lemma_all_places_found(constraint, texts, place);
            }
            let k = choose|k: int| 0 <= k < found.len() && found[k] == place;
            assert(permits(constraint, texts[found[k]]));
        }
        if 0 < found.len() <= 2 {
            assert(permits(constraint, texts[found[0]]));
        }
        let values = guess_values(constraint, texts, pick(texts, found));
        lemma_top_exists(values, texts);
        let target = choose|i: int| 0 <= i < texts.len() && texts[i] == answer;
        if forall|i: int|
            0 <= i < texts.len() && permits(constraint, #[trigger] texts[i]) ==> permits(
                after,
                texts[i],
            ) {
            lemma_idle_guess_is_worthless(texts, constraint, guess, answer);
            lemma_total_remaining_bounded(
                constraint,
                answer,
                pick(texts, found),
                pick(texts, found).len() as int,
            );
            assert(values[place] == 0);
            assert(values[target] >= 1);
            lemma_outranks_total(values, texts, place, target);
            assert(outranks(values, texts, place, target));
        }
    }
}

/// Where there are as many candidates as words, every place is a candidate.
proof fn lemma_all_places_found(constraint: ConstraintView, texts: Seq<Seq<char>>, place: int)
    requires
        0 <= place < texts.len(),
        candidates(constraint, texts).len() == texts.len(),
    ensures
        candidates(constraint, texts).contains(place),
    decreases texts.len(),
{
    let front = texts.drop_last();
    lemma_candidates(constraint, front);
    if permits(constraint, texts.last()) {
        if place < front.len() {
            lemma_all_places_found(constraint, front, place);
            let k = choose|k: int|
                0 <= k < candidates(constraint, front).len() && candidates(constraint, front)[k]
                    == place;
            assert(candidates(constraint, texts)[k] == place);
        } else {
            assert(candidates(constraint, texts)[candidates(constraint, texts).len() - 1]
                == place);
        }
    }
}

/// A game of at least as many rounds as there are candidates, against a
/// word of a vocabulary of words of one length, ends with that word.
pub proof fn game_ends_with_answer(
    texts: Seq<Seq<char>>,
    first_guess: Option<int>,
    constraint: ConstraintView,
    answer: Seq<char>,
    rounds: nat,
)
    requires
        uniform(texts, answer.len()),
        constraint.positions.len() == answer.len(),
        texts.contains(answer),
        permits(constraint, answer),
        first_guess is Some ==> 0 <= first_guess->0 < texts.len(),
        candidates(constraint, texts).len() <= rounds,
    ensures
        game(texts, first_guess, constraint, answer, rounds) is Some,
        game(texts, first_guess, constraint, answer, rounds)->0.len() > 0,
        texts[game(texts, first_guess, constraint, answer, rounds)->0.last()] == answer,
    decreases rounds,
{
    lemma_candidates(constraint, texts);
    lemma_next_guess_is_place(texts, first_guess, constraint);
    let target = choose|i: int| 0 <= i < texts.len() && texts[i] == answer;
    assert(permits(constraint, texts[target]));
    assert(candidates(constraint, texts).contains(target));
    let place = next_guess(texts, first_guess, constraint)->0;
    if texts[place] != answer {
        let after = merged(constraint, feedback(texts[place], answer));
        lemma_round_makes_progress(texts, first_guess, constraint, answer);
        feedback_keeps_answer(constraint, texts[place], answer);
        game_ends_with_answer(
            texts,
            next_first_guess(texts, first_guess, constraint),
            after,
            answer,
            (rounds - 1) as nat,
        );
        let rest = game(
            texts,
            next_first_guess(texts, first_guess, constraint),
            after,
            answer,
            (rounds - 1) as nat,
        )->0;
        assert((seq![place] + rest).last() == rest.last());
    }
}

/// Round trip: a game against any word of a vocabulary of words of one
/// length, begun with no knowledge and with at least as many rounds as
/// the vocabulary has words, ends with that word as its last guess.
pub proof fn game_finds_answer(
    texts: Seq<Seq<char>>,
    first_guess: Option<int>,
    answer: Seq<char>,
    rounds: nat,
)
    requires
        uniform(texts, answer.len()),
        texts.contains(answer),
        first_guess is Some ==> 0 <= first_guess->0 < texts.len(),
        texts.len() <= rounds,
    ensures
        game(texts, first_guess, unconstrained(word_length(texts)), answer, rounds) is Some,
        game(texts, first_guess, unconstrained(word_length(texts)), answer, rounds)->0.len() > 0,
        texts[game(
            texts,
            first_guess,
            unconstrained(word_length(texts)),
            answer,
            rounds,
        )->0.last()] == answer,
{
    let start = unconstrained(word_length(texts));
    unconstrained_permits_all(word_length(texts), answer);
    lemma_candidates(start, texts);
    let target = choose|i: int| 0 <= i < texts.len() && texts[i] == answer;
    assert(texts[0].len() == answer.len());
    game_ends_with_answer(texts, first_guess, start, answer, rounds);
}

} // verus!
