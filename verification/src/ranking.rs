//! How guesses are valued and ranked, and which guess comes next.

use crate::model::{candidates, feedback, lemma_candidates, merged, permits, ConstraintView};
use crate::word::{lemma_sorts_total, lemma_sorts_transitive, sorts_before};
use vstd::prelude::*;

verus! {

/// The words of `texts` at the places `chosen`, in that order.
pub open spec fn pick(texts: Seq<Seq<char>>, chosen: Seq<int>) -> Seq<Seq<char>> {
    Seq::new(chosen.len(), |k: int| texts[chosen[k]])
}

/// How many words of `pool` would remain if `guess` were played and the
/// hidden word were `answer`: those that the feedback, with `running` merged
/// into it, permits.
pub open spec fn remaining_after(
    running: ConstraintView,
    guess: Seq<char>,
    answer: Seq<char>,
    pool: Seq<Seq<char>>,
) -> nat {
    candidates(merged(feedback(guess, answer), running), pool).len()
}

/// The sum of `remaining_after` over the first `n` words of `pool`, each
/// taken as the hidden word.
pub open spec fn total_remaining(
    running: ConstraintView,
    guess: Seq<char>,
    pool: Seq<Seq<char>>,
    n: int,
) -> nat
    decreases n,
{
    if n <= 0 || n > pool.len() {
        0
    } else {
        total_remaining(running, guess, pool, n - 1) + remaining_after(
            running,
            guess,
            pool[n - 1],
            pool,
        )
    }
}

/// The elimination score of `guess`: over all words of `pool` taken as the
/// hidden word, how many words of `pool` the guess would eliminate in all.
pub open spec fn elimination_score(
    running: ConstraintView,
    guess: Seq<char>,
    pool: Seq<Seq<char>>,
) -> int {
    pool.len() * pool.len() - total_remaining(running, guess, pool, pool.len() as int)
}

/// The value by which a guess is ranked: its elimination score, and one more
/// if the guess could itself be the hidden word.
pub open spec fn guess_value(
    running: ConstraintView,
    guess: Seq<char>,
    pool: Seq<Seq<char>>,
) -> int {
    elimination_score(running, guess, pool) + if permits(running, guess) {
        1int
    } else {
        0int
    }
}

/// The values of all words of `texts` as guesses.
pub open spec fn guess_values(
    running: ConstraintView,
    texts: Seq<Seq<char>>,
    pool: Seq<Seq<char>>,
) -> Seq<int> {
    Seq::new(texts.len(), |g: int| guess_value(running, texts[g], pool))
}

/// Whether the guess at `i` ranks above the guess at `j`: by the higher
/// value; among equal values, by the later text in dictionary order; among
/// equal texts, by the higher place.
pub open spec fn outranks(values: Seq<int>, texts: Seq<Seq<char>>, i: int, j: int) -> bool {
    values[i] > values[j] || (values[i] == values[j] && (sorts_before(texts[j], texts[i]) || (
    texts[i] == texts[j] && i > j)))
}

/// Whether the guess at `best` ranks above every other one.
pub open spec fn is_top(values: Seq<int>, texts: Seq<Seq<char>>, best: int) -> bool {
    &&& 0 <= best < values.len()
    &&& forall|j: int| 0 <= j < values.len() && j != best ==> outranks(values, texts, best, j)
}

/// The guess that ranks above every other one.
pub open spec fn top_guess(values: Seq<int>, texts: Seq<Seq<char>>) -> int {
    choose|best: int| is_top(values, texts, best)
}

/// The next guess for a vocabulary `texts` under `constraint`, where
/// `first_guess` is the opening guess known from before, if any; `None`
/// where no word is consistent with the constraint.
///
/// While the candidates are the whole vocabulary, a known opening guess is
/// played. A single candidate is the answer, and of two the first is played.
/// Otherwise every word of the vocabulary is valued against the candidates,
/// and the one that ranks on top is played.
pub open spec fn next_guess(
    texts: Seq<Seq<char>>,
    first_guess: Option<int>,
    constraint: ConstraintView,
) -> Option<int> {
    let found = candidates(constraint, texts);
    if found.len() == texts.len() && first_guess is Some {
        first_guess
    } else if found.len() == 0 {
        None
    } else if found.len() <= 2 {
        Some(found[0])
    } else {
        Some(top_guess(guess_values(constraint, texts, pick(texts, found)), texts))
    }
}

/// The opening guess that is known after the next guess was chosen: one
/// that was known stays; one that was chosen by ranking, while the
/// candidates were the whole vocabulary, becomes known.
pub open spec fn next_first_guess(
    texts: Seq<Seq<char>>,
    first_guess: Option<int>,
    constraint: ConstraintView,
) -> Option<int> {
    let found = candidates(constraint, texts);
    if first_guess is None && found.len() == texts.len() && found.len() > 2 {
        next_guess(texts, first_guess, constraint)
    } else {
        first_guess
    }
}

/// The guesses of a game of at most `rounds` rounds against the hidden word
/// `answer`, begun under `constraint`: each round plays the next guess and,
/// unless it is the answer, merges its feedback into the constraint. The
/// game ends with the answer, or when the rounds are used up. `None` where
/// some round finds no word consistent with the constraint.
pub open spec fn game(
    texts: Seq<Seq<char>>,
    first_guess: Option<int>,
    constraint: ConstraintView,
    answer: Seq<char>,
    rounds: nat,
) -> Option<Seq<int>>
    decreases rounds,
{
    if rounds == 0 {
        Some(Seq::empty())
    } else {
        match next_guess(texts, first_guess, constraint) {
            None => None,
            Some(guess) => if texts[guess] == answer {
                Some(seq![guess])
            } else {
                match game(
                    texts,
                    next_first_guess(texts, first_guess, constraint),
                    merged(constraint, feedback(texts[guess], answer)),
                    answer,
                    (rounds - 1) as nat,
                ) {
                    None => None,
                    Some(rest) => Some(seq![guess] + rest),
                }
            },
        }
    }
}

/// The opening guess that is known after the game of `game`.
pub open spec fn first_guess_after_game(
    texts: Seq<Seq<char>>,
    first_guess: Option<int>,
    constraint: ConstraintView,
    answer: Seq<char>,
    rounds: nat,
) -> Option<int>
    decreases rounds,
{
    if rounds == 0 {
        first_guess
    } else {
        match next_guess(texts, first_guess, constraint) {
            None => next_first_guess(texts, first_guess, constraint),
            Some(guess) => if texts[guess] == answer {
                next_first_guess(texts, first_guess, constraint)
            } else {
                first_guess_after_game(
                    texts,
                    next_first_guess(texts, first_guess, constraint),
                    merged(constraint, feedback(texts[guess], answer)),
                    answer,
                    (rounds - 1) as nat,
                )
            },
        }
    }
}

/// The length of the words of a vocabulary: that of its first word, and
/// nought for the empty vocabulary.
pub open spec fn word_length(texts: Seq<Seq<char>>) -> nat {
    if texts.len() > 0 {
        texts[0].len()
    } else {
        0
    }
}

/// The opening guess that is known when games of at most `rounds` rounds
/// have been played against the first `n` words of the vocabulary, one after
/// the other, each from the constraint that carries no knowledge.
pub open spec fn first_guess_after_games(
    texts: Seq<Seq<char>>,
    first_guess: Option<int>,
    rounds: nat,
    n: int,
) -> Option<int>
    decreases n,
{
    if n <= 0 || n > texts.len() {
        first_guess
    } else {
        first_guess_after_game(
            texts,
            first_guess_after_games(texts, first_guess, rounds, n - 1),
            crate::model::unconstrained(word_length(texts)),
            texts[n - 1],
            rounds,
        )
    }
}

/// Among the first `n` guesses one ranks above the others.
proof fn lemma_top_of_prefix(values: Seq<int>, texts: Seq<Seq<char>>, n: int) -> (best: int)
    requires
        0 < n <= values.len(),
    ensures
        0 <= best < n,
        forall|j: int| 0 <= j < n && j != best ==> outranks(values, texts, best, j),
    decreases n,
{
    if n == 1 {
        0
    } else {
        let last = n - 1;
        let before = lemma_top_of_prefix(values, texts, last);
        lemma_outranks_total(values, texts, last, before);
        if outranks(values, texts, last, before) {
            assert forall|j: int| 0 <= j < n && j != last implies outranks(
                values,
                texts,
                last,
                j,
            ) by {
                if j != before {
                    lemma_outranks_transitive(values, texts, last, before, j);
                }
            }
            last
        } else {
            before
        }
    }
}

/// Where there is a guess at all, one ranks above every other one.
pub proof fn lemma_top_exists(values: Seq<int>, texts: Seq<Seq<char>>)
    requires
        values.len() > 0,
    ensures
        is_top(values, texts, top_guess(values, texts)),
{
    let best = lemma_top_of_prefix(values, texts, values.len() as int);
    assert(is_top(values, texts, best));
}

/// The next guess, where there is one, is a place in the vocabulary, and so
/// is the opening guess that is known afterwards.
pub proof fn lemma_next_guess_is_place(
    texts: Seq<Seq<char>>,
    first_guess: Option<int>,
    constraint: ConstraintView,
)
    requires
        first_guess is Some ==> 0 <= first_guess->0 < texts.len(),
    ensures
        next_guess(texts, first_guess, constraint) is Some ==> 0 <= next_guess(
            texts,
            first_guess,
            constraint,
        )->0 < texts.len(),
        next_first_guess(texts, first_guess, constraint) is Some ==> 0 <= next_first_guess(
            texts,
            first_guess,
            constraint,
        )->0 < texts.len(),
        next_guess(texts, first_guess, constraint) is None <==> candidates(
            constraint,
            texts,
        ).len() == 0,
{
    let found = candidates(constraint, texts);
    lemma_candidates(constraint, texts);
    if found.len() > 0 {
        assert(0 <= found[0] < texts.len());
    }
    if found.len() > 2 {
        lemma_top_exists(guess_values(constraint, texts, pick(texts, found)), texts);
    }
}

/// No word of a pool is counted as remaining more than once.
pub proof fn lemma_total_remaining_bounded(
    running: ConstraintView,
    guess: Seq<char>,
    pool: Seq<Seq<char>>,
    n: int,
)
    requires
        0 <= n <= pool.len(),
    ensures
        total_remaining(running, guess, pool, n) <= n * pool.len(),
    decreases n,
{
    if n > 0 {
        lemma_total_remaining_bounded(running, guess, pool, n - 1);
        lemma_candidates(merged(feedback(guess, pool[n - 1]), running), pool);
        assert((n - 1) * pool.len() + pool.len() == n * pool.len()) by (nonlinear_arith);
    }
}

/// Of two different guesses, exactly one ranks above the other.
pub proof fn lemma_outranks_total(values: Seq<int>, texts: Seq<Seq<char>>, i: int, j: int)
    requires
        i != j,
    ensures
        outranks(values, texts, i, j) != outranks(values, texts, j, i),
{
    lemma_sorts_total(texts[i], texts[j]);
}

/// Ranking is transitive.
pub proof fn lemma_outranks_transitive(
    values: Seq<int>,
    texts: Seq<Seq<char>>,
    i: int,
    j: int,
    k: int,
)
    requires
        outranks(values, texts, i, j),
        outranks(values, texts, j, k),
    ensures
        outranks(values, texts, i, k),
{
    if values[i] == values[j] && values[j] == values[k] {
        lemma_sorts_total(texts[i], texts[j]);
        lemma_sorts_total(texts[j], texts[k]);
        if sorts_before(texts[j], texts[i]) && sorts_before(texts[k], texts[j]) {
            lemma_sorts_transitive(texts[k], texts[j], texts[i]);
        }
    }
}

/// At most one guess ranks above every other one.
pub proof fn lemma_top_unique(values: Seq<int>, texts: Seq<Seq<char>>, best: int)
    requires
        is_top(values, texts, best),
    ensures
        top_guess(values, texts) == best,
{
    let other = top_guess(values, texts);
    if other != best {
        lemma_outranks_total(values, texts, best, other);
    }
}

} // verus!
