//! Narrowing the vocabulary to the candidates, scoring guesses, and choosing
//! the next guess.

use crate::constraint::Constraint;
use crate::feedback::wordle_guess;
use crate::laws::{game_never_runs_dry, unconstrained_permits_all};
use crate::model::{candidates, lemma_candidates, unconstrained};
use crate::progress::{game_finds_answer, uniform};
use crate::ranking::{
    elimination_score, first_guess_after_game, first_guess_after_games, game, guess_value,
    guess_values, is_top, lemma_outranks_total, lemma_outranks_transitive, lemma_top_unique,
    lemma_total_remaining_bounded, next_first_guess, next_guess, outranks, pick, remaining_after,
    total_remaining, word_length,
};
use crate::word::{lemma_sorts_total, texts, Word};
use std::collections::HashMap;
use vstd::pervasive::unreached;
use vstd::prelude::*;

verus! {

/// The indices in `v`, as mathematical integers.
pub open spec fn indices(v: Seq<usize>) -> Seq<int> {
    Seq::new(v.len(), |k: int| v[k] as int)
}

/// The candidate set: the indices of the words of `words` that `constraint`
/// allows, in ascending order.
pub fn filter_words(constraint: &Constraint, words: &Vec<Word>) -> (found: Vec<usize>)
    ensures
        indices(found@) == candidates(constraint@, texts(words@)),
{
    let mut found: Vec<usize> = Vec::new();
    let mut i: usize = 0;
    while i < words.len()
        invariant
            i <= words.len(),
            indices(found@) == candidates(constraint@, texts(words@).take(i as int)),
        decreases words.len() - i,
    {
        let ghost seen = texts(words@).take(i as int);
        let ghost next = texts(words@).take(i + 1);
        proof {
            assert(next.drop_last() =~= seen);
            assert(next.last() == words@[i as int]@);
        }
        if constraint.allows(&words[i]) {
            found.push(i);
            assert(indices(found@) =~= candidates(constraint@, seen).push(i as int));
        }
        i += 1;
    }
    proof {
        assert(texts(words@).take(words@.len() as int) =~= texts(words@));
    }
    found
}

/// Whether every index in `chosen` is a place in a vocabulary of `size`
/// words.
pub open spec fn within(chosen: Seq<usize>, size: nat) -> bool {
    forall|k: int| 0 <= k < chosen.len() ==> chosen[k] < size
}

/// How many of the words of `words` at the places `pool` the constraint
/// allows.
pub fn count_allowed(
    constraint: &Constraint,
    words: &Vec<Word>,
    pool: &Vec<usize>,
) -> (count: usize)
    requires
        within(pool@, words@.len()),
    ensures
        count == candidates(constraint@, pick(texts(words@), indices(pool@))).len(),
{
    let ghost all = pick(texts(words@), indices(pool@));
    let mut count: usize = 0;
    let mut k: usize = 0;
    while k < pool.len()
        invariant
            k <= pool.len(),
            within(pool@, words@.len()),
            all == pick(texts(words@), indices(pool@)),
            count == candidates(constraint@, all.take(k as int)).len(),
            count <= k,
        decreases pool.len() - k,
    {
        proof {
            assert(all.take(k + 1).drop_last() =~= all.take(k as int));
            assert(all.take(k + 1).last() == words@[pool@[k as int] as int]@);
        }
        if constraint.allows(&words[pool[k]]) {
            count += 1;
        }
        k += 1;
    }
    proof {
        assert(all.take(pool@.len() as int) =~= all);
    }
    count
}

/// The elimination score of `guess` against the words of `words` at the
/// places `pool`, under the running constraint `constraint`: the square of
/// the size of the pool, less what would remain of the pool for each of its
/// words taken as the hidden word.
pub fn score_guess_count_eliminations(
    guess: &Word,
    words: &Vec<Word>,
    pool: &Vec<usize>,
    constraint: &Constraint,
) -> (score: u128)
    requires
        within(pool@, words@.len()),
    ensures
        score == elimination_score(constraint@, guess@, pick(texts(words@), indices(pool@))),
{
    let ghost all = pick(texts(words@), indices(pool@));
    let size: u128 = pool.len() as u128;
    assert(size * size <= u128::MAX) by (nonlinear_arith)
        requires
            size <= 0xffff_ffff_ffff_ffff,
    ;
    let mut score: u128 = size * size;
    let mut k: usize = 0;
    while k < pool.len()
        invariant
            k <= pool.len(),
            size == pool@.len(),
            within(pool@, words@.len()),
            all == pick(texts(words@), indices(pool@)),
            all.len() == pool@.len(),
            score == size * size - total_remaining(constraint@, guess@, all, k as int),
        decreases pool.len() - k,
    {
        let answer = &words[pool[k]];
        let mut answer_constraint = wordle_guess(guess, answer);
        answer_constraint.update(constraint);
        let remaining = count_allowed(&answer_constraint, words, pool);
        proof {
            assert(all[k as int] == answer@);
            assert(remaining == remaining_after(constraint@, guess@, all[k as int], all));
            lemma_total_remaining_bounded(constraint@, guess@, all, k + 1);
            assert((k + 1) * size <= size * size) by (nonlinear_arith)
                requires
                    0 <= k + 1 <= size,
            ;
        }
        score -= remaining as u128;
        k += 1;
    }
    score
}

/// The values in `v`, as mathematical integers.
pub open spec fn values_of(v: Seq<u128>) -> Seq<int> {
    Seq::new(v.len(), |k: int| v[k] as int)
}

/// The value by which `guess` is ranked against the words of `words` at the
/// places `pool`: its elimination score, and one more if the running
/// constraint allows the guess itself.
pub fn value_guess(
    guess: &Word,
    words: &Vec<Word>,
    pool: &Vec<usize>,
    constraint: &Constraint,
) -> (value: u128)
    requires
        within(pool@, words@.len()),
    ensures
        value == guess_value(constraint@, guess@, pick(texts(words@), indices(pool@))),
{
    let score = score_guess_count_eliminations(guess, words, pool, constraint);
    let size = pool.len();
    assert(size * size < u128::MAX) by (nonlinear_arith)
        requires
            0 <= size <= 0xffff_ffff_ffff_ffff,
    ;
    if constraint.allows(guess) {
        score + 1
    } else {
        score
    }
}

/// The place of the guess that ranks above every other one, where
/// `values[g]` is the value of the word at place `g`.
pub fn select_guess(words: &Vec<Word>, values: &Vec<u128>) -> (best: usize)
    requires
        values@.len() == words@.len(),
        words@.len() > 0,
    ensures
        is_top(values_of(values@), texts(words@), best as int),
{
    let ghost vals = values_of(values@);
    let ghost txts = texts(words@);
    let mut best: usize = 0;
    let mut i: usize = 1;
    while i < words.len()
        invariant
            1 <= i <= words.len(),
            values@.len() == words@.len(),
            vals == values_of(values@),
            txts == texts(words@),
            best < i,
            forall|j: int| 0 <= j < i && j != best ==> outranks(vals, txts, best as int, j),
        decreases words.len() - i,
    {
        let wins = if values[i] != values[best] {
            values[i] > values[best]
        } else {
            !words[i].sorts_before(&words[best])
        };
        proof {
            lemma_sorts_total(txts[i as int], txts[best as int]);
            lemma_outranks_total(vals, txts, i as int, best as int);
            assert(wins == outranks(vals, txts, i as int, best as int));
            if wins {
                assert forall|j: int| 0 <= j < i + 1 && j != i implies outranks(
                    vals,
                    txts,
                    i as int,
                    j,
                ) by {
                    if j != best {
                        lemma_outranks_transitive(vals, txts, i as int, best as int, j);
                    }
                }
            }
        }
        if wins {
            best = i;
        }
        i += 1;
    }
    best
}

/// The most rounds that a simulated game is played.
pub const GUESS_LIMIT: usize = 99;

/// How many of `games` took `n` guesses.
pub open spec fn games_of_length(games: Seq<Vec<usize>>, n: nat) -> nat
    decreases games.len(),
{
    if games.len() == 0 {
        0
    } else {
        games_of_length(games.drop_last(), n) + if games.last()@.len() == n {
            1nat
        } else {
            0nat
        }
    }
}

/// No more games took `n` guesses than there are games.
pub proof fn lemma_games_of_length_bounded(games: Seq<Vec<usize>>, n: nat)
    ensures
        games_of_length(games, n) <= games.len(),
    decreases games.len(),
{
    if games.len() > 0 {
        lemma_games_of_length_bounded(games.drop_last(), n);
    }
}

/// The histogram of guess counts: for each number of guesses that some game
/// took, how many games took that many.
pub fn tally(games: &Vec<Vec<usize>>) -> (histogram: HashMap<usize, usize>)
    ensures
        forall|n: usize| #[trigger]
            histogram@.contains_key(n) <==> games_of_length(games@, n as nat) > 0,
        forall|n: usize| #[trigger]
            histogram@.contains_key(n) ==> histogram@[n] == games_of_length(games@, n as nat),
{
    broadcast use vstd::std_specs::hash::group_hash_axioms;

    let mut histogram: HashMap<usize, usize> = HashMap::new();
    let mut i: usize = 0;
    while i < games.len()
        invariant
            i <= games.len(),
            forall|n: usize| #[trigger]
                histogram@.contains_key(n) <==> games_of_length(games@.take(i as int), n as nat)
                    > 0,
            forall|n: usize| #[trigger]
                histogram@.contains_key(n) ==> histogram@[n] == games_of_length(
                    games@.take(i as int),
                    n as nat,
                ),
        decreases games.len() - i,
    {
        let count = games[i].len();
        proof {
            assert(games@.take(i + 1).drop_last() =~= games@.take(i as int));
            assert(games@.take(i + 1).last() == games@[i as int]);
            lemma_games_of_length_bounded(games@.take(i as int), count as nat);
        }
        let seen = match histogram.get(&count) {
            Some(c) => *c,
            None => 0,
        };
        histogram.insert(count, seen + 1);
        i += 1;
    }
    proof {
        assert(games@.take(games@.len() as int) =~= games@);
    }
    histogram
}

/// Why no guess could be chosen.
#[derive(Clone, Copy, Debug, PartialEq, Eq, Structural)]
pub enum SolveError {
    /// No word of the vocabulary is consistent with the constraint.
    NoCandidates,
}

impl SolveError {
    /// The fault in words.
    pub fn message(&self) -> (text: String)
        ensures
            text@ == "Error: No words match those constraints."@,
    {
        "Error: No words match those constraints.".to_owned()
    }
}

/// A vocabulary together with the opening guess for it, once that is known.
pub struct WordleSolver {
    words: Vec<Word>,
    first_guess: Option<usize>,
}

impl WordleSolver {
    #[verifier::type_invariant]
    spec fn inv(&self) -> bool {
        self.first_guess is Some ==> self.first_guess->0 < self.words@.len()
    }

    /// The texts of the vocabulary, in its order.
    pub closed spec fn texts(&self) -> Seq<Seq<char>> {
        texts(self.words@)
    }

    /// The place of the opening guess, if it is known.
    pub closed spec fn known_first_guess(&self) -> Option<int> {
        match self.first_guess {
            Some(i) => Some(i as int),
            None => None,
        }
    }

    /// A solver for the vocabulary `words`. The opening guess `first_guess`
    /// is taken as known if it is a place in the vocabulary, else dropped.
    pub fn new(words: Vec<Word>, first_guess: Option<usize>) -> (solver: WordleSolver)
        ensures
            solver.texts() == texts(words@),
            solver.known_first_guess() == match first_guess {
                Some(i) => if i < words@.len() {
                    Some(i as int)
                } else {
                    None
                },
                None => None,
            },
    {
        let kept = match first_guess {
            Some(i) => if i < words.len() {
                Some(i)
            } else {
                None
            },
            None => None,
        };
        WordleSolver { words, first_guess: kept }
    }

    /// The vocabulary.
    pub fn words(&self) -> (words: &Vec<Word>)
        ensures
            texts(words@) == self.texts(),
    {
        &self.words
    }

    /// The place of the opening guess, if it is known.
    pub fn first_guess(&self) -> (place: Option<usize>)
        ensures
            place is Some <==> self.known_first_guess() is Some,
            place is Some ==> place->0 == self.known_first_guess()->0 && place->0
                < self.texts().len(),
    {
        proof {
            use_type_invariant(self);
        }
        self.first_guess
    }

    /// The guess that needs no ranking, for the candidate set `pool`: the
    /// known opening guess while the candidates are the whole vocabulary;
    /// the fault of an empty candidate set; the first of one or two
    /// candidates. `None` where the guesses have to be ranked.
    pub fn quick_guess(&self, pool: &Vec<usize>) -> (settled: Option<Result<usize, SolveError>>)
        ensures
            match settled {
                Some(Ok(place)) => if pool@.len() == self.texts().len()
                    && self.known_first_guess() is Some {
                    self.known_first_guess() == Some(place as int)
                } else {
                    1 <= pool@.len() <= 2 && place == pool@[0]
                },
                Some(Err(fault)) => !(pool@.len() == self.texts().len()
                    && self.known_first_guess() is Some) && pool@.len() == 0,
                None => !(pool@.len() == self.texts().len() && self.known_first_guess() is Some)
                    && pool@.len() > 2,
            },
    {
        proof {
            use_type_invariant(self);
        }
        if pool.len() == self.words.len() {
            if let Some(index) = self.first_guess {
                return Some(Ok(index));
            }
        }
        if pool.len() < 1 {
            return Some(Err(SolveError::NoCandidates));
        }
        if pool.len() <= 2 {
            return Some(Ok(pool[0]));
        }
        None
    }

    /// Takes `guess` as the opening guess if it was ranked against the
    /// whole vocabulary, that is if the candidate set had `pool_size` words
    /// and the vocabulary has as many. A guess that is no place in the
    /// vocabulary is not taken.
    pub fn learn_first_guess(&mut self, pool_size: usize, guess: usize)
        ensures
            final(self).texts() == old(self).texts(),
            final(self).known_first_guess() == if pool_size == old(self).texts().len() && guess
                < old(self).texts().len() {
                Some(guess as int)
            } else {
                old(self).known_first_guess()
            },
    {
        if pool_size == self.words.len() && guess < self.words.len() {
            self.first_guess = Some(guess);
        }
    }

    /// The place of the best next guess under `constraint`, or the fault
    /// that no word of the vocabulary is consistent with it. An opening
    /// guess that had to be ranked is known afterwards.
    pub fn best_guess(&mut self, constraint: &Constraint) -> (guess: Result<usize, SolveError>)
        ensures
            final(self).texts() == old(self).texts(),
            final(self).known_first_guess() == next_first_guess(
                old(self).texts(),
                old(self).known_first_guess(),
                constraint@,
            ),
            match next_guess(old(self).texts(), old(self).known_first_guess(), constraint@) {
                Some(place) => guess is Ok && guess->Ok_0 == place && 0 <= place
                    < old(self).texts().len(),
                None => guess is Err && guess->Err_0 == SolveError::NoCandidates,
            },
    {
        proof {
            use_type_invariant(&*self);
            lemma_candidates(constraint@, self.texts());
        }
        let remaining_words = filter_words(constraint, &self.words);
        let ghost found = candidates(constraint@, self.texts());
        assert(within(remaining_words@, self.words@.len())) by {
            assert forall|k: int| 0 <= k < remaining_words@.len() implies remaining_words@[k]
                < self.words@.len() by {
                assert(indices(remaining_words@)[k] == found[k]);
            }
        }
        assert(remaining_words@.len() == found.len());
        if remaining_words.len() > 0 {
            assert(indices(remaining_words@)[0] == found[0]);
        }
        if let Some(settled) = self.quick_guess(&remaining_words) {
            return settled;
        }
        let ghost pool = pick(self.texts(), found);
        let mut values: Vec<u128> = Vec::new();
        let mut g: usize = 0;
        while g < self.words.len()
            invariant
                g <= self.words.len(),
                self.texts() == old(self).texts(),
                self.known_first_guess() == old(self).known_first_guess(),
                within(remaining_words@, self.words@.len()),
                indices(remaining_words@) == found,
                pool == pick(self.texts(), found),
                values@.len() == g,
                forall|j: int|
                    0 <= j < g ==> values@[j] == guess_value(constraint@, self.texts()[j], pool),
            decreases self.words.len() - g,
        {
            let value = value_guess(&self.words[g], &self.words, &remaining_words, constraint);
            values.push(value);
            g += 1;
        }
        let best = select_guess(&self.words, &values);
        proof {
            assert(values_of(values@) =~= guess_values(constraint@, self.texts(), pool));
            lemma_top_unique(values_of(values@), self.texts(), best as int);
        }
        self.learn_first_guess(remaining_words.len(), best);
        Ok(best)
    }

    /// Plays a game against the hidden word `answer`, from the constraint
    /// that carries no knowledge: guesses until the answer is guessed, for
    /// `GUESS_LIMIT` rounds at most. Returns the places of the guesses, or
    /// the fault that a round found no word consistent with the feedback;
    /// that cannot happen where the answer is a word of the vocabulary.
    pub fn test(&mut self, answer: &Word) -> (guesses: Result<Vec<usize>, SolveError>)
        ensures
            final(self).texts() == old(self).texts(),
            final(self).known_first_guess() == first_guess_after_game(
                old(self).texts(),
                old(self).known_first_guess(),
                unconstrained(word_length(old(self).texts())),
                answer@,
                GUESS_LIMIT as nat,
            ),
            match game(
                old(self).texts(),
                old(self).known_first_guess(),
                unconstrained(word_length(old(self).texts())),
                answer@,
                GUESS_LIMIT as nat,
            ) {
                Some(played) => guesses is Ok && indices(guesses->Ok_0@) == played,
                None => guesses is Err && guesses->Err_0 == SolveError::NoCandidates,
            },
            old(self).texts().contains(answer@) ==> guesses is Ok,
            uniform(old(self).texts(), answer@.len()) && old(self).texts().contains(answer@)
                && old(self).texts().len() <= GUESS_LIMIT ==> guesses is Ok
                && guesses->Ok_0@.len() > 0 && old(self).texts()[guesses->Ok_0@.last() as int]
                == answer@,
    {
        let ghost all = self.texts();
        let ghost known = self.known_first_guess();
        let ghost start = unconstrained(word_length(all));
        proof {
            use_type_invariant(&*self);
            if all.contains(answer@) {
                unconstrained_permits_all(word_length(all), answer@);
                game_never_runs_dry(all, known, start, answer@, GUESS_LIMIT as nat);
                if uniform(all, answer@.len()) && all.len() <= GUESS_LIMIT {
                    game_finds_answer(all, known, answer@, GUESS_LIMIT as nat);
                }
            }
        }
        let mut result: Vec<usize> = Vec::new();
        let size = if self.words.len() > 0 {
            self.words[0].len()
        } else {
            0
        };
        let mut constraint = Constraint::new(size);
        let mut round: usize = 0;
        while round < GUESS_LIMIT
            invariant
                round <= GUESS_LIMIT,
                all == old(self).texts(),
                known == old(self).known_first_guess(),
                start == unconstrained(word_length(all)),
                all.contains(answer@) ==> game(all, known, start, answer@, GUESS_LIMIT as nat)
                    is Some,
                uniform(all, answer@.len()) && all.contains(answer@) && all.len() <= GUESS_LIMIT
                    ==> game(all, known, start, answer@, GUESS_LIMIT as nat)->0.len() > 0
                    && all[game(all, known, start, answer@, GUESS_LIMIT as nat)->0.last()]
                    == answer@,
                self.texts() == all,
                result@.len() == round,
                game(all, known, start, answer@, GUESS_LIMIT as nat) == match game(
                    all,
                    self.known_first_guess(),
                    constraint@,
                    answer@,
                    (GUESS_LIMIT - round) as nat,
                ) {
                    Some(rest) => Some(indices(result@) + rest),
                    None => None,
                },
                first_guess_after_game(all, known, start, answer@, GUESS_LIMIT as nat)
                    == first_guess_after_game(
                    all,
                    self.known_first_guess(),
                    constraint@,
                    answer@,
                    (GUESS_LIMIT - round) as nat,
                ),
            decreases GUESS_LIMIT - round,
        {
            let ghost before = indices(result@);
            let ghost known_now = self.known_first_guess();
            let ghost running = constraint@;
            let guess = match self.best_guess(&constraint) {
                Ok(guess) => guess,
                Err(fault) => {
                    return Err(fault);
                },
            };
            result.push(guess);
            assert(indices(result@) =~= before + seq![guess as int]);
            assert(all[guess as int] == self.words@[guess as int]@);
            assert(next_guess(all, known_now, running) == Some(guess as int));
            assert(((GUESS_LIMIT - round) as nat - 1) as nat == (GUESS_LIMIT - round - 1) as nat);
            if self.words[guess].same_text(answer) {
                return Ok(result);
            }
            let guess_constraint = wordle_guess(&self.words[guess], answer);
            constraint.update(&guess_constraint);
            proof {
                let rest = game(
                    all,
                    self.known_first_guess(),
                    constraint@,
                    answer@,
                    (GUESS_LIMIT - round - 1) as nat,
                );
                if rest is Some {
                    assert(before + (seq![guess as int] + rest->0) =~= indices(result@) + rest->0);
                }
            }
            round += 1;
        }
        assert(indices(result@) + Seq::<int>::empty() =~= indices(result@));
        Ok(result)
    }

    /// Plays a game against every word of the vocabulary, in its order, and
    /// returns the guesses of each.
    pub fn full_test(&mut self) -> (games: Vec<Vec<usize>>)
        ensures
            final(self).texts() == old(self).texts(),
            final(self).known_first_guess() == first_guess_after_games(
                old(self).texts(),
                old(self).known_first_guess(),
                GUESS_LIMIT as nat,
                old(self).texts().len() as int,
            ),
            games@.len() == old(self).texts().len(),
            forall|i: int|
                0 <= i < games@.len() ==> Some(indices(#[trigger] games@[i]@)) == game(
                    old(self).texts(),
                    first_guess_after_games(
                        old(self).texts(),
                        old(self).known_first_guess(),
                        GUESS_LIMIT as nat,
                        i,
                    ),
                    unconstrained(word_length(old(self).texts())),
                    old(self).texts()[i],
                    GUESS_LIMIT as nat,
                ),
            uniform(old(self).texts(), word_length(old(self).texts())) && old(self).texts().len()
                <= GUESS_LIMIT ==> forall|i: int|
                0 <= i < games@.len() ==> (#[trigger] games@[i])@.len() > 0 && old(
                    self,
                ).texts()[games@[i]@.last() as int] == old(self).texts()[i],
    {
        let ghost all = self.texts();
        let ghost known = self.known_first_guess();
        let mut games: Vec<Vec<usize>> = Vec::new();
        let mut i: usize = 0;
        while i < self.words.len()
            invariant
                i <= self.words@.len(),
                all == old(self).texts(),
                known == old(self).known_first_guess(),
                self.texts() == all,
                all.len() == self.words@.len(),
                self.known_first_guess() == first_guess_after_games(
                    all,
                    known,
                    GUESS_LIMIT as nat,
                    i as int,
                ),
                games@.len() == i,
                forall|j: int|
                    0 <= j < i ==> Some(indices(#[trigger] games@[j]@)) == game(
                        all,
                        first_guess_after_games(all, known, GUESS_LIMIT as nat, j),
                        unconstrained(word_length(all)),
                        all[j],
                        GUESS_LIMIT as nat,
                    ),
                uniform(all, word_length(all)) && all.len() <= GUESS_LIMIT ==> forall|j: int|
                    0 <= j < i ==> (#[trigger] games@[j])@.len() > 0
                        && all[games@[j]@.last() as int] == all[j],
            decreases self.words@.len() - i,
        {
            let word = self.words[i].clone();
            assert(all[i as int] == word@);
            let guesses = match self.test(&word) {
                Ok(guesses) => guesses,
                Err(_) => unreached(),
            };
            games.push(guesses);
            i += 1;
        }
        games
    }
}

} // verus!
