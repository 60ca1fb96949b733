//! What holds of merging, filtering and feedback, whatever the inputs.

use crate::letters::{larger_bounds, smaller_bounds};
use crate::model::{
    candidates, feedback, free_position, lemma_candidates, merge_position, merged, permits,
    position_permits, unconstrained, ConstraintView, PositionView,
};
use crate::ranking::{game, lemma_next_guess_is_place, next_first_guess, next_guess};
use vstd::prelude::*;

verus! {

/// What `constraint` knows of position `i`; nothing, where it has no such
/// position.
pub open spec fn row_at(constraint: ConstraintView, i: int) -> PositionView {
    if 0 <= i < constraint.positions.len() {
        constraint.positions[i]
    } else {
        free_position()
    }
}

/// Whether merging `row` into `position` leaves it as it is.
pub open spec fn adds_nothing(position: PositionView, row: PositionView) -> bool {
    &&& row.exact is Some ==> row.exact == position.exact
    &&& row.exact is None ==> row.excluded.subset_of(position.excluded)
}

/// Whether, at position `i` of `first`, it makes no difference if `second`
/// and `third` are merged in one after the other or merged with each other
/// first. A row that knows the letter of a position passes on nothing of
/// what another row excludes there, so the two ways agree only where such
/// excluded letters were excluded by `first` already.
pub open spec fn associates_at(
    first: ConstraintView,
    second: ConstraintView,
    third: ConstraintView,
    i: int,
) -> bool {
    let a = first.positions[i];
    let c = row_at(third, i);
    if i < second.positions.len() {
        let b = second.positions[i];
        &&& b.exact is Some && c.exact is None ==> c.excluded.subset_of(a.excluded)
        &&& b.exact is None && c.exact is Some ==> b.excluded.subset_of(a.excluded)
    } else {
        adds_nothing(a, c)
    }
}

/// Merging the same row a second time changes nothing.
pub proof fn merge_is_idempotent(constraint: ConstraintView, row: ConstraintView)
    ensures
        merged(merged(constraint, row), row) == merged(constraint, row),
{
    let once = merged(constraint, row);
    let twice = merged(once, row);
    assert(twice.min_occurrence =~= once.min_occurrence);
    assert(twice.max_occurrence =~= once.max_occurrence);
    assert forall|i: int| 0 <= i < once.positions.len() implies twice.positions[i]
        == once.positions[i] by {
        if i < row.positions.len() {
            assert(twice.positions[i].excluded =~= once.positions[i].excluded);
        }
    }
    assert(twice.positions =~= once.positions);
}

/// The bounds on letter counts merge associatively, whatever the rows.
pub proof fn bounds_merge_associates(
    first: Map<char, nat>,
    second: Map<char, nat>,
    third: Map<char, nat>,
)
    ensures
        larger_bounds(larger_bounds(first, second), third) == larger_bounds(
            first,
            larger_bounds(second, third),
        ),
        smaller_bounds(smaller_bounds(first, second), third) == smaller_bounds(
            first,
            smaller_bounds(second, third),
        ),
{
    assert(larger_bounds(larger_bounds(first, second), third) =~= larger_bounds(
        first,
        larger_bounds(second, third),
    ));
    assert(smaller_bounds(smaller_bounds(first, second), third) =~= smaller_bounds(
        first,
        smaller_bounds(second, third),
    ));
}

/// Merging is associative exactly where it is associative at every
/// position: merging `second` and then `third` into `first` gives the same as
/// merging into `first` what `second` becomes when `third` is merged into it.
pub proof fn merge_associates(first: ConstraintView, second: ConstraintView, third: ConstraintView)
    ensures
        merged(merged(first, second), third) == merged(first, merged(second, third)) <==> forall|
            i: int,
        |
            0 <= i < first.positions.len() ==> associates_at(first, second, third, i),
{
    let left = merged(merged(first, second), third);
    let right = merged(first, merged(second, third));
    bounds_merge_associates(first.min_occurrence, second.min_occurrence, third.min_occurrence);
    bounds_merge_associates(first.max_occurrence, second.max_occurrence, third.max_occurrence);
    assert forall|i: int| 0 <= i < first.positions.len() implies (left.positions[i]
        == right.positions[i] <==> associates_at(first, second, third, i)) by {
        let a = first.positions[i];
        let c = row_at(third, i);
        lemma_free_row_adds_nothing(a);
        if i < second.positions.len() {
            let b = second.positions[i];
            lemma_free_row_adds_nothing(b);
            lemma_free_row_adds_nothing(merge_position(a, b));
            assert(left.positions[i] == merge_position(merge_position(a, b), c));
            assert(right.positions[i] == merge_position(a, merge_position(b, c)));
            if b.exact is Some && c.exact is None {
                lemma_union_absorbs(a.excluded, c.excluded);
            } else if b.exact is None && c.exact is Some {
                lemma_union_absorbs(a.excluded, b.excluded);
            } else if b.exact is None && c.exact is None {
                assert(a.excluded.union(b.excluded).union(c.excluded) =~= a.excluded.union(
                    b.excluded.union(c.excluded),
                ));
            }
        } else {
            assert(left.positions[i] == merge_position(a, c));
            assert(right.positions[i] == a);
            lemma_union_absorbs(a.excluded, c.excluded);
        }
    }
    if forall|i: int| 0 <= i < first.positions.len() ==> associates_at(first, second, third, i) {
        assert(left.positions =~= right.positions);
    }
    if left == right {
        assert forall|i: int| 0 <= i < first.positions.len() implies associates_at(
            first,
            second,
            third,
            i,
        ) by {
            assert(left.positions[i] == right.positions[i]);
        }
    }
}

/// Whether two rows agree about a position: the letter that one knows to
/// stand there is not excluded there by the other.
pub open spec fn rows_agree(one: PositionView, other: PositionView) -> bool {
    &&& one.exact is Some && other.exact is None ==> !other.excluded.contains(one.exact->0)
    &&& one.exact is None && other.exact is Some ==> !one.excluded.contains(other.exact->0)
}

/// For rows that agree with each other, merging is associative in effect:
/// whether `second` and `third` are merged into `first` one after the
/// other or merged with each other first, the same words are permitted.
/// The rows have to agree about every position that both have, and
/// `second` has to have every position that `first` and `third` share.
pub proof fn merge_associates_in_effect(
    first: ConstraintView,
    second: ConstraintView,
    third: ConstraintView,
    text: Seq<char>,
)
    requires
        first.positions.len() <= second.positions.len() || third.positions.len()
            <= second.positions.len(),
        forall|i: int|
            0 <= i < second.positions.len() && i < third.positions.len() ==> rows_agree(
                #[trigger] second.positions[i],
                third.positions[i],
            ),
    ensures
        permits(merged(merged(first, second), third), text) <==> permits(
            merged(first, merged(second, third)),
            text,
        ),
{
    let left = merged(merged(first, second), third);
    let right = merged(first, merged(second, third));
    bounds_merge_associates(first.min_occurrence, second.min_occurrence, third.min_occurrence);
    bounds_merge_associates(first.max_occurrence, second.max_occurrence, third.max_occurrence);
    assert forall|i: int| 0 <= i < first.positions.len() && i < text.len() implies (
    position_permits(#[trigger] left.positions[i], text[i]) <==> position_permits(
        right.positions[i],
        text[i],
    )) by {
        if i < second.positions.len() && i < third.positions.len() {
            assert(rows_agree(second.positions[i], third.positions[i]));
        }
    }
    assert(left.min_occurrence == right.min_occurrence);
    assert(left.max_occurrence == right.max_occurrence);
    if permits(left, text) {
        assert forall|i: int|
            0 <= i < right.positions.len() && i < text.len() implies position_permits(
            #[trigger] right.positions[i],
            text[i],
        ) by {
            assert(position_permits(left.positions[i], text[i]));
        }
        assert(permits(right, text));
    }
    if permits(right, text) {
        assert forall|i: int|
            0 <= i < left.positions.len() && i < text.len() implies position_permits(
            #[trigger] left.positions[i],
            text[i],
        ) by {
            assert(position_permits(right.positions[i], text[i]));
        }
        assert(permits(left, text));
    }
}

/// Merging a row that knows nothing of a position leaves the position as
/// it is.
proof fn lemma_free_row_adds_nothing(position: PositionView)
    ensures
        merge_position(position, free_position()) == position,
{
    assert(merge_position(position, free_position()).excluded =~= position.excluded);
}

/// Adding a set changes nothing exactly if it is a subset.
proof fn lemma_union_absorbs(whole: Set<char>, part: Set<char>)
    ensures
        whole.union(part) == whole <==> part.subset_of(whole),
{
    if part.subset_of(whole) {
        assert(whole.union(part) =~= whole);
    }
    if whole.union(part) == whole {
        assert forall|x: char| part.contains(x) implies whole.contains(x) by {
            assert(whole.union(part).contains(x));
        }
    }
}

/// Merging only tightens: a lower bound never falls, an upper bound never
/// rises, a known letter is never forgotten, and an excluded letter stays
/// excluded.
pub proof fn merge_only_tightens(constraint: ConstraintView, row: ConstraintView)
    ensures
        forall|c: char| #[trigger]
            constraint.min_occurrence.contains_key(c) ==> merged(
                constraint,
                row,
            ).min_occurrence.contains_key(c) && merged(constraint, row).min_occurrence[c]
                >= constraint.min_occurrence[c],
        forall|c: char| #[trigger]
            constraint.max_occurrence.contains_key(c) ==> merged(
                constraint,
                row,
            ).max_occurrence.contains_key(c) && merged(constraint, row).max_occurrence[c]
                <= constraint.max_occurrence[c],
        merged(constraint, row).positions.len() == constraint.positions.len(),
        forall|i: int|
            0 <= i < constraint.positions.len() ==> ((#[trigger] constraint.positions[i]).exact
                is Some ==> merged(constraint, row).positions[i].exact is Some)
                && constraint.positions[i].excluded.subset_of(
                merged(constraint, row).positions[i].excluded,
            ),
{
}

/// The constraint that carries no knowledge permits every word.
pub proof fn unconstrained_permits_all(size: nat, text: Seq<char>)
    ensures
        permits(unconstrained(size), text),
{
}

/// Filtering by the constraint that carries no knowledge returns the whole
/// vocabulary.
pub proof fn unconstrained_filter_keeps_all(size: nat, texts: Seq<Seq<char>>)
    ensures
        candidates(unconstrained(size), texts) == Seq::new(texts.len(), |i: int| i),
    decreases texts.len(),
{
    if texts.len() > 0 {
        unconstrained_filter_keeps_all(size, texts.drop_last());
        unconstrained_permits_all(size, texts.last());
    }
    assert(candidates(unconstrained(size), texts) =~= Seq::new(texts.len(), |i: int| i));
}

/// Soundness of feedback: a word that a constraint permits is still
/// permitted after the feedback of any guess against that very word is
/// merged in.
pub proof fn feedback_keeps_answer(
    constraint: ConstraintView,
    guess: Seq<char>,
    answer: Seq<char>,
)
    requires
        permits(constraint, answer),
    ensures
        permits(merged(constraint, feedback(guess, answer)), answer),
{
    let row = feedback(guess, answer);
    let after = merged(constraint, row);
    assert forall|i: int|
        0 <= i < after.positions.len() && i < answer.len() implies position_permits(
        #[trigger] after.positions[i],
        answer[i],
    ) by {
        assert(position_permits(constraint.positions[i], answer[i]));
    }
}

/// Soundness of filtering: the true answer is never eliminated by its own
/// true feedback. A word of the candidate set stays in it when the feedback
/// of any guess against that word is merged into the constraint.
pub proof fn feedback_keeps_candidate(
    constraint: ConstraintView,
    texts: Seq<Seq<char>>,
    guess: Seq<char>,
    answer: int,
)
    requires
        candidates(constraint, texts).contains(answer),
    ensures
        0 <= answer < texts.len(),
        candidates(merged(constraint, feedback(guess, texts[answer])), texts).contains(answer),
{
    lemma_candidates(constraint, texts);
    let k = choose|k: int|
        0 <= k < candidates(constraint, texts).len() && candidates(constraint, texts)[k] == answer;
    assert(candidates(constraint, texts)[k] == answer);
    feedback_keeps_answer(constraint, guess, texts[answer]);
    lemma_candidates(merged(constraint, feedback(guess, texts[answer])), texts);
}

/// After the feedback of guessing a word against itself is merged into the
/// constraint that carries no knowledge, a word of the same length is
/// permitted exactly if it is that word.
pub proof fn own_feedback_singles_out(size: nat, answer: Seq<char>, text: Seq<char>)
    requires
        size >= answer.len(),
        text.len() == answer.len(),
    ensures
        permits(merged(unconstrained(size), feedback(answer, answer)), text) <==> text == answer,
{
    let after = merged(unconstrained(size), feedback(answer, answer));
    unconstrained_permits_all(size, answer);
    feedback_keeps_answer(unconstrained(size), answer, answer);
    if permits(after, text) {
        assert forall|i: int| 0 <= i < text.len() implies text[i] == answer[i] by {
            assert(position_permits(after.positions[i], text[i]));
        }
        assert(text =~= answer);
    }
}

/// Filtering a vocabulary of words of one length by the feedback of guessing
/// the answer against itself returns exactly the places at which the answer
/// stands.
pub proof fn own_feedback_filter_finds_answer(size: nat, answer: Seq<char>, texts: Seq<Seq<char>>)
    requires
        size >= answer.len(),
        forall|i: int| 0 <= i < texts.len() ==> (#[trigger] texts[i]).len() == answer.len(),
    ensures
        forall|i: int|
            candidates(merged(unconstrained(size), feedback(answer, answer)), texts).contains(i)
                <==> 0 <= i < texts.len() && texts[i] == answer,
{
    let after = merged(unconstrained(size), feedback(answer, answer));
    lemma_candidates(after, texts);
    assert forall|i: int|
        candidates(after, texts).contains(i) <==> 0 <= i < texts.len() && texts[i] == answer by {
        if candidates(after, texts).contains(i) {
            let k = choose|k: int|
                0 <= k < candidates(after, texts).len() && candidates(after, texts)[k] == i;
            assert(candidates(after, texts)[k] == i);
            own_feedback_singles_out(size, answer, texts[i]);
        }
        if 0 <= i < texts.len() && texts[i] == answer {
            own_feedback_singles_out(size, answer, texts[i]);
        }
    }
}

/// In a vocabulary of words of one length in which the answer stands once,
/// at `place`, filtering by the feedback of guessing the answer against
/// itself returns that place and nothing else.
pub proof fn own_feedback_filter_returns_answer(
    size: nat,
    texts: Seq<Seq<char>>,
    place: int,
)
    requires
        0 <= place < texts.len(),
        size >= texts[place].len(),
        forall|i: int| 0 <= i < texts.len() ==> (#[trigger] texts[i]).len() == texts[place].len(),
        forall|i: int| 0 <= i < texts.len() && i != place ==> #[trigger] texts[i] != texts[place],
    ensures
        candidates(merged(unconstrained(size), feedback(texts[place], texts[place])), texts)
            == seq![place],
{
    let answer = texts[place];
    let found = candidates(merged(unconstrained(size), feedback(answer, answer)), texts);
    own_feedback_filter_finds_answer(size, answer, texts);
    lemma_candidates(merged(unconstrained(size), feedback(answer, answer)), texts);
    assert(found.contains(place));
    assert forall|k: int| 0 <= k < found.len() implies found[k] == place by {
        assert(found.contains(found[k]));
    }
    if found.len() > 1 {
        assert(found[0] < found[1]);
    }
    assert(found =~= seq![place]);
}

/// Where the constraint narrows the vocabulary to a single candidate, that
/// candidate is the next guess, whatever opening guess is known.
pub proof fn single_candidate_is_next_guess(
    texts: Seq<Seq<char>>,
    first_guess: Option<int>,
    constraint: ConstraintView,
)
    requires
        candidates(constraint, texts).len() == 1,
        first_guess is Some ==> 0 <= first_guess->0 < texts.len(),
    ensures
        next_guess(texts, first_guess, constraint) == Some(candidates(constraint, texts)[0]),
        next_first_guess(texts, first_guess, constraint) == first_guess,
{
    lemma_candidates(constraint, texts);
    if texts.len() == 1 {
        assert(0 <= candidates(constraint, texts)[0] < 1);
    }
}

/// A game against a word of the vocabulary never runs out of candidates:
/// begun under a constraint that permits the answer, every round finds a
/// guess.
pub proof fn game_never_runs_dry(
    texts: Seq<Seq<char>>,
    first_guess: Option<int>,
    constraint: ConstraintView,
    answer: Seq<char>,
    rounds: nat,
)
    requires
        texts.contains(answer),
        permits(constraint, answer),
        first_guess is Some ==> 0 <= first_guess->0 < texts.len(),
    ensures
        game(texts, first_guess, constraint, answer, rounds) is Some,
    decreases rounds,
{
    if rounds > 0 {
        lemma_candidates(constraint, texts);
        lemma_next_guess_is_place(texts, first_guess, constraint);
        let place = choose|i: int| 0 <= i < texts.len() && texts[i] == answer;
        assert(permits(constraint, texts[place]));
        assert(candidates(constraint, texts).contains(place));
        let guess = next_guess(texts, first_guess, constraint)->0;
        if texts[guess] != answer {
            feedback_keeps_answer(constraint, texts[guess], answer);
            game_never_runs_dry(
                texts,
                next_first_guess(texts, first_guess, constraint),
                merged(constraint, feedback(texts[guess], answer)),
                answer,
                (rounds - 1) as nat,
            );
        }
    }
}

/// The guesses of a game are places in the vocabulary, no more than there
/// are rounds, and none but the last is the answer.
pub proof fn game_is_well_formed(
    texts: Seq<Seq<char>>,
    first_guess: Option<int>,
    constraint: ConstraintView,
    answer: Seq<char>,
    rounds: nat,
)
    requires
        first_guess is Some ==> 0 <= first_guess->0 < texts.len(),
        game(texts, first_guess, constraint, answer, rounds) is Some,
    ensures
        game(texts, first_guess, constraint, answer, rounds)->0.len() <= rounds,
        forall|k: int|
            0 <= k < game(texts, first_guess, constraint, answer, rounds)->0.len() ==> {
                let guess = #[trigger] game(texts, first_guess, constraint, answer, rounds)->0[k];
                &&& 0 <= guess < texts.len()
                &&& texts[guess] == answer ==> k == game(
                    texts,
                    first_guess,
                    constraint,
                    answer,
                    rounds,
                )->0.len() - 1
            },
    decreases rounds,
{
    if rounds > 0 {
        lemma_next_guess_is_place(texts, first_guess, constraint);
        let guess = next_guess(texts, first_guess, constraint)->0;
        if texts[guess] != answer {
            game_is_well_formed(
                texts,
                next_first_guess(texts, first_guess, constraint),
                merged(constraint, feedback(texts[guess], answer)),
                answer,
                (rounds - 1) as nat,
            );
            let rest = game(
                texts,
                next_first_guess(texts, first_guess, constraint),
                merged(constraint, feedback(texts[guess], answer)),
                answer,
                (rounds - 1) as nat,
            )->0;
            let all = game(texts, first_guess, constraint, answer, rounds)->0;
            assert(all == seq![guess] + rest);
            assert forall|k: int| 0 <= k < all.len() implies {
                let g = #[trigger] all[k];
                &&& 0 <= g < texts.len()
                &&& texts[g] == answer ==> k == all.len() - 1
            } by {
                if k > 0 {
                    assert(all[k] == rest[k - 1]);
                }
            }
        }
    }
}

} // verus!
