//! The mathematical model of accumulated feedback, and what it means for a
//! word to be consistent with it.

use crate::letters::{count_of, larger_bounds, smaller_bounds};
use vstd::prelude::*;

verus! {

/// What is known about one position of the hidden word.
pub struct PositionView {
    /// The letter known to stand at the position, if one is known.
    pub exact: Option<char>,
    /// The letters known not to stand at the position.
    pub excluded: Set<char>,
}

/// What is known about the hidden word.
pub struct ConstraintView {
    /// What is known of each position, from the first.
    pub positions: Seq<PositionView>,
    /// For each letter with a lower bound, how often it occurs at least.
    pub min_occurrence: Map<char, nat>,
    /// For each letter with an upper bound, how often it occurs at most.
    pub max_occurrence: Map<char, nat>,
}

/// A position of which nothing is known.
pub open spec fn free_position() -> PositionView {
    PositionView { exact: None, excluded: Set::empty() }
}

/// The constraint over `size` positions that carries no knowledge.
pub open spec fn unconstrained(size: nat) -> ConstraintView {
    ConstraintView {
        positions: Seq::new(size, |i: int| free_position()),
        min_occurrence: Map::empty(),
        max_occurrence: Map::empty(),
    }
}

/// One position after a row is merged in: a letter that the row knows to stand
/// there takes the place of the known letter; otherwise the letters that the
/// row excludes join the excluded ones.
pub open spec fn merge_position(mine: PositionView, row: PositionView) -> PositionView {
    if row.exact is Some {
        PositionView { exact: row.exact, excluded: mine.excluded }
    } else {
        PositionView { exact: mine.exact, excluded: mine.excluded.union(row.excluded) }
    }
}

/// The constraint `mine` after `row` is merged into it. It keeps the
/// positions of `mine`; positions that `row` lacks stay as they are.
pub open spec fn merged(mine: ConstraintView, row: ConstraintView) -> ConstraintView {
    ConstraintView {
        positions: Seq::new(
            mine.positions.len(),
            |i: int|
                if i < row.positions.len() {
                    merge_position(mine.positions[i], row.positions[i])
                } else {
                    mine.positions[i]
                },
        ),
        min_occurrence: larger_bounds(mine.min_occurrence, row.min_occurrence),
        max_occurrence: smaller_bounds(mine.max_occurrence, row.max_occurrence),
    }
}

/// Whether the letter `c` may stand at a position of which `position` is known.
pub open spec fn position_permits(position: PositionView, c: char) -> bool {
    &&& position.exact is Some ==> position.exact == Some(c)
    &&& !position.excluded.contains(c)
}

/// Whether `text` is consistent with `constraint`: it has every bounded
/// letter within its bounds, and at every position that both have, a letter
/// that the position permits.
pub open spec fn permits(constraint: ConstraintView, text: Seq<char>) -> bool {
    &&& forall|c: char| #[trigger]
        constraint.min_occurrence.contains_key(c) ==> count_of(text, c)
            >= constraint.min_occurrence[c]
    &&& forall|c: char| #[trigger]
        constraint.max_occurrence.contains_key(c) ==> count_of(text, c)
            <= constraint.max_occurrence[c]
    &&& forall|i: int|
        0 <= i < constraint.positions.len() && i < text.len() ==> position_permits(
            #[trigger] constraint.positions[i],
            text[i],
        )
}

/// What guessing `guess` reveals of one position where the hidden word has
/// the letter `hidden`.
pub open spec fn position_feedback(guessed: char, hidden: char) -> PositionView {
    if guessed == hidden {
        PositionView { exact: Some(guessed), excluded: Set::empty() }
    } else {
        PositionView { exact: None, excluded: Set::empty().insert(guessed) }
    }
}

/// What an honest evaluation of `guess` against the hidden word `answer`
/// reveals. Each position that both words have is known exactly where they
/// agree, and excludes the guessed letter where they differ. A letter of the
/// guess that the answer has too occurs at least as often as in the one that
/// has it less often; a letter that the guess has more often than the answer
/// occurs exactly as often as in the answer.
pub open spec fn feedback(guess: Seq<char>, answer: Seq<char>) -> ConstraintView {
    ConstraintView {
        positions: Seq::new(
            guess.len(),
            |i: int|
                if i < answer.len() {
                    position_feedback(guess[i], answer[i])
                } else {
                    free_position()
                },
        ),
        min_occurrence: Map::new(
            |c: char| count_of(guess, c) > 0 && count_of(answer, c) > 0,
            |c: char|
                if count_of(guess, c) <= count_of(answer, c) {
                    count_of(guess, c)
                } else {
                    count_of(answer, c)
                },
        ),
        max_occurrence: Map::new(
            |c: char| count_of(guess, c) > count_of(answer, c),
            |c: char| count_of(answer, c),
        ),
    }
}

/// The candidate set: the indices of the words of `texts` that are
/// consistent with `constraint`, in ascending order.
pub open spec fn candidates(constraint: ConstraintView, texts: Seq<Seq<char>>) -> Seq<int>
    decreases texts.len(),
{
    if texts.len() == 0 {
        Seq::empty()
    } else {
        let front = candidates(constraint, texts.drop_last());
        if permits(constraint, texts.last()) {
            front.push(texts.len() - 1)
        } else {
            front
        }
    }
}

/// The candidate set holds exactly the indices of the permitted words, each
/// once, in ascending order.
pub proof fn lemma_candidates(constraint: ConstraintView, texts: Seq<Seq<char>>)
    ensures
        candidates(constraint, texts).len() <= texts.len(),
        forall|k: int|
            0 <= k < candidates(constraint, texts).len() ==> {
                let i = #[trigger] candidates(constraint, texts)[k];
                0 <= i < texts.len() && permits(constraint, texts[i])
            },
        forall|k: int, l: int|
            0 <= k < l < candidates(constraint, texts).len() ==> candidates(constraint, texts)[k]
                < candidates(constraint, texts)[l],
        forall|i: int|
            0 <= i < texts.len() && permits(constraint, #[trigger] texts[i]) ==> candidates(
                constraint,
                texts,
            ).contains(i),
    decreases texts.len(),
{
    if texts.len() > 0 {
        let front_texts = texts.drop_last();
        let front = candidates(constraint, front_texts);
        let all = candidates(constraint, texts);
        lemma_candidates(constraint, front_texts);
        assert forall|k: int| 0 <= k < all.len() implies {
            let i = #[trigger] all[k];
            0 <= i < texts.len() && permits(constraint, texts[i])
        } by {
            if k < front.len() {
                assert(all[k] == front[k]);
                assert(texts[front[k]] == front_texts[front[k]]);
            }
        }
        assert forall|k: int, l: int| 0 <= k < l < all.len() implies all[k] < all[l] by {
            assert(all[k] == front[k]);
            if l < front.len() {
                assert(all[l] == front[l]);
            }
        }
        assert forall|i: int|
            0 <= i < texts.len() && permits(constraint, #[trigger] texts[i]) implies all.contains(
            i,
        ) by {
            if i < front_texts.len() {
                assert(front_texts[i] == texts[i]);
                let k = choose|k: int| 0 <= k < front.len() && front[k] == i;
                assert(all[k] == i);
            } else {
                assert(all[all.len() - 1] == i);
            }
        }
    }
}

} // verus!
