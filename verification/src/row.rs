//! The grammar of a feedback row, and the constraint that a row stands for.
//!
//! A row is a run of groups, one for each position, separated by single
//! spaces. In a group, `-` marks the letters after it gray, `~` marks them
//! yellow, and letters with no sign before them are green.

use crate::model::{ConstraintView, PositionView};
use vstd::prelude::*;

verus! {

/// How a letter of a row is marked.
#[derive(Clone, Copy, Debug)]
pub enum Mark {
    /// The letter stands at this position.
    Green,
    /// The letter occurs in the word, but not at this position.
    Yellow,
    /// The letter does not stand at this position, and the row shows every
    /// occurrence of it that the word has.
    Gray,
}

/// Whether `c` is a letter of a row, and not one of its signs.
pub open spec fn is_letter(c: char) -> bool {
    c != ' ' && c != '-' && c != '~'
}

/// The mark in force at index `k` of `row`: that of the nearest sign before
/// it in its group, green where there is none.
pub open spec fn mark_at(row: Seq<char>, k: int) -> Mark
    decreases k,
{
    if k <= 0 || k > row.len() {
        Mark::Green
    } else if row[k - 1] == ' ' {
        Mark::Green
    } else if row[k - 1] == '-' {
        Mark::Gray
    } else if row[k - 1] == '~' {
        Mark::Yellow
    } else {
        mark_at(row, k - 1)
    }
}

/// The position that index `k` of `row` belongs to: the number of spaces
/// before it.
pub open spec fn group_at(row: Seq<char>, k: int) -> nat
    decreases k,
{
    if k <= 0 || k > row.len() {
        0
    } else {
        group_at(row, k - 1) + if row[k - 1] == ' ' {
            1nat
        } else {
            0nat
        }
    }
}

/// Whether index `k` of `row` holds a letter marked green or yellow.
pub open spec fn credits(row: Seq<char>, k: int) -> bool {
    is_letter(row[k]) && !(mark_at(row, k) is Gray)
}

/// How often `c` stands marked green or yellow among the first `n` characters
/// of `row`.
pub open spec fn credited(row: Seq<char>, c: char, n: int) -> nat
    decreases n,
{
    if n <= 0 || n > row.len() {
        0
    } else {
        credited(row, c, n - 1) + if row[n - 1] == c && credits(row, n - 1) {
            1nat
        } else {
            0nat
        }
    }
}

/// Whether `c` stands marked gray among the first `n` characters of `row`.
pub open spec fn grayed(row: Seq<char>, c: char, n: int) -> bool {
    exists|k: int|
        0 <= k < n && k < row.len() && #[trigger] row[k] == c && is_letter(c) && mark_at(
            row,
            k,
        ) is Gray
}

/// The green letter of position `p` among the first `n` characters of `row`:
/// the last one, where there are several.
pub open spec fn exact_in(row: Seq<char>, p: int, n: int) -> Option<char>
    decreases n,
{
    if n <= 0 || n > row.len() {
        None
    } else if is_letter(row[n - 1]) && mark_at(row, n - 1) is Green && group_at(row, n - 1) == p {
        Some(row[n - 1])
    } else {
        exact_in(row, p, n - 1)
    }
}

/// The yellow and gray letters of position `p` among the first `n` characters
/// of `row`.
pub open spec fn excluded_in(row: Seq<char>, p: int, n: int) -> Set<char> {
    Set::new(
        |c: char|
            exists|k: int|
                0 <= k < n && k < row.len() && #[trigger] row[k] == c && is_letter(c)
                    && !(mark_at(row, k) is Green) && group_at(row, k) == p,
    )
}

/// The letters that stand marked gray among the first `n` characters of
/// `row`.
pub open spec fn grayed_letters(row: Seq<char>, n: int) -> Set<char> {
    Set::new(|c: char| grayed(row, c, n))
}

/// Whether every letter of `row` belongs to one of the first `size`
/// positions.
pub open spec fn row_fits(row: Seq<char>, size: nat) -> bool {
    forall|k: int| 0 <= k < row.len() && is_letter(#[trigger] row[k]) ==> group_at(row, k) < size
}

/// What the first `n` characters of `row` tell of a word of `size` letters.
/// A letter occurs at least as often as the row shows it green or yellow. A
/// letter that the row shows gray occurs no more often than that.
pub open spec fn row_constraint_of(row: Seq<char>, size: nat, n: int) -> ConstraintView {
    ConstraintView {
        positions: Seq::new(
            size,
            |p: int|
                PositionView {
                    exact: exact_in(row, p, n),
                    excluded: excluded_in(row, p, n),
                },
        ),
        min_occurrence: Map::new(|c: char| credited(row, c, n) > 0, |c: char| credited(row, c, n)),
        max_occurrence: Map::new(|c: char| grayed(row, c, n), |c: char| credited(row, c, n)),
    }
}

/// What `row` tells of a word of `size` letters.
pub open spec fn row_constraint(row: Seq<char>, size: nat) -> ConstraintView {
    row_constraint_of(row, size, row.len() as int)
}

/// A letter is credited at most once for each character read.
pub proof fn lemma_credited_bounded(row: Seq<char>, c: char, n: int)
    ensures
        credited(row, c, n) <= n || n < 0,
        credited(row, c, n) <= row.len(),
    decreases n,
{
    if 0 < n <= row.len() {
        lemma_credited_bounded(row, c, n - 1);
    }
}

/// Reading one more character adds it to the excluded letters of its
/// position if it is a yellow or gray letter, and changes nothing else.
pub proof fn lemma_excluded_step(row: Seq<char>, p: int, k: int)
    requires
        0 <= k < row.len(),
    ensures
        excluded_in(row, p, k + 1) == if is_letter(row[k]) && !(mark_at(row, k) is Green)
            && group_at(row, k) == p {
            excluded_in(row, p, k).insert(row[k])
        } else {
            excluded_in(row, p, k)
        },
{
    let longer = excluded_in(row, p, k + 1);
    let shorter = excluded_in(row, p, k);
    let joins = is_letter(row[k]) && !(mark_at(row, k) is Green) && group_at(row, k) == p;
    assert forall|c: char|
        longer.contains(c) <==> (shorter.contains(c) || (joins && c == row[k])) by {
        if longer.contains(c) {
            let j = choose|j: int|
                0 <= j < k + 1 && j < row.len() && #[trigger] row[j] == c && is_letter(c)
                    && !(mark_at(row, j) is Green) && group_at(row, j) == p;
            if j < k {
                assert(row[j] == c);
            }
        }
        if shorter.contains(c) {
            let j = choose|j: int|
                0 <= j < k && j < row.len() && #[trigger] row[j] == c && is_letter(c)
                    && !(mark_at(row, j) is Green) && group_at(row, j) == p;
            assert(row[j] == c);
        }
        if joins && c == row[k] {
            assert(row[k] == c);
        }
    }
    if joins {
        assert(longer =~= shorter.insert(row[k]));
    } else {
        assert(longer =~= shorter);
    }
}

/// Reading one more character adds it to the gray letters if it is one, and
/// changes nothing else.
pub proof fn lemma_grayed_step(row: Seq<char>, k: int)
    requires
        0 <= k < row.len(),
    ensures
        grayed_letters(row, k + 1) == if is_letter(row[k]) && mark_at(row, k) is Gray {
            grayed_letters(row, k).insert(row[k])
        } else {
            grayed_letters(row, k)
        },
{
    let longer = grayed_letters(row, k + 1);
    let shorter = grayed_letters(row, k);
    let joins = is_letter(row[k]) && mark_at(row, k) is Gray;
    assert forall|c: char|
        longer.contains(c) <==> (shorter.contains(c) || (joins && c == row[k])) by {
        if longer.contains(c) {
            let j = choose|j: int|
                0 <= j < k + 1 && j < row.len() && #[trigger] row[j] == c && is_letter(c)
                    && mark_at(row, j) is Gray;
            if j < k {
                assert(row[j] == c);
            }
        }
        if shorter.contains(c) {
            let j = choose|j: int|
                0 <= j < k && j < row.len() && #[trigger] row[j] == c && is_letter(c)
                    && mark_at(row, j) is Gray;
            assert(row[j] == c);
        }
        if joins && c == row[k] {
            assert(row[k] == c);
        }
    }
    if joins {
        assert(longer =~= shorter.insert(row[k]));
    } else {
        assert(longer =~= shorter);
    }
}

} // verus!
