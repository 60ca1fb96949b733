//! Accumulated feedback as data: what is known of each position, and the
//! bounds on how often each letter occurs.

use crate::letters::{count_of, larger_bounds, lists, smaller_bounds, LetterMap, LetterSet};
use crate::model::{
    free_position, merge_position, merged, permits, position_permits, unconstrained,
    ConstraintView, PositionView,
};
use crate::row::{
    credited, exact_in, excluded_in, grayed_letters, group_at, is_letter, lemma_credited_bounded,
    lemma_excluded_step, lemma_grayed_step, mark_at, row_constraint, row_constraint_of, row_fits,
    Mark,
};
use crate::word::{decode, Word};
use vstd::prelude::*;

verus! {

/// What is known about one position.
#[derive(Debug)]
pub struct CharacterConstraint {
    is: Option<char>,
    is_not: LetterSet,
}

impl View for CharacterConstraint {
    type V = PositionView;

    closed spec fn view(&self) -> PositionView {
        PositionView { exact: self.is, excluded: self.is_not@ }
    }
}

/// The fault of a feedback row that has a letter beyond the last position.
#[derive(Debug)]
pub struct RowError {}

/// What is known about the hidden word.
#[derive(Debug)]
pub struct Constraint {
    character: Vec<CharacterConstraint>,
    min_occurrence: LetterMap,
    max_occurrence: LetterMap,
}

impl View for Constraint {
    type V = ConstraintView;

    closed spec fn view(&self) -> ConstraintView {
        ConstraintView {
            positions: Seq::new(self.character@.len(), |i: int| self.character@[i]@),
            min_occurrence: self.min_occurrence@,
            max_occurrence: self.max_occurrence@,
        }
    }
}

impl Constraint {
    /// The constraint over `size` positions that carries no knowledge.
    pub fn new(size: usize) -> (made: Constraint)
        ensures
            made@ == unconstrained(size as nat),
    {
        let mut character: Vec<CharacterConstraint> = Vec::new();
        while character.len() < size
            invariant
                character@.len() <= size,
                forall|i: int| 0 <= i < character@.len() ==> character@[i]@ == free_position(),
            decreases size - character@.len(),
        {
            character.push(CharacterConstraint { is: None, is_not: LetterSet::new() });
        }
        let made = Constraint {
            character,
            min_occurrence: LetterMap::new(),
            max_occurrence: LetterMap::new(),
        };
        assert(made@.positions =~= unconstrained(size as nat).positions);
        made
    }

    /// The constraint that the feedback row `string` stands for, over `size`
    /// positions. Every letter of the row has to belong to one of them;
    /// `try_from_string` takes any row.
    pub fn from_string(string: &String, size: usize) -> (made: Constraint)
        requires
            row_fits(string@, size as nat),
        ensures
            made@ == row_constraint(string@, size as nat),
    {
        let row = decode(string.as_str());
        Constraint::from_letters(&row, size)
    }

    /// The constraint that the feedback row with the characters `row` stands
    /// for, over `size` positions.
    fn from_letters(row: &Vec<char>, size: usize) -> (made: Constraint)
        requires
            row_fits(row@, size as nat),
        ensures
            made@ == row_constraint(row@, size as nat),
    {
        let mut constraint = Constraint::new(size);
        let mut i: usize = 0;
        let mut op = Mark::Green;
        let mut found_max = LetterSet::new();
        let mut k: usize = 0;
        proof {
            assert(constraint@.min_occurrence =~= row_constraint_of(
                row@,
                size as nat,
                0,
            ).min_occurrence);
            assert(found_max@ =~= grayed_letters(row@, 0));
            assert forall|p: int| 0 <= p < size implies excluded_in(row@, p, 0) == (
            #[trigger] constraint@.positions[p]).excluded by {
                assert(constraint@.positions[p].excluded =~= excluded_in(row@, p, 0));
            }
        }
        while k < row.len()
            invariant
                k <= row.len(),
                row_fits(row@, size as nat),
                op == mark_at(row@, k as int),
                i <= size,
                i == group_at(row@, k as int) || (i == size && group_at(row@, k as int) >= size),
                constraint@.positions.len() == size,
                forall|p: int|
                    0 <= p < size ==> (#[trigger] constraint@.positions[p]).exact == exact_in(
                        row@,
                        p,
                        k as int,
                    ) && constraint@.positions[p].excluded == excluded_in(row@, p, k as int),
                constraint@.min_occurrence == row_constraint_of(
                    row@,
                    size as nat,
                    k as int,
                ).min_occurrence,
                constraint@.max_occurrence == Map::<char, nat>::empty(),
                found_max@ == grayed_letters(row@, k as int),
            decreases row.len() - k,
        {
            let c = row[k];
            proof {
                lemma_grayed_step(row@, k as int);
                lemma_credited_bounded(row@, c, k as int);
                assert forall|p: int| 0 <= p < size implies #[trigger] excluded_in(row@, p, k + 1)
                    == if is_letter(row@[k as int]) && !(mark_at(row@, k as int) is Green)
                    && group_at(row@, k as int) == p {
                    excluded_in(row@, p, k as int).insert(row@[k as int])
                } else {
                    excluded_in(row@, p, k as int)
                } by {
                    lemma_excluded_step(row@, p, k as int);
                }
            }
            if c == ' ' {
                if i < size {
                    i += 1;
                }
                op = Mark::Green;
            } else if c == '-' {
                op = Mark::Gray;
            } else if c == '~' {
                op = Mark::Yellow;
            } else {
                assert(is_letter(row@[k as int]));
                match op {
                    Mark::Green => {
                        constraint.require_at(i, c);
                        constraint.increment_min_occurrence(&c);
                    },
                    Mark::Yellow => {
                        constraint.exclude_at(i, c);
                        constraint.increment_min_occurrence(&c);
                    },
                    Mark::Gray => {
                        constraint.exclude_at(i, c);
                        found_max.insert(c);
                    },
                }
            }
            proof {
                assert(constraint@.min_occurrence =~= row_constraint_of(
                    row@,
                    size as nat,
                    k + 1,
                ).min_occurrence);
            }
            k += 1;
        }
        let n = found_max.len();
        let ghost members = found_max.members();
        let ghost goal = row_constraint(row@, size as nat);
        let mut m: usize = 0;
        while m < n
            invariant
                m <= n,
                n == members.len(),
                members == found_max.members(),
                members.to_set() == grayed_letters(row@, row@.len() as int),
                goal == row_constraint(row@, size as nat),
                constraint@.positions == goal.positions,
                constraint@.min_occurrence == goal.min_occurrence,
                forall|c: char|
                    constraint@.max_occurrence.contains_key(c) <==> exists|j: int|
                        0 <= j < m && #[trigger] members[j] == c,
                forall|c: char| #[trigger]
                    constraint@.max_occurrence.contains_key(c) ==> constraint@.max_occurrence[c]
                        == credited(row@, c, row@.len() as int),
            decreases n - m,
        {
            let c = found_max.get(m);
            let ghost before = constraint@;
            let count = match constraint.min_occurrence_of(c) {
                Some(v) => v,
                None => 0,
            };
            constraint.set_max_occurrence(c, count);
            proof {
                assert forall|x: char|
                    constraint@.max_occurrence.contains_key(x) <==> exists|j: int|
                        0 <= j < m + 1 && #[trigger] members[j] == x by {
                    if exists|j: int| 0 <= j < m + 1 && #[trigger] members[j] == x {
                        let j = choose|j: int| 0 <= j < m + 1 && #[trigger] members[j] == x;
                        if j < m {
                            assert(before.max_occurrence.contains_key(x));
                        }
                    }
                    if x == c {
                        assert(members[m as int] == x);
                    }
                }
            }
            m += 1;
        }
        proof {
            assert forall|c: char|
                constraint@.max_occurrence.contains_key(c) <==> goal.max_occurrence.contains_key(
                    c,
                ) by {
                if goal.max_occurrence.contains_key(c) {
                    assert(members.to_set().contains(c));
                    let j = choose|j: int| 0 <= j < members.len() && members[j] == c;
                    assert(members[j] == c);
                }
                if exists|j: int| 0 <= j < m && #[trigger] members[j] == c {
                    let j = choose|j: int| 0 <= j < m && #[trigger] members[j] == c;
                    assert(members.to_set().contains(members[j]));
                }
            }
            assert(constraint@.max_occurrence =~= goal.max_occurrence);
        }
        constraint
    }

    /// The constraint that the feedback row `string` stands for, over `size`
    /// positions, or the fault of a row that has a letter beyond them.
    pub fn try_from_string(string: &String, size: usize) -> (made: Result<Constraint, RowError>)
        ensures
            made is Ok <==> row_fits(string@, size as nat),
            made is Ok ==> made->Ok_0@ == row_constraint(string@, size as nat),
    {
        let row = decode(string.as_str());
        let mut i: usize = 0;
        let mut k: usize = 0;
        while k < row.len()
            invariant
                k <= row.len(),
                row@ == string@,
                i <= size,
                i == group_at(row@, k as int) || (i == size && group_at(row@, k as int) >= size),
                forall|j: int|
                    0 <= j < k && is_letter(#[trigger] row@[j]) ==> group_at(row@, j) < size,
            decreases row.len() - k,
        {
            let c = row[k];
            if c == ' ' {
                if i < size {
                    i += 1;
                }
            } else if c != '-' && c != '~' && i >= size {
                assert(is_letter(string@[k as int]) && group_at(string@, k as int) >= size);
                return Err(RowError {});
            }
            k += 1;
        }
        Ok(Constraint::from_letters(&row, size))
    }

    /// The number of positions.
    pub fn len(&self) -> (n: usize)
        ensures
            n == self@.positions.len(),
    {
        self.character.len()
    }

    /// The letter known to stand at position `i`, if one is known.
    pub fn exact_at(&self, i: usize) -> (letter: Option<char>)
        requires
            i < self@.positions.len(),
        ensures
            letter == self@.positions[i as int].exact,
    {
        self.character[i].is
    }

    /// Whether `c` is known not to stand at position `i`.
    pub fn excludes_at(&self, i: usize, c: char) -> (excluded: bool)
        requires
            i < self@.positions.len(),
        ensures
            excluded == self@.positions[i as int].excluded.contains(c),
    {
        self.character[i].is_not.contains(c)
    }

    /// The lower bound on how often `c` occurs, if there is one.
    pub fn min_occurrence_of(&self, c: char) -> (bound: Option<usize>)
        ensures
            bound is Some <==> self@.min_occurrence.contains_key(c),
            bound is Some ==> self@.min_occurrence[c] == bound->0,
    {
        self.min_occurrence.get(c)
    }

    /// The upper bound on how often `c` occurs, if there is one.
    pub fn max_occurrence_of(&self, c: char) -> (bound: Option<usize>)
        ensures
            bound is Some <==> self@.max_occurrence.contains_key(c),
            bound is Some ==> self@.max_occurrence[c] == bound->0,
    {
        self.max_occurrence.get(c)
    }

    /// Records that `c` stands at position `i`.
    pub fn require_at(&mut self, i: usize, c: char)
        requires
            i < old(self)@.positions.len(),
        ensures
            final(self)@ == (ConstraintView {
                positions: old(self)@.positions.update(
                    i as int,
                    PositionView {
                        exact: Some(c),
                        excluded: old(self)@.positions[i as int].excluded,
                    },
                ),
                ..old(self)@
            }),
    {
        self.character[i].is = Some(c);
        proof {
            assert(self@.positions =~= old(self)@.positions.update(
                i as int,
                PositionView { exact: Some(c), excluded: old(self)@.positions[i as int].excluded },
            ));
        }
    }

    /// Records that `c` does not stand at position `i`.
    pub fn exclude_at(&mut self, i: usize, c: char)
        requires
            i < old(self)@.positions.len(),
        ensures
            final(self)@ == (ConstraintView {
                positions: old(self)@.positions.update(
                    i as int,
                    PositionView {
                        exact: old(self)@.positions[i as int].exact,
                        excluded: old(self)@.positions[i as int].excluded.insert(c),
                    },
                ),
                ..old(self)@
            }),
    {
        self.character[i].is_not.insert(c);
        proof {
            assert(self@.positions =~= old(self)@.positions.update(
                i as int,
                PositionView {
                    exact: old(self)@.positions[i as int].exact,
                    excluded: old(self)@.positions[i as int].excluded.insert(c),
                },
            ));
        }
    }

    /// Sets the lower bound on how often `c` occurs to `bound`.
    pub fn set_min_occurrence(&mut self, c: char, bound: usize)
        ensures
            final(self)@ == (ConstraintView {
                min_occurrence: old(self)@.min_occurrence.insert(c, bound as nat),
                ..old(self)@
            }),
    {
        self.min_occurrence.insert(c, bound);
    }

    /// Sets the upper bound on how often `c` occurs to `bound`.
    pub fn set_max_occurrence(&mut self, c: char, bound: usize)
        ensures
            final(self)@ == (ConstraintView {
                max_occurrence: old(self)@.max_occurrence.insert(c, bound as nat),
                ..old(self)@
            }),
    {
        self.max_occurrence.insert(c, bound);
    }

    /// Raises the lower bound of `c` by one; a letter without a lower bound
    /// gets the bound one.
    pub fn increment_min_occurrence(&mut self, c: &char)
        requires
            old(self)@.min_occurrence.contains_key(*c) ==> old(self)@.min_occurrence[*c]
                < usize::MAX,
        ensures
            final(self)@.positions == old(self)@.positions,
            final(self)@.max_occurrence == old(self)@.max_occurrence,
            final(self)@.min_occurrence == old(self)@.min_occurrence.insert(
                *c,
                if old(self)@.min_occurrence.contains_key(*c) {
                    old(self)@.min_occurrence[*c] + 1
                } else {
                    1
                },
            ),
    {
        match self.min_occurrence.get(*c) {
            Some(n) => {
                self.min_occurrence.insert(*c, n + 1);
            },
            None => {
                self.min_occurrence.insert(*c, 1);
            },
        }
    }

    /// Merges `constraint` into this one: lower bounds only rise, upper
    /// bounds only fall, and each position takes the letter that
    /// `constraint` knows there or, where it knows none, the letters that it
    /// excludes.
    pub fn update(&mut self, constraint: &Constraint)
        ensures
            final(self)@ == merged(old(self)@, constraint@),
    {
        self.min_occurrence.raise_to(&constraint.min_occurrence);
        self.max_occurrence.lower_to(&constraint.max_occurrence);
        let shared = if self.character.len() < constraint.character.len() {
            self.character.len()
        } else {
            constraint.character.len()
        };
        let mut i: usize = 0;
        while i < shared
            invariant
                i <= shared,
                shared <= constraint.character@.len(),
                shared <= self.character@.len(),
                self.character@.len() == old(self).character@.len(),
                self.min_occurrence@ == larger_bounds(
                    old(self).min_occurrence@,
                    constraint.min_occurrence@,
                ),
                self.max_occurrence@ == smaller_bounds(
                    old(self).max_occurrence@,
                    constraint.max_occurrence@,
                ),
                forall|j: int|
                    0 <= j < i ==> self.character@[j]@ == merge_position(
                        old(self).character@[j]@,
                        constraint.character@[j]@,
                    ),
                forall|j: int|
                    i <= j < self.character@.len() ==> self.character@[j] == old(
                        self,
                    ).character@[j],
            decreases shared - i,
        {
            match constraint.character[i].is {
                None => {
                    self.character[i].is_not.insert_all(&constraint.character[i].is_not);
                },
                Some(c) => {
                    self.character[i].is = Some(c);
                },
            }
            i += 1;
        }
        proof {
            assert(self@.positions =~= merged(old(self)@, constraint@).positions);
        }
    }

    /// Whether `word` is consistent with the constraint.
    pub fn allows(&self, word: &Word) -> (allowed: bool)
        ensures
            allowed == permits(self@, word@),
    {
        let n_min = self.min_occurrence.len();
        let mut k: usize = 0;
        while k < n_min
            invariant
                k <= n_min,
                n_min == self.min_occurrence.entries().len(),
                lists(self.min_occurrence.entries(), self.min_occurrence@),
                forall|j: int|
                    0 <= j < k ==> count_of(word@, #[trigger] self.min_occurrence.entries()[j].0)
                        >= self.min_occurrence.entries()[j].1,
            decreases n_min - k,
        {
            let (c, bound) = self.min_occurrence.get_entry(k);
            if word.char_count(&c) < bound {
                proof {
                    let entries = self.min_occurrence.entries();
                    assert(self@.min_occurrence.contains_key(entries[k as int].0));
                }
                return false;
            }
            k += 1;
        }
        let n_max = self.max_occurrence.len();
        let mut k: usize = 0;
        while k < n_max
            invariant
                k <= n_max,
                n_max == self.max_occurrence.entries().len(),
                lists(self.max_occurrence.entries(), self.max_occurrence@),
                forall|j: int|
                    0 <= j < k ==> count_of(word@, #[trigger] self.max_occurrence.entries()[j].0)
                        <= self.max_occurrence.entries()[j].1,
            decreases n_max - k,
        {
            let (c, bound) = self.max_occurrence.get_entry(k);
            if word.char_count(&c) > bound {
                proof {
                    let entries = self.max_occurrence.entries();
                    assert(self@.max_occurrence.contains_key(entries[k as int].0));
                }
                return false;
            }
            k += 1;
        }
        let shared = if self.character.len() < word.len() {
            self.character.len()
        } else {
            word.len()
        };
        let mut i: usize = 0;
        while i < shared
            invariant
                i <= shared,
                shared <= self.character@.len(),
                shared <= word@.len(),
                forall|j: int| 0 <= j < i ==> position_permits(self.character@[j]@, word@[j]),
            decreases shared - i,
        {
            let letter = word.letter(i);
            let fits = match self.character[i].is {
                None => true,
                Some(x) => x == letter,
            };
            if !fits || self.character[i].is_not.contains(letter) {
                proof {
                    assert(!position_permits(self@.positions[i as int], word@[i as int]));
                }
                return false;
            }
            i += 1;
        }
        proof {
            let entries = self.min_occurrence.entries();
            assert forall|c: char| #[trigger]
                self@.min_occurrence.contains_key(c) implies count_of(word@, c)
                >= self@.min_occurrence[c] by {
                let j = choose|j: int| 0 <= j < entries.len() && #[trigger] entries[j].0 == c;
                assert(self@.min_occurrence[entries[j].0] == entries[j].1);
            }
            let entries = self.max_occurrence.entries();
            assert forall|c: char| #[trigger]
                self@.max_occurrence.contains_key(c) implies count_of(word@, c)
                <= self@.max_occurrence[c] by {
                let j = choose|j: int| 0 <= j < entries.len() && #[trigger] entries[j].0 == c;
                assert(self@.max_occurrence[entries[j].0] == entries[j].1);
            }
            assert forall|i: int|
                0 <= i < self@.positions.len() && i < word@.len() implies position_permits(
                #[trigger] self@.positions[i],
                word@[i],
            ) by {
                assert(self@.positions[i] == self.character@[i]@);
            }
        }
        true
    }
}

} // verus!
