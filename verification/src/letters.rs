//! Small collections keyed by letters: a set of letters and a table from
//! letters to counts. Both keep their letters in a vector without repeats.

use vstd::prelude::*;

verus! {

/// How often `c` occurs in `text`.
pub open spec fn count_of(text: Seq<char>, c: char) -> nat
    decreases text.len(),
{
    if text.len() == 0 {
        0
    } else {
        count_of(text.drop_last(), c) + if text.last() == c {
            1nat
        } else {
            0nat
        }
    }
}

/// A letter occurs at most as often as the text is long.
pub proof fn lemma_count_of_bounded(text: Seq<char>, c: char)
    ensures
        count_of(text, c) <= text.len(),
    decreases text.len(),
{
    if text.len() > 0 {
        lemma_count_of_bounded(text.drop_last(), c);
    }
}

/// The lower bounds of two tables together: for a letter bounded in both,
/// the larger bound.
pub open spec fn larger_bounds(a: Map<char, nat>, b: Map<char, nat>) -> Map<char, nat> {
    Map::new(
        |c: char| a.contains_key(c) || b.contains_key(c),
        |c: char|
            if a.contains_key(c) && b.contains_key(c) {
                if a[c] >= b[c] {
                    a[c]
                } else {
                    b[c]
                }
            } else if a.contains_key(c) {
                a[c]
            } else {
                b[c]
            },
    )
}

/// The upper bounds of two tables together: for a letter bounded in both,
/// the smaller bound.
pub open spec fn smaller_bounds(a: Map<char, nat>, b: Map<char, nat>) -> Map<char, nat> {
    Map::new(
        |c: char| a.contains_key(c) || b.contains_key(c),
        |c: char|
            if a.contains_key(c) && b.contains_key(c) {
                if a[c] <= b[c] {
                    a[c]
                } else {
                    b[c]
                }
            } else if a.contains_key(c) {
                a[c]
            } else {
                b[c]
            },
    )
}

/// A finite set of letters.
#[derive(Debug)]
pub struct LetterSet {
    letters: Vec<char>,
}

impl View for LetterSet {
    type V = Set<char>;

    closed spec fn view(&self) -> Set<char> {
        self.letters@.to_set()
    }
}

impl LetterSet {
    #[verifier::type_invariant]
    spec fn inv(&self) -> bool {
        self.letters@.no_duplicates()
    }

    /// The letters of the set, each once, in the order in which they were added.
    pub closed spec fn members(&self) -> Seq<char> {
        self.letters@
    }

    /// The empty set.
    pub fn new() -> (set: LetterSet)
        ensures
            set@ == Set::<char>::empty(),
            set.members().len() == 0,
    {
        let set = LetterSet { letters: Vec::new() };
        assert(set.letters@.to_set() =~= Set::<char>::empty());
        set
    }

    /// Whether `c` is in the set.
    pub fn contains(&self, c: char) -> (found: bool)
        ensures
            found == self@.contains(c),
    {
        let mut i: usize = 0;
        while i < self.letters.len()
            invariant
                i <= self.letters.len(),
                forall|j: int| 0 <= j < i ==> self.letters@[j] != c,
            decreases self.letters.len() - i,
        {
            if self.letters[i] == c {
                assert(self.letters@.contains(c));
                return true;
            }
            i += 1;
        }
        false
    }

    /// Adds `c` to the set.
    pub fn insert(&mut self, c: char)
        ensures
            final(self)@ == old(self)@.insert(c),
    {
        proof {
            use_type_invariant(&*self);
        }
        if !self.contains(c) {
            // The vector is moved out, extended, and put back: the set is
            // never observable with a letter half added.
            let mut letters: Vec<char> = Vec::new();
            core::mem::swap(&mut self.letters, &mut letters);
            letters.push(c);
            self.letters = letters;
            proof {
                let before = old(self).letters@;
                let after = self.letters@;
                assert forall|x: char| after.contains(x) <==> (before.contains(x) || x == c) by {
                    if before.contains(x) {
                        let j = choose|j: int| 0 <= j < before.len() && before[j] == x;
                        assert(after[j] == x);
                    }
                    if x == c {
                        assert(after[after.len() - 1] == c);
                    }
                }
                assert(after.to_set() =~= before.to_set().insert(c));
            }
        } else {
            assert(old(self)@.insert(c) =~= old(self)@);
        }
    }

    /// Adds every letter of `other` to the set.
    pub fn insert_all(&mut self, other: &LetterSet)
        ensures
            final(self)@ == old(self)@.union(other@),
    {
        let n = other.len();
        let ghost members = other.members();
        let mut m: usize = 0;
        while m < n
            invariant
                m <= n,
                members == other.members(),
                n == members.len(),
                self@ == old(self)@.union(members.take(m as int).to_set()),
            decreases n - m,
        {
            let c = other.get(m);
            self.insert(c);
            proof {
                let longer = members.take(m + 1);
                let shorter = members.take(m as int);
                assert forall|x: char| longer.contains(x) <==> (shorter.contains(x) || x == c) by {
                    if longer.contains(x) {
                        let j = choose|j: int| 0 <= j < longer.len() && longer[j] == x;
                        if j < m {
                            assert(shorter[j] == x);
                        }
                    }
                    if shorter.contains(x) {
                        let j = choose|j: int| 0 <= j < shorter.len() && shorter[j] == x;
                        assert(longer[j] == x);
                    }
                    if x == c {
                        assert(longer[m as int] == c);
                    }
                }
                assert(self@ =~= old(self)@.union(longer.to_set()));
            }
            m += 1;
        }
        proof {
            assert(members.take(n as int) =~= members);
        }
    }

    /// The number of letters in the set.
    pub fn len(&self) -> (n: usize)
        ensures
            n == self.members().len(),
            self.members().no_duplicates(),
            self.members().to_set() == self@,
    {
        proof {
            use_type_invariant(self);
        }
        self.letters.len()
    }

    /// The `i`-th letter of the set, in the order of `members`.
    pub fn get(&self, i: usize) -> (c: char)
        requires
            i < self.members().len(),
        ensures
            c == self.members()[i as int],
    {
        self.letters[i]
    }
}

/// Whether `entries` lists `table` entry by entry: each letter once, with
/// the count the table gives it, and no letter of the table left out.
pub open spec fn lists(entries: Seq<(char, nat)>, table: Map<char, nat>) -> bool {
    &&& forall|i: int, j: int|
        0 <= i < j < entries.len() ==> entries[i].0 != entries[j].0
    &&& forall|i: int|
        0 <= i < entries.len() ==> table.contains_key(#[trigger] entries[i].0)
            && table[entries[i].0] == entries[i].1
    &&& forall|c: char| #[trigger]
        table.contains_key(c) ==> exists|i: int|
            0 <= i < entries.len() && #[trigger] entries[i].0 == c
}

/// A finite table from letters to counts.
#[derive(Debug)]
pub struct LetterMap {
    entries: Vec<(char, usize)>,
}

impl View for LetterMap {
    type V = Map<char, nat>;

    closed spec fn view(&self) -> Map<char, nat> {
        Map::new(
            |c: char|
                exists|i: int| 0 <= i < self.entries@.len() && #[trigger] self.entries@[i].0 == c,
            |c: char|
                self.entries@[choose|i: int|
                    0 <= i < self.entries@.len() && #[trigger] self.entries@[i].0 == c].1 as nat,
        )
    }
}

impl LetterMap {
    #[verifier::type_invariant]
    spec fn inv(&self) -> bool {
        forall|i: int, j: int|
            0 <= i < j < self.entries@.len() ==> self.entries@[i].0 != self.entries@[j].0
    }

    /// The entries of the table, each letter once, in the order in which the
    /// letters were first given a count.
    pub closed spec fn entries(&self) -> Seq<(char, nat)> {
        Seq::new(self.entries@.len(), |i: int| (self.entries@[i].0, self.entries@[i].1 as nat))
    }

    proof fn lemma_entries(&self)
        requires
            self.inv(),
        ensures
            lists(self.entries(), self@),
            forall|i: int|
                0 <= i < self.entries@.len() ==> self@[#[trigger] self.entries@[i].0]
                    == self.entries@[i].1,
    {
        assert forall|i: int| 0 <= i < self.entries@.len() implies self@.contains_key(
            #[trigger] self.entries@[i].0,
        ) && self@[self.entries@[i].0] == self.entries@[i].1 by {
            let c = self.entries@[i].0;
            let k = choose|k: int|
                0 <= k < self.entries@.len() && #[trigger] self.entries@[k].0 == c;
            assert(k == i);
        }
        assert forall|i: int| 0 <= i < self.entries().len() implies self@.contains_key(
            #[trigger] self.entries()[i].0,
        ) && self@[self.entries()[i].0] == self.entries()[i].1 by {
            assert(self.entries()[i].0 == self.entries@[i].0);
        }
        assert forall|c: char| #[trigger] self@.contains_key(c) implies exists|i: int|
            0 <= i < self.entries().len() && #[trigger] self.entries()[i].0 == c by {
            let k = choose|k: int|
                0 <= k < self.entries@.len() && #[trigger] self.entries@[k].0 == c;
            assert(self.entries()[k].0 == c);
        }
    }

    /// The empty table.
    pub fn new() -> (table: LetterMap)
        ensures
            table@ == Map::<char, nat>::empty(),
    {
        let table = LetterMap { entries: Vec::new() };
        assert(table@ =~= Map::<char, nat>::empty());
        table
    }

    fn position(&self, c: char) -> (found: Option<usize>)
        ensures
            match found {
                Some(i) => i < self.entries@.len() && self.entries@[i as int].0 == c,
                None => forall|j: int| 0 <= j < self.entries@.len() ==> self.entries@[j].0 != c,
            },
    {
        let mut i: usize = 0;
        while i < self.entries.len()
            invariant
                i <= self.entries.len(),
                forall|j: int| 0 <= j < i ==> self.entries@[j].0 != c,
            decreases self.entries.len() - i,
        {
            if self.entries[i].0 == c {
                return Some(i);
            }
            i += 1;
        }
        None
    }

    /// The count that the table gives `c`, if it gives one.
    pub fn get(&self, c: char) -> (count: Option<usize>)
        ensures
            count is Some <==> self@.contains_key(c),
            count is Some ==> self@[c] == count->0,
    {
        proof {
            use_type_invariant(self);
            self.lemma_entries();
        }
        match self.position(c) {
            Some(i) => Some(self.entries[i].1),
            None => None,
        }
    }

    /// Gives `c` the count `count`, in place of the one it had, if any.
    pub fn insert(&mut self, c: char, count: usize)
        ensures
            final(self)@ == old(self)@.insert(c, count as nat),
    {
        proof {
            use_type_invariant(&*self);
            self.lemma_entries();
        }
        let found = self.position(c);
        // The vector is moved out, changed, and put back: the table is never
        // observable with an entry half written.
        let mut entries: Vec<(char, usize)> = Vec::new();
        core::mem::swap(&mut self.entries, &mut entries);
        match found {
            Some(i) => {
                entries.set(i, (c, count));
            },
            None => {
                entries.push((c, count));
            },
        }
        self.entries = entries;
        proof {
            self.lemma_entries();
            let before = old(self).entries@;
            let after = self.entries@;
            assert forall|x: char|
                self@.contains_key(x) <==> (old(self)@.contains_key(x) || x == c) by {
                if old(self)@.contains_key(x) {
                    let k = choose|k: int| 0 <= k < before.len() && #[trigger] before[k].0 == x;
                    assert(after[k].0 == x);
                }
                if x == c {
                    match found {
                        Some(i) => {
                            assert(after[i as int].0 == c);
                        },
                        None => {
                            assert(after[after.len() - 1].0 == c);
                        },
                    }
                }
                if self@.contains_key(x) && x != c {
                    let k = choose|k: int| 0 <= k < after.len() && #[trigger] after[k].0 == x;
                    assert(before[k].0 == x);
                }
            }
            assert forall|x: char| self@.contains_key(x) implies self@[x] == old(self)@.insert(
                c,
                count as nat,
            )[x] by {
                let k = choose|k: int| 0 <= k < after.len() && #[trigger] after[k].0 == x;
                assert(self@[after[k].0] == after[k].1);
                if x != c {
                    assert(before[k].0 == x);
                    assert(old(self)@[before[k].0] == before[k].1);
                }
            }
            assert(self@ =~= old(self)@.insert(c, count as nat));
        }
    }

    /// Takes over the counts of `other`: where both tables give a letter a
    /// count, the larger one stays if `raise` is set, else the smaller one.
    fn merge_bounds(&mut self, other: &LetterMap, raise: bool)
        ensures
            final(self)@ == if raise {
                larger_bounds(old(self)@, other@)
            } else {
                smaller_bounds(old(self)@, other@)
            },
    {
        let ghost goal = if raise {
            larger_bounds(old(self)@, other@)
        } else {
            smaller_bounds(old(self)@, other@)
        };
        let n = other.len();
        let ghost entries = other.entries();
        let mut k: usize = 0;
        while k < n
            invariant
                k <= n,
                n == entries.len(),
                entries == other.entries(),
                lists(entries, other@),
                goal == if raise {
                    larger_bounds(old(self)@, other@)
                } else {
                    smaller_bounds(old(self)@, other@)
                },
                forall|c: char|
                    self@.contains_key(c) <==> (old(self)@.contains_key(c) || exists|j: int|
                        0 <= j < k && #[trigger] entries[j].0 == c),
                forall|c: char| #[trigger]
                    self@.contains_key(c) ==> self@[c] == if exists|j: int|
                        0 <= j < k && #[trigger] entries[j].0 == c {
                        goal[c]
                    } else {
                        old(self)@[c]
                    },
            decreases n - k,
        {
            let (c, count) = other.get_entry(k);
            let ghost before = self@;
            proof {
                assert(entries[k as int].0 == c);
                assert(other@.contains_key(entries[k as int].0));
                assert forall|j: int| 0 <= j < k implies #[trigger] entries[j].0 != c by {}
            }
            match self.get(c) {
                Some(v) => {
                    if (raise && count > v) || (!raise && count < v) {
                        self.insert(c, count);
                    }
                },
                None => {
                    self.insert(c, count);
                },
            }
            proof {
                assert forall|x: char|
                    self@.contains_key(x) <==> (old(self)@.contains_key(x) || exists|j: int|
                        0 <= j < k + 1 && #[trigger] entries[j].0 == x) by {
                    if exists|j: int| 0 <= j < k + 1 && #[trigger] entries[j].0 == x {
                        let j = choose|j: int| 0 <= j < k + 1 && #[trigger] entries[j].0 == x;
                        if j < k {
                            assert(before.contains_key(x));
                        }
                    }
                    if self@.contains_key(x) && x == c {
                        assert(entries[k as int].0 == x);
                    }
                }
                assert forall|x: char| #[trigger] self@.contains_key(x) implies self@[x]
                    == if exists|j: int| 0 <= j < k + 1 && #[trigger] entries[j].0 == x {
                    goal[x]
                } else {
                    old(self)@[x]
                } by {
                    if x == c {
                        assert(entries[k as int].0 == x);
                    } else {
                        if exists|j: int| 0 <= j < k + 1 && #[trigger] entries[j].0 == x {
                            let j = choose|j: int| 0 <= j < k + 1 && #[trigger] entries[j].0 == x;
                            assert(j < k);
                        }
                    }
                }
            }
            k += 1;
        }
        proof {
            assert forall|c: char| self@.contains_key(c) <==> goal.contains_key(c) by {
                if other@.contains_key(c) {
                    let j = choose|j: int| 0 <= j < entries.len() && #[trigger] entries[j].0 == c;
                    assert(entries[j].0 == c);
                }
                if exists|j: int| 0 <= j < k && #[trigger] entries[j].0 == c {
                    let j = choose|j: int| 0 <= j < k && #[trigger] entries[j].0 == c;
                    assert(other@.contains_key(entries[j].0));
                }
            }
            assert forall|c: char| self@.contains_key(c) implies self@[c] == goal[c] by {
                if !(exists|j: int| 0 <= j < k && #[trigger] entries[j].0 == c) {
                    if other@.contains_key(c) {
                        let j = choose|j: int|
                            0 <= j < entries.len() && #[trigger] entries[j].0 == c;
                        assert(entries[j].0 == c);
                    }
                }
            }
            assert(self@ =~= goal);
        }
    }

    /// Takes over the counts of `other`; where both tables give a letter a
    /// count, the larger one stays.
    pub fn raise_to(&mut self, other: &LetterMap)
        ensures
            final(self)@ == larger_bounds(old(self)@, other@),
    {
        self.merge_bounds(other, true);
    }

    /// Takes over the counts of `other`; where both tables give a letter a
    /// count, the smaller one stays.
    pub fn lower_to(&mut self, other: &LetterMap)
        ensures
            final(self)@ == smaller_bounds(old(self)@, other@),
    {
        self.merge_bounds(other, false);
    }

    /// The number of letters that have a count.
    pub fn len(&self) -> (n: usize)
        ensures
            n == self.entries().len(),
            lists(self.entries(), self@),
    {
        proof {
            use_type_invariant(self);
            self.lemma_entries();
        }
        self.entries.len()
    }

    /// The `i`-th entry of the table, in the order of `entries`.
    pub fn get_entry(&self, i: usize) -> (entry: (char, usize))
        requires
            i < self.entries().len(),
        ensures
            entry.0 == self.entries()[i as int].0,
            entry.1 == self.entries()[i as int].1,
    {
        self.entries[i]
    }
}

} // verus!
