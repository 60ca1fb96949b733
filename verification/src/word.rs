//! Words of the vocabulary: a text and, counted once, how often each letter
//! occurs in it.

use crate::letters::{count_of, LetterMap};
use std::str::Chars;
use vstd::prelude::*;
use vstd::std_specs::iter::IteratorSpec;

verus! {

/// Whether `table` holds, for each letter of `text`, how often it occurs
/// there, and holds no other letter.
pub open spec fn counts_letters(table: Map<char, nat>, text: Seq<char>) -> bool {
    forall|c: char|
        (#[trigger] table.contains_key(c) <==> count_of(text, c) > 0) && (table.contains_key(c)
            ==> table[c] == count_of(text, c))
}

/// Whether `a` comes strictly before `b` in dictionary order: at the first
/// place where they differ `a` has the smaller letter, or `a` ends there and
/// `b` goes on.
pub open spec fn sorts_before(a: Seq<char>, b: Seq<char>) -> bool {
    exists|k: int|
        0 <= k <= a.len() && k <= b.len() && #[trigger] a.take(k) == b.take(k) && (if k < a.len() {
            k < b.len() && a[k] < b[k]
        } else {
            k < b.len()
        })
}

/// Of two different texts, one comes before the other.
pub proof fn lemma_sorts_total(a: Seq<char>, b: Seq<char>)
    ensures
        a == b || sorts_before(a, b) || sorts_before(b, a),
        !(sorts_before(a, b) && sorts_before(b, a)),
        !sorts_before(a, a),
{
    assert(a.take(0) =~= b.take(0));
    lemma_first_difference(a, b, 0);
    if sorts_before(a, b) && sorts_before(b, a) {
        let k = choose|k: int|
            0 <= k <= a.len() && k <= b.len() && #[trigger] a.take(k) == b.take(k) && (if k
                < a.len() {
                k < b.len() && a[k] < b[k]
            } else {
                k < b.len()
            });
        let l = choose|l: int|
            0 <= l <= b.len() && l <= a.len() && #[trigger] b.take(l) == a.take(l) && (if l
                < b.len() {
                l < a.len() && b[l] < a[l]
            } else {
                l < a.len()
            });
        if k < l {
            assert(b.take(l)[k] == a.take(l)[k]);
        } else if l < k {
            assert(a.take(k)[l] == b.take(k)[l]);
        }
    }
    if sorts_before(a, a) {
        let k = choose|k: int|
            0 <= k <= a.len() && k <= a.len() && #[trigger] a.take(k) == a.take(k) && (if k
                < a.len() {
                k < a.len() && a[k] < a[k]
            } else {
                k < a.len()
            });
    }
}

/// Two texts that agree on their first `from` letters are equal, or one
/// comes before the other.
proof fn lemma_first_difference(a: Seq<char>, b: Seq<char>, from: int)
    requires
        0 <= from <= a.len(),
        from <= b.len(),
        a.take(from) == b.take(from),
    ensures
        a == b || sorts_before(a, b) || sorts_before(b, a),
    decreases a.len() - from,
{
    if from == a.len() {
        if from == b.len() {
            assert(a.take(from) =~= a);
            assert(b.take(from) =~= b);
        } else {
            assert(sorts_before(a, b));
        }
    } else if from == b.len() {
        assert(b.take(from) == a.take(from));
        assert(sorts_before(b, a));
    } else if a[from] < b[from] {
        assert(sorts_before(a, b));
    } else if b[from] < a[from] {
        assert(b.take(from) == a.take(from));
        assert(sorts_before(b, a));
    } else {
        assert(a.take(from + 1) =~= a.take(from).push(a[from]));
        assert(b.take(from + 1) =~= b.take(from).push(b[from]));
        lemma_first_difference(a, b, from + 1);
    }
}

/// Where two texts agree on their first `k` letters and differ at the next
/// one, or one of them ends there, that place decides their order.
proof fn lemma_decided_at(a: Seq<char>, b: Seq<char>, k: int)
    requires
        0 <= k <= a.len(),
        k <= b.len(),
        a.take(k) == b.take(k),
        k == a.len() || k == b.len() || a[k] != b[k],
    ensures
        sorts_before(a, b) <==> (if k < a.len() {
            k < b.len() && a[k] < b[k]
        } else {
            k < b.len()
        }),
{
    if sorts_before(a, b) {
        let l = choose|l: int|
            0 <= l <= a.len() && l <= b.len() && #[trigger] a.take(l) == b.take(l) && (if l
                < a.len() {
                l < b.len() && a[l] < b[l]
            } else {
                l < b.len()
            });
        if l < k {
            assert(a.take(k)[l] == a[l]);
            assert(b.take(k)[l] == b[l]);
        } else if k < l {
            assert(a.take(l)[k] == a[k]);
            assert(b.take(l)[k] == b[k]);
        }
    }
    if (if k < a.len() {
        k < b.len() && a[k] < b[k]
    } else {
        k < b.len()
    }) {
        assert(a.take(k) == b.take(k));
        assert(sorts_before(a, b));
    }
}

/// Dictionary order is transitive.
pub proof fn lemma_sorts_transitive(a: Seq<char>, b: Seq<char>, c: Seq<char>)
    requires
        sorts_before(a, b),
        sorts_before(b, c),
    ensures
        sorts_before(a, c),
{
    let k = choose|k: int|
        0 <= k <= a.len() && k <= b.len() && #[trigger] a.take(k) == b.take(k) && (if k < a.len() {
            k < b.len() && a[k] < b[k]
        } else {
            k < b.len()
        });
    let l = choose|l: int|
        0 <= l <= b.len() && l <= c.len() && #[trigger] b.take(l) == c.take(l) && (if l < b.len() {
            l < c.len() && b[l] < c[l]
        } else {
            l < c.len()
        });
    let m = if k <= l {
        k
    } else {
        l
    };
    assert(a.take(m) =~= c.take(m)) by {
        assert forall|i: int| 0 <= i < m implies a[i] == c[i] by {
            assert(a.take(k)[i] == b.take(k)[i]);
            assert(b.take(l)[i] == c.take(l)[i]);
        }
    }
    if k < l {
        assert(b.take(l)[k] == c.take(l)[k]);
    } else if l < k {
        assert(a.take(k)[l] == b.take(k)[l]);
    }
    assert(a.take(m) == c.take(m) && (if m < a.len() {
        m < c.len() && a[m] < c[m]
    } else {
        m < c.len()
    }));
}

/// The texts of `words`, in their order.
pub open spec fn texts(words: Seq<Word>) -> Seq<Seq<char>> {
    Seq::new(words.len(), |i: int| words[i]@)
}

/// The letters of `text`, from first to last.
pub fn decode(text: &str) -> (letters: Vec<char>)
    ensures
        letters@ == text@,
{
    let mut letters: Vec<char> = Vec::new();
    let ghost all = text@;
    for c in it: text.chars()
        invariant
            it.seq() == all,
            letters@ == all.take(it.index() as int),
    {
        letters.push(c);
        assert(letters@ =~= all.take(it.index() + 1));
    }
    assert(letters@ =~= all);
    letters
}

/// Counts how often each letter comes out of `chars`.
pub fn char_frequency(chars: Chars<'_>) -> (table: LetterMap)
    requires
        chars.initial_value_relation(&chars),
        chars.decrease() is Some,
        chars.remaining().len() <= usize::MAX,
    ensures
        counts_letters(table@, chars.remaining()),
{
    let mut table = LetterMap::new();
    let ghost text = chars.remaining();
    for c in it: chars
        invariant
            it.seq() == text,
            text.len() <= usize::MAX,
            counts_letters(table@, text.take(it.index() as int)),
    {
        let ghost seen = text.take(it.index() as int);
        let ghost next = text.take(it.index() + 1);
        proof {
            assert(next.drop_last() =~= seen);
            assert(next.last() == c);
            crate::letters::lemma_count_of_bounded(seen, c);
        }
        match table.get(c) {
            Some(n) => {
                table.insert(c, n + 1);
            },
            None => {
                table.insert(c, 1);
            },
        }
    }
    proof {
        assert(text.take(text.len() as int) =~= text);
    }
    table
}

/// A word of fixed text, with its letter counts at hand.
pub struct Word {
    word: String,
    letters: Vec<char>,
    char_frequency: LetterMap,
}

impl View for Word {
    type V = Seq<char>;

    closed spec fn view(&self) -> Seq<char> {
        self.word@
    }
}

impl Word {
    #[verifier::type_invariant]
    spec fn inv(&self) -> bool {
        &&& self.letters@ == self.word@
        &&& counts_letters(self.char_frequency@, self.word@)
    }

    /// The word with the text `word`.
    pub fn new(word: String) -> (made: Word)
        ensures
            made@ == word@,
    {
        let letters = decode(word.as_str());
        assert(word@.len() == letters.len());
        let char_frequency = char_frequency(word.as_str().chars());
        Word { word, letters, char_frequency }
    }

    /// How often `c` occurs in the word.
    pub fn char_count(&self, c: &char) -> (n: usize)
        ensures
            n == count_of(self@, *c),
    {
        proof {
            use_type_invariant(self);
        }
        match self.char_frequency.get(*c) {
            Some(n) => n,
            None => 0,
        }
    }

    /// The letters of the word, from first to last.
    pub fn chars(&self) -> (iter: Chars<'_>)
        ensures
            iter.remaining() == self@,
            iter.initial_value_relation(&iter),
            iter.decrease() is Some,
    {
        self.word.as_str().chars()
    }

    /// The number of letters in the word.
    pub fn len(&self) -> (n: usize)
        ensures
            n == self@.len(),
    {
        proof {
            use_type_invariant(self);
        }
        self.letters.len()
    }

    /// The letter at position `i`.
    pub fn letter(&self, i: usize) -> (c: char)
        requires
            i < self@.len(),
        ensures
            c == self@[i as int],
    {
        proof {
            use_type_invariant(self);
        }
        self.letters[i]
    }

    /// How often each letter of the word occurs in it.
    pub fn letter_counts(&self) -> (table: &LetterMap)
        ensures
            counts_letters(table@, self@),
    {
        proof {
            use_type_invariant(self);
        }
        &self.char_frequency
    }

    /// Whether the word comes strictly before `other` in dictionary order.
    pub fn sorts_before(&self, other: &Word) -> (before: bool)
        ensures
            before == sorts_before(self@, other@),
    {
        let shared = if self.len() < other.len() {
            self.len()
        } else {
            other.len()
        };
        let mut k: usize = 0;
        while k < shared
            invariant
                k <= shared,
                shared <= self@.len(),
                shared <= other@.len(),
                self@.take(k as int) == other@.take(k as int),
            decreases shared - k,
        {
            let a = self.letter(k);
            let b = other.letter(k);
            if a != b {
                proof {
                    lemma_decided_at(self@, other@, k as int);
                }
                return a < b;
            }
            assert(self@.take(k + 1) =~= self@.take(k as int).push(a));
            assert(other@.take(k + 1) =~= other@.take(k as int).push(b));
            k += 1;
        }
        proof {
            lemma_decided_at(self@, other@, k as int);
        }
        self.len() < other.len()
    }

    /// Whether the word has the same text as `other`.
    pub fn same_text(&self, other: &Word) -> (same: bool)
        ensures
            same == (self@ == other@),
    {
        self.word == other.word
    }

    /// The text of the word.
    pub fn text(&self) -> (text: &String)
        ensures
            text@ == self@,
    {
        &self.word
    }
}

impl Clone for Word {
    /// A word of the same text.
    fn clone(&self) -> (copy: Word)
        ensures
            copy@ == self@,
    {
        Word::new(self.word.clone())
    }
}

} // verus!
