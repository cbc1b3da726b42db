//! Per-word character histograms, held in a hash map of the hashbrown crate.

use vstd::prelude::*;

verus! {

/// A map from character to number of occurrences.
#[verifier::external_body]
pub struct CharCounts {
    map: hashbrown::HashMap<char, usize>,
}

/// What a histogram holds: each character present, with its count.
pub uninterp spec fn counts_of(h: CharCounts) -> Map<char, usize>;

impl CharCounts {
    /// Relies on `hashbrown::HashMap::new`: a map with no entries.
    #[verifier::external_body]
    pub(crate) fn new() -> (r: CharCounts)
        ensures
            counts_of(r).dom() == Set::<char>::empty(),
    {
        CharCounts { map: hashbrown::HashMap::new() }
    }

    /// Relies on `hashbrown::HashMap::get`: the value stored under `c`, if any.
    #[verifier::external_body]
    pub(crate) fn get(&self, c: char) -> (r: Option<usize>)
        ensures
            r == (if counts_of(*self).contains_key(c) {
                Some(counts_of(*self)[c])
            } else {
                None::<usize>
            }),
    {
        self.map.get(&c).copied()
    }

    /// Relies on `hashbrown::HashMap::insert`: `c` now maps to `v`, the other
    /// entries stay.
    #[verifier::external_body]
    pub(crate) fn insert(&mut self, c: char, v: usize)
        ensures
            counts_of(*final(self)) == counts_of(*old(self)).insert(c, v),
    {
        self.map.insert(c, v);
    }

    /// The count of `c`: zero where `c` is absent.
    pub fn count(&self, c: char) -> (r: usize)
        ensures
            r == stored_count(counts_of(*self), c),
    {
        match self.get(c) {
            Some(n) => n,
            None => 0,
        }
    }
}

/// The count that a histogram gives `c`: zero where `c` is absent.
pub open spec fn stored_count(m: Map<char, usize>, c: char) -> nat {
    if m.contains_key(c) {
        m[c] as nat
    } else {
        0
    }
}

/// The number of occurrences of `c` in `w`.
pub open spec fn count_of(w: Seq<char>, c: char) -> nat
    decreases w.len(),
{
    if w.len() == 0 {
        0
    } else {
        count_of(w.drop_last(), c) + if w.last() == c {
            1nat
        } else {
            0nat
        }
    }
}

/// A character occurs in a word at most as often as the word is long.
pub proof fn lemma_count_of_le_len(w: Seq<char>, c: char)
    ensures
        count_of(w, c) <= w.len(),
    decreases w.len(),
{
    if w.len() > 0 {
        lemma_count_of_le_len(w.drop_last(), c);
    }
}

/// Builds the histogram of `word`: every character of it with its number of
/// occurrences, and no other key.
pub fn histogram(word: &Vec<char>) -> (r: CharCounts)
    ensures
        forall|c: char| #[trigger] stored_count(counts_of(r), c) == count_of(word@, c),
        forall|c: char| #[trigger] counts_of(r).contains_key(c) ==> count_of(word@, c) > 0,
{
    let mut h = CharCounts::new();
    let mut i: usize = 0;
    while i < word.len()
        invariant
            i <= word.len(),
            forall|c: char| #[trigger]
                stored_count(counts_of(h), c) == count_of(word@.take(i as int), c),
            forall|c: char| #[trigger]
                counts_of(h).contains_key(c) ==> count_of(word@.take(i as int), c) > 0,
        decreases word.len() - i,
    {
        let letter = word[i];
        assert(word@.take(i + 1).drop_last() == word@.take(i as int));
        proof {
            lemma_count_of_le_len(word@.take(i as int), letter);
        }
        let n = h.count(letter);
        let ghost before = counts_of(h);
        h.insert(letter, n + 1);
        i = i + 1;
        assert forall|c: char| #[trigger]
            stored_count(counts_of(h), c) == count_of(word@.take(i as int), c) by {
            assert(stored_count(before, c) == count_of(word@.take(i - 1), c));
            assert(word@.take(i as int).drop_last() == word@.take(i - 1));
            assert(word@.take(i as int).last() == letter);
        }
        assert forall|c: char| #[trigger]
            counts_of(h).contains_key(c) implies count_of(word@.take(i as int), c) > 0 by {
            assert(stored_count(before, c) == count_of(word@.take(i - 1), c));
            assert(word@.take(i as int).drop_last() == word@.take(i - 1));
            assert(word@.take(i as int).last() == letter);
        }
    }
    assert(word@.take(word.len() as int) == word@);
    h
}

} // verus!
