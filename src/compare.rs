//! The comparator: its settings, the word matcher over them, and the score of two
//! texts.

use vstd::prelude::*;

use crate::matcher::{bounded_errors, contains_run, word_matches, Settings};
use crate::text::{normalize, normalize_text, words_view};

verus! {

/// A score in `[0, 1]`, as the fraction `numerator / denominator`.
#[derive(Clone, Copy, Debug, PartialEq, Eq, Structural)]
pub struct Score {
    pub numerator: u128,
    pub denominator: u128,
}

impl Score {
    /// The score as a pair of naturals.
    pub open spec fn pair(self) -> (nat, nat) {
        (self.numerator as nat, self.denominator as nat)
    }
}

/// Whether a word is long enough to take part in the comparison.
pub open spec fn qualifies(cfg: Settings, w: Seq<char>) -> bool {
    w.len() >= cfg.min_len
}

/// Whether a pair of words counts as one match: both qualify and they match.
pub open spec fn pair_counts(cfg: Settings, a: Seq<char>, b: Seq<char>) -> bool {
    qualifies(cfg, a) && qualifies(cfg, b) && word_matches(cfg, a, b)
}

/// The number of words of `ys` that `a` is counted as matching.
pub open spec fn row_matches(cfg: Settings, a: Seq<char>, ys: Seq<Seq<char>>) -> nat
    decreases ys.len(),
{
    if ys.len() == 0 {
        0
    } else {
        row_matches(cfg, a, ys.drop_last()) + if pair_counts(cfg, a, ys.last()) {
            1nat
        } else {
            0nat
        }
    }
}

/// The number of matching pairs in the cross product of `xs` and `ys`.
pub open spec fn match_count(cfg: Settings, xs: Seq<Seq<char>>, ys: Seq<Seq<char>>) -> nat
    decreases xs.len(),
{
    if xs.len() == 0 {
        0
    } else {
        match_count(cfg, xs.drop_last(), ys) + row_matches(cfg, xs.last(), ys)
    }
}

/// The number of words of `ws` that qualify.
pub open spec fn qualifying_count(cfg: Settings, ws: Seq<Seq<char>>) -> nat
    decreases ws.len(),
{
    if ws.len() == 0 {
        0
    } else {
        qualifying_count(cfg, ws.drop_last()) + if qualifies(cfg, ws.last()) {
            1nat
        } else {
            0nat
        }
    }
}

/// The score of two word sequences, as a fraction: the matches over the average
/// number of qualifying words, at most one. With no qualifying word on either
/// side there is nothing to compare, and the score is zero.
pub open spec fn word_score(cfg: Settings, xs: Seq<Seq<char>>, ys: Seq<Seq<char>>) -> (nat, nat) {
    let q = qualifying_count(cfg, xs) + qualifying_count(cfg, ys);
    let m = match_count(cfg, xs, ys);
    if q == 0 {
        (0, 1)
    } else if 2 * m >= q {
        (1, 1)
    } else {
        (2 * m, q)
    }
}

/// The score of two texts.
pub open spec fn text_score(cfg: Settings, first: Seq<char>, second: Seq<char>) -> (nat, nat) {
    word_score(cfg, normalize(first), normalize(second))
}

/// A word matches at most every word of the other side.
pub proof fn lemma_row_matches_le(cfg: Settings, a: Seq<char>, ys: Seq<Seq<char>>)
    ensures
        row_matches(cfg, a, ys) <= ys.len(),
    decreases ys.len(),
{
    if ys.len() > 0 {
        lemma_row_matches_le(cfg, a, ys.drop_last());
    }
}

/// There are at most as many matches as pairs.
pub proof fn lemma_match_count_le(cfg: Settings, xs: Seq<Seq<char>>, ys: Seq<Seq<char>>)
    ensures
        match_count(cfg, xs, ys) <= xs.len() * ys.len(),
    decreases xs.len(),
{
    if xs.len() > 0 {
        lemma_match_count_le(cfg, xs.drop_last(), ys);
        lemma_row_matches_le(cfg, xs.last(), ys);
        assert((xs.len() - 1) * ys.len() + ys.len() == xs.len() * ys.len()) by (nonlinear_arith);
    }
}

/// The lowercase ASCII letters and the digits.
pub open spec fn letters_and_digits() -> Seq<char> {
    seq![
        'a', 'b', 'c', 'd', 'e', 'f', 'g', 'h', 'i', 'j', 'k', 'l', 'm', 'n', 'o', 'p', 'q',
        'r', 's', 't', 'u', 'v', 'w', 'x', 'y', 'z', '0', '1', '2', '3', '4', '5', '6', '7',
        '8', '9',
    ]
}

/// The settings of a comparator built by `ThreeSetCompare::new`.
pub open spec fn standard_settings() -> Settings {
    Settings { alphabet: letters_and_digits(), min_len: 2, delta_ignore: 3, threshold_milli: 707 }
}

/// A comparator of short texts.
pub struct ThreeSetCompare {
    alphabet: Vec<char>,
    minimum_word_len: usize,
    delta_word_len_ignore: usize,
    min_word_similarity_milli: u64,
}

impl View for ThreeSetCompare {
    type V = Settings;

    closed spec fn view(&self) -> Settings {
        Settings {
            alphabet: self.alphabet@,
            min_len: self.minimum_word_len as nat,
            delta_ignore: self.delta_word_len_ignore as nat,
            threshold_milli: self.min_word_similarity_milli as nat,
        }
    }
}

impl ThreeSetCompare {
    /// The similarity threshold is at most one.
    #[verifier::type_invariant]
    closed spec fn inv(&self) -> bool {
        self.min_word_similarity_milli <= 1000
    }

    /// A comparator with the standard settings: letters and digits, words of at
    /// least two characters, containment up to a length difference of three, and
    /// a histogram similarity above 0.707.
    pub fn new() -> (r: ThreeSetCompare)
        ensures
            r@ == standard_settings(),
    {
        let alphabet = vec![
            'a', 'b', 'c', 'd', 'e', 'f', 'g', 'h', 'i', 'j', 'k', 'l', 'm', 'n', 'o', 'p', 'q',
            'r', 's', 't', 'u', 'v', 'w', 'x', 'y', 'z', '0', '1', '2', '3', '4', '5', '6', '7',
            '8', '9',
        ];
        assert(alphabet@ =~= letters_and_digits());
        ThreeSetCompare {
            alphabet,
            minimum_word_len: 2,
            delta_word_len_ignore: 3,
            min_word_similarity_milli: 707,
        }
    }

    /// Whether two words are taken to be equal: containment decides first, then
    /// the closeness of their histograms.
    pub fn words_match(&self, a: &Vec<char>, b: &Vec<char>) -> (r: bool)
        ensures
            r == word_matches(self@, a@, b@),
    {
        proof {
            use_type_invariant(self);
        }
        let delta: usize = if a.len() >= b.len() {
            a.len() - b.len()
        } else {
            b.len() - a.len()
        };
        if contains_run(a, b) || contains_run(b, a) {
            delta <= self.delta_word_len_ignore
        } else {
            let total: u128 = a.len() as u128 + b.len() as u128;
            if total == 0 {
                return false;
            }
            match bounded_errors(&self.alphabet, a, b) {
                None => false,
                Some(errors) => {
                    let m = self.min_word_similarity_milli as u128;
                    assert(m * total <= 1000 * total) by (nonlinear_arith)
                        requires
                            m <= 1000,
                    ;
                    1000 * total > m * total + 1000 * errors
                },
            }
        }
    }

    /// The number of words of `ws` that qualify.
    fn count_qualifying(&self, ws: &Vec<Vec<char>>) -> (r: usize)
        ensures
            r == qualifying_count(self@, words_view(ws@)),
    {
        let mut n: usize = 0;
        let mut i: usize = 0;
        while i < ws.len()
            invariant
                i <= ws.len(),
                n <= i,
                n == qualifying_count(self@, words_view(ws@.take(i as int))),
            decreases ws.len() - i,
        {
            assert(words_view(ws@.take(i + 1)).drop_last() =~= words_view(ws@.take(i as int)));
            if ws[i].len() >= self.minimum_word_len {
                n = n + 1;
            }
            i = i + 1;
        }
        assert(ws@.take(ws.len() as int) == ws@);
        n
    }

    /// The score of two word sequences: the matching pairs of the cross product
    /// over the average number of qualifying words, at most one.
    pub fn logic(&self, first: &Vec<Vec<char>>, second: &Vec<Vec<char>>) -> (r: Score)
        ensures
            r.pair() == word_score(self@, words_view(first@), words_view(second@)),
    {
        let ghost xs = words_view(first@);
        let ghost ys = words_view(second@);
        let mut equality: u128 = 0;
        let mut i: usize = 0;
        while i < first.len()
            invariant
                i <= first.len(),
                xs == words_view(first@),
                ys == words_view(second@),
                equality == match_count(self@, xs.take(i as int), ys),
            decreases first.len() - i,
        {
            let first_word = &first[i];
            let mut row: u128 = 0;
            let mut j: usize = 0;
            while j < second.len()
                invariant
                    i < first.len(),
                    j <= second.len(),
                    first_word@ == xs[i as int],
                    xs == words_view(first@),
                    ys == words_view(second@),
                    row <= j,
                    row == row_matches(self@, xs[i as int], ys.take(j as int)),
                decreases second.len() - j,
            {
                let second_word = &second[j];
                assert(ys.take(j + 1).drop_last() =~= ys.take(j as int));
                assert(second_word@ == ys.take(j + 1).last());
                if first_word.len() >= self.minimum_word_len && second_word.len()
                    >= self.minimum_word_len {
                    if self.words_match(first_word, second_word) {
                        row = row + 1;
                    }
                }
                j = j + 1;
            }
            assert(ys.take(second.len() as int) == ys);
            assert(xs.take(i + 1).drop_last() =~= xs.take(i as int));
            proof {
                lemma_match_count_le(self@, xs.take(i as int), ys);
                assert(i * second.len() + second.len() <= first.len() * second.len())
                    by (nonlinear_arith)
                    requires
                        i < first.len(),
                ;
                assert(first.len() * second.len() <= 0xffff_ffff_ffff_ffffu128 * 0xffff_ffff_ffff_ffffu128)
                    by (nonlinear_arith)
                    requires
                        first.len() <= 0xffff_ffff_ffff_ffffu128,
                        second.len() <= 0xffff_ffff_ffff_ffffu128,
                ;
            }
            equality = equality + row;
            i = i + 1;
        }
        assert(xs.take(first.len() as int) == xs);
        let first_count = self.count_qualifying(first);
        let second_count = self.count_qualifying(second);
        let denominator: u128 = first_count as u128 + second_count as u128;
        if denominator == 0 {
            Score { numerator: 0, denominator: 1 }
        } else if equality >= denominator || 2 * equality >= denominator {
            Score { numerator: 1, denominator: 1 }
        } else {
            Score { numerator: 2 * equality, denominator }
        }
    }

    /// Compares two texts, in any script: each is transliterated to ASCII,
    /// lower-cased and split into words, and the word sequences are scored.
    pub fn similarity(&self, first: &str, second: &str) -> (r: Score)
        ensures
            r.pair() == text_score(self@, first@, second@),
            r.numerator <= r.denominator,
            r.denominator > 0,
            first@.len() == 0 && second@.len() == 0 ==> r.pair() == (0nat, 1nat),
    {
        let first_words = normalize_text(first);
        let second_words = normalize_text(second);
        assert(first@.len() == 0 ==> words_view(first_words@) == Seq::<Seq<char>>::empty());
        assert(second@.len() == 0 ==> words_view(second_words@) == Seq::<Seq<char>>::empty());
        self.logic(&first_words, &second_words)
    
    }
}

} // verus!
