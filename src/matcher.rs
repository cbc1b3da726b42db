//! Deciding whether two words are equal: substring containment, or closeness of
//! their character histograms.

use vstd::prelude::*;

use crate::histogram::{count_of, histogram, lemma_count_of_le_len, stored_count, counts_of};

verus! {

/// The parameters of a comparison.
pub struct Settings {
    /// The symbols whose counts are compared.
    pub alphabet: Seq<char>,
    /// The length below which a word takes no part in the comparison.
    pub min_len: nat,
    /// The largest length difference at which containment still counts as a match.
    pub delta_ignore: nat,
    /// The histogram similarity, in thousandths, that a match must exceed.
    pub threshold_milli: nat,
}

/// Whether `needle` occurs as a contiguous run within `hay`.
pub open spec fn is_infix(needle: Seq<char>, hay: Seq<char>) -> bool {
    exists|k: int|
        0 <= k && k + needle.len() <= hay.len() && #[trigger] hay.subrange(k, k + needle.len())
            == needle
}

/// The absolute difference of two integers.
pub open spec fn abs_diff(x: int, y: int) -> nat {
    if x >= y {
        (x - y) as nat
    } else {
        (y - x) as nat
    }
}

/// The sum over the symbols of `alpha` of how far the counts in `a` and `b` differ.
pub open spec fn errors_sum(alpha: Seq<char>, a: Seq<char>, b: Seq<char>) -> nat
    decreases alpha.len(),
{
    if alpha.len() == 0 {
        0
    } else {
        errors_sum(alpha.drop_last(), a, b) + abs_diff(
            count_of(a, alpha.last()) as int,
            count_of(b, alpha.last()) as int,
        )
    }
}

/// Whether the histograms of `a` and `b` are close enough:
/// `1 - errors / total` exceeds the threshold, `total` being the combined length.
pub open spec fn histograms_close(cfg: Settings, a: Seq<char>, b: Seq<char>) -> bool {
    let total = a.len() + b.len();
    total > 0 && 1000 * total > cfg.threshold_milli * total + 1000 * errors_sum(
        cfg.alphabet,
        a,
        b,
    )
}

/// Whether two words are taken to be equal. Containment decides first: it
/// matches exactly when the lengths differ by at most `delta_ignore`.
/// Otherwise the histograms decide.
pub open spec fn word_matches(cfg: Settings, a: Seq<char>, b: Seq<char>) -> bool {
    if is_infix(a, b) || is_infix(b, a) {
        abs_diff(a.len() as int, b.len() as int) <= cfg.delta_ignore
    } else {
        histograms_close(cfg, a, b)
    }
}

/// The error sum over a prefix of the alphabet is at most that over all of it.
pub proof fn lemma_errors_sum_prefix(alpha: Seq<char>, a: Seq<char>, b: Seq<char>, i: int)
    requires
        0 <= i <= alpha.len(),
    ensures
        errors_sum(alpha.take(i), a, b) <= errors_sum(alpha, a, b),
    decreases alpha.len(),
{
    if i < alpha.len() {
        assert(alpha.drop_last().take(i) == alpha.take(i));
        lemma_errors_sum_prefix(alpha.drop_last(), a, b, i);
    } else {
        assert(alpha.take(i) == alpha);
    }
}

/// Whether `needle` occurs in `hay` starting at index `k`.
fn occurs_at(needle: &Vec<char>, hay: &Vec<char>, k: usize) -> (r: bool)
    requires
        k + needle.len() <= hay.len(),
    ensures
        r == (hay@.subrange(k as int, k + needle.len()) == needle@),
{
    let mut j: usize = 0;
    while j < needle.len()
        invariant
            j <= needle.len(),
            k + needle.len() <= hay.len(),
            forall|t: int| 0 <= t < j ==> hay@[k + t] == needle@[t],
        decreases needle.len() - j,
    {
        if hay[k + j] != needle[j] {
            assert(hay@.subrange(k as int, k + needle.len())[j as int] != needle@[j as int]);
            return false;
        }
        j = j + 1;
    }
    assert(hay@.subrange(k as int, k + needle.len()) =~= needle@);
    true
}

/// Whether `needle` occurs as a contiguous run within `hay`.
pub fn contains_run(needle: &Vec<char>, hay: &Vec<char>) -> (r: bool)
    ensures
        r == is_infix(needle@, hay@),
{
    if needle.len() > hay.len() {
        return false;
    }
    let last = hay.len() - needle.len();
    let mut k: usize = 0;
    loop
        invariant
            last == hay.len() - needle.len(),
            k <= last,
            forall|j: int|
                0 <= j < k ==> #[trigger] hay@.subrange(j, j + needle.len()) != needle@,
        decreases last - k,
    {
        if occurs_at(needle, hay, k) {
            return true;
        }
        if k == last {
            return false;
        }
        k = k + 1;
    }
}

/// The number of occurrences of each symbol of `alpha` in `a` and `b`, compared:
/// the error sum, or `None` once it exceeds `total`.
pub(crate) fn bounded_errors(alpha: &Vec<char>, a: &Vec<char>, b: &Vec<char>) -> (r: Option<u128>)
    ensures
        match r {
            Some(e) => e == errors_sum(alpha@, a@, b@) && e <= a.len() + b.len(),
            None => errors_sum(alpha@, a@, b@) > a.len() + b.len(),
        },
{
    let total: u128 = a.len() as u128 + b.len() as u128;
    let ha = histogram(a);
    let hb = histogram(b);
    let mut errors: u128 = 0;
    let mut i: usize = 0;
    while i < alpha.len()
        invariant
            i <= alpha.len(),
            total == a.len() + b.len(),
            errors == errors_sum(alpha@.take(i as int), a@, b@),
            errors <= total,
            forall|c: char| #[trigger] stored_count(counts_of(ha), c) == count_of(a@, c),
            forall|c: char| #[trigger] stored_count(counts_of(hb), c) == count_of(b@, c),
        decreases alpha.len() - i,
    {
        let symbol = alpha[i];
        let ca = ha.count(symbol);
        let cb = hb.count(symbol);
        proof {
            lemma_count_of_le_len(a@, symbol);
            lemma_count_of_le_len(b@, symbol);
        }
        let diff: usize = if ca >= cb {
            ca - cb
        } else {
            cb - ca
        };
        assert(alpha@.take(i + 1).drop_last() == alpha@.take(i as int));
        errors = errors + diff as u128;
        i = i + 1;
        if errors > total {
            proof {
                lemma_errors_sum_prefix(alpha@, a@, b@, i as int);
            }
            return None;
        }
    }
    assert(alpha@.take(alpha.len() as int) == alpha@);
    Some(errors)
}

} // verus!
