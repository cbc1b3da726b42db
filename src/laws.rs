//! Properties of the score, proved over the specifications of the comparison.

use vstd::prelude::*;

use crate::compare::{
    match_count, pair_counts, qualifies, qualifying_count, row_matches, text_score, word_score,
};
use crate::histogram::count_of;
use crate::matcher::{abs_diff, errors_sum, is_infix, word_matches, Settings};

verus! {

/// The error sum does not depend on which word comes first.
pub proof fn lemma_errors_sum_symmetric(alpha: Seq<char>, a: Seq<char>, b: Seq<char>)
    ensures
        errors_sum(alpha, a, b) == errors_sum(alpha, b, a),
    decreases alpha.len(),
{
    if alpha.len() > 0 {
        lemma_errors_sum_symmetric(alpha.drop_last(), a, b);
    }
}

/// Word matching does not depend on which word comes first.
pub proof fn lemma_word_matches_symmetric(cfg: Settings, a: Seq<char>, b: Seq<char>)
    ensures
        word_matches(cfg, a, b) == word_matches(cfg, b, a),
        pair_counts(cfg, a, b) == pair_counts(cfg, b, a),
{
    lemma_errors_sum_symmetric(cfg.alphabet, a, b);
}

/// Adding a word to the second side adds the matches of that word with the first.
proof fn lemma_match_count_push(
    cfg: Settings,
    xs: Seq<Seq<char>>,
    ys: Seq<Seq<char>>,
    y: Seq<char>,
)
    ensures
        match_count(cfg, xs, ys.push(y)) == match_count(cfg, xs, ys) + row_matches(cfg, y, xs),
    decreases xs.len(),
{
    if xs.len() > 0 {
        let x = xs.last();
        lemma_match_count_push(cfg, xs.drop_last(), ys, y);
        assert(ys.push(y).drop_last() == ys);
        lemma_word_matches_symmetric(cfg, x, y);
    }
}

/// Against no words there is no match.
proof fn lemma_match_count_none(cfg: Settings, xs: Seq<Seq<char>>)
    ensures
        match_count(cfg, xs, Seq::empty()) == 0,
    decreases xs.len(),
{
    if xs.len() > 0 {
        lemma_match_count_none(cfg, xs.drop_last());
    }
}

/// The number of matching pairs does not depend on which side comes first.
pub proof fn lemma_match_count_symmetric(cfg: Settings, xs: Seq<Seq<char>>, ys: Seq<Seq<char>>)
    ensures
        match_count(cfg, xs, ys) == match_count(cfg, ys, xs),
    decreases ys.len(),
{
    if ys.len() > 0 {
        let y = ys.last();
        lemma_match_count_symmetric(cfg, xs, ys.drop_last());
        assert(ys.drop_last().push(y) == ys);
        lemma_match_count_push(cfg, xs, ys.drop_last(), y);
    } else {
        assert(ys == Seq::<Seq<char>>::empty());
        lemma_match_count_none(cfg, xs);
    }
}

/// The score of two word sequences does not depend on their order.
pub proof fn lemma_word_score_symmetric(cfg: Settings, xs: Seq<Seq<char>>, ys: Seq<Seq<char>>)
    ensures
        word_score(cfg, xs, ys) == word_score(cfg, ys, xs),
{
    lemma_match_count_symmetric(cfg, xs, ys);
}

/// The similarity of two texts does not depend on their order.
pub proof fn lemma_similarity_symmetric(cfg: Settings, first: Seq<char>, second: Seq<char>)
    ensures
        text_score(cfg, first, second) == text_score(cfg, second, first),
{
    lemma_word_score_symmetric(
        cfg,
        crate::text::normalize(first),
        crate::text::normalize(second),
    );
}

/// A word matches itself.
pub proof fn lemma_word_matches_itself(cfg: Settings, w: Seq<char>)
    ensures
        word_matches(cfg, w, w),
{
    assert(w.subrange(0, 0 + w.len() as int) == w);
}

/// Each word of `xs` is paired with the word at the same place in `ys`: both
/// qualify or neither does, and a qualifying pair matches.
pub open spec fn pairwise_matched(cfg: Settings, xs: Seq<Seq<char>>, ys: Seq<Seq<char>>) -> bool {
    &&& xs.len() == ys.len()
    &&& forall|i: int|
        0 <= i < xs.len() ==> (qualifies(cfg, xs[i]) == qualifies(cfg, #[trigger] ys[i]) && (
        qualifies(cfg, xs[i]) ==> word_matches(cfg, xs[i], ys[i])))
}

/// A word that counts as matching some word of `ys` has at least one match there.
proof fn lemma_row_matches_hit(cfg: Settings, a: Seq<char>, ys: Seq<Seq<char>>, k: int)
    requires
        0 <= k < ys.len(),
        pair_counts(cfg, a, ys[k]),
    ensures
        row_matches(cfg, a, ys) >= 1,
    decreases ys.len(),
{
    if k < ys.len() - 1 {
        lemma_row_matches_hit(cfg, a, ys.drop_last(), k);
    }
}

/// Over the first `n` words, pairwise matched sequences have as many qualifying
/// words, and at least as many matches as qualifying words.
proof fn lemma_pairwise_prefix(cfg: Settings, xs: Seq<Seq<char>>, ys: Seq<Seq<char>>, n: int)
    requires
        pairwise_matched(cfg, xs, ys),
        0 <= n <= xs.len(),
    ensures
        match_count(cfg, xs.take(n), ys) >= qualifying_count(cfg, xs.take(n)),
        qualifying_count(cfg, xs.take(n)) == qualifying_count(cfg, ys.take(n)),
    decreases n,
{
    if n > 0 {
        lemma_pairwise_prefix(cfg, xs, ys, n - 1);
        assert(xs.take(n).drop_last() == xs.take(n - 1));
        assert(ys.take(n).drop_last() == ys.take(n - 1));
        let i = n - 1;
        assert(qualifies(cfg, xs[i]) == qualifies(cfg, ys[i]));
        if qualifies(cfg, xs[i]) {
            lemma_row_matches_hit(cfg, xs[i], ys, i);
        }
    }
}

/// Pairwise matched word sequences with a qualifying word score one.
pub proof fn lemma_pairwise_full_score(cfg: Settings, xs: Seq<Seq<char>>, ys: Seq<Seq<char>>)
    requires
        pairwise_matched(cfg, xs, ys),
        qualifying_count(cfg, xs) >= 1,
    ensures
        word_score(cfg, xs, ys) == (1nat, 1nat),
{
    lemma_pairwise_prefix(cfg, xs, ys, xs.len() as int);
    assert(xs.take(xs.len() as int) == xs);
    assert(ys.take(ys.len() as int) == ys);
}

/// A word sequence with a qualifying word scores one against itself.
pub proof fn lemma_word_score_identity(cfg: Settings, xs: Seq<Seq<char>>)
    requires
        qualifying_count(cfg, xs) >= 1,
    ensures
        word_score(cfg, xs, xs) == (1nat, 1nat),
{
    assert forall|i: int| 0 <= i < xs.len() implies word_matches(cfg, xs[i], xs[i]) by {
        lemma_word_matches_itself(cfg, xs[i]);
    }
    lemma_pairwise_full_score(cfg, xs, xs);
}

/// A text with a qualifying word is fully similar to itself.
pub proof fn lemma_similarity_identity(cfg: Settings, text: Seq<char>)
    requires
        qualifying_count(cfg, crate::text::normalize(text)) >= 1,
    ensures
        text_score(cfg, text, text) == (1nat, 1nat),
{
    lemma_word_score_identity(cfg, crate::text::normalize(text));
}

/// Counting in a concatenation is counting in each part.
pub proof fn lemma_count_of_concat(s: Seq<char>, t: Seq<char>, c: char)
    ensures
        count_of(s + t, c) == count_of(s, c) + count_of(t, c),
    decreases t.len(),
{
    if t.len() == 0 {
        assert(s + t == s);
    } else {
        lemma_count_of_concat(s, t.drop_last(), c);
        assert((s + t).drop_last() == s + t.drop_last());
    }
}

/// Words that agree on the count of every symbol have no error.
proof fn lemma_errors_sum_zero(alpha: Seq<char>, a: Seq<char>, b: Seq<char>)
    requires
        forall|k: int| 0 <= k < alpha.len() ==> count_of(a, #[trigger] alpha[k]) == count_of(b, alpha[k]),
    ensures
        errors_sum(alpha, a, b) == 0,
    decreases alpha.len(),
{
    if alpha.len() > 0 {
        lemma_errors_sum_zero(alpha.drop_last(), a, b);
        assert(alpha.last() == alpha[alpha.len() - 1]);
    }
}

/// Non-empty words of one length that agree on the count of every symbol match,
/// under a threshold below one.
pub proof fn lemma_same_counts_match(cfg: Settings, a: Seq<char>, b: Seq<char>)
    requires
        a.len() == b.len(),
        a.len() > 0,
        cfg.threshold_milli < 1000,
        forall|k: int|
            0 <= k < cfg.alphabet.len() ==> count_of(a, #[trigger] cfg.alphabet[k]) == count_of(
                b,
                cfg.alphabet[k],
            ),
    ensures
        word_matches(cfg, a, b),
{
    lemma_errors_sum_zero(cfg.alphabet, a, b);
    let total = a.len() + b.len();
    let m = cfg.threshold_milli;
    assert(1000 * total > m * total) by (nonlinear_arith)
        requires
            total > 0,
            m < 1000,
    ;
}

/// Two texts that differ only in the mark that ends their last word, neither a
/// symbol of the alphabet, score one, under a threshold below one.
pub proof fn lemma_trailing_marks(cfg: Settings, ws: Seq<Seq<char>>, w: Seq<char>, p: char, q: char)
    requires
        !cfg.alphabet.contains(p),
        !cfg.alphabet.contains(q),
        cfg.threshold_milli < 1000,
        qualifying_count(cfg, ws.push(w.push(p))) >= 1,
    ensures
        word_score(cfg, ws.push(w.push(p)), ws.push(w.push(q))) == (1nat, 1nat),
{
    let xs = ws.push(w.push(p));
    let ys = ws.push(w.push(q));
    assert forall|k: int| 0 <= k < cfg.alphabet.len() implies count_of(
        w.push(p),
        #[trigger] cfg.alphabet[k],
    ) == count_of(w.push(q), cfg.alphabet[k]) by {
        assert(w.push(p).drop_last() == w);
        assert(w.push(q).drop_last() == w);
    }
    lemma_same_counts_match(cfg, w.push(p), w.push(q));
    assert forall|i: int| 0 <= i < xs.len() implies word_matches(cfg, xs[i], ys[i]) by {
        if i < ws.len() {
            lemma_word_matches_itself(cfg, xs[i]);
        }
    }
    lemma_pairwise_full_score(cfg, xs, ys);
}

/// A text and the same text with one more character at the end of its last
/// word score one, where that word qualifies and one character of length
/// difference is tolerated.
pub proof fn lemma_trailing_mark_added(cfg: Settings, ws: Seq<Seq<char>>, w: Seq<char>, p: char)
    requires
        qualifies(cfg, w),
        cfg.delta_ignore >= 1,
    ensures
        word_score(cfg, ws.push(w), ws.push(w.push(p))) == (1nat, 1nat),
{
    let xs = ws.push(w);
    let ys = ws.push(w.push(p));
    assert(w.push(p).subrange(0, 0 + w.len() as int) == w);
    assert(is_infix(w, w.push(p)));
    assert forall|i: int| 0 <= i < xs.len() implies word_matches(cfg, xs[i], ys[i]) by {
        if i < ws.len() {
            lemma_word_matches_itself(cfg, xs[i]);
        }
    }
    assert(xs.drop_last() == ws);
    lemma_pairwise_full_score(cfg, xs, ys);
}

/// `w` with the characters at `k` and `k + 1` exchanged.
pub open spec fn swapped_at(w: Seq<char>, k: int) -> Seq<char> {
    w.take(k) + seq![w[k + 1], w[k]] + w.skip(k + 2)
}

/// Whether `b` is `a` with two adjacent characters exchanged.
pub open spec fn is_transposition(a: Seq<char>, b: Seq<char>) -> bool {
    exists|k: int| 0 <= k && k + 1 < a.len() && b == #[trigger] swapped_at(a, k)
}

/// Exchanging two adjacent characters keeps every count.
pub proof fn lemma_swapped_counts(w: Seq<char>, k: int, c: char)
    requires
        0 <= k,
        k + 1 < w.len(),
    ensures
        count_of(swapped_at(w, k), c) == count_of(w, c),
{
    let x = w[k];
    let y = w[k + 1];
    assert(w == w.take(k) + seq![x, y] + w.skip(k + 2));
    lemma_count_of_concat(w.take(k) + seq![x, y], w.skip(k + 2), c);
    lemma_count_of_concat(w.take(k), seq![x, y], c);
    lemma_count_of_concat(w.take(k) + seq![y, x], w.skip(k + 2), c);
    lemma_count_of_concat(w.take(k), seq![y, x], c);
    assert(seq![x, y].drop_last() == seq![x]);
    assert(seq![y, x].drop_last() == seq![y]);
    assert(seq![x].drop_last() == Seq::<char>::empty());
    assert(seq![y].drop_last() == Seq::<char>::empty());
    assert(count_of(seq![x, y], c) == count_of(seq![y, x], c)) by {
        reveal_with_fuel(count_of, 3);
    }
}

/// Two word sequences whose words agree place by place, up to one exchange of
/// adjacent characters within a word, score one, under a threshold below one.
pub proof fn lemma_transpositions(cfg: Settings, xs: Seq<Seq<char>>, ys: Seq<Seq<char>>)
    requires
        xs.len() == ys.len(),
        forall|i: int|
            0 <= i < xs.len() ==> xs[i] == #[trigger] ys[i] || is_transposition(xs[i], ys[i]),
        cfg.threshold_milli < 1000,
        qualifying_count(cfg, xs) >= 1,
    ensures
        word_score(cfg, xs, ys) == (1nat, 1nat),
{
    assert forall|i: int| 0 <= i < xs.len() implies qualifies(cfg, xs[i]) == qualifies(
        cfg,
        #[trigger] ys[i],
    ) && word_matches(cfg, xs[i], ys[i]) by {
        if xs[i] == ys[i] {
            lemma_word_matches_itself(cfg, xs[i]);
        } else {
            let k = choose|k: int| 0 <= k && k + 1 < xs[i].len() && ys[i] == #[trigger] swapped_at(xs[i], k);
            assert forall|j: int| 0 <= j < cfg.alphabet.len() implies count_of(
                xs[i],
                #[trigger] cfg.alphabet[j],
            ) == count_of(ys[i], cfg.alphabet[j]) by {
                lemma_swapped_counts(xs[i], k, cfg.alphabet[j]);
            }
            lemma_same_counts_match(cfg, xs[i], ys[i]);
        }
    }
    lemma_pairwise_full_score(cfg, xs, ys);
}

/// The sum of `f` over the words of `ws`.
pub open spec fn sum_over(ws: Seq<Seq<char>>, f: spec_fn(Seq<char>) -> nat) -> nat
    decreases ws.len(),
{
    if ws.len() == 0 {
        0
    } else {
        sum_over(ws.drop_last(), f) + f(ws.last())
    }
}

/// The number of matching pairs is the sum over the first side of each word's matches.
proof fn lemma_match_count_as_sum(
    cfg: Settings,
    xs: Seq<Seq<char>>,
    ys: Seq<Seq<char>>,
    f: spec_fn(Seq<char>) -> nat,
)
    requires
        forall|x: Seq<char>| #[trigger] f(x) == row_matches(cfg, x, ys),
    ensures
        match_count(cfg, xs, ys) == sum_over(xs, f),
    decreases xs.len(),
{
    if xs.len() > 0 {
        lemma_match_count_as_sum(cfg, xs.drop_last(), ys, f);
    }
}

/// The number of qualifying words is a sum over the words.
proof fn lemma_qualifying_count_as_sum(
    cfg: Settings,
    xs: Seq<Seq<char>>,
    f: spec_fn(Seq<char>) -> nat,
)
    requires
        forall|x: Seq<char>| #[trigger] f(x) == if qualifies(cfg, x) { 1nat } else { 0nat },
    ensures
        qualifying_count(cfg, xs) == sum_over(xs, f),
    decreases xs.len(),
{
    if xs.len() > 0 {
        lemma_qualifying_count_as_sum(cfg, xs.drop_last(), f);
    }
}

/// Taking one word out of a sum subtracts its term.
proof fn lemma_sum_over_remove(ws: Seq<Seq<char>>, f: spec_fn(Seq<char>) -> nat, k: int)
    requires
        0 <= k < ws.len(),
    ensures
        sum_over(ws, f) == sum_over(ws.remove(k), f) + f(ws[k]),
    decreases ws.len(),
{
    if k == ws.len() - 1 {
        assert(ws.remove(k) == ws.drop_last());
    } else {
        lemma_sum_over_remove(ws.drop_last(), f, k);
        assert(ws.remove(k).drop_last() == ws.drop_last().remove(k));
        assert(ws.remove(k).last() == ws.last());
    }
}

/// A sum over words does not depend on their order.
pub proof fn lemma_sum_over_permutation(
    xs: Seq<Seq<char>>,
    zs: Seq<Seq<char>>,
    f: spec_fn(Seq<char>) -> nat,
)
    requires
        xs.to_multiset() == zs.to_multiset(),
    ensures
        sum_over(xs, f) == sum_over(zs, f),
    decreases xs.len(),
{
    broadcast use vstd::multiset::group_multiset_axioms;

    xs.to_multiset_ensures();
    zs.to_multiset_ensures();
    if xs.len() > 0 {
        let x = xs.last();
        let rest = xs.drop_last();
        assert(rest.push(x) == xs);
        rest.to_multiset_ensures();
        assert(zs.to_multiset().count(x) > 0);
        assert(zs.contains(x));
        let k = choose|k: int| 0 <= k < zs.len() && zs[k] == x;
        assert(zs.remove(k).to_multiset() =~= rest.to_multiset());
        lemma_sum_over_permutation(rest, zs.remove(k), f);
        lemma_sum_over_remove(zs, f, k);
    } else {
        assert(zs.len() == 0);
    }
}

/// Reordering the words on either side leaves the score unchanged.
pub proof fn lemma_word_order(
    cfg: Settings,
    xs: Seq<Seq<char>>,
    xs2: Seq<Seq<char>>,
    ys: Seq<Seq<char>>,
    ys2: Seq<Seq<char>>,
)
    requires
        xs2.to_multiset() == xs.to_multiset(),
        ys2.to_multiset() == ys.to_multiset(),
    ensures
        word_score(cfg, xs2, ys2) == word_score(cfg, xs, ys),
{
    let rows_ys2 = |x: Seq<char>| row_matches(cfg, x, ys2);
    lemma_match_count_as_sum(cfg, xs2, ys2, rows_ys2);
    lemma_match_count_as_sum(cfg, xs, ys2, rows_ys2);
    lemma_sum_over_permutation(xs2, xs, rows_ys2);
    lemma_match_count_symmetric(cfg, xs, ys2);
    lemma_match_count_symmetric(cfg, xs, ys);
    let rows_xs = |y: Seq<char>| row_matches(cfg, y, xs);
    lemma_match_count_as_sum(cfg, ys2, xs, rows_xs);
    lemma_match_count_as_sum(cfg, ys, xs, rows_xs);
    lemma_sum_over_permutation(ys2, ys, rows_xs);
    let q = |x: Seq<char>| if qualifies(cfg, x) { 1nat } else { 0nat };
    lemma_qualifying_count_as_sum(cfg, xs, q);
    lemma_qualifying_count_as_sum(cfg, xs2, q);
    lemma_qualifying_count_as_sum(cfg, ys, q);
    lemma_qualifying_count_as_sum(cfg, ys2, q);
    lemma_sum_over_permutation(xs2, xs, q);
    lemma_sum_over_permutation(ys2, ys, q);
}

} // verus!
