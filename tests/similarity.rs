use three_set_compare::{Score, ThreeSetCompare};

fn value(score: Score) -> f64 {
    score.numerator as f64 / score.denominator as f64
}

fn assert_close(actual: f64, expected: f64) {
    assert!(
        (actual - expected).abs() < 1.0e-6,
        "{} is not close to {}",
        actual,
        expected
    );
}

#[test]
fn differences() {
    let comparator = ThreeSetCompare::new();

    assert_close(
        value(comparator.similarity(
            "Сравнение трех строк с помощью инвариантной метрики",
            "Сравнение двух строк с помощью инвариантной метрики",
        )),
        0.8333333_f64,
    );
    assert_close(
        value(comparator.similarity(
            "Сравнение трех строк   помощью инвариантной метрики",
            "Сравнение двух строк с помощью инвариантной метрики",
        )),
        0.8333333_f64,
    );
    assert_close(
        value(comparator.similarity(
            "Сравнеие двух строк с помощью инвариантной метрики",
            "Сравнеие двух строк с помощью метрики, инвариантной к перестановке слов",
        )),
        0.8571428_f64,
    );
}

#[test]
fn equal() {
    let comparator = ThreeSetCompare::new();

    assert_close(
        value(comparator.similarity(
            "Сравнение двух строк с помощью инвариантной метрики",
            "Сравнение двух строк с помощью инвариантной метрики",
        )),
        1_f64,
    );
    assert_close(
        value(comparator.similarity(
            "Сравнение двух строк с помощью инвариантной метрики!",
            "Сравнение двух строк с помощью инвариантной метрики?",
        )),
        1_f64,
    );
    assert_close(
        value(comparator.similarity(
            "Сравнение двху строк с пмоощью инвариатнной метркии",
            "Сравнение двух строк с помощью инвариантной метрики",
        )),
        1_f64,
    );
    assert_close(
        value(comparator.similarity(
            "Сравнение строк двух с помощью метрики инвариантной",
            "Сравнение двух строк с помощью инвариантной метрики",
        )),
        1_f64,
    );
}

#[test]
fn not_equal() {
    let comparator = ThreeSetCompare::new();

    assert_close(
        value(comparator.similarity("Первая строка", "Вторая фраза")),
        0.5_f64,
    );

    assert_close(value(comparator.similarity("АБВ", "ГДЕ")), 0_f64);
}

#[test]
fn exact_fractions_of_scenarios() {
    let comparator = ThreeSetCompare::new();
    let s = comparator.similarity(
        "Сравнение трех строк с помощью инвариантной метрики",
        "Сравнение двух строк с помощью инвариантной метрики",
    );
    assert_eq!(s, Score { numerator: 10, denominator: 12 });
    let s = comparator.similarity("Первая строка", "Вторая фраза");
    assert_eq!(s, Score { numerator: 2, denominator: 4 });
    let s = comparator.similarity("АБВ", "ГДЕ");
    assert_eq!(s, Score { numerator: 0, denominator: 2 });
}

#[test]
fn identity_gives_one() {
    let comparator = ThreeSetCompare::new();
    let s = comparator.similarity("Hello wonderful world", "Hello wonderful world");
    assert_eq!(s, Score { numerator: 1, denominator: 1 });
}

#[test]
fn symmetry_on_sample() {
    let comparator = ThreeSetCompare::new();
    let a = "Сравнеие двух строк с помощью инвариантной метрики";
    let b = "Сравнеие двух строк с помощью метрики, инвариантной к перестановке слов";
    assert_eq!(comparator.similarity(a, b), comparator.similarity(b, a));
    let c = "Первая строка";
    let d = "Вторая фраза";
    assert_eq!(comparator.similarity(c, d), comparator.similarity(d, c));
}

#[test]
fn score_in_unit_range() {
    let comparator = ThreeSetCompare::new();
    let samples = ["", "a", "ab ab ab", "abc abc", "the quick brown fox", "fox"];
    for a in samples.iter() {
        for b in samples.iter() {
            let s = comparator.similarity(a, b);
            assert!(s.denominator > 0);
            assert!(s.numerator <= s.denominator);
        }
    }
}

#[test]
fn repeated_word_is_clamped_to_one() {
    let comparator = ThreeSetCompare::new();
    // four matching pairs over an average of two words
    let s = comparator.similarity("ab ab", "ab ab");
    assert_eq!(s, Score { numerator: 1, denominator: 1 });
}

#[test]
fn word_order_does_not_matter() {
    let comparator = ThreeSetCompare::new();
    let s = comparator.similarity("green apple tree", "tree apple green");
    assert_eq!(s, Score { numerator: 1, denominator: 1 });
    let t1 = comparator.similarity("green apple tree", "red apple");
    let t2 = comparator.similarity("tree green apple", "red apple");
    assert_eq!(t1, t2);
}

#[test]
fn trailing_marks_keep_full_score() {
    let comparator = ThreeSetCompare::new();
    let s = comparator.similarity("one small step!", "one small step?");
    assert_eq!(s, Score { numerator: 1, denominator: 1 });
    let s = comparator.similarity("one small step", "one small step.");
    assert_eq!(s, Score { numerator: 1, denominator: 1 });
}

#[test]
fn transposed_letters_keep_full_score() {
    let comparator = ThreeSetCompare::new();
    let s = comparator.similarity("comparing strings", "compairng strnigs");
    assert_eq!(s, Score { numerator: 1, denominator: 1 });
}

#[test]
fn empty_texts_score_zero() {
    let comparator = ThreeSetCompare::new();
    assert_eq!(comparator.similarity("", ""), Score { numerator: 0, denominator: 1 });
    assert_eq!(comparator.similarity("a b", "c"), Score { numerator: 0, denominator: 1 });
}

#[test]
fn short_words_are_ignored() {
    let comparator = ThreeSetCompare::new();
    // "a" is too short: one qualifying word on each side, and they match
    let s = comparator.similarity("a house", "house");
    assert_eq!(s, Score { numerator: 1, denominator: 1 });
    // one qualifying word against none
    let s = comparator.similarity("house", "a");
    assert_eq!(s, Score { numerator: 0, denominator: 1 });
}

#[test]
fn one_side_empty() {
    let comparator = ThreeSetCompare::new();
    let s = comparator.similarity("", "house garden");
    assert_eq!(s, Score { numerator: 0, denominator: 2 });
}

#[test]
fn transliteration_and_case_are_applied() {
    let comparator = ThreeSetCompare::new();
    let s = comparator.similarity("ÉTUDE Café", "etude cafe");
    assert_eq!(s, Score { numerator: 1, denominator: 1 });
}
