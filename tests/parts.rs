use three_set_compare::histogram::histogram;
use three_set_compare::matcher::contains_run;
use three_set_compare::text::{chars_of, is_white_space, normalize_text, split_whitespace};
use three_set_compare::{Score, ThreeSetCompare};

fn word(s: &str) -> Vec<char> {
    s.chars().collect()
}

fn words(ws: &[&str]) -> Vec<Vec<char>> {
    ws.iter().map(|w| word(w)).collect()
}

#[test]
fn contained_word_within_length_tolerance_matches() {
    let c = ThreeSetCompare::new();
    assert!(c.words_match(&word("abcdef"), &word("abc")));
    assert!(c.words_match(&word("abc"), &word("abcdef")));
    assert!(c.words_match(&word("xabcx"), &word("abc")));
}

#[test]
fn contained_word_beyond_length_tolerance_does_not_match() {
    let c = ThreeSetCompare::new();
    assert!(!c.words_match(&word("abcdefg"), &word("abc")));
    assert!(!c.words_match(&word("abc"), &word("abcdefg")));
}

#[test]
fn anagram_matches_by_histogram() {
    let c = ThreeSetCompare::new();
    assert!(c.words_match(&word("abcd"), &word("abdc")));
    assert!(c.words_match(&word("listen"), &word("silent")));
}

#[test]
fn histogram_threshold_is_strict() {
    let c = ThreeSetCompare::new();
    // two errors over ten characters: 0.8 is above the threshold
    assert!(c.words_match(&word("abcde"), &word("abcdf")));
    // two errors over six characters: 0.667 is below it
    assert!(!c.words_match(&word("abc"), &word("abd")));
    assert!(!c.words_match(&word("abcd"), &word("wxyz")));
}

#[test]
fn punctuation_counts_only_in_the_total() {
    let c = ThreeSetCompare::new();
    assert!(c.words_match(&word("ab!"), &word("ab?")));
    // two errors over ten characters, of which four are marks
    assert!(c.words_match(&word("ab!!c"), &word("ab??d")));
    // two errors over six characters, with no marks
    assert!(!c.words_match(&word("abc"), &word("abd")));
}

#[test]
fn logic_counts_cross_product() {
    let c = ThreeSetCompare::new();
    let s = c.logic(&words(&["house", "garden", "x"]), &words(&["garden", "tree"]));
    // one match over an average of two qualifying words: "x" is too short
    assert_eq!(s, Score { numerator: 2, denominator: 4 });
    let s = c.logic(&Vec::new(), &Vec::new());
    assert_eq!(s, Score { numerator: 0, denominator: 1 });
}

#[test]
fn contains_run_finds_infixes() {
    assert!(contains_run(&word("bc"), &word("abcd")));
    assert!(contains_run(&word(""), &word("abcd")));
    assert!(contains_run(&word("abcd"), &word("abcd")));
    assert!(!contains_run(&word("bd"), &word("abcd")));
    assert!(!contains_run(&word("abcde"), &word("abcd")));
}

#[test]
fn histogram_counts_every_character() {
    let h = histogram(&word("hello!"));
    assert_eq!(h.count('l'), 2);
    assert_eq!(h.count('h'), 1);
    assert_eq!(h.count('!'), 1);
    assert_eq!(h.count('z'), 0);
    let e = histogram(&word(""));
    assert_eq!(e.count('a'), 0);
}

#[test]
fn split_on_runs_of_whitespace() {
    let ws = split_whitespace(&word("  one \t two\n\nthree  "));
    assert_eq!(ws, words(&["one", "two", "three"]));
    assert!(split_whitespace(&word("   ")).is_empty());
    assert_eq!(chars_of("añb"), vec!['a', 'ñ', 'b']);
}

#[test]
fn normalize_transliterates_and_lowercases() {
    let ws = normalize_text("Привет,  МИР!");
    assert_eq!(ws, words(&["privet,", "mir!"]));
    let ws = normalize_text("Æneid ÉTUDE");
    assert_eq!(ws, words(&["aeneid", "etude"]));
    assert!(normalize_text("").is_empty());
}

#[test]
fn white_space_agrees_with_std_on_every_char() {
    for u in 0u32..=0x10ffff {
        if let Some(c) = char::from_u32(u) {
            assert_eq!(is_white_space(c), c.is_whitespace(), "at {:#x}", u);
        }
    }
    assert!(is_white_space('\u{3000}'));
    assert!(!is_white_space('\u{200b}'));
}

#[test]
fn histogram_of_word_with_mark() {
    let h = histogram(&word("ab!a"));
    assert_eq!(h.count('a'), 2);
    assert_eq!(h.count('b'), 1);
    assert_eq!(h.count('!'), 1);
    assert_eq!(h.count('c'), 0);
}
