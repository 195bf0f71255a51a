use wordle_solver::color::Coloring::{Correct, Excluded, Misplaced};
use wordle_solver::color::Colorings;
use wordle_solver::guess::Guess;
use wordle_solver::prelude::{count_letters, is_wordle_str, letter_idx, normalize_wordle_word};

fn guess(word: &str, coloring: [wordle_solver::color::Coloring; 5]) -> Guess {
    let mut w = [0u8; 5];
    w.copy_from_slice(word.as_bytes());
    Guess { word: w, coloring: Colorings(coloring) }
}

#[test]
fn all_correct_admits_no_other_word() {
    let g = guess("apron", [Correct; 5]);
    for other in ["drain", "roman", "apron", "aprons".get(0..5).unwrap(), "aaron"] {
        assert!(!g.allows_other_guess(other), "{}", other);
    }
    assert!(g.is_correct());
}

#[test]
fn repeated_guess_is_not_consistent() {
    let g = guess("drain", [Excluded, Misplaced, Misplaced, Excluded, Correct]);
    assert!(!g.allows_other_guess("drain"));
    assert!(g.is_guess_same("drain"));
    assert!(!g.is_guess_same("apron"));
}

#[test]
fn filter_keeps_words_that_match_the_feedback() {
    let g = guess("drain", [Excluded, Misplaced, Misplaced, Excluded, Correct]);
    assert!(g.allows_other_guess("apron"));
    assert!(g.allows_other_guess("roman"));
    let g = guess("roman", [Misplaced, Misplaced, Excluded, Misplaced, Correct]);
    assert!(g.allows_other_guess("apron"));
    assert!(!g.allows_other_guess("drain"));
}

#[test]
fn budget_is_checked_before_exclusion() {
    // 'b' is both correct and excluded: one 'b' is expected, no second one
    let g = guess("abbey", [Correct, Correct, Excluded, Excluded, Excluded]);
    assert!(g.allows_other_guess("abhor"));
    assert!(!g.allows_other_guess("abbot"));
}

#[test]
fn correct_and_misplaced_positions_constrain() {
    let g = guess("tares", [Excluded, Misplaced, Misplaced, Misplaced, Misplaced]);
    assert!(g.allows_other_guess("scare"));
    // 'a' misplaced at position 1 cannot stay there
    assert!(!g.allows_other_guess("sarex".get(0..5).unwrap()));
    // 't' is excluded
    assert!(!g.allows_other_guess("treas"));
}

#[test]
fn word_checks() {
    assert!(is_wordle_str("apron"));
    assert!(!is_wordle_str("Apron"));
    assert!(!is_wordle_str("apro"));
    assert!(!is_wordle_str("aprons"));
    assert_eq!(letter_idx(b'a'), 0);
    assert_eq!(letter_idx(b'z'), 25);
    let counts = count_letters("legal");
    assert_eq!(counts[letter_idx(b'l')], 2);
    assert_eq!(counts[letter_idx(b'e')], 1);
    assert_eq!(counts[letter_idx(b'z')], 0);
}

#[test]
fn normalization_trims_and_lowers() {
    assert_eq!(normalize_wordle_word("  ApRoN \n"), "apron");
    assert_eq!(normalize_wordle_word("drain"), "drain");
    assert!(is_wordle_str(&normalize_wordle_word(" LEGAL")));
}

#[test]
fn answer_survives_its_own_coloring() {
    let words = ["apron", "drain", "roman", "tales", "legal", "ledge", "eerie", "speed", "abbey", "geese"];
    for g in words.iter() {
        for a in words.iter() {
            let c = Colorings::with_guess_answer(g, a);
            let mut w = [0u8; 5];
            w.copy_from_slice(g.as_bytes());
            let guess = Guess { word: w, coloring: c };
            assert_eq!(guess.allows_other_guess(a), g != a, "guess={} answer={}", g, a);
        }
    }
}

#[test]
fn normalization_trims_unicode_white_space() {
    assert_eq!(normalize_wordle_word("\u{3000}Apron\u{a0}\t"), "apron");
    assert_eq!(normalize_wordle_word("\u{2009}drain\u{2028}"), "drain");
}
