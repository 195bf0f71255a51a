use wordle_solver::color::{Coloring, ColoringCode, Colorings, NUM_STATES};
use wordle_solver::color::Coloring::{Correct, Excluded, Misplaced};

#[test]
fn test_coloring_ordinal_reversible() {
    for c in Coloring::ALL {
        assert_eq!(Some(c), Coloring::from_ordinal(c.ordinal()))
    }
}

#[test]
fn test_colorings_fit_into_code_type() {
    let num_states = Colorings::NUM_STATES;
    let max_code_rep = ColoringCode::MAX as usize;
    assert!(
        num_states < max_code_rep,
        "{} states need to be represented by {} ({}..{})",
        num_states,
        "u8",
        ColoringCode::MIN,
        max_code_rep,
    );
}

#[test]
fn test_unique_coding_of_colorings() {
    let mut seen = [false; ColoringCode::MAX as usize];
    for colorings in Colorings::iter_all_possible() {
        let code = colorings.to_code();
        assert!(!seen[code as usize], "expected no duplicate codes, got duplicate {}", code);
        seen[code as usize] = true;
    }
}

#[test]
fn test_reversible_coding_of_colorings() {
    for colorings in Colorings::iter_all_possible() {
        let code = colorings.to_code();
        assert_eq!(
            Some(colorings),
            Colorings::from_code(code),
            "code {} produced from {:?} should reverse to same colorings",
            code,
            colorings,
        )
    }
}

fn check_coloring(guess: &str, answer: &str, expected: [Coloring; 5]) {
    assert_eq!(
        Colorings::with_guess_answer(guess, answer),
        Colorings(expected),
        "guess={}, answer={}",
        guess,
        answer
    );
}

#[test]
fn coloring_of_concrete_guesses() {
    check_coloring("zitis", "zizel", [Correct, Correct, Excluded, Excluded, Excluded]);
    check_coloring("tares", "scare", [Excluded, Misplaced, Misplaced, Misplaced, Misplaced]);
    check_coloring("spare", "scare", [Correct, Excluded, Correct, Correct, Correct]);
    check_coloring("share", "scare", [Correct, Excluded, Correct, Correct, Correct]);
    check_coloring("scare", "scare", [Correct, Correct, Correct, Correct, Correct]);
    check_coloring("tales", "apron", [Excluded, Misplaced, Excluded, Excluded, Excluded]);
    check_coloring("drain", "apron", [Excluded, Misplaced, Misplaced, Excluded, Correct]);
    check_coloring("roman", "apron", [Misplaced, Misplaced, Excluded, Misplaced, Correct]);
    check_coloring("apron", "apron", [Correct, Correct, Correct, Correct, Correct]);
    check_coloring("lanes", "legal", [Correct, Misplaced, Excluded, Misplaced, Excluded]);
    check_coloring("leary", "legal", [Correct, Correct, Misplaced, Excluded, Excluded]);
    check_coloring("lemma", "legal", [Correct, Correct, Excluded, Excluded, Misplaced]);
    check_coloring("legal", "legal", [Correct, Correct, Correct, Correct, Correct]);
    check_coloring("arles", "ledge", [Excluded, Excluded, Misplaced, Misplaced, Excluded]);
    check_coloring("elite", "ledge", [Misplaced, Misplaced, Excluded, Excluded, Correct]);
    check_coloring("ledge", "ledge", [Correct, Correct, Correct, Correct, Correct]);
}

#[test]
fn repeated_letter_beyond_the_answer_is_excluded() {
    // the answer has one 'e'; only the first unmatched 'e' of the guess is misplaced
    check_coloring("speed", "abide", [Excluded, Excluded, Misplaced, Excluded, Misplaced]);
    check_coloring("eerie", "ledge", [Excluded, Correct, Excluded, Excluded, Correct]);
    check_coloring("geese", "those", [Excluded, Excluded, Excluded, Correct, Correct]);
}

#[test]
fn code_of_known_colorings() {
    assert_eq!(Colorings([Excluded; 5]).to_code(), 0);
    assert_eq!(Colorings([Misplaced, Excluded, Excluded, Excluded, Excluded]).to_code(), 1);
    assert_eq!(Colorings([Excluded, Correct, Excluded, Excluded, Excluded]).to_code(), 6);
    assert_eq!(Colorings([Correct; 5]).to_code(), 242);
    assert_eq!(Colorings::from_code(242), Some(Colorings([Correct; 5])));
    assert_eq!(Colorings::from_code(81), Some(Colorings([Excluded, Excluded, Excluded, Excluded, Misplaced])));
}

#[test]
fn codes_beyond_the_range_wrap() {
    assert_eq!(Colorings::from_code(243), Colorings::from_code(0));
    assert_eq!(Colorings::from_code(255), Colorings::from_code(12));
}

#[test]
fn all_possible_colorings_follow_their_codes() {
    let all = Colorings::iter_all_possible();
    assert_eq!(all.len(), NUM_STATES);
    for (i, c) in all.iter().enumerate() {
        assert_eq!(c.to_code() as usize, i);
    }
}

#[test]
fn ordinal_out_of_range() {
    assert_eq!(Coloring::from_ordinal(3), None);
    assert_eq!(Coloring::from_ordinal(2), Some(Correct));
}

#[test]
fn emoji_rows() {
    assert_eq!(Excluded.emoji(), "\u{2b1b}");
    let row = Colorings([Correct, Misplaced, Excluded, Excluded, Correct]).to_emoji_string();
    assert_eq!(row, "\u{1f7e9}\u{1f7e8}\u{2b1b}\u{2b1b}\u{1f7e9}");
}

#[test]
fn colorings_from_array() {
    let c: Colorings = [Correct; 5].into();
    assert_eq!(c, Colorings([Correct; 5]));
    assert_eq!(Colorings::default(), Colorings([Excluded; 5]));
}
