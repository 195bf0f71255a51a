use wordle_solver::color::Coloring::{Correct, Excluded, Misplaced};
use wordle_solver::color::{Coloring, Colorings, NUM_STATES};
use wordle_solver::data::LoadDataErr;
use wordle_solver::guess::Guess;
use wordle_solver::prelude::NUM_TURNS;
use wordle_solver::solver::{iter_guesses, Solver, SolverErr, SolverState};

fn solver_of(words: &[&str]) -> Solver {
    let ws: Vec<String> = words.iter().map(|w| w.to_string()).collect();
    let weights: Vec<u32> = (0..words.len() as u32).map(|i| 1000 - i).collect();
    match Solver::new(ws, weights) {
        Ok(s) => s,
        Err(_) => panic!("universe should be valid"),
    }
}

#[test]
fn end_to_end_three_words() {
    let mut s = solver_of(&["apron", "drain", "roman"]);
    assert_eq!(s.num_remaining_possibilities(), 3);
    assert_eq!(s.num_total_possibilities(), 3);
    assert_eq!(s.state(), SolverState::Fresh);
    let coloring = Colorings::with_guess_answer("apron", "apron");
    assert_eq!(coloring, Colorings([Correct; 5]));
    assert_eq!(s.make_guess("apron", coloring), Ok(()));
    assert_eq!(s.state(), SolverState::Solved);
    assert!(s.is_solved());
    assert!(!s.can_guess());
}

#[test]
fn end_to_end_guess_eliminating_two() {
    let mut s = solver_of(&["apron", "drain", "roman"]);
    let coloring = Colorings::with_guess_answer("roman", "apron");
    assert_eq!(s.make_guess("roman", coloring), Ok(()));
    assert_eq!(s.num_remaining_possibilities(), 1);
    assert_eq!(s.remaining_indices(), &[0usize][..]);
    assert_eq!(s.state(), SolverState::InProgress);
    assert!(s.can_guess());
}

#[test]
fn solved_rejects_further_guesses() {
    let mut s = solver_of(&["apron", "drain", "roman"]);
    assert_eq!(s.make_guess("apron", Colorings([Correct; 5])), Ok(()));
    let before = s.num_guesses();
    assert_eq!(s.make_guess("drain", Colorings([Excluded; 5])), Err(SolverErr::AlreadySolved));
    assert_eq!(s.num_guesses(), before);
}

#[test]
fn turns_exhaust_after_max_guesses() {
    let mut s = solver_of(&["apron", "drain", "roman", "tales", "lemma"]);
    let guesses = ["tales", "drain", "roman", "lemma", "zitis", "scare"];
    for g in guesses.iter() {
        let c = Colorings::with_guess_answer(g, "apron");
        assert_eq!(s.make_guess(g, c), Ok(()));
    }
    assert_eq!(s.num_guesses(), NUM_TURNS);
    assert_eq!(s.state(), SolverState::Exhausted);
    assert_eq!(s.num_remaining_possibilities(), 1);
    assert_eq!(s.make_guess("apron", Colorings([Correct; 5])), Err(SolverErr::TurnsExhausted));
}

#[test]
fn contradictory_feedback_gets_stuck() {
    let mut s = solver_of(&["apron", "drain", "roman"]);
    assert_eq!(s.make_guess("zzzzz", Colorings([Correct; 5])), Ok(()));
    assert_eq!(s.num_remaining_possibilities(), 0);
    assert_eq!(s.state(), SolverState::Solved);
    s.reset();
    assert_eq!(s.make_guess("apron", Colorings([Misplaced; 5])), Ok(()));
    assert_eq!(s.num_remaining_possibilities(), 0);
    assert_eq!(s.state(), SolverState::Stuck);
    assert!(!s.has_possible_guesses());
    assert_eq!(s.make_guess("drain", Colorings([Excluded; 5])), Err(SolverErr::NoCandidates));
}

#[test]
fn reset_returns_to_fresh() {
    let mut s = solver_of(&["apron", "drain", "roman"]);
    assert_eq!(s.make_guess("roman", Colorings::with_guess_answer("roman", "apron")), Ok(()));
    s.reset();
    assert_eq!(s.state(), SolverState::Fresh);
    assert!(s.is_default_state());
    assert_eq!(s.num_remaining_possibilities(), s.num_total_possibilities());
    assert_eq!(s.num_guesses(), 0);
}

#[test]
fn invalid_guess_is_refused_after_normalizing() {
    let mut s = solver_of(&["apron", "drain", "roman"]);
    assert_eq!(s.make_guess(" AbC ", Colorings([Excluded; 5])), Err(SolverErr::InvalidGuess("abc".to_string())));
    assert_eq!(s.make_guess("ap-on", Colorings([Excluded; 5])), Err(SolverErr::InvalidGuess("ap-on".to_string())));
    assert_eq!(s.num_guesses(), 0);
    assert_eq!(s.make_guess("  ROMAN ", Colorings::with_guess_answer("roman", "apron")), Ok(()));
    assert_eq!(s.iter_guesses()[0].word, *b"roman");
    assert_eq!(s.num_remaining_possibilities(), 1);
}

#[test]
fn apply_guess_takes_the_word_as_given() {
    let mut s = solver_of(&["apron", "drain", "roman"]);
    assert_eq!(s.apply_guess("ROMAN", Colorings([Excluded; 5])), Err(SolverErr::InvalidGuess("ROMAN".to_string())));
    assert_eq!(s.apply_guess("drain", Colorings::with_guess_answer("drain", "apron")), Ok(()));
    assert_eq!(s.num_remaining_possibilities(), 2);
}

#[test]
fn universe_with_a_bad_word_is_refused() {
    let ws = vec!["apron".to_string(), "Drain".to_string(), "x".to_string()];
    match Solver::new(ws, vec![1, 2, 3]) {
        Err(LoadDataErr::NonWordleWord(w)) => assert_eq!(w, "Drain"),
        _ => panic!("expected a refusal"),
    }
}

#[test]
fn permitted_and_indexed_words() {
    let s = solver_of(&["apron", "drain", "roman"]);
    assert!(s.is_guess_permitted("drain"));
    assert!(!s.is_guess_permitted("tales"));
    assert!(!s.is_guess_permitted("dra"));
    assert_eq!(s.index_of("roman"), Some(2));
    assert_eq!(s.word_at(1), *b"drain");
    assert_eq!(s.weight_at(1), 999);
}

#[test]
fn bucket_weights_add_up_to_the_remaining_weight() {
    let mut s = solver_of(&["apron", "drain", "roman", "tales", "lemma"]);
    let buckets = s.coloring_weights(b"roman");
    assert_eq!(buckets.len(), NUM_STATES);
    assert_eq!(buckets.iter().sum::<u64>(), s.remaining_weight());
    assert_eq!(s.remaining_weight(), 1000 + 999 + 998 + 997 + 996);
    // "roman" against itself is all correct: code 242
    assert_eq!(buckets[242], 998);
    let apron_code = Colorings::with_guess_answer("roman", "apron").to_code() as usize;
    assert_eq!(buckets[apron_code], 1000);
    assert_eq!(s.make_guess("roman", Colorings::with_guess_answer("roman", "apron")), Ok(()));
    let buckets = s.coloring_weights(b"drain");
    assert_eq!(buckets.iter().sum::<u64>(), 1000);
    assert_eq!(s.remaining_weight(), 1000);
}

#[test]
fn default_table_must_name_universe_words() {
    let s = solver_of(&["apron", "drain", "roman"]);
    let ok = vec!["roman".to_string(), "apron".to_string()];
    match s.compute_default_state_guesses(&ok) {
        Ok(idx) => assert_eq!(idx, vec![2, 0]),
        Err(_) => panic!("table should be accepted"),
    }
    let bad = vec!["roman".to_string(), "tales".to_string()];
    match s.compute_default_state_guesses(&bad) {
        Err(LoadDataErr::NonWordleWord(w)) => assert_eq!(w, "tales"),
        _ => panic!("table should be refused"),
    }
}

#[test]
fn test_guess_iterator() {
    let example_guess = Guess {
        word: [b'a', b'a', b'a', b'a', b'a'],
        coloring: [Excluded, Excluded, Excluded, Excluded, Excluded].into(),
    };

    {
        let guesses = [Some(example_guess.clone()), Some(example_guess.clone()), None, None, None, None];
        let data: Vec<Guess> = iter_guesses(&guesses);
        let expected = [example_guess.clone(), example_guess.clone()];
        assert_eq!(&data[..], &expected[..], "should have exactly two guesses");
    }

    {
        let guesses = [None, Some(example_guess.clone()), Some(example_guess.clone()), None, None, None];
        let count = iter_guesses(&guesses).len();
        assert_eq!(count, 0, "even though there are some guesses, they must be in order, and the first is None therefore there are no guesses, so the count should be 0... got {}", count);
    }
}

#[test]
fn guess_history_in_order() {
    let mut s = solver_of(&["apron", "drain", "roman", "tales"]);
    let c1: Colorings = Colorings::with_guess_answer("tales", "apron");
    let c2: Colorings = Colorings::with_guess_answer("drain", "apron");
    assert_eq!(s.make_guess("tales", c1), Ok(()));
    assert_eq!(s.make_guess("drain", c2), Ok(()));
    let h = s.iter_guesses();
    assert_eq!(h.len(), 2);
    assert_eq!(h[0].coloring, c1);
    assert_eq!(h[1].word, *b"drain");
    let _unused: Coloring = Misplaced;
}

#[test]
fn duplicate_words_count_once() {
    let ws = vec!["apron".to_string(), "drain".to_string(), "apron".to_string(), "drain".to_string(), "roman".to_string()];
    let s = match Solver::new(ws, vec![10, 20, 30, 40, 50]) {
        Ok(s) => s,
        Err(_) => panic!("universe should be valid"),
    };
    assert_eq!(s.num_total_possibilities(), 3);
    assert_eq!(s.num_remaining_possibilities(), 3);
    assert_eq!(s.word_at(0), *b"apron");
    assert_eq!(s.word_at(2), *b"roman");
    assert_eq!(s.weight_at(0), 10);
    assert_eq!(s.weight_at(1), 20);
    assert_eq!(s.weight_at(2), 50);
    assert_eq!(s.remaining_weight(), 80);
}

#[test]
fn cached_table_only_in_the_opening_state() {
    let mut s = solver_of(&["apron", "drain", "roman"]);
    assert!(s.use_cached_table(Some(32), 24));
    assert!(s.use_cached_table(Some(24), 24));
    assert!(!s.use_cached_table(Some(23), 24));
    assert!(!s.use_cached_table(None, 24));
    assert_eq!(s.make_guess("roman", Colorings::with_guess_answer("roman", "apron")), Ok(()));
    assert!(!s.use_cached_table(Some(32), 24));
}
