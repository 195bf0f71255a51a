use wordle_solver::data::{try_read_allowed_words, CompressedWord, LoadDataErr, COMPRESSED_SIZE};

#[test]
fn packed_words_round_trip() {
    for w in ["aaaaa", "apron", "zzzzz", "legal", "qujxz"] {
        assert_eq!(CompressedWord::new(w).to_string(), w);
    }
}

#[test]
fn packed_bytes_are_little_endian_base_26() {
    assert_eq!(CompressedWord::new("aaaaa").as_bytes(), [0, 0, 0]);
    assert_eq!(CompressedWord::new("baaaa").as_bytes(), [1, 0, 0]);
    assert_eq!(CompressedWord::new("abaaa").as_bytes(), [26, 0, 0]);
    // 26^5 - 1 = 11881375 = 0xB54B9F
    assert_eq!(CompressedWord::new("zzzzz").as_bytes(), [0x9f, 0x4b, 0xb5]);
    assert_eq!(COMPRESSED_SIZE, 3);
}

#[test]
fn packed_list_decodes_in_order() {
    let mut bytes = Vec::new();
    for w in ["apron", "drain", "roman"] {
        bytes.extend_from_slice(&CompressedWord::new(w).as_bytes());
    }
    match try_read_allowed_words(Some(&bytes)) {
        Ok(ws) => assert_eq!(ws, vec!["apron", "drain", "roman"]),
        Err(_) => panic!("list should decode"),
    }
    match try_read_allowed_words(Some(&[])) {
        Ok(ws) => assert!(ws.is_empty()),
        Err(_) => panic!("empty list should decode"),
    }
}

#[test]
fn missing_list_is_an_error() {
    assert!(matches!(try_read_allowed_words(None), Err(LoadDataErr::MissingAllowedWordsFile)));
}

#[test]
fn words_follow_frequency_order_then_the_rest() {
    let allowed: Vec<String> = ["drain", "apron", "zzzzz", "Bad", "roman"].iter().map(|s| s.to_string()).collect();
    let by_frequency: Vec<String> = ["roman", "apron", "qqqqq", "drain", "x"].iter().map(|s| s.to_string()).collect();
    let got = wordle_solver::data::ordered_words(&allowed, &by_frequency);
    assert_eq!(got, vec!["roman", "apron", "drain", "zzzzz"]);
    let none: Vec<String> = Vec::new();
    assert_eq!(wordle_solver::data::ordered_words(&allowed, &none), vec!["drain", "apron", "zzzzz", "roman"]);
    assert!(wordle_solver::data::ordered_words(&none, &by_frequency).is_empty());
}
