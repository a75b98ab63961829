use eggs_dee::{decode, encode, encode_char, get_k, CipherState, DecodeError};

#[test]
fn key_index_of_key_alphabet_members() {
    assert_eq!(get_k(' '), Some(0));
    assert_eq!(get_k('5'), Some(5));
    assert_eq!(get_k('q'), Some(11));
    assert_eq!(get_k('a'), Some(21));
    assert_eq!(get_k('?'), Some(42));
}

#[test]
fn key_index_of_outsiders_is_none() {
    assert_eq!(get_k('!'), None);
    assert_eq!(get_k('A'), None);
    assert_eq!(get_k('€'), None);
}

#[test]
fn decode_empty_input_fails() {
    assert_eq!(decode(8, ""), Err(DecodeError::EmptyInput));
}

#[test]
fn decode_invalid_key_fails() {
    assert_eq!(decode(8, "!xyz"), Err(DecodeError::InvalidKey('!')));
}

#[test]
fn decode_without_terminator_fails() {
    assert_eq!(decode(8, "a"), Err(DecodeError::NoSeparators(21)));
}

#[test]
fn decode_overlarge_chunk_fails() {
    // Key 'a' (index 21), data digits [1, 5, 5], terminator offset 15:
    // the chunk compresses to 1 * 64 + 5 * 8 + 5 = 109, past the Character
    // Alphabet's 77 symbols.
    assert_eq!(decode(8, "ashhm"), Err(DecodeError::BadIndex(21)));
}

#[test]
fn encode_unrepresentable_input_is_dropped() {
    assert_eq!(encode(8, "€").len(), 0);
}

#[test]
fn encode_drops_unrepresentable_characters_mid_stream() {
    assert_eq!(encode(8, "5H€llo"), encode(8, "5Hllo"));
    assert_eq!(decode(8, &encode(8, "5H€llo")), Ok("5Hllo".to_string()));
}

#[test]
fn encode_key_establishment_sentinel() {
    let out = encode(8, "5Hello");
    assert!(out.len() > 0);
    assert_eq!(out.chars().next(), Some('5'));
}

#[test]
fn encode_known_output() {
    assert_eq!(encode(8, "5Hello"), "5q7t75y80t00u00u98r");
}

#[test]
fn round_trip_variance_8() {
    let plain = "5Hello";
    assert_eq!(decode(8, &encode(8, plain)), Ok(plain.to_string()));
}

#[test]
fn round_trip_with_punctuation_and_space() {
    let plain = "qThe <quick> fox-99?";
    assert_eq!(decode(8, &encode(8, plain)), Ok(plain.to_string()));
}

#[test]
fn round_trip_smallest_variance() {
    let plain = "5Hi";
    assert_eq!(encode(2, plain), "566556586555586555658");
    assert_eq!(decode(2, &encode(2, plain)), Ok(plain.to_string()));
}

#[test]
fn round_trip_largest_safe_variance() {
    // 2 * 21 <= 43, the Key Alphabet's size, so every terminator digit
    // stays above the data range.
    let plain = "0abc";
    assert_eq!(decode(21, &encode(21, plain)), Ok(plain.to_string()));
}

#[test]
fn round_trip_longer_text() {
    let plain = "zZanzibar TOWER 42";
    assert_eq!(decode(10, &encode(10, plain)), Ok(plain.to_string()));
}

#[test]
fn literal_passthrough_interleaved() {
    // '!' is not a Key Alphabet member: inserted into the cipher text, it
    // must come out verbatim, at the point the decoder has reached.
    let out = encode(8, "5Hello");
    let mut tampered = String::new();
    for (i, c) in out.chars().enumerate() {
        if i == 4 {
            tampered.push('!');
        }
        tampered.push(c);
    }
    assert_eq!(decode(8, &tampered), Ok("5!Hello".to_string()));
}

#[test]
fn streaming_encode_char_matches_batch_encode() {
    let mut state = CipherState::new();
    let mut out = String::new();
    for c in "5Hello".chars() {
        for x in encode_char(8, &mut state, c) {
            out.push(x);
        }
    }
    assert_eq!(out, encode(8, "5Hello"));
}

#[test]
fn encode_char_drops_unrepresentable_and_keeps_state() {
    let mut state = CipherState::new();
    let produced = encode_char(8, &mut state, '€');
    assert_eq!(produced.len(), 0);
    assert_eq!(state.key, None);
    assert_eq!(state.lens.len(), 0);
}

#[test]
fn encode_char_cannot_establish_key_from_non_key_character() {
    // 'H' is representable but not a Key Alphabet member: with no key set
    // it is dropped and no key is established.
    let mut state = CipherState::new();
    let produced = encode_char(8, &mut state, 'H');
    assert_eq!(produced.len(), 0);
    assert_eq!(state.key, None);
}

#[test]
fn encode_char_establishes_key_once() {
    let mut state = CipherState::new();
    let first = encode_char(8, &mut state, '5');
    assert_eq!(state.key, Some(5));
    assert_eq!(first[0], '5');
    let second = encode_char(8, &mut state, 'H');
    assert!(second.len() > 0);
    assert_eq!(state.key, Some(5));
}

#[test]
fn emission_history_records_output_lengths() {
    let mut state = CipherState::new();
    let first = encode_char(8, &mut state, '5');
    assert_eq!(state.lens, vec![first.len()]);
    let second = encode_char(8, &mut state, 'H');
    assert_eq!(state.lens, vec![first.len(), second.len()]);
}

#[test]
fn emission_history_is_bounded_to_fifty() {
    let mut state = CipherState::new();
    encode_char(8, &mut state, '5');
    for _ in 0..80 {
        encode_char(8, &mut state, 'x');
    }
    assert_eq!(state.lens.len(), 50);
}
