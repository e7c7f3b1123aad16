use std::collections::HashMap;
use stegotext::bitio::get_value_vec_from_char_value_mode;
use stegotext::decode::decode;
use stegotext::decode::decode_char_bit_mode;
use stegotext::decode::decode_char_value_mode;
use stegotext::encode::encode;
use stegotext::encode::encode_char_bit_map;
use stegotext::encode::encode_char_value_map;
use stegotext::encode::generate_ngrams;
use stegotext::encode::get_value_vec;
use stegotext::encode::wordify;
use stegotext::encode::wordify_from_char_value_mode;
use stegotext::utils::create_rng_from_seed;
use stegotext::utils::fill_bit_to_char_map;
use stegotext::utils::get_chars_from_value;
use stegotext::utils::get_value_from_chars;
use stegotext::utils::is_skip_word;
use stegotext::utils::make_bit_to_char_map;
use stegotext::utils::make_char_to_bit_map;
use stegotext::utils::make_char_to_value_map;
use stegotext::utils::ValueMode;
use stegotext::utils::COMMON_CHARS;

fn sample(len: usize) -> Vec<u8> {
    let mut state: u32 = 2024;
    let mut bytes = vec![];
    for _ in 0..len {
        state = state.wrapping_mul(1103515245).wrapping_add(12345);
        bytes.push((state >> 16) as u8);
    }
    bytes
}

fn first_alphabet(seed: &str, num_bits: usize) -> HashMap<usize, char> {
    let mut rng = create_rng_from_seed(seed);
    let mut map = make_bit_to_char_map(num_bits);
    fill_bit_to_char_map(&mut rng, &mut map);
    map
}

fn guides_of(payload: &Vec<u8>, seed: &str, num_bits: usize, use_shuffle: bool) -> Vec<String> {
    let mut rng = create_rng_from_seed(seed);
    let mut map = make_bit_to_char_map(num_bits);
    fill_bit_to_char_map(&mut rng, &mut map);
    get_value_vec(&mut map, payload, num_bits, use_shuffle, &mut rng)
}

fn corpus_of(words: &Vec<String>) -> String {
    let mut corpus = words.join(" ");
    corpus.push_str(" end.");
    corpus
}

fn corpus_for(payload: &Vec<u8>, seed: &str, num_bits: usize, use_shuffle: bool) -> String {
    corpus_of(&guides_of(payload, seed, num_bits, use_shuffle))
}

fn letter_outside(map: &HashMap<usize, char>) -> char {
    for c in COMMON_CHARS.iter() {
        if !map.values().any(|v| v == c) {
            return *c;
        }
    }
    unreachable!()
}

fn well_formed(text: &str) {
    assert!(!text.ends_with(' '));
    assert!(!text.starts_with(' '));
    assert!(!text.contains("  "));
    for c in text.chars() {
        assert!(c == ' ' || c == '.' || c.is_ascii_lowercase());
    }
}

#[test]
fn hello_comes_back_with_three_bits() {
    let payload = "Hello".as_bytes().to_vec();
    let corpus = corpus_for(&payload, "pass1", 3, false);
    let text = encode(&payload, &corpus, "pass1", "char-bit", 2, 0, 0, 3).unwrap();
    well_formed(&text);
    assert_eq!(text.split(' ').count(), 14);
    assert_eq!(decode(&text, "pass1", "char-bit", 3), Ok(payload));
}

#[test]
fn hello_does_not_come_back_with_another_passphrase() {
    let payload = "Hello".as_bytes().to_vec();
    let corpus = corpus_for(&payload, "pass1", 3, false);
    let text = encode(&payload, &corpus, "pass1", "char-bit", 2, 0, 0, 3).unwrap();
    assert_ne!(decode(&text, "pass2", "char-bit", 3), Ok(payload));
}

#[test]
fn bytes_come_back_with_shuffle_and_four_bits() {
    let payload = vec![0x00, 0xff, 0x00, 0xff];
    let seed = "correct horse battery staple";
    let mut words = guides_of(&payload, seed, 4, true);
    words.extend(guides_of(&payload, seed, 4, false));
    let corpus = corpus_of(&words);
    let shuffled = encode(&payload, &corpus, seed, "char-bit-shuffle", 2, 0, 0, 4).unwrap();
    well_formed(&shuffled);
    assert_eq!(shuffled.split(' ').count(), 8);
    assert_eq!(decode(&shuffled, seed, "char-bit-shuffle", 4), Ok(payload.clone()));
    let fixed = encode(&payload, &corpus, seed, "char-bit", 2, 0, 0, 4).unwrap();
    assert_eq!(decode(&fixed, seed, "char-bit", 4), Ok(payload.clone()));
    assert_ne!(shuffled, fixed);
    assert_ne!(decode(&shuffled, seed, "char-bit", 4), Ok(payload));
}

#[test]
fn one_byte_with_one_bit_gives_eight_tokens() {
    let payload = vec![0xab];
    let corpus = corpus_for(&payload, "x", 1, false);
    let text = encode(&payload, &corpus, "x", "char-bit", 2, 0, 0, 1).unwrap();
    let inverse = make_char_to_bit_map(&first_alphabet("x", 1));
    let tokens: Vec<&str> = text.split(' ').collect();
    assert_eq!(tokens.len(), 8);
    let bits: Vec<usize> = tokens
        .iter()
        .map(|t| {
            assert!(!is_skip_word(t, &inverse));
            get_value_from_chars(t, &inverse, &ValueMode::CharBitMap)
        })
        .collect();
    assert_eq!(bits, vec![1, 0, 1, 0, 1, 0, 1, 1]);
    assert_eq!(decode(&text, "x", "char-bit", 1), Ok(payload));
}

#[test]
fn every_byte_comes_back_with_eight_bits() {
    let payload: Vec<u8> = (0..=255).collect();
    let corpus = corpus_for(&payload, "x", 8, false);
    let text = encode(&payload, &corpus, "x", "char-bit", 2, 0, 0, 8).unwrap();
    let inverse = make_char_to_bit_map(&first_alphabet("x", 8));
    let tokens: Vec<&str> = text.split(' ').collect();
    assert_eq!(tokens.len(), 256);
    for (i, token) in tokens.iter().enumerate() {
        assert!(!is_skip_word(token, &inverse));
        assert_eq!(get_value_from_chars(token, &inverse, &ValueMode::CharBitMap), i);
    }
    assert_eq!(decode(&text, "x", "char-bit", 8), Ok(payload));
}

#[test]
fn bytes_come_back_in_value_mode() {
    let payload = vec![0xde, 0xad, 0xbe, 0xef];
    let corpus = "It is a toad. Is it out? An oat, a tea; eat on!";
    let text = encode(&payload, corpus, "k", "char-value", 2, 0, 0, 2).unwrap();
    well_formed(&text);
    assert!(!text.contains('.'));
    assert_eq!(text.split(' ').count(), 16);
    assert_eq!(decode(&text, "k", "char-value", 2), Ok(payload.clone()));
    assert_eq!(decode(&text, "another", "char-value", 2), Ok(payload));
}

#[test]
fn value_mode_tokens_have_the_values_of_the_symbols() {
    let payload = vec![0xde, 0xad, 0xbe, 0xef];
    let corpus = "It is a toad. Is it out? An oat, a tea; eat on!";
    let text = encode(&payload, corpus, "k", "char-value", 3, 0, 0, 2).unwrap();
    let map = make_char_to_value_map(2);
    let values: Vec<usize> = text
        .split(' ')
        .map(|t| get_value_from_chars(t, &map, &ValueMode::CharValueMap(2)))
        .collect();
    assert_eq!(values, vec![3, 1, 3, 2, 2, 2, 3, 1, 2, 3, 3, 2, 3, 2, 3, 3]);
}

#[test]
fn value_mode_names_the_symbol_without_word() {
    let payload = vec![0xde, 0xad, 0xbe, 0xef];
    assert_eq!(
        encode(&payload, "i i i t t a a", "k", "char-value", 2, 0, 0, 2),
        Err("NOT ENOUGH WORDS WITH VALUE 3".to_string())
    );
    assert_eq!(
        encode(&vec![0x1b], "", "k", "char-value", 2, 0, 0, 2),
        Err("NOT ENOUGH WORDS WITH VALUE 0".to_string())
    );
    assert_eq!(
        encode_char_value_map(
            &vec![0xff],
            "k",
            "in it",
            2,
            0,
            0,
            8,
            false,
            ValueMode::CharValueMap(8)
        ),
        Err("NOT ENOUGH WORDS WITH VALUE 255".to_string())
    );
}

#[test]
fn value_mode_needs_no_word_for_an_empty_payload() {
    assert_eq!(
        encode(&vec![], "", "k", "char-value", 2, 0, 0, 2),
        Ok("".to_string())
    );
    assert_eq!(decode("", "k", "char-value", 2), Ok(vec![]));
}

#[test]
fn empty_payload_gives_empty_text() {
    for num_bits in 1..=8 {
        let text = encode(&vec![], "some words here.", "seed", "char-bit", 2, 3, 1, num_bits);
        assert_eq!(text, Ok("".to_string()));
        assert_eq!(decode("", "seed", "char-bit", num_bits), Ok(vec![]));
        assert_eq!(decode("", "seed", "char-bit-shuffle", num_bits), Ok(vec![]));
    }
}

#[test]
fn payloads_come_back_for_every_number_of_bits() {
    for num_bits in 1..=8 {
        for len in [1usize, 2, 3, 5, 8, 13] {
            let payload = sample(len);
            for (selector, use_shuffle) in [("char-bit", false), ("char-bit-shuffle", true)] {
                let corpus = corpus_for(&payload, "seed", num_bits, use_shuffle);
                let text = encode(&payload, &corpus, "seed", selector, 2, 0, 0, num_bits).unwrap();
                well_formed(&text);
                assert_eq!(
                    text.split(' ').count(),
                    (8 * len + num_bits - 1) / num_bits
                );
                assert_eq!(decode(&text, "seed", selector, num_bits), Ok(payload.clone()));
            }
        }
    }
}

#[test]
fn payloads_come_back_with_longer_grams() {
    let payload = sample(12);
    for n in [1usize, 2, 3, 4] {
        let corpus = corpus_for(&payload, "grams", 4, true);
        let text = encode(&payload, &corpus, "grams", "char-bit-shuffle", n, 0, 0, 4).unwrap();
        assert_eq!(decode(&text, "grams", "char-bit-shuffle", 4), Ok(payload.clone()));
    }
}

fn corpus_with_choice(payload: &Vec<u8>, seed: &str, num_bits: usize) -> String {
    let map = first_alphabet(seed, num_bits);
    let filler = letter_outside(&map);
    let mut words = vec![];
    for guide in guides_of(payload, seed, num_bits, false) {
        words.push(guide.clone());
        words.push(format!("{}{}", guide, filler));
        words.push(format!("{}{}", filler, filler));
        words.push(format!("{}{}", filler, guide));
    }
    corpus_of(&words)
}

#[test]
fn skip_words_are_put_and_passed_over() {
    let payload = sample(96);
    let corpus = corpus_with_choice(&payload, "seed", 3);
    let text = encode(&payload, &corpus, "seed", "char-bit", 2, 3, 1, 3).unwrap();
    well_formed(&text);
    let inverse = make_char_to_bit_map(&first_alphabet("seed", 3));
    let tokens: Vec<&str> = text.split(' ').collect();
    let skips = tokens.iter().filter(|t| is_skip_word(t, &inverse)).count();
    assert!(skips > 0);
    assert_eq!(tokens.len() - skips, 256);
    assert_eq!(decode(&text, "seed", "char-bit", 3), Ok(payload));
}

#[test]
fn no_more_skip_words_follow_each_other_than_allowed() {
    let payload = sample(24);
    let corpus = corpus_with_choice(&payload, "seed", 4);
    let inverse = make_char_to_bit_map(&first_alphabet("seed", 4));
    for limit in 0..4usize {
        let text = encode(&payload, &corpus, "seed", "char-bit", 2, limit, 5, 4).unwrap();
        let mut run = 0;
        let mut longest = 0;
        for token in text.split(' ') {
            if is_skip_word(token, &inverse) {
                run += 1;
                longest = longest.max(run);
            } else {
                run = 0;
            }
        }
        assert_eq!(longest, limit);
        assert_eq!(decode(&text, "seed", "char-bit", 4), Ok(payload.clone()));
    }
}

#[test]
fn skip_words_with_shuffle_are_passed_over() {
    let payload = sample(24);
    let seed = "shuffled skips";
    let mut words = guides_of(&payload, seed, 2, true);
    let twice: Vec<String> = words.iter().map(|w| format!("{}{}", w, w)).collect();
    words.extend(twice);
    for c in COMMON_CHARS.iter() {
        words.push(c.to_string());
    }
    let corpus = corpus_of(&words);
    let text = encode(&payload, &corpus, seed, "char-bit-shuffle", 2, 2, 5, 2).unwrap();
    assert!(text.split(' ').count() > 96);
    assert_eq!(decode(&text, seed, "char-bit-shuffle", 2), Ok(payload));
}

#[test]
fn added_skip_word_changes_nothing() {
    let payload = sample(6);
    let corpus = corpus_for(&payload, "seed", 4, false);
    let text = encode(&payload, &corpus, "seed", "char-bit", 2, 0, 0, 4).unwrap();
    let map = first_alphabet("seed", 4);
    let skip = format!("{}{}", letter_outside(&map), letter_outside(&map));
    let tokens: Vec<&str> = text.split(' ').collect();
    for at in 0..=tokens.len() {
        let mut with_skip = tokens.clone();
        with_skip.insert(at, &skip);
        let changed = with_skip.join(" ");
        assert_eq!(decode(&changed, "seed", "char-bit", 4), Ok(payload.clone()));
        let mut with_more = with_skip.clone();
        with_more.insert(at, ".");
        with_more.insert(at, "");
        let changed = with_more.join(" ");
        assert_eq!(decode(&changed, "seed", "char-bit", 4), Ok(payload.clone()));
    }
}

#[test]
fn added_skip_word_may_spoil_a_short_last_symbol() {
    let payload = vec![0b10110111];
    let corpus = corpus_for(&payload, "seed", 3, false);
    let text = encode(&payload, &corpus, "seed", "char-bit", 2, 0, 0, 3).unwrap();
    assert_eq!(decode(&text, "seed", "char-bit", 3), Ok(payload.clone()));
    let longer = format!("{} . . .", text);
    assert_eq!(decode(&longer, "seed", "char-bit", 3), Ok(vec![0b10110101]));
}

#[test]
fn encoding_twice_gives_the_same_text() {
    let payload = sample(40);
    let corpus = corpus_with_choice(&payload, "again", 4);
    let first = encode(&payload, &corpus, "again", "char-bit-shuffle", 3, 2, 1, 4);
    let second = encode(&payload, &corpus, "again", "char-bit-shuffle", 3, 2, 1, 4);
    assert!(first.is_ok());
    assert_eq!(first, second);
    let text = first.unwrap();
    assert_eq!(
        decode(&text, "again", "char-bit-shuffle", 4),
        decode(&text, "again", "char-bit-shuffle", 4)
    );
}

#[test]
fn missing_word_is_written_as_its_guide() {
    let payload = vec![0x1b];
    let guides = guides_of(&payload, "seed", 2, false);
    let text = encode(&payload, "", "seed", "char-bit", 2, 0, 0, 2).unwrap();
    assert_eq!(text, guides.join(" "));
    assert_eq!(decode(&text, "seed", "char-bit", 2), Ok(payload));
}

#[test]
fn bits_outside_one_to_eight_are_refused() {
    let payload = vec![1, 2, 3];
    assert_eq!(
        encode(&payload, "a b", "s", "char-bit", 2, 0, 0, 0),
        Err("Bits must be between 1 and 8 inclusively, you provided 0".to_string())
    );
    assert_eq!(
        encode(&payload, "a b", "s", "char-bit", 2, 0, 0, 9),
        Err("Bits must be between 1 and 8 inclusively, you provided 9".to_string())
    );
    assert_eq!(
        decode("a b", "s", "char-bit", 0),
        Err("Bits must be between 1 and 8 inclusively, you provided 0".to_string())
    );
    assert_eq!(
        decode("a b", "s", "char-value", 12),
        Err("Bits must be between 1 and 8 inclusively, you provided 12".to_string())
    );
}

#[test]
fn bits_are_looked_at_before_the_selector() {
    assert_eq!(
        decode("a b", "s", "nonsense", 0),
        Err("Bits must be between 1 and 8 inclusively, you provided 0".to_string())
    );
    assert_eq!(
        encode(&vec![], "a b", "s", "nonsense", 2, 0, 0, 99),
        Err("Bits must be between 1 and 8 inclusively, you provided 99".to_string())
    );
}

#[test]
fn unknown_selector_is_refused() {
    assert_eq!(
        encode(&vec![1], "a b", "s", "char-value-shuffle", 2, 0, 0, 3),
        Err("Could not determine algorithm: char-value-shuffle".to_string())
    );
    assert_eq!(
        decode("a b", "s", "Char-Bit", 3),
        Err("Could not determine algorithm: Char-Bit".to_string())
    );
}

#[test]
fn guide_strings_follow_the_alphabet_of_their_turn() {
    let payload = sample(9);
    for use_shuffle in [false, true] {
        let guides = guides_of(&payload, "turn", 3, use_shuffle);
        let symbols = get_value_vec_from_char_value_mode(&payload, 3);
        assert_eq!(guides.len(), symbols.len());
        let mut rng = create_rng_from_seed("turn");
        let mut map = make_bit_to_char_map(3);
        fill_bit_to_char_map(&mut rng, &mut map);
        for (guide, symbol) in guides.iter().zip(symbols.iter()) {
            assert_eq!(guide, &get_chars_from_value(*symbol, &map, &vec![4, 2, 1, 0]));
            if use_shuffle {
                fill_bit_to_char_map(&mut rng, &mut map);
            }
        }
    }
}

#[test]
fn guide_strings_leave_map_and_generator_where_the_draws_end() {
    let payload = sample(3);
    let mut rng = create_rng_from_seed("end");
    let mut map = make_bit_to_char_map(8);
    let guides = get_value_vec(&mut map, &payload, 8, true, &mut rng);
    assert_eq!(guides.len(), 3);
    let mut twin_rng = create_rng_from_seed("end");
    let mut twin = make_bit_to_char_map(8);
    for _ in 0..3 {
        fill_bit_to_char_map(&mut twin_rng, &mut twin);
    }
    assert_eq!(map, twin);
    fill_bit_to_char_map(&mut rng, &mut map);
    fill_bit_to_char_map(&mut twin_rng, &mut twin);
    assert_eq!(map, twin);
}

#[test]
fn encoder_draws_the_alphabet_once_for_each_symbol() {
    let payload = sample(5);
    let corpus = corpus_for(&payload, "lockstep", 4, true);
    let cleaned = stegotext::utils::format_text_for_ngrams(&corpus);
    let (index, unique, total) = generate_ngrams(&cleaned, 2);
    let symbols = get_value_vec_from_char_value_mode(&payload, 4);
    let mut rng = create_rng_from_seed("lockstep");
    let mut picks = create_rng_from_seed("lockstep");
    let mut map = make_bit_to_char_map(4);
    fill_bit_to_char_map(&mut rng, &mut map);
    let text = wordify(
        &index, 2, &symbols, &mut rng, &mut picks, &mut map, &unique, total, 0, 0, true,
    )
    .unwrap();
    assert_eq!(text.split(' ').count(), 10);
    let mut twin_rng = create_rng_from_seed("lockstep");
    let mut twin = make_bit_to_char_map(4);
    fill_bit_to_char_map(&mut twin_rng, &mut twin);
    for (token, symbol) in text.split(' ').zip(symbols.iter()) {
        let inverse = make_char_to_bit_map(&twin);
        assert!(!is_skip_word(token, &inverse));
        assert_eq!(
            get_value_from_chars(token, &inverse, &ValueMode::CharBitMap),
            *symbol as usize
        );
        fill_bit_to_char_map(&mut twin_rng, &mut twin);
    }
    assert_eq!(map, twin);
    fill_bit_to_char_map(&mut twin_rng, &mut twin);
    fill_bit_to_char_map(&mut rng, &mut map);
    assert_eq!(map, twin);
}

#[test]
fn missing_word_with_shuffle_leaves_the_alphabet() {
    let symbols = vec![5u8, 3];
    let (index, unique, total) = generate_ngrams(&".".to_string(), 2);
    let mut rng = create_rng_from_seed("stay");
    let mut picks = create_rng_from_seed("stay");
    let mut map = first_alphabet("stay", 3);
    let before = map.clone();
    let text = wordify(
        &index, 2, &symbols, &mut rng, &mut picks, &mut map, &unique, total, 0, 0, true,
    )
    .unwrap();
    assert_eq!(map, before);
    let guide = |value: u8| get_chars_from_value(value, &before, &vec![4, 2, 1, 0]);
    assert_eq!(text, format!("{} {}", guide(5), guide(3)));
}

#[test]
fn encoder_without_shuffle_leaves_the_alphabet() {
    let payload = sample(5);
    let corpus = corpus_for(&payload, "still", 4, false);
    let cleaned = stegotext::utils::format_text_for_ngrams(&corpus);
    let (index, unique, total) = generate_ngrams(&cleaned, 2);
    let symbols = get_value_vec_from_char_value_mode(&payload, 4);
    let mut rng = create_rng_from_seed("still");
    let mut picks = create_rng_from_seed("still");
    let mut map = first_alphabet("still", 4);
    let before = map.clone();
    let text = wordify(
        &index, 2, &symbols, &mut rng, &mut picks, &mut map, &unique, total, 0, 0, false,
    );
    assert!(text.is_ok());
    assert_eq!(map, before);
    let mut twin = make_bit_to_char_map(4);
    fill_bit_to_char_map(&mut rng, &mut twin);
    assert_eq!(twin, before);
}

#[test]
fn bit_mode_functions_agree_with_the_entry_points() {
    let payload = sample(7);
    let corpus = corpus_for(&payload, "entry", 5, true);
    let direct = encode_char_bit_map(&payload, "entry", &corpus, 2, 0, 0, 5, true).unwrap();
    let entry = encode(&payload, &corpus, "entry", "char-bit-shuffle", 2, 0, 0, 5).unwrap();
    assert_eq!(direct, entry);
    assert_eq!(
        decode_char_bit_mode(&direct, "entry", 5, true, ValueMode::CharBitMap),
        Ok(payload.clone())
    );
    assert_eq!(decode(&direct, "entry", "char-bit-shuffle", 5), Ok(payload));
}

#[test]
fn value_mode_functions_agree_with_the_entry_points() {
    let payload = vec![0xde, 0xad];
    let corpus = "It is a toad. Is it out? An oat, a tea; eat on!";
    let direct = encode_char_value_map(
        &payload,
        "k",
        corpus,
        2,
        0,
        0,
        2,
        false,
        ValueMode::CharValueMap(2),
    )
    .unwrap();
    let entry = encode(&payload, corpus, "k", "char-value", 2, 0, 0, 2).unwrap();
    assert_eq!(direct, entry);
    assert_eq!(
        decode_char_value_mode(&direct, "k", 2, false, ValueMode::CharValueMap(2)),
        Ok(payload.clone())
    );
    assert_eq!(
        decode_char_value_mode(&direct, "other", 2, true, ValueMode::CharValueMap(2)),
        Ok(payload)
    );
}

#[test]
fn value_mode_takes_the_only_word_or_the_likeliest() {
    let text = ". in tin . in tin . in ant . it";
    let (index, unique, total) = generate_ngrams(&text.to_string(), 2);
    let map = make_char_to_value_map(3);
    let mode = ValueMode::CharValueMap(3);
    assert_eq!(get_value_from_chars("in", &map, &mode), 5);
    assert_eq!(get_value_from_chars("tin", &map, &mode), 6);
    assert_eq!(get_value_from_chars("ant", &map, &mode), 0);
    assert_eq!(get_value_from_chars("it", &map, &mode), 1);
    let mut picks = create_rng_from_seed("k");
    let hidden = wordify_from_char_value_mode(
        &index,
        &map,
        2,
        &vec![5, 6, 5, 0, 1],
        3,
        &unique,
        total,
        false,
        mode,
        &mut picks,
    );
    assert_eq!(hidden, Ok("in tin in ant it".to_string()));
}

#[test]
fn decoder_takes_every_token_in_value_mode() {
    let bytes = decode("it . it", "k", "char-value", 4).unwrap();
    assert_eq!(bytes, vec![0x10]);
    let bytes = decode("it  it", "k", "char-value", 4).unwrap();
    assert_eq!(bytes, vec![0x10]);
    let bytes = decode("it it", "k", "char-value", 4).unwrap();
    assert_eq!(bytes, vec![0x11]);
}

#[test]
fn decoder_of_foreign_text_gives_whole_bytes() {
    let text = "the quick brown fox jumps over the lazy dog and runs away";
    for num_bits in 1..=8usize {
        for selector in ["char-bit", "char-bit-shuffle", "char-value"] {
            let bytes = decode(text, "seed", selector, num_bits).unwrap();
            assert!(bytes.len() <= 12 * num_bits / 8);
        }
    }
}

const TALE: &str = "It was the best of times, it was the worst of times, it was the age of \
wisdom, it was the age of foolishness, it was the epoch of belief, it was the epoch of \
incredulity, it was the season of Light, it was the season of Darkness, it was the spring of \
hope, it was the winter of despair, we had everything before us, we had nothing before us, we \
were all going direct to Heaven, we were all going direct the other way - in short, the period \
was so far like the present period, that some of its noisiest authorities insisted on its being \
received, for good or for evil, in the superlative degree of comparison only.";

#[test]
fn hello_comes_back_from_a_tale() {
    let payload = "Hello".as_bytes().to_vec();
    for num_bits in 1..=8 {
        for n in 1..=3 {
            let text = encode(&payload, TALE, "pass1", "char-bit", n, 0, 0, num_bits).unwrap();
            well_formed(&text);
            assert_eq!(decode(&text, "pass1", "char-bit", num_bits), Ok(payload.clone()));
        }
    }
}

#[test]
fn words_of_a_tale_are_taken_where_they_fit() {
    let payload = "Hello".as_bytes().to_vec();
    let text = encode(&payload, TALE, "pass1", "char-bit", 2, 0, 0, 1).unwrap();
    let inverse = make_char_to_bit_map(&first_alphabet("pass1", 1));
    let cleaned = stegotext::utils::format_text_for_ngrams(&TALE.to_lowercase());
    let (_, unique, _) = generate_ngrams(&cleaned, 2);
    let symbols = get_value_vec_from_char_value_mode(&payload, 1);
    let mut taken = 0;
    for (token, symbol) in text.split(' ').zip(symbols.iter()) {
        assert_eq!(
            get_value_from_chars(token, &inverse, &ValueMode::CharBitMap),
            *symbol as usize
        );
        if unique.contains(&token.to_string()) {
            taken += 1;
        }
    }
    assert!(taken > 0);
}

#[test]
fn a_kilobyte_comes_back_past_skip_words() {
    let payload = sample(1024);
    let corpus = corpus_with_choice(&payload, "seed", 4);
    let text = encode(&payload, &corpus, "seed", "char-bit", 2, 3, 1, 4).unwrap();
    let inverse = make_char_to_bit_map(&first_alphabet("seed", 4));
    let tokens: Vec<&str> = text.split(' ').collect();
    let skips = tokens.iter().filter(|t| is_skip_word(t, &inverse)).count();
    assert!(skips > 0);
    assert_eq!(tokens.len() - skips, 2048);
    assert_eq!(decode(&text, "seed", "char-bit", 4), Ok(payload));
}
