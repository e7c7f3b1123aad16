use rand::rngs::StdRng;
use rand::Rng;
use rand::SeedableRng;
use sha2::Digest;
use sha2::Sha256;
use std::collections::HashMap;
use stegotext::charmap::CharMap;
use stegotext::utils::clean_lowered;
use stegotext::utils::create_rng_from_seed;
use stegotext::utils::fill_bit_to_char_map;
use stegotext::utils::format_text_for_ngrams;
use stegotext::utils::get_algorithm_from_string;
use stegotext::utils::get_chars_from_value;
use stegotext::utils::get_max_value;
use stegotext::utils::get_value_from_chars;
use stegotext::utils::is_skip_word;
use stegotext::utils::make_bit_to_char_map;
use stegotext::utils::make_char_to_bit_map;
use stegotext::utils::make_char_to_value_map;
use stegotext::utils::refuse_bits;
use stegotext::utils::Algorithm;
use stegotext::utils::ValueMode;
use stegotext::utils::COMMON_CHARS;

fn keys_of(num_bits: usize) -> Vec<usize> {
    let mut keys = vec![0];
    for i in 0..num_bits {
        keys.push(1 << i);
    }
    keys
}

fn sorted_keys(map: &HashMap<usize, char>) -> Vec<usize> {
    let mut keys: Vec<usize> = map.keys().cloned().collect();
    keys.sort();
    keys
}

#[test]
fn selectors_name_their_algorithms() {
    assert_eq!(
        get_algorithm_from_string("char-bit", 3),
        Ok(Algorithm::NoShuffle(ValueMode::CharBitMap))
    );
    assert_eq!(
        get_algorithm_from_string("char-bit-shuffle", 3),
        Ok(Algorithm::Shuffle(ValueMode::CharBitMap))
    );
    assert_eq!(
        get_algorithm_from_string("char-value", 5),
        Ok(Algorithm::NoShuffle(ValueMode::CharValueMap(5)))
    );
}

#[test]
fn unknown_selector_is_refused_with_its_name() {
    assert_eq!(
        get_algorithm_from_string("char-value-shuffle", 3),
        Err("Could not determine algorithm: char-value-shuffle".to_string())
    );
    assert_eq!(
        get_algorithm_from_string("", 3),
        Err("Could not determine algorithm: ".to_string())
    );
}

#[test]
fn bits_refusal_names_the_number() {
    assert_eq!(
        refuse_bits(0),
        "Bits must be between 1 and 8 inclusively, you provided 0"
    );
    assert_eq!(
        refuse_bits(9),
        "Bits must be between 1 and 8 inclusively, you provided 9"
    );
    assert_eq!(
        refuse_bits(1234567890),
        "Bits must be between 1 and 8 inclusively, you provided 1234567890"
    );
}

#[test]
fn max_value_is_a_power_of_two_less_one() {
    assert_eq!(get_max_value(0), 0);
    assert_eq!(get_max_value(1), 1);
    assert_eq!(get_max_value(3), 7);
    assert_eq!(get_max_value(8), 255);
    assert_eq!(get_max_value(16), 65535);
}

#[test]
fn initial_bit_map_takes_the_most_frequent_letters() {
    let map = make_bit_to_char_map(3);
    assert_eq!(map.len(), 4);
    assert_eq!(map.get(&0), Some(&'i'));
    assert_eq!(map.get(&1), Some(&'t'));
    assert_eq!(map.get(&2), Some(&'a'));
    assert_eq!(map.get(&4), Some(&'o'));
}

#[test]
fn bit_map_has_one_key_more_than_bits() {
    for num_bits in 1..=8 {
        let map = make_bit_to_char_map(num_bits);
        assert_eq!(map.len(), num_bits + 1);
        assert_eq!(sorted_keys(&map), keys_of(num_bits));
        for (i, key) in keys_of(num_bits).iter().enumerate() {
            assert_eq!(map.get(key), Some(&COMMON_CHARS[i]));
        }
    }
}

#[test]
fn bit_map_for_no_bits_holds_the_zero_key() {
    let map = make_bit_to_char_map(0);
    assert_eq!(map.len(), 1);
    assert_eq!(map.get(&0), Some(&'i'));
}

#[test]
fn bit_map_for_twenty_five_bits_uses_the_whole_alphabet() {
    let map = make_bit_to_char_map(25);
    assert_eq!(map.len(), 26);
    assert_eq!(map.get(&(1 << 24)), Some(&'z'));
}

#[test]
fn value_map_pairs_frequent_and_rare_letters() {
    let map = make_char_to_value_map(2);
    assert_eq!(map.get('i'), Some(0));
    assert_eq!(map.get('z'), Some(0));
    assert_eq!(map.get('t'), Some(1));
    assert_eq!(map.get('q'), Some(1));
    assert_eq!(map.get('a'), Some(2));
    assert_eq!(map.get('x'), Some(2));
    assert_eq!(map.get('o'), Some(3));
    assert_eq!(map.get('j'), Some(3));
    assert_eq!(map.get('e'), Some(0));
    assert_eq!(map.get('k'), Some(0));
    assert_eq!(map.get('u'), Some(0));
    assert_eq!(map.get('m'), Some(0));
    assert_eq!(map.get('.'), None);
}

#[test]
fn value_map_covers_every_letter() {
    for exponent in 1..=8 {
        let map = make_char_to_value_map(exponent);
        let keys = map.keys();
        assert_eq!(keys.len(), 26);
        for i in 0..26 {
            let nearer = if i < 13 { i } else { 25 - i };
            assert_eq!(map.get(COMMON_CHARS[i]), Some(nearer % (1 << exponent)));
        }
    }
}

#[test]
fn value_map_for_three_bits_counts_to_seven() {
    let map = make_char_to_value_map(3);
    assert_eq!(map.get('h'), Some(7));
    assert_eq!(map.get('r'), Some(0));
    assert_eq!(map.get('d'), Some(1));
    assert_eq!(map.get('p'), Some(7));
    assert_eq!(map.get('y'), Some(0));
}

#[test]
fn generator_is_seeded_with_the_digest_of_the_passphrase() {
    let mut expected = [0u8; 32];
    expected.copy_from_slice(Sha256::digest("pass1".as_bytes()).as_slice());
    assert_ne!(&expected[..5], "pass1".as_bytes());
    let mut reference = StdRng::from_seed(expected);
    let mut pool: Vec<char> = COMMON_CHARS.to_vec();
    let mut drawn = vec![];
    for _ in 0..4 {
        let at = reference.gen_range(0u64, pool.len() as u64) as usize;
        drawn.push(pool.remove(at));
    }
    let mut rng = create_rng_from_seed("pass1");
    let mut map = make_bit_to_char_map(3);
    fill_bit_to_char_map(&mut rng, &mut map);
    let filled: Vec<char> = keys_of(3).iter().map(|k| map[k]).collect();
    assert_eq!(filled, drawn);
}

#[test]
fn digest_of_known_text_seeds_known_draws() {
    let digest = Sha256::digest("abc".as_bytes());
    assert_eq!(
        digest.as_slice()[..4],
        [0xba, 0x78, 0x16, 0xbf]
    );
    let mut seed = [0u8; 32];
    seed.copy_from_slice(digest.as_slice());
    let mut reference = StdRng::from_seed(seed);
    let first = reference.gen_range(0u64, 26u64) as usize;
    let mut rng = create_rng_from_seed("abc");
    let mut map = make_bit_to_char_map(0);
    fill_bit_to_char_map(&mut rng, &mut map);
    assert_eq!(map[&0], COMMON_CHARS[first]);
}

#[test]
fn same_passphrase_gives_same_alphabets() {
    let mut first = create_rng_from_seed("correct horse battery staple");
    let mut second = create_rng_from_seed("correct horse battery staple");
    let mut a = make_bit_to_char_map(8);
    let mut b = make_bit_to_char_map(8);
    for _ in 0..20 {
        fill_bit_to_char_map(&mut first, &mut a);
        fill_bit_to_char_map(&mut second, &mut b);
        assert_eq!(a, b);
    }
}

#[test]
fn different_passphrases_give_different_alphabets() {
    let mut first = create_rng_from_seed("x");
    let mut second = create_rng_from_seed("y");
    let mut a = make_bit_to_char_map(8);
    let mut b = make_bit_to_char_map(8);
    let mut differ = false;
    for _ in 0..5 {
        fill_bit_to_char_map(&mut first, &mut a);
        fill_bit_to_char_map(&mut second, &mut b);
        differ = differ || a != b;
    }
    assert!(differ);
}

#[test]
fn draw_keeps_keys_and_gives_distinct_letters() {
    for num_bits in 1..=8 {
        let mut rng = create_rng_from_seed("seed");
        let mut map = make_bit_to_char_map(num_bits);
        for _ in 0..10 {
            fill_bit_to_char_map(&mut rng, &mut map);
            assert_eq!(map.len(), num_bits + 1);
            assert_eq!(sorted_keys(&map), keys_of(num_bits));
            let mut letters: Vec<char> = map.values().cloned().collect();
            letters.sort();
            letters.dedup();
            assert_eq!(letters.len(), num_bits + 1);
            for c in letters {
                assert!(COMMON_CHARS.contains(&c));
            }
        }
    }
}

#[test]
fn draw_changes_the_alphabet() {
    let mut rng = create_rng_from_seed("seed");
    let mut map = make_bit_to_char_map(8);
    let before = map.clone();
    fill_bit_to_char_map(&mut rng, &mut map);
    let first = map.clone();
    fill_bit_to_char_map(&mut rng, &mut map);
    assert_ne!(before, first);
    assert_ne!(first, map);
}

#[test]
fn draw_fills_a_map_of_twenty_six_keys() {
    let mut rng = create_rng_from_seed("seed");
    let mut map = make_bit_to_char_map(25);
    fill_bit_to_char_map(&mut rng, &mut map);
    let mut letters: Vec<char> = map.values().cloned().collect();
    letters.sort();
    let mut all = COMMON_CHARS.to_vec();
    all.sort();
    assert_eq!(letters, all);
}

#[test]
fn draw_goes_through_the_keys_in_ascending_order() {
    let mut rng = create_rng_from_seed("order");
    let mut map: HashMap<usize, char> = HashMap::new();
    map.insert(900, 'a');
    map.insert(7, 'a');
    map.insert(50, 'a');
    fill_bit_to_char_map(&mut rng, &mut map);
    let mut reference = create_rng_from_seed("order");
    let mut twin = make_bit_to_char_map(2);
    fill_bit_to_char_map(&mut reference, &mut twin);
    assert_eq!(map[&7], twin[&0]);
    assert_eq!(map[&50], twin[&1]);
    assert_eq!(map[&900], twin[&2]);
}

#[test]
fn inverse_map_leads_back_to_the_keys() {
    for num_bits in 1..=8 {
        let mut rng = create_rng_from_seed("inverse");
        let mut map = make_bit_to_char_map(num_bits);
        for _ in 0..5 {
            fill_bit_to_char_map(&mut rng, &mut map);
            let inverse = make_char_to_bit_map(&map);
            assert_eq!(inverse.keys().len(), num_bits + 1);
            for (key, c) in map.iter() {
                assert_eq!(inverse.get(*c), Some(*key));
            }
            for c in inverse.keys() {
                assert_eq!(map[&inverse.get(c).unwrap()], c);
            }
        }
    }
}

#[test]
fn inverse_of_shared_character_keeps_the_larger_key() {
    let mut map: HashMap<usize, char> = HashMap::new();
    map.insert(1, 'a');
    map.insert(8, 'a');
    map.insert(2, 'b');
    let inverse = make_char_to_bit_map(&map);
    assert_eq!(inverse.get('a'), Some(8));
    assert_eq!(inverse.get('b'), Some(2));
    assert_eq!(inverse.keys().len(), 2);
}

#[test]
fn char_map_keeps_the_last_entry() {
    let mut map = CharMap::new();
    assert_eq!(map.get('a'), None);
    assert!(!map.contains_key('a'));
    map.insert('a', 1);
    map.insert('b', 2);
    map.insert('a', 3);
    assert_eq!(map.get('a'), Some(3));
    assert_eq!(map.get('b'), Some(2));
    assert!(map.contains_key('b'));
    assert_eq!(map.keys(), vec!['a', 'b']);
}

#[test]
fn skip_word_holds_no_character_of_the_map() {
    let inverse = make_char_to_bit_map(&make_bit_to_char_map(3));
    assert!(is_skip_word("much", &inverse));
    assert!(is_skip_word("", &inverse));
    assert!(is_skip_word(".", &inverse));
    assert!(!is_skip_word("cat", &inverse));
    assert!(!is_skip_word("muchi", &inverse));
    assert!(!is_skip_word("in", &inverse));
}

#[test]
fn every_word_is_a_skip_word_for_the_empty_map() {
    let map = CharMap::new();
    assert!(is_skip_word("anything", &map));
}

#[test]
fn guide_string_adds_up_to_the_value() {
    let map = make_bit_to_char_map(3);
    let keys = vec![4, 2, 1, 0];
    assert_eq!(get_chars_from_value(0, &map, &keys), "i");
    assert_eq!(get_chars_from_value(1, &map, &keys), "t");
    assert_eq!(get_chars_from_value(2, &map, &keys), "a");
    assert_eq!(get_chars_from_value(3, &map, &keys), "at");
    assert_eq!(get_chars_from_value(4, &map, &keys), "o");
    assert_eq!(get_chars_from_value(5, &map, &keys), "ot");
    assert_eq!(get_chars_from_value(6, &map, &keys), "oa");
    assert_eq!(get_chars_from_value(7, &map, &keys), "oat");
}

#[test]
fn guide_string_of_too_large_a_value_takes_every_bit() {
    let map = make_bit_to_char_map(3);
    let keys = vec![4, 2, 1, 0];
    assert_eq!(get_chars_from_value(9, &map, &keys), "oati");
}

#[test]
fn guide_string_without_keys_is_empty() {
    let map = make_bit_to_char_map(3);
    assert_eq!(get_chars_from_value(5, &map, &vec![]), "");
}

#[test]
fn guide_string_compares_keys_as_numbers() {
    let mut map: HashMap<usize, char> = HashMap::new();
    map.insert(256, 'a');
    map.insert(1, 'b');
    assert_eq!(get_chars_from_value(1, &map, &vec![256, 1]), "b");
    assert_eq!(get_chars_from_value(0, &map, &vec![256, 1]), "");
}

#[test]
fn guide_string_has_the_value_it_was_made_for() {
    for num_bits in 1..=8usize {
        let mut rng = create_rng_from_seed("guide");
        let mut map = make_bit_to_char_map(num_bits);
        fill_bit_to_char_map(&mut rng, &mut map);
        let inverse = make_char_to_bit_map(&map);
        let mut keys = sorted_keys(&map);
        keys.reverse();
        for value in 0..(1usize << num_bits) {
            let guide = get_chars_from_value(value as u8, &map, &keys);
            assert!(!guide.is_empty());
            assert_eq!(
                get_value_from_chars(&guide, &inverse, &ValueMode::CharBitMap),
                value
            );
        }
    }
}

#[test]
fn bit_value_counts_each_character_once() {
    let inverse = make_char_to_bit_map(&make_bit_to_char_map(3));
    assert_eq!(get_value_from_chars("toot", &inverse, &ValueMode::CharBitMap), 5);
    assert_eq!(get_value_from_chars("", &inverse, &ValueMode::CharBitMap), 0);
    assert_eq!(get_value_from_chars("i", &inverse, &ValueMode::CharBitMap), 0);
    assert_eq!(get_value_from_chars("much", &inverse, &ValueMode::CharBitMap), 0);
    assert_eq!(get_value_from_chars("potato", &inverse, &ValueMode::CharBitMap), 7);
    assert_eq!(get_value_from_chars("aaaa", &inverse, &ValueMode::CharBitMap), 2);
}

#[test]
fn char_value_counts_every_character() {
    let map = make_char_to_value_map(2);
    let mode = ValueMode::CharValueMap(2);
    assert_eq!(get_value_from_chars("tat", &map, &mode), 0);
    assert_eq!(get_value_from_chars("t", &map, &mode), 1);
    assert_eq!(get_value_from_chars("tt", &map, &mode), 2);
    assert_eq!(get_value_from_chars("ttt", &map, &mode), 3);
    assert_eq!(get_value_from_chars("tttt", &map, &mode), 0);
    assert_eq!(get_value_from_chars("t.t", &map, &mode), 2);
    assert_eq!(get_value_from_chars("", &map, &mode), 0);
}

#[test]
fn char_value_is_reduced_by_the_modes_exponent() {
    let map = make_char_to_value_map(3);
    assert_eq!(
        get_value_from_chars("hhh", &map, &ValueMode::CharValueMap(3)),
        5
    );
    assert_eq!(
        get_value_from_chars("hhh", &map, &ValueMode::CharValueMap(2)),
        1
    );
    assert_eq!(
        get_value_from_chars("hhh", &map, &ValueMode::CharValueMap(0)),
        0
    );
    assert_eq!(
        get_value_from_chars("hhh", &map, &ValueMode::CharValueMap(10)),
        21
    );
}

#[test]
fn char_value_with_large_numbers_does_not_overflow() {
    let mut map = CharMap::new();
    map.insert('a', usize::MAX);
    map.insert('b', usize::MAX - 1);
    let mode = ValueMode::CharValueMap(4);
    assert_eq!(get_value_from_chars("a", &map, &mode), 15);
    assert_eq!(get_value_from_chars("ab", &map, &mode), (15 + 14) % 16);
    assert_eq!(get_value_from_chars("aab", &map, &mode), (15 + 15 + 14) % 16);
}

fn cleaned_by_std(text: &str) -> String {
    let lower = text.to_lowercase();
    let mut s = lower.replace("\n", " \n ");
    s = s.replace("\r", "");
    s = s.replace("\"", "");
    s = s.replace("'", "");
    s = s.replace("-", " ");
    s = s.replace(",", " , ");
    s = s.replace("!", " ! ");
    s = s.replace("?", " ? ");
    s = s.replace(";", " ; ");
    s = s.replace(":", " : ");
    s = s.replace(".", " . ");
    if lower.ends_with('.') && s.ends_with(' ') {
        s.pop();
    }
    [". ", &s].join("")
}

fn words(text: &str) -> Vec<String> {
    text.split_whitespace().map(|w| w.to_string()).collect()
}

#[test]
fn cleaned_text_sets_punctuation_apart() {
    assert_eq!(
        format_text_for_ngrams("Hello, world. It's a test-case!\nNew line."),
        ". hello ,  world .  its a test case !  \n new line ."
    );
    assert_eq!(
        words(&format_text_for_ngrams("Hello, world. It's a test-case!\nNew line.")),
        vec![".", "hello", ",", "world", ".", "its", "a", "test", "case", "!", "new", "line", "."]
    );
}

#[test]
fn cleaned_text_sets_punctuation_apart_without_a_space_behind() {
    assert_eq!(format_text_for_ngrams("a,b"), ". a , b");
    assert_eq!(format_text_for_ngrams("a.b!c?d;e:f"), ". a . b ! c ? d ; e : f");
    assert_eq!(
        words(&format_text_for_ngrams("wait...what")),
        vec![".", "wait", ".", ".", ".", "what"]
    );
}

#[test]
fn cleaned_text_of_nothing_is_the_leading_full_stop() {
    assert_eq!(format_text_for_ngrams(""), ". ");
}

#[test]
fn cleaned_text_keeps_its_last_character() {
    assert_eq!(format_text_for_ngrams("ab"), ". ab");
    assert_eq!(words(&format_text_for_ngrams("ab")), vec![".", "ab"]);
    assert_eq!(format_text_for_ngrams("abc"), ". abc");
    assert_eq!(format_text_for_ngrams("x"), ". x");
    assert_eq!(format_text_for_ngrams("abc "), ". abc ");
    assert_eq!(format_text_for_ngrams("abc,"), ". abc , ");
}

#[test]
fn cleaned_text_ends_with_its_final_full_stop() {
    assert_eq!(format_text_for_ngrams("abc."), ". abc .");
    assert_eq!(format_text_for_ngrams("."), ".  .");
    assert_eq!(format_text_for_ngrams("abc. "), ". abc .  ");
}

#[test]
fn cleaned_text_is_lower_case() {
    assert_eq!(format_text_for_ngrams("ÄBC Straße X "), ". äbc straße x ");
}

#[test]
fn cleaning_of_lower_case_text_needs_no_lowering() {
    assert_eq!(clean_lowered("ab"), ". ab");
    assert_eq!(clean_lowered("AB, c."), ". AB ,  c .");
    assert_eq!(clean_lowered("it's a \"so-so\" day\r\n"), ". its a so so day \n ");
}

#[test]
fn cleaned_text_agrees_with_replacement_step_by_step() {
    let samples = [
        "It was the best of times, it was the worst of times; it was the age of wisdom.",
        "\"Wait!\" she said: \"Is it -- really -- you?\"\r\nYes. No. Maybe...",
        ", , ,, !! ? ?; ;: :. . .",
        "a,b.c!d?e;f:g-h'i\"j",
        ". .",
        "..",
        "trailing space. ",
        "\n",
        "\r",
        "Ends with comma, ",
        "İstanbul ΣΑΣ",
    ];
    for sample in samples.iter() {
        assert_eq!(format_text_for_ngrams(sample), cleaned_by_std(sample));
        let kept: String = sample
            .to_lowercase()
            .chars()
            .filter(|c| c.is_alphanumeric())
            .collect();
        let cleaned: String = format_text_for_ngrams(sample)
            .chars()
            .filter(|c| c.is_alphanumeric())
            .collect();
        assert_eq!(cleaned, kept);
    }
}
