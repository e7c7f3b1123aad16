use stegotext::charmap::CharMap;
use stegotext::encode::can_use_word;
use stegotext::encode::count_ngrams;
use stegotext::encode::generate_ngrams;
use stegotext::encode::get_best_word;
use stegotext::encode::get_initial_words;
use stegotext::encode::get_probability_of;
use stegotext::encode::get_restricted_chars;
use stegotext::ngram::NgramIndex;
use stegotext::ngram::Probability;
use stegotext::utils::create_rng_from_seed;
use stegotext::utils::make_bit_to_char_map;
use stegotext::utils::make_char_to_bit_map;

fn owned(words: &[&str]) -> Vec<String> {
    words.iter().map(|w| w.to_string()).collect()
}

fn entries(index: &NgramIndex) -> Vec<(Vec<String>, usize)> {
    let mut all = vec![];
    for i in 0..index.len() {
        all.push((index.gram_at(i).clone(), index.count_at(i)));
    }
    all
}

#[test]
fn index_counts_each_gram() {
    let index = NgramIndex::new();
    assert_eq!(index.len(), 0);
    assert_eq!(index.get(&owned(&["a"])), None);
    let (index, is_new) = index.record(owned(&["a"]));
    assert!(is_new);
    let (index, is_new) = index.record(owned(&["a", "b"]));
    assert!(is_new);
    let (index, is_new) = index.record(owned(&["a"]));
    assert!(!is_new);
    let (index, is_new) = index.record(owned(&["a"]));
    assert!(!is_new);
    assert_eq!(index.len(), 2);
    assert_eq!(index.get(&owned(&["a"])), Some(3));
    assert_eq!(index.get(&owned(&["a", "b"])), Some(1));
    assert_eq!(index.get(&owned(&["b"])), None);
    assert_eq!(index.position(&owned(&["a", "b"])), Some(1));
    assert_eq!(index.position(&owned(&["b", "a"])), None);
    assert_eq!(index.gram_at(0), &owned(&["a"]));
    assert_eq!(index.count_at(0), 3);
}

#[test]
fn model_counts_runs_of_every_length() {
    let (index, unique, total) = generate_ngrams(&"a b a b c".to_string(), 2);
    assert_eq!(
        entries(&index),
        vec![
            (owned(&["a", "b"]), 2),
            (owned(&["b", "a"]), 1),
            (owned(&["b", "c"]), 1),
            (owned(&["a"]), 2),
            (owned(&["b"]), 2),
            (owned(&["c"]), 1),
        ]
    );
    assert_eq!(unique, owned(&["a", "b", "c"]));
    assert_eq!(total, 5);
}

#[test]
fn model_counts_the_longest_runs_first() {
    let (index, unique, total) = generate_ngrams(&"x y x y x".to_string(), 3);
    assert_eq!(
        entries(&index),
        vec![
            (owned(&["x", "y", "x"]), 2),
            (owned(&["y", "x", "y"]), 1),
            (owned(&["x", "y"]), 2),
            (owned(&["y", "x"]), 2),
            (owned(&["x"]), 3),
            (owned(&["y"]), 2),
        ]
    );
    assert_eq!(unique, owned(&["x", "y"]));
    assert_eq!(total, 5);
}

#[test]
fn model_of_single_words() {
    let (index, unique, total) = generate_ngrams(&"b a b".to_string(), 1);
    assert_eq!(entries(&index), vec![(owned(&["b"]), 2), (owned(&["a"]), 1)]);
    assert_eq!(unique, owned(&["b", "a"]));
    assert_eq!(total, 3);
}

#[test]
fn model_without_lengths_is_empty() {
    let (index, unique, total) = generate_ngrams(&"b a b".to_string(), 0);
    assert_eq!(index.len(), 0);
    assert_eq!(unique, owned(&[]));
    assert_eq!(total, 0);
}

#[test]
fn model_of_a_text_shorter_than_the_runs() {
    let (index, unique, total) = generate_ngrams(&"only two".to_string(), 5);
    assert_eq!(
        entries(&index),
        vec![
            (owned(&["only", "two"]), 1),
            (owned(&["only"]), 1),
            (owned(&["two"]), 1),
        ]
    );
    assert_eq!(unique, owned(&["only", "two"]));
    assert_eq!(total, 2);
    let (index, unique, total) = generate_ngrams(&"one".to_string(), 2);
    assert_eq!(entries(&index), vec![(owned(&["one"]), 1)]);
    assert_eq!(unique, owned(&["one"]));
    assert_eq!(total, 1);
    let (index, unique, total) = generate_ngrams(&"one".to_string(), 3);
    assert_eq!(entries(&index), vec![(owned(&["one"]), 1)]);
    assert_eq!(unique, owned(&["one"]));
    assert_eq!(total, 1);
}

#[test]
fn model_of_an_empty_text() {
    let (index, unique, total) = generate_ngrams(&"  \n ".to_string(), 3);
    assert_eq!(index.len(), 0);
    assert_eq!(unique, owned(&[]));
    assert_eq!(total, 0);
}

#[test]
fn model_cuts_words_at_any_white_space() {
    let (index, unique, total) = generate_ngrams(&" a\tb\n\na  b ".to_string(), 2);
    assert_eq!(index.get(&owned(&["a", "b"])), Some(2));
    assert_eq!(index.get(&owned(&["b", "a"])), Some(1));
    assert_eq!(unique, owned(&["a", "b"]));
    assert_eq!(total, 4);
}

#[test]
fn restricted_characters_are_those_of_the_map_outside_the_guide() {
    let inverse = make_char_to_bit_map(&make_bit_to_char_map(3));
    let mut restricted = get_restricted_chars(&inverse, &"ot".to_string());
    restricted.sort();
    assert_eq!(restricted, vec!['a', 'i']);
    let mut restricted = get_restricted_chars(&inverse, &"".to_string());
    restricted.sort();
    assert_eq!(restricted, vec!['a', 'i', 'o', 't']);
    let restricted = get_restricted_chars(&inverse, &"xiotax".to_string());
    assert_eq!(restricted, Vec::<char>::new());
    let restricted = get_restricted_chars(&CharMap::new(), &"abc".to_string());
    assert_eq!(restricted, Vec::<char>::new());
}

#[test]
fn usable_word_holds_the_guide_and_nothing_restricted() {
    let good = vec!['o', 't'];
    let restricted = vec!['a', 'i'];
    assert!(can_use_word("to", &good, &restricted));
    assert!(can_use_word("hot", &good, &restricted));
    assert!(can_use_word("tooth", &good, &restricted));
    assert!(!can_use_word("toast", &good, &restricted));
    assert!(!can_use_word("toil", &good, &restricted));
    assert!(!can_use_word("so", &good, &restricted));
    assert!(!can_use_word("", &good, &restricted));
    assert!(can_use_word("", &vec![], &restricted));
    assert!(can_use_word("xyz", &vec![], &restricted));
    assert!(!can_use_word("xyza", &vec![], &restricted));
}

#[test]
fn usable_word_may_hold_a_repeated_guide_character() {
    assert!(can_use_word("to", &vec!['o', 'o', 't'], &vec![]));
}

#[test]
fn initial_words_begin_the_most_grams() {
    let (index, _, _) = generate_ngrams(&"a b a c a b".to_string(), 2);
    assert_eq!(get_initial_words(&index, 2), owned(&["a"]));
    let (index, _, _) = generate_ngrams(&"x y z x y w q y".to_string(), 3);
    assert_eq!(get_initial_words(&index, 3), owned(&["x", "y"]));
}

#[test]
fn initial_words_on_level_terms_are_the_first_listed() {
    let (index, _, _) = generate_ngrams(&"m n o p".to_string(), 2);
    assert_eq!(get_initial_words(&index, 2), owned(&["m"]));
    let (index, _, _) = generate_ngrams(&"p o n m".to_string(), 2);
    assert_eq!(get_initial_words(&index, 2), owned(&["p"]));
}

#[test]
fn initial_words_are_none_without_grams_of_that_length() {
    let (index, _, _) = generate_ngrams(&"a b".to_string(), 2);
    assert_eq!(get_initial_words(&index, 3), owned(&[]));
    assert_eq!(get_initial_words(&index, 0), owned(&[]));
    assert_eq!(get_initial_words(&index, 1), owned(&[]));
    assert_eq!(get_initial_words(&NgramIndex::new(), 2), owned(&[]));
}

fn share(p: Probability) -> (usize, usize) {
    (p.numerator, p.denominator)
}

#[test]
fn probability_is_the_share_of_the_context() {
    let (index, _, total) = generate_ngrams(&"a b a c a b".to_string(), 2);
    assert_eq!(share(get_probability_of("b", &owned(&["a"]), &index, total)), (2, 3));
    assert_eq!(share(get_probability_of("c", &owned(&["a"]), &index, total)), (1, 3));
    assert_eq!(share(get_probability_of("a", &owned(&["b"]), &index, total)), (1, 2));
    assert_eq!(share(get_probability_of("a", &owned(&[]), &index, total)), (3, 6));
    assert_eq!(share(get_probability_of("c", &owned(&[]), &index, total)), (1, 6));
}

#[test]
fn probability_of_the_unseen_is_none_out_of_one() {
    let (index, _, total) = generate_ngrams(&"a b a c a b".to_string(), 2);
    assert_eq!(share(get_probability_of("a", &owned(&["a"]), &index, total)), (0, 1));
    assert_eq!(share(get_probability_of("b", &owned(&["z"]), &index, total)), (0, 1));
    assert_eq!(share(get_probability_of("z", &owned(&[]), &index, total)), (0, 1));
    assert_eq!(share(get_probability_of("b", &owned(&["a", "a"]), &index, total)), (0, 1));
}

#[test]
fn shares_are_compared_as_fractions() {
    let p = |numerator, denominator| Probability { numerator, denominator };
    assert!(p(2, 3).greater_than(&p(1, 3)));
    assert!(!p(1, 3).greater_than(&p(2, 3)));
    assert!(!p(1, 3).greater_than(&p(1, 3)));
    assert!(p(1, 2).greater_than(&p(1, 3)));
    assert!(!p(2, 4).greater_than(&p(1, 2)));
    assert!(p(1, 3).greater_than(&Probability::zero()));
    assert!(!Probability::zero().greater_than(&Probability::zero()));
    assert!(p(usize::MAX, 1).greater_than(&p(usize::MAX - 1, 1)));
    assert!(p(usize::MAX, usize::MAX - 1).greater_than(&p(usize::MAX - 1, usize::MAX)));
}

#[test]
fn best_word_follows_the_context_most_often() {
    let (index, _, total) = generate_ngrams(&"a b a c a b".to_string(), 2);
    let mut picks = create_rng_from_seed("picks");
    let best = get_best_word(&index, &owned(&["c", "b"]), &owned(&["a"]), 2, total, &mut picks);
    assert_eq!(best, ("b".to_string(), 1));
    let best = get_best_word(&index, &owned(&["c", "z"]), &owned(&["a"]), 2, total, &mut picks);
    assert_eq!(best, ("c".to_string(), 1));
}

#[test]
fn best_word_on_level_terms_is_the_first() {
    let (index, _, total) = generate_ngrams(&"a b a c".to_string(), 2);
    let mut picks = create_rng_from_seed("picks");
    let best = get_best_word(&index, &owned(&["c", "b"]), &owned(&["a"]), 2, total, &mut picks);
    assert_eq!(best, ("c".to_string(), 1));
    let best = get_best_word(&index, &owned(&["b", "c"]), &owned(&["a"]), 2, total, &mut picks);
    assert_eq!(best, ("b".to_string(), 1));
}

#[test]
fn best_word_is_not_the_word_before() {
    let (index, _, total) = generate_ngrams(&"a a a b".to_string(), 2);
    let mut picks = create_rng_from_seed("picks");
    let best = get_best_word(&index, &owned(&["a", "b"]), &owned(&["a"]), 2, total, &mut picks);
    assert_eq!(best, ("b".to_string(), 1));
}

#[test]
fn best_word_backs_off_to_a_shorter_context() {
    let (index, _, total) = generate_ngrams(&"x a b . y a c . z a c".to_string(), 3);
    let mut picks = create_rng_from_seed("picks");
    let usable = owned(&["b", "c"]);
    let best = get_best_word(&index, &usable, &owned(&["x", "a"]), 3, total, &mut picks);
    assert_eq!(best, ("b".to_string(), 2));
    let best = get_best_word(&index, &usable, &owned(&["q", "a"]), 3, total, &mut picks);
    assert_eq!(best, ("c".to_string(), 1));
    let best = get_best_word(&index, &usable, &owned(&["a"]), 3, total, &mut picks);
    assert_eq!(best, ("c".to_string(), 2));
}

#[test]
fn best_word_is_drawn_where_no_context_decides() {
    let (index, _, total) = generate_ngrams(&"a b a c a b".to_string(), 2);
    let usable = owned(&["b", "c", "a"]);
    let mut seen = vec![];
    let mut first = create_rng_from_seed("fallback");
    let mut second = create_rng_from_seed("fallback");
    for _ in 0..40 {
        let one = get_best_word(&index, &usable, &owned(&["zzz"]), 2, total, &mut first);
        let two = get_best_word(&index, &usable, &owned(&["zzz"]), 2, total, &mut second);
        assert_eq!(one, two);
        assert_eq!(one.1, 0);
        assert!(usable.contains(&one.0));
        seen.push(one.0);
    }
    seen.sort();
    seen.dedup();
    assert_eq!(seen, owned(&["a", "b", "c"]));
}

#[test]
fn best_word_for_single_words_is_always_drawn() {
    let (index, _, total) = generate_ngrams(&"a b a c a b".to_string(), 1);
    let mut picks = create_rng_from_seed("fallback");
    let best = get_best_word(&index, &owned(&["b"]), &owned(&["a"]), 1, total, &mut picks);
    assert_eq!(best, ("b".to_string(), 0));
    let best = get_best_word(&index, &owned(&["b"]), &owned(&[]), 0, total, &mut picks);
    assert_eq!(best, ("b".to_string(), 0));
}

#[test]
fn best_word_without_history_goes_by_the_count_of_the_word() {
    let (index, _, total) = generate_ngrams(&"a b a c a b".to_string(), 2);
    let mut picks = create_rng_from_seed("picks");
    let best = get_best_word(&index, &owned(&["c", "b", "a"]), &owned(&[]), 2, total, &mut picks);
    assert_eq!(best, ("a".to_string(), 1));
}

#[test]
fn index_finds_each_of_many_grams() {
    let mut index = NgramIndex::new();
    let mut grams = vec![];
    for i in 0..3000usize {
        let gram = vec![format!("w{}", i % 1000), format!("v{}", (i % 1000) % 7)];
        grams.push(gram.clone());
        index = index.record(gram).0;
    }
    assert_eq!(index.len(), 1000);
    for (i, gram) in grams.iter().enumerate().take(1000) {
        assert_eq!(index.position(gram), Some(i));
        assert_eq!(index.get(gram), Some(3));
        assert_eq!(index.gram_at(i), gram);
    }
    assert_eq!(index.get(&owned(&["w1", "v2"])), None);
    assert_eq!(index.get(&owned(&["w8", "v1"])), Some(3));
    assert_eq!(index.get(&owned(&["w1v1"])), None);
    assert_eq!(index.get(&owned(&["w1", "v1", ""])), None);
    assert_eq!(index.get(&owned(&[])), None);
}

#[test]
fn index_tells_words_from_their_joints() {
    let index = NgramIndex::new();
    let (index, _) = index.record(owned(&["ab", "c"]));
    let (index, _) = index.record(owned(&["a", "bc"]));
    let (index, _) = index.record(owned(&["abc"]));
    let (index, _) = index.record(owned(&["a", "b", "c"]));
    let (index, _) = index.record(owned(&["", "abc"]));
    assert_eq!(index.len(), 5);
    assert_eq!(index.position(&owned(&["a", "bc"])), Some(1));
    assert_eq!(index.position(&owned(&["", "abc"])), Some(4));
    assert_eq!(index.position(&owned(&["abc", ""])), None);
}

#[test]
fn model_of_a_long_text_is_made_in_time() {
    let mut text = String::new();
    let mut state: u32 = 7;
    for _ in 0..60000 {
        state = state.wrapping_mul(1103515245).wrapping_add(12345);
        text.push_str(&format!("w{} ", (state >> 16) % 5000));
    }
    let (index, unique, total) = generate_ngrams(&text, 3);
    assert_eq!(total, 60000);
    assert!(unique.len() <= 5000);
    assert!(index.len() > 60000);
    let initial = get_initial_words(&index, 3);
    assert_eq!(initial.len(), 2);
}

#[test]
fn model_of_a_list_of_words() {
    let (index, unique, total) = count_ngrams(&owned(&["a", "b", "a", "b", "c"]), 2);
    assert_eq!(
        entries(&index),
        vec![
            (owned(&["a", "b"]), 2),
            (owned(&["b", "a"]), 1),
            (owned(&["b", "c"]), 1),
            (owned(&["a"]), 2),
            (owned(&["b"]), 2),
            (owned(&["c"]), 1),
        ]
    );
    assert_eq!(unique, owned(&["a", "b", "c"]));
    assert_eq!(total, 5);
}

#[test]
fn model_of_a_list_takes_the_words_as_they_are() {
    let (index, unique, total) = count_ngrams(&owned(&["a b", "", "a b"]), 2);
    assert_eq!(index.get(&owned(&["a b", ""])), Some(1));
    assert_eq!(index.get(&owned(&["a b"])), Some(2));
    assert_eq!(index.get(&owned(&[""])), Some(1));
    assert_eq!(index.get(&owned(&["a", "b"])), None);
    assert_eq!(unique, owned(&["a b", ""]));
    assert_eq!(total, 3);
    let (index, unique, total) = count_ngrams(&owned(&[]), 3);
    assert_eq!(index.len(), 0);
    assert_eq!(unique, owned(&[]));
    assert_eq!(total, 0);
}

#[test]
fn model_of_a_text_is_the_model_of_its_words() {
    let (from_text, unique_text, total_text) = generate_ngrams(&" x  y\tx y z ".to_string(), 3);
    let (from_list, unique_list, total_list) = count_ngrams(&owned(&["x", "y", "x", "y", "z"]), 3);
    assert_eq!(entries(&from_text), entries(&from_list));
    assert_eq!(unique_text, unique_list);
    assert_eq!(total_text, total_list);
}
