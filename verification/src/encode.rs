//! The encoder: the n-gram model of the cover text, the choice of a word for
//! each symbol, and the text that hides a payload.

use crate::alphabet::lemma_filled_dom;
use crate::alphabet::lemma_value_map_bound;
use crate::bitio::bits_of;
use crate::bitio::get_value_vec_from_char_value_mode;
use crate::bitio::lemma_two_to_8;
use crate::bitio::symbols_of;
use crate::charmap::CharMap;
use crate::ngram::Gram;
use crate::ngram::NgramIndex;
use crate::ngram::Probability;
use crate::ngram::count_of;
use crate::ngram::count_or_zero;
use crate::ngram::lemma_count_after_all;
use crate::ngram::lemma_count_after_record;
use crate::ngram::lemma_count_unchanged;
use crate::ngram::lemma_multiplicity_bound;
use crate::ngram::multiplicity;
use crate::ngram::recorded_all;
use crate::prng::RngState;
use crate::prng::next_index;
use crate::prng::state_of;
use crate::sorted::descending_keys;
use crate::sorted::lemma_ascending_keys;
use crate::sorted::sorted_keys;
use crate::text::chars_of;
use crate::text::clone_words;
use crate::text::contains_char;
use crate::text::decimal;
use crate::text::lowercase_of;
use crate::text::lowercased;
use crate::text::push_decimal;
use crate::text::push_text;
use crate::text::split_words;
use crate::text::string_of;
use crate::text::texts;
use crate::text::words_of;
use crate::utils::Algorithm;
use crate::utils::ValueMode;
use crate::utils::algorithm_named;
use crate::utils::bit_value;
use crate::utils::bits_refusal;
use crate::utils::char_value_map;
use crate::utils::cleaned;
use crate::utils::create_rng_from_seed;
use crate::utils::fill_bit_to_char_map;
use crate::utils::filled;
use crate::utils::format_text_for_ngrams;
use crate::utils::get_algorithm_from_string;
use crate::utils::get_chars_from_value;
use crate::utils::get_value_from_chars;
use crate::utils::guide_chars;
use crate::utils::initial_bit_map;
use crate::utils::inverse_map;
use crate::utils::is_skip_word;
use crate::utils::lemma_keys_at_hand;
use crate::utils::make_bit_to_char_map;
use crate::utils::make_char_to_bit_map;
use crate::utils::make_char_to_value_map;
use crate::utils::refuse_bits;
use crate::utils::sha256_of;
use crate::utils::skip_word;
use crate::utils::two_to;
use crate::utils::word_value;
use ngrams::Ngram;
use rand::rngs::StdRng;
use std::collections::HashMap;
use vstd::prelude::*;
use vstd::utf8::encode_utf8;

verus! {

broadcast use vstd::std_specs::hash::group_hash_axioms;

/// The runs of `n` successive words of `words`, in order.
pub open spec fn windows(words: Gram, n: nat) -> Seq<Gram> {
    if n == 0 || words.len() < n {
        Seq::<Gram>::empty()
    } else {
        Seq::new((words.len() - n + 1) as nat, |i: int| words.subrange(i, i + n))
    }
}

/// The texts of a list of grams.
pub open spec fn gram_texts(grams: Seq<Vec<String>>) -> Seq<Gram> {
    Seq::new(grams.len(), |i: int| texts(grams[i]@))
}

/// Calls `Ngram::ngrams` on the words and collects what it yields. Without
/// padding, that is every run of `n` successive words, in order. The iterator
/// takes `n - 1` words before it yields anything and fails where there are
/// fewer; with `n` below 2 it yields runs of the wrong length: `requires` excludes
/// both.
#[verifier::external_body]
pub(crate) fn word_ngrams(words: &Vec<String>, n: usize) -> (grams: Vec<Vec<String>>)
    requires
        n >= 2,
        words.len() + 1 >= n,
    ensures
        gram_texts(grams@) == windows(texts(words@), n as nat),
{
    words.iter().cloned().ngrams(n).collect()
}

/// The counts after the runs of lengths `n` down to `k` were counted, the
/// longest runs first.
pub open spec fn counted_down(words: Gram, n: nat, k: nat) -> Seq<(Gram, usize)>
    decreases n + 1 - k,
{
    if k > n {
        Seq::<(Gram, usize)>::empty()
    } else {
        recorded_all(counted_down(words, n, k + 1), windows(words, k))
    }
}

/// The words of a list without repetitions, each at the place of its first
/// occurrence.
pub open spec fn first_seen(words: Gram) -> Gram
    decreases words.len(),
{
    if words.len() == 0 {
        Seq::<Seq<char>>::empty()
    } else if words.drop_last().contains(words.last()) {
        first_seen(words.drop_last())
    } else {
        first_seen(words.drop_last()).push(words.last())
    }
}

proof fn lemma_counted_down_beyond(words: Gram, n: nat, k: nat)
    requires
        k > words.len(),
    ensures
        counted_down(words, n, k) == Seq::<(Gram, usize)>::empty(),
    decreases n + 1 - k,
{
    if k <= n {
        lemma_counted_down_beyond(words, n, k + 1);
    }
}

/// A word is listed among the first-seen words exactly if it occurs.
pub proof fn lemma_first_seen_contains(words: Gram, w: Seq<char>)
    ensures
        first_seen(words).contains(w) <==> words.contains(w),
    decreases words.len(),
{
    if words.len() > 0 {
        let before = words.drop_last();
        lemma_first_seen_contains(before, w);
        lemma_first_seen_contains(before, words.last());
        if words.contains(w) {
            let i = choose|i: int| 0 <= i < words.len() && words[i] == w;
            if i < before.len() {
                assert(before[i] == w);
            }
        }
        if before.contains(w) {
            let i = choose|i: int| 0 <= i < before.len() && before[i] == w;
            assert(words[i] == w);
        }
        if before.contains(words.last()) {
        } else {
            let fs = first_seen(before);
            assert(fs.push(words.last())[fs.len() as int] == words.last());
            if fs.contains(w) {
                let i = choose|i: int| 0 <= i < fs.len() && fs[i] == w;
                assert(fs.push(words.last())[i] == w);
            }
            let grown = fs.push(words.last());
            if grown.contains(w) {
                let i = choose|i: int| 0 <= i < grown.len() && grown[i] == w;
                if i < fs.len() {
                    assert(fs[i] == w);
                }
            }
        }
        assert(words[words.len() - 1] == words.last());
    }
}

/// How often the words of `gram` occur in `words` as a run.
pub open spec fn occurrences(words: Gram, gram: Gram) -> nat {
    multiplicity(windows(words, gram.len()), gram)
}

/// The model counts occurrences: a run of words is listed if it has between
/// `k` and `n` words and occurs in the text, and its count is the number of its
/// occurrences.
pub proof fn lemma_counts_are_occurrences(words: Gram, n: nat, k: nat, gram: Gram)
    requires
        words.len() <= usize::MAX,
        k >= 1,
    ensures
        count_of(counted_down(words, n, k), gram) == if k <= gram.len() <= n && occurrences(
            words,
            gram,
        ) > 0 {
            Some(occurrences(words, gram) as usize)
        } else {
            None
        },
    decreases n + 1 - k,
{
    if k <= n {
        let base = counted_down(words, n, k + 1);
        let runs = windows(words, k);
        lemma_counts_are_occurrences(words, n, k + 1, gram);
        lemma_multiplicity_bound(runs, gram);
        if gram.len() == k {
            lemma_count_after_all(base, runs, gram);
            lemma_multiplicity_bound(windows(words, gram.len()), gram);
        } else {
            lemma_count_unchanged(base, runs, gram);
        }
    }
}

/// No word is listed twice among the first-seen words.
pub proof fn lemma_first_seen_distinct(words: Gram)
    ensures
        first_seen(words).no_duplicates(),
    decreases words.len(),
{
    if words.len() > 0 {
        let before = words.drop_last();
        lemma_first_seen_distinct(before);
        lemma_first_seen_contains(before, words.last());
        if !before.contains(words.last()) {
            let fs = first_seen(before);
            let grown = fs.push(words.last());
            assert forall|i: int, j: int| 0 <= i < grown.len() && 0 <= j < grown.len() && i
                != j implies grown[i] != grown[j] by {
                if i < fs.len() && j < fs.len() {
                } else if i < fs.len() {
                    assert(fs.contains(fs[i]));
                } else {
                    assert(fs.contains(fs[j]));
                }
            }
        }
    }
}

/// The n-gram model of a list of words: the counts of its runs of 1 to `n`
/// words, the longest runs counted first; its distinct words in the order of
/// their first occurrence; and the number of its words. The count of a run is
/// the number of its occurrences in the list, and the distinct words are the
/// words of the list, each once. With `n` at 0 nothing is counted.
pub fn count_ngrams(words: &Vec<String>, n: usize) -> (model: (NgramIndex, Vec<String>, usize))
    ensures
        model.0@ == counted_down(texts(words@), n as nat, 1),
        n >= 1 ==> texts(model.1@) == first_seen(texts(words@)) && model.2 == words@.len(),
        n == 0 ==> model.1@.len() == 0 && model.2 == 0,
        forall|gram: Gram|
            #[trigger] count_of(model.0@, gram) == if 1 <= gram.len() <= n && occurrences(
                texts(words@),
                gram,
            ) > 0 {
                Some(occurrences(texts(words@), gram) as usize)
            } else {
                None
            },
        texts(model.1@).no_duplicates(),
        n >= 1 ==> forall|w: Seq<char>|
            texts(model.1@).contains(w) <==> texts(words@).contains(w),
{
    let ghost all = texts(words@);
    proof {
        assert(all.len() == words.len());
        assert forall|gram: Gram|
            #[trigger] count_of(counted_down(all, n as nat, 1), gram) == if 1 <= gram.len() <= n
                && occurrences(all, gram) > 0 {
                Some(occurrences(all, gram) as usize)
            } else {
                None
            } by {
            lemma_counts_are_occurrences(all, n as nat, 1, gram);
        }
        lemma_first_seen_distinct(all);
        assert forall|w: Seq<char>| first_seen(all).contains(w) <==> all.contains(w) by {
            lemma_first_seen_contains(all, w);
        }
    }
    let mut index = NgramIndex::new();
    let mut unique_words: Vec<String> = Vec::new();
    let mut total_words: usize = 0;
    let mut n_down: usize = if n > words.len() {
        words.len()
    } else {
        n
    };
    proof {
        lemma_counted_down_beyond(all, n as nat, (words.len() + 1) as nat);
        if n <= words.len() {
            assert(counted_down(all, n as nat, (n + 1) as nat) == Seq::<(Gram, usize)>::empty());
        }
        if n_down == 0 {
            if n == 0 {
            } else {
                lemma_counted_down_beyond(all, n as nat, 1);
                assert(texts(unique_words@) =~= first_seen(all));
            }
        }
    }
    while n_down > 0
        invariant
            n_down <= n,
            n_down <= words.len(),
            all == texts(words@),
            index@ == counted_down(all, n as nat, (n_down + 1) as nat),
            forall|g: Gram| g.len() <= n_down ==> (#[trigger] count_of(index@, g)) is None,
            n_down > 0 || n == 0 ==> unique_words@.len() == 0 && total_words == 0,
            n_down == 0 && n >= 1 ==> texts(unique_words@) == first_seen(all) && total_words
                == all.len(),
        decreases n_down,
    {
        let ghost base = index@;
        let ghost runs = windows(all, n_down as nat);
        if n_down == 1 {
            let mut j: usize = 0;
            assert(runs.take(0) =~= Seq::<Gram>::empty());
            assert(all.take(0) =~= Seq::<Seq<char>>::empty());
            assert(texts(unique_words@) =~= first_seen(all.take(0)));
            while j < words.len()
                invariant
                    j <= words.len(),
                    n_down == 1,
                    all == texts(words@),
                    runs == windows(all, 1),
                    total_words == j,
                    index@ == recorded_all(base, runs.take(j as int)),
                    texts(unique_words@) == first_seen(all.take(j as int)),
                    forall|g: Gram|
                        g.len() == 1 ==> ((#[trigger] count_of(index@, g)) matches Some(c) ==> c
                            <= j),
                    forall|g: Gram|
                        g.len() == 1 ==> ((#[trigger] count_of(index@, g)) is Some
                            <==> all.take(j as int).contains(g[0])),
                    forall|g: Gram| g.len() < 1 ==> (#[trigger] count_of(index@, g)) is None,
                decreases words.len() - j,
            {
                let word = words[j].clone();
                let mut gram: Vec<String> = Vec::new();
                gram.push(words[j].clone());
                let ghost g0 = texts(gram@);
                let ghost before = index@;
                let ghost seen = all.take(j as int);
                proof {
                    assert(g0 =~= all.subrange(j as int, j + 1));
                    assert(runs[j as int] == g0);
                    assert(runs.take(j + 1).drop_last() == runs.take(j as int));
                    assert(all.take(j + 1).drop_last() == seen);
                    assert(all.take(j + 1).last() == all[j as int]);
                    assert(g0[0] == all[j as int]);
                    assert(count_of(before, g0) is Some <==> seen.contains(g0[0]));
                }
                let (counted, is_new) = index.record(gram);
                index = counted;
                proof {
                    assert forall|g: Gram| g.len() == 1 implies ((#[trigger] count_of(index@, g))
                        matches Some(c) ==> c <= j + 1) by {
                        lemma_count_after_record(before, g0, g);
                    }
                    assert forall|g: Gram| g.len() == 1 implies ((#[trigger] count_of(index@, g))
                        is Some <==> all.take(j + 1).contains(g[0])) by {
                        lemma_count_after_record(before, g0, g);
                        if g == g0 {
                            assert(all.take(j + 1)[j as int] == g[0]);
                        } else {
                            assert(g[0] != g0[0]) by {
                                if g[0] == g0[0] {
                                    assert(g =~= g0);
                                }
                            }
                            assert(count_of(before, g) is Some <==> seen.contains(g[0]));
                            if seen.contains(g[0]) {
                                let i = choose|i: int| 0 <= i < seen.len() && seen[i] == g[0];
                                assert(all.take(j + 1)[i] == g[0]);
                            }
                            let grown = all.take(j + 1);
                            if grown.contains(g[0]) {
                                let i = choose|i: int| 0 <= i < grown.len() && grown[i] == g[0];
                                assert(seen[i] == g[0]);
                            }
                        }
                    }
                    assert forall|g: Gram| g.len() < 1 implies (#[trigger] count_of(index@, g))
                        is None by {
                        lemma_count_after_record(before, g0, g);
                    }
                }
                if is_new {
                    let ghost listed = unique_words@;
                    unique_words.push(word);
                    assert(texts(unique_words@) =~= texts(listed).push(all[j as int]));
                }
                total_words += 1;
                j += 1;
            }
            proof {
                assert(runs.take(words.len() as int) =~= runs);
                assert(all.take(words.len() as int) =~= all);
            }
        } else {
            let grams = word_ngrams(words, n_down);
            let ghost listed = grams@;
            assert(listed.len() == grams.len());
            let mut j: usize = 0;
            assert(runs.take(0) =~= Seq::<Gram>::empty());
            for gram in it: grams
                invariant
                    it.seq() == listed,
                    j == it.index(),
                    listed.len() <= usize::MAX,
                    n_down >= 2,
                    n_down <= n,
                    runs == windows(all, n_down as nat),
                    gram_texts(listed) == runs,
                    index@ == recorded_all(base, runs.take(j as int)),
                    forall|g: Gram|
                        g.len() == n_down ==> ((#[trigger] count_of(index@, g)) matches Some(c)
                            ==> c <= j),
                    forall|g: Gram| g.len() < n_down ==> (#[trigger] count_of(index@, g)) is None,
                    unique_words@.len() == 0,
                    total_words == 0,
            {
                let ghost g0 = texts(gram@);
                let ghost before = index@;
                proof {
                    assert(gram_texts(listed)[j as int] == g0);
                    assert(runs.len() == listed.len());
                    assert(runs[j as int] == all.subrange(j as int, j + n_down));
                    assert(g0.len() == n_down);
                    assert(runs.take(j + 1).drop_last() == runs.take(j as int));
                }
                let (counted, _) = index.record(gram);
                index = counted;
                proof {
                    assert forall|g: Gram| g.len() == n_down implies ((#[trigger] count_of(
                        index@,
                        g,
                    )) matches Some(c) ==> c <= j + 1) by {
                        lemma_count_after_record(before, g0, g);
                    }
                    assert forall|g: Gram| g.len() < n_down implies (#[trigger] count_of(index@, g))
                        is None by {
                        lemma_count_after_record(before, g0, g);
                    }
                }
                j += 1;
            }
            proof {
                assert(runs.take(j as int) =~= runs);
            }
        }
        n_down -= 1;
    }
    (index, unique_words, total_words)
}

/// The n-gram model of a text: the model of its words, which are its runs of
/// characters without white space.
pub fn generate_ngrams(text: &String, n: usize) -> (model: (NgramIndex, Vec<String>, usize))
    ensures
        model.0@ == counted_down(words_of(text@), n as nat, 1),
        n >= 1 ==> texts(model.1@) == first_seen(words_of(text@)) && model.2 == words_of(
            text@,
        ).len(),
        n == 0 ==> model.1@.len() == 0 && model.2 == 0,
        forall|gram: Gram|
            #[trigger] count_of(model.0@, gram) == if 1 <= gram.len() <= n && occurrences(
                words_of(text@),
                gram,
            ) > 0 {
                Some(occurrences(words_of(text@), gram) as usize)
            } else {
                None
            },
        texts(model.1@).no_duplicates(),
        n >= 1 ==> forall|w: Seq<char>|
            texts(model.1@).contains(w) <==> words_of(text@).contains(w),
{
    let words = split_words(text.as_str());
    count_ngrams(&words, n)
}

/// The characters of the map that do not occur in the guide string: a word
/// for the guide's value must hold none of them.
pub fn get_restricted_chars(char_map: &CharMap, gib_word: &String) -> (restricted: Vec<char>)
    ensures
        restricted@.no_duplicates(),
        forall|c: char|
            restricted@.contains(c) <==> (char_map@.contains_key(c) && !gib_word@.contains(c)),
{
    let keys = char_map.keys();
    let word = chars_of(gib_word.as_str());
    let mut restricted: Vec<char> = Vec::new();
    let mut i: usize = 0;
    while i < keys.len()
        invariant
            i <= keys.len(),
            word@ == gib_word@,
            keys@.no_duplicates(),
            restricted@.no_duplicates(),
            forall|c: char|
                restricted@.contains(c) <==> (keys@.take(i as int).contains(c) && !word@.contains(
                    c,
                )),
        decreases keys.len() - i,
    {
        let c = keys[i];
        let ghost before = restricted@;
        let ghost seen = keys@.take(i as int);
        proof {
            assert(keys@.take(i + 1) == seen.push(c));
            assert(!seen.contains(c)) by {
                if seen.contains(c) {
                    let k = choose|k: int| 0 <= k < seen.len() && seen[k] == c;
                    assert(keys@[k] == keys@[i as int]);
                }
            }
        }
        if !contains_char(&word, c) {
            restricted.push(c);
            proof {
                assert(restricted@ == before.push(c));
                assert forall|d: char| restricted@.contains(d) <==> (before.contains(d) || d == c) by {
                    if before.contains(d) {
                        let k = choose|k: int| 0 <= k < before.len() && before[k] == d;
                        assert(restricted@[k] == d);
                    }
                    if d == c {
                        assert(restricted@[before.len() as int] == d);
                    }
                }
            }
        }
        proof {
            assert forall|d: char|
                restricted@.contains(d) <==> (keys@.take(i + 1).contains(d) && !word@.contains(
                    d,
                )) by {
                assert(before.contains(d) <==> (seen.contains(d) && !word@.contains(d)));
                if seen.contains(d) {
                    let k = choose|k: int| 0 <= k < seen.len() && seen[k] == d;
                    assert(seen.push(c)[k] == d);
                }
                let grown = seen.push(c);
                if grown.contains(d) {
                    let k = choose|k: int| 0 <= k < grown.len() && grown[k] == d;
                    if k < seen.len() {
                        assert(seen[k] == d);
                    }
                }
                assert(seen.push(c)[seen.len() as int] == c);
            }
        }
        i += 1;
    }
    assert(keys@.take(keys.len() as int) == keys@);
    restricted
}

/// A word can stand for a guide string: it holds none of the restricted
/// characters, and each character of the guide at least once.
pub open spec fn usable_word(word: Seq<char>, good: Seq<char>, restricted: Seq<char>) -> bool {
    &&& forall|i: int| 0 <= i < word.len() ==> !restricted.contains(#[trigger] word[i])
    &&& forall|k: int| 0 <= k < good.len() ==> word.contains(#[trigger] good[k])
}

/// Whether `word` can stand for the guide string `good_chars`.
pub fn can_use_word(word: &str, good_chars: &Vec<char>, restricted_chars: &Vec<char>) -> (usable:
    bool)
    ensures
        usable == usable_word(word@, good_chars@, restricted_chars@),
{
    let chars = chars_of(word);
    let mut i: usize = 0;
    while i < chars.len()
        invariant
            i <= chars.len(),
            chars@ == word@,
            forall|j: int| 0 <= j < i ==> !restricted_chars@.contains(#[trigger] chars@[j]),
        decreases chars.len() - i,
    {
        if contains_char(restricted_chars, chars[i]) {
            return false;
        }
        i += 1;
    }
    let mut k: usize = 0;
    while k < good_chars.len()
        invariant
            k <= good_chars.len(),
            chars@ == word@,
            forall|j: int| 0 <= j < chars.len() ==> !restricted_chars@.contains(#[trigger] chars@[j]),
            forall|j: int| 0 <= j < k ==> chars@.contains(#[trigger] good_chars@[j]),
        decreases good_chars.len() - k,
    {
        if !contains_char(&chars, good_chars[k]) {
            return false;
        }
        k += 1;
    }
    true
}

/// The gram has `n` words and begins with the words of `prefix`, which are
/// one fewer.
pub open spec fn starts_like(gram: Gram, n: nat, prefix: Gram) -> bool {
    n >= 1 && gram.len() == n && gram.take(n - 1) == prefix
}

/// The number of listed grams of `n` words that begin with `prefix`.
pub open spec fn prefix_count(entries: Seq<(Gram, usize)>, n: nat, prefix: Gram) -> nat
    decreases entries.len(),
{
    if entries.len() == 0 {
        0
    } else {
        prefix_count(entries.drop_last(), n, prefix) + if starts_like(entries.last().0, n, prefix) {
            1nat
        } else {
            0nat
        }
    }
}

/// The number of listed grams of `n` words that begin like the gram at `i`.
pub open spec fn rivals(entries: Seq<(Gram, usize)>, n: nat, i: int) -> nat {
    prefix_count(entries, n, entries[i].0.take(n - 1))
}

/// The gram at `i` has `n` words, no gram of `n` words has a beginning that
/// is shared by more grams, and none before it has one that is shared by as
/// many.
pub open spec fn leads(entries: Seq<(Gram, usize)>, n: nat, i: int) -> bool {
    &&& 0 <= i < entries.len()
    &&& n >= 1
    &&& entries[i].0.len() == n
    &&& forall|j: int|
        0 <= j < entries.len() && (#[trigger] entries[j]).0.len() == n ==> rivals(entries, n, j)
            <= rivals(entries, n, i)
    &&& forall|j: int|
        0 <= j < i && (#[trigger] entries[j]).0.len() == n ==> rivals(entries, n, j) < rivals(
            entries,
            n,
            i,
        )
}

/// The words with which the history begins: the first `n - 1` words of the
/// first listed gram that leads; no words where no gram has `n` words.
pub open spec fn initial_words(entries: Seq<(Gram, usize)>, n: nat) -> Gram {
    if exists|i: int| leads(entries, n, i) {
        entries[choose|i: int| leads(entries, n, i)].0.take(n - 1)
    } else {
        Seq::<Seq<char>>::empty()
    }
}

proof fn lemma_prefix_count_bounds(entries: Seq<(Gram, usize)>, n: nat, prefix: Gram)
    ensures
        prefix_count(entries, n, prefix) <= entries.len(),
        forall|i: int|
            0 <= i < entries.len() && starts_like((#[trigger] entries[i]).0, n, prefix)
                ==> prefix_count(entries, n, prefix) >= 1,
    decreases entries.len(),
{
    if entries.len() > 0 {
        lemma_prefix_count_bounds(entries.drop_last(), n, prefix);
        assert forall|i: int|
            0 <= i < entries.len() && starts_like((#[trigger] entries[i]).0, n, prefix)
                implies prefix_count(entries, n, prefix) >= 1 by {
            if i < entries.len() - 1 {
                assert(entries.drop_last()[i] == entries[i]);
            }
        }
    }
}

/// The first `k` words of a gram.
fn first_words(gram: &Vec<String>, k: usize) -> (words: Vec<String>)
    requires
        k <= gram.len(),
    ensures
        texts(words@) == texts(gram@).take(k as int),
{
    let mut words: Vec<String> = Vec::new();
    let mut i: usize = 0;
    while i < k
        invariant
            i <= k,
            k <= gram.len(),
            words@.len() == i,
            forall|j: int| 0 <= j < i ==> words@[j]@ == gram@[j]@,
        decreases k - i,
    {
        words.push(gram[i].clone());
        i += 1;
    }
    words
}

/// How often each beginning of a gram of `n` words is met among the grams.
fn count_beginnings(hashmap: &NgramIndex, n: usize) -> (starts: NgramIndex)
    requires
        n >= 1,
    ensures
        forall|prefix: Gram|
            count_or_zero(starts@, prefix) == #[trigger] prefix_count(hashmap@, n as nat, prefix),
{
    let ghost entries = hashmap@;
    let mut starts = NgramIndex::new();
    let mut i: usize = 0;
    let total = hashmap.len();
    while i < total
        invariant
            i <= total,
            total == entries.len(),
            n >= 1,
            entries == hashmap@,
            forall|prefix: Gram|
                count_or_zero(starts@, prefix) == #[trigger] prefix_count(
                    entries.take(i as int),
                    n as nat,
                    prefix,
                ),
        decreases total - i,
    {
        let gram = hashmap.gram_at(i);
        let ghost before = starts@;
        proof {
            assert(entries.take(i + 1).drop_last() =~= entries.take(i as int));
        }
        if gram.len() == n {
            let prefix = first_words(gram, n - 1);
            let ghost p = texts(prefix@);
            proof {
                lemma_prefix_count_bounds(entries.take(i as int), n as nat, p);
            }
            let (counted, _) = starts.record(prefix);
            starts = counted;
            proof {
                assert forall|q: Gram|
                    count_or_zero(starts@, q) == #[trigger] prefix_count(
                        entries.take(i + 1),
                        n as nat,
                        q,
                    ) by {
                    lemma_count_after_record(before, p, q);
                    assert(count_or_zero(before, q) == prefix_count(
                        entries.take(i as int),
                        n as nat,
                        q,
                    ));
                }
            }
        } else {
            proof {
                assert forall|q: Gram|
                    count_or_zero(starts@, q) == #[trigger] prefix_count(
                        entries.take(i + 1),
                        n as nat,
                        q,
                    ) by {
                    assert(count_or_zero(before, q) == prefix_count(
                        entries.take(i as int),
                        n as nat,
                        q,
                    ));
                }
            }
        }
        i += 1;
    }
    assert(entries.take(total as int) =~= entries);
    starts
}

/// The words with which the history begins: the first `n - 1` words of the
/// listed gram of `n` words whose beginning is shared by the most listed
/// grams of `n` words, the first such gram where several are level.
pub fn get_initial_words(hashmap: &NgramIndex, n: usize) -> (words: Vec<String>)
    ensures
        texts(words@) == initial_words(hashmap@, n as nat),
{
    let ghost entries = hashmap@;
    let mut best: Option<usize> = None;
    let mut best_count: usize = 0;
    let mut i: usize = 0;
    if n == 0 {
        let words: Vec<String> = Vec::new();
        return words;
    }
    let starts = count_beginnings(hashmap, n);
    while i < hashmap.len()
        invariant
            i <= hashmap@.len(),
            n >= 1,
            entries == hashmap@,
            forall|prefix: Gram|
                count_or_zero(starts@, prefix) == #[trigger] prefix_count(entries, n as nat, prefix),
            match best {
                Some(b) => b < i && entries[b as int].0.len() == n && best_count == rivals(
                    entries,
                    n as nat,
                    b as int,
                ) && (forall|j: int|
                    0 <= j < i && (#[trigger] entries[j]).0.len() == n ==> rivals(
                        entries,
                        n as nat,
                        j,
                    ) <= best_count) && (forall|j: int|
                    0 <= j < b && (#[trigger] entries[j]).0.len() == n ==> rivals(
                        entries,
                        n as nat,
                        j,
                    ) < best_count),
                None => best_count == 0 && forall|j: int|
                    0 <= j < i ==> (#[trigger] entries[j]).0.len() != n,
            },
        decreases hashmap@.len() - i,
    {
        let gram = hashmap.gram_at(i);
        if gram.len() == n {
            let prefix = first_words(gram, n - 1);
            proof {
                let p = entries[i as int].0.take(n - 1);
                lemma_prefix_count_bounds(entries, n as nat, p);
            }
            let count = match starts.get(&prefix) {
                Some(count) => count,
                None => 0,
            };
            if count > best_count {
                best = Some(i);
                best_count = count;
            }
        }
        i += 1;
    }
    match best {
        Some(b) => {
            let words = first_words(hashmap.gram_at(b), n - 1);
            proof {
                assert(leads(entries, n as nat, b as int));
            }
            words
        },
        None => {
            let words: Vec<String> = Vec::new();
            words
        },
    }
}

/// The share of the occurrences of the words `given` that `word` follows:
/// the count of `given` with `word` behind it, out of the count of `given`, or
/// out of `num_words` where `given` is empty. Where one of the two is not
/// listed, the share is none out of one.
pub open spec fn probability_of(
    word: Seq<char>,
    given: Gram,
    entries: Seq<(Gram, usize)>,
    num_words: usize,
) -> Probability {
    let base = if given.len() == 0 {
        Some(num_words)
    } else {
        count_of(entries, given)
    };
    match (base, count_of(entries, given.push(word))) {
        (Some(d), Some(c)) => Probability { numerator: c, denominator: d },
        _ => Probability { numerator: 0, denominator: 1 },
    }
}

/// The share of the occurrences of `given` that `word` follows.
pub fn get_probability_of(
    word: &str,
    given: &Vec<String>,
    hashmap: &NgramIndex,
    num_words: usize,
) -> (p: Probability)
    ensures
        p == probability_of(word@, texts(given@), hashmap@, num_words),
{
    let count_of_given = if given.len() == 0 {
        num_words
    } else {
        match hashmap.get(given) {
            Some(count) => count,
            None => {
                return Probability::zero();
            },
        }
    };
    let mut word_vec = clone_words(given);
    let ghost before = word_vec@;
    word_vec.push(word.to_owned());
    assert(texts(word_vec@) =~= texts(before).push(word@));
    match hashmap.get(&word_vec) {
        Some(count) => Probability { numerator: count, denominator: count_of_given },
        None => Probability::zero(),
    }
}

/// The last words of the history that serve as context for a choice among
/// grams of `use_n` words: `use_n - 1` of them, or all where there are fewer.
pub open spec fn context_of(history: Gram, use_n: nat) -> Gram {
    let wanted = (use_n - 1) as nat;
    let k = if wanted < history.len() {
        wanted
    } else {
        history.len()
    };
    history.subrange(history.len() - k, history.len() as int)
}

/// The share that a leader has to exceed: that of the candidate at `at`, or
/// none out of one where there is no leader yet.
pub open spec fn share_of(
    entries: Seq<(Gram, usize)>,
    usable: Gram,
    context: Gram,
    total: usize,
    at: Option<int>,
) -> Probability {
    match at {
        Some(b) => probability_of(usable[b], context, entries, total),
        None => Probability { numerator: 0, denominator: 1 },
    }
}

/// The first of the first `upto` candidates whose share after `context` is
/// the largest and not zero, the word that ends the context left aside; none
/// where every share is zero.
pub open spec fn leader(
    entries: Seq<(Gram, usize)>,
    usable: Gram,
    context: Gram,
    total: usize,
    upto: nat,
) -> Option<int>
    decreases upto,
{
    if upto == 0 {
        None
    } else {
        let before = leader(entries, usable, context, total, (upto - 1) as nat);
        let i = upto - 1;
        if context.len() > 0 && usable[i] == context.last() {
            before
        } else if probability_of(usable[i], context, entries, total).exceeds(
            share_of(entries, usable, context, total, before),
        ) {
            Some(i)
        } else {
            before
        }
    }
}

/// The choice among the candidates `usable`: the place of the chosen word,
/// the length of the context that decided, and the generator's state
/// afterwards. The contexts are tried from `use_n - 1` words down to one word;
/// the first that gives a leader decides. Where none does, the place is drawn
/// from the generator and the length is 0.
pub open spec fn chosen(
    entries: Seq<(Gram, usize)>,
    usable: Gram,
    history: Gram,
    use_n: nat,
    total: usize,
    state: RngState,
) -> (int, nat, RngState)
    decreases use_n,
{
    if use_n <= 1 {
        (state.next_index(usable.len()), 0, state.after_draw(usable.len()))
    } else {
        match leader(entries, usable, context_of(history, use_n), total, usable.len()) {
            Some(i) => (i, (use_n - 1) as nat, state),
            None => chosen(entries, usable, history, (use_n - 1) as nat, total, state),
        }
    }
}

/// A leader among the first `upto` candidates is one of them.
pub proof fn lemma_leader_in_range(
    entries: Seq<(Gram, usize)>,
    usable: Gram,
    context: Gram,
    total: usize,
    upto: nat,
)
    ensures
        leader(entries, usable, context, total, upto) matches Some(i) ==> 0 <= i < upto,
    decreases upto,
{
    if upto > 0 {
        lemma_leader_in_range(entries, usable, context, total, (upto - 1) as nat);
    }
}

/// The leader among all candidates after the context.
fn find_leader(
    gram: &NgramIndex,
    usable_words: &Vec<String>,
    context: &Vec<String>,
    total_words: usize,
) -> (best: Option<usize>)
    ensures
        match best {
            Some(i) => i < usable_words.len() && leader(
                gram@,
                texts(usable_words@),
                texts(context@),
                total_words,
                usable_words@.len(),
            ) == Some(i as int),
            None => leader(
                gram@,
                texts(usable_words@),
                texts(context@),
                total_words,
                usable_words@.len(),
            ) is None,
        },
{
    let mut best: Option<usize> = None;
    let mut max_p = Probability::zero();
    let mut i: usize = 0;
    let ghost usable = texts(usable_words@);
    let ghost ctx = texts(context@);
    while i < usable_words.len()
        invariant
            i <= usable_words.len(),
            usable == texts(usable_words@),
            ctx == texts(context@),
            max_p == share_of(gram@, usable, ctx, total_words, leader(
                gram@,
                usable,
                ctx,
                total_words,
                i as nat,
            )),
            match best {
                Some(b) => b < i && leader(gram@, usable, ctx, total_words, i as nat) == Some(
                    b as int,
                ),
                None => leader(gram@, usable, ctx, total_words, i as nat) is None,
            },
        decreases usable_words.len() - i,
    {
        let w = &usable_words[i];
        let excluded = context.len() > 0 && *w == context[context.len() - 1];
        if !excluded {
            let p = get_probability_of(w.as_str(), context, gram, total_words);
            if p.greater_than(&max_p) {
                best = Some(i);
                max_p = p;
            }
        }
        i += 1;
    }
    best
}

/// The last words of the history that serve as context.
fn take_context(current_words: &Vec<String>, use_n: usize) -> (context: Vec<String>)
    requires
        use_n >= 1,
    ensures
        texts(context@) == context_of(texts(current_words@), use_n as nat),
{
    let k = if use_n - 1 < current_words.len() {
        use_n - 1
    } else {
        current_words.len()
    };
    let from = current_words.len() - k;
    let mut context: Vec<String> = Vec::new();
    let mut i: usize = 0;
    while i < k
        invariant
            i <= k,
            from + k == current_words.len(),
            context@.len() == i,
            forall|j: int| 0 <= j < i ==> context@[j]@ == current_words@[from + j]@,
        decreases k - i,
    {
        context.push(current_words[from + i].clone());
        i += 1;
    }
    context
}

/// Chooses among the candidates `usable_words` the word that is most likely
/// to follow the history `current_words`, backing off to shorter contexts while
/// no candidate was ever seen after the context. Gives the word and the length
/// of the context that decided; where no context decides, the word is drawn
/// from `rng` and the length is 0.
pub fn get_best_word(
    gram: &NgramIndex,
    usable_words: &Vec<String>,
    current_words: &Vec<String>,
    n: usize,
    total_words: usize,
    rng: &mut StdRng,
) -> (best: (String, usize))
    requires
        usable_words.len() > 0,
    ensures
        ({
            let pick = chosen(
                gram@,
                texts(usable_words@),
                texts(current_words@),
                n as nat,
                total_words,
                state_of(*old(rng)),
            );
            &&& 0 <= pick.0 < usable_words.len()
            &&& best.0@ == usable_words@[pick.0]@
            &&& best.1 == pick.1
            &&& state_of(*final(rng)) == pick.2
        }),
{
    let mut use_n: usize = n;
    let ghost usable = texts(usable_words@);
    let ghost history = texts(current_words@);
    let ghost start = state_of(*rng);
    while use_n >= 2
        invariant
            use_n <= n,
            usable == texts(usable_words@),
            history == texts(current_words@),
            usable_words.len() > 0,
            state_of(*rng) == start,
            chosen(gram@, usable, history, use_n as nat, total_words, start) == chosen(
                gram@,
                usable,
                history,
                n as nat,
                total_words,
                start,
            ),
        decreases use_n,
    {
        let context = take_context(current_words, use_n);
        match find_leader(gram, usable_words, &context, total_words) {
            Some(i) => {
                return (usable_words[i].clone(), use_n - 1);
            },
            None => {},
        }
        use_n -= 1;
    }
    let i = next_index(rng, usable_words.len());
    (usable_words[i].clone(), 0)
}

/// What the encoder works from besides the payload: the n-gram model of
/// the cover text, and the policy for skip words.
pub struct Cover {
    /// The counted grams of the cover text.
    pub entries: Seq<(Gram, usize)>,
    /// The distinct words of the cover text.
    pub unique: Gram,
    /// The length of the longest grams.
    pub n: usize,
    /// The number of words of the cover text.
    pub total: usize,
    /// How many skip words may follow each other.
    pub limit: usize,
    /// The longest deciding context after which a skip word is still put
    /// before the word.
    pub threshold: usize,
    /// Whether the alphabet is drawn anew after each symbol.
    pub use_shuffle: bool,
}

/// Where the encoder stands between two tokens.
pub struct Progress {
    /// The bit map.
    pub map: Map<usize, char>,
    /// The state of the generator that draws the alphabet.
    pub alphabet: RngState,
    /// The state of the generator that picks a word where no context decides.
    pub picks: RngState,
    /// The words chosen so far, behind the initial words.
    pub history: Gram,
    /// How many skip words were put since the last word that stands for a
    /// symbol.
    pub skips: usize,
}

/// The guide string of a value under a bit map: the characters of the keys
/// that add up to the value, the largest key first.
pub open spec fn guide_of(value: u8, map: Map<usize, char>) -> Seq<char> {
    guide_chars(value as nat, map, descending_keys(map.dom()))
}

/// The word stands for the value of the guide string: of the characters of
/// the map it holds those of the guide, all of them, and no others.
pub open spec fn fits(word: Seq<char>, guide: Seq<char>, chars: Map<char, usize>) -> bool {
    &&& forall|i: int|
        0 <= i < word.len() && chars.contains_key(#[trigger] word[i]) ==> guide.contains(word[i])
    &&& forall|k: int| 0 <= k < guide.len() ==> word.contains(#[trigger] guide[k])
}

/// The words that fit the guide string, in their order.
pub open spec fn fitting_words(unique: Gram, guide: Seq<char>, chars: Map<char, usize>) -> Gram
    decreases unique.len(),
{
    if unique.len() == 0 {
        Seq::<Seq<char>>::empty()
    } else if fits(unique.last(), guide, chars) {
        fitting_words(unique.drop_last(), guide, chars).push(unique.last())
    } else {
        fitting_words(unique.drop_last(), guide, chars)
    }
}

/// The skip words among the words, in their order.
pub open spec fn skipping_words(unique: Gram, chars: Map<char, usize>) -> Gram
    decreases unique.len(),
{
    if unique.len() == 0 {
        Seq::<Seq<char>>::empty()
    } else if skip_word(unique.last(), chars) {
        skipping_words(unique.drop_last(), chars).push(unique.last())
    } else {
        skipping_words(unique.drop_last(), chars)
    }
}

/// The state after a word that stands for a symbol was put: the word joins
/// the history, the count of skip words starts anew, and the alphabet is
/// drawn anew where the cover asks for it.
pub open spec fn after_word(cover: Cover, at: Progress, word: Seq<char>, picks: RngState) -> Progress {
    let drawn = if cover.use_shuffle {
        filled(at.map, at.alphabet)
    } else {
        (at.map, at.alphabet)
    };
    Progress { map: drawn.0, alphabet: drawn.1, picks, history: at.history.push(word), skips: 0 }
}

/// One step of the encoder for the symbol `value`: the token that is put,
/// whether the symbol is done with it, and the state afterwards.
///
/// Where no word fits, the token is the guide string itself, a full stop
/// joins the history, and the alphabet stays. Where one word fits, it is the
/// token. Where several fit, the most likely one is chosen; but if the context
/// that decided was no longer than the threshold, the limit of successive skip
/// words is not reached and there is a skip word, the most likely skip word is
/// put instead, and the symbol is tried again.
pub open spec fn wordify_step(cover: Cover, at: Progress, value: u8) -> (Seq<char>, bool, Progress) {
    let chars = inverse_map(at.map);
    let guide = guide_of(value, at.map);
    let usable = fitting_words(cover.unique, guide, chars);
    let skips = skipping_words(cover.unique, chars);
    if usable.len() == 0 {
        (
            guide,
            true,
            Progress {
                map: at.map,
                alphabet: at.alphabet,
                picks: at.picks,
                history: at.history.push(seq!['.']),
                skips: 0,
            },
        )
    } else if usable.len() == 1 {
        (usable[0], true, after_word(cover, at, usable[0], at.picks))
    } else {
        let pick = chosen(cover.entries, usable, at.history, cover.n as nat, cover.total, at.picks);
        if pick.1 <= cover.threshold && at.skips < cover.limit && skips.len() > 0 {
            let other = chosen(cover.entries, skips, at.history, cover.n as nat, cover.total, pick.2);
            (
                skips[other.0],
                false,
                Progress {
                    map: at.map,
                    alphabet: at.alphabet,
                    picks: other.2,
                    history: at.history.push(skips[other.0]),
                    skips: (at.skips + 1) as usize,
                },
            )
        } else {
            (usable[pick.0], true, after_word(cover, at, usable[pick.0], pick.2))
        }
    }
}

/// The tokens that the encoder puts for the symbols `values`, and the state
/// in which it ends.
pub open spec fn wordify_run(cover: Cover, at: Progress, values: Seq<u8>) -> (Gram, Progress)
    decreases values.len(), cover.limit - at.skips,
{
    if values.len() == 0 {
        (Seq::<Seq<char>>::empty(), at)
    } else {
        let step = wordify_step(cover, at, values[0]);
        let rest = wordify_run(
            cover,
            step.2,
            if step.1 {
                values.skip(1)
            } else {
                values
            },
        );
        (seq![step.0] + rest.0, rest.1)
    }
}

/// The tokens, each followed by a space.
pub open spec fn spaced(tokens: Gram) -> Seq<char>
    decreases tokens.len(),
{
    if tokens.len() == 0 {
        Seq::<char>::empty()
    } else {
        spaced(tokens.drop_last()) + tokens.last().push(' ')
    }
}

/// The tokens with one space between each two: the text that is written.
pub open spec fn joined(tokens: Gram) -> Seq<char> {
    if tokens.len() == 0 {
        Seq::<char>::empty()
    } else {
        spaced(tokens).drop_last()
    }
}

/// The keys of `map`, the largest first.
fn keys_descending(map: &HashMap<usize, char>) -> (keys: Vec<usize>)
    ensures
        keys@ == descending_keys(map@.dom()),
        forall|i: int| 0 <= i < keys.len() ==> map@.contains_key(#[trigger] keys@[i]),
{
    let ascending = sorted_keys(map);
    let mut keys: Vec<usize> = Vec::new();
    let mut i: usize = ascending.len();
    proof {
        lemma_ascending_keys(map@.dom());
    }
    while i > 0
        invariant
            i <= ascending.len(),
            keys@.len() == ascending.len() - i,
            forall|j: int| 0 <= j < keys@.len() ==> keys@[j] == ascending@[ascending.len() - 1 - j],
        decreases i,
    {
        i -= 1;
        keys.push(ascending[i]);
    }
    keys
}

/// The words of `unique_words` that fit the guide string.
fn collect_fitting(unique_words: &Vec<String>, guide: &String, chars: &CharMap) -> (usable: Vec<
    String,
>)
    ensures
        texts(usable@) == fitting_words(texts(unique_words@), guide@, chars@),
{
    let restricted = get_restricted_chars(chars, guide);
    let good = chars_of(guide.as_str());
    let mut usable: Vec<String> = Vec::new();
    let mut i: usize = 0;
    let ghost unique = texts(unique_words@);
    while i < unique_words.len()
        invariant
            i <= unique_words.len(),
            unique == texts(unique_words@),
            good@ == guide@,
            forall|c: char|
                restricted@.contains(c) <==> (chars@.contains_key(c) && !guide@.contains(c)),
            texts(usable@) == fitting_words(unique.take(i as int), guide@, chars@),
        decreases unique_words.len() - i,
    {
        let word = &unique_words[i];
        proof {
            assert(unique.take(i + 1).drop_last() == unique.take(i as int));
        }
        if can_use_word(word.as_str(), &good, &restricted) {
            usable.push(word.clone());
        }
        i += 1;
    }
    assert(unique.take(unique_words.len() as int) =~= unique);
    usable
}

/// The skip words among `unique_words`.
fn collect_skips(unique_words: &Vec<String>, chars: &CharMap) -> (skips: Vec<String>)
    ensures
        texts(skips@) == skipping_words(texts(unique_words@), chars@),
{
    let mut skips: Vec<String> = Vec::new();
    let mut i: usize = 0;
    let ghost unique = texts(unique_words@);
    while i < unique_words.len()
        invariant
            i <= unique_words.len(),
            unique == texts(unique_words@),
            texts(skips@) == skipping_words(unique.take(i as int), chars@),
        decreases unique_words.len() - i,
    {
        let word = &unique_words[i];
        proof {
            assert(unique.take(i + 1).drop_last() == unique.take(i as int));
        }
        if is_skip_word(word.as_str(), chars) {
            skips.push(word.clone());
        }
        i += 1;
    }
    assert(unique.take(unique_words.len() as int) =~= unique);
    skips
}

/// Puts the token for the symbol `value`, and tells whether the symbol is
/// done with it.
fn wordify_symbol(
    gram: &NgramIndex,
    n: usize,
    value: u8,
    rng: &mut StdRng,
    picks: &mut StdRng,
    bit_to_char_map: &mut HashMap<usize, char>,
    unique_words: &Vec<String>,
    total_words: usize,
    consecutive_skips: usize,
    depth_skip_threshold: usize,
    use_shuffle: bool,
    current_words: &mut Vec<String>,
    consecutive_skips_used: &mut usize,
) -> (put: (String, bool))
    requires
        old(bit_to_char_map)@.dom().len() <= 26,
    ensures
        ({
            let cover = Cover {
                entries: gram@,
                unique: texts(unique_words@),
                n,
                total: total_words,
                limit: consecutive_skips,
                threshold: depth_skip_threshold,
                use_shuffle,
            };
            let at = Progress {
                map: old(bit_to_char_map)@,
                alphabet: state_of(*old(rng)),
                picks: state_of(*old(picks)),
                history: texts(old(current_words)@),
                skips: *old(consecutive_skips_used),
            };
            let step = wordify_step(cover, at, value);
            &&& put.0@ == step.0
            &&& put.1 == step.1
            &&& final(bit_to_char_map)@ == step.2.map
            &&& state_of(*final(rng)) == step.2.alphabet
            &&& state_of(*final(picks)) == step.2.picks
            &&& texts(final(current_words)@) == step.2.history
            &&& *final(consecutive_skips_used) == step.2.skips
        }),
        final(bit_to_char_map)@.dom() == old(bit_to_char_map)@.dom(),
{
    let chars = make_char_to_bit_map(bit_to_char_map);
    let keys = keys_descending(bit_to_char_map);
    proof {
        lemma_keys_at_hand(value as nat, bit_to_char_map@.dom(), keys@);
    }
    let guide = get_chars_from_value(value, bit_to_char_map, &keys);
    let usable = collect_fitting(unique_words, &guide, &chars);
    if usable.len() == 0 {
        current_words.push(".".to_owned());
        *consecutive_skips_used = 0;
        proof {
            reveal_strlit(".");
            assert("."@ =~= seq!['.']);
        }
        return (guide, true);
    }
    let word = if usable.len() == 1 {
        usable[0].clone()
    } else {
        let (best_word, n_used) = get_best_word(
            gram,
            &usable,
            current_words,
            n,
            total_words,
            picks,
        );
        if n_used <= depth_skip_threshold && *consecutive_skips_used < consecutive_skips {
            let skips = collect_skips(unique_words, &chars);
            if skips.len() > 0 {
                let (skip, _) = get_best_word(gram, &skips, current_words, n, total_words, picks);
                current_words.push(skip.clone());
                *consecutive_skips_used = *consecutive_skips_used + 1;
                return (skip, false);
            }
        }
        best_word
    };
    current_words.push(word.clone());
    *consecutive_skips_used = 0;
    if use_shuffle {
        fill_bit_to_char_map(rng, bit_to_char_map);
    }
    (word, true)
}

/// Hides the symbols `file_values` in words of the cover text: for each symbol
/// a word that stands for it under the bit map, chosen by the n-gram model, with
/// skip words put before it as the policy allows. The tokens are written with one
/// space between each two. `rng` draws the alphabet anew after each symbol where
/// `use_shuffle` is set; `picks` decides where the model knows no candidate.
pub fn wordify(
    gram: &NgramIndex,
    n: usize,
    file_values: &Vec<u8>,
    rng: &mut StdRng,
    picks: &mut StdRng,
    bit_to_char_map: &mut HashMap<usize, char>,
    unique_words: &Vec<String>,
    total_words: usize,
    consecutive_skips: usize,
    depth_skip_threshold: usize,
    use_shuffle: bool,
) -> (text: Result<String, String>)
    requires
        old(bit_to_char_map)@.dom().len() <= 26,
    ensures
        ({
            let cover = Cover {
                entries: gram@,
                unique: texts(unique_words@),
                n,
                total: total_words,
                limit: consecutive_skips,
                threshold: depth_skip_threshold,
                use_shuffle,
            };
            let at = Progress {
                map: old(bit_to_char_map)@,
                alphabet: state_of(*old(rng)),
                picks: state_of(*old(picks)),
                history: initial_words(gram@, n as nat),
                skips: 0,
            };
            let run = wordify_run(cover, at, file_values@);
            &&& text is Ok
            &&& text->Ok_0@ == joined(run.0)
            &&& final(bit_to_char_map)@ == run.1.map
            &&& state_of(*final(rng)) == run.1.alphabet
            &&& state_of(*final(picks)) == run.1.picks
        }),
{
    let mut current_words = get_initial_words(gram, n);
    let mut consecutive_skips_used: usize = 0;
    let mut text_data: Vec<char> = Vec::new();
    let mut i: usize = 0;
    let ghost cover = Cover {
        entries: gram@,
        unique: texts(unique_words@),
        n,
        total: total_words,
        limit: consecutive_skips,
        threshold: depth_skip_threshold,
        use_shuffle,
    };
    let ghost start = Progress {
        map: bit_to_char_map@,
        alphabet: state_of(*rng),
        picks: state_of(*picks),
        history: initial_words(gram@, n as nat),
        skips: 0,
    };
    let ghost mut emitted: Gram = Seq::empty();
    proof {
        assert(file_values@.skip(0) == file_values@);
    }
    while i < file_values.len()
        invariant
            i <= file_values.len(),
            bit_to_char_map@.dom().len() <= 26,
            cover == (Cover {
                entries: gram@,
                unique: texts(unique_words@),
                n,
                total: total_words,
                limit: consecutive_skips,
                threshold: depth_skip_threshold,
                use_shuffle,
            }),
            text_data@ == spaced(emitted),
            ({
                let at = Progress {
                    map: bit_to_char_map@,
                    alphabet: state_of(*rng),
                    picks: state_of(*picks),
                    history: texts(current_words@),
                    skips: consecutive_skips_used,
                };
                let rest = wordify_run(cover, at, file_values@.skip(i as int));
                let whole = wordify_run(cover, start, file_values@);
                emitted + rest.0 == whole.0 && rest.1 == whole.1
            }),
        decreases file_values.len() - i, consecutive_skips - consecutive_skips_used,
    {
        let ghost at = Progress {
            map: bit_to_char_map@,
            alphabet: state_of(*rng),
            picks: state_of(*picks),
            history: texts(current_words@),
            skips: consecutive_skips_used,
        };
        let ghost values = file_values@.skip(i as int);
        let (token, advance) = wordify_symbol(
            gram,
            n,
            file_values[i],
            rng,
            picks,
            bit_to_char_map,
            unique_words,
            total_words,
            consecutive_skips,
            depth_skip_threshold,
            use_shuffle,
            &mut current_words,
            &mut consecutive_skips_used,
        );
        let chars = chars_of(token.as_str());
        let mut k: usize = 0;
        let ghost written = text_data@;
        while k < chars.len()
            invariant
                k <= chars.len(),
                text_data@ == written + chars@.take(k as int),
            decreases chars.len() - k,
        {
            text_data.push(chars[k]);
            k += 1;
        }
        text_data.push(' ');
        proof {
            assert(values.skip(1) == file_values@.skip(i + 1));
            let step = wordify_step(cover, at, values[0]);
            let rest = wordify_run(cover, step.2, if step.1 {
                values.skip(1)
            } else {
                values
            });
            assert(emitted.push(token@).drop_last() == emitted);
            emitted = emitted.push(token@);
        }
        if advance {
            i += 1;
        }
    }
    if text_data.len() > 0 {
        text_data.pop();
    }
    Ok(string_of(&text_data))
}

/// The guide strings of the symbols `values`, each under the bit map of its
/// turn, with the bit map and the generator's state after the last: where
/// `use_shuffle` is set, the alphabet is drawn anew after each symbol.
pub open spec fn guides_run(
    values: Seq<u8>,
    map: Map<usize, char>,
    state: RngState,
    use_shuffle: bool,
) -> (Gram, Map<usize, char>, RngState)
    decreases values.len(),
{
    if values.len() == 0 {
        (Seq::<Seq<char>>::empty(), map, state)
    } else {
        let next = if use_shuffle {
            filled(map, state)
        } else {
            (map, state)
        };
        let rest = guides_run(values.skip(1), next.0, next.1, use_shuffle);
        (seq![guide_of(values[0], map)] + rest.0, rest.1, rest.2)
    }
}

/// The guide strings of the symbols of `num_bits` bits into which the bytes
/// are cut.
pub fn get_value_vec(
    bit_to_char_map: &mut HashMap<usize, char>,
    file_contents: &Vec<u8>,
    num_bits: usize,
    use_shuffle: bool,
    rng: &mut StdRng,
) -> (guides: Vec<String>)
    requires
        1 <= num_bits <= 8,
        old(bit_to_char_map)@.dom().len() <= 26,
    ensures
        ({
            let run = guides_run(
                symbols_of(bits_of(file_contents@), num_bits as nat),
                old(bit_to_char_map)@,
                state_of(*old(rng)),
                use_shuffle,
            );
            &&& texts(guides@) == run.0
            &&& final(bit_to_char_map)@ == run.1
            &&& state_of(*final(rng)) == run.2
        }),
        8 * file_contents.len() <= num_bits * guides.len() < 8 * file_contents.len() + num_bits,
        guides.len() == (8 * file_contents.len() + num_bits - 1) / (num_bits as int),
{
    let values = get_value_vec_from_char_value_mode(file_contents, num_bits);
    let sorted_keys = keys_descending(bit_to_char_map);
    let mut guides: Vec<String> = Vec::new();
    let mut i: usize = 0;
    let ghost start_map = bit_to_char_map@;
    let ghost start_state = state_of(*rng);
    proof {
        assert(values@.skip(0) == values@);
        assert(texts(guides@) =~= Seq::<Seq<char>>::empty());
    }
    while i < values.len()
        invariant
            i <= values.len(),
            guides@.len() == i,
            bit_to_char_map@.dom() == start_map.dom(),
            start_map.dom().len() <= 26,
            sorted_keys@ == descending_keys(start_map.dom()),
            forall|k: int|
                0 <= k < sorted_keys.len() ==> start_map.contains_key(#[trigger] sorted_keys@[k]),
            ({
                let rest = guides_run(
                    values@.skip(i as int),
                    bit_to_char_map@,
                    state_of(*rng),
                    use_shuffle,
                );
                let whole = guides_run(values@, start_map, start_state, use_shuffle);
                texts(guides@) + rest.0 == whole.0 && rest.1 == whole.1 && rest.2 == whole.2
            }),
        decreases values.len() - i,
    {
        let ghost rest = values@.skip(i as int);
        let ghost map = bit_to_char_map@;
        let ghost state = state_of(*rng);
        let ghost before = guides@;
        proof {
            assert(rest[0] == values@[i as int]);
            assert(rest.skip(1) == values@.skip(i + 1));
            assert forall|k: int| 0 <= k < sorted_keys.len() implies map.contains_key(
                #[trigger] sorted_keys@[k],
            ) by {
                assert(start_map.dom().contains(sorted_keys@[k]));
            }
            lemma_filled_dom(map, state);
            lemma_keys_at_hand(values@[i as int] as nat, map.dom(), sorted_keys@);
        }
        let char_str = get_chars_from_value(values[i], bit_to_char_map, &sorted_keys);
        if use_shuffle {
            fill_bit_to_char_map(rng, bit_to_char_map);
        }
        guides.push(char_str);
        proof {
            let next = if use_shuffle {
                filled(map, state)
            } else {
                (map, state)
            };
            let tail = guides_run(rest.skip(1), next.0, next.1, use_shuffle).0;
            assert(texts(guides@) =~= texts(before).push(guide_of(rest[0], map)));
            assert(texts(before).push(guide_of(rest[0], map)) + tail == texts(before) + (seq![
                guide_of(rest[0], map),
            ] + tail));
        }
        i += 1;
    }
    proof {
        assert(values@.skip(values.len() as int).len() == 0);
        assert(texts(guides@) + Seq::<Seq<char>>::empty() == texts(guides@));
    }
    guides
}

/// A mark of punctuation that stands as a word of its own in the cover text.
pub open spec fn is_punctuation(word: Seq<char>) -> bool {
    word == seq!['.'] || word == seq![','] || word == seq!['?'] || word == seq![';'] || word
        == seq!['!']
}

/// The words that stand for `value` under a value map, in their order. Marks
/// of punctuation are left out: the decoder would take them for symbols.
pub open spec fn value_words(unique: Gram, map: Map<char, usize>, mode: ValueMode, value: u8) -> Gram
    decreases unique.len(),
{
    if unique.len() == 0 {
        Seq::<Seq<char>>::empty()
    } else if !is_punctuation(unique.last()) && word_value(unique.last(), map, mode) == value {
        value_words(unique.drop_last(), map, mode, value).push(unique.last())
    } else {
        value_words(unique.drop_last(), map, mode, value)
    }
}

/// The words that the encoder puts in value mode for the symbols `values`,
/// and the state of the generator that picks afterwards: for each symbol the
/// only word that stands for it, or the most likely of several.
pub open spec fn value_run(
    cover: Cover,
    map: Map<char, usize>,
    mode: ValueMode,
    history: Gram,
    picks: RngState,
    values: Seq<u8>,
) -> (Gram, RngState)
    decreases values.len(),
{
    if values.len() == 0 {
        (Seq::<Seq<char>>::empty(), picks)
    } else {
        let usable = value_words(cover.unique, map, mode, values[0]);
        let pick = if usable.len() <= 1 {
            (0int, 0nat, picks)
        } else {
            chosen(cover.entries, usable, history, cover.n as nat, cover.total, picks)
        };
        let rest = value_run(cover, map, mode, history.push(usable[pick.0]), pick.2, values.skip(1));
        (seq![usable[pick.0]] + rest.0, rest.1)
    }
}

/// Whether a word is one of the marks of punctuation.
fn is_mark(word: &String) -> (mark: bool)
    ensures
        mark == is_punctuation(word@),
{
    let chars = chars_of(word.as_str());
    if chars.len() != 1 {
        return false;
    }
    let c = chars[0];
    proof {
        assert(chars@ =~= seq![c]);
    }
    let mark = c == '.' || c == ',' || c == '?' || c == ';' || c == '!';
    mark
}

/// The words of `unique_words` that stand for `value`.
fn collect_valued(
    unique_words: &Vec<String>,
    char_to_value_map: &CharMap,
    value_mode: &ValueMode,
    value: u8,
) -> (usable: Vec<String>)
    requires
        values_fit(texts(unique_words@), char_to_value_map@, *value_mode),
    ensures
        texts(usable@) == value_words(texts(unique_words@), char_to_value_map@, *value_mode, value),
{
    let mut usable: Vec<String> = Vec::new();
    let mut i: usize = 0;
    let ghost unique = texts(unique_words@);
    while i < unique_words.len()
        invariant
            i <= unique_words.len(),
            unique == texts(unique_words@),
            values_fit(unique, char_to_value_map@, *value_mode),
            texts(usable@) == value_words(
                unique.take(i as int),
                char_to_value_map@,
                *value_mode,
                value,
            ),
        decreases unique_words.len() - i,
    {
        let word = &unique_words[i];
        proof {
            assert(unique.take(i + 1).drop_last() == unique.take(i as int));
            assert(unique.take(i + 1).last() == word@);
        }
        if !is_mark(word) {
            let w_val = get_value_from_chars(word.as_str(), char_to_value_map, value_mode);
            if w_val == value as usize {
                usable.push(word.clone());
            }
        }
        i += 1;
    }
    assert(unique.take(unique_words.len() as int) =~= unique);
    usable
}

/// The value of every word can be computed: in bit mode it fits a machine
/// word, in value mode the modulus does.
pub open spec fn values_fit(unique: Gram, map: Map<char, usize>, mode: ValueMode) -> bool {
    match mode {
        ValueMode::CharBitMap => forall|i: int|
            0 <= i < unique.len() ==> bit_value(#[trigger] unique[i], map) <= usize::MAX,
        ValueMode::CharValueMap(exponent) => two_to(exponent as nat) <= usize::MAX,
    }
}

/// Every symbol has a word that stands for it.
pub open spec fn every_value_has_word(
    unique: Gram,
    map: Map<char, usize>,
    mode: ValueMode,
    values: Seq<u8>,
) -> bool {
    forall|i: int| 0 <= i < values.len() ==> value_words(unique, map, mode, #[trigger] values[i]).len() > 0
}

/// Hides the symbols `file_values` in words of the cover text, in value mode:
/// for each symbol a word whose value it is, the most likely one where there
/// are several. The tokens are written with one space between each two.
/// `picks` decides where the model knows no candidate.
pub fn wordify_from_char_value_mode(
    gram: &NgramIndex,
    char_to_value_map: &CharMap,
    n: usize,
    file_values: &Vec<u8>,
    _num_bits: usize,
    unique_words: &Vec<String>,
    total_words: usize,
    _use_shuffle: bool,
    value_mode: ValueMode,
    picks: &mut StdRng,
) -> (text: Result<String, String>)
    requires
        values_fit(texts(unique_words@), char_to_value_map@, value_mode),
        every_value_has_word(texts(unique_words@), char_to_value_map@, value_mode, file_values@),
    ensures
        ({
            let cover = Cover {
                entries: gram@,
                unique: texts(unique_words@),
                n,
                total: total_words,
                limit: 0,
                threshold: 0,
                use_shuffle: false,
            };
            let run = value_run(
                cover,
                char_to_value_map@,
                value_mode,
                initial_words(gram@, n as nat),
                state_of(*old(picks)),
                file_values@,
            );
            &&& text is Ok
            &&& text->Ok_0@ == joined(run.0)
            &&& state_of(*final(picks)) == run.1
        }),
{
    let mut current_words = get_initial_words(gram, n);
    let mut text_data: Vec<char> = Vec::new();
    let mut i: usize = 0;
    let ghost cover = Cover {
        entries: gram@,
        unique: texts(unique_words@),
        n,
        total: total_words,
        limit: 0,
        threshold: 0,
        use_shuffle: false,
    };
    let ghost map = char_to_value_map@;
    let ghost start_history = texts(current_words@);
    let ghost start_picks = state_of(*picks);
    let ghost mut emitted: Gram = Seq::empty();
    proof {
        assert(file_values@.skip(0) == file_values@);
    }
    while i < file_values.len()
        invariant
            i <= file_values.len(),
            cover == (Cover {
                entries: gram@,
                unique: texts(unique_words@),
                n,
                total: total_words,
                limit: 0,
                threshold: 0,
                use_shuffle: false,
            }),
            map == char_to_value_map@,
            values_fit(texts(unique_words@), map, value_mode),
            every_value_has_word(texts(unique_words@), map, value_mode, file_values@),
            text_data@ == spaced(emitted),
            ({
                let rest = value_run(
                    cover,
                    map,
                    value_mode,
                    texts(current_words@),
                    state_of(*picks),
                    file_values@.skip(i as int),
                );
                let whole = value_run(
                    cover,
                    map,
                    value_mode,
                    start_history,
                    start_picks,
                    file_values@,
                );
                emitted + rest.0 == whole.0 && rest.1 == whole.1
            }),
        decreases file_values.len() - i,
    {
        let current_val = file_values[i];
        let ghost values = file_values@.skip(i as int);
        let ghost history = texts(current_words@);
        let ghost before_picks = state_of(*picks);
        proof {
            assert(values.skip(1) == file_values@.skip(i + 1));
        }
        let usable_words = collect_valued(unique_words, char_to_value_map, &value_mode, current_val);
        let best_word = if usable_words.len() == 1 {
            usable_words[0].clone()
        } else {
            let (word, _) = get_best_word(
                gram,
                &usable_words,
                &current_words,
                n,
                total_words,
                picks,
            );
            word
        };
        let chars = chars_of(best_word.as_str());
        let mut k: usize = 0;
        let ghost written = text_data@;
        while k < chars.len()
            invariant
                k <= chars.len(),
                text_data@ == written + chars@.take(k as int),
            decreases chars.len() - k,
        {
            text_data.push(chars[k]);
            k += 1;
        }
        text_data.push(' ');
        let ghost token = best_word@;
        current_words.push(best_word);
        proof {
            assert(texts(current_words@) =~= history.push(token));
            let usable = value_words(cover.unique, map, value_mode, values[0]);
            let pick = if usable.len() <= 1 {
                (0int, 0nat, before_picks)
            } else {
                chosen(cover.entries, usable, history, cover.n as nat, cover.total, before_picks)
            };
            let rest = value_run(
                cover,
                map,
                value_mode,
                history.push(usable[pick.0]),
                pick.2,
                values.skip(1),
            );
            assert(emitted.push(token).drop_last() == emitted);
            emitted = emitted.push(token);
        }
        i += 1;
    }
    if text_data.len() > 0 {
        text_data.pop();
    }
    Ok(string_of(&text_data))
}

/// The model of a cover text: its words are those of the text in lower case
/// and cleaned.
pub open spec fn model_words(corpus: Seq<char>) -> Gram {
    words_of(cleaned(lowercase_of(corpus)))
}

/// The cover that a text gives for grams of up to `n` words.
pub open spec fn cover_of(
    corpus: Seq<char>,
    n: usize,
    limit: usize,
    threshold: usize,
    use_shuffle: bool,
) -> Cover {
    let words = model_words(corpus);
    Cover {
        entries: counted_down(words, n as nat, 1),
        unique: if n >= 1 {
            first_seen(words)
        } else {
            Seq::<Seq<char>>::empty()
        },
        n,
        total: if n >= 1 {
            words.len() as usize
        } else {
            0
        },
        limit,
        threshold,
        use_shuffle,
    }
}

/// Where the encoder starts in bit mode: with the alphabet for `num_bits`
/// bits after its first draw from a generator seeded with `seed`, a second
/// generator with the same seed for the picks, and the initial words of the
/// cover as history.
pub open spec fn first_progress(seed: Seq<u8>, cover: Cover, num_bits: nat) -> Progress {
    let start = filled(initial_bit_map(num_bits), RngState::fresh(seed));
    Progress {
        map: start.0,
        alphabet: start.1,
        picks: RngState::fresh(seed),
        history: initial_words(cover.entries, cover.n as nat),
        skips: 0,
    }
}

/// The text that hides a payload in bit mode: the payload is cut into symbols
/// of `num_bits` bits; the alphabet is drawn from a generator seeded with
/// `seed`, a second generator with the same seed picks where the model knows
/// no candidate; and the encoder's tokens are joined by single spaces.
pub open spec fn encoded_bit_mode(
    payload: Seq<u8>,
    seed: Seq<u8>,
    cover: Cover,
    num_bits: nat,
) -> Seq<char> {
    joined(
        wordify_run(cover, first_progress(seed, cover, num_bits), symbols_of(
            bits_of(payload),
            num_bits,
        )).0,
    )
}

/// Hides the bytes `contents` in a text made of words of `corpus`, in bit mode.
pub fn encode_char_bit_map(
    contents: &Vec<u8>,
    seed_str: &str,
    corpus: &str,
    n_depth: usize,
    consecutive_skips: usize,
    depth_skip_threshold: usize,
    num_bits: usize,
    use_shuffle: bool,
) -> (text: Result<String, String>)
    requires
        1 <= num_bits <= 8,
    ensures
        text is Ok,
        text->Ok_0@ == encoded_bit_mode(
            contents@,
            sha256_of(encode_utf8(seed_str@)),
            cover_of(corpus@, n_depth, consecutive_skips, depth_skip_threshold, use_shuffle),
            num_bits as nat,
        ),
{
    let mut rng = create_rng_from_seed(seed_str);
    let mut picks = create_rng_from_seed(seed_str);
    let mut bit_to_char_map = make_bit_to_char_map(num_bits);
    fill_bit_to_char_map(&mut rng, &mut bit_to_char_map);
    let value_vec = get_value_vec_from_char_value_mode(contents, num_bits);
    let lower = lowercased(corpus);
    let word_file_data = format_text_for_ngrams(lower.as_str());
    let (gram_hash, unique_words, total_words) = generate_ngrams(&word_file_data, n_depth);
    proof {
        if n_depth == 0 {
            assert(texts(unique_words@) =~= Seq::<Seq<char>>::empty());
        }
    }
    wordify(
        &gram_hash,
        n_depth,
        &value_vec,
        &mut rng,
        &mut picks,
        &mut bit_to_char_map,
        &unique_words,
        total_words,
        consecutive_skips,
        depth_skip_threshold,
        use_shuffle,
    )
}

/// The first of the symbols that no word stands for, if there is one.
pub open spec fn first_without_word(
    unique: Gram,
    map: Map<char, usize>,
    mode: ValueMode,
    values: Seq<u8>,
) -> Option<u8>
    decreases values.len(),
{
    if values.len() == 0 {
        None
    } else if value_words(unique, map, mode, values[0]).len() == 0 {
        Some(values[0])
    } else {
        first_without_word(unique, map, mode, values.skip(1))
    }
}

proof fn lemma_first_without_word(
    unique: Gram,
    map: Map<char, usize>,
    mode: ValueMode,
    values: Seq<u8>,
)
    ensures
        first_without_word(unique, map, mode, values) is None <==> every_value_has_word(
            unique,
            map,
            mode,
            values,
        ),
    decreases values.len(),
{
    if values.len() > 0 {
        lemma_first_without_word(unique, map, mode, values.skip(1));
        let rest = values.skip(1);
        if first_without_word(unique, map, mode, values) is None {
            assert forall|i: int| 0 <= i < values.len() implies value_words(
                unique,
                map,
                mode,
                #[trigger] values[i],
            ).len() > 0 by {
                if i > 0 {
                    assert(rest[i - 1] == values[i]);
                }
            }
        }
    }
}

/// The message that tells that no word stands for the value.
pub open spec fn missing_word(value: u8) -> Seq<char> {
    "NOT ENOUGH WORDS WITH VALUE "@ + decimal(value as nat)
}

/// The text that hides a payload in value mode, or the message that tells the
/// first symbol that no word of the cover stands for.
pub open spec fn encoded_value_mode(
    payload: Seq<u8>,
    seed: Seq<u8>,
    cover: Cover,
    num_bits: nat,
    mode: ValueMode,
) -> Result<Seq<char>, Seq<char>> {
    let map = char_value_map(num_bits);
    let values = symbols_of(bits_of(payload), num_bits);
    match first_without_word(cover.unique, map, mode, values) {
        Some(value) => Err(missing_word(value)),
        None => Ok(
            joined(
                value_run(
                    cover,
                    map,
                    mode,
                    initial_words(cover.entries, cover.n as nat),
                    RngState::fresh(seed),
                    values,
                ).0,
            ),
        ),
    }
}

/// Hides the bytes `contents` in a text made of words of `corpus`, in value
/// mode. Where the cover text has no word for a symbol, the symbol is named in
/// the refusal.
pub fn encode_char_value_map(
    contents: &Vec<u8>,
    seed_str: &str,
    corpus: &str,
    n_depth: usize,
    _consecutive_skips: usize,
    _depth_skip_threshold: usize,
    num_bits: usize,
    use_shuffle: bool,
    value_mode: ValueMode,
) -> (text: Result<String, String>)
    requires
        1 <= num_bits <= 8,
        value_mode matches ValueMode::CharValueMap(exponent) ==> two_to(exponent as nat)
            <= usize::MAX,
    ensures
        match encoded_value_mode(
            contents@,
            sha256_of(encode_utf8(seed_str@)),
            cover_of(corpus@, n_depth, 0, 0, false),
            num_bits as nat,
            value_mode,
        ) {
            Ok(hidden) => text is Ok && text->Ok_0@ == hidden,
            Err(message) => text is Err && text->Err_0@ == message,
        },
{
    proof {
        lemma_two_to_8();
    }
    let mut picks = create_rng_from_seed(seed_str);
    let char_to_value_map = make_char_to_value_map(num_bits);
    let value_vec = get_value_vec_from_char_value_mode(contents, num_bits);
    let lower = lowercased(corpus);
    let word_file_data = format_text_for_ngrams(lower.as_str());
    let (gram_hash, unique_words, total_words) = generate_ngrams(&word_file_data, n_depth);
    let ghost unique = texts(unique_words@);
    let ghost map = char_to_value_map@;
    proof {
        assert forall|i: int| 0 <= i < unique.len() implies bit_value(#[trigger] unique[i], map)
            <= usize::MAX by {
            lemma_value_map_bound(num_bits as nat, unique[i]);
        }
        assert(value_vec@.skip(0) == value_vec@);
    }
    let mut i: usize = 0;
    while i < value_vec.len()
        invariant
            i <= value_vec.len(),
            unique == texts(unique_words@),
            unique == cover_of(corpus@, n_depth, 0, 0, false).unique,
            map == char_to_value_map@,
            map == char_value_map(num_bits as nat),
            value_vec@ == symbols_of(bits_of(contents@), num_bits as nat),
            values_fit(unique, map, value_mode),
            first_without_word(unique, map, value_mode, value_vec@.skip(i as int))
                == first_without_word(unique, map, value_mode, value_vec@),
        decreases value_vec.len() - i,
    {
        let value = value_vec[i];
        proof {
            assert(value_vec@.skip(i as int).skip(1) == value_vec@.skip(i + 1));
        }
        let usable = collect_valued(&unique_words, &char_to_value_map, &value_mode, value);
        if usable.len() == 0 {
            let mut message = String::new();
            push_text(&mut message, "NOT ENOUGH WORDS WITH VALUE ");
            push_decimal(&mut message, value as usize);
            return Err(message);
        }
        i += 1;
    }
    proof {
        lemma_first_without_word(unique, map, value_mode, value_vec@);
    }
    wordify_from_char_value_mode(
        &gram_hash,
        &char_to_value_map,
        n_depth,
        &value_vec,
        num_bits,
        &unique_words,
        total_words,
        use_shuffle,
        value_mode,
        &mut picks,
    )
}

/// What encoding gives: a refusal of the number of bits or of the selector,
/// or what the algorithm that the selector names makes of the payload.
pub open spec fn encoded(
    payload: Seq<u8>,
    corpus: Seq<char>,
    seed: Seq<u8>,
    selector: Seq<char>,
    n: usize,
    limit: usize,
    threshold: usize,
    num_bits: usize,
) -> Result<Seq<char>, Seq<char>> {
    if num_bits > 8 || num_bits < 1 {
        Err(bits_refusal(num_bits))
    } else {
        match algorithm_named(selector, num_bits) {
            None => Err("Could not determine algorithm: "@ + selector),
            Some(Algorithm::Shuffle(ValueMode::CharBitMap)) => Ok(
                encoded_bit_mode(
                    payload,
                    seed,
                    cover_of(corpus, n, limit, threshold, true),
                    num_bits as nat,
                ),
            ),
            Some(Algorithm::NoShuffle(ValueMode::CharBitMap)) => Ok(
                encoded_bit_mode(
                    payload,
                    seed,
                    cover_of(corpus, n, limit, threshold, false),
                    num_bits as nat,
                ),
            ),
            Some(Algorithm::Shuffle(mode)) => encoded_value_mode(
                payload,
                seed,
                cover_of(corpus, n, 0, 0, false),
                num_bits as nat,
                mode,
            ),
            Some(Algorithm::NoShuffle(mode)) => encoded_value_mode(
                payload,
                seed,
                cover_of(corpus, n, 0, 0, false),
                num_bits as nat,
                mode,
            ),
        }
    }
}

/// A result is the outcome `expected`: the text that it names, or the refusal
/// with its message.
pub open spec fn is_outcome(result: Result<String, String>, expected: Result<Seq<char>, Seq<char>>) -> bool {
    match expected {
        Ok(hidden) => result is Ok && result->Ok_0@ == hidden,
        Err(message) => result is Err && result->Err_0@ == message,
    }
}

/// Hides the bytes `payload` in a text made of words of `corpus`, under the
/// passphrase `seed_str`, the algorithm that `alg_str` names and `num_bits` bits
/// per symbol.
pub fn encode(
    payload: &Vec<u8>,
    corpus: &str,
    seed_str: &str,
    alg_str: &str,
    n_depth: usize,
    consecutive_skips: usize,
    depth_skip_threshold: usize,
    num_bits: usize,
) -> (text: Result<String, String>)
    ensures
        is_outcome(
            text,
            encoded(
                payload@,
                corpus@,
                sha256_of(encode_utf8(seed_str@)),
                alg_str@,
                n_depth,
                consecutive_skips,
                depth_skip_threshold,
                num_bits,
            ),
        ),
{
    if num_bits > 8 || num_bits < 1 {
        return Err(refuse_bits(num_bits));
    }
    let alg = match get_algorithm_from_string(alg_str, num_bits) {
        Ok(alg) => alg,
        Err(message) => {
            return Err(message);
        },
    };
    let (use_shuffle, value_mode) = match alg {
        Algorithm::Shuffle(mode) => (true, mode),
        Algorithm::NoShuffle(mode) => (false, mode),
    };
    proof {
        lemma_two_to_8();
    }
    match value_mode {
        ValueMode::CharBitMap => encode_char_bit_map(
            payload,
            seed_str,
            corpus,
            n_depth,
            consecutive_skips,
            depth_skip_threshold,
            num_bits,
            use_shuffle,
        ),
        ValueMode::CharValueMap(_) => encode_char_value_map(
            payload,
            seed_str,
            corpus,
            n_depth,
            consecutive_skips,
            depth_skip_threshold,
            num_bits,
            use_shuffle,
            value_mode,
        ),
    }
}

} // verus!
