//! What holds of the codec as a whole: the decoder follows the encoder's
//! alphabets, reads the encoder's tokens back as the symbols, and gives the
//! payload back; skip words change nothing.

use crate::alphabet::alphabet_chars;
use crate::alphabet::injective;
use crate::alphabet::is_bit_alphabet;
use crate::alphabet::key_list;
use crate::alphabet::lemma_alphabet_chars;
use crate::alphabet::lemma_alphabet_keys;
use crate::alphabet::lemma_bit_value_is_listed_sum;
use crate::alphabet::lemma_filled_alphabet;
use crate::alphabet::lemma_initial_bit_map;
use crate::alphabet::lemma_inverse_map;
use crate::alphabet::lemma_key_list;
use crate::alphabet::lemma_listed_sum_same;
use crate::alphabet::listed_sum;
use crate::bitio::bits_of;
use crate::bitio::bits_value;
use crate::bitio::bytes_of;
use crate::bitio::lemma_bits_value_bound;
use crate::bitio::lemma_bits_value_of_value_bits;
use crate::bitio::lemma_symbols_below;
use crate::bitio::lemma_symbols_len;
use crate::bitio::lemma_two_to_8;
use crate::bitio::lemma_value_bits_of_bits_value;
use crate::bitio::packed_bits;
use crate::bitio::smaller;
use crate::bitio::symbols_of;
use crate::bitio::value_bits;
use crate::decode::decoded;
use crate::decode::decoded_bit_mode;
use crate::decode::is_recovered;
use crate::decode::total_bits;
use crate::decode::unwordify_run;
use crate::decode::unwordify_step;
use crate::encode::Cover;
use crate::encode::Progress;
use crate::encode::chosen;
use crate::encode::context_of;
use crate::encode::cover_of;
use crate::encode::encoded;
use crate::encode::encoded_bit_mode;
use crate::encode::first_progress;
use crate::encode::is_outcome;
use crate::encode::fits;
use crate::encode::fitting_words;
use crate::encode::guide_of;
use crate::encode::joined;
use crate::encode::lemma_first_seen_contains;
use crate::encode::lemma_leader_in_range;
use crate::encode::model_words;
use crate::encode::skipping_words;
use crate::encode::spaced;
use crate::encode::wordify_run;
use crate::encode::wordify_step;
use crate::ngram::Gram;
use crate::prng::RngState;
use crate::sorted::descending_keys;
use crate::text::lemma_words_of;
use crate::text::replaced;
use crate::text::split_on;
use crate::utils::ValueMode;
use crate::utils::bit_key;
use crate::utils::bit_value;
use crate::utils::cleaned_lower;
use crate::utils::common_chars;
use crate::utils::filled;
use crate::utils::guide_chars;
use crate::utils::initial_bit_map;
use crate::utils::inverse_map;
use crate::utils::lemma_common_chars_distinct;
use crate::utils::lemma_two_to_monotonic;
use crate::utils::set_apart_in;
use crate::utils::skip_word;
use crate::utils::two_to;
use crate::utils::without_final_space;
use vstd::prelude::*;

verus! {

/// No token holds a space.
pub open spec fn without_spaces(tokens: Gram) -> bool {
    forall|i: int| 0 <= i < tokens.len() ==> !(#[trigger] tokens[i]).contains(' ')
}

proof fn lemma_split_append(s: Seq<char>, t: Seq<char>, sep: char)
    requires
        !t.contains(sep),
    ensures
        split_on(s + t, sep) == split_on(s, sep).drop_last().push(split_on(s, sep).last() + t),
        split_on(s, sep).len() > 0,
    decreases t.len(),
{
    crate::text::lemma_split_on_nonempty(s, sep);
    let parts = split_on(s, sep);
    if t.len() == 0 {
        assert(s + t =~= s);
        assert(parts.last() + t =~= parts.last());
        assert(parts.drop_last().push(parts.last()) =~= parts);
    } else {
        let shorter = t.drop_last();
        assert(!shorter.contains(sep)) by {
            if shorter.contains(sep) {
                let i = choose|i: int| 0 <= i < shorter.len() && shorter[i] == sep;
                assert(t[i] == sep);
            }
        }
        assert(t.last() != sep) by {
            assert(t[t.len() - 1] == t.last());
        }
        lemma_split_append(s, shorter, sep);
        assert((s + t).drop_last() =~= s + shorter);
        assert((s + t).last() == t.last());
        let before = split_on(s + shorter, sep);
        assert(before.last() == parts.last() + shorter);
        assert(before.drop_last() =~= parts.drop_last());
        assert((parts.last() + shorter).push(t.last()) =~= parts.last() + t);
    }
}

proof fn lemma_split_spaced(tokens: Gram)
    requires
        without_spaces(tokens),
    ensures
        split_on(spaced(tokens), ' ') == tokens.push(Seq::<char>::empty()),
    decreases tokens.len(),
{
    if tokens.len() == 0 {
        assert(split_on(Seq::<char>::empty(), ' ') =~= tokens.push(Seq::<char>::empty()));
    } else {
        let fewer = tokens.drop_last();
        let last = tokens.last();
        assert(without_spaces(fewer)) by {
            assert forall|i: int| 0 <= i < fewer.len() implies !(#[trigger] fewer[i]).contains(
                ' ',
            ) by {
                assert(fewer[i] == tokens[i]);
            }
        }
        assert(!last.contains(' ')) by {
            assert(tokens[tokens.len() - 1] == last);
        }
        lemma_split_spaced(fewer);
        lemma_split_append(spaced(fewer), last, ' ');
        let whole = spaced(fewer) + last;
        assert(split_on(whole, ' ') =~= tokens) by {
            assert(fewer.push(Seq::<char>::empty()).drop_last() =~= fewer);
            assert(Seq::<char>::empty() + last =~= last);
            assert(fewer.push(last) =~= tokens);
        }
        assert(spaced(tokens) =~= whole.push(' '));
        assert(whole.push(' ').drop_last() =~= whole);
    }
}

/// Cutting the written text at its spaces gives the tokens back, where there
/// is a token and none holds a space.
pub proof fn lemma_split_joined(tokens: Gram)
    requires
        tokens.len() > 0,
        without_spaces(tokens),
    ensures
        split_on(joined(tokens), ' ') == tokens,
{
    let fewer = tokens.drop_last();
    let last = tokens.last();
    lemma_split_spaced(fewer);
    lemma_split_append(spaced(fewer), last, ' ');
    assert(joined(tokens) =~= spaced(fewer) + last) by {
    }
}

/// The keys of a bit map, the largest first, are the powers of two from the
/// highest down to 1, and then 0.
pub proof fn lemma_descending_keys(map: Map<usize, char>, num_bits: nat)
    requires
        num_bits <= 25,
        is_bit_alphabet(map, num_bits),
    ensures
        descending_keys(map.dom()).len() == num_bits + 1,
        forall|m: int|
            0 <= m <= num_bits ==> (#[trigger] descending_keys(map.dom())[m]) == bit_key(
                (num_bits - m) as nat,
            ),
        forall|m: int|
            0 <= m <= num_bits ==> map.contains_key(#[trigger] descending_keys(map.dom())[m]),
{
    lemma_alphabet_keys(map, num_bits);
    lemma_key_list(num_bits);
    let keys = key_list(num_bits);
    let desc = descending_keys(map.dom());
    assert(desc == keys.reverse());
    assert forall|m: int| 0 <= m <= num_bits implies (#[trigger] desc[m]) == bit_key(
        (num_bits - m) as nat,
    ) && map.contains_key(desc[m]) by {
        assert(desc[m] == keys[num_bits - m]);
        assert(keys.contains(keys[num_bits - m]));
    }
}

proof fn lemma_listed_sum_single(list: Seq<char>, map: Map<char, usize>, c: char)
    requires
        list.no_duplicates(),
        list.contains(c),
    ensures
        listed_sum(list, map, seq![c]) == map[c],
    decreases list.len(),
{
    let word = seq![c];
    if list.len() > 0 {
        let fewer = list.drop_last();
        assert(word.contains(c)) by {
            assert(word[0] == c);
        }
        if list.last() == c {
            lemma_listed_sum_none(fewer, map, word);
        } else {
            assert(fewer.contains(c)) by {
                let i = choose|i: int| 0 <= i < list.len() && list[i] == c;
                assert(fewer[i] == c);
            }
            lemma_listed_sum_single(fewer, map, c);
        }
    }
}

proof fn lemma_listed_sum_none(list: Seq<char>, map: Map<char, usize>, word: Seq<char>)
    requires
        forall|i: int| 0 <= i < list.len() ==> !word.contains(#[trigger] list[i]),
    ensures
        listed_sum(list, map, word) == 0,
    decreases list.len(),
{
    if list.len() > 0 {
        let fewer = list.drop_last();
        lemma_listed_sum_none(fewer, map, word);
    }
}

proof fn lemma_listed_sum_front(list: Seq<char>, map: Map<char, usize>, c: char, rest: Seq<char>)
    requires
        list.no_duplicates(),
        list.contains(c),
        !rest.contains(c),
    ensures
        listed_sum(list, map, seq![c] + rest) == map[c] + listed_sum(list, map, rest),
    decreases list.len(),
{
    let word = seq![c] + rest;
    assert forall|d: char| word.contains(d) <==> (d == c || rest.contains(d)) by {
        if d == c {
            assert(word[0] == d);
        }
        if rest.contains(d) {
            let i = choose|i: int| 0 <= i < rest.len() && rest[i] == d;
            assert(word[i + 1] == d);
        }
    }
    if list.len() > 0 {
        let fewer = list.drop_last();
        let l = list.last();
        if l == c {
            lemma_listed_sum_same(fewer, map, word, rest);
        } else {
            assert(fewer.contains(c)) by {
                let i = choose|i: int| 0 <= i < list.len() && list[i] == c;
                assert(fewer[i] == c);
            }
            lemma_listed_sum_front(fewer, map, c, rest);
        }
    }
}

/// What the greedy search gives from the `m`-th largest key on, for what
/// remains of a value that the keys from there on can add up to: characters
/// of those keys whose numbers add up to it, and at least one.
proof fn lemma_guide_from(map: Map<usize, char>, num_bits: nat, m: nat, rem: nat)
    requires
        num_bits <= 25,
        is_bit_alphabet(map, num_bits),
        m <= num_bits,
        rem < two_to((num_bits - m) as nat),
    ensures
        ({
            let desc = descending_keys(map.dom());
            let guide = guide_chars(rem, map, desc.skip(m as int));
            &&& guide.len() > 0
            &&& listed_sum(alphabet_chars(map), inverse_map(map), guide) == rem
            &&& forall|i: int|
                0 <= i < guide.len() ==> exists|j: int|
                    m <= j <= num_bits && #[trigger] guide[i] == map[#[trigger] desc[j]]
        }),
    decreases num_bits - m,
{
    let desc = descending_keys(map.dom());
    let keys = desc.skip(m as int);
    let guide = guide_chars(rem, map, keys);
    let list = alphabet_chars(map);
    let chars = inverse_map(map);
    lemma_descending_keys(map, num_bits);
    lemma_alphabet_chars(map, num_bits);
    lemma_inverse_map(map);
    let key = keys[0];
    assert(key == desc[m as int]);
    assert(key == bit_key((num_bits - m) as nat));
    let c = map[key];
    assert(chars.contains_key(c) && chars[c] == key);
    assert(list.contains(c));
    if key == rem {
        assert(guide == seq![c]);
        lemma_listed_sum_single(list, chars, c);
        assert(guide[0] == map[desc[m as int]]);
    } else if m == num_bits {
        assert(key == 0);
        assert(two_to(0) == 1);
    } else {
        let next = keys.skip(1);
        assert(next =~= desc.skip((m + 1) as int));
        assert(key == two_to((num_bits - m - 1) as nat));
        assert(two_to((num_bits - m) as nat) == 2 * two_to((num_bits - m - 1) as nat));
        if key < rem {
            let rest = guide_chars((rem - key) as nat, map, next);
            lemma_guide_from(map, num_bits, m + 1, (rem - key) as nat);
            assert(guide == seq![c] + rest);
            assert(!rest.contains(c)) by {
                if rest.contains(c) {
                    let i = choose|i: int| 0 <= i < rest.len() && rest[i] == c;
                    let j = choose|j: int|
                        m + 1 <= j <= num_bits && #[trigger] rest[i] == map[#[trigger] desc[j]];
                    assert(desc[j] == bit_key((num_bits - j) as nat));
                    assert(desc[j] != key) by {
                        lemma_keys_differ(num_bits, m as int, j);
                    }
                }
            }
            lemma_listed_sum_front(list, chars, c, rest);
            assert forall|i: int| 0 <= i < guide.len() implies exists|j: int|
                m <= j <= num_bits && #[trigger] guide[i] == map[#[trigger] desc[j]] by {
                if i == 0 {
                    assert(guide[0] == map[desc[m as int]]);
                } else {
                    assert(guide[i] == rest[i - 1]);
                    let j = choose|j: int|
                        m + 1 <= j <= num_bits && #[trigger] rest[i - 1] == map[#[trigger] desc[j]];
                    assert(m <= j <= num_bits && guide[i] == map[desc[j]]);
                }
            }
        } else {
            lemma_guide_from(map, num_bits, m + 1, rem);
            assert(guide == guide_chars(rem, map, next));
            assert forall|i: int| 0 <= i < guide.len() implies exists|j: int|
                m <= j <= num_bits && #[trigger] guide[i] == map[#[trigger] desc[j]] by {
                let j = choose|j: int|
                    m + 1 <= j <= num_bits && #[trigger] guide[i] == map[#[trigger] desc[j]];
                assert(m <= j <= num_bits && guide[i] == map[desc[j]]);
            }
        }
    }
}

proof fn lemma_keys_differ(num_bits: nat, a: int, b: int)
    requires
        0 <= a < b <= num_bits,
    ensures
        bit_key((num_bits - a) as nat) != bit_key((num_bits - b) as nat),
{
    if b == num_bits {
        crate::utils::lemma_two_to_monotonic(0, (num_bits - a - 1) as nat);
    } else {
        crate::alphabet::lemma_two_to_strict((num_bits - b - 1) as nat, (num_bits - a - 1) as nat);
    }
}

/// The guide string of a value below two to the power of the number of bits
/// is not empty, is made of characters of the bit map, and has the value it
/// was made for.
pub proof fn lemma_guide(map: Map<usize, char>, num_bits: nat, value: u8)
    requires
        num_bits <= 25,
        is_bit_alphabet(map, num_bits),
        value < two_to(num_bits),
    ensures
        guide_of(value, map).len() > 0,
        bit_value(guide_of(value, map), inverse_map(map)) == value,
        forall|i: int|
            0 <= i < guide_of(value, map).len() ==> inverse_map(map).contains_key(
                #[trigger] guide_of(value, map)[i],
            ) && common_chars().contains(guide_of(value, map)[i]),
{
    let desc = descending_keys(map.dom());
    let guide = guide_of(value, map);
    assert(desc.skip(0) =~= desc);
    lemma_guide_from(map, num_bits, 0, value as nat);
    lemma_alphabet_chars(map, num_bits);
    lemma_bit_value_is_listed_sum(alphabet_chars(map), inverse_map(map), guide);
    lemma_descending_keys(map, num_bits);
    lemma_inverse_map(map);
}

/// A word that fits the guide string of a value is no skip word and has
/// that value.
pub proof fn lemma_fitting_word(map: Map<usize, char>, num_bits: nat, value: u8, word: Seq<char>)
    requires
        num_bits <= 25,
        is_bit_alphabet(map, num_bits),
        value < two_to(num_bits),
        fits(word, guide_of(value, map), inverse_map(map)),
    ensures
        !skip_word(word, inverse_map(map)),
        bit_value(word, inverse_map(map)) == value,
{
    let guide = guide_of(value, map);
    let chars = inverse_map(map);
    let list = alphabet_chars(map);
    lemma_guide(map, num_bits, value);
    lemma_alphabet_chars(map, num_bits);
    assert forall|i: int| 0 <= i < list.len() implies (word.contains(#[trigger] list[i])
        <==> guide.contains(list[i])) by {
        assert(list.contains(list[i]));
    }
    lemma_listed_sum_same(list, chars, word, guide);
    lemma_bit_value_is_listed_sum(list, chars, word);
    lemma_bit_value_is_listed_sum(list, chars, guide);
}

/// No letter of the alphabet is a space.
pub proof fn lemma_letters_are_no_spaces()
    ensures
        !common_chars().contains(' '),
{
    lemma_common_chars_distinct();
    let s = common_chars();
    if s.contains(' ') {
        let i = choose|i: int| 0 <= i < s.len() && s[i] == ' ';
        assert(s[0] == 'i' && s[1] == 't' && s[2] == 'a' && s[3] == 'o' && s[4] == 'e');
        assert(s[5] == 'n' && s[6] == 's' && s[7] == 'h' && s[8] == 'r' && s[9] == 'd');
        assert(s[10] == 'l' && s[11] == 'c' && s[12] == 'u' && s[13] == 'm' && s[14] == 'w');
        assert(s[15] == 'f' && s[16] == 'g' && s[17] == 'y' && s[18] == 'p' && s[19] == 'b');
        assert(s[20] == 'v' && s[21] == 'k' && s[22] == 'j' && s[23] == 'x' && s[24] == 'q');
        assert(s[25] == 'z');
    }
}

/// The symbols as the numbers that the decoder reads.
pub open spec fn widened(values: Seq<u8>) -> Seq<usize> {
    Seq::new(values.len(), |i: int| values[i] as usize)
}

/// The encoder finds a word for every symbol: at no step is it left with the
/// guide string alone.
pub open spec fn never_fails(cover: Cover, at: Progress, values: Seq<u8>) -> bool
    decreases values.len(), cover.limit - at.skips,
{
    if values.len() == 0 {
        true
    } else {
        let step = wordify_step(cover, at, values[0]);
        fitting_words(cover.unique, guide_of(values[0], at.map), inverse_map(at.map)).len() > 0
            && never_fails(
            cover,
            step.2,
            if step.1 {
                values.skip(1)
            } else {
                values
            },
        )
    }
}

/// Every word that was kept as fitting fits, and is one of the words.
pub proof fn lemma_fitting_words(unique: Gram, guide: Seq<char>, chars: Map<char, usize>)
    ensures
        forall|i: int|
            0 <= i < fitting_words(unique, guide, chars).len() ==> fits(
                #[trigger] fitting_words(unique, guide, chars)[i],
                guide,
                chars,
            ) && unique.contains(fitting_words(unique, guide, chars)[i]),
    decreases unique.len(),
{
    if unique.len() > 0 {
        let fewer = unique.drop_last();
        lemma_fitting_words(fewer, guide, chars);
        let kept = fitting_words(unique, guide, chars);
        let before = fitting_words(fewer, guide, chars);
        assert forall|i: int| 0 <= i < kept.len() implies fits(#[trigger] kept[i], guide, chars)
            && unique.contains(kept[i]) by {
            if i < before.len() {
                assert(kept[i] == before[i]);
                let k = choose|k: int| 0 <= k < fewer.len() && fewer[k] == before[i];
                assert(unique[k] == kept[i]);
            } else {
                assert(kept[i] == unique.last());
                assert(unique[unique.len() - 1] == kept[i]);
            }
        }
    }
}

/// Every word that was kept as a skip word is one, and is one of the words.
pub proof fn lemma_skipping_words(unique: Gram, chars: Map<char, usize>)
    ensures
        forall|i: int|
            0 <= i < skipping_words(unique, chars).len() ==> skip_word(
                #[trigger] skipping_words(unique, chars)[i],
                chars,
            ) && unique.contains(skipping_words(unique, chars)[i]),
    decreases unique.len(),
{
    if unique.len() > 0 {
        let fewer = unique.drop_last();
        lemma_skipping_words(fewer, chars);
        let kept = skipping_words(unique, chars);
        let before = skipping_words(fewer, chars);
        assert forall|i: int| 0 <= i < kept.len() implies skip_word(#[trigger] kept[i], chars)
            && unique.contains(kept[i]) by {
            if i < before.len() {
                assert(kept[i] == before[i]);
                let k = choose|k: int| 0 <= k < fewer.len() && fewer[k] == before[i];
                assert(unique[k] == kept[i]);
            } else {
                assert(kept[i] == unique.last());
                assert(unique[unique.len() - 1] == kept[i]);
            }
        }
    }
}

/// The choice among candidates is one of them.
pub proof fn lemma_chosen_in_range(
    entries: Seq<(Gram, usize)>,
    usable: Gram,
    history: Gram,
    use_n: nat,
    total: usize,
    state: RngState,
)
    requires
        usable.len() > 0,
    ensures
        0 <= chosen(entries, usable, history, use_n, total, state).0 < usable.len(),
    decreases use_n,
{
    if use_n <= 1 {
        let bound = usable.len();
        let d = crate::prng::drawn_index(state.seed, state.draws, bound as usize) as int;
        let m = bound as int;
        assert(0 <= d % m < m) by (nonlinear_arith)
            requires
                0 < m,
                0 <= d,
        ;
    } else {
        lemma_leader_in_range(entries, usable, context_of(history, use_n), total, usable.len());
        lemma_chosen_in_range(entries, usable, history, (use_n - 1) as nat, total, state);
    }
}

/// What one step of the encoder gives the decoder: a skip word, which the
/// decoder passes over while both keep their alphabet; or a token in which the
/// decoder reads the symbol, after which both have the same alphabet again.
pub proof fn lemma_step_decodes(cover: Cover, at: Progress, value: u8, num_bits: nat)
    requires
        num_bits <= 25,
        is_bit_alphabet(at.map, num_bits),
        value < two_to(num_bits),
        without_spaces(cover.unique),
        cover.use_shuffle ==> fitting_words(
            cover.unique,
            guide_of(value, at.map),
            inverse_map(at.map),
        ).len() > 0,
    ensures
        ({
            let step = wordify_step(cover, at, value);
            let back = unwordify_step(
                step.0,
                at.map,
                at.alphabet,
                cover.use_shuffle,
                ValueMode::CharBitMap,
            );
            &&& is_bit_alphabet(step.2.map, num_bits)
            &&& !step.0.contains(' ')
            &&& step.1 ==> back == (Some(value as usize), step.2.map, step.2.alphabet)
            &&& !step.1 ==> back == (None::<usize>, at.map, at.alphabet) && step.2.map == at.map
                && step.2.alphabet == at.alphabet && at.skips < cover.limit && step.2.skips
                == at.skips + 1
        }),
{
    let chars = inverse_map(at.map);
    let guide = guide_of(value, at.map);
    let usable = fitting_words(cover.unique, guide, chars);
    let skips = skipping_words(cover.unique, chars);
    let step = wordify_step(cover, at, value);
    lemma_guide(at.map, num_bits, value);
    lemma_fitting_words(cover.unique, guide, chars);
    lemma_skipping_words(cover.unique, chars);
    lemma_filled_alphabet(at.map, num_bits, at.alphabet);
    lemma_letters_are_no_spaces();
    if usable.len() == 0 {
        assert(step.0 == guide);
        assert(fits(guide, guide, chars)) by {
            assert forall|k: int| 0 <= k < guide.len() implies guide.contains(#[trigger] guide[k]) by {}
        }
        lemma_fitting_word(at.map, num_bits, value, guide);
        assert(!guide.contains(' ')) by {
            if guide.contains(' ') {
                let i = choose|i: int| 0 <= i < guide.len() && guide[i] == ' ';
                assert(common_chars().contains(guide[i]));
            }
        }
    } else if usable.len() == 1 {
        assert(fits(usable[0], guide, chars));
        lemma_fitting_word(at.map, num_bits, value, usable[0]);
        assert(cover.unique.contains(usable[0]));
    } else {
        let pick = chosen(cover.entries, usable, at.history, cover.n as nat, cover.total, at.picks);
        lemma_chosen_in_range(
            cover.entries,
            usable,
            at.history,
            cover.n as nat,
            cover.total,
            at.picks,
        );
        if pick.1 <= cover.threshold && at.skips < cover.limit && skips.len() > 0 {
            let other = chosen(cover.entries, skips, at.history, cover.n as nat, cover.total, pick.2);
            lemma_chosen_in_range(
                cover.entries,
                skips,
                at.history,
                cover.n as nat,
                cover.total,
                pick.2,
            );
            assert(skip_word(skips[other.0], chars));
            assert(cover.unique.contains(skips[other.0]));
        } else {
            assert(fits(usable[pick.0], guide, chars));
            lemma_fitting_word(at.map, num_bits, value, usable[pick.0]);
            assert(cover.unique.contains(usable[pick.0]));
        }
    }
    assert(!step.0.contains(' ')) by {
        if cover.unique.contains(step.0) {
            let i = choose|i: int| 0 <= i < cover.unique.len() && cover.unique[i] == step.0;
        }
    }
}

/// The decoder reads the encoder's tokens back as the symbols, and ends with
/// the encoder's alphabet and generator: after the tokens of any number of
/// symbols both stand at the same place. This needs no more than that no token
/// holds a space and, where the alphabet is drawn anew after each symbol, that
/// the encoder found a word for every symbol.
pub proof fn lemma_tokens_decode(cover: Cover, at: Progress, values: Seq<u8>, num_bits: nat)
    requires
        num_bits <= 25,
        is_bit_alphabet(at.map, num_bits),
        forall|i: int| 0 <= i < values.len() ==> (#[trigger] values[i]) < two_to(num_bits),
        without_spaces(cover.unique),
        cover.use_shuffle ==> never_fails(cover, at, values),
    ensures
        ({
            let run = wordify_run(cover, at, values);
            let back = unwordify_run(
                run.0,
                at.map,
                at.alphabet,
                cover.use_shuffle,
                ValueMode::CharBitMap,
            );
            &&& back.0 == widened(values)
            &&& back.1 == run.1.map
            &&& back.2 == run.1.alphabet
            &&& without_spaces(run.0)
            &&& run.0.len() >= values.len()
            &&& is_bit_alphabet(run.1.map, num_bits)
        }),
    decreases values.len(), cover.limit - at.skips,
{
    let run = wordify_run(cover, at, values);
    if values.len() == 0 {
        assert(widened(values) =~= Seq::<usize>::empty());
    } else {
        let step = wordify_step(cover, at, values[0]);
        let left = if step.1 {
            values.skip(1)
        } else {
            values
        };
        lemma_step_decodes(cover, at, values[0], num_bits);
        assert forall|i: int| 0 <= i < left.len() implies (#[trigger] left[i]) < two_to(num_bits) by {
            if step.1 {
                assert(left[i] == values[i + 1]);
            }
        }
        lemma_tokens_decode(cover, step.2, left, num_bits);
        let rest = wordify_run(cover, step.2, left);
        let tokens = seq![step.0] + rest.0;
        assert(run.0 == tokens);
        assert(tokens[0] == step.0);
        assert(tokens.skip(1) =~= rest.0);
        assert forall|i: int| 0 <= i < tokens.len() implies !(#[trigger] tokens[i]).contains(' ') by {
            if i > 0 {
                assert(tokens[i] == rest.0[i - 1]);
            }
        }
        if step.1 {
            assert(widened(values) =~= seq![values[0] as usize] + widened(left));
        }
    }
}

/// Writing the symbols of a bit stream gives the bit stream back, where the
/// budget is the length of the stream, or is no less and the stream is made of
/// whole symbols.
pub proof fn lemma_packed_symbols(bits: Seq<bool>, width: nat, budget: nat)
    requires
        1 <= width <= 8,
        budget == bits.len() || (bits.len() % width == 0 && budget >= bits.len()),
    ensures
        packed_bits(widened(symbols_of(bits, width)), width, budget) == bits,
    decreases bits.len(),
{
    lemma_two_to_8();
    lemma_two_to_monotonic(width, 8);
    let symbols = symbols_of(bits, width);
    let values = widened(symbols);
    if bits.len() == 0 {
        assert(bits =~= Seq::<bool>::empty());
    } else if bits.len() <= width {
        lemma_bits_value_bound(bits);
        lemma_two_to_monotonic(bits.len(), width);
        let v = bits_value(bits);
        assert(values.len() == 1);
        assert(values[0] == v);
        assert(bits.len() == smaller(width, budget)) by {
            if budget != bits.len() {
                let n = bits.len() as int;
                let w = width as int;
                assert(n == w) by (nonlinear_arith)
                    requires
                        0 < n <= w,
                        n % w == 0,
                ;
            }
        }
        vstd::arithmetic::div_mod::lemma_small_mod(v, two_to(bits.len()));
        lemma_value_bits_of_bits_value(bits);
        assert(values.skip(1).len() == 0);
        let count = smaller(width, budget);
        let tail = packed_bits(values.skip(1), width, (budget - count) as nat);
        assert(tail =~= Seq::<bool>::empty());
        assert(packed_bits(values, width, budget) == value_bits(
            values[0] as nat % two_to(count),
            count,
        ) + tail);
        assert(bits + Seq::<bool>::empty() =~= bits);
    } else {
        let first = bits.take(width as int);
        let rest = bits.skip(width as int);
        lemma_bits_value_bound(first);
        let v = bits_value(first);
        assert(values[0] == v);
        assert(values.skip(1) =~= widened(symbols_of(rest, width)));
        assert(smaller(width, budget) == width);
        vstd::arithmetic::div_mod::lemma_small_mod(v, two_to(width));
        lemma_value_bits_of_bits_value(first);
        if budget != bits.len() {
            let n = bits.len() as int;
            let w = width as int;
            assert((n - w) % w == 0) by (nonlinear_arith)
                requires
                    0 < w < n,
                    n % w == 0,
            ;
        }
        lemma_packed_symbols(rest, width, (budget - width) as nat);
        let tail = packed_bits(values.skip(1), width, (budget - width) as nat);
        assert(tail == rest);
        assert(packed_bits(values, width, budget) == value_bits(
            values[0] as nat % two_to(width),
            width,
        ) + tail);
        assert(first + rest =~= bits);
    }
}

/// The bits of a sequence of bytes fill those bytes again.
pub proof fn lemma_bytes_of_bits(bytes: Seq<u8>)
    ensures
        bytes_of(bits_of(bytes)) == bytes,
{
    let bits = bits_of(bytes);
    lemma_two_to_8();
    assert forall|i: int| 0 <= i < bytes.len() implies bytes_of(bits)[i] == bytes[i] by {
        let piece = bits.subrange(8 * i, 8 * i + 8);
        lemma_bits_value_of_value_bits(bytes[i] as nat, 8);
        assert(piece =~= value_bits(bytes[i] as nat, 8)) by {
        }
    }
}

proof fn lemma_budget_suffices(tokens: nat, symbols: nat, num_bits: nat, len: nat)
    requires
        tokens >= symbols,
        symbols * num_bits >= 8 * len,
    ensures
        total_bits(tokens, num_bits) >= 8 * len,
{
    let t = tokens as int;
    let s = symbols as int;
    let b = num_bits as int;
    let l = len as int;
    assert(t * b >= 8 * l) by (nonlinear_arith)
        requires
            t >= s,
            s * b >= 8 * l,
            b >= 0,
    ;
}

/// The text of a payload never spoils the payload's bits: the budget for
/// the tokens is the number of the payload's bits, or the payload is made of
/// whole symbols.
pub open spec fn keeps_last_symbol(payload_len: nat, tokens: nat, num_bits: nat) -> bool {
    (8 * payload_len) % num_bits == 0 || total_bits(tokens, num_bits) == 8 * payload_len
}

/// Decoding what was encoded gives the payload back, in bit mode.
///
/// This holds where no word of the cover holds a space; where, if the
/// alphabet is drawn anew after each symbol, the encoder found a word for every
/// symbol; and where the tokens give the decoder the budget of the payload's
/// bits, or the payload is made of whole symbols. A shorter last symbol is
/// written by the decoder with as many bits as the budget has left, and skip
/// words add to the budget.
pub proof fn lemma_round_trip(payload: Seq<u8>, seed: Seq<u8>, cover: Cover, num_bits: nat)
    requires
        1 <= num_bits <= 8,
        without_spaces(cover.unique),
        cover.use_shuffle ==> never_fails(
            cover,
            first_progress(seed, cover, num_bits),
            symbols_of(bits_of(payload), num_bits),
        ),
        keeps_last_symbol(
            payload.len(),
            wordify_run(
                cover,
                first_progress(seed, cover, num_bits),
                symbols_of(bits_of(payload), num_bits),
            ).0.len(),
            num_bits,
        ),
    ensures
        decoded_bit_mode(
            encoded_bit_mode(payload, seed, cover, num_bits),
            seed,
            num_bits,
            cover.use_shuffle,
            ValueMode::CharBitMap,
        ) == payload,
{
    let at = first_progress(seed, cover, num_bits);
    let bits = bits_of(payload);
    let symbols = symbols_of(bits, num_bits);
    let run = wordify_run(cover, at, symbols);
    let tokens = run.0;
    let text = joined(tokens);
    lemma_initial_bit_map(num_bits);
    lemma_filled_alphabet(initial_bit_map(num_bits), num_bits, RngState::fresh(seed));
    lemma_symbols_below(bits, num_bits);
    lemma_symbols_len(bits, num_bits);
    lemma_tokens_decode(cover, at, symbols, num_bits);
    lemma_bytes_of_bits(payload);
    let read = split_on(text, ' ');
    let back = unwordify_run(read, at.map, at.alphabet, cover.use_shuffle, ValueMode::CharBitMap);
    if tokens.len() == 0 {
        assert(symbols.len() == 0);
        assert(num_bits * 0 == 0);
        assert(bits.len() == 0);
        assert(payload.len() == 0);
        assert(text =~= Seq::<char>::empty());
        assert(read =~= seq![Seq::<char>::empty()]);
        assert(skip_word(read[0], inverse_map(at.map)));
        assert(read.skip(1).len() == 0);
        let first = unwordify_step(
            read[0],
            at.map,
            at.alphabet,
            cover.use_shuffle,
            ValueMode::CharBitMap,
        );
        assert(first.0 is None && first.1 == at.map && first.2 == at.alphabet);
        let rest = unwordify_run(
            read.skip(1),
            first.1,
            first.2,
            cover.use_shuffle,
            ValueMode::CharBitMap,
        );
        assert(rest.0 =~= Seq::<usize>::empty());
        assert(back.0 == rest.0);
        assert(packed_bits(back.0, num_bits, total_bits(read.len(), num_bits)).len() == 0);
        assert(bytes_of(Seq::<bool>::empty()) =~= payload);
    } else {
        lemma_split_joined(tokens);
        assert(read == tokens);
        assert(back.0 == widened(symbols));
        let budget = total_bits(tokens.len(), num_bits);
        if (8 * payload.len()) % num_bits == 0 {
            assert(symbols.len() * num_bits == num_bits * symbols.len()) by (nonlinear_arith);
            lemma_budget_suffices(tokens.len(), symbols.len(), num_bits, payload.len());
        }
        lemma_packed_symbols(bits, num_bits, budget);
    }
}

/// Decoding what was encoded gives the payload back, in bit mode with one
/// alphabet for the whole text. Where the cover has no word for a symbol, the
/// guide string stands for it, and the decoder reads it as the symbol.
pub proof fn lemma_round_trip_without_shuffle(
    payload: Seq<u8>,
    seed: Seq<u8>,
    cover: Cover,
    num_bits: nat,
)
    requires
        1 <= num_bits <= 8,
        !cover.use_shuffle,
        without_spaces(cover.unique),
        keeps_last_symbol(
            payload.len(),
            wordify_run(
                cover,
                first_progress(seed, cover, num_bits),
                symbols_of(bits_of(payload), num_bits),
            ).0.len(),
            num_bits,
        ),
    ensures
        decoded_bit_mode(
            encoded_bit_mode(payload, seed, cover, num_bits),
            seed,
            num_bits,
            false,
            ValueMode::CharBitMap,
        ) == payload,
{
    lemma_round_trip(payload, seed, cover, num_bits);
}

/// Decoding what was encoded gives the payload back, in bit mode with an
/// alphabet drawn anew after each symbol, where the encoder found a word for
/// every symbol.
pub proof fn lemma_round_trip_with_shuffle(
    payload: Seq<u8>,
    seed: Seq<u8>,
    cover: Cover,
    num_bits: nat,
)
    requires
        1 <= num_bits <= 8,
        cover.use_shuffle,
        without_spaces(cover.unique),
        never_fails(
            cover,
            first_progress(seed, cover, num_bits),
            symbols_of(bits_of(payload), num_bits),
        ),
        keeps_last_symbol(
            payload.len(),
            wordify_run(
                cover,
                first_progress(seed, cover, num_bits),
                symbols_of(bits_of(payload), num_bits),
            ).0.len(),
            num_bits,
        ),
    ensures
        decoded_bit_mode(
            encoded_bit_mode(payload, seed, cover, num_bits),
            seed,
            num_bits,
            true,
            ValueMode::CharBitMap,
        ) == payload,
{
    lemma_round_trip(payload, seed, cover, num_bits);
}

/// The alphabet and the generator's state after a number of draws.
pub open spec fn alphabet_after(map: Map<usize, char>, state: RngState, draws: nat) -> (
    Map<usize, char>,
    RngState,
)
    decreases draws,
{
    if draws == 0 {
        (map, state)
    } else {
        let before = alphabet_after(map, state, (draws - 1) as nat);
        filled(before.0, before.1)
    }
}

proof fn lemma_alphabet_after_first(map: Map<usize, char>, state: RngState, draws: nat)
    ensures
        alphabet_after(filled(map, state).0, filled(map, state).1, draws) == alphabet_after(
            map,
            state,
            draws + 1,
        ),
    decreases draws,
{
    if draws > 0 {
        lemma_alphabet_after_first(map, state, (draws - 1) as nat);
    } else {
        assert(alphabet_after(map, state, 1) == filled(
            alphabet_after(map, state, 0).0,
            alphabet_after(map, state, 0).1,
        ));
    }
}

/// The bit map is well formed: for every number of bits from 1 to 8 it has,
/// before the first draw and after any number of draws, exactly one entry
/// more than bits; its keys are 0 and the powers of two below two to the power
/// of the number of bits; and its characters are distinct letters of the
/// alphabet.
pub proof fn lemma_alphabet_well_formed(num_bits: nat, state: RngState, draws: nat)
    requires
        1 <= num_bits <= 8,
    ensures
        ({
            let map = alphabet_after(initial_bit_map(num_bits), state, draws).0;
            &&& is_bit_alphabet(map, num_bits)
            &&& map.dom().len() == num_bits + 1
            &&& forall|k: usize|
                map.contains_key(k) <==> (k == 0 || exists|i: nat|
                    i < num_bits && k == #[trigger] two_to(i))
            &&& injective(map)
        }),
    decreases draws,
{
    lemma_initial_bit_map(num_bits);
    let map = alphabet_after(initial_bit_map(num_bits), state, draws).0;
    if draws > 0 {
        lemma_alphabet_well_formed(num_bits, state, (draws - 1) as nat);
        let before = alphabet_after(initial_bit_map(num_bits), state, (draws - 1) as nat);
        lemma_filled_alphabet(before.0, num_bits, before.1);
    }
    lemma_key_list(num_bits);
    let keys = key_list(num_bits);
    assert forall|k: usize|
        map.contains_key(k) <==> (k == 0 || exists|i: nat|
            i < num_bits && k == #[trigger] two_to(i)) by {
        if map.contains_key(k) {
            let j = choose|j: int| 0 <= j < keys.len() && keys[j] == k;
            if j > 0 {
                let i = (j - 1) as nat;
            }
        }
        if k == 0 {
            assert(keys[0] == bit_key(0));
        }
        if exists|i: nat| i < num_bits && k == #[trigger] two_to(i) {
            let i = choose|i: nat| i < num_bits && k == #[trigger] two_to(i);
            assert(keys[(i + 1) as int] == bit_key(i + 1));
        }
    }
}

/// The two maps are consistent: before the first draw and after any number
/// of draws, the map from characters to keys is the inverse of the bit map: it leads from
/// the character of each key back to the key, and holds no other character.
pub proof fn lemma_inverse_consistent(num_bits: nat, state: RngState, draws: nat)
    requires
        1 <= num_bits <= 8,
    ensures
        ({
            let map = alphabet_after(initial_bit_map(num_bits), state, draws).0;
            let inverse = inverse_map(map);
            &&& forall|k: usize|
                map.contains_key(k) ==> inverse.contains_key(#[trigger] map[k]) && inverse[map[k]]
                    == k
            &&& forall|c: char|
                (#[trigger] inverse.contains_key(c)) ==> map.contains_key(inverse[c])
                    && map[inverse[c]] == c
        }),
{
    lemma_alphabet_well_formed(num_bits, state, draws);
    lemma_inverse_map(alphabet_after(initial_bit_map(num_bits), state, draws).0);
}

/// The decoder draws its alphabet anew once for each token that is no skip
/// word, and never otherwise.
pub proof fn lemma_decoder_alphabet(
    tokens: Gram,
    map: Map<usize, char>,
    state: RngState,
    use_shuffle: bool,
    mode: ValueMode,
)
    ensures
        ({
            let run = unwordify_run(tokens, map, state, use_shuffle, mode);
            (run.1, run.2) == if use_shuffle {
                alphabet_after(map, state, run.0.len())
            } else {
                (map, state)
            }
        }),
    decreases tokens.len(),
{
    if tokens.len() > 0 {
        let step = unwordify_step(tokens[0], map, state, use_shuffle, mode);
        lemma_decoder_alphabet(tokens.skip(1), step.1, step.2, use_shuffle, mode);
        let rest = unwordify_run(tokens.skip(1), step.1, step.2, use_shuffle, mode);
        if step.0 is Some && use_shuffle {
            lemma_alphabet_after_first(map, state, rest.0.len());
        }
    }
}

/// The decoder keeps step with the encoder: when it has read the tokens that
/// the encoder put for `k` symbols, it has met `k` tokens that are no skip words, and its
/// alphabet and generator are those of the encoder: the alphabet after `k`
/// draws where it is drawn anew after each symbol, the first alphabet
/// otherwise. Where the alphabet is drawn anew, this asks that the encoder
/// found a word for each of the symbols.
pub proof fn lemma_lockstep(cover: Cover, at: Progress, values: Seq<u8>, num_bits: nat)
    requires
        1 <= num_bits <= 8,
        is_bit_alphabet(at.map, num_bits),
        forall|i: int| 0 <= i < values.len() ==> (#[trigger] values[i]) < two_to(num_bits),
        without_spaces(cover.unique),
        cover.use_shuffle ==> never_fails(cover, at, values),
    ensures
        ({
            let run = wordify_run(cover, at, values);
            let back = unwordify_run(
                run.0,
                at.map,
                at.alphabet,
                cover.use_shuffle,
                ValueMode::CharBitMap,
            );
            &&& back.0.len() == values.len()
            &&& back.1 == run.1.map
            &&& back.2 == run.1.alphabet
            &&& (run.1.map, run.1.alphabet) == if cover.use_shuffle {
                alphabet_after(at.map, at.alphabet, values.len())
            } else {
                (at.map, at.alphabet)
            }
        }),
{
    lemma_tokens_decode(cover, at, values, num_bits);
    lemma_decoder_alphabet(
        wordify_run(cover, at, values).0,
        at.map,
        at.alphabet,
        cover.use_shuffle,
        ValueMode::CharBitMap,
    );
}

/// Reading one list of tokens after another is reading them as one.
pub proof fn lemma_unwordify_concat(
    first: Gram,
    second: Gram,
    map: Map<usize, char>,
    state: RngState,
    use_shuffle: bool,
    mode: ValueMode,
)
    ensures
        ({
            let head = unwordify_run(first, map, state, use_shuffle, mode);
            let tail = unwordify_run(second, head.1, head.2, use_shuffle, mode);
            unwordify_run(first + second, map, state, use_shuffle, mode) == (
                head.0 + tail.0,
                tail.1,
                tail.2,
            )
        }),
    decreases first.len(),
{
    let whole = first + second;
    let head = unwordify_run(first, map, state, use_shuffle, mode);
    let tail = unwordify_run(second, head.1, head.2, use_shuffle, mode);
    if first.len() == 0 {
        assert(whole =~= second);
        assert(head.0 + tail.0 =~= tail.0);
    } else {
        let step = unwordify_step(first[0], map, state, use_shuffle, mode);
        assert(whole[0] == first[0]);
        assert(whole.skip(1) =~= first.skip(1) + second);
        lemma_unwordify_concat(first.skip(1), second, step.1, step.2, use_shuffle, mode);
        let rest = unwordify_run(first.skip(1), step.1, step.2, use_shuffle, mode);
        if step.0 is Some {
            assert(seq![step.0->Some_0] + (rest.0 + tail.0) =~= (seq![step.0->Some_0] + rest.0)
                + tail.0);
        }
    }
}

/// A skip word among the tokens changes neither the values that the decoder
/// reads nor where it ends.
pub proof fn lemma_skip_token(
    before: Gram,
    word: Seq<char>,
    after: Gram,
    map: Map<usize, char>,
    state: RngState,
    use_shuffle: bool,
    mode: ValueMode,
)
    requires
        skip_word(word, inverse_map(unwordify_run(before, map, state, use_shuffle, mode).1)),
    ensures
        unwordify_run(before + seq![word] + after, map, state, use_shuffle, mode) == unwordify_run(
            before + after,
            map,
            state,
            use_shuffle,
            mode,
        ),
{
    let head = unwordify_run(before, map, state, use_shuffle, mode);
    let longer = seq![word] + after;
    assert(before + seq![word] + after =~= before + longer);
    lemma_unwordify_concat(before, longer, map, state, use_shuffle, mode);
    lemma_unwordify_concat(before, after, map, state, use_shuffle, mode);
    assert(longer[0] == word);
    assert(longer.skip(1) =~= after);
}

/// Values that are all written in full give the same bits under every budget
/// that lets them.
pub proof fn lemma_packed_in_full(values: Seq<usize>, width: nat, budget: nat, other: nat)
    requires
        width * values.len() <= budget,
        width * values.len() <= other,
    ensures
        packed_bits(values, width, budget) == packed_bits(values, width, other),
    decreases values.len(),
{
    if values.len() > 0 {
        let w = width as int;
        let n = values.len() as int;
        assert(w * (n - 1) + w == w * n) by (nonlinear_arith);
        lemma_packed_in_full(values.skip(1), width, (budget - width) as nat, (other - width) as nat);
    }
}

proof fn lemma_total_bits_grows(tokens: nat, num_bits: nat)
    ensures
        total_bits(tokens, num_bits) <= total_bits(tokens + 1, num_bits),
{
    let t = tokens as int;
    let b = num_bits as int;
    assert((t * b / 8) * 8 <= ((t + 1) * b / 8) * 8) by (nonlinear_arith)
        requires
            t >= 0,
            b >= 0,
    ;
}

/// The number of tokens that the decoder counts in the text of `tokens`: a
/// text without tokens is read as one empty token.
pub open spec fn tokens_read(tokens: Gram) -> nat {
    if tokens.len() == 0 {
        1
    } else {
        tokens.len()
    }
}

proof fn lemma_without_spaces_concat(first: Gram, second: Gram)
    requires
        without_spaces(first),
        without_spaces(second),
    ensures
        without_spaces(first + second),
{
}

/// A further token that is a skip word where it stands, put anywhere into a
/// text, does not change what the text decodes to.
///
/// The decoder's budget grows with the number of tokens. The law holds
/// where the further token leaves the budget as it was, or the budget was
/// large enough to write every value in full; otherwise a shorter last symbol
/// would be written with more bits than before.
pub proof fn lemma_skip_word_changes_nothing(
    before: Gram,
    word: Seq<char>,
    after: Gram,
    seed: Seq<u8>,
    num_bits: nat,
    use_shuffle: bool,
    mode: ValueMode,
)
    requires
        without_spaces(before),
        without_spaces(after),
        !word.contains(' '),
        ({
            let start = filled(initial_bit_map(num_bits), RngState::fresh(seed));
            let head = unwordify_run(before, start.0, start.1, use_shuffle, mode);
            let whole = unwordify_run(before + after, start.0, start.1, use_shuffle, mode);
            &&& skip_word(word, inverse_map(head.1))
            &&& total_bits(tokens_read(before + after), num_bits) == total_bits(
                (before + after).len() + 1,
                num_bits,
            ) || num_bits * whole.0.len() <= total_bits(tokens_read(before + after), num_bits)
        }),
    ensures
        decoded_bit_mode(joined(before + seq![word] + after), seed, num_bits, use_shuffle, mode)
            == decoded_bit_mode(joined(before + after), seed, num_bits, use_shuffle, mode),
{
    let start = filled(initial_bit_map(num_bits), RngState::fresh(seed));
    let plain = before + after;
    let longer = before + seq![word] + after;
    let single = seq![word];
    assert(without_spaces(single)) by {
        assert forall|i: int| 0 <= i < single.len() implies !(#[trigger] single[i]).contains(' ') by {}
    }
    lemma_without_spaces_concat(before, single);
    lemma_without_spaces_concat(before + single, after);
    lemma_without_spaces_concat(before, after);
    lemma_split_joined(longer);
    lemma_skip_token(before, word, after, start.0, start.1, use_shuffle, mode);
    let read = split_on(joined(plain), ' ');
    let values = unwordify_run(plain, start.0, start.1, use_shuffle, mode).0;
    if plain.len() == 0 {
        assert(joined(plain) =~= Seq::<char>::empty());
        assert(read =~= seq![Seq::<char>::empty()]);
        assert(skip_word(read[0], inverse_map(start.0)));
        assert(read.skip(1).len() == 0);
        let first = unwordify_step(read[0], start.0, start.1, use_shuffle, mode);
        let rest = unwordify_run(read.skip(1), first.1, first.2, use_shuffle, mode);
        assert(rest.0 =~= Seq::<usize>::empty());
        assert(unwordify_run(read, start.0, start.1, use_shuffle, mode).0 == rest.0);
        assert(values =~= Seq::<usize>::empty());
        assert(longer.len() == 1);
    } else {
        lemma_split_joined(plain);
        assert(longer.len() == plain.len() + 1);
        lemma_total_bits_grows(plain.len(), num_bits);
        if total_bits(plain.len(), num_bits) != total_bits(plain.len() + 1, num_bits) {
            lemma_packed_in_full(
                values,
                num_bits,
                total_bits(plain.len(), num_bits),
                total_bits(plain.len() + 1, num_bits),
            );
        }
    }
}

/// The words of a cover hold no space.
pub proof fn lemma_cover_without_spaces(
    corpus: Seq<char>,
    n: usize,
    limit: usize,
    threshold: usize,
    use_shuffle: bool,
)
    ensures
        without_spaces(cover_of(corpus, n, limit, threshold, use_shuffle).unique),
{
    let words = model_words(corpus);
    let unique = cover_of(corpus, n, limit, threshold, use_shuffle).unique;
    lemma_words_of(crate::utils::cleaned(crate::text::lowercase_of(corpus)));
    assert forall|i: int| 0 <= i < unique.len() implies !(#[trigger] unique[i]).contains(' ') by {
        let w = unique[i];
        lemma_first_seen_contains(words, w);
    }
}

/// Round trip through the entry points, with one alphabet for the whole
/// text: what `encode` makes of a payload under the selector `char-bit`,
/// `decode` turns back into the payload under the same passphrase and number of
/// bits.
pub proof fn lemma_round_trip_char_bit(
    payload: Seq<u8>,
    corpus: Seq<char>,
    seed: Seq<u8>,
    n: usize,
    limit: usize,
    threshold: usize,
    num_bits: usize,
)
    requires
        1 <= num_bits <= 8,
        ({
            let cover = cover_of(corpus, n, limit, threshold, false);
            keeps_last_symbol(
                payload.len(),
                wordify_run(
                    cover,
                    first_progress(seed, cover, num_bits as nat),
                    symbols_of(bits_of(payload), num_bits as nat),
                ).0.len(),
                num_bits as nat,
            )
        }),
    ensures
        encoded(payload, corpus, seed, "char-bit"@, n, limit, threshold, num_bits) is Ok,
        decoded(
            encoded(payload, corpus, seed, "char-bit"@, n, limit, threshold, num_bits)->Ok_0,
            seed,
            "char-bit"@,
            num_bits,
        ) == Ok::<Seq<u8>, Seq<char>>(payload),
{
    let cover = cover_of(corpus, n, limit, threshold, false);
    lemma_cover_without_spaces(corpus, n, limit, threshold, false);
    lemma_round_trip(payload, seed, cover, num_bits as nat);
}

/// Round trip through the entry points, with an alphabet drawn anew after
/// each symbol: what `encode` makes of a payload under the selector
/// `char-bit-shuffle`, `decode` turns back into the payload under the same
/// passphrase and number of bits, where the cover had a word for every symbol.
pub proof fn lemma_round_trip_char_bit_shuffle(
    payload: Seq<u8>,
    corpus: Seq<char>,
    seed: Seq<u8>,
    n: usize,
    limit: usize,
    threshold: usize,
    num_bits: usize,
)
    requires
        1 <= num_bits <= 8,
        ({
            let cover = cover_of(corpus, n, limit, threshold, true);
            let at = first_progress(seed, cover, num_bits as nat);
            let symbols = symbols_of(bits_of(payload), num_bits as nat);
            &&& never_fails(cover, at, symbols)
            &&& keeps_last_symbol(
                payload.len(),
                wordify_run(cover, at, symbols).0.len(),
                num_bits as nat,
            )
        }),
    ensures
        encoded(payload, corpus, seed, "char-bit-shuffle"@, n, limit, threshold, num_bits) is Ok,
        decoded(
            encoded(
                payload,
                corpus,
                seed,
                "char-bit-shuffle"@,
                n,
                limit,
                threshold,
                num_bits,
            )->Ok_0,
            seed,
            "char-bit-shuffle"@,
            num_bits,
        ) == Ok::<Seq<u8>, Seq<char>>(payload),
{
    let cover = cover_of(corpus, n, limit, threshold, true);
    lemma_cover_without_spaces(corpus, n, limit, threshold, true);
    lemma_round_trip(payload, seed, cover, num_bits as nat);
    reveal_strlit("char-bit-shuffle");
    reveal_strlit("char-bit");
    assert("char-bit-shuffle"@.len() != "char-bit"@.len());
}

/// Cutting a payload into symbols of `num_bits` bits leaves fewer than
/// `num_bits` bits of padding in the last symbol, and the decoder's
/// budget for as many tokens as symbols is the number of the payload's bits: what
/// it leaves out of the last symbol is that padding.
pub proof fn lemma_padding_is_less_than_a_symbol(payload: Seq<u8>, num_bits: nat)
    requires
        1 <= num_bits <= 8,
    ensures
        ({
            let symbols = symbols_of(bits_of(payload), num_bits).len();
            &&& 8 * payload.len() <= num_bits * symbols < 8 * payload.len() + num_bits
            &&& total_bits(symbols, num_bits) == 8 * payload.len()
        }),
{
    let bits = bits_of(payload);
    let n = symbols_of(bits, num_bits).len() as int;
    let b = num_bits as int;
    let l = payload.len() as int;
    lemma_symbols_len(bits, num_bits);
    assert(n * b == b * n) by (nonlinear_arith);
    assert(n * b / 8 == l) by (nonlinear_arith)
        requires
            8 * l <= n * b < 8 * l + 8,
    ;
}

/// Writing the symbols of a payload back, each with `num_bits` bits and the
/// last with the bits that the payload has left, gives the payload bit for bit.
pub proof fn lemma_symbols_give_the_payload(payload: Seq<u8>, num_bits: nat)
    requires
        1 <= num_bits <= 8,
    ensures
        bytes_of(
            packed_bits(
                widened(symbols_of(bits_of(payload), num_bits)),
                num_bits,
                8 * payload.len(),
            ),
        ) == payload,
{
    lemma_packed_symbols(bits_of(payload), num_bits, 8 * payload.len());
    lemma_bytes_of_bits(payload);
}

/// Without skip words the encoder puts one token for each symbol.
pub proof fn lemma_one_token_per_symbol(cover: Cover, at: Progress, values: Seq<u8>)
    requires
        cover.limit == 0,
    ensures
        wordify_run(cover, at, values).0.len() == values.len(),
    decreases values.len(),
{
    if values.len() > 0 {
        let step = wordify_step(cover, at, values[0]);
        lemma_one_token_per_symbol(cover, step.2, values.skip(1));
    }
}

/// Round trip without skip words: where the policy allows no skip word,
/// decoding what was encoded gives the payload back, whatever its length. Where
/// the alphabet is drawn anew after each symbol, this asks that the encoder
/// found a word for every symbol.
pub proof fn lemma_round_trip_without_skips(
    payload: Seq<u8>,
    seed: Seq<u8>,
    cover: Cover,
    num_bits: nat,
)
    requires
        1 <= num_bits <= 8,
        cover.limit == 0,
        without_spaces(cover.unique),
        cover.use_shuffle ==> never_fails(
            cover,
            first_progress(seed, cover, num_bits),
            symbols_of(bits_of(payload), num_bits),
        ),
    ensures
        decoded_bit_mode(
            encoded_bit_mode(payload, seed, cover, num_bits),
            seed,
            num_bits,
            cover.use_shuffle,
            ValueMode::CharBitMap,
        ) == payload,
{
    lemma_one_token_per_symbol(
        cover,
        first_progress(seed, cover, num_bits),
        symbols_of(bits_of(payload), num_bits),
    );
    lemma_padding_is_less_than_a_symbol(payload, num_bits);
    lemma_round_trip(payload, seed, cover, num_bits);
}

/// Encoding is deterministic: two results of `encode` for the same payload,
/// cover text, passphrase, selector, policy and number of bits are both the
/// same text, or both the same refusal.
pub proof fn lemma_encode_is_deterministic(
    first: Result<String, String>,
    second: Result<String, String>,
    payload: Seq<u8>,
    corpus: Seq<char>,
    seed: Seq<u8>,
    selector: Seq<char>,
    n: usize,
    limit: usize,
    threshold: usize,
    num_bits: usize,
)
    requires
        is_outcome(first, encoded(payload, corpus, seed, selector, n, limit, threshold, num_bits)),
        is_outcome(second, encoded(payload, corpus, seed, selector, n, limit, threshold, num_bits)),
    ensures
        first is Ok <==> second is Ok,
        first is Ok ==> first->Ok_0@ == second->Ok_0@,
        first is Err ==> first->Err_0@ == second->Err_0@,
{
}

/// Decoding is deterministic: two results of `decode` for the same text,
/// passphrase, selector and number of bits are both the same bytes, or both
/// the same refusal.
pub proof fn lemma_decode_is_deterministic(
    first: Result<Vec<u8>, String>,
    second: Result<Vec<u8>, String>,
    text: Seq<char>,
    seed: Seq<u8>,
    selector: Seq<char>,
    num_bits: usize,
)
    requires
        is_recovered(first, decoded(text, seed, selector, num_bits)),
        is_recovered(second, decoded(text, seed, selector, num_bits)),
    ensures
        first is Ok <==> second is Ok,
        first is Ok ==> first->Ok_0@ == second->Ok_0@,
        first is Err ==> first->Err_0@ == second->Err_0@,
{
}

/// How often a character occurs in a text.
pub open spec fn occurs(s: Seq<char>, c: char) -> nat
    decreases s.len(),
{
    if s.len() == 0 {
        0
    } else {
        occurs(s.skip(1), c) + if s[0] == c {
            1nat
        } else {
            0nat
        }
    }
}

/// A character occurs in two texts put together as often as in both.
pub proof fn lemma_occurs_concat(first: Seq<char>, second: Seq<char>, c: char)
    ensures
        occurs(first + second, c) == occurs(first, c) + occurs(second, c),
    decreases first.len(),
{
    if first.len() == 0 {
        assert(first + second =~= second);
    } else {
        lemma_occurs_concat(first.skip(1), second, c);
        assert((first + second).skip(1) =~= first.skip(1) + second);
    }
}

/// A character that a text does not hold occurs in it no times.
pub proof fn lemma_occurs_none(s: Seq<char>, c: char)
    requires
        !s.contains(c),
    ensures
        occurs(s, c) == 0,
    decreases s.len(),
{
    if s.len() > 0 {
        assert(s[0] != c);
        assert(!s.skip(1).contains(c)) by {
            if s.skip(1).contains(c) {
                let i = choose|i: int| 0 <= i < s.skip(1).len() && s.skip(1)[i] == c;
                assert(s[i + 1] == c);
            }
        }
        lemma_occurs_none(s.skip(1), c);
    }
}

/// Replacing a character by a text changes no count of another character
/// that the text does not hold.
pub proof fn lemma_replaced_keeps(s: Seq<char>, mark: char, to: Seq<char>, c: char)
    requires
        c != mark,
        !to.contains(c),
    ensures
        occurs(replaced(s, seq![mark], to), c) == occurs(s, c),
    decreases s.len(),
{
    let pat = seq![mark];
    if s.len() > 0 {
        let rest = replaced(s.skip(1), pat, to);
        lemma_replaced_keeps(s.skip(1), mark, to, c);
        assert(s.take(1) =~= seq![s[0]]);
        if s.take(1) == pat {
            assert(s[0] == pat[0]);
            lemma_occurs_none(to, c);
            lemma_occurs_concat(to, rest, c);
        } else {
            assert(s[0] != mark) by {
                if s[0] == mark {
                    assert(s.take(1) =~= pat);
                }
            }
            lemma_occurs_concat(seq![s[0]], rest, c);
            assert(seq![s[0]].skip(1) =~= Seq::<char>::empty());
            assert(occurs(seq![s[0]], c) == occurs(seq![s[0]].skip(1), c) + if s[0] == c {
                1nat
            } else {
                0nat
            });
        }
    }
}

/// Replacing a character that a text does not hold leaves the text as it is.
pub proof fn lemma_replaced_absent(s: Seq<char>, mark: char, to: Seq<char>)
    requires
        !s.contains(mark),
    ensures
        replaced(s, seq![mark], to) == s,
    decreases s.len(),
{
    let pat = seq![mark];
    if s.len() > 0 {
        assert(s[0] != mark);
        assert(s.take(1)[0] == s[0]);
        assert(!s.skip(1).contains(mark)) by {
            if s.skip(1).contains(mark) {
                let i = choose|i: int| 0 <= i < s.skip(1).len() && s.skip(1)[i] == mark;
                assert(s[i + 1] == mark);
            }
        }
        lemma_replaced_absent(s.skip(1), mark, to);
        assert(seq![s[0]] + s.skip(1) =~= s);
    }
}

/// A character that cleaning neither takes away nor puts in: no line break,
/// carriage return, quotation mark, apostrophe, hyphen, space or mark of
/// punctuation.
pub open spec fn is_kept(c: char) -> bool {
    c != '\n' && c != '\r' && c != '"' && c != '\'' && c != '-' && c != ' ' && c != ',' && c != '!'
        && c != '?' && c != ';' && c != ':' && c != '.'
}

proof fn lemma_set_apart_keeps(s: Seq<char>, mark: char, c: char)
    requires
        c != mark,
        c != ' ',
    ensures
        occurs(set_apart_in(s, mark), c) == occurs(s, c),
{
    let to = seq![' ', mark, ' '];
    assert(!to.contains(c)) by {
        if to.contains(c) {
            let i = choose|i: int| 0 <= i < to.len() && to[i] == c;
        }
    }
    lemma_replaced_keeps(s, mark, to, c);
}

/// Cleaning drops no letter: every character that is no white space, quote,
/// hyphen or mark of punctuation occurs in the cleaned text as often as in
/// the text.
pub proof fn lemma_cleaning_keeps_characters(lower: Seq<char>, c: char)
    requires
        is_kept(c),
    ensures
        occurs(cleaned_lower(lower), c) == occurs(lower, c),
{
    let nothing = Seq::<char>::empty();
    let s1 = replaced(lower, seq!['\n'], seq![' ', '\n', ' ']);
    let s2 = replaced(s1, seq!['\r'], nothing);
    let s3 = replaced(s2, seq!['"'], nothing);
    let s4 = replaced(s3, seq!['\''], nothing);
    let s5 = replaced(s4, seq!['-'], seq![' ']);
    let s6 = set_apart_in(s5, ',');
    let s7 = set_apart_in(s6, '!');
    let s8 = set_apart_in(s7, '?');
    let s9 = set_apart_in(s8, ';');
    let s10 = set_apart_in(s9, ':');
    let s11 = set_apart_in(s10, '.');
    lemma_set_apart_keeps(lower, '\n', c);
    assert(!nothing.contains(c));
    lemma_replaced_keeps(s1, '\r', nothing, c);
    lemma_replaced_keeps(s2, '"', nothing, c);
    lemma_replaced_keeps(s3, '\'', nothing, c);
    assert(!seq![' '].contains(c)) by {
        if seq![' '].contains(c) {
            let i = choose|i: int| 0 <= i < seq![' '].len() && seq![' '][i] == c;
        }
    }
    lemma_replaced_keeps(s4, '-', seq![' '], c);
    lemma_set_apart_keeps(s5, ',', c);
    lemma_set_apart_keeps(s6, '!', c);
    lemma_set_apart_keeps(s7, '?', c);
    lemma_set_apart_keeps(s8, ';', c);
    lemma_set_apart_keeps(s9, ':', c);
    lemma_set_apart_keeps(s10, '.', c);
    let body = if lower.len() > 0 && lower.last() == '.' {
        without_final_space(s11)
    } else {
        s11
    };
    assert(occurs(body, c) == occurs(s11, c)) by {
        if body != s11 {
            assert(s11 =~= body + seq![' ']);
            lemma_occurs_concat(body, seq![' '], c);
            assert(!seq![' '].contains(c));
            lemma_occurs_none(seq![' '], c);
        }
    }
    let front = seq!['.', ' '];
    assert(!front.contains(c)) by {
        if front.contains(c) {
            let i = choose|i: int| 0 <= i < front.len() && front[i] == c;
        }
    }
    lemma_occurs_none(front, c);
    lemma_occurs_concat(front, body, c);
}

/// A text made of kept characters and spaces alone comes out of cleaning as
/// it is, behind the full stop and the space that are put in front.
pub proof fn lemma_cleaning_keeps_plain_text(lower: Seq<char>)
    requires
        forall|i: int| 0 <= i < lower.len() ==> is_kept(#[trigger] lower[i]) || lower[i] == ' ',
    ensures
        cleaned_lower(lower) == seq!['.', ' '] + lower,
{
    assert forall|mark: char| !is_kept(mark) && mark != ' ' implies !lower.contains(mark) by {
        if lower.contains(mark) {
            let i = choose|i: int| 0 <= i < lower.len() && lower[i] == mark;
            assert(is_kept(lower[i]) || lower[i] == ' ');
        }
    }
    lemma_replaced_absent(lower, '\n', seq![' ', '\n', ' ']);
    lemma_replaced_absent(lower, '\r', Seq::<char>::empty());
    lemma_replaced_absent(lower, '"', Seq::<char>::empty());
    lemma_replaced_absent(lower, '\'', Seq::<char>::empty());
    lemma_replaced_absent(lower, '-', seq![' ']);
    lemma_replaced_absent(lower, ',', seq![' ', ',', ' ']);
    lemma_replaced_absent(lower, '!', seq![' ', '!', ' ']);
    lemma_replaced_absent(lower, '?', seq![' ', '?', ' ']);
    lemma_replaced_absent(lower, ';', seq![' ', ';', ' ']);
    lemma_replaced_absent(lower, ':', seq![' ', ':', ' ']);
    lemma_replaced_absent(lower, '.', seq![' ', '.', ' ']);
    if lower.len() > 0 {
        assert(lower[lower.len() - 1] == lower.last());
    }
}

} // verus!
