//! The decoder: from the tokens of a text back to the symbols, and from the
//! symbols to the bytes of the payload.

use crate::alphabet::is_bit_alphabet;
use crate::alphabet::lemma_bit_value_bound;
use crate::alphabet::lemma_filled_alphabet;
use crate::alphabet::lemma_initial_bit_map;
use crate::alphabet::lemma_value_map_bound;
use crate::bitio::bytes_of;
use crate::bitio::lemma_two_to_8;
use crate::bitio::pack_values;
use crate::bitio::packed_bits;
use crate::ngram::Gram;
use crate::prng::RngState;
use crate::prng::state_of;
use crate::text::lemma_split_on_nonempty;
use crate::text::split_at_char;
use crate::text::split_on;
use crate::text::texts;
use crate::utils::Algorithm;
use crate::utils::ValueMode;
use crate::utils::algorithm_named;
use crate::utils::bits_refusal;
use crate::utils::char_value_map;
use crate::utils::create_rng_from_seed;
use crate::utils::fill_bit_to_char_map;
use crate::utils::filled;
use crate::utils::get_algorithm_from_string;
use crate::utils::get_value_from_chars;
use crate::utils::initial_bit_map;
use crate::utils::inverse_map;
use crate::utils::is_skip_word;
use crate::utils::lemma_two_to_monotonic;
use crate::utils::make_bit_to_char_map;
use crate::utils::make_char_to_bit_map;
use crate::utils::make_char_to_value_map;
use crate::utils::refuse_bits;
use crate::utils::sha256_of;
use crate::utils::skip_word;
use crate::utils::two_to;
use crate::utils::word_value;
use vstd::prelude::*;
use vstd::utf8::encode_utf8;

verus! {

broadcast use vstd::std_specs::hash::group_hash_axioms;

/// The number of bits that the decoder writes for a text of `tokens` tokens:
/// as many whole bytes as `tokens` symbols of `num_bits` bits fill.
pub open spec fn total_bits(tokens: nat, num_bits: nat) -> nat {
    (tokens * num_bits / 8) * 8
}

/// One step of the decoder in bit mode: a skip word gives no value and leaves
/// the alphabet as it is; another token gives its value, and the alphabet is
/// drawn anew where `use_shuffle` is set.
pub open spec fn unwordify_step(
    token: Seq<char>,
    map: Map<usize, char>,
    state: RngState,
    use_shuffle: bool,
    mode: ValueMode,
) -> (Option<usize>, Map<usize, char>, RngState) {
    let chars = inverse_map(map);
    if skip_word(token, chars) {
        (None, map, state)
    } else if use_shuffle {
        (Some(word_value(token, chars, mode) as usize), filled(map, state).0, filled(map, state).1)
    } else {
        (Some(word_value(token, chars, mode) as usize), map, state)
    }
}

/// The values of the tokens that are no skip words, in order, and the bit
/// map and the generator's state after the last token.
pub open spec fn unwordify_run(
    tokens: Gram,
    map: Map<usize, char>,
    state: RngState,
    use_shuffle: bool,
    mode: ValueMode,
) -> (Seq<usize>, Map<usize, char>, RngState)
    decreases tokens.len(),
{
    if tokens.len() == 0 {
        (Seq::<usize>::empty(), map, state)
    } else {
        let step = unwordify_step(tokens[0], map, state, use_shuffle, mode);
        let rest = unwordify_run(tokens.skip(1), step.1, step.2, use_shuffle, mode);
        (
            match step.0 {
                Some(value) => seq![value] + rest.0,
                None => rest.0,
            },
            rest.1,
            rest.2,
        )
    }
}

/// The bytes that a text stands for in bit mode: its tokens are cut at single
/// spaces; the alphabet for `num_bits` bits is drawn from a generator seeded
/// with `seed`; the values of the tokens that are no skip words are written with
/// `num_bits` bits each while the bits of the text's whole bytes last.
pub open spec fn decoded_bit_mode(
    text: Seq<char>,
    seed: Seq<u8>,
    num_bits: nat,
    use_shuffle: bool,
    mode: ValueMode,
) -> Seq<u8> {
    let tokens = split_on(text, ' ');
    let start = filled(initial_bit_map(num_bits), RngState::fresh(seed));
    let values = unwordify_run(tokens, start.0, start.1, use_shuffle, mode).0;
    bytes_of(packed_bits(values, num_bits, total_bits(tokens.len(), num_bits)))
}

/// The values of all tokens under a value map, in order.
pub open spec fn plain_values(tokens: Gram, map: Map<char, usize>, mode: ValueMode) -> Seq<usize> {
    Seq::new(tokens.len(), |i: int| word_value(tokens[i], map, mode) as usize)
}

/// The bytes that a text stands for in value mode: every token is a symbol,
/// and its value under the value map for `num_bits` bits is written with
/// `num_bits` bits while the bits of the text's whole bytes last.
pub open spec fn decoded_value_mode(text: Seq<char>, num_bits: nat, mode: ValueMode) -> Seq<u8> {
    let tokens = split_on(text, ' ');
    let values = plain_values(tokens, char_value_map(num_bits), mode);
    bytes_of(packed_bits(values, num_bits, total_bits(tokens.len(), num_bits)))
}

/// The number of bits to write for `tokens` tokens.
fn bit_budget(tokens: usize, num_bits: usize) -> (budget: u128)
    requires
        num_bits <= 8,
    ensures
        budget == total_bits(tokens as nat, num_bits as nat),
{
    assert(tokens * num_bits <= 0xffff_ffff_ffff_ffff * 8) by (nonlinear_arith)
        requires
            num_bits <= 8,
            tokens <= 0xffff_ffff_ffff_ffff,
    ;
    ((tokens as u128 * num_bits as u128) / 8) * 8
}

/// Recovers the bytes that a text hides in bit mode.
pub fn decode_char_bit_mode(
    contents: &str,
    seed_str: &str,
    num_bits: usize,
    use_shuffle: bool,
    value_mode: ValueMode,
) -> (bytes: Result<Vec<u8>, String>)
    requires
        1 <= num_bits <= 8,
        value_mode matches ValueMode::CharValueMap(exponent) ==> two_to(exponent as nat)
            <= usize::MAX,
    ensures
        bytes is Ok,
        bytes->Ok_0@ == decoded_bit_mode(
            contents@,
            sha256_of(encode_utf8(seed_str@)),
            num_bits as nat,
            use_shuffle,
            value_mode,
        ),
{
    let mut rng = create_rng_from_seed(seed_str);
    let mut bit_to_char_map = make_bit_to_char_map(num_bits);
    proof {
        lemma_initial_bit_map(num_bits as nat);
        lemma_filled_alphabet(bit_to_char_map@, num_bits as nat, state_of(rng));
    }
    fill_bit_to_char_map(&mut rng, &mut bit_to_char_map);
    let encoded_words = split_at_char(contents, ' ');
    let ghost tokens = texts(encoded_words@);
    let ghost start_map = bit_to_char_map@;
    let ghost start_state = state_of(rng);
    proof {
        lemma_split_on_nonempty(contents@, ' ');
        assert(encoded_words@.len() == tokens.len());
        assert(tokens.skip(0) == tokens);
    }
    let total = bit_budget(encoded_words.len(), num_bits);
    let mut values: Vec<usize> = Vec::new();
    let mut i: usize = 0;
    while i < encoded_words.len()
        invariant
            i <= encoded_words.len(),
            1 <= num_bits <= 8,
            tokens == texts(encoded_words@),
            is_bit_alphabet(bit_to_char_map@, num_bits as nat),
            value_mode matches ValueMode::CharValueMap(exponent) ==> two_to(exponent as nat)
                <= usize::MAX,
            ({
                let rest = unwordify_run(
                    tokens.skip(i as int),
                    bit_to_char_map@,
                    state_of(rng),
                    use_shuffle,
                    value_mode,
                );
                let whole = unwordify_run(tokens, start_map, start_state, use_shuffle, value_mode);
                values@ + rest.0 == whole.0
            }),
        decreases encoded_words.len() - i,
    {
        let word = &encoded_words[i];
        let char_to_bit_map = make_char_to_bit_map(&bit_to_char_map);
        let ghost rest = tokens.skip(i as int);
        let ghost map = bit_to_char_map@;
        let ghost state = state_of(rng);
        let ghost before = values@;
        proof {
            assert(rest[0] == word@);
            assert(rest.skip(1) == tokens.skip(i + 1));
            lemma_bit_value_bound(map, num_bits as nat, word@);
            lemma_two_to_monotonic(num_bits as nat, 8);
            lemma_two_to_8();
            lemma_filled_alphabet(map, num_bits as nat, state);
        }
        if !is_skip_word(word.as_str(), &char_to_bit_map) {
            let value = get_value_from_chars(word.as_str(), &char_to_bit_map, &value_mode);
            if use_shuffle {
                fill_bit_to_char_map(&mut rng, &mut bit_to_char_map);
            }
            values.push(value);
            proof {
                let step = unwordify_step(word@, map, state, use_shuffle, value_mode);
                let tail = unwordify_run(rest.skip(1), step.1, step.2, use_shuffle, value_mode).0;
                assert(before.push(value) + tail == before + (seq![value] + tail));
            }
        }
        i += 1;
    }
    proof {
        assert(tokens.skip(encoded_words.len() as int).len() == 0);
        assert(values@ + Seq::<usize>::empty() == values@);
    }
    Ok(pack_values(&values, num_bits, total))
}

/// Recovers the bytes that a text hides in value mode. No token is a skip
/// word here, and the value map is never drawn anew: the passphrase and
/// `use_shuffle` change nothing.
pub fn decode_char_value_mode(
    contents: &str,
    _seed_str: &str,
    num_bits: usize,
    _use_shuffle: bool,
    value_mode: ValueMode,
) -> (bytes: Result<Vec<u8>, String>)
    requires
        1 <= num_bits <= 8,
        value_mode matches ValueMode::CharValueMap(exponent) ==> two_to(exponent as nat)
            <= usize::MAX,
    ensures
        bytes is Ok,
        bytes->Ok_0@ == decoded_value_mode(contents@, num_bits as nat, value_mode),
{
    proof {
        lemma_two_to_8();
    }
    let char_to_value_map = make_char_to_value_map(num_bits);
    let encoded_words = split_at_char(contents, ' ');
    let ghost tokens = texts(encoded_words@);
    proof {
        lemma_split_on_nonempty(contents@, ' ');
    }
    let total = bit_budget(encoded_words.len(), num_bits);
    let mut values: Vec<usize> = Vec::new();
    let mut i: usize = 0;
    while i < encoded_words.len()
        invariant
            i <= encoded_words.len(),
            tokens == texts(encoded_words@),
            char_to_value_map@ == char_value_map(num_bits as nat),
            value_mode matches ValueMode::CharValueMap(exponent) ==> two_to(exponent as nat)
                <= usize::MAX,
            values@.len() == i,
            forall|j: int|
                0 <= j < i ==> values@[j] == word_value(
                    tokens[j],
                    char_value_map(num_bits as nat),
                    value_mode,
                ),
        decreases encoded_words.len() - i,
    {
        let word = &encoded_words[i];
        proof {
            lemma_value_map_bound(num_bits as nat, word@);
        }
        let value = get_value_from_chars(word.as_str(), &char_to_value_map, &value_mode);
        values.push(value);
        i += 1;
    }
    assert(values@ =~= plain_values(tokens, char_value_map(num_bits as nat), value_mode));
    Ok(pack_values(&values, num_bits, total))
}

/// What decoding gives: a refusal of the number of bits or of the selector,
/// or the bytes that the text stands for under the algorithm that the selector
/// names.
pub open spec fn decoded(
    text: Seq<char>,
    seed: Seq<u8>,
    selector: Seq<char>,
    num_bits: usize,
) -> Result<Seq<u8>, Seq<char>> {
    if num_bits > 8 || num_bits < 1 {
        Err(bits_refusal(num_bits))
    } else {
        match algorithm_named(selector, num_bits) {
            None => Err("Could not determine algorithm: "@ + selector),
            Some(Algorithm::Shuffle(ValueMode::CharBitMap)) => Ok(
                decoded_bit_mode(text, seed, num_bits as nat, true, ValueMode::CharBitMap),
            ),
            Some(Algorithm::NoShuffle(ValueMode::CharBitMap)) => Ok(
                decoded_bit_mode(text, seed, num_bits as nat, false, ValueMode::CharBitMap),
            ),
            Some(Algorithm::Shuffle(mode)) => Ok(decoded_value_mode(text, num_bits as nat, mode)),
            Some(Algorithm::NoShuffle(mode)) => Ok(decoded_value_mode(text, num_bits as nat, mode)),
        }
    }
}

/// A result is the outcome `expected`: the bytes that it names, or the
/// refusal with its message.
pub open spec fn is_recovered(result: Result<Vec<u8>, String>, expected: Result<Seq<u8>, Seq<char>>) -> bool {
    match expected {
        Ok(payload) => result is Ok && result->Ok_0@ == payload,
        Err(message) => result is Err && result->Err_0@ == message,
    }
}

/// Recovers the bytes that the text `contents` hides, given the passphrase,
/// the selector of the algorithm and the number of bits per symbol that it
/// was written with.
pub fn decode(contents: &str, seed_str: &str, alg_str: &str, num_bits: usize) -> (bytes: Result<
    Vec<u8>,
    String,
>)
    ensures
        is_recovered(bytes, decoded(contents@, sha256_of(encode_utf8(seed_str@)), alg_str@, num_bits)),
{
    if num_bits > 8 || num_bits < 1 {
        return Err(refuse_bits(num_bits));
    }
    let alg = match get_algorithm_from_string(alg_str, num_bits) {
        Ok(alg) => alg,
        Err(message) => {
            return Err(message);
        },
    };
    let (use_shuffle, value_mode) = match alg {
        Algorithm::Shuffle(mode) => (true, mode),
        Algorithm::NoShuffle(mode) => (false, mode),
    };
    proof {
        lemma_two_to_8();
    }
    match value_mode {
        ValueMode::CharBitMap => decode_char_bit_mode(
            contents,
            seed_str,
            num_bits,
            use_shuffle,
            value_mode,
        ),
        ValueMode::CharValueMap(_) => decode_char_value_mode(
            contents,
            seed_str,
            num_bits,
            use_shuffle,
            value_mode,
        ),
    }
}

} // verus!
