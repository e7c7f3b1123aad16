//! The symbol alphabet: the maps between bit values and characters, and the
//! value that a word stands for.

use crate::alphabet::injective;
use crate::alphabet::is_bit_alphabet;
use crate::alphabet::key_list;
use crate::alphabet::lemma_filled;
use crate::alphabet::lemma_initial_bit_map;
use crate::alphabet::lemma_inverse_map;
use crate::charmap::CharMap;
use crate::prng::RngState;
use crate::prng::next_index;
use crate::prng::rng_from_seed;
use crate::prng::state_of;
use crate::sorted::ascending_keys;
use crate::sorted::lemma_ascending_keys;
use crate::sorted::sorted_keys;
use crate::text::chars_of;
use crate::text::contains_char;
use crate::text::decimal;
use crate::text::lowercase_of;
use crate::text::lowercased;
use crate::text::push_char;
use crate::text::push_decimal;
use crate::text::push_text;
use crate::text::replace_all;
use crate::text::replaced;
use crate::text::str_equal;
use crate::text::string_of;
use rand::rngs::StdRng;
use sha2::Digest;
use sha2::Sha256;
use std::collections::HashMap;
use vstd::prelude::*;
use vstd::utf8::encode_utf8;

verus! {

broadcast use vstd::std_specs::hash::group_hash_axioms;

/// The letters of the alphabet, the most frequent first.
pub const COMMON_CHARS: [char; 26] = [
    'i', 't', 'a', 'o', 'e', 'n', 's', 'h', 'r', 'd', 'l', 'c', 'u', 'm', 'w', 'f', 'g', 'y', 'p',
    'b', 'v', 'k', 'j', 'x', 'q', 'z',
];

/// The letters of the alphabet as a sequence, the most frequent first.
pub open spec fn common_chars() -> Seq<char> {
    COMMON_CHARS@
}

/// The alphabet has 26 letters, each once.
pub proof fn lemma_common_chars_distinct()
    ensures
        common_chars().len() == 26,
        common_chars().no_duplicates(),
{
    let s = common_chars();
    assert(s.len() == 26);
    assert forall|a: int, b: int| 0 <= a < s.len() && 0 <= b < s.len() && a != b implies s[a]
        != s[b] by {
        assert(s[0] == 'i' && s[1] == 't' && s[2] == 'a' && s[3] == 'o' && s[4] == 'e');
        assert(s[5] == 'n' && s[6] == 's' && s[7] == 'h' && s[8] == 'r' && s[9] == 'd');
        assert(s[10] == 'l' && s[11] == 'c' && s[12] == 'u' && s[13] == 'm' && s[14] == 'w');
        assert(s[15] == 'f' && s[16] == 'g' && s[17] == 'y' && s[18] == 'p' && s[19] == 'b');
        assert(s[20] == 'v' && s[21] == 'k' && s[22] == 'j' && s[23] == 'x' && s[24] == 'q');
        assert(s[25] == 'z');
    }
}

/// How the characters of a word stand for a value.
#[derive(Clone, Copy, Debug, PartialEq, Eq, Structural)]
pub enum ValueMode {
    /// A character of the map stands for one bit; a word's value is the sum of
    /// the bits of the characters that occur in it, each counted once.
    CharBitMap,
    /// Every letter has a value; a word's value is the sum of the values of
    /// its characters, reduced modulo two to the given power.
    CharValueMap(usize),
}

/// A value mode, and whether the map is drawn anew after each symbol.
#[derive(Clone, Copy, Debug, PartialEq, Eq, Structural)]
pub enum Algorithm {
    Shuffle(ValueMode),
    NoShuffle(ValueMode),
}

/// Two to the power `e`.
pub open spec fn two_to(e: nat) -> nat
    decreases e,
{
    if e == 0 {
        1
    } else {
        2 * two_to((e - 1) as nat)
    }
}

/// Powers of two are positive and grow with the exponent.
pub proof fn lemma_two_to_monotonic(a: nat, b: nat)
    requires
        a <= b,
    ensures
        0 < two_to(a) <= two_to(b),
    decreases b,
{
    if a < b {
        lemma_two_to_monotonic(a, (b - 1) as nat);
    } else if a > 0 {
        lemma_two_to_monotonic((a - 1) as nat, (a - 1) as nat);
    }
}

/// The algorithm that a selector names, for the selectors that are known.
pub open spec fn algorithm_named(name: Seq<char>, num_bits: usize) -> Option<Algorithm> {
    if name == "char-bit"@ {
        Some(Algorithm::NoShuffle(ValueMode::CharBitMap))
    } else if name == "char-bit-shuffle"@ {
        Some(Algorithm::Shuffle(ValueMode::CharBitMap))
    } else if name == "char-value"@ {
        Some(Algorithm::NoShuffle(ValueMode::CharValueMap(num_bits)))
    } else {
        None
    }
}

/// The algorithm that the selector `alg_str` names. A selector that is not
/// known is refused with a message that repeats it.
pub fn get_algorithm_from_string(alg_str: &str, num_bits: usize) -> (r: Result<Algorithm, String>)
    ensures
        match algorithm_named(alg_str@, num_bits) {
            Some(alg) => r == Ok::<Algorithm, String>(alg),
            None => r is Err && r->Err_0@ == "Could not determine algorithm: "@ + alg_str@,
        },
{
    if str_equal(alg_str, "char-bit") {
        Ok(Algorithm::NoShuffle(ValueMode::CharBitMap))
    } else if str_equal(alg_str, "char-bit-shuffle") {
        Ok(Algorithm::Shuffle(ValueMode::CharBitMap))
    } else if str_equal(alg_str, "char-value") {
        Ok(Algorithm::NoShuffle(ValueMode::CharValueMap(num_bits)))
    } else {
        let mut message = String::new();
        push_text(&mut message, "Could not determine algorithm: ");
        push_text(&mut message, alg_str);
        Err(message)
    }
}

/// The message that refuses a number of bits outside 1 to 8.
pub open spec fn bits_refusal(num_bits: usize) -> Seq<char> {
    "Bits must be between 1 and 8 inclusively, you provided "@ + decimal(num_bits as nat)
}

/// The message that refuses the number of bits `num_bits`.
pub fn refuse_bits(num_bits: usize) -> (message: String)
    ensures
        message@ == bits_refusal(num_bits),
{
    let mut message = String::new();
    push_text(&mut message, "Bits must be between 1 and 8 inclusively, you provided ");
    push_decimal(&mut message, num_bits);
    message
}

/// The largest value of `exponent` bits: two to that power, less one.
pub fn get_max_value(exponent: usize) -> (max: usize)
    requires
        two_to(exponent as nat) - 1 <= usize::MAX,
    ensures
        max == two_to(exponent as nat) - 1,
{
    let mut max: usize = 0;
    let mut i: usize = 0;
    while i < exponent
        invariant
            i <= exponent,
            max == two_to(i as nat) - 1,
            two_to(exponent as nat) - 1 <= usize::MAX,
        decreases exponent - i,
    {
        proof {
            lemma_two_to_monotonic((i + 1) as nat, exponent as nat);
        }
        max = 2 * max + 1;
        i += 1;
    }
    max
}

/// The key of the `i`-th entry of a bit map: 0 for the first, then the
/// powers of two from 1 on.
pub open spec fn bit_key(i: nat) -> nat {
    if i == 0 {
        0
    } else {
        two_to((i - 1) as nat)
    }
}

/// The bit map for `num_bits` bits before any draw: its `i`-th key, for `i`
/// from 0 to `num_bits`, is mapped to the `i`-th most frequent letter.
pub open spec fn initial_bit_map(num_bits: nat) -> Map<usize, char>
    decreases num_bits,
{
    if num_bits == 0 {
        Map::<usize, char>::empty().insert(0, common_chars()[0])
    } else {
        initial_bit_map((num_bits - 1) as nat).insert(
            bit_key(num_bits) as usize,
            common_chars()[num_bits as int],
        )
    }
}

/// The bit map for `num_bits` bits, with the most frequent letters as values:
/// the key 0 and the powers of two below two to the power `num_bits`, one entry
/// more than bits, the `i`-th key with the `i`-th most frequent letter.
pub fn make_bit_to_char_map(num_bits: usize) -> (map: HashMap<usize, char>)
    requires
        num_bits <= 25,
    ensures
        map@ == initial_bit_map(num_bits as nat),
        is_bit_alphabet(map@, num_bits as nat),
        forall|i: int|
            0 <= i <= num_bits ==> map@[#[trigger] key_list(num_bits as nat)[i]] == common_chars()[i],
{
    proof {
        lemma_initial_bit_map(num_bits as nat);
    }
    let mut map: HashMap<usize, char> = HashMap::new();
    map.insert(0, COMMON_CHARS[0]);
    let mut key: usize = 1;
    let mut num: usize = 1;
    while num <= num_bits
        invariant
            1 <= num <= num_bits + 1,
            num_bits <= 25,
            key == bit_key(num as nat),
            map@ == initial_bit_map((num - 1) as nat),
        decreases num_bits + 1 - num,
    {
        proof {
            lemma_two_to_monotonic(num as nat, 25);
            lemma_two_to_25();
        }
        map.insert(key, COMMON_CHARS[num]);
        key = 2 * key;
        num += 1;
    }
    map
}

proof fn lemma_two_to_25()
    ensures
        two_to(25) == 33554432,
{
    reveal_with_fuel(two_to, 26);
}

/// The place of `j` counted from the nearer end of the alphabet.
pub open spec fn from_nearer_end(j: int) -> int {
    if j < 13 {
        j
    } else {
        25 - j
    }
}

/// The value map for `exponent` bits: a letter's value is its place from the
/// nearer end of the alphabet by frequency, reduced modulo two to the
/// power `exponent`. The most and the least frequent letter share the value 0.
pub open spec fn char_value_map(exponent: nat) -> Map<char, usize> {
    Map::new(
        |c: char| common_chars().contains(c),
        |c: char| (from_nearer_end(common_chars().index_of(c)) % (two_to(exponent) as int)) as usize,
    )
}

/// The value map for `exponent` bits.
pub fn make_char_to_value_map(exponent: usize) -> (map: CharMap)
    requires
        two_to(exponent as nat) - 1 <= usize::MAX,
    ensures
        map@ == char_value_map(exponent as nat),
{
    let mut map = CharMap::new();
    let max_val = get_max_value(exponent);
    let mut current_val: usize = 0;
    let mut i: usize = 0;
    while i < 13
        invariant
            i <= 13,
            max_val == two_to(exponent as nat) - 1,
            current_val == i as int % (two_to(exponent as nat) as int),
            common_chars().len() == 26,
            common_chars().no_duplicates(),
            forall|c: char|
                map@.contains_key(c) <==> exists|j: int|
                    0 <= j < 26 && from_nearer_end(j) < i && common_chars()[j] == c,
            forall|j: int|
                0 <= j < 26 && from_nearer_end(j) < i ==> map@[#[trigger] common_chars()[j]]
                    == from_nearer_end(j) % (two_to(exponent as nat) as int),
        decreases 13 - i,
    {
        let ghost modulus = two_to(exponent as nat) as int;
        map.insert(COMMON_CHARS[i], current_val);
        map.insert(COMMON_CHARS[25 - i], current_val);
        if current_val >= max_val {
            proof {
                lemma_mod_wraps(i as int, modulus);
            }
            current_val = 0;
        } else {
            proof {
                lemma_mod_steps(i as int, modulus);
            }
            current_val += 1;
        }
        i += 1;
    }
    map
}

proof fn lemma_mod_wraps(i: int, m: int)
    requires
        0 <= i,
        0 < m,
        i % m == m - 1,
    ensures
        (i + 1) % m == 0,
{
    assert((i + 1) % m == 0) by (nonlinear_arith)
        requires
            0 <= i,
            0 < m,
            i % m == m - 1,
    ;
}

proof fn lemma_mod_steps(i: int, m: int)
    requires
        0 <= i,
        0 < m,
        i % m < m - 1,
    ensures
        (i + 1) % m == i % m + 1,
{
    assert((i + 1) % m == i % m + 1) by (nonlinear_arith)
        requires
            0 <= i,
            0 < m,
            i % m < m - 1,
    ;
}

/// The SHA-256 digest of `data`: 32 bytes.
pub uninterp spec fn sha256_of(data: Seq<u8>) -> Seq<u8>;

/// Calls `Sha256::digest` and copies the 32 bytes that it returns. They are
/// what this library calls `sha256_of` of the data.
#[verifier::external_body]
pub(crate) fn sha256(data: &[u8]) -> (digest: [u8; 32])
    ensures
        digest@ == sha256_of(data@),
{
    let mut digest = [0u8; 32];
    digest.copy_from_slice(Sha256::digest(data).as_slice());
    digest
}

/// The SHA-256 digest of a text's UTF-8 bytes.
pub(crate) fn create_hash(text: &str) -> (digest: [u8; 32])
    ensures
        digest@ == sha256_of(encode_utf8(text@)),
{
    sha256(text.as_bytes())
}

/// A generator seeded with the SHA-256 digest of the passphrase `text`, from
/// which no draw was made yet.
pub fn create_rng_from_seed(text: &str) -> (rng: StdRng)
    ensures
        state_of(rng) == RngState::fresh(sha256_of(encode_utf8(text@))),
{
    rng_from_seed(create_hash(text))
}

/// `s` without the space that ends it, if one does.
pub open spec fn without_final_space(s: Seq<char>) -> Seq<char> {
    if s.len() > 0 && s.last() == ' ' {
        s.drop_last()
    } else {
        s
    }
}

/// `s` with every occurrence of `mark` set apart by a space on either side.
pub open spec fn set_apart_in(s: Seq<char>, mark: char) -> Seq<char> {
    replaced(s, seq![mark], seq![' ', mark, ' '])
}

/// A text in lower case in the form from which n-grams are counted: line
/// breaks set apart by spaces and carriage returns removed; quotation marks
/// and apostrophes removed; hyphens turned into spaces; every comma,
/// exclamation mark, question mark, semicolon, colon and full stop set apart
/// by spaces; and a full stop and a space put in front. No other character
/// is taken away, but for one: where the text ends in a full stop, the space
/// that setting it apart leaves at the end is taken off again.
pub open spec fn cleaned_lower(lower: Seq<char>) -> Seq<char> {
    let s1 = replaced(lower, seq!['\n'], seq![' ', '\n', ' ']);
    let s2 = replaced(s1, seq!['\r'], Seq::<char>::empty());
    let s3 = replaced(s2, seq!['"'], Seq::<char>::empty());
    let s4 = replaced(s3, seq!['\''], Seq::<char>::empty());
    let s5 = replaced(s4, seq!['-'], seq![' ']);
    let s6 = set_apart_in(s5, ',');
    let s7 = set_apart_in(s6, '!');
    let s8 = set_apart_in(s7, '?');
    let s9 = set_apart_in(s8, ';');
    let s10 = set_apart_in(s9, ':');
    let s11 = set_apart_in(s10, '.');
    seq!['.', ' '] + if lower.len() > 0 && lower.last() == '.' {
        without_final_space(s11)
    } else {
        s11
    }
}

/// The text in the form from which n-grams are counted: its lower-case form,
/// cleaned.
pub open spec fn cleaned(text: Seq<char>) -> Seq<char> {
    cleaned_lower(lowercase_of(text))
}

fn one(a: char) -> (v: Vec<char>)
    ensures
        v@ == seq![a],
{
    let mut v: Vec<char> = Vec::new();
    v.push(a);
    v
}

fn two(a: char, b: char) -> (v: Vec<char>)
    ensures
        v@ == seq![a, b],
{
    let mut v: Vec<char> = Vec::new();
    v.push(a);
    v.push(b);
    v
}

fn three(a: char, b: char, c: char) -> (v: Vec<char>)
    ensures
        v@ == seq![a, b, c],
{
    let mut v: Vec<char> = Vec::new();
    v.push(a);
    v.push(b);
    v.push(c);
    v
}

/// Sets every occurrence of the punctuation mark `mark` apart by spaces.
fn set_apart(s: &Vec<char>, mark: char) -> (r: Vec<char>)
    ensures
        r@ == set_apart_in(s@, mark),
{
    replace_all(s, &one(mark), &three(' ', mark, ' '))
}

/// Brings a text in lower case into the form from which n-grams are counted.
pub fn clean_lowered(lower: &str) -> (r: String)
    ensures
        r@ == cleaned_lower(lower@),
{
    let given = chars_of(lower);
    let nothing: Vec<char> = Vec::new();
    let s1 = replace_all(&given, &one('\n'), &three(' ', '\n', ' '));
    let s2 = replace_all(&s1, &one('\r'), &nothing);
    let s3 = replace_all(&s2, &one('"'), &nothing);
    let s4 = replace_all(&s3, &one('\''), &nothing);
    let s5 = replace_all(&s4, &one('-'), &one(' '));
    let s6 = set_apart(&s5, ',');
    let s7 = set_apart(&s6, '!');
    let s8 = set_apart(&s7, '?');
    let s9 = set_apart(&s8, ';');
    let s10 = set_apart(&s9, ':');
    let mut s11 = set_apart(&s10, '.');
    if given.len() > 0 && given[given.len() - 1] == '.' {
        if s11.len() > 0 && s11[s11.len() - 1] == ' ' {
            s11.pop();
        }
    }
    let mut r = two('.', ' ');
    let mut i: usize = 0;
    while i < s11.len()
        invariant
            i <= s11.len(),
            r@ == seq!['.', ' '] + s11@.take(i as int),
        decreases s11.len() - i,
    {
        r.push(s11[i]);
        i += 1;
    }
    assert(s11@.take(s11.len() as int) == s11@);
    string_of(&r)
}

/// Brings a text into the form from which n-grams are counted: in lower
/// case, and cleaned.
pub fn format_text_for_ngrams(text: &str) -> (r: String)
    ensures
        r@ == cleaned(text@),
{
    let lower = lowercased(text);
    clean_lowered(lower.as_str())
}

/// No character of `word` has an entry in `map`.
pub open spec fn skip_word(word: Seq<char>, map: Map<char, usize>) -> bool {
    forall|i: int| 0 <= i < word.len() ==> !map.contains_key(#[trigger] word[i])
}

/// Whether `word` is a skip word: one that holds no character of the map, so
/// that it stands for no value.
pub fn is_skip_word(word: &str, char_to_bit_map: &CharMap) -> (skip: bool)
    ensures
        skip == skip_word(word@, char_to_bit_map@),
{
    let chars = chars_of(word);
    let mut i: usize = 0;
    while i < chars.len()
        invariant
            i <= chars.len(),
            chars@ == word@,
            forall|j: int| 0 <= j < i ==> !char_to_bit_map@.contains_key(#[trigger] chars@[j]),
        decreases chars.len() - i,
    {
        if char_to_bit_map.contains_key(chars[i]) {
            return false;
        }
        i += 1;
    }
    true
}

/// The characters that lead to the value `val`: going through `keys` in
/// order, a key equal to what remains of the value gives its character and
/// ends the search; a smaller key gives its character and is taken off what
/// remains.
pub open spec fn guide_chars(val: nat, map: Map<usize, char>, keys: Seq<usize>) -> Seq<char>
    decreases keys.len(),
{
    if keys.len() == 0 {
        Seq::<char>::empty()
    } else if keys[0] == val {
        seq![map[keys[0]]]
    } else if keys[0] < val {
        seq![map[keys[0]]] + guide_chars((val - keys[0]) as nat, map, keys.skip(1))
    } else {
        guide_chars(val, map, keys.skip(1))
    }
}

/// Every key that the greedy search for `val` takes has a character.
pub open spec fn keys_at_hand(val: nat, keys_of_map: Set<usize>, keys: Seq<usize>) -> bool
    decreases keys.len(),
{
    if keys.len() == 0 {
        true
    } else if keys[0] == val {
        keys_of_map.contains(keys[0])
    } else if keys[0] < val {
        keys_of_map.contains(keys[0]) && keys_at_hand(
            (val - keys[0]) as nat,
            keys_of_map,
            keys.skip(1),
        )
    } else {
        keys_at_hand(val, keys_of_map, keys.skip(1))
    }
}

/// Where every listed key has a character, so has every key that a search
/// takes.
pub proof fn lemma_keys_at_hand(val: nat, keys_of_map: Set<usize>, keys: Seq<usize>)
    requires
        forall|i: int| 0 <= i < keys.len() ==> keys_of_map.contains(#[trigger] keys[i]),
    ensures
        keys_at_hand(val, keys_of_map, keys),
    decreases keys.len(),
{
    if keys.len() > 0 {
        if keys[0] < val {
            lemma_keys_at_hand((val - keys[0]) as nat, keys_of_map, keys.skip(1));
        } else {
            lemma_keys_at_hand(val, keys_of_map, keys.skip(1));
        }
    }
}

/// The guide string of the value `val`: the characters of the keys that add
/// up to it, found greedily in the order of `sorted_keys`. Every key that the
/// search takes must have a character in the map.
pub fn get_chars_from_value(
    val: u8,
    char_map: &HashMap<usize, char>,
    sorted_keys: &Vec<usize>,
) -> (guide: String)
    requires
        keys_at_hand(val as nat, char_map@.dom(), sorted_keys@),
    ensures
        guide@ == guide_chars(val as nat, char_map@, sorted_keys@),
{
    let mut guide = String::new();
    let mut remaining: usize = val as usize;
    let mut num: usize = 0;
    let mut done = false;
    assert(sorted_keys@.skip(0) == sorted_keys@);
    while num < sorted_keys.len() && !done
        invariant
            num <= sorted_keys.len(),
            !done ==> keys_at_hand(
                remaining as nat,
                char_map@.dom(),
                sorted_keys@.skip(num as int),
            ),
            !done ==> guide@ + guide_chars(remaining as nat, char_map@, sorted_keys@.skip(num as int))
                == guide_chars(val as nat, char_map@, sorted_keys@),
            done ==> guide@ == guide_chars(val as nat, char_map@, sorted_keys@),
        decreases sorted_keys.len() - num,
    {
        let key = sorted_keys[num];
        let ghost rest = sorted_keys@.skip(num as int);
        proof {
            assert(rest.skip(1) == sorted_keys@.skip(num + 1));
        }
        if key == remaining {
            let c = *char_map.get(&key).unwrap();
            push_char(&mut guide, c);
            done = true;
        } else if key < remaining {
            let c = *char_map.get(&key).unwrap();
            push_char(&mut guide, c);
            remaining -= key;
        }
        num += 1;
    }
    guide
}

/// The value of a word under a bit map: the sum of the numbers of the
/// characters that occur in it, each character counted once.
pub open spec fn bit_value(word: Seq<char>, map: Map<char, usize>) -> nat
    decreases word.len(),
{
    if word.len() == 0 {
        0
    } else {
        let before = word.drop_last();
        let c = word.last();
        bit_value(before, map) + if !before.contains(c) && map.contains_key(c) {
            map[c] as nat
        } else {
            0
        }
    }
}

/// The sum of the numbers of the characters of a word, a character counted as
/// often as it occurs.
pub open spec fn char_sum(word: Seq<char>, map: Map<char, usize>) -> nat
    decreases word.len(),
{
    if word.len() == 0 {
        0
    } else {
        char_sum(word.drop_last(), map) + if map.contains_key(word.last()) {
            map[word.last()] as nat
        } else {
            0
        }
    }
}

/// The value that a word stands for.
pub open spec fn word_value(word: Seq<char>, map: Map<char, usize>, mode: ValueMode) -> nat {
    match mode {
        ValueMode::CharBitMap => bit_value(word, map),
        ValueMode::CharValueMap(exponent) => char_sum(word, map) % two_to(exponent as nat),
    }
}

/// The value that the word `chars` stands for under `char_map`.
pub fn get_value_from_chars(chars: &str, char_map: &CharMap, mode: &ValueMode) -> (value: usize)
    requires
        match *mode {
            ValueMode::CharBitMap => bit_value(chars@, char_map@) <= usize::MAX,
            ValueMode::CharValueMap(exponent) => two_to(exponent as nat) <= usize::MAX,
        },
    ensures
        value == word_value(chars@, char_map@, *mode),
{
    let word = chars_of(chars);
    match mode {
        ValueMode::CharBitMap => {
            let mut value: usize = 0;
            let mut seen: Vec<char> = Vec::new();
            let mut i: usize = 0;
            while i < word.len()
                invariant
                    i <= word.len(),
                    word@ == chars@,
                    seen@ == word@.take(i as int),
                    value == bit_value(word@.take(i as int), char_map@),
                    bit_value(word@, char_map@) <= usize::MAX,
                decreases word.len() - i,
            {
                let c = word[i];
                proof {
                    assert(word@.take(i + 1).drop_last() == word@.take(i as int));
                    lemma_bit_value_grows(word@, char_map@, i + 1);
                }
                if !contains_char(&seen, c) {
                    if let Some(bit) = char_map.get(c) {
                        value += bit;
                    }
                }
                seen.push(c);
                i += 1;
            }
            assert(word@.take(word.len() as int) == word@);
            value
        },
        ValueMode::CharValueMap(exponent) => {
            let modulus = get_max_value(*exponent) + 1;
            let mut value: usize = 0;
            let mut i: usize = 0;
            proof {
                lemma_two_to_monotonic(0, *exponent as nat);
            }
            while i < word.len()
                invariant
                    i <= word.len(),
                    word@ == chars@,
                    modulus == two_to(*exponent as nat),
                    0 < modulus,
                    value == char_sum(word@.take(i as int), char_map@) % (modulus as nat),
                decreases word.len() - i,
            {
                let c = word[i];
                proof {
                    assert(word@.take(i + 1).drop_last() == word@.take(i as int));
                }
                if let Some(number) = char_map.get(c) {
                    let ghost sum = char_sum(word@.take(i as int), char_map@) as int;
                    let reduced = number % modulus;
                    proof {
                        lemma_add_mod(sum, number as int, modulus as int);
                    }
                    if value >= modulus - reduced {
                        value = value - (modulus - reduced);
                    } else {
                        value = value + reduced;
                    }
                }
                i += 1;
            }
            assert(word@.take(word.len() as int) == word@);
            value
        },
    }
}

proof fn lemma_bit_value_grows(word: Seq<char>, map: Map<char, usize>, n: int)
    requires
        0 <= n <= word.len(),
    ensures
        bit_value(word.take(n), map) <= bit_value(word, map),
    decreases word.len() - n,
{
    if n < word.len() {
        assert(word.take(n + 1).drop_last() == word.take(n));
        lemma_bit_value_grows(word, map, n + 1);
    } else {
        assert(word.take(n) == word);
    }
}

proof fn lemma_add_mod(a: int, b: int, m: int)
    requires
        0 <= a,
        0 <= b,
        0 < m,
    ensures
        (a + b) % m == if a % m + b % m >= m {
            a % m + b % m - m
        } else {
            a % m + b % m
        },
{
    vstd::arithmetic::div_mod::lemma_add_mod_noop(a, b, m);
    vstd::arithmetic::div_mod::lemma_mod_bound(a, m);
    vstd::arithmetic::div_mod::lemma_mod_bound(b, m);
    let s = a % m + b % m;
    if s >= m {
        vstd::arithmetic::div_mod::lemma_mod_sub_multiples_vanish(s, m);
        vstd::arithmetic::div_mod::lemma_small_mod((s - m) as nat, m as nat);
    } else {
        vstd::arithmetic::div_mod::lemma_small_mod(s as nat, m as nat);
    }
}

/// The map and the generator's state after a character was drawn for each
/// of `keys`, in order: each draw takes a character out of `pool`, so that no
/// character is given twice.
pub open spec fn fill_keys(
    map: Map<usize, char>,
    keys: Seq<usize>,
    pool: Seq<char>,
    state: RngState,
) -> (Map<usize, char>, RngState)
    decreases keys.len(),
{
    if keys.len() == 0 || pool.len() == 0 {
        (map, state)
    } else {
        let at = state.next_index(pool.len());
        fill_keys(
            map.insert(keys[0], pool[at]),
            keys.skip(1),
            pool.remove(at),
            state.after_draw(pool.len()),
        )
    }
}

/// The map and the generator's state after the values of `map` were drawn
/// anew: for its keys in ascending order, one character each out of the whole
/// alphabet, without replacement.
pub open spec fn filled(map: Map<usize, char>, state: RngState) -> (Map<usize, char>, RngState) {
    fill_keys(map, ascending_keys(map.dom()), common_chars(), state)
}

/// Draws the values of the map anew from the generator: the keys stay, every
/// key gets a letter of the alphabet, and no two keys get the same.
pub fn fill_bit_to_char_map(rng: &mut StdRng, bit_to_char_map: &mut HashMap<usize, char>)
    requires
        old(bit_to_char_map)@.dom().len() <= 26,
    ensures
        (final(bit_to_char_map)@, state_of(*final(rng))) == filled(
            old(bit_to_char_map)@,
            state_of(*old(rng)),
        ),
        final(bit_to_char_map)@.dom() == old(bit_to_char_map)@.dom(),
        injective(final(bit_to_char_map)@),
        forall|k: usize|
            final(bit_to_char_map)@.contains_key(k) ==> common_chars().contains(
                #[trigger] final(bit_to_char_map)@[k],
            ),
{
    proof {
        lemma_filled(bit_to_char_map@, state_of(*rng));
    }
    let bit_keys = sorted_keys(bit_to_char_map);
    let mut chars: Vec<char> = Vec::new();
    let mut j: usize = 0;
    while j < 26
        invariant
            j <= 26,
            chars@ == common_chars().take(j as int),
        decreases 26 - j,
    {
        chars.push(COMMON_CHARS[j]);
        j += 1;
    }
    assert(common_chars().take(26) == common_chars());
    let mut num: usize = 0;
    assert(bit_keys@.skip(0) == bit_keys@);
    while num < bit_keys.len()
        invariant
            num <= bit_keys.len(),
            bit_keys.len() <= 26,
            chars.len() == 26 - num,
            fill_keys(bit_to_char_map@, bit_keys@.skip(num as int), chars@, state_of(*rng))
                == filled(old(bit_to_char_map)@, state_of(*old(rng))),
            bit_keys@ == ascending_keys(old(bit_to_char_map)@.dom()),
        decreases bit_keys.len() - num,
    {
        let key = bit_keys[num];
        let random_index = next_index(rng, chars.len());
        let random_char = chars[random_index];
        proof {
            assert(bit_keys@.skip(num as int).skip(1) == bit_keys@.skip(num + 1));
        }
        chars.remove(random_index);
        bit_to_char_map.insert(key, random_char);
        num += 1;
    }
}

/// The map from characters back to keys that comes of entering, for each
/// of `keys` in order, the key under its character.
pub open spec fn inverse_entries(map: Map<usize, char>, keys: Seq<usize>) -> Map<char, usize>
    decreases keys.len(),
{
    if keys.len() == 0 {
        Map::<char, usize>::empty()
    } else {
        inverse_entries(map, keys.drop_last()).insert(map[keys.last()], keys.last())
    }
}

/// The map from the characters of a bit map back to their keys. Where two
/// keys have the same character, the larger key stands.
pub open spec fn inverse_map(map: Map<usize, char>) -> Map<char, usize> {
    inverse_entries(map, ascending_keys(map.dom()))
}

/// The map from the characters of the bit map back to their keys. Where no
/// two keys have the same character, it is the inverse of the bit map.
pub fn make_char_to_bit_map(bit_to_char_map: &HashMap<usize, char>) -> (map: CharMap)
    ensures
        map@ == inverse_map(bit_to_char_map@),
        injective(bit_to_char_map@) ==> (forall|k: usize|
            bit_to_char_map@.contains_key(k) ==> map@.contains_key(#[trigger] bit_to_char_map@[k])
                && map@[bit_to_char_map@[k]] == k) && (forall|c: char|
            (#[trigger] map@.contains_key(c)) ==> bit_to_char_map@.contains_key(map@[c])
                && bit_to_char_map@[map@[c]] == c),
{
    proof {
        if injective(bit_to_char_map@) {
            lemma_inverse_map(bit_to_char_map@);
        }
    }
    let keys = sorted_keys(bit_to_char_map);
    let mut map = CharMap::new();
    let mut i: usize = 0;
    proof {
        assert forall|k: int| 0 <= k < keys.len() implies bit_to_char_map@.contains_key(
            #[trigger] keys@[k],
        ) by {
            lemma_ascending_keys(bit_to_char_map@.dom());
        }
    }
    while i < keys.len()
        invariant
            i <= keys.len(),
            forall|k: int| 0 <= k < keys.len() ==> bit_to_char_map@.contains_key(#[trigger] keys@[k]),
            map@ == inverse_entries(bit_to_char_map@, keys@.take(i as int)),
        decreases keys.len() - i,
    {
        let key = keys[i];
        proof {
            assert(keys@.take(i + 1).drop_last() == keys@.take(i as int));
        }
        let c = *bit_to_char_map.get(&key).unwrap();
        map.insert(c, key);
        i += 1;
    }
    assert(keys@.take(keys.len() as int) == keys@);
    map
}

} // verus!
