//! What holds of the bit maps: which keys they have, that a draw keeps the
//! keys and gives every key a character of its own, and what the inverse of
//! such a map is.

use crate::prng::RngState;
use crate::sorted::ascending_keys;
use crate::sorted::lemma_ascending_keys;
use crate::sorted::lemma_is_ascending_keys;
use crate::sorted::strictly_ascending;
use crate::utils::bit_key;
use crate::utils::bit_value;
use crate::utils::char_value_map;
use crate::utils::common_chars;
use crate::utils::fill_keys;
use crate::utils::filled;
use crate::utils::from_nearer_end;
use crate::utils::initial_bit_map;
use crate::utils::inverse_entries;
use crate::utils::inverse_map;
use crate::utils::lemma_common_chars_distinct;
use crate::utils::lemma_two_to_monotonic;
use crate::utils::two_to;
use vstd::prelude::*;

verus! {

/// No two keys have the same character.
pub open spec fn injective(map: Map<usize, char>) -> bool {
    forall|a: usize, b: usize|
        map.contains_key(a) && map.contains_key(b) && a != b ==> #[trigger] map[a] != #[trigger] map[b]
}

/// What drawing characters for some keys keeps and gives: the keys of the map
/// stay, joined by the keys drawn for; each key drawn for gets a character of
/// the pool, and no two get the same.
proof fn lemma_fill_keys(map: Map<usize, char>, keys: Seq<usize>, pool: Seq<char>, state: RngState)
    requires
        keys.no_duplicates(),
        pool.no_duplicates(),
        keys.len() <= pool.len(),
    ensures
        forall|k: usize|
            (#[trigger] fill_keys(map, keys, pool, state).0.contains_key(k)) <==> (map.contains_key(
                k,
            ) || keys.contains(k)),
        forall|k: usize|
            map.contains_key(k) && !keys.contains(k) ==> (#[trigger] fill_keys(
                map,
                keys,
                pool,
                state,
            ).0[k]) == map[k],
        forall|k: usize|
            keys.contains(k) ==> pool.contains(#[trigger] fill_keys(map, keys, pool, state).0[k]),
        forall|a: usize, b: usize|
            keys.contains(a) && keys.contains(b) && a != b ==> #[trigger] fill_keys(
                map,
                keys,
                pool,
                state,
            ).0[a] != #[trigger] fill_keys(map, keys, pool, state).0[b],
    decreases keys.len(),
{
    if keys.len() == 0 || pool.len() == 0 {
        assert forall|k: usize| !keys.contains(k) by {}
    } else {
        let at = state.next_index(pool.len());
        assert(0 <= at < pool.len()) by {
            let d = crate::prng::drawn_index(state.seed, state.draws, pool.len() as usize) as int;
            let m = pool.len() as int;
            assert(0 <= d % m < m) by (nonlinear_arith)
                requires
                    0 < m,
                    0 <= d,
            ;
        }
        let c = pool[at];
        let map1 = map.insert(keys[0], c);
        let keys1 = keys.skip(1);
        let pool1 = pool.remove(at);
        let state1 = state.after_draw(pool.len());
        let result = fill_keys(map, keys, pool, state).0;
        assert(result == fill_keys(map1, keys1, pool1, state1).0);
        assert forall|i: int, j: int| 0 <= i < j < keys1.len() implies keys1[i] != keys1[j] by {
            assert(keys1[i] == keys[i + 1] && keys1[j] == keys[j + 1]);
        }
        assert forall|i: int, j: int| 0 <= i < j < pool1.len() implies pool1[i] != pool1[j] by {
            let a = if i < at {
                i
            } else {
                i + 1
            };
            let b = if j < at {
                j
            } else {
                j + 1
            };
            assert(pool1[i] == pool[a] && pool1[j] == pool[b]);
        }
        lemma_fill_keys(map1, keys1, pool1, state1);
        assert forall|k: usize| keys.contains(k) <==> (k == keys[0] || keys1.contains(k)) by {
            if keys.contains(k) {
                let i = choose|i: int| 0 <= i < keys.len() && keys[i] == k;
                if i > 0 {
                    assert(keys1[i - 1] == k);
                }
            }
            if keys1.contains(k) {
                let i = choose|i: int| 0 <= i < keys1.len() && keys1[i] == k;
                assert(keys[i + 1] == k);
            }
        }
        assert(!keys1.contains(keys[0])) by {
            if keys1.contains(keys[0]) {
                let i = choose|i: int| 0 <= i < keys1.len() && keys1[i] == keys[0];
                assert(keys[i + 1] == keys[0]);
            }
        }
        assert forall|x: char| pool1.contains(x) implies pool.contains(x) && x != c by {
            let i = choose|i: int| 0 <= i < pool1.len() && pool1[i] == x;
            let a = if i < at {
                i
            } else {
                i + 1
            };
            assert(pool[a] == x);
        }
        assert(result[keys[0]] == c);
        assert forall|k: usize|
            result.contains_key(k) <==> (map.contains_key(k) || keys.contains(k)) by {
            assert(fill_keys(map1, keys1, pool1, state1).0.contains_key(k) <==> (
                map1.contains_key(k) || keys1.contains(k)));
            assert(keys.contains(k) <==> (k == keys[0] || keys1.contains(k)));
        }
        assert forall|k: usize| map.contains_key(k) && !keys.contains(k) implies result[k]
            == map[k] by {
            assert(keys.contains(k) <==> (k == keys[0] || keys1.contains(k)));
            assert(map1.contains_key(k) && !keys1.contains(k));
            assert(fill_keys(map1, keys1, pool1, state1).0[k] == map1[k]);
        }
        assert forall|k: usize| keys.contains(k) implies pool.contains(#[trigger] result[k]) by {
            if k == keys[0] {
            } else {
                assert(keys1.contains(k));
                assert(pool1.contains(result[k]));
            }
        }
        assert forall|a: usize, b: usize| keys.contains(a) && keys.contains(b) && a != b implies
            #[trigger] result[a] != #[trigger] result[b] by {
            if a == keys[0] {
                assert(keys1.contains(b));
                assert(pool1.contains(result[b]));
            } else if b == keys[0] {
                assert(keys1.contains(a));
                assert(pool1.contains(result[a]));
            } else {
                assert(keys1.contains(a) && keys1.contains(b));
            }
        }
    }
}

/// An ascending list holds no key twice.
pub proof fn lemma_ascending_no_duplicates(keys: Set<usize>)
    requires
        keys.finite(),
    ensures
        ascending_keys(keys).no_duplicates(),
{
    lemma_ascending_keys(keys);
    let s = ascending_keys(keys);
    assert forall|i: int, j: int| 0 <= i < s.len() && 0 <= j < s.len() && i != j implies s[i]
        != s[j] by {
        if i < j {
            assert(s[i] < s[j]);
        } else {
            assert(s[j] < s[i]);
        }
    }
}

/// A draw keeps the keys of a bit map.
pub proof fn lemma_filled_dom(map: Map<usize, char>, state: RngState)
    requires
        map.dom().finite(),
        map.dom().len() <= 26,
    ensures
        filled(map, state).0.dom() == map.dom(),
{
    lemma_filled(map, state);
}

/// After a draw, a bit map has the keys that it had, every key has a letter
/// of the alphabet, and no two keys have the same.
pub proof fn lemma_filled(map: Map<usize, char>, state: RngState)
    requires
        map.dom().finite(),
        map.dom().len() <= 26,
    ensures
        filled(map, state).0.dom() == map.dom(),
        injective(filled(map, state).0),
        forall|k: usize|
            map.contains_key(k) ==> common_chars().contains(#[trigger] filled(map, state).0[k]),
{
    let keys = ascending_keys(map.dom());
    lemma_ascending_keys(map.dom());
    lemma_ascending_no_duplicates(map.dom());
    lemma_common_chars_distinct();
    lemma_fill_keys(map, keys, common_chars(), state);
    let result = filled(map, state).0;
    assert forall|k: usize| result.dom().contains(k) <==> map.dom().contains(k) by {
        assert(keys.contains(k) <==> map.dom().contains(k));
        assert(fill_keys(map, keys, common_chars(), state).0.contains_key(k) <==> (
            map.contains_key(k) || keys.contains(k)));
    }
    assert(result.dom() =~= map.dom());
    assert forall|a: usize, b: usize|
        result.contains_key(a) && result.contains_key(b) && a != b implies #[trigger] result[a]
        != #[trigger] result[b] by {
        assert(keys.contains(a) && keys.contains(b));
    }
    assert forall|k: usize| map.contains_key(k) implies common_chars().contains(
        #[trigger] result[k],
    ) by {
        assert(keys.contains(k));
    }
}

/// The keys of a bit map for `num_bits` bits, the smallest first: 0, and the
/// powers of two below two to the power `num_bits`.
pub open spec fn key_list(num_bits: nat) -> Seq<usize> {
    Seq::new(num_bits + 1, |i: int| bit_key(i as nat) as usize)
}

/// A bit map for `num_bits` bits: its keys are 0 and the powers of two below
/// two to the power `num_bits`, every key has a letter of the alphabet, and no
/// two keys have the same.
pub open spec fn is_bit_alphabet(map: Map<usize, char>, num_bits: nat) -> bool {
    &&& map.dom().finite()
    &&& map.dom().len() == num_bits + 1
    &&& forall|k: usize| map.contains_key(k) <==> key_list(num_bits).contains(k)
    &&& injective(map)
    &&& forall|k: usize| map.contains_key(k) ==> common_chars().contains(#[trigger] map[k])
}

/// A larger exponent gives a larger power of two.
pub proof fn lemma_two_to_strict(a: nat, b: nat)
    requires
        a < b,
    ensures
        two_to(a) < two_to(b),
    decreases b,
{
    lemma_two_to_monotonic(a, (b - 1) as nat);
}

/// The keys of a bit map are listed in ascending order, each once.
pub proof fn lemma_key_list(num_bits: nat)
    requires
        num_bits <= 25,
    ensures
        strictly_ascending(key_list(num_bits)),
        key_list(num_bits).no_duplicates(),
        forall|i: int| 0 <= i <= num_bits ==> (#[trigger] key_list(num_bits)[i]) == bit_key(i as nat),
{
    let keys = key_list(num_bits);
    assert forall|i: int| 0 <= i <= num_bits implies (#[trigger] keys[i]) == bit_key(i as nat) by {
        if i > 0 {
            lemma_two_to_monotonic((i - 1) as nat, 24);
            lemma_two_to_24();
        }
    }
    assert forall|i: int, j: int| 0 <= i < j < keys.len() implies keys[i] < keys[j] by {
        if i == 0 {
            lemma_two_to_monotonic(0, (j - 1) as nat);
        } else {
            lemma_two_to_strict((i - 1) as nat, (j - 1) as nat);
        }
    }
}

proof fn lemma_two_to_24()
    ensures
        two_to(24) == 16777216,
{
    reveal_with_fuel(two_to, 25);
}

/// The bit map before any draw has the keys of its number of bits, the
/// `i`-th of them mapped to the `i`-th most frequent letter.
pub proof fn lemma_initial_bit_map(num_bits: nat)
    requires
        num_bits <= 25,
    ensures
        is_bit_alphabet(initial_bit_map(num_bits), num_bits),
        forall|i: int|
            0 <= i <= num_bits ==> initial_bit_map(num_bits)[#[trigger] key_list(num_bits)[i]]
                == common_chars()[i],
    decreases num_bits,
{
    let map = initial_bit_map(num_bits);
    let keys = key_list(num_bits);
    lemma_key_list(num_bits);
    lemma_common_chars_distinct();
    if num_bits == 0 {
        assert(keys[0] == 0);
        assert forall|k: usize| map.contains_key(k) <==> keys.contains(k) by {
            if keys.contains(k) {
                let i = choose|i: int| 0 <= i < keys.len() && keys[i] == k;
            }
        }
        assert(map.dom() =~= Set::<usize>::empty().insert(0));
    } else {
        let before = initial_bit_map((num_bits - 1) as nat);
        let fewer = key_list((num_bits - 1) as nat);
        lemma_initial_bit_map((num_bits - 1) as nat);
        lemma_key_list((num_bits - 1) as nat);
        let top = bit_key(num_bits) as usize;
        assert(keys[num_bits as int] == top);
        assert forall|i: int| 0 <= i < num_bits implies keys[i] == #[trigger] fewer[i] by {}
        assert(!before.contains_key(top)) by {
            if before.contains_key(top) {
                assert(fewer.contains(top));
                let i = choose|i: int| 0 <= i < fewer.len() && fewer[i] == top;
                assert(keys[i] < keys[num_bits as int]);
            }
        }
        assert forall|k: usize| map.contains_key(k) <==> keys.contains(k) by {
            if map.contains_key(k) && k != top {
                assert(fewer.contains(k));
                let i = choose|i: int| 0 <= i < fewer.len() && fewer[i] == k;
                assert(keys[i] == k);
            }
            if keys.contains(k) {
                let i = choose|i: int| 0 <= i < keys.len() && keys[i] == k;
                if i < num_bits {
                    assert(fewer[i] == k);
                    assert(fewer.contains(k));
                }
            }
        }
        assert forall|i: int| 0 <= i <= num_bits implies map[#[trigger] keys[i]] == common_chars()[i] by {
            if i < num_bits {
                assert(keys[i] == fewer[i]);
                assert(keys[i] != top);
                assert(before[fewer[i]] == common_chars()[i]);
            }
        }
        assert forall|a: usize, b: usize|
            map.contains_key(a) && map.contains_key(b) && a != b implies #[trigger] map[a]
            != #[trigger] map[b] by {
            assert(keys.contains(a) && keys.contains(b));
            let i = choose|i: int| 0 <= i < keys.len() && keys[i] == a;
            let j = choose|j: int| 0 <= j < keys.len() && keys[j] == b;
            assert(map[keys[i]] == common_chars()[i]);
            assert(map[keys[j]] == common_chars()[j]);
        }
    }
    assert forall|k: usize| map.contains_key(k) implies common_chars().contains(
        #[trigger] map[k],
    ) by {
        assert(keys.contains(k));
        let i = choose|i: int| 0 <= i < keys.len() && keys[i] == k;
        assert(map[keys[i]] == common_chars()[i]);
    }
}

/// The ascending list of the keys of a bit map is the list of the keys of
/// its number of bits.
pub proof fn lemma_alphabet_keys(map: Map<usize, char>, num_bits: nat)
    requires
        num_bits <= 25,
        is_bit_alphabet(map, num_bits),
    ensures
        ascending_keys(map.dom()) == key_list(num_bits),
{
    lemma_key_list(num_bits);
    lemma_is_ascending_keys(key_list(num_bits), map.dom());
}

/// A draw turns a bit map into a bit map for the same number of bits.
pub proof fn lemma_filled_alphabet(map: Map<usize, char>, num_bits: nat, state: RngState)
    requires
        num_bits <= 25,
        is_bit_alphabet(map, num_bits),
    ensures
        is_bit_alphabet(filled(map, state).0, num_bits),
{
    lemma_filled(map, state);
}

/// What the inverse of a map holds, where the listed keys have characters of
/// their own.
pub proof fn lemma_inverse_entries(map: Map<usize, char>, keys: Seq<usize>)
    requires
        forall|i: int, j: int|
            0 <= i < keys.len() && 0 <= j < keys.len() && i != j ==> map[keys[i]] != map[keys[j]],
    ensures
        forall|c: char|
            (#[trigger] inverse_entries(map, keys).contains_key(c)) <==> exists|i: int|
                0 <= i < keys.len() && map[#[trigger] keys[i]] == c,
        forall|i: int|
            0 <= i < keys.len() ==> inverse_entries(map, keys)[map[#[trigger] keys[i]]] == keys[i],
    decreases keys.len(),
{
    if keys.len() > 0 {
        let fewer = keys.drop_last();
        lemma_inverse_entries(map, fewer);
        let inv = inverse_entries(map, keys);
        let before = inverse_entries(map, fewer);
        assert(inv == before.insert(map[keys.last()], keys.last()));
        assert forall|c: char| (#[trigger] inv.contains_key(c)) <==> exists|i: int|
            0 <= i < keys.len() && map[#[trigger] keys[i]] == c by {
            if inv.contains_key(c) {
                if c == map[keys.last()] {
                    assert(map[keys[keys.len() - 1]] == c);
                } else {
                    assert(before.contains_key(c));
                    let i = choose|i: int| 0 <= i < fewer.len() && map[#[trigger] fewer[i]] == c;
                    assert(map[keys[i]] == c);
                }
            }
            if exists|i: int| 0 <= i < keys.len() && map[#[trigger] keys[i]] == c {
                let i = choose|i: int| 0 <= i < keys.len() && map[#[trigger] keys[i]] == c;
                if i < fewer.len() {
                    assert(map[fewer[i]] == c);
                    assert(before.contains_key(c));
                }
            }
        }
        assert forall|i: int| 0 <= i < keys.len() implies inv[map[#[trigger] keys[i]]] == keys[i] by {
            if i < fewer.len() {
                assert(fewer[i] == keys[i]);
                assert(map[keys[i]] != map[keys[keys.len() - 1]]);
                assert(before[map[fewer[i]]] == fewer[i]);
            }
        }
    }
}

/// The inverse of a bit map in which no two keys have the same character
/// leads from each character back to its key, and holds nothing else.
pub proof fn lemma_inverse_map(map: Map<usize, char>)
    requires
        map.dom().finite(),
        injective(map),
    ensures
        forall|k: usize|
            map.contains_key(k) ==> inverse_map(map).contains_key(#[trigger] map[k]) && inverse_map(
                map,
            )[map[k]] == k,
        forall|c: char|
            (#[trigger] inverse_map(map).contains_key(c)) ==> map.contains_key(inverse_map(map)[c])
                && map[inverse_map(map)[c]] == c,
{
    let keys = ascending_keys(map.dom());
    lemma_ascending_keys(map.dom());
    lemma_ascending_no_duplicates(map.dom());
    assert forall|i: int, j: int|
        0 <= i < keys.len() && 0 <= j < keys.len() && i != j implies map[keys[i]] != map[keys[j]] by {
        assert(keys.contains(keys[i]) && keys.contains(keys[j]));
    }
    lemma_inverse_entries(map, keys);
    let inv = inverse_map(map);
    assert forall|k: usize| map.contains_key(k) implies inv.contains_key(#[trigger] map[k])
        && inv[map[k]] == k by {
        assert(keys.contains(k));
        let i = choose|i: int| 0 <= i < keys.len() && keys[i] == k;
        assert(map[keys[i]] == map[k]);
        assert(inv[map[keys[i]]] == keys[i]);
    }
    assert forall|c: char| (#[trigger] inv.contains_key(c)) implies map.contains_key(inv[c])
        && map[inv[c]] == c by {
        let i = choose|i: int| 0 <= i < keys.len() && map[#[trigger] keys[i]] == c;
        assert(keys.contains(keys[i]));
        assert(inv[map[keys[i]]] == keys[i]);
    }
}

/// The sum of the numbers of the listed characters that occur in the word.
pub open spec fn listed_sum(list: Seq<char>, map: Map<char, usize>, word: Seq<char>) -> nat
    decreases list.len(),
{
    if list.len() == 0 {
        0
    } else {
        listed_sum(list.drop_last(), map, word) + if word.contains(list.last()) {
            map[list.last()] as nat
        } else {
            0
        }
    }
}

/// The sum of the numbers of all listed characters.
pub open spec fn listed_total(list: Seq<char>, map: Map<char, usize>) -> nat
    decreases list.len(),
{
    if list.len() == 0 {
        0
    } else {
        listed_total(list.drop_last(), map) + map[list.last()] as nat
    }
}

/// The list holds the characters of the map, each once.
pub open spec fn lists_chars(list: Seq<char>, map: Map<char, usize>) -> bool {
    list.no_duplicates() && forall|c: char| list.contains(c) <==> map.contains_key(c)
}

proof fn lemma_drop_last_contains(list: Seq<char>, c: char)
    requires
        list.len() > 0,
    ensures
        list.contains(c) <==> (list.drop_last().contains(c) || list.last() == c),
{
    let fewer = list.drop_last();
    if list.contains(c) {
        let i = choose|i: int| 0 <= i < list.len() && list[i] == c;
        if i < fewer.len() {
            assert(fewer[i] == c);
        }
    }
}

proof fn lemma_push_contains(word: Seq<char>, c: char, d: char)
    ensures
        word.push(c).contains(d) <==> (word.contains(d) || d == c),
{
    lemma_drop_last_contains(word.push(c), d);
    assert(word.push(c).drop_last() == word);
}

proof fn lemma_listed_sum_push(list: Seq<char>, map: Map<char, usize>, word: Seq<char>, c: char)
    requires
        list.no_duplicates(),
    ensures
        listed_sum(list, map, word.push(c)) == listed_sum(list, map, word) + if list.contains(c)
            && !word.contains(c) {
            map[c] as nat
        } else {
            0
        },
    decreases list.len(),
{
    if list.len() > 0 {
        let fewer = list.drop_last();
        let l = list.last();
        lemma_listed_sum_push(fewer, map, word, c);
        lemma_drop_last_contains(list, c);
        lemma_push_contains(word, c, l);
        if l == c {
            assert(!fewer.contains(c)) by {
                if fewer.contains(c) {
                    let i = choose|i: int| 0 <= i < fewer.len() && fewer[i] == c;
                    assert(list[i] == list[list.len() - 1]);
                }
            }
        }
    }
}

/// The value of a word under a bit map is the sum of the numbers of the
/// characters of the map that occur in it.
pub proof fn lemma_bit_value_is_listed_sum(list: Seq<char>, map: Map<char, usize>, word: Seq<char>)
    requires
        lists_chars(list, map),
    ensures
        bit_value(word, map) == listed_sum(list, map, word),
    decreases word.len(),
{
    if word.len() == 0 {
        lemma_listed_sum_same(list, map, word, Seq::<char>::empty());
        lemma_listed_sum_empty(list, map);
    } else {
        let before = word.drop_last();
        let c = word.last();
        lemma_bit_value_is_listed_sum(list, map, before);
        lemma_listed_sum_push(list, map, before, c);
        assert(before.push(c) == word);
    }
}

proof fn lemma_listed_sum_empty(list: Seq<char>, map: Map<char, usize>)
    ensures
        listed_sum(list, map, Seq::<char>::empty()) == 0,
    decreases list.len(),
{
    if list.len() > 0 {
        lemma_listed_sum_empty(list.drop_last(), map);
    }
}

/// Two words that hold the same listed characters have the same sum.
pub proof fn lemma_listed_sum_same(
    list: Seq<char>,
    map: Map<char, usize>,
    word: Seq<char>,
    other: Seq<char>,
)
    requires
        forall|i: int|
            0 <= i < list.len() ==> (word.contains(#[trigger] list[i]) <==> other.contains(list[i])),
    ensures
        listed_sum(list, map, word) == listed_sum(list, map, other),
    decreases list.len(),
{
    if list.len() > 0 {
        let fewer = list.drop_last();
        lemma_listed_sum_same(fewer, map, word, other);
    }
}

/// The sum for a word is at most the sum of all listed numbers.
pub proof fn lemma_listed_sum_bound(list: Seq<char>, map: Map<char, usize>, word: Seq<char>)
    ensures
        listed_sum(list, map, word) <= listed_total(list, map),
    decreases list.len(),
{
    if list.len() > 0 {
        lemma_listed_sum_bound(list.drop_last(), map, word);
    }
}

/// The characters of a bit map, in the order of its keys.
pub open spec fn alphabet_chars(map: Map<usize, char>) -> Seq<char> {
    Seq::new(ascending_keys(map.dom()).len(), |i: int| map[ascending_keys(map.dom())[i]])
}

/// The sum of the first `count` keys of a bit map.
pub open spec fn keys_total(count: nat) -> nat
    decreases count,
{
    if count == 0 {
        0
    } else {
        keys_total((count - 1) as nat) + bit_key((count - 1) as nat)
    }
}

/// The keys of a bit map for `num_bits` bits add up to two to the power
/// `num_bits`, less one.
pub proof fn lemma_keys_total(num_bits: nat)
    ensures
        keys_total(num_bits + 1) == two_to(num_bits) - 1,
    decreases num_bits,
{
    if num_bits > 0 {
        lemma_keys_total((num_bits - 1) as nat);
    } else {
        assert(keys_total(1) == keys_total(0) + bit_key(0));
    }
}

proof fn lemma_alphabet_total(map: Map<usize, char>, num_bits: nat, count: nat)
    requires
        num_bits <= 25,
        is_bit_alphabet(map, num_bits),
        count <= num_bits + 1,
    ensures
        listed_total(alphabet_chars(map).take(count as int), inverse_map(map)) == keys_total(count),
    decreases count,
{
    lemma_alphabet_keys(map, num_bits);
    lemma_key_list(num_bits);
    let list = alphabet_chars(map).take(count as int);
    if count > 0 {
        lemma_alphabet_total(map, num_bits, (count - 1) as nat);
        assert(list.drop_last() =~= alphabet_chars(map).take(count - 1));
        let k = key_list(num_bits)[count - 1];
        assert(key_list(num_bits).contains(k));
        assert(list.last() == map[k]);
        lemma_inverse_map(map);
        assert(inverse_map(map)[map[k]] == k);
    }
}

/// The characters of a bit map list the characters of its inverse.
pub proof fn lemma_alphabet_chars(map: Map<usize, char>, num_bits: nat)
    requires
        num_bits <= 25,
        is_bit_alphabet(map, num_bits),
    ensures
        lists_chars(alphabet_chars(map), inverse_map(map)),
        alphabet_chars(map).len() == num_bits + 1,
{
    lemma_alphabet_keys(map, num_bits);
    lemma_key_list(num_bits);
    lemma_inverse_map(map);
    let keys = key_list(num_bits);
    let list = alphabet_chars(map);
    let inv = inverse_map(map);
    assert forall|c: char| list.contains(c) <==> inv.contains_key(c) by {
        if inv.contains_key(c) {
            let k = inv[c];
            let i = choose|i: int| 0 <= i < keys.len() && keys[i] == k;
            assert(list[i] == c);
        }
    }
}

/// Under the inverse of a bit map for `num_bits` bits, the value of every
/// word is below two to the power `num_bits`.
pub proof fn lemma_bit_value_bound(map: Map<usize, char>, num_bits: nat, word: Seq<char>)
    requires
        num_bits <= 25,
        is_bit_alphabet(map, num_bits),
    ensures
        bit_value(word, inverse_map(map)) < two_to(num_bits),
{
    let list = alphabet_chars(map);
    let inv = inverse_map(map);
    lemma_alphabet_chars(map, num_bits);
    lemma_bit_value_is_listed_sum(list, inv, word);
    lemma_listed_sum_bound(list, inv, word);
    lemma_alphabet_total(map, num_bits, num_bits + 1);
    assert(list.take((num_bits + 1) as int) =~= list);
    lemma_keys_total(num_bits);
}

/// Under a value map, the value of every word as a sum over the characters
/// that occur in it is at most 312.
pub proof fn lemma_value_map_bound(exponent: nat, word: Seq<char>)
    ensures
        bit_value(word, char_value_map(exponent)) <= 312,
{
    let list = common_chars();
    let map = char_value_map(exponent);
    lemma_bit_value_is_listed_sum(list, map, word);
    lemma_listed_sum_bound(list, map, word);
    lemma_value_total(exponent, 26);
    assert(list.take(26) =~= list);
}

proof fn lemma_value_total(exponent: nat, count: nat)
    requires
        count <= 26,
    ensures
        listed_total(common_chars().take(count as int), char_value_map(exponent)) <= 12 * count,
    decreases count,
{
    let list = common_chars().take(count as int);
    if count > 0 {
        lemma_value_total(exponent, (count - 1) as nat);
        assert(list.drop_last() =~= common_chars().take(count - 1));
        let c = list.last();
        let j = common_chars().index_of(c);
        lemma_two_to_monotonic(0, exponent);
        let m = two_to(exponent) as int;
        let v = from_nearer_end(j);
        assert(v % m <= v) by (nonlinear_arith)
            requires
                0 <= v,
                0 < m,
        ;
    }
}

} // verus!
