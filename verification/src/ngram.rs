//! The n-gram model: how often each sequence of up to `n` words occurs in a
//! text.

use crate::text::chars_of;
use crate::text::same_words;
use crate::text::texts;
use std::collections::HashMap;
use vstd::prelude::*;

verus! {

broadcast use vstd::std_specs::hash::group_hash_axioms;

/// A sequence of words.
pub type Gram = Seq<Seq<char>>;

/// The count of `gram` in a list of counted grams, if it is listed.
pub open spec fn count_of(entries: Seq<(Gram, usize)>, gram: Gram) -> Option<usize>
    decreases entries.len(),
{
    if entries.len() == 0 {
        None
    } else if entries[0].0 == gram {
        Some(entries[0].1)
    } else {
        count_of(entries.skip(1), gram)
    }
}

/// The list after one more occurrence of `gram` was counted: its count goes
/// up by one, or it is added at the end with the count 1.
pub open spec fn recorded(entries: Seq<(Gram, usize)>, gram: Gram) -> Seq<(Gram, usize)>
    decreases entries.len(),
{
    if entries.len() == 0 {
        seq![(gram, 1usize)]
    } else if entries[0].0 == gram {
        seq![(gram, (entries[0].1 + 1) as usize)] + entries.skip(1)
    } else {
        seq![entries[0]] + recorded(entries.skip(1), gram)
    }
}

/// The list after the occurrences `grams` were counted, in order.
pub open spec fn recorded_all(entries: Seq<(Gram, usize)>, grams: Seq<Gram>) -> Seq<(Gram, usize)>
    decreases grams.len(),
{
    if grams.len() == 0 {
        entries
    } else {
        recorded(recorded_all(entries, grams.drop_last()), grams.last())
    }
}

/// What counting one occurrence does, by whether the gram is listed.
pub proof fn lemma_recorded(entries: Seq<(Gram, usize)>, gram: Gram)
    ensures
        (forall|i: int| 0 <= i < entries.len() ==> (#[trigger] entries[i]).0 != gram) ==> recorded(
            entries,
            gram,
        ) == entries.push((gram, 1usize)) && count_of(entries, gram) is None,
        forall|i: int|
            0 <= i < entries.len() && (#[trigger] entries[i]).0 == gram && (forall|j: int|
                0 <= j < i ==> (#[trigger] entries[j]).0 != gram) ==> recorded(entries, gram)
                == entries.update(i, (gram, (entries[i].1 + 1) as usize)) && count_of(
                entries,
                gram,
            ) == Some(entries[i].1),
    decreases entries.len(),
{
    if entries.len() == 0 {
        assert(entries.push((gram, 1usize)) =~= seq![(gram, 1usize)]);
    } else {
        let rest = entries.skip(1);
        lemma_recorded(rest, gram);
        if entries[0].0 == gram {
            assert(entries.update(0, (gram, (entries[0].1 + 1) as usize)) =~= seq![
                (gram, (entries[0].1 + 1) as usize),
            ] + rest);
        } else {
            if forall|i: int| 0 <= i < entries.len() ==> (#[trigger] entries[i]).0 != gram {
                assert forall|i: int| 0 <= i < rest.len() implies (#[trigger] rest[i]).0 != gram by {
                    assert(rest[i] == entries[i + 1]);
                }
                assert(entries.push((gram, 1usize)) =~= seq![entries[0]] + rest.push(
                    (gram, 1usize),
                ));
            }
            assert forall|i: int|
                0 <= i < entries.len() && (#[trigger] entries[i]).0 == gram && (forall|j: int|
                    0 <= j < i ==> (#[trigger] entries[j]).0 != gram) implies recorded(
                entries,
                gram,
            ) == entries.update(i, (gram, (entries[i].1 + 1) as usize)) && count_of(entries, gram)
                == Some(entries[i].1) by {
                assert(i > 0);
                assert(rest[i - 1] == entries[i]);
                assert forall|j: int| 0 <= j < i - 1 implies (#[trigger] rest[j]).0 != gram by {
                    assert(rest[j] == entries[j + 1]);
                }
                assert(entries.update(i, (gram, (entries[i].1 + 1) as usize)) =~= seq![entries[0]]
                    + rest.update(i - 1, (gram, (rest[i - 1].1 + 1) as usize)));
            }
        }
    }
}

/// The count of a gram after one occurrence of `gram` was counted.
pub proof fn lemma_count_after_record(entries: Seq<(Gram, usize)>, gram: Gram, other: Gram)
    ensures
        count_of(recorded(entries, gram), other) == if other == gram {
            Some(
                match count_of(entries, gram) {
                    Some(c) => (c + 1) as usize,
                    None => 1usize,
                },
            )
        } else {
            count_of(entries, other)
        },
    decreases entries.len(),
{
    if entries.len() == 0 {
        let after = seq![(gram, 1usize)];
        assert(count_of(after.skip(1), other) is None);
    } else if entries[0].0 == gram {
        let bumped = (gram, (entries[0].1 + 1) as usize);
        let after = seq![bumped] + entries.skip(1);
        assert(after.skip(1) =~= entries.skip(1));
    } else {
        lemma_count_after_record(entries.skip(1), gram, other);
        let after = seq![entries[0]] + recorded(entries.skip(1), gram);
        assert(after.skip(1) =~= recorded(entries.skip(1), gram));
    }
}

/// How often `gram` occurs in a list of grams.
pub open spec fn multiplicity(grams: Seq<Gram>, gram: Gram) -> nat
    decreases grams.len(),
{
    if grams.len() == 0 {
        0
    } else {
        multiplicity(grams.drop_last(), gram) + if grams.last() == gram {
            1nat
        } else {
            0nat
        }
    }
}

/// The count of a gram as a number: 0 where it is not listed.
pub open spec fn count_or_zero(entries: Seq<(Gram, usize)>, gram: Gram) -> nat {
    match count_of(entries, gram) {
        Some(c) => c as nat,
        None => 0,
    }
}

/// A gram occurs in a list at most as often as the list is long, and not at
/// all where no element is the gram.
pub proof fn lemma_multiplicity_bound(grams: Seq<Gram>, gram: Gram)
    ensures
        multiplicity(grams, gram) <= grams.len(),
        (forall|i: int| 0 <= i < grams.len() ==> (#[trigger] grams[i]) != gram) ==> multiplicity(
            grams,
            gram,
        ) == 0,
    decreases grams.len(),
{
    if grams.len() > 0 {
        lemma_multiplicity_bound(grams.drop_last(), gram);
    }
}

/// Counting occurrences of other grams leaves the count of a gram as it is.
pub proof fn lemma_count_unchanged(entries: Seq<(Gram, usize)>, grams: Seq<Gram>, gram: Gram)
    requires
        forall|i: int| 0 <= i < grams.len() ==> (#[trigger] grams[i]) != gram,
    ensures
        count_of(recorded_all(entries, grams), gram) == count_of(entries, gram),
    decreases grams.len(),
{
    if grams.len() > 0 {
        let fewer = grams.drop_last();
        lemma_count_unchanged(entries, fewer, gram);
        lemma_count_after_record(recorded_all(entries, fewer), grams.last(), gram);
    }
}

/// After a list of occurrences was counted, the count of a gram is its count
/// before and the number of its occurrences in the list; it is listed if it
/// was listed before or occurs in the list.
pub proof fn lemma_count_after_all(entries: Seq<(Gram, usize)>, grams: Seq<Gram>, gram: Gram)
    requires
        count_or_zero(entries, gram) + grams.len() <= usize::MAX,
    ensures
        count_or_zero(recorded_all(entries, grams), gram) == count_or_zero(entries, gram)
            + multiplicity(grams, gram),
        count_of(recorded_all(entries, grams), gram) is Some <==> (count_of(entries, gram) is Some
            || multiplicity(grams, gram) > 0),
    decreases grams.len(),
{
    if grams.len() > 0 {
        let fewer = grams.drop_last();
        lemma_count_after_all(entries, fewer, gram);
        lemma_multiplicity_bound(fewer, gram);
        lemma_count_after_record(recorded_all(entries, fewer), grams.last(), gram);
    }
}

/// The largest number that a mixed value can take, and one more.
pub const MIX_MODULUS: u64 = 4294967291;

/// The number that parts two words when a gram is mixed: above every
/// character.
pub const WORD_END: u64 = 1114112;

/// A number mixed with one more.
pub open spec fn mixed(h: u64, x: u64) -> u64 {
    ((h * 31 + x) % (MIX_MODULUS as int)) as u64
}

/// The number that stands for a character when a word is mixed.
pub open spec fn char_code(c: char) -> u64 {
    ((c as u32) % 1114112) as u64
}

/// A number mixed with the characters of a word.
pub open spec fn word_mix(h: u64, word: Seq<char>) -> u64
    decreases word.len(),
{
    if word.len() == 0 {
        h
    } else {
        mixed(word_mix(h, word.drop_last()), char_code(word.last()))
    }
}

/// The number under which a gram is filed: its words mixed one after the
/// other, each followed by the mark that ends a word.
pub open spec fn gram_mix(gram: Gram) -> u64
    decreases gram.len(),
{
    if gram.len() == 0 {
        0
    } else {
        mixed(word_mix(gram_mix(gram.drop_last()), gram.last()), WORD_END)
    }
}

fn mix(h: u64, x: u64) -> (r: u64)
    requires
        h < MIX_MODULUS,
        x <= WORD_END,
    ensures
        r == mixed(h, x),
        r < MIX_MODULUS,
{
    (h * 31 + x) % MIX_MODULUS
}

/// Mixes the words of a gram.
fn mix_words(gram: &Vec<String>) -> (h: u64)
    ensures
        h == gram_mix(texts(gram@)),
{
    let mut h: u64 = 0;
    let mut i: usize = 0;
    let ghost words = texts(gram@);
    while i < gram.len()
        invariant
            i <= gram.len(),
            words == texts(gram@),
            h == gram_mix(words.take(i as int)),
            h < MIX_MODULUS,
        decreases gram.len() - i,
    {
        let chars = chars_of(gram[i].as_str());
        let mut k: usize = 0;
        let ghost before = h;
        while k < chars.len()
            invariant
                k <= chars.len(),
                h == word_mix(before, chars@.take(k as int)),
                h < MIX_MODULUS,
            decreases chars.len() - k,
        {
            proof {
                assert(chars@.take(k + 1).drop_last() =~= chars@.take(k as int));
            }
            let code = ((chars[k] as u32) % 1114112) as u64;
            h = mix(h, code);
            k += 1;
        }
        proof {
            assert(chars@.take(chars.len() as int) =~= chars@);
            assert(words.take(i + 1).drop_last() =~= words.take(i as int));
        }
        h = mix(h, WORD_END);
        i += 1;
    }
    assert(words.take(gram.len() as int) =~= words);
    h
}

/// One counted gram.
pub struct NgramEntry {
    gram: Vec<String>,
    count: usize,
}

/// The counted grams of a text, in the order in which each was first met.
/// The places of the grams are filed under the numbers that the grams mix to,
/// so that a gram is found without going through all of them.
pub struct NgramIndex {
    entries: Vec<NgramEntry>,
    places: HashMap<u64, Vec<usize>>,
}

/// The grams and counts of a list of entries.
pub closed spec fn listed(entries: Seq<NgramEntry>) -> Seq<(Gram, usize)> {
    Seq::new(entries.len(), |i: int| (texts(entries[i].gram@), entries[i].count))
}

impl View for NgramIndex {
    type V = Seq<(Gram, usize)>;

    closed spec fn view(&self) -> Seq<(Gram, usize)> {
        listed(self.entries@)
    }
}

/// The places filed under a number: none where nothing is filed under it.
pub open spec fn filed_under(places: Map<u64, Vec<usize>>, h: u64) -> Seq<usize> {
    if places.contains_key(h) {
        places[h]@
    } else {
        Seq::<usize>::empty()
    }
}

/// Every gram is filed under the number that it mixes to, nothing else is
/// filed, and the places under one number ascend.
pub open spec fn filed(entries: Seq<(Gram, usize)>, places: Map<u64, Vec<usize>>) -> bool {
    &&& forall|i: int|
        0 <= i < entries.len() ==> filed_under(places, gram_mix((#[trigger] entries[i]).0)).contains(
            i as usize,
        )
    &&& forall|h: u64, k: int|
        0 <= k < filed_under(places, h).len() ==> (#[trigger] filed_under(places, h)[k])
            < entries.len() && gram_mix(entries[filed_under(places, h)[k] as int].0) == h
    &&& forall|h: u64, a: int, b: int|
        0 <= a < b < filed_under(places, h).len() ==> (#[trigger] filed_under(places, h)[a]) < (
        #[trigger] filed_under(places, h)[b])
}

impl NgramIndex {
    #[verifier::type_invariant]
    spec fn well_filed(self) -> bool {
        filed(listed(self.entries@), self.places@)
    }

    /// An index without entries.
    pub fn new() -> (index: NgramIndex)
        ensures
            index@ == Seq::<(Gram, usize)>::empty(),
    {
        let index = NgramIndex { entries: Vec::new(), places: HashMap::new() };
        index
    }

    /// The number of grams listed.
    pub fn len(&self) -> (n: usize)
        ensures
            n == self@.len(),
    {
        self.entries.len()
    }

    /// The gram of the entry at `i`.
    pub fn gram_at(&self, i: usize) -> (gram: &Vec<String>)
        requires
            i < self@.len(),
        ensures
            texts(gram@) == self@[i as int].0,
    {
        &self.entries[i].gram
    }

    /// The count of the entry at `i`.
    pub fn count_at(&self, i: usize) -> (count: usize)
        requires
            i < self@.len(),
        ensures
            count == self@[i as int].1,
    {
        self.entries[i].count
    }

    /// Where `gram` is listed first, if it is listed.
    pub fn position(&self, gram: &Vec<String>) -> (at: Option<usize>)
        ensures
            match at {
                Some(i) => i < self@.len() && self@[i as int].0 == texts(gram@) && forall|j: int|
                    0 <= j < i ==> (#[trigger] self@[j]).0 != texts(gram@),
                None => forall|j: int|
                    0 <= j < self@.len() ==> (#[trigger] self@[j]).0 != texts(gram@),
            },
    {
        proof {
            use_type_invariant(self);
        }
        let h = mix_words(gram);
        let n = self.entries.len();
        let ghost g = texts(gram@);
        let ghost under = filed_under(self.places@, h);
        match self.places.get(&h) {
            None => {
                None
            },
            Some(list) => {
                let mut k: usize = 0;
                while k < list.len()
                    invariant
                        k <= list.len(),
                        n == self@.len(),
                        list@ == under,
                        under == filed_under(self.places@, h),
                        h == gram_mix(g),
                        g == texts(gram@),
                        filed(self@, self.places@),
                        forall|q: int| 0 <= q < k ==> self@[under[q] as int].0 != g,
                    decreases list.len() - k,
                {
                    let j = list[k];
                    if same_words(&self.entries[j].gram, gram) {
                        return Some(j);
                    }
                    k += 1;
                }
                None
            },
        }
    }

    /// The count of `gram`, if it is listed.
    pub fn get(&self, gram: &Vec<String>) -> (count: Option<usize>)
        ensures
            count == count_of(self@, texts(gram@)),
    {
        proof {
            lemma_recorded(self@, texts(gram@));
        }
        match self.position(gram) {
            Some(i) => Some(self.entries[i].count),
            None => None,
        }
    }

    /// Counts one occurrence of `gram`, and tells whether it was new.
    pub fn record(self, gram: Vec<String>) -> (after: (NgramIndex, bool))
        requires
            count_of(self@, texts(gram@)) matches Some(c) ==> c < usize::MAX,
        ensures
            after.0@ == recorded(self@, texts(gram@)),
            after.1 == (count_of(self@, texts(gram@)) is None),
    {
        proof {
            lemma_recorded(self@, texts(gram@));
            use_type_invariant(&self);
        }
        let ghost before = self@;
        let ghost g = texts(gram@);
        let found = self.position(&gram);
        let h = mix_words(&gram);
        let NgramIndex { mut entries, mut places } = self;
        let ghost old_places = places@;
        match found {
            Some(i) => {
                let count = entries[i].count;
                entries.set(i, NgramEntry { gram, count: count + 1 });
                proof {
                    let after = listed(entries@);
                    assert forall|j: int| 0 <= j < after.len() implies (#[trigger] after[j]).0
                        == before[j].0 by {}
                }
                (NgramIndex { entries, places }, false)
            },
            None => {
                let at = entries.len();
                entries.push(NgramEntry { gram, count: 1 });
                let mut list = match places.remove(&h) {
                    Some(list) => list,
                    None => Vec::new(),
                };
                let ghost under = list@;
                list.push(at);
                places.insert(h, list);
                proof {
                    let after = before.push((g, 1usize));
                    assert(listed(entries@) =~= after);
                    let now = places@;
                    assert forall|x: u64| x != h implies filed_under(now, x) == filed_under(
                        old_places,
                        x,
                    ) by {}
                    assert forall|i: int| 0 <= i < after.len() implies filed_under(
                        now,
                        gram_mix((#[trigger] after[i]).0),
                    ).contains(i as usize) by {
                        let x = gram_mix(after[i].0);
                        if i < before.len() {
                            if x == h {
                                let q = choose|q: int| 0 <= q < under.len() && under[q] == i as usize;
                                assert(under.push(at)[q] == i as usize);
                            }
                        } else {
                            assert(under.push(at)[under.len() as int] == at);
                        }
                    }
                }
                (NgramIndex { entries, places }, true)
            },
        }
    }
}

/// A share of counts: `numerator` occurrences out of `denominator`.
#[derive(Clone, Copy, Debug)]
pub struct Probability {
    pub numerator: usize,
    pub denominator: usize,
}

impl Probability {
    /// The share that never occurs.
    pub fn zero() -> (p: Probability)
        ensures
            p.numerator == 0,
            p.denominator == 1,
    {
        Probability { numerator: 0, denominator: 1 }
    }

    /// Whether this share is larger than `other`, compared as fractions.
    pub open spec fn exceeds(self, other: Probability) -> bool {
        self.numerator * other.denominator > other.numerator * self.denominator
    }

    /// Whether this share is larger than `other`.
    pub fn greater_than(&self, other: &Probability) -> (larger: bool)
        ensures
            larger == self.exceeds(*other),
    {
        let a: u128 = self.numerator as u128;
        let b: u128 = other.denominator as u128;
        let c: u128 = other.numerator as u128;
        let d: u128 = self.denominator as u128;
        assert(a * b <= 0xffff_ffff_ffff_ffff * 0xffff_ffff_ffff_ffff) by (nonlinear_arith)
            requires
                0 <= a <= 0xffff_ffff_ffff_ffff,
                0 <= b <= 0xffff_ffff_ffff_ffff,
        ;
        assert(c * d <= 0xffff_ffff_ffff_ffff * 0xffff_ffff_ffff_ffff) by (nonlinear_arith)
            requires
                0 <= c <= 0xffff_ffff_ffff_ffff,
                0 <= d <= 0xffff_ffff_ffff_ffff,
        ;
        a * b > c * d
    }
}

} // verus!
