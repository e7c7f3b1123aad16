//! A small map from characters to numbers, kept as a list of entries.

use crate::text::contains_char;
use vstd::prelude::*;

verus! {

/// The map that a list of entries stands for: a later entry of a character
/// replaces an earlier one.
pub open spec fn entries_map(entries: Seq<(char, usize)>) -> Map<char, usize>
    decreases entries.len(),
{
    if entries.len() == 0 {
        Map::empty()
    } else {
        entries_map(entries.drop_last()).insert(entries.last().0, entries.last().1)
    }
}

/// A finite map from characters to numbers.
pub struct CharMap {
    entries: Vec<(char, usize)>,
}

impl View for CharMap {
    type V = Map<char, usize>;

    closed spec fn view(&self) -> Map<char, usize> {
        entries_map(self.entries@)
    }
}

impl CharMap {
    /// The empty map.
    pub fn new() -> (m: CharMap)
        ensures
            m@ == Map::<char, usize>::empty(),
    {
        CharMap { entries: Vec::new() }
    }

    /// Maps `c` to `value`, whatever it was mapped to before.
    pub fn insert(&mut self, c: char, value: usize)
        ensures
            final(self)@ == old(self)@.insert(c, value),
    {
        self.entries.push((c, value));
        assert(self.entries@.drop_last() == old(self).entries@);
    }

    /// The number that `c` is mapped to, if any.
    pub fn get(&self, c: char) -> (r: Option<usize>)
        ensures
            r == if self@.contains_key(c) {
                Some(self@[c])
            } else {
                None::<usize>
            },
    {
        let mut i: usize = self.entries.len();
        assert(self.entries@.take(i as int) == self.entries@);
        while i > 0
            invariant
                i <= self.entries.len(),
                self@.contains_key(c) == entries_map(self.entries@.take(i as int)).contains_key(c),
                self@.contains_key(c) ==> self@[c] == entries_map(self.entries@.take(i as int))[c],
            decreases i,
        {
            i -= 1;
            assert(self.entries@.take(i + 1).drop_last() == self.entries@.take(i as int));
            if self.entries[i].0 == c {
                return Some(self.entries[i].1);
            }
        }
        None
    }

    /// Whether `c` is mapped to a number.
    pub fn contains_key(&self, c: char) -> (found: bool)
        ensures
            found == self@.contains_key(c),
    {
        self.get(c).is_some()
    }

    /// The characters that are mapped to a number, each once.
    pub fn keys(&self) -> (keys: Vec<char>)
        ensures
            keys@.no_duplicates(),
            forall|c: char| keys@.contains(c) <==> self@.contains_key(c),
    {
        let mut keys: Vec<char> = Vec::new();
        let mut i: usize = 0;
        while i < self.entries.len()
            invariant
                i <= self.entries.len(),
                keys@.no_duplicates(),
                forall|c: char|
                    keys@.contains(c) <==> entries_map(self.entries@.take(i as int)).contains_key(
                        c,
                    ),
            decreases self.entries.len() - i,
        {
            let c = self.entries[i].0;
            assert(self.entries@.take(i + 1).drop_last() == self.entries@.take(i as int));
            let seen = contains_char(&keys, c);
            let ghost before = keys@;
            let ghost so_far = entries_map(self.entries@.take(i as int));
            if !seen {
                keys.push(c);
                assert forall|d: char| keys@.contains(d) <==> (before.contains(d) || d == c) by {
                    if before.contains(d) {
                        let j = choose|j: int| 0 <= j < before.len() && before[j] == d;
                        assert(keys@[j] == d);
                    }
                    if d == c {
                        assert(keys@[before.len() as int] == d);
                    }
                }
            }
            assert forall|d: char| keys@.contains(d) <==> so_far.insert(
                c,
                self.entries@[i as int].1,
            ).contains_key(d) by {
                assert(before.contains(d) <==> so_far.contains_key(d));
            }
            i += 1;
        }
        assert(self.entries@.take(self.entries.len() as int) == self.entries@);
        keys
    }
}

} // verus!
