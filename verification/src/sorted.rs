//! The keys of a bit map in ascending order.

use std::collections::HashMap;
use vstd::prelude::*;

verus! {

broadcast use vstd::std_specs::hash::group_hash_axioms;

/// Each element is smaller than the next.
pub open spec fn strictly_ascending(s: Seq<usize>) -> bool {
    forall|i: int, j: int| 0 <= i < j < s.len() ==> s[i] < s[j]
}

/// `s` holds exactly the elements of `keys`, the smallest first.
pub open spec fn lists_keys(s: Seq<usize>, keys: Set<usize>) -> bool {
    strictly_ascending(s) && forall|k: usize| s.contains(k) <==> keys.contains(k)
}

/// The elements of a finite set of keys, the smallest first.
pub open spec fn ascending_keys(keys: Set<usize>) -> Seq<usize> {
    choose|s: Seq<usize>| lists_keys(s, keys)
}

/// The elements of a finite set of keys, the largest first.
pub open spec fn descending_keys(keys: Set<usize>) -> Seq<usize> {
    ascending_keys(keys).reverse()
}

/// A set of keys has at most one ascending list.
pub proof fn lemma_ascending_unique(a: Seq<usize>, b: Seq<usize>, keys: Set<usize>)
    requires
        lists_keys(a, keys),
        lists_keys(b, keys),
    ensures
        a == b,
    decreases a.len(),
{
    if a.len() == 0 {
        if b.len() > 0 {
            assert(b.contains(b[0]));
        }
    } else {
        let top = a.last();
        assert(a.contains(top));
        let other = b.last();
        assert(b.contains(other));
        let rest = keys.remove(top);
        assert forall|k: usize| a.drop_last().contains(k) <==> rest.contains(k) by {
            if rest.contains(k) {
                let p = choose|p: int| 0 <= p < a.len() && a[p] == k;
                assert(a.drop_last()[p] == k);
            }
        }
        assert forall|k: usize| b.drop_last().contains(k) <==> rest.contains(k) by {
            if rest.contains(k) {
                let p = choose|p: int| 0 <= p < b.len() && b[p] == k;
                assert(b.drop_last()[p] == k);
            }
        }
        lemma_ascending_unique(a.drop_last(), b.drop_last(), rest);
        assert(a =~= a.drop_last().push(top));
    }
}

/// A list that holds the elements of `keys` in ascending order is the
/// ascending list of `keys`.
pub proof fn lemma_is_ascending_keys(s: Seq<usize>, keys: Set<usize>)
    requires
        lists_keys(s, keys),
    ensures
        s == ascending_keys(keys),
{
    lemma_ascending_unique(s, ascending_keys(keys), keys);
}

/// Puts `key` at its place in an ascending list that does not hold it.
pub fn insert_ascending(list: &mut Vec<usize>, key: usize)
    requires
        strictly_ascending(old(list)@),
        !old(list)@.contains(key),
    ensures
        strictly_ascending(final(list)@),
        final(list)@.len() == old(list)@.len() + 1,
        forall|k: usize| final(list)@.contains(k) <==> (old(list)@.contains(k) || k == key),
{
    let mut at: usize = 0;
    while at < list.len() && list[at] < key
        invariant
            at <= list.len(),
            *list == *old(list),
            forall|i: int| 0 <= i < at ==> list@[i] < key,
        decreases list.len() - at,
    {
        at += 1;
    }
    let ghost before = list@;
    list.insert(at, key);
    proof {
        let after = list@;
        assert forall|k: usize| after.contains(k) <==> (before.contains(k) || k == key) by {
            if before.contains(k) {
                let p = choose|p: int| 0 <= p < before.len() && before[p] == k;
                if p < at {
                    assert(after[p] == k);
                } else {
                    assert(after[p + 1] == k);
                }
            }
            if k == key {
                assert(after[at as int] == k);
            }
        }
    }
}

/// The ascending list of a finite set of keys holds exactly its elements.
pub proof fn lemma_ascending_keys(keys: Set<usize>)
    requires
        keys.finite(),
    ensures
        lists_keys(ascending_keys(keys), keys),
        ascending_keys(keys).len() == keys.len(),
    decreases keys.len(),
{
    lemma_ascending_exists(keys);
    let s = choose|s: Seq<usize>| lists_keys(s, keys) && s.len() == keys.len();
    lemma_is_ascending_keys(s, keys);
}

proof fn lemma_ascending_exists(keys: Set<usize>)
    requires
        keys.finite(),
    ensures
        exists|s: Seq<usize>| lists_keys(s, keys) && s.len() == keys.len(),
    decreases keys.len(),
{
    if keys.len() == 0 {
        let s = Seq::<usize>::empty();
        assert(lists_keys(s, keys) && s.len() == keys.len());
    } else {
        let top = largest(keys);
        lemma_largest(keys);
        let rest = keys.remove(top);
        lemma_ascending_exists(rest);
        let r = choose|s: Seq<usize>| lists_keys(s, rest) && s.len() == rest.len();
        let s = r.push(top);
        assert forall|i: int, j: int| 0 <= i < j < s.len() implies s[i] < s[j] by {
            assert(r.contains(r[i]));
        }
        assert forall|k: usize| s.contains(k) <==> keys.contains(k) by {
            if keys.contains(k) {
                if k == top {
                    assert(s[r.len() as int] == k);
                } else {
                    let p = choose|p: int| 0 <= p < r.len() && r[p] == k;
                    assert(s[p] == k);
                }
            }
        }
    }
}

/// An element of a set of keys that none exceeds.
pub open spec fn largest(keys: Set<usize>) -> usize {
    choose|top: usize| keys.contains(top) && forall|k: usize| keys.contains(k) ==> k <= top
}

proof fn lemma_largest(keys: Set<usize>)
    requires
        keys.finite(),
        keys.len() > 0,
    ensures
        keys.contains(largest(keys)),
        forall|k: usize| keys.contains(k) ==> k <= largest(keys),
    decreases keys.len(),
{
    let a = keys.choose();
    let rest = keys.remove(a);
    if rest.len() == 0 {
        assert forall|k: usize| keys.contains(k) implies k <= a by {
            if k != a {
                assert(rest.contains(k));
                assert(rest.len() != 0);
            }
        }
    } else {
        lemma_largest(rest);
        let b = largest(rest);
        let top = if a > b {
            a
        } else {
            b
        };
        assert(keys.contains(top));
        assert forall|k: usize| keys.contains(k) implies k <= top by {
            if k != a {
                assert(rest.contains(k));
            }
        }
    }
}

/// The keys of `map`, the smallest first.
pub fn sorted_keys(map: &HashMap<usize, char>) -> (keys: Vec<usize>)
    ensures
        keys@ == ascending_keys(map@.dom()),
        keys@.len() == map@.dom().len(),
{
    let mut keys: Vec<usize> = Vec::new();
    for k in it: map.keys()
        invariant
            it.seq().unref().to_set() == map@.dom(),
            it.seq().no_duplicates(),
            it.seq().len() == map@.dom().len(),
            strictly_ascending(keys@),
            keys@.len() == it.index(),
            it.index() == it.seq().len() ==> forall|x: usize|
                keys@.contains(x) <==> map@.dom().contains(x),
            forall|x: usize|
                keys@.contains(x) <==> exists|i: int|
                    0 <= i < it.index() && *it.seq()[i] == x,
    {
        proof {
            if keys@.contains(*k) {
                let i = choose|i: int| 0 <= i < it.index() && *it.seq()[i] == *k;
            }
        }
        insert_ascending(&mut keys, *k);
        proof {
            assert forall|x: usize| it.index() + 1 == it.seq().len() implies (keys@.contains(x)
                <==> map@.dom().contains(x)) by {
                if keys@.contains(x) {
                    let i = choose|i: int| 0 <= i < it.seq().len() && *it.seq()[i] == x;
                    assert(it.seq().unref()[i] == x);
                }
            }
        }
    }
    proof {
        lemma_is_ascending_keys(keys@, map@.dom());
    }
    keys
}

} // verus!
