//! Strings as sequences of characters: conversion, comparison, splitting
//! into tokens and replacement of substrings.

use vstd::prelude::*;

verus! {

/// The lower-case form of a text, as `str::to_lowercase` of the standard
/// library produces it.
pub uninterp spec fn lowercase_of(text: Seq<char>) -> Seq<char>;

/// Calls `str::to_lowercase`. The result is what this library calls
/// `lowercase_of` of the argument; nothing more is claimed of it.
#[verifier::external_body]
pub(crate) fn lowercased(s: &str) -> (r: String)
    ensures
        r@ == lowercase_of(s@),
{
    s.to_lowercase()
}

/// Whether a character is white space: one of the 25 characters with the
/// Unicode property `White_Space`, among them the space, the tabulator and the
/// line breaks.
pub open spec fn is_white_space(c: char) -> bool {
    let code = c as u32;
    c == ' ' || (0x9 <= code <= 0xd) || code == 0x85 || code == 0xa0 || code == 0x1680 || (0x2000
        <= code <= 0x200a) || code == 0x2028 || code == 0x2029 || code == 0x202f || code == 0x205f
        || code == 0x3000
}

/// Whether `c` is white space.
pub fn char_is_whitespace(c: char) -> (b: bool)
    ensures
        b == is_white_space(c),
{
    let code = c as u32;
    c == ' ' || (0x9 <= code && code <= 0xd) || code == 0x85 || code == 0xa0 || code == 0x1680 || (
    0x2000 <= code && code <= 0x200a) || code == 0x2028 || code == 0x2029 || code == 0x202f || code
        == 0x205f || code == 0x3000
}

/// Calls `String::push`: the string afterwards is the string before followed
/// by `c`.
#[verifier::external_body]
pub(crate) fn push_char(s: &mut String, c: char)
    ensures
        final(s)@ == old(s)@.push(c),
{
    s.push(c);
}

/// The characters of a string slice, in order.
pub fn chars_of(s: &str) -> (v: Vec<char>)
    ensures
        v@ == s@,
{
    let mut v: Vec<char> = Vec::new();
    for c in it: s.chars()
        invariant
            v@ == s@.take(it.index() as int),
            it.seq() == s@,
    {
        v.push(c);
    }
    v
}

/// A string that holds the given characters, in order.
pub fn string_of(v: &Vec<char>) -> (s: String)
    ensures
        s@ == v@,
{
    let mut s = String::new();
    let mut i: usize = 0;
    while i < v.len()
        invariant
            i <= v.len(),
            s@ == v@.take(i as int),
        decreases v.len() - i,
    {
        push_char(&mut s, v[i]);
        i += 1;
    }
    s
}

/// Whether two character vectors hold the same text.
pub fn chars_equal(a: &Vec<char>, b: &Vec<char>) -> (same: bool)
    ensures
        same == (a@ == b@),
{
    if a.len() != b.len() {
        return false;
    }
    let mut i: usize = 0;
    while i < a.len()
        invariant
            i <= a.len(),
            a.len() == b.len(),
            a@.take(i as int) == b@.take(i as int),
        decreases a.len() - i,
    {
        if a[i] != b[i] {
            return false;
        }
        assert(b@.take(i + 1) == b@.take(i as int).push(b@[i as int]));
        i += 1;
    }
    assert(a@.take(a.len() as int) == a@);
    assert(b@.take(b.len() as int) == b@);
    true
}

/// Whether two string slices hold the same text.
pub fn str_equal(a: &str, b: &str) -> (same: bool)
    ensures
        same == (a@ == b@),
{
    let x = chars_of(a);
    let y = chars_of(b);
    chars_equal(&x, &y)
}

/// Whether `c` occurs in `v`.
pub fn contains_char(v: &Vec<char>, c: char) -> (found: bool)
    ensures
        found == v@.contains(c),
{
    let mut i: usize = 0;
    while i < v.len()
        invariant
            i <= v.len(),
            forall|j: int| 0 <= j < i ==> v@[j] != c,
        decreases v.len() - i,
    {
        if v[i] == c {
            return true;
        }
        i += 1;
    }
    false
}

/// The views of the strings of a sequence, in order.
pub open spec fn texts(words: Seq<String>) -> Seq<Seq<char>> {
    Seq::new(words.len(), |i: int| words[i]@)
}

/// The tokens of `s` when it is cut at every occurrence of `sep`. Between two
/// adjacent separators, before a leading one and after a trailing one stands an
/// empty token; a text without separator is one token.
pub open spec fn split_on(s: Seq<char>, sep: char) -> Seq<Seq<char>>
    decreases s.len(),
{
    if s.len() == 0 {
        seq![Seq::<char>::empty()]
    } else {
        let before = split_on(s.drop_last(), sep);
        if s.last() == sep {
            before.push(Seq::<char>::empty())
        } else {
            before.drop_last().push(before.last().push(s.last()))
        }
    }
}

/// A text has at least one token, and at most one more than characters.
pub proof fn lemma_split_on_nonempty(s: Seq<char>, sep: char)
    ensures
        split_on(s, sep).len() >= 1,
        split_on(s, sep).len() <= s.len() + 1,
    decreases s.len(),
{
    if s.len() > 0 {
        lemma_split_on_nonempty(s.drop_last(), sep);
    }
}

/// Cuts `s` at every occurrence of `sep`.
pub fn split_at_char(s: &str, sep: char) -> (tokens: Vec<String>)
    ensures
        texts(tokens@) == split_on(s@, sep),
{
    let chars = chars_of(s);
    let mut tokens: Vec<String> = Vec::new();
    let mut current = String::new();
    let mut i: usize = 0;
    while i < chars.len()
        invariant
            i <= chars.len(),
            chars@ == s@,
            texts(tokens@).push(current@) == split_on(chars@.take(i as int), sep),
        decreases chars.len() - i,
    {
        let c = chars[i];
        proof {
            let prefix = chars@.take(i + 1);
            assert(prefix.drop_last() == chars@.take(i as int));
            assert(prefix.last() == c);
            let before = split_on(chars@.take(i as int), sep);
            assert(before.last() == current@);
            assert(before.drop_last() == texts(tokens@));
        }
        if c == sep {
            let ghost old_tokens = tokens@;
            tokens.push(current);
            current = String::new();
            assert(texts(tokens@) == texts(old_tokens).push(tokens@.last()@));
        } else {
            push_char(&mut current, c);
        }
        i += 1;
    }
    assert(chars@.take(chars.len() as int) == chars@);
    let ghost old_tokens = tokens@;
    tokens.push(current);
    assert(texts(tokens@) == texts(old_tokens).push(tokens@.last()@));
    tokens
}

/// The run of characters without white space that ends `s`; empty where `s`
/// is empty or ends in white space.
pub open spec fn open_word(s: Seq<char>) -> Seq<char>
    decreases s.len(),
{
    if s.len() == 0 || is_white_space(s.last()) {
        Seq::<char>::empty()
    } else {
        open_word(s.drop_last()).push(s.last())
    }
}

/// The maximal runs of characters without white space in `s` that white space
/// follows, in order.
pub open spec fn closed_words(s: Seq<char>) -> Seq<Seq<char>>
    decreases s.len(),
{
    if s.len() == 0 {
        Seq::<Seq<char>>::empty()
    } else if is_white_space(s.last()) && open_word(s.drop_last()).len() > 0 {
        closed_words(s.drop_last()).push(open_word(s.drop_last()))
    } else {
        closed_words(s.drop_last())
    }
}

/// The words of `s`: its maximal runs of characters without white space, in
/// order.
pub open spec fn words_of(s: Seq<char>) -> Seq<Seq<char>> {
    if open_word(s).len() > 0 {
        closed_words(s).push(open_word(s))
    } else {
        closed_words(s)
    }
}

/// A word: not empty, and without white space.
pub open spec fn is_word(w: Seq<char>) -> bool {
    w.len() > 0 && forall|i: int| 0 <= i < w.len() ==> !is_white_space(#[trigger] w[i])
}

/// The run that ends a text holds no white space.
pub proof fn lemma_open_word(s: Seq<char>)
    ensures
        forall|i: int| 0 <= i < open_word(s).len() ==> !is_white_space(#[trigger] open_word(s)[i]),
        open_word(s).len() <= s.len(),
    decreases s.len(),
{
    if s.len() > 0 && !is_white_space(s.last()) {
        lemma_open_word(s.drop_last());
    }
}

/// The runs that white space follows are words.
pub proof fn lemma_closed_words(s: Seq<char>)
    ensures
        forall|k: int| 0 <= k < closed_words(s).len() ==> is_word(#[trigger] closed_words(s)[k]),
        closed_words(s).len() <= s.len(),
    decreases s.len(),
{
    if s.len() > 0 {
        lemma_closed_words(s.drop_last());
        lemma_open_word(s.drop_last());
    }
}

/// Every word of a text is not empty and holds no white space, and a text has
/// no more words than characters.
pub proof fn lemma_words_of(s: Seq<char>)
    ensures
        forall|k: int| 0 <= k < words_of(s).len() ==> is_word(#[trigger] words_of(s)[k]),
        words_of(s).len() <= s.len(),
{
    lemma_closed_words(s);
    lemma_open_word(s);
    if open_word(s).len() > 0 {
        lemma_closed_words(s.drop_last());
    }
}

/// The words of `s`: its maximal runs of characters without white space.
pub fn split_words(s: &str) -> (words: Vec<String>)
    ensures
        texts(words@) == words_of(s@),
{
    let chars = chars_of(s);
    let mut words: Vec<String> = Vec::new();
    let mut current = String::new();
    let mut open: bool = false;
    let mut i: usize = 0;
    while i < chars.len()
        invariant
            i <= chars.len(),
            chars@ == s@,
            texts(words@) == closed_words(chars@.take(i as int)),
            current@ == open_word(chars@.take(i as int)),
            open == (current@.len() > 0),
        decreases chars.len() - i,
    {
        let c = chars[i];
        proof {
            let prefix = chars@.take(i + 1);
            assert(prefix.drop_last() == chars@.take(i as int));
            assert(prefix.last() == c);
        }
        if char_is_whitespace(c) {
            if open {
                let ghost old_words = words@;
                words.push(current);
            }
            current = String::new();
            open = false;
        } else {
            push_char(&mut current, c);
            open = true;
        }
        i += 1;
    }
    assert(chars@.take(chars.len() as int) == chars@);
    if open {
        let ghost old_words = words@;
        words.push(current);
    }
    words
}

/// `s` with every occurrence of `pat` replaced by `to`. Occurrences are found
/// from the left, and the search goes on behind each one that was replaced.
pub open spec fn replaced(s: Seq<char>, pat: Seq<char>, to: Seq<char>) -> Seq<char>
    decreases s.len(),
{
    if pat.len() == 0 || s.len() < pat.len() {
        s
    } else if s.take(pat.len() as int) == pat {
        to + replaced(s.skip(pat.len() as int), pat, to)
    } else {
        seq![s[0]] + replaced(s.skip(1), pat, to)
    }
}

/// Whether `pat` stands in `s` at position `at`.
fn matches_at(s: &Vec<char>, at: usize, pat: &Vec<char>) -> (found: bool)
    requires
        at <= s.len(),
    ensures
        found == (at + pat.len() <= s.len() && s@.skip(at as int).take(pat.len() as int) == pat@),
{
    if pat.len() > s.len() - at {
        return false;
    }
    let mut k: usize = 0;
    while k < pat.len()
        invariant
            k <= pat.len(),
            at + pat.len() <= s.len(),
            forall|j: int| 0 <= j < k ==> s@[at + j] == pat@[j],
        decreases pat.len() - k,
    {
        if s[at + k] != pat[k] {
            return false;
        }
        k += 1;
    }
    assert(s@.skip(at as int).take(pat.len() as int) =~= pat@);
    true
}

/// Replaces every occurrence of `pat` in `s` by `to`.
pub fn replace_all(s: &Vec<char>, pat: &Vec<char>, to: &Vec<char>) -> (r: Vec<char>)
    requires
        pat.len() > 0,
    ensures
        r@ == replaced(s@, pat@, to@),
{
    let mut r: Vec<char> = Vec::new();
    let mut i: usize = 0;
    assert(s@.skip(0) == s@);
    assert(r@ + replaced(s@, pat@, to@) == replaced(s@, pat@, to@));
    while i < s.len()
        invariant
            i <= s.len(),
            pat.len() > 0,
            r@ + replaced(s@.skip(i as int), pat@, to@) == replaced(s@, pat@, to@),
        decreases s.len() - i,
    {
        let ghost rest = s@.skip(i as int);
        if matches_at(s, i, pat) {
            let mut k: usize = 0;
            let ghost before = r@;
            while k < to.len()
                invariant
                    k <= to.len(),
                    r@ == before + to@.take(k as int),
                decreases to.len() - k,
            {
                r.push(to[k]);
                k += 1;
            }
            proof {
                assert(rest.skip(pat.len() as int) == s@.skip(i + pat.len()));
                assert(r@ + replaced(s@.skip(i + pat.len()), pat@, to@) == before + (to@ + replaced(
                    rest.skip(pat.len() as int),
                    pat@,
                    to@,
                )));
            }
            i += pat.len();
        } else {
            proof {
                assert(rest.skip(1) == s@.skip(i + 1));
            }
            r.push(s[i]);
            i += 1;
        }
    }
    assert(s@.skip(s.len() as int) == Seq::<char>::empty());
    r
}

/// The decimal digit for a number below ten.
pub open spec fn digit(d: nat) -> char {
    if d == 0 {
        '0'
    } else if d == 1 {
        '1'
    } else if d == 2 {
        '2'
    } else if d == 3 {
        '3'
    } else if d == 4 {
        '4'
    } else if d == 5 {
        '5'
    } else if d == 6 {
        '6'
    } else if d == 7 {
        '7'
    } else if d == 8 {
        '8'
    } else {
        '9'
    }
}

/// The decimal numeral of `n`, without leading zeros.
pub open spec fn decimal(n: nat) -> Seq<char>
    decreases n,
{
    if n < 10 {
        seq![digit(n)]
    } else {
        decimal(n / 10).push(digit(n % 10))
    }
}

fn digit_char(d: usize) -> (c: char)
    requires
        d < 10,
    ensures
        c == digit(d as nat),
{
    if d == 0 {
        '0'
    } else if d == 1 {
        '1'
    } else if d == 2 {
        '2'
    } else if d == 3 {
        '3'
    } else if d == 4 {
        '4'
    } else if d == 5 {
        '5'
    } else if d == 6 {
        '6'
    } else if d == 7 {
        '7'
    } else if d == 8 {
        '8'
    } else {
        '9'
    }
}

/// Appends the decimal numeral of `n` to `s`.
pub fn push_decimal(s: &mut String, n: usize)
    ensures
        final(s)@ == old(s)@ + decimal(n as nat),
    decreases n,
{
    if n >= 10 {
        push_decimal(s, n / 10);
    }
    push_char(s, digit_char(n % 10));
}

/// Appends the characters of `tail` to `s`.
pub fn push_text(s: &mut String, tail: &str)
    ensures
        final(s)@ == old(s)@ + tail@,
{
    let chars = chars_of(tail);
    let mut i: usize = 0;
    while i < chars.len()
        invariant
            i <= chars.len(),
            chars@ == tail@,
            s@ == old(s)@ + chars@.take(i as int),
        decreases chars.len() - i,
    {
        push_char(s, chars[i]);
        i += 1;
    }
}


/// Whether two lists of words hold the same texts in the same order.
pub fn same_words(a: &Vec<String>, b: &Vec<String>) -> (same: bool)
    ensures
        same == (texts(a@) == texts(b@)),
{
    if a.len() != b.len() {
        assert(texts(a@).len() != texts(b@).len());
        return false;
    }
    let mut i: usize = 0;
    while i < a.len()
        invariant
            i <= a.len(),
            a.len() == b.len(),
            forall|j: int| 0 <= j < i ==> a@[j]@ == b@[j]@,
        decreases a.len() - i,
    {
        if a[i] != b[i] {
            assert(texts(a@)[i as int] != texts(b@)[i as int]);
            return false;
        }
        i += 1;
    }
    assert(texts(a@) =~= texts(b@));
    true
}


/// A copy of a list of words.
pub fn clone_words(words: &Vec<String>) -> (copy: Vec<String>)
    ensures
        texts(copy@) == texts(words@),
{
    let mut copy: Vec<String> = Vec::new();
    let mut i: usize = 0;
    while i < words.len()
        invariant
            i <= words.len(),
            copy@.len() == i,
            forall|j: int| 0 <= j < i ==> copy@[j]@ == words@[j]@,
        decreases words.len() - i,
    {
        copy.push(words[i].clone());
        i += 1;
    }
    copy
}

} // verus!
