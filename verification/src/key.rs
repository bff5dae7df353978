//! Variable keys.
//!
//! The key of a monomial is the string of its variable letters in ascending
//! order. Like terms are the terms with equal keys; the empty key belongs to the
//! constant term. This module holds the order of the letters inside a key and
//! the order in which the keys of a polynomial are written.

use vstd::prelude::*;
use vstd::relations::{sorted_by, total_ordering};
use vstd::seq_lib::{lemma_sorted_unique, to_multiset_build, to_multiset_insert};

verus! {

/// Whether the letters of `key` stand in ascending order of character code.
pub open spec fn letters_sorted(key: Seq<char>) -> bool {
    forall|i: int, j: int| 0 <= i <= j < key.len() ==> key[i] <= key[j]
}

/// The order of two letters by character code.
pub open spec fn letter_order() -> spec_fn(char, char) -> bool {
    |a: char, b: char| a <= b
}

/// The key made of the letters of `raw`: the same letters, each as often as in
/// `raw`, in ascending order.
pub open spec fn canonical_key(raw: Seq<char>) -> Seq<char> {
    raw.sort_by(letter_order())
}

/// A canonical key is sorted and holds exactly the letters it was made from.
pub proof fn lemma_canonical_key(raw: Seq<char>)
    ensures
        letters_sorted(canonical_key(raw)),
        canonical_key(raw).to_multiset() == raw.to_multiset(),
        canonical_key(raw).len() == raw.len(),
{
    assert(total_ordering(letter_order()));
    raw.lemma_sort_by_ensures(letter_order());
    let key = canonical_key(raw);
    assert(letters_sorted(key)) by {
        assert forall|i: int, j: int| 0 <= i <= j < key.len() implies key[i] <= key[j] by {
            if i < j {
                assert(letter_order()(key[i], key[j]));
            }
        }
    }
    vstd::seq_lib::to_multiset_len(key);
    vstd::seq_lib::to_multiset_len(raw);
}

/// Only one sorted arrangement of given letters exists.
pub proof fn lemma_canonical_key_unique(raw: Seq<char>, key: Seq<char>)
    requires
        letters_sorted(key),
        key.to_multiset() == raw.to_multiset(),
    ensures
        key == canonical_key(raw),
{
    assert(total_ordering(letter_order()));
    raw.lemma_sort_by_ensures(letter_order());
    assert(sorted_by(key, letter_order()));
    lemma_sorted_unique(key, canonical_key(raw), letter_order());
}

/// Sorting the letters of a sorted key changes nothing.
pub proof fn lemma_canonical_key_of_sorted(key: Seq<char>)
    requires
        letters_sorted(key),
    ensures
        canonical_key(key) == key,
{
    lemma_canonical_key_unique(key, key);
}

/// Whether `a` comes before `b` letter by letter: at the first place where they
/// differ `a` has the smaller letter, or `a` ends there and `b` goes on.
pub open spec fn lex_before(a: Seq<char>, b: Seq<char>) -> bool
    decreases a.len(),
{
    if b.len() == 0 {
        false
    } else if a.len() == 0 {
        true
    } else if a[0] != b[0] {
        a[0] < b[0]
    } else {
        lex_before(a.drop_first(), b.drop_first())
    }
}

/// Whether the term with key `a` is written before the term with key `b`.
///
/// Shorter keys come first and keys of one length are ordered letter by
/// letter, except that the empty key, the constant term, comes after every
/// other key. The length of a key is the number of its letters.
pub open spec fn key_before(a: Seq<char>, b: Seq<char>) -> bool {
    if a.len() != b.len() {
        if a.len() == 0 {
            false
        } else if b.len() == 0 {
            true
        } else {
            a.len() < b.len()
        }
    } else {
        lex_before(a, b)
    }
}

/// No key comes letter by letter before itself.
pub proof fn lemma_lex_irreflexive(a: Seq<char>)
    ensures
        !lex_before(a, a),
    decreases a.len(),
{
    if a.len() > 0 {
        lemma_lex_irreflexive(a.drop_first());
    }
}

/// The letter-by-letter order is transitive.
pub proof fn lemma_lex_transitive(a: Seq<char>, b: Seq<char>, c: Seq<char>)
    requires
        lex_before(a, b),
        lex_before(b, c),
    ensures
        lex_before(a, c),
    decreases a.len(),
{
    if a.len() > 0 && b.len() > 0 && c.len() > 0 && a[0] == b[0] && b[0] == c[0] {
        lemma_lex_transitive(a.drop_first(), b.drop_first(), c.drop_first());
    }
}

/// Of two different keys one comes letter by letter before the other.
pub proof fn lemma_lex_connected(a: Seq<char>, b: Seq<char>)
    requires
        a != b,
    ensures
        lex_before(a, b) || lex_before(b, a),
    decreases a.len(),
{
    if a.len() > 0 && b.len() > 0 && a[0] == b[0] {
        if a.drop_first() == b.drop_first() {
            assert(a =~= seq![a[0]] + a.drop_first());
            assert(b =~= seq![b[0]] + b.drop_first());
        }
        lemma_lex_connected(a.drop_first(), b.drop_first());
    } else if a.len() == 0 && b.len() == 0 {
        assert(a =~= b);
    }
}

/// No key is written before itself.
pub proof fn lemma_key_before_irreflexive(a: Seq<char>)
    ensures
        !key_before(a, a),
{
    lemma_lex_irreflexive(a);
}

/// The order of keys is transitive.
pub proof fn lemma_key_before_transitive(a: Seq<char>, b: Seq<char>, c: Seq<char>)
    requires
        key_before(a, b),
        key_before(b, c),
    ensures
        key_before(a, c),
{
    if a.len() == b.len() && b.len() == c.len() {
        lemma_lex_transitive(a, b, c);
    }
}

/// Of two different keys one is written before the other.
pub proof fn lemma_key_before_connected(a: Seq<char>, b: Seq<char>)
    requires
        a != b,
    ensures
        key_before(a, b) || key_before(b, a),
{
    if a.len() == b.len() {
        lemma_lex_connected(a, b);
    }
}

/// Returns the letters of `raw` in ascending order.
pub fn sorted_letters(raw: &[char]) -> (key: Vec<char>)
    ensures
        key@ == canonical_key(raw@),
        letters_sorted(key@),
        key@.to_multiset() == raw@.to_multiset(),
{
    let mut key: Vec<char> = Vec::new();
    let n = raw.len();
    let mut i: usize = 0;
    assert(key@ =~= raw@.take(0));
    while i < n
        invariant
            i <= n,
            n == raw@.len(),
            letters_sorted(key@),
            key@.to_multiset() == raw@.take(i as int).to_multiset(),
        decreases n - i,
    {
        let c = raw[i];
        let mut j: usize = key.len();
        while j > 0 && key[j - 1] > c
            invariant
                j <= key.len(),
                forall|k: int| j <= k < key.len() ==> key@[k] > c,
            decreases j,
        {
            j -= 1;
        }
        proof {
            to_multiset_insert(key@, j as int, c);
            to_multiset_build(raw@.take(i as int), c);
            assert(raw@.take(i as int).push(c) =~= raw@.take(i + 1));
            key@.insert_ensures(j as int, c);
        }
        key.insert(j, c);
        i += 1;
    }
    proof {
        assert(raw@.take(n as int) =~= raw@);
        lemma_canonical_key_unique(raw@, key@);
    }
    key
}

/// Tells whether the keys `a` and `b` are the same.
pub fn same_key(a: &[char], b: &[char]) -> (same: bool)
    ensures
        same == (a@ == b@),
{
    if a.len() != b.len() {
        return false;
    }
    let n = a.len();
    let mut i: usize = 0;
    while i < n
        invariant
            i <= n,
            n == a@.len(),
            n == b@.len(),
            a@.take(i as int) == b@.take(i as int),
        decreases n - i,
    {
        if a[i] != b[i] {
            return false;
        }
        assert(a@.take(i + 1) =~= a@.take(i as int).push(a@[i as int]));
        assert(b@.take(i + 1) =~= b@.take(i as int).push(b@[i as int]));
        i += 1;
    }
    assert(a@ =~= a@.take(n as int));
    assert(b@ =~= b@.take(n as int));
    true
}

/// Tells whether the term with key `a` is written before the term with key `b`.
pub fn comes_before(a: &[char], b: &[char]) -> (before: bool)
    ensures
        before == key_before(a@, b@),
{
    if a.len() != b.len() {
        return a.len() != 0 && (b.len() == 0 || a.len() < b.len());
    }
    let n = a.len();
    let mut i: usize = 0;
    assert(a@.skip(0) =~= a@ && b@.skip(0) =~= b@);
    while i < n
        invariant
            i <= n,
            n == a@.len(),
            n == b@.len(),
            lex_before(a@, b@) == lex_before(a@.skip(i as int), b@.skip(i as int)),
        decreases n - i,
    {
        proof {
            assert(a@.skip(i as int).drop_first() =~= a@.skip(i + 1));
            assert(b@.skip(i as int).drop_first() =~= b@.skip(i + 1));
        }
        if a[i] != b[i] {
            return a[i] < b[i];
        }
        i += 1;
    }
    false
}

} // verus!
