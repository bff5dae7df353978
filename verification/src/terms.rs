//! Like terms: the accumulator that adds up the coefficients of the monomials
//! with one key, and keeps its entries in the order in which the terms of a
//! polynomial are written.

use crate::key::{
    comes_before, key_before, lemma_key_before_connected, lemma_key_before_irreflexive,
    lemma_key_before_transitive, same_key,
};
use crate::monomial::{all_representable, representable, Monomial, MAX_MAGNITUDE};
use vstd::prelude::*;

verus! {

/// One entry of a term list: a key and the coefficient accumulated for it.
#[derive(Debug, PartialEq, Eq)]
pub struct Term {
    pub coeff: i128,
    pub key: Vec<char>,
}

impl View for Term {
    type V = Monomial;

    open spec fn view(&self) -> Monomial {
        Monomial { coeff: self.coeff as int, key: self.key@ }
    }
}

/// The monomials that the entries of a term list stand for.
pub open spec fn models(terms: Seq<Term>) -> Seq<Monomial> {
    Seq::new(terms.len(), |i: int| terms[i]@)
}

/// What the monomial `m` adds to the coefficient of `key`.
pub open spec fn share(m: Monomial, key: Seq<char>) -> int {
    if m.key == key {
        m.coeff
    } else {
        0
    }
}

/// The sum of the coefficients of the monomials in `monos` that have the key
/// `key`.
pub open spec fn total(monos: Seq<Monomial>, key: Seq<char>) -> int
    decreases monos.len(),
{
    if monos.len() == 0 {
        0
    } else {
        total(monos.drop_last(), key) + share(monos.last(), key)
    }
}

/// Whether a monomial in `monos` has the key `key`.
pub open spec fn has_key(monos: Seq<Monomial>, key: Seq<char>) -> bool {
    exists|i: int| 0 <= i < monos.len() && (#[trigger] monos[i]).key == key
}

/// Whether the keys of `terms` stand in the order in which terms are written.
/// No key then occurs twice.
pub open spec fn keys_ascending(terms: Seq<Monomial>) -> bool {
    forall|i: int, j: int|
        0 <= i < j < terms.len() ==> key_before(
            (#[trigger] terms[i]).key,
            (#[trigger] terms[j]).key,
        )
}

/// Whether `terms` is the accumulator filled with `monos`: one entry for each
/// key that occurs in `monos`, with the sum of the coefficients written for
/// that key, the entries in the order of their keys.
pub open spec fn accumulates(terms: Seq<Monomial>, monos: Seq<Monomial>) -> bool {
    &&& keys_ascending(terms)
    &&& forall|key: Seq<char>| #[trigger] has_key(terms, key) == has_key(monos, key)
    &&& forall|key: Seq<char>| #[trigger] total(terms, key) == total(monos, key)
}

/// The accumulator filled with `monos`.
pub open spec fn accumulated(monos: Seq<Monomial>) -> Seq<Monomial> {
    choose|terms: Seq<Monomial>| accumulates(terms, monos)
}

/// The sum for a key that does not occur is zero.
pub proof fn lemma_total_absent(monos: Seq<Monomial>, key: Seq<char>)
    requires
        !has_key(monos, key),
    ensures
        total(monos, key) == 0,
    decreases monos.len(),
{
    if monos.len() > 0 {
        let rest = monos.drop_last();
        assert(monos.last() == monos[monos.len() - 1]);
        assert forall|i: int| 0 <= i < rest.len() implies (#[trigger] rest[i]).key != key by {
            assert(rest[i] == monos[i]);
        }
        lemma_total_absent(rest, key);
    }
}

/// One more monomial adds its share to the sum of every key.
pub proof fn lemma_total_push(monos: Seq<Monomial>, m: Monomial, key: Seq<char>)
    ensures
        total(monos.push(m), key) == total(monos, key) + share(m, key),
{
    assert(monos.push(m).drop_last() =~= monos);
}

/// The sum does not depend on the place at which a monomial is put in.
pub proof fn lemma_total_insert(monos: Seq<Monomial>, i: int, m: Monomial, key: Seq<char>)
    requires
        0 <= i <= monos.len(),
    ensures
        total(monos.insert(i, m), key) == total(monos, key) + share(m, key),
    decreases monos.len() - i,
{
    if i == monos.len() {
        assert(monos.insert(i, m) =~= monos.push(m));
        lemma_total_push(monos, m, key);
    } else {
        assert(monos.insert(i, m).drop_last() =~= monos.drop_last().insert(i, m));
        assert(monos.insert(i, m).last() == monos.last());
        lemma_total_insert(monos.drop_last(), i, m, key);
    }
}

/// Replacing a monomial takes its share out of every sum and puts that of its
/// replacement in.
pub proof fn lemma_total_update(monos: Seq<Monomial>, i: int, m: Monomial, key: Seq<char>)
    requires
        0 <= i < monos.len(),
    ensures
        total(monos.update(i, m), key) == total(monos, key) - share(monos[i], key) + share(m, key),
    decreases monos.len(),
{
    if i == monos.len() - 1 {
        assert(monos.update(i, m).drop_last() =~= monos.drop_last());
    } else {
        assert(monos.update(i, m).drop_last() =~= monos.drop_last().update(i, m));
        lemma_total_update(monos.drop_last(), i, m, key);
    }
}

/// The sum for a key is bounded by the number of monomials times the largest
/// magnitude of a coefficient.
pub proof fn lemma_total_bound(monos: Seq<Monomial>, key: Seq<char>)
    requires
        all_representable(monos),
    ensures
        -(monos.len() * MAX_MAGNITUDE) <= total(monos, key) <= monos.len() * MAX_MAGNITUDE,
    decreases monos.len(),
{
    if monos.len() > 0 {
        let rest = monos.drop_last();
        assert forall|i: int| 0 <= i < rest.len() implies representable(
            (#[trigger] rest[i]).coeff,
        ) by {
            assert(rest[i] == monos[i]);
        }
        lemma_total_bound(rest, key);
        assert(representable(monos[monos.len() - 1].coeff));
    }
}

/// In a list with ascending keys the sum for the key of an entry is the
/// coefficient of that entry.
pub proof fn lemma_total_of_entry(terms: Seq<Monomial>, i: int)
    requires
        keys_ascending(terms),
        0 <= i < terms.len(),
    ensures
        total(terms, terms[i].key) == terms[i].coeff,
    decreases terms.len(),
{
    let key = terms[i].key;
    let rest = terms.drop_last();
    lemma_key_before_irreflexive(key);
    if i == terms.len() - 1 {
        assert forall|j: int| 0 <= j < rest.len() implies (#[trigger] rest[j]).key != key by {
            assert(key_before(terms[j].key, terms[i].key));
        }
        lemma_total_absent(rest, key);
    } else {
        assert(key_before(terms[i].key, terms[terms.len() - 1].key));
        assert forall|a: int, b: int| 0 <= a < b < rest.len() implies key_before(
            (#[trigger] rest[a]).key,
            (#[trigger] rest[b]).key,
        ) by {
            assert(key_before(terms[a].key, terms[b].key));
        }
        lemma_total_of_entry(rest, i);
    }
}

/// A list with ascending keys is the accumulator filled with its own entries.
pub proof fn lemma_accumulates_itself(terms: Seq<Monomial>)
    requires
        keys_ascending(terms),
    ensures
        accumulates(terms, terms),
{
}

/// Putting a monomial with a new key at its place in a list with ascending
/// keys gives the accumulator of the list and that monomial.
pub proof fn lemma_insert_accumulates(terms: Seq<Monomial>, i: int, m: Monomial)
    requires
        keys_ascending(terms),
        0 <= i <= terms.len(),
        forall|j: int| 0 <= j < i ==> key_before((#[trigger] terms[j]).key, m.key),
        i < terms.len() ==> !key_before(terms[i].key, m.key) && terms[i].key != m.key,
    ensures
        accumulates(terms.insert(i, m), terms.push(m)),
{
    let next = terms.insert(i, m);
    let all = terms.push(m);
    assert forall|j: int| i <= j < terms.len() implies key_before(
        m.key,
        (#[trigger] terms[j]).key,
    ) by {
        lemma_key_before_connected(terms[i].key, m.key);
        if j > i {
            assert(key_before(terms[i].key, terms[j].key));
            lemma_key_before_transitive(m.key, terms[i].key, terms[j].key);
        }
    }
    assert forall|a: int, b: int| 0 <= a < b < next.len() implies key_before(
        (#[trigger] next[a]).key,
        (#[trigger] next[b]).key,
    ) by {
        let a0 = if a < i { a } else { a - 1 };
        let b0 = if b < i { b } else { b - 1 };
        if a != i && b != i {
            assert(next[a] == terms[a0] && next[b] == terms[b0]);
            assert(key_before(terms[a0].key, terms[b0].key));
        } else if a == i {
            assert(next[b] == terms[b0]);
        } else {
            assert(next[a] == terms[a0]);
        }
    }
    assert forall|key: Seq<char>| #[trigger] has_key(next, key) == has_key(all, key) by {
        if has_key(next, key) {
            let j = choose|j: int| 0 <= j < next.len() && (#[trigger] next[j]).key == key;
            if j < i {
                assert(all[j] == next[j]);
            } else if j == i {
                assert(all[terms.len() as int] == m);
            } else {
                assert(all[j - 1] == next[j]);
            }
        }
        if has_key(all, key) {
            let j = choose|j: int| 0 <= j < all.len() && (#[trigger] all[j]).key == key;
            if j == terms.len() {
                assert(next[i] == m);
            } else if j < i {
                assert(next[j] == all[j]);
            } else {
                assert(next[j + 1] == all[j]);
            }
        }
    }
    assert forall|key: Seq<char>| #[trigger] total(next, key) == total(all, key) by {
        lemma_total_insert(terms, i, m, key);
        lemma_total_push(terms, m, key);
    }
}

/// Adding the coefficient of a monomial to the entry with its key gives the
/// accumulator of the list and that monomial.
pub proof fn lemma_merge_accumulates(terms: Seq<Monomial>, i: int, m: Monomial)
    requires
        keys_ascending(terms),
        0 <= i < terms.len(),
        terms[i].key == m.key,
    ensures
        accumulates(
            terms.update(i, Monomial { coeff: terms[i].coeff + m.coeff, key: m.key }),
            terms.push(m),
        ),
{
    let merged = Monomial { coeff: terms[i].coeff + m.coeff, key: m.key };
    let next = terms.update(i, merged);
    let all = terms.push(m);
    assert forall|a: int, b: int| 0 <= a < b < next.len() implies key_before(
        (#[trigger] next[a]).key,
        (#[trigger] next[b]).key,
    ) by {
        assert(key_before(terms[a].key, terms[b].key));
    }
    assert forall|key: Seq<char>| #[trigger] has_key(next, key) == has_key(all, key) by {
        if has_key(next, key) {
            let j = choose|j: int| 0 <= j < next.len() && (#[trigger] next[j]).key == key;
            assert(all[j].key == key);
        }
        if has_key(all, key) {
            let j = choose|j: int| 0 <= j < all.len() && (#[trigger] all[j]).key == key;
            if j == terms.len() {
                assert(next[i].key == key);
            } else {
                assert(next[j].key == key);
            }
        }
    }
    assert forall|key: Seq<char>| #[trigger] total(next, key) == total(all, key) by {
        lemma_total_update(terms, i, merged, key);
        lemma_total_push(terms, m, key);
    }
}

/// Filling on: the accumulator of an accumulator and one more monomial is the
/// accumulator of all the monomials.
pub proof fn lemma_accumulates_step(
    next: Seq<Monomial>,
    terms: Seq<Monomial>,
    monos: Seq<Monomial>,
    m: Monomial,
)
    requires
        accumulates(terms, monos),
        accumulates(next, terms.push(m)),
    ensures
        accumulates(next, monos.push(m)),
{
    assert forall|key: Seq<char>| #[trigger] has_key(next, key) == has_key(
        monos.push(m),
        key,
    ) by {
        lemma_has_key_push(terms, m, key);
        lemma_has_key_push(monos, m, key);
        assert(has_key(terms, key) == has_key(monos, key));
        assert(has_key(next, key) == has_key(terms.push(m), key));
    }
    assert forall|key: Seq<char>| #[trigger] total(next, key) == total(monos.push(m), key) by {
        lemma_total_push(terms, m, key);
        lemma_total_push(monos, m, key);
        assert(total(terms, key) == total(monos, key));
        assert(total(next, key) == total(terms.push(m), key));
    }
}

/// The keys of a list with one more monomial are the keys of the list and the
/// key of that monomial.
pub proof fn lemma_has_key_push(monos: Seq<Monomial>, m: Monomial, key: Seq<char>)
    ensures
        has_key(monos.push(m), key) == (has_key(monos, key) || m.key == key),
{
    let all = monos.push(m);
    if has_key(monos, key) {
        let j = choose|j: int| 0 <= j < monos.len() && (#[trigger] monos[j]).key == key;
        assert(all[j].key == key);
    }
    if m.key == key {
        assert(all[monos.len() as int].key == key);
    }
    if has_key(all, key) {
        let j = choose|j: int| 0 <= j < all.len() && (#[trigger] all[j]).key == key;
        if j < monos.len() {
            assert(monos[j].key == key);
        }
    }
}

/// Two lists with ascending keys that hold the same keys hold them at the
/// same places.
pub proof fn lemma_same_keys(a: Seq<Monomial>, b: Seq<Monomial>)
    requires
        keys_ascending(a),
        keys_ascending(b),
        forall|key: Seq<char>| #[trigger] has_key(a, key) == has_key(b, key),
    ensures
        a.len() == b.len(),
        forall|i: int| 0 <= i < a.len() ==> (#[trigger] a[i]).key == b[i].key,
    decreases a.len(),
{
    if a.len() == 0 {
        if b.len() > 0 {
            assert(b[0].key == b[0].key);
            assert(has_key(b, b[0].key));
            assert(has_key(a, b[0].key));
        }
    } else {
        let x = a.last();
        assert(a[a.len() - 1].key == x.key);
        assert(has_key(a, x.key));
        assert(has_key(b, x.key));
        let j = choose|j: int| 0 <= j < b.len() && (#[trigger] b[j]).key == x.key;
        let y = b.last();
        assert(b[b.len() - 1].key == y.key);
        assert(has_key(b, y.key));
        assert(has_key(a, y.key));
        let i = choose|i: int| 0 <= i < a.len() && (#[trigger] a[i]).key == y.key;
        if x.key != y.key {
            assert(key_before(b[j].key, b[b.len() - 1].key));
            assert(key_before(a[i].key, a[a.len() - 1].key));
            lemma_key_before_transitive(x.key, y.key, x.key);
            lemma_key_before_irreflexive(x.key);
        }
        let ra = a.drop_last();
        let rb = b.drop_last();
        assert forall|key: Seq<char>| #[trigger] has_key(ra, key) == has_key(rb, key) by {
            lemma_key_before_irreflexive(key);
            if has_key(ra, key) {
                let p = choose|p: int| 0 <= p < ra.len() && (#[trigger] ra[p]).key == key;
                assert(a[p].key == key);
                assert(key_before(a[p].key, a[a.len() - 1].key));
                assert(has_key(a, key));
                let q = choose|q: int| 0 <= q < b.len() && (#[trigger] b[q]).key == key;
                assert(rb[q].key == key);
            }
            if has_key(rb, key) {
                let q = choose|q: int| 0 <= q < rb.len() && (#[trigger] rb[q]).key == key;
                assert(b[q].key == key);
                assert(key_before(b[q].key, b[b.len() - 1].key));
                assert(has_key(b, key));
                assert(has_key(a, key) == has_key(b, key));
                let p = choose|p: int| 0 <= p < a.len() && (#[trigger] a[p]).key == key;
                assert(ra[p].key == key);
            }
        }
        assert forall|p: int, q: int| 0 <= p < q < ra.len() implies key_before(
            (#[trigger] ra[p]).key,
            (#[trigger] ra[q]).key,
        ) by {
            assert(key_before(a[p].key, a[q].key));
        }
        assert forall|p: int, q: int| 0 <= p < q < rb.len() implies key_before(
            (#[trigger] rb[p]).key,
            (#[trigger] rb[q]).key,
        ) by {
            assert(key_before(b[p].key, b[q].key));
        }
        lemma_same_keys(ra, rb);
        assert forall|i: int| 0 <= i < a.len() implies (#[trigger] a[i]).key == b[i].key by {
            if i < a.len() - 1 {
                assert(ra[i].key == rb[i].key);
            }
        }
    }
}

/// Given monomials fill the accumulator in one way only.
pub proof fn lemma_accumulation_unique(a: Seq<Monomial>, b: Seq<Monomial>, monos: Seq<Monomial>)
    requires
        accumulates(a, monos),
        accumulates(b, monos),
    ensures
        a == b,
{
    assert forall|key: Seq<char>| #[trigger] has_key(a, key) == has_key(b, key) by {
        assert(has_key(a, key) == has_key(monos, key));
        assert(has_key(b, key) == has_key(monos, key));
    }
    lemma_same_keys(a, b);
    assert forall|i: int| 0 <= i < a.len() implies a[i] == b[i] by {
        lemma_total_of_entry(a, i);
        lemma_total_of_entry(b, i);
        assert(total(a, a[i].key) == total(monos, a[i].key));
        assert(total(b, a[i].key) == total(monos, a[i].key));
    }
    assert(a =~= b);
}

/// The place of `key` in `terms`: the number of entries in front of the last
/// one whose key is written before `key`, that one included.
pub open spec fn place_of(terms: Seq<Monomial>, key: Seq<char>) -> int
    decreases terms.len(),
{
    if terms.len() == 0 {
        0
    } else if key_before(terms.last().key, key) {
        terms.len() as int
    } else {
        place_of(terms.drop_last(), key)
    }
}

/// In a list with ascending keys, the entries in front of the place of `key`
/// are those whose keys are written before `key`.
pub proof fn lemma_place_of(terms: Seq<Monomial>, key: Seq<char>)
    requires
        keys_ascending(terms),
    ensures
        0 <= place_of(terms, key) <= terms.len(),
        forall|j: int| 0 <= j < place_of(terms, key) ==> key_before((#[trigger] terms[j]).key, key),
        place_of(terms, key) < terms.len() ==> !key_before(terms[place_of(terms, key)].key, key),
    decreases terms.len(),
{
    if terms.len() > 0 {
        let rest = terms.drop_last();
        if key_before(terms.last().key, key) {
            assert forall|j: int| 0 <= j < terms.len() implies key_before(
                (#[trigger] terms[j]).key,
                key,
            ) by {
                if j < terms.len() - 1 {
                    assert(key_before(terms[j].key, terms[terms.len() - 1].key));
                    lemma_key_before_transitive(terms[j].key, terms.last().key, key);
                }
            }
        } else {
            assert forall|a: int, b: int| 0 <= a < b < rest.len() implies key_before(
                (#[trigger] rest[a]).key,
                (#[trigger] rest[b]).key,
            ) by {
                assert(key_before(terms[a].key, terms[b].key));
            }
            lemma_place_of(rest, key);
            assert forall|j: int| 0 <= j < place_of(terms, key) implies key_before(
                (#[trigger] terms[j]).key,
                key,
            ) by {
                assert(terms[j] == rest[j]);
            }
        }
    }
}

/// Every list of monomials fills the accumulator in some way: the accumulator
/// filled with `monos` has ascending keys, the keys of `monos`, and for each
/// key the sum of its coefficients.
pub proof fn lemma_accumulated(monos: Seq<Monomial>)
    ensures
        accumulates(accumulated(monos), monos),
    decreases monos.len(),
{
    if monos.len() == 0 {
        assert(accumulates(Seq::<Monomial>::empty(), monos));
    } else {
        let rest = monos.drop_last();
        let m = monos.last();
        lemma_accumulated(rest);
        let terms = accumulated(rest);
        let i = place_of(terms, m.key);
        lemma_place_of(terms, m.key);
        assert(rest.push(m) =~= monos);
        if i < terms.len() && terms[i].key == m.key {
            let next = terms.update(i, Monomial { coeff: terms[i].coeff + m.coeff, key: m.key });
            lemma_merge_accumulates(terms, i, m);
            lemma_accumulates_step(next, terms, rest, m);
        } else {
            let next = terms.insert(i, m);
            lemma_insert_accumulates(terms, i, m);
            lemma_accumulates_step(next, terms, rest, m);
        }
    }
}

/// Adds a monomial to an accumulator: its coefficient goes to the entry of
/// its key, and a key that has no entry yet gets one, at the place that the
/// order of keys gives it.
pub fn add_term(terms: &mut Vec<Term>, key: Vec<char>, coeff: i32)
    requires
        keys_ascending(models(old(terms)@)),
        forall|i: int|
            0 <= i < old(terms)@.len() ==> i128::MIN <= (#[trigger] old(terms)@[i]).coeff + coeff
                <= i128::MAX,
    ensures
        accumulates(
            models(final(terms)@),
            models(old(terms)@).push(Monomial { coeff: coeff as int, key: key@ }),
        ),
{
    let ghost before = models(terms@);
    let ghost m = Monomial { coeff: coeff as int, key: key@ };
    let mut i: usize = 0;
    while i < terms.len() && comes_before(terms[i].key.as_slice(), key.as_slice())
        invariant
            i <= terms@.len(),
            forall|j: int| 0 <= j < i ==> key_before((#[trigger] terms@[j]).key@, key@),
        decreases terms@.len() - i,
    {
        i += 1;
    }
    assert forall|j: int| 0 <= j < i implies key_before((#[trigger] before[j]).key, m.key) by {
        assert(key_before(terms@[j].key@, key@));
    }
    if i < terms.len() && same_key(terms[i].key.as_slice(), key.as_slice()) {
        assert(terms@[i as int].coeff + coeff <= i128::MAX);
        let sum: i128 = terms[i].coeff + coeff as i128;
        terms.set(i, Term { coeff: sum, key });
        proof {
            lemma_merge_accumulates(before, i as int, m);
            assert(models(terms@) =~= before.update(
                i as int,
                Monomial { coeff: before[i as int].coeff + m.coeff, key: m.key },
            ));
        }
    } else {
        terms.insert(i, Term { coeff: coeff as i128, key });
        proof {
            lemma_insert_accumulates(before, i as int, m);
            assert(models(terms@) =~= before.insert(i as int, m));
        }
    }
}

} // verus!
