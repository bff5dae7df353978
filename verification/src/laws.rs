//! What holds of every simplification.
//!
//! The laws speak of texts as sequences of characters and of the model that
//! the contracts of [`simplify`](crate::polynomial::simplify) and of the
//! functions behind it use.

use crate::digits::{
    all_digits, decimal_value, is_digit, lemma_decimal_digits_shape, lemma_decimal_round_trip,
};
use crate::key::{lemma_canonical_key, lemma_canonical_key_of_sorted, letters_sorted};
use crate::monomial::{
    all_representable, coefficient, coefficient_digits, digits_end, is_sign, lemma_digits_end,
    lemma_digits_run, lemma_parsed_key, magnitude, no_inner_sign, parse_monomial, raw_variables,
    representable, sign_len, Monomial, ParseError,
};
use crate::polynomial::simplified;
use crate::render::{
    lemma_terms_text_empty, lemma_terms_text_not_zero, lemma_written_all, lemma_written_ascending,
    lemma_written_entries, lemma_written_text, magnitude_of, magnitude_text, polynomial_text,
    sign_text, term_text, terms_text, written,
};
use crate::segments::{
    lemma_leading_plus_monomials, lemma_monomials_concat, lemma_segments_shape,
    lemma_single_monomial, monomials, segments,
};
use crate::terms::{
    accumulated, has_key, keys_ascending, lemma_accumulated, lemma_accumulates_itself,
    lemma_accumulation_unique, lemma_total_absent, lemma_total_insert, lemma_total_of_entry, total,
};
use vstd::prelude::*;

verus! {

/// The terms that the simplified form of `p` is written with: one for each
/// key whose coefficients do not cancel, in the order of the keys.
pub open spec fn simplified_terms(p: Seq<char>) -> Seq<Monomial> {
    written(accumulated(monomials(p)))
}

/// The text that the simplified form of `p` is, where `p` has one.
pub open spec fn simplified_text(p: Seq<char>) -> Seq<char> {
    polynomial_text(simplified_terms(p))
}

/// The monomial with coefficient zero and no variables.
pub open spec fn zero_monomial() -> Monomial {
    Monomial { coeff: 0, key: Seq::<char>::empty() }
}

/// The simplified form of a polynomial is the text of its simplified terms.
pub proof fn lemma_simplified_text(p: Seq<char>)
    requires
        all_representable(monomials(p)),
    ensures
        simplified(p) == Ok::<Seq<char>, ParseError>(simplified_text(p)),
{
    lemma_written_text(accumulated(monomials(p)));
}

/// Leaving out the entries with coefficient zero changes no sum.
pub proof fn lemma_written_total(terms: Seq<Monomial>, key: Seq<char>)
    ensures
        total(written(terms), key) == total(terms, key),
    decreases terms.len(),
{
    if terms.len() > 0 {
        lemma_written_total(terms.drop_last(), key);
        if terms.last().coeff != 0 {
            assert(written(terms).drop_last() =~= written(terms.drop_last()));
        }
    }
}

/// The coefficients add up: for every key, the coefficient that the
/// simplified polynomial has for it is the sum of the coefficients that the
/// input has for it, and a term with that key is written exactly when this
/// sum is not zero.
pub proof fn lemma_coefficients_add_up(p: Seq<char>, key: Seq<char>)
    ensures
        total(simplified_terms(p), key) == total(monomials(p), key),
        has_key(simplified_terms(p), key) <==> total(monomials(p), key) != 0,
{
    let monos = monomials(p);
    let terms = accumulated(monos);
    let out = simplified_terms(p);
    lemma_accumulated(monos);
    lemma_written_total(terms, key);
    lemma_written_entries(terms);
    assert(total(terms, key) == total(monos, key));
    if has_key(out, key) {
        let i = choose|i: int| 0 <= i < out.len() && (#[trigger] out[i]).key == key;
        assert(terms.contains(out[i]));
        let j = choose|j: int| 0 <= j < terms.len() && terms[j] == out[i];
        lemma_total_of_entry(terms, j);
    }
    if total(monos, key) != 0 {
        if !has_key(monos, key) {
            lemma_total_absent(monos, key);
        }
        assert(has_key(terms, key) == has_key(monos, key));
        let j = choose|j: int| 0 <= j < terms.len() && (#[trigger] terms[j]).key == key;
        lemma_total_of_entry(terms, j);
        assert(out.contains(terms[j]));
        let i = choose|i: int| 0 <= i < out.len() && out[i] == terms[j];
        assert(out[i].key == key);
    }
}

/// The key of every simplified term is the key of a monomial of the input.
pub proof fn lemma_key_is_read(p: Seq<char>, key: Seq<char>)
    requires
        has_key(simplified_terms(p), key) || has_key(accumulated(monomials(p)), key),
    ensures
        exists|i: int|
            0 <= i < segments(p).len() && parse_monomial(#[trigger] segments(p)[i]).key == key,
        key.len() > 0 ==> !all_digits(key),
{
    let monos = monomials(p);
    let terms = accumulated(monos);
    let out = simplified_terms(p);
    lemma_accumulated(monos);
    lemma_written_entries(terms);
    if has_key(out, key) {
        let i = choose|i: int| 0 <= i < out.len() && (#[trigger] out[i]).key == key;
        assert(terms.contains(out[i]));
        let j = choose|j: int| 0 <= j < terms.len() && terms[j] == out[i];
        assert(terms[j].key == key);
    }
    assert(has_key(terms, key) == has_key(monos, key));
    let k = choose|k: int| 0 <= k < monos.len() && (#[trigger] monos[k]).key == key;
    assert(monos[k] == parse_monomial(segments(p)[k]));
    lemma_parsed_key(segments(p)[k]);
}

/// The key of a simplified term has its letters in ascending order and
/// holds no sign.
pub proof fn lemma_simplified_key(p: Seq<char>, key: Seq<char>)
    requires
        has_key(simplified_terms(p), key),
    ensures
        letters_sorted(key),
        sign_free(key),
{
    lemma_key_is_read(p, key);
    let i = choose|i: int|
        0 <= i < segments(p).len() && parse_monomial(#[trigger] segments(p)[i]).key == key;
    lemma_segments_shape(p);
    lemma_parsed_key(segments(p)[i]);
}

/// No term with coefficient zero is written, and the simplified form is `0`
/// exactly when all the terms of the input cancel.
pub proof fn lemma_zero_iff_all_cancel(p: Seq<char>)
    requires
        all_representable(monomials(p)),
    ensures
        forall|i: int|
            0 <= i < simplified_terms(p).len() ==> (#[trigger] simplified_terms(p)[i]).coeff != 0,
        simplified(p) == Ok::<Seq<char>, ParseError>(seq!['0']) <==> forall|key: Seq<char>|
            total(monomials(p), key) == 0,
        simplified(p) == Ok::<Seq<char>, ParseError>(seq!['0']) <==> simplified_terms(p).len()
            == 0,
{
    let monos = monomials(p);
    let terms = accumulated(monos);
    let out = simplified_terms(p);
    lemma_accumulated(monos);
    lemma_written_entries(terms);
    lemma_written_text(terms);
    lemma_terms_text_empty(terms);
    assert forall|i: int| 0 <= i < out.len() implies (#[trigger] out[i]).key != seq!['0'] by {
        lemma_key_is_read(p, out[i].key);
        let zero = seq!['0'];
        assert(zero.len() == 1 && zero[0] == '0');
    }
    lemma_terms_text_not_zero(out);
    if out.len() > 0 {
        assert(out[0].coeff != 0);
        lemma_coefficients_add_up(p, out[0].key);
        assert(total(monos, out[0].key) != 0);
    } else {
        assert forall|key: Seq<char>| total(monos, key) == 0 by {
            lemma_coefficients_add_up(p, key);
        }
    }
}

/// The sum for a key does not depend on the order of the monomials.
pub proof fn lemma_total_permutation(a: Seq<Monomial>, b: Seq<Monomial>, key: Seq<char>)
    requires
        a.to_multiset() == b.to_multiset(),
    ensures
        total(a, key) == total(b, key),
    decreases a.len(),
{
    broadcast use vstd::seq_lib::to_multiset_contains;

    vstd::seq_lib::to_multiset_len(a);
    vstd::seq_lib::to_multiset_len(b);
    if a.len() > 0 {
        let x = a.last();
        assert(a[a.len() - 1] == x);
        assert(a.contains(x));
        assert(b.to_multiset().count(x) > 0);
        assert(b.contains(x));
        let j = choose|j: int| 0 <= j < b.len() && b[j] == x;
        let rest = b.remove(j);
        vstd::seq_lib::to_multiset_remove(b, j);
        vstd::seq_lib::to_multiset_remove(a, a.len() - 1);
        assert(a.remove(a.len() - 1) =~= a.drop_last());
        lemma_total_permutation(a.drop_last(), rest, key);
        assert(rest.insert(j, x) =~= b);
        lemma_total_insert(rest, j, x, key);
    }
}

/// What holds of each monomial of one list holds of each monomial of a list
/// with the same monomials: the keys that occur, and whether all
/// coefficients are in range.
pub proof fn lemma_same_monomials(a: Seq<Monomial>, b: Seq<Monomial>)
    requires
        a.to_multiset() == b.to_multiset(),
    ensures
        forall|key: Seq<char>| has_key(a, key) ==> has_key(b, key),
        all_representable(b) ==> all_representable(a),
{
    broadcast use vstd::seq_lib::to_multiset_contains;

    assert forall|i: int| 0 <= i < a.len() implies b.contains(#[trigger] a[i]) by {
        assert(a.contains(a[i]));
        assert(b.to_multiset().count(a[i]) > 0);
    }
    assert forall|key: Seq<char>| has_key(a, key) implies has_key(b, key) by {
        let i = choose|i: int| 0 <= i < a.len() && (#[trigger] a[i]).key == key;
        assert(b.contains(a[i]));
        let j = choose|j: int| 0 <= j < b.len() && b[j] == a[i];
        assert(b[j].key == key);
    }
    if all_representable(b) {
        assert forall|i: int| 0 <= i < a.len() implies representable(
            (#[trigger] a[i]).coeff,
        ) by {
            assert(b.contains(a[i]));
            let j = choose|j: int| 0 <= j < b.len() && b[j] == a[i];
            assert(representable(b[j].coeff));
        }
    }
}

/// The order in which the monomials of a polynomial are written does not
/// matter: two texts with the same monomials, each as often in the one as in
/// the other, have the same simplified form, and fail together.
pub proof fn lemma_order_irrelevant(p: Seq<char>, q: Seq<char>)
    requires
        monomials(p).to_multiset() == monomials(q).to_multiset(),
    ensures
        simplified(p) == simplified(q),
{
    broadcast use vstd::seq_lib::to_multiset_contains;

    let a = monomials(p);
    let b = monomials(q);
    lemma_same_monomials(a, b);
    lemma_same_monomials(b, a);
    lemma_accumulated(a);
    lemma_accumulated(b);
    let terms = accumulated(a);
    assert forall|key: Seq<char>| #[trigger] has_key(terms, key) == has_key(b, key) by {
        assert(has_key(terms, key) == has_key(a, key));
    }
    assert forall|key: Seq<char>| #[trigger] total(terms, key) == total(b, key) by {
        assert(total(terms, key) == total(a, key));
        lemma_total_permutation(a, b, key);
    }
    lemma_accumulation_unique(terms, accumulated(b), b);
}

/// Two parts of a polynomial that both begin with a sign may change places.
pub proof fn lemma_parts_commute(a: Seq<char>, b: Seq<char>)
    requires
        a.len() > 0,
        b.len() > 0,
        is_sign(a[0]),
        is_sign(b[0]),
    ensures
        simplified(a + b) == simplified(b + a),
{
    lemma_monomials_concat(a, b);
    lemma_monomials_concat(b, a);
    vstd::seq_lib::lemma_seq_union_to_multiset_commutative(monomials(a), monomials(b));
    lemma_order_irrelevant(a + b, b + a);
}

/// A polynomial that begins without a sign may be given a `+` in front.
pub proof fn lemma_leading_plus_irrelevant(p: Seq<char>)
    requires
        p.len() > 0,
        !is_sign(p[0]),
    ensures
        simplified(seq!['+'] + p) == simplified(p),
{
    lemma_leading_plus_monomials(p);
}

/// Whether no letter of `key` is a sign.
pub open spec fn sign_free(key: Seq<char>) -> bool {
    forall|i: int| 0 <= i < key.len() ==> !is_sign(#[trigger] key[i])
}

/// Whether `key` can stand behind a coefficient and be read back: its
/// letters are in ascending order, none of them is a sign, and the first is
/// not a digit.
pub open spec fn plain_key(key: Seq<char>) -> bool {
    &&& letters_sorted(key)
    &&& sign_free(key)
    &&& key.len() > 0 ==> !is_digit(key[0])
}

/// Whether no key in `terms` begins with a digit.
pub open spec fn no_leading_digit(terms: Seq<Monomial>) -> bool {
    forall|i: int|
        0 <= i < terms.len() ==> (#[trigger] terms[i]).key.len() > 0 ==> !is_digit(terms[i].key[0])
}

/// Whether a digit occurs in `letters`.
pub open spec fn has_digit(letters: Seq<char>) -> bool {
    exists|j: int| 0 <= j < letters.len() && is_digit(#[trigger] letters[j])
}

/// Whether the digits of every monomial of `p` stand in front of its
/// letters: no digit follows a character that is neither sign nor digit.
pub open spec fn digits_in_front(p: Seq<char>) -> bool {
    forall|i: int|
        0 <= i < segments(p).len() ==> !has_digit(raw_variables(#[trigger] segments(p)[i]))
}

/// The text of a term is not empty, has no sign behind its first character,
/// and begins with a sign unless it is written as the first term. Its sign,
/// if it has one, is read as a sign.
pub proof fn lemma_term_text_shape(t: Monomial, first: bool)
    requires
        t.coeff != 0,
        sign_free(t.key),
    ensures
        term_text(t, first).len() > 0,
        no_inner_sign(term_text(t, first)),
        !first ==> is_sign(term_text(t, first)[0]),
        sign_len(term_text(t, first)) == sign_text(t.coeff, first).len(),
        (term_text(t, first)[0] == '-') == (t.coeff < 0),
{
    let s = sign_text(t.coeff, first);
    let m = magnitude_text(t);
    let k = t.key;
    let text = term_text(t, first);
    lemma_decimal_digits_shape(magnitude_of(t.coeff));
    assert(text.len() == s.len() + m.len() + k.len());
    if s.len() > 0 {
        assert(text[0] == s[0]);
    } else if m.len() > 0 {
        assert(text[0] == m[0]);
        assert(is_digit(m[0]));
    } else {
        assert(text[0] == k[0]);
        assert(!is_sign(k[0]));
    }
    assert forall|i: int| 0 < i < text.len() implies !is_sign(#[trigger] text[i]) by {
        if i < s.len() + m.len() {
            assert(text[i] == m[i - s.len()]);
            assert(is_digit(m[i - s.len()]));
        } else {
            assert(text[i] == k[i - s.len() - m.len()]);
        }
    }
}

/// The text of a term whose key is plain reads back as that term.
pub proof fn lemma_term_reads_back(t: Monomial, first: bool)
    requires
        t.coeff != 0,
        plain_key(t.key),
    ensures
        parse_monomial(term_text(t, first)) == t,
{
    let s = sign_text(t.coeff, first);
    let m = magnitude_text(t);
    let k = t.key;
    let text = term_text(t, first);
    let n = magnitude_of(t.coeff);
    lemma_term_text_shape(t, first);
    lemma_decimal_digits_shape(n);
    lemma_decimal_round_trip(n);
    lemma_canonical_key_of_sorted(k);
    assert forall|i: int| s.len() <= i < s.len() + m.len() implies is_digit(#[trigger] text[i]) by {
        assert(text[i] == m[i - s.len()]);
        assert(is_digit(m[i - s.len()]));
    }
    if k.len() > 0 {
        assert(text[(s.len() + m.len()) as int] == k[0]);
    }
    lemma_digits_run(text, s.len() as int, m.len() as int);
    assert(coefficient_digits(text) =~= m);
    assert(raw_variables(text) =~= k);
    assert(magnitude(text) == n);
    assert(coefficient(text) == t.coeff);
}

/// The text of a term whose key begins with a digit reads back with a
/// shorter key: the digit is taken for a part of the coefficient.
pub proof fn lemma_leading_digit_lost(t: Monomial, first: bool)
    requires
        t.coeff != 0,
        sign_free(t.key),
        t.key.len() > 0,
        is_digit(t.key[0]),
    ensures
        parse_monomial(term_text(t, first)).key.len() < t.key.len(),
{
    let s = sign_text(t.coeff, first);
    let m = magnitude_text(t);
    let k = t.key;
    let text = term_text(t, first);
    lemma_term_text_shape(t, first);
    lemma_decimal_digits_shape(magnitude_of(t.coeff));
    let end = digits_end(text, s.len() as int);
    lemma_digits_end(text, s.len() as int);
    if end <= s.len() + m.len() {
        if end < s.len() + m.len() {
            assert(text[end] == m[end - s.len()]);
            assert(is_digit(m[end - s.len()]));
        } else {
            assert(text[end] == k[0]);
        }
    }
    lemma_canonical_key(raw_variables(text));
}

/// What the text of a term reads back as has a plain key, whatever the key
/// of the term begins with.
pub proof fn lemma_read_key_plain(t: Monomial, first: bool)
    requires
        t.coeff != 0,
        sign_free(t.key),
        letters_sorted(t.key),
    ensures
        plain_key(parse_monomial(term_text(t, first)).key),
{
    let s = sign_text(t.coeff, first);
    let m = magnitude_text(t);
    let k = t.key;
    let text = term_text(t, first);
    lemma_term_text_shape(t, first);
    lemma_decimal_digits_shape(magnitude_of(t.coeff));
    let end = digits_end(text, s.len() as int);
    lemma_digits_end(text, s.len() as int);
    if end < s.len() + m.len() {
        assert(text[end] == m[end - s.len()]);
        assert(is_digit(m[end - s.len()]));
    }
    let raw = raw_variables(text);
    let from = end - s.len() - m.len();
    assert(raw =~= k.skip(from));
    assert(letters_sorted(raw)) by {
        assert forall|i: int, j: int| 0 <= i <= j < raw.len() implies raw[i] <= raw[j] by {
            assert(raw[i] == k[from + i] && raw[j] == k[from + j]);
        }
    }
    lemma_canonical_key_of_sorted(raw);
    assert forall|i: int| 0 <= i < raw.len() implies !is_sign(#[trigger] raw[i]) by {
        assert(raw[i] == k[from + i]);
    }
    if raw.len() > 0 {
        assert(raw[0] == text[end]);
    }
}

/// The text of terms with coefficients other than zero holds one monomial
/// for each term: what the text of that term reads as.
pub proof fn lemma_text_monomials(terms: Seq<Monomial>)
    requires
        terms.len() > 0,
        forall|i: int|
            0 <= i < terms.len() ==> (#[trigger] terms[i]).coeff != 0 && sign_free(terms[i].key),
    ensures
        terms_text(terms).len() > 0,
        monomials(terms_text(terms)).len() == terms.len(),
        forall|i: int|
            0 <= i < terms.len() ==> #[trigger] monomials(terms_text(terms))[i] == parse_monomial(
                term_text(terms[i], i == 0),
            ),
    decreases terms.len(),
{
    let rest = terms.drop_last();
    let t = terms.last();
    let head = terms_text(rest);
    assert(t == terms[terms.len() - 1]);
    if terms.len() == 1 {
        let text = term_text(t, true);
        assert(head.len() == 0);
        assert(head + text =~= text);
        lemma_term_text_shape(t, true);
        lemma_single_monomial(text);
    } else {
        assert forall|i: int| 0 <= i < rest.len() implies (#[trigger] rest[i]).coeff != 0
            && sign_free(rest[i].key) by {
            assert(rest[i] == terms[i]);
        }
        lemma_text_monomials(rest);
        let text = term_text(t, false);
        lemma_term_text_shape(t, false);
        lemma_single_monomial(text);
        lemma_monomials_concat(head, text);
        assert forall|i: int| 0 <= i < terms.len() implies #[trigger] monomials(
            terms_text(terms),
        )[i] == parse_monomial(term_text(terms[i], i == 0)) by {
            if i < rest.len() {
                assert(monomials(terms_text(terms))[i] == monomials(head)[i]);
                assert(rest[i] == terms[i]);
            }
        }
    }
}

/// The text of terms with coefficients other than zero reads back as those
/// terms exactly when none of their keys begins with a digit.
pub proof fn lemma_text_reads_back(terms: Seq<Monomial>)
    requires
        terms.len() > 0,
        forall|i: int|
            0 <= i < terms.len() ==> (#[trigger] terms[i]).coeff != 0 && sign_free(terms[i].key)
                && letters_sorted(terms[i].key),
    ensures
        monomials(terms_text(terms)) == terms <==> no_leading_digit(terms),
{
    let again = monomials(terms_text(terms));
    lemma_text_monomials(terms);
    if no_leading_digit(terms) {
        assert forall|i: int| 0 <= i < terms.len() implies again[i] == terms[i] by {
            lemma_term_reads_back(terms[i], i == 0);
        }
        assert(again =~= terms);
    } else {
        let i = choose|i: int|
            0 <= i < terms.len() && (#[trigger] terms[i]).key.len() > 0 && is_digit(
                terms[i].key[0],
            );
        lemma_leading_digit_lost(terms[i], i == 0);
        assert(again[i] == parse_monomial(term_text(terms[i], i == 0)));
    }
}

/// The text `0` holds the one monomial with coefficient zero and no
/// variables.
pub proof fn lemma_zero_text()
    ensures
        monomials(seq!['0']) == seq![zero_monomial()],
{
    let text = seq!['0'];
    assert(text.len() == 1 && text[0] == '0');
    lemma_single_monomial(text);
    lemma_digits_run(text, 0, 1);
    let digits = coefficient_digits(text);
    assert(digits =~= text);
    assert(digits.drop_last() =~= Seq::<char>::empty());
    assert(decimal_value(digits.drop_last()) == 0);
    assert(decimal_value(digits) == 0);
    assert(raw_variables(text) =~= Seq::<char>::empty());
    lemma_canonical_key(raw_variables(text));
    assert(parse_monomial(text).key =~= Seq::<char>::empty());
}

/// The simplified form of a polynomial reads back as its simplified terms
/// exactly when the key of none of them begins with a digit. Such a digit is
/// read as a part of the coefficient. Where no term is left, the simplified
/// form reads as the constant zero.
pub proof fn lemma_simplified_reads_back(p: Seq<char>)
    requires
        all_representable(monomials(p)),
    ensures
        simplified(p) == Ok::<Seq<char>, ParseError>(simplified_text(p)),
        simplified_terms(p).len() > 0 ==> (monomials(simplified_text(p)) == simplified_terms(p)
            <==> no_leading_digit(simplified_terms(p))),
        simplified_terms(p).len() == 0 ==> monomials(simplified_text(p)) == seq![zero_monomial()],
{
    let terms = accumulated(monomials(p));
    let out = simplified_terms(p);
    lemma_simplified_text(p);
    lemma_written_entries(terms);
    lemma_written_text(terms);
    lemma_terms_text_empty(terms);
    if out.len() > 0 {
        assert forall|i: int| 0 <= i < out.len() implies (#[trigger] out[i]).coeff != 0
            && sign_free(out[i].key) && letters_sorted(out[i].key) by {
            lemma_simplified_key(p, out[i].key);
        }
        lemma_text_reads_back(out);
    } else {
        lemma_zero_text();
    }
}

/// Where the digits of every monomial of a polynomial stand in front of its
/// letters, no key of its simplified form begins with a digit.
pub proof fn lemma_digits_in_front(p: Seq<char>)
    requires
        digits_in_front(p),
    ensures
        no_leading_digit(simplified_terms(p)),
{
    broadcast use vstd::seq_lib::to_multiset_contains;

    let out = simplified_terms(p);
    assert forall|i: int| 0 <= i < out.len() && (#[trigger] out[i]).key.len() > 0 implies !is_digit(
        out[i].key[0],
    ) by {
        let key = out[i].key;
        lemma_key_is_read(p, key);
        let k = choose|k: int|
            0 <= k < segments(p).len() && parse_monomial(#[trigger] segments(p)[k]).key == key;
        let raw = raw_variables(segments(p)[k]);
        lemma_canonical_key(raw);
        assert(key.contains(key[0]));
        assert(raw.to_multiset().count(key[0]) > 0);
        assert(raw.contains(key[0]));
        let j = choose|j: int| 0 <= j < raw.len() && raw[j] == key[0];
        assert(!has_digit(raw));
        assert(!is_digit(raw[j]));
    }
}

/// The coefficients add up in the text: for every key, the coefficients that
/// the simplified form has for it sum up to what the coefficients of the
/// input sum up to, provided that no key of the simplified form begins with a
/// digit.
pub proof fn lemma_written_coefficients_add_up(p: Seq<char>, key: Seq<char>)
    requires
        all_representable(monomials(p)),
        no_leading_digit(simplified_terms(p)),
    ensures
        total(monomials(simplified_text(p)), key) == total(monomials(p), key),
{
    lemma_simplified_reads_back(p);
    lemma_coefficients_add_up(p, key);
    if simplified_terms(p).len() == 0 {
        let again = monomials(simplified_text(p));
        assert(again.drop_last() =~= Seq::<Monomial>::empty());
        assert(again.last() == zero_monomial());
        assert(total(again.drop_last(), key) == 0);
        lemma_total_absent(simplified_terms(p), key);
    }
}

/// Simplified terms are in simplified form: their keys are in ascending
/// order and none of their coefficients is zero, so that accumulating them
/// again, and leaving out what cancels, gives the same terms.
pub proof fn lemma_simplified_terms_fixed(p: Seq<char>)
    ensures
        keys_ascending(simplified_terms(p)),
        accumulated(simplified_terms(p)) == simplified_terms(p),
        written(simplified_terms(p)) == simplified_terms(p),
{
    let terms = accumulated(monomials(p));
    let out = simplified_terms(p);
    lemma_accumulated(monomials(p));
    lemma_written_ascending(terms);
    lemma_written_entries(terms);
    lemma_written_all(out);
    lemma_accumulates_itself(out);
    lemma_accumulated(out);
    lemma_accumulation_unique(accumulated(out), out, out);
}

/// Simplifying is idempotent: the simplified form of a polynomial is its own
/// simplified form. This holds provided that every coefficient of the
/// simplified form is in the range of written coefficients, and that none of
/// its keys begins with a digit; otherwise the simplified form reads as
/// another polynomial, or not at all.
pub proof fn lemma_simplify_idempotent(p: Seq<char>)
    requires
        all_representable(monomials(p)),
        all_representable(simplified_terms(p)),
        no_leading_digit(simplified_terms(p)),
    ensures
        simplified(p) == Ok::<Seq<char>, ParseError>(simplified_text(p)),
        simplified(simplified_text(p)) == simplified(p),
{
    let out = simplified_terms(p);
    lemma_simplified_reads_back(p);
    lemma_simplified_terms_fixed(p);
    let again = monomials(simplified_text(p));
    if out.len() == 0 {
        assert(again[0] == zero_monomial());
        lemma_accumulates_itself(again);
        lemma_accumulated(again);
        lemma_accumulation_unique(accumulated(again), again, again);
        assert(again.drop_last() =~= Seq::<Monomial>::empty());
        assert(terms_text(again.drop_last()).len() == 0);
        assert(terms_text(again).len() == 0);
    }
}

/// A simplified form with a coefficient out of the range of written
/// coefficients cannot be simplified again: reading it fails.
pub proof fn lemma_sum_out_of_range(p: Seq<char>)
    requires
        all_representable(monomials(p)),
        no_leading_digit(simplified_terms(p)),
        !all_representable(simplified_terms(p)),
    ensures
        simplified(simplified_text(p)) == Err::<Seq<char>, ParseError>(
            ParseError::CoefficientOverflow,
        ),
{
    lemma_simplified_reads_back(p);
}

/// Whether the text `q` is in simplified form: it is `0`, or it reads as
/// terms with coefficients in range and other than zero, in the order of
/// their keys, and these terms are written as `q` is.
pub open spec fn in_simplified_form(q: Seq<char>) -> bool {
    ||| q == seq!['0']
    ||| {
        &&& q.len() > 0
        &&& all_representable(monomials(q))
        &&& keys_ascending(monomials(q))
        &&& forall|i: int| 0 <= i < monomials(q).len() ==> (#[trigger] monomials(q)[i]).coeff != 0
        &&& terms_text(monomials(q)) == q
    }
}

/// The texts that simplifying leaves as they are, are the texts in
/// simplified form.
pub proof fn lemma_fixed_points(q: Seq<char>)
    ensures
        simplified(q) == Ok::<Seq<char>, ParseError>(q) <==> in_simplified_form(q),
{
    let read = monomials(q);
    if q == seq!['0'] {
        lemma_zero_text();
        assert(read[0] == zero_monomial());
        lemma_accumulates_itself(read);
        lemma_accumulated(read);
        lemma_accumulation_unique(accumulated(read), read, read);
        assert(read.drop_last() =~= Seq::<Monomial>::empty());
        assert(terms_text(read.drop_last()).len() == 0);
        assert(terms_text(read).len() == 0);
    } else if in_simplified_form(q) {
        lemma_accumulates_itself(read);
        lemma_accumulated(read);
        lemma_accumulation_unique(accumulated(read), read, read);
    } else if simplified(q) == Ok::<Seq<char>, ParseError>(q) {
        let out = simplified_terms(q);
        lemma_simplified_text(q);
        lemma_simplified_terms_fixed(q);
        lemma_written_entries(accumulated(read));
        lemma_terms_text_empty(out);
        lemma_accumulated(read);
        assert forall|i: int| 0 <= i < out.len() implies (#[trigger] out[i]).coeff != 0
            && sign_free(out[i].key) && letters_sorted(out[i].key) by {
            lemma_simplified_key(q, out[i].key);
        }
        lemma_text_monomials(out);
        assert forall|i: int| 0 <= i < out.len() && (#[trigger] out[i]).key.len() > 0
            implies !is_digit(out[i].key[0]) by {
            lemma_key_is_read(q, out[i].key);
            assert(has_key(accumulated(read), out[i].key) == has_key(read, out[i].key));
            assert(has_key(accumulated(read), out[i].key)) by {
                assert(accumulated(read).contains(out[i]));
                let a = choose|a: int|
                    0 <= a < accumulated(read).len() && accumulated(read)[a] == out[i];
                assert(accumulated(read)[a].key == out[i].key);
            }
            let j = choose|j: int| 0 <= j < read.len() && (#[trigger] read[j]).key == out[i].key;
            assert(read[j] == parse_monomial(term_text(out[j], j == 0)));
            lemma_read_key_plain(out[j], j == 0);
        }
        lemma_text_reads_back(out);
    }
}

/// Simplifying twice gives what simplifying once gives exactly when the
/// simplified form is in simplified form as a text, too: when it is read as
/// the terms that it was written from.
pub proof fn lemma_idempotent_exactly(p: Seq<char>)
    requires
        all_representable(monomials(p)),
    ensures
        simplified(p) == Ok::<Seq<char>, ParseError>(simplified_text(p)),
        simplified(simplified_text(p)) == simplified(p) <==> in_simplified_form(simplified_text(p)),
{
    lemma_simplified_text(p);
    lemma_fixed_points(simplified_text(p));
}

} // verus!
