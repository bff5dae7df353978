//! The monomial splitter: from the text of one signed term to its coefficient
//! and its variable key.

use crate::digits::{
    all_digits, decimal_value, digit_of_char, is_digit, is_digit_char, lemma_decimal_value_prefix,
};
use crate::key::{canonical_key, lemma_canonical_key, letters_sorted, sorted_letters};
use crate::text::{chars_of, string_of};
use vstd::prelude::*;
use vstd::slice::slice_subrange;

verus! {

/// A monomial: a coefficient and the key that names its variables.
pub struct Monomial {
    pub coeff: int,
    pub key: Seq<char>,
}

/// Why a text could not be read.
#[derive(Debug, Clone, Copy, PartialEq, Eq)]
pub enum ParseError {
    /// The digits of a coefficient denote a number above [`MAX_MAGNITUDE`].
    CoefficientOverflow,
}

/// The largest magnitude that the coefficient of a written monomial may have.
pub const MAX_MAGNITUDE: i32 = 2147483647;

/// Whether `c` is a coefficient that a written monomial may have.
pub open spec fn representable(c: int) -> bool {
    -MAX_MAGNITUDE <= c <= MAX_MAGNITUDE
}

/// Whether every coefficient in `monos` is one that a written monomial may
/// have.
pub open spec fn all_representable(monos: Seq<Monomial>) -> bool {
    forall|i: int| 0 <= i < monos.len() ==> representable((#[trigger] monos[i]).coeff)
}

/// Whether `c` is one of the two sign characters.
pub open spec fn is_sign(c: char) -> bool {
    c == '+' || c == '-'
}

/// Whether no sign stands in `seg` behind its first character.
pub open spec fn no_inner_sign(seg: Seq<char>) -> bool {
    forall|i: int| 0 < i < seg.len() ==> !is_sign(#[trigger] seg[i])
}

/// The number of characters that the leading sign of `seg` takes: one or none.
pub open spec fn sign_len(seg: Seq<char>) -> int {
    if seg.len() > 0 && is_sign(seg[0]) {
        1
    } else {
        0
    }
}

/// The position of the first character at or after `from` that is not a
/// digit, or the length of `seg` if only digits follow.
pub open spec fn digits_end(seg: Seq<char>, from: int) -> int
    decreases seg.len() - from,
{
    if 0 <= from < seg.len() && is_digit(seg[from]) {
        digits_end(seg, from + 1)
    } else {
        from
    }
}

/// The digits written directly behind the optional sign of `seg`.
pub open spec fn coefficient_digits(seg: Seq<char>) -> Seq<char> {
    seg.subrange(sign_len(seg), digits_end(seg, sign_len(seg)))
}

/// The magnitude of the coefficient of `seg`: what its digits denote, and one
/// where there are none.
pub open spec fn magnitude(seg: Seq<char>) -> nat {
    if coefficient_digits(seg).len() == 0 {
        1
    } else {
        decimal_value(coefficient_digits(seg))
    }
}

/// The coefficient of `seg`: its magnitude, negated under a leading `-`.
pub open spec fn coefficient(seg: Seq<char>) -> int {
    if seg.len() > 0 && seg[0] == '-' {
        -(magnitude(seg) as int)
    } else {
        magnitude(seg) as int
    }
}

/// The variable letters of `seg` as they are written: everything from the
/// first character behind the sign that is not a digit.
pub open spec fn raw_variables(seg: Seq<char>) -> Seq<char> {
    seg.skip(digits_end(seg, sign_len(seg)))
}

/// The monomial that the text `seg` denotes.
pub open spec fn parse_monomial(seg: Seq<char>) -> Monomial {
    Monomial { coeff: coefficient(seg), key: canonical_key(raw_variables(seg)) }
}

/// The run of digits from `from` ends inside `seg`, holds digits only, and is
/// not followed by a digit.
pub proof fn lemma_digits_end(seg: Seq<char>, from: int)
    requires
        0 <= from <= seg.len(),
    ensures
        from <= digits_end(seg, from) <= seg.len(),
        all_digits(seg.subrange(from, digits_end(seg, from))),
        digits_end(seg, from) < seg.len() ==> !is_digit(seg[digits_end(seg, from)]),
    decreases seg.len() - from,
{
    if from < seg.len() && is_digit(seg[from]) {
        lemma_digits_end(seg, from + 1);
        let end = digits_end(seg, from);
        assert forall|i: int| 0 <= i < end - from implies is_digit(
            #[trigger] seg.subrange(from, end)[i],
        ) by {
            if i > 0 {
                assert(seg.subrange(from, end)[i] == seg.subrange(from + 1, end)[i - 1]);
            }
        }
    }
}

/// A run of digits that is followed by another character, or by none, ends
/// where that character stands.
pub proof fn lemma_digits_run(seg: Seq<char>, from: int, count: int)
    requires
        0 <= from,
        0 <= count,
        from + count <= seg.len(),
        forall|i: int| from <= i < from + count ==> is_digit(#[trigger] seg[i]),
        from + count < seg.len() ==> !is_digit(seg[from + count]),
    ensures
        digits_end(seg, from) == from + count,
    decreases count,
{
    if count > 0 {
        lemma_digits_run(seg, from + 1, count - 1);
    }
}

/// Behind one more character in front, a run of digits ends one place
/// further on.
pub proof fn lemma_digits_shift(c: char, seg: Seq<char>, from: int)
    requires
        0 <= from <= seg.len(),
    ensures
        digits_end(seq![c] + seg, from + 1) == digits_end(seg, from) + 1,
    decreases seg.len() - from,
{
    let longer = seq![c] + seg;
    if from < seg.len() {
        assert(longer[from + 1] == seg[from]);
        if is_digit(seg[from]) {
            lemma_digits_shift(c, seg, from + 1);
        }
    }
}

/// A monomial written without a sign is the same monomial with a `+` in
/// front.
pub proof fn lemma_leading_plus(seg: Seq<char>)
    requires
        seg.len() > 0 ==> !is_sign(seg[0]),
    ensures
        parse_monomial(seq!['+'] + seg) == parse_monomial(seg),
{
    let longer = seq!['+'] + seg;
    assert(longer[0] == '+');
    lemma_digits_shift('+', seg, 0);
    lemma_digits_end(seg, 0);
    assert(coefficient_digits(longer) =~= coefficient_digits(seg));
    assert(raw_variables(longer) =~= raw_variables(seg));
}

/// The key read from a text has its letters in ascending order and, unless
/// it is empty, holds a character that is not a digit. Where the text has no
/// sign behind its first character, the key holds no sign.
pub proof fn lemma_parsed_key(seg: Seq<char>)
    ensures
        letters_sorted(parse_monomial(seg).key),
        parse_monomial(seg).key.len() > 0 ==> !all_digits(parse_monomial(seg).key),
        no_inner_sign(seg) ==> forall|i: int|
            0 <= i < parse_monomial(seg).key.len() ==> !is_sign(
                #[trigger] parse_monomial(seg).key[i],
            ),
{
    broadcast use vstd::seq_lib::to_multiset_contains;

    let raw = raw_variables(seg);
    let key = parse_monomial(seg).key;
    let end = digits_end(seg, sign_len(seg));
    lemma_canonical_key(raw);
    lemma_digits_end(seg, sign_len(seg));
    if key.len() > 0 {
        assert(raw[0] == seg[end]);
        assert(raw.contains(raw[0]));
        assert(key.to_multiset().count(raw[0]) > 0);
        assert(key.contains(raw[0]));
        let i = choose|i: int| 0 <= i < key.len() && key[i] == raw[0];
        assert(!is_digit(key[i]));
    }
    if no_inner_sign(seg) {
        assert forall|i: int| 0 <= i < key.len() implies !is_sign(#[trigger] key[i]) by {
            assert(key.contains(key[i]));
            assert(raw.to_multiset().count(key[i]) > 0);
            assert(raw.contains(key[i]));
            let j = choose|j: int| 0 <= j < raw.len() && raw[j] == key[i];
            assert(raw[j] == seg[end + j]);
        }
    }
}

/// Splits the text of one monomial into its coefficient and its variable key.
///
/// A leading `+` or `-` gives the sign. The digits behind it give the
/// magnitude, which is one where no digit is written. Everything from the first
/// character that is not a digit on is taken as variable letters, which the key
/// holds in ascending order. The call fails exactly when the digits denote more
/// than [`MAX_MAGNITUDE`].
pub fn split_chars(seg: &[char]) -> (r: Result<(i32, Vec<char>), ParseError>)
    ensures
        match r {
            Ok((coeff, key)) => {
                &&& representable(coefficient(seg@))
                &&& coeff == parse_monomial(seg@).coeff
                &&& key@ == parse_monomial(seg@).key
                &&& letters_sorted(key@)
                &&& key@.to_multiset() == raw_variables(seg@).to_multiset()
            },
            Err(e) => !representable(coefficient(seg@)) && e == ParseError::CoefficientOverflow,
        },
{
    let n = seg.len();
    let negative = n > 0 && seg[0] == '-';
    let start: usize = if n > 0 && (seg[0] == '+' || seg[0] == '-') {
        1
    } else {
        0
    };
    let mut i: usize = start;
    let mut value: i64 = 0;
    assert(seg@.subrange(start as int, start as int) =~= Seq::<char>::empty());
    while i < n && is_digit_char(seg[i])
        invariant
            n == seg@.len(),
            start == sign_len(seg@),
            start <= i <= n,
            digits_end(seg@, start as int) == digits_end(seg@, i as int),
            value == decimal_value(seg@.subrange(start as int, i as int)),
            0 <= value <= MAX_MAGNITUDE,
        decreases n - i,
    {
        let digit = digit_of_char(seg[i]);
        let next: i64 = value * 10 + digit as i64;
        proof {
            let longer = seg@.subrange(start as int, i + 1);
            assert(longer.drop_last() =~= seg@.subrange(start as int, i as int));
            assert(next == decimal_value(longer));
        }
        if next > MAX_MAGNITUDE as i64 {
            proof {
                lemma_digits_end(seg@, i + 1);
                let digits = coefficient_digits(seg@);
                assert(digits.take(i + 1 - start) =~= seg@.subrange(start as int, i + 1));
                lemma_decimal_value_prefix(digits, i + 1 - start);
            }
            return Err(ParseError::CoefficientOverflow);
        }
        value = next;
        i += 1;
    }
    let magnitude: i32 = if i == start {
        1
    } else {
        value as i32
    };
    let coeff: i32 = if negative {
        -magnitude
    } else {
        magnitude
    };
    let key = sorted_letters(slice_subrange(seg, i, n));
    proof {
        assert(seg@.subrange(i as int, n as int) =~= seg@.skip(i as int));
        lemma_canonical_key(raw_variables(seg@));
    }
    Ok((coeff, key))
}

/// Splits the text of one monomial into its coefficient and its variable key.
///
/// `"-32ab"` gives `(-32, "ab")`, `"32bac"` gives `(32, "abc")`, `"-x"` gives
/// `(-1, "x")` and `"7"` gives `(7, "")`. The call fails exactly when the
/// digits of the coefficient denote more than [`MAX_MAGNITUDE`].
pub fn split_monomial(monomial: &str) -> (r: Result<(i32, String), ParseError>)
    ensures
        match r {
            Ok((coeff, key)) => {
                &&& representable(coefficient(monomial@))
                &&& coeff == parse_monomial(monomial@).coeff
                &&& key@ == parse_monomial(monomial@).key
                &&& letters_sorted(key@)
                &&& key@.to_multiset() == raw_variables(monomial@).to_multiset()
            },
            Err(e) => !representable(coefficient(monomial@)) && e
                == ParseError::CoefficientOverflow,
        },
{
    let chars = chars_of(monomial);
    match split_chars(chars.as_slice()) {
        Ok((coeff, key)) => Ok((coeff, string_of(key))),
        Err(e) => Err(e),
    }
}

} // verus!
