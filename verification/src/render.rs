//! Rendering: writing a term list back as the text of a polynomial.

use crate::digits::{decimal_digits, push_decimal};
use crate::key::key_before;
use crate::monomial::Monomial;
use crate::terms::{keys_ascending, models, Term};
use crate::text::string_of;
use vstd::prelude::*;

verus! {

/// The magnitude of `c`.
pub open spec fn magnitude_of(c: int) -> nat {
    if c < 0 {
        (-c) as nat
    } else {
        c as nat
    }
}

/// The sign written in front of a term with coefficient `coeff`: `-` for a
/// negative one, `+` for a positive one unless the term is the first that is
/// written.
pub open spec fn sign_text(coeff: int, first: bool) -> Seq<char> {
    if coeff < 0 {
        seq!['-']
    } else if first {
        Seq::empty()
    } else {
        seq!['+']
    }
}

/// The digits written for the coefficient of `t`: the numeral of its
/// magnitude, left out where the magnitude is one and variables follow.
pub open spec fn magnitude_text(t: Monomial) -> Seq<char> {
    if (t.coeff == 1 || t.coeff == -1) && t.key.len() > 0 {
        Seq::empty()
    } else {
        decimal_digits(magnitude_of(t.coeff))
    }
}

/// The text of one term with a coefficient other than zero: sign, digits and
/// variable letters. `first` says that no term is written in front of it.
pub open spec fn term_text(t: Monomial, first: bool) -> Seq<char> {
    sign_text(t.coeff, first) + magnitude_text(t) + t.key
}

/// The texts of the terms of `terms` one behind the other, the terms with
/// coefficient zero left out.
pub open spec fn terms_text(terms: Seq<Monomial>) -> Seq<char>
    decreases terms.len(),
{
    if terms.len() == 0 {
        Seq::empty()
    } else if terms.last().coeff == 0 {
        terms_text(terms.drop_last())
    } else {
        terms_text(terms.drop_last()) + term_text(
            terms.last(),
            terms_text(terms.drop_last()).len() == 0,
        )
    }
}

/// The text of the polynomial with the terms `terms`: the text of its terms,
/// and `0` where no term is left to write.
pub open spec fn polynomial_text(terms: Seq<Monomial>) -> Seq<char> {
    if terms_text(terms).len() == 0 {
        seq!['0']
    } else {
        terms_text(terms)
    }
}

/// The terms of `terms` that are written: those with a coefficient other than
/// zero, in their order.
pub open spec fn written(terms: Seq<Monomial>) -> Seq<Monomial>
    decreases terms.len(),
{
    if terms.len() == 0 {
        terms
    } else if terms.last().coeff == 0 {
        written(terms.drop_last())
    } else {
        written(terms.drop_last()).push(terms.last())
    }
}

/// The text of a term list is the text of the terms that are written.
pub proof fn lemma_written_text(terms: Seq<Monomial>)
    ensures
        terms_text(written(terms)) == terms_text(terms),
        polynomial_text(written(terms)) == polynomial_text(terms),
    decreases terms.len(),
{
    if terms.len() > 0 {
        lemma_written_text(terms.drop_last());
        if terms.last().coeff != 0 {
            let w = written(terms.drop_last());
            assert(w.push(terms.last()).drop_last() =~= w);
        }
    }
}

/// The written terms are the entries with a coefficient other than zero.
pub proof fn lemma_written_entries(terms: Seq<Monomial>)
    ensures
        forall|i: int| 0 <= i < written(terms).len() ==> (#[trigger] written(terms)[i]).coeff != 0,
        forall|i: int|
            0 <= i < written(terms).len() ==> terms.contains(#[trigger] written(terms)[i]),
        forall|j: int|
            0 <= j < terms.len() && terms[j].coeff != 0 ==> written(terms).contains(
                #[trigger] terms[j],
            ),
    decreases terms.len(),
{
    if terms.len() > 0 {
        let rest = terms.drop_last();
        let w = written(terms);
        lemma_written_entries(rest);
        assert forall|i: int| 0 <= i < w.len() implies terms.contains(#[trigger] w[i]) by {
            if i < written(rest).len() {
                assert(rest.contains(written(rest)[i]));
                let j = choose|j: int| 0 <= j < rest.len() && rest[j] == written(rest)[i];
                assert(terms[j] == w[i]);
            } else {
                assert(terms[terms.len() - 1] == w[i]);
            }
        }
        assert forall|j: int| 0 <= j < terms.len() && terms[j].coeff != 0 implies w.contains(
            #[trigger] terms[j],
        ) by {
            if j < rest.len() {
                assert(rest[j] == terms[j]);
                assert(written(rest).contains(rest[j]));
                let i = choose|i: int| 0 <= i < written(rest).len() && written(rest)[i] == rest[j];
                assert(w[i] == terms[j]);
            } else {
                assert(w[w.len() - 1] == terms[j]);
            }
        }
    }
}

/// Where no coefficient is zero, every term is written.
pub proof fn lemma_written_all(terms: Seq<Monomial>)
    requires
        forall|i: int| 0 <= i < terms.len() ==> (#[trigger] terms[i]).coeff != 0,
    ensures
        written(terms) == terms,
    decreases terms.len(),
{
    if terms.len() > 0 {
        let rest = terms.drop_last();
        assert forall|i: int| 0 <= i < rest.len() implies (#[trigger] rest[i]).coeff != 0 by {
            assert(rest[i] == terms[i]);
        }
        lemma_written_all(rest);
        assert(terms[terms.len() - 1].coeff != 0);
        assert(rest.push(terms.last()) =~= terms);
    }
}

/// Leaving entries out keeps the keys of the others in ascending order.
pub proof fn lemma_written_ascending(terms: Seq<Monomial>)
    requires
        keys_ascending(terms),
    ensures
        keys_ascending(written(terms)),
    decreases terms.len(),
{
    if terms.len() > 0 {
        let rest = terms.drop_last();
        let w = written(terms);
        assert forall|a: int, b: int| 0 <= a < b < rest.len() implies key_before(
            (#[trigger] rest[a]).key,
            (#[trigger] rest[b]).key,
        ) by {
            assert(key_before(terms[a].key, terms[b].key));
        }
        lemma_written_ascending(rest);
        lemma_written_entries(rest);
        assert forall|a: int, b: int| 0 <= a < b < w.len() implies key_before(
            (#[trigger] w[a]).key,
            (#[trigger] w[b]).key,
        ) by {
            if b < written(rest).len() {
                assert(key_before(written(rest)[a].key, written(rest)[b].key));
            } else {
                assert(rest.contains(written(rest)[a]));
                let j = choose|j: int| 0 <= j < rest.len() && rest[j] == written(rest)[a];
                assert(key_before(terms[j].key, terms[terms.len() - 1].key));
            }
        }
    }
}

/// The text of a term with a coefficient other than zero is not empty.
pub proof fn lemma_term_text_len(t: Monomial, first: bool)
    requires
        t.coeff != 0,
    ensures
        term_text(t, first).len() > 0,
{
    crate::digits::lemma_decimal_digits_shape(magnitude_of(t.coeff));
}

/// The text of a term list is empty exactly when every coefficient is zero.
pub proof fn lemma_terms_text_empty(terms: Seq<Monomial>)
    ensures
        terms_text(terms).len() == 0 <==> written(terms).len() == 0,
    decreases terms.len(),
{
    if terms.len() > 0 {
        lemma_terms_text_empty(terms.drop_last());
        if terms.last().coeff != 0 {
            lemma_term_text_len(terms.last(), terms_text(terms.drop_last()).len() == 0);
        }
    }
}

/// The text of a term list is never the single digit `0`, provided that no
/// key is.
pub proof fn lemma_terms_text_not_zero(terms: Seq<Monomial>)
    requires
        forall|i: int| 0 <= i < terms.len() ==> (#[trigger] terms[i]).key != seq!['0'],
    ensures
        terms_text(terms) != seq!['0'],
    decreases terms.len(),
{
    let zero = seq!['0'];
    assert(zero.len() == 1 && zero[0] == '0');
    if terms.len() > 0 {
        let rest = terms.drop_last();
        let t = terms.last();
        assert forall|i: int| 0 <= i < rest.len() implies (#[trigger] rest[i]).key != seq!['0'] by {
            assert(rest[i] == terms[i]);
        }
        lemma_terms_text_not_zero(rest);
        if t.coeff != 0 {
            let head = terms_text(rest);
            let first = head.len() == 0;
            let text = term_text(t, first);
            lemma_term_text_len(t, first);
            assert(terms_text(terms) == head + text);
            if first {
                assert(head + text =~= text);
                crate::digits::lemma_decimal_digits_shape(magnitude_of(t.coeff));
                assert(t == terms[terms.len() - 1]);
                if t.coeff < 0 {
                    assert(text[0] == '-');
                } else if magnitude_text(t).len() == 0 {
                    assert(text =~= t.key);
                } else {
                    assert(text[0] == magnitude_text(t)[0]);
                }
            } else {
                assert((head + text).len() >= 2);
            }
        }
    }
}

/// Appends the characters of `chars` to `out`.
pub fn push_all(out: &mut Vec<char>, chars: &[char])
    ensures
        final(out)@ == old(out)@ + chars@,
{
    let n = chars.len();
    let mut i: usize = 0;
    assert(out@ =~= old(out)@ + chars@.take(0));
    while i < n
        invariant
            i <= n,
            n == chars@.len(),
            out@ == old(out)@ + chars@.take(i as int),
        decreases n - i,
    {
        out.push(chars[i]);
        i += 1;
        assert(out@ =~= old(out)@ + chars@.take(i as int));
    }
    assert(chars@.take(n as int) =~= chars@);
}

/// The magnitude of `c`.
pub fn magnitude_u128(c: i128) -> (m: u128)
    ensures
        m == magnitude_of(c as int),
{
    if c < 0 {
        (-(c + 1)) as u128 + 1
    } else {
        c as u128
    }
}

/// Appends the text of the term `t` to `out`. A term with coefficient zero
/// adds nothing; another one gets a `+` in front where it is positive and
/// `out` already holds text.
pub fn push_term(out: &mut Vec<char>, t: &Term)
    ensures
        t.coeff == 0 ==> final(out)@ == old(out)@,
        t.coeff != 0 ==> final(out)@ == old(out)@ + term_text(t@, old(out)@.len() == 0),
{
    if t.coeff != 0 {
        let ghost start = out@;
        if t.coeff < 0 {
            out.push('-');
        } else if out.len() > 0 {
            out.push('+');
        }
        assert(out@ =~= start + sign_text(t.coeff as int, start.len() == 0));
        if !((t.coeff == 1 || t.coeff == -1) && t.key.len() > 0) {
            push_decimal(out, magnitude_u128(t.coeff));
        }
        assert(out@ =~= start + sign_text(t.coeff as int, start.len() == 0) + magnitude_text(t@));
        push_all(out, t.key.as_slice());
        assert(out@ =~= start + term_text(t@, start.len() == 0));
    }
}

/// Writes the polynomial with the terms `terms`, in their order.
///
/// Terms with coefficient zero are left out. A coefficient of magnitude one is
/// written by its sign alone where variables follow. The first term that is
/// written carries a sign only if it is negative. Where no term is written
/// the text is `0`.
pub fn render(terms: &[Term]) -> (text: String)
    ensures
        text@ == polynomial_text(models(terms@)),
{
    let mut out: Vec<char> = Vec::new();
    let n = terms.len();
    let mut i: usize = 0;
    assert(models(terms@).take(0) =~= Seq::<Monomial>::empty());
    while i < n
        invariant
            i <= n,
            n == terms@.len(),
            out@ == terms_text(models(terms@).take(i as int)),
        decreases n - i,
    {
        proof {
            let done = models(terms@).take(i + 1);
            assert(done.drop_last() =~= models(terms@).take(i as int));
            assert(done.last() == terms@[i as int]@);
        }
        push_term(&mut out, &terms[i]);
        i += 1;
    }
    assert(models(terms@).take(n as int) =~= models(terms@));
    if out.len() == 0 {
        out.push('0');
        assert(out@ =~= seq!['0']);
    }
    string_of(out)
}

} // verus!
