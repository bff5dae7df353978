//! The polynomial simplifier.

use crate::laws::lemma_zero_iff_all_cancel;
use crate::monomial::{
    all_representable, coefficient, is_sign, parse_monomial, representable, split_chars, Monomial,
    ParseError,
};
use crate::render::{polynomial_text, render};
use crate::segments::{
    lemma_monomials_concat, lemma_monomials_next, lemma_segments_len, monomials,
};
use crate::terms::{
    accumulated, accumulates, add_term, lemma_accumulates_step, lemma_accumulation_unique,
    lemma_total_bound, lemma_total_of_entry, models, total, Term,
};
use crate::text::chars_of;
use vstd::prelude::*;
use vstd::slice::slice_subrange;

verus! {

/// The simplified form of the polynomial written as `p`: its like terms
/// combined, the terms in the order of their keys, those that cancel left
/// out. There is none where the digits of a coefficient in `p` denote a
/// number out of range.
pub open spec fn simplified(p: Seq<char>) -> Result<Seq<char>, ParseError> {
    if all_representable(monomials(p)) {
        Ok(polynomial_text(accumulated(monomials(p))))
    } else {
        Err(ParseError::CoefficientOverflow)
    }
}

/// Reads the monomial `seg` and adds it to the accumulator `terms`, which so
/// far was filled with `monos`.
fn add_segment(terms: &mut Vec<Term>, seg: &[char], Ghost(monos): Ghost<Seq<Monomial>>) -> (r:
    Result<(), ParseError>)
    requires
        accumulates(models(old(terms)@), monos),
        all_representable(monos),
        monos.len() <= usize::MAX,
    ensures
        match r {
            Ok(()) => {
                &&& representable(coefficient(seg@))
                &&& accumulates(models(final(terms)@), monos.push(parse_monomial(seg@)))
            },
            Err(e) => {
                &&& !representable(coefficient(seg@))
                &&& e == ParseError::CoefficientOverflow
            },
        },
{
    match split_chars(seg) {
        Err(e) => Err(e),
        Ok((coeff, key)) => {
            let ghost before = models(terms@);
            proof {
                assert forall|i: int| 0 <= i < terms@.len() implies i128::MIN <= (
                    #[trigger] terms@[i]
                ).coeff + coeff <= i128::MAX by {
                    assert(before[i] == terms@[i]@);
                    lemma_total_of_entry(before, i);
                    assert(total(before, before[i].key) == total(monos, before[i].key));
                    lemma_total_bound(monos, before[i].key);
                }
            }
            add_term(terms, key, coeff);
            proof {
                lemma_accumulates_step(models(terms@), before, monos, parse_monomial(seg@));
            }
            Ok(())
        },
    }
}

/// Reads the polynomial written as `chars` and returns its terms: one for
/// each key that occurs, with the sum of the coefficients written for that
/// key, in the order in which terms are written. A term whose monomials
/// cancel stays in the list with coefficient zero.
///
/// The call fails exactly when the digits of some coefficient denote more
/// than [`MAX_MAGNITUDE`](crate::monomial::MAX_MAGNITUDE).
pub fn collect_terms(chars: &[char]) -> (r: Result<Vec<Term>, ParseError>)
    ensures
        match r {
            Ok(terms) => {
                &&& all_representable(monomials(chars@))
                &&& accumulates(models(terms@), monomials(chars@))
                &&& models(terms@) == accumulated(monomials(chars@))
            },
            Err(e) => {
                &&& !all_representable(monomials(chars@))
                &&& e == ParseError::CoefficientOverflow
            },
        },
{
    let n = chars.len();
    let mut terms: Vec<Term> = Vec::new();
    let mut start: usize = 0;
    let mut i: usize = 1;
    proof {
        assert(chars@.take(0) =~= Seq::<char>::empty());
        assert(monomials(chars@.take(0)) =~= Seq::<Monomial>::empty());
        assert(models(terms@) =~= Seq::<Monomial>::empty());
    }
    while i < n
        invariant
            n == chars@.len(),
            0 <= start < i,
            i <= n || (n == 0 && start == 0),
            start > 0 ==> is_sign(chars@[start as int]),
            forall|k: int| start < k < i && k < n ==> !is_sign(#[trigger] chars@[k]),
            accumulates(models(terms@), monomials(chars@.take(start as int))),
            all_representable(monomials(chars@.take(start as int))),
        decreases n - i,
    {
        if chars[i] == '+' || chars[i] == '-' {
            let ghost done = monomials(chars@.take(start as int));
            proof {
                lemma_segments_len(chars@.take(start as int));
                lemma_monomials_next(chars@, start as int, i as int);
                lemma_monomials_concat(chars@.take(i as int), chars@.skip(i as int));
                assert(chars@.take(i as int) + chars@.skip(i as int) =~= chars@);
            }
            match add_segment(&mut terms, slice_subrange(chars, start, i), Ghost(done)) {
                Err(e) => {
                    proof {
                        let read = monomials(chars@.take(i as int));
                        assert(monomials(chars@)[done.len() as int] == read[done.len() as int]);
                        assert(!representable(monomials(chars@)[done.len() as int].coeff));
                    }
                    return Err(e);
                },
                Ok(()) => {},
            }
            start = i;
        }
        i += 1;
    }
    if n > 0 {
        let ghost done = monomials(chars@.take(start as int));
        proof {
            lemma_segments_len(chars@.take(start as int));
            lemma_monomials_next(chars@, start as int, n as int);
            assert(chars@.take(n as int) =~= chars@);
        }
        match add_segment(&mut terms, slice_subrange(chars, start, n), Ghost(done)) {
            Err(e) => {
                proof {
                    assert(!representable(monomials(chars@)[done.len() as int].coeff));
                }
                return Err(e);
            },
            Ok(()) => {},
        }
    } else {
        assert(chars@.take(0) =~= chars@);
    }
    proof {
        let all = monomials(chars@);
        assert(accumulates(models(terms@), all));
        assert(accumulates(accumulated(all), all));
        lemma_accumulation_unique(models(terms@), accumulated(all), all);
    }
    Ok(terms)
}

/// Simplifies the polynomial written as `polynomial`.
///
/// The text is cut into monomials at every `+` and `-` behind its first
/// character. Monomials with the same variables, in any order, are combined
/// into one term. The terms are written with the shorter keys first, keys of
/// one length in the order of their letters, and the constant term last;
/// terms that cancel are left out, and `0` is written where none is left.
///
/// The call fails exactly when the digits of some coefficient denote more
/// than [`MAX_MAGNITUDE`](crate::monomial::MAX_MAGNITUDE).
pub fn simplify(polynomial: &str) -> (r: Result<String, ParseError>)
    ensures
        match r {
            Ok(text) => {
                &&& simplified(polynomial@) == Ok::<Seq<char>, ParseError>(text@)
                &&& text@ == seq!['0'] <==> forall|key: Seq<char>|
                    total(monomials(polynomial@), key) == 0
            },
            Err(e) => simplified(polynomial@) == Err::<Seq<char>, ParseError>(e),
        },
{
    let chars = chars_of(polynomial);
    match collect_terms(chars.as_slice()) {
        Ok(terms) => {
            proof {
                lemma_zero_iff_all_cancel(polynomial@);
            }
            Ok(render(terms.as_slice()))
        },
        Err(e) => Err(e),
    }
}

} // verus!
