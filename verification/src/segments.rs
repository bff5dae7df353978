//! Segmentation: cutting the text of a polynomial into the texts of its
//! monomials.
//!
//! A new monomial begins at every `+` or `-` that is not the first character
//! of the text. A sign at the very front belongs to the first monomial.

use crate::monomial::{is_sign, lemma_leading_plus, no_inner_sign, parse_monomial, Monomial};
use vstd::prelude::*;

verus! {

/// The position at which the last monomial of `p` begins: that of the last
/// sign behind the first character, and the front of the text if there is
/// none.
pub open spec fn last_start(p: Seq<char>) -> int
    decreases p.len(),
{
    if p.len() <= 1 {
        0
    } else if is_sign(p.last()) {
        p.len() - 1
    } else {
        last_start(p.drop_last())
    }
}

/// The last monomial begins inside the text, at a sign unless at the front,
/// and no sign follows inside it.
pub proof fn lemma_last_start(p: Seq<char>)
    ensures
        0 <= last_start(p),
        p.len() > 0 ==> last_start(p) < p.len(),
        last_start(p) > 0 ==> is_sign(p[last_start(p)]),
        forall|i: int| last_start(p) < i < p.len() ==> !is_sign(#[trigger] p[i]),
    decreases p.len(),
{
    if p.len() > 1 && !is_sign(p.last()) {
        lemma_last_start(p.drop_last());
        assert forall|i: int| last_start(p) < i < p.len() implies !is_sign(#[trigger] p[i]) by {
            if i < p.len() - 1 {
                assert(p[i] == p.drop_last()[i]);
            }
        }
    }
}

/// The texts of the monomials of `p`, in the order in which they are written.
/// The empty text has none.
pub open spec fn segments(p: Seq<char>) -> Seq<Seq<char>>
    decreases p.len(),
{
    if p.len() == 0 {
        Seq::empty()
    } else {
        proof {
            lemma_last_start(p);
        }
        segments(p.take(last_start(p))).push(p.skip(last_start(p)))
    }
}

/// The monomials of `p`, in the order in which they are written.
pub open spec fn monomials(p: Seq<char>) -> Seq<Monomial> {
    segments(p).map_values(|seg: Seq<char>| parse_monomial(seg))
}

/// The monomials of a text are its parts: one behind the other they make up
/// the text, each is written with at least one character and without a sign
/// behind its first, and each but the first begins with a sign.
pub proof fn lemma_segments_shape(p: Seq<char>)
    ensures
        segments(p).flatten() == p,
        forall|i: int|
            0 <= i < segments(p).len() ==> (#[trigger] segments(p)[i]).len() > 0 && no_inner_sign(
                segments(p)[i],
            ),
        forall|i: int| 0 < i < segments(p).len() ==> is_sign((#[trigger] segments(p)[i])[0]),
    decreases p.len(),
{
    if p.len() > 0 {
        let l = last_start(p);
        lemma_last_start(p);
        lemma_segments_shape(p.take(l));
        let last = p.skip(l);
        assert forall|k: int| 0 < k < last.len() implies !is_sign(#[trigger] last[k]) by {
            assert(last[k] == p[l + k]);
        }
        assert forall|i: int| 0 <= i < segments(p).len() implies (#[trigger] segments(p)[i]).len()
            > 0 && no_inner_sign(segments(p)[i]) by {
            if i < segments(p).len() - 1 {
                assert(segments(p)[i] == segments(p.take(l))[i]);
            }
        }
        assert forall|i: int| 0 < i < segments(p).len() implies is_sign(
            (#[trigger] segments(p)[i])[0],
        ) by {
            if i < segments(p).len() - 1 {
                assert(segments(p)[i] == segments(p.take(l))[i]);
            } else {
                assert(last[0] == p[l]);
                if l == 0 {
                    assert(p.take(0) =~= Seq::<char>::empty());
                }
            }
        }
        segments(p.take(l)).lemma_flatten_push(last);
        assert(p.take(l) + last =~= p);
    }
}

/// A text without a sign behind its first character is one monomial.
pub proof fn lemma_single_segment(p: Seq<char>)
    requires
        p.len() > 0,
        no_inner_sign(p),
    ensures
        segments(p) == seq![p],
{
    lemma_last_start(p);
    assert(last_start(p) == 0);
    assert(p.skip(0) =~= p);
    assert(p.take(0) =~= Seq::<char>::empty());
    assert(segments(p.take(0)) =~= Seq::<Seq<char>>::empty());
    assert(segments(p) =~= seq![p]);
}

/// Behind a non-empty text, the last monomial of a continuation that begins
/// with a sign starts where it starts in the continuation alone.
pub proof fn lemma_last_start_concat(a: Seq<char>, b: Seq<char>)
    requires
        a.len() > 0,
        b.len() > 0,
        is_sign(b[0]),
    ensures
        last_start(a + b) == a.len() + last_start(b),
    decreases b.len(),
{
    let ab = a + b;
    if b.len() > 1 && !is_sign(b.last()) {
        assert(ab.drop_last() =~= a + b.drop_last());
        lemma_last_start_concat(a, b.drop_last());
    }
}

/// Cutting a text in front of a sign cuts its monomials in two groups.
pub proof fn lemma_segments_concat(a: Seq<char>, b: Seq<char>)
    requires
        b.len() > 0 ==> a.len() > 0 && is_sign(b[0]),
    ensures
        segments(a + b) == segments(a) + segments(b),
    decreases b.len(),
{
    if b.len() == 0 {
        assert(a + b =~= a);
        assert(segments(a) + segments(b) =~= segments(a));
    } else {
        let ab = a + b;
        let l = last_start(b);
        lemma_last_start(b);
        lemma_last_start_concat(a, b);
        assert(ab.skip(a.len() + l) =~= b.skip(l));
        assert(ab.take(a.len() + l) =~= a + b.take(l));
        if l > 0 {
            lemma_segments_concat(a, b.take(l));
        } else {
            lemma_segments_concat(a, b.take(0));
        }
        assert(segments(ab) =~= segments(a) + segments(b));
    }
}

/// The monomials of a text cut in front of a sign are those of its two parts.
pub proof fn lemma_monomials_concat(a: Seq<char>, b: Seq<char>)
    requires
        b.len() > 0 ==> a.len() > 0 && is_sign(b[0]),
    ensures
        monomials(a + b) == monomials(a) + monomials(b),
{
    lemma_segments_concat(a, b);
    assert(monomials(a + b) =~= monomials(a) + monomials(b));
}

/// A text without a sign behind its first character holds one monomial.
pub proof fn lemma_single_monomial(p: Seq<char>)
    requires
        p.len() > 0,
        no_inner_sign(p),
    ensures
        monomials(p) == seq![parse_monomial(p)],
{
    lemma_single_segment(p);
    assert(monomials(p) =~= seq![parse_monomial(p)]);
}

/// A text holds at most as many monomials as characters.
pub proof fn lemma_segments_len(p: Seq<char>)
    ensures
        segments(p).len() <= p.len(),
        monomials(p).len() == segments(p).len(),
    decreases p.len(),
{
    if p.len() > 0 {
        lemma_last_start(p);
        lemma_segments_len(p.take(last_start(p)));
    }
}

/// The monomial written from `start` up to the next sign at `end`, or up to
/// the end of the text, follows those written in front of `start`.
pub proof fn lemma_monomials_next(p: Seq<char>, start: int, end: int)
    requires
        0 <= start < end <= p.len(),
        start > 0 ==> is_sign(p[start]),
        forall|k: int| start < k < end ==> !is_sign(#[trigger] p[k]),
    ensures
        monomials(p.take(end)) == monomials(p.take(start)).push(
            parse_monomial(p.subrange(start, end)),
        ),
{
    let a = p.take(start);
    let b = p.subrange(start, end);
    assert(a + b =~= p.take(end));
    assert(no_inner_sign(b)) by {
        assert forall|k: int| 0 < k < b.len() implies !is_sign(#[trigger] b[k]) by {
            assert(b[k] == p[start + k]);
        }
    }
    lemma_single_monomial(b);
    if start == 0 {
        assert(a + b =~= b);
        assert(monomials(a) =~= Seq::<Monomial>::empty());
    } else {
        lemma_monomials_concat(a, b);
    }
    assert(monomials(a) + seq![parse_monomial(b)] =~= monomials(a).push(parse_monomial(b)));
}

/// A text that begins without a sign holds the same monomials with a `+` in
/// front.
pub proof fn lemma_leading_plus_monomials(p: Seq<char>)
    requires
        p.len() > 0,
        !is_sign(p[0]),
    ensures
        monomials(seq!['+'] + p) == monomials(p),
    decreases p.len(),
{
    let longer = seq!['+'] + p;
    let l = last_start(p);
    lemma_last_start(p);
    if l == 0 {
        assert forall|i: int| 0 < i < longer.len() implies !is_sign(#[trigger] longer[i]) by {
            assert(longer[i] == p[i - 1]);
        }
        lemma_single_monomial(p);
        lemma_single_monomial(longer);
        lemma_leading_plus(p);
    } else {
        let a = p.take(l);
        let b = p.skip(l);
        assert(a + b =~= p);
        assert((seq!['+'] + a) + b =~= longer);
        lemma_leading_plus_monomials(a);
        lemma_monomials_concat(a, b);
        lemma_monomials_concat(seq!['+'] + a, b);
    }
}

} // verus!
