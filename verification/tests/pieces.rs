use polynomial_simplifier::digits::{char_of_digit, digit_of_char, is_digit_char, push_decimal};
use polynomial_simplifier::key::{comes_before, same_key, sorted_letters};
use polynomial_simplifier::polynomial::collect_terms;
use polynomial_simplifier::render::{magnitude_u128, push_all, push_term, render};
use polynomial_simplifier::terms::{add_term, Term};
use polynomial_simplifier::text::chars_of;
use polynomial_simplifier::ParseError;

fn chars(s: &str) -> Vec<char> {
    s.chars().collect()
}

fn term(coeff: i128, key: &str) -> Term {
    Term { coeff, key: chars(key) }
}

fn decimal(n: u128) -> String {
    let mut out: Vec<char> = Vec::new();
    push_decimal(&mut out, n);
    out.into_iter().collect()
}

#[test]
fn digits_are_the_ten_ascii_digits() {
    for c in "0123456789".chars() {
        assert!(is_digit_char(c));
    }
    for c in "/:aZ+- ٣²".chars() {
        assert!(!is_digit_char(c));
    }
}

#[test]
fn digit_and_character_match() {
    for d in 0u8..10 {
        assert_eq!(digit_of_char(char_of_digit(d)), d);
    }
    assert_eq!(char_of_digit(0), '0');
    assert_eq!(char_of_digit(9), '9');
    assert_eq!(digit_of_char('7'), 7);
}

#[test]
fn numerals_have_no_leading_zero() {
    assert_eq!(decimal(0), "0");
    assert_eq!(decimal(7), "7");
    assert_eq!(decimal(10), "10");
    assert_eq!(decimal(12345), "12345");
    assert_eq!(decimal(1000000), "1000000");
    assert_eq!(decimal(u128::MAX), "340282366920938463463374607431768211455");
}

#[test]
fn numeral_is_appended() {
    let mut out = chars("ab");
    push_decimal(&mut out, 42);
    assert_eq!(out, chars("ab42"));
}

#[test]
fn chars_of_gives_every_character() {
    assert_eq!(chars_of(""), Vec::<char>::new());
    assert_eq!(chars_of("2xy"), vec!['2', 'x', 'y']);
    assert_eq!(chars_of("é-ß"), vec!['é', '-', 'ß']);
}

#[test]
fn letters_get_sorted() {
    assert_eq!(sorted_letters(&chars("")), chars(""));
    assert_eq!(sorted_letters(&chars("dcba")), chars("abcd"));
    assert_eq!(sorted_letters(&chars("abab")), chars("aabb"));
    assert_eq!(sorted_letters(&chars("zZa1")), chars("1Zaz"));
}

#[test]
fn keys_are_compared_letter_by_letter() {
    assert!(same_key(&chars("abc"), &chars("abc")));
    assert!(same_key(&chars(""), &chars("")));
    assert!(!same_key(&chars("abc"), &chars("abd")));
    assert!(!same_key(&chars("ab"), &chars("abc")));
    assert!(!same_key(&chars(""), &chars("a")));
}

#[test]
fn order_of_keys() {
    assert!(comes_before(&chars("a"), &chars("b")));
    assert!(!comes_before(&chars("b"), &chars("a")));
    assert!(!comes_before(&chars("a"), &chars("a")));
    assert!(comes_before(&chars("z"), &chars("ab")));
    assert!(!comes_before(&chars("ab"), &chars("z")));
    assert!(comes_before(&chars("ab"), &chars("ac")));
    assert!(comes_before(&chars("acd"), &chars("bcd")));
    assert!(comes_before(&chars("abcd"), &chars("")));
    assert!(comes_before(&chars("a"), &chars("")));
    assert!(!comes_before(&chars(""), &chars("a")));
    assert!(!comes_before(&chars(""), &chars("")));
}

#[test]
fn add_term_inserts_in_order() {
    let mut terms: Vec<Term> = Vec::new();
    add_term(&mut terms, chars("ab"), 2);
    add_term(&mut terms, chars(""), 5);
    add_term(&mut terms, chars("b"), -1);
    add_term(&mut terms, chars("a"), 7);
    add_term(&mut terms, chars("abc"), 1);
    assert_eq!(
        terms,
        vec![term(7, "a"), term(-1, "b"), term(2, "ab"), term(1, "abc"), term(5, "")]
    );
}

#[test]
fn add_term_adds_to_the_entry_of_the_key() {
    let mut terms = vec![term(7, "a"), term(2, "ab"), term(5, "")];
    add_term(&mut terms, chars("ab"), 3);
    add_term(&mut terms, chars(""), -5);
    add_term(&mut terms, chars("a"), -8);
    assert_eq!(terms, vec![term(-1, "a"), term(5, "ab"), term(0, "")]);
}

#[test]
fn collect_terms_keeps_terms_that_cancel() {
    assert_eq!(
        collect_terms(&chars("x-x+2y")),
        Ok(vec![term(0, "x"), term(2, "y")])
    );
    assert_eq!(collect_terms(&chars("")), Ok(Vec::new()));
    assert_eq!(collect_terms(&chars("0")), Ok(vec![term(0, "")]));
}

#[test]
fn collect_terms_orders_and_sums() {
    assert_eq!(
        collect_terms(&chars("3+ba-2ab+c-7")),
        Ok(vec![term(1, "c"), term(-1, "ab"), term(-4, "")])
    );
    assert_eq!(
        collect_terms(&chars("2147483647x+2147483647x+2147483647x")),
        Ok(vec![term(6442450941, "x")])
    );
}

#[test]
fn collect_terms_fails_on_overflow() {
    assert_eq!(
        collect_terms(&chars("x+2147483648")),
        Err(ParseError::CoefficientOverflow)
    );
}

#[test]
fn magnitude_of_every_coefficient() {
    assert_eq!(magnitude_u128(0), 0);
    assert_eq!(magnitude_u128(5), 5);
    assert_eq!(magnitude_u128(-5), 5);
    assert_eq!(magnitude_u128(i128::MAX), 170141183460469231731687303715884105727);
    assert_eq!(magnitude_u128(i128::MIN), 170141183460469231731687303715884105728);
}

#[test]
fn push_all_appends() {
    let mut out = chars("ab");
    push_all(&mut out, &chars("cd"));
    assert_eq!(out, chars("abcd"));
    push_all(&mut out, &chars(""));
    assert_eq!(out, chars("abcd"));
}

#[test]
fn push_term_writes_sign_digits_and_letters() {
    let mut out: Vec<char> = Vec::new();
    push_term(&mut out, &term(0, "x"));
    assert_eq!(out, chars(""));
    push_term(&mut out, &term(3, "x"));
    assert_eq!(out, chars("3x"));
    push_term(&mut out, &term(1, "y"));
    assert_eq!(out, chars("3x+y"));
    push_term(&mut out, &term(-1, "z"));
    assert_eq!(out, chars("3x+y-z"));
    push_term(&mut out, &term(0, "w"));
    assert_eq!(out, chars("3x+y-z"));
    push_term(&mut out, &term(-12, "ab"));
    assert_eq!(out, chars("3x+y-z-12ab"));
    push_term(&mut out, &term(1, ""));
    assert_eq!(out, chars("3x+y-z-12ab+1"));
}

#[test]
fn render_writes_zero_for_nothing() {
    assert_eq!(render(&[]), "0");
    assert_eq!(render(&[term(0, "x"), term(0, "")]), "0");
}

#[test]
fn render_writes_terms_as_given() {
    assert_eq!(render(&[term(1, "y"), term(1, "z"), term(1, "")]), "y+z+1");
    assert_eq!(render(&[term(-1, "xz"), term(1, "xyz")]), "-xz+xyz");
    assert_eq!(render(&[term(0, "a"), term(-1, "")]), "-1");
    assert_eq!(render(&[term(0, "a"), term(2, "b"), term(0, "c"), term(-3, "")]), "2b-3");
    assert_eq!(
        render(&[term(i128::MIN, "x"), term(i128::MAX, "")]),
        "-170141183460469231731687303715884105728x+170141183460469231731687303715884105727"
    );
}
