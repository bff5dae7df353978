use polynomial_simplifier::monomial::{split_chars, MAX_MAGNITUDE};
use polynomial_simplifier::{split_monomial, ParseError};

fn key(s: &str) -> String {
    String::from(s)
}

#[test]
fn sign_is_optional() {
    assert_eq!(split_monomial("5x"), Ok((5, key("x"))));
    assert_eq!(split_monomial("+5x"), Ok((5, key("x"))));
    assert_eq!(split_monomial("-5x"), Ok((-5, key("x"))));
}

#[test]
fn missing_digits_mean_one() {
    assert_eq!(split_monomial("x"), Ok((1, key("x"))));
    assert_eq!(split_monomial("+x"), Ok((1, key("x"))));
    assert_eq!(split_monomial("-x"), Ok((-1, key("x"))));
    assert_eq!(split_monomial("+"), Ok((1, key(""))));
    assert_eq!(split_monomial("-"), Ok((-1, key(""))));
    assert_eq!(split_monomial(""), Ok((1, key(""))));
}

#[test]
fn pure_number_has_empty_key() {
    assert_eq!(split_monomial("7"), Ok((7, key(""))));
    assert_eq!(split_monomial("+12"), Ok((12, key(""))));
    assert_eq!(split_monomial("0"), Ok((0, key(""))));
}

#[test]
fn zero_coefficient_is_kept() {
    assert_eq!(split_monomial("0x"), Ok((0, key("x"))));
    assert_eq!(split_monomial("-0xy"), Ok((0, key("xy"))));
    assert_eq!(split_monomial("000"), Ok((0, key(""))));
}

#[test]
fn leading_zeros_do_not_count() {
    assert_eq!(split_monomial("007x"), Ok((7, key("x"))));
    assert_eq!(
        split_monomial("-000000000000000000000000000042ba"),
        Ok((-42, key("ab")))
    );
}

#[test]
fn letters_are_sorted_and_kept() {
    assert_eq!(split_monomial("3zyx"), Ok((3, key("xyz"))));
    assert_eq!(split_monomial("xax"), Ok((1, key("axx"))));
    assert_eq!(split_monomial("-2bbaa"), Ok((-2, key("aabb"))));
}

#[test]
fn variables_begin_at_first_character_that_is_no_digit() {
    assert_eq!(split_monomial("12x3"), Ok((12, key("3x"))));
    assert_eq!(split_monomial("x2"), Ok((1, key("2x"))));
    assert_eq!(split_monomial("2x+y"), Ok((2, key("+xy"))));
}

#[test]
fn only_a_sign_at_the_front_is_a_sign() {
    assert_eq!(split_monomial("--3"), Ok((-1, key("-3"))));
    assert_eq!(split_monomial("+-x"), Ok((1, key("-x"))));
}

#[test]
fn other_characters_are_letters() {
    assert_eq!(split_monomial("2Zé a"), Ok((2, key(" Zaé"))));
    assert_eq!(split_monomial("٣x"), Ok((1, key("x٣"))));
}

#[test]
fn largest_magnitude_is_read() {
    assert_eq!(MAX_MAGNITUDE, 2147483647);
    assert_eq!(split_monomial("2147483647"), Ok((2147483647, key(""))));
    assert_eq!(split_monomial("-2147483647x"), Ok((-2147483647, key("x"))));
    assert_eq!(split_monomial("+02147483647ab"), Ok((2147483647, key("ab"))));
}

#[test]
fn magnitude_out_of_range_is_an_error() {
    assert_eq!(split_monomial("2147483648"), Err(ParseError::CoefficientOverflow));
    assert_eq!(split_monomial("-2147483648"), Err(ParseError::CoefficientOverflow));
    assert_eq!(split_monomial("+2147483648x"), Err(ParseError::CoefficientOverflow));
    assert_eq!(
        split_monomial("99999999999999999999999999999999999999999999xy"),
        Err(ParseError::CoefficientOverflow)
    );
    assert_eq!(split_monomial("21474836470"), Err(ParseError::CoefficientOverflow));
}

#[test]
fn split_chars_agrees_with_split_monomial() {
    let chars: Vec<char> = vec!['-', '3', '2', 'b', 'a', 'c'];
    assert_eq!(split_chars(&chars), Ok((-32, vec!['a', 'b', 'c'])));
    let empty: Vec<char> = Vec::new();
    assert_eq!(split_chars(&empty), Ok((1, Vec::new())));
    let big: Vec<char> = vec!['4', '2', '9', '4', '9', '6', '7', '2', '9', '6'];
    assert_eq!(split_chars(&big), Err(ParseError::CoefficientOverflow));
}
