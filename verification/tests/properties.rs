use polynomial_simplifier::{simplify, ParseError};

fn text(s: &str) -> Result<String, ParseError> {
    Ok(String::from(s))
}

#[test]
fn simplifying_twice_changes_nothing() {
    let inputs = [
        "x-x",
        "2xy-xy+2",
        "3z-2z+y+2-1",
        "dcba+bc",
        "a+ca-ab",
        "+n-5hn+7tjhn-4nh-3n-6hnjt+2jhn+9hn",
        "-8fk+5kv-4yk+7kf-qk+yqv-3vqy+4ky+4kf+yvqkf",
        "-0axz-0xz+0axz+0x+4xaz+14x+14zax",
        "0",
        "-1",
        "7-x",
        "",
    ];
    for p in inputs {
        let once = simplify(p).unwrap();
        assert_eq!(simplify(&once), Ok(once.clone()));
    }
}

#[test]
fn order_of_monomials_does_not_matter() {
    assert_eq!(simplify("a+ca-ab"), text("a-ab+ac"));
    assert_eq!(simplify("-ab+ca+a"), text("a-ab+ac"));
    assert_eq!(simplify("+ca-ab+a"), text("a-ab+ac"));
    assert_eq!(simplify("ca+a-ab"), text("a-ab+ac"));
    assert_eq!(simplify("3z-2z+y+2-1"), simplify("-1+2+y-2z+3z"));
    assert_eq!(simplify("4k-4+2j+3k+3"), simplify("+3+3k+2j-4+4k"));
}

#[test]
fn leading_plus_does_not_matter() {
    assert_eq!(simplify("+x+y"), simplify("x+y"));
    assert_eq!(simplify("+3"), text("3"));
}

#[test]
fn coefficients_of_like_terms_add_up() {
    assert_eq!(simplify("3x+4x-2x"), text("5x"));
    assert_eq!(simplify("xy+yx+2xy-10yx"), text("-6xy"));
    assert_eq!(simplify("1+2+3+4-20"), text("-10"));
    assert_eq!(simplify("x+y+x+y+x"), text("3x+2y"));
    assert_eq!(simplify("5ab-3ba-2ab+c"), text("c"));
}

#[test]
fn sums_may_leave_the_range_of_written_coefficients() {
    assert_eq!(simplify("2147483647x+2147483647x"), text("4294967294x"));
    assert_eq!(simplify("-2147483647-2147483647-2"), text("-4294967296"));
    assert_eq!(simplify("2147483647x+x"), text("2147483648x"));
    assert_eq!(simplify("2147483648x"), Err(ParseError::CoefficientOverflow));
}

#[test]
fn zero_only_when_everything_cancels() {
    assert_eq!(simplify("0"), text("0"));
    assert_eq!(simplify("0x"), text("0"));
    assert_eq!(simplify("x-x+0"), text("0"));
    assert_eq!(simplify("ab-ba+3-3"), text("0"));
    assert_eq!(simplify(""), text("0"));
    assert_ne!(simplify("x-x+1"), text("0"));
    assert_eq!(simplify("x0"), text("0x"));
}

#[test]
fn terms_that_cancel_are_not_written() {
    assert_eq!(simplify("x-x+y"), text("y"));
    assert_eq!(simplify("0a+b"), text("b"));
    assert_eq!(simplify("a-a-b"), text("-b"));
    assert_eq!(simplify("2-2+a-a+bc"), text("bc"));
}

#[test]
fn overflow_in_any_monomial_fails_the_call() {
    assert_eq!(simplify("x+99999999999y"), Err(ParseError::CoefficientOverflow));
    assert_eq!(simplify("99999999999y+x"), Err(ParseError::CoefficientOverflow));
    assert_eq!(simplify("x-2147483648+y"), Err(ParseError::CoefficientOverflow));
    assert_eq!(simplify("x-2147483647+y"), text("x+y-2147483647"));
}

#[test]
fn constant_term_comes_last() {
    assert_eq!(simplify("5+x"), text("x+5"));
    assert_eq!(simplify("1+abc+ab"), text("ab+abc+1"));
    assert_eq!(simplify("-1+x"), text("x-1"));
    assert_eq!(simplify("x+1"), text("x+1"));
}

#[test]
fn shorter_keys_come_first() {
    assert_eq!(simplify("ab+c"), text("c+ab"));
    assert_eq!(simplify("abc+zz+y"), text("y+zz+abc"));
    assert_eq!(simplify("b+a"), text("a+b"));
    assert_eq!(simplify("ba+ab+aa"), text("aa+2ab"));
    assert_eq!(simplify("az+ba"), text("ab+az"));
}

#[test]
fn magnitude_one_is_written_only_for_the_constant() {
    assert_eq!(simplify("1"), text("1"));
    assert_eq!(simplify("-1"), text("-1"));
    assert_eq!(simplify("1x"), text("x"));
    assert_eq!(simplify("-1x"), text("-x"));
    assert_eq!(simplify("x+1"), text("x+1"));
    assert_eq!(simplify("-x-1"), text("-x-1"));
}

#[test]
fn first_term_has_no_plus() {
    assert_eq!(simplify("+2x+3y"), text("2x+3y"));
    assert_eq!(simplify("-2x+3y"), text("-2x+3y"));
    assert_eq!(simplify("0a+3b"), text("3b"));
    assert_eq!(simplify("0a-3b+c"), text("-3b+c"));
}

#[test]
fn signs_without_anything_behind_them() {
    assert_eq!(simplify("+"), text("1"));
    assert_eq!(simplify("-"), text("-1"));
    assert_eq!(simplify("++x"), text("x+1"));
    assert_eq!(simplify("x-"), text("x-1"));
    assert_eq!(simplify("x+-y"), text("x-y+1"));
}

#[test]
fn digit_in_a_key_is_read_as_coefficient_the_second_time() {
    assert_eq!(simplify("x2+y"), text("y+2x"));
    assert_eq!(simplify("y+2x"), text("2x+y"));
}

#[test]
fn characters_beyond_ascii() {
    assert_eq!(simplify("2é+é"), text("3é"));
    assert_eq!(simplify("ßa-aß+ü"), text("ü"));
}
