use polynomial_simplifier::{simplify, split_monomial};

#[test]
fn result_is_zero() {
    assert_eq!(simplify("x-x"), Ok(String::from("0")));
    assert_eq!(simplify("y-x-y+x"), Ok(String::from("0")));
}

#[test]
fn result_has_term_with_no_variables() {
    assert_eq!(simplify("2xy-xy+2"), Ok(String::from("xy+2")));
}

#[test]
fn result_has_coefficient_1() {
    assert_eq!(simplify("2xy-xy"), Ok(String::from("xy")));
    assert_eq!(simplify("3z-2z+y"), Ok(String::from("y+z")));
    assert_eq!(simplify("3z-2z+y+2-1"), Ok(String::from("y+z+1")));
    assert_eq!(simplify("4k-4+2j+3k+3"), Ok(String::from("2j+7k-1")));
}

#[test]
fn result_is_ordered_correctly() {
    assert_eq!(simplify("dcba+bc"), Ok(String::from("bc+abcd")));
    assert_eq!(simplify("adc+dcba"), Ok(String::from("acd+abcd")));
    assert_eq!(simplify("a+ca-ab"), Ok(String::from("a-ab+ac")));
    assert_eq!(simplify("xyz-xz"), Ok(String::from("-xz+xyz")));
}

#[test]
fn correct_result_for_long_polynomials() {
    assert_eq!(
        simplify("+n-5hn+7tjhn-4nh-3n-6hnjt+2jhn+9hn"),
        Ok(String::from("-2n+2hjn+hjnt"))
    );
    assert_eq!(
        simplify("-8fk+5kv-4yk+7kf-qk+yqv-3vqy+4ky+4kf+yvqkf"),
        Ok(String::from("3fk-kq+5kv-2qvy+fkqvy"))
    );
    assert_eq!(
        simplify("-26y+29cda-26d+4yba+32zc-47zbc-89ydb+54cdx+69cay+0a-27yzx-59d-37d-37y-23ac+48b+76cdy"),
        Ok(String::from("48b-122d-63y-23ac+32cz+4aby+29acd+69acy-47bcz-89bdy+54cdx+76cdy-27xyz"))
    );
}

#[test]
fn polynomial_contains_coefficient_0() {
    assert_eq!(
        simplify("-0axz-0xz+0axz+0x+4xaz+14x+14zax"),
        Ok(String::from("14x+18axz"))
    );
}

#[test]
fn test_split_monomial() {
    assert_eq!(split_monomial("xy"), Ok((1, String::from("xy"))));
    assert_eq!(split_monomial("-xy"), Ok((-1, String::from("xy"))));
    assert_eq!(split_monomial("32ab"), Ok((32, String::from("ab"))));
    assert_eq!(split_monomial("-32ab"), Ok((-32, String::from("ab"))));
    assert_eq!(split_monomial("+32ab"), Ok((32, String::from("ab"))));
    assert_eq!(split_monomial("32bac"), Ok((32, String::from("abc"))));
    assert_eq!(split_monomial("-7"), Ok((-7, String::from(""))));
}
