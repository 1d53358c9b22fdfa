use sigma_parser::{
    bracket_end, bracket_start, do_nothing_parser, equals, expression, identifier, nametag,
    obj_end, obj_start, object, sigma, ParseError, Rule,
};

#[test]
fn tag_test() {
    assert_eq!(nametag("a=sigma(x)x"), Ok(("", ("a", "x", "x"))));
}

#[test]
fn obj_test() {}

#[test]
fn object_with_one_binding() {
    assert_eq!(object("[a=sigma(x)x]"), Ok(("", vec![("a", "x", "x")])));
}

#[test]
fn empty_object() {
    assert_eq!(object("[]"), Ok(("", vec![])));
}

#[test]
fn object_expression_takes_the_longest_identifier() {
    assert_eq!(
        object("[a=sigma(x)y b_2=sigma(_v)w]rest"),
        Err(ParseError { input: " b_2=sigma(_v)w]rest", rule: Rule::ObjEnd })
    );
    assert_eq!(
        object("[a=sigma(x)yb=sigma(v)w]"),
        Err(ParseError { input: "=sigma(v)w]", rule: Rule::ObjEnd })
    );
    assert_eq!(object("[_a=sigma(x1)y_2]rest"), Ok(("rest", vec![("_a", "x1", "x")])));
}

#[test]
fn object_rejects_a_second_binding() {
    assert_eq!(
        object("[a=sigma(x)y(b=sigma(v)w]"),
        Err(ParseError { input: "(b=sigma(v)w]", rule: Rule::ObjEnd })
    );
    assert_eq!(object("[]tail"), Ok(("tail", vec![])));
}

#[test]
fn missing_closing_bracket_fails() {
    assert_eq!(
        object("[a=sigma(x)x"),
        Err(ParseError { input: "", rule: Rule::ObjEnd })
    );
}

#[test]
fn missing_opening_bracket_fails() {
    assert_eq!(
        object("a=sigma(x)x]"),
        Err(ParseError { input: "a=sigma(x)x]", rule: Rule::ObjStart })
    );
}

#[test]
fn identifier_rejects_leading_digit() {
    assert_eq!(
        identifier("1abc"),
        Err(ParseError { input: "1abc", rule: Rule::Identifier })
    );
    assert_eq!(identifier("abc1=x"), Ok(("=x", "abc1")));
    assert_eq!(identifier("_"), Ok(("", "_")));
    assert_eq!(
        identifier(""),
        Err(ParseError { input: "", rule: Rule::Identifier })
    );
}

#[test]
fn identifier_is_ascii_only() {
    assert_eq!(
        identifier("éa"),
        Err(ParseError { input: "éa", rule: Rule::Identifier })
    );
    assert_eq!(identifier("aé"), Ok(("é", "a")));
}

#[test]
fn literal_rules() {
    assert_eq!(obj_start("[x"), Ok(("x", "[")));
    assert_eq!(obj_end("]"), Ok(("", "]")));
    assert_eq!(sigma("sigma("), Ok(("(", "sigma")));
    assert_eq!(
        sigma("sigm"),
        Err(ParseError { input: "sigm", rule: Rule::Sigma })
    );
    assert_eq!(bracket_start("(a"), Ok(("a", "(")));
    assert_eq!(bracket_end(")"), Ok(("", ")")));
    assert_eq!(equals("=1"), Ok(("1", "=")));
    assert_eq!(
        equals(" ="),
        Err(ParseError { input: " =", rule: Rule::Equals })
    );
}

#[test]
fn expression_is_the_placeholder() {
    assert_eq!(expression("x]"), Ok(("]", "x")));
    assert_eq!(expression("abc_1]"), Ok(("]", "x")));
    assert_eq!(expression("]"), Ok(("]", "x")));
    assert_eq!(expression(""), Ok(("", "x")));
    assert_eq!(nametag("a=sigma(x)y"), Ok(("", ("a", "x", "x"))));
    assert_eq!(nametag("a=sigma(x)]"), Ok(("]", ("a", "x", "x"))));
}

#[test]
fn nametag_reports_the_failing_rule() {
    assert_eq!(
        nametag("a=sigma(x"),
        Err(ParseError { input: "", rule: Rule::BracketEnd })
    );
    assert_eq!(
        nametag("a = sigma(x)x"),
        Err(ParseError { input: " = sigma(x)x", rule: Rule::Equals })
    );
    assert_eq!(
        nametag("a=lambda(x)x"),
        Err(ParseError { input: "lambda(x)x", rule: Rule::Sigma })
    );
    assert_eq!(
        nametag("a=sigma x)x"),
        Err(ParseError { input: " x)x", rule: Rule::BracketStart })
    );
    assert_eq!(
        nametag("a=sigma(1)x"),
        Err(ParseError { input: "1)x", rule: Rule::Identifier })
    );
}

#[test]
fn do_nothing_keeps_input() {
    assert_eq!(do_nothing_parser("my_input"), Ok(("my_input", "")));
}
