use parser_combinators::{
    is_ascii_digit, is_keyword, parse_identifier, parse_literal, parse_literals,
    parse_number_token, parse_tok_with_rule, ParseResult, Parser,
};

fn ok<T>(rest: &str, value: T) -> ParseResult<'_, T> {
    ParseResult::Success(rest, value)
}

fn fail<'a, T>(at: &'a str, message: &str) -> ParseResult<'a, T> {
    ParseResult::Failure(at, message.to_string())
}

#[test]
fn literal_matches_prefix() {
    assert_eq!(parse_literal("let").parse("let x"), ok(" x", "let"));
    assert_eq!(parse_literal("let").parse("let"), ok("", "let"));
}

#[test]
fn literal_mismatch_consumes_nothing() {
    assert_eq!(
        parse_literal("let").parse("lex x"),
        fail("lex x", "Literal 'let' not found")
    );
}

#[test]
fn literal_longer_than_input_fails() {
    assert_eq!(parse_literal("let").parse("le"), fail("le", "Literal 'let' not found"));
    assert_eq!(parse_literal("a").parse(""), fail("", "Literal 'a' not found"));
}

#[test]
fn empty_literal_matches_everything() {
    assert_eq!(parse_literal("").parse("abc"), ok("abc", ""));
    assert_eq!(parse_literal("").parse(""), ok("", ""));
}

#[test]
fn literal_matches_whole_characters() {
    assert_eq!(parse_literal("é").parse("été"), ok("té", "é"));
    assert_eq!(parse_literal("→x").parse("→xy"), ok("y", "→x"));
    assert_eq!(parse_literal("e").parse("été"), fail("été", "Literal 'e' not found"));
}

#[test]
fn literals_first_in_list_wins() {
    assert_eq!(parse_literals(vec!["=", "=="]).parse("== 1"), ok("= 1", "="));
    assert_eq!(parse_literals(vec!["==", "="]).parse("== 1"), ok(" 1", "=="));
    assert_eq!(parse_literals(vec!["+", "-"]).parse("-3"), ok("3", "-"));
}

#[test]
fn literals_none_matches() {
    assert_eq!(
        parse_literals(vec!["a", "b"]).parse("cab"),
        fail("cab", "Literal '[\"a\", \"b\"]' not found")
    );
    assert_eq!(parse_literals(vec![]).parse("cab"), fail("cab", "Literal '[]' not found"));
}

#[test]
fn token_is_greedy() {
    let digits = parse_tok_with_rule(|c: char| c.is_ascii_digit());
    assert_eq!(digits.parse("123abc"), ok("abc", "123".to_string()));
    assert_eq!(digits.parse("7"), ok("", "7".to_string()));
    assert_eq!(digits.parse("12 34"), ok(" 34", "12".to_string()));
}

#[test]
fn token_needs_a_first_character() {
    let digits = parse_tok_with_rule(|c: char| c.is_ascii_digit());
    assert_eq!(digits.parse("abc"), fail("abc", "First character does not satisfy rule"));
    assert_eq!(digits.parse(""), fail("", "First character does not satisfy rule"));
}

#[test]
fn token_counts_characters_not_bytes() {
    let letters = parse_tok_with_rule(|c: char| c.is_alphabetic());
    assert_eq!(letters.parse("écu 1"), ok(" 1", "écu".to_string()));
}

#[test]
fn number_token_of_decimal() {
    match parse_number_token().parse("3.14abc") {
        ParseResult::Success(rest, token) => {
            assert_eq!(rest, "abc");
            assert_eq!(token, "3.14");
            assert_eq!(token.parse::<f64>(), Ok(3.14));
        }
        ParseResult::Failure(_, _) => panic!("a number token was expected"),
    }
}

#[test]
fn number_token_rejects_letters() {
    assert_eq!(
        parse_number_token().parse("abc"),
        fail("abc", "First character does not satisfy rule")
    );
}

#[test]
fn number_token_takes_every_dot() {
    match parse_number_token().parse("1.2.3 ") {
        ParseResult::Success(rest, token) => {
            assert_eq!(rest, " ");
            assert_eq!(token, "1.2.3");
            assert!(token.parse::<f64>().is_err());
        }
        ParseResult::Failure(_, _) => panic!("a number token was expected"),
    }
}

#[test]
fn identifier_with_keyword_prefix() {
    assert_eq!(parse_identifier().parse("true123"), ok("", "true123".to_string()));
}

#[test]
fn identifier_rejects_keywords() {
    for word in ["true", "false", "if", "eval"] {
        assert_eq!(
            parse_identifier().parse(word),
            fail("", "found keyword, cannot be used as identifier")
        );
    }
    assert_eq!(
        parse_identifier().parse("if(x)"),
        fail("(x)", "found keyword, cannot be used as identifier")
    );
}

#[test]
fn identifier_rejects_leading_digit() {
    assert_eq!(
        parse_identifier().parse("1abc"),
        fail("", "identifier cannot start with digit")
    );
    assert_eq!(
        parse_identifier().parse("9 lives"),
        fail(" lives", "identifier cannot start with digit")
    );
}

#[test]
fn identifier_stops_at_other_characters() {
    assert_eq!(parse_identifier().parse("foo_bar1-baz"), ok("-baz", "foo_bar1".to_string()));
    assert_eq!(parse_identifier().parse("_x y"), ok(" y", "_x".to_string()));
    assert_eq!(parse_identifier().parse("été+1"), ok("+1", "été".to_string()));
}

#[test]
fn identifier_needs_a_first_character() {
    assert_eq!(
        parse_identifier().parse("-x"),
        fail("-x", "First character does not satisfy rule")
    );
    assert_eq!(parse_identifier().parse(""), fail("", "First character does not satisfy rule"));
}

#[test]
fn digits_are_ascii_only() {
    assert!(is_ascii_digit('0'));
    assert!(is_ascii_digit('9'));
    assert!(!is_ascii_digit('a'));
    assert!(!is_ascii_digit('/'));
    assert!(!is_ascii_digit(':'));
    assert!(!is_ascii_digit('٣'));
}

#[test]
fn keyword_table() {
    assert!(is_keyword("true"));
    assert!(is_keyword("false"));
    assert!(is_keyword("if"));
    assert!(is_keyword("eval"));
    assert!(!is_keyword("else"));
    assert!(!is_keyword("True"));
    assert!(!is_keyword(""));
    assert!(!is_keyword("iff"));
}
