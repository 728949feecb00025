use parser_combinators::{
    and, one_or_more, option, or, parse_identifier, parse_literal, parse_number_token,
    parse_tok_with_rule, prefix, suffix, surround, zero_or_more, ParseResult, Parser,
};

fn ok<T>(rest: &str, value: T) -> ParseResult<'_, T> {
    ParseResult::Success(rest, value)
}

fn fail<'a, T>(at: &'a str, message: &str) -> ParseResult<'a, T> {
    ParseResult::Failure(at, message.to_string())
}

#[test]
fn option_wraps_a_success() {
    assert_eq!(option(parse_literal("-")).parse("-1"), ok("1", Some("-")));
}

#[test]
fn option_rewinds_on_failure() {
    assert_eq!(option(parse_literal("-")).parse("+1"), ok("+1", None));
    let pair = option(and(parse_literal("a"), parse_literal("b")));
    assert_eq!(pair.parse("ac"), ok("ac", None));
}

#[test]
fn and_pairs_the_values() {
    let p = and(parse_literal("a"), parse_identifier());
    assert_eq!(p.parse("axy z"), ok(" z", ("a", "xy".to_string())));
}

#[test]
fn and_reports_the_first_failure() {
    let p = and(parse_literal("a"), parse_literal("b"));
    assert_eq!(p.parse("xb"), fail("xb", "Literal 'a' not found"));
}

#[test]
fn and_keeps_what_the_first_consumed() {
    let p = and(parse_literal("a"), parse_literal("b"));
    assert_eq!(p.parse("ac"), fail("c", "Literal 'b' not found"));
}

#[test]
fn or_takes_the_second_on_the_same_input() {
    let p = or(parse_literal("if"), parse_literal("eval"));
    assert_eq!(p.parse("eval x"), ok(" x", "eval"));
    assert_eq!(p.parse("if x"), ok(" x", "if"));
}

#[test]
fn or_discards_partial_consumption() {
    let p = or(
        parser_combinators::combinators::map(and(parse_literal("a"), parse_literal("b")), |(_, b)| b),
        parser_combinators::combinators::map(parse_literal("ac"), |s| s),
    );
    assert_eq!(p.parse("acd"), ok("d", "ac"));
}

#[test]
fn or_reports_the_second_failure() {
    let p = or(parse_literal("if"), parse_literal("eval"));
    assert_eq!(p.parse("else"), fail("else", "Literal 'eval' not found"));
}

#[test]
fn zero_or_more_of_nothing() {
    let p = zero_or_more(parse_literal("ab"));
    assert_eq!(p.parse("xyz"), ok("xyz", vec![]));
    assert_eq!(p.parse(""), ok("", vec![]));
}

#[test]
fn zero_or_more_collects_in_order() {
    let p = zero_or_more(or(parse_literal("a"), parse_literal("b")));
    assert_eq!(p.parse("abba!"), ok("!", vec!["a", "b", "b", "a"]));
}

#[test]
fn zero_or_more_drops_the_last_failure() {
    let p = zero_or_more(and(parse_literal("a"), parse_literal("b")));
    assert_eq!(p.parse("ababac"), ok("ac", vec![("a", "b"), ("a", "b")]));
}

#[test]
fn one_or_more_of_three() {
    let p = one_or_more(parse_literal("ab"));
    assert_eq!(p.parse("ababab_"), ok("_", vec!["ab", "ab", "ab"]));
}

#[test]
fn one_or_more_of_nothing_fails_at_the_input() {
    let p = one_or_more(parse_literal("ab"));
    assert_eq!(p.parse("ba"), fail("ba", "none of pattern found in 'one_or_more'"));
    assert_eq!(p.parse(""), fail("", "none of pattern found in 'one_or_more'"));
}

#[test]
fn one_or_more_agrees_with_zero_or_more() {
    for input in ["ab", "abab", "ababa", "abxab"] {
        let some = one_or_more(parse_literal("ab")).parse(input);
        let any = zero_or_more(parse_literal("ab")).parse(input);
        assert_eq!(some, any);
    }
}

#[test]
fn repetition_of_tokens() {
    let word = suffix(" ", parse_identifier());
    assert_eq!(
        one_or_more(word).parse("a bc d_e !"),
        ok("!", vec!["a".to_string(), "bc".to_string(), "d_e".to_string()])
    );
}

#[test]
fn prefix_drops_the_literal() {
    assert_eq!(prefix("$", parse_identifier()).parse("$x+1"), ok("+1", "x".to_string()));
}

#[test]
fn prefix_failures() {
    assert_eq!(
        prefix("$", parse_identifier()).parse("x+1"),
        fail("x+1", "Literal '$' not found")
    );
    assert_eq!(
        prefix("$", parse_identifier()).parse("$+1"),
        fail("+1", "First character does not satisfy rule")
    );
}

#[test]
fn suffix_drops_the_literal() {
    assert_eq!(suffix(";", parse_identifier()).parse("x; y"), ok(" y", "x".to_string()));
}

#[test]
fn suffix_failures() {
    assert_eq!(
        suffix(";", parse_identifier()).parse("x y"),
        fail(" y", "Literal ';' not found")
    );
    assert_eq!(
        suffix(";", parse_identifier()).parse(";"),
        fail(";", "First character does not satisfy rule")
    );
}

#[test]
fn surround_strips_both_literals() {
    let p = surround("(", ")", parse_identifier());
    assert_eq!(p.parse("(abc) rest"), ok(" rest", "abc".to_string()));
    let q = surround("[[", "]]", parse_number_token());
    assert_eq!(q.parse("[[42]]]"), ok("]", "42".to_string()));
}

#[test]
fn surround_failures() {
    let p = surround("(", ")", parse_identifier());
    assert_eq!(p.parse("abc)"), fail("abc)", "Literal '(' not found"));
    assert_eq!(p.parse("(+)"), fail("+)", "First character does not satisfy rule"));
    assert_eq!(p.parse("(abc"), fail("", "Literal ')' not found"));
    assert_eq!(p.parse("(abc]"), fail("]", "Literal ')' not found"));
}

#[test]
fn map_transforms_the_value() {
    let p = parser_combinators::combinators::map(parse_tok_with_rule(|c: char| c.is_ascii_digit()), |s: String| s.len());
    assert_eq!(p.parse("2024-"), ok("-", 4usize));
    let tag = parser_combinators::combinators::map(parse_literal("if"), |_| 1u8);
    assert_eq!(tag.parse("if x"), ok(" x", 1u8));
}

#[test]
fn map_hands_a_failure_on() {
    let p = parser_combinators::combinators::map(parse_literal("if"), |_| 1u8);
    assert_eq!(p.parse("of"), fail("of", "Literal 'if' not found"));
    let q = parser_combinators::combinators::map(and(parse_literal("a"), parse_literal("b")), |_| 0u8);
    assert_eq!(q.parse("ac"), fail("c", "Literal 'b' not found"));
}

#[test]
fn map_twice_is_map_of_the_composition() {
    let f = |s: String| s.len();
    let g = |n: usize| n * 2 + 1;
    for input in ["abc def", "x", "", "1abc", "if", "seven__ 7"] {
        let twice = parser_combinators::combinators::map(parser_combinators::combinators::map(parse_identifier(), f), g).parse(input);
        let once = parser_combinators::combinators::map(parse_identifier(), |s: String| g(f(s))).parse(input);
        assert_eq!(twice, once);
    }
    assert_eq!(parser_combinators::combinators::map(parser_combinators::combinators::map(parse_identifier(), f), g).parse("abc def"), ok(" def", 7usize));
}

#[test]
fn nested_grammar() {
    let item = prefix(",", parse_identifier());
    let list = surround("[", "]", and(parse_identifier(), zero_or_more(item)));
    assert_eq!(
        list.parse("[a,b,c]!"),
        ok("!", ("a".to_string(), vec!["b".to_string(), "c".to_string()]))
    );
    assert_eq!(list.parse("[a,b,]"), fail(",]", "Literal ']' not found"));
}

#[test]
fn remaining_input_is_a_tail_of_the_input() {
    let item = or(
        parser_combinators::combinators::map(parse_identifier(), |s: String| s.len()),
        parser_combinators::combinators::map(parse_number_token(), |s: String| s.len()),
    );
    let list = zero_or_more(suffix(" ", item));
    for input in ["", "a 12 b_c 3.5 tail", "1 2 3", "x", "a  b"] {
        match list.parse(input) {
            ParseResult::Success(rest, _) => assert!(input.ends_with(rest)),
            ParseResult::Failure(_, _) => panic!("a repetition does not fail"),
        }
    }
    assert_eq!(list.parse("a 12 b_c 3.5 tail"), ok("tail", vec![1usize, 2, 3, 3]));
}

#[test]
fn failure_position_is_a_tail_of_the_input() {
    let p = and(and(parse_literal("ab"), parse_identifier()), parse_literal(";"));
    for input in ["abx", "ab;", "a", "abxy ;", "ab1;"] {
        match p.parse(input) {
            ParseResult::Success(_, _) => panic!("a failure was expected"),
            ParseResult::Failure(at, _) => assert!(input.ends_with(at)),
        }
    }
}
