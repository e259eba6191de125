use rust_grep::compiler::pattern_to_expressions;
use rust_grep::expression::Expression;
use rust_grep::scanner::match_pattern;

fn compiled(pattern: &str) -> Vec<Expression> {
    pattern_to_expressions(pattern).unwrap()
}

#[test]
fn match_literals() {
    let expressions = compiled("d");
    assert_eq!(match_pattern(&"d", &expressions), Some(vec!(0)));
    assert_eq!(match_pattern(&"f", &expressions), None);
}

#[test]
fn match_digits() {
    let expressions = compiled("\\d");
    assert_eq!(match_pattern(&"8", &expressions), Some(vec!(0)));
    assert_eq!(match_pattern(&"f", &expressions), None);
}

#[test]
fn match_alphanumeric() {
    let expressions = compiled("\\w");
    assert_eq!(match_pattern(&"8", &expressions), Some(vec!(0)));
    assert_eq!(match_pattern(&"f", &expressions), Some(vec!(0)));
    assert_eq!(match_pattern(&"*", &expressions), None);
}

#[test]
fn match_group() {
    let expressions = compiled("[abc]");
    assert_eq!(match_pattern(&"a", &expressions), Some(vec!(0)));
    assert_eq!(match_pattern(&"b", &expressions), Some(vec!(0)));
    assert_eq!(match_pattern(&"*", &expressions), None);
    assert_eq!(match_pattern(&"e", &expressions), None);
}

#[test]
fn match_negative_group() {
    let expressions = compiled("[^abc]");
    assert_eq!(match_pattern(&"a", &expressions), None);
    assert_eq!(match_pattern(&"b", &expressions), None);
    assert_eq!(match_pattern(&"*", &expressions), Some(vec!(0)));
    assert_eq!(match_pattern(&"e", &expressions), Some(vec!(0)));
}

#[test]
fn match_literal_and_group() {
    let expressions = compiled("a[abc]");
    assert_eq!(match_pattern(&"ab", &expressions), Some(vec!(0, 1)));
    assert_eq!(match_pattern(&"aa", &expressions), Some(vec!(0, 1)));
    assert_eq!(match_pattern(&"qa", &expressions), None);
    assert_eq!(match_pattern(&"qr", &expressions), None);
}

#[test]
fn match_literal_and_digit() {
    let expressions = compiled("\\d apples");
    assert_eq!(match_pattern(&"2 apples", &expressions), Some(vec!(0, 1, 2, 3, 4, 5, 6, 7)));
    assert_eq!(match_pattern(&"2 apples ha!", &expressions), Some(vec!(0, 1, 2, 3, 4, 5, 6, 7)));
    assert_eq!(match_pattern(&"2 apple", &expressions), None);
    assert_eq!(match_pattern(&"2apples", &expressions), None);
    assert_eq!(match_pattern(&"n apples", &expressions), None);
    assert_eq!(match_pattern(&"2 organges", &expressions), None);
}

#[test]
fn match_with_more_text_at_the_end() {
    let expressions = compiled("\\d apple");
    assert_eq!(match_pattern(&"2 apples", &expressions), Some(vec!(0, 1, 2, 3, 4, 5, 6)));
}

#[test]
fn match_with_more_text_at_the_beginning() {
    let expressions = compiled("\\d apple");
    assert_eq!(match_pattern(&"may I have 2 apples?", &expressions), Some((11..18).collect()));
}

#[test]
fn match_start_anchor() {
    let expressions = compiled("^ab");
    assert_eq!(match_pattern(&"ab", &expressions), Some(vec!(0, 1)));
    assert_eq!(match_pattern(&"abc", &expressions), Some(vec!(0, 1)));
    assert_eq!(match_pattern(&"aabc", &expressions), None);
    assert_eq!(match_pattern(&"rabc", &expressions), None);
}

#[test]
fn match_end_anchor() {
    let expressions = compiled("ab$");
    assert_eq!(match_pattern(&"ab", &expressions), Some(vec!(0, 1)));
    assert_eq!(match_pattern(&"cab", &expressions), Some(vec!(1, 2)));
    assert_eq!(match_pattern(&"aabc", &expressions), None);
    assert_eq!(match_pattern(&"abc", &expressions), None);
}

#[test]
fn match_start_and_end_anchor() {
    let expressions = compiled("^ab$");
    assert_eq!(match_pattern(&"ab", &expressions), Some(vec!(0, 1)));
    assert_eq!(match_pattern(&"cab", &expressions), None);
    assert_eq!(match_pattern(&"abc", &expressions), None);
}

#[test]
fn match_wildcard() {
    let expressions = compiled(".b");
    assert_eq!(match_pattern(&"ab", &expressions), Some(vec!(0, 1)));
}

#[test]
fn match_one_or_more() {
    let expressions = compiled("^a+b");
    assert_eq!(match_pattern(&"ab", &expressions), Some(vec!(0, 1)));
    assert_eq!(match_pattern(&"aab", &expressions), Some(vec!(0, 1, 2)));
    assert_eq!(match_pattern(&"acb", &expressions), None);
    assert_eq!(match_pattern(&"cb", &expressions), None);
}

#[test]
fn match_zero_or_more() {
    let expressions = compiled("a*b");
    assert_eq!(match_pattern(&"ab", &expressions), Some(vec!(0, 1)));
    assert_eq!(match_pattern(&"aab", &expressions), Some(vec!(0, 1, 2)));
    assert_eq!(match_pattern(&"b", &expressions), Some(vec!(0)));

    let other_expressions = compiled("a[bc]*d");
    assert_eq!(match_pattern(&"ad", &other_expressions), Some(vec!(0, 1)));
    assert_eq!(match_pattern(&"cd", &other_expressions), None);
    assert_eq!(match_pattern(&"acd", &other_expressions), Some(vec!(0, 1, 2)));
}

#[test]
fn match_alternations() {
    let expressions = compiled("(a|b)c");
    assert_eq!(match_pattern(&"ac", &expressions), Some(vec!(0, 1)));
    assert_eq!(match_pattern(&"bc", &expressions), Some(vec!(0, 1)));
    assert_eq!(match_pattern(&"ab", &expressions), None);
    assert_eq!(match_pattern(&"cc", &expressions), None);
}

#[test]
fn match_alternations_with_repetition() {
    let expressions = compiled("^(a|b)*$");
    assert_eq!(match_pattern(&"a", &expressions), Some(vec!(0)));
    assert_eq!(match_pattern(&"b", &expressions), Some(vec!(0)));
    assert_eq!(match_pattern(&"ab", &expressions), Some(vec!(0, 1)));
    assert_eq!(match_pattern(&"ac", &expressions), None);
}
