use rust_grep::compiler::{chars_of, pattern_to_expressions, PatternError};
use rust_grep::expression::{Expression, Quantifier};
use rust_grep::matcher::{append_to_result, match_pattern_from};
use rust_grep::scanner::{highlight_marks, is_match, match_pattern};

fn compiled(pattern: &str) -> Vec<Expression> {
    pattern_to_expressions(pattern).unwrap()
}

fn find(pattern: &str, line: &str) -> Option<Vec<usize>> {
    match_pattern(line, &compiled(pattern))
}

#[test]
fn zero_or_more_is_greedy() {
    assert_eq!(find("a*b", "aab"), Some(vec![0, 1, 2]));
}

#[test]
fn one_or_more_needs_an_occurrence() {
    assert_eq!(find("a+b", "cb"), None);
    assert_eq!(find("a+b", "xaab"), Some(vec![1, 2, 3]));
}

#[test]
fn alternation_tries_both_branches_in_order() {
    assert_eq!(find("(a|b)c", "ac"), Some(vec![0, 1]));
    assert_eq!(find("(a|b)c", "bc"), Some(vec![0, 1]));
    assert_eq!(find("(a|b)c", "ab"), None);
    assert_eq!(find("(a|b)c", "cc"), None);
    assert_eq!(find("(ab|a)", "ab"), Some(vec![0, 1]));
    assert_eq!(find("(a|ab)", "ab"), Some(vec![0]));
}

#[test]
fn negated_set_scenarios() {
    assert_eq!(find("[^abc]", "*"), Some(vec![0]));
    assert_eq!(find("[^abc]", "e"), Some(vec![0]));
    assert_eq!(find("[^abc]", "a"), None);
    assert_eq!(find("[^abc]", "b"), None);
    assert_eq!(find("[^abc]", "c"), None);
}

#[test]
fn digit_then_literal_inside_a_line() {
    assert_eq!(
        find("\\d apple", "may I have 2 apples?"),
        Some(vec![11, 12, 13, 14, 15, 16, 17])
    );
}

#[test]
fn both_anchors() {
    assert_eq!(find("^ab$", "ab"), Some(vec![0, 1]));
    assert_eq!(find("^ab$", "abc"), None);
}

#[test]
fn set_under_zero_or_more() {
    assert_eq!(find("a[bc]*d", "acd"), Some(vec![0, 1, 2]));
    assert_eq!(find("a[bc]*d", "cd"), None);
    assert_eq!(find("a[bc]*d", "abcbd"), Some(vec![0, 1, 2, 3, 4]));
}

#[test]
fn anchored_repeated_alternation() {
    assert_eq!(find("^(a|b)*$", "ab"), Some(vec![0, 1]));
    assert_eq!(find("^(a|b)*$", "ac"), None);
}

#[test]
fn anchored_match_starts_at_zero() {
    assert_eq!(find("^b", "ab"), None);
    assert_eq!(find("^a", "ab"), Some(vec![0]));
}

#[test]
fn end_anchored_match_reaches_line_end() {
    assert_eq!(find("b$", "abab"), Some(vec![3]));
    assert_eq!(find("a*$", "xaa"), Some(vec![1, 2]));
    assert_eq!(find("$", "ab"), None);
    assert_eq!(find("^$", ""), Some(vec![]));
}

#[test]
fn offsets_increase_within_line() {
    let r = find("\\w+", "--abc9_").unwrap();
    assert_eq!(r, vec![2, 3, 4, 5]);
    assert!(r.windows(2).all(|w| w[0] < w[1]));
    assert!(r.iter().all(|&o| o < 7));
}

#[test]
fn offsets_count_characters_not_bytes() {
    assert_eq!(find("b", "\u{e9}\u{e9}b"), Some(vec![2]));
    assert_eq!(find(".", "\u{e9}"), Some(vec![0]));
}

#[test]
fn empty_line_and_empty_pattern() {
    assert_eq!(find("a", ""), None);
    assert_eq!(find("", ""), None);
    assert_eq!(find("", "x"), Some(vec![]));
    assert_eq!(find("x*", "y"), Some(vec![]));
}

#[test]
fn escapes_become_literals() {
    assert_eq!(find("\\.", "a.b"), Some(vec![1]));
    assert_eq!(find("\\.", "ab"), None);
    assert_eq!(find("\\\\", "a\\"), Some(vec![1]));
}

#[test]
fn wildcard_and_classes() {
    assert_eq!(find("a.c", "abc"), Some(vec![0, 1, 2]));
    assert_eq!(find("\\w", "_"), None);
    assert_eq!(find("\\w", "Z"), Some(vec![0]));
    assert_eq!(find("\\d", "x9"), Some(vec![1]));
}

#[test]
fn empty_set_matches_nothing() {
    assert_eq!(find("[]", "abc"), None);
    assert_eq!(find("[^]", "a"), Some(vec![0]));
}

#[test]
fn repetitions_of_zero_width_atoms_terminate() {
    assert_eq!(find("a**b", "aab"), Some(vec![0, 1, 2]));
    assert_eq!(find("(|a)*b", "aab"), Some(vec![0, 1, 2]));
    assert_eq!(find("^*a", "ba"), Some(vec![1]));
    assert_eq!(find("a*a*b", "aab"), Some(vec![0, 1, 2]));
}

#[test]
fn one_or_more_of_a_group() {
    assert_eq!(find("(ab|c)+d", "xabcabd"), Some(vec![1, 2, 3, 4, 5, 6]));
}

#[test]
fn compile_builds_the_tree() {
    let e = compiled("a+");
    assert_eq!(e.len(), 1);
    match &e[0] {
        Expression::Repeat(q, atom) => {
            assert_eq!(*q, Quantifier::OneOrMore);
            assert!(matches!(**atom, Expression::Literal('a')));
        }
        _ => panic!("expected a repetition"),
    }
    let g = compiled("(a|bc|)");
    match &g[0] {
        Expression::Alternation(bs) => {
            assert_eq!(bs.len(), 3);
            assert_eq!(bs[1].len(), 2);
            assert!(bs[2].is_empty());
        }
        _ => panic!("expected an alternation"),
    }
    let s = compiled("[^xy]");
    match &s[0] {
        Expression::CharacterSet(m, negated) => {
            assert_eq!(m, &vec!['x', 'y']);
            assert!(*negated);
        }
        _ => panic!("expected a set"),
    }
}

#[test]
fn dangling_escape_is_an_error() {
    assert_eq!(pattern_to_expressions("ab\\").err(), Some(PatternError::DanglingEscape));
    assert_eq!(pattern_to_expressions("(a\\)").err(), Some(PatternError::DanglingEscape));
}

#[test]
fn unterminated_set_is_an_error() {
    assert_eq!(pattern_to_expressions("a[bc").err(), Some(PatternError::UnterminatedCharacterClass));
    assert_eq!(pattern_to_expressions("[").err(), Some(PatternError::UnterminatedCharacterClass));
    assert_eq!(pattern_to_expressions("[^").err(), Some(PatternError::UnterminatedCharacterClass));
}

#[test]
fn unterminated_group_is_an_error() {
    assert_eq!(pattern_to_expressions("(a|b").err(), Some(PatternError::UnterminatedGroup));
}

#[test]
fn quantifier_without_atom_is_an_error() {
    assert_eq!(pattern_to_expressions("*a").err(), Some(PatternError::QuantifierWithoutAtom));
    assert_eq!(pattern_to_expressions("(+a)").err(), Some(PatternError::QuantifierWithoutAtom));
}

#[test]
fn nested_group_is_an_error() {
    assert_eq!(pattern_to_expressions("((a)|b)").err(), Some(PatternError::NestedGroup));
}

#[test]
fn stray_delimiters_are_literals() {
    assert_eq!(find("a)|", "xa)|"), Some(vec![1, 2, 3]));
    assert_eq!(find("]", "]"), Some(vec![0]));
}

#[test]
fn boolean_variant_agrees() {
    let e = compiled("\\d+");
    assert!(is_match("abc 42", &e));
    assert!(!is_match("abc", &e));
}

#[test]
fn matching_from_a_fixed_offset() {
    let line = chars_of("xab");
    let e = compiled("ab");
    assert_eq!(match_pattern_from(&line, &e, 1), Some(vec![1, 2]));
    assert_eq!(match_pattern_from(&line, &e, 0), None);
    assert_eq!(match_pattern_from(&line, &e, 9), None);
    assert_eq!(match_pattern_from(&line, &compiled("$"), 3), Some(vec![]));
}

#[test]
fn appending_offsets() {
    assert_eq!(append_to_result(vec![1, 2], vec![3]), vec![1, 2, 3]);
    assert_eq!(append_to_result(vec![], vec![]), Vec::<usize>::new());
}

#[test]
fn characters_of_a_string() {
    assert_eq!(chars_of("a\u{e9}b"), vec!['a', '\u{e9}', 'b']);
    assert!(chars_of("").is_empty());
}

#[test]
fn marks_follow_offsets() {
    assert_eq!(highlight_marks("abcd", &vec![1, 2]), vec![false, true, true, false]);
    assert_eq!(highlight_marks("ab", &vec![]), vec![false, false]);
    assert_eq!(highlight_marks("", &vec![0]), Vec::<bool>::new());
}
