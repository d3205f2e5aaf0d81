use pattern_matcher::expr::char::{CharExpr, CharMatcher, CharRule};
use pattern_matcher::expr::matcher::{CoreExpr, ExprExtension, TerminalMatcher};

fn as_slice(s: &str) -> Vec<char> {
    s.chars().collect()
}

#[test]
fn test_single_terminal() {
    let expr = CharExpr::Char('a').into_core_expr();
    let matcher = expr.compile();
    assert!(matcher.match_sequence(&as_slice("a")));
    assert!(!matcher.match_sequence(&as_slice("b")));
}

#[test]
fn test_sequence_of_terminal() {
    let expr = (CharExpr::Char('a') + CharExpr::Char('b')).into_core_expr();
    let matcher = expr.compile();
    assert!(matcher.match_sequence(&as_slice("ab")));
    assert!(!matcher.match_sequence(&as_slice("a")));
    assert!(!matcher.match_sequence(&as_slice("aa")));
    assert!(!matcher.match_sequence(&as_slice("abc")));
    assert!(!matcher.match_sequence(&as_slice("ba")));
}

#[test]
fn test_choice_of_terminal() {
    let expr = (CharExpr::Char('a') | CharExpr::Char('b')).into_core_expr();
    let matcher = expr.compile();
    assert!(matcher.match_sequence(&as_slice("a")));
    assert!(matcher.match_sequence(&as_slice("b")));
    assert!(!matcher.match_sequence(&as_slice("c")));
}

#[test]
fn test_choice_of_sequence() {
    let expr = (CharExpr::Char('a') + CharExpr::Char('b') | CharExpr::Char('c')).into_core_expr();
    let matcher = expr.compile();
    assert!(matcher.match_sequence(&as_slice("ab")));
    assert!(matcher.match_sequence(&as_slice("c")));
    assert!(!matcher.match_sequence(&as_slice("a")));
    assert!(!matcher.match_sequence(&as_slice("b")));
    assert!(!matcher.match_sequence(&as_slice("ac")));
    assert!(!matcher.match_sequence(&as_slice("bc")));
}

#[test]
fn test_repeat() {
    let expr = CharExpr::Repeat(Box::new(CharExpr::Char('a'))).into_core_expr();
    let matcher = expr.compile();
    println!("{:?}", matcher);
    assert!(matcher.match_sequence(&as_slice("")));
    assert!(matcher.match_sequence(&as_slice("a")));
    assert!(matcher.match_sequence(&as_slice("aa")));
    assert!(matcher.match_sequence(&as_slice("aaa")));
    assert!(!matcher.match_sequence(&as_slice("b")));
    assert!(!matcher.match_sequence(&as_slice("ab")));
}

#[test]
fn test_null() {
    let expr = CharExpr::Null.into_core_expr();
    let matcher = expr.compile();
    assert!(matcher.match_sequence(&as_slice("")));
    assert!(!matcher.match_sequence(&as_slice("a")));
}

#[test]
fn test_repeat_of_sequence() {
    let expr = CharExpr::Repeat(Box::new(CharExpr::Char('a') + CharExpr::Char('b'))).into_core_expr();
    let matcher = expr.compile();
    assert!(matcher.match_sequence(&as_slice("")));
    assert!(matcher.match_sequence(&as_slice("ab")));
    assert!(matcher.match_sequence(&as_slice("abab")));
    assert!(matcher.match_sequence(&as_slice("ababab")));
    assert!(!matcher.match_sequence(&as_slice("a")));
    assert!(!matcher.match_sequence(&as_slice("b")));
    assert!(!matcher.match_sequence(&as_slice("aba")));
    assert!(!matcher.match_sequence(&as_slice("abb")));
}

#[test]
fn test_repeat_of_choice() {
    let expr = CharExpr::Repeat(Box::new(CharExpr::Char('a') | CharExpr::Char('b'))).into_core_expr();
    let matcher = expr.compile();
    assert!(matcher.match_sequence(&as_slice("")));
    assert!(matcher.match_sequence(&as_slice("a")));
    assert!(matcher.match_sequence(&as_slice("b")));
    assert!(matcher.match_sequence(&as_slice("aa")));
    assert!(matcher.match_sequence(&as_slice("ab")));
    assert!(matcher.match_sequence(&as_slice("ba")));
    assert!(matcher.match_sequence(&as_slice("bb")));
    assert!(!matcher.match_sequence(&as_slice("c")));
    assert!(!matcher.match_sequence(&as_slice("ac")));
    assert!(!matcher.match_sequence(&as_slice("abc")));
}

#[test]
fn single_char_rejects_longer_and_empty_input() {
    let expr = CharExpr::Char('a').into_core_expr();
    let matcher = expr.compile();
    assert!(!matcher.match_sequence(&as_slice("aa")));
    assert!(!matcher.match_sequence(&as_slice("")));
}

#[test]
fn char_rule_matches_only_its_char() {
    let matcher = CharMatcher { rule: CharRule::Char('x') };
    assert!(matcher.matches(&'x'));
    assert!(!matcher.matches(&'y'));
    assert!(!matcher.matches(&'X'));
}

#[test]
fn alpha_rule_follows_unicode_alphabetic() {
    let matcher = CharMatcher { rule: CharRule::Alpha };
    assert!(matcher.matches(&'a'));
    assert!(matcher.matches(&'Z'));
    assert!(matcher.matches(&'é'));
    assert!(!matcher.matches(&'1'));
    assert!(!matcher.matches(&' '));
    assert!(!matcher.matches(&'-'));
}

#[test]
fn num_rule_follows_unicode_numeric() {
    let matcher = CharMatcher { rule: CharRule::Num };
    assert!(matcher.matches(&'0'));
    assert!(matcher.matches(&'9'));
    assert!(matcher.matches(&'٣'));
    assert!(!matcher.matches(&'a'));
    assert!(!matcher.matches(&' '));
}

#[test]
fn whitespace_rule_follows_unicode_white_space() {
    let matcher = CharMatcher { rule: CharRule::Whitespace };
    assert!(matcher.matches(&' '));
    assert!(matcher.matches(&'\t'));
    assert!(matcher.matches(&'\n'));
    assert!(matcher.matches(&'\u{00A0}'));
    assert!(!matcher.matches(&'a'));
    assert!(!matcher.matches(&'0'));
}

#[test]
fn char_classes_in_a_pattern() {
    let word = CharExpr::Alpha + CharExpr::Repeat(Box::new(CharExpr::Alpha));
    let number = CharExpr::Num + CharExpr::Repeat(Box::new(CharExpr::Num));
    let expr = CharExpr::Sequence(vec![word, CharExpr::Whitespace, number]).into_core_expr();
    let matcher = expr.compile();
    assert!(matcher.match_sequence(&as_slice("abc 123")));
    assert!(matcher.match_sequence(&as_slice("a\t1")));
    assert!(!matcher.match_sequence(&as_slice("abc123")));
    assert!(!matcher.match_sequence(&as_slice("123 abc")));
    assert!(!matcher.match_sequence(&as_slice("abc ")));
}

#[test]
fn add_builds_a_sequence_of_both_operands() {
    match CharExpr::Char('a') + CharExpr::Char('b') {
        CharExpr::Sequence(items) => {
            assert_eq!(items.len(), 2);
            assert!(matches!(items[0], CharExpr::Char('a')));
            assert!(matches!(items[1], CharExpr::Char('b')));
        }
        _ => panic!("a sequence was expected"),
    }
}

#[test]
fn bitor_builds_a_choice_between_both_operands() {
    match CharExpr::Char('a') | CharExpr::Char('b') {
        CharExpr::Choice(items) => {
            assert_eq!(items.len(), 2);
            assert!(matches!(items[0], CharExpr::Char('a')));
            assert!(matches!(items[1], CharExpr::Char('b')));
        }
        _ => panic!("a choice was expected"),
    }
}

#[test]
fn lowering_keeps_the_shape_of_the_expression() {
    let expr = CharExpr::Repeat(Box::new(CharExpr::Char('a') | CharExpr::Null)).into_core_expr();
    match expr {
        CoreExpr::Repeat(body) => match *body {
            CoreExpr::Choice(items) => {
                assert_eq!(items.len(), 2);
                assert!(matches!(
                    items[0],
                    CoreExpr::Terminal(CharMatcher { rule: CharRule::Char('a') })
                ));
                assert!(matches!(items[1], CoreExpr::Null));
            }
            _ => panic!("a choice was expected"),
        },
        _ => panic!("a repetition was expected"),
    }
}
