use pattern_matcher::expr::char::{CharMatcher, CharRule};
use pattern_matcher::expr::matcher::{CoreExpr, Matcher};

fn chars(s: &str) -> Vec<char> {
    s.chars().collect()
}

fn ch(c: char) -> CoreExpr<CharMatcher> {
    CoreExpr::Terminal(CharMatcher { rule: CharRule::Char(c) })
}

fn star(e: CoreExpr<CharMatcher>) -> CoreExpr<CharMatcher> {
    CoreExpr::Repeat(Box::new(e))
}

#[test]
fn terminal_matches_one_accepted_terminal() {
    let digit = CoreExpr::Terminal(CharMatcher { rule: CharRule::Num });
    let matcher = digit.compile();
    assert!(matcher.match_sequence(&['7']));
    assert!(!matcher.match_sequence(&['x']));
    assert!(!matcher.match_sequence(&[]));
    assert!(!matcher.match_sequence(&['7', '7']));
}

#[test]
fn sequence_matches_every_split_into_prefix_and_suffix() {
    let expr = CoreExpr::Sequence(vec![star(ch('a')), ch('b')]);
    let matcher = expr.compile();
    assert!(matcher.match_sequence(&chars("b")));
    assert!(matcher.match_sequence(&chars("ab")));
    assert!(matcher.match_sequence(&chars("aaab")));
    assert!(!matcher.match_sequence(&chars("")));
    assert!(!matcher.match_sequence(&chars("a")));
    assert!(!matcher.match_sequence(&chars("ba")));
    assert!(!matcher.match_sequence(&chars("abb")));
}

#[test]
fn sequence_of_three_threads_its_elements() {
    let expr = CoreExpr::Sequence(vec![ch('a'), star(ch('b')), ch('c')]);
    let matcher = expr.compile();
    assert!(matcher.match_sequence(&chars("ac")));
    assert!(matcher.match_sequence(&chars("abc")));
    assert!(matcher.match_sequence(&chars("abbbc")));
    assert!(!matcher.match_sequence(&chars("a")));
    assert!(!matcher.match_sequence(&chars("abca")));
    assert!(!matcher.match_sequence(&chars("bc")));
}

#[test]
fn choice_does_not_depend_on_the_order_of_its_alternatives() {
    let one = CoreExpr::Choice(vec![CoreExpr::Sequence(vec![ch('a'), ch('b')]), ch('c')]);
    let other = CoreExpr::Choice(vec![ch('c'), CoreExpr::Sequence(vec![ch('a'), ch('b')])]);
    let first = one.compile();
    let second = other.compile();
    for input in ["", "a", "b", "c", "ab", "ac", "abc", "cab"] {
        let sequence = chars(input);
        let expected = input == "ab" || input == "c";
        assert_eq!(first.match_sequence(&sequence), expected);
        assert_eq!(second.match_sequence(&sequence), expected);
    }
}

#[test]
fn repeat_matches_any_number_of_copies() {
    let body = CoreExpr::Sequence(vec![ch('x'), ch('y'), ch('z')]);
    let matcher_of_body = body.compile();
    assert!(matcher_of_body.match_sequence(&chars("xyz")));
    let expr = star(CoreExpr::Sequence(vec![ch('x'), ch('y'), ch('z')]));
    let matcher = expr.compile();
    let mut input: Vec<char> = Vec::new();
    for _ in 0..6 {
        assert!(matcher.match_sequence(&input));
        input.extend(chars("xyz"));
    }
    assert!(!matcher.match_sequence(&chars("xy")));
    assert!(!matcher.match_sequence(&chars("xyzx")));
}

#[test]
fn null_matches_the_empty_sequence_only() {
    let expr: CoreExpr<CharMatcher> = CoreExpr::Null;
    let matcher = expr.compile();
    assert!(matcher.match_sequence(&[]));
    assert!(!matcher.match_sequence(&['a']));
    assert!(!matcher.match_sequence(&['a', 'b']));
}

#[test]
fn compiling_and_matching_twice_gives_the_same_answer() {
    let expr = star(CoreExpr::Choice(vec![ch('a'), CoreExpr::Sequence(vec![ch('b'), ch('c')])]));
    let first = expr.compile();
    let second = Matcher::new(&expr);
    for input in ["", "a", "bc", "abc", "bca", "b", "cb", "aabcbca"] {
        let sequence = chars(input);
        let answer = first.match_sequence(&sequence);
        assert_eq!(first.match_sequence(&sequence), answer);
        assert_eq!(second.match_sequence(&sequence), answer);
    }
    assert!(first.match_sequence(&chars("aabcbca")));
    assert!(!first.match_sequence(&chars("cb")));
}

#[test]
fn empty_sequence_pattern_matches_the_empty_sequence_only() {
    let expr: CoreExpr<CharMatcher> = CoreExpr::Sequence(Vec::new());
    let matcher = expr.compile();
    assert!(matcher.match_sequence(&[]));
    assert!(!matcher.match_sequence(&['a']));
}

#[test]
fn empty_choice_matches_nothing() {
    let expr: CoreExpr<CharMatcher> = CoreExpr::Choice(Vec::new());
    let matcher = expr.compile();
    assert!(!matcher.match_sequence(&[]));
    assert!(!matcher.match_sequence(&['a']));
}

#[test]
fn choice_keeps_both_terminals_between_the_same_states() {
    let expr = CoreExpr::Sequence(vec![CoreExpr::Choice(vec![ch('a'), ch('b')]), ch('c')]);
    let matcher = expr.compile();
    assert!(matcher.match_sequence(&chars("ac")));
    assert!(matcher.match_sequence(&chars("bc")));
    assert!(!matcher.match_sequence(&chars("cc")));
    assert!(!matcher.match_sequence(&chars("abc")));
}

#[test]
fn input_after_a_dead_end_is_rejected() {
    let expr = CoreExpr::Sequence(vec![ch('a'), ch('b')]);
    let matcher = expr.compile();
    assert!(!matcher.match_sequence(&chars("xab")));
    assert!(!matcher.match_sequence(&chars("axb")));
    assert!(!matcher.match_sequence(&chars("abx")));
}

#[test]
fn nested_null_elements_consume_nothing() {
    let expr = CoreExpr::Sequence(vec![CoreExpr::Null, ch('a'), CoreExpr::Null]);
    let matcher = expr.compile();
    assert!(matcher.match_sequence(&chars("a")));
    assert!(!matcher.match_sequence(&chars("")));
    assert!(!matcher.match_sequence(&chars("aa")));
}

#[test]
fn choice_of_repeats_shares_the_loop_states() {
    let expr = CoreExpr::Choice(vec![star(ch('a')), star(ch('b'))]);
    let matcher = expr.compile();
    assert!(matcher.match_sequence(&chars("")));
    assert!(matcher.match_sequence(&chars("a")));
    assert!(matcher.match_sequence(&chars("aaa")));
    assert!(matcher.match_sequence(&chars("b")));
    assert!(!matcher.match_sequence(&chars("c")));
    // Both alternatives loop through the same two states, so a walk may
    // change from one to the other.
    assert!(matcher.match_sequence(&chars("ab")));
    assert!(matcher.match_sequence(&chars("bbbba")));
}

#[test]
fn adjacent_repeats_in_a_sequence_share_a_state() {
    let expr = CoreExpr::Sequence(vec![star(ch('a')), star(ch('b'))]);
    let matcher = expr.compile();
    assert!(matcher.match_sequence(&chars("")));
    assert!(matcher.match_sequence(&chars("aab")));
    assert!(matcher.match_sequence(&chars("bb")));
    assert!(!matcher.match_sequence(&chars("c")));
    // The state between the two loops belongs to both of them.
    assert!(matcher.match_sequence(&chars("ba")));
}

#[test]
fn repeats_apart_in_a_sequence_stay_apart() {
    let expr = CoreExpr::Sequence(vec![star(ch('a')), ch('-'), star(ch('b'))]);
    let matcher = expr.compile();
    assert!(matcher.match_sequence(&chars("-")));
    assert!(matcher.match_sequence(&chars("aa-bbb")));
    assert!(!matcher.match_sequence(&chars("ab")));
    assert!(!matcher.match_sequence(&chars("b-a")));
    assert!(!matcher.match_sequence(&chars("a-b-")));
}
