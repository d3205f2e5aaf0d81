use pattern_matcher::expr::matcher::{ExprExtension, TerminalMatcher};
use pattern_matcher::expr::music::{
    Duration, DurationRule, IntervalAmount, IntervalRule, Note, NoteEvent, NoteExpr, NoteMatcher,
    NoteRule,
};

fn note(event: NoteEvent, duration: u8) -> Note {
    Note { event, duration }
}

fn rule(interval: Vec<IntervalRule>, duration: Vec<DurationRule>) -> NoteRule {
    NoteRule { interval, duration }
}

fn any_note() -> NoteExpr {
    NoteExpr::Note(rule(vec![IntervalRule::Any], vec![DurationRule::Any]))
}

fn rest_note() -> NoteExpr {
    NoteExpr::Note(rule(vec![IntervalRule::Rest], vec![DurationRule::Any]))
}

fn step_up() -> NoteExpr {
    NoteExpr::Note(rule(
        vec![IntervalRule::Up(IntervalAmount::MajorSecond)],
        vec![DurationRule::Exact(Duration::Quarter)],
    ))
}

#[test]
fn half_steps_of_every_interval() {
    let expected: [(IntervalAmount, i8); 13] = [
        (IntervalAmount::Unison, 0),
        (IntervalAmount::MinorSecond, 1),
        (IntervalAmount::MajorSecond, 2),
        (IntervalAmount::MinorThird, 3),
        (IntervalAmount::MajorThird, 4),
        (IntervalAmount::PerfectFourth, 5),
        (IntervalAmount::Tritone, 6),
        (IntervalAmount::PerfectFifth, 7),
        (IntervalAmount::MinorSixth, 8),
        (IntervalAmount::MajorSixth, 9),
        (IntervalAmount::MinorSeventh, 10),
        (IntervalAmount::MajorSeventh, 11),
        (IntervalAmount::Octave, 12),
    ];
    for (amount, steps) in expected {
        assert_eq!(amount.as_half_steps(), steps);
    }
}

#[test]
fn ticks_of_every_duration() {
    let expected: [(Duration, u8); 12] = [
        (Duration::Whole, 192),
        (Duration::Half, 96),
        (Duration::Third, 64),
        (Duration::Quarter, 48),
        (Duration::Sixth, 32),
        (Duration::Eighth, 24),
        (Duration::Twelfth, 16),
        (Duration::Sixteenth, 12),
        (Duration::TwentyFourth, 8),
        (Duration::ThirtySecond, 6),
        (Duration::FortyEighth, 4),
        (Duration::SixtyFourth, 3),
    ];
    for (duration, ticks) in expected {
        assert_eq!(duration.as_ticks(), ticks);
    }
}

#[test]
fn interval_rules_admit_their_events() {
    assert!(IntervalRule::Any.matches(&NoteEvent::Rest));
    assert!(IntervalRule::Any.matches(&NoteEvent::Interval(-3)));
    assert!(IntervalRule::Up(IntervalAmount::PerfectFifth).matches(&NoteEvent::Interval(7)));
    assert!(!IntervalRule::Up(IntervalAmount::PerfectFifth).matches(&NoteEvent::Interval(-7)));
    assert!(!IntervalRule::Up(IntervalAmount::PerfectFifth).matches(&NoteEvent::Interval(6)));
    assert!(!IntervalRule::Up(IntervalAmount::PerfectFifth).matches(&NoteEvent::Rest));
    assert!(IntervalRule::Down(IntervalAmount::Octave).matches(&NoteEvent::Interval(-12)));
    assert!(!IntervalRule::Down(IntervalAmount::Octave).matches(&NoteEvent::Interval(12)));
    assert!(!IntervalRule::Down(IntervalAmount::Octave).matches(&NoteEvent::Last));
    assert!(IntervalRule::Up(IntervalAmount::Unison).matches(&NoteEvent::Interval(0)));
    assert!(IntervalRule::Down(IntervalAmount::Unison).matches(&NoteEvent::Interval(0)));
    assert!(IntervalRule::Rest.matches(&NoteEvent::Rest));
    assert!(!IntervalRule::Rest.matches(&NoteEvent::Last));
    assert!(!IntervalRule::Rest.matches(&NoteEvent::Interval(0)));
    assert!(IntervalRule::Last.matches(&NoteEvent::Last));
    assert!(!IntervalRule::Last.matches(&NoteEvent::Rest));
}

#[test]
fn duration_rules_admit_their_durations() {
    assert!(DurationRule::Any.matches(0));
    assert!(DurationRule::Any.matches(255));
    assert!(DurationRule::Exact(Duration::Quarter).matches(48));
    assert!(!DurationRule::Exact(Duration::Quarter).matches(47));
    assert!(!DurationRule::Exact(Duration::Quarter).matches(96));
    assert!(DurationRule::MultipleOf(Duration::Eighth).matches(24));
    assert!(DurationRule::MultipleOf(Duration::Eighth).matches(72));
    assert!(DurationRule::MultipleOf(Duration::Eighth).matches(0));
    assert!(!DurationRule::MultipleOf(Duration::Eighth).matches(36));
    assert!(DurationRule::DoublingOf(Duration::Eighth).matches(48));
    assert!(DurationRule::DoublingOf(Duration::Eighth).matches(96));
    assert!(!DurationRule::DoublingOf(Duration::Eighth).matches(24));
    assert!(!DurationRule::DoublingOf(Duration::Eighth).matches(72));
    assert!(DurationRule::ExactPlusMultipleOf(Duration::SixtyFourth, Duration::Quarter).matches(3));
    assert!(DurationRule::ExactPlusMultipleOf(Duration::SixtyFourth, Duration::Quarter).matches(96));
    assert!(!DurationRule::ExactPlusMultipleOf(Duration::SixtyFourth, Duration::Quarter).matches(6));
}

#[test]
fn doubling_of_a_whole_note_exceeds_every_duration_but_zero() {
    assert!(DurationRule::DoublingOf(Duration::Whole).matches(0));
    assert!(!DurationRule::DoublingOf(Duration::Whole).matches(128));
    assert!(!DurationRule::DoublingOf(Duration::Whole).matches(192));
    assert!(!DurationRule::DoublingOf(Duration::Whole).matches(255));
    assert!(DurationRule::DoublingOf(Duration::Half).matches(192));
    assert!(!DurationRule::DoublingOf(Duration::Half).matches(96));
}

#[test]
fn note_matcher_needs_an_interval_rule_and_a_duration_rule() {
    let matcher = NoteMatcher {
        rule: rule(
            vec![IntervalRule::Rest, IntervalRule::Up(IntervalAmount::MinorThird)],
            vec![DurationRule::Exact(Duration::Half), DurationRule::Exact(Duration::Quarter)],
        ),
    };
    assert!(matcher.matches(&note(NoteEvent::Rest, 96)));
    assert!(matcher.matches(&note(NoteEvent::Interval(3), 48)));
    assert!(!matcher.matches(&note(NoteEvent::Interval(4), 48)));
    assert!(!matcher.matches(&note(NoteEvent::Rest, 24)));
    assert!(!matcher.matches(&note(NoteEvent::Last, 96)));
}

#[test]
fn note_matcher_without_rules_accepts_nothing() {
    let no_interval = NoteMatcher { rule: rule(vec![], vec![DurationRule::Any]) };
    let no_duration = NoteMatcher { rule: rule(vec![IntervalRule::Any], vec![]) };
    assert!(!no_interval.matches(&note(NoteEvent::Rest, 48)));
    assert!(!no_duration.matches(&note(NoteEvent::Rest, 48)));
}

#[test]
fn cloned_rule_holds_the_same_rules() {
    let original = rule(
        vec![IntervalRule::Last, IntervalRule::Down(IntervalAmount::Tritone)],
        vec![DurationRule::MultipleOf(Duration::Sixteenth)],
    );
    let copy = original.clone();
    assert_eq!(copy.interval.len(), 2);
    assert!(matches!(copy.interval[0], IntervalRule::Last));
    assert!(matches!(copy.interval[1], IntervalRule::Down(IntervalAmount::Tritone)));
    assert_eq!(copy.duration.len(), 1);
    assert!(matches!(copy.duration[0], DurationRule::MultipleOf(Duration::Sixteenth)));
    assert_eq!(original.interval.len(), 2);
}

#[test]
fn note_sequence_and_choice() {
    let expr = (step_up() + step_up() | rest_note()).into_core_expr();
    let matcher = expr.compile();
    let up = note(NoteEvent::Interval(2), 48);
    let rest = note(NoteEvent::Rest, 12);
    assert!(matcher.match_sequence(&[up.clone(), up.clone()]));
    assert!(matcher.match_sequence(&[rest.clone()]));
    assert!(!matcher.match_sequence(&[up.clone()]));
    assert!(!matcher.match_sequence(&[up.clone(), rest.clone()]));
    assert!(!matcher.match_sequence(&[]));
}

#[test]
fn one_or_more_needs_at_least_one() {
    let expr = NoteExpr::OneOrMore(Box::new(step_up())).into_core_expr();
    let matcher = expr.compile();
    let up = note(NoteEvent::Interval(2), 48);
    let down = note(NoteEvent::Interval(-2), 48);
    assert!(!matcher.match_sequence(&[]));
    assert!(matcher.match_sequence(&[up.clone()]));
    assert!(matcher.match_sequence(&[up.clone(), up.clone(), up.clone()]));
    assert!(!matcher.match_sequence(&[up.clone(), down.clone()]));
    assert!(!matcher.match_sequence(&[down]));
}

#[test]
fn zero_or_one_takes_at_most_one() {
    let expr = (NoteExpr::ZeroOrOne(Box::new(rest_note())) + step_up()).into_core_expr();
    let matcher = expr.compile();
    let up = note(NoteEvent::Interval(2), 48);
    let rest = note(NoteEvent::Rest, 96);
    assert!(matcher.match_sequence(&[up.clone()]));
    assert!(matcher.match_sequence(&[rest.clone(), up.clone()]));
    assert!(!matcher.match_sequence(&[rest.clone(), rest.clone(), up.clone()]));
    assert!(!matcher.match_sequence(&[rest]));
}

#[test]
fn note_repeat_and_null() {
    let phrase = NoteExpr::Sequence(vec![
        NoteExpr::Repeat(Box::new(any_note())),
        NoteExpr::Note(rule(vec![IntervalRule::Last], vec![DurationRule::Any])),
        NoteExpr::Null,
    ]);
    let expr = phrase.into_core_expr();
    let matcher = expr.compile();
    let last = note(NoteEvent::Last, 192);
    let up = note(NoteEvent::Interval(5), 24);
    assert!(matcher.match_sequence(&[last.clone()]));
    assert!(matcher.match_sequence(&[up.clone(), up.clone(), last.clone()]));
    assert!(!matcher.match_sequence(&[up.clone(), up.clone()]));
    assert!(!matcher.match_sequence(&[]));
}
