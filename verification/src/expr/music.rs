//! Patterns over notes: a note carries an event and a duration, and a
//! note rule admits events and durations.
use super::matcher::{CoreExpr, ExprExtension, TerminalMatcher};
use super::pattern::Pattern;
use vstd::prelude::*;

verus! {

#[derive(Debug, Clone)]
pub enum NoteEvent {
    Interval(i8),
    Rest,
    Last,
}

#[derive(Debug, Clone)]
pub struct Note {
    pub event: NoteEvent,
    /// In MIDI ticks.
    pub duration: u8,
}

#[derive(Debug, Clone, Copy)]
pub enum IntervalAmount {
    Unison,
    MinorSecond,
    MajorSecond,
    MinorThird,
    MajorThird,
    PerfectFourth,
    Tritone,
    PerfectFifth,
    MinorSixth,
    MajorSixth,
    MinorSeventh,
    MajorSeventh,
    Octave,
}

impl IntervalAmount {
    /// The size of the interval in half steps.
    pub open spec fn half_steps(self) -> int {
        match self {
            IntervalAmount::Unison => 0,
            IntervalAmount::MinorSecond => 1,
            IntervalAmount::MajorSecond => 2,
            IntervalAmount::MinorThird => 3,
            IntervalAmount::MajorThird => 4,
            IntervalAmount::PerfectFourth => 5,
            IntervalAmount::Tritone => 6,
            IntervalAmount::PerfectFifth => 7,
            IntervalAmount::MinorSixth => 8,
            IntervalAmount::MajorSixth => 9,
            IntervalAmount::MinorSeventh => 10,
            IntervalAmount::MajorSeventh => 11,
            IntervalAmount::Octave => 12,
        }
    }

    pub fn as_half_steps(&self) -> (steps: i8)
        ensures
            steps == self.half_steps(),
    {
        match self {
            IntervalAmount::Unison => 0,
            IntervalAmount::MinorSecond => 1,
            IntervalAmount::MajorSecond => 2,
            IntervalAmount::MinorThird => 3,
            IntervalAmount::MajorThird => 4,
            IntervalAmount::PerfectFourth => 5,
            IntervalAmount::Tritone => 6,
            IntervalAmount::PerfectFifth => 7,
            IntervalAmount::MinorSixth => 8,
            IntervalAmount::MajorSixth => 9,
            IntervalAmount::MinorSeventh => 10,
            IntervalAmount::MajorSeventh => 11,
            IntervalAmount::Octave => 12,
        }
    }
}

#[derive(Debug, Clone, Copy)]
pub enum IntervalRule {
    Any,
    Up(IntervalAmount),
    Down(IntervalAmount),
    Rest,
    Last,
}

impl IntervalRule {
    /// The events that the rule admits.
    pub open spec fn admits(self, event: NoteEvent) -> bool {
        match self {
            IntervalRule::Any => true,
            IntervalRule::Up(amount) => event == NoteEvent::Interval(amount.half_steps() as i8),
            IntervalRule::Down(amount) => event == NoteEvent::Interval((-amount.half_steps()) as i8),
            IntervalRule::Rest => event is Rest,
            IntervalRule::Last => event is Last,
        }
    }

    /// Whether the rule admits `event`.
    pub fn matches(&self, event: &NoteEvent) -> (admitted: bool)
        ensures
            admitted == self.admits(*event),
    {
        match self {
            IntervalRule::Any => true,
            IntervalRule::Up(interval) => match event {
                NoteEvent::Interval(interval_amount) => interval.as_half_steps()
                    == *interval_amount,
                _ => false,
            },
            IntervalRule::Down(interval) => match event {
                NoteEvent::Interval(interval_amount) => -interval.as_half_steps()
                    == *interval_amount,
                _ => false,
            },
            IntervalRule::Rest => match event {
                NoteEvent::Rest => true,
                _ => false,
            },
            IntervalRule::Last => match event {
                NoteEvent::Last => true,
                _ => false,
            },
        }
    }
}

#[derive(Debug, Clone, Copy)]
pub enum Duration {
    Whole,
    Half,
    Third,
    Quarter,
    Sixth,
    Eighth,
    Twelfth,
    Sixteenth,
    TwentyFourth,
    ThirtySecond,
    FortyEighth,
    SixtyFourth,
}

impl Duration {
    /// The duration in ticks, where a quarter note has 48.
    pub open spec fn ticks(self) -> int {
        match self {
            Duration::Whole => 192,
            Duration::Half => 96,
            Duration::Third => 64,
            Duration::Quarter => 48,
            Duration::Sixth => 32,
            Duration::Eighth => 24,
            Duration::Twelfth => 16,
            Duration::Sixteenth => 12,
            Duration::TwentyFourth => 8,
            Duration::ThirtySecond => 6,
            Duration::FortyEighth => 4,
            Duration::SixtyFourth => 3,
        }
    }

    pub fn as_ticks(&self) -> (ticks: u8)
        ensures
            ticks == self.ticks(),
    {
        match self {
            Duration::Whole => 192,
            Duration::Half => 96,
            Duration::Third => 64,
            Duration::Quarter => 48,
            Duration::Sixth => 32,
            Duration::Eighth => 24,
            Duration::Twelfth => 16,
            Duration::Sixteenth => 12,
            Duration::TwentyFourth => 8,
            Duration::ThirtySecond => 6,
            Duration::FortyEighth => 4,
            Duration::SixtyFourth => 3,
        }
    }
}

#[derive(Debug, Clone, Copy)]
pub enum DurationRule {
    Any,
    Exact(Duration),
    MultipleOf(Duration),
    DoublingOf(Duration),
    ExactPlusMultipleOf(Duration, Duration),
}

impl DurationRule {
    /// The durations, in ticks, that the rule admits.
    pub open spec fn admits(self, duration: u8) -> bool {
        match self {
            DurationRule::Any => true,
            DurationRule::Exact(exact) => duration == exact.ticks(),
            DurationRule::MultipleOf(unit) => duration as int % unit.ticks() == 0,
            DurationRule::DoublingOf(unit) => duration as int % (2 * unit.ticks()) == 0,
            DurationRule::ExactPlusMultipleOf(exact, unit) => duration == exact.ticks()
                || duration as int % unit.ticks() == 0,
        }
    }

    /// Whether the rule admits `duration`.
    pub fn matches(&self, duration: u8) -> (admitted: bool)
        ensures
            admitted == self.admits(duration),
    {
        match self {
            DurationRule::Any => true,
            DurationRule::Exact(exact) => duration == exact.as_ticks(),
            DurationRule::MultipleOf(unit) => duration % unit.as_ticks() == 0,
            DurationRule::DoublingOf(unit) => {
                let doubled: u16 = 2 * (unit.as_ticks() as u16);
                (duration as u16) % doubled == 0
            },
            DurationRule::ExactPlusMultipleOf(exact, unit) => duration == exact.as_ticks()
                || duration % unit.as_ticks() == 0,
        }
    }
}

#[derive(Debug)]
pub struct NoteRule {
    pub interval: Vec<IntervalRule>,
    pub duration: Vec<DurationRule>,
}

impl View for NoteRule {
    type V = (Seq<IntervalRule>, Seq<DurationRule>);

    open spec fn view(&self) -> (Seq<IntervalRule>, Seq<DurationRule>) {
        (self.interval@, self.duration@)
    }
}

impl Clone for NoteRule {
    fn clone(&self) -> (rule: Self)
        ensures
            rule@ == self@,
    {
        let mut interval: Vec<IntervalRule> = Vec::new();
        let mut i: usize = 0;
        while i < self.interval.len()
            invariant
                i <= self.interval@.len(),
                interval@ == self.interval@.take(i as int),
            decreases self.interval@.len() - i,
        {
            interval.push(self.interval[i]);
            assert(self.interval@.take(i + 1) =~= self.interval@.take(i as int).push(
                self.interval@[i as int],
            ));
            i += 1;
        }
        let mut duration: Vec<DurationRule> = Vec::new();
        let mut j: usize = 0;
        while j < self.duration.len()
            invariant
                j <= self.duration@.len(),
                duration@ == self.duration@.take(j as int),
            decreases self.duration@.len() - j,
        {
            duration.push(self.duration[j]);
            assert(self.duration@.take(j + 1) =~= self.duration@.take(j as int).push(
                self.duration@[j as int],
            ));
            j += 1;
        }
        NoteRule { interval, duration }
    }
}

#[derive(Debug, Clone)]
pub struct NoteMatcher {
    pub rule: NoteRule,
}

impl NoteMatcher {
    /// One of the first `upto` interval rules admits `event`.
    pub open spec fn interval_admitted(&self, upto: int, event: NoteEvent) -> bool {
        exists|i: int| 0 <= i < upto && (#[trigger] self.rule.interval@[i]).admits(event)
    }

    /// One of the first `upto` duration rules admits `duration`.
    pub open spec fn duration_admitted(&self, upto: int, duration: u8) -> bool {
        exists|i: int| 0 <= i < upto && (#[trigger] self.rule.duration@[i]).admits(duration)
    }
}

impl TerminalMatcher for NoteMatcher {
    type Terminal = Note;

    /// One of the interval rules admits the note's event, and one of the
    /// duration rules admits its duration.
    open spec fn accepts(&self, terminal: &Note) -> bool {
        self.interval_admitted(self.rule.interval@.len() as int, terminal.event)
            && self.duration_admitted(self.rule.duration@.len() as int, terminal.duration)
    }

    fn matches(&self, terminal: &Note) -> (accepted: bool) {
        let mut interval_found = false;
        let mut i: usize = 0;
        while i < self.rule.interval.len() && !interval_found
            invariant
                i <= self.rule.interval@.len(),
                interval_found == self.interval_admitted(i as int, terminal.event),
            decreases self.rule.interval@.len() - i,
        {
            interval_found = self.rule.interval[i].matches(&terminal.event);
            i += 1;
        }
        let mut duration_found = false;
        let mut j: usize = 0;
        while j < self.rule.duration.len() && !duration_found
            invariant
                j <= self.rule.duration@.len(),
                duration_found == self.duration_admitted(j as int, terminal.duration),
            decreases self.rule.duration@.len() - j,
        {
            duration_found = self.rule.duration[j].matches(terminal.duration);
            j += 1;
        }
        interval_found && duration_found
    }
}

pub enum NoteExpr {
    Note(NoteRule),
    Sequence(Vec<NoteExpr>),
    Choice(Vec<NoteExpr>),
    OneOrMore(Box<NoteExpr>),
    ZeroOrOne(Box<NoteExpr>),
    Repeat(Box<NoteExpr>),
    Null,
}

impl NoteExpr {
    /// `pattern` has the shape that the expression lowers to, with the
    /// rules of each note: a note is a terminal, one or more of `e` is `e`
    /// followed by a repetition of `e`, and zero or one of `e` is the
    /// choice between `e` and the empty pattern.
    pub open spec fn lowers(&self, pattern: Pattern<NoteMatcher>) -> bool
        decreases self,
    {
        match self {
            NoteExpr::Note(rule) => pattern is Terminal && pattern->Terminal_0.rule@ == rule@,
            NoteExpr::Sequence(es) => pattern is Sequence && Self::lower_all(
                es@,
                pattern->Sequence_0,
            ),
            NoteExpr::Choice(es) => pattern is Choice && Self::lower_all(es@, pattern->Choice_0),
            NoteExpr::OneOrMore(e) => {
                &&& pattern is Sequence
                &&& pattern->Sequence_0.len() == 2
                &&& e.lowers(pattern->Sequence_0[0])
                &&& pattern->Sequence_0[1] is Repeat
                &&& e.lowers(*pattern->Sequence_0[1]->Repeat_0)
            },
            NoteExpr::ZeroOrOne(e) => {
                &&& pattern is Choice
                &&& pattern->Choice_0.len() == 2
                &&& e.lowers(pattern->Choice_0[0])
                &&& pattern->Choice_0[1] is Null
            },
            NoteExpr::Repeat(e) => pattern is Repeat && e.lowers(*pattern->Repeat_0),
            NoteExpr::Null => pattern is Null,
        }
    }

    /// Each expression of the list lowers to the pattern at its place.
    pub open spec fn lower_all(es: Seq<NoteExpr>, patterns: Seq<Pattern<NoteMatcher>>) -> bool
        decreases es,
    {
        &&& patterns.len() == es.len()
        &&& forall|i: int| 0 <= i < es.len() ==> (#[trigger] es[i]).lowers(patterns[i])
    }
}

impl ExprExtension<'_, NoteMatcher> for NoteExpr {
    open spec fn lowers_to(&self, pattern: Pattern<NoteMatcher>) -> bool {
        self.lowers(pattern)
    }

    fn into_core_expr(&self) -> (expr: CoreExpr<NoteMatcher>)
        decreases self,
    {
        match self {
            NoteExpr::Note(rule) => CoreExpr::Terminal(NoteMatcher { rule: rule.clone() }),
            NoteExpr::Sequence(exprs) => {
                let mut lowered: Vec<CoreExpr<NoteMatcher>> = Vec::new();
                let mut i: usize = 0;
                while i < exprs.len()
                    invariant
                        i <= exprs@.len(),
                        *self == NoteExpr::Sequence(*exprs),
                        lowered@.len() == i,
                        forall|j: int| 0 <= j < i ==> (#[trigger] exprs@[j]).lowers(lowered@[j]@),
                    decreases exprs@.len() - i,
                {
                    assert(decreases_to!(*self => self->Sequence_0));
                    lowered.push(exprs[i].into_core_expr());
                    i += 1;
                }
                assert(Self::lower_all(exprs@, CoreExpr::patterns(lowered@)));
                CoreExpr::Sequence(lowered)
            },
            NoteExpr::Choice(exprs) => {
                let mut lowered: Vec<CoreExpr<NoteMatcher>> = Vec::new();
                let mut i: usize = 0;
                while i < exprs.len()
                    invariant
                        i <= exprs@.len(),
                        *self == NoteExpr::Choice(*exprs),
                        lowered@.len() == i,
                        forall|j: int| 0 <= j < i ==> (#[trigger] exprs@[j]).lowers(lowered@[j]@),
                    decreases exprs@.len() - i,
                {
                    assert(decreases_to!(*self => self->Choice_0));
                    lowered.push(exprs[i].into_core_expr());
                    i += 1;
                }
                assert(Self::lower_all(exprs@, CoreExpr::patterns(lowered@)));
                CoreExpr::Choice(lowered)
            },
            NoteExpr::OneOrMore(expr) => {
                let once = expr.into_core_expr();
                let more = CoreExpr::Repeat(Box::new(expr.into_core_expr()));
                let both = vec![once, more];
                assert(CoreExpr::patterns(both@)[1] == both@[1]@);
                CoreExpr::Sequence(both)
            },
            NoteExpr::ZeroOrOne(expr) => {
                let once = expr.into_core_expr();
                let both = vec![once, CoreExpr::Null];
                assert(CoreExpr::patterns(both@)[1] == both@[1]@);
                CoreExpr::Choice(both)
            },
            NoteExpr::Repeat(expr) => CoreExpr::Repeat(Box::new(expr.into_core_expr())),
            NoteExpr::Null => CoreExpr::Null,
        }
    }
}

impl vstd::std_specs::ops::AddSpecImpl for NoteExpr {
    /// `+` is specified by the `ensures` of `add`, over the list it builds.
    open spec fn obeys_add_spec() -> bool {
        false
    }

    open spec fn add_req(self, other: NoteExpr) -> bool {
        true
    }

    open spec fn add_spec(self, other: NoteExpr) -> NoteExpr {
        self
    }
}

impl std::ops::Add for NoteExpr {
    type Output = NoteExpr;

    /// The sequence of `self` and `other`.
    fn add(self, other: NoteExpr) -> (expr: NoteExpr)
        ensures
            expr is Sequence,
            expr->Sequence_0@ == seq![self, other],
    {
        NoteExpr::Sequence(vec![self, other])
    }
}

impl vstd::std_specs::ops::BitOrSpecImpl for NoteExpr {
    /// `|` is specified by the `ensures` of `bitor`, over the list it builds.
    open spec fn obeys_bitor_spec() -> bool {
        false
    }

    open spec fn bitor_req(self, other: NoteExpr) -> bool {
        true
    }

    open spec fn bitor_spec(self, other: NoteExpr) -> NoteExpr {
        self
    }
}

impl std::ops::BitOr for NoteExpr {
    type Output = NoteExpr;

    /// The choice between `self` and `other`.
    fn bitor(self, other: NoteExpr) -> (expr: NoteExpr)
        ensures
            expr is Choice,
            expr->Choice_0@ == seq![self, other],
    {
        NoteExpr::Choice(vec![self, other])
    }
}

} // verus!
