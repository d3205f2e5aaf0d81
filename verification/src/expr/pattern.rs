//! The model of an expression tree, the language that it denotes, and the
//! patterns whose automaton accepts exactly that language.
use super::matcher::TerminalMatcher;
use vstd::prelude::*;

verus! {

/// The mathematical model of an expression tree over matchers `M`.
pub enum Pattern<M> {
    /// One terminal, accepted by the matcher.
    Terminal(M),
    /// The patterns one after the other.
    Sequence(Seq<Pattern<M>>),
    /// Any one of the patterns.
    Choice(Seq<Pattern<M>>),
    /// The pattern zero or more times.
    Repeat(Box<Pattern<M>>),
    /// The empty sequence.
    Null,
}

/// The sequences of terminals that a pattern denotes.
pub open spec fn language<M: TerminalMatcher>(e: Pattern<M>, s: Seq<M::Terminal>) -> bool
    decreases e, 0nat,
{
    match e {
        Pattern::Terminal(m) => s.len() == 1 && m.accepts(&s[0]),
        Pattern::Sequence(es) => language_sequence(es, 0, s),
        Pattern::Choice(es) => exists|j: int| 0 <= j < es.len() && language(#[trigger] es[j], s),
        Pattern::Repeat(b) => language_repeat(*b, s),
        Pattern::Null => s.len() == 0,
    }
}

/// `s` is made of one piece for each of the patterns `es[i..]`, in order,
/// each piece in the language of its pattern.
pub open spec fn language_sequence<M: TerminalMatcher>(
    es: Seq<Pattern<M>>,
    i: nat,
    s: Seq<M::Terminal>,
) -> bool
    decreases es, es.len() - i,
{
    if i >= es.len() {
        s.len() == 0
    } else {
        exists|k: int|
            0 <= k <= s.len() && language(es[i as int], #[trigger] s.take(k)) && language_sequence(
                es,
                i + 1,
                s.skip(k),
            )
    }
}

/// `s` is made of zero or more pieces, each in the language of `b`.
pub open spec fn language_repeat<M: TerminalMatcher>(b: Pattern<M>, s: Seq<M::Terminal>) -> bool
    decreases b, s.len() + 1,
{
    s.len() == 0 || exists|k: int|
        0 < k <= s.len() && language(b, #[trigger] s.take(k)) && language_repeat(b, s.skip(k))
}

impl<M: TerminalMatcher> Pattern<M> {
    /// The expansion of the pattern has an epsilon transition from its
    /// exit state back to its entry state: a repetition does, and a choice
    /// with such an alternative.
    pub open spec fn loops_back(self) -> bool
        decreases self,
    {
        match self {
            Pattern::Repeat(_) => true,
            Pattern::Choice(es) => exists|i: int|
                0 <= i < es.len() && (#[trigger] es[i]).loops_back(),
            _ => false,
        }
    }

    /// The expansion of the pattern has a transition into its entry state:
    /// a repetition does, a choice with such an alternative, and a
    /// sequence with such a first element.
    pub open spec fn reenters(self) -> bool
        decreases self,
    {
        match self {
            Pattern::Repeat(_) => true,
            Pattern::Choice(es) => exists|i: int|
                0 <= i < es.len() && (#[trigger] es[i]).reenters(),
            Pattern::Sequence(es) => es.len() > 0 && es[0].reenters(),
            _ => false,
        }
    }

    /// No sub-pattern shares a looping state with a neighbour: the body of
    /// a repetition and the alternatives of a choice do not reenter, and
    /// no element of a sequence that loops back is followed by one that
    /// reenters. The states of such a pattern's expansion keep the
    /// sub-patterns apart, so the automaton accepts the pattern's language
    /// and no more.
    pub open spec fn separable(self) -> bool
        decreases self,
    {
        match self {
            Pattern::Terminal(_) => true,
            Pattern::Null => true,
            Pattern::Repeat(b) => b.separable() && !b.reenters(),
            Pattern::Choice(es) => forall|i: int|
                0 <= i < es.len() ==> (#[trigger] es[i]).separable() && !es[i].reenters(),
            Pattern::Sequence(es) => {
                &&& forall|i: int| 0 <= i < es.len() ==> (#[trigger] es[i]).separable()
                &&& forall|i: int|
                    0 <= i < es.len() - 1 ==> !((#[trigger] es[i]).loops_back() && es[i
                        + 1].reenters())
            },
        }
    }

    /// A pattern that loops back reenters.
    pub proof fn lemma_loops_back_reenters(self)
        requires
            self.loops_back(),
        ensures
            self.reenters(),
        decreases self,
    {
        match self {
            Pattern::Choice(es) => {
                let i = choose|i: int| 0 <= i < es.len() && (#[trigger] es[i]).loops_back();
                es[i].lemma_loops_back_reenters();
            },
            _ => {},
        }
    }
}

} // verus!
