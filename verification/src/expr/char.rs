//! Patterns over characters.
use super::matcher::{CoreExpr, ExprExtension, TerminalMatcher};
use super::pattern::Pattern;
use vstd::prelude::*;

verus! {

/// What `char::is_alphabetic` returns for `c`.
pub uninterp spec fn alphabetic(c: char) -> bool;

/// What `char::is_numeric` returns for `c`.
pub uninterp spec fn numeric(c: char) -> bool;

/// What `char::is_whitespace` returns for `c`.
pub uninterp spec fn whitespace(c: char) -> bool;

/// Calls `char::is_alphabetic`, which tells whether `c` has the Unicode
/// property Alphabetic. The result is named, not stated.
#[verifier::external_body]
fn is_alphabetic(c: char) -> (b: bool)
    ensures
        b == alphabetic(c),
{
    c.is_alphabetic()
}

/// Calls `char::is_numeric`, which tells whether `c` is in one of the
/// Unicode general categories for numbers. The result is named, not
/// stated.
#[verifier::external_body]
fn is_numeric(c: char) -> (b: bool)
    ensures
        b == numeric(c),
{
    c.is_numeric()
}

/// Calls `char::is_whitespace`, which tells whether `c` has the Unicode
/// property White_Space. The result is named, not stated.
#[verifier::external_body]
fn is_whitespace(c: char) -> (b: bool)
    ensures
        b == whitespace(c),
{
    c.is_whitespace()
}

#[derive(Debug)]
pub enum CharRule {
    Char(char),
    Alpha,
    Num,
    Whitespace,
}

#[derive(Debug)]
pub struct CharMatcher {
    pub rule: CharRule,
}

impl TerminalMatcher for CharMatcher {
    type Terminal = char;

    open spec fn accepts(&self, terminal: &char) -> bool {
        match self.rule {
            CharRule::Char(c) => *terminal == c,
            CharRule::Alpha => alphabetic(*terminal),
            CharRule::Num => numeric(*terminal),
            CharRule::Whitespace => whitespace(*terminal),
        }
    }

    fn matches(&self, terminal: &char) -> (accepted: bool) {
        match &self.rule {
            CharRule::Char(c) => *terminal == *c,
            CharRule::Alpha => is_alphabetic(*terminal),
            CharRule::Num => is_numeric(*terminal),
            CharRule::Whitespace => is_whitespace(*terminal),
        }
    }
}

#[derive(Debug)]
pub enum CharExpr {
    Char(char),
    Alpha,
    Num,
    Whitespace,
    Sequence(Vec<CharExpr>),
    Choice(Vec<CharExpr>),
    Repeat(Box<CharExpr>),
    Null,
}

impl CharExpr {
    /// The pattern that the expression stands for.
    pub open spec fn pattern(&self) -> Pattern<CharMatcher>
        decreases self,
    {
        match self {
            CharExpr::Char(c) => Pattern::Terminal(CharMatcher { rule: CharRule::Char(*c) }),
            CharExpr::Alpha => Pattern::Terminal(CharMatcher { rule: CharRule::Alpha }),
            CharExpr::Num => Pattern::Terminal(CharMatcher { rule: CharRule::Num }),
            CharExpr::Whitespace => Pattern::Terminal(CharMatcher { rule: CharRule::Whitespace }),
            CharExpr::Sequence(es) => Pattern::Sequence(Self::patterns(es@)),
            CharExpr::Choice(es) => Pattern::Choice(Self::patterns(es@)),
            CharExpr::Repeat(b) => Pattern::Repeat(Box::new(b.pattern())),
            CharExpr::Null => Pattern::Null,
        }
    }

    /// The patterns that the expressions of a list stand for.
    pub open spec fn patterns(es: Seq<CharExpr>) -> Seq<Pattern<CharMatcher>>
        decreases es,
    {
        Seq::new(
            es.len(),
            |i: int|
                if 0 <= i < es.len() {
                    es[i].pattern()
                } else {
                    Pattern::Null
                },
        )
    }
}

impl ExprExtension<'_, CharMatcher> for CharExpr {
    open spec fn lowers_to(&self, pattern: Pattern<CharMatcher>) -> bool {
        pattern == self.pattern()
    }

    fn into_core_expr(&self) -> (expr: CoreExpr<CharMatcher>)
        decreases self,
    {
        match self {
            CharExpr::Char(c) => CoreExpr::Terminal(CharMatcher { rule: CharRule::Char(*c) }),
            CharExpr::Alpha => CoreExpr::Terminal(CharMatcher { rule: CharRule::Alpha }),
            CharExpr::Num => CoreExpr::Terminal(CharMatcher { rule: CharRule::Num }),
            CharExpr::Whitespace => CoreExpr::Terminal(CharMatcher { rule: CharRule::Whitespace }),
            CharExpr::Sequence(exprs) => {
                let mut lowered: Vec<CoreExpr<CharMatcher>> = Vec::new();
                let mut i: usize = 0;
                while i < exprs.len()
                    invariant
                        i <= exprs@.len(),
                        *self == CharExpr::Sequence(*exprs),
                        lowered@.len() == i,
                        forall|j: int| 0 <= j < i ==> (#[trigger] lowered@[j])@ == exprs@[j].pattern(),
                    decreases exprs@.len() - i,
                {
                    assert(decreases_to!(*self => self->Sequence_0));
                    lowered.push(exprs[i].into_core_expr());
                    i += 1;
                }
                assert(CoreExpr::patterns(lowered@) =~= Self::patterns(exprs@));
                CoreExpr::Sequence(lowered)
            },
            CharExpr::Choice(exprs) => {
                let mut lowered: Vec<CoreExpr<CharMatcher>> = Vec::new();
                let mut i: usize = 0;
                while i < exprs.len()
                    invariant
                        i <= exprs@.len(),
                        *self == CharExpr::Choice(*exprs),
                        lowered@.len() == i,
                        forall|j: int| 0 <= j < i ==> (#[trigger] lowered@[j])@ == exprs@[j].pattern(),
                    decreases exprs@.len() - i,
                {
                    assert(decreases_to!(*self => self->Choice_0));
                    lowered.push(exprs[i].into_core_expr());
                    i += 1;
                }
                assert(CoreExpr::patterns(lowered@) =~= Self::patterns(exprs@));
                CoreExpr::Choice(lowered)
            },
            CharExpr::Repeat(expr) => CoreExpr::Repeat(Box::new(expr.into_core_expr())),
            CharExpr::Null => CoreExpr::Null,
        }
    }
}

impl vstd::std_specs::ops::AddSpecImpl for CharExpr {
    /// `+` is specified by the `ensures` of `add`, over the list it builds.
    open spec fn obeys_add_spec() -> bool {
        false
    }

    open spec fn add_req(self, other: CharExpr) -> bool {
        true
    }

    open spec fn add_spec(self, other: CharExpr) -> CharExpr {
        self
    }
}

impl std::ops::Add for CharExpr {
    type Output = CharExpr;

    /// The sequence of `self` and `other`.
    fn add(self, other: CharExpr) -> (expr: CharExpr)
        ensures
            expr is Sequence,
            expr->Sequence_0@ == seq![self, other],
    {
        CharExpr::Sequence(vec![self, other])
    }
}

impl vstd::std_specs::ops::BitOrSpecImpl for CharExpr {
    /// `|` is specified by the `ensures` of `bitor`, over the list it builds.
    open spec fn obeys_bitor_spec() -> bool {
        false
    }

    open spec fn bitor_req(self, other: CharExpr) -> bool {
        true
    }

    open spec fn bitor_spec(self, other: CharExpr) -> CharExpr {
        self
    }
}

impl std::ops::BitOr for CharExpr {
    type Output = CharExpr;

    /// The choice between `self` and `other`.
    fn bitor(self, other: CharExpr) -> (expr: CharExpr)
        ensures
            expr is Choice,
            expr->Choice_0@ == seq![self, other],
    {
        CharExpr::Choice(vec![self, other])
    }
}

} // verus!
