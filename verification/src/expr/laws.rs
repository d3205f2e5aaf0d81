//! What holds of compiled patterns: the laws of the single terminal, the
//! sequence, the choice, the repetition and the empty pattern.
use super::automaton::Automaton;
use super::completeness::lemma_automaton_complete;
use super::matcher::{CoreExpr, Matcher, TerminalMatcher};
use super::pattern::{language, Pattern};
use super::relocation::{lemma_fragment_relocated, relocated};
use super::shape::{lemma_fragment_sequence_shape, lemma_fragment_shape};
use super::soundness::lemma_automaton_sound;
use super::thompson::{
    automaton, fragment, fragment_choice, fragment_sequence, lemma_fragment_sequence_size,
    lemma_fragment_size, region,
};
use vstd::prelude::*;

verus! {

/// `s`, `n` times in a row.
pub open spec fn repeated<A>(s: Seq<A>, n: nat) -> Seq<A>
    decreases n,
{
    if n == 0 {
        Seq::empty()
    } else {
        s + repeated(s, (n - 1) as nat)
    }
}

/// The automaton of a separable pattern accepts exactly the sequences
/// that the pattern denotes.
pub proof fn lemma_automaton_language<M: TerminalMatcher>(e: Pattern<M>, s: Seq<M::Terminal>)
    requires
        e.separable(),
    ensures
        automaton(e).accepts(s) == language(e, s),
{
    if automaton(e).accepts(s) {
        lemma_automaton_sound(e, s);
    }
    if language(e, s) {
        lemma_automaton_complete(e, s);
    }
}

/// A pattern of one terminal matches a sequence of one terminal exactly
/// when its matcher accepts that terminal.
pub proof fn lemma_terminal<M: TerminalMatcher>(m: M, t: M::Terminal)
    ensures
        automaton(Pattern::Terminal(m)).accepts(seq![t]) == m.accepts(&t),
{
    lemma_automaton_language(Pattern::Terminal(m), seq![t]);
}

/// A sequence of any two patterns matches `s` where `s` can be split into
/// a prefix that the first pattern matches and a suffix that the second
/// pattern matches.
pub proof fn lemma_sequence_joins<M: TerminalMatcher>(
    e0: Pattern<M>,
    e1: Pattern<M>,
    s: Seq<M::Terminal>,
    k: int,
)
    requires
        0 <= k <= s.len(),
        automaton(e0).accepts(s.take(k)),
        automaton(e1).accepts(s.skip(k)),
    ensures
        automaton(Pattern::Sequence(seq![e0, e1])).accepts(s),
{
    let e = Pattern::Sequence(seq![e0, e1]);
    let es = e->Sequence_0;
    let first = fragment(e0, 0, 2, 3);
    let after = fragment_sequence(es, 1, 2, 1, first.size);
    let second = fragment(e1, 2, first.size, first.size + 1);
    let last = fragment_sequence(es, 2, first.size, 1, second.size);
    let g = automaton(e);
    assert(g == fragment_sequence(es, 0, 0, 1, 2));
    lemma_fragment_size(e0, 0, 2, 3);
    first.lemma_union_within(after);
    second.lemma_union_within(last);
    lemma_fragment_relocated(e0, 0, 1, 2, 0, 2, 3);
    automaton(e0).lemma_reaches_mapped(
        first,
        |x: nat| relocated(x, 0, 1, 2, 0, 2, 3),
        0,
        s.take(k),
        1,
    );
    first.lemma_reaches_within(g, 0, s.take(k), 2);
    lemma_fragment_relocated(e1, 0, 1, 2, 2, first.size, first.size + 1);
    automaton(e1).lemma_reaches_mapped(
        second,
        |x: nat| relocated(x, 0, 1, 2, 2, first.size, first.size + 1),
        0,
        s.skip(k),
        1,
    );
    second.lemma_reaches_within(after, 2, s.skip(k), first.size);
    after.lemma_reaches_within(g, 2, s.skip(k), first.size);
    last.lemma_reaches_jump(first.size, 1);
    last.lemma_reaches_within(after, first.size, Seq::empty(), 1);
    after.lemma_reaches_within(g, first.size, Seq::empty(), 1);
    g.lemma_reaches_concat(0, s.take(k), 2, s.skip(k), first.size);
    g.lemma_reaches_concat(0, s.take(k) + s.skip(k), first.size, Seq::empty(), 1);
    assert((s.take(k) + s.skip(k)) + Seq::<M::Terminal>::empty() =~= s);
}

/// A sequence of two patterns, of which the first does not loop back or
/// the second does not reenter, matches `s` exactly when `s` can be split
/// into a prefix that the first pattern matches and a suffix that the
/// second pattern matches.
pub proof fn lemma_sequence<M: TerminalMatcher>(
    e0: Pattern<M>,
    e1: Pattern<M>,
    s: Seq<M::Terminal>,
)
    requires
        !(e0.loops_back() && e1.reenters()),
    ensures
        automaton(Pattern::Sequence(seq![e0, e1])).accepts(s) <==> exists|k: int|
            0 <= k <= s.len() && automaton(e0).accepts(#[trigger] s.take(k)) && automaton(
                e1,
            ).accepts(s.skip(k)),
{
    let e = Pattern::Sequence(seq![e0, e1]);
    if automaton(e).accepts(s) {
        lemma_sequence_splits(e0, e1, s);
    }
    if exists|k: int|
        0 <= k <= s.len() && automaton(e0).accepts(#[trigger] s.take(k)) && automaton(e1).accepts(
            s.skip(k),
        ) {
        let k = choose|k: int|
            0 <= k <= s.len() && automaton(e0).accepts(#[trigger] s.take(k)) && automaton(
                e1,
            ).accepts(s.skip(k));
        lemma_sequence_joins(e0, e1, s, k);
    }
}

/// What a sequence of two patterns matches, of which the first does not
/// loop back or the second does not reenter, is a prefix that the first
/// pattern matches and a suffix that the second pattern matches. Returns
/// the length of the prefix.
proof fn lemma_sequence_splits<M: TerminalMatcher>(
    e0: Pattern<M>,
    e1: Pattern<M>,
    s: Seq<M::Terminal>,
) -> (k: int)
    requires
        !(e0.loops_back() && e1.reenters()),
        automaton(Pattern::Sequence(seq![e0, e1])).accepts(s),
    ensures
        0 <= k <= s.len(),
        automaton(e0).accepts(s.take(k)),
        automaton(e1).accepts(s.skip(k)),
{
    let e = Pattern::Sequence(seq![e0, e1]);
    let es = e->Sequence_0;
    let first = fragment(e0, 0, 2, 3);
    let mid = first.size;
    let after = fragment_sequence(es, 1, 2, 1, mid);
    let second = fragment(e1, 2, mid, mid + 1);
    let last = fragment_sequence(es, 2, mid, 1, second.size);
    let g = automaton(e);
    assert(g == fragment_sequence(es, 0, 0, 1, 2));
    lemma_fragment_size(e0, 0, 2, 3);
    lemma_fragment_size(e1, 2, mid, mid + 1);
    lemma_fragment_sequence_size(es, 1, 2, 1, mid);
    lemma_fragment_sequence_size(es, 2, mid, 1, second.size);
    lemma_fragment_shape(e0, 0, 2, 3);
    lemma_fragment_sequence_shape(es, 1, 2, 1, mid);
    let n = choose|n: nat| g.walk(0, s, 1, n);
    let w = g.lemma_series(
        first,
        after,
        region(0, 2, 3, mid),
        region(2, 1, mid, after.size),
        2,
        0,
        s,
        1,
        n,
    );
    let t = s.skip(w.0);
    let v = after.lemma_series(
        second,
        last,
        region(2, mid, mid + 1, second.size),
        region(mid, 1, second.size, last.size),
        mid,
        2,
        t,
        1,
        w.2,
    );
    last.lemma_walk_silent(mid, t.skip(v.0), 1, v.2);
    assert(t.take(v.0) =~= t);
    lemma_fragment_relocated(e0, 0, 2, 3, 0, 1, 2);
    first.lemma_walk_mapped(
        automaton(e0),
        |x: nat| relocated(x, 0, 2, 3, 0, 1, 2),
        0,
        s.take(w.0),
        2,
        w.1,
    );
    lemma_fragment_relocated(e1, 2, mid, mid + 1, 0, 1, 2);
    second.lemma_walk_mapped(
        automaton(e1),
        |x: nat| relocated(x, 2, mid, mid + 1, 0, 1, 2),
        2,
        t,
        mid,
        v.1,
    );
    w.0
}

/// A choice between two patterns that do not reenter matches `s` exactly
/// when one of the two patterns matches `s`.
pub proof fn lemma_choice<M: TerminalMatcher>(e0: Pattern<M>, e1: Pattern<M>, s: Seq<M::Terminal>)
    requires
        !e0.reenters(),
        !e1.reenters(),
    ensures
        automaton(Pattern::Choice(seq![e0, e1])).accepts(s) == (automaton(e0).accepts(s)
            || automaton(e1).accepts(s)),
{
    let e = Pattern::Choice(seq![e0, e1]);
    if automaton(e0).accepts(s) || automaton(e1).accepts(s) {
        lemma_choice_includes(e0, e1, s);
    }
    if automaton(e).accepts(s) {
        let es = e->Choice_0;
        let first = fragment(e0, 0, 1, 2);
        let second = fragment(e1, 0, 1, first.size);
        let g = automaton(e);
        assert(g == fragment_choice(es, 0, 0, 1, 2));
        assert(fragment_choice(es, 1, 0, 1, first.size) == second.union(
            fragment_choice(es, 2, 0, 1, second.size),
        ));
        lemma_fragment_size(e0, 0, 1, 2);
        lemma_fragment_size(e1, 0, 1, first.size);
        lemma_fragment_shape(e0, 0, 1, 2);
        lemma_fragment_shape(e1, 0, 1, first.size);
        if e0.loops_back() {
            e0.lemma_loops_back_reenters();
        }
        if e1.loops_back() {
            e1.lemma_loops_back_reenters();
        }
        let n = choose|n: nat| g.walk(0, s, 1, n);
        g.lemma_parallel(
            first,
            second,
            region(0, 1, 2, first.size),
            region(0, 1, first.size, second.size),
            0,
            1,
            s,
            n,
        );
        if !first.walk(0, s, 1, n) {
            lemma_fragment_relocated(e1, 0, 1, first.size, 0, 1, 2);
            second.lemma_walk_mapped(
                automaton(e1),
                |x: nat| relocated(x, 0, 1, first.size, 0, 1, 2),
                0,
                s,
                1,
                n,
            );
        }
    }
}

/// A choice between any two patterns matches whatever one of the two
/// patterns matches.
pub proof fn lemma_choice_includes<M: TerminalMatcher>(
    e0: Pattern<M>,
    e1: Pattern<M>,
    s: Seq<M::Terminal>,
)
    requires
        automaton(e0).accepts(s) || automaton(e1).accepts(s),
    ensures
        automaton(Pattern::Choice(seq![e0, e1])).accepts(s),
{
    let e = Pattern::Choice(seq![e0, e1]);
    let es = e->Choice_0;
    let first = fragment(e0, 0, 1, 2);
    let after = fragment_choice(es, 1, 0, 1, first.size);
    let second = fragment(e1, 0, 1, first.size);
    let last = fragment_choice(es, 2, 0, 1, second.size);
    let g = automaton(e);
    assert(g == fragment_choice(es, 0, 0, 1, 2));
    first.lemma_union_within(after);
    second.lemma_union_within(last);
    if automaton(e0).accepts(s) {
        first.lemma_reaches_within(g, 0, s, 1);
    } else {
        lemma_fragment_relocated(e1, 0, 1, 2, 0, 1, first.size);
        automaton(e1).lemma_reaches_mapped(
            second,
            |x: nat| relocated(x, 0, 1, 2, 0, 1, first.size),
            0,
            s,
            1,
        );
        second.lemma_reaches_within(after, 0, s, 1);
        after.lemma_reaches_within(g, 0, s, 1);
    }
}

/// The state that `x` becomes when the two alternatives of a choice change
/// places, where the first took the states from 2 up to `mid` and the
/// second takes `other` states.
pub open spec fn exchanged(x: nat, mid: nat, other: nat) -> nat {
    if x < 2 {
        x
    } else if x < mid {
        (x + other) as nat
    } else {
        (x - mid + 2) as nat
    }
}

/// A choice between any two patterns matches the same sequences whichever
/// of the two comes first.
pub proof fn lemma_choice_symmetric<M: TerminalMatcher>(
    e0: Pattern<M>,
    e1: Pattern<M>,
    s: Seq<M::Terminal>,
)
    ensures
        automaton(Pattern::Choice(seq![e0, e1])).accepts(s) == automaton(
            Pattern::Choice(seq![e1, e0]),
        ).accepts(s),
{
    if automaton(Pattern::Choice(seq![e0, e1])).accepts(s) {
        lemma_choice_exchanged(e0, e1, s);
    }
    if automaton(Pattern::Choice(seq![e1, e0])).accepts(s) {
        lemma_choice_exchanged(e1, e0, s);
    }
}

/// What a choice between two patterns matches, the choice between them in
/// the other order matches too.
proof fn lemma_choice_exchanged<M: TerminalMatcher>(
    e0: Pattern<M>,
    e1: Pattern<M>,
    s: Seq<M::Terminal>,
)
    requires
        automaton(Pattern::Choice(seq![e0, e1])).accepts(s),
    ensures
        automaton(Pattern::Choice(seq![e1, e0])).accepts(s),
{
    let e = Pattern::Choice(seq![e0, e1]);
    let es = e->Choice_0;
    let a0 = fragment(e0, 0, 1, 2);
    let b1 = fragment(e1, 0, 1, a0.size);
    let g = automaton(e);
    assert(g == fragment_choice(es, 0, 0, 1, 2));
    assert(fragment_choice(es, 1, 0, 1, a0.size) == b1.union(
        fragment_choice(es, 2, 0, 1, b1.size),
    ));
    let d = Pattern::Choice(seq![e1, e0]);
    let ds = d->Choice_0;
    let a1 = fragment(e1, 0, 1, 2);
    let b0 = fragment(e0, 0, 1, a1.size);
    let h = automaton(d);
    assert(h == fragment_choice(ds, 0, 0, 1, 2));
    assert(fragment_choice(ds, 1, 0, 1, a1.size) == b0.union(
        fragment_choice(ds, 2, 0, 1, b0.size),
    ));
    lemma_fragment_size(e0, 0, 1, 2);
    lemma_fragment_size(e1, 0, 1, 2);
    lemma_fragment_size(e1, 0, 1, a0.size);
    lemma_fragment_relocated(e0, 0, 1, 2, 0, 1, a1.size);
    lemma_fragment_relocated(e1, 0, 1, a0.size, 0, 1, 2);
    let other = (a1.size - 2) as nat;
    let f = |x: nat| exchanged(x, a0.size, other);
    g.lemma_reaches_mapped(h, f, 0, s, 1);
}

/// A repetition matches the empty sequence.
pub proof fn lemma_repeat_empty<M: TerminalMatcher>(e: Pattern<M>)
    ensures
        automaton(Pattern::Repeat(Box::new(e))).accepts(Seq::empty()),
{
    automaton(Pattern::Repeat(Box::new(e))).lemma_reaches_jump(0, 1);
}

/// A repetition matches every sequence that its body matches, any number
/// of times in a row.
pub proof fn lemma_repeat<M: TerminalMatcher>(e: Pattern<M>, s: Seq<M::Terminal>, n: nat)
    requires
        automaton(e).accepts(s),
    ensures
        automaton(Pattern::Repeat(Box::new(e))).accepts(repeated(s, n)),
    decreases n,
{
    let g = automaton(Pattern::Repeat(Box::new(e)));
    if n == 0 {
        lemma_repeat_empty(e);
    } else {
        let rest = repeated(s, (n - 1) as nat);
        lemma_repeat(e, s, (n - 1) as nat);
        automaton(e).lemma_reaches_within(g, 0, s, 1);
        g.lemma_reaches_jump(1, 0);
        g.lemma_reaches_concat(0, s, 1, Seq::empty(), 0);
        g.lemma_reaches_concat(0, s + Seq::empty(), 0, rest, 1);
    }
}

/// The empty pattern matches the empty sequence and no other.
pub proof fn lemma_null<M: TerminalMatcher>(s: Seq<M::Terminal>)
    ensures
        automaton(Pattern::<M>::Null).accepts(s) == (s.len() == 0),
{
    lemma_automaton_language(Pattern::<M>::Null, s);
}

/// Compiling an expression tree twice and matching a sequence against
/// both matchers gives the same answer: a matcher is determined by the
/// tree, and an answer by the matcher and the sequence.
pub proof fn lemma_answer_determined<'a, 'b, T: TerminalMatcher>(
    first: Matcher<'a, T>,
    second: Matcher<'b, T>,
    expr: CoreExpr<T>,
    s: Seq<T::Terminal>,
)
    requires
        first@ == automaton(expr@),
        second@ == automaton(expr@),
    ensures
        first@ == second@,
        first@.accepts(s) == second@.accepts(s),
{
}

} // verus!
