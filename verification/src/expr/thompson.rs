//! The construction of an automaton from a pattern: each node is expanded
//! between an entry state and an exit state.
use super::automaton::Automaton;
use super::matcher::TerminalMatcher;
use super::pattern::Pattern;
use vstd::prelude::*;

verus! {

/// The transitions that expanding `e` between the entry state `p` and the
/// exit state `q` adds, where `n` is the first unused state number. The
/// size of the result is the first state number left unused.
pub open spec fn fragment<M: TerminalMatcher>(e: Pattern<M>, p: nat, q: nat, n: nat) -> Automaton<M>
    decreases e, 0nat,
{
    match e {
        Pattern::Terminal(m) => Automaton::empty(n).with_step(p, m, q),
        Pattern::Sequence(es) => fragment_sequence(es, 0, p, q, n),
        Pattern::Choice(es) => fragment_choice(es, 0, p, q, n),
        Pattern::Repeat(b) => fragment(*b, p, q, n).with_jump(p, q).with_jump(q, p),
        Pattern::Null => Automaton::empty(n).with_jump(p, q),
    }
}

/// The expansion of the elements `es[i..]` of a sequence, threaded from `p`
/// through one new state per element, with an epsilon transition from the
/// last of them to `q`.
pub open spec fn fragment_sequence<M: TerminalMatcher>(
    es: Seq<Pattern<M>>,
    i: nat,
    p: nat,
    q: nat,
    n: nat,
) -> Automaton<M>
    decreases es, es.len() - i,
{
    if i >= es.len() {
        Automaton::empty(n).with_jump(p, q)
    } else {
        let head = fragment(es[i as int], p, n, n + 1);
        head.union(fragment_sequence(es, i + 1, n, q, head.size))
    }
}

/// The expansion of the alternatives `es[i..]` of a choice, each between
/// `p` and `q`.
pub open spec fn fragment_choice<M: TerminalMatcher>(
    es: Seq<Pattern<M>>,
    i: nat,
    p: nat,
    q: nat,
    n: nat,
) -> Automaton<M>
    decreases es, es.len() - i,
{
    if i >= es.len() {
        Automaton::empty(n)
    } else {
        let head = fragment(es[i as int], p, q, n);
        head.union(fragment_choice(es, i + 1, p, q, head.size))
    }
}

/// The automaton that a pattern compiles to: its expansion between the
/// start state 0 and the end state 1.
pub open spec fn automaton<M: TerminalMatcher>(e: Pattern<M>) -> Automaton<M> {
    fragment(e, 0, 1, 2)
}

/// The number of states that the expansion of `e` adds: one for each
/// element of each sequence in it.
pub open spec fn fresh_states<M: TerminalMatcher>(e: Pattern<M>) -> nat
    decreases e, 0nat,
{
    match e {
        Pattern::Sequence(es) => fresh_states_sequence(es, 0),
        Pattern::Choice(es) => fresh_states_choice(es, 0),
        Pattern::Repeat(b) => fresh_states(*b),
        _ => 0,
    }
}

/// The number of states that the expansion of the elements `es[i..]` of a
/// sequence adds.
pub open spec fn fresh_states_sequence<M: TerminalMatcher>(es: Seq<Pattern<M>>, i: nat) -> nat
    decreases es, es.len() - i,
{
    if i >= es.len() {
        0
    } else {
        1 + fresh_states(es[i as int]) + fresh_states_sequence(es, i + 1)
    }
}

/// The number of states that the expansion of the alternatives `es[i..]`
/// of a choice adds.
pub open spec fn fresh_states_choice<M: TerminalMatcher>(es: Seq<Pattern<M>>, i: nat) -> nat
    decreases es, es.len() - i,
{
    if i >= es.len() {
        0
    } else {
        fresh_states(es[i as int]) + fresh_states_choice(es, i + 1)
    }
}

/// The states that an expansion between `p` and `q` may touch, where it
/// took the state numbers from `n` up to `size`.
pub open spec fn region(p: nat, q: nat, n: nat, size: nat) -> Set<nat> {
    Set::new(|x: nat| x == p || x == q || n <= x < size)
}

/// An expansion takes the state numbers from `n` on, as many as the
/// pattern asks for, and keeps to its entry state, its exit state and the
/// states it took.
pub proof fn lemma_fragment_size<M: TerminalMatcher>(e: Pattern<M>, p: nat, q: nat, n: nat)
    ensures
        fragment(e, p, q, n).size == n + fresh_states(e),
        fragment(e, p, q, n).inside(region(p, q, n, fragment(e, p, q, n).size)),
    decreases e, 0nat,
{
    match e {
        Pattern::Sequence(es) => lemma_fragment_sequence_size(es, 0, p, q, n),
        Pattern::Choice(es) => lemma_fragment_choice_size(es, 0, p, q, n),
        Pattern::Repeat(b) => lemma_fragment_size(*b, p, q, n),
        _ => {},
    }
}

/// The expansion of the rest of a sequence takes the state numbers from
/// `n` on, and keeps to `p`, `q` and the states it took.
pub proof fn lemma_fragment_sequence_size<M: TerminalMatcher>(
    es: Seq<Pattern<M>>,
    i: nat,
    p: nat,
    q: nat,
    n: nat,
)
    ensures
        fragment_sequence(es, i, p, q, n).size == n + fresh_states_sequence(es, i),
        fragment_sequence(es, i, p, q, n).inside(
            region(p, q, n, fragment_sequence(es, i, p, q, n).size),
        ),
    decreases es, es.len() - i,
{
    if i < es.len() {
        let head = fragment(es[i as int], p, n, n + 1);
        let rest = fragment_sequence(es, i + 1, n, q, head.size);
        lemma_fragment_size(es[i as int], p, n, n + 1);
        lemma_fragment_sequence_size(es, i + 1, n, q, head.size);
        lemma_union_inside(
            head,
            rest,
            region(p, n, n + 1, head.size),
            region(n, q, head.size, rest.size),
            region(p, q, n, rest.size),
        );
    }
}

/// The expansion of the rest of a choice takes the state numbers from `n`
/// on, and keeps to `p`, `q` and the states it took.
pub proof fn lemma_fragment_choice_size<M: TerminalMatcher>(
    es: Seq<Pattern<M>>,
    i: nat,
    p: nat,
    q: nat,
    n: nat,
)
    ensures
        fragment_choice(es, i, p, q, n).size == n + fresh_states_choice(es, i),
        fragment_choice(es, i, p, q, n).inside(
            region(p, q, n, fragment_choice(es, i, p, q, n).size),
        ),
    decreases es, es.len() - i,
{
    if i < es.len() {
        let head = fragment(es[i as int], p, q, n);
        let rest = fragment_choice(es, i + 1, p, q, head.size);
        lemma_fragment_size(es[i as int], p, q, n);
        lemma_fragment_choice_size(es, i + 1, p, q, head.size);
        lemma_union_inside(
            head,
            rest,
            region(p, q, n, head.size),
            region(p, q, head.size, rest.size),
            region(p, q, n, rest.size),
        );
    }
}

/// The union of two automata keeps to a region that holds the regions to
/// which the two keep.
pub proof fn lemma_union_inside<M: TerminalMatcher>(
    g0: Automaton<M>,
    g1: Automaton<M>,
    r0: Set<nat>,
    r1: Set<nat>,
    r: Set<nat>,
)
    requires
        g0.inside(r0),
        g1.inside(r1),
        r0.subset_of(r),
        r1.subset_of(r),
    ensures
        g0.union(g1).inside(r),
{
}

} // verus!
