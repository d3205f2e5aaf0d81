//! The expansion of a pattern is the same graph between any two states.
use super::automaton::Automaton;
use super::matcher::TerminalMatcher;
use super::pattern::Pattern;
use super::thompson::{
    fragment, fragment_choice, fragment_sequence, lemma_fragment_choice_size,
    lemma_fragment_sequence_size, lemma_fragment_size, region,
};
use vstd::prelude::*;

verus! {

/// The state that `x` becomes when an expansion between `p` and `q` that
/// takes its states from `n` on is built between `p_to` and `q_to`, with its
/// states from `n_to` on, instead.
pub open spec fn relocated(x: nat, p: nat, q: nat, n: nat, p_to: nat, q_to: nat, n_to: nat) -> nat {
    if x == p {
        p_to
    } else if x == q {
        q_to
    } else {
        (x - n + n_to) as nat
    }
}

impl<M: TerminalMatcher> Automaton<M> {
    /// `f` takes every transition of `self` to a transition of `other`.
    pub open spec fn maps_into(self, other: Self, f: spec_fn(nat) -> nat) -> bool {
        &&& forall|x: nat, y: nat| #[trigger]
            self.jumps.contains((x, y)) ==> other.jumps.contains((f(x), f(y)))
        &&& forall|x: nat, m: M, y: nat| #[trigger]
            self.steps.contains((x, m, y)) ==> other.steps.contains((f(x), m, f(y)))
    }

    /// A map of transitions to transitions takes walks to walks.
    pub proof fn lemma_walk_mapped(
        self,
        other: Self,
        f: spec_fn(nat) -> nat,
        x: nat,
        s: Seq<M::Terminal>,
        y: nat,
        k: nat,
    )
        requires
            self.maps_into(other, f),
            self.walk(x, s, y, k),
        ensures
            other.walk(f(x), s, f(y), k),
        decreases k,
    {
        if k > 0 {
            let hop = self.lemma_walk_first(x, s, y, k);
            let k1 = (k - 1) as nat;
            if hop.1 {
                self.lemma_walk_mapped(other, f, hop.0, s, y, k1);
                other.lemma_walk_jump(f(x), f(hop.0), s, f(y), k1);
            } else {
                self.lemma_walk_mapped(other, f, hop.0, s.skip(1), y, k1);
                other.lemma_walk_step(f(x), s[0], f(hop.0), s.skip(1), f(y), k1);
            }
        }
    }

    /// A map of transitions to transitions takes what is reached to what
    /// is reached.
    pub proof fn lemma_reaches_mapped(
        self,
        other: Self,
        f: spec_fn(nat) -> nat,
        x: nat,
        s: Seq<M::Terminal>,
        y: nat,
    )
        requires
            self.maps_into(other, f),
            self.reaches(x, s, y),
        ensures
            other.reaches(f(x), s, f(y)),
    {
        let k = choose|k: nat| self.walk(x, s, y, k);
        self.lemma_walk_mapped(other, f, x, s, y, k);
    }
}

/// The expansion of a pattern is the same graph wherever it is built: the
/// expansion between `p` and `q` from `n` on, relocated, lies in the
/// expansion between `p_to` and `q_to` from `n_to` on.
pub proof fn lemma_fragment_relocated<M: TerminalMatcher>(
    e: Pattern<M>,
    p: nat,
    q: nat,
    n: nat,
    p_to: nat,
    q_to: nat,
    n_to: nat,
)
    requires
        p != q,
        p < n,
        q < n,
    ensures
        fragment(e, p, q, n).maps_into(
            fragment(e, p_to, q_to, n_to),
            |x: nat| relocated(x, p, q, n, p_to, q_to, n_to),
        ),
    decreases e, 0nat,
{
    match e {
        Pattern::Sequence(es) => lemma_fragment_sequence_relocated(es, 0, p, q, n, p_to, q_to, n_to),
        Pattern::Choice(es) => lemma_fragment_choice_relocated(es, 0, p, q, n, p_to, q_to, n_to),
        Pattern::Repeat(b) => lemma_fragment_relocated(*b, p, q, n, p_to, q_to, n_to),
        _ => {},
    }
}

/// The expansion of the rest of a sequence, relocated, lies in the
/// expansion of that rest at the other place.
pub proof fn lemma_fragment_sequence_relocated<M: TerminalMatcher>(
    es: Seq<Pattern<M>>,
    i: nat,
    p: nat,
    q: nat,
    n: nat,
    p_to: nat,
    q_to: nat,
    n_to: nat,
)
    requires
        p != q,
        p < n,
        q < n,
    ensures
        fragment_sequence(es, i, p, q, n).maps_into(
            fragment_sequence(es, i, p_to, q_to, n_to),
            |x: nat| relocated(x, p, q, n, p_to, q_to, n_to),
        ),
    decreases es, es.len() - i,
{
    if i < es.len() {
        let head = fragment(es[i as int], p, n, n + 1);
        let head2 = fragment(es[i as int], p_to, n_to, n_to + 1);
        lemma_fragment_size(es[i as int], p, n, n + 1);
        lemma_fragment_size(es[i as int], p_to, n_to, n_to + 1);
        lemma_fragment_sequence_size(es, i + 1, n, q, head.size);
        lemma_fragment_relocated(es[i as int], p, n, n + 1, p_to, n_to, n_to + 1);
        lemma_fragment_sequence_relocated(es, i + 1, n, q, head.size, n_to, q_to, head2.size);
    }
}

/// The expansion of the rest of a choice, relocated, lies in the expansion
/// of that rest at the other place.
pub proof fn lemma_fragment_choice_relocated<M: TerminalMatcher>(
    es: Seq<Pattern<M>>,
    i: nat,
    p: nat,
    q: nat,
    n: nat,
    p_to: nat,
    q_to: nat,
    n_to: nat,
)
    requires
        p != q,
        p < n,
        q < n,
    ensures
        fragment_choice(es, i, p, q, n).maps_into(
            fragment_choice(es, i, p_to, q_to, n_to),
            |x: nat| relocated(x, p, q, n, p_to, q_to, n_to),
        ),
    decreases es, es.len() - i,
{
    if i < es.len() {
        let head = fragment(es[i as int], p, q, n);
        let head2 = fragment(es[i as int], p_to, q_to, n_to);
        lemma_fragment_size(es[i as int], p, q, n);
        lemma_fragment_size(es[i as int], p_to, q_to, n_to);
        lemma_fragment_choice_size(es, i + 1, p, q, head.size);
        lemma_fragment_relocated(es[i as int], p, q, n, p_to, q_to, n_to);
        lemma_fragment_choice_relocated(es, i + 1, p, q, head.size, p_to, q_to, head2.size);
    }
}

} // verus!
