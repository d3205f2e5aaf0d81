//! Where the expansion of a pattern has transitions out of its exit state
//! and into its entry state.
use super::matcher::TerminalMatcher;
use super::pattern::Pattern;
use super::thompson::{
    fragment, fragment_choice, fragment_sequence, lemma_fragment_sequence_size,
    lemma_fragment_size, region,
};
use vstd::prelude::*;

verus! {

/// None of the alternatives `es[i..]` loops back.
pub open spec fn none_loops_back<M: TerminalMatcher>(es: Seq<Pattern<M>>, i: nat) -> bool {
    forall|j: int| i <= j < es.len() ==> !(#[trigger] es[j]).loops_back()
}

/// None of the alternatives `es[i..]` reenters.
pub open spec fn none_reenters<M: TerminalMatcher>(es: Seq<Pattern<M>>, i: nat) -> bool {
    forall|j: int| i <= j < es.len() ==> !(#[trigger] es[j]).reenters()
}

/// The expansion of a pattern has a transition out of its exit state only
/// where the pattern loops back, and one into its entry state only where
/// the pattern reenters.
pub proof fn lemma_fragment_shape<M: TerminalMatcher>(e: Pattern<M>, p: nat, q: nat, n: nat)
    requires
        p != q,
        p < n,
        q < n,
    ensures
        !e.loops_back() ==> fragment(e, p, q, n).no_exit(q),
        !e.reenters() ==> fragment(e, p, q, n).no_entry(p),
    decreases e, 0nat,
{
    match e {
        Pattern::Sequence(es) => lemma_fragment_sequence_shape(es, 0, p, q, n),
        Pattern::Choice(es) => lemma_fragment_choice_shape(es, 0, p, q, n),
        _ => {},
    }
}

/// The expansion of the rest of a sequence has no transition out of `q`,
/// and has one into `p` only where its first element reenters.
pub proof fn lemma_fragment_sequence_shape<M: TerminalMatcher>(
    es: Seq<Pattern<M>>,
    i: nat,
    p: nat,
    q: nat,
    n: nat,
)
    requires
        p != q,
        p < n,
        q < n,
    ensures
        fragment_sequence(es, i, p, q, n).no_exit(q),
        !(i < es.len() && es[i as int].reenters()) ==> fragment_sequence(es, i, p, q, n).no_entry(
            p,
        ),
    decreases es, es.len() - i,
{
    if i < es.len() {
        let head = fragment(es[i as int], p, n, n + 1);
        lemma_fragment_size(es[i as int], p, n, n + 1);
        lemma_fragment_sequence_size(es, i + 1, n, q, head.size);
        lemma_fragment_shape(es[i as int], p, n, n + 1);
        lemma_fragment_sequence_shape(es, i + 1, n, q, head.size);
    }
}

/// The expansion of the rest of a choice has a transition out of `q` only
/// where one of its alternatives loops back, and one into `p` only where
/// one of them reenters.
pub proof fn lemma_fragment_choice_shape<M: TerminalMatcher>(
    es: Seq<Pattern<M>>,
    i: nat,
    p: nat,
    q: nat,
    n: nat,
)
    requires
        p != q,
        p < n,
        q < n,
    ensures
        none_loops_back(es, i) ==> fragment_choice(es, i, p, q, n).no_exit(q),
        none_reenters(es, i) ==> fragment_choice(es, i, p, q, n).no_entry(p),
    decreases es, es.len() - i,
{
    if i < es.len() {
        let head = fragment(es[i as int], p, q, n);
        lemma_fragment_size(es[i as int], p, q, n);
        lemma_fragment_shape(es[i as int], p, q, n);
        lemma_fragment_choice_shape(es, i + 1, p, q, head.size);
    }
}

/// Where no alternative reenters, none loops back.
pub proof fn lemma_none_reenters<M: TerminalMatcher>(es: Seq<Pattern<M>>, i: nat)
    requires
        none_reenters(es, i),
    ensures
        none_loops_back(es, i),
{
    assert forall|j: int| i <= j < es.len() implies !(#[trigger] es[j]).loops_back() by {
        if es[j].loops_back() {
            es[j].lemma_loops_back_reenters();
        }
    }
}

} // verus!
