//! Every sequence in the language of a pattern is accepted by the
//! pattern's automaton.
use super::matcher::TerminalMatcher;
use super::pattern::{language, language_repeat, language_sequence, Pattern};
use super::thompson::{automaton, fragment, fragment_choice, fragment_sequence};
use vstd::prelude::*;

verus! {

/// The automaton of any pattern accepts at least what the pattern denotes:
/// whatever is in the language of `e` leads from `p` to `q` through the
/// expansion of `e` between them.
pub proof fn lemma_fragment_complete<M: TerminalMatcher>(
    e: Pattern<M>,
    p: nat,
    q: nat,
    n: nat,
    s: Seq<M::Terminal>,
)
    requires
        language(e, s),
    ensures
        fragment(e, p, q, n).reaches(p, s, q),
    decreases e, 0nat,
{
    let g = fragment(e, p, q, n);
    match e {
        Pattern::Terminal(m) => {
            assert(g.steps.contains((p, m, q)));
            g.lemma_reaches_step(p, s[0], q);
            assert(seq![s[0]] =~= s);
        },
        Pattern::Null => {
            g.lemma_reaches_jump(p, q);
            assert(s =~= Seq::empty());
        },
        Pattern::Sequence(es) => {
            lemma_fragment_sequence_complete(es, 0, p, q, n, s);
        },
        Pattern::Choice(es) => {
            let j = choose|j: int| 0 <= j < es.len() && language(#[trigger] es[j], s);
            lemma_fragment_choice_complete(es, 0, j, p, q, n, s);
        },
        Pattern::Repeat(b) => {
            lemma_fragment_repeat_complete(*b, p, q, n, s);
        },
    }
}

/// Whatever is made of one piece for each element of the rest of a
/// sequence leads from `p` to `q` through the expansion of that rest.
pub proof fn lemma_fragment_sequence_complete<M: TerminalMatcher>(
    es: Seq<Pattern<M>>,
    i: nat,
    p: nat,
    q: nat,
    n: nat,
    s: Seq<M::Terminal>,
)
    requires
        language_sequence(es, i, s),
    ensures
        fragment_sequence(es, i, p, q, n).reaches(p, s, q),
    decreases es, es.len() - i,
{
    let g = fragment_sequence(es, i, p, q, n);
    if i >= es.len() {
        g.lemma_reaches_jump(p, q);
        assert(s =~= Seq::empty());
    } else {
        let head = fragment(es[i as int], p, n, n + 1);
        let rest = fragment_sequence(es, i + 1, n, q, head.size);
        let k = choose|k: int|
            0 <= k <= s.len() && language(es[i as int], #[trigger] s.take(k)) && language_sequence(
                es,
                i + 1,
                s.skip(k),
            );
        lemma_fragment_complete(es[i as int], p, n, n + 1, s.take(k));
        lemma_fragment_sequence_complete(es, i + 1, n, q, head.size, s.skip(k));
        head.lemma_union_within(rest);
        head.lemma_reaches_within(g, p, s.take(k), n);
        rest.lemma_reaches_within(g, n, s.skip(k), q);
        g.lemma_reaches_concat(p, s.take(k), n, s.skip(k), q);
        assert(s.take(k) + s.skip(k) =~= s);
    }
}

/// Whatever is in the language of the alternative `es[j]` leads from `p`
/// to `q` through the expansion of the alternatives from `i` on, where
/// `es[j]` is one of them.
pub proof fn lemma_fragment_choice_complete<M: TerminalMatcher>(
    es: Seq<Pattern<M>>,
    i: nat,
    j: int,
    p: nat,
    q: nat,
    n: nat,
    s: Seq<M::Terminal>,
)
    requires
        i <= j < es.len(),
        language(es[j], s),
    ensures
        fragment_choice(es, i, p, q, n).reaches(p, s, q),
    decreases es, es.len() - i,
{
    let g = fragment_choice(es, i, p, q, n);
    let head = fragment(es[i as int], p, q, n);
    let rest = fragment_choice(es, i + 1, p, q, head.size);
    head.lemma_union_within(rest);
    if i == j {
        lemma_fragment_complete(es[i as int], p, q, n, s);
        head.lemma_reaches_within(g, p, s, q);
    } else {
        lemma_fragment_choice_complete(es, i + 1, j, p, q, head.size, s);
        rest.lemma_reaches_within(g, p, s, q);
    }
}

/// Whatever is made of pieces in the language of `b` leads from `p` to `q`
/// through the expansion of the repetition of `b`.
pub proof fn lemma_fragment_repeat_complete<M: TerminalMatcher>(
    b: Pattern<M>,
    p: nat,
    q: nat,
    n: nat,
    s: Seq<M::Terminal>,
)
    requires
        language_repeat(b, s),
    ensures
        fragment(Pattern::Repeat(Box::new(b)), p, q, n).reaches(p, s, q),
    decreases b, s.len() + 1,
{
    let g = fragment(Pattern::Repeat(Box::new(b)), p, q, n);
    let body = fragment(b, p, q, n);
    if s.len() == 0 {
        g.lemma_reaches_jump(p, q);
        assert(s =~= Seq::empty());
    } else {
        let k = choose|k: int|
            0 < k <= s.len() && language(b, #[trigger] s.take(k)) && language_repeat(b, s.skip(k));
        lemma_fragment_complete(b, p, q, n, s.take(k));
        lemma_fragment_repeat_complete(b, p, q, n, s.skip(k));
        body.lemma_reaches_within(g, p, s.take(k), q);
        g.lemma_reaches_jump(q, p);
        g.lemma_reaches_concat(p, s.take(k), q, Seq::empty(), p);
        g.lemma_reaches_concat(p, s.take(k) + Seq::empty(), p, s.skip(k), q);
        assert((s.take(k) + Seq::<M::Terminal>::empty()) + s.skip(k) =~= s);
    }
}

/// The automaton of any pattern accepts every sequence that the pattern
/// denotes.
pub proof fn lemma_automaton_complete<M: TerminalMatcher>(e: Pattern<M>, s: Seq<M::Terminal>)
    requires
        language(e, s),
    ensures
        automaton(e).accepts(s),
{
    lemma_fragment_complete(e, 0, 1, 2, s);
}

} // verus!
