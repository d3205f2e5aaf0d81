//! Every sequence accepted by the automaton of a separable pattern is in
//! the language of the pattern.
use super::automaton::Automaton;
use super::matcher::TerminalMatcher;
use super::pattern::{language, language_repeat, language_sequence, Pattern};
use super::shape::{
    lemma_fragment_choice_shape, lemma_fragment_sequence_shape, lemma_fragment_shape,
    lemma_none_reenters, none_reenters,
};
use super::thompson::{
    automaton, fragment, fragment_choice, fragment_sequence, lemma_fragment_choice_size,
    lemma_fragment_sequence_size, lemma_fragment_size, region,
};
use vstd::prelude::*;

verus! {

/// A loop around `g`: the automaton `h` has the transitions of `g`, which
/// has none into `p` and none out of `q`, and the epsilon transitions from
/// `p` to `q` and back. Where `g` leads from `p` to `q` over the language
/// of `b` only, a walk in `h` to `q` first gets to `q` within `g`, unless
/// it starts there or takes the epsilon transition from `p`, and consumes
/// repetitions of `b` after that. Returns the number of terminals consumed
/// before `q` is first met.
proof fn lemma_loop_walk<M: TerminalMatcher>(
    h: Automaton<M>,
    g: Automaton<M>,
    b: Pattern<M>,
    p: nat,
    q: nat,
    x: nat,
    s: Seq<M::Terminal>,
    k: nat,
) -> (i: int)
    requires
        p != q,
        forall|a: nat, c: nat| #[trigger]
            h.jumps.contains((a, c)) ==> g.jumps.contains((a, c)) || (a == p && c == q) || (a == q
                && c == p),
        h.steps.subset_of(g.steps),
        g.no_entry(p),
        g.no_exit(q),
        forall|u: Seq<M::Terminal>| #[trigger] g.reaches(p, u, q) ==> language(b, u),
        h.walk(x, s, q, k),
    ensures
        0 <= i <= s.len(),
        language_repeat(b, s.skip(i)),
        x == q ==> i == 0,
        x != q ==> g.reaches(x, s.take(i), q) || (x == p && i == 0),
    decreases k,
{
    if k == 0 {
        0
    } else {
        let hop = h.lemma_walk_first(x, s, q, k);
        let y = hop.0;
        let k1 = (k - 1) as nat;
        if hop.1 {
            let j = lemma_loop_walk(h, g, b, p, q, y, s, k1);
            if x == q {
                assert(s.skip(0) =~= s);
                0
            } else if g.jumps.contains((x, y)) {
                g.lemma_reaches_jump(x, y);
                if y == q {
                    assert(s.take(0) =~= Seq::empty());
                    0
                } else {
                    g.lemma_reaches_concat(x, Seq::empty(), y, s.take(j), q);
                    j
                }
            } else {
                0
            }
        } else {
            let t = s.skip(1);
            let j = lemma_loop_walk(h, g, b, p, q, y, t, k1);
            g.lemma_reaches_step(x, s[0], y);
            if y == q {
                g.lemma_reaches_here(q);
                assert(t.take(0) =~= Seq::empty());
            }
            g.lemma_reaches_concat(x, seq![s[0]], y, t.take(j), q);
            assert(seq![s[0]] + t.take(j) =~= s.take(j + 1));
            assert(t.skip(j) =~= s.skip(j + 1));
            j + 1
        }
    }
}

/// The automaton of a separable pattern accepts only what the pattern
/// denotes: whatever leads from `p` to `q` through the expansion of `e`
/// between them is in the language of `e`.
pub proof fn lemma_fragment_sound<M: TerminalMatcher>(
    e: Pattern<M>,
    p: nat,
    q: nat,
    n: nat,
    s: Seq<M::Terminal>,
)
    requires
        e.separable(),
        p != q,
        p < n,
        q < n,
        fragment(e, p, q, n).reaches(p, s, q),
    ensures
        language(e, s),
    decreases e, 0nat,
{
    let g = fragment(e, p, q, n);
    let k = choose|k: nat| g.walk(p, s, q, k);
    match e {
        Pattern::Terminal(m) => {
            g.lemma_walk_first(p, s, q, k);
            g.lemma_walk_stuck(q, s.skip(1), q, (k - 1) as nat);
        },
        Pattern::Null => {
            g.lemma_walk_first(p, s, q, k);
            g.lemma_walk_stuck(q, s, q, (k - 1) as nat);
        },
        Pattern::Sequence(es) => {
            lemma_fragment_sequence_sound(es, 0, p, q, n, s);
        },
        Pattern::Choice(es) => {
            lemma_fragment_choice_sound(es, 0, p, q, n, s);
        },
        Pattern::Repeat(b) => {
            let body = fragment(*b, p, q, n);
            lemma_fragment_shape(*b, p, q, n);
            if b.loops_back() {
                b.lemma_loops_back_reenters();
            }
            assert forall|u: Seq<M::Terminal>| #[trigger] body.reaches(p, u, q) implies language(
                *b,
                u,
            ) by {
                lemma_fragment_sound(*b, p, q, n, u);
            }
            lemma_loop_walk(g, body, *b, p, q, p, s, k);
            assert(s.skip(0) =~= s);
            assert(language_repeat(*b, s));
        },
    }
}

/// Whatever leads from `p` to `q` through the expansion of the rest of a
/// sequence is made of one piece for each of its elements.
pub proof fn lemma_fragment_sequence_sound<M: TerminalMatcher>(
    es: Seq<Pattern<M>>,
    i: nat,
    p: nat,
    q: nat,
    n: nat,
    s: Seq<M::Terminal>,
)
    requires
        forall|j: int| i <= j < es.len() ==> (#[trigger] es[j]).separable(),
        forall|j: int|
            i <= j < es.len() - 1 ==> !((#[trigger] es[j]).loops_back() && es[j + 1].reenters()),
        p != q,
        p < n,
        q < n,
        fragment_sequence(es, i, p, q, n).reaches(p, s, q),
    ensures
        language_sequence(es, i, s),
    decreases es, es.len() - i,
{
    let g = fragment_sequence(es, i, p, q, n);
    let k = choose|k: nat| g.walk(p, s, q, k);
    if i >= es.len() {
        g.lemma_walk_first(p, s, q, k);
        g.lemma_walk_stuck(q, s, q, (k - 1) as nat);
    } else {
        let head = fragment(es[i as int], p, n, n + 1);
        let rest = fragment_sequence(es, i + 1, n, q, head.size);
        lemma_fragment_size(es[i as int], p, n, n + 1);
        lemma_fragment_sequence_size(es, i + 1, n, q, head.size);
        lemma_fragment_shape(es[i as int], p, n, n + 1);
        lemma_fragment_sequence_shape(es, i + 1, n, q, head.size);
        let r0 = region(p, n, n + 1, head.size);
        let r1 = region(n, q, head.size, rest.size);
        let w = g.lemma_series(head, rest, r0, r1, n, p, s, q, k);
        lemma_fragment_sound(es[i as int], p, n, n + 1, s.take(w.0));
        lemma_fragment_sequence_sound(es, i + 1, n, q, head.size, s.skip(w.0));
    }
}

/// Whatever leads from `p` to `q` through the expansion of the rest of a
/// choice is in the language of one of its alternatives. Returns which.
pub proof fn lemma_fragment_choice_sound<M: TerminalMatcher>(
    es: Seq<Pattern<M>>,
    i: nat,
    p: nat,
    q: nat,
    n: nat,
    s: Seq<M::Terminal>,
) -> (j: int)
    requires
        forall|j: int|
            i <= j < es.len() ==> (#[trigger] es[j]).separable() && !es[j].reenters(),
        p != q,
        p < n,
        q < n,
        fragment_choice(es, i, p, q, n).reaches(p, s, q),
    ensures
        i <= j < es.len(),
        language(es[j], s),
    decreases es, es.len() - i,
{
    let g = fragment_choice(es, i, p, q, n);
    let k = choose|k: nat| g.walk(p, s, q, k);
    if i >= es.len() {
        let hop = g.lemma_walk_first(p, s, q, k);
        0
    } else {
        let head = fragment(es[i as int], p, q, n);
        let rest = fragment_choice(es, i + 1, p, q, head.size);
        lemma_fragment_size(es[i as int], p, q, n);
        lemma_fragment_choice_size(es, i + 1, p, q, head.size);
        lemma_fragment_shape(es[i as int], p, q, n);
        lemma_fragment_choice_shape(es, i + 1, p, q, head.size);
        lemma_none_reenters(es, i + 1);
        if es[i as int].loops_back() {
            es[i as int].lemma_loops_back_reenters();
        }
        let r0 = region(p, q, n, head.size);
        let r1 = region(p, q, head.size, rest.size);
        g.lemma_parallel(head, rest, r0, r1, p, q, s, k);
        if head.walk(p, s, q, k) {
            lemma_fragment_sound(es[i as int], p, q, n, s);
            i as int
        } else {
            lemma_fragment_choice_sound(es, i + 1, p, q, head.size, s)
        }
    }
}

/// The automaton of a separable pattern accepts only sequences that the
/// pattern denotes.
pub proof fn lemma_automaton_sound<M: TerminalMatcher>(e: Pattern<M>, s: Seq<M::Terminal>)
    requires
        e.separable(),
        automaton(e).accepts(s),
    ensures
        language(e, s),
{
    lemma_fragment_sound(e, 0, 1, 2, s);
}

} // verus!
