//! What the simulation keeps track of: sets of states as marks, and how
//! one round of the simulation changes them.
use super::automaton::Automaton;
use super::matcher::TerminalMatcher;
use vstd::prelude::*;

verus! {

/// What a sequence holds once `x` is pushed.
pub proof fn lemma_push_contains<A>(s: Seq<A>, x: A)
    ensures
        forall|y: A| s.push(x).contains(y) <==> s.contains(y) || y == x,
{
    assert forall|y: A| s.push(x).contains(y) <==> s.contains(y) || y == x by {
        if s.contains(y) {
            let j = choose|j: int| 0 <= j < s.len() && s[j] == y;
            assert(s.push(x)[j] == y);
        }
        if y == x {
            assert(s.push(x)[s.len() as int] == y);
        }
    }
}

/// The number of entries of `marks` that are not set.
pub open spec fn unmarked(marks: Seq<bool>) -> nat
    decreases marks.len(),
{
    if marks.len() == 0 {
        0
    } else {
        unmarked(marks.drop_last()) + if marks.last() {
            0nat
        } else {
            1nat
        }
    }
}

/// Setting an entry that was not set leaves one entry less unset.
pub proof fn lemma_unmarked_update(marks: Seq<bool>, i: int)
    requires
        0 <= i < marks.len(),
        !marks[i],
    ensures
        unmarked(marks.update(i, true)) + 1 == unmarked(marks),
    decreases marks.len(),
{
    let after = marks.update(i, true);
    if i == marks.len() - 1 {
        assert(after.drop_last() =~= marks.drop_last());
    } else {
        assert(after.drop_last() =~= marks.drop_last().update(i, true));
        lemma_unmarked_update(marks.drop_last(), i);
    }
}

/// The states below `marks.len()` that are marked.
pub open spec fn marked(marks: Seq<bool>) -> Set<nat> {
    Set::new(|x: nat| x < marks.len() && marks[x as int])
}

/// Some marked state reaches `q` by consuming nothing.
pub open spec fn reached_from<T: TerminalMatcher>(a: Automaton<T>, marks: Seq<bool>, q: nat) -> bool {
    exists|p: nat| #[trigger] marked(marks).contains(p) && a.reaches(p, Seq::empty(), q)
}

/// Some marked state below `bound` has a terminal transition to `q` whose
/// matcher accepts `t`.
pub open spec fn stepped_from<T: TerminalMatcher>(
    a: Automaton<T>,
    marks: Seq<bool>,
    bound: nat,
    t: T::Terminal,
    q: nat,
) -> bool {
    exists|p: nat| p < bound && #[trigger] marked(marks).contains(p) && a.step(p, t, q)
}

/// One of the first `upto` entries of `targets` is `q`.
pub open spec fn listed(targets: Seq<usize>, upto: int, q: nat) -> bool {
    exists|k: int| 0 <= k < upto && #[trigger] targets[k] == q
}

/// One round of the simulation: from the states reached over `s`, through
/// the terminal transitions on `t` and then the epsilon transitions, to
/// the states reached over `s.push(t)`.
pub proof fn lemma_round<T: TerminalMatcher>(
    a: Automaton<T>,
    s: Seq<T::Terminal>,
    t: T::Terminal,
    current: Seq<bool>,
    stepped: Seq<bool>,
    next: Seq<bool>,
)
    requires
        a.size > 0,
        a.inside(Set::new(|x: nat| x < a.size)),
        current.len() == a.size,
        stepped.len() == a.size,
        next.len() == a.size,
        forall|q: nat| q < a.size ==> (current[q as int] <==> a.reaches(0, s, q)),
        forall|q: nat|
            q < a.size ==> (stepped[q as int] <==> stepped_from(a, current, a.size, t, q)),
        forall|q: nat| q < a.size ==> (next[q as int] <==> reached_from(a, stepped, q)),
    ensures
        forall|q: nat| q < a.size ==> (next[q as int] <==> a.reaches(0, s.push(t), q)),
{
    let region = Set::new(|x: nat| x < a.size);
    assert forall|q: nat| q < a.size implies (next[q as int] <==> a.reaches(0, s.push(t), q)) by {
        if next[q as int] {
            let r = choose|r: nat| #[trigger]
                marked(stepped).contains(r) && a.reaches(r, Seq::empty(), q);
            let p = choose|p: nat|
                p < a.size && #[trigger] marked(current).contains(p) && a.step(p, t, r);
            a.lemma_reaches_step(p, t, r);
            a.lemma_reaches_concat(0, s, p, seq![t], r);
            a.lemma_reaches_concat(0, s + seq![t], r, Seq::empty(), q);
            assert((s + seq![t]) + Seq::<T::Terminal>::empty() =~= s.push(t));
        }
        if a.reaches(0, s.push(t), q) {
            let w = a.lemma_reaches_last_step(0, s, t, q);
            a.lemma_reaches_inside(region, 0, s, w.0);
            assert(marked(current).contains(w.0));
            assert(marked(stepped).contains(w.1));
        }
    }
}

} // verus!
