//! The model of a compiled matcher: a graph of states with terminal and
//! epsilon transitions, the walks through it, and what a walk consumes.
use super::matcher::TerminalMatcher;
use vstd::prelude::*;

verus! {

/// The mathematical model of a compiled matcher: a graph over the states
/// `0 .. size`, with transitions that consume one terminal (`steps`, each
/// guarded by a matcher) and transitions that consume nothing (`jumps`).
#[verifier::reject_recursive_types(M)]
pub struct Automaton<M> {
    pub size: nat,
    pub steps: Set<(nat, M, nat)>,
    pub jumps: Set<(nat, nat)>,
}

impl<M: TerminalMatcher> Automaton<M> {
    /// `size` states and no transition.
    pub open spec fn empty(size: nat) -> Self {
        Automaton { size, steps: Set::empty(), jumps: Set::empty() }
    }

    /// One more state, numbered `self.size`.
    pub open spec fn with_state(self) -> Self {
        Automaton { size: self.size + 1, steps: self.steps, jumps: self.jumps }
    }

    /// One more terminal transition, from `p` to `q`, guarded by `m`.
    pub open spec fn with_step(self, p: nat, m: M, q: nat) -> Self {
        Automaton { size: self.size, steps: self.steps.insert((p, m, q)), jumps: self.jumps }
    }

    /// One more epsilon transition, from `p` to `q`.
    pub open spec fn with_jump(self, p: nat, q: nat) -> Self {
        Automaton { size: self.size, steps: self.steps, jumps: self.jumps.insert((p, q)) }
    }

    /// The transitions of both automata, over the states of the larger one.
    pub open spec fn union(self, other: Self) -> Self {
        Automaton {
            size: if self.size >= other.size { self.size } else { other.size },
            steps: self.steps.union(other.steps),
            jumps: self.jumps.union(other.jumps),
        }
    }

    /// Every transition of `self` is one of `other`.
    pub open spec fn within(self, other: Self) -> bool {
        self.steps.subset_of(other.steps) && self.jumps.subset_of(other.jumps)
    }

    /// There is an epsilon transition from `p` to `q`.
    pub open spec fn jump(self, p: nat, q: nat) -> bool {
        self.jumps.contains((p, q))
    }

    /// There is a terminal transition from `p` to `q` whose matcher accepts `t`.
    pub open spec fn step(self, p: nat, t: M::Terminal, q: nat) -> bool {
        exists|m: M| #[trigger] self.steps.contains((p, m, q)) && m.accepts(&t)
    }

    /// There is a path of exactly `n` transitions from `p` to `q` whose
    /// terminal transitions consume `s`, one terminal each, in order.
    pub open spec fn walk(self, p: nat, s: Seq<M::Terminal>, q: nat, n: nat) -> bool
        decreases n,
    {
        if n == 0 {
            p == q && s.len() == 0
        } else {
            ||| exists|r: nat| #[trigger] self.jump(p, r) && self.walk(r, s, q, (n - 1) as nat)
            ||| s.len() > 0 && exists|r: nat| #[trigger]
                self.step(p, s[0], r) && self.walk(r, s.skip(1), q, (n - 1) as nat)
        }
    }

    /// Consuming `s` can lead from `p` to `q`.
    pub open spec fn reaches(self, p: nat, s: Seq<M::Terminal>, q: nat) -> bool {
        exists|n: nat| self.walk(p, s, q, n)
    }

    /// Consuming `s` can lead from the start state, 0, to the end state, 1.
    pub open spec fn accepts(self, s: Seq<M::Terminal>) -> bool {
        self.reaches(0, s, 1)
    }

    /// Every transition starts and ends in `region`.
    pub open spec fn inside(self, region: Set<nat>) -> bool {
        &&& forall|x: nat, y: nat| #[trigger]
            self.jumps.contains((x, y)) ==> region.contains(x) && region.contains(y)
        &&& forall|x: nat, m: M, y: nat| #[trigger]
            self.steps.contains((x, m, y)) ==> region.contains(x) && region.contains(y)
    }

    /// No transition starts in `x`.
    pub open spec fn no_exit(self, x: nat) -> bool {
        &&& forall|y: nat| !#[trigger] self.jumps.contains((x, y))
        &&& forall|m: M, y: nat| !#[trigger] self.steps.contains((x, m, y))
    }

    /// No transition ends in `y`.
    pub open spec fn no_entry(self, y: nat) -> bool {
        &&& forall|x: nat| !#[trigger] self.jumps.contains((x, y))
        &&& forall|x: nat, m: M| !#[trigger] self.steps.contains((x, m, y))
    }

    /// Every transition of `self` is one of `a` or one of `b`.
    pub open spec fn covered_by(self, a: Self, b: Self) -> bool {
        &&& forall|x: nat, y: nat| #[trigger]
            self.jumps.contains((x, y)) ==> a.jumps.contains((x, y)) || b.jumps.contains((x, y))
        &&& forall|x: nat, m: M, y: nat| #[trigger]
            self.steps.contains((x, m, y)) ==> a.steps.contains((x, m, y)) || b.steps.contains(
                (x, m, y),
            )
    }

    /// Automata with the same states and the same transitions are equal.
    pub proof fn lemma_equal(self, other: Self)
        requires
            self.size == other.size,
            self.steps =~= other.steps,
            self.jumps =~= other.jumps,
        ensures
            self == other,
    {
    }

    /// A walk can be entered through an epsilon transition.
    pub proof fn lemma_walk_jump(self, p: nat, r: nat, s: Seq<M::Terminal>, q: nat, n: nat)
        requires
            self.jump(p, r),
            self.walk(r, s, q, n),
        ensures
            self.walk(p, s, q, n + 1),
    {
    }

    /// A walk can be entered through a terminal transition, which consumes
    /// one more terminal in front.
    pub proof fn lemma_walk_step(
        self,
        p: nat,
        t: M::Terminal,
        r: nat,
        s: Seq<M::Terminal>,
        q: nat,
        n: nat,
    )
        requires
            self.step(p, t, r),
            self.walk(r, s, q, n),
        ensures
            self.walk(p, seq![t] + s, q, n + 1),
    {
        let u = seq![t] + s;
        assert(u[0] == t);
        assert(u.skip(1) =~= s);
    }

    /// The first transition of a walk that has one: the state it leads to,
    /// and whether it is an epsilon transition.
    pub proof fn lemma_walk_first(self, p: nat, s: Seq<M::Terminal>, q: nat, n: nat) -> (hop: (
        nat,
        bool,
    ))
        requires
            self.walk(p, s, q, n),
            n > 0,
        ensures
            hop.1 ==> self.jump(p, hop.0) && self.walk(hop.0, s, q, (n - 1) as nat),
            !hop.1 ==> s.len() > 0 && self.step(p, s[0], hop.0) && self.walk(
                hop.0,
                s.skip(1),
                q,
                (n - 1) as nat,
            ),
    {
        if exists|r: nat| #[trigger] self.jump(p, r) && self.walk(r, s, q, (n - 1) as nat) {
            let r = choose|r: nat| #[trigger]
                self.jump(p, r) && self.walk(r, s, q, (n - 1) as nat);
            (r, true)
        } else {
            let r = choose|r: nat| #[trigger]
                self.step(p, s[0], r) && self.walk(r, s.skip(1), q, (n - 1) as nat);
            (r, false)
        }
    }

    /// A walk stays a walk when transitions are added.
    pub proof fn lemma_walk_within(
        self,
        other: Self,
        p: nat,
        s: Seq<M::Terminal>,
        q: nat,
        n: nat,
    )
        requires
            self.within(other),
            self.walk(p, s, q, n),
        ensures
            other.walk(p, s, q, n),
        decreases n,
    {
        if n > 0 {
            let hop = self.lemma_walk_first(p, s, q, n);
            let k = (n - 1) as nat;
            if hop.1 {
                self.lemma_walk_within(other, hop.0, s, q, k);
                other.lemma_walk_jump(p, hop.0, s, q, k);
            } else {
                self.lemma_walk_within(other, hop.0, s.skip(1), q, k);
                other.lemma_walk_step(p, s[0], hop.0, s.skip(1), q, k);
            }
        }
    }

    /// Two walks that meet in `r` make one walk.
    pub proof fn lemma_walk_concat(
        self,
        p: nat,
        s1: Seq<M::Terminal>,
        r: nat,
        n1: nat,
        s2: Seq<M::Terminal>,
        q: nat,
        n2: nat,
    )
        requires
            self.walk(p, s1, r, n1),
            self.walk(r, s2, q, n2),
        ensures
            self.walk(p, s1 + s2, q, n1 + n2),
        decreases n1,
    {
        if n1 > 0 {
            let hop = self.lemma_walk_first(p, s1, r, n1);
            let k = (n1 - 1) as nat;
            if hop.1 {
                self.lemma_walk_concat(hop.0, s1, r, k, s2, q, n2);
                self.lemma_walk_jump(p, hop.0, s1 + s2, q, k + n2);
            } else {
                self.lemma_walk_concat(hop.0, s1.skip(1), r, k, s2, q, n2);
                self.lemma_walk_step(p, s1[0], hop.0, s1.skip(1) + s2, q, k + n2);
                assert(seq![s1[0]] + (s1.skip(1) + s2) =~= s1 + s2);
            }
        }
    }

    /// A walk over `s.push(t)` is a walk over `s`, then the terminal
    /// transition that consumes `t`, then epsilon transitions only. Returns
    /// the two states of that transition and the lengths of the two walks.
    pub proof fn lemma_walk_last_step(
        self,
        p: nat,
        s: Seq<M::Terminal>,
        t: M::Terminal,
        q: nat,
        n: nat,
    ) -> (w: (nat, nat, nat, nat))
        requires
            self.walk(p, s.push(t), q, n),
        ensures
            self.walk(p, s, w.0, w.2),
            self.step(w.0, t, w.1),
            self.walk(w.1, Seq::empty(), q, w.3),
        decreases n,
    {
        let u = s.push(t);
        let hop = self.lemma_walk_first(p, u, q, n);
        let k = (n - 1) as nat;
        if hop.1 {
            let w = self.lemma_walk_last_step(hop.0, s, t, q, k);
            self.lemma_walk_jump(p, hop.0, s, w.0, w.2);
            (w.0, w.1, w.2 + 1, w.3)
        } else if s.len() == 0 {
            assert(u.skip(1) =~= Seq::empty());
            (p, hop.0, 0, k)
        } else {
            assert(u.skip(1) =~= s.skip(1).push(t));
            let w = self.lemma_walk_last_step(hop.0, s.skip(1), t, q, k);
            self.lemma_walk_step(p, s[0], hop.0, s.skip(1), w.0, w.2);
            (w.0, w.1, w.2 + 1, w.3)
        }
    }

    /// A walk that starts in `region` ends in it, where every transition
    /// stays in it.
    pub proof fn lemma_walk_inside(
        self,
        region: Set<nat>,
        p: nat,
        s: Seq<M::Terminal>,
        q: nat,
        n: nat,
    )
        requires
            self.inside(region),
            region.contains(p),
            self.walk(p, s, q, n),
        ensures
            region.contains(q),
        decreases n,
    {
        if n > 0 {
            let hop = self.lemma_walk_first(p, s, q, n);
            let k = (n - 1) as nat;
            if hop.1 {
                self.lemma_walk_inside(region, hop.0, s, q, k);
            } else {
                self.lemma_walk_inside(region, hop.0, s.skip(1), q, k);
            }
        }
    }

    /// A walk that consumes nothing stays in a region that no epsilon
    /// transition leaves.
    pub proof fn lemma_walk_closed(self, region: Set<nat>, p: nat, q: nat, n: nat)
        requires
            forall|x: nat, y: nat|
                region.contains(x) && #[trigger] self.jump(x, y) ==> region.contains(y),
            region.contains(p),
            self.walk(p, Seq::empty(), q, n),
        ensures
            region.contains(q),
        decreases n,
    {
        if n > 0 {
            let hop = self.lemma_walk_first(p, Seq::empty(), q, n);
            self.lemma_walk_closed(region, hop.0, q, (n - 1) as nat);
        }
    }

    /// Every state reaches itself, consuming nothing.
    pub proof fn lemma_reaches_here(self, p: nat)
        ensures
            self.reaches(p, Seq::empty(), p),
    {
        assert(self.walk(p, Seq::empty(), p, 0));
    }

    /// An epsilon transition is a way to reach its target, consuming nothing.
    pub proof fn lemma_reaches_jump(self, p: nat, q: nat)
        requires
            self.jump(p, q),
        ensures
            self.reaches(p, Seq::empty(), q),
    {
        self.lemma_walk_jump(p, q, Seq::empty(), q, 0);
    }

    /// A terminal transition is a way to reach its target, consuming the
    /// terminal.
    pub proof fn lemma_reaches_step(self, p: nat, t: M::Terminal, q: nat)
        requires
            self.step(p, t, q),
        ensures
            self.reaches(p, seq![t], q),
    {
        self.lemma_walk_step(p, t, q, Seq::empty(), q, 0);
    }

    /// Reaching `r` and then `q` from there is reaching `q`.
    pub proof fn lemma_reaches_concat(
        self,
        p: nat,
        s1: Seq<M::Terminal>,
        r: nat,
        s2: Seq<M::Terminal>,
        q: nat,
    )
        requires
            self.reaches(p, s1, r),
            self.reaches(r, s2, q),
        ensures
            self.reaches(p, s1 + s2, q),
    {
        let n1 = choose|n: nat| self.walk(p, s1, r, n);
        let n2 = choose|n: nat| self.walk(r, s2, q, n);
        self.lemma_walk_concat(p, s1, r, n1, s2, q, n2);
    }

    /// What is reached stays reached when transitions are added.
    pub proof fn lemma_reaches_within(self, other: Self, p: nat, s: Seq<M::Terminal>, q: nat)
        requires
            self.within(other),
            self.reaches(p, s, q),
        ensures
            other.reaches(p, s, q),
    {
        let n = choose|n: nat| self.walk(p, s, q, n);
        self.lemma_walk_within(other, p, s, q, n);
    }

    /// What is reached from inside a region that holds every transition
    /// lies in that region.
    pub proof fn lemma_reaches_inside(
        self,
        region: Set<nat>,
        p: nat,
        s: Seq<M::Terminal>,
        q: nat,
    )
        requires
            self.inside(region),
            region.contains(p),
            self.reaches(p, s, q),
        ensures
            region.contains(q),
    {
        let n = choose|n: nat| self.walk(p, s, q, n);
        self.lemma_walk_inside(region, p, s, q, n);
    }

    /// What is reached by consuming nothing stays in a region that no
    /// epsilon transition leaves.
    pub proof fn lemma_reaches_closed(self, region: Set<nat>, p: nat, q: nat)
        requires
            forall|x: nat, y: nat|
                region.contains(x) && #[trigger] self.jump(x, y) ==> region.contains(y),
            region.contains(p),
            self.reaches(p, Seq::empty(), q),
        ensures
            region.contains(q),
    {
        let n = choose|n: nat| self.walk(p, Seq::empty(), q, n);
        self.lemma_walk_closed(region, p, q, n);
    }

    /// Reaching `q` over `s.push(t)` is reaching some state over `s`,
    /// taking a terminal transition on `t` from there, and reaching `q`
    /// from its target by consuming nothing. Returns the two states.
    pub proof fn lemma_reaches_last_step(
        self,
        p: nat,
        s: Seq<M::Terminal>,
        t: M::Terminal,
        q: nat,
    ) -> (w: (nat, nat))
        requires
            self.reaches(p, s.push(t), q),
        ensures
            self.reaches(p, s, w.0),
            self.step(w.0, t, w.1),
            self.reaches(w.1, Seq::empty(), q),
    {
        let n = choose|n: nat| self.walk(p, s.push(t), q, n);
        let w = self.lemma_walk_last_step(p, s, t, q, n);
        (w.0, w.1)
    }

    /// Whoever reaches a state over `s` reaches some state over each prefix
    /// of `s`. Returns that state.
    pub proof fn lemma_reaches_prefix(
        self,
        p: nat,
        s: Seq<M::Terminal>,
        q: nat,
        i: int,
    ) -> (r: nat)
        requires
            self.reaches(p, s, q),
            0 <= i <= s.len(),
        ensures
            self.reaches(p, s.take(i), r),
        decreases s.len() - i,
    {
        if i == s.len() {
            assert(s.take(i) =~= s);
            q
        } else {
            assert(s =~= s.drop_last().push(s.last()));
            let w = self.lemma_reaches_last_step(p, s.drop_last(), s.last(), q);
            assert(s.drop_last().take(i) =~= s.take(i));
            self.lemma_reaches_prefix(p, s.drop_last(), w.0, i)
        }
    }
}

} // verus!
