//! Walks through the union of two automata that share one or two states.
use super::automaton::Automaton;
use super::matcher::TerminalMatcher;
use vstd::prelude::*;

verus! {

impl<M: TerminalMatcher> Automaton<M> {
    /// Each of two automata lies within their union.
    pub proof fn lemma_union_within(self, other: Self)
        ensures
            self.within(self.union(other)),
            other.within(self.union(other)),
    {
    }

    /// A walk from a state without transitions goes nowhere.
    pub proof fn lemma_walk_stuck(self, x: nat, s: Seq<M::Terminal>, q: nat, k: nat)
        requires
            self.no_exit(x),
            self.walk(x, s, q, k),
        ensures
            k == 0,
    {
        if k > 0 {
            let hop = self.lemma_walk_first(x, s, q, k);
        }
    }

    /// A walk through an automaton without terminal transitions consumes
    /// nothing.
    pub proof fn lemma_walk_silent(self, x: nat, s: Seq<M::Terminal>, q: nat, k: nat)
        requires
            forall|a: nat, m: M, b: nat| !self.steps.contains((a, m, b)),
            self.walk(x, s, q, k),
        ensures
            s.len() == 0,
        decreases k,
    {
        if k > 0 {
            let hop = self.lemma_walk_first(x, s, q, k);
            if hop.1 {
                self.lemma_walk_silent(hop.0, s, q, (k - 1) as nat);
            }
        }
    }

    /// Two automata `g0` and `g1` that share the one state `m`, where `g0`
    /// has no transition out of `m` or `g1` has none into it: a walk in
    /// their union that starts in `g1` (not in `m`, where `g0` has a
    /// transition out of it) is a walk in `g1`.
    pub proof fn lemma_series_tail(
        self,
        g0: Self,
        g1: Self,
        r0: Set<nat>,
        r1: Set<nat>,
        m: nat,
        x: nat,
        s: Seq<M::Terminal>,
        q: nat,
        k: nat,
    )
        requires
            self.covered_by(g0, g1),
            g0.inside(r0),
            g1.inside(r1),
            forall|y: nat| r0.contains(y) && r1.contains(y) ==> y == m,
            g0.no_exit(m) || g1.no_entry(m),
            r1.contains(x),
            g0.no_exit(m) || x != m,
            self.walk(x, s, q, k),
        ensures
            g1.walk(x, s, q, k),
        decreases k,
    {
        if k > 0 {
            let hop = self.lemma_walk_first(x, s, q, k);
            let y = hop.0;
            let k1 = (k - 1) as nat;
            if hop.1 {
                self.lemma_series_tail(g0, g1, r0, r1, m, y, s, q, k1);
                g1.lemma_walk_jump(x, y, s, q, k1);
            } else {
                self.lemma_series_tail(g0, g1, r0, r1, m, y, s.skip(1), q, k1);
                g1.lemma_walk_step(x, s[0], y, s.skip(1), q, k1);
                assert(seq![s[0]] + s.skip(1) =~= s);
            }
        }
    }

    /// Two automata `g0` and `g1` that share the one state `m`, where `g0`
    /// has no transition out of `m` or `g1` has none into it: a walk in
    /// their union from a state of `g0` to a state `q` outside `g0` is a
    /// walk in `g0` to `m` followed by a walk in `g1` from `m`. Returns
    /// the number of terminals that the first walk consumes and the
    /// lengths of the two walks.
    pub proof fn lemma_series(
        self,
        g0: Self,
        g1: Self,
        r0: Set<nat>,
        r1: Set<nat>,
        m: nat,
        x: nat,
        s: Seq<M::Terminal>,
        q: nat,
        k: nat,
    ) -> (w: (int, nat, nat))
        requires
            self.covered_by(g0, g1),
            g0.inside(r0),
            g1.inside(r1),
            forall|y: nat| r0.contains(y) && r1.contains(y) ==> y == m,
            g0.no_exit(m) || g1.no_entry(m),
            r0.contains(x),
            !r0.contains(q),
            self.walk(x, s, q, k),
        ensures
            0 <= w.0 <= s.len(),
            g0.walk(x, s.take(w.0), m, w.1),
            g1.walk(m, s.skip(w.0), q, w.2),
        decreases k,
    {
        let hop = self.lemma_walk_first(x, s, q, k);
        let y = hop.0;
        let k1 = (k - 1) as nat;
        if hop.1 {
            if g0.jumps.contains((x, y)) {
                let w = self.lemma_series(g0, g1, r0, r1, m, y, s, q, k1);
                g0.lemma_walk_jump(x, y, s.take(w.0), m, w.1);
                (w.0, w.1 + 1, w.2)
            } else {
                self.lemma_series_tail(g0, g1, r0, r1, m, y, s, q, k1);
                g1.lemma_walk_jump(x, y, s, q, k1);
                assert(s.skip(0) =~= s);
                (0, 0, k)
            }
        } else {
            let m0 = choose|m0: M| #[trigger]
                self.steps.contains((x, m0, y)) && m0.accepts(&s[0]);
            if g0.steps.contains((x, m0, y)) {
                let t = s.skip(1);
                let w = self.lemma_series(g0, g1, r0, r1, m, y, t, q, k1);
                g0.lemma_walk_step(x, s[0], y, t.take(w.0), m, w.1);
                assert(seq![s[0]] + t.take(w.0) =~= s.take(w.0 + 1));
                assert(t.skip(w.0) =~= s.skip(w.0 + 1));
                (w.0 + 1, w.1 + 1, w.2)
            } else {
                self.lemma_series_tail(g0, g1, r0, r1, m, y, s.skip(1), q, k1);
                g1.lemma_walk_step(x, s[0], y, s.skip(1), q, k1);
                assert(seq![s[0]] + s.skip(1) =~= s);
                assert(s.skip(0) =~= s);
                (0, 0, k)
            }
        }
    }

    /// Two automata `g0` and `g1` that share the states `p` and `q` only,
    /// neither with a transition into `p` or out of `q`: a walk in their
    /// union from a state of `g0` other than `p` to `q` is a walk in `g0`.
    pub proof fn lemma_parallel_tail(
        self,
        g0: Self,
        g1: Self,
        r0: Set<nat>,
        r1: Set<nat>,
        p: nat,
        q: nat,
        x: nat,
        s: Seq<M::Terminal>,
        k: nat,
    )
        requires
            self.covered_by(g0, g1),
            g0.inside(r0),
            g1.inside(r1),
            forall|y: nat| r0.contains(y) && r1.contains(y) ==> y == p || y == q,
            g0.no_entry(p),
            g1.no_entry(p),
            g0.no_exit(q),
            g1.no_exit(q),
            r0.contains(x),
            x != p,
            self.walk(x, s, q, k),
        ensures
            g0.walk(x, s, q, k),
        decreases k,
    {
        if k > 0 {
            let hop = self.lemma_walk_first(x, s, q, k);
            let y = hop.0;
            let k1 = (k - 1) as nat;
            if hop.1 {
                self.lemma_parallel_tail(g0, g1, r0, r1, p, q, y, s, k1);
                g0.lemma_walk_jump(x, y, s, q, k1);
            } else {
                self.lemma_parallel_tail(g0, g1, r0, r1, p, q, y, s.skip(1), k1);
                g0.lemma_walk_step(x, s[0], y, s.skip(1), q, k1);
            }
        }
    }

    /// Two automata `g0` and `g1` that share the states `p` and `q` only,
    /// neither with a transition into `p` or out of `q`: a walk in their
    /// union from `p` to `q` is a walk in one of them.
    pub proof fn lemma_parallel(
        self,
        g0: Self,
        g1: Self,
        r0: Set<nat>,
        r1: Set<nat>,
        p: nat,
        q: nat,
        s: Seq<M::Terminal>,
        k: nat,
    )
        requires
            self.covered_by(g0, g1),
            g0.inside(r0),
            g1.inside(r1),
            forall|y: nat| r0.contains(y) && r1.contains(y) ==> y == p || y == q,
            g0.no_entry(p),
            g1.no_entry(p),
            g0.no_exit(q),
            g1.no_exit(q),
            p != q,
            self.walk(p, s, q, k),
        ensures
            g0.walk(p, s, q, k) || g1.walk(p, s, q, k),
    {
        let hop = self.lemma_walk_first(p, s, q, k);
        let y = hop.0;
        let k1 = (k - 1) as nat;
        if hop.1 {
            if g0.jumps.contains((p, y)) {
                self.lemma_parallel_tail(g0, g1, r0, r1, p, q, y, s, k1);
                g0.lemma_walk_jump(p, y, s, q, k1);
            } else {
                self.lemma_parallel_tail(g1, g0, r1, r0, p, q, y, s, k1);
                g1.lemma_walk_jump(p, y, s, q, k1);
            }
        } else {
            let m0 = choose|m0: M| #[trigger]
                self.steps.contains((p, m0, y)) && m0.accepts(&s[0]);
            assert(seq![s[0]] + s.skip(1) =~= s);
            if g0.steps.contains((p, m0, y)) {
                self.lemma_parallel_tail(g0, g1, r0, r1, p, q, y, s.skip(1), k1);
                g0.lemma_walk_step(p, s[0], y, s.skip(1), q, k1);
            } else {
                self.lemma_parallel_tail(g1, g0, r1, r0, p, q, y, s.skip(1), k1);
                g1.lemma_walk_step(p, s[0], y, s.skip(1), q, k1);
            }
        }
    }
}

} // verus!
