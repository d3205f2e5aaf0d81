//! Expression trees over terminal matchers, their compilation into an
//! automaton, and the simulation of the automaton on a sequence.
use super::automaton::Automaton;
use super::pattern::Pattern;
use super::simulation::{
    lemma_push_contains, lemma_round, lemma_unmarked_update, listed, marked, reached_from,
    stepped_from, unmarked,
};
use super::thompson::{
    automaton, fragment, fragment_choice, fragment_sequence, lemma_fragment_size,
};
use vstd::prelude::*;

verus! {

/// A predicate over terminals.
pub trait TerminalMatcher {
    type Terminal;

    /// The terminals that this matcher accepts.
    spec fn accepts(&self, terminal: &Self::Terminal) -> bool;

    fn matches(&self, terminal: &Self::Terminal) -> (accepted: bool)
        ensures
            accepted == self.accepts(terminal),
    ;
}

#[derive(Debug)]
pub enum CoreExpr<T: TerminalMatcher> {
    Terminal(T),
    Sequence(Vec<CoreExpr<T>>),
    Choice(Vec<CoreExpr<T>>),
    Repeat(Box<CoreExpr<T>>),
    Null,
}

impl<T: TerminalMatcher> CoreExpr<T> {
    /// The pattern that this expression tree stands for.
    pub open spec fn pattern(&self) -> Pattern<T>
        decreases self,
    {
        match self {
            CoreExpr::Terminal(m) => Pattern::Terminal(*m),
            CoreExpr::Sequence(es) => Pattern::Sequence(Self::patterns(es@)),
            CoreExpr::Choice(es) => Pattern::Choice(Self::patterns(es@)),
            CoreExpr::Repeat(b) => Pattern::Repeat(Box::new(b.pattern())),
            CoreExpr::Null => Pattern::Null,
        }
    }

    /// The patterns that the expression trees of a list stand for.
    pub open spec fn patterns(es: Seq<CoreExpr<T>>) -> Seq<Pattern<T>>
        decreases es,
    {
        Seq::new(
            es.len(),
            |i: int|
                if 0 <= i < es.len() {
                    es[i].pattern()
                } else {
                    Pattern::Null
                },
        )
    }

    /// Compiles the expression tree into the automaton of its pattern.
    pub fn compile(&self) -> (matcher: Matcher<'_, T>)
        ensures
            matcher@ == automaton(self@),
    {
        Matcher::new(self)
    }
}

/// An expression syntax of a front-end, which is lowered to the core's
/// expression tree.
pub trait ExprExtension<'a, T: TerminalMatcher> {
    /// `pattern` is what the expression lowers to.
    spec fn lowers_to(&self, pattern: Pattern<T>) -> bool;

    fn into_core_expr(&self) -> (expr: CoreExpr<T>)
        ensures
            self.lowers_to(expr@),
    ;
}

impl<T: TerminalMatcher> View for CoreExpr<T> {
    type V = Pattern<T>;

    open spec fn view(&self) -> Pattern<T> {
        self.pattern()
    }
}

#[derive(Debug)]
struct TransitionFunc<'a, T: TerminalMatcher> {
    terminals: Vec<(usize, &'a T)>,
    epsilons: Vec<usize>,
}

impl<'a, T: TerminalMatcher> TransitionFunc<'a, T> {
    /// There is a terminal transition to `q`, guarded by `m`.
    spec fn has_step(&self, m: T, q: nat) -> bool {
        exists|i: int|
            0 <= i < self.terminals@.len() && (#[trigger] self.terminals@[i]).0 == q
                && *self.terminals@[i].1 == m
    }

    /// There is an epsilon transition to `q`.
    spec fn has_jump(&self, q: nat) -> bool {
        exists|i: int| 0 <= i < self.epsilons@.len() && #[trigger] self.epsilons@[i] == q
    }

    /// Among the first `upto` terminal transitions there is one to `q`
    /// whose matcher accepts `t`.
    spec fn steps_below(&self, upto: int, t: T::Terminal, q: nat) -> bool {
        exists|i: int|
            0 <= i < upto && (#[trigger] self.terminals@[i]).0 == q && self.terminals@[i].1.accepts(
                &t,
            )
    }

    /// There is a terminal transition to `q` whose matcher accepts `t`.
    spec fn steps_on(&self, t: T::Terminal, q: nat) -> bool {
        self.steps_below(self.terminals@.len() as int, t, q)
    }

    /// The states to which a terminal transition leads whose matcher
    /// accepts `terminal`.
    fn get_terminal_transitions(&self, terminal: &T::Terminal) -> (targets: Vec<usize>)
        ensures
            forall|q: usize| targets@.contains(q) <==> self.steps_on(*terminal, q as nat),
    {
        let mut targets: Vec<usize> = Vec::new();
        let mut i: usize = 0;
        while i < self.terminals.len()
            invariant
                i <= self.terminals@.len(),
                forall|q: usize|
                    targets@.contains(q) <==> self.steps_below(i as int, *terminal, q as nat),
            decreases self.terminals@.len() - i,
        {
            let (state, matcher) = self.terminals[i];
            let ghost found = targets@;
            let hit = matcher.matches(terminal);
            if hit {
                proof {
                    lemma_push_contains(targets@, state);
                }
                targets.push(state);
            }
            proof {
                assert forall|q: usize|
                    targets@.contains(q) <==> self.steps_below(
                        i + 1,
                        *terminal,
                        q as nat,
                    ) by {
                    assert(found.contains(q) ==> self.steps_below(i as int, *terminal, q as nat));
                }
            }
            i += 1;
        }
        targets
    }

    /// Every transition leads to a state below `size`.
    spec fn bounded(&self, size: nat) -> bool {
        &&& forall|i: int|
            0 <= i < self.terminals@.len() ==> (#[trigger] self.terminals@[i]).0 < size
        &&& forall|i: int| 0 <= i < self.epsilons@.len() ==> #[trigger] self.epsilons@[i] < size
    }
}

/// Every transition in the table leads to a state of the table.
spec fn bounded<'a, T: TerminalMatcher>(table: Seq<TransitionFunc<'a, T>>) -> bool {
    forall|p: int| 0 <= p < table.len() ==> (#[trigger] table[p]).bounded(table.len())
}

/// The automaton that a table of per-state transitions stands for.
spec fn model<'a, T: TerminalMatcher>(table: Seq<TransitionFunc<'a, T>>) -> Automaton<T> {
    Automaton {
        size: table.len(),
        steps: Set::new(
            |e: (nat, T, nat)| e.0 < table.len() && table[e.0 as int].has_step(e.1, e.2),
        ),
        jumps: Set::new(|e: (nat, nat)| e.0 < table.len() && table[e.0 as int].has_jump(e.1)),
    }
}

/// A state without transitions, appended to the table, is a new state of
/// the automaton.
proof fn lemma_model_push<'a, T: TerminalMatcher>(
    table: Seq<TransitionFunc<'a, T>>,
    state: TransitionFunc<'a, T>,
)
    requires
        state.terminals@.len() == 0,
        state.epsilons@.len() == 0,
    ensures
        model(table.push(state)) == model(table).with_state(),
{
    let a = model(table.push(state));
    let b = model(table).with_state();
    assert(a.steps =~= b.steps);
    assert(a.jumps =~= b.jumps);
}

/// One more entry in the terminal transitions of state `p` is one more
/// terminal transition of the automaton.
proof fn lemma_model_step<'a, T: TerminalMatcher>(
    table: Seq<TransitionFunc<'a, T>>,
    after: Seq<TransitionFunc<'a, T>>,
    p: nat,
    m: &'a T,
    q: usize,
)
    requires
        p < table.len(),
        after.len() == table.len(),
        forall|x: int| 0 <= x < table.len() && x != p ==> after[x] == table[x],
        after[p as int].terminals@ == table[p as int].terminals@.push((q, m)),
        after[p as int].epsilons@ == table[p as int].epsilons@,
    ensures
        model(after) == model(table).with_step(p, *m, q as nat),
{
    let a = model(after);
    let b = model(table).with_step(p, *m, q as nat);
    let old_p = table[p as int];
    let new_p = after[p as int];
    assert forall|e: (nat, T, nat)| a.steps.contains(e) <==> b.steps.contains(e) by {
        if e.0 == p {
            if old_p.has_step(e.1, e.2) {
                let i = choose|i: int|
                    0 <= i < old_p.terminals@.len() && (#[trigger] old_p.terminals@[i]).0 == e.2
                        && *old_p.terminals@[i].1 == e.1;
                assert(new_p.terminals@[i] == old_p.terminals@[i]);
            }
            if e.1 == *m && e.2 == q as nat {
                let i = old_p.terminals@.len() as int;
                assert(new_p.terminals@[i] == (q, m));
            }
        }
    }
    assert(a.steps =~= b.steps);
    assert(a.jumps =~= b.jumps);
}

/// One more entry in the epsilon transitions of state `p` is one more
/// epsilon transition of the automaton.
proof fn lemma_model_jump<'a, T: TerminalMatcher>(
    table: Seq<TransitionFunc<'a, T>>,
    after: Seq<TransitionFunc<'a, T>>,
    p: nat,
    q: usize,
)
    requires
        p < table.len(),
        after.len() == table.len(),
        forall|x: int| 0 <= x < table.len() && x != p ==> after[x] == table[x],
        after[p as int].terminals@ == table[p as int].terminals@,
        after[p as int].epsilons@ == table[p as int].epsilons@.push(q),
    ensures
        model(after) == model(table).with_jump(p, q as nat),
{
    let a = model(after);
    let b = model(table).with_jump(p, q as nat);
    let old_p = table[p as int];
    let new_p = after[p as int];
    assert forall|e: (nat, nat)| a.jumps.contains(e) <==> b.jumps.contains(e) by {
        if e.0 == p {
            if old_p.has_jump(e.1) {
                let i = choose|i: int|
                    0 <= i < old_p.epsilons@.len() && #[trigger] old_p.epsilons@[i] == e.1;
                assert(new_p.epsilons@[i] == old_p.epsilons@[i]);
            }
            if e.1 == q as nat {
                let i = old_p.epsilons@.len() as int;
                assert(new_p.epsilons@[i] == q);
            }
        }
    }
    assert(a.steps =~= b.steps);
    assert(a.jumps =~= b.jumps);
}

/// The epsilon transitions `0 .. upto` of state `p` lead to marked states.
spec fn closed_state<'a, T: TerminalMatcher>(
    table: Seq<TransitionFunc<'a, T>>,
    marks: Seq<bool>,
    p: int,
    upto: int,
) -> bool {
    forall|j: int| 0 <= j < upto ==> marks[#[trigger] table[p].epsilons@[j] as int]
}

/// The epsilon transitions of the marked states below `bound` lead to
/// marked states.
spec fn closed_below<'a, T: TerminalMatcher>(
    table: Seq<TransitionFunc<'a, T>>,
    marks: Seq<bool>,
    bound: int,
) -> bool {
    forall|p: int|
        0 <= p < bound && #[trigger] marks[p] ==> closed_state(
            table,
            marks,
            p,
            table[p].epsilons@.len() as int,
        )
}

/// The states below the size of the table.
spec fn states_of<'a, T: TerminalMatcher>(table: Seq<TransitionFunc<'a, T>>) -> Set<nat> {
    Set::new(|x: nat| x < table.len())
}

/// The automaton of a bounded table has its transitions among its states.
proof fn lemma_model_inside<'a, T: TerminalMatcher>(table: Seq<TransitionFunc<'a, T>>)
    requires
        bounded(table),
    ensures
        model(table).inside(states_of(table)),
{
    let a = model(table);
    assert forall|x: nat, y: nat| #[trigger] a.jumps.contains((x, y)) implies states_of(
        table,
    ).contains(x) && states_of(table).contains(y) by {
    }
    assert forall|x: nat, m: T, y: nat| #[trigger] a.steps.contains((x, m, y)) implies states_of(
        table,
    ).contains(x) && states_of(table).contains(y) by {
    }
}

/// The terminal transitions of the automaton on `t` are those of the table.
proof fn lemma_model_steps_on<'a, T: TerminalMatcher>(
    table: Seq<TransitionFunc<'a, T>>,
    p: nat,
    t: T::Terminal,
    q: nat,
)
    ensures
        model(table).step(p, t, q) <==> p < table.len() && table[p as int].steps_on(t, q),
{
    let a = model(table);
    if a.step(p, t, q) {
        let state = table[p as int];
    }
    if p < table.len() && table[p as int].steps_on(t, q) {
        let state = table[p as int];
        let i = choose|i: int|
            0 <= i < state.terminals@.len() && (#[trigger] state.terminals@[i]).0 == q
                && state.terminals@[i].1.accepts(&t);
        let m = *state.terminals@[i].1;
        assert(a.steps.contains((p, m, q)));
    }
}

/// A compiled pattern: the automaton's states, each with its transitions,
/// and the numbers of the start state and the end state.
#[derive(Debug)]
pub struct Matcher<'a, T: TerminalMatcher> {
    transition_funcs: Vec<TransitionFunc<'a, T>>,
    start_state: usize,
    end_state: usize,
}

impl<'a, T: TerminalMatcher> View for Matcher<'a, T> {
    type V = Automaton<T>;

    closed spec fn view(&self) -> Automaton<T> {
        model(self.transition_funcs@)
    }
}

impl<'a, T: TerminalMatcher> Matcher<'a, T> {
    /// The start state is 0 and the end state is 1, both exist, and every
    /// transition leads to a state that exists.
    #[verifier::type_invariant]
    spec fn well_formed(&self) -> bool {
        &&& self.start_state == 0
        &&& self.end_state == 1
        &&& self.transition_funcs@.len() >= 2
        &&& bounded(self.transition_funcs@)
    }

    /// Compiles `expr`: the start state and the end state are created first,
    /// and the pattern is expanded between them.
    pub fn new(expr: &'a CoreExpr<T>) -> (matcher: Self)
        ensures
            matcher@ == automaton(expr@),
    {
        let mut transition_funcs = Vec::new();
        let start_state = Self::create_new_state(&mut transition_funcs);
        let end_state = Self::create_new_state(&mut transition_funcs);
        Self::expand(&mut transition_funcs, expr, start_state, end_state);
        proof {
            lemma_fragment_size(expr@, 0, 1, 2);
            model(transition_funcs@).lemma_equal(automaton(expr@));
        }
        Matcher { transition_funcs, start_state, end_state }
    }

    /// Decides whether the sequence `string` matches the pattern: whether
    /// the automaton can get from its start state to its end state by
    /// consuming exactly the terminals of `string`, in order.
    pub fn match_sequence(&self, string: &[T::Terminal]) -> (accepted: bool)
        ensures
            accepted == self@.accepts(string@),
    {
        proof {
            use_type_invariant(self);
            lemma_model_inside(self.transition_funcs@);
        }
        let ghost a = self@;
        let n = self.transition_funcs.len();
        let mut current_states: Vec<bool> = vec![false; n];
        current_states[self.start_state] = true;
        let ghost seed = current_states@;
        self.extend_epsilons(&mut current_states);
        proof {
            assert(string@.take(0) =~= Seq::empty());
            assert forall|q: nat| q < n implies (current_states@[q as int] <==> a.reaches(
                0,
                string@.take(0),
                q,
            )) by {
                if a.reaches(0, Seq::empty(), q) {
                    assert(marked(seed).contains(0));
                }
            }
        }
        let mut i: usize = 0;
        while i < string.len()
            invariant
                i <= string@.len(),
                a == self@,
                n == a.size,
                n >= 2,
                a.inside(Set::new(|x: nat| x < a.size)),
                current_states@.len() == n,
                forall|q: nat|
                    q < n ==> (current_states@[q as int] <==> a.reaches(
                        0,
                        string@.take(i as int),
                        q,
                    )),
            decreases string@.len() - i,
        {
            if Self::is_empty(&current_states) {
                proof {
                    if a.accepts(string@) {
                        let r = a.lemma_reaches_prefix(0, string@, 1, i as int);
                        a.lemma_reaches_inside(
                            Set::new(|x: nat| x < a.size),
                            0,
                            string@.take(i as int),
                            r,
                        );
                        assert(current_states@[r as int]);
                    }
                }
                return false;
            }
            let terminal = &string[i];
            let mut next_states = self.get_next_states(&current_states, terminal);
            let ghost stepped = next_states@;
            self.extend_epsilons(&mut next_states);
            proof {
                lemma_round(
                    a,
                    string@.take(i as int),
                    *terminal,
                    current_states@,
                    stepped,
                    next_states@,
                );
                assert(string@.take(i as int).push(*terminal) =~= string@.take(i + 1));
            }
            current_states = next_states;
            i += 1;
        }
        proof {
            assert(string@.take(string@.len() as int) =~= string@);
        }
        current_states[self.end_state]
    }

    /// Whether no state is marked.
    fn is_empty(states: &Vec<bool>) -> (empty: bool)
        ensures
            empty <==> forall|q: int| 0 <= q < states@.len() ==> !states@[q],
    {
        let mut p: usize = 0;
        while p < states.len()
            invariant
                p <= states@.len(),
                forall|q: int| 0 <= q < p ==> !states@[q],
            decreases states@.len() - p,
        {
            if states[p] {
                return false;
            }
            p += 1;
        }
        true
    }

    /// Marks the states to which a terminal transition leads from a marked
    /// state, where the matcher of the transition accepts `terminal`.
    fn get_next_states(&self, states: &Vec<bool>, terminal: &T::Terminal) -> (next: Vec<bool>)
        requires
            states@.len() == self@.size,
        ensures
            next@.len() == states@.len(),
            forall|q: nat|
                q < next@.len() ==> (next@[q as int] <==> stepped_from(
                    self@,
                    states@,
                    self@.size,
                    *terminal,
                    q,
                )),
    {
        proof {
            use_type_invariant(self);
        }
        let ghost a = self@;
        let n = states.len();
        let mut next: Vec<bool> = vec![false; n];
        let mut p: usize = 0;
        while p < n
            invariant
                p <= n,
                a == self@,
                n == states@.len(),
                n == self.transition_funcs@.len(),
                bounded(self.transition_funcs@),
                next@.len() == n,
                forall|q: nat|
                    q < n ==> (next@[q as int] <==> stepped_from(a, states@, p as nat, *terminal, q)),
            decreases n - p,
        {
            if states[p] {
                let targets = self.transition_funcs[p].get_terminal_transitions(terminal);
                let ghost before = next@;
                let mut j: usize = 0;
                while j < targets.len()
                    invariant
                        j <= targets@.len(),
                        p < n,
                        n == self.transition_funcs@.len(),
                        bounded(self.transition_funcs@),
                        next@.len() == n,
                        before.len() == n,
                        forall|q: usize|
                            targets@.contains(q) <==> self.transition_funcs@[p as int].steps_on(
                                *terminal,
                                q as nat,
                            ),
                        forall|q: nat|
                            q < n ==> (#[trigger] next@[q as int] <==> before[q as int] || listed(
                                targets@,
                                j as int,
                                q,
                            )),
                    decreases targets@.len() - j,
                {
                    let target = targets[j];
                    let ghost marks = next@;
                    proof {
                        assert(targets@.contains(target));
                        let state = self.transition_funcs@[p as int];
                    }
                    next[target] = true;
                    proof {
                        assert forall|q: nat| q < n implies (#[trigger] next@[q as int]
                            <==> before[q as int] || listed(targets@, j + 1, q)) by {
                            assert(marks[q as int] <==> before[q as int] || listed(
                                targets@,
                                j as int,
                                q,
                            ));
                        }
                    }
                    j += 1;
                }
                proof {
                    assert forall|q: nat| q < n implies (next@[q as int] <==> stepped_from(
                        a,
                        states@,
                        (p + 1) as nat,
                        *terminal,
                        q,
                    )) by {
                        lemma_model_steps_on(self.transition_funcs@, p as nat, *terminal, q);
                        if stepped_from(a, states@, (p + 1) as nat, *terminal, q) {
                            let x = choose|x: nat|
                                x < p + 1 && #[trigger] marked(states@).contains(x) && a.step(
                                    x,
                                    *terminal,
                                    q,
                                );
                            if x >= p {
                                assert(targets@.contains(q as usize));
                            }
                        }
                        if listed(targets@, targets@.len() as int, q) {
                            let k = choose|k: int|
                                0 <= k < targets@.len() && #[trigger] targets@[k] == q;
                            assert(targets@.contains(targets@[k]));
                            assert(marked(states@).contains(p as nat));
                        }
                    }
                }
            } else {
                proof {
                    assert forall|q: nat| q < n implies (next@[q as int] <==> stepped_from(
                        a,
                        states@,
                        (p + 1) as nat,
                        *terminal,
                        q,
                    )) by {
                    }
                }
            }
            p += 1;
        }
        next
    }

    /// Marks every state that a marked state reaches through epsilon
    /// transitions alone: passes over the states until a pass marks none.
    fn extend_epsilons(&self, states: &mut Vec<bool>)
        requires
            old(states)@.len() == self@.size,
        ensures
            final(states)@.len() == old(states)@.len(),
            forall|q: nat|
                q < final(states)@.len() ==> (final(states)@[q as int] <==> reached_from(
                    self@,
                    old(states)@,
                    q,
                )),
    {
        proof {
            use_type_invariant(self);
        }
        let ghost a = self@;
        let ghost seed = states@;
        let n = states.len();
        let mut changed = true;
        proof {
            assert forall|q: nat| q < n && states@[q as int] implies reached_from(a, seed, q) by {
                a.lemma_reaches_here(q);
                assert(marked(seed).contains(q));
            }
        }
        while changed
            invariant
                a == self@,
                n == seed.len(),
                n == self.transition_funcs@.len(),
                bounded(self.transition_funcs@),
                states@.len() == n,
                forall|q: int| 0 <= q < n && seed[q] ==> states@[q],
                forall|q: nat| q < n && states@[q as int] ==> reached_from(a, seed, q),
                !changed ==> closed_below(self.transition_funcs@, states@, n as int),
            decreases
                    unmarked(states@),
                    (if changed {
                        1nat
                    } else {
                        0nat
                    }),
        {
            changed = false;
            let ghost round = states@;
            let mut p: usize = 0;
            while p < n
                invariant
                    p <= n,
                    a == self@,
                    n == seed.len(),
                    n == self.transition_funcs@.len(),
                    bounded(self.transition_funcs@),
                    states@.len() == n,
                    forall|q: int| 0 <= q < n && seed[q] ==> states@[q],
                    forall|q: nat| q < n && states@[q as int] ==> reached_from(a, seed, q),
                    !changed ==> states@ == round,
                    changed ==> unmarked(states@) < unmarked(round),
                    !changed ==> closed_below(self.transition_funcs@, states@, p as int),
                decreases n - p,
            {
                if states[p] {
                    let mut j: usize = 0;
                    while j < self.transition_funcs[p].epsilons.len()
                        invariant
                            p < n,
                            j <= self.transition_funcs@[p as int].epsilons@.len(),
                            a == self@,
                            n == seed.len(),
                            n == self.transition_funcs@.len(),
                            bounded(self.transition_funcs@),
                            states@.len() == n,
                            states@[p as int],
                            forall|q: int| 0 <= q < n && seed[q] ==> states@[q],
                            forall|q: nat| q < n && states@[q as int] ==> reached_from(a, seed, q),
                            !changed ==> states@ == round,
                            changed ==> unmarked(states@) < unmarked(round),
                            !changed ==> closed_below(self.transition_funcs@, states@, p as int),
                            !changed ==> closed_state(
                                self.transition_funcs@,
                                states@,
                                p as int,
                                j as int,
                            ),
                        decreases self.transition_funcs@[p as int].epsilons@.len() - j,
                    {
                        let target = self.transition_funcs[p].epsilons[j];
                        if !states[target] {
                            proof {
                                lemma_unmarked_update(states@, target as int);
                                let origin = choose|x: nat| #[trigger]
                                    marked(seed).contains(x) && a.reaches(
                                        x,
                                        Seq::empty(),
                                        p as nat,
                                    );
                                a.lemma_reaches_jump(p as nat, target as nat);
                                a.lemma_reaches_concat(
                                    origin,
                                    Seq::empty(),
                                    p as nat,
                                    Seq::empty(),
                                    target as nat,
                                );
                                assert(Seq::<T::Terminal>::empty() + Seq::<T::Terminal>::empty()
                                    =~= Seq::<T::Terminal>::empty());
                            }
                            states[target] = true;
                            changed = true;
                        }
                        j += 1;
                    }
                }
                p += 1;
            }
        }
        proof {
            let region = marked(states@);
            assert forall|x: nat, y: nat| region.contains(x) && #[trigger] a.jump(x, y) implies
                region.contains(y) by {
                let state = self.transition_funcs@[x as int];
            }
            assert forall|q: nat| q < n && reached_from(a, seed, q) implies states@[q as int] by {
                let origin = choose|x: nat| #[trigger]
                    marked(seed).contains(x) && a.reaches(x, Seq::empty(), q);
                a.lemma_reaches_closed(region, origin, q);
            }
        }
    }

    /// Expands `expr` between the states `start_state` and `end_state`.
    fn expand(
        transition_funcs: &mut Vec<TransitionFunc<'a, T>>,
        expr: &'a CoreExpr<T>,
        start_state: usize,
        end_state: usize,
    )
        requires
            bounded(old(transition_funcs)@),
            start_state < old(transition_funcs)@.len(),
            end_state < old(transition_funcs)@.len(),
        ensures
            bounded(final(transition_funcs)@),
            model(final(transition_funcs)@) == model(old(transition_funcs)@).union(
                fragment(
                    expr@,
                    start_state as nat,
                    end_state as nat,
                    old(transition_funcs)@.len(),
                ),
            ),
        decreases expr,
    {
        let ghost before = model(transition_funcs@);
        let ghost target = before.union(
            fragment(expr@, start_state as nat, end_state as nat, transition_funcs@.len()),
        );
        match expr {
            CoreExpr::Terminal(matcher) => {
                Self::add_terminal(transition_funcs, start_state, end_state, matcher);
                proof {
                    model(transition_funcs@).lemma_equal(target);
                }
            },
            CoreExpr::Sequence(exprs) => {
                let ghost es = CoreExpr::patterns(exprs@);
                let mut prev_state = start_state;
                let mut i: usize = 0;
                while i < exprs.len()
                    invariant
                        i <= exprs.len(),
                        *expr == CoreExpr::Sequence(*exprs),
                        es == CoreExpr::patterns(exprs@),
                        bounded(transition_funcs@),
                        prev_state < transition_funcs@.len(),
                        end_state < transition_funcs@.len(),
                        target == model(transition_funcs@).union(
                            fragment_sequence(
                                es,
                                i as nat,
                                prev_state as nat,
                                end_state as nat,
                                transition_funcs@.len(),
                            ),
                        ),
                    decreases exprs.len() - i,
                {
                    let ghost size = transition_funcs@.len();
                    let ghost head = fragment(es[i as int], prev_state as nat, size, size + 1);
                    let next_state = Self::create_new_state(transition_funcs);
                    assert(decreases_to!(*expr => expr->Sequence_0));
                    Self::expand(transition_funcs, &exprs[i], prev_state, next_state);
                    proof {
                        lemma_fragment_size(es[i as int], prev_state as nat, size, size + 1);
                        target.lemma_equal(
                            model(transition_funcs@).union(
                                fragment_sequence(
                                    es,
                                    (i + 1) as nat,
                                    next_state as nat,
                                    end_state as nat,
                                    head.size,
                                ),
                            ),
                        );
                    }
                    prev_state = next_state;
                    i += 1;
                }
                Self::add_epsilon(transition_funcs, prev_state, end_state);
                proof {
                    model(transition_funcs@).lemma_equal(target);
                }
            },
            CoreExpr::Choice(exprs) => {
                let ghost es = CoreExpr::patterns(exprs@);
                let mut i: usize = 0;
                while i < exprs.len()
                    invariant
                        i <= exprs.len(),
                        *expr == CoreExpr::Choice(*exprs),
                        es == CoreExpr::patterns(exprs@),
                        bounded(transition_funcs@),
                        start_state < transition_funcs@.len(),
                        end_state < transition_funcs@.len(),
                        target == model(transition_funcs@).union(
                            fragment_choice(
                                es,
                                i as nat,
                                start_state as nat,
                                end_state as nat,
                                transition_funcs@.len(),
                            ),
                        ),
                    decreases exprs.len() - i,
                {
                    let ghost size = transition_funcs@.len();
                    let ghost head = fragment(
                        es[i as int],
                        start_state as nat,
                        end_state as nat,
                        size,
                    );
                    assert(decreases_to!(*expr => expr->Choice_0));
                    Self::expand(transition_funcs, &exprs[i], start_state, end_state);
                    proof {
                        lemma_fragment_size(es[i as int], start_state as nat, end_state as nat, size);
                        target.lemma_equal(
                            model(transition_funcs@).union(
                                fragment_choice(
                                    es,
                                    (i + 1) as nat,
                                    start_state as nat,
                                    end_state as nat,
                                    head.size,
                                ),
                            ),
                        );
                    }
                    i += 1;
                }
                proof {
                    model(transition_funcs@).lemma_equal(target);
                }
            },
            CoreExpr::Repeat(inner) => {
                Self::add_epsilon(transition_funcs, start_state, end_state);
                Self::add_epsilon(transition_funcs, end_state, start_state);
                Self::expand(transition_funcs, inner, start_state, end_state);
                proof {
                    lemma_fragment_size(
                        inner@,
                        start_state as nat,
                        end_state as nat,
                        before.size,
                    );
                    model(transition_funcs@).lemma_equal(target);
                }
            },
            CoreExpr::Null => {
                Self::add_epsilon(transition_funcs, start_state, end_state);
                proof {
                    model(transition_funcs@).lemma_equal(target);
                }
            },
        }
    }

    /// Adds a state without transitions and returns its number.
    fn create_new_state(transition_funcs: &mut Vec<TransitionFunc<'a, T>>) -> (state: usize)
        requires
            bounded(old(transition_funcs)@),
        ensures
            state == old(transition_funcs)@.len(),
            bounded(final(transition_funcs)@),
            model(final(transition_funcs)@) == model(old(transition_funcs)@).with_state(),
    {
        let state = transition_funcs.len();
        let fresh = TransitionFunc { terminals: Vec::new(), epsilons: Vec::new() };
        proof {
            lemma_model_push(transition_funcs@, fresh);
        }
        transition_funcs.push(fresh);
        state
    }

    /// Adds a terminal transition from `from` to `to`, guarded by `matcher`.
    fn add_terminal(
        transition_funcs: &mut Vec<TransitionFunc<'a, T>>,
        from: usize,
        to: usize,
        matcher: &'a T,
    )
        requires
            bounded(old(transition_funcs)@),
            from < old(transition_funcs)@.len(),
            to < old(transition_funcs)@.len(),
        ensures
            bounded(final(transition_funcs)@),
            model(final(transition_funcs)@) == model(old(transition_funcs)@).with_step(
                from as nat,
                *matcher,
                to as nat,
            ),
    {
        let ghost table = transition_funcs@;
        transition_funcs[from].terminals.push((to, matcher));
        proof {
            lemma_model_step(table, transition_funcs@, from as nat, matcher, to);
        }
    }

    /// Adds an epsilon transition from `from` to `to`.
    fn add_epsilon(transition_funcs: &mut Vec<TransitionFunc<'a, T>>, from: usize, to: usize)
        requires
            bounded(old(transition_funcs)@),
            from < old(transition_funcs)@.len(),
            to < old(transition_funcs)@.len(),
        ensures
            bounded(final(transition_funcs)@),
            model(final(transition_funcs)@) == model(old(transition_funcs)@).with_jump(
                from as nat,
                to as nat,
            ),
    {
        let ghost table = transition_funcs@;
        transition_funcs[from].epsilons.push(to);
        proof {
            lemma_model_jump(table, transition_funcs@, from as nat, to);
        }
    }
}

} // verus!
