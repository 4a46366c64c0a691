use crate::regex::Regex;
use vstd::prelude::*;

verus! {

/// Label of a transition.
#[derive(Debug, Clone, Copy, PartialEq, Eq, PartialOrd, Ord)]
pub enum Trans {
    /// Consumes exactly this character.
    Symbol(char),
    /// Consumes any one character.
    Any,
    /// Consumes no input.
    Epsilon,
}

/// A state of the automaton: its index in the state table and its outgoing
/// transitions, each a destination index with a label.
#[derive(Debug, Clone, PartialEq, Eq, PartialOrd, Ord)]
pub struct State {
    id: usize,
    transitions: Vec<(usize, Trans)>,
}

/// A nondeterministic finite automaton with epsilon transitions.
#[derive(Debug, Clone, PartialEq)]
pub struct NFA {
    states: Vec<State>,
    initial_state: usize,
    accepting_states: Vec<usize>,
}

/// Transition table: for each state, its outgoing edges in insertion order.
pub type Table = Seq<Seq<(usize, Trans)>>;

/// Mathematical model of an automaton.
pub struct NfaView {
    pub states: Table,
    pub initial: usize,
    pub accepting: Seq<usize>,
}

/// `st` with the edge `from --label--> to` appended to the edges of `from`.
pub open spec fn add_edge(st: Table, from: int, to: int, label: Trans) -> Table {
    st.update(from, st[from].push((to as usize, label)))
}

/// Number of states that Thompson's construction allots to `r`.
pub open spec fn state_count(r: Regex) -> nat
    decreases r,
{
    match r {
        Regex::Symbol(_) => 2,
        Regex::Dot => 2,
        Regex::Empty => 1,
        Regex::Concat((left, right)) => 1 + state_count(*left) + state_count(*right),
        Regex::Union((left, right)) => 2 + state_count(*left) + state_count(*right),
        Regex::Star(inner) => 2 + state_count(*inner),
        Regex::Plus(inner) => 2 + state_count(*inner),
    }
}

/// Thompson's construction: appends fresh states for `r` to the table `st`,
/// wires them, and gives the new table with the fragment's entry and exit.
pub open spec fn build(r: Regex, st: Table) -> (Table, int, int)
    decreases r,
{
    let n = st.len() as int;
    match r {
        Regex::Symbol(c) => (add_edge(st.push(seq![]).push(seq![]), n, n + 1, Trans::Symbol(c)), n, n + 1),
        Regex::Dot => (add_edge(st.push(seq![]).push(seq![]), n, n + 1, Trans::Any), n, n + 1),
        Regex::Empty => (st.push(seq![]), n, n),
        Regex::Concat((left, right)) => {
            let (t1, l_first, l_last) = build(*left, st.push(seq![]));
            let (t2, r_first, r_last) = build(*right, t1);
            let t3 = add_edge(add_edge(t2, n, l_first, Trans::Epsilon), l_last, r_first, Trans::Epsilon);
            (t3, n, r_last)
        },
        Regex::Union((left, right)) => {
            let (t1, l_first, l_last) = build(*left, st.push(seq![]));
            let (t2, r_first, r_last) = build(*right, t1);
            let t3 = add_edge(add_edge(t2, n, l_first, Trans::Epsilon), n, r_first, Trans::Epsilon);
            let last = t3.len() as int;
            let t4 = t3.push(seq![]);
            (add_edge(add_edge(t4, l_last, last, Trans::Epsilon), r_last, last, Trans::Epsilon), n, last)
        },
        Regex::Star(inner) => {
            let (t1, i_first, i_last) = build(*inner, st.push(seq![]));
            let t2 = add_edge(add_edge(t1, n, i_first, Trans::Epsilon), i_last, n, Trans::Epsilon);
            let last = t2.len() as int;
            let t3 = t2.push(seq![]);
            (add_edge(add_edge(t3, n, last, Trans::Epsilon), i_last, last, Trans::Epsilon), n, last)
        },
        Regex::Plus(inner) => {
            let (t1, i_first, i_last) = build(*inner, st.push(seq![]));
            let t2 = add_edge(add_edge(t1, n, i_first, Trans::Epsilon), i_last, n, Trans::Epsilon);
            let last = t2.len() as int;
            let t3 = t2.push(seq![]);
            (add_edge(t3, i_last, last, Trans::Epsilon), n, last)
        },
    }
}

/// The automaton that compiling `r` yields: the table that Thompson's
/// construction builds from nothing, entered at the root's entry (state 0)
/// and accepting at the root's exit.
pub open spec fn compiled(r: Regex) -> NfaView {
    let (t, first, last) = build(r, seq![]);
    NfaView { states: t, initial: first as usize, accepting: seq![last as usize] }
}

/// The set of indices at which `v` holds `true`.
pub open spec fn set_of(v: Seq<bool>) -> Set<int> {
    Set::new(|i: int| 0 <= i < v.len() && v[i])
}

impl NfaView {
    /// `s` is a state of the table and has an epsilon edge to `t`.
    pub open spec fn eps_edge(self, s: int, t: int) -> bool {
        0 <= s < self.states.len() && 0 <= t && exists|j: int|
            0 <= j < self.states[s].len() && #[trigger] self.states[s][j].0 == t && self.states[s][j].1
                == Trans::Epsilon
    }

    /// `s` is a state of the table and has an edge to `t` that consumes `c`:
    /// one labelled `c`, or a wildcard.
    pub open spec fn char_edge(self, s: int, c: char, t: int) -> bool {
        0 <= s < self.states.len() && 0 <= t && exists|j: int|
            0 <= j < self.states[s].len() && #[trigger] self.states[s][j].0 == t && (
            self.states[s][j].1 == Trans::Symbol(c) || self.states[s][j].1 == Trans::Any)
    }

    /// `p` is a walk of states of the table along epsilon edges.
    pub open spec fn eps_path(self, p: Seq<int>) -> bool {
        &&& p.len() >= 1
        &&& forall|i: int| 0 <= i < p.len() ==> 0 <= #[trigger] p[i] < self.states.len()
        &&& forall|i: int| 0 <= i < p.len() - 1 ==> self.eps_edge(#[trigger] p[i], p[i + 1])
    }

    /// `t` can be reached from `s` by epsilon edges alone (in zero or more steps).
    pub open spec fn eps_reach(self, s: int, t: int) -> bool {
        exists|p: Seq<int>| #[trigger] self.eps_path(p) && p[0] == s && p.last() == t
    }

    /// Epsilon closure: the states reachable from `set` by epsilon edges alone.
    pub open spec fn closure(self, set: Set<int>) -> Set<int> {
        Set::new(|t: int| exists|s: int| set.contains(s) && #[trigger] self.eps_reach(s, t))
    }

    /// The states that an edge consuming `c` leads to from a state of `set`.
    pub open spec fn step(self, set: Set<int>, c: char) -> Set<int> {
        Set::new(|t: int| exists|s: int| set.contains(s) && #[trigger] self.char_edge(s, c, t))
    }

    /// The states live after reading `input` from the live states `set`: each
    /// character takes one step and then the epsilon closure.
    pub open spec fn run(self, set: Set<int>, input: Seq<char>) -> Set<int>
        decreases input.len(),
    {
        if input.len() == 0 {
            set
        } else {
            self.run(self.closure(self.step(set, input[0])), input.drop_first())
        }
    }

    /// The states live at the start: the epsilon closure of the initial state.
    pub open spec fn start(self) -> Set<int> {
        self.closure(set![self.initial as int])
    }

    /// The automaton accepts `input`: an accepting state is live after it.
    pub open spec fn accepts(self, input: Seq<char>) -> bool {
        exists|k: int|
            0 <= k < self.accepting.len() && #[trigger] self.run(self.start(), input).contains(
                self.accepting[k] as int,
            )
    }

    /// Every edge and every accepting index names a state of the table.
    pub open spec fn wf(self) -> bool {
        &&& forall|s: int, j: int|
            0 <= s < self.states.len() && 0 <= j < self.states[s].len() ==> #[trigger] self.states[s][j].0
                < self.states.len()
        &&& forall|k: int| 0 <= k < self.accepting.len() ==> #[trigger] self.accepting[k] < self.states.len()
    }
}

/// Number of `true` entries of `s`.
spec fn count_true(s: Seq<bool>) -> nat
    decreases s.len(),
{
    if s.len() == 0 {
        0
    } else {
        count_true(s.drop_last()) + if s.last() {
            1nat
        } else {
            0nat
        }
    }
}

proof fn lemma_count_bound(s: Seq<bool>)
    ensures
        count_true(s) <= s.len(),
    decreases s.len(),
{
    if s.len() > 0 {
        lemma_count_bound(s.drop_last());
    }
}

proof fn lemma_count_set(s: Seq<bool>, i: int)
    requires
        0 <= i < s.len(),
        !s[i],
    ensures
        count_true(s.update(i, true)) == count_true(s) + 1,
    decreases s.len(),
{
    let u = s.update(i, true);
    if i == s.len() - 1 {
        assert(u.drop_last() =~= s.drop_last());
    } else {
        assert(u.drop_last() =~= s.drop_last().update(i, true));
        lemma_count_set(s.drop_last(), i);
    }
}

impl NfaView {
    pub(crate) proof fn lemma_reach_refl(self, s: int)
        requires
            0 <= s < self.states.len(),
        ensures
            self.eps_reach(s, s),
    {
        let p = seq![s];
        assert(self.eps_path(p));
    }

    pub(crate) proof fn lemma_reach_extend(self, s0: int, s: int, t: int)
        requires
            self.eps_reach(s0, s),
            self.eps_edge(s, t),
            t < self.states.len(),
        ensures
            self.eps_reach(s0, t),
    {
        let p = choose|p: Seq<int>| #[trigger] self.eps_path(p) && p[0] == s0 && p.last() == s;
        let q = p.push(t);
        assert forall|i: int| 0 <= i < q.len() - 1 implies self.eps_edge(#[trigger] q[i], q[i + 1]) by {
            if i < p.len() - 1 {
                assert(q[i] == p[i] && q[i + 1] == p[i + 1]);
            }
        }
        assert(self.eps_path(q));
        assert(q[0] == s0 && q.last() == t);
    }

    /// A set closed under epsilon edges holds the end of every epsilon walk
    /// that starts in it.
    proof fn lemma_closed_path(self, set: Set<int>, p: Seq<int>)
        requires
            self.eps_path(p),
            set.contains(p[0]),
            forall|s: int, t: int| set.contains(s) && #[trigger] self.eps_edge(s, t) ==> set.contains(t),
        ensures
            set.contains(p.last()),
        decreases p.len(),
    {
        if p.len() > 1 {
            let q = p.drop_last();
            assert(self.eps_path(q));
            self.lemma_closed_path(set, q);
            assert(self.eps_edge(p[p.len() - 2], p[p.len() - 1]));
        }
    }

    proof fn lemma_run_empty(self, input: Seq<char>)
        ensures
            self.run(Set::empty(), input) == Set::<int>::empty(),
        decreases input.len(),
    {
        if input.len() > 0 {
            assert(self.step(Set::empty(), input[0]) =~= Set::empty());
            assert(self.closure(Set::empty()) =~= Set::empty());
            self.lemma_run_empty(input.drop_first());
        }
    }
}

/// A vector of `n` entries, all `false`.
fn all_false(n: usize) -> (r: Vec<bool>)
    ensures
        r.len() == n,
        forall|i: int| 0 <= i < n ==> !#[trigger] r[i],
{
    let mut r: Vec<bool> = Vec::new();
    let mut i: usize = 0;
    while i < n
        invariant
            i <= n,
            r.len() == i,
            forall|k: int| 0 <= k < i ==> !#[trigger] r[k],
        decreases n - i,
    {
        r.push(false);
        i += 1;
    }
    r
}

/// Whether some entry of `v` is `true`.
fn any_true(v: &Vec<bool>) -> (r: bool)
    ensures
        r == (exists|i: int| 0 <= i < v.len() && #[trigger] v[i]),
{
    let mut i: usize = 0;
    while i < v.len()
        invariant
            i <= v.len(),
            forall|k: int| 0 <= k < i ==> !#[trigger] v[k],
        decreases v.len() - i,
    {
        if v[i] {
            return true;
        }
        i += 1;
    }
    false
}

impl View for NFA {
    type V = NfaView;

    closed spec fn view(&self) -> NfaView {
        NfaView {
            states: self.states@.map_values(|s: State| s.transitions@),
            initial: self.initial_state,
            accepting: self.accepting_states@,
        }
    }
}

impl State {
    fn new(id: usize) -> (r: State)
        ensures
            r.id == id,
            r.transitions@ == Seq::<(usize, Trans)>::empty(),
    {
        State { id, transitions: Vec::new() }
    }
}

impl NFA {
    /// The automaton is well formed, and each state knows its own index.
    pub closed spec fn wf(&self) -> bool {
        &&& self@.wf()
        &&& forall|i: int| 0 <= i < self.states.len() ==> #[trigger] self.states[i].id == i
    }

    /// An automaton with no states, initial index 0 and nothing accepting.
    pub fn new() -> (r: NFA)
        ensures
            r.wf(),
            r@.wf(),
            r@.states == Seq::<Seq<(usize, Trans)>>::empty(),
            r@.initial == 0,
            r@.accepting == Seq::<usize>::empty(),
    {
        let r = NFA { states: Vec::new(), initial_state: 0, accepting_states: Vec::new() };
        assert(r@.states =~= Seq::<Seq<(usize, Trans)>>::empty());
        r
    }

    /// Appends a state with no transitions and returns its index.
    pub fn add_state(&mut self) -> (r: usize)
        requires
            old(self).wf(),
            old(self)@.states.len() < usize::MAX,
        ensures
            final(self).wf(),
            final(self)@.wf(),
            r == old(self)@.states.len(),
            final(self)@.states == old(self)@.states.push(seq![]),
            final(self)@.initial == old(self)@.initial,
            final(self)@.accepting == old(self)@.accepting,
    {
        let ghost before = self@;
        let new_state = State::new(self.states.len());
        let id = new_state.id;
        self.states.push(new_state);
        assert(self@.states =~= before.states.push(seq![]));
        assert forall|s: int, j: int|
            0 <= s < self@.states.len() && 0 <= j < self@.states[s].len() implies #[trigger] self@.states[s][j].0
                < self@.states.len() by {
            assert(s < before.states.len());
            assert(self@.states[s] == before.states[s]);
        }
        assert forall|k: int| 0 <= k < self@.accepting.len() implies #[trigger] self@.accepting[k]
            < self@.states.len() by {
            assert(self@.accepting[k] == before.accepting[k]);
        }
        id
    }

    /// Appends the transition `from --trans--> to` to the edges of `from`.
    pub fn add_transition(&mut self, from: usize, to: usize, trans: Trans)
        requires
            old(self).wf(),
            from < old(self)@.states.len(),
            to < old(self)@.states.len(),
        ensures
            final(self).wf(),
            final(self)@.wf(),
            final(self)@.states == add_edge(old(self)@.states, from as int, to as int, trans),
            final(self)@.initial == old(self)@.initial,
            final(self)@.accepting == old(self)@.accepting,
    {
        let ghost before = self@;
        self.states[from].transitions.push((to, trans));
        assert(self@.states =~= add_edge(before.states, from as int, to as int, trans));
        assert forall|s: int, j: int|
            0 <= s < self@.states.len() && 0 <= j < self@.states[s].len() implies #[trigger] self@.states[s][j].0
                < self@.states.len() by {
            if s != from && j < before.states[s].len() {
                assert(self@.states[s] == before.states[s]);
            } else if s == from && j < before.states[s].len() {
                assert(self@.states[s][j] == before.states[s][j]);
            }
        }
        assert forall|k: int| 0 <= k < self@.accepting.len() implies #[trigger] self@.accepting[k]
            < self@.states.len() by {
            assert(self@.accepting[k] == before.accepting[k]);
        }
    }
}

impl NFA {
    /// Adds the states and transitions of Thompson's construction for
    /// `regex`; returns the entry and the exit of the fragment.
    pub fn regex_to_nfa_helper(&mut self, regex: Regex) -> (r: (usize, usize))
        requires
            old(self).wf(),
            old(self)@.states.len() + state_count(regex) <= usize::MAX,
        ensures
            final(self).wf(),
            final(self)@.wf(),
            final(self)@.states == build(regex, old(self)@.states).0,
            r.0 == build(regex, old(self)@.states).1,
            r.1 == build(regex, old(self)@.states).2,
            final(self)@.states.len() == old(self)@.states.len() + state_count(regex),
            old(self)@.states.len() <= r.0 < final(self)@.states.len(),
            old(self)@.states.len() <= r.1 < final(self)@.states.len(),
            final(self)@.initial == old(self)@.initial,
            final(self)@.accepting == old(self)@.accepting,
        decreases regex,
    {
        match regex {
            Regex::Symbol(ch) => {
                let first = self.add_state();
                let last = self.add_state();
                self.add_transition(first, last, Trans::Symbol(ch));
                (first, last)
            },
            Regex::Dot => {
                let first = self.add_state();
                let last = self.add_state();
                self.add_transition(first, last, Trans::Any);
                (first, last)
            },
            Regex::Empty => {
                let state = self.add_state();
                (state, state)
            },
            Regex::Concat((left, right)) => {
                let first = self.add_state();
                let (l_first, l_last) = self.regex_to_nfa_helper(*left);
                let (r_first, r_last) = self.regex_to_nfa_helper(*right);
                self.add_transition(first, l_first, Trans::Epsilon);
                self.add_transition(l_last, r_first, Trans::Epsilon);
                (first, r_last)
            },
            Regex::Union((left, right)) => {
                let first = self.add_state();
                let (l_first, l_last) = self.regex_to_nfa_helper(*left);
                let (r_first, r_last) = self.regex_to_nfa_helper(*right);
                self.add_transition(first, l_first, Trans::Epsilon);
                self.add_transition(first, r_first, Trans::Epsilon);
                let last = self.add_state();
                self.add_transition(l_last, last, Trans::Epsilon);
                self.add_transition(r_last, last, Trans::Epsilon);
                (first, last)
            },
            Regex::Star(inner) => {
                let first = self.add_state();
                let (i_first, i_last) = self.regex_to_nfa_helper(*inner);
                self.add_transition(first, i_first, Trans::Epsilon);
                self.add_transition(i_last, first, Trans::Epsilon);
                let last = self.add_state();
                self.add_transition(first, last, Trans::Epsilon);
                self.add_transition(i_last, last, Trans::Epsilon);
                (first, last)
            },
            Regex::Plus(inner) => {
                let first = self.add_state();
                let (i_first, i_last) = self.regex_to_nfa_helper(*inner);
                self.add_transition(first, i_first, Trans::Epsilon);
                self.add_transition(i_last, first, Trans::Epsilon);
                let last = self.add_state();
                self.add_transition(i_last, last, Trans::Epsilon);
                (first, last)
            },
        }
    }

    /// Adds the fragment for `regex` and makes its exit accepting.
    pub fn regex_to_nfa(&mut self, regex: Regex)
        requires
            old(self).wf(),
            old(self)@.states.len() + state_count(regex) <= usize::MAX,
        ensures
            final(self).wf(),
            final(self)@.wf(),
            final(self)@.states == build(regex, old(self)@.states).0,
            final(self)@.initial == old(self)@.initial,
            final(self)@.accepting == old(self)@.accepting.push(
                build(regex, old(self)@.states).2 as usize,
            ),
    {
        let (_, last) = self.regex_to_nfa_helper(regex);
        self.accepting_states.push(last);
    }

    /// The epsilon closure of the states marked in `seed`, computed with a
    /// work list that visits each state at most once.
    fn epsilon_closure(&self, seed: Vec<bool>) -> (r: Vec<bool>)
        requires
            self.wf(),
            seed.len() == self@.states.len(),
        ensures
            r.len() == seed.len(),
            set_of(r@) == self@.closure(set_of(seed@)),
    {
        let ghost m = self@;
        let ghost seed_v = seed@;
        let ghost seeds = set_of(seed@);
        let n = seed.len();
        let mut visited = seed;
        let mut stack: Vec<usize> = Vec::new();
        let mut i: usize = 0;
        while i < n
            invariant
                i <= n,
                n == visited.len(),
                visited@ == seed_v,
                forall|k: int| 0 <= k < stack.len() ==> #[trigger] stack[k] < n && visited[stack[k] as int],
                forall|s: int| 0 <= s < i && #[trigger] visited[s] ==> stack@.contains(s as usize),
            decreases n - i,
        {
            if visited[i] {
                let ghost stack_before = stack@;
                stack.push(i);
                assert(stack@[stack.len() - 1] == i);
                assert forall|x: usize| stack_before.contains(x) implies stack@.contains(x) by {
                    let k = choose|k: int| 0 <= k < stack_before.len() && stack_before[k] == x;
                    assert(stack@[k] == x);
                }
            }
            i += 1;
        }
        assert forall|t: int| 0 <= t < n && #[trigger] visited[t] implies m.closure(seeds).contains(t) by {
            m.lemma_reach_refl(t);
        }
        proof {
            lemma_count_bound(visited@);
        }
        while stack.len() > 0
            invariant
                self.wf(),
                m == self@,
                n == visited.len(),
                n == m.states.len(),
                count_true(visited@) <= n,
                forall|k: int| 0 <= k < stack.len() ==> #[trigger] stack[k] < n && visited[stack[k] as int],
                forall|t: int| 0 <= t < n && #[trigger] seed_v[t] ==> visited[t],
                forall|t: int| 0 <= t < n && #[trigger] visited[t] ==> m.closure(seeds).contains(t),
                forall|s: int, j: int|
                    0 <= s < n && visited[s] && !stack@.contains(s as usize) && 0 <= j < m.states[s].len()
                        && (#[trigger] m.states[s][j]).1 == Trans::Epsilon ==> visited[m.states[s][j].0 as int],
            decreases 2 * (n - count_true(visited@)) + stack.len(),
        {
            let ghost before = stack@;
            let s = stack.pop().unwrap();
            assert forall|x: usize| x != s && before.contains(x) implies stack@.contains(x) by {
                let k = choose|k: int| 0 <= k < before.len() && before[k] == x;
                assert(stack@[k] == x);
            }
            let ghost bound = 2 * (n - count_true(visited@)) + stack.len();
            let len = self.states[s].transitions.len();
            assert(len == m.states[s as int].len());
            let mut j: usize = 0;
            while j < len
                invariant
                    self.wf(),
                    m == self@,
                    s < n,
                    visited[s as int],
                    len == m.states[s as int].len(),
                    j <= len,
                    n == visited.len(),
                    n == m.states.len(),
                    count_true(visited@) <= n,
                    2 * (n - count_true(visited@)) + stack.len() <= bound,
                    forall|k: int| 0 <= k < stack.len() ==> #[trigger] stack[k] < n && visited[stack[k] as int],
                    forall|t: int| 0 <= t < n && #[trigger] seed_v[t] ==> visited[t],
                    forall|t: int| 0 <= t < n && #[trigger] visited[t] ==> m.closure(seeds).contains(t),
                    forall|jj: int|
                        0 <= jj < j && (#[trigger] m.states[s as int][jj]).1 == Trans::Epsilon
                            ==> visited[m.states[s as int][jj].0 as int],
                    forall|s2: int, j2: int|
                        0 <= s2 < n && s2 != s && visited[s2] && !stack@.contains(s2 as usize) && 0 <= j2
                            < m.states[s2].len() && (#[trigger] m.states[s2][j2]).1 == Trans::Epsilon
                            ==> visited[m.states[s2][j2].0 as int],
                decreases len - j,
            {
                let (t, label) = self.states[s].transitions[j];
                assert(m.states[s as int][j as int] == (t, label));
                match label {
                    Trans::Epsilon => {
                        if !visited[t] {
                            proof {
                                assert(m.eps_edge(s as int, t as int));
                                let s0 = choose|s0: int| seeds.contains(s0) && #[trigger] m.eps_reach(s0, s as int);
                                m.lemma_reach_extend(s0, s as int, t as int);
                                lemma_count_set(visited@, t as int);
                                lemma_count_bound(visited@.update(t as int, true));
                            }
                            let ghost stack_before = stack@;
                            visited.set(t, true);
                            stack.push(t);
                            assert(stack@[stack.len() - 1] == t);
                            assert forall|x: usize| stack_before.contains(x) implies stack@.contains(x) by {
                                let k = choose|k: int| 0 <= k < stack_before.len() && stack_before[k] == x;
                                assert(stack@[k] == x);
                            }
                        }
                    },
                    _ => {},
                }
                j += 1;
            }
        }
        let ghost result = set_of(visited@);
        assert forall|x: int, y: int| result.contains(x) && #[trigger] m.eps_edge(x, y) implies result.contains(y) by {
            let jw = choose|jw: int|
                0 <= jw < m.states[x].len() && #[trigger] m.states[x][jw].0 == y && m.states[x][jw].1
                    == Trans::Epsilon;
            assert(!stack@.contains(x as usize));
            assert(m.states[x][jw].0 < n);
            assert(visited[m.states[x][jw].0 as int]);
        }
        assert forall|t: int| m.closure(seeds).contains(t) implies result.contains(t) by {
            let s0 = choose|s0: int| seeds.contains(s0) && #[trigger] m.eps_reach(s0, t);
            let p = choose|p: Seq<int>| #[trigger] m.eps_path(p) && p[0] == s0 && p.last() == t;
            m.lemma_closed_path(result, p);
        }
        assert(result =~= m.closure(seeds));
        visited
    }

    /// The states reached from those marked in `current` by one edge that
    /// consumes `c`.
    fn advance(&self, current: &Vec<bool>, c: char) -> (r: Vec<bool>)
        requires
            self.wf(),
            current.len() == self@.states.len(),
        ensures
            r.len() == current.len(),
            set_of(r@) == self@.step(set_of(current@), c),
    {
        let ghost m = self@;
        let ghost cur = set_of(current@);
        let n = current.len();
        let mut next = all_false(n);
        let mut s: usize = 0;
        while s < n
            invariant
                self.wf(),
                m == self@,
                s <= n,
                cur == set_of(current@),
                n == current.len(),
                n == next.len(),
                n == m.states.len(),
                forall|t: int| 0 <= t < n && #[trigger] next[t] ==> m.step(cur, c).contains(t),
                forall|s2: int, j2: int|
                    0 <= s2 < s && current[s2] && 0 <= j2 < m.states[s2].len() && ((#[trigger] m.states[s2][j2]).1
                        == Trans::Symbol(c) || m.states[s2][j2].1 == Trans::Any) ==> next[m.states[s2][j2].0 as int],
            decreases n - s,
        {
            if current[s] {
                let len = self.states[s].transitions.len();
                assert(len == m.states[s as int].len());
                let mut j: usize = 0;
                while j < len
                    invariant
                        self.wf(),
                        m == self@,
                        s < n,
                        current[s as int],
                        len == m.states[s as int].len(),
                        j <= len,
                        cur == set_of(current@),
                        n == current.len(),
                        n == next.len(),
                        n == m.states.len(),
                        forall|t: int| 0 <= t < n && #[trigger] next[t] ==> m.step(cur, c).contains(t),
                        forall|s2: int, j2: int|
                            0 <= s2 < s && current[s2] && 0 <= j2 < m.states[s2].len() && ((#[trigger] m.states[s2][j2]).1
                                == Trans::Symbol(c) || m.states[s2][j2].1 == Trans::Any) ==> next[m.states[s2][j2].0 as int],
                        forall|jj: int|
                            0 <= jj < j && ((#[trigger] m.states[s as int][jj]).1 == Trans::Symbol(c)
                                || m.states[s as int][jj].1 == Trans::Any) ==> next[m.states[s as int][jj].0 as int],
                    decreases len - j,
                {
                    let (t, label) = self.states[s].transitions[j];
                    assert(m.states[s as int][j as int] == (t, label));
                    let hit = match label {
                        Trans::Symbol(d) => d == c,
                        Trans::Any => true,
                        Trans::Epsilon => false,
                    };
                    if hit {
                        assert(m.char_edge(s as int, c, t as int));
                        assert(cur.contains(s as int));
                        next.set(t, true);
                    }
                    j += 1;
                }
            }
            s += 1;
        }
        assert forall|t: int| m.step(cur, c).contains(t) implies set_of(next@).contains(t) by {
            let s0 = choose|s0: int| cur.contains(s0) && #[trigger] m.char_edge(s0, c, t);
            let jw = choose|jw: int|
                0 <= jw < m.states[s0].len() && #[trigger] m.states[s0][jw].0 == t && (m.states[s0][jw].1
                    == Trans::Symbol(c) || m.states[s0][jw].1 == Trans::Any);
        }
        assert(set_of(next@) =~= m.step(cur, c));
        next
    }

    /// Simulates the automaton on `input`: the live states start as the
    /// closure of the initial state and move on one character at a time.
    /// Stops early once no state is live.
    fn matches_helper(&self, input: &Vec<char>) -> (r: bool)
        requires
            self.wf(),
        ensures
            r == self@.accepts(input@),
    {
        let ghost m = self@;
        let n = self.states.len();
        let mut seed = all_false(n);
        if self.initial_state < n {
            seed.set(self.initial_state, true);
            assert(set_of(seed@) =~= set![m.initial as int]);
        } else {
            assert(set_of(seed@) =~= Set::empty());
            assert forall|t: int| !m.start().contains(t) by {
                if m.start().contains(t) {
                    let p = choose|p: Seq<int>| #[trigger] m.eps_path(p) && p[0] == m.initial as int && p.last() == t;
                }
            }
            assert(m.start() =~= m.closure(set_of(seed@)));
        }
        let mut current = self.epsilon_closure(seed);
        assert(input@.skip(0) =~= input@);
        let mut i: usize = 0;
        while i < input.len()
            invariant
                self.wf(),
                m == self@,
                i <= input.len(),
                current.len() == n,
                n == m.states.len(),
                m.run(set_of(current@), input@.skip(i as int)) == m.run(m.start(), input@),
            decreases input.len() - i,
        {
            assert(input@.skip(i as int).drop_first() =~= input@.skip(i + 1));
            let next = self.advance(&current, input[i]);
            current = self.epsilon_closure(next);
            i += 1;
            if !any_true(&current) {
                proof {
                    assert(set_of(current@) =~= Set::empty());
                    m.lemma_run_empty(input@.skip(i as int));
                }
                return false;
            }
        }
        assert(input@.skip(i as int) =~= Seq::<char>::empty());
        let mut k: usize = 0;
        while k < self.accepting_states.len()
            invariant
                self.wf(),
                m == self@,
                current.len() == n,
                n == m.states.len(),
                k <= m.accepting.len(),
                set_of(current@) == m.run(m.start(), input@),
                forall|kk: int| 0 <= kk < k ==> !current[#[trigger] m.accepting[kk] as int],
            decreases m.accepting.len() - k,
        {
            let a = self.accepting_states[k];
            assert(a == m.accepting[k as int]);
            if current[a] {
                assert(set_of(current@).contains(a as int));
                assert(m.run(m.start(), input@).contains(m.accepting[k as int] as int));
                return true;
            }
            k += 1;
        }
        false
    }

    /// Whether the automaton accepts `input`.
    pub fn matches(&self, input: &str) -> (r: bool)
        requires
            self.wf(),
        ensures
            r == self@.accepts(input@),
    {
        let chars = crate::regex::chars_of(input);
        self.matches_helper(&chars)
    }

    /// The number of states that compiling `regex` allots, or `None` where it
    /// exceeds `usize::MAX`.
    pub fn size_for(regex: &Regex) -> (r: Option<usize>)
        ensures
            r == if state_count(*regex) <= usize::MAX {
                Some(state_count(*regex) as usize)
            } else {
                None::<usize>
            },
        decreases regex,
    {
        match regex {
            Regex::Symbol(_) => Some(2),
            Regex::Dot => Some(2),
            Regex::Empty => Some(1),
            Regex::Concat((left, right)) => match (NFA::size_for(left), NFA::size_for(right)) {
                (Some(a), Some(b)) => {
                    if a <= usize::MAX - 1 && b <= usize::MAX - 1 - a {
                        Some(a + b + 1)
                    } else {
                        None
                    }
                },
                _ => None,
            },
            Regex::Union((left, right)) => match (NFA::size_for(left), NFA::size_for(right)) {
                (Some(a), Some(b)) => {
                    if a <= usize::MAX - 2 && b <= usize::MAX - 2 - a {
                        Some(a + b + 2)
                    } else {
                        None
                    }
                },
                _ => None,
            },
            Regex::Star(inner) | Regex::Plus(inner) => match NFA::size_for(inner) {
                Some(a) => {
                    if a <= usize::MAX - 2 {
                        Some(a + 2)
                    } else {
                        None
                    }
                },
                None => None,
            },
        }
    }

    /// Compiles `regex` into an automaton whose initial state is the entry of
    /// the root fragment and whose one accepting state is its exit.
    pub fn compile(regex: Regex) -> (r: NFA)
        requires
            state_count(regex) <= usize::MAX,
        ensures
            r.wf(),
            r@.wf(),
            r@ == compiled(regex),
    {
        let mut nfa = NFA::new();
        nfa.regex_to_nfa(regex);
        nfa
    }
}

/// The empty pattern parses to `Empty`, and the automaton compiled from
/// `Empty` accepts the empty string and no other.
pub proof fn lemma_empty_identity(input: Seq<char>)
    ensures
        crate::regex::parse_spec(Seq::empty()) == Regex::Empty,
        compiled(Regex::Empty).accepts(input) == (input.len() == 0),
{
    let m = compiled(Regex::Empty);
    assert(m.states =~= seq![Seq::<(usize, Trans)>::empty()]);
    m.lemma_reach_refl(0);
    assert forall|t: int| m.start().contains(t) implies t == 0 by {
        let p = choose|p: Seq<int>| #[trigger] m.eps_path(p) && p[0] == 0 && p.last() == t;
        assert(0 <= p[p.len() - 1] < 1);
    }
    assert(m.start() =~= set![0int]);
    if input.len() == 0 {
        assert(m.run(m.start(), input) == m.start());
        assert(m.run(m.start(), input).contains(m.accepting[0] as int));
    } else {
        assert(m.step(m.start(), input[0]) =~= Set::empty());
        assert(m.closure(Set::empty()) =~= Set::empty());
        m.lemma_run_empty(input.drop_first());
    }
}

/// Compiling one tree twice gives automata that accept the same strings.
pub proof fn lemma_compile_equivalent(r: Regex, first: NFA, second: NFA, input: Seq<char>)
    requires
        first@ == compiled(r),
        second@ == compiled(r),
    ensures
        first@.accepts(input) == second@.accepts(input),
{
}

/// The answer of `matches` depends on the automaton and the input alone: two
/// calls with equal arguments give equal answers.
pub proof fn lemma_matches_deterministic(nfa: NFA, input: Seq<char>, first: bool, second: bool)
    requires
        first == nfa@.accepts(input),
        second == nfa@.accepts(input),
    ensures
        first == second,
{
}

} // verus!
