//! The automaton that Thompson's construction builds for a tree accepts
//! exactly the strings of the tree's language.
//!
//! One direction builds, for each string of the language, a walk through the
//! fragment of the tree; the other cuts an accepting walk at the exits of the
//! sub-fragments it crosses, which no edge leaves but from the exit.
use crate::nfa::{add_edge, build, compiled, state_count, NfaView, Table, Trans};
use crate::regex::{is_symbol_char, lang, lemma_parse_literals, literal_chain, parse_spec, Regex};
use vstd::prelude::*;

verus! {

/// The `j`-th edge of `s` leads to a state of `t` and is an epsilon edge,
/// or an edge that consumes the first character of `w`.
spec fn edge_ok(t: Table, s: int, j: int, w: Seq<char>) -> bool {
    &&& 0 <= s < t.len()
    &&& 0 <= j < t[s].len()
    &&& 0 <= t[s][j].0 < t.len()
    &&& (t[s][j].1 == Trans::Epsilon || (w.len() > 0 && (t[s][j].1 == Trans::Symbol(w[0]) || t[s][j].1
        == Trans::Any)))
}

/// What is left of `w` after the `j`-th edge of `s`.
spec fn after_edge(t: Table, s: int, j: int, w: Seq<char>) -> Seq<char> {
    if t[s][j].1 == Trans::Epsilon {
        w
    } else {
        w.drop_first()
    }
}

/// Some walk of at most `k` edges of `t` leads from `s` to `u` and reads
/// `w`; an epsilon edge reads nothing, any other edge one character.
spec fn walk(t: Table, s: int, w: Seq<char>, u: int, k: nat) -> bool
    decreases k,
{
    if s == u && w.len() == 0 {
        true
    } else if k == 0 {
        false
    } else {
        exists|j: int|
            #[trigger] edge_ok(t, s, j, w) && walk(t, t[s][j].0 as int, after_edge(t, s, j, w), u, (k - 1) as nat)
    }
}

/// `big` holds every state of `small`, with the edges of `small` first.
spec fn extends(small: Table, big: Table) -> bool {
    &&& small.len() <= big.len()
    &&& forall|s: int| 0 <= s < small.len() ==> small[s].len() <= #[trigger] big[s].len()
    &&& forall|s: int, j: int|
        #![trigger big[s][j]]
        #![trigger small[s][j]]
        0 <= s < small.len() && 0 <= j < small[s].len() ==> big[s][j] == small[s][j]
}

proof fn lemma_extends_refl(t: Table)
    ensures
        extends(t, t),
{
}

proof fn lemma_extends_trans(a: Table, b: Table, c: Table)
    requires
        extends(a, b),
        extends(b, c),
    ensures
        extends(a, c),
{
    assert forall|s: int, j: int| 0 <= s < a.len() && 0 <= j < a[s].len() implies c[s][j] == a[s][j] by {
        assert(b[s][j] == a[s][j]);
        assert(c[s][j] == b[s][j]);
    }
    assert forall|s: int| 0 <= s < a.len() implies a[s].len() <= #[trigger] c[s].len() by {
        assert(a[s].len() <= b[s].len());
        assert(b[s].len() <= c[s].len());
    }
}

proof fn lemma_extends_push(t: Table, x: Seq<(usize, Trans)>)
    ensures
        extends(t, t.push(x)),
{
    assert forall|s: int, j: int| 0 <= s < t.len() && 0 <= j < t[s].len() implies t.push(x)[s][j] == t[s][j] by {
        assert(t.push(x)[s] == t[s]);
    }
    assert forall|s: int| 0 <= s < t.len() implies t[s].len() <= #[trigger] t.push(x)[s].len() by {
        assert(t.push(x)[s] == t[s]);
    }
}

proof fn lemma_extends_add_edge(t: Table, from: int, to: int, label: Trans)
    requires
        0 <= from < t.len(),
    ensures
        extends(t, add_edge(t, from, to, label)),
{
    let a = add_edge(t, from, to, label);
    assert forall|s: int, j: int| 0 <= s < t.len() && 0 <= j < t[s].len() implies a[s][j] == t[s][j] by {
        if s == from {
            assert(a[s] == t[s].push((to as usize, label)));
        } else {
            assert(a[s] == t[s]);
        }
    }
    assert forall|s: int| 0 <= s < t.len() implies t[s].len() <= #[trigger] a[s].len() by {
        if s == from {
            assert(a[s] == t[s].push((to as usize, label)));
        } else {
            assert(a[s] == t[s]);
        }
    }
}

/// Thompson's construction keeps the states it was given, appends
/// `state_count(r)` states, and enters and leaves the fragment at new states.
proof fn lemma_build_shape(r: Regex, st: Table)
    ensures
        extends(st, build(r, st).0),
        build(r, st).0.len() == st.len() + state_count(r),
        st.len() <= build(r, st).1 < build(r, st).0.len(),
        st.len() <= build(r, st).2 < build(r, st).0.len(),
    decreases r,
{
    let n = st.len() as int;
    let e = Seq::<(usize, Trans)>::empty();
    lemma_extends_push(st, e);
    match r {
        Regex::Symbol(c) => {
            lemma_extends_push(st.push(e), e);
            lemma_extends_trans(st, st.push(e), st.push(e).push(e));
            lemma_extends_add_edge(st.push(e).push(e), n, n + 1, Trans::Symbol(c));
            lemma_extends_trans(st, st.push(e).push(e), build(r, st).0);
        },
        Regex::Dot => {
            lemma_extends_push(st.push(e), e);
            lemma_extends_trans(st, st.push(e), st.push(e).push(e));
            lemma_extends_add_edge(st.push(e).push(e), n, n + 1, Trans::Any);
            lemma_extends_trans(st, st.push(e).push(e), build(r, st).0);
        },
        Regex::Empty => {},
        Regex::Concat((left, right)) | Regex::Union((left, right)) => {
            let (t1, l_first, l_last) = build(*left, st.push(e));
            let (t2, r_first, r_last) = build(*right, t1);
            lemma_build_shape(*left, st.push(e));
            lemma_build_shape(*right, t1);
            lemma_extends_trans(st, st.push(e), t1);
            lemma_extends_trans(st, t1, t2);
            let a1 = add_edge(t2, n, l_first, Trans::Epsilon);
            lemma_extends_add_edge(t2, n, l_first, Trans::Epsilon);
            lemma_extends_trans(st, t2, a1);
            if r is Concat {
                lemma_extends_add_edge(a1, l_last, r_first, Trans::Epsilon);
                lemma_extends_trans(st, a1, build(r, st).0);
            } else {
                let t3 = add_edge(a1, n, r_first, Trans::Epsilon);
                lemma_extends_add_edge(a1, n, r_first, Trans::Epsilon);
                lemma_extends_trans(st, a1, t3);
                let last = t3.len() as int;
                let t4 = t3.push(e);
                lemma_extends_push(t3, e);
                lemma_extends_trans(st, t3, t4);
                let a2 = add_edge(t4, l_last, last, Trans::Epsilon);
                lemma_extends_add_edge(t4, l_last, last, Trans::Epsilon);
                lemma_extends_trans(st, t4, a2);
                lemma_extends_add_edge(a2, r_last, last, Trans::Epsilon);
                lemma_extends_trans(st, a2, build(r, st).0);
            }
        },
        Regex::Star(inner) | Regex::Plus(inner) => {
            let (t1, i_first, i_last) = build(*inner, st.push(e));
            lemma_build_shape(*inner, st.push(e));
            lemma_extends_trans(st, st.push(e), t1);
            let a1 = add_edge(t1, n, i_first, Trans::Epsilon);
            lemma_extends_add_edge(t1, n, i_first, Trans::Epsilon);
            lemma_extends_trans(st, t1, a1);
            let t2 = add_edge(a1, i_last, n, Trans::Epsilon);
            lemma_extends_add_edge(a1, i_last, n, Trans::Epsilon);
            lemma_extends_trans(st, a1, t2);
            let last = t2.len() as int;
            let t3 = t2.push(e);
            lemma_extends_push(t2, e);
            lemma_extends_trans(st, t2, t3);
            if r is Star {
                let a2 = add_edge(t3, n, last, Trans::Epsilon);
                lemma_extends_add_edge(t3, n, last, Trans::Epsilon);
                lemma_extends_trans(st, t3, a2);
                lemma_extends_add_edge(a2, i_last, last, Trans::Epsilon);
                lemma_extends_trans(st, a2, build(r, st).0);
            } else {
                lemma_extends_add_edge(t3, i_last, last, Trans::Epsilon);
                lemma_extends_trans(st, t3, build(r, st).0);
            }
        },
    }
}

proof fn lemma_walk_more(t: Table, s: int, w: Seq<char>, u: int, k: nat, m: nat)
    requires
        walk(t, s, w, u, k),
        k <= m,
    ensures
        walk(t, s, w, u, m),
    decreases k,
{
    if !(s == u && w.len() == 0) {
        let j = choose|j: int|
            #[trigger] edge_ok(t, s, j, w) && walk(t, t[s][j].0 as int, after_edge(t, s, j, w), u, (k - 1) as nat);
        lemma_walk_more(t, t[s][j].0 as int, after_edge(t, s, j, w), u, (k - 1) as nat, (m - 1) as nat);
    }
}

proof fn lemma_walk_concat(t: Table, s: int, w1: Seq<char>, v: int, k1: nat, w2: Seq<char>, u: int, k2: nat)
    requires
        walk(t, s, w1, v, k1),
        walk(t, v, w2, u, k2),
    ensures
        walk(t, s, w1 + w2, u, k1 + k2),
    decreases k1,
{
    if s == v && w1.len() == 0 {
        assert(w1 + w2 =~= w2);
        lemma_walk_more(t, v, w2, u, k2, k1 + k2);
    } else {
        let j = choose|j: int|
            #[trigger] edge_ok(t, s, j, w1) && walk(t, t[s][j].0 as int, after_edge(t, s, j, w1), v, (k1 - 1) as nat);
        lemma_walk_concat(t, t[s][j].0 as int, after_edge(t, s, j, w1), v, (k1 - 1) as nat, w2, u, k2);
        if t[s][j].1 != Trans::Epsilon {
            assert((w1 + w2).drop_first() =~= w1.drop_first() + w2);
            assert((w1 + w2)[0] == w1[0]);
        }
        assert(after_edge(t, s, j, w1 + w2) == after_edge(t, s, j, w1) + w2);
        assert(edge_ok(t, s, j, w1 + w2));
        if s == u && (w1 + w2).len() == 0 {
        } else {
            assert(walk(t, t[s][j].0 as int, after_edge(t, s, j, w1 + w2), u, (k1 + k2 - 1) as nat));
        }
    }
}

/// An epsilon edge that `add_edge` put on `base` is a walk of one edge in
/// every table that extends the result.
proof fn lemma_eps_edge_walk(base: Table, s: int, to: int, t: Table)
    requires
        0 <= s < base.len(),
        0 <= to < t.len(),
        to <= usize::MAX,
        extends(add_edge(base, s, to, Trans::Epsilon), t),
    ensures
        walk(t, s, Seq::empty(), to, 1),
{
    let a = add_edge(base, s, to, Trans::Epsilon);
    let j = base[s].len() as int;
    assert(a[s][j] == (to as usize, Trans::Epsilon));
    assert(t[s][j] == a[s][j]);
    assert(walk(t, to, Seq::empty(), to, 0));
    assert(edge_ok(t, s, j, Seq::empty()));
}

/// An edge labelled `c`, or a wildcard, that `add_edge` put on `base` reads
/// `c` in one edge in every table that extends the result.
proof fn lemma_char_edge_walk(base: Table, s: int, to: int, label: Trans, c: char, t: Table)
    requires
        0 <= s < base.len(),
        0 <= to < t.len(),
        to <= usize::MAX,
        label == Trans::Symbol(c) || label == Trans::Any,
        extends(add_edge(base, s, to, label), t),
    ensures
        walk(t, s, seq![c], to, 1),
{
    let a = add_edge(base, s, to, label);
    let j = base[s].len() as int;
    assert(a[s][j] == (to as usize, label));
    assert(t[s][j] == a[s][j]);
    assert(seq![c].drop_first() =~= Seq::<char>::empty());
    assert(walk(t, to, seq![c].drop_first(), to, 0));
    assert(edge_ok(t, s, j, seq![c]));
    assert(after_edge(t, s, j, seq![c]) == seq![c].drop_first());
}

/// The epsilon closure of a set is closed under epsilon edges.
proof fn lemma_closure_closed(m: NfaView, x: Set<int>)
    ensures
        forall|a: int, b: int|
            m.closure(x).contains(a) && #[trigger] m.eps_edge(a, b) && b < m.states.len() ==> m.closure(x).contains(b),
{
    assert forall|a: int, b: int|
        m.closure(x).contains(a) && #[trigger] m.eps_edge(a, b) && b < m.states.len() implies m.closure(x).contains(b) by {
        let s0 = choose|s0: int| x.contains(s0) && #[trigger] m.eps_reach(s0, a);
        m.lemma_reach_extend(s0, a, b);
    }
}

/// A walk that starts in a set closed under epsilon edges ends in a state
/// that is live after reading what the walk reads.
proof fn lemma_walk_run(m: NfaView, set: Set<int>, s: int, w: Seq<char>, u: int, k: nat)
    requires
        walk(m.states, s, w, u, k),
        set.contains(s),
        forall|a: int, b: int| set.contains(a) && #[trigger] m.eps_edge(a, b) && b < m.states.len() ==> set.contains(b),
    ensures
        m.run(set, w).contains(u),
    decreases k,
{
    let t = m.states;
    if !(s == u && w.len() == 0) {
        let j = choose|j: int|
            #[trigger] edge_ok(t, s, j, w) && walk(t, t[s][j].0 as int, after_edge(t, s, j, w), u, (k - 1) as nat);
        let d = t[s][j].0 as int;
        if t[s][j].1 == Trans::Epsilon {
            assert(m.eps_edge(s, d));
            lemma_walk_run(m, set, d, w, u, (k - 1) as nat);
        } else {
            let c = w[0];
            assert(m.char_edge(s, c, d));
            let x = m.step(set, c);
            assert(x.contains(d));
            m.lemma_reach_refl(d);
            assert(m.closure(x).contains(d));
            lemma_closure_closed(m, x);
            lemma_walk_run(m, m.closure(x), d, w.drop_first(), u, (k - 1) as nat);
        }
    }
}

/// In every table that extends the fragment that Thompson's construction
/// builds for `r`, each string of the language of `r` is read by a walk from
/// the fragment's entry to its exit.
proof fn lemma_build_walk(r: Regex, st: Table, t: Table, w: Seq<char>)
    requires
        lang(r, w),
        extends(build(r, st).0, t),
        t.len() <= usize::MAX + 1,
    ensures
        exists|k: nat| walk(t, build(r, st).1, w, build(r, st).2, k),
    decreases r, w.len(),
{
    let n = st.len() as int;
    let e = Seq::<(usize, Trans)>::empty();
    let b = build(r, st);
    let nil = Seq::<char>::empty();
    lemma_build_shape(r, st);
    match r {
        Regex::Symbol(c) => {
            lemma_char_edge_walk(st.push(e).push(e), n, n + 1, Trans::Symbol(c), c, t);
            assert(walk(t, b.1, w, b.2, 1));
        },
        Regex::Dot => {
            let c = w[0];
            assert(w =~= seq![c]);
            lemma_char_edge_walk(st.push(e).push(e), n, n + 1, Trans::Any, c, t);
            assert(walk(t, b.1, w, b.2, 1));
        },
        Regex::Empty => {
            assert(walk(t, b.1, w, b.2, 0));
        },
        Regex::Concat((left, right)) => {
            let (t1, lf, ll) = build(*left, st.push(e));
            let (t2, rf, rl) = build(*right, t1);
            lemma_build_shape(*left, st.push(e));
            lemma_build_shape(*right, t1);
            let a1 = add_edge(t2, n, lf, Trans::Epsilon);
            lemma_extends_add_edge(t2, n, lf, Trans::Epsilon);
            lemma_extends_add_edge(a1, ll, rf, Trans::Epsilon);
            lemma_extends_trans(a1, b.0, t);
            lemma_extends_trans(t2, a1, t);
            lemma_extends_trans(t1, t2, t);
            let i = choose|i: int|
                0 <= i <= w.len() && lang(*left, #[trigger] w.take(i)) && lang(*right, w.skip(i));
            lemma_build_walk(*left, st.push(e), t, w.take(i));
            lemma_build_walk(*right, t1, t, w.skip(i));
            let k1 = choose|k: nat| walk(t, lf, w.take(i), ll, k);
            let k2 = choose|k: nat| walk(t, rf, w.skip(i), rl, k);
            lemma_eps_edge_walk(t2, n, lf, t);
            lemma_eps_edge_walk(a1, ll, rf, t);
            lemma_walk_concat(t, n, nil, lf, 1, w.take(i), ll, k1);
            assert(nil + w.take(i) =~= w.take(i));
            lemma_walk_concat(t, n, w.take(i), ll, 1 + k1, nil, rf, 1);
            assert(w.take(i) + nil =~= w.take(i));
            lemma_walk_concat(t, n, w.take(i), rf, 2 + k1, w.skip(i), rl, k2);
            assert(w.take(i) + w.skip(i) =~= w);
        },
        Regex::Union((left, right)) => {
            let (t1, lf, ll) = build(*left, st.push(e));
            let (t2, rf, rl) = build(*right, t1);
            lemma_build_shape(*left, st.push(e));
            lemma_build_shape(*right, t1);
            let a1 = add_edge(t2, n, lf, Trans::Epsilon);
            let t3 = add_edge(a1, n, rf, Trans::Epsilon);
            let last = t3.len() as int;
            let t4 = t3.push(e);
            let a2 = add_edge(t4, ll, last, Trans::Epsilon);
            lemma_extends_add_edge(t2, n, lf, Trans::Epsilon);
            lemma_extends_add_edge(a1, n, rf, Trans::Epsilon);
            lemma_extends_push(t3, e);
            lemma_extends_add_edge(t4, ll, last, Trans::Epsilon);
            lemma_extends_add_edge(a2, rl, last, Trans::Epsilon);
            lemma_extends_trans(a2, b.0, t);
            lemma_extends_trans(t4, a2, t);
            lemma_extends_trans(t3, t4, t);
            lemma_extends_trans(a1, t3, t);
            lemma_extends_trans(t2, a1, t);
            lemma_extends_trans(t1, t2, t);
            assert(nil + w =~= w);
            assert(w + nil =~= w);
            if lang(*left, w) {
                lemma_build_walk(*left, st.push(e), t, w);
                let k1 = choose|k: nat| walk(t, lf, w, ll, k);
                lemma_eps_edge_walk(t2, n, lf, t);
                lemma_eps_edge_walk(t4, ll, last, t);
                lemma_walk_concat(t, n, nil, lf, 1, w, ll, k1);
                lemma_walk_concat(t, n, w, ll, 1 + k1, nil, last, 1);
            } else {
                lemma_build_walk(*right, t1, t, w);
                let k2 = choose|k: nat| walk(t, rf, w, rl, k);
                lemma_eps_edge_walk(a1, n, rf, t);
                lemma_eps_edge_walk(a2, rl, last, t);
                lemma_walk_concat(t, n, nil, rf, 1, w, rl, k2);
                lemma_walk_concat(t, n, w, rl, 1 + k2, nil, last, 1);
            }
        },
        Regex::Star(inner) | Regex::Plus(inner) => {
            let (t1, xf, xl) = build(*inner, st.push(e));
            lemma_build_shape(*inner, st.push(e));
            let a1 = add_edge(t1, n, xf, Trans::Epsilon);
            let t2 = add_edge(a1, xl, n, Trans::Epsilon);
            let last = t2.len() as int;
            let t3 = t2.push(e);
            lemma_extends_add_edge(t1, n, xf, Trans::Epsilon);
            lemma_extends_add_edge(a1, xl, n, Trans::Epsilon);
            lemma_extends_push(t2, e);
            if r is Star {
                let a2 = add_edge(t3, n, last, Trans::Epsilon);
                lemma_extends_add_edge(t3, n, last, Trans::Epsilon);
                lemma_extends_add_edge(a2, xl, last, Trans::Epsilon);
                lemma_extends_trans(a2, b.0, t);
                lemma_extends_trans(t3, a2, t);
            } else {
                lemma_extends_add_edge(t3, xl, last, Trans::Epsilon);
                lemma_extends_trans(t3, b.0, t);
            }
            lemma_extends_trans(t2, t3, t);
            lemma_extends_trans(a1, t2, t);
            lemma_extends_trans(t1, a1, t);
            lemma_eps_edge_walk(t1, n, xf, t);
            lemma_eps_edge_walk(a1, xl, n, t);
            if r is Star && w.len() == 0 {
                let a2 = add_edge(t3, n, last, Trans::Epsilon);
                lemma_eps_edge_walk(t3, n, last, t);
                assert(w =~= nil);
            } else if r is Plus && lang(*inner, w) {
                lemma_build_walk(*inner, st.push(e), t, w);
                let k1 = choose|k: nat| walk(t, xf, w, xl, k);
                lemma_eps_edge_walk(t3, xl, last, t);
                lemma_walk_concat(t, n, nil, xf, 1, w, xl, k1);
                assert(nil + w =~= w);
                lemma_walk_concat(t, n, w, xl, 1 + k1, nil, last, 1);
                assert(w + nil =~= w);
            } else {
                let i = choose|i: int| 1 <= i <= w.len() && lang(*inner, #[trigger] w.take(i)) && lang(r, w.skip(i));
                lemma_build_walk(*inner, st.push(e), t, w.take(i));
                lemma_build_walk(r, st, t, w.skip(i));
                let k1 = choose|k: nat| walk(t, xf, w.take(i), xl, k);
                let k2 = choose|k: nat| walk(t, n, w.skip(i), last, k);
                lemma_walk_concat(t, n, nil, xf, 1, w.take(i), xl, k1);
                assert(nil + w.take(i) =~= w.take(i));
                lemma_walk_concat(t, n, w.take(i), xl, 1 + k1, nil, n, 1);
                assert(w.take(i) + nil =~= w.take(i));
                lemma_walk_concat(t, n, w.take(i), n, 2 + k1, w.skip(i), last, k2);
                assert(w.take(i) + w.skip(i) =~= w);
            }
        },
    }
}

/// Every string of the language of a tree is accepted by the automaton
/// compiled from that tree.
proof fn lemma_compiled_accepts(r: Regex, w: Seq<char>)
    requires
        state_count(r) <= usize::MAX,
        lang(r, w),
    ensures
        compiled(r).accepts(w),
{
    let m = compiled(r);
    let b = build(r, Seq::empty());
    lemma_build_shape(r, Seq::empty());
    lemma_extends_refl(b.0);
    lemma_build_walk(r, Seq::empty(), b.0, w);
    let k = choose|k: nat| walk(b.0, b.1, w, b.2, k);
    m.lemma_reach_refl(b.1);
    assert(m.start().contains(b.1));
    lemma_closure_closed(m, set![m.initial as int]);
    lemma_walk_run(m, m.start(), b.1, w, b.2, k);
    assert(m.run(m.start(), w).contains(m.accepting[0] as int));
}

proof fn lemma_add_edge_at(t: Table, from: int, to: int, label: Trans)
    requires
        0 <= from < t.len(),
    ensures
        add_edge(t, from, to, label).len() == t.len(),
        forall|s: int| 0 <= s < t.len() && s != from ==> #[trigger] add_edge(t, from, to, label)[s] == t[s],
        add_edge(t, from, to, label)[from] == t[from].push((to as usize, label)),
{
}

/// Thompson's construction leaves the states it was given as they were,
/// wires the new states only among themselves, and leaves the fragment's
/// exit without edges.
proof fn lemma_build_frame(r: Regex, st: Table)
    requires
        st.len() + state_count(r) <= usize::MAX + 1,
    ensures
        forall|s: int| 0 <= s < st.len() ==> #[trigger] build(r, st).0[s] == st[s],
        forall|s: int, j: int|
            st.len() <= s < build(r, st).0.len() && 0 <= j < build(r, st).0[s].len() ==> st.len()
                <= #[trigger] build(r, st).0[s][j].0 < build(r, st).0.len(),
        build(r, st).0[build(r, st).2].len() == 0,
    decreases r,
{
    let n = st.len() as int;
    let e = Seq::<(usize, Trans)>::empty();
    let b = build(r, st);
    lemma_build_shape(r, st);
    match r {
        Regex::Symbol(c) => {
            lemma_add_edge_at(st.push(e).push(e), n, n + 1, Trans::Symbol(c));
            assert forall|s: int| 0 <= s < st.len() implies #[trigger] b.0[s] == st[s] by {
                assert(st.push(e).push(e)[s] == st[s]);
            }
        },
        Regex::Dot => {
            lemma_add_edge_at(st.push(e).push(e), n, n + 1, Trans::Any);
            assert forall|s: int| 0 <= s < st.len() implies #[trigger] b.0[s] == st[s] by {
                assert(st.push(e).push(e)[s] == st[s]);
            }
        },
        Regex::Empty => {
            assert forall|s: int| 0 <= s < st.len() implies #[trigger] b.0[s] == st[s] by {
                assert(st.push(e)[s] == st[s]);
            }
        },
        Regex::Concat((left, right)) | Regex::Union((left, right)) => {
            let (t1, lf, ll) = build(*left, st.push(e));
            let (t2, rf, rl) = build(*right, t1);
            lemma_build_shape(*left, st.push(e));
            lemma_build_shape(*right, t1);
            lemma_build_frame(*left, st.push(e));
            lemma_build_frame(*right, t1);
            let a1 = add_edge(t2, n, lf, Trans::Epsilon);
            lemma_add_edge_at(t2, n, lf, Trans::Epsilon);
            assert(st.push(e)[n] == e);
            assert(t1[n] == e);
            assert(t2[n] == e);
            if r is Concat {
                lemma_add_edge_at(a1, ll, rf, Trans::Epsilon);
                assert forall|s: int| 0 <= s < st.len() implies #[trigger] b.0[s] == st[s] by {
                    assert(st.push(e)[s] == st[s]);
                    assert(t1[s] == st.push(e)[s]);
                    assert(t2[s] == t1[s]);
                }
                assert forall|s: int, j: int| n <= s < b.0.len() && 0 <= j < b.0[s].len() implies n
                    <= #[trigger] b.0[s][j].0 < b.0.len() by {
                    if s == n {
                    } else if s < t1.len() {
                        assert(t2[s] == t1[s]);
                        if s == ll && j == t1[s].len() {
                        } else {
                            assert(b.0[s][j] == t1[s][j]);
                        }
                    } else {
                        assert(b.0[s] == t2[s]);
                        assert(b.0[s][j] == t2[s][j]);
                    }
                }
                assert(b.0[rl] == t2[rl]);
            } else {
                let t3 = add_edge(a1, n, rf, Trans::Epsilon);
                lemma_add_edge_at(a1, n, rf, Trans::Epsilon);
                let last = t3.len() as int;
                let t4 = t3.push(e);
                let a2 = add_edge(t4, ll, last, Trans::Epsilon);
                lemma_add_edge_at(t4, ll, last, Trans::Epsilon);
                lemma_add_edge_at(a2, rl, last, Trans::Epsilon);
                assert forall|s: int| 0 <= s < st.len() implies #[trigger] b.0[s] == st[s] by {
                    assert(st.push(e)[s] == st[s]);
                    assert(t1[s] == st.push(e)[s]);
                    assert(t2[s] == t1[s]);
                    assert(t4[s] == t3[s]);
                }
                assert forall|s: int, j: int| n <= s < b.0.len() && 0 <= j < b.0[s].len() implies n
                    <= #[trigger] b.0[s][j].0 < b.0.len() by {
                    if s == n {
                        assert(t4[n] == t3[n]);
                    } else if s < t1.len() {
                        assert(t2[s] == t1[s]);
                        assert(t4[s] == t3[s]);
                        if s == ll && j == t1[s].len() {
                        } else {
                            assert(b.0[s][j] == t1[s][j]);
                        }
                    } else if s < t2.len() {
                        assert(t4[s] == t3[s]);
                        if s == rl && j == t2[s].len() {
                        } else {
                            assert(b.0[s][j] == t2[s][j]);
                        }
                    } else {
                        assert(s == last);
                        assert(b.0[s] == e);
                    }
                }
            }
        },
        Regex::Star(inner) | Regex::Plus(inner) => {
            let (t1, xf, xl) = build(*inner, st.push(e));
            lemma_build_shape(*inner, st.push(e));
            lemma_build_frame(*inner, st.push(e));
            let a1 = add_edge(t1, n, xf, Trans::Epsilon);
            lemma_add_edge_at(t1, n, xf, Trans::Epsilon);
            let t2 = add_edge(a1, xl, n, Trans::Epsilon);
            lemma_add_edge_at(a1, xl, n, Trans::Epsilon);
            let last = t2.len() as int;
            let t3 = t2.push(e);
            assert(st.push(e)[n] == e);
            assert(t1[n] == e);
            if r is Star {
                let a2 = add_edge(t3, n, last, Trans::Epsilon);
                lemma_add_edge_at(t3, n, last, Trans::Epsilon);
                lemma_add_edge_at(a2, xl, last, Trans::Epsilon);
                assert forall|s: int| 0 <= s < st.len() implies #[trigger] b.0[s] == st[s] by {
                    assert(st.push(e)[s] == st[s]);
                    assert(t1[s] == st.push(e)[s]);
                    assert(t3[s] == t2[s]);
                }
                assert forall|s: int, j: int| n <= s < b.0.len() && 0 <= j < b.0[s].len() implies n
                    <= #[trigger] b.0[s][j].0 < b.0.len() by {
                    assert(t3[n] == t2[n]);
                    if s == n {
                    } else if s < t1.len() {
                        assert(t3[s] == t2[s]);
                        if s == xl && j >= t1[s].len() {
                        } else {
                            assert(b.0[s][j] == t1[s][j]);
                        }
                    } else {
                        assert(s == last);
                        assert(b.0[s] == e);
                    }
                }
            } else {
                lemma_add_edge_at(t3, xl, last, Trans::Epsilon);
                assert forall|s: int| 0 <= s < st.len() implies #[trigger] b.0[s] == st[s] by {
                    assert(st.push(e)[s] == st[s]);
                    assert(t1[s] == st.push(e)[s]);
                    assert(t3[s] == t2[s]);
                }
                assert forall|s: int, j: int| n <= s < b.0.len() && 0 <= j < b.0[s].len() implies n
                    <= #[trigger] b.0[s][j].0 < b.0.len() by {
                    assert(t3[n] == t2[n]);
                    if s == n {
                    } else if s < t1.len() {
                        assert(t3[s] == t2[s]);
                        if s == xl && j >= t1[s].len() {
                        } else {
                            assert(b.0[s][j] == t1[s][j]);
                        }
                    } else {
                        assert(s == last);
                        assert(b.0[s] == e);
                    }
                }
            }
        },
    }
}

/// Some walk of at most `k` edges leads from `s` to `u` and reads `w`, and
/// each of its edges leaves a state of `lo..hi` other than `x`.
spec fn walk_in(t: Table, lo: int, hi: int, x: int, s: int, w: Seq<char>, u: int, k: nat) -> bool
    decreases k,
{
    if s == u && w.len() == 0 {
        true
    } else if k == 0 {
        false
    } else {
        lo <= s < hi && s != x && exists|j: int|
            #[trigger] edge_ok(t, s, j, w) && walk_in(
                t,
                lo,
                hi,
                x,
                t[s][j].0 as int,
                after_edge(t, s, j, w),
                u,
                (k - 1) as nat,
            )
    }
}

/// A confined walk from `x` to `x` takes no edge, so reads nothing.
proof fn lemma_walk_in_exit(t: Table, lo: int, hi: int, x: int, w: Seq<char>, k: nat)
    requires
        walk_in(t, lo, hi, x, x, w, x, k),
    ensures
        w.len() == 0,
{
}

/// A confined walk that starts in the part `lo2..hi2`, which no edge leaves
/// but from `x2`, and that ends at `x2` or outside the part, first reaches
/// `x2` by a walk confined to the part.
proof fn lemma_walk_split(
    t: Table,
    lo: int,
    hi: int,
    x: int,
    lo2: int,
    hi2: int,
    x2: int,
    s: int,
    w: Seq<char>,
    u: int,
    k: nat,
) -> (res: (Seq<char>, Seq<char>, nat))
    requires
        lo2 <= s < hi2,
        forall|a: int, j: int|
            lo2 <= a < hi2 && a != x2 && 0 <= j < t[a].len() ==> lo2 <= #[trigger] t[a][j].0 < hi2,
        u == x2 || !(lo2 <= u < hi2),
        walk_in(t, lo, hi, x, s, w, u, k),
    ensures
        w == res.0 + res.1,
        walk_in(t, lo2, hi2, x2, s, res.0, x2, k),
        walk_in(t, lo, hi, x, x2, res.1, u, res.2),
        res.2 <= k,
    decreases k,
{
    if s == x2 {
        assert(Seq::<char>::empty() + w =~= w);
        (Seq::empty(), w, k)
    } else {
        let j = choose|j: int|
            #[trigger] edge_ok(t, s, j, w) && walk_in(
                t,
                lo,
                hi,
                x,
                t[s][j].0 as int,
                after_edge(t, s, j, w),
                u,
                (k - 1) as nat,
            );
        let d = t[s][j].0 as int;
        let rest = after_edge(t, s, j, w);
        let (w1, w2, k2) = lemma_walk_split(t, lo, hi, x, lo2, hi2, x2, d, rest, u, (k - 1) as nat);
        let first = if t[s][j].1 == Trans::Epsilon {
            w1
        } else {
            seq![w[0]] + w1
        };
        if t[s][j].1 != Trans::Epsilon {
            assert(w =~= seq![w[0]] + w.drop_first());
            assert(first.drop_first() =~= w1);
            assert(w =~= first + w2);
        }
        assert(edge_ok(t, s, j, first));
        assert(after_edge(t, s, j, first) == w1);
        assert(walk_in(t, lo2, hi2, x2, d, after_edge(t, s, j, first), x2, (k - 1) as nat));
        (first, w2, k2)
    }
}

/// In a table whose state `x` has no edges, a walk that ends at `x` is
/// confined to the table with `x` as its exit.
proof fn lemma_walk_confined(t: Table, x: int, s: int, w: Seq<char>, k: nat)
    requires
        0 <= x < t.len(),
        t[x].len() == 0,
        walk(t, s, w, x, k),
    ensures
        walk_in(t, 0, t.len() as int, x, s, w, x, k),
    decreases k,
{
    if !(s == x && w.len() == 0) {
        let j = choose|j: int|
            #[trigger] edge_ok(t, s, j, w) && walk(t, t[s][j].0 as int, after_edge(t, s, j, w), x, (k - 1) as nat);
        lemma_walk_confined(t, x, t[s][j].0 as int, after_edge(t, s, j, w), (k - 1) as nat);
        assert(s != x);
    }
}

proof fn lemma_eps_path_walk(m: NfaView, p: Seq<int>)
    requires
        m.eps_path(p),
    ensures
        walk(m.states, p[0], Seq::empty(), p.last(), (p.len() - 1) as nat),
    decreases p.len(),
{
    if p.len() > 1 {
        let q = p.drop_first();
        assert forall|i: int| 0 <= i < q.len() - 1 implies m.eps_edge(#[trigger] q[i], q[i + 1]) by {
            assert(q[i] == p[i + 1] && q[i + 1] == p[i + 2]);
            assert(m.eps_edge(p[i + 1], p[i + 2]));
        }
        assert forall|i: int| 0 <= i < q.len() implies 0 <= #[trigger] q[i] < m.states.len() by {
            assert(q[i] == p[i + 1]);
        }
        assert(m.eps_path(q));
        lemma_eps_path_walk(m, q);
        assert(m.eps_edge(p[0], p[1]));
        let j = choose|j: int|
            0 <= j < m.states[p[0]].len() && #[trigger] m.states[p[0]][j].0 == p[1] && m.states[p[0]][j].1
                == Trans::Epsilon;
        assert(edge_ok(m.states, p[0], j, Seq::empty()));
        assert(after_edge(m.states, p[0], j, Seq::empty()) == Seq::<char>::empty());
        assert(q[0] == p[1] && q.last() == p.last());
    }
}

/// A state live after reading `w` from `set` is the end of a walk that
/// reads `w` from a state of `set`.
proof fn lemma_run_walk(m: NfaView, set: Set<int>, w: Seq<char>, u: int) -> (res: (int, nat))
    requires
        m.run(set, w).contains(u),
    ensures
        set.contains(res.0),
        walk(m.states, res.0, w, u, res.1),
    decreases w.len(),
{
    let t = m.states;
    if w.len() == 0 {
        (u, 0)
    } else {
        let c = w[0];
        let x = m.step(set, c);
        let (s2, k2) = lemma_run_walk(m, m.closure(x), w.drop_first(), u);
        let s1 = choose|s1: int| x.contains(s1) && #[trigger] m.eps_reach(s1, s2);
        let p = choose|p: Seq<int>| #[trigger] m.eps_path(p) && p[0] == s1 && p.last() == s2;
        lemma_eps_path_walk(m, p);
        let s0 = choose|s0: int| set.contains(s0) && #[trigger] m.char_edge(s0, c, s1);
        let j = choose|j: int|
            0 <= j < t[s0].len() && #[trigger] t[s0][j].0 == s1 && (t[s0][j].1 == Trans::Symbol(c)
                || t[s0][j].1 == Trans::Any);
        let one = seq![c];
        assert(one.drop_first() =~= Seq::<char>::empty());
        assert(walk(t, s1, one.drop_first(), s1, 0));
        assert(edge_ok(t, s0, j, one));
        assert(after_edge(t, s0, j, one) == one.drop_first());
        assert(walk(t, s0, one, s1, 1));
        let kp = (p.len() - 1) as nat;
        lemma_walk_concat(t, s0, one, s1, 1, Seq::empty(), s2, kp);
        assert(one + Seq::<char>::empty() =~= one);
        lemma_walk_concat(t, s0, one, s2, 1 + kp, w.drop_first(), u, k2);
        assert(one + w.drop_first() =~= w);
        (s0, 1 + kp + k2)
    }
}

/// In every table that keeps the states of the fragment that Thompson's
/// construction builds for `r` (its exit aside), a walk confined to the
/// fragment from its entry to its exit reads a string of the language of `r`.
proof fn lemma_walk_lang(r: Regex, st: Table, t: Table, w: Seq<char>, k: nat)
    requires
        st.len() + state_count(r) <= usize::MAX + 1,
        build(r, st).0.len() <= t.len(),
        forall|s: int|
            st.len() <= s < build(r, st).0.len() && s != build(r, st).2 ==> #[trigger] t[s] == build(r, st).0[s],
        walk_in(t, st.len() as int, build(r, st).0.len() as int, build(r, st).2, build(r, st).1, w, build(r, st).2, k),
    ensures
        lang(r, w),
    decreases r, k, 1nat,
{
    match r {
        Regex::Symbol(_) | Regex::Dot | Regex::Empty => lemma_walk_lang_atom(r, st, t, w, k),
        Regex::Concat(_) => lemma_walk_lang_concat(r, st, t, w, k),
        Regex::Union(_) => lemma_walk_lang_union(r, st, t, w, k),
        Regex::Star(_) | Regex::Plus(_) => lemma_walk_lang_loop(r, st, t, w, k),
    }
}

/// `lemma_walk_lang` for a symbol, the wildcard and `Empty`.
proof fn lemma_walk_lang_atom(r: Regex, st: Table, t: Table, w: Seq<char>, k: nat)
    requires
        st.len() + state_count(r) <= usize::MAX + 1,
        build(r, st).0.len() <= t.len(),
        forall|s: int|
            st.len() <= s < build(r, st).0.len() && s != build(r, st).2 ==> #[trigger] t[s] == build(r, st).0[s],
        walk_in(t, st.len() as int, build(r, st).0.len() as int, build(r, st).2, build(r, st).1, w, build(r, st).2, k),
        r is Symbol || r is Dot || r is Empty,
    ensures
        lang(r, w),
    decreases r, k, 0nat,
{
    let n = st.len() as int;
    let e = Seq::<(usize, Trans)>::empty();
    let b = build(r, st);
    let hi = b.0.len() as int;
    let x = b.2;
    lemma_build_shape(r, st);
    lemma_build_frame(r, st);
    match r {
        Regex::Symbol(c) => {
            lemma_add_edge_at(st.push(e).push(e), n, n + 1, Trans::Symbol(c));
            assert(st.push(e).push(e)[n] == e);
            assert(t[n] =~= seq![((n + 1) as usize, Trans::Symbol(c))]);
            let j = choose|j: int|
                #[trigger] edge_ok(t, n, j, w) && walk_in(t, n, hi, x, t[n][j].0 as int, after_edge(t, n, j, w), x, (k - 1) as nat);
            lemma_walk_in_exit(t, n, hi, x, w.drop_first(), (k - 1) as nat);
            assert(w =~= seq![c]);
        },
        Regex::Dot => {
            lemma_add_edge_at(st.push(e).push(e), n, n + 1, Trans::Any);
            assert(st.push(e).push(e)[n] == e);
            assert(t[n] =~= seq![((n + 1) as usize, Trans::Any)]);
            let j = choose|j: int|
                #[trigger] edge_ok(t, n, j, w) && walk_in(t, n, hi, x, t[n][j].0 as int, after_edge(t, n, j, w), x, (k - 1) as nat);
            lemma_walk_in_exit(t, n, hi, x, w.drop_first(), (k - 1) as nat);
        },
        Regex::Empty => {
            lemma_walk_in_exit(t, n, hi, x, w, k);
        },
        _ => {},
    }
}

/// `lemma_walk_lang` for a concatenation: the walk crosses the left
/// fragment, then the edge between the two, then the right fragment.
proof fn lemma_walk_lang_concat(r: Regex, st: Table, t: Table, w: Seq<char>, k: nat)
    requires
        st.len() + state_count(r) <= usize::MAX + 1,
        build(r, st).0.len() <= t.len(),
        forall|s: int|
            st.len() <= s < build(r, st).0.len() && s != build(r, st).2 ==> #[trigger] t[s] == build(r, st).0[s],
        walk_in(t, st.len() as int, build(r, st).0.len() as int, build(r, st).2, build(r, st).1, w, build(r, st).2, k),
        r is Concat,
    ensures
        lang(r, w),
    decreases r, k, 0nat,
{
    let n = st.len() as int;
    let e = Seq::<(usize, Trans)>::empty();
    let b = build(r, st);
    let hi = b.0.len() as int;
    let x = b.2;
    lemma_build_shape(r, st);
    lemma_build_frame(r, st);
    match r {
        Regex::Concat((left, right)) => {
            let (t1, lf, ll) = build(*left, st.push(e));
            let (t2, rf, rl) = build(*right, t1);
            lemma_build_shape(*left, st.push(e));
            lemma_build_shape(*right, t1);
            lemma_build_frame(*left, st.push(e));
            lemma_build_frame(*right, t1);
            let a1 = add_edge(t2, n, lf, Trans::Epsilon);
            lemma_add_edge_at(t2, n, lf, Trans::Epsilon);
            lemma_add_edge_at(a1, ll, rf, Trans::Epsilon);
            assert(st.push(e)[n] == e);
            assert(t1[n] == e);
            assert(t2[ll] == t1[ll]);
            assert(t[n] =~= seq![(lf as usize, Trans::Epsilon)]);
            assert(t[ll] =~= seq![(rf as usize, Trans::Epsilon)]);
            let j = choose|j: int|
                #[trigger] edge_ok(t, n, j, w) && walk_in(t, n, hi, x, t[n][j].0 as int, after_edge(t, n, j, w), x, (k - 1) as nat);
            assert(j == 0);
            assert forall|a: int| n + 1 <= a < t1.len() && a != ll implies #[trigger] t[a] == t1[a] by {
                assert(t2[a] == t1[a]);
            }
            let (w1, w2, k2) = lemma_walk_split(t, n, hi, x, n + 1, t1.len() as int, ll, lf, w, x, (k - 1) as nat);
            lemma_walk_lang(*left, st.push(e), t, w1, (k - 1) as nat);
            let j2 = choose|j2: int|
                #[trigger] edge_ok(t, ll, j2, w2) && walk_in(t, n, hi, x, t[ll][j2].0 as int, after_edge(t, ll, j2, w2), x, (k2 - 1) as nat);
            assert(j2 == 0);
            assert forall|a: int| t1.len() <= a < t2.len() && a != rl implies #[trigger] t[a] == t2[a] by {
            }
            let (w3, w4, k4) = lemma_walk_split(t, n, hi, x, t1.len() as int, t2.len() as int, rl, rf, w2, x, (k2 - 1) as nat);
            lemma_walk_in_exit(t, n, hi, x, w4, k4);
            lemma_walk_lang(*right, t1, t, w3, (k2 - 1) as nat);
            let i = w1.len() as int;
            assert(w.take(i) =~= w1);
            assert(w.skip(i) =~= w3);
        },
        _ => {},
    }
}

/// `lemma_walk_lang` for a union: the walk crosses one of the two fragments.
proof fn lemma_walk_lang_union(r: Regex, st: Table, t: Table, w: Seq<char>, k: nat)
    requires
        st.len() + state_count(r) <= usize::MAX + 1,
        build(r, st).0.len() <= t.len(),
        forall|s: int|
            st.len() <= s < build(r, st).0.len() && s != build(r, st).2 ==> #[trigger] t[s] == build(r, st).0[s],
        walk_in(t, st.len() as int, build(r, st).0.len() as int, build(r, st).2, build(r, st).1, w, build(r, st).2, k),
        r is Union,
    ensures
        lang(r, w),
    decreases r, k, 0nat,
{
    let n = st.len() as int;
    let e = Seq::<(usize, Trans)>::empty();
    let b = build(r, st);
    let hi = b.0.len() as int;
    let x = b.2;
    lemma_build_shape(r, st);
    lemma_build_frame(r, st);
    match r {
        Regex::Union((left, right)) => {
            let (t1, lf, ll) = build(*left, st.push(e));
            let (t2, rf, rl) = build(*right, t1);
            lemma_build_shape(*left, st.push(e));
            lemma_build_shape(*right, t1);
            lemma_build_frame(*left, st.push(e));
            lemma_build_frame(*right, t1);
            let a1 = add_edge(t2, n, lf, Trans::Epsilon);
            let t3 = add_edge(a1, n, rf, Trans::Epsilon);
            let last = t3.len() as int;
            let t4 = t3.push(e);
            let a2 = add_edge(t4, ll, last, Trans::Epsilon);
            lemma_add_edge_at(t2, n, lf, Trans::Epsilon);
            lemma_add_edge_at(a1, n, rf, Trans::Epsilon);
            lemma_add_edge_at(t4, ll, last, Trans::Epsilon);
            lemma_add_edge_at(a2, rl, last, Trans::Epsilon);
            assert(st.push(e)[n] == e);
            assert(t1[n] == e);
            assert(t4[n] == t3[n]);
            assert(t4[ll] == t3[ll]);
            assert(t4[rl] == t3[rl]);
            assert(t2[ll] == t1[ll]);
            assert(t[n] =~= seq![(lf as usize, Trans::Epsilon), (rf as usize, Trans::Epsilon)]);
            assert(t[ll] =~= seq![(last as usize, Trans::Epsilon)]);
            assert(t[rl] =~= seq![(last as usize, Trans::Epsilon)]);
            assert forall|a: int| n + 1 <= a < t1.len() && a != ll implies #[trigger] t[a] == t1[a] by {
                assert(t2[a] == t1[a]);
                assert(t4[a] == t3[a]);
            }
            assert forall|a: int| t1.len() <= a < t2.len() && a != rl implies #[trigger] t[a] == t2[a] by {
                assert(t4[a] == t3[a]);
            }
            let j = choose|j: int|
                #[trigger] edge_ok(t, n, j, w) && walk_in(t, n, hi, x, t[n][j].0 as int, after_edge(t, n, j, w), x, (k - 1) as nat);
            if j == 0 {
                let (w1, w2, k2) = lemma_walk_split(t, n, hi, x, n + 1, t1.len() as int, ll, lf, w, x, (k - 1) as nat);
                lemma_walk_lang(*left, st.push(e), t, w1, (k - 1) as nat);
                let j2 = choose|j2: int|
                    #[trigger] edge_ok(t, ll, j2, w2) && walk_in(t, n, hi, x, t[ll][j2].0 as int, after_edge(t, ll, j2, w2), x, (k2 - 1) as nat);
                lemma_walk_in_exit(t, n, hi, x, w2, (k2 - 1) as nat);
                assert(w =~= w1);
            } else {
                let (w1, w2, k2) = lemma_walk_split(t, n, hi, x, t1.len() as int, t2.len() as int, rl, rf, w, x, (k - 1) as nat);
                lemma_walk_lang(*right, t1, t, w1, (k - 1) as nat);
                let j2 = choose|j2: int|
                    #[trigger] edge_ok(t, rl, j2, w2) && walk_in(t, n, hi, x, t[rl][j2].0 as int, after_edge(t, rl, j2, w2), x, (k2 - 1) as nat);
                lemma_walk_in_exit(t, n, hi, x, w2, (k2 - 1) as nat);
                assert(w =~= w1);
            }
        },
        _ => {},
    }
}

/// `lemma_walk_lang` for `Star` and `Plus`: each pass through the inner
/// fragment reads one piece; the walk then loops back or leaves.
proof fn lemma_walk_lang_loop(r: Regex, st: Table, t: Table, w: Seq<char>, k: nat)
    requires
        st.len() + state_count(r) <= usize::MAX + 1,
        build(r, st).0.len() <= t.len(),
        forall|s: int|
            st.len() <= s < build(r, st).0.len() && s != build(r, st).2 ==> #[trigger] t[s] == build(r, st).0[s],
        walk_in(t, st.len() as int, build(r, st).0.len() as int, build(r, st).2, build(r, st).1, w, build(r, st).2, k),
        r is Star || r is Plus,
    ensures
        lang(r, w),
    decreases r, k, 0nat,
{
    let n = st.len() as int;
    let e = Seq::<(usize, Trans)>::empty();
    let b = build(r, st);
    let hi = b.0.len() as int;
    let x = b.2;
    lemma_build_shape(r, st);
    lemma_build_frame(r, st);
    match r {
        Regex::Star(inner) | Regex::Plus(inner) => {
            let (t1, xf, xl) = build(*inner, st.push(e));
            lemma_build_shape(*inner, st.push(e));
            lemma_build_frame(*inner, st.push(e));
            let a1 = add_edge(t1, n, xf, Trans::Epsilon);
            lemma_add_edge_at(t1, n, xf, Trans::Epsilon);
            let t2 = add_edge(a1, xl, n, Trans::Epsilon);
            lemma_add_edge_at(a1, xl, n, Trans::Epsilon);
            let last = t2.len() as int;
            let t3 = t2.push(e);
            assert(st.push(e)[n] == e);
            assert(t1[n] == e);
            assert(t3[n] == t2[n]);
            assert(t3[xl] == t2[xl]);
            if r is Star {
                let a2 = add_edge(t3, n, last, Trans::Epsilon);
                lemma_add_edge_at(t3, n, last, Trans::Epsilon);
                lemma_add_edge_at(a2, xl, last, Trans::Epsilon);
                assert(t[n] =~= seq![(xf as usize, Trans::Epsilon), (last as usize, Trans::Epsilon)]);
            } else {
                lemma_add_edge_at(t3, xl, last, Trans::Epsilon);
                assert(t[n] =~= seq![(xf as usize, Trans::Epsilon)]);
            }
            assert(t[xl] =~= seq![(n as usize, Trans::Epsilon), (last as usize, Trans::Epsilon)]);
            assert forall|a: int| n + 1 <= a < t1.len() && a != xl implies #[trigger] t[a] == t1[a] by {
                assert(t3[a] == t2[a]);
            }
            let j = choose|j: int|
                #[trigger] edge_ok(t, n, j, w) && walk_in(t, n, hi, x, t[n][j].0 as int, after_edge(t, n, j, w), x, (k - 1) as nat);
            if j == 1 {
                lemma_walk_in_exit(t, n, hi, x, w, (k - 1) as nat);
                assert(lang(r, w));
            } else {
                let (w1, w2, k2) = lemma_walk_split(t, n, hi, x, n + 1, t1.len() as int, xl, xf, w, x, (k - 1) as nat);
                lemma_walk_lang(*inner, st.push(e), t, w1, (k - 1) as nat);
                let j2 = choose|j2: int|
                    #[trigger] edge_ok(t, xl, j2, w2) && walk_in(t, n, hi, x, t[xl][j2].0 as int, after_edge(t, xl, j2, w2), x, (k2 - 1) as nat);
                let i = w1.len() as int;
                if j2 == 0 {
                    lemma_walk_lang(r, st, t, w2, (k2 - 1) as nat);
                    if i == 0 {
                        assert(w =~= w2);
                        assert(lang(r, w));
                    } else {
                        assert(w.take(i) =~= w1);
                        assert(w.skip(i) =~= w2);
                        assert(lang(r, w));
                    }
                } else {
                    lemma_walk_in_exit(t, n, hi, x, w2, (k2 - 1) as nat);
                    assert(w =~= w1);
                    if r is Star && i > 0 {
                        assert(w.take(i) =~= w1);
                        assert(w.skip(i) =~= Seq::<char>::empty());
                        lemma_lang_star_empty(r);
                        assert(lang(r, w));
                    } else if r is Plus {
                        assert(lang(r, w));
                    }
                }
            }
        },
        _ => {},
    }
}

proof fn lemma_lang_star_empty(r: Regex)
    requires
        r is Star,
    ensures
        lang(r, Seq::empty()),
{
}

proof fn lemma_lang_symbol(c: char, w: Seq<char>)
    requires
        w == seq![c],
    ensures
        lang(Regex::Symbol(c), w),
{
}

proof fn lemma_lang_chain(s: Seq<char>)
    ensures
        lang(literal_chain(s), s),
    decreases s.len(),
{
    if s.len() == 1 {
        assert(s =~= seq![s[0]]);
    } else if s.len() > 1 {
        lemma_lang_chain(s.drop_last());
        let i = s.len() - 1;
        assert(s.take(i) =~= s.drop_last());
        assert(s.skip(i) =~= seq![s.last()]);
        let left = literal_chain(s.drop_last());
        let right = Regex::Symbol(s.last());
        assert(literal_chain(s) == Regex::Concat((Box::new(left), Box::new(right))));
        assert(lang(left, s.take(i)));
        lemma_lang_symbol(s.last(), s.skip(i));
        assert(lang(Regex::Concat((Box::new(left), Box::new(right))), s));
    }
}

/// The automaton compiled from a tree accepts exactly the strings of the
/// tree's language.
pub proof fn lemma_compiled_language(r: Regex, w: Seq<char>)
    requires
        state_count(r) <= usize::MAX,
    ensures
        compiled(r).accepts(w) == lang(r, w),
{
    if lang(r, w) {
        lemma_compiled_accepts(r, w);
    }
    if compiled(r).accepts(w) {
        let m = compiled(r);
        let b = build(r, Seq::empty());
        lemma_build_shape(r, Seq::empty());
        lemma_build_frame(r, Seq::empty());
        let a = choose|a: int|
            0 <= a < m.accepting.len() && #[trigger] m.run(m.start(), w).contains(m.accepting[a] as int);
        assert(m.accepting[a] as int == b.2);
        let (s, k) = lemma_run_walk(m, m.start(), w, b.2);
        let s0 = choose|s0: int| set![m.initial as int].contains(s0) && #[trigger] m.eps_reach(s0, s);
        let p = choose|p: Seq<int>| #[trigger] m.eps_path(p) && p[0] == s0 && p.last() == s;
        lemma_eps_path_walk(m, p);
        let kp = (p.len() - 1) as nat;
        lemma_walk_concat(b.0, b.1, Seq::empty(), s, kp, w, b.2, k);
        assert(Seq::<char>::empty() + w =~= w);
        lemma_walk_confined(b.0, b.2, b.1, w, kp + k);
        lemma_walk_lang(r, Seq::empty(), b.0, w, kp + k);
    }
}

proof fn lemma_lang_chain_only(s: Seq<char>, v: Seq<char>)
    requires
        lang(literal_chain(s), v),
    ensures
        v == s,
    decreases s.len(),
{
    if s.len() == 0 {
        assert(v =~= s);
    } else if s.len() == 1 {
        assert(v =~= s);
    } else {
        let left = literal_chain(s.drop_last());
        let right = Regex::Symbol(s.last());
        assert(literal_chain(s) == Regex::Concat((Box::new(left), Box::new(right))));
        let i = choose|i: int| 0 <= i <= v.len() && lang(left, #[trigger] v.take(i)) && lang(right, v.skip(i));
        lemma_lang_chain_only(s.drop_last(), v.take(i));
        assert(v.skip(i) == seq![s.last()]);
        assert(v =~= v.take(i) + v.skip(i));
        assert(s =~= s.drop_last() + seq![s.last()]);
    }
}

/// A pattern of letters, digits and spaces parses to the left-associated
/// chain of concatenations of its characters, and the automaton compiled from
/// it accepts that very string and no other (no extension of it either).
pub proof fn lemma_literal_round_trip(s: Seq<char>, v: Seq<char>)
    requires
        forall|i: int| 0 <= i < s.len() ==> is_symbol_char(#[trigger] s[i]),
        state_count(parse_spec(s)) <= usize::MAX,
    ensures
        parse_spec(s) == literal_chain(s),
        compiled(parse_spec(s)).accepts(v) == (v == s),
{
    lemma_parse_literals(s);
    lemma_lang_chain(s);
    lemma_compiled_language(parse_spec(s), v);
    if lang(literal_chain(s), v) {
        lemma_lang_chain_only(s, v);
    }
}

} // verus!
