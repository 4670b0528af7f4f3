//! The construction algebra on the model: unit, empty, alternation,
//! concatenation and star, and what each accepts.

use crate::automaton::{below, lemma_run_below, Automaton};
use crate::reduction::{
    lemma_live_monotone, lemma_reduce_accepts, lemma_reduce_trimmed, live, reaches_accept, reduce,
    trimmed,
};
use crate::symbol::ExtendedChar;
use vstd::prelude::*;

verus! {

/// The set `set` with every state number raised by `by`.
pub open spec fn shift(set: Set<nat>, by: nat) -> Set<nat> {
    Set::new(|q: nat| q >= by && set.contains((q - by) as nat))
}

/// The transitions `edges` with every source and destination raised by `by`.
pub open spec fn shift_edges(edges: Set<(nat, ExtendedChar, nat)>, by: nat) -> Set<
    (nat, ExtendedChar, nat),
> {
    Set::new(
        |t: (nat, ExtendedChar, nat)|
            t.0 >= by && t.2 >= by && edges.contains(((t.0 - by) as nat, t.1, (t.2 - by) as nat)),
    )
}

/// Whether the transitions of `a` from `q` on `s` reach an accept state of `a`.
pub open spec fn completes(a: Automaton, q: nat, s: ExtendedChar) -> bool {
    exists|r: nat| a.edges.contains((q, s, r)) && a.accept.contains(r)
}

/// The transitions that lead, from every source and label of `a` that
/// completes `a`, to every state of `onward`.
pub open spec fn bridge(a: Automaton, onward: Set<nat>) -> Set<(nat, ExtendedChar, nat)> {
    Set::new(|t: (nat, ExtendedChar, nat)| completes(a, t.0, t.1) && onward.contains(t.2))
}

/// Whether some start state of `a` is also an accept state.
pub open spec fn starts_accepting(a: Automaton) -> bool {
    exists|q: nat| a.start.contains(q) && a.accept.contains(q)
}

/// The automaton of two states with one transition from the start state 0 to
/// the accept state 1, labelled `symbol`.
pub open spec fn unit(symbol: ExtendedChar) -> Automaton {
    Automaton {
        states: 2,
        start: set![0nat],
        accept: set![1nat],
        edges: set![(0nat, symbol, 1nat)],
    }
}

/// The automaton of one state, start and accept at once, without transitions.
pub open spec fn empty() -> Automaton {
    Automaton { states: 1, start: set![0nat], accept: set![0nat], edges: Set::empty() }
}

/// The disjoint union of `a` and `b`: the states of `b` follow those of `a`.
pub open spec fn alternate(a: Automaton, b: Automaton) -> Automaton {
    Automaton {
        states: a.states + b.states,
        start: a.start + shift(b.start, a.states),
        accept: a.accept + shift(b.accept, a.states),
        edges: a.edges + shift_edges(b.edges, a.states),
    }
}

/// `a` followed by `b`: the states of `b` follow those of `a`; whatever
/// completes `a` also enters `b`, and only the accept states of `b` accept.
pub open spec fn concat(a: Automaton, b: Automaton) -> Automaton {
    Automaton {
        states: a.states + b.states,
        start: if starts_accepting(a) {
            a.start + shift(b.start, a.states)
        } else {
            a.start
        },
        accept: shift(b.accept, a.states),
        edges: a.edges + bridge(a, shift(b.start, a.states)) + shift_edges(b.edges, a.states),
    }
}

/// Zero or more repetitions of `a`: whatever completes `a` also restarts it,
/// and the start states accept too.
pub open spec fn star(a: Automaton) -> Automaton {
    Automaton {
        states: a.states,
        start: a.start,
        accept: a.accept + a.start,
        edges: a.edges + bridge(a, a.start),
    }
}

/// The combinators keep every state number below the state count.
pub proof fn lemma_combinators_wf(a: Automaton, b: Automaton, symbol: ExtendedChar)
    requires
        a.wf(),
        b.wf(),
    ensures
        unit(symbol).wf(),
        empty().wf(),
        alternate(a, b).wf(),
        concat(a, b).wf(),
        star(a).wf(),
{
}

/// One step of the unit automaton leads to state 1, from state 0 and on a
/// character that the label admits, and nowhere else.
proof fn lemma_unit_step(symbol: ExtendedChar, active: Set<nat>, c: char)
    ensures
        forall|r: nat|
            unit(symbol).step(active, c).contains(r) <==> (r == 1 && active.contains(0)
                && symbol.admits(c)),
{
    let u = unit(symbol);
    assert forall|r: nat| u.step(active, c).contains(r) implies (r == 1 && active.contains(0)
        && symbol.admits(c)) by {
        let q = choose|q: nat| active.contains(q) && u.moves(q, c, r);
        assert(q == 0 && r == 1);
    }
    if active.contains(0) && symbol.admits(c) {
        assert(u.moves(0, c, 1));
    }
}

/// What the unit automaton accepts: the words of exactly one character that
/// its label admits.
pub proof fn lemma_unit_accepts(symbol: ExtendedChar, input: Seq<char>)
    ensures
        unit(symbol).accepts(input) <==> input.len() == 1 && symbol.admits(input[0]),
{
    let u = unit(symbol);
    reveal_with_fuel(Automaton::run, 3);
    if input.len() == 0 {
        assert(!u.accepts(input));
    } else if input.len() == 1 {
        lemma_unit_step(symbol, u.start, input.last());
        if symbol.admits(input[0]) {
            assert(u.run(u.start, input).contains(1nat) && u.accept.contains(1nat));
        }
    } else {
        let mid = u.run(u.start, input.drop_last().drop_last());
        lemma_unit_step(symbol, mid, input.drop_last().last());
        lemma_unit_step(symbol, u.step(mid, input.drop_last().last()), input.last());
    }
}

/// One step of the empty automaton leads nowhere.
proof fn lemma_empty_step(active: Set<nat>, c: char)
    ensures
        empty().step(active, c) == Set::<nat>::empty(),
{
    assert(empty().step(active, c) =~= Set::<nat>::empty());
}

/// The empty automaton accepts the empty word and nothing else.
pub proof fn lemma_empty_accepts(input: Seq<char>)
    ensures
        empty().accepts(input) <==> input.len() == 0,
{
    let e = empty();
    if input.len() == 0 {
        assert(e.start.contains(0nat) && e.accept.contains(0nat));
    } else {
        lemma_empty_step(e.run(e.start, input.drop_last()), input.last());
    }
}

/// One step of the alternation is one step of each side.
proof fn lemma_alternate_step(a: Automaton, b: Automaton, left: Set<nat>, right: Set<nat>, c: char)
    requires
        a.wf(),
        b.wf(),
        below(left, a.states),
    ensures
        alternate(a, b).step(left + shift(right, a.states), c) == a.step(left, c) + shift(
            b.step(right, c),
            a.states,
        ),
{
    let ab = alternate(a, b);
    let n = a.states;
    let from = left + shift(right, n);
    let to = a.step(left, c) + shift(b.step(right, c), n);
    assert forall|r: nat| ab.step(from, c).contains(r) implies to.contains(r) by {
        let q = choose|q: nat| from.contains(q) && ab.moves(q, c, r);
        if left.contains(q) {
            assert(a.moves(q, c, r));
        } else {
            assert(right.contains((q - n) as nat));
            assert(b.moves((q - n) as nat, c, (r - n) as nat));
            assert(b.step(right, c).contains((r - n) as nat));
        }
    }
    assert forall|r: nat| to.contains(r) implies ab.step(from, c).contains(r) by {
        if a.step(left, c).contains(r) {
            let q = choose|q: nat| left.contains(q) && a.moves(q, c, r);
            assert(from.contains(q) && ab.moves(q, c, r));
        } else {
            let r0 = (r - n) as nat;
            let q0 = choose|q0: nat| right.contains(q0) && b.moves(q0, c, r0);
            let q = q0 + n;
            assert((q - n) as nat == q0);
            assert(shift(right, n).contains(q));
            assert(from.contains(q) && ab.moves(q, c, r));
        }
    }
    assert(ab.step(from, c) =~= to);
}

/// A run of the alternation is a run of each side.
proof fn lemma_alternate_run(
    a: Automaton,
    b: Automaton,
    left: Set<nat>,
    right: Set<nat>,
    input: Seq<char>,
)
    requires
        a.wf(),
        b.wf(),
        below(left, a.states),
    ensures
        alternate(a, b).run(left + shift(right, a.states), input) == a.run(left, input) + shift(
            b.run(right, input),
            a.states,
        ),
    decreases input.len(),
{
    if input.len() > 0 {
        lemma_alternate_run(a, b, left, right, input.drop_last());
        lemma_run_below(a, left, input.drop_last());
        lemma_alternate_step(
            a,
            b,
            a.run(left, input.drop_last()),
            b.run(right, input.drop_last()),
            input.last(),
        );
    }
}

/// The alternation of two automata accepts a word exactly when one of the
/// two accepts it, and so does the reduced alternation.
pub proof fn lemma_alternate_accepts(a: Automaton, b: Automaton, input: Seq<char>)
    requires
        a.wf(),
        b.wf(),
    ensures
        alternate(a, b).accepts(input) == (a.accepts(input) || b.accepts(input)),
        reduce(alternate(a, b)).accepts(input) == (a.accepts(input) || b.accepts(input)),
{
    let ab = alternate(a, b);
    let n = a.states;
    lemma_reduce_accepts(ab, input);
    lemma_alternate_run(a, b, a.start, b.start, input);
    lemma_run_below(a, a.start, input);
    lemma_run_below(b, b.start, input);
    let left = a.run(a.start, input);
    let right = b.run(b.start, input);
    if ab.accepts(input) {
        let q = choose|q: nat| (left + shift(right, n)).contains(q) && ab.accept.contains(q);
        if left.contains(q) {
            assert(a.accept.contains(q));
        } else {
            assert(right.contains((q - n) as nat) && b.accept.contains((q - n) as nat));
        }
    }
    if a.accepts(input) {
        let q = choose|q: nat| left.contains(q) && a.accept.contains(q);
        assert((left + shift(right, n)).contains(q) && ab.accept.contains(q));
    }
    if b.accepts(input) {
        let q0 = choose|q0: nat| right.contains(q0) && b.accept.contains(q0);
        let q = q0 + n;
        assert((q - n) as nat == q0);
        assert((left + shift(right, n)).contains(q) && ab.accept.contains(q));
    }
}

/// What reaches an accept state in the second automaton does so, raised, in
/// the alternation.
proof fn lemma_alternate_reaches_accept(a: Automaton, b: Automaton, q: nat, n: nat)
    requires
        reaches_accept(b, q, n),
    ensures
        reaches_accept(alternate(a, b), q + a.states, n),
    decreases n,
{
    let ab = alternate(a, b);
    let by = a.states;
    assert(((q + by) - by) as nat == q);
    if b.accept.contains(q) {
        assert(shift(b.accept, by).contains(q + by));
    } else {
        let (l, r) = choose|l: ExtendedChar, r: nat|
            #[trigger] b.edges.contains((q, l, r)) && reaches_accept(b, r, (n - 1) as nat);
        lemma_alternate_reaches_accept(a, b, r, (n - 1) as nat);
        assert(((r + by) - by) as nat == r);
        assert(shift_edges(b.edges, by).contains((q + by, l, r + by)));
        assert(ab.edges.contains((q + by, l, r + by)));
    }
}

/// The alternation of two trimmed automata is trimmed: reducing it changes
/// nothing.
pub proof fn lemma_alternate_trimmed(a: Automaton, b: Automaton)
    requires
        trimmed(a),
        trimmed(b),
    ensures
        trimmed(alternate(a, b)),
        reduce(alternate(a, b)) == alternate(a, b),
{
    let ab = alternate(a, b);
    let by = a.states;
    assert forall|q: nat, l: ExtendedChar, r: nat| #[trigger]
        ab.edges.contains((q, l, r)) implies live(ab, r) by {
        if a.edges.contains((q, l, r)) {
            lemma_live_monotone(a, ab, r);
        } else {
            let r0 = (r - by) as nat;
            assert(b.edges.contains(((q - by) as nat, l, r0)));
            let n = choose|n: nat| reaches_accept(b, r0, n);
            lemma_alternate_reaches_accept(a, b, r0, n);
            assert(r0 + by == r);
        }
    }
    lemma_reduce_trimmed(ab);
}

/// The star of a trimmed automaton is trimmed: reducing it changes nothing.
pub proof fn lemma_star_trimmed(a: Automaton)
    requires
        trimmed(a),
    ensures
        trimmed(star(a)),
        reduce(star(a)) == star(a),
{
    let s = star(a);
    assert forall|q: nat, l: ExtendedChar, r: nat| #[trigger]
        s.edges.contains((q, l, r)) implies live(s, r) by {
        if a.edges.contains((q, l, r)) {
            lemma_live_monotone(a, s, r);
        } else {
            assert(a.start.contains(r));
            assert(reaches_accept(s, r, 0));
        }
    }
    lemma_reduce_trimmed(s);
}

} // verus!

